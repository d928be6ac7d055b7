use vectorscale::access_method::stats::NodeStats;
use vectorscale::util::chain::{
    ChainItemReader, ChainTapeWriter, ChainWrite, PageRoom, RootStep, RootWrite,
};
use vectorscale::util::header::{make_item, read_next, CHAIN_ITEM_HEADER_SIZE};
use vectorscale::util::item_pointer::ItemPointer;
use vectorscale::util::page::{Page, PageType, Relation, WritablePage, BLOCK_SIZE};

/// A relation whose root page is in block zero.
fn make_test_relation() -> Relation {
    let mut index = Relation::new();
    let mut stats = NodeStats::default();
    let root = ChainTapeWriter::prepare_root(
        &mut index,
        PageType::Meta,
        &mut stats,
        0,
        true,
        &[b"first header"],
    );
    root.commit(&mut index);
    index
}

fn read_chain(index: &Relation, page_type: PageType, ip: ItemPointer) -> Vec<u8> {
    let mut stats = NodeStats::default();
    let reader = ChainItemReader::new(page_type);
    let mut iter = reader.read(ip);
    let mut data: Vec<u8> = Vec::new();
    while let Some(chunk) = iter.next(index, &mut stats) {
        data.extend_from_slice(chunk);
    }
    data
}

fn read_root_items(index: &Relation, expected: &[&[u8]]) {
    let root = index.page(0).unwrap();
    assert_eq!(root.page_type(), PageType::Meta);
    for (i, data) in expected.iter().enumerate() {
        let actual = read_chain(index, PageType::Meta, ItemPointer::new(0, (i + 1) as u16));
        assert_eq!(actual.as_slice(), *data);
    }
}

#[test]
fn test_chain_root_replacement() {
    let mut index = make_test_relation();
    let mut stats = NodeStats::default();
    let header = b"root header";
    for size in [3 * BLOCK_SIZE, 1, BLOCK_SIZE, 17] {
        let data: Vec<u8> = (0..size).map(|i| (i % 256) as u8).collect();
        let root = ChainTapeWriter::prepare_root(
            &mut index,
            PageType::Meta,
            &mut stats,
            0,
            false,
            &[header, &data],
        );
        root.commit(&mut index);
        read_root_items(&index, &[header, &data]);
    }
}

#[test]
fn test_chain_root_abort_before_publication() {
    let mut index = make_test_relation();
    let mut stats = NodeStats::default();
    let old_data = vec![42u8; 3 * BLOCK_SIZE];
    let root = ChainTapeWriter::prepare_root(
        &mut index,
        PageType::Meta,
        &mut stats,
        0,
        false,
        &[b"old header", &old_data],
    );
    root.commit(&mut index);

    let new_data = vec![99u8; 4 * BLOCK_SIZE];
    let root = ChainTapeWriter::prepare_root(
        &mut index,
        PageType::Meta,
        &mut stats,
        0,
        false,
        &[b"new header", &new_data],
    );
    // The suffix is written, but the root is given up.
    drop(root);
    read_root_items(&index, &[b"old header", &old_data]);

    let root = ChainTapeWriter::prepare_root(
        &mut index,
        PageType::Meta,
        &mut stats,
        0,
        false,
        &[b"new header", &new_data],
    );
    root.commit(&mut index);
    read_root_items(&index, &[b"new header", &new_data]);
}

fn write_and_read_back(index: &mut Relation, data_size: usize) {
    let mut wstats = NodeStats::default();
    let mut rstats = NodeStats::default();
    let bigdata: Vec<u8> = (0..data_size).map(|i| (i % 256) as u8).collect();
    let mut tape = ChainTapeWriter::new(index, PageType::SbqMeans);
    for _ in 0..10 {
        let ip = tape.write(index, &bigdata, &mut wstats);
        let mut count = 0;
        let reader = ChainItemReader::new(PageType::SbqMeans);
        let mut iter = reader.read(ip);
        while let Some(item) = iter.next(index, &mut rstats) {
            assert_eq!(item, &bigdata[count..count + item.len()]);
            count += item.len();
        }
        assert_eq!(count, bigdata.len());
    }
    // As many items are read as were written.
    assert_eq!(rstats.reads, wstats.writes);
}

#[test]
fn test_chain_tape() {
    let mut rstats = NodeStats::default();
    let mut wstats = NodeStats::default();
    let mut index = make_test_relation();
    {
        // A tape can be used for small items too.
        let mut tape = ChainTapeWriter::new(&mut index, PageType::SbqMeans);
        for i in 0..100 {
            let data = format!("hello world {i}");
            let ip = tape.write(&mut index, data.as_bytes(), &mut wstats);
            let reader = ChainItemReader::new(PageType::SbqMeans);
            let mut iter = reader.read(ip);
            let item = iter.next(&index, &mut rstats).unwrap();
            assert_eq!(item, data.as_bytes());
            assert!(iter.next(&index, &mut rstats).is_none());
        }
        assert_eq!(wstats.writes, 100);
        assert_eq!(rstats.reads, 100);
    }
    for data_size in BLOCK_SIZE - 100..BLOCK_SIZE + 100 {
        write_and_read_back(&mut index, data_size);
    }
    for data_size in (2 * BLOCK_SIZE - 100)..(2 * BLOCK_SIZE + 100) {
        write_and_read_back(&mut index, data_size);
    }
    for data_size in (3 * BLOCK_SIZE - 100)..(3 * BLOCK_SIZE + 100) {
        write_and_read_back(&mut index, data_size);
    }
}

#[test]
fn header_is_the_block_and_the_offset_in_little_endian() {
    let item = make_item(ItemPointer::new(0x0403_0201, 0x0605), b"xyz");
    assert_eq!(item, vec![1, 2, 3, 4, 5, 6, 0, 0, b'x', b'y', b'z']);
    assert_eq!(read_next(&item), ItemPointer::new(0x0403_0201, 0x0605));
    let last = make_item(ItemPointer::new_invalid(), b"");
    assert_eq!(last, vec![255, 255, 255, 255, 0, 0, 0, 0]);
    assert_eq!(last.len(), CHAIN_ITEM_HEADER_SIZE);
    assert!(!read_next(&last).is_valid());
}

#[test]
fn chunks_stand_one_after_the_other_on_new_pages() {
    let mut index = Relation::new();
    let mut stats = NodeStats::default();
    let mut tape = ChainTapeWriter::new(&mut index, PageType::SbqMeans);
    assert_eq!(index.block_count(), 1);
    // A page without items has room for one item of 8152 bytes, 8144 of them data.
    let data = vec![7u8; 2 * 8144 + 1];
    let ip = tape.write(&mut index, &data, &mut stats);
    assert_eq!(ip, ItemPointer::new(0, 1));
    assert_eq!(index.block_count(), 3);
    assert_eq!(stats.writes, 3);
    let first = index.page(0).unwrap().get_item(1);
    assert_eq!(first.len(), 8152);
    assert_eq!(read_next(first), ItemPointer::new(1, 1));
    assert_eq!(read_next(index.page(1).unwrap().get_item(1)), ItemPointer::new(2, 1));
    let last = index.page(2).unwrap().get_item(1);
    assert_eq!(last.len(), CHAIN_ITEM_HEADER_SIZE + 1);
    assert!(!read_next(last).is_valid());
    // The tape goes on behind the last chunk.
    assert_eq!(tape.write(&mut index, b"more", &mut stats), ItemPointer::new(2, 2));
    assert_eq!(read_chain(&index, PageType::SbqMeans, ip), data);
}

#[test]
fn an_empty_write_is_read_back() {
    let mut index = Relation::new();
    let mut stats = NodeStats::default();
    let mut tape = ChainTapeWriter::new(&mut index, PageType::SbqMeans);
    let ip = tape.write(&mut index, &[], &mut stats);
    assert_eq!(ip, ItemPointer::new(0, 1));
    let mut iter = ChainItemReader::new(PageType::SbqMeans).read(ip);
    let empty: &[u8] = &[];
    assert_eq!(iter.next(&index, &mut stats), Some(empty));
    assert_eq!(iter.next(&index, &mut stats), None);
    assert_eq!(read_chain(&index, PageType::SbqMeans, ip), empty);
}

#[test]
fn an_exact_fit_needs_no_second_page() {
    let mut index = Relation::new();
    let mut stats = NodeStats::default();
    let mut tape = ChainTapeWriter::new(&mut index, PageType::SbqMeans);
    let ip = tape.write(&mut index, &vec![1u8; 8144], &mut stats);
    assert_eq!(index.block_count(), 1);
    assert_eq!(stats.writes, 1);
    // The page is full, so the next write starts on a new one.
    let next = tape.write(&mut index, b"next", &mut stats);
    assert_eq!(next, ItemPointer::new(1, 1));
    assert_eq!(read_chain(&index, PageType::SbqMeans, ip), vec![1u8; 8144]);
    assert_eq!(read_chain(&index, PageType::SbqMeans, next), b"next");
}

#[test]
fn later_writes_keep_earlier_chains() {
    let mut index = Relation::new();
    let mut stats = NodeStats::default();
    let mut tape = ChainTapeWriter::new(&mut index, PageType::SbqMeans);
    let mut other = ChainTapeWriter::new(&mut index, PageType::Meta);
    let mut written: Vec<(PageType, ItemPointer, Vec<u8>)> = Vec::new();
    for i in 0..40usize {
        let data: Vec<u8> = (0..i * 977 + 1).map(|j| ((i + j) % 251) as u8).collect();
        let ip = tape.write(&mut index, &data, &mut stats);
        written.push((PageType::SbqMeans, ip, data));
        let data: Vec<u8> = vec![i as u8; 3 * i + 1];
        let ip = other.write(&mut index, &data, &mut stats);
        written.push((PageType::Meta, ip, data));
    }
    for (page_type, ip, data) in &written {
        assert_eq!(&read_chain(&index, *page_type, *ip), data);
    }
}

#[test]
fn replacing_a_root_keeps_other_chains_and_adds_pages_only_for_overflow() {
    let mut index = make_test_relation();
    let mut stats = NodeStats::default();
    let mut tape = ChainTapeWriter::new(&mut index, PageType::SbqMeans);
    let data = vec![5u8; 20_000];
    let ip = tape.write(&mut index, &data, &mut stats);
    let blocks = index.block_count();
    let root = ChainTapeWriter::prepare_root(
        &mut index,
        PageType::Meta,
        &mut stats,
        0,
        false,
        &[b"a", b"b", b"c"],
    );
    assert_eq!(root.get_block_number(), 0);
    assert_eq!(root.item_count(), 3);
    root.commit(&mut index);
    assert_eq!(index.block_count(), blocks);
    read_root_items(&index, &[b"a", b"b", b"c"]);
    assert_eq!(read_chain(&index, PageType::SbqMeans, ip), data);

    let large = vec![6u8; BLOCK_SIZE];
    let before = stats.writes;
    let root = ChainTapeWriter::prepare_root(
        &mut index,
        PageType::Meta,
        &mut stats,
        0,
        false,
        &[&large],
    );
    assert_eq!(index.block_count(), blocks + 1);
    assert_eq!(stats.writes, before + 1);
    root.commit(&mut index);
    read_root_items(&index, &[&large]);
    assert_eq!(read_chain(&index, PageType::SbqMeans, ip), data);
}

#[test]
fn chain_steps_name_the_pages_and_items() {
    let data: Vec<u8> = (0..30).collect();
    let mut chain = ChainWrite::new(
        PageRoom { block_number: 9, free_space: 24, next_offset: 4 },
        &data,
    );
    assert!(chain.needs_page());
    let item = chain.add_page(PageRoom { block_number: 12, free_space: 8152, next_offset: 1 });
    assert_eq!(item.location, ItemPointer::new(9, 4));
    assert_eq!(item.bytes, make_item(ItemPointer::new(12, 1), &data[..16]));
    assert!(!chain.needs_page());
    let (item, head) = chain.finish();
    assert_eq!(head, ItemPointer::new(9, 4));
    assert_eq!(item.location, ItemPointer::new(12, 1));
    assert_eq!(item.bytes, make_item(ItemPointer::new_invalid(), &data[16..]));
}

#[test]
fn root_steps_place_items_and_say_what_overflows() {
    let room = |free_space: usize, next_offset: u16| PageRoom {
        block_number: 0,
        free_space,
        next_offset,
    };
    let last: Vec<u8> = (0..20).collect();
    let items: [&[u8]; 2] = [b"first", &last];
    let mut root = RootWrite::new(&items);
    let end = ItemPointer::new_invalid();
    // There is no room, the first item does not fit, or the page holds something else.
    assert!(matches!(root.step(room(8, 1)), RootStep::Refused));
    assert!(matches!(root.step(room(12, 1)), RootStep::Refused));
    assert!(matches!(root.step(room(100, 2)), RootStep::Refused));
    match root.step(room(100, 1)) {
        RootStep::Add(item) => assert_eq!(item, make_item(end, b"first")),
        _ => panic!("the item fits"),
    }
    match root.step(room(24, 2)) {
        RootStep::Overflow(rest) => assert_eq!(rest, &last[16..]),
        _ => panic!("the item does not fit"),
    }
    let next = ItemPointer::new(5, 1);
    assert_eq!(root.link(room(24, 2), next), make_item(next, &last[..16]));
    assert!(matches!(root.step(room(100, 3)), RootStep::Done));

    let empty: [&[u8]; 1] = [b""];
    assert!(matches!(RootWrite::new(&empty).step(room(100, 1)), RootStep::Refused));
}

#[test]
fn data_is_split_where_a_page_ends() {
    let room = PageRoom { block_number: 0, free_space: 24, next_offset: 1 };
    assert!(room.takes_chunk());
    assert!(!PageRoom { free_space: 8, ..room }.takes_chunk());
    let data: Vec<u8> = (0..20).collect();
    assert_eq!(room.split(&data), (&data[..16], Some(&data[16..])));
    assert_eq!(room.split(&data[..16]), (&data[..16], None));
    assert_eq!(room.split(&[]), (&data[..0], None));
}

#[test]
fn a_page_takes_items_as_long_as_they_fit() {
    let mut page = Page::new(PageType::Node);
    assert_eq!(page.page_type(), PageType::Node);
    assert_eq!(page.item_count(), 0);
    assert_eq!(page.get_aligned_free_space(), 8152);
    assert_eq!(page.add_item(vec![1u8; 9]), 1);
    // Sixteen bytes for the item and four for its line pointer are gone.
    assert_eq!(page.get_aligned_free_space(), 8136);
    assert_eq!(page.add_item(vec![2u8; 8136]), 2);
    assert_eq!(page.get_aligned_free_space(), 0);
    assert_eq!(page.item_count(), 2);
    assert_eq!(page.get_item(1), &vec![1u8; 9]);
    let copy = page.copy();
    assert_eq!(copy.get_item(2), page.get_item(2));
    assert_eq!(copy.get_aligned_free_space(), 0);
}

#[test]
fn only_a_committed_page_is_seen() {
    let mut index = Relation::new();
    let mut page = WritablePage::new(&mut index, PageType::Meta);
    assert_eq!(index.block_count(), 1);
    assert!(index.page(0).is_none());
    page.add_item(vec![1u8]);
    page.commit(&mut index);
    assert_eq!(index.page(0).unwrap().item_count(), 1);
    let mut page = WritablePage::modify(&index, 0);
    page.reinit(PageType::SbqMeans);
    drop(page);
    assert_eq!(index.page(0).unwrap().item_count(), 1);
    assert_eq!(index.page(0).unwrap().page_type(), PageType::Meta);
}

#[test]
fn only_chained_pages_hold_chains() {
    assert!(PageType::Meta.is_chained());
    assert!(PageType::SbqMeans.is_chained());
    assert!(!PageType::Node.is_chained());
}
