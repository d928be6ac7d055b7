//! What chains, root pages and pages promise of where things stand.

use vstd::prelude::*;

use super::chain::{
    chunk_location, chunks_of, end_of_chain, has_chunk, item_at, joined, lemma_chunks,
    root_chunk_size, root_fits, root_overflows, root_page, root_ready, root_staged, root_suffix,
    slices, start_items, suffix_chunks, tape_chunks, tape_on, whole_items, written, written_current,
    written_len, PageRoom, RootWrite, FRESH_CHUNK_SIZE,
};
use super::header::{chain_item, le_bytes, next_of, payload_of, CHAIN_ITEM_HEADER_SIZE};
use super::item_pointer::{ItemPointer, INVALID_BLOCK_NUMBER};
use super::page::{free_space, lemma_fresh_free_space, occupied, PageType, PageView, RelationView};

verus! {

/// How an item begins: the block and the offset of the next item, the least significant byte
/// first, in eight bytes; the chunk follows.
pub proof fn lemma_item_layout(next: ItemPointer, chunk: Seq<u8>)
    ensures
        ({
            let item = chain_item(next, chunk);
            &&& item.len() == 8 + chunk.len()
            &&& item[0] + 256 * item[1] + 65536 * item[2] + 16777216 * item[3]
                == next.block_number
            &&& item[4] + 256 * item[5] == next.offset
            &&& item[6] == 0
            &&& item[7] == 0
            &&& item.skip(8) == chunk
        }),
        end_of_chain().block_number == 0xFFFF_FFFF,
        end_of_chain().offset == 0,
        CHAIN_ITEM_HEADER_SIZE == 8,
{
    let item = chain_item(next, chunk);
    let b = next.block_number;
    let o = next.offset as u32;
    assert(item[0] == le_bytes(b)[0] && item[1] == le_bytes(b)[1] && item[2] == le_bytes(b)[2]
        && item[3] == le_bytes(b)[3]);
    assert(item[4] == le_bytes(o)[0] && item[5] == le_bytes(o)[1] && item[6] == le_bytes(o)[2]
        && item[7] == le_bytes(o)[3]);
    assert(b == b % 256 + 256 * (b / 256 % 256) + 65536 * (b / 65536 % 256) + 16777216 * (b
        / 16777216 % 256));
    assert(item.skip(8) =~= chunk);
}

/// What is read of an item: where the next one stands, and all that follows the header.
pub proof fn lemma_item_read(item: Seq<u8>)
    requires
        item.len() >= 8,
    ensures
        next_of(item).block_number == item[0] + 256 * item[1] + 65536 * item[2] + 16777216
            * item[3],
        next_of(item).offset == item[4] + 256 * item[5],
        item.take(8) + payload_of(item) == item,
{
    assert(item.take(8) + payload_of(item) =~= item);
}

/// Chunks are joined one after the other.
pub proof fn lemma_joined(chunks: Seq<Seq<u8>>, chunk: Seq<u8>)
    ensures
        joined(Seq::<Seq<u8>>::empty()) == Seq::<u8>::empty(),
        joined(chunks.push(chunk)) == joined(chunks) + chunk,
    decreases chunks.len(),
{
    let all = chunks.push(chunk);
    if chunks.len() == 0 {
        assert(all.drop_first() =~= Seq::<Seq<u8>>::empty());
        assert(joined(all.drop_first()) =~= Seq::<u8>::empty());
        assert(joined(all) =~= joined(chunks) + chunk);
    } else {
        lemma_joined(chunks.drop_first(), chunk);
        assert(all.drop_first() =~= chunks.drop_first().push(chunk));
        assert(joined(all) =~= joined(chunks) + chunk);
    }
}

/// Data is cut no finer than it has to be: every chunk but the last has the size that its page
/// takes, and data that fits on the first page is not cut.
pub proof fn lemma_chunks_fill(data: Seq<u8>, first: int, later: int)
    requires
        first > 0,
        later > 0,
    ensures
        ({
            let cs = chunks_of(data, first, later);
            &&& cs.len() == 1 <==> data.len() <= first
            &&& cs.len() > 1 ==> cs[0].len() == first
            &&& forall|k: int| 1 <= k < cs.len() - 1 ==> (#[trigger] cs[k]).len() == later
        }),
    decreases data.len(),
{
    let cs = chunks_of(data, first, later);
    if data.len() > first {
        let tail = chunks_of(data.skip(first), later, later);
        lemma_chunks(data.skip(first), later, later);
        lemma_chunks_fill(data.skip(first), later, later);
        assert forall|k: int| 1 <= k < cs.len() - 1 implies (#[trigger] cs[k]).len() == later by {
            assert(cs[k] == tail[k - 1]);
        }
    }
}

/// How much room the page in a block leaves.
pub open spec fn room_in(rel: RelationView, block: int) -> int {
    free_space(rel[block]->0.items)
}

/// What a write changes. It goes on on the tape's page where that has room for a header and a
/// byte, and starts a new page where it has not. One item is added to the tape's page or none,
/// every new page has one item, and nothing else changes.
pub proof fn lemma_write_changes(
    rel: RelationView,
    page_type: PageType,
    current: int,
    data: Seq<u8>,
)
    requires
        tape_on(rel, page_type, current),
    ensures
        ({
            let after = written(rel, page_type, current, data);
            let chunks = tape_chunks(rel, current, data).len();
            let stays = room_in(rel, current) >= 9;
            &&& after.len() == rel.len() + chunks - if stays {
                1int
            } else {
                0
            }
            &&& after.len() == written_len(rel, current, data)
            &&& forall|b: int|
                0 <= b < rel.len() && b != current ==> #[trigger] after[b] == rel[b]
            &&& stays ==> {
                &&& after[current] matches Some(page)
                &&& page.page_type == page_type
                &&& page.items.len() == rel[current]->0.items.len() + 1
                &&& page.items.drop_last() == rel[current]->0.items
            }
            &&& !stays ==> after[current] == rel[current]
            &&& forall|b: int|
                rel.len() <= b < after.len() ==> (#[trigger] after[b] matches Some(page)
                    && page.page_type == page_type && page.items.len() == 1)
        }),
{
    lemma_fresh_free_space();
    lemma_chunks(
        data,
        free_space(start_items(rel, current)) - CHAIN_ITEM_HEADER_SIZE,
        FRESH_CHUNK_SIZE as int,
    );
    let after = written(rel, page_type, current, data);
    if room_in(rel, current) >= 9 {
        assert(after[current]->0.items.drop_last() =~= rel[current]->0.items);
    }
}

/// Where a write begins: behind the last item on the tape's page, or as the first item of a new
/// page. The tape is then on the page of the last chunk.
pub proof fn lemma_write_places(
    rel: RelationView,
    page_type: PageType,
    current: int,
    data: Seq<u8>,
)
    requires
        tape_on(rel, page_type, current),
        written_len(rel, current, data) <= INVALID_BLOCK_NUMBER,
    ensures
        ({
            let stays = room_in(rel, current) >= 9;
            let head = chunk_location(rel, current, 0);
            let n = tape_chunks(rel, current, data).len();
            &&& stays ==> head.block_number == current && head.offset
                == rel[current]->0.items.len() + 1
            &&& !stays ==> head.block_number == rel.len() && head.offset == 1
            &&& n == 1 ==> written_current(rel, current, data) == head.block_number
            &&& n > 1 ==> written_current(rel, current, data) == written_len(
                rel,
                current,
                data,
            ) - 1
        }),
{
    lemma_fresh_free_space();
    lemma_chunks(
        data,
        free_space(start_items(rel, current)) - CHAIN_ITEM_HEADER_SIZE,
        FRESH_CHUNK_SIZE as int,
    );
}

/// How data is cut that is written to a tape: the first chunk takes what its page has room for,
/// every later one a whole page, and only the last may take less.
pub proof fn lemma_write_fills(rel: RelationView, page_type: PageType, current: int, data: Seq<u8>)
    requires
        tape_on(rel, page_type, current),
    ensures
        ({
            let chunks = tape_chunks(rel, current, data);
            let first = if room_in(rel, current) >= 9 {
                room_in(rel, current) - 8
            } else {
                8144
            };
            &&& chunks.len() == 1 <==> data.len() <= first
            &&& chunks.len() > 1 ==> chunks[0].len() == first
            &&& forall|k: int| 1 <= k < chunks.len() - 1 ==> (#[trigger] chunks[k]).len() == 8144
            &&& joined(chunks) == data
        }),
{
    lemma_fresh_free_space();
    let first = free_space(start_items(rel, current)) - CHAIN_ITEM_HEADER_SIZE;
    lemma_chunks(data, first, FRESH_CHUNK_SIZE as int);
    lemma_chunks_fill(data, first, FRESH_CHUNK_SIZE as int);
}

/// Staging a root changes nothing that stands: every block is as it was. What is added is the
/// block of a first root, without a page, and the pages of the overflow.
pub proof fn lemma_root_staging_adds(
    rel: RelationView,
    page_type: PageType,
    block_number: u32,
    first_time: bool,
    items: Seq<Seq<u8>>,
)
    requires
        root_ready(rel, page_type, block_number, first_time, items),
    ensures
        ({
            let staged = root_staged(rel, page_type, first_time, items);
            let base = rel.len() as int + if first_time {
                1int
            } else {
                0
            };
            &&& forall|b: int| 0 <= b < rel.len() ==> #[trigger] staged[b] == rel[b]
            &&& first_time ==> staged[block_number as int] is None
            &&& !root_overflows(items) ==> staged.len() == base
            &&& root_overflows(items) ==> staged.len() == base + suffix_chunks(
                rel,
                page_type,
                first_time,
                items,
            ).len()
        }),
{
    lemma_fresh_free_space();
    if root_overflows(items) {
        let base = super::chain::suffix_base(rel, page_type, first_time);
        let start = super::chain::root_base(rel, first_time).len() as int;
        lemma_chunks(
            root_suffix(items),
            free_space(start_items(base, start)) - CHAIN_ITEM_HEADER_SIZE,
            FRESH_CHUNK_SIZE as int,
        );
    }
}

/// How the overflow of a root is cut: what the root has no room for is there in full, in chunks
/// that each fill a page of their own but for the last.
pub proof fn lemma_root_overflow_fills(
    rel: RelationView,
    page_type: PageType,
    block_number: u32,
    first_time: bool,
    items: Seq<Seq<u8>>,
)
    requires
        root_ready(rel, page_type, block_number, first_time, items),
        root_overflows(items),
    ensures
        ({
            let chunks = suffix_chunks(rel, page_type, first_time, items);
            let room = free_space(root_page(rel, page_type, first_time, items).items.drop_last());
            let staged = root_staged(rel, page_type, first_time, items);
            &&& joined(chunks) == items.last().skip(room - 8)
            &&& forall|k: int| 0 <= k < chunks.len() - 1 ==> (#[trigger] chunks[k]).len() == 8144
            &&& 0 < chunks.last().len() <= 8144
            &&& forall|b: int|
                staged.len() - chunks.len() <= b < staged.len() ==> (
                #[trigger] staged[b] matches Some(page) && page.page_type == page_type
                    && page.items.len() == 1)
        }),
{
    lemma_fresh_free_space();
    let base = super::chain::suffix_base(rel, page_type, first_time);
    let start = super::chain::root_base(rel, first_time).len() as int;
    let n = items.len() as int;
    assert(root_page(rel, page_type, first_time, items).items.drop_last() =~= whole_items(
        items,
        n - 1,
    ));
    assert(items[n - 1].len() > 0 && root_chunk_size(items, n - 1) > 0);
    assert(start_items(base, start) =~= Seq::<Seq<u8>>::empty());
    lemma_chunks(root_suffix(items), FRESH_CHUNK_SIZE as int, FRESH_CHUNK_SIZE as int);
    lemma_chunks_fill(root_suffix(items), FRESH_CHUNK_SIZE as int, FRESH_CHUNK_SIZE as int);
    lemma_last_chunk(root_suffix(items), FRESH_CHUNK_SIZE as int, FRESH_CHUNK_SIZE as int);
}

/// No chunk is larger than what its page takes.
proof fn lemma_last_chunk(data: Seq<u8>, first: int, later: int)
    requires
        data.len() > 0,
        first > 0,
        later > 0,
    ensures
        ({
            let cs = chunks_of(data, first, later);
            &&& cs.len() == 1 ==> 0 < cs.last().len() <= first
            &&& cs.len() > 1 ==> 0 < cs.last().len() <= later
        }),
    decreases data.len(),
{
    if data.len() > first {
        let tail = chunks_of(data.skip(first), later, later);
        lemma_chunks(data.skip(first), later, later);
        lemma_last_chunk(data.skip(first), later, later);
        assert(chunks_of(data, first, later).last() == tail.last());
    }
}

/// What stands on a staged root: one item for each, all but the last whole and followed by
/// nothing. The last is whole too where it fits; where it does not, it is cut to what fits.
pub proof fn lemma_root_page_holds(
    rel: RelationView,
    page_type: PageType,
    block_number: u32,
    first_time: bool,
    items: Seq<Seq<u8>>,
)
    requires
        root_ready(rel, page_type, block_number, first_time, items),
    ensures
        ({
            let page = root_page(rel, page_type, first_time, items);
            let n = items.len() as int;
            let room = free_space(page.items.drop_last());
            &&& page.page_type == page_type
            &&& page.items.len() == n
            &&& forall|i: int|
                0 <= i < n - 1 ==> #[trigger] page.items[i] == chain_item(end_of_chain(), items[i])
            &&& items[n - 1].len() + 8 <= room ==> page.items[n - 1] == chain_item(
                end_of_chain(),
                items[n - 1],
            )
            &&& items[n - 1].len() + 8 > room ==> page.items[n - 1].len() == room
            &&& root_overflows(items) <==> items[n - 1].len() + 8 > room
        }),
{
    let page = root_page(rel, page_type, first_time, items);
    let n = items.len() as int;
    assert(page.items.drop_last() =~= whole_items(items, n - 1));
    assert(items[n - 1].len() > 0 && root_chunk_size(items, n - 1) > 0);
    assert(items.last().take(items.last().len() as int) =~= items.last());
}

/// One item that is not empty can always stand on a root.
pub proof fn lemma_root_of_one(items: Seq<Seq<u8>>)
    requires
        items.len() == 1,
        items[0].len() > 0,
    ensures
        root_fits(items),
{
    lemma_fresh_free_space();
    assert(whole_items(items, 0) =~= Seq::<Seq<u8>>::empty());
}

/// Several items can stand on a root where none is empty, all but the last fit whole behind those
/// before them, and there is room for some of the last.
pub proof fn lemma_root_of_many(items: Seq<Seq<u8>>)
    requires
        items.len() > 0,
        forall|i: int|
            0 <= i < items.len() ==> {
                &&& (#[trigger] items[i]).len() > 0
                &&& free_space(whole_items(items, i)) > 8
                &&& i < items.len() - 1 ==> items[i].len() + 8 <= free_space(whole_items(items, i))
            },
    ensures
        root_fits(items),
{
}

/// What an item takes up: four bytes for its line pointer, and its own rounded up to eight.
pub proof fn lemma_item_takes(items: Seq<Seq<u8>>, item: Seq<u8>)
    ensures
        occupied(Seq::<Seq<u8>>::empty()) == 0,
        occupied(items.push(item)) - occupied(items) - 4 >= item.len(),
        occupied(items.push(item)) - occupied(items) - 4 < item.len() + 8,
        (occupied(items.push(item)) - occupied(items) - 4) % 8 == 0,
{
    assert(items.push(item).drop_last() =~= items);
}

/// How much room a page has: the most that fits with a line pointer, rounded down to eight.
pub proof fn lemma_room(items: Seq<Seq<u8>>)
    requires
        occupied(items) <= 8160,
    ensures
        free_space(items) % 8 == 0,
        0 <= free_space(items),
        free_space(items) > 0 ==> occupied(items) + 4 + free_space(items) <= 8160,
        occupied(items) + 4 + free_space(items) + 8 > 8160,
{
}

/// What a writer may put on a page with some room, and where that goes.
pub proof fn lemma_page_room(room: PageRoom)
    ensures
        room.spec_takes_chunk() <==> room.free_space >= 9,
        room.chunk_size() == room.free_space - 8,
        room.location().block_number == room.block_number,
        room.location().offset == room.next_offset,
{
}

/// An item can go on a root where it is not empty, there is room for some of it, it gets the
/// offset that is due, and it fits whole unless it is the last.
pub proof fn lemma_placeable(root: RootWrite, room: PageRoom)
    requires
        0 <= root.placed() < root.items().len(),
    ensures
        ({
            let item = root.items()[root.placed()];
            root.placeable(room) <==> {
                &&& item.len() > 0
                &&& room.free_space >= 9
                &&& room.next_offset == root.placed() + 1
                &&& root.placed() == root.items().len() - 1 || item.len() + 8 <= room.free_space
            }
        }),
{
}

/// A new page has no items, and an item that is added comes last.
pub proof fn lemma_page_view(page: PageView, page_type: PageType, item: Seq<u8>)
    ensures
        PageView::empty(page_type).page_type == page_type,
        PageView::empty(page_type).items.len() == 0,
        page.with_item(item).page_type == page.page_type,
        page.with_item(item).items.len() == page.items.len() + 1,
        page.with_item(item).items.drop_last() == page.items,
        page.with_item(item).items.last() == item,
{
    assert(page.with_item(item).items.drop_last() =~= page.items);
}

/// Chains stand on pages of means and of metadata, and a pointer is valid where it names a block.
pub proof fn lemma_kinds(p: ItemPointer)
    ensures
        PageType::SbqMeans.spec_is_chained(),
        PageType::Meta.spec_is_chained(),
        !PageType::Node.spec_is_chained(),
        p.spec_is_valid() <==> p.block_number != 0xFFFF_FFFF,
{
}

/// A tape can be on every page of its kind that has fewer items than there are offsets.
pub proof fn lemma_tape_on(rel: RelationView, page_type: PageType, current: int)
    requires
        0 <= current < rel.len(),
        rel[current] matches Some(page) && page.page_type == page_type && page.items.len() < 65535,
    ensures
        tape_on(rel, page_type, current),
{
}

/// What the slices hold, one by one.
pub proof fn lemma_slices(items: Seq<&[u8]>)
    ensures
        slices(items).len() == items.len(),
        forall|i: int| 0 <= i < items.len() ==> #[trigger] slices(items)[i] == items[i]@,
{
}

/// A chunk can be read where an item with a header stands on a page of the right kind.
pub proof fn lemma_readable(rel: RelationView, page_type: PageType, ip: ItemPointer)
    requires
        ip.block_number < rel.len(),
        rel[ip.block_number as int] matches Some(page) && page.page_type == page_type && 1
            <= ip.offset <= page.items.len() && page.items[ip.offset - 1].len() >= 8,
    ensures
        has_chunk(rel, page_type, ip),
        item_at(rel, ip) == rel[ip.block_number as int]->0.items[ip.offset - 1],
{
}

} // verus!
