//! Chains of items, for values that are too large for one page.
//!
//! All items begin with a header that holds a pointer to the next chunk of the chain, if there
//! is one. The last chunk has an invalid pointer there.
//!
//! A writer appends to its tape and answers with a pointer from which the data can be read back,
//! chunk by chunk. What to write where is decided by `ChainWrite`, which sees of a page only how
//! much room it has; `ChainTapeWriter` carries its decisions out on a relation in memory.

use vstd::prelude::*;
use vstd::slice::slice_subrange;

use super::header::{
    chain_item, lemma_item_roundtrip, make_item, next_of, payload_of, read_next,
    CHAIN_ITEM_HEADER_SIZE,
};
use super::item_pointer::{ItemPointer, INVALID_BLOCK_NUMBER, INVALID_OFFSET};
use super::page::{
    free_space, lemma_fresh_free_space, lemma_occupied_bounds, PageType, PageView, Relation,
    RelationView, WritablePage, FRESH_FREE_SPACE,
};
use crate::access_method::stats::NodeStats;

verus! {

/// How much of a chunk goes on a page without items.
pub const FRESH_CHUNK_SIZE: usize = 8144;

/// The pointer that ends a chain.
pub open spec fn end_of_chain() -> ItemPointer {
    ItemPointer { block_number: INVALID_BLOCK_NUMBER, offset: INVALID_OFFSET }
}

/// How `data` is cut up where the first page takes `first` bytes and every later one `later`:
/// each page but the last is filled.
pub open spec fn chunks_of(data: Seq<u8>, first: int, later: int) -> Seq<Seq<u8>>
    decreases data.len(),
{
    if data.len() <= first || first <= 0 {
        seq![data]
    } else {
        seq![data.take(first)] + chunks_of(data.skip(first), later, later)
    }
}

/// The chunks one after the other.
pub open spec fn joined(chunks: Seq<Seq<u8>>) -> Seq<u8>
    decreases chunks.len(),
{
    if chunks.len() == 0 {
        Seq::empty()
    } else {
        chunks[0] + joined(chunks.drop_first())
    }
}

/// The chunks are the data, there is at least one of them, and none is empty unless the data
/// is.
pub proof fn lemma_chunks(data: Seq<u8>, first: int, later: int)
    requires
        first > 0,
        later > 0,
    ensures
        joined(chunks_of(data, first, later)) == data,
        chunks_of(data, first, later).len() > 0,
        chunks_of(data, first, later).len() <= data.len() + 1,
        chunks_of(data, first, later)[0].len() <= first,
        forall|k: int|
            1 <= k < chunks_of(data, first, later).len() ==> (#[trigger] chunks_of(
                data,
                first,
                later,
            )[k]).len() <= later,
        data.len() > 0 ==> forall|k: int|
            0 <= k < chunks_of(data, first, later).len() ==> (#[trigger] chunks_of(
                data,
                first,
                later,
            )[k]).len() > 0,
    decreases data.len(),
{
    let cs = chunks_of(data, first, later);
    if data.len() <= first {
        assert(cs.drop_first() =~= Seq::<Seq<u8>>::empty());
        assert(joined(cs.drop_first()) =~= Seq::<u8>::empty());
        assert(joined(cs) =~= data);
    } else {
        let rest = data.skip(first);
        let tail = chunks_of(rest, later, later);
        lemma_chunks(rest, later, later);
        assert(cs.drop_first() =~= tail);
        assert(data.take(first) + rest =~= data);
        assert forall|k: int| 1 <= k < cs.len() implies #[trigger] cs[k] == tail[k - 1] by {}
    }
}

/// What a writer sees of a page.
#[derive(Clone, Copy, Debug, PartialEq, Eq, Structural)]
pub struct PageRoom {
    pub block_number: u32,
    /// How many bytes one more item can have.
    pub free_space: usize,
    /// The offset that one more item gets.
    pub next_offset: u16,
}

impl PageRoom {
    /// Whether there is space for a header and some data.
    pub open spec fn spec_takes_chunk(self) -> bool {
        self.free_space > CHAIN_ITEM_HEADER_SIZE
    }

    /// Whether there is space for a header and some data. If not, a new page is to be started.
    pub fn takes_chunk(&self) -> (r: bool)
        ensures
            r == self.spec_takes_chunk(),
    {
        self.free_space > CHAIN_ITEM_HEADER_SIZE
    }

    /// Cuts `data` into what one more item takes and the rest, if there is one.
    pub fn split<'d>(&self, data: &'d [u8]) -> (r: (&'d [u8], Option<&'d [u8]>))
        requires
            self.spec_takes_chunk(),
        ensures
            if data@.len() <= self.chunk_size() {
                &&& r.0@ == data@
                &&& r.1 is None
            } else {
                &&& r.0@ == data@.take(self.chunk_size())
                &&& r.1 matches Some(rest) && rest@ == data@.skip(self.chunk_size())
            },
    {
        let size: usize = self.free_space - CHAIN_ITEM_HEADER_SIZE;
        if data.len() <= size {
            (data, None)
        } else {
            let rest = slice_subrange(data, size, data.len());
            assert(rest@ =~= data@.skip(size as int));
            (slice_subrange(data, 0, size), Some(rest))
        }
    }

    /// Where one more item goes.
    pub open spec fn location(self) -> ItemPointer {
        ItemPointer { block_number: self.block_number, offset: self.next_offset }
    }

    /// How much of a chunk one more item can hold.
    pub open spec fn chunk_size(self) -> int {
        self.free_space - CHAIN_ITEM_HEADER_SIZE
    }
}

/// An item to be added to a page, and where it will stand.
pub struct ItemWrite {
    pub location: ItemPointer,
    pub bytes: Vec<u8>,
}

/// Data on its way into a chain. As long as more pages are needed, each page that is given fixes
/// what goes on the page before it; the last chunk then ends the chain.
pub struct ChainWrite<'d> {
    rest: &'d [u8],
    room: PageRoom,
    first: Option<ItemPointer>,
}

impl<'d> ChainWrite<'d> {
    /// What is not written yet.
    pub closed spec fn rest(&self) -> Seq<u8> {
        self.rest@
    }

    /// The page that the next chunk goes on.
    pub closed spec fn room(&self) -> PageRoom {
        self.room
    }

    /// Where the chain begins.
    pub closed spec fn head(&self) -> ItemPointer {
        match self.first {
            Some(ip) => ip,
            None => self.room.location(),
        }
    }

    /// Whether the rest does not fit on the page.
    pub open spec fn spec_needs_page(&self) -> bool {
        self.rest().len() > self.room().chunk_size()
    }

    /// Starts a chain with `data` on a page that takes a chunk.
    pub fn new(room: PageRoom, data: &'d [u8]) -> (r: Self)
        requires
            room.spec_takes_chunk(),
        ensures
            r.rest() == data@,
            r.room() == room,
            r.head() == room.location(),
    {
        ChainWrite { rest: data, room, first: None }
    }

    pub fn needs_page(&self) -> (r: bool)
        requires
            self.room().spec_takes_chunk(),
        ensures
            r == self.spec_needs_page(),
    {
        self.rest.len() > self.room.free_space - CHAIN_ITEM_HEADER_SIZE
    }

    /// Goes on to the page `next`: says what to add to the page before it, which is filled and
    /// linked to the first item of `next`.
    pub fn add_page(&mut self, next: PageRoom) -> (w: ItemWrite)
        requires
            old(self).room().spec_takes_chunk(),
            old(self).spec_needs_page(),
            next.spec_takes_chunk(),
            next.next_offset == 1,
        ensures
            final(self).room() == next,
            final(self).rest() == old(self).rest().skip(old(self).room().chunk_size()),
            final(self).head() == old(self).head(),
            w.location == old(self).room().location(),
            w.bytes@ == chain_item(
                next.location(),
                old(self).rest().take(old(self).room().chunk_size()),
            ),
            w.bytes@.len() == old(self).room().free_space,
    {
        let size: usize = self.room.free_space - CHAIN_ITEM_HEADER_SIZE;
        let location = ItemPointer::new(self.room.block_number, self.room.next_offset);
        let chunk = slice_subrange(self.rest, 0, size);
        let bytes = make_item(ItemPointer::new(next.block_number, 1), chunk);
        if self.first.is_none() {
            self.first = Some(location);
        }
        self.rest = slice_subrange(self.rest, size, self.rest.len());
        self.room = next;
        ItemWrite { location, bytes }
    }

    /// Ends the chain: says what to add to the last page, and where the chain begins.
    pub fn finish(self) -> (r: (ItemWrite, ItemPointer))
        requires
            self.room().spec_takes_chunk(),
            !self.spec_needs_page(),
        ensures
            r.0.location == self.room().location(),
            r.0.bytes@ == chain_item(end_of_chain(), self.rest()),
            r.0.bytes@.len() <= self.room().free_space,
            r.0.bytes@.len() >= CHAIN_ITEM_HEADER_SIZE,
            r.1 == self.head(),
    {
        let location = ItemPointer::new(self.room.block_number, self.room.next_offset);
        let bytes = make_item(ItemPointer::new_invalid(), self.rest);
        let head = match self.first {
            Some(ip) => ip,
            None => location,
        };
        (ItemWrite { location, bytes }, head)
    }
}

/// What is to be done next for a root page.
pub enum RootStep<'d> {
    /// Nothing: every item stands on the page.
    Done,
    /// Nothing can be done: the next item is empty, or there is no room for any of it, or it does
    /// not fit though others follow it, or the page holds something else.
    Refused,
    /// This item is to be added to the page.
    Add(Vec<u8>),
    /// This rest of the last item is to be written as a chain. `RootWrite::link` is to be told
    /// then where that chain begins.
    Overflow(&'d [u8]),
}

/// Items on their way to a root page, where they get successive offsets. All but the last must
/// fit on the page. What of the last one does not fit is written before the part that does.
pub struct RootWrite<'d> {
    items: &'d [&'d [u8]],
    placed: usize,
}

impl<'d> RootWrite<'d> {
    /// What the items hold.
    pub closed spec fn items(&self) -> Seq<Seq<u8>> {
        slices(self.items@)
    }

    /// How many items stand on the page.
    pub closed spec fn placed(&self) -> int {
        self.placed as int
    }

    /// The item that comes next.
    pub open spec fn upcoming(&self) -> Seq<u8> {
        self.items()[self.placed()]
    }

    pub closed spec fn wf(&self) -> bool {
        self.placed <= self.items.len()
    }

    /// Whether the next item can go on the page.
    pub open spec fn placeable(&self, room: PageRoom) -> bool {
        &&& self.upcoming().len() > 0
        &&& room.spec_takes_chunk()
        &&& room.next_offset == self.placed() + 1
        &&& self.placed() + 1 < self.items().len() ==> self.upcoming().len() <= room.chunk_size()
    }

    pub fn new(items: &'d [&'d [u8]]) -> (r: Self)
        ensures
            r.wf(),
            r.items() == slices(items@),
            r.placed() == 0,
    {
        RootWrite { items, placed: 0 }
    }

    /// Says what is to be done next, where the page has this room. An item that is to be added
    /// counts as placed.
    pub fn step(&mut self, room: PageRoom) -> (r: RootStep<'d>)
        requires
            old(self).wf(),
        ensures
            final(self).wf(),
            final(self).items() == old(self).items(),
            old(self).placed() <= old(self).items().len(),
            if old(self).placed() == old(self).items().len() {
                r is Done
            } else if !old(self).placeable(room) {
                r is Refused
            } else if old(self).upcoming().len() <= room.chunk_size() {
                &&& r matches RootStep::Add(item)
                &&& item@ == chain_item(end_of_chain(), old(self).upcoming())
                &&& item@.len() == CHAIN_ITEM_HEADER_SIZE + old(self).upcoming().len()
            } else {
                &&& r matches RootStep::Overflow(rest)
                &&& rest@ == old(self).upcoming().skip(room.chunk_size())
            },
            final(self).placed() == old(self).placed() + if r is Add {
                1int
            } else {
                0
            },
    {
        if self.placed == self.items.len() {
            return RootStep::Done;
        }
        let data = self.items[self.placed];
        assert(data@ == self.upcoming());
        if data.len() == 0 || !room.takes_chunk() || room.next_offset as usize != self.placed + 1 {
            return RootStep::Refused;
        }
        match room.split(data) {
            (chunk, None) => {
                self.placed = self.placed + 1;
                RootStep::Add(make_item(ItemPointer::new_invalid(), chunk))
            },
            (_, Some(rest)) => {
                // Only the last item may overflow.
                if self.placed + 1 < self.items.len() {
                    RootStep::Refused
                } else {
                    RootStep::Overflow(rest)
                }
            },
        }
    }

    /// The part of the last item that fits on the page, where the rest is a chain that begins at
    /// `next`. The item counts as placed.
    pub fn link(&mut self, room: PageRoom, next: ItemPointer) -> (item: Vec<u8>)
        requires
            old(self).wf(),
            old(self).placed() < old(self).items().len(),
            old(self).placeable(room),
            old(self).upcoming().len() > room.chunk_size(),
        ensures
            final(self).wf(),
            final(self).items() == old(self).items(),
            final(self).placed() == old(self).placed() + 1,
            item@ == chain_item(next, old(self).upcoming().take(room.chunk_size())),
            item@.len() == room.free_space,
    {
        let data = self.items[self.placed];
        assert(data@ == self.upcoming());
        let (chunk, _) = room.split(data);
        self.placed = self.placed + 1;
        make_item(next, chunk)
    }
}

/// Whether a tape that is on the page in block `current` has to start a new page.
pub open spec fn opens_page(rel: RelationView, current: int) -> bool {
    free_space(rel[current]->0.items) <= CHAIN_ITEM_HEADER_SIZE
}

/// The block that the first chunk goes to.
pub open spec fn start_block(rel: RelationView, current: int) -> int {
    if opens_page(rel, current) {
        rel.len() as int
    } else {
        current
    }
}

/// The items that stand before the first chunk on its page.
pub open spec fn start_items(rel: RelationView, current: int) -> Seq<Seq<u8>> {
    if opens_page(rel, current) {
        Seq::empty()
    } else {
        rel[current]->0.items
    }
}

/// The block that the second chunk goes to, if there is one. The others follow it.
pub open spec fn second_block(rel: RelationView, current: int) -> int {
    if opens_page(rel, current) {
        rel.len() as int + 1
    } else {
        rel.len() as int
    }
}

/// How data is cut up that is written to a tape.
pub open spec fn tape_chunks(rel: RelationView, current: int, data: Seq<u8>) -> Seq<Seq<u8>> {
    chunks_of(
        data,
        free_space(start_items(rel, current)) - CHAIN_ITEM_HEADER_SIZE,
        FRESH_CHUNK_SIZE as int,
    )
}

/// Where chunk `k` goes.
pub open spec fn chunk_location(rel: RelationView, current: int, k: int) -> ItemPointer {
    if k == 0 {
        ItemPointer {
            block_number: start_block(rel, current) as u32,
            offset: (start_items(rel, current).len() + 1) as u16,
        }
    } else {
        ItemPointer { block_number: (second_block(rel, current) + k - 1) as u32, offset: 1 }
    }
}

/// The item that chunk `k` becomes: it is linked to the next chunk.
pub open spec fn tape_item(rel: RelationView, current: int, data: Seq<u8>, k: int) -> Seq<u8> {
    let chunks = tape_chunks(rel, current, data);
    chain_item(
        if k + 1 < chunks.len() {
            chunk_location(rel, current, k + 1)
        } else {
            end_of_chain()
        },
        chunks[k],
    )
}

/// How many blocks the relation has after `data` was written to a tape.
pub open spec fn written_len(rel: RelationView, current: int, data: Seq<u8>) -> int {
    second_block(rel, current) + tape_chunks(rel, current, data).len() - 1
}

/// The relation after `data` was written to a tape: the first chunk is added to the page that
/// the tape is on, or to a new one, and every other chunk has a new page of its own. Nothing
/// else changes.
pub open spec fn written(
    rel: RelationView,
    page_type: PageType,
    current: int,
    data: Seq<u8>,
) -> RelationView {
    Seq::new(
        written_len(rel, current, data) as nat,
        |b: int|
            if b == start_block(rel, current) {
                Some(
                    PageView {
                        page_type,
                        items: start_items(rel, current).push(tape_item(rel, current, data, 0)),
                    },
                )
            } else if b < rel.len() {
                rel[b]
            } else {
                Some(
                    PageView {
                        page_type,
                        items: seq![
                            tape_item(rel, current, data, b - second_block(rel, current) + 1),
                        ],
                    },
                )
            },
    )
}

/// The block that a tape is on after `data` was written to it.
pub open spec fn written_current(rel: RelationView, current: int, data: Seq<u8>) -> int {
    let n = tape_chunks(rel, current, data).len();
    if n == 1 {
        start_block(rel, current)
    } else {
        second_block(rel, current) + n - 2
    }
}

/// The relation when `k` chunks are written and the page for the next one is allocated.
spec fn partly_written(
    rel: RelationView,
    page_type: PageType,
    current: int,
    data: Seq<u8>,
    k: int,
) -> RelationView {
    Seq::new(
        (second_block(rel, current) + k) as nat,
        |b: int|
            if b == start_block(rel, current) {
                if k > 0 {
                    written(rel, page_type, current, data)[b]
                } else if opens_page(rel, current) {
                    None
                } else {
                    rel[b]
                }
            } else if b < rel.len() {
                rel[b]
            } else if b - second_block(rel, current) + 1 < k {
                written(rel, page_type, current, data)[b]
            } else {
                None
            },
    )
}

impl WritablePage {
    /// What a writer sees of the page.
    pub open spec fn spec_room(&self) -> PageRoom {
        PageRoom {
            block_number: self.block(),
            free_space: free_space(self.image().items) as usize,
            next_offset: (self.image().items.len() + 1) as u16,
        }
    }

    pub fn room(&self) -> (r: PageRoom)
        requires
            self.wf(),
        ensures
            r == self.spec_room(),
            r.free_space == free_space(self.image().items),
            r.free_space <= FRESH_FREE_SPACE,
            r.next_offset == self.image().items.len() + 1,
    {
        PageRoom {
            block_number: self.get_block_number(),
            free_space: self.get_aligned_free_space(),
            next_offset: self.item_count() + 1,
        }
    }
}

/// Writes data that may be larger than a page, one chain for each write.
pub struct ChainTapeWriter {
    page_type: PageType,
    current: u32,
}

impl ChainTapeWriter {
    pub closed spec fn page_type(&self) -> PageType {
        self.page_type
    }

    /// The block that the tape is on.
    pub closed spec fn current(&self) -> u32 {
        self.current
    }

    /// The tape is for chains, and on a page of its kind.
    pub open spec fn wf(&self, rel: RelationView) -> bool {
        &&& self.page_type().spec_is_chained()
        &&& self.current() < rel.len() <= INVALID_BLOCK_NUMBER
        &&& rel[self.current() as int] matches Some(page) && page.page_type == self.page_type()
    }

    /// Creates a tape that starts writing on a new page.
    pub fn new(index: &mut Relation, page_type: PageType) -> (r: Self)
        requires
            old(index).wf(),
            page_type.spec_is_chained(),
            old(index)@.len() < INVALID_BLOCK_NUMBER,
        ensures
            final(index).wf(),
            final(index)@ == old(index)@.push(Some(PageView::empty(page_type))),
            r.wf(final(index)@),
            r.page_type() == page_type,
            r.current() == old(index)@.len(),
    {
        let ghost before = index@;
        let page = WritablePage::new(index, page_type);
        let current = page.get_block_number();
        page.commit(index);
        assert(index@ =~= before.push(Some(PageView::empty(page_type))));
        ChainTapeWriter { page_type, current }
    }

    /// Writes `data` to the tape as one chain and returns a pointer to its start.
    pub fn write(&mut self, index: &mut Relation, data: &[u8], stats: &mut NodeStats) -> (ip:
        ItemPointer)
        requires
            old(index).wf(),
            old(self).wf(old(index)@),
            written_len(old(index)@, old(self).current() as int, data@) <= INVALID_BLOCK_NUMBER,
            old(stats).writes + tape_chunks(
                old(index)@,
                old(self).current() as int,
                data@,
            ).len() <= usize::MAX,
        ensures
            final(index).wf(),
            final(self).wf(final(index)@),
            final(self).page_type() == old(self).page_type(),
            final(self).current() == written_current(
                old(index)@,
                old(self).current() as int,
                data@,
            ),
            final(index)@ == written(
                old(index)@,
                old(self).page_type(),
                old(self).current() as int,
                data@,
            ),
            ip == chunk_location(old(index)@, old(self).current() as int, 0),
            *final(stats) == old(stats).after_writes(
                tape_chunks(old(index)@, old(self).current() as int, data@).len() as int,
            ),
    {
        let ghost rel = index@;
        let ghost cur = self.current as int;
        let ghost chunks = tape_chunks(rel, cur, data@);
        let ghost page_type = self.page_type;
        proof {
            lemma_fresh_free_space();
        }
        let mut page = WritablePage::modify(index, self.current);
        if !page.room().takes_chunk() {
            page = WritablePage::new(index, self.page_type);
        }
        proof {
            lemma_chunks(
                data@,
                free_space(start_items(rel, cur)) - CHAIN_ITEM_HEADER_SIZE,
                FRESH_CHUNK_SIZE as int,
            );
        }
        let ghost mut k: int = 0;
        let mut chain = ChainWrite::new(page.room(), data);
        assert(index@ =~= partly_written(rel, page_type, cur, data@, 0));
        assert(chunks.skip(0) =~= chunks);
        while chain.needs_page()
            invariant
                index.wf(),
                page.wf(),
                self.page_type == page_type,
                0 <= k < chunks.len(),
                chunks == tape_chunks(rel, cur, data@),
                0 <= cur < rel.len(),
                second_block(rel, cur) + chunks.len() - 1 <= INVALID_BLOCK_NUMBER,
                index@ == partly_written(rel, page_type, cur, data@, k),
                page.block() == (if k == 0 {
                    start_block(rel, cur)
                } else {
                    second_block(rel, cur) + k - 1
                }),
                page.image() == (PageView {
                    page_type,
                    items: if k == 0 {
                        start_items(rel, cur)
                    } else {
                        Seq::empty()
                    },
                }),
                chain.room() == page.spec_room(),
                chain.room().spec_takes_chunk(),
                chain.room().free_space == free_space(page.image().items),
                chain.head() == chunk_location(rel, cur, 0),
                chunks_of(chain.rest(), chain.room().chunk_size(), FRESH_CHUNK_SIZE as int)
                    == chunks.skip(k),
                *stats == old(stats).after_writes(k),
                old(stats).writes + chunks.len() <= usize::MAX,
            decreases chain.rest().len(),
        {
            let ghost rest = chain.rest();
            let ghost size = chain.room().chunk_size();
            let ghost left = chunks.skip(k);
            proof {
                lemma_fresh_free_space();
                assert(left == seq![rest.take(size)] + chunks_of(
                    rest.skip(size),
                    FRESH_CHUNK_SIZE as int,
                    FRESH_CHUNK_SIZE as int,
                ));
                lemma_chunks(rest.skip(size), FRESH_CHUNK_SIZE as int, FRESH_CHUNK_SIZE as int);
                assert(left[0] == chunks[k]);
                assert(chunks.skip(k + 1) =~= left.drop_first());
                assert(left.drop_first() =~= chunks_of(
                    rest.skip(size),
                    FRESH_CHUNK_SIZE as int,
                    FRESH_CHUNK_SIZE as int,
                ));
            }
            let next = WritablePage::new(index, self.page_type);
            let item = chain.add_page(next.room());
            assert(item.bytes@ == tape_item(rel, cur, data@, k));
            let _ = page.add_item(item.bytes);
            page.commit(index);
            stats.record_write();
            page = next;
            proof {
                k = k + 1;
            }
            assert(index@ =~= partly_written(rel, page_type, cur, data@, k));
        }
        let (item, head) = chain.finish();
        proof {
            assert(chunks.skip(k) =~= seq![chain.rest()]);
            assert(chunks.skip(k).len() == 1);
            assert(chunks[k] == chunks.skip(k)[0]);
            assert(item.bytes@ == tape_item(rel, cur, data@, k));
        }
        let _ = page.add_item(item.bytes);
        self.current = page.get_block_number();
        page.commit(index);
        stats.record_write();
        assert(index@ =~= written(rel, page_type, cur, data@));
        head
    }
}

/// Whether an item stands at `ip`, on a page of kind `page_type`, and has a header.
pub open spec fn has_chunk(rel: RelationView, page_type: PageType, ip: ItemPointer) -> bool {
    &&& ip.block_number < rel.len()
    &&& rel[ip.block_number as int] matches Some(page) && {
        &&& page.page_type == page_type
        &&& 1 <= ip.offset <= page.items.len()
        &&& page.items[ip.offset - 1].len() >= CHAIN_ITEM_HEADER_SIZE
    }
}

/// The item at `ip`.
pub open spec fn item_at(rel: RelationView, ip: ItemPointer) -> Seq<u8> {
    rel[ip.block_number as int]->0.items[ip.offset - 1]
}

/// Whether a chain begins at `ip` whose chunks are `chunks`.
pub open spec fn chain_reads(
    rel: RelationView,
    page_type: PageType,
    ip: ItemPointer,
    chunks: Seq<Seq<u8>>,
) -> bool
    decreases chunks.len(),
{
    if chunks.len() == 0 {
        !ip.spec_is_valid()
    } else {
        &&& ip.spec_is_valid()
        &&& has_chunk(rel, page_type, ip)
        &&& payload_of(item_at(rel, ip)) == chunks[0]
        &&& chain_reads(rel, page_type, next_of(item_at(rel, ip)), chunks.drop_first())
    }
}

/// Whether the first `n` items of the chain that begins at `ip` stand in other blocks than
/// `block`.
pub open spec fn chain_avoids(rel: RelationView, ip: ItemPointer, n: nat, block: int) -> bool
    decreases n,
{
    n > 0 ==> {
        &&& ip.block_number != block
        &&& chain_avoids(rel, next_of(item_at(rel, ip)), (n - 1) as nat, block)
    }
}

/// Whether every item of `a` stands in `b` where it stood, on a page of the same kind.
pub open spec fn extends(a: RelationView, b: RelationView) -> bool {
    &&& a.len() <= b.len()
    &&& forall|i: int|
        0 <= i < a.len() ==> (#[trigger] a[i] matches Some(p) ==> {
            &&& b[i] matches Some(q)
            &&& p.page_type == q.page_type
            &&& p.items.is_prefix_of(q.items)
        })
}

/// A chain's beginning fixes its chunks.
pub proof fn lemma_chain_unique(
    rel: RelationView,
    page_type: PageType,
    ip: ItemPointer,
    a: Seq<Seq<u8>>,
    b: Seq<Seq<u8>>,
)
    requires
        chain_reads(rel, page_type, ip, a),
        chain_reads(rel, page_type, ip, b),
    ensures
        a == b,
    decreases a.len(),
{
    if a.len() > 0 {
        lemma_chain_unique(
            rel,
            page_type,
            next_of(item_at(rel, ip)),
            a.drop_first(),
            b.drop_first(),
        );
        assert(a =~= seq![a[0]] + a.drop_first());
        assert(b =~= seq![b[0]] + b.drop_first());
    } else {
        assert(a =~= b);
    }
}

/// Reading an item of a chain gives its first chunk and leads to the chain of the others.
pub proof fn lemma_chain_step(
    rel: RelationView,
    page_type: PageType,
    ip: ItemPointer,
    chunks: Seq<Seq<u8>>,
)
    requires
        chain_reads(rel, page_type, ip, chunks),
    ensures
        ip.spec_is_valid() <==> chunks.len() > 0,
        chunks.len() > 0 ==> {
            &&& has_chunk(rel, page_type, ip)
            &&& payload_of(item_at(rel, ip)) == chunks[0]
            &&& chain_reads(rel, page_type, next_of(item_at(rel, ip)), chunks.drop_first())
        },
{
}

/// Chains stay readable as long as items are only added.
pub proof fn lemma_chain_extends(
    a: RelationView,
    b: RelationView,
    page_type: PageType,
    ip: ItemPointer,
    chunks: Seq<Seq<u8>>,
)
    requires
        extends(a, b),
        chain_reads(a, page_type, ip, chunks),
    ensures
        chain_reads(b, page_type, ip, chunks),
    decreases chunks.len(),
{
    if chunks.len() > 0 {
        let p = a[ip.block_number as int]->0;
        let q = b[ip.block_number as int]->0;
        assert(a[ip.block_number as int] is Some);
        assert(p.items[ip.offset - 1] == q.items[ip.offset - 1]);
        lemma_chain_extends(a, b, page_type, next_of(item_at(a, ip)), chunks.drop_first());
    }
}

/// Chains stay readable when a page is replaced that they do not use.
pub proof fn lemma_chain_update(
    rel: RelationView,
    block: int,
    page: PageView,
    page_type: PageType,
    ip: ItemPointer,
    chunks: Seq<Seq<u8>>,
)
    requires
        0 <= block < rel.len(),
        chain_reads(rel, page_type, ip, chunks),
        chain_avoids(rel, ip, chunks.len(), block),
    ensures
        chain_reads(rel.update(block, Some(page)), page_type, ip, chunks),
    decreases chunks.len(),
{
    if chunks.len() > 0 {
        lemma_chain_update(
            rel,
            block,
            page,
            page_type,
            next_of(item_at(rel, ip)),
            chunks.drop_first(),
        );
    }
}

/// Whether a tape can be on the page in block `current`.
pub open spec fn tape_on(rel: RelationView, page_type: PageType, current: int) -> bool {
    &&& 0 <= current < rel.len()
    &&& rel[current] matches Some(page) && {
        &&& page.page_type == page_type
        &&& page.items.len() < u16::MAX
    }
}

proof fn lemma_written_from(
    rel: RelationView,
    page_type: PageType,
    current: int,
    data: Seq<u8>,
    k: int,
    block: int,
)
    requires
        tape_on(rel, page_type, current),
        written_len(rel, current, data) <= INVALID_BLOCK_NUMBER,
        0 <= k < tape_chunks(rel, current, data).len(),
        block < rel.len(),
        block != start_block(rel, current),
    ensures
        chain_reads(
            written(rel, page_type, current, data),
            page_type,
            chunk_location(rel, current, k),
            tape_chunks(rel, current, data).skip(k),
        ),
        chain_avoids(
            written(rel, page_type, current, data),
            chunk_location(rel, current, k),
            (tape_chunks(rel, current, data).len() - k) as nat,
            block,
        ),
    decreases tape_chunks(rel, current, data).len() - k,
{
    let w = written(rel, page_type, current, data);
    let chunks = tape_chunks(rel, current, data);
    let here = chunk_location(rel, current, k);
    let item = tape_item(rel, current, data, k);
    let next = if k + 1 < chunks.len() {
        chunk_location(rel, current, k + 1)
    } else {
        end_of_chain()
    };
    lemma_fresh_free_space();
    lemma_chunks(
        data,
        free_space(start_items(rel, current)) - CHAIN_ITEM_HEADER_SIZE,
        FRESH_CHUNK_SIZE as int,
    );
    lemma_item_roundtrip(next, chunks[k]);
    assert(item_at(w, here) == item);
    assert(has_chunk(w, page_type, here));
    assert(chunks.skip(k)[0] == chunks[k]);
    assert(chunks.skip(k).drop_first() =~= chunks.skip(k + 1));
    if k + 1 < chunks.len() {
        lemma_written_from(rel, page_type, current, data, k + 1, block);
    }
    assert(next_of(item_at(w, here)) == next);
    assert(chain_reads(w, page_type, next, chunks.skip(k + 1)));
    assert(chain_avoids(w, next, (chunks.len() - k - 1) as nat, block));
    assert(chain_reads(w, page_type, here, chunks.skip(k)));
    assert(chain_avoids(w, here, (chunks.len() - k) as nat, block));
}

/// What was written to a tape is read back from the pointer that the write returned.
pub proof fn lemma_write_reads_back(
    rel: RelationView,
    page_type: PageType,
    current: int,
    data: Seq<u8>,
)
    requires
        tape_on(rel, page_type, current),
        written_len(rel, current, data) <= INVALID_BLOCK_NUMBER,
    ensures
        chain_reads(
            written(rel, page_type, current, data),
            page_type,
            chunk_location(rel, current, 0),
            tape_chunks(rel, current, data),
        ),
        joined(tape_chunks(rel, current, data)) == data,
{
    let chunks = tape_chunks(rel, current, data);
    lemma_fresh_free_space();
    lemma_chunks(
        data,
        free_space(start_items(rel, current)) - CHAIN_ITEM_HEADER_SIZE,
        FRESH_CHUNK_SIZE as int,
    );
    lemma_written_from(rel, page_type, current, data, 0, -1);
    assert(chunks.skip(0) =~= chunks);
}

/// A write to a tape leaves every earlier chain readable.
pub proof fn lemma_write_keeps(
    rel: RelationView,
    page_type: PageType,
    current: int,
    data: Seq<u8>,
    other_type: PageType,
    ip: ItemPointer,
    chunks: Seq<Seq<u8>>,
)
    requires
        tape_on(rel, page_type, current),
        chain_reads(rel, other_type, ip, chunks),
    ensures
        extends(rel, written(rel, page_type, current, data)),
        chain_reads(written(rel, page_type, current, data), other_type, ip, chunks),
{
    lemma_written_extends(rel, page_type, current, data);
    lemma_chain_extends(rel, written(rel, page_type, current, data), other_type, ip, chunks);
}

proof fn lemma_written_extends(
    rel: RelationView,
    page_type: PageType,
    current: int,
    data: Seq<u8>,
)
    requires
        tape_on(rel, page_type, current),
    ensures
        extends(rel, written(rel, page_type, current, data)),
{
    lemma_fresh_free_space();
    lemma_chunks(
        data,
        free_space(start_items(rel, current)) - CHAIN_ITEM_HEADER_SIZE,
        FRESH_CHUNK_SIZE as int,
    );
}

/// Reads chains of one kind of page.
pub struct ChainItemReader {
    page_type: PageType,
}

impl ChainItemReader {
    pub closed spec fn page_type(&self) -> PageType {
        self.page_type
    }

    pub fn new(page_type: PageType) -> (r: Self)
        requires
            page_type.spec_is_chained(),
        ensures
            r.page_type() == page_type,
    {
        ChainItemReader { page_type }
    }

    /// Starts reading the chain that begins at `ip`.
    pub fn read(&self, ip: ItemPointer) -> (r: ChainItemIterator)
        ensures
            r.ip() == ip,
            r.page_type() == self.page_type(),
    {
        ChainItemIterator { ip, page_type: self.page_type }
    }
}

/// Goes through the chunks of a chain.
pub struct ChainItemIterator {
    ip: ItemPointer,
    page_type: PageType,
}

impl ChainItemIterator {
    /// Where the next chunk stands; an invalid pointer at the end.
    pub closed spec fn ip(&self) -> ItemPointer {
        self.ip
    }

    pub closed spec fn page_type(&self) -> PageType {
        self.page_type
    }

    /// Where the item stands that has to be read next, unless the chain is at its end.
    pub fn pending(&self) -> (r: Option<ItemPointer>)
        ensures
            r == (if self.ip().spec_is_valid() {
                Some(self.ip())
            } else {
                None
            }),
    {
        if self.ip.is_valid() {
            Some(self.ip)
        } else {
            None
        }
    }

    /// Takes the item that was pending, from a page of kind `page_type`: gives its chunk and
    /// moves on to the next item.
    pub fn accept<'i>(&mut self, page_type: PageType, item: &'i [u8], stats: &mut NodeStats) -> (r:
        &'i [u8])
        requires
            old(self).ip().spec_is_valid(),
            page_type == old(self).page_type(),
            item.len() >= CHAIN_ITEM_HEADER_SIZE,
            old(stats).reads < usize::MAX,
        ensures
            r@ == payload_of(item@),
            final(self).ip() == next_of(item@),
            final(self).page_type() == old(self).page_type(),
            *final(stats) == old(stats).after_reads(1),
    {
        stats.record_read();
        self.ip = read_next(item);
        slice_subrange(item, CHAIN_ITEM_HEADER_SIZE, item.len())
    }

    /// The next chunk, or `None` at the end of the chain.
    pub fn next<'i>(&mut self, index: &'i Relation, stats: &mut NodeStats) -> (r: Option<&'i [u8]>)
        requires
            index.wf(),
            old(self).ip().spec_is_valid() ==> has_chunk(
                index@,
                old(self).page_type(),
                old(self).ip(),
            ) && old(stats).reads < usize::MAX,
        ensures
            final(self).page_type() == old(self).page_type(),
            if old(self).ip().spec_is_valid() {
                &&& r matches Some(chunk) && chunk@ == payload_of(item_at(index@, old(self).ip()))
                &&& final(self).ip() == next_of(item_at(index@, old(self).ip()))
                &&& *final(stats) == old(stats).after_reads(1)
            } else {
                &&& r is None
                &&& final(self).ip() == old(self).ip()
                &&& *final(stats) == *old(stats)
            },
    {
        match self.pending() {
            Some(ip) => {
                let page = index.page(ip.block_number).unwrap();
                let item = page.get_item(ip.offset).as_slice();
                Some(self.accept(page.page_type(), item, stats))
            },
            None => None,
        }
    }
}

/// What the byte slices hold.
pub open spec fn slices(items: Seq<&[u8]>) -> Seq<Seq<u8>> {
    Seq::new(items.len(), |i: int| items[i]@)
}

/// The first `n` of `items` as items that nothing follows.
pub open spec fn whole_items(items: Seq<Seq<u8>>, n: int) -> Seq<Seq<u8>> {
    Seq::new(n as nat, |i: int| chain_item(end_of_chain(), items[i]))
}

/// How much of item `n` fits on a root page on which the items before it stand.
pub open spec fn root_chunk_size(items: Seq<Seq<u8>>, n: int) -> int {
    free_space(whole_items(items, n)) - CHAIN_ITEM_HEADER_SIZE
}

/// Whether `items` can stand on a root page: none is empty, there is room for some of each, and
/// only the last may need more.
pub open spec fn root_fits(items: Seq<Seq<u8>>) -> bool {
    &&& items.len() > 0
    &&& forall|i: int|
        0 <= i < items.len() ==> {
            &&& (#[trigger] items[i]).len() > 0
            &&& root_chunk_size(items, i) > 0
            &&& i + 1 < items.len() ==> items[i].len() <= root_chunk_size(items, i)
        }
}

/// Whether the last item does not fit on the root page.
pub open spec fn root_overflows(items: Seq<Seq<u8>>) -> bool {
    items.last().len() > root_chunk_size(items, items.len() - 1)
}

/// How much of the last item stands on the root page.
pub open spec fn root_split(items: Seq<Seq<u8>>) -> int {
    if root_overflows(items) {
        root_chunk_size(items, items.len() - 1)
    } else {
        items.last().len() as int
    }
}

/// The relation that the overflow of a root page is written to: the root page of a first write
/// is allocated before it.
pub open spec fn root_base(rel: RelationView, first_time: bool) -> RelationView {
    if first_time {
        rel.push(None)
    } else {
        rel
    }
}

/// That relation with the page on which the overflow starts.
pub open spec fn suffix_base(
    rel: RelationView,
    page_type: PageType,
    first_time: bool,
) -> RelationView {
    root_base(rel, first_time).push(Some(PageView::empty(page_type)))
}

/// What of the last item does not stand on the root page.
pub open spec fn root_suffix(items: Seq<Seq<u8>>) -> Seq<u8> {
    items.last().skip(root_split(items))
}

/// How the overflow is cut up.
pub open spec fn suffix_chunks(
    rel: RelationView,
    page_type: PageType,
    first_time: bool,
    items: Seq<Seq<u8>>,
) -> Seq<Seq<u8>> {
    tape_chunks(
        suffix_base(rel, page_type, first_time),
        root_base(rel, first_time).len() as int,
        root_suffix(items),
    )
}

/// The relation when a root page is staged: the overflow is written in full, the root page is
/// not.
pub open spec fn root_staged(
    rel: RelationView,
    page_type: PageType,
    first_time: bool,
    items: Seq<Seq<u8>>,
) -> RelationView {
    if root_overflows(items) {
        written(
            suffix_base(rel, page_type, first_time),
            page_type,
            root_base(rel, first_time).len() as int,
            root_suffix(items),
        )
    } else {
        root_base(rel, first_time)
    }
}

/// What follows the last item of the root page.
pub open spec fn root_link(
    rel: RelationView,
    page_type: PageType,
    first_time: bool,
    items: Seq<Seq<u8>>,
) -> ItemPointer {
    if root_overflows(items) {
        chunk_location(
            suffix_base(rel, page_type, first_time),
            root_base(rel, first_time).len() as int,
            0,
        )
    } else {
        end_of_chain()
    }
}

/// The root page: the items at successive offsets, the last one cut to what fits and linked to
/// its overflow.
pub open spec fn root_page(
    rel: RelationView,
    page_type: PageType,
    first_time: bool,
    items: Seq<Seq<u8>>,
) -> PageView {
    PageView {
        page_type,
        items: whole_items(items, items.len() - 1).push(
            chain_item(
                root_link(rel, page_type, first_time, items),
                items.last().take(root_split(items)),
            ),
        ),
    }
}

/// Whether a root page with these items can be staged in block `block_number`.
pub open spec fn root_ready(
    rel: RelationView,
    page_type: PageType,
    block_number: u32,
    first_time: bool,
    items: Seq<Seq<u8>>,
) -> bool {
    &&& page_type.spec_is_chained()
    &&& root_fits(items)
    &&& if first_time {
        block_number == rel.len()
    } else {
        block_number < rel.len() && rel[block_number as int] is Some
    }
    &&& root_base(rel, first_time).len() <= INVALID_BLOCK_NUMBER
    &&& root_staged(rel, page_type, first_time, items).len() <= INVALID_BLOCK_NUMBER
}

impl ChainTapeWriter {
    /// Stages a replacement root, which the caller publishes by committing it.
    ///
    /// Items start at successive root offsets; all but the last must fit on the root. Any
    /// overflow is fully written before this returns, but is not reachable until the root is
    /// committed. If the returned page is dropped instead, an existing root is unchanged. For
    /// first-time writes, the relation must allocate the requested root block next.
    pub fn prepare_root(
        index: &mut Relation,
        page_type: PageType,
        stats: &mut NodeStats,
        block_number: u32,
        first_time: bool,
        items: &[&[u8]],
    ) -> (root: WritablePage)
        requires
            old(index).wf(),
            root_ready(old(index)@, page_type, block_number, first_time, slices(items@)),
            root_overflows(slices(items@)) ==> old(stats).writes + suffix_chunks(
                old(index)@,
                page_type,
                first_time,
                slices(items@),
            ).len() <= usize::MAX,
        ensures
            final(index).wf(),
            final(index)@ == root_staged(old(index)@, page_type, first_time, slices(items@)),
            root.wf(),
            root.block() == block_number,
            root.image() == root_page(old(index)@, page_type, first_time, slices(items@)),
            *final(stats) == (if root_overflows(slices(items@)) {
                old(stats).after_writes(
                    suffix_chunks(old(index)@, page_type, first_time, slices(items@)).len() as int,
                )
            } else {
                *old(stats)
            }),
    {
        let ghost rel = index@;
        let ghost data = slices(items@);
        let ghost n = data.len() as int;
        let mut root = if first_time {
            WritablePage::new(index, page_type)
        } else {
            let mut page = WritablePage::modify(index, block_number);
            // Only the copy is emptied; an empty root is never published.
            page.reinit(page_type);
            page
        };
        assert(whole_items(data, 0) =~= Seq::<Seq<u8>>::empty());
        let mut items = RootWrite::new(items);
        loop
            invariant
                index.wf(),
                root.wf(),
                root.block() == block_number,
                items.wf(),
                items.items() == data,
                items.placed() <= n,
                n == data.len(),
                root_ready(rel, page_type, block_number, first_time, data),
                root_overflows(data) ==> old(stats).writes + suffix_chunks(
                    rel,
                    page_type,
                    first_time,
                    data,
                ).len() <= usize::MAX,
                items.placed() < n ==> {
                    &&& index@ == root_base(rel, first_time)
                    &&& root.image() == (PageView {
                        page_type,
                        items: whole_items(data, items.placed()),
                    })
                    &&& *stats == *old(stats)
                },
                items.placed() == n ==> {
                    &&& index@ == root_staged(rel, page_type, first_time, data)
                    &&& root.image() == root_page(rel, page_type, first_time, data)
                    &&& *stats == (if root_overflows(data) {
                        old(stats).after_writes(
                            suffix_chunks(rel, page_type, first_time, data).len() as int,
                        )
                    } else {
                        *old(stats)
                    })
                },
            ensures
                items.placed() == n,
            decreases n - items.placed(),
        {
            let room = root.room();
            let ghost i = items.placed();
            proof {
                if i < n {
                    assert(data[i].len() > 0 && root_chunk_size(data, i) > 0);
                    assert(items.placeable(room));
                }
            }
            match items.step(room) {
                RootStep::Done => {
                    break;
                },
                RootStep::Refused => {
                    assert(false);
                    break;
                },
                RootStep::Add(item) => {
                    let ghost bytes = item@;
                    let _ = root.add_item(item);
                    assert(whole_items(data, i).push(bytes) =~= whole_items(data, i + 1));
                    assert(data[i].take(data[i].len() as int) =~= data[i]);
                },
                RootStep::Overflow(suffix) => {
                    proof {
                        lemma_fresh_free_space();
                    }
                    let mut tape = ChainTapeWriter::new(index, page_type);
                    assert(index@ =~= suffix_base(rel, page_type, first_time));
                    assert(suffix@ =~= root_suffix(data));
                    let next = tape.write(index, suffix, stats);
                    let item = items.link(room, next);
                    let _ = root.add_item(item);
                },
            }
        }
        // Old suffixes, and suffixes of replacements that were given up, are not reclaimed.
        root
    }
}

/// The chunks of item `i` once a root page is published.
pub open spec fn root_chunks(
    rel: RelationView,
    page_type: PageType,
    first_time: bool,
    items: Seq<Seq<u8>>,
    i: int,
) -> Seq<Seq<u8>> {
    if i == items.len() - 1 && root_overflows(items) {
        seq![items[i].take(root_split(items))] + suffix_chunks(rel, page_type, first_time, items)
    } else {
        seq![items[i]]
    }
}

/// A page bounds how many items stand on a root.
proof fn lemma_root_count(items: Seq<Seq<u8>>)
    requires
        root_fits(items),
    ensures
        items.len() < u16::MAX,
{
    let n = items.len() - 1;
    assert(items[n].len() > 0);
    assert(root_chunk_size(items, n) > 0);
    lemma_occupied_bounds(whole_items(items, n));
}

proof fn lemma_root_whole_reads(
    after: RelationView,
    page_type: PageType,
    here: ItemPointer,
    item: Seq<u8>,
)
    requires
        here.block_number < after.len() <= INVALID_BLOCK_NUMBER,
        after[here.block_number as int] matches Some(page) && page.page_type == page_type && 1
            <= here.offset <= page.items.len(),
        item_at(after, here) == chain_item(end_of_chain(), item),
        item.len() > 0,
    ensures
        chain_reads(after, page_type, here, seq![item]),
        joined(seq![item]) == item,
{
    let chunks = seq![item];
    lemma_item_roundtrip(end_of_chain(), item);
    assert(chunks.drop_first() =~= Seq::<Seq<u8>>::empty());
    assert(chain_reads(after, page_type, end_of_chain(), chunks.drop_first()));
    assert(joined(chunks.drop_first()) =~= Seq::<u8>::empty());
    assert(joined(chunks) =~= item);
}

proof fn lemma_root_overflow_reads(
    rel: RelationView,
    page_type: PageType,
    block_number: u32,
    first_time: bool,
    items: Seq<Seq<u8>>,
)
    requires
        root_ready(rel, page_type, block_number, first_time, items),
        root_overflows(items),
    ensures
        chain_reads(
            root_staged(rel, page_type, first_time, items).update(
                block_number as int,
                Some(root_page(rel, page_type, first_time, items)),
            ),
            page_type,
            root_link(rel, page_type, first_time, items),
            suffix_chunks(rel, page_type, first_time, items),
        ),
        joined(suffix_chunks(rel, page_type, first_time, items)) == root_suffix(items),
{
    let base = suffix_base(rel, page_type, first_time);
    let start = root_base(rel, first_time).len() as int;
    let data = root_suffix(items);
    let chunks = suffix_chunks(rel, page_type, first_time, items);
    lemma_fresh_free_space();
    assert(items[items.len() - 1].len() > 0);
    assert(tape_on(base, page_type, start));
    lemma_write_reads_back(base, page_type, start, data);
    lemma_chunks(
        data,
        free_space(start_items(base, start)) - CHAIN_ITEM_HEADER_SIZE,
        FRESH_CHUNK_SIZE as int,
    );
    lemma_written_from(base, page_type, start, data, 0, block_number as int);
    lemma_chain_update(
        written(base, page_type, start, data),
        block_number as int,
        root_page(rel, page_type, first_time, items),
        page_type,
        root_link(rel, page_type, first_time, items),
        chunks,
    );
}

/// Publishing a staged root makes each of its items readable at its offset.
pub proof fn lemma_root_reads_back(
    rel: RelationView,
    page_type: PageType,
    block_number: u32,
    first_time: bool,
    items: Seq<Seq<u8>>,
    i: int,
)
    requires
        root_ready(rel, page_type, block_number, first_time, items),
        0 <= i < items.len(),
    ensures
        chain_reads(
            root_staged(rel, page_type, first_time, items).update(
                block_number as int,
                Some(root_page(rel, page_type, first_time, items)),
            ),
            page_type,
            ItemPointer { block_number, offset: (i + 1) as u16 },
            root_chunks(rel, page_type, first_time, items, i),
        ),
        joined(root_chunks(rel, page_type, first_time, items, i)) == items[i],
{
    let staged = root_staged(rel, page_type, first_time, items);
    let page = root_page(rel, page_type, first_time, items);
    let after = staged.update(block_number as int, Some(page));
    let here = ItemPointer { block_number, offset: (i + 1) as u16 };
    lemma_root_count(items);
    lemma_staged_extends(rel, page_type, block_number, first_time, items);
    assert(items[i].len() > 0 && root_chunk_size(items, i) > 0);
    if i == items.len() - 1 && root_overflows(items) {
        let tail = suffix_chunks(rel, page_type, first_time, items);
        let chunks = root_chunks(rel, page_type, first_time, items, i);
        let link = root_link(rel, page_type, first_time, items);
        let chunk = items[i].take(root_split(items));
        lemma_item_roundtrip(link, chunk);
        lemma_root_overflow_reads(rel, page_type, block_number, first_time, items);
        assert(chunks.drop_first() =~= tail);
        assert(item_at(after, here) == chain_item(link, chunk));
        assert(chain_reads(after, page_type, here, chunks));
        assert(chunk + root_suffix(items) =~= items[i]);
    } else {
        assert(items.last().take(items.last().len() as int) =~= items.last());
        lemma_root_whole_reads(after, page_type, here, items[i]);
    }
}

/// Giving a staged root up leaves the relation as it was, but for the overflow that nothing
/// points to: an existing root is unchanged, and every chain reads as before.
pub proof fn lemma_root_abort_keeps(
    rel: RelationView,
    page_type: PageType,
    block_number: u32,
    first_time: bool,
    items: Seq<Seq<u8>>,
    other_type: PageType,
    ip: ItemPointer,
    chunks: Seq<Seq<u8>>,
)
    requires
        root_ready(rel, page_type, block_number, first_time, items),
        chain_reads(rel, other_type, ip, chunks),
    ensures
        extends(rel, root_staged(rel, page_type, first_time, items)),
        !first_time ==> root_staged(rel, page_type, first_time, items)[block_number as int]
            == rel[block_number as int],
        chain_reads(root_staged(rel, page_type, first_time, items), other_type, ip, chunks),
{
    lemma_staged_extends(rel, page_type, block_number, first_time, items);
    lemma_chain_extends(
        rel,
        root_staged(rel, page_type, first_time, items),
        other_type,
        ip,
        chunks,
    );
}

proof fn lemma_staged_extends(
    rel: RelationView,
    page_type: PageType,
    block_number: u32,
    first_time: bool,
    items: Seq<Seq<u8>>,
)
    requires
        root_ready(rel, page_type, block_number, first_time, items),
    ensures
        extends(rel, root_staged(rel, page_type, first_time, items)),
        rel.len() <= root_staged(rel, page_type, first_time, items).len(),
        forall|b: int|
            0 <= b < rel.len() ==> #[trigger] root_staged(rel, page_type, first_time, items)[b]
                == rel[b],
{
    let base = suffix_base(rel, page_type, first_time);
    let start = root_base(rel, first_time).len() as int;
    lemma_fresh_free_space();
    if root_overflows(items) {
        lemma_chunks(
            root_suffix(items),
            free_space(start_items(base, start)) - CHAIN_ITEM_HEADER_SIZE,
            FRESH_CHUNK_SIZE as int,
        );
    }
}

/// Publishing a staged root leaves every chain readable that does not use the root page.
pub proof fn lemma_root_keeps_others(
    rel: RelationView,
    page_type: PageType,
    block_number: u32,
    first_time: bool,
    items: Seq<Seq<u8>>,
    other_type: PageType,
    ip: ItemPointer,
    chunks: Seq<Seq<u8>>,
)
    requires
        root_ready(rel, page_type, block_number, first_time, items),
        chain_reads(rel, other_type, ip, chunks),
        chain_avoids(rel, ip, chunks.len(), block_number as int),
    ensures
        chain_reads(
            root_staged(rel, page_type, first_time, items).update(
                block_number as int,
                Some(root_page(rel, page_type, first_time, items)),
            ),
            other_type,
            ip,
            chunks,
        ),
{
    let staged = root_staged(rel, page_type, first_time, items);
    lemma_staged_extends(rel, page_type, block_number, first_time, items);
    lemma_chain_extends(rel, staged, other_type, ip, chunks);
    lemma_avoids_staged(rel, staged, other_type, ip, chunks, block_number as int);
    lemma_chain_update(
        staged,
        block_number as int,
        root_page(rel, page_type, first_time, items),
        other_type,
        ip,
        chunks,
    );
}

proof fn lemma_avoids_staged(
    rel: RelationView,
    staged: RelationView,
    page_type: PageType,
    ip: ItemPointer,
    chunks: Seq<Seq<u8>>,
    block: int,
)
    requires
        rel.len() <= staged.len(),
        forall|b: int| 0 <= b < rel.len() ==> #[trigger] staged[b] == rel[b],
        chain_reads(rel, page_type, ip, chunks),
        chain_avoids(rel, ip, chunks.len(), block),
    ensures
        chain_avoids(staged, ip, chunks.len(), block),
    decreases chunks.len(),
{
    if chunks.len() > 0 {
        assert(staged[ip.block_number as int] == rel[ip.block_number as int]);
        lemma_avoids_staged(
            rel,
            staged,
            page_type,
            next_of(item_at(rel, ip)),
            chunks.drop_first(),
            block,
        );
    }
}

} // verus!
