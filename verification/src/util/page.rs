//! Pages of a relation, and the items on them.

use vstd::prelude::*;

use super::item_pointer::INVALID_BLOCK_NUMBER;

verus! {

/// The size of a page.
pub const BLOCK_SIZE: usize = 8192;

/// What the header and the trailer of a page leave for items and their line pointers.
pub const PAGE_CAPACITY: usize = 8160;

/// The size of the line pointer that each item has besides its bytes.
pub const LINE_POINTER_SIZE: usize = 4;

/// Items start at multiples of this.
pub const ITEM_ALIGNMENT: usize = 8;

/// The free space of a page without items.
pub const FRESH_FREE_SPACE: usize = 8152;

/// What a page is used for.
#[derive(Clone, Copy, Debug, PartialEq, Eq, Structural)]
pub enum PageType {
    Node,
    SbqMeans,
    Meta,
}

impl PageType {
    /// Whether items on such pages begin with a header that links them into chains.
    pub open spec fn spec_is_chained(self) -> bool {
        self is SbqMeans || self is Meta
    }

    pub fn is_chained(self) -> (r: bool)
        ensures
            r == self.spec_is_chained(),
    {
        match self {
            PageType::Node => false,
            PageType::SbqMeans => true,
            PageType::Meta => true,
        }
    }
}

/// What a page holds.
#[verifier::ext_equal]
pub struct PageView {
    pub page_type: PageType,
    /// The items; the first has offset one.
    pub items: Seq<Seq<u8>>,
}

/// What a relation holds, block by block. A block that was allocated and never written has no
/// page.
pub type RelationView = Seq<Option<PageView>>;

/// What an item of `len` bytes takes up on a page.
pub open spec fn footprint(len: int) -> int {
    LINE_POINTER_SIZE + (len + ITEM_ALIGNMENT - 1) / (ITEM_ALIGNMENT as int) * ITEM_ALIGNMENT
}

/// What all the items take up.
pub open spec fn occupied(items: Seq<Seq<u8>>) -> int
    decreases items.len(),
{
    if items.len() == 0 {
        0
    } else {
        occupied(items.drop_last()) + footprint(items.last().len() as int)
    }
}

/// How many bytes one more item can have, rounded down to the alignment.
pub open spec fn free_space(items: Seq<Seq<u8>>) -> int {
    let left = PAGE_CAPACITY - occupied(items);
    if left < LINE_POINTER_SIZE {
        0
    } else {
        (left - LINE_POINTER_SIZE) / (ITEM_ALIGNMENT as int) * ITEM_ALIGNMENT
    }
}

impl PageView {
    /// A page without items.
    pub open spec fn empty(page_type: PageType) -> PageView {
        PageView { page_type, items: Seq::empty() }
    }

    pub open spec fn with_item(self, item: Seq<u8>) -> PageView {
        PageView { items: self.items.push(item), ..self }
    }
}

/// A page of its own, with no place in a relation yet.
pub struct Page {
    page_type: PageType,
    items: Vec<Vec<u8>>,
    /// What the items leave of the page.
    left: usize,
}

/// What the items' vectors hold.
pub open spec fn contents(items: Seq<Vec<u8>>) -> Seq<Seq<u8>> {
    Seq::new(items.len(), |i: int| items[i]@)
}

impl View for Page {
    type V = PageView;

    closed spec fn view(&self) -> PageView {
        PageView { page_type: self.page_type, items: contents(self.items@) }
    }
}

/// Each item takes up at least its line pointer.
pub proof fn lemma_occupied_bounds(items: Seq<Seq<u8>>)
    ensures
        occupied(items) >= LINE_POINTER_SIZE * items.len(),
    decreases items.len(),
{
    if items.len() > 0 {
        lemma_occupied_bounds(items.drop_last());
    }
}

/// What one more item does to the space that is taken up.
proof fn lemma_occupied_push(items: Seq<Seq<u8>>, item: Seq<u8>)
    ensures
        occupied(items.push(item)) == occupied(items) + footprint(item.len() as int),
{
    assert(items.push(item).drop_last() =~= items);
}

impl Page {
    pub closed spec fn wf(&self) -> bool {
        self.left == PAGE_CAPACITY - occupied(self@.items)
    }

    /// A page with no items.
    pub fn new(page_type: PageType) -> (r: Self)
        ensures
            r.wf(),
            r@ == PageView::empty(page_type),
    {
        let r = Page { page_type, items: Vec::new(), left: PAGE_CAPACITY };
        assert(r@ =~= PageView::empty(page_type));
        r
    }

    pub fn page_type(&self) -> (r: PageType)
        ensures
            r == self@.page_type,
    {
        self.page_type
    }

    /// How many items the page has.
    pub fn item_count(&self) -> (r: u16)
        requires
            self.wf(),
        ensures
            r == self@.items.len(),
            r < u16::MAX,
    {
        proof {
            lemma_occupied_bounds(self@.items);
        }
        self.items.len() as u16
    }

    /// How many bytes one more item can have.
    pub fn get_aligned_free_space(&self) -> (r: usize)
        requires
            self.wf(),
        ensures
            r == free_space(self@.items),
            r <= FRESH_FREE_SPACE,
    {
        proof {
            lemma_occupied_bounds(self@.items);
        }
        if self.left < LINE_POINTER_SIZE {
            0
        } else {
            (self.left - LINE_POINTER_SIZE) / ITEM_ALIGNMENT * ITEM_ALIGNMENT
        }
    }

    /// Adds an item behind the others and returns its offset.
    pub fn add_item(&mut self, item: Vec<u8>) -> (offset: u16)
        requires
            old(self).wf(),
            0 < item.len() <= free_space(old(self)@.items),
        ensures
            final(self).wf(),
            final(self)@ == old(self)@.with_item(item@),
            offset == old(self)@.items.len() + 1,
    {
        let ghost before = *self;
        proof {
            lemma_occupied_bounds(self@.items);
            lemma_occupied_push(self@.items, item@);
        }
        let size = LINE_POINTER_SIZE + (item.len() + (ITEM_ALIGNMENT - 1)) / ITEM_ALIGNMENT
            * ITEM_ALIGNMENT;
        self.left = self.left - size;
        let ghost bytes = item@;
        self.items.push(item);
        assert(self@ =~= before@.with_item(bytes));
        self.items.len() as u16
    }

    /// The item at `offset`.
    pub fn get_item(&self, offset: u16) -> (r: &Vec<u8>)
        requires
            1 <= offset <= self@.items.len(),
        ensures
            r@ == self@.items[offset - 1],
    {
        &self.items[offset as usize - 1]
    }

    /// A copy of the page.
    pub fn copy(&self) -> (r: Self)
        requires
            self.wf(),
        ensures
            r.wf(),
            r@ == self@,
    {
        let mut items: Vec<Vec<u8>> = Vec::new();
        let mut i: usize = 0;
        while i < self.items.len()
            invariant
                i <= self.items.len(),
                contents(items@) == contents(self.items@).take(i as int),
            decreases self.items.len() - i,
        {
            let ghost done = contents(items@);
            let item = self.items[i].clone();
            let ghost bytes = item@;
            assert(bytes =~= self.items[i as int]@);
            items.push(item);
            assert(contents(items@) =~= done.push(bytes));
            assert(done.push(contents(self.items@)[i as int]) =~= contents(self.items@).take(
                i + 1,
            ));
            i = i + 1;
        }
        assert(contents(self.items@).take(i as int) =~= contents(self.items@));
        let r = Page { page_type: self.page_type, items, left: self.left };
        assert(r@ =~= self@);
        r
    }
}

/// The pages of a relation in memory, by block number.
pub struct Relation {
    pages: Vec<Option<Page>>,
}

impl View for Relation {
    type V = RelationView;

    closed spec fn view(&self) -> RelationView {
        Seq::new(
            self.pages.len() as nat,
            |i: int|
                match self.pages[i] {
                    Some(page) => Some(page@),
                    None => None,
                },
        )
    }
}

impl Relation {
    /// Every page is well-formed, and no block has the invalid block number.
    pub closed spec fn wf(&self) -> bool {
        &&& self.pages.len() <= INVALID_BLOCK_NUMBER
        &&& forall|i: int|
            0 <= i < self.pages.len() ==> (#[trigger] self.pages[i] matches Some(page)
                ==> page.wf())
    }

    /// A relation without blocks.
    pub fn new() -> (r: Self)
        ensures
            r.wf(),
            r@ == Seq::<Option<PageView>>::empty(),
    {
        let r = Relation { pages: Vec::new() };
        assert(r@ =~= Seq::<Option<PageView>>::empty());
        r
    }

    /// How many blocks the relation has.
    pub fn block_count(&self) -> (r: u32)
        requires
            self.wf(),
        ensures
            r == self@.len(),
    {
        self.pages.len() as u32
    }

    /// The page in a block.
    pub fn page(&self, block_number: u32) -> (r: Option<&Page>)
        requires
            self.wf(),
            block_number < self@.len(),
        ensures
            match r {
                Some(page) => page.wf() && self@[block_number as int] == Some(page@),
                None => self@[block_number as int] is None,
            },
    {
        self.pages[block_number as usize].as_ref()
    }

    /// Adds a block, which has no page yet.
    pub fn allocate(&mut self) -> (block_number: u32)
        requires
            old(self).wf(),
            old(self)@.len() < INVALID_BLOCK_NUMBER,
        ensures
            final(self).wf(),
            block_number == old(self)@.len(),
            final(self)@ == old(self)@.push(None),
    {
        let ghost before = *self;
        let block_number = self.pages.len() as u32;
        self.pages.push(None);
        assert(self@ =~= before@.push(None));
        block_number
    }

    /// Makes `page` the page in a block.
    pub fn publish(&mut self, block_number: u32, page: Page)
        requires
            old(self).wf(),
            page.wf(),
            block_number < old(self)@.len(),
        ensures
            final(self).wf(),
            final(self)@ == old(self)@.update(block_number as int, Some(page@)),
    {
        let ghost before = *self;
        let ghost shown = page@;
        self.pages.set(block_number as usize, Some(page));
        assert(self@ =~= before@.update(block_number as int, Some(shown)));
    }
}

/// A private copy of the page in a block, to be changed and then published. If it is dropped
/// instead, the relation keeps the page that it had.
pub struct WritablePage {
    block_number: u32,
    page: Page,
}

impl WritablePage {
    pub closed spec fn wf(&self) -> bool {
        self.page.wf()
    }

    /// The block that the page belongs to.
    pub closed spec fn block(&self) -> u32 {
        self.block_number
    }

    /// What the copy holds.
    pub closed spec fn image(&self) -> PageView {
        self.page@
    }

    /// An empty page in a new block.
    pub fn new(index: &mut Relation, page_type: PageType) -> (r: Self)
        requires
            old(index).wf(),
            old(index)@.len() < INVALID_BLOCK_NUMBER,
        ensures
            final(index).wf(),
            final(index)@ == old(index)@.push(None),
            r.wf(),
            r.block() == old(index)@.len(),
            r.image() == PageView::empty(page_type),
    {
        let block_number = index.allocate();
        WritablePage { block_number, page: Page::new(page_type) }
    }

    /// A copy of the page in a block.
    pub fn modify(index: &Relation, block_number: u32) -> (r: Self)
        requires
            index.wf(),
            block_number < index@.len(),
            index@[block_number as int] is Some,
        ensures
            r.wf(),
            r.block() == block_number,
            r.image() == index@[block_number as int]->0,
    {
        let page = index.page(block_number).unwrap();
        WritablePage { block_number, page: page.copy() }
    }

    /// Empties the copy.
    pub fn reinit(&mut self, page_type: PageType)
        ensures
            final(self).wf(),
            final(self).block() == old(self).block(),
            final(self).image() == PageView::empty(page_type),
    {
        self.page = Page::new(page_type);
    }

    pub fn get_block_number(&self) -> (r: u32)
        ensures
            r == self.block(),
    {
        self.block_number
    }

    pub fn item_count(&self) -> (r: u16)
        requires
            self.wf(),
        ensures
            r == self.image().items.len(),
            r < u16::MAX,
    {
        self.page.item_count()
    }

    pub fn get_aligned_free_space(&self) -> (r: usize)
        requires
            self.wf(),
        ensures
            r == free_space(self.image().items),
            r <= FRESH_FREE_SPACE,
    {
        self.page.get_aligned_free_space()
    }

    /// Adds an item behind the others and returns its offset.
    pub fn add_item(&mut self, item: Vec<u8>) -> (offset: u16)
        requires
            old(self).wf(),
            0 < item.len() <= free_space(old(self).image().items),
        ensures
            final(self).wf(),
            final(self).block() == old(self).block(),
            final(self).image() == old(self).image().with_item(item@),
            offset == old(self).image().items.len() + 1,
    {
        self.page.add_item(item)
    }

    /// Publishes the copy.
    pub fn commit(self, index: &mut Relation)
        requires
            self.wf(),
            old(index).wf(),
            self.block() < old(index)@.len(),
        ensures
            final(index).wf(),
            final(index)@ == old(index)@.update(self.block() as int, Some(self.image())),
    {
        index.publish(self.block_number, self.page);
    }
}

/// A page without items has room for this much.
pub proof fn lemma_fresh_free_space()
    ensures
        free_space(Seq::empty()) == FRESH_FREE_SPACE,
{
}

} // verus!
