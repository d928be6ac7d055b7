//! Pointers to items on pages.

use vstd::prelude::*;

verus! {

/// The block number that stands for "no block".
pub const INVALID_BLOCK_NUMBER: u32 = 0xFFFF_FFFF;

/// The offset that stands for "no item".
pub const INVALID_OFFSET: u16 = 0;

/// How many values an offset can have; the weight of a block number in a pointer's key.
pub const OFFSET_VALUES: u64 = 0x1_0000;

/// How many keys there are: every key is below this bound.
pub const KEY_LIMIT: u64 = 0x1_0000_0000_0000;

/// Where an item stands: a block of the relation, and an offset on the page in that block.
/// Offsets count from one.
#[derive(Clone, Copy, Debug, PartialEq, Eq, PartialOrd, Ord, Hash, Structural)]
pub struct ItemPointer {
    pub block_number: u32,
    pub offset: u16,
}

/// A pointer to a node of the index.
pub type IndexPointer = ItemPointer;

/// A pointer to a row of the indexed table.
pub type HeapPointer = ItemPointer;

/// Whether `a` comes before `b`: by block number, and within a block by offset.
pub open spec fn pointer_before(a: ItemPointer, b: ItemPointer) -> bool {
    a.block_number < b.block_number || (a.block_number == b.block_number && a.offset < b.offset)
}

/// The number that stands for `p` in collections keyed by integers.
pub open spec fn key_of(p: ItemPointer) -> u64 {
    (p.block_number * OFFSET_VALUES + p.offset) as u64
}

/// The pointer that `key` stands for.
pub open spec fn pointer_of(key: u64) -> ItemPointer {
    ItemPointer {
        block_number: (key / OFFSET_VALUES) as u32,
        offset: (key % OFFSET_VALUES) as u16,
    }
}

impl ItemPointer {
    pub fn new(block_number: u32, offset: u16) -> (r: Self)
        ensures
            r == (ItemPointer { block_number, offset }),
    {
        ItemPointer { block_number, offset }
    }

    /// The pointer that points nowhere.
    pub fn new_invalid() -> (r: Self)
        ensures
            r.block_number == INVALID_BLOCK_NUMBER,
            r.offset == INVALID_OFFSET,
    {
        ItemPointer { block_number: INVALID_BLOCK_NUMBER, offset: INVALID_OFFSET }
    }

    /// Whether the pointer names a block.
    pub open spec fn spec_is_valid(self) -> bool {
        self.block_number != INVALID_BLOCK_NUMBER
    }

    pub fn is_valid(&self) -> (r: bool)
        ensures
            r == self.spec_is_valid(),
    {
        self.block_number != INVALID_BLOCK_NUMBER
    }

    /// The pointer as one number. No two pointers share one, and the numbers stand in the
    /// order of the pointers.
    pub fn to_key(self) -> (key: u64)
        ensures
            key == key_of(self),
            key < KEY_LIMIT,
            pointer_of(key) == self,
    {
        proof {
            lemma_key_roundtrip(self);
        }
        self.block_number as u64 * OFFSET_VALUES + self.offset as u64
    }

    /// The pointer whose number is `key`.
    pub fn from_key(key: u64) -> (r: Self)
        requires
            key < KEY_LIMIT,
        ensures
            r == pointer_of(key),
            key_of(r) == key,
    {
        ItemPointer {
            block_number: (key / OFFSET_VALUES) as u32,
            offset: (key % OFFSET_VALUES) as u16,
        }
    }
}

/// A pointer is found again from its key, and keys stay below the limit.
pub proof fn lemma_key_roundtrip(p: ItemPointer)
    ensures
        key_of(p) == p.block_number * OFFSET_VALUES + p.offset,
        key_of(p) < KEY_LIMIT,
        pointer_of(key_of(p)) == p,
{
}

/// Keys are ordered as the pointers that they stand for; so different pointers have different
/// keys. Of two pointers the one with the smaller block comes first, and in the same block the
/// one with the smaller offset.
pub proof fn lemma_key_order(a: ItemPointer, b: ItemPointer)
    ensures
        key_of(a) < key_of(b) <==> pointer_before(a, b),
        key_of(a) == key_of(b) <==> a == b,
        a.block_number < b.block_number ==> key_of(a) < key_of(b),
        a.block_number == b.block_number && a.offset < b.offset ==> key_of(a) < key_of(b),
{
}

} // verus!
