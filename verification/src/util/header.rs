//! The header that each item of a chain begins with.

use vstd::prelude::*;

use super::item_pointer::ItemPointer;

verus! {

/// The size of the header.
pub const CHAIN_ITEM_HEADER_SIZE: usize = 8;

/// A number as four bytes, the least significant first.
pub open spec fn le_bytes(x: u32) -> Seq<u8> {
    seq![
        (x % 256) as u8,
        (x / 256 % 256) as u8,
        (x / 65536 % 256) as u8,
        (x / 16777216 % 256) as u8,
    ]
}

/// The number that the four bytes from `at` on stand for.
pub open spec fn le_value(s: Seq<u8>, at: int) -> int {
    s[at] + 256 * s[at + 1] + 65536 * s[at + 2] + 16777216 * s[at + 3]
}

/// The header of an item that is followed by the item at `next`: the block number, then the
/// offset widened to the same size.
pub open spec fn header_bytes(next: ItemPointer) -> Seq<u8> {
    le_bytes(next.block_number) + le_bytes(next.offset as u32)
}

/// What an item's header says of the next item.
pub open spec fn next_of(item: Seq<u8>) -> ItemPointer {
    ItemPointer {
        block_number: le_value(item, 0) as u32,
        offset: (item[4] + 256 * item[5]) as u16,
    }
}

/// The item that holds `chunk` and is followed by the item at `next`.
pub open spec fn chain_item(next: ItemPointer, chunk: Seq<u8>) -> Seq<u8> {
    header_bytes(next) + chunk
}

/// What an item holds besides its header.
pub open spec fn payload_of(item: Seq<u8>) -> Seq<u8> {
    item.skip(CHAIN_ITEM_HEADER_SIZE as int)
}

/// A number is found again from its bytes.
proof fn lemma_le_roundtrip(x: u32)
    ensures
        le_value(le_bytes(x), 0) == x,
{
    let s = le_bytes(x);
    assert(x == x % 256 + 256 * (x / 256 % 256) + 65536 * (x / 65536 % 256) + 16777216 * (x
        / 16777216 % 256));
}

/// What is written into an item is read out of it again: the link and the chunk.
pub proof fn lemma_item_roundtrip(next: ItemPointer, chunk: Seq<u8>)
    ensures
        chain_item(next, chunk).len() == CHAIN_ITEM_HEADER_SIZE + chunk.len(),
        next_of(chain_item(next, chunk)) == next,
        payload_of(chain_item(next, chunk)) == chunk,
{
    let item = chain_item(next, chunk);
    lemma_le_roundtrip(next.block_number);
    let b = le_bytes(next.block_number);
    let o = le_bytes(next.offset as u32);
    assert(item[0] == b[0] && item[1] == b[1] && item[2] == b[2] && item[3] == b[3]);
    assert(item[4] == o[0] && item[5] == o[1]);
    assert(payload_of(item) =~= chunk);
}

/// `rkyv::to_bytes` of two numbers.
///
/// With the crate's feature `archive_le` an archived `u32` is its four bytes, the least
/// significant first, and an archived array is its elements one after the other. The array has
/// nothing out of line, so it is all that is written, and the serializer, which has a growing
/// buffer, does not fail.
#[verifier::external_body]
fn archive_words(first: u32, second: u32) -> (r: Vec<u8>)
    ensures
        r@ == le_bytes(first) + le_bytes(second),
{
    rkyv::to_bytes::<_, 256>(&[first, second]).unwrap().into_vec()
}

/// `rkyv::check_archived_root` of two numbers.
///
/// The bytes are copied to an aligned buffer first, since the check refuses others. Eight bytes
/// are exactly the archived array, and every bit pattern is one of a `u32`, so the check does
/// not fail.
#[verifier::external_body]
fn read_archived_words(bytes: &[u8]) -> (r: (u32, u32))
    requires
        bytes.len() == CHAIN_ITEM_HEADER_SIZE,
    ensures
        r.0 == le_value(bytes@, 0),
        r.1 == le_value(bytes@, 4),
{
    let mut aligned = rkyv::AlignedVec::new();
    aligned.extend_from_slice(bytes);
    let words = rkyv::check_archived_root::<[u32; 2]>(&aligned).unwrap();
    (words[0].value(), words[1].value())
}

/// Makes the item that holds `chunk` and is followed by the item at `next`.
pub fn make_item(next: ItemPointer, chunk: &[u8]) -> (r: Vec<u8>)
    ensures
        r@ == chain_item(next, chunk@),
        r@.len() == CHAIN_ITEM_HEADER_SIZE + chunk@.len(),
{
    let mut item = archive_words(next.block_number, next.offset as u32);
    item.extend_from_slice(chunk);
    assert(item@ =~= chain_item(next, chunk@));
    item
}

/// Reads where the item after `item` stands.
pub fn read_next(item: &[u8]) -> (r: ItemPointer)
    requires
        item.len() >= CHAIN_ITEM_HEADER_SIZE,
    ensures
        r == next_of(item@),
{
    let header = vstd::slice::slice_subrange(item, 0, CHAIN_ITEM_HEADER_SIZE);
    let (block_number, offset) = read_archived_words(header);
    let ghost high = item@[6] + 256 * item@[7];
    assert(offset == item@[4] + 256 * item@[5] + 65536 * high);
    ItemPointer { block_number, offset: (offset % 65536) as u16 }
}

} // verus!
