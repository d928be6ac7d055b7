use vectorscale::util::item_pointer::{
    ItemPointer, INVALID_BLOCK_NUMBER, INVALID_OFFSET, KEY_LIMIT,
};

#[test]
fn a_pointer_is_found_again_from_its_key() {
    for block in [0, 1, 255, 65535, 65536, 4_294_967_294, INVALID_BLOCK_NUMBER] {
        for offset in [0, 1, 256, 65535] {
            let p = ItemPointer::new(block, offset);
            assert!(p.to_key() < KEY_LIMIT);
            assert_eq!(ItemPointer::from_key(p.to_key()), p);
        }
    }
    assert_eq!(ItemPointer::new(2, 3).to_key(), 2 * 65536 + 3);
}

#[test]
fn keys_stand_in_the_order_of_the_pointers() {
    let pointers = [
        ItemPointer::new(0, 1),
        ItemPointer::new(0, 65535),
        ItemPointer::new(1, 0),
        ItemPointer::new(1, 7),
        ItemPointer::new(70000, 1),
    ];
    for pair in pointers.windows(2) {
        assert!(pair[0].to_key() < pair[1].to_key());
    }
}

#[test]
fn a_pointer_without_a_block_is_invalid() {
    let p = ItemPointer::new_invalid();
    assert_eq!(p.block_number, INVALID_BLOCK_NUMBER);
    assert_eq!(p.offset, INVALID_OFFSET);
    assert!(!p.is_valid());
    assert!(ItemPointer::new(0, 1).is_valid());
}
