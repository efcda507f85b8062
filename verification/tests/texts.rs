use restructure::text::{to_block_heading, to_decimal, to_jump_label};

#[test]
fn numbers_are_written_in_tens() {
    assert_eq!(to_decimal(0), "0");
    assert_eq!(to_decimal(9), "9");
    assert_eq!(to_decimal(10), "10");
    assert_eq!(to_decimal(203), "203");
    assert_eq!(to_decimal(4294967295), "4294967295");
}

#[test]
fn jump_labels_and_headings_name_blocks() {
    assert_eq!(to_jump_label(12), "l12");
    assert_eq!(to_block_heading(7), "block 7");
}

#[test]
fn different_blocks_have_different_labels() {
    for a in 0..120u32 {
        for b in 0..a {
            assert_ne!(to_jump_label(a), to_jump_label(b));
        }
    }
}
