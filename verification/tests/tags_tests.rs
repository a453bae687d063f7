use dwm::tags::{shift, sptag, SPTAGMASK, TAGMASK};

#[test]
fn sptag_is_bit_after_ordinary_tags() {
    assert_eq!(sptag(0), 1u32 << 9);
}

#[test]
fn shift_rotates_left_and_right() {
    assert_eq!(shift(1, 1), 2);
    assert_eq!(shift(1, -1), 1 << 8);
    assert_eq!(shift(1 << 8, 1), 513);
    assert_eq!(shift(1 << 8, 1) & TAGMASK & 0x1ff, 1);
    assert_eq!(shift(0b101, 2), 0b10100);
}

#[test]
fn shift_of_union_is_union_of_shifts() {
    assert_eq!(shift(0b1_0000_0101, 1), shift(1, 1) | shift(0b100, 1) | shift(1 << 8, 1));
    assert_eq!(shift(0b110, -2), shift(0b10, -2) | shift(0b100, -2));
    assert_eq!(shift(0, 3), 0);
}

#[test]
fn scratchpad_tag_within_masks() {
    assert_eq!(sptag(0) & SPTAGMASK, sptag(0));
    assert_eq!(sptag(0) & TAGMASK, sptag(0));
    assert_eq!(sptag(0) & sptag(1), 0);
}
