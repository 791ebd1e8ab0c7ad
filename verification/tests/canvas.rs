use mind_core::canvas::screen_bytes;

#[test]
fn screen_sizes_are_checked_for_overflow() {
    assert_eq!(screen_bytes(1024, 768), Ok(1024 * 768 * 4));
    assert_eq!(screen_bytes(0, 768), Ok(0));
    assert_eq!(screen_bytes(usize::MAX / 4, 1), Ok(usize::MAX / 4 * 4));
    assert_eq!(screen_bytes(usize::MAX / 4 + 1, 1), Err("FRAMEBUFFER SIZE OVERFLOW"));
    assert_eq!(screen_bytes(usize::MAX / 2, 3), Err("FRAMEBUFFER SIZE OVERFLOW"));
}
