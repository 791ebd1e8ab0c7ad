use mind_core::canvas::{present, Frame};
use mind_core::draw::{draw_char, draw_string, draw_text, fill_rect, rotating_square};

fn font() -> [u64; 64] {
    let mut font = [0u64; 64];
    font[33] = 1 << 63; // 'A': top left pixel
    font[1] = u64::MAX; // '!': every pixel
    font
}

#[test]
fn glyphs_write_only_their_lit_pixels() {
    let stride = 20;
    let mut fb = vec![5u32; stride * 10];
    draw_char(&mut fb, stride, 2, 1, &font(), b'a', 9);
    assert_eq!(fb[1 * stride + 2], 9);
    assert_eq!(fb[1 * stride + 3], 5);
    assert_eq!(fb.iter().filter(|&&p| p == 9).count(), 1);
    draw_string(&mut fb, stride, 0, 2, &font(), b"!A", 7);
    assert!((2..10).all(|r| (0..8).all(|c| fb[r * stride + c] == 7)));
    assert_eq!(fb[2 * stride + 8], 7);
    assert_eq!(fb[2 * stride + 9], 5);
}

#[test]
fn rectangles_and_text_are_cut_at_the_edge() {
    let f = Frame { width: 10, height: 6, stride: 12 };
    let mut fb = vec![0u32; 12 * 6];
    fill_rect(f, &mut fb, 8, 4, 100, 100, 3);
    assert_eq!(fb[4 * 12 + 8], 3);
    assert_eq!(fb[5 * 12 + 9], 3);
    assert_eq!(fb[4 * 12 + 10], 0); // margin beyond the width
    assert_eq!(fb.iter().filter(|&&p| p == 3).count(), 4);
    let mut fb = vec![0u32; 12 * 6];
    draw_text(f, &mut fb, &font(), 4, 0, b"!a", 8); // 'a' shows as 'A', past the edge
    assert!((0..6).all(|r| (4..10).all(|c| fb[r * 12 + c] == 8)));
    assert!((0..6).all(|r| fb[r * 12 + 10] == 0 && fb[r * 12 + 3] == 0));
    let mut fb = vec![0u32; 12 * 6];
    draw_text(f, &mut fb, &font(), 0, 0, b"a", 8);
    assert_eq!(fb[0], 8);
    assert_eq!(fb.iter().filter(|&&p| p == 8).count(), 1);
}

#[test]
fn the_square_turns_with_the_frames() {
    let f = Frame { width: 400, height: 400, stride: 400 };
    let mut fb = vec![0u32; 400 * 400];
    rotating_square(f, &mut fb, 0, 0xff);
    // Unturned: the corner (200 + 119, 200 + 119) is in, (200 + 121, 200) out.
    assert_eq!(fb[(200 + 119) * 400 + 200 + 119], 0xff);
    assert_eq!(fb[200 * 400 + 200 + 121], 0x111111);
    assert_eq!(fb[10 * 400 + 10], 0);
    rotating_square(f, &mut fb, 4, 0xff); // 40 degrees
    assert_eq!(fb[(200 + 119) * 400 + 200 + 119], 0x111111);
    assert_eq!(fb[200 * 400 + 200 + 140], 0xff);
}

#[test]
fn presenting_writes_only_changed_pixels() {
    let f = Frame { width: 2, height: 2, stride: 3 };
    let source = vec![1, 2, 9, 3, 4, 9];
    let mut shadow = vec![0u32; 6];
    let mut screen = vec![7u32; 6];
    present(f, &source, &mut shadow, &mut screen, false);
    assert_eq!(screen, vec![1, 2, 7, 3, 4, 7]);
    assert_eq!(shadow, vec![1, 2, 0, 3, 4, 0]);
    screen[0] = 50; // the screen was touched behind the shadow's back
    let source = vec![1, 5, 9, 3, 4, 9];
    present(f, &source, &mut shadow, &mut screen, true);
    assert_eq!(screen, vec![50, 5, 7, 3, 4, 7]);
    assert_eq!(shadow, vec![1, 5, 0, 3, 4, 0]);
}
