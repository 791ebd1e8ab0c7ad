use mind_core::console::Console;

const BG: u32 = 0x001E1E2E;
const FG: u32 = 0x00A6E3A1;

fn font() -> [u64; 64] {
    let mut font = [0u64; 64];
    // Glyph 33 ('A'): a single lit pixel in the top left corner.
    font[33] = 1 << 63;
    // Glyph 1 ('!'): the whole cell lit.
    font[1] = u64::MAX;
    font
}

#[test]
fn glyphs_are_drawn_and_the_cursor_advances() {
    let (w, h) = (32, 40);
    let mut fb = vec![7u32; w * h];
    let mut term = Console::new(w, h, w, BG, FG);
    term.print_char(&mut fb, &font(), b'a'); // shows as 'A'
    assert_eq!(fb[0], FG);
    assert_eq!(fb[1], BG);
    assert_eq!(fb[7 * w + 7], BG);
    assert_eq!(fb[8], 7);
    term.print_char(&mut fb, &font(), b'!');
    assert!((0..8).all(|r| (8..16).all(|c| fb[r * w + c] == FG)));
    term.print_char(&mut fb, &font(), 8); // backspace erases the '!'
    assert!((0..8).all(|r| (8..16).all(|c| fb[r * w + c] == BG)));
    term.print_char(&mut fb, &font(), b'!');
    term.print_char(&mut fb, &font(), b'\r');
    assert_eq!(fb[16], 7);
}

#[test]
fn lines_wrap_at_the_edge_and_newlines_move_down() {
    let (w, h) = (16, 40);
    let mut fb = vec![0u32; w * h];
    let mut term = Console::new(w, h, w, BG, FG);
    term.print(&mut fb, &font(), b"!!!");
    // Two glyphs fill the first line; the third starts the second.
    assert_eq!(fb[10 * w], FG);
    assert_eq!(fb[10 * w + 8], 0);
    term.print(&mut fb, &font(), b"\n!");
    assert_eq!(fb[20 * w], FG);
}

#[test]
fn reaching_the_bottom_scrolls_one_line() {
    let (w, h) = (8, 30);
    let mut fb = vec![0u32; w * h];
    let mut term = Console::new(w, h, w, BG, FG);
    term.print(&mut fb, &font(), b"!"); // line 0, then wraps to line 1
    assert_eq!(fb[0], FG);
    term.print(&mut fb, &font(), b"A"); // line 1, wraps to line 2: scroll
    // Line 1 moved up to line 0: only its top left pixel is lit.
    assert_eq!(fb[0], FG);
    assert_eq!(fb[1], BG);
    // The line above the bottom line was cleared.
    assert!(fb[10 * w..20 * w].iter().all(|&p| p == BG));
    // The bottom line is never drawn.
    assert!(fb[20 * w..].iter().all(|&p| p == 0));
}

#[test]
fn clear_fills_the_screen_and_homes_the_cursor() {
    let (w, h) = (16, 30);
    let mut fb = vec![0u32; w * h];
    let mut term = Console::new(w, h, w, BG, FG);
    term.print(&mut fb, &font(), b"!\n!");
    term.clear(&mut fb);
    assert!(fb.iter().all(|&p| p == BG));
    term.print_char(&mut fb, &font(), b'!');
    assert_eq!(fb[0], FG);
}

#[test]
fn a_console_narrower_than_a_glyph_draws_it_in_the_row_and_wraps() {
    let (w, stride, h) = (4, 8, 40);
    let mut fb = vec![7u32; stride * h];
    let mut term = Console::new(w, h, stride, BG, FG);
    term.print_char(&mut fb, &font(), b'!');
    assert!((0..8).all(|r| (0..8).all(|c| fb[r * stride + c] == FG)));
    term.print_char(&mut fb, &font(), b'!');
    assert_eq!(fb[10 * stride], FG);
}
