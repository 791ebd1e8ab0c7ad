use mind_core::abi::RTC_UNAVAILABLE;
use mind_core::canvas::Frame;
use mind_core::clock::{draw_text, layout, update, BACKGROUND, FOREGROUND};

#[test]
fn the_time_is_centred_at_a_fortieth_of_the_screen() {
    assert_eq!(layout(1024, 768), (8, 256, 352));
    assert_eq!(layout(640, 480), (8, 64, 208));
    assert_eq!(layout(320, 200), (4, 32, 84));
    assert_eq!(layout(100, 20), (1, 18, 6));
    assert_eq!(layout(40, 40), (1, 0, 16));
}

#[test]
fn a_reading_is_drawn_only_when_it_changes() {
    assert_eq!(update(None, RTC_UNAVAILABLE), (Some(RTC_UNAVAILABLE), false));
    assert_eq!(update(Some(5), RTC_UNAVAILABLE), (Some(5), false));
    assert_eq!(update(Some(5), 86_400), (Some(5), false));
    assert_eq!(update(None, 10), (Some(10), true));
    assert_eq!(update(Some(10), 10), (Some(10), false));
    assert_eq!(update(Some(RTC_UNAVAILABLE), 10), (Some(10), true));
    assert_eq!(update(Some(10), 86_399), (Some(86_399), true));
}

fn font_with_corner() -> [u64; 64] {
    let mut font = [0u64; 64];
    // 'A' is glyph 33: only its top left pixel is lit.
    font[33] = 1 << 63;
    font
}

#[test]
fn scaled_glyphs_fill_their_whole_box() {
    let f = Frame { width: 20, height: 20, stride: 20 };
    let mut fb = vec![0u32; 400];
    draw_text(f, &mut fb, &font_with_corner(), 1, 1, b"A", 2, FOREGROUND);
    for y in 0..20 {
        for x in 0..20 {
            let expected = if (1..3).contains(&x) && (1..3).contains(&y) {
                FOREGROUND
            } else if (1..17).contains(&x) && (1..17).contains(&y) {
                BACKGROUND
            } else {
                0
            };
            assert_eq!(fb[y * 20 + x], expected, "pixel ({}, {})", x, y);
        }
    }
}

#[test]
fn scaled_text_is_cut_at_the_edge() {
    let f = Frame { width: 10, height: 6, stride: 12 };
    let mut fb = vec![7u32; 72];
    draw_text(f, &mut fb, &font_with_corner(), 4, 2, b"AA", 3, FOREGROUND);
    for y in 0..6 {
        for x in 0..12 {
            let expected = if x >= 10 || x < 4 || y < 2 {
                7
            } else if (4..7).contains(&x) && (2..5).contains(&y) {
                FOREGROUND
            } else {
                BACKGROUND
            };
            assert_eq!(fb[y * 12 + x], expected, "pixel ({}, {})", x, y);
        }
    }
}

#[test]
fn nothing_is_drawn_at_scale_zero_or_for_no_text() {
    let f = Frame { width: 8, height: 8, stride: 8 };
    let mut fb = vec![3u32; 64];
    draw_text(f, &mut fb, &font_with_corner(), 0, 0, b"A", 0, FOREGROUND);
    draw_text(f, &mut fb, &font_with_corner(), 0, 0, b"", 2, FOREGROUND);
    assert!(fb.iter().all(|&p| p == 3));
}
