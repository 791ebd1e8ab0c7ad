use mind_core::apps::{app2_layout, app_key, frame_due, ping_message, APP_THEME};
use mind_core::apps::{bounce, decimal, usize_to_str, KbdState};

#[test]
fn decimal_writes_digits_at_the_end() {
    let mut buffer = [b'x'; 20];
    let start = decimal(9075, &mut buffer);
    assert_eq!(start, 16);
    assert_eq!(&buffer[start..], b"9075");
    assert_eq!(buffer[15], b'x');
    let mut buffer = [0; 20];
    let start = decimal(0, &mut buffer);
    assert_eq!(&buffer[start..], b"0");
}

#[test]
fn usize_to_str_writes_digits_at_the_start() {
    let mut buf = [b'.'; 8];
    assert_eq!(usize_to_str(120, &mut buf), 3);
    assert_eq!(&buf, b"120.....");
    assert_eq!(usize_to_str(7, &mut buf), 1);
    assert_eq!(&buf[..1], b"7");
}

#[test]
fn bounce_goes_out_and_back() {
    assert_eq!(bounce(0, 10), 0);
    assert_eq!(bounce(7, 10), 7);
    assert_eq!(bounce(10, 10), 10);
    assert_eq!(bounce(13, 10), 7);
    assert_eq!(bounce(20, 10), 0);
    assert_eq!(bounce(5, 0), 0);
}

#[test]
fn keyboard_driver_tracks_modifiers() {
    let mut k = KbdState::new();
    assert_eq!(k.process(0x1e), (0x1e, b'a', false));
    assert_eq!(k.process(0x2a), (0, 0, false)); // shift down
    assert_eq!(k.process(0x1e), (0x1e, b'A', false));
    assert_eq!(k.process(0xaa), (0, 0, false)); // shift up
    assert_eq!(k.process(0x02), (0x02, b'1', false));
    assert_eq!(k.process(0x9e), (0, 0, false)); // release
    assert_eq!(k.process(0x1d), (0, 0, false)); // ctrl down
    assert_eq!(k.process(0x2c), (0, 0, true)); // ctrl+z
    assert_eq!(k.process(0x9d), (0, 0, false)); // ctrl up
    assert_eq!(k.process(0x2c), (0x2c, b'z', false));
    assert_eq!(k.process(0xe0), (0, 0, false)); // extended prefix
    assert_eq!(k.process(0x48), (0, 0, false)); // swallowed
    assert_eq!(k.process(0x1c), (0x1c, b'\n', false));
    assert_eq!(k.process(0x50), (0x50, 0, false)); // beyond the layout
}

#[test]
fn demo_keys_pick_colours_and_escape_exits() {
    assert_eq!(app_key(0, APP_THEME, 5), (APP_THEME, 5, false));
    assert_eq!(app_key(0x20, APP_THEME, 0), (0x00FF0000, 0x20, false));
    assert_eq!(app_key(0x39, APP_THEME, 0), (0x00FF0000, 0x39, false));
    assert_eq!(app_key(0x0D, APP_THEME, 0), (0x000000FF, 0x0D, false));
    assert_eq!(app_key(0x22, APP_THEME, 0), (0x0000FF00, 0x22, false));
    assert_eq!(app_key(b'g', APP_THEME, 0), (0x0000FF00, b'g', false));
    assert_eq!(app_key(b'a', 0x00FF0000, 0), (0x00FF0000, b'a', false));
    assert_eq!(app_key(0x1B, APP_THEME, 3), (APP_THEME, 0x1B, true));
    assert_eq!(app_key(0x01, APP_THEME, 3), (APP_THEME, 0x01, true));
    assert_eq!(app_key(0x90, APP_THEME, 3), (APP_THEME, 3, false));
}

#[test]
fn frames_come_at_the_interval_across_a_wrap() {
    assert!(!frame_due(100, 50));
    assert!(frame_due(50_000_100, 100));
    assert!(!frame_due(50_000_099, 100));
    assert!(frame_due(10, usize::MAX - 49_999_990));
    assert!(!frame_due(10, usize::MAX - 49_999_988));
}

#[test]
fn the_bouncing_square_fits_the_screen() {
    assert_eq!(app2_layout(1024, 768), (120, 64, 912, 560));
    assert_eq!(app2_layout(100, 100), (100, 0, 52, 0));
    assert_eq!(app2_layout(80, 200), (120, 32, 0, 24));
    assert_eq!(app2_layout(0, 0), (0, 0, 0, 0));
}

#[test]
fn ping_writes_its_text_count_and_terminator() {
    let mut buf = [0xAAu8; 64];
    let n = ping_message(1000, &mut buf);
    let expected = b"HELLO FROM PING! ZERO-COPY IPC SUCCESS! COUNT: 1000";
    assert_eq!(n, expected.len());
    assert_eq!(&buf[..n], &expected[..]);
    assert_eq!(buf[n], 0);
    assert!(buf[n + 1..].iter().all(|&b| b == 0xAA));
    let n = ping_message(0, &mut buf);
    assert_eq!(&buf[..n + 1], &b"HELLO FROM PING! ZERO-COPY IPC SUCCESS! COUNT: 0\0"[..]);
}
