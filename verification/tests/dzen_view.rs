use mind_core::abi::{BootInfo, ProgramImage};
use mind_core::dzen::cycle::{point_at, OrbitMode};
use mind_core::dzen::face::{Face, OFF};
use mind_core::dzen::view::{View, BACKGROUND, CYCLE, DIGITS, HINT, RIM};
use mind_core::shell::PROGRAM_COUNT;

fn boot(width: usize, height: usize) -> BootInfo {
    BootInfo {
        fb_ptr: 0,
        width,
        height,
        stride: width,
        programs: [ProgramImage { data: 0, len: 0 }; PROGRAM_COUNT],
        heap_ptr: 0,
        heap_len: 0,
        ap_trampoline: 0,
        cpu_count: 0,
        apic_ids: [0; 8],
    }
}

#[test]
fn full_turn_restores_orbit_ticks_and_hiding_restores_background() {
    let mut pixels = vec![0u32; 640 * 480];
    let info = boot(640, 480);
    let view = View::new(&info);
    view.clear(&mut pixels);
    view.face(&mut pixels, Face::at(19 * 3600 + 35 * 60).unwrap());
    let background = pixels.clone();
    let mut simple = Vec::new();
    for mode in [OrbitMode::Simple, OrbitMode::Ticks] {
        view.cycle(&mut pixels, None, None, OrbitMode::Off, mode);
        let stationary = pixels.clone();
        if mode == OrbitMode::Simple {
            simple = stationary.clone();
        }
        let mut previous = None;
        for phase in (0..100000).step_by(100) {
            let current = Some(point_at(phase, view.half() * 3 / 4));
            view.cycle(&mut pixels, previous, current, mode, mode);
            previous = current;
        }
        view.cycle(&mut pixels, previous, None, mode, mode);
        assert_eq!(
            pixels, stationary,
            "dot must restore every crossed orbit pixel and tick"
        );
        if mode == OrbitMode::Ticks {
            view.cycle(&mut pixels, None, None, mode, OrbitMode::Simple);
            assert_eq!(
                pixels, simple,
                "switching P to C removes all nine extra ticks"
            );
            view.cycle(&mut pixels, None, None, OrbitMode::Simple, OrbitMode::Off);
        } else {
            view.cycle(&mut pixels, None, None, mode, OrbitMode::Off);
        }
        assert_eq!(
            pixels, background,
            "hiding must preserve all five indicators and erase the orbit"
        );
    }
}

#[test]
fn shape_follows_the_smaller_side() {
    let view = View::new(&boot(640, 480));
    assert_eq!(view.half(), 96);
    let small = View::new(&boot(3, 3));
    assert_eq!(small.half(), 1);
    let large = View::new(&boot(4000, 3000));
    assert_eq!(large.half(), 160);
}

#[test]
fn clear_paints_every_visible_pixel_and_nothing_beyond() {
    let mut info = boot(10, 4);
    info.stride = 12;
    let mut pixels = vec![7u32; 12 * 4 + 3];
    View::new(&info).clear(&mut pixels);
    for (i, &p) in pixels.iter().enumerate() {
        let visible = i < 48 && i % 12 < 10;
        assert_eq!(p, if visible { BACKGROUND } else { 7 }, "pixel {}", i);
    }
}

#[test]
fn face_discs_have_rims_and_coloured_centres() {
    let mut pixels = vec![0u32; 640 * 480];
    let view = View::new(&boot(640, 480));
    view.clear(&mut pixels);
    let face = Face::at(0).unwrap();
    view.face(&mut pixels, face);
    // Centre disc around (320, 216), radius 32.
    assert_eq!(pixels[216 * 640 + 320], face.center);
    assert_eq!(pixels[216 * 640 + 320 + 32], RIM);
    assert_eq!(pixels[216 * 640 + 320 + 33], OFF);
    // Top right corner disc around (416, 120).
    assert_eq!(pixels[120 * 640 + 416], face.corners[0]);
    // Bottom left corner disc around (224, 312).
    assert_eq!(pixels[312 * 640 + 224], face.corners[2]);
}

#[test]
fn dot_is_drawn_and_erased() {
    let mut pixels = vec![0u32; 640 * 480];
    let view = View::new(&boot(640, 480));
    view.clear(&mut pixels);
    let before = pixels.clone();
    view.cycle(&mut pixels, None, Some((0, 0)), OrbitMode::Off, OrbitMode::Off);
    // Diameter 4 around the centre (320, 216): cells -2..2.
    assert_eq!(pixels[216 * 640 + 320], CYCLE);
    assert_eq!(pixels[214 * 640 + 318], BACKGROUND);
    assert_eq!(pixels[215 * 640 + 318], CYCLE);
    view.cycle(&mut pixels, Some((0, 0)), None, OrbitMode::Off, OrbitMode::Off);
    assert_eq!(pixels, before);
}

#[test]
fn digital_aid_draws_segments_and_colons() {
    let mut pixels = vec![0u32; 640 * 480];
    let view = View::new(&boot(640, 480));
    view.clear(&mut pixels);
    view.digital(&mut pixels, b"88:88:88", true);
    // Box at (258, 216 + 96 + 32 + 28 = 372).
    let (x, y) = (258, 372);
    assert_eq!(pixels[y * 640 + x + 1], DIGITS); // top bar of the first 8
    assert_eq!(pixels[y * 640 + x], BACKGROUND); // the cell's corner stays dark
    assert_eq!(pixels[(y + 6) * 640 + x + 32 + 5], DIGITS); // colon
    view.digital(&mut pixels, b"88:88:88", false);
    assert!(pixels[y * 640..(y + 21) * 640].iter().all(|&p| p == BACKGROUND));
}

#[test]
fn hints_use_the_font_and_hide_again() {
    let mut pixels = vec![0u32; 640 * 480];
    let view = View::new(&boot(640, 480));
    view.clear(&mut pixels);
    let before = pixels.clone();
    let font = [u64::MAX; 64];
    view.hints(&mut pixels, &font, true);
    // "DZEN CLOCK" is 80 pixels wide, centred from x = 280 at y = 24.
    assert_eq!(pixels[24 * 640 + 280], HINT);
    assert_eq!(pixels[24 * 640 + 279], BACKGROUND);
    assert_eq!(pixels[31 * 640 + 359], HINT);
    assert_eq!(pixels[32 * 640 + 300], BACKGROUND);
    view.hints(&mut pixels, &font, false);
    assert_eq!(pixels, before);
}

#[test]
fn the_ticked_orbit_covers_the_plain_one() {
    let info = boot(320, 240);
    let view = View::new(&info);
    let mut plain = vec![0u32; 320 * 240];
    view.clear(&mut plain);
    let background = plain.clone();
    let mut ticked = plain.clone();
    view.cycle(&mut plain, None, None, OrbitMode::Off, OrbitMode::Simple);
    view.cycle(&mut ticked, None, None, OrbitMode::Off, OrbitMode::Ticks);
    let mut drawn = 0;
    for i in 0..plain.len() {
        if plain[i] != background[i] {
            drawn += 1;
            assert_ne!(ticked[i], background[i]);
        }
    }
    assert!(drawn > 0);
    view.cycle(&mut ticked, None, None, OrbitMode::Ticks, OrbitMode::Off);
    assert_eq!(ticked, background);
}
