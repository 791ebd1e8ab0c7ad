use mind_core::dzen::clock::{Draw, Dzen};
use mind_core::dzen::cycle::{point_at, Cycle, OrbitMode};
use mind_core::dzen::face::{color, time_text, Face, OFF, WHITE};

fn colors() -> [u32; 6] {
    [color(0), color(1), color(2), color(3), color(4), color(5)]
}

#[test]
fn rtc_sync_interpolation_boundary_and_midnight() {
    let mut cycle = Cycle::new();
    assert_eq!(cycle.phase(50), None);
    cycle.observe(usize::MAX, 50);
    assert_eq!(cycle.phase(50), None);
    cycle.observe(3599, 1000);
    cycle.observe(3599, 1100); // Same second must not restart interpolation.
    assert_eq!(cycle.phase(1150), Some(99150));
    assert_eq!(cycle.phase(5000), Some(99999)); // Stale RTC stays in its bucket.
    cycle.observe(3600, 5000);
    assert_eq!(cycle.phase(5000), Some(0));
    cycle.observe(86399, 6000);
    assert_eq!(cycle.phase(6600), Some(99600));
    cycle.observe(0, 7000);
    assert_eq!(cycle.phase(7000), Some(0));
    cycle.observe(123, usize::MAX - 50);
    assert_eq!(cycle.phase(49), Some(23100)); // Uptime overflow.
}

#[test]
fn quarter_turns_and_wrap_are_clockwise() {
    assert_eq!(point_at(0, 120), (84, 84));
    assert_eq!(point_at(25000, 120), (-84, 84));
    assert_eq!(point_at(50000, 120), (-84, -84));
    assert_eq!(point_at(75000, 120), (84, -84));
    assert_eq!(point_at(100000, 120), point_at(0, 120));
    for phase in (0..100000).step_by(100) {
        let a = point_at(phase, 120);
        let b = point_at(phase + 100, 120);
        assert!(a.0 * b.1 - a.1 * b.0 >= 0);
        assert!((a.0 - b.0).abs() <= 2 && (a.1 - b.1).abs() <= 2);
    }
}

#[test]
fn full_orbit_clears_center_and_corner_indicators() {
    for half in [48, 96, 120, 153, 160] {
        let indicator = half as isize / 3;
        let corner = half as isize;
        for phase in (0..100000).step_by(100) {
            let radius = half * 3 / 4;
            let length = (half / 24).max(1);
            for (x, y) in [
                point_at(phase, radius - length),
                point_at(phase, radius + length),
            ] {
                assert!(x * x + y * y > (indicator + 3).pow(2));
                for (cx, cy) in [
                    (corner, corner),
                    (-corner, corner),
                    (corner, -corner),
                    (-corner, -corner),
                ] {
                    assert!((x - cx).pow(2) + (y - cy).pow(2) > (indicator + 3).pow(2));
                }
            }
        }
    }
}

#[test]
fn keys_select_modes_and_repeat_turns_them_off() {
    assert_eq!(OrbitMode::Off.toggle(OrbitMode::Simple), OrbitMode::Simple);
    assert_eq!(OrbitMode::Off.toggle(OrbitMode::Ticks), OrbitMode::Ticks);
    assert_eq!(OrbitMode::Simple.toggle(OrbitMode::Ticks), OrbitMode::Ticks);
    assert_eq!(
        OrbitMode::Ticks.toggle(OrbitMode::Simple),
        OrbitMode::Simple
    );
    assert_eq!(OrbitMode::Simple.toggle(OrbitMode::Simple), OrbitMode::Off);
    assert_eq!(OrbitMode::Ticks.toggle(OrbitMode::Ticks), OrbitMode::Off);
}

#[test]
fn hour_and_ten_minute_colors_cover_the_day() {
    let colors = colors();
    for hour in 0..24 {
        for tens in 0..6 {
            let face = Face::at(hour * 3600 + tens * 600).unwrap();
            let corner = [1, 2, 3, 0][hour / 6];
            assert_eq!(face.corners[corner], colors[hour % 6]);
            assert_eq!(face.center, colors[tens]);
            assert_eq!(
                face.corners.iter().filter(|c| colors.contains(c)).count(),
                1
            );
        }
    }
    assert_eq!(Face::at(86400), None);
    assert_eq!(Face::at(usize::MAX), None);
}

#[test]
fn clockwise_white_patterns_change_at_exact_100_second_boundaries() {
    let colors = colors();
    let patterns = [
        [WHITE, OFF, OFF],
        [OFF, WHITE, OFF],
        [OFF, OFF, WHITE],
        [OFF, WHITE, WHITE],
        [WHITE, OFF, WHITE],
        [WHITE, WHITE, OFF],
    ];
    for (segment, corner) in [1, 2, 3, 0].into_iter().enumerate() {
        for (step, expected) in patterns.iter().enumerate() {
            for offset in [0, 99] {
                let face = Face::at(segment * 21600 + 1200 + step * 100 + offset).unwrap();
                assert_eq!(face.center, colors[2]);
                for free in 0..3 {
                    assert_eq!(face.corners[(corner + 1 + free) % 4], expected[free]);
                }
            }
        }
    }
}

#[test]
fn every_second_decodes_to_its_100_second_bucket() {
    let colors = colors();
    for seconds in 0..86400 {
        let face = Face::at(seconds).unwrap();
        let corner = face
            .corners
            .iter()
            .position(|c| colors.contains(c))
            .unwrap();
        let hour = [3, 0, 1, 2][corner] * 6
            + colors
                .iter()
                .position(|c| *c == face.corners[corner])
                .unwrap();
        let tens = colors.iter().position(|c| *c == face.center).unwrap();
        let whites = face.corners.iter().filter(|&&c| c == WHITE).count();
        let marker = if whites == 1 { WHITE } else { OFF };
        assert!(whites == 1 || whites == 2);
        let free = (0..3)
            .find(|i| face.corners[(corner + 1 + i) % 4] == marker)
            .unwrap();
        let decoded = hour * 3600 + tens * 600 + (free + if whites == 2 { 3 } else { 0 }) * 100;
        assert_eq!(decoded, seconds / 100 * 100);
    }
}

#[test]
fn digital_time_formats_midnight_and_last_second() {
    assert_eq!(&time_text(0), b"00:00:00");
    assert_eq!(&time_text(6 * 3600 + 9 * 60 + 8), b"06:09:08");
    assert_eq!(&time_text(86399), b"23:59:59");
}

#[test]
fn faces_differ_across_a_100_second_boundary_only() {
    assert_eq!(Face::at(1200), Face::at(1299));
    assert_ne!(Face::at(1299), Face::at(1300));
    assert_eq!(Face::dark().corners, [OFF; 4]);
    assert_eq!(Face::dark().center, OFF);
}

#[test]
fn point_at_matches_interpolated_samples() {
    // Halfway between the 43.2 and 46.8 degree samples, rounded toward zero.
    assert_eq!(point_at(0, 10000), (7068, 7067));
    assert_eq!(point_at(100000 + 12345, 77), point_at(12345, 77));
}

#[test]
fn repeating_a_key_turns_the_orbit_off() {
    for mode in [OrbitMode::Off, OrbitMode::Ticks] {
        assert_eq!(mode.toggle(OrbitMode::Simple).toggle(OrbitMode::Simple), OrbitMode::Off);
    }
}

#[test]
fn clock_keys_toggle_digits_hints_and_orbit() {
    let mut clock = Dzen::new();
    assert_eq!(clock.previous_face, Face::dark());
    assert_eq!(clock.key(0), vec![]);
    assert_eq!(clock.key(b'd'), vec![Draw::Digital { time: None, visible: false }]);
    assert_eq!(clock.key(0x20), vec![Draw::Digital { time: None, visible: true }]);
    assert_eq!(clock.key(b'H'), vec![Draw::Hints(false)]);
    assert_eq!(clock.key(b'c'), vec![]);
    assert_eq!(clock.orbit_mode, OrbitMode::Simple);
    clock.key(b'P');
    assert_eq!(clock.orbit_mode, OrbitMode::Ticks);
    clock.key(0x19);
    assert_eq!(clock.orbit_mode, OrbitMode::Off);
}

#[test]
fn clock_readings_redraw_only_what_changed() {
    let mut clock = Dzen::new();
    let face = Face::at(3600).unwrap();
    assert_eq!(
        clock.reading(3600, 1000, 100),
        vec![Draw::Face(face), Draw::Digital { time: Some(3600), visible: true }]
    );
    // The same second again changes nothing; the next one only the digits.
    assert_eq!(clock.reading(3600, 1200, 100), vec![]);
    assert_eq!(clock.reading(3601, 2000, 100), vec![Draw::Digital { time: Some(3601), visible: true }]);
    // A reading outside the day is ignored.
    assert_eq!(clock.reading(90_000, 2100, 100), vec![]);
    clock.key(b'c');
    let dot = point_at(1 * 1000 + 500, 100);
    assert_eq!(
        clock.reading(3601, 2500, 100),
        vec![Draw::Cycle { previous: None, current: Some(dot), old_mode: OrbitMode::Off, mode: OrbitMode::Simple }]
    );
    assert_eq!(clock.reading(3601, 2500, 100), vec![]);
}
