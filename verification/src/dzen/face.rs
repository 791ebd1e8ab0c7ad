//! The five-colour clock face. Corner indices run clockwise: top right,
//! bottom right, bottom left, top left. The hour colour sits in one corner
//! (which corner says which quarter of the day), the centre shows the
//! ten-minute colour, and the other three corners show the 100-second step
//! inside the ten minutes as a clockwise white pattern.
use vstd::prelude::*;

verus! {

broadcast use vstd::array::group_array_axioms;

/// The corner where the first hour range and the orbit's zero reference start.
pub const FIRST_CORNER: usize = 1;
pub const WHITE: u32 = 0x606060;
pub const OFF: u32 = 0x080C12;

pub open spec fn spec_color(i: int) -> u32 {
    if i == 0 {
        0xFF0000
    } else if i == 1 {
        0xFFFF00
    } else if i == 2 {
        0x00FF00
    } else if i == 3 {
        0x00FFFF
    } else if i == 4 {
        0x0000FF
    } else {
        0xFF00FF
    }
}

/// The six hour and ten-minute colours.
pub fn color(i: usize) -> (r: u32)
    requires
        i < 6,
    ensures
        r == spec_color(i as int),
{
    if i == 0 {
        0xFF0000
    } else if i == 1 {
        0xFFFF00
    } else if i == 2 {
        0x00FF00
    } else if i == 3 {
        0x00FFFF
    } else if i == 4 {
        0x0000FF
    } else {
        0xFF00FF
    }
}

#[derive(Clone, Copy, Debug, PartialEq, Eq)]
pub struct Face {
    pub corners: [u32; 4],
    pub center: u32,
}

pub open spec fn hour_corner(seconds: int) -> int {
    (FIRST_CORNER + seconds / 3600 / 6) % 4
}

/// Whether free corner `free` (0..3 clockwise after the hour corner) is white
/// in 100-second step `step` (0..6) of a ten-minute interval.
pub open spec fn is_white(step: int, free: int) -> bool {
    if step < 3 {
        free == step
    } else {
        free != step - 3
    }
}

/// The colour of corner `c` at `seconds` into the day.
pub open spec fn corner_color(seconds: int, c: int) -> u32 {
    let h = hour_corner(seconds);
    if c == h {
        spec_color(seconds / 3600 % 6)
    } else if is_white(seconds % 600 / 100, (c - h - 1) % 4) {
        WHITE
    } else {
        OFF
    }
}

/// The face shown at `seconds` into the day.
pub open spec fn face_at(seconds: int) -> Face {
    Face {
        corners: [
            corner_color(seconds, 0),
            corner_color(seconds, 1),
            corner_color(seconds, 2),
            corner_color(seconds, 3),
        ],
        center: spec_color(seconds / 600 % 6),
    }
}

impl Face {
    pub open spec fn dark_spec() -> Face {
        Face { corners: [OFF, OFF, OFF, OFF], center: OFF }
    }

    /// Whether two faces show the same colours everywhere.
    pub fn same(a: &Face, b: &Face) -> (r: bool)
        ensures
            r == (*a == *b),
    {
        let r = a.corners[0] == b.corners[0] && a.corners[1] == b.corners[1] && a.corners[2] == b.corners[2]
            && a.corners[3] == b.corners[3] && a.center == b.center;
        proof {
            if r {
                assert(a.corners =~= b.corners);
            }
        }
        r
    }

    /// The face with every indicator off.
    pub fn dark() -> (r: Face)
        ensures
            r == Face::dark_spec(),
            r.corners@ == seq![OFF, OFF, OFF, OFF],
            r.center == OFF,
    {
        Face { corners: [OFF, OFF, OFF, OFF], center: OFF }
    }

    /// The face for a time of day in seconds; `None` outside the day.
    pub fn at(seconds: usize) -> (r: Option<Face>)
        ensures
            seconds >= 86400 ==> r.is_none(),
            seconds < 86400 ==> r == Some(face_at(seconds as int)),
    {
        if seconds >= 86400 {
            return None;
        }
        let hour = seconds / 3600;
        let hour_corner = (FIRST_CORNER + hour / 6) % 4;
        let step = (seconds % 600) / 100;
        let mut face = Face { corners: [OFF, OFF, OFF, OFF], center: color((seconds / 600) % 6) };
        face.corners[hour_corner] = color(hour % 6);
        let mut free: usize = 0;
        while free < 3
            invariant
                free <= 3,
                seconds < 86400,
                hour == seconds / 3600,
                hour_corner == self::hour_corner(seconds as int),
                step == seconds as int % 600 / 100,
                face.center == spec_color(seconds as int / 600 % 6),
                face.corners@[hour_corner as int] == spec_color(hour as int % 6),
                forall|k: int|
                    0 <= k < free ==> face.corners@[(hour_corner + 1 + k) % 4] == (if is_white(
                        step as int,
                        k,
                    ) {
                        WHITE
                    } else {
                        OFF
                    }),
            decreases 3 - free,
        {
            let white = if step < 3 {
                free == step
            } else {
                free != step - 3
            };
            face.corners[(hour_corner + 1 + free) % 4] = if white {
                WHITE
            } else {
                OFF
            };
            free += 1;
        }
        proof {
            let h = hour_corner as int;
            assert forall|c: int| 0 <= c < 4 implies face.corners@[c] == corner_color(seconds as int, c) by {
                if c != h {
                    let k = (c - h - 1) % 4;
                    assert(0 <= k < 3);
                    assert((h + 1 + k) % 4 == c);
                }
            }
            assert(face.corners =~= face_at(seconds as int).corners);
        }
        Some(face)
    }
}

/// The character `'0' + d`, with `d` taken as a byte.
/// The steps of a ten-minute interval show different white patterns.
proof fn lemma_white_pattern_distinct(s1: int, s2: int)
    requires
        0 <= s1 < 6,
        0 <= s2 < 6,
        is_white(s1, 0) == is_white(s2, 0),
        is_white(s1, 1) == is_white(s2, 1),
        is_white(s1, 2) == is_white(s2, 2),
    ensures
        s1 == s2,
{
}

proof fn lemma_color_injective(i: int, j: int)
    requires
        0 <= i < 6,
        0 <= j < 6,
        spec_color(i) == spec_color(j),
    ensures
        i == j,
{
}

/// Only the hour corner shows one of the six colours.
proof fn lemma_hour_corner_only_colored(a: int, c: int)
    requires
        0 <= a < 86400,
        0 <= c < 4,
        c != hour_corner(a),
    ensures
        corner_color(a, c) == WHITE || corner_color(a, c) == OFF,
{
}

/// The hour and the 100-second step of a ten-minute interval follow from
/// the 100-second interval.
proof fn lemma_interval_parts(a: int)
    requires
        0 <= a,
    ensures
        a / 3600 == a / 100 / 36,
        a % 600 / 100 == a / 100 % 6,
{
    vstd::arithmetic::div_mod::lemma_div_denominator(a, 100, 36);
    vstd::arithmetic::div_mod::lemma_mod_breakdown(a, 100, 6);
    vstd::arithmetic::div_mod::lemma_fundamental_div_mod_converse(a % 600, 100, a / 100 % 6, a % 100);
}

proof fn lemma_same_interval_same_corners(a: int, b: int, c: int)
    requires
        0 <= a < 86400,
        0 <= b < 86400,
        a / 100 == b / 100,
    ensures
        corner_color(a, c) == corner_color(b, c),
{
    lemma_interval_parts(a);
    lemma_interval_parts(b);
    assert(a / 3600 == b / 3600);
    assert(a % 600 / 100 == b % 600 / 100);
}

proof fn lemma_same_corners_same_hour(a: int, b: int)
    requires
        0 <= a < 86400,
        0 <= b < 86400,
        forall|c: int| 0 <= c < 4 ==> corner_color(a, c) == corner_color(b, c),
    ensures
        a / 3600 == b / 3600,
        hour_corner(a) == hour_corner(b),
{
    let ha = hour_corner(a);
    let hb = hour_corner(b);
    assert(corner_color(a, ha) == corner_color(b, ha));
    assert(corner_color(a, hb) == corner_color(b, hb));
    if ha != hb {
        lemma_hour_corner_only_colored(b, ha);
    }
    assert(ha == hb);
    lemma_color_injective(a / 3600 % 6, b / 3600 % 6);
    assert(a / 3600 / 6 < 4);
    assert(b / 3600 / 6 < 4);
    assert(a / 3600 / 6 == b / 3600 / 6);
}

proof fn lemma_same_corners_same_step(a: int, b: int)
    requires
        0 <= a < 86400,
        0 <= b < 86400,
        hour_corner(a) == hour_corner(b),
        forall|c: int| 0 <= c < 4 ==> corner_color(a, c) == corner_color(b, c),
    ensures
        a % 600 / 100 == b % 600 / 100,
{
    let h = hour_corner(a);
    let c0 = (h + 1) % 4;
    let c1 = (h + 2) % 4;
    let c2 = (h + 3) % 4;
    assert(corner_color(a, c0) == corner_color(b, c0));
    assert(corner_color(a, c1) == corner_color(b, c1));
    assert(corner_color(a, c2) == corner_color(b, c2));
    assert((c0 - h - 1) % 4 == 0);
    assert((c1 - h - 1) % 4 == 1);
    assert((c2 - h - 1) % 4 == 2);
    lemma_white_pattern_distinct(a % 600 / 100, b % 600 / 100);
}

/// Two times of day show the same face exactly when they lie in the same
/// 100-second interval: the face changes at every 100-second boundary and at
/// no other time, so every 100-second interval of the day can be read back
/// from it.
pub proof fn law_face_identifies_interval(a: int, b: int)
    requires
        0 <= a < 86400,
        0 <= b < 86400,
    ensures
        (face_at(a) == face_at(b)) <==> (a / 100 == b / 100),
{
    if a / 100 == b / 100 {
        lemma_same_interval_same_corners(a, b, 0);
        lemma_same_interval_same_corners(a, b, 1);
        lemma_same_interval_same_corners(a, b, 2);
        lemma_same_interval_same_corners(a, b, 3);
        assert(a / 600 == b / 600);
        assert(face_at(a).corners =~= face_at(b).corners);
    }
    if face_at(a) == face_at(b) {
        assert forall|c: int| 0 <= c < 4 implies corner_color(a, c) == corner_color(b, c) by {
            assert(face_at(a).corners[c] == face_at(b).corners[c]);
        }
        lemma_same_corners_same_hour(a, b);
        lemma_same_corners_same_step(a, b);
        lemma_color_injective(a / 600 % 6, b / 600 % 6);
        assert(a / 600 == a / 3600 * 6 + a / 600 % 6);
        assert(b / 600 == b / 3600 * 6 + b / 600 % 6);
        assert(a / 100 == a / 600 * 6 + a % 600 / 100);
        assert(b / 100 == b / 600 * 6 + b % 600 / 100);
    }
}

pub open spec fn digit(d: int) -> u8 {
    (48 + d % 256) as u8
}

/// `HH:MM:SS` for a number of seconds.
pub open spec fn time_text_spec(seconds: int) -> Seq<u8> {
    let h = seconds / 3600;
    let m = seconds / 60 % 60;
    let s = seconds % 60;
    seq![digit(h / 10), digit(h % 10), 58u8, digit(m / 10), digit(m % 10), 58u8, digit(s / 10), digit(s % 10)]
}

/// Formats seconds as `HH:MM:SS`. Each field is two characters from `'0'`
/// on, so past 99 hours the first character leaves the digits; `requires`
/// leaves out the counts whose tens of hours would overflow a byte.
pub fn time_text(seconds: usize) -> (r: [u8; 8])
    requires
        (seconds / 3600 / 10) % 256 < 208,
    ensures
        r@ == time_text_spec(seconds as int),
{
    let h = seconds / 3600;
    let m = seconds / 60 % 60;
    let s = seconds % 60;
    let r = [
        48u8 + ((h / 10) % 256) as u8,
        48u8 + (h % 10) as u8,
        58u8,
        48u8 + (m / 10) as u8,
        48u8 + (m % 10) as u8,
        58u8,
        48u8 + (s / 10) as u8,
        48u8 + (s % 10) as u8,
    ];
    assert(r@ =~= time_text_spec(seconds as int));
    r
}

} // verus!
