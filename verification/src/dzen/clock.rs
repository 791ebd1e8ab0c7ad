//! The five-colour clock program's state between frames: which keys toggle
//! what, and what each RTC reading redraws.
use vstd::prelude::*;
use crate::dzen::cycle::{phase_of, point_at, point_spec, toggled, Cycle, OrbitMode};
use crate::dzen::face::{face_at, Face};

verus! {

/// One drawing step of the clock, done with the program's `View`.
#[derive(Clone, Copy, Debug, PartialEq, Eq)]
pub enum Draw {
    /// The digital display: the time of day `Some(seconds)` (dashes for
    /// `None`), shown or hidden.
    Digital { time: Option<usize>, visible: bool },
    /// The title and key help, shown or hidden.
    Hints(bool),
    /// The five indicators.
    Face(Face),
    /// The orbit: the dot moves from `previous` to `current`, the orbit
    /// changes from `old_mode` to `mode`.
    Cycle { previous: Option<(isize, isize)>, current: Option<(isize, isize)>, old_mode: OrbitMode, mode: OrbitMode },
}

/// What the clock remembers between frames.
pub struct Dzen {
    pub previous_face: Face,
    pub previous_time: Option<usize>,
    pub show_digits: bool,
    pub show_hints: bool,
    pub orbit_mode: OrbitMode,
    pub previous_mode: OrbitMode,
    pub cycle: Cycle,
    pub previous_dot: Option<(isize, isize)>,
}

/// `D` (PS/2 scancode 0x20, or the letter) shows or hides the digits.
pub open spec fn digits_key(key: u8) -> bool {
    key == 0x20 || key == 100 || key == 68
}

/// `H` (scancode 0x23, or the letter) shows or hides the hints.
pub open spec fn hints_key(key: u8) -> bool {
    key == 0x23 || key == 104 || key == 72
}

/// `C` (scancode 0x2E, or the letter) asks for the plain orbit, `P`
/// (scancode 0x19, or the letter) for the orbit with ten-second ticks.
pub open spec fn mode_key(key: u8) -> Option<OrbitMode> {
    if key == 0x2E || key == 99 || key == 67 {
        Some(OrbitMode::Simple)
    } else if key == 0x19 || key == 112 || key == 80 {
        Some(OrbitMode::Ticks)
    } else {
        None
    }
}

/// The dot at uptime `now` on an orbit of `radius` pixels.
pub open spec fn dot_spec(mode: OrbitMode, cycle: (Option<usize>, usize), now: usize, radius: int) -> Option<(isize, isize)> {
    if mode == OrbitMode::Off {
        None
    } else {
        match cycle.0 {
            None => None,
            Some(s) => {
                let p = point_spec(phase_of(s, cycle.1, now) as int, radius);
                Some((p.0 as isize, p.1 as isize))
            },
        }
    }
}

impl Dzen {
    /// What the clock knows of its frames: a remembered time is a time of
    /// day.
    pub open spec fn wf(&self) -> bool {
        self.previous_time matches Some(t) ==> t < 86400
    }

    /// The clock before its first frame: dark indicators, digits and hints
    /// shown, no orbit.
    pub fn new() -> (r: Self)
        ensures
            r.wf(),
            r.previous_face == Face::dark_spec(),
            r.previous_time is None,
            r.show_digits && r.show_hints,
            r.orbit_mode == OrbitMode::Off && r.previous_mode == OrbitMode::Off,
            r.cycle@ == (None::<usize>, 0usize),
            r.previous_dot is None,
    {
        Dzen {
            previous_face: Face::dark(),
            previous_time: None,
            show_digits: true,
            show_hints: true,
            orbit_mode: OrbitMode::Off,
            previous_mode: OrbitMode::Off,
            cycle: Cycle::new(),
            previous_dot: None,
        }
    }

    /// Takes key `key` (0 for none): toggles the digits or the hints and
    /// redraws them, or selects an orbit mode for the next frame.
    pub fn key(&mut self, key: u8) -> (r: Vec<Draw>)
        requires
            old(self).wf(),
        ensures
            final(self).wf(),
            final(self).show_digits == (old(self).show_digits != digits_key(key)),
            final(self).show_hints == (old(self).show_hints != hints_key(key)),
            final(self).orbit_mode == match mode_key(key) {
                Some(m) => toggled(old(self).orbit_mode, m),
                None => old(self).orbit_mode,
            },
            final(self).previous_face == old(self).previous_face,
            final(self).previous_time == old(self).previous_time,
            final(self).previous_mode == old(self).previous_mode,
            final(self).previous_dot == old(self).previous_dot,
            final(self).cycle@ == old(self).cycle@,
            r@ == (if digits_key(key) {
                seq![Draw::Digital { time: old(self).previous_time, visible: final(self).show_digits }]
            } else {
                Seq::empty()
            }) + (if hints_key(key) {
                seq![Draw::Hints(final(self).show_hints)]
            } else {
                Seq::empty()
            }),
    {
        let mut r: Vec<Draw> = Vec::new();
        if key == 0x20 || key == 100 || key == 68 {
            self.show_digits = !self.show_digits;
            r.push(Draw::Digital { time: self.previous_time, visible: self.show_digits });
        }
        if key == 0x23 || key == 104 || key == 72 {
            self.show_hints = !self.show_hints;
            r.push(Draw::Hints(self.show_hints));
        }
        if key == 0x2E || key == 99 || key == 67 {
            self.orbit_mode = self.orbit_mode.toggle(OrbitMode::Simple);
        } else if key == 0x19 || key == 112 || key == 80 {
            self.orbit_mode = self.orbit_mode.toggle(OrbitMode::Ticks);
        }
        proof {
            let a: Seq<Draw> = if digits_key(key) {
                seq![Draw::Digital { time: old(self).previous_time, visible: self.show_digits }]
            } else {
                Seq::empty()
            };
            let b: Seq<Draw> = if hints_key(key) {
                seq![Draw::Hints(self.show_hints)]
            } else {
                Seq::empty()
            };
            assert(r@ =~= a + b);
        }
        r
    }

    /// Takes the RTC reading `seconds` at uptime `now`: the indicators
    /// change when the face changes, the digits when the time changes
    /// while they are shown, and the orbit when its dot or mode changes. An
    /// orbit of `radius` pixels is drawn around the centre.
    pub fn reading(&mut self, seconds: usize, now: usize, radius: usize) -> (r: Vec<Draw>)
        requires
            old(self).wf(),
            radius * 10000 <= isize::MAX,
        ensures
            final(self).wf(),
            final(self).show_digits == old(self).show_digits,
            final(self).show_hints == old(self).show_hints,
            final(self).orbit_mode == old(self).orbit_mode,
            final(self).cycle@ == if seconds < 86400 && old(self).cycle@.0 != Some(seconds) {
                (Some(seconds), now)
            } else {
                old(self).cycle@
            },
            seconds < 86400 ==> final(self).previous_face == face_at(seconds as int) && final(self).previous_time
                == Some(seconds),
            seconds >= 86400 ==> final(self).previous_face == old(self).previous_face && final(self).previous_time
                == old(self).previous_time,
            ({
                let dot = dot_spec(old(self).orbit_mode, final(self).cycle@, now, radius as int);
                let moved = dot != old(self).previous_dot || old(self).orbit_mode != old(self).previous_mode;
                let face_part: Seq<Draw> = if seconds < 86400 && face_at(seconds as int) != old(self).previous_face {
                    seq![Draw::Face(face_at(seconds as int))]
                } else {
                    Seq::empty()
                };
                let digits_part: Seq<Draw> = if seconds < 86400 && old(self).previous_time != Some(seconds)
                    && old(self).show_digits {
                    seq![Draw::Digital { time: Some(seconds), visible: true }]
                } else {
                    Seq::empty()
                };
                let cycle_part: Seq<Draw> = if moved {
                    seq![
                        Draw::Cycle {
                            previous: old(self).previous_dot,
                            current: dot,
                            old_mode: old(self).previous_mode,
                            mode: old(self).orbit_mode,
                        },
                    ]
                } else {
                    Seq::empty()
                };
                &&& r@ == face_part + digits_part + cycle_part
                &&& final(self).previous_dot == if moved {
                    dot
                } else {
                    old(self).previous_dot
                }
                &&& final(self).previous_mode == old(self).orbit_mode
                &&& dot matches Some(p) ==> -radius <= p.0 <= radius && -radius <= p.1 <= radius
            }),
    {
        let mut r: Vec<Draw> = Vec::new();
        self.cycle.observe(seconds, now);
        if let Some(current) = Face::at(seconds) {
            if !Face::same(&current, &self.previous_face) {
                r.push(Draw::Face(current));
                self.previous_face = current;
            }
            let changed = match self.previous_time {
                Some(t) => t != seconds,
                None => true,
            };
            if changed && self.show_digits {
                r.push(Draw::Digital { time: Some(seconds), visible: true });
            }
            self.previous_time = Some(seconds);
        }
        let ghost after_face = r@;
        let dot = if self.orbit_mode != OrbitMode::Off {
            match self.cycle.phase(now) {
                Some(phase) => Some(point_at(phase, radius)),
                None => None,
            }
        } else {
            None
        };
        let dot_changed = match (dot, self.previous_dot) {
            (Some(a), Some(b)) => a.0 != b.0 || a.1 != b.1,
            (None, None) => false,
            _ => true,
        };
        if dot_changed || self.orbit_mode != self.previous_mode {
            r.push(
                Draw::Cycle {
                    previous: self.previous_dot,
                    current: dot,
                    old_mode: self.previous_mode,
                    mode: self.orbit_mode,
                },
            );
            self.previous_dot = dot;
            self.previous_mode = self.orbit_mode;
        }
        r
    }
}

} // verus!
