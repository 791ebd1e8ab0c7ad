//! The orbit of the five-colour clock. Within an RTC second the position is
//! interpolated from uptime and resynchronized at every RTC change; a stale or
//! missing RTC freezes the last second and never invents a new 100-second
//! interval.
use vstd::prelude::*;
use crate::dzen::face::FIRST_CORNER;

verus! {

pub struct Cycle {
    second: Option<usize>,
    since: usize,
}

/// The millisecond phase in a 100-second orbit, at uptime `now`, for the RTC
/// second `second` first seen at uptime `since`.
pub open spec fn phase_of(second: usize, since: usize, now: usize) -> usize {
    let elapsed = now.wrapping_sub(since);
    ((second % 100) * 1000 + if elapsed < 999 {
        elapsed
    } else {
        999usize
    }) as usize
}

impl View for Cycle {
    /// The last valid RTC second seen and the uptime when it was first seen.
    type V = (Option<usize>, usize);

    closed spec fn view(&self) -> (Option<usize>, usize) {
        (self.second, self.since)
    }
}

impl Cycle {
    pub fn new() -> (r: Self)
        ensures
            r@.0.is_none(),
            r@.1 == 0,
    {
        Cycle { second: None, since: 0 }
    }

    /// Records the RTC second `seconds` at uptime `now`. A value outside the
    /// day is ignored, and the same second again keeps the earlier uptime.
    pub fn observe(&mut self, seconds: usize, now: usize)
        ensures
            if seconds < 86400 && old(self)@.0 != Some(seconds) {
                final(self)@ == (Some(seconds), now)
            } else {
                final(self)@ == old(self)@
            },
    {
        let changed = match self.second {
            Some(s) => s != seconds,
            None => true,
        };
        if seconds < 86400 && changed {
            self.second = Some(seconds);
            self.since = now;
        }
    }

    /// The orbit phase in milliseconds at uptime `now`, or `None` before any
    /// valid second has been seen. It stays inside the second's place in the
    /// 100-second orbit: at most 999 ms past its start.
    pub fn phase(&self, now: usize) -> (r: Option<usize>)
        ensures
            match self@.0 {
                None => r.is_none(),
                Some(s) => r == Some(phase_of(s, self@.1, now)),
            },
            r matches Some(p) ==> p < 100000 && p / 1000 == self@.0.unwrap() % 100,
    {
        match self.second {
            None => None,
            Some(s) => {
                let elapsed = now.wrapping_sub(self.since);
                let fraction = if elapsed < 999 {
                    elapsed
                } else {
                    999
                };
                Some((s % 100) * 1000 + fraction)
            },
        }
    }
}

#[derive(Clone, Copy, Debug, PartialEq, Eq, Structural)]
pub enum OrbitMode {
    Off,
    Simple,
    Ticks,
}

pub open spec fn toggled(mode: OrbitMode, requested: OrbitMode) -> OrbitMode {
    if mode == requested {
        OrbitMode::Off
    } else {
        requested
    }
}

impl OrbitMode {
    /// Selects the requested mode; requesting the current mode turns the
    /// orbit off.
    pub fn toggle(self, requested: Self) -> (r: Self)
        ensures
            r == toggled(self, requested),
    {
        if self == requested {
            OrbitMode::Off
        } else {
            requested
        }
    }
}

/// Pressing the key of one mode twice in a row, from any other mode, turns
/// the orbit off again.
pub proof fn law_repeat_turns_off(mode: OrbitMode, requested: OrbitMode)
    requires
        mode != requested,
    ensures
        toggled(toggled(mode, requested), requested) == OrbitMode::Off,
{
}

/// Quarter-sine samples, scale 10,000, every 3.6 degrees.
pub open spec fn sine_sample(i: int) -> int {
    if i == 0 { 0 } else if i == 1 { 628 } else if i == 2 { 1253 } else if i == 3 { 1874 }
    else if i == 4 { 2487 } else if i == 5 { 3090 } else if i == 6 { 3681 } else if i == 7 { 4258 }
    else if i == 8 { 4818 } else if i == 9 { 5358 } else if i == 10 { 5878 } else if i == 11 { 6374 }
    else if i == 12 { 6845 } else if i == 13 { 7290 } else if i == 14 { 7705 } else if i == 15 { 8090 }
    else if i == 16 { 8443 } else if i == 17 { 8763 } else if i == 18 { 9048 } else if i == 19 { 9298 }
    else if i == 20 { 9511 } else if i == 21 { 9686 } else if i == 22 { 9823 } else if i == 23 { 9921 }
    else if i == 24 { 9980 } else { 10000 }
}

fn sine(i: usize) -> (r: isize)
    requires
        i <= 25,
    ensures
        r == sine_sample(i as int),
{
    if i == 0 { 0 } else if i == 1 { 628 } else if i == 2 { 1253 } else if i == 3 { 1874 }
    else if i == 4 { 2487 } else if i == 5 { 3090 } else if i == 6 { 3681 } else if i == 7 { 4258 }
    else if i == 8 { 4818 } else if i == 9 { 5358 } else if i == 10 { 5878 } else if i == 11 { 6374 }
    else if i == 12 { 6845 } else if i == 13 { 7290 } else if i == 14 { 7705 } else if i == 15 { 8090 }
    else if i == 16 { 8443 } else if i == 17 { 8763 } else if i == 18 { 9048 } else if i == 19 { 9298 }
    else if i == 20 { 9511 } else if i == 21 { 9686 } else if i == 22 { 9823 } else if i == 23 { 9921 }
    else if i == 24 { 9980 } else { 10000 }
}

/// Integer division rounding toward zero, as the machine divides.
pub open spec fn div_toward_zero(a: int, b: int) -> int {
    if a >= 0 {
        a / b
    } else {
        -((-a) / b)
    }
}

/// Where the orbit starts: the first hour corner, 45 + 90 * FIRST_CORNER
/// degrees clockwise from twelve o'clock.
pub open spec fn orbit_origin() -> int {
    12500 + FIRST_CORNER * 25000
}

/// The point at `phase` ms on a circle of `radius` pixels (y grows
/// downward), one clockwise turn per 100,000 ms, linearly interpolated
/// between the sine samples.
pub open spec fn point_spec(phase: int, radius: int) -> (int, int) {
    let turn = (phase % 100000 + orbit_origin()) % 100000;
    let part = turn % 25000;
    let index = part / 1000;
    let fraction = part % 1000;
    let sine = sine_sample(index) + div_toward_zero(
        (sine_sample(index + 1) - sine_sample(index)) * fraction,
        1000,
    );
    let cosine = sine_sample(25 - index) + div_toward_zero(
        (sine_sample(24 - index) - sine_sample(25 - index)) * fraction,
        1000,
    );
    let q = turn / 25000;
    let (x, y) = if q == 0 {
        (sine, -cosine)
    } else if q == 1 {
        (cosine, sine)
    } else if q == 2 {
        (-sine, cosine)
    } else {
        (-cosine, -sine)
    };
    (div_toward_zero(x * radius, 10000), div_toward_zero(y * radius, 10000))
}

proof fn lemma_interpolation_bounds(lo: int, hi: int, fraction: int)
    requires
        0 <= lo <= 10000,
        0 <= hi <= 10000,
        0 <= fraction < 1000,
    ensures
        -10000000 <= (hi - lo) * fraction <= 10000000,
{
    assert(-10000000 <= (hi - lo) * fraction <= 10000000) by (nonlinear_arith)
        requires
            -10000 <= hi - lo <= 10000,
            0 <= fraction < 1000,
    ;
}

/// Interpolating between two samples stays between them.
proof fn lemma_interpolation_between(lo: int, hi: int, fraction: int)
    requires
        0 <= lo <= 10000,
        0 <= hi <= 10000,
        0 <= fraction < 1000,
    ensures
        0 <= lo + div_toward_zero((hi - lo) * fraction, 1000) <= 10000,
{
    let d = hi - lo;
    if d >= 0 {
        assert(0 <= d * fraction <= d * 1000) by (nonlinear_arith)
            requires
                d >= 0,
                0 <= fraction < 1000,
        ;
        assert((d * fraction) / 1000 <= d);
    } else {
        let e = -d;
        assert((-d) * fraction == -(d * fraction)) by (nonlinear_arith);
        assert(0 <= e * fraction <= e * 1000) by (nonlinear_arith)
            requires
                e >= 0,
                0 <= fraction < 1000,
        ;
        assert((e * fraction) / 1000 <= e);
    }
}

proof fn lemma_samples_increase(i: int)
    requires
        0 <= i < 25,
    ensures
        0 <= sine_sample(i) <= sine_sample(i + 1) <= 10000,
{
}

pub(crate) fn div_zero_ward(a: isize, b: isize) -> (r: isize)
    requires
        b > 0,
        a > isize::MIN,
    ensures
        r == div_toward_zero(a as int, b as int),
{
    if a >= 0 {
        a / b
    } else {
        -((-a) / b)
    }
}

proof fn lemma_div_within(a: int, m: int)
    requires
        m >= 0,
        -10000 * m <= a <= 10000 * m,
    ensures
        -m <= div_toward_zero(a, 10000) <= m,
{
    vstd::arithmetic::div_mod::lemma_div_multiples_vanish(m, 10000);
    if a >= 0 {
        vstd::arithmetic::div_mod::lemma_div_is_ordered(a, 10000 * m, 10000);
    } else {
        vstd::arithmetic::div_mod::lemma_div_is_ordered(-a, 10000 * m, 10000);
    }
}

proof fn lemma_div_negate(a: int, b: int)
    requires
        b > 0,
    ensures
        div_toward_zero(-a, b) == -div_toward_zero(a, b),
{
}

/// A quarter of the period turns the dot a quarter turn clockwise: with y
/// growing downward, `(x, y)` becomes `(-y, x)`.
pub proof fn law_quarter_turn(phase: int, radius: int)
    requires
        phase >= 0,
    ensures
        point_spec(phase + 25000, radius) == (-point_spec(phase, radius).1, point_spec(phase, radius).0),
{
    let t = (phase % 100000 + orbit_origin()) % 100000;
    let t2 = ((phase + 25000) % 100000 + orbit_origin()) % 100000;
    assert(t2 == (t + 25000) % 100000) by {
        vstd::arithmetic::div_mod::lemma_add_mod_noop(phase, 25000, 100000);
        vstd::arithmetic::div_mod::lemma_add_mod_noop(phase % 100000, orbit_origin(), 100000);
        vstd::arithmetic::div_mod::lemma_add_mod_noop((phase + 25000) % 100000, orbit_origin(), 100000);
        vstd::arithmetic::div_mod::lemma_add_mod_noop(phase + orbit_origin(), 25000, 100000);
        vstd::arithmetic::div_mod::lemma_add_mod_noop(phase, orbit_origin(), 100000);
    }
    assert(t2 % 25000 == t % 25000);
    let part = t % 25000;
    let index = part / 1000;
    let fraction = part % 1000;
    let sine = sine_sample(index) + div_toward_zero((sine_sample(index + 1) - sine_sample(index)) * fraction, 1000);
    let cosine = sine_sample(25 - index) + div_toward_zero(
        (sine_sample(24 - index) - sine_sample(25 - index)) * fraction,
        1000,
    );
    assert((-sine) * radius == -(sine * radius)) by (nonlinear_arith);
    assert((-cosine) * radius == -(cosine * radius)) by (nonlinear_arith);
    lemma_div_negate(sine * radius, 10000);
    lemma_div_negate(cosine * radius, 10000);
}

/// The orbit point for `phase` on a circle of `radius` pixels.
pub fn point_at(phase: usize, radius: usize) -> (r: (isize, isize))
    requires
        radius * 10000 <= isize::MAX,
    ensures
        (r.0 as int, r.1 as int) == point_spec(phase as int, radius as int),
        -(radius as int) <= r.0 <= radius,
        -(radius as int) <= r.1 <= radius,
{
    let origin: usize = 12_500 + FIRST_CORNER * 25_000;
    let turn = (phase % 100_000 + origin) % 100_000;
    let part = turn % 25_000;
    let index = part / 1000;
    let fraction = (part % 1000) as isize;
    proof {
        lemma_samples_increase(index as int);
        lemma_samples_increase(24 - index as int);
        lemma_interpolation_bounds(sine_sample(index as int), sine_sample(index + 1), fraction as int);
        lemma_interpolation_bounds(sine_sample(25 - index), sine_sample(24 - index), fraction as int);
        lemma_interpolation_between(sine_sample(index as int), sine_sample(index + 1), fraction as int);
        lemma_interpolation_between(sine_sample(25 - index), sine_sample(24 - index), fraction as int);
    }
    let sn = sine(index) + div_zero_ward((sine(index + 1) - sine(index)) * fraction, 1000);
    let cs = sine(25 - index) + div_zero_ward((sine(24 - index) - sine(25 - index)) * fraction, 1000);
    let q = turn / 25_000;
    let (x, y) = if q == 0 {
        (sn, -cs)
    } else if q == 1 {
        (cs, sn)
    } else if q == 2 {
        (-sn, cs)
    } else {
        (-cs, -sn)
    };
    proof {
        assert(-10000 <= sn <= 10000);
        assert(-10000 <= cs <= 10000);
        let m = isize::MAX as int;
        assert(-m <= x * radius <= m) by (nonlinear_arith)
            requires
                -10000 <= x <= 10000,
                0 <= radius,
                10000 * radius <= m,
        ;
        assert(-m <= y * radius <= m) by (nonlinear_arith)
            requires
                -10000 <= y <= 10000,
                0 <= radius,
                10000 * radius <= m,
        ;
    }
    proof {
        assert(-10000 * radius <= x * radius <= 10000 * radius) by (nonlinear_arith)
            requires
                -10000 <= x <= 10000,
                0 <= radius,
        ;
        assert(-10000 * radius <= y * radius <= 10000 * radius) by (nonlinear_arith)
            requires
                -10000 <= y <= 10000,
                0 <= radius,
        ;
        lemma_div_within(x * radius, radius as int);
        lemma_div_within(y * radius, radius as int);
    }
    let radius = radius as isize;
    (div_zero_ward(x * radius, 10000), div_zero_ward(y * radius, 10000))
}

/// The orbit repeats every 100,000 ms.
pub proof fn law_point_periodic(phase: int, radius: int)
    requires
        phase >= 0,
    ensures
        point_spec(phase + 100000, radius) == point_spec(phase, radius),
{
    assert((phase + 100000) % 100000 == phase % 100000);
}

} // verus!
