//! Drawing the five-colour clock into a framebuffer: the five discs of the
//! face, the orbit with its moving dot and ticks, the digital aid and the
//! hint lines. Every function states the pixels it paints and their colour.
use vstd::prelude::*;
use crate::abi::BootInfo;
use crate::canvas::{
    Frame, fits, visible, paint, pixel_of, rect_points, fill, lemma_paint_union, lemma_paint_visible, lemma_paint_empty,
    lemma_paint_under, lemma_paint2_visible,
};
use crate::dzen::face::{Face, OFF};
use crate::dzen::cycle::{OrbitMode, point_at, point_spec};
use vstd::view::View as _;

verus! {

pub const BACKGROUND: u32 = OFF;
pub const RIM: u32 = 0x1C2632;
pub const DIGITS: u32 = 0x697583;
pub const HINT: u32 = 0x394553;
pub const CYCLE: u32 = 0x808080;
pub const ORBIT_SIMPLE: u32 = 0x181818;
pub const ORBIT_TICKS: u32 = 0x282828;
pub const START_TICK: u32 = 0x606060;
pub const SMALL_TICK: u32 = 0x404040;

/// Where the clock stands: the centre `(x, y)`, the distance `half` from
/// the centre to the corner discs, and the discs' `radius`.
#[derive(Clone, Copy, Debug)]
pub struct Shape {
    pub frame: Frame,
    pub x: usize,
    pub y: usize,
    pub half: usize,
    pub radius: usize,
}

pub open spec fn shape_of(width: usize, height: usize, stride: usize) -> Shape {
    let small = if width < height { width } else { height };
    let half = if small / 5 < 1 { 1 } else if small / 5 > 160 { 160 } else { small / 5 };
    Shape {
        frame: Frame { width, height, stride },
        x: width / 2,
        y: if height / 2 >= 24 { (height / 2 - 24) as usize } else { 0 },
        half: half as usize,
        radius: if half / 3 < 1 { 1 } else { (half / 3) as usize },
    }
}

/// The pixels of `points` moved by `(dx, dy)`.
pub open spec fn shifted(points: Set<(int, int)>, dx: int, dy: int) -> Set<(int, int)> {
    Set::new(|p: (int, int)| points.contains((p.0 - dx, p.1 - dy)))
}


/// The diameter of the moving dot.
pub open spec fn dot_diameter(s: Shape) -> int {
    if s.half / 24 < 2 {
        2
    } else {
        (s.half / 24) as int
    }
}

/// Cell `(dx, dy)` of a `d` × `d` grid lies in the disc inscribed in it.
pub open spec fn in_dot(dx: int, dy: int, d: int) -> bool {
    &&& 0 <= dx < d
    &&& 0 <= dy < d
    &&& (2 * dx + 1 - d) * (2 * dx + 1 - d) + (2 * dy + 1 - d) * (2 * dy + 1 - d) <= d * d
}

/// The dot of diameter `d` around `(x, y)`, its cells taken row by row up
/// to row `row`, column `col`.
pub open spec fn dot_part(x: int, y: int, d: int, row: int, col: int) -> Set<(int, int)> {
    Set::new(
        |p: (int, int)|
            {
                let dx = p.0 - x + d / 2;
                let dy = p.1 - y + d / 2;
                in_dot(dx, dy, d) && (dy < row || (dy == row && dx < col))
            },
    )
}

/// The screen pixels of the dot around `p`, a point relative to the centre.
pub open spec fn dot_pixels(s: Shape, p: (int, int)) -> Set<(int, int)> {
    let d = dot_diameter(s);
    shifted(dot_part(p.0, p.1, d, d, 0), s.x as int, s.y as int)
}

/// The disc of radius `r` around `(x, y)`: its rim (`rim`) or its inside,
/// taken row by row up to row `row`, column `col` from the centre.
pub open spec fn disc_part(x: int, y: int, r: int, rim: bool, row: int, col: int) -> Set<(int, int)> {
    Set::new(
        |p: (int, int)|
            {
                let dx = p.0 - x;
                let dy = p.1 - y;
                &&& dx * dx + dy * dy <= r * r
                &&& (dx * dx + dy * dy > (r - 1) * (r - 1)) == rim
                &&& (dy < row || (dy == row && dx < col))
            },
    )
}

pub open spec fn disc_points(x: int, y: int, r: int, rim: bool) -> Set<(int, int)> {
    disc_part(x, y, r, rim, r + 1, 0 - r)
}

/// A disc of the face: its inside in `color`, its rim in `RIM`.
pub open spec fn disc_spec(s: Shape, fb: Seq<u32>, x: int, y: int, color: u32) -> Seq<u32> {
    paint(
        s.frame,
        paint(s.frame, fb, disc_points(x, y, s.radius as int, false), color),
        disc_points(x, y, s.radius as int, true),
        RIM,
    )
}

pub open spec fn sat_sub(a: int, b: int) -> int {
    if a >= b {
        a - b
    } else {
        0
    }
}

/// The five discs: the corners clockwise from the top right, then the centre.
pub open spec fn face_spec(s: Shape, fb: Seq<u32>, face: Face) -> Seq<u32> {
    let left = sat_sub(s.x as int, s.half as int);
    let top = sat_sub(s.y as int, s.half as int);
    let fb1 = disc_spec(s, fb, s.x + s.half, top, face.corners[0]);
    let fb2 = disc_spec(s, fb1, s.x + s.half, s.y + s.half, face.corners[1]);
    let fb3 = disc_spec(s, fb2, left, s.y + s.half, face.corners[2]);
    let fb4 = disc_spec(s, fb3, left, top, face.corners[3]);
    disc_spec(s, fb4, s.x as int, s.y as int, face.center)
}

/// A point of a disc of radius `r` lies within `r` of its centre on each axis.
proof fn lemma_disc_bounds(dx: int, dy: int, r: int)
    requires
        r >= 1,
        dx * dx + dy * dy <= r * r,
    ensures
        -r <= dx <= r,
        -r <= dy <= r,
{
    assert(-r <= dx <= r) by (nonlinear_arith)
        requires
            r >= 1,
            dx * dx + dy * dy <= r * r,
    ;
    assert(-r <= dy <= r) by (nonlinear_arith)
        requires
            r >= 1,
            dx * dx + dy * dy <= r * r,
    ;
}

/// The eight pixels symmetric to `(x, y)` about the centre's axes and
/// diagonals.
pub open spec fn octants(x: int, y: int) -> Set<(int, int)> {
    set![(x, y), (y, x), (-y, x), (-x, y), (-x, -y), (-y, -x), (y, -x), (x, -y)]
}

/// The circle the midpoint algorithm traces from `(x, y)` with decision
/// value `error`, one step of `y` at a time until `y` passes `x`.
pub open spec fn arc_from(x: int, y: int, error: int) -> Set<(int, int)>
    decreases x - y + 2,
{
    if x < y {
        Set::empty()
    } else {
        let y1 = y + 1;
        let x1 = if error < 0 {
            x
        } else {
            x - 1
        };
        let e1 = if error < 0 {
            error + 2 * y1 + 1
        } else {
            error + 2 * (y1 - x1) + 1
        };
        octants(x, y).union(arc_from(x1, y1, e1))
    }
}

/// The pixels Bresenham's algorithm visits from `(x, y)` towards `(ex, ey)`,
/// with steps `dx` and `dy`, directions `sx` and `sy` and error `error`,
/// for at most `fuel` more steps.
pub open spec fn line_from(
    x: int,
    y: int,
    ex: int,
    ey: int,
    dx: int,
    dy: int,
    sx: int,
    sy: int,
    error: int,
    fuel: nat,
) -> Set<(int, int)>
    decreases fuel,
{
    if (x == ex && y == ey) || fuel == 0 {
        set![(x, y)]
    } else {
        let twice = error * 2;
        let x1 = if twice >= dy {
            x + sx
        } else {
            x
        };
        let e1 = if twice >= dy {
            error + dy
        } else {
            error
        };
        let y1 = if twice <= dx {
            y + sy
        } else {
            y
        };
        let e2 = if twice <= dx {
            e1 + dx
        } else {
            e1
        };
        set![(x, y)].union(line_from(x1, y1, ex, ey, dx, dy, sx, sy, e2, (fuel - 1) as nat))
    }
}

pub open spec fn abs(a: int) -> int {
    if a < 0 {
        -a
    } else {
        a
    }
}

/// The line from `a` to `b`, both ends included.
pub open spec fn line_points(a: (int, int), b: (int, int)) -> Set<(int, int)> {
    let dx = abs(b.0 - a.0);
    let dy = -abs(b.1 - a.1);
    let sx = if a.0 < b.0 {
        1int
    } else {
        -1int
    };
    let sy = if a.1 < b.1 {
        1int
    } else {
        -1int
    };
    line_from(a.0, a.1, b.0, b.1, dx, dy, sx, sy, dx + dy, (dx - dy) as nat)
}

pub open spec fn orbit_radius(s: Shape) -> int {
    s.half * 3 / 4
}

/// The half-length of tick `index`: the start tick is twice as long.
pub open spec fn tick_length(s: Shape, index: int) -> int {
    let l = if index == 0 {
        s.half / 24
    } else {
        s.half / 48
    };
    if l < 1 {
        1
    } else {
        l as int
    }
}

pub open spec fn tick_color(erase: bool, index: int) -> u32 {
    if erase {
        BACKGROUND
    } else if index == 0 {
        START_TICK
    } else {
        SMALL_TICK
    }
}

/// Tick `index` crosses the orbit at `index` tenths of the turn.
pub open spec fn tick_points(s: Shape, index: int) -> Set<(int, int)> {
    let r = orbit_radius(s);
    let l = tick_length(s, index);
    line_points(point_spec(index * 10000, sat_sub(r, l)), point_spec(index * 10000, r + l))
}

/// The framebuffer after the first `n` ticks.
pub open spec fn ticks_spec(s: Shape, fb: Seq<u32>, erase: bool, n: int) -> Seq<u32>
    decreases n,
{
    if n <= 0 {
        fb
    } else {
        paint(
            s.frame,
            ticks_spec(s, fb, erase, n - 1),
            shifted(tick_points(s, n - 1), s.x as int, s.y as int),
            tick_color(erase, n - 1),
        )
    }
}

/// The orbit of `mode` drawn (or, with `erase`, erased): its circle, then its
/// start tick and, in tick mode, nine more.
pub open spec fn orbit_spec(s: Shape, fb: Seq<u32>, mode: OrbitMode, erase: bool) -> Seq<u32> {
    if mode == OrbitMode::Off {
        fb
    } else {
        let color = if erase {
            BACKGROUND
        } else if mode == OrbitMode::Simple {
            ORBIT_SIMPLE
        } else {
            ORBIT_TICKS
        };
        let r = orbit_radius(s);
        let fb1 = paint(s.frame, fb, shifted(arc_from(r, 0, 1 - r), s.x as int, s.y as int), color);
        ticks_spec(
            s,
            fb1,
            erase,
            if mode == OrbitMode::Ticks {
                10
            } else {
                1
            },
        )
    }
}

/// The pixels of the first `n` ticks, about the centre.
pub open spec fn ticks_points(s: Shape, n: int) -> Set<(int, int)>
    decreases n,
{
    if n <= 0 {
        Set::empty()
    } else {
        ticks_points(s, n - 1).union(shifted(tick_points(s, n - 1), s.x as int, s.y as int))
    }
}

/// How many ticks the orbit of `mode` shows.
pub open spec fn tick_count(mode: OrbitMode) -> int {
    if mode == OrbitMode::Ticks {
        10
    } else {
        1
    }
}

/// The pixels the orbit of `mode` covers: its circle and its ticks.
pub open spec fn orbit_points(s: Shape, mode: OrbitMode) -> Set<(int, int)> {
    if mode == OrbitMode::Off {
        Set::empty()
    } else {
        let r = orbit_radius(s);
        shifted(arc_from(r, 0, 1 - r), s.x as int, s.y as int).union(ticks_points(s, tick_count(mode)))
    }
}

/// Whether word `i` of the buffer shows a visible pixel of `points`.
pub open spec fn shows(f: Frame, points: Set<(int, int)>, i: int) -> bool {
    f.stride > 0 && visible(f, pixel_of(f, i).0, pixel_of(f, i).1) && points.contains(pixel_of(f, i))
}

proof fn lemma_ticks_len(s: Shape, fb: Seq<u32>, erase: bool, n: int)
    ensures
        ticks_spec(s, fb, erase, n).len() == fb.len(),
    decreases n,
{
    if n > 0 {
        lemma_ticks_len(s, fb, erase, n - 1);
    }
}

/// Erasing the ticks paints all their pixels in the background colour.
proof fn lemma_ticks_erase(s: Shape, fb: Seq<u32>, n: int)
    ensures
        ticks_spec(s, fb, true, n) == paint(s.frame, fb, ticks_points(s, n), BACKGROUND),
    decreases n,
{
    if n <= 0 {
        lemma_paint_empty(s.frame, fb, BACKGROUND);
    } else {
        lemma_ticks_erase(s, fb, n - 1);
        lemma_paint_union(
            s.frame,
            fb,
            ticks_points(s, n - 1),
            shifted(tick_points(s, n - 1), s.x as int, s.y as int),
            BACKGROUND,
        );
    }
}

/// Drawing the ticks leaves every word that shows none of their pixels.
proof fn lemma_ticks_keep(s: Shape, fb: Seq<u32>, erase: bool, n: int, i: int)
    requires
        0 <= i < fb.len(),
        !shows(s.frame, ticks_points(s, n), i),
    ensures
        ticks_spec(s, fb, erase, n)[i] == fb[i],
    decreases n,
{
    if n > 0 {
        lemma_ticks_keep(s, fb, erase, n - 1, i);
        lemma_ticks_len(s, fb, erase, n - 1);
    }
}

/// The first tick is among the first `n`, for any `n` from one on.
proof fn lemma_first_tick(s: Shape, n: int)
    requires
        n >= 1,
    ensures
        ticks_points(s, 1).subset_of(ticks_points(s, n)),
    decreases n,
{
    if n > 1 {
        lemma_first_tick(s, n - 1);
    }
}

/// Erasing an orbit right after drawing it over a background where it lies
/// gives the picture back: both cover the same pixels, and every one of
/// them held the background colour before. The orbit that is off draws and
/// erases nothing.
pub proof fn law_orbit_erase_restores(s: Shape, fb: Seq<u32>, mode: OrbitMode)
    requires
        forall|i: int| 0 <= i < fb.len() && #[trigger] shows(s.frame, orbit_points(s, mode), i) ==> fb[i] == BACKGROUND,
    ensures
        orbit_spec(s, orbit_spec(s, fb, mode, false), mode, true) == fb,
        mode == OrbitMode::Off ==> orbit_spec(s, fb, mode, false) == fb && orbit_spec(s, fb, mode, true) == fb,
{
    if mode != OrbitMode::Off {
        let f = s.frame;
        let r = orbit_radius(s);
        let arc = shifted(arc_from(r, 0, 1 - r), s.x as int, s.y as int);
        let n = tick_count(mode);
        let color = if mode == OrbitMode::Simple {
            ORBIT_SIMPLE
        } else {
            ORBIT_TICKS
        };
        let fb1 = paint(f, fb, arc, color);
        let drawn = ticks_spec(s, fb1, false, n);
        assert(orbit_spec(s, fb, mode, false) == drawn);
        lemma_ticks_len(s, fb1, false, n);
        lemma_ticks_erase(s, paint(f, drawn, arc, BACKGROUND), n);
        lemma_paint_union(f, drawn, arc, ticks_points(s, n), BACKGROUND);
        let back = orbit_spec(s, drawn, mode, true);
        assert(back == paint(f, drawn, orbit_points(s, mode), BACKGROUND));
        assert forall|i: int| 0 <= i < fb.len() implies back[i] == fb[i] by {
            if !shows(f, orbit_points(s, mode), i) {
                lemma_ticks_keep(s, fb1, false, n, i);
            }
        }
        assert(back =~= fb);
    }
}

/// What a word of the ticks' picture holds depends only on what it held,
/// and not even on that where a tick shows.
proof fn lemma_ticks_pointwise(s: Shape, x: Seq<u32>, y: Seq<u32>, erase: bool, n: int, i: int)
    requires
        0 <= i < x.len(),
        x.len() == y.len(),
        x[i] == y[i] || shows(s.frame, ticks_points(s, n), i),
    ensures
        ticks_spec(s, x, erase, n)[i] == ticks_spec(s, y, erase, n)[i],
    decreases n,
{
    if n > 0 {
        lemma_ticks_len(s, x, erase, n - 1);
        lemma_ticks_len(s, y, erase, n - 1);
        let t = shifted(tick_points(s, n - 1), s.x as int, s.y as int);
        if !shows(s.frame, t, i) {
            if x[i] == y[i] {
                lemma_ticks_pointwise(s, x, y, erase, n - 1, i);
            } else {
                assert(shows(s.frame, ticks_points(s, n - 1), i));
                lemma_ticks_pointwise(s, x, y, erase, n - 1, i);
            }
        }
    }
}

/// The picture with the dot drawn at `p`, if there is one.
pub open spec fn with_dot(s: Shape, fb: Seq<u32>, p: Option<(isize, isize)>) -> Seq<u32> {
    match p {
        Some(p) => paint(s.frame, fb, dot_pixels(s, as_point(p)), CYCLE),
        None => fb,
    }
}

/// Where the dot at `p` lands on pixels that lie off the orbit, `base`
/// holds the background colour there.
pub open spec fn dot_on_background(s: Shape, base: Seq<u32>, mode: OrbitMode, p: Option<(isize, isize)>) -> bool {
    p matches Some(p) ==> forall|i: int|
        0 <= i < base.len() && #[trigger] shows(s.frame, dot_pixels(s, as_point(p)), i) && !shows(
            s.frame,
            orbit_points(s, mode),
            i,
        ) ==> base[i] == BACKGROUND
}

/// Moving the dot along an unchanged orbit leaves nothing behind: from the
/// orbit drawn over `base` with the dot at `previous`, a frame gives the same
/// orbit with the dot at `current`, and with no dot the orbit alone, as long
/// as the dot left only pixels of the orbit or of the background. So a
/// dot that goes round and is then hidden restores the picture.
pub proof fn law_dot_moves_cleanly(
    s: Shape,
    base: Seq<u32>,
    mode: OrbitMode,
    previous: Option<(isize, isize)>,
    current: Option<(isize, isize)>,
)
    requires
        dot_on_background(s, base, mode, previous),
    ensures
        cycle_spec(s, with_dot(s, orbit_spec(s, base, mode, false), previous), previous, current, mode, mode)
            == with_dot(s, orbit_spec(s, base, mode, false), current),
{
    let f = s.frame;
    let pic = orbit_spec(s, base, mode, false);
    let start = with_dot(s, pic, previous);
    let erased = match previous {
        Some(p) => paint(f, start, dot_pixels(s, as_point(p)), BACKGROUND),
        None => start,
    };
    if mode != OrbitMode::Off {
        let r = orbit_radius(s);
        let arc = shifted(arc_from(r, 0, 1 - r), s.x as int, s.y as int);
        let n = tick_count(mode);
        let color = if mode == OrbitMode::Simple {
            ORBIT_SIMPLE
        } else {
            ORBIT_TICKS
        };
        let b1 = paint(f, base, arc, color);
        let e1 = paint(f, erased, arc, color);
        lemma_ticks_len(s, b1, false, n);
        lemma_ticks_len(s, e1, false, n);
        assert(pic == ticks_spec(s, b1, false, n));
        assert(orbit_spec(s, erased, mode, false) == ticks_spec(s, e1, false, n));
        assert(erased.len() == base.len());
        assert forall|i: int| 0 <= i < base.len() implies ticks_spec(s, e1, false, n)[i] == pic[i] by {
            if shows(f, ticks_points(s, n), i) {
                lemma_ticks_pointwise(s, e1, b1, false, n, i);
            } else if shows(f, arc, i) {
                assert(e1[i] == b1[i]);
                lemma_ticks_pointwise(s, e1, b1, false, n, i);
            } else {
                lemma_ticks_keep(s, b1, false, n, i);
                if let Some(p) = previous {
                    if shows(f, dot_pixels(s, as_point(p)), i) {
                        assert(!shows(f, orbit_points(s, mode), i));
                        assert(base[i] == BACKGROUND);
                    }
                }
                assert(e1[i] == b1[i]);
                lemma_ticks_pointwise(s, e1, b1, false, n, i);
            }
        }
        assert(orbit_spec(s, erased, mode, false) =~= pic);
    } else {
        if let Some(p) = previous {
            assert forall|i: int| 0 <= i < base.len() implies erased[i] == pic[i] by {
                if shows(f, dot_pixels(s, as_point(p)), i) {
                    assert(!shows(f, orbit_points(s, mode), i));
                }
            }
        }
        assert(erased =~= pic);
    }
}

/// Switching the orbit's mode with no dot on screen, as `View::cycle` does,
/// leaves the picture the new mode draws over what lay under the old one:
/// hiding the orbit (the new mode off) gives that picture back, and going
/// from ticks to the plain orbit takes all the extra ticks away.
pub proof fn law_cycle_switches_orbit(s: Shape, fb: Seq<u32>, old_mode: OrbitMode, mode: OrbitMode)
    requires
        old_mode != mode,
        forall|i: int| 0 <= i < fb.len() && #[trigger] shows(s.frame, orbit_points(s, old_mode), i) ==> fb[i] == BACKGROUND,
    ensures
        cycle_spec(s, orbit_spec(s, fb, old_mode, false), None, None, old_mode, mode) == orbit_spec(s, fb, mode, false),
        mode == OrbitMode::Off ==> cycle_spec(s, orbit_spec(s, fb, old_mode, false), None, None, old_mode, mode) == fb,
{
    law_orbit_erase_restores(s, fb, old_mode);
}

/// The orbit with ticks covers every pixel of the plain one.
pub proof fn law_ticks_cover_simple(s: Shape)
    ensures
        orbit_points(s, OrbitMode::Simple).subset_of(orbit_points(s, OrbitMode::Ticks)),
{
    lemma_first_tick(s, 10);
}

pub open spec fn as_point(p: (isize, isize)) -> (int, int) {
    (p.0 as int, p.1 as int)
}

/// One frame of the orbit: the dot leaves `previous`, a changed mode's
/// orbit is erased, the orbit is redrawn over whatever the dot uncovered,
/// and the dot is drawn at `current`.
pub open spec fn cycle_spec(
    s: Shape,
    fb: Seq<u32>,
    previous: Option<(isize, isize)>,
    current: Option<(isize, isize)>,
    old_mode: OrbitMode,
    mode: OrbitMode,
) -> Seq<u32> {
    let fb1 = match previous {
        Some(p) => paint(s.frame, fb, dot_pixels(s, as_point(p)), BACKGROUND),
        None => fb,
    };
    let fb2 = if old_mode != mode {
        orbit_spec(s, fb1, old_mode, true)
    } else {
        fb1
    };
    let fb3 = orbit_spec(s, fb2, mode, false);
    match current {
        Some(p) => paint(s.frame, fb3, dot_pixels(s, as_point(p)), CYCLE),
        None => fb3,
    }
}

/// One step of Bresenham's algorithm, counted in steps `i` along x and `j`
/// along y out of `dx` and `ny`: some step is taken and none overshoots.
proof fn lemma_line_step(dx: int, ny: int, i: int, j: int, e: int)
    requires
        0 <= i <= dx <= 2000,
        0 <= j <= ny <= 2000,
        !(i == dx && j == ny),
        e == dx * (j + 1) - ny * (i + 1),
    ensures
        2 * e >= -ny || 2 * e <= dx,
        2 * e >= -ny ==> i < dx,
        2 * e <= dx ==> j < ny,
        -5000000 <= e <= 5000000,
        e + (if 2 * e >= -ny {
            -ny
        } else {
            0
        }) + (if 2 * e <= dx {
            dx
        } else {
            0
        }) == dx * ((if 2 * e <= dx {
            j + 1
        } else {
            j
        }) + 1) - ny * ((if 2 * e >= -ny {
            i + 1
        } else {
            i
        }) + 1),
{
    assert(-5000000 <= e <= 5000000) by (nonlinear_arith)
        requires
            0 <= i <= dx <= 2000,
            0 <= j <= ny <= 2000,
            e == dx * (j + 1) - ny * (i + 1),
    ;
    if i == dx {
        assert(2 * e < -ny) by (nonlinear_arith)
            requires
                i == dx,
                0 <= j < ny,
                0 <= dx,
                e == dx * (j + 1) - ny * (i + 1),
        ;
    }
    if j == ny {
        assert(2 * e > dx) by (nonlinear_arith)
            requires
                j == ny,
                0 <= i < dx,
                0 <= ny,
                e == dx * (j + 1) - ny * (i + 1),
        ;
    }
    assert(dx * (j + 2) == dx * (j + 1) + dx) by (nonlinear_arith);
    assert(ny * (i + 2) == ny * (i + 1) + ny) by (nonlinear_arith);
}

/// The seven-segment pattern of a character: bit 0 the top bar, then the
/// upper and lower right, the bottom, the lower and upper left, and bit 6
/// the middle bar. Anything but a digit shows as a dash.
pub open spec fn segment_bits(ch: u8) -> u8 {
    if ch == 48 {
        0x3f
    } else if ch == 49 {
        0x06
    } else if ch == 50 {
        0x5b
    } else if ch == 51 {
        0x4f
    } else if ch == 52 {
        0x66
    } else if ch == 53 {
        0x6d
    } else if ch == 54 {
        0x7d
    } else if ch == 55 {
        0x07
    } else if ch == 56 {
        0x7f
    } else if ch == 57 {
        0x6f
    } else {
        0x40
    }
}

/// Segment `k` of a digit cell at `(x, y)`: left, top, width and height.
pub open spec fn segment(k: int) -> (int, int, int, int) {
    if k == 0 {
        (1, 0, 9, 1)
    } else if k == 1 {
        (10, 1, 1, 9)
    } else if k == 2 {
        (10, 11, 1, 9)
    } else if k == 3 {
        (1, 20, 9, 1)
    } else if k == 4 {
        (0, 11, 1, 9)
    } else if k == 5 {
        (0, 1, 1, 9)
    } else {
        (1, 10, 9, 1)
    }
}

/// The lit segments among the first `k` of `bits`, in a cell at `(x, y)`.
pub open spec fn segments_lit(bits: u8, x: int, y: int, k: int) -> Set<(int, int)>
    decreases k,
{
    if k <= 0 {
        Set::empty()
    } else {
        let (sx, sy, w, h) = segment(k - 1);
        let lit = if (bits >> ((k - 1) as u8)) & 1 == 1 {
            rect_points(x + sx, y + sy, x + sx + w, y + sy + h)
        } else {
            Set::empty()
        };
        segments_lit(bits, x, y, k - 1).union(lit)
    }
}

/// The pixels of one character of the digital aid: a colon is two dots.
pub open spec fn cell_pixels(ch: u8, x: int, y: int) -> Set<(int, int)> {
    if ch == 58 {
        set![(x + 5, y + 6), (x + 5, y + 14)]
    } else {
        segments_lit(segment_bits(ch), x, y, 7)
    }
}

/// The pixels of the first `n` characters, 16 pixels apart.
pub open spec fn cells_pixels(text: Seq<u8>, x: int, y: int, n: int) -> Set<(int, int)>
    decreases n,
{
    if n <= 0 {
        Set::empty()
    } else {
        cells_pixels(text, x, y, n - 1).union(cell_pixels(text[n - 1], x + 16 * (n - 1), y))
    }
}

/// Where the digital aid stands, below the face.
pub open spec fn digital_origin(s: Shape) -> (int, int) {
    (sat_sub(s.x as int, 62), s.y + s.half + s.radius + 28)
}

/// The digital aid's box cleared, and `text` drawn in it if `visible`.
pub open spec fn digital_spec(s: Shape, fb: Seq<u32>, text: Seq<u8>, visible: bool) -> Seq<u32> {
    let (x, y) = digital_origin(s);
    let fb1 = paint(s.frame, fb, rect_points(x, y, x + 124, y + 21), BACKGROUND);
    if visible {
        paint(s.frame, fb1, cells_pixels(text, x, y, 8), DIGITS)
    } else {
        fb1
    }
}

/// Row `row`, column `col` of an 8 × 8 glyph, top left in the high bit.
pub open spec fn glyph_bit(glyph: u64, row: int, col: int) -> bool {
    (glyph >> ((7 - row) * 8 + 7 - col) as u64) & 1 == 1
}

/// The glyph of a byte: the font covers the 64 characters from the space.
pub open spec fn glyph_index(ch: u8) -> int {
    let i = if ch >= 32 {
        ch - 32
    } else {
        0
    };
    if i > 63 {
        63
    } else {
        i
    }
}

/// The lit pixels of `text` in `font`, 8 pixels per character from `(x, y)`.
pub open spec fn text_pixels(font: Seq<u64>, text: Seq<u8>, x: int, y: int) -> Set<(int, int)> {
    Set::new(
        |p: (int, int)|
            {
                let rel = p.0 - x;
                let row = p.1 - y;
                &&& 0 <= rel < text.len() * 8
                &&& 0 <= row < 8
                &&& glyph_bit(font[glyph_index(text[rel / 8])], row, rel % 8)
            },
    )
}

/// A line of text centred on the screen at height `y`.
pub open spec fn line_spec(s: Shape, fb: Seq<u32>, font: Seq<u64>, text: Seq<u8>, y: int, color: u32) -> Seq<u32> {
    let x = sat_sub(s.frame.width as int, (text.len() * 8) as int) / 2;
    paint(s.frame, fb, text_pixels(font, text, x, y), color)
}

pub open spec fn title() -> Seq<u8> {
    "DZEN CLOCK"@.map_values(|c: char| c as u8)
}

pub open spec fn key_help() -> Seq<u8> {
    "D: DIGITS   C: ORBIT   P: 10S TICKS   H: TEXT   CTRL+Z: SHELL   ESC: EXIT"@.map_values(|c: char| c as u8)
}

/// The title at the top and the key help at the bottom, or their pixels
/// painted over when hidden.
pub open spec fn hints_spec(s: Shape, fb: Seq<u32>, font: Seq<u64>, visible: bool) -> Seq<u32> {
    let color = if visible {
        HINT
    } else {
        BACKGROUND
    };
    let fb1 = line_spec(s, fb, font, title(), 24, color);
    line_spec(s, fb1, font, key_help(), sat_sub(s.frame.height as int, 32), color)
}

/// The lit pixels of `glyph` at `(x, y)`, row by row up to row `row`,
/// column `col`.
pub open spec fn glyph_part(glyph: u64, x: int, y: int, row: int, col: int) -> Set<(int, int)> {
    Set::new(
        |p: (int, int)|
            {
                let c = p.0 - x;
                let r = p.1 - y;
                &&& 0 <= c < 8
                &&& 0 <= r < 8
                &&& (r < row || (r == row && c < col))
                &&& glyph_bit(glyph, r, c)
            },
    )
}

pub struct View {
    frame: Frame,
    x: usize,
    y: usize,
    half: usize,
    radius: usize,
}

impl View {
    pub closed spec fn shape(&self) -> Shape {
        Shape { frame: self.frame, x: self.x, y: self.y, half: self.half, radius: self.radius }
    }

    /// The view's shape is that of its screen, whose sides fit in `isize`.
    pub open spec fn wf(&self) -> bool {
        &&& self.shape() == shape_of(self.shape().frame.width, self.shape().frame.height, self.shape().frame.stride)
        &&& self.shape().frame.width <= isize::MAX
        &&& self.shape().frame.height <= isize::MAX
    }

    /// A point `p` near enough to the centre that drawing around it stays
    /// within `isize`.
    pub open spec fn reaches(&self, p: (int, int)) -> bool {
        &&& isize::MIN + 200 <= p.0 && p.0 + self.shape().x + 200 <= isize::MAX
        &&& isize::MIN + 200 <= p.1 && p.1 + self.shape().y + 200 <= isize::MAX
    }

    pub fn new(info: &BootInfo) -> (r: Self)
        requires
            info.width <= isize::MAX,
            info.height <= isize::MAX,
        ensures
            r.shape() == shape_of(info.width, info.height, info.stride),
            r.wf(),
    {
        let small = if info.width < info.height {
            info.width
        } else {
            info.height
        };
        let half = if small / 5 < 1 {
            1
        } else if small / 5 > 160 {
            160
        } else {
            small / 5
        };
        View {
            frame: Frame { width: info.width, height: info.height, stride: info.stride },
            x: info.width / 2,
            y: (info.height / 2).saturating_sub(24),
            half,
            radius: if half / 3 < 1 {
                1
            } else {
                half / 3
            },
        }
    }

    pub fn half(&self) -> (r: usize)
        ensures
            r == self.shape().half,
    {
        self.half
    }

    /// Fills `width` × `height` pixels from `(x, y)`, cut at the screen's edge.
    fn rect(&self, fb: &mut [u32], x: usize, y: usize, width: usize, height: usize, color: u32)
        requires
            fits(self.shape().frame, old(fb)@.len() as int),
        ensures
            final(fb)@ == paint(self.shape().frame, old(fb)@, rect_points(x as int, y as int, x + width, y + height), color),
    {
        let bottom = y.saturating_add(height);
        let bottom = if bottom < self.frame.height {
            bottom
        } else {
            self.frame.height
        };
        let right = x.saturating_add(width);
        let right = if right < self.frame.width {
            right
        } else {
            self.frame.width
        };
        fill(fb, self.frame, x, y, right, bottom, color);
        proof {
            lemma_paint_visible(
                self.frame,
                old(fb)@,
                rect_points(x as int, y as int, right as int, bottom as int),
                rect_points(x as int, y as int, x + width, y + height),
                color,
            );
        }
    }

    /// Paints the whole screen the background colour.
    pub fn clear(&self, fb: &mut [u32])
        requires
            fits(self.shape().frame, old(fb)@.len() as int),
        ensures
            final(fb)@ == paint(
                self.shape().frame,
                old(fb)@,
                rect_points(0, 0, self.shape().frame.width as int, self.shape().frame.height as int),
                BACKGROUND,
            ),
    {
        self.rect(fb, 0, 0, self.frame.width, self.frame.height, BACKGROUND);
    }

    /// One pixel at `(x, y)` from the centre.
    fn plot(&self, fb: &mut [u32], x: isize, y: isize, color: u32)
        requires
            self.wf(),
            fits(self.shape().frame, old(fb)@.len() as int),
            isize::MIN + 100 <= x && x + self.shape().x + 100 <= isize::MAX,
            isize::MIN + 100 <= y && y + self.shape().y + 100 <= isize::MAX,
        ensures
            final(fb)@ == paint(self.shape().frame, old(fb)@, set![(self.shape().x + x, self.shape().y + y)], color),
    {
        let px = self.x as isize + x;
        let py = self.y as isize + y;
        if px >= 0 && py >= 0 {
            self.rect(fb, px as usize, py as usize, 1, 1, color);
            proof {
                assert(rect_points(px as int, py as int, px + 1, py + 1) =~= set![(px as int, py as int)]);
            }
        } else {
            proof {
                lemma_paint_visible(self.frame, fb@, Set::empty(), set![(px as int, py as int)], color);
                lemma_paint_empty(self.frame, fb@, color);
            }
        }
    }

    /// The moving dot around `point`, relative to the centre.
    fn dot(&self, fb: &mut [u32], point: (isize, isize), color: u32)
        requires
            self.wf(),
            fits(self.shape().frame, old(fb)@.len() as int),
            self.reaches((point.0 as int, point.1 as int)),
        ensures
            final(fb)@ == paint(self.shape().frame, old(fb)@, dot_pixels(self.shape(), (point.0 as int, point.1 as int)), color),
            final(fb)@.len() == old(fb)@.len(),
    {
        let (x, y) = point;
        let d: isize = if self.half / 24 < 2 {
            2
        } else {
            (self.half / 24) as isize
        };
        let ghost sx = self.x as int;
        let ghost sy = self.y as int;
        assert(d == dot_diameter(self.shape()));
        proof {
            assert(shifted(dot_part(x as int, y as int, d as int, 0, 0), sx, sy) =~= Set::empty());
            lemma_paint_empty(self.frame, fb@, color);
        }
        let mut dy: isize = 0;
        while dy < d
            invariant
                self.wf(),
                fits(self.shape().frame, fb@.len() as int),
                self.reaches((x as int, y as int)),
                2 <= d <= 6,
                0 <= dy <= d,
                sx == self.shape().x,
                sy == self.shape().y,
                fb@ == paint(self.shape().frame, old(fb)@, shifted(dot_part(x as int, y as int, d as int, dy as int, 0), sx, sy), color),
            decreases d - dy,
        {
            let mut dx: isize = 0;
            while dx < d
                invariant
                    self.wf(),
                    fits(self.shape().frame, fb@.len() as int),
                    self.reaches((x as int, y as int)),
                    2 <= d <= 6,
                    0 <= dy < d,
                    0 <= dx <= d,
                    sx == self.shape().x,
                    sy == self.shape().y,
                    fb@ == paint(
                        self.shape().frame,
                        old(fb)@,
                        shifted(dot_part(x as int, y as int, d as int, dy as int, dx as int), sx, sy),
                        color,
                    ),
                decreases d - dx,
            {
                let ghost before = shifted(dot_part(x as int, y as int, d as int, dy as int, dx as int), sx, sy);
                let ghost after = shifted(dot_part(x as int, y as int, d as int, dy as int, dx + 1), sx, sy);
                proof {
                    let a = 2 * dx + 1 - d;
                    let b = 2 * dy + 1 - d;
                    assert(0 <= a * a <= 169 && 0 <= b * b <= 169 && d * d <= 36) by (nonlinear_arith)
                        requires
                            -13 <= a <= 13,
                            -13 <= b <= 13,
                            2 <= d <= 6,
                    ;
                }
                if (2 * dx + 1 - d) * (2 * dx + 1 - d) + (2 * dy + 1 - d) * (2 * dy + 1 - d) <= d * d {
                    let px = x + dx - d / 2;
                    let py = y + dy - d / 2;
                    self.plot(fb, px, py, color);
                    proof {
                        lemma_paint_union(self.frame, old(fb)@, before, set![(sx + px, sy + py)], color);
                        assert(before.union(set![(sx + px, sy + py)]) =~= after);
                    }
                } else {
                    assert(before =~= after);
                }
                dx += 1;
            }
            proof {
                assert(shifted(dot_part(x as int, y as int, d as int, dy as int, d as int), sx, sy) =~= shifted(
                    dot_part(x as int, y as int, d as int, dy + 1, 0),
                    sx,
                    sy,
                ));
            }
            dy += 1;
        }
    }

    /// A disc of the face around `(x, y)`.
    fn circle(&self, fb: &mut [u32], x: usize, y: usize, color: u32)
        requires
            self.wf(),
            fits(self.shape().frame, old(fb)@.len() as int),
            x + 100 <= isize::MAX,
            y + 100 <= isize::MAX,
        ensures
            final(fb)@ == disc_spec(self.shape(), old(fb)@, x as int, y as int, color),
    {
        let r = self.radius as isize;
        let ghost f = self.frame;
        proof {
            assert forall|rim: bool, p: (int, int)| !#[trigger] disc_part(x as int, y as int, r as int, rim, 0 - r, 0 - r).contains(p) by {
                if p.0 - x >= -r && p.1 - y >= -r {
                } else if (p.0 - x) * (p.0 - x) + (p.1 - y) * (p.1 - y) <= r * r {
                    lemma_disc_bounds(p.0 - x, p.1 - y, r as int);
                }
            }
            assert(disc_part(x as int, y as int, r as int, false, 0 - r, 0 - r) =~= Set::empty());
            assert(disc_part(x as int, y as int, r as int, true, 0 - r, 0 - r) =~= Set::empty());
            lemma_paint_empty(f, fb@, color);
            lemma_paint_empty(f, fb@, RIM);
        }
        let mut dy: isize = -r;
        while dy <= r
            invariant
                self.wf(),
                f == self.shape().frame,
                r == self.shape().radius,
                1 <= r <= 53,
                fits(f, fb@.len() as int),
                x + 100 <= isize::MAX,
                y + 100 <= isize::MAX,
                -r <= dy <= r + 1,
                fb@ == paint(
                    f,
                    paint(f, old(fb)@, disc_part(x as int, y as int, r as int, false, dy as int, 0 - r), color),
                    disc_part(x as int, y as int, r as int, true, dy as int, 0 - r),
                    RIM,
                ),
            decreases r + 1 - dy,
        {
            let mut dx: isize = -r;
            while dx <= r
                invariant
                    self.wf(),
                    f == self.shape().frame,
                    r == self.shape().radius,
                    1 <= r <= 53,
                    fits(f, fb@.len() as int),
                    x + 100 <= isize::MAX,
                    y + 100 <= isize::MAX,
                    -r <= dy <= r,
                    -r <= dx <= r + 1,
                    fb@ == paint(
                        f,
                        paint(f, old(fb)@, disc_part(x as int, y as int, r as int, false, dy as int, dx as int), color),
                        disc_part(x as int, y as int, r as int, true, dy as int, dx as int),
                        RIM,
                    ),
                decreases r + 1 - dx,
            {
                let ghost inner = disc_part(x as int, y as int, r as int, false, dy as int, dx as int);
                let ghost rim = disc_part(x as int, y as int, r as int, true, dy as int, dx as int);
                let ghost inner2 = disc_part(x as int, y as int, r as int, false, dy as int, dx + 1);
                let ghost rim2 = disc_part(x as int, y as int, r as int, true, dy as int, dx + 1);
                proof {
                    assert(0 <= dx * dx <= 2916 && 0 <= dy * dy <= 2916 && r * r <= 2809) by (nonlinear_arith)
                        requires
                            -54 <= dx <= 54,
                            -54 <= dy <= 54,
                            1 <= r <= 53,
                    ;
                    assert(0 <= (r - 1) * (r - 1) <= 2809) by (nonlinear_arith)
                        requires
                            1 <= r <= 53,
                    ;
                }
                let distance = dx * dx + dy * dy;
                let px = x as isize + dx;
                let py = y as isize + dy;
                if distance > r * r {
                    assert(inner =~= inner2);
                    assert(rim =~= rim2);
                } else if px < 0 || py < 0 {
                    proof {
                        lemma_paint2_visible(f, old(fb)@, inner, inner2, rim, rim2, color, RIM);
                    }
                } else if distance > (r - 1) * (r - 1) {
                    self.rect(fb, px as usize, py as usize, 1, 1, RIM);
                    proof {
                        assert(rect_points(px as int, py as int, px + 1, py + 1) =~= set![(px as int, py as int)]);
                        lemma_paint_union(f, paint(f, old(fb)@, inner, color), rim, set![(px as int, py as int)], RIM);
                        assert(inner =~= inner2);
                        assert(rim.union(set![(px as int, py as int)]) =~= rim2);
                    }
                } else {
                    self.rect(fb, px as usize, py as usize, 1, 1, color);
                    proof {
                        assert(rect_points(px as int, py as int, px + 1, py + 1) =~= set![(px as int, py as int)]);
                        lemma_paint_under(f, old(fb)@, inner, rim, (px as int, py as int), color, RIM);
                        assert(inner.insert((px as int, py as int)) =~= inner2);
                        assert(rim =~= rim2);
                    }
                }
                dx += 1;
            }
            proof {
                assert(disc_part(x as int, y as int, r as int, false, dy as int, r + 1) =~= disc_part(
                    x as int,
                    y as int,
                    r as int,
                    false,
                    dy + 1,
                    0 - r,
                )) by {
                    assert forall|p: (int, int)|
                        #[trigger] disc_part(x as int, y as int, r as int, false, dy + 1, 0 - r).contains(p) implies disc_part(
                        x as int,
                        y as int,
                        r as int,
                        false,
                        dy as int,
                        r + 1,
                    ).contains(p) by {
                        lemma_disc_bounds(p.0 - x, p.1 - y, r as int);
                    }
                }
                assert(disc_part(x as int, y as int, r as int, true, dy as int, r + 1) =~= disc_part(
                    x as int,
                    y as int,
                    r as int,
                    true,
                    dy + 1,
                    0 - r,
                )) by {
                    assert forall|p: (int, int)|
                        #[trigger] disc_part(x as int, y as int, r as int, true, dy + 1, 0 - r).contains(p) implies disc_part(
                        x as int,
                        y as int,
                        r as int,
                        true,
                        dy as int,
                        r + 1,
                    ).contains(p) by {
                        lemma_disc_bounds(p.0 - x, p.1 - y, r as int);
                    }
                }
            }
            dy += 1;
        }
    }

    /// Draws the face: four corner discs and the centre disc.
    pub fn face(&self, fb: &mut [u32], face: Face)
        requires
            self.wf(),
            fits(self.shape().frame, old(fb)@.len() as int),
        ensures
            final(fb)@ == face_spec(self.shape(), old(fb)@, face),
    {
        let left = self.x.saturating_sub(self.half);
        let top = self.y.saturating_sub(self.half);
        self.circle(fb, self.x + self.half, top, face.corners[0]);
        self.circle(fb, self.x + self.half, self.y + self.half, face.corners[1]);
        self.circle(fb, left, self.y + self.half, face.corners[2]);
        self.circle(fb, left, top, face.corners[3]);
        self.circle(fb, self.x, self.y, face.center);
    }

    /// The eight pixels symmetric to `(x, y)`.
    fn plot8(&self, fb: &mut [u32], x: isize, y: isize, color: u32)
        requires
            self.wf(),
            fits(self.shape().frame, old(fb)@.len() as int),
            -200 <= x <= 200,
            -200 <= y <= 200,
        ensures
            final(fb)@ == paint(self.shape().frame, old(fb)@, shifted(octants(x as int, y as int), self.shape().x as int, self.shape().y as int), color),
    {
        let ghost f = self.frame;
        let ghost cx = self.x as int;
        let ghost cy = self.y as int;
        let ghost s0 = fb@;
        self.plot(fb, x, y, color);
        let ghost mut acc = set![(cx + x, cy + y)];
        self.plot(fb, y, x, color);
        proof {
            lemma_paint_union(f, s0, acc, set![(cx + y, cy + x)], color);
            acc = acc.union(set![(cx + y, cy + x)]);
        }
        self.plot(fb, -y, x, color);
        proof {
            lemma_paint_union(f, s0, acc, set![(cx - y, cy + x)], color);
            acc = acc.union(set![(cx - y, cy + x)]);
        }
        self.plot(fb, -x, y, color);
        proof {
            lemma_paint_union(f, s0, acc, set![(cx - x, cy + y)], color);
            acc = acc.union(set![(cx - x, cy + y)]);
        }
        self.plot(fb, -x, -y, color);
        proof {
            lemma_paint_union(f, s0, acc, set![(cx - x, cy - y)], color);
            acc = acc.union(set![(cx - x, cy - y)]);
        }
        self.plot(fb, -y, -x, color);
        proof {
            lemma_paint_union(f, s0, acc, set![(cx - y, cy - x)], color);
            acc = acc.union(set![(cx - y, cy - x)]);
        }
        self.plot(fb, y, -x, color);
        proof {
            lemma_paint_union(f, s0, acc, set![(cx + y, cy - x)], color);
            acc = acc.union(set![(cx + y, cy - x)]);
        }
        self.plot(fb, x, -y, color);
        proof {
            lemma_paint_union(f, s0, acc, set![(cx + x, cy - y)], color);
            acc = acc.union(set![(cx + x, cy - y)]);
            assert(acc =~= shifted(octants(x as int, y as int), cx, cy));
        }
    }

    /// The line from `start` to `end`, both relative to the centre.
    fn line(&self, fb: &mut [u32], start: (isize, isize), end: (isize, isize), color: u32)
        requires
            self.wf(),
            fits(self.shape().frame, old(fb)@.len() as int),
            -1000 <= start.0 <= 1000,
            -1000 <= start.1 <= 1000,
            -1000 <= end.0 <= 1000,
            -1000 <= end.1 <= 1000,
        ensures
            final(fb)@ == paint(
                self.shape().frame,
                old(fb)@,
                shifted(line_points(as_point(start), as_point(end)), self.shape().x as int, self.shape().y as int),
                color,
            ),
    {
        let (mut x, mut y) = start;
        let (end_x, end_y) = end;
        let dx = if end_x - x < 0 {
            x - end_x
        } else {
            end_x - x
        };
        let dy = if end_y - y < 0 {
            end_y - y
        } else {
            y - end_y
        };
        let sx: isize = if x < end_x {
            1
        } else {
            -1
        };
        let sy: isize = if y < end_y {
            1
        } else {
            -1
        };
        let mut error = dx + dy;
        let ghost f = self.frame;
        let ghost cx = self.x as int;
        let ghost cy = self.y as int;
        let ghost whole = line_points(as_point(start), as_point(end));
        let ghost ny = -dy;
        let ghost mut i: int = 0;
        let ghost mut j: int = 0;
        let ghost mut fuel: nat = (dx - dy) as nat;
        let ghost mut done: Set<(int, int)> = Set::empty();
        proof {
            assert(error == dx * (j + 1) - ny * (i + 1)) by (nonlinear_arith)
                requires
                    i == 0,
                    j == 0,
                    error == dx + dy,
                    ny == -dy,
            ;
            lemma_paint_empty(f, fb@, color);
            assert(done.union(line_from(x as int, y as int, end_x as int, end_y as int, dx as int, dy as int, sx as int, sy as int, error as int, fuel)) =~= whole);
        }
        loop
            invariant_except_break
                x == (if sx == 1 { start.0 + i } else { start.0 - i }),
                y == (if sy == 1 { start.1 + j } else { start.1 - j }),
                0 <= i <= dx,
                0 <= j <= ny,
                error == dx * (j + 1) - ny * (i + 1),
                fuel >= (dx - i) + (ny - j),
                done.union(line_from(x as int, y as int, end_x as int, end_y as int, dx as int, dy as int, sx as int, sy as int, error as int, fuel)) == whole,
                fb@ == paint(f, old(fb)@, shifted(done, cx, cy), color),
            invariant
                self.wf(),
                f == self.shape().frame,
                cx == self.shape().x,
                cy == self.shape().y,
                fits(f, fb@.len() as int),
                fb@.len() == old(fb)@.len(),
                -1000 <= start.0 <= 1000,
                -1000 <= start.1 <= 1000,
                -1000 <= end.0 <= 1000,
                -1000 <= end.1 <= 1000,
                dx == abs(end.0 - start.0),
                ny == abs(end.1 - start.1),
                dy == -ny,
                sx == (if start.0 < end.0 { 1int } else { -1int }),
                sy == (if start.1 < end.1 { 1int } else { -1int }),
                end_x == end.0,
                end_y == end.1,
                whole == line_points(as_point(start), as_point(end)),
            ensures
                fb@ == paint(f, old(fb)@, shifted(whole, cx, cy), color),
            decreases (dx - i) + (ny - j),
        {
            let ghost here = line_from(x as int, y as int, end_x as int, end_y as int, dx as int, dy as int, sx as int, sy as int, error as int, fuel);
            self.plot(fb, x, y, color);
            proof {
                lemma_paint_union(f, old(fb)@, shifted(done, cx, cy), set![(cx + x, cy + y)], color);
                assert(shifted(done, cx, cy).union(set![(cx + x, cy + y)]) =~= shifted(done.insert((x as int, y as int)), cx, cy));
                done = done.insert((x as int, y as int));
            }
            if x == end_x && y == end_y {
                proof {
                    assert(here == set![(x as int, y as int)]);
                    assert(done =~= whole);
                }
                break;
            }
            proof {
                assert(!(i == dx && j == ny));
                lemma_line_step(dx as int, ny, i, j, error as int);
            }
            let ghost xo = x as int;
            let ghost yo = y as int;
            let twice = error * 2;
            if twice >= dy {
                error += dy;
                x += sx;
                proof {
                    i = i + 1;
                }
            }
            if twice <= dx {
                error += dx;
                y += sy;
                proof {
                    j = j + 1;
                }
            }
            proof {
                assert(fuel > 0);
                let next = line_from(x as int, y as int, end_x as int, end_y as int, dx as int, dy as int, sx as int, sy as int, error as int, (fuel - 1) as nat);
                assert(here == set![(xo, yo)].union(next));
                assert(done.union(next) =~= whole);
                fuel = (fuel - 1) as nat;
            }
        }
    }

    /// Draws the orbit of `mode`, or with `erase` paints it over in the
    /// background colour.
    fn orbit(&self, fb: &mut [u32], mode: OrbitMode, erase: bool)
        requires
            self.wf(),
            fits(self.shape().frame, old(fb)@.len() as int),
        ensures
            final(fb)@ == orbit_spec(self.shape(), old(fb)@, mode, erase),
            final(fb)@.len() == old(fb)@.len(),
    {
        if mode == OrbitMode::Off {
            return;
        }
        let color = if erase {
            BACKGROUND
        } else if mode == OrbitMode::Simple {
            ORBIT_SIMPLE
        } else {
            ORBIT_TICKS
        };
        let radius = self.half * 3 / 4;
        let ghost f = self.frame;
        let ghost cx = self.x as int;
        let ghost cy = self.y as int;
        let ghost r = radius as int;
        let mut x: isize = radius as isize;
        let mut y: isize = 0;
        let mut error: isize = 1 - x;
        let ghost mut done: Set<(int, int)> = Set::empty();
        proof {
            lemma_paint_empty(f, fb@, color);
            assert(done.union(arc_from(r, 0, 1 - r)) =~= arc_from(r, 0, 1 - r));
        }
        while x >= y
            invariant
                self.wf(),
                f == self.shape().frame,
                cx == self.shape().x,
                cy == self.shape().y,
                fits(f, fb@.len() as int),
                r == orbit_radius(self.shape()),
                0 <= r <= 120,
                -1 <= x <= r,
                0 <= y <= x + 2,
                error == x * x - x + y * y + 2 * y + 1 - r * r,
                done.union(arc_from(x as int, y as int, error as int)) == arc_from(r, 0, 1 - r),
                fb@ == paint(f, old(fb)@, shifted(done, cx, cy), color),
            decreases x - y + 2,
        {
            let ghost here = arc_from(x as int, y as int, error as int);
            self.plot8(fb, x, y, color);
            proof {
                lemma_paint_union(f, old(fb)@, shifted(done, cx, cy), shifted(octants(x as int, y as int), cx, cy), color);
                assert(shifted(done, cx, cy).union(shifted(octants(x as int, y as int), cx, cy)) =~= shifted(
                    done.union(octants(x as int, y as int)),
                    cx,
                    cy,
                ));
                done = done.union(octants(x as int, y as int));
                assert(-60000 <= error <= 60000) by (nonlinear_arith)
                    requires
                        0 <= r <= 120,
                        0 <= y <= x <= r,
                        error == x * x - x + y * y + 2 * y + 1 - r * r,
                ;
            }
            let ghost xo = x as int;
            let ghost yo = y as int;
            let ghost eo = error as int;
            y += 1;
            if error < 0 {
                error += 2 * y + 1;
            } else {
                x -= 1;
                error += 2 * (y - x) + 1;
            }
            proof {
                assert(error == x * x - x + y * y + 2 * y + 1 - r * r) by (nonlinear_arith)
                    requires
                        eo == xo * xo - xo + yo * yo + 2 * yo + 1 - r * r,
                        y == yo + 1,
                        x == xo || x == xo - 1,
                        x == xo ==> error == eo + 2 * y + 1,
                        x == xo - 1 ==> error == eo + 2 * (y - x) + 1,
                ;
                assert(here == octants(xo, yo).union(arc_from(x as int, y as int, error as int)));
                assert(done.union(arc_from(x as int, y as int, error as int)) =~= arc_from(r, 0, 1 - r));
            }
        }
        proof {
            assert(done =~= arc_from(r, 0, 1 - r));
        }
        let count: usize = if mode == OrbitMode::Ticks {
            10
        } else {
            1
        };
        let ghost fb1 = fb@;
        let mut index: usize = 0;
        while index < count
            invariant
                self.wf(),
                f == self.shape().frame,
                cx == self.shape().x,
                cy == self.shape().y,
                fits(f, fb@.len() as int),
                r == orbit_radius(self.shape()),
                radius == r,
                0 <= r <= 120,
                count <= 10,
                index <= count,
                fb@ == ticks_spec(self.shape(), fb1, erase, index as int),
                fb@.len() == old(fb)@.len(),
            decreases count - index,
        {
            let length = if index == 0 {
                if self.half / 24 < 1 {
                    1
                } else {
                    self.half / 24
                }
            } else {
                if self.half / 48 < 1 {
                    1
                } else {
                    self.half / 48
                }
            };
            let color = if erase {
                BACKGROUND
            } else if index == 0 {
                START_TICK
            } else {
                SMALL_TICK
            };
            let from = point_at(index * 10000, radius.saturating_sub(length));
            let to = point_at(index * 10000, radius + length);
            self.line(fb, from, to, color);
            index += 1;
        }
    }

    /// Moves the dot from `previous` to `current` (points relative to the
    /// centre), switching the orbit from `old_mode` to `mode`.
    pub fn cycle(
        &self,
        fb: &mut [u32],
        previous: Option<(isize, isize)>,
        current: Option<(isize, isize)>,
        old_mode: OrbitMode,
        mode: OrbitMode,
    )
        requires
            self.wf(),
            fits(self.shape().frame, old(fb)@.len() as int),
            previous matches Some(p) ==> self.reaches(as_point(p)),
            current matches Some(p) ==> self.reaches(as_point(p)),
        ensures
            final(fb)@ == cycle_spec(self.shape(), old(fb)@, previous, current, old_mode, mode),
    {
        if let Some(point) = previous {
            self.dot(fb, point, BACKGROUND);
        }
        if old_mode != mode {
            self.orbit(fb, old_mode, true);
        }
        self.orbit(fb, mode, false);
        if let Some(point) = current {
            self.dot(fb, point, CYCLE);
        }
    }

    /// Segment `k` of a digit cell: left, top, width and height.
    fn segment(k: usize) -> (r: (usize, usize, usize, usize))
        requires
            k < 7,
        ensures
            (r.0 as int, r.1 as int, r.2 as int, r.3 as int) == segment(k as int),
    {
        if k == 0 {
            (1, 0, 9, 1)
        } else if k == 1 {
            (10, 1, 1, 9)
        } else if k == 2 {
            (10, 11, 1, 9)
        } else if k == 3 {
            (1, 20, 9, 1)
        } else if k == 4 {
            (0, 11, 1, 9)
        } else if k == 5 {
            (0, 1, 1, 9)
        } else {
            (1, 10, 9, 1)
        }
    }

    fn segment_bits(ch: u8) -> (r: u8)
        ensures
            r == segment_bits(ch),
    {
        if ch >= 48 && ch <= 57 {
            let table: [u8; 10] = [0x3f, 0x06, 0x5b, 0x4f, 0x66, 0x6d, 0x7d, 0x07, 0x7f, 0x6f];
            let bits = table[(ch - 48) as usize];
            assert(bits == segment_bits(ch));
            bits
        } else {
            0x40
        }
    }

    /// The digital aid: `text` (such as `23:59:59`) in one-pixel
    /// seven-segment cells below the face, or an empty box.
    pub fn digital(&self, fb: &mut [u32], text: &[u8; 8], visible: bool)
        requires
            self.wf(),
            fits(self.shape().frame, old(fb)@.len() as int),
        ensures
            final(fb)@ == digital_spec(self.shape(), old(fb)@, text@, visible),
    {
        let x = self.x.saturating_sub(62);
        let y = self.y + self.half + self.radius + 28;
        let ghost f = self.frame;
        self.rect(fb, x, y, 124, 21, BACKGROUND);
        if !visible {
            return;
        }
        let ghost fb1 = fb@;
        proof {
            lemma_paint_empty(f, fb1, DIGITS);
        }
        let mut i: usize = 0;
        while i < 8
            invariant
                self.wf(),
                f == self.shape().frame,
                fits(f, fb@.len() as int),
                fb1.len() == fb@.len(),
                (x as int, y as int) == digital_origin(self.shape()),
                i <= 8,
                fb@ == paint(f, fb1, cells_pixels(text@, x as int, y as int, i as int), DIGITS),
            decreases 8 - i,
        {
            let ch = text[i];
            let cx = x + i * 16;
            let ghost done = cells_pixels(text@, x as int, y as int, i as int);
            if ch == 58 {
                self.rect(fb, cx + 5, y + 6, 1, 1, DIGITS);
                self.rect(fb, cx + 5, y + 14, 1, 1, DIGITS);
                proof {
                    let a = rect_points(cx + 5, y + 6, cx + 6, y + 7);
                    let b = rect_points(cx + 5, y + 14, cx + 6, y + 15);
                    lemma_paint_union(f, fb1, done, a, DIGITS);
                    lemma_paint_union(f, fb1, done.union(a), b, DIGITS);
                    assert(done.union(a).union(b) =~= done.union(cell_pixels(ch, cx as int, y as int)));
                }
            } else {
                let bits = Self::segment_bits(ch);
                let mut k: usize = 0;
                while k < 7
                    invariant
                        self.wf(),
                        f == self.shape().frame,
                        fits(f, fb@.len() as int),
                        fb1.len() == fb@.len(),
                        k <= 7,
                        cx + 20 <= usize::MAX,
                        y + 21 <= usize::MAX,
                        fb@ == paint(f, fb1, done.union(segments_lit(bits, cx as int, y as int, k as int)), DIGITS),
                    decreases 7 - k,
                {
                    let (sx, sy, w, h) = Self::segment(k);
                    let ghost lit = segments_lit(bits, cx as int, y as int, k as int);
                    if (bits >> (k as u8)) & 1 == 1 {
                        self.rect(fb, cx + sx, y + sy, w, h, DIGITS);
                        proof {
                            lemma_paint_union(
                                f,
                                fb1,
                                done.union(lit),
                                rect_points(cx + sx, y + sy, cx + sx + w, y + sy + h),
                                DIGITS,
                            );
                            assert(done.union(lit).union(rect_points(cx + sx, y + sy, cx + sx + w, y + sy + h)) =~= done.union(
                                segments_lit(bits, cx as int, y as int, k + 1),
                            ));
                        }
                    } else {
                        assert(segments_lit(bits, cx as int, y as int, k + 1) =~= lit);
                    }
                    k += 1;
                }
                assert(segments_lit(bits, cx as int, y as int, 7) == cell_pixels(ch, cx as int, y as int));
            }
            i += 1;
        }
    }

    /// `text` in `font`, centred, with its top row at `y`.
    fn text(&self, fb: &mut [u32], font: &[u64; 64], text: &[u8], y: usize, color: u32)
        requires
            self.wf(),
            fits(self.shape().frame, old(fb)@.len() as int),
            text@.len() <= 1000,
            y + 8 <= usize::MAX,
        ensures
            final(fb)@ == line_spec(self.shape(), old(fb)@, font@, text@, y as int, color),
            final(fb)@.len() == old(fb)@.len(),
    {
        let x = self.frame.width.saturating_sub(text.len() * 8) / 2;
        let ghost f = self.frame;
        let ghost whole = text_pixels(font@, text@, x as int, y as int);
        proof {
            lemma_paint_empty(f, fb@, color);
            assert(text_pixels(font@, text@.subrange(0, 0), x as int, y as int) =~= Set::empty());
        }
        let mut i: usize = 0;
        while i < text.len()
            invariant
                self.wf(),
                f == self.shape().frame,
                fits(f, fb@.len() as int),
                fb@.len() == old(fb)@.len(),
                text@.len() <= 1000,
                i <= text@.len(),
                x <= f.width <= isize::MAX,
                y + 8 <= usize::MAX,
                fb@ == paint(f, old(fb)@, text_pixels(font@, text@.subrange(0, i as int), x as int, y as int), color),
            decreases text@.len() - i,
        {
            let ch = text[i];
            let index = if ch >= 32 {
                ch - 32
            } else {
                0
            };
            let index = if index > 63 {
                63
            } else {
                index
            };
            let glyph = font[index as usize];
            let ghost before = text_pixels(font@, text@.subrange(0, i as int), x as int, y as int);
            let mut row: usize = 0;
            while row < 8
                invariant
                    self.wf(),
                    f == self.shape().frame,
                    fits(f, fb@.len() as int),
                    fb@.len() == old(fb)@.len(),
                    i < text@.len() <= 1000,
                    row <= 8,
                    x <= f.width <= isize::MAX,
                    y + 8 <= usize::MAX,
                    glyph == font@[glyph_index(ch)],
                    ch == text@[i as int],
                    fb@ == paint(f, old(fb)@, before.union(glyph_part(glyph, x + i * 8, y as int, row as int, 0)), color),
                decreases 8 - row,
            {
                let mut col: usize = 0;
                while col < 8
                    invariant
                        self.wf(),
                        f == self.shape().frame,
                        fits(f, fb@.len() as int),
                        fb@.len() == old(fb)@.len(),
                        i < text@.len() <= 1000,
                        row < 8,
                        x <= f.width <= isize::MAX,
                        y + 8 <= usize::MAX,
                        col <= 8,
                        fb@ == paint(f, old(fb)@, before.union(glyph_part(glyph, x + i * 8, y as int, row as int, col as int)), color),
                    decreases 8 - col,
                {
                    let ghost part = glyph_part(glyph, x + i * 8, y as int, row as int, col as int);
                    if (glyph >> (((7 - row) * 8 + 7 - col) as u64)) & 1 == 1 {
                        self.rect(fb, x + i * 8 + col, y + row, 1, 1, color);
                        proof {
                            let p = (x + i * 8 + col, y + row);
                            assert(rect_points(p.0, p.1, p.0 + 1, p.1 + 1) =~= set![p]);
                            lemma_paint_union(f, old(fb)@, before.union(part), set![p], color);
                            assert(before.union(part).union(set![p]) =~= before.union(
                                glyph_part(glyph, x + i * 8, y as int, row as int, col + 1),
                            ));
                        }
                    } else {
                        assert(glyph_part(glyph, x + i * 8, y as int, row as int, col + 1) =~= part);
                    }
                    col += 1;
                }
                assert(glyph_part(glyph, x + i * 8, y as int, row as int, 8) =~= glyph_part(
                    glyph,
                    x + i * 8,
                    y as int,
                    row + 1,
                    0,
                ));
                row += 1;
            }
            proof {
                assert(before.union(glyph_part(glyph, x + i * 8, y as int, 8, 0)) =~= text_pixels(
                    font@,
                    text@.subrange(0, i + 1),
                    x as int,
                    y as int,
                )) by {
                    assert forall|p: (int, int)| #[trigger] text_pixels(font@, text@.subrange(0, i + 1), x as int, y as int).contains(p)
                        implies before.union(glyph_part(glyph, x + i * 8, y as int, 8, 0)).contains(p) by {
                        let rel = p.0 - x;
                        if rel / 8 == i as int {
                            assert(rel % 8 == rel - 8 * i);
                        }
                    }
                    assert forall|p: (int, int)| #[trigger] glyph_part(glyph, x + i * 8, y as int, 8, 0).contains(p)
                        implies text_pixels(font@, text@.subrange(0, i + 1), x as int, y as int).contains(p) by {
                        let rel = p.0 - x;
                        assert(rel / 8 == i as int);
                        assert(rel % 8 == rel - 8 * i);
                    }
                }
            }
            i += 1;
        }
        assert(text@.subrange(0, text@.len() as int) =~= text@);
    }

    /// The title and the key help, shown or painted over.
    pub fn hints(&self, fb: &mut [u32], font: &[u64; 64], visible: bool)
        requires
            self.wf(),
            fits(self.shape().frame, old(fb)@.len() as int),
        ensures
            final(fb)@ == hints_spec(self.shape(), old(fb)@, font@, visible),
    {
        let color = if visible {
            HINT
        } else {
            BACKGROUND
        };
        let heading = "DZEN CLOCK";
        let keys = "D: DIGITS   C: ORBIT   P: 10S TICKS   H: TEXT   CTRL+Z: SHELL   ESC: EXIT";
        proof {
            reveal_strlit("DZEN CLOCK");
            reveal_strlit("D: DIGITS   C: ORBIT   P: 10S TICKS   H: TEXT   CTRL+Z: SHELL   ESC: EXIT");
            assert(vstd::string::is_ascii(heading));
            assert(vstd::string::is_ascii(keys));
            vstd::string::is_ascii_spec_bytes(heading);
            vstd::string::is_ascii_spec_bytes(keys);
        }
        let heading = heading.as_bytes();
        let keys = keys.as_bytes();
        proof {
            assert(heading@ =~= title());
            assert(keys@ =~= key_help());
        }
        self.text(fb, font, heading, 24, color);
        self.text(fb, font, keys, self.frame.height.saturating_sub(32), color);
    }
}

} // verus!
