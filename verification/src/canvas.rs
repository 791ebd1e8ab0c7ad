//! Framebuffers: `width` × `height` pixels of 0x00RRGGBB, stored row after
//! row with rows `stride` pixels apart. Drawing is stated as painting a set
//! of pixel coordinates in one colour; pixels off the screen are never
//! touched.
use vstd::prelude::*;
use vstd::arithmetic::div_mod::{lemma_fundamental_div_mod, lemma_fundamental_div_mod_converse};

verus! {

/// The shape of a framebuffer.
#[derive(Clone, Copy, Debug, PartialEq, Eq, Structural)]
pub struct Frame {
    pub width: usize,
    pub height: usize,
    pub stride: usize,
}

/// Every visible pixel lies inside a buffer of `len` words.
pub open spec fn fits(f: Frame, len: int) -> bool {
    f.width <= f.stride && f.height * f.stride <= len
}

pub open spec fn visible(f: Frame, x: int, y: int) -> bool {
    0 <= x < f.width && 0 <= y < f.height
}

/// The pixel that word `i` of the buffer shows.
pub open spec fn pixel_of(f: Frame, i: int) -> (int, int) {
    (i % (f.stride as int), i / (f.stride as int))
}

/// `fb` with every visible pixel of `points` set to `color`.
pub open spec fn paint(f: Frame, fb: Seq<u32>, points: Set<(int, int)>, color: u32) -> Seq<u32> {
    Seq::new(
        fb.len(),
        |i: int|
            if f.stride > 0 && visible(f, pixel_of(f, i).0, pixel_of(f, i).1) && points.contains(pixel_of(f, i)) {
                color
            } else {
                fb[i]
            },
    )
}

/// The pixels `x0 <= x < x1`, `y0 <= y < y1`.
pub open spec fn rect_points(x0: int, y0: int, x1: int, y1: int) -> Set<(int, int)> {
    Set::new(|p: (int, int)| x0 <= p.0 < x1 && y0 <= p.1 < y1)
}

/// Word `y * stride + x` shows pixel `(x, y)`.
pub proof fn lemma_pixel_index(f: Frame, x: int, y: int)
    requires
        0 <= x < f.stride,
        0 <= y,
    ensures
        pixel_of(f, y * f.stride + x) == (x, y),
{
    lemma_fundamental_div_mod_converse(y * f.stride + x, f.stride as int, y, x);
}

/// Painting `a` and then `b` in one colour paints their union.
pub proof fn lemma_paint_union(f: Frame, fb: Seq<u32>, a: Set<(int, int)>, b: Set<(int, int)>, color: u32)
    ensures
        paint(f, paint(f, fb, a, color), b, color) == paint(f, fb, a.union(b), color),
{
    assert(paint(f, paint(f, fb, a, color), b, color) =~= paint(f, fb, a.union(b), color));
}

/// Sets that agree on the visible pixels paint alike.
pub proof fn lemma_paint_visible(f: Frame, fb: Seq<u32>, a: Set<(int, int)>, b: Set<(int, int)>, color: u32)
    requires
        forall|x: int, y: int| visible(f, x, y) ==> (a.contains((x, y)) <==> b.contains((x, y))),
    ensures
        paint(f, fb, a, color) == paint(f, fb, b, color),
{
    assert forall|i: int| 0 <= i < fb.len() implies paint(f, fb, a, color)[i] == paint(f, fb, b, color)[i] by {
        let p = pixel_of(f, i);
        if f.stride > 0 && visible(f, p.0, p.1) {
            assert(a.contains((p.0, p.1)) <==> b.contains((p.0, p.1)));
        }
    }
    assert(paint(f, fb, a, color) =~= paint(f, fb, b, color));
}

/// Painting nothing changes nothing.
pub proof fn lemma_paint_empty(f: Frame, fb: Seq<u32>, color: u32)
    ensures
        paint(f, fb, Set::empty(), color) == fb,
{
    assert(paint(f, fb, Set::empty(), color) =~= fb);
}

/// Painting a pixel under a layer that does not hold it.
pub proof fn lemma_paint_under(
    f: Frame,
    fb: Seq<u32>,
    a: Set<(int, int)>,
    b: Set<(int, int)>,
    p: (int, int),
    c1: u32,
    c2: u32,
)
    requires
        !b.contains(p),
    ensures
        paint(f, paint(f, paint(f, fb, a, c1), b, c2), set![p], c1) == paint(f, paint(f, fb, a.insert(p), c1), b, c2),
{
    assert(paint(f, paint(f, paint(f, fb, a, c1), b, c2), set![p], c1) =~= paint(
        f,
        paint(f, fb, a.insert(p), c1),
        b,
        c2,
    ));
}

/// Two layers of sets that agree on the visible pixels paint alike.
pub proof fn lemma_paint2_visible(
    f: Frame,
    fb: Seq<u32>,
    a: Set<(int, int)>,
    a2: Set<(int, int)>,
    b: Set<(int, int)>,
    b2: Set<(int, int)>,
    c1: u32,
    c2: u32,
)
    requires
        forall|x: int, y: int| visible(f, x, y) ==> (a.contains((x, y)) <==> a2.contains((x, y))),
        forall|x: int, y: int| visible(f, x, y) ==> (b.contains((x, y)) <==> b2.contains((x, y))),
    ensures
        paint(f, paint(f, fb, a, c1), b, c2) == paint(f, paint(f, fb, a2, c1), b2, c2),
{
    lemma_paint_visible(f, fb, a, a2, c1);
    lemma_paint_visible(f, paint(f, fb, a2, c1), b, b2, c2);
}

/// Sets one visible pixel.
pub fn put(fb: &mut [u32], f: Frame, x: usize, y: usize, color: u32)
    requires
        fits(f, old(fb)@.len() as int),
        x < f.width,
        y < f.height,
    ensures
        final(fb)@ == paint(f, old(fb)@, set![(x as int, y as int)], color),
{
    proof {
        assert(y * f.stride + x < f.height * f.stride) by (nonlinear_arith)
            requires
                y < f.height,
                x < f.width,
                f.width <= f.stride,
        ;
        assert(y * f.stride <= y * f.stride + x);
    }
    let len = fb.len();
    proof {
        assert(y * f.stride + x < len);
    }
    let at = y * f.stride + x;
    fb[at] = color;
    proof {
        lemma_pixel_index(f, x as int, y as int);
        assert forall|i: int| 0 <= i < fb@.len() implies fb@[i] == paint(
            f,
            old(fb)@,
            set![(x as int, y as int)],
            color,
        )[i] by {
            if i != at {
                lemma_fundamental_div_mod(i, f.stride as int);
                if pixel_of(f, i) == (x as int, y as int) {
                    assert(f.stride * (y as int) == (y as int) * f.stride) by (nonlinear_arith);
                    assert(i == f.stride * y + x);
                    assert(false);
                }
            }
        }
        assert(fb@ =~= paint(f, old(fb)@, set![(x as int, y as int)], color));
    }
}

/// Fills the visible pixels `x0 <= x < x1`, `y0 <= y < y1`.
pub fn fill(fb: &mut [u32], f: Frame, x0: usize, y0: usize, x1: usize, y1: usize, color: u32)
    requires
        fits(f, old(fb)@.len() as int),
        x1 <= f.width,
        y1 <= f.height,
    ensures
        final(fb)@ == paint(f, old(fb)@, rect_points(x0 as int, y0 as int, x1 as int, y1 as int), color),
{
    let mut y = y0;
    proof {
        assert(rect_points(x0 as int, y0 as int, x1 as int, y0 as int) =~= Set::empty());
        lemma_paint_empty(f, fb@, color);
    }
    while y < y1
        invariant
            fits(f, fb@.len() as int),
            fb@.len() == old(fb)@.len(),
            x1 <= f.width,
            y1 <= f.height,
            y0 <= y,
            y0 < y1 ==> y <= y1,
            y0 >= y1 ==> y == y0,
            fb@ == paint(f, old(fb)@, rect_points(x0 as int, y0 as int, x1 as int, y as int), color),
        decreases y1 - y,
    {
        let mut x = x0;
        let ghost done = rect_points(x0 as int, y0 as int, x1 as int, y as int);
        proof {
            assert(done.union(rect_points(x0 as int, y as int, x0 as int, y + 1)) =~= done);
        }
        while x < x1
            invariant
                fits(f, fb@.len() as int),
                fb@.len() == old(fb)@.len(),
                x1 <= f.width,
                y1 <= f.height,
                y < y1,
                x0 <= x,
                x0 < x1 ==> x <= x1,
                x0 >= x1 ==> x == x0,
                done == rect_points(x0 as int, y0 as int, x1 as int, y as int),
                fb@ == paint(f, old(fb)@, done.union(rect_points(x0 as int, y as int, x as int, y + 1)), color),
            decreases x1 - x,
        {
            let ghost before = fb@;
            put(fb, f, x, y, color);
            proof {
                let row = rect_points(x0 as int, y as int, x as int, y + 1);
                lemma_paint_union(f, old(fb)@, done.union(row), set![(x as int, y as int)], color);
                assert(done.union(row).union(set![(x as int, y as int)]) =~= done.union(
                    rect_points(x0 as int, y as int, x + 1, y + 1),
                ));
            }
            x += 1;
        }
        proof {
            if x0 < x1 {
                assert(done.union(rect_points(x0 as int, y as int, x as int, y + 1)) =~= rect_points(
                    x0 as int,
                    y0 as int,
                    x1 as int,
                    y + 1,
                ));
            } else {
                assert(done.union(rect_points(x0 as int, y as int, x as int, y + 1)) =~= done);
                assert(done =~= rect_points(x0 as int, y0 as int, x1 as int, y + 1));
            }
        }
        y += 1;
    }
    proof {
        if y0 >= y1 {
            assert(rect_points(x0 as int, y0 as int, x1 as int, y as int) =~= rect_points(
                x0 as int,
                y0 as int,
                x1 as int,
                y1 as int,
            ));
        }
    }
}


/// The shadow after presenting `source`: every visible pixel as `source`
/// shows it.
pub open spec fn shadowed(f: Frame, shadow: Seq<u32>, source: Seq<u32>) -> Seq<u32> {
    Seq::new(
        shadow.len(),
        |i: int|
            if f.stride > 0 && visible(f, pixel_of(f, i).0, pixel_of(f, i).1) {
                source[i]
            } else {
                shadow[i]
            },
    )
}

/// The screen after presenting `source`: each visible pixel that differs
/// from the shadow (every one, while the shadow is not `valid`) is
/// written; the others keep what the screen shows.
pub open spec fn presented(f: Frame, screen: Seq<u32>, shadow: Seq<u32>, source: Seq<u32>, valid: bool) -> Seq<u32> {
    Seq::new(
        screen.len(),
        |i: int|
            if f.stride > 0 && visible(f, pixel_of(f, i).0, pixel_of(f, i).1) && (source[i] != shadow[i] || !valid) {
                source[i]
            } else {
                screen[i]
            },
    )
}

/// Copies `source` to the screen, writing only the pixels that changed since
/// the last copy, which `shadow` remembers.
pub fn present(f: Frame, source: &[u32], shadow: &mut [u32], screen: &mut [u32], valid: bool)
    requires
        fits(f, source@.len() as int),
        fits(f, old(shadow)@.len() as int),
        fits(f, old(screen)@.len() as int),
    ensures
        final(shadow)@ == shadowed(f, old(shadow)@, source@),
        final(screen)@ == presented(f, old(screen)@, old(shadow)@, source@, valid),
{
    let ghost shadow0 = shadow@;
    let ghost screen0 = screen@;
    let len = shadow.len();
    let mut y: usize = 0;
    while y < f.height
        invariant
            fits(f, source@.len() as int),
            fits(f, shadow@.len() as int),
            fits(f, screen@.len() as int),
            len == shadow@.len(),
            shadow@.len() == shadow0.len(),
            screen@.len() == screen0.len(),
            y <= f.height,
            forall|i: int|
                0 <= i < shadow@.len() ==> #[trigger] shadow@[i] == if f.stride > 0 && visible(f, pixel_of(f, i).0, pixel_of(f, i).1)
                    && pixel_of(f, i).1 < y {
                    source@[i]
                } else {
                    shadow0[i]
                },
            forall|i: int|
                0 <= i < screen@.len() ==> #[trigger] screen@[i] == if f.stride > 0 && visible(f, pixel_of(f, i).0, pixel_of(f, i).1)
                    && pixel_of(f, i).1 < y && (source@[i] != shadow0[i] || !valid) {
                    source@[i]
                } else {
                    screen0[i]
                },
        decreases f.height - y,
    {
        let mut x: usize = 0;
        while x < f.width
            invariant
                fits(f, source@.len() as int),
                fits(f, shadow@.len() as int),
                fits(f, screen@.len() as int),
                len == shadow@.len(),
                shadow@.len() == shadow0.len(),
                screen@.len() == screen0.len(),
                y < f.height,
                x <= f.width,
                forall|i: int|
                    0 <= i < shadow@.len() ==> #[trigger] shadow@[i] == if f.stride > 0 && visible(f, pixel_of(f, i).0, pixel_of(f, i).1)
                        && (pixel_of(f, i).1 < y || (pixel_of(f, i).1 == y && pixel_of(f, i).0 < x)) {
                        source@[i]
                    } else {
                        shadow0[i]
                    },
                forall|i: int|
                    0 <= i < screen@.len() ==> #[trigger] screen@[i] == if f.stride > 0 && visible(f, pixel_of(f, i).0, pixel_of(f, i).1)
                        && (pixel_of(f, i).1 < y || (pixel_of(f, i).1 == y && pixel_of(f, i).0 < x)) && (source@[i]
                        != shadow0[i] || !valid) {
                        source@[i]
                    } else {
                        screen0[i]
                    },
            decreases f.width - x,
        {
            proof {
                assert(y * f.stride + x < f.height * f.stride) by (nonlinear_arith)
                    requires
                        y < f.height,
                        x < f.width <= f.stride,
                ;
                assert(0 <= y * f.stride) by (nonlinear_arith);
                lemma_pixel_index(f, x as int, y as int);
            }
            let at = y * f.stride + x;
            let pixel = source[at];
            let old_shadow = shadow[at];
            proof {
                assert(old_shadow == shadow0[at as int]);
            }
            if pixel != old_shadow || !valid {
                screen[at] = pixel;
                shadow[at] = pixel;
            }
            proof {
                assert forall|i: int| 0 <= i && i != at implies pixel_of(f, i) != (x as int, y as int) by {
                    lemma_fundamental_div_mod(i, f.stride as int);
                    if pixel_of(f, i) == (x as int, y as int) {
                        assert(f.stride * (y as int) == (y as int) * f.stride) by (nonlinear_arith);
                    }
                }
            }
            x += 1;
        }
        y += 1;
    }
    proof {
        assert(shadow@ =~= shadowed(f, shadow0, source@)) by {
            assert forall|i: int| 0 <= i < shadow@.len() implies shadow@[i] == shadowed(f, shadow0, source@)[i] by {
                if f.stride > 0 && visible(f, pixel_of(f, i).0, pixel_of(f, i).1) {
                    assert(pixel_of(f, i).1 < y);
                }
            }
        }
        assert(screen@ =~= presented(f, screen0, shadow0, source@, valid)) by {
            assert forall|i: int| 0 <= i < screen@.len() implies screen@[i] == presented(f, screen0, shadow0, source@, valid)[i] by {
                if f.stride > 0 && visible(f, pixel_of(f, i).0, pixel_of(f, i).1) {
                    assert(pixel_of(f, i).1 < y);
                }
            }
        }
    }
}

/// The bytes of a screen of `height` rows, `stride` pixels apart, at four
/// bytes a pixel, or why no buffer can hold it.
pub fn screen_bytes(stride: usize, height: usize) -> (r: Result<usize, &'static str>)
    ensures
        stride * height * 4 <= usize::MAX ==> r == Ok::<usize, &'static str>((stride * height * 4) as usize),
        stride * height * 4 > usize::MAX ==> r == Err::<usize, &'static str>("FRAMEBUFFER SIZE OVERFLOW"),
{
    match stride.checked_mul(height) {
        Some(pixels) => match pixels.checked_mul(4) {
            Some(bytes) => Ok(bytes),
            None => Err("FRAMEBUFFER SIZE OVERFLOW"),
        },
        None => {
            assert(stride * height * 4 > usize::MAX) by (nonlinear_arith)
                requires
                    stride * height > usize::MAX,
            ;
            Err("FRAMEBUFFER SIZE OVERFLOW")
        },
    }
}

} // verus!
