//! The digital clock program: its scaled two-colour text, where the time
//! goes on the screen, and when a new reading is drawn.
use vstd::prelude::*;
use crate::abi::RTC_UNAVAILABLE;
use crate::canvas::{
    Frame, fits, paint, rect_points, put, visible, lemma_paint_union, lemma_paint_under, lemma_paint2_visible,
    lemma_paint_empty,
};
use crate::dzen::view::{glyph_bit, glyph_index};

verus! {

/// The clock's background colour.
pub const BACKGROUND: u32 = 0x001E1E2E;
/// The clock's text colour.
pub const FOREGROUND: u32 = 0x00A6E3A1;

/// The box of `len` characters of `scale`-fold glyphs from `(x, y)`.
pub open spec fn in_box(len: int, x: int, y: int, scale: int, p: (int, int)) -> bool {
    &&& x <= p.0 < x + 8 * scale * len
    &&& y <= p.1 < y + 8 * scale
}

/// Whether pixel `p` of the box shows a lit bit: character
/// `(p.0 - x) / (8 scale)`, glyph column `((p.0 - x) % (8 scale)) / scale`,
/// glyph row `(p.1 - y) / scale`.
pub open spec fn scaled_lit(font: Seq<u64>, text: Seq<u8>, x: int, y: int, scale: int, p: (int, int)) -> bool {
    let rel = p.0 - x;
    let per = 8 * scale;
    glyph_bit(font[glyph_index(text[rel / per])], (p.1 - y) / scale, (rel % per) / scale)
}

/// The lit pixels of the box.
pub open spec fn lit_pixels(font: Seq<u64>, text: Seq<u8>, x: int, y: int, scale: int) -> Set<(int, int)> {
    Set::new(|p: (int, int)| in_box(text.len() as int, x, y, scale, p) && scaled_lit(font, text, x, y, scale, p))
}

/// The dark pixels of the box.
pub open spec fn dark_pixels(font: Seq<u64>, text: Seq<u8>, x: int, y: int, scale: int) -> Set<(int, int)> {
    Set::new(|p: (int, int)| in_box(text.len() as int, x, y, scale, p) && !scaled_lit(font, text, x, y, scale, p))
}

/// `fb` with the text drawn: lit pixels in `color`, the rest of its box in
/// the background colour, cut at the screen's edge.
pub open spec fn scaled_text(
    f: Frame,
    fb: Seq<u32>,
    font: Seq<u64>,
    text: Seq<u8>,
    x: int,
    y: int,
    scale: int,
    color: u32,
) -> Seq<u32> {
    paint(f, paint(f, fb, dark_pixels(font, text, x, y, scale), BACKGROUND), lit_pixels(font, text, x, y, scale), color)
}

/// The part of the box done after rows `y0 .. py` and, on row `py`, the
/// columns `x0 .. px`.
pub open spec fn done_region(x0: int, y0: int, x1: int, py: int, px: int) -> Set<(int, int)> {
    rect_points(x0, y0, x1, py).union(rect_points(x0, py, px, py + 1))
}

/// Draws `text` from `(x, y)` with each glyph pixel a `scale` × `scale`
/// square: lit pixels in `color`, the rest of the text's box in the
/// background colour, cut at the screen's edge. Each pixel is written once.
pub fn draw_text(f: Frame, fb: &mut [u32], font: &[u64; 64], x: usize, y: usize, text: &[u8], scale: usize, color: u32)
    requires
        fits(f, old(fb)@.len() as int),
        x + 8 * scale * text@.len() <= usize::MAX,
        y + 8 * scale <= usize::MAX,
    ensures
        final(fb)@ == scaled_text(f, old(fb)@, font@, text@, x as int, y as int, scale as int, color),
{
    let ghost fb0 = fb@;
    let ghost lit = lit_pixels(font@, text@, x as int, y as int, scale as int);
    let ghost dark = dark_pixels(font@, text@, x as int, y as int, scale as int);
    let len = text.len();
    if len == 0 || scale == 0 {
        proof {
            assert(8 * scale * len == 0) by (nonlinear_arith)
                requires
                    len == 0 || scale == 0,
            ;
            assert(8 * scale == 0 || len == 0);
            assert(lit =~= Set::empty());
            assert(dark =~= Set::empty());
            lemma_paint_empty(f, fb0, BACKGROUND);
            lemma_paint_empty(f, fb0, color);
        }
        return;
    }
    let per = 8 * scale;
    assert(per <= per * len) by (nonlinear_arith)
        requires
            len >= 1,
    ;
    let right_end = x + per * len;
    let bottom_end = y + per;
    let right = if right_end < f.width {
        right_end
    } else {
        f.width
    };
    let bottom = if bottom_end < f.height {
        bottom_end
    } else {
        f.height
    };
    proof {
        assert(dark.intersect(done_region(x as int, y as int, right as int, y as int, x as int)) =~= Set::empty());
        assert(lit.intersect(done_region(x as int, y as int, right as int, y as int, x as int)) =~= Set::empty());
        lemma_paint_empty(f, fb0, BACKGROUND);
        lemma_paint_empty(f, fb0, color);
    }
    let mut py = y;
    while py < bottom
        invariant
            fits(f, fb@.len() as int),
            fb@.len() == fb0.len(),
            fb0 == old(fb)@,
            len == text@.len(),
            1 <= scale,
            per == 8 * scale,
            right_end == x + per * len,
            bottom_end == y + per,
            right_end <= usize::MAX,
            right <= f.width,
            bottom <= f.height,
            right <= right_end,
            bottom <= bottom_end,
            y <= py,
            y < bottom ==> py <= bottom,
            y >= bottom ==> py == y,
            lit == lit_pixels(font@, text@, x as int, y as int, scale as int),
            dark == dark_pixels(font@, text@, x as int, y as int, scale as int),
            fb@ == paint(
                f,
                paint(f, fb0, dark.intersect(done_region(x as int, y as int, right as int, py as int, x as int)), BACKGROUND),
                lit.intersect(done_region(x as int, y as int, right as int, py as int, x as int)),
                color,
            ),
        decreases bottom - py,
    {
        let mut px = x;
        proof {
            assert(done_region(x as int, y as int, right as int, py as int, x as int) =~= done_region(
                x as int,
                y as int,
                right as int,
                py as int,
                px as int,
            ));
        }
        let row = (py - y) / scale;
        assert(row < 8) by (nonlinear_arith)
            requires
                py - y < 8 * scale,
                scale >= 1,
                row == (py - y) as int / scale as int,
        ;
        while px < right
            invariant
                fits(f, fb@.len() as int),
                fb@.len() == fb0.len(),
                len == text@.len(),
                1 <= scale,
                per == 8 * scale,
                right_end == x + per * len,
                bottom_end == y + per,
                right <= f.width,
                bottom <= f.height,
                right <= right_end,
                y <= py < bottom,
                bottom <= bottom_end,
                x <= px,
                x < right ==> px <= right,
                x >= right ==> px == x,
                row == (py - y) as int / scale as int,
                row < 8,
                lit == lit_pixels(font@, text@, x as int, y as int, scale as int),
                dark == dark_pixels(font@, text@, x as int, y as int, scale as int),
                fb@ == paint(
                    f,
                    paint(
                        f,
                        fb0,
                        dark.intersect(done_region(x as int, y as int, right as int, py as int, px as int)),
                        BACKGROUND,
                    ),
                    lit.intersect(done_region(x as int, y as int, right as int, py as int, px as int)),
                    color,
                ),
            decreases right - px,
        {
            let ghost done = done_region(x as int, y as int, right as int, py as int, px as int);
            let ghost p = (px as int, py as int);
            let offset = px - x;
            let index = offset / per;
            let col = (offset % per) / scale;
            assert(index < len && col < 8) by (nonlinear_arith)
                requires
                    offset < per * len,
                    per == 8 * scale,
                    scale >= 1,
                    index == offset / per,
                    col == (offset % per) / scale,
            ;
            let ch = text[index];
            let g = if ch >= 32 {
                ch - 32
            } else {
                0
            };
            let g = if g > 63 {
                63
            } else {
                g
            };
            let glyph = font[g as usize];
            let shift = ((7 - row) * 8 + 7 - col) as u64;
            let on = (glyph >> shift) & 1 == 1;
            proof {
                assert(g == glyph_index(ch));
                assert(in_box(text@.len() as int, x as int, y as int, scale as int, p));
                assert(on == scaled_lit(font@, text@, x as int, y as int, scale as int, p));
                assert(!done.contains(p));
            }
            if on {
                put(fb, f, px, py, color);
                proof {
                    assert(lit.contains(p));
                    lemma_paint_union(f, paint(f, fb0, dark.intersect(done), BACKGROUND), lit.intersect(done), set![p], color);
                }
            } else {
                put(fb, f, px, py, BACKGROUND);
                proof {
                    assert(dark.contains(p));
                    lemma_paint_under(f, fb0, dark.intersect(done), lit.intersect(done), p, BACKGROUND, color);
                }
            }
            proof {
                let next = done_region(x as int, y as int, right as int, py as int, px + 1);
                if on {
                    assert(lit.intersect(done).union(set![p]) =~= lit.intersect(next));
                    assert(dark.intersect(done) =~= dark.intersect(next));
                } else {
                    assert(dark.intersect(done).insert(p) =~= dark.intersect(next));
                    assert(lit.intersect(done) =~= lit.intersect(next));
                }
            }
            px += 1;
        }
        proof {
            assert(done_region(x as int, y as int, right as int, py as int, px as int) =~= done_region(
                x as int,
                y as int,
                right as int,
                py + 1,
                x as int,
            ));
        }
        py += 1;
    }
    proof {
        let done = done_region(x as int, y as int, right as int, py as int, x as int);
        assert forall|a: int, b: int| visible(f, a, b) implies (dark.intersect(done).contains((a, b))
            <==> dark.contains((a, b))) by {
            if dark.contains((a, b)) {
                assert(b < bottom_end);
            }
        }
        assert forall|a: int, b: int| visible(f, a, b) implies (lit.intersect(done).contains((a, b))
            <==> lit.contains((a, b))) by {
            if lit.contains((a, b)) {
                assert(b < bottom_end);
            }
        }
        lemma_paint2_visible(f, fb0, dark.intersect(done), dark, lit.intersect(done), lit, BACKGROUND, color);
    }
}

/// Where the clock shows the time on a `width` × `height` screen: the glyph
/// scale (a fortieth of the screen, from 1 to 8) and the top left corner
/// that centres eight characters.
pub open spec fn layout_spec(width: int, height: int) -> (int, int, int) {
    let fit = if width / 80 < height / 32 {
        width / 80
    } else {
        height / 32
    };
    let scale = if fit < 1 {
        1
    } else if fit > 8 {
        8
    } else {
        fit
    };
    let x = if width < 64 * scale {
        0
    } else {
        (width - 64 * scale) / 2
    };
    let y = if height < 8 * scale {
        0
    } else {
        (height - 8 * scale) / 2
    };
    (scale, x, y)
}

pub fn layout(width: usize, height: usize) -> (r: (usize, usize, usize))
    ensures
        (r.0 as int, r.1 as int, r.2 as int) == layout_spec(width as int, height as int),
        1 <= r.0 <= 8,
{
    let wide = width / 80;
    let high = height / 32;
    let fit = if wide < high {
        wide
    } else {
        high
    };
    let scale = if fit < 1 {
        1
    } else if fit > 8 {
        8
    } else {
        fit
    };
    let x = width.saturating_sub(64 * scale) / 2;
    let y = height.saturating_sub(8 * scale) / 2;
    (scale, x, y)
}

/// The clock after a reading of `seconds` (or `RTC_UNAVAILABLE`), given
/// the reading shown before: a valid time of day that differs is drawn and
/// remembered; a failed reading is only remembered when nothing was shown.
pub open spec fn update_spec(previous: Option<usize>, seconds: usize) -> (Option<usize>, bool) {
    if seconds == RTC_UNAVAILABLE || seconds >= 86400 {
        (if previous is None {
            Some(RTC_UNAVAILABLE)
        } else {
            previous
        }, false)
    } else if previous != Some(seconds) {
        (Some(seconds), true)
    } else {
        (previous, false)
    }
}

/// What the clock remembers after a reading, and whether it redraws.
pub fn update(previous: Option<usize>, seconds: usize) -> (r: (Option<usize>, bool))
    ensures
        r == update_spec(previous, seconds),
{
    if seconds == RTC_UNAVAILABLE || seconds >= 86400 {
        if previous.is_none() {
            (Some(RTC_UNAVAILABLE), false)
        } else {
            (previous, false)
        }
    } else {
        let differs = match previous {
            Some(p) => p != seconds,
            None => true,
        };
        if differs {
            (Some(seconds), true)
        } else {
            (previous, false)
        }
    }
}

} // verus!
