//! Drawing in the user programs: 8 × 8 glyphs written straight into the
//! framebuffer (the demo programs), clipped rectangles and text (the second
//! demo), and the first demo's rotating square.
use vstd::prelude::*;
use crate::canvas::{Frame, fits, paint, rect_points, fill, lemma_paint_union, lemma_paint_visible, lemma_paint_empty};
use crate::console::{glyph_of, lit};
use crate::dzen::cycle::div_toward_zero;
use crate::dzen::view::{text_pixels, glyph_index, glyph_part};

verus! {

/// `fb` after the first `k` cells of a glyph (row by row) are drawn at
/// `(px, py)`: each lit pixel written, each dark one left alone. Word
/// `(py + row) * stride + px + col` shows pixel `(row, col)`.
pub open spec fn glyph_written(fb: Seq<u32>, stride: int, px: int, py: int, bitmap: u64, color: u32, k: int) -> Seq<u32>
    decreases k,
{
    if k <= 0 {
        fb
    } else {
        let prev = glyph_written(fb, stride, px, py, bitmap, color, k - 1);
        let row = (k - 1) / 8;
        let col = (k - 1) % 8;
        if lit(bitmap, row, col) {
            prev.update((py + row) * stride + px + col, color)
        } else {
            prev
        }
    }
}

/// `fb` after the first `n` characters of `text` are drawn from `(px, py)`,
/// 8 pixels apart.
pub open spec fn string_written(
    fb: Seq<u32>,
    stride: int,
    px: int,
    py: int,
    font: Seq<u64>,
    text: Seq<u8>,
    color: u32,
    n: int,
) -> Seq<u32>
    decreases n,
{
    if n <= 0 {
        fb
    } else {
        glyph_written(
            string_written(fb, stride, px, py, font, text, color, n - 1),
            stride,
            px + 8 * (n - 1),
            py,
            font[glyph_of(text[n - 1])],
            color,
            64,
        )
    }
}

/// Draws the glyph of `ascii` at `(px, py)`: its lit pixels in `color`.
pub fn draw_char(fb: &mut [u32], stride: usize, px: usize, py: usize, font: &[u64; 64], ascii: u8, color: u32)
    requires
        (py + 7) * stride + px + 8 <= old(fb)@.len(),
        py + 8 <= usize::MAX,
    ensures
        final(fb)@ == glyph_written(old(fb)@, stride as int, px as int, py as int, font@[glyph_of(ascii)], color, 64),
        final(fb)@.len() == old(fb)@.len(),
{
    let index = if ascii >= 32 && ascii <= 95 {
        (ascii - 32) as usize
    } else if ascii >= 97 && ascii <= 122 {
        (ascii - 97 + 33) as usize
    } else {
        0
    };
    let bitmap = font[index];
    let len = fb.len();
    let mut row: usize = 0;
    while row < 8
        invariant
            (py + 7) * stride + px + 8 <= len,
            py + 8 <= usize::MAX,
            len == fb@.len(),
            len == old(fb)@.len(),
            row <= 8,
            bitmap == font@[glyph_of(ascii)],
            fb@ == glyph_written(old(fb)@, stride as int, px as int, py as int, bitmap, color, 8 * row),
        decreases 8 - row,
    {
        let mut col: usize = 0;
        while col < 8
            invariant
                (py + 7) * stride + px + 8 <= len,
                py + 8 <= usize::MAX,
                len == fb@.len(),
                len == old(fb)@.len(),
                row < 8,
                col <= 8,
                fb@ == glyph_written(old(fb)@, stride as int, px as int, py as int, bitmap, color, 8 * row + col),
            decreases 8 - col,
        {
            proof {
                assert((py + row) * stride <= (py + 7) * stride) by (nonlinear_arith)
                    requires
                        row < 8,
                ;
                assert(0 <= (py + row) * stride) by (nonlinear_arith);
                assert((8 * row + col) / 8 == row && (8 * row + col) % 8 == col) by (nonlinear_arith)
                    requires
                        col < 8,
                ;
            }
            if (bitmap >> (((7 - row) * 8 + 7 - col) as u64)) & 1 == 1 {
                fb[(py + row) * stride + px + col] = color;
            }
            col += 1;
        }
        row += 1;
    }
}

/// Draws `text` from `(start_x, start_y)`, one glyph every 8 pixels.
pub fn draw_string(fb: &mut [u32], stride: usize, start_x: usize, start_y: usize, font: &[u64; 64], text: &[u8], color: u32)
    requires
        (start_y + 7) * stride + start_x + 8 * text@.len() <= old(fb)@.len(),
        start_y + 8 <= usize::MAX,
    ensures
        final(fb)@ == string_written(
            old(fb)@,
            stride as int,
            start_x as int,
            start_y as int,
            font@,
            text@,
            color,
            text@.len() as int,
        ),
{
    let mut cx = start_x;
    let len = fb.len();
    proof {
        assert(0 <= (start_y + 7) * stride) by (nonlinear_arith);
    }
    let mut i: usize = 0;
    while i < text.len()
        invariant
            len == fb@.len(),
            0 <= (start_y + 7) * stride,
            (start_y + 7) * stride + start_x + 8 * text@.len() <= fb@.len(),
            start_y + 8 <= usize::MAX,
            fb@.len() == old(fb)@.len(),
            i <= text@.len(),
            cx == start_x + 8 * i,
            fb@ == string_written(old(fb)@, stride as int, start_x as int, start_y as int, font@, text@, color, i as int),
        decreases text@.len() - i,
    {
        draw_char(fb, stride, cx, start_y, font, text[i], color);
        cx += 8;
        i += 1;
    }
}

/// Fills `width` × `height` pixels from `(x, y)`, cut at the screen's edge.
pub fn fill_rect(f: Frame, fb: &mut [u32], x: usize, y: usize, width: usize, height: usize, color: u32)
    requires
        fits(f, old(fb)@.len() as int),
    ensures
        final(fb)@ == paint(f, old(fb)@, rect_points(x as int, y as int, x + width, y + height), color),
{
    let bottom = y.saturating_add(height);
    let bottom = if bottom < f.height {
        bottom
    } else {
        f.height
    };
    let right = x.saturating_add(width);
    let right = if right < f.width {
        right
    } else {
        f.width
    };
    fill(fb, f, x, y, right, bottom, color);
    proof {
        lemma_paint_visible(
            f,
            old(fb)@,
            rect_points(x as int, y as int, right as int, bottom as int),
            rect_points(x as int, y as int, x + width, y + height),
            color,
        );
    }
}

pub open spec fn upper(ch: u8) -> u8 {
    if 97 <= ch <= 122 {
        (ch - 32) as u8
    } else {
        ch
    }
}

/// Draws `text` from `(x, y)` in capitals, cut at the screen's edge.
pub fn draw_text(f: Frame, fb: &mut [u32], font: &[u64; 64], x: usize, y: usize, text: &[u8], color: u32)
    requires
        fits(f, old(fb)@.len() as int),
        x + 8 * text@.len() <= usize::MAX,
        y + 8 <= usize::MAX,
    ensures
        final(fb)@ == paint(f, old(fb)@, text_pixels(font@, text@.map_values(|c: u8| upper(c)), x as int, y as int), color),
{
    let ghost shown = text@.map_values(|c: u8| upper(c));
    proof {
        lemma_paint_empty(f, fb@, color);
        assert(text_pixels(font@, shown.subrange(0, 0), x as int, y as int) =~= Set::empty());
    }
    let mut index: usize = 0;
    while index < text.len()
        invariant
            fits(f, fb@.len() as int),
            fb@.len() == old(fb)@.len(),
            x + 8 * text@.len() <= usize::MAX,
            y + 8 <= usize::MAX,
            index <= text@.len(),
            shown == text@.map_values(|c: u8| upper(c)),
            fb@ == paint(f, old(fb)@, text_pixels(font@, shown.subrange(0, index as int), x as int, y as int), color),
        decreases text@.len() - index,
    {
        let ch = text[index];
        let up = if ch >= 97 && ch <= 122 {
            ch - 32
        } else {
            ch
        };
        let g = if up >= 32 {
            up - 32
        } else {
            0
        };
        let g = if g > 63 {
            63
        } else {
            g
        };
        let glyph = font[g as usize];
        proof {
            assert(up == shown[index as int]);
            assert(g == glyph_index(up));
        }
        let ghost before = text_pixels(font@, shown.subrange(0, index as int), x as int, y as int);
        let mut row: usize = 0;
        while row < 8
            invariant
                fits(f, fb@.len() as int),
                fb@.len() == old(fb)@.len(),
                x + 8 * text@.len() <= usize::MAX,
                y + 8 <= usize::MAX,
                index < text@.len(),
                row <= 8,
                fb@ == paint(f, old(fb)@, before.union(glyph_part(glyph, x + index * 8, y as int, row as int, 0)), color),
            decreases 8 - row,
        {
            let mut col: usize = 0;
            while col < 8
                invariant
                    fits(f, fb@.len() as int),
                    fb@.len() == old(fb)@.len(),
                    x + 8 * text@.len() <= usize::MAX,
                    y + 8 <= usize::MAX,
                    index < text@.len(),
                    row < 8,
                    col <= 8,
                    fb@ == paint(f, old(fb)@, before.union(glyph_part(glyph, x + index * 8, y as int, row as int, col as int)), color),
                decreases 8 - col,
            {
                let ghost part = glyph_part(glyph, x + index * 8, y as int, row as int, col as int);
                let px = x + index * 8 + col;
                let py = y + row;
                if px < f.width && py < f.height && (glyph >> (((7 - row) * 8 + 7 - col) as u64)) & 1 == 1 {
                    crate::canvas::put(fb, f, px, py, color);
                    proof {
                        lemma_paint_union(f, old(fb)@, before.union(part), set![(px as int, py as int)], color);
                        assert(before.union(part).union(set![(px as int, py as int)]) =~= before.union(
                            glyph_part(glyph, x + index * 8, y as int, row as int, col + 1),
                        ));
                    }
                } else {
                    proof {
                        lemma_paint_visible(
                            f,
                            old(fb)@,
                            before.union(part),
                            before.union(glyph_part(glyph, x + index * 8, y as int, row as int, col + 1)),
                            color,
                        );
                    }
                }
                col += 1;
            }
            assert(glyph_part(glyph, x + index * 8, y as int, row as int, 8) =~= glyph_part(
                glyph,
                x + index * 8,
                y as int,
                row + 1,
                0,
            ));
            row += 1;
        }
        proof {
            assert(before.union(glyph_part(glyph, x + index * 8, y as int, 8, 0)) =~= text_pixels(
                font@,
                shown.subrange(0, index + 1),
                x as int,
                y as int,
            )) by {
                assert forall|p: (int, int)| #[trigger] text_pixels(font@, shown.subrange(0, index + 1), x as int, y as int).contains(p)
                    implies before.union(glyph_part(glyph, x + index * 8, y as int, 8, 0)).contains(p) by {
                    let rel = p.0 - x;
                    if rel / 8 == index as int {
                        assert(rel % 8 == rel - 8 * index);
                    }
                }
                assert forall|p: (int, int)| #[trigger] glyph_part(glyph, x + index * 8, y as int, 8, 0).contains(p)
                    implies text_pixels(font@, shown.subrange(0, index + 1), x as int, y as int).contains(p) by {
                    let rel = p.0 - x;
                    assert(rel / 8 == index as int);
                    assert(rel % 8 == rel - 8 * index);
                }
            }
        }
        index += 1;
    }
    assert(shown.subrange(0, text@.len() as int) =~= shown);
}


/// Sine samples every 10 degrees, scale 100.
pub open spec fn sine(i: int) -> int {
    let t = seq![
        0int, 17, 34, 50, 64, 76, 86, 93, 98, 100, 98, 93, 86, 76, 64, 50, 34, 17,
        0, -17, -34, -50, -64, -76, -86, -93, -98, -100, -98, -93, -86, -76, -64, -50, -34, -17,
    ];
    t[i]
}

fn sine_at(i: usize) -> (r: isize)
    requires
        i < 36,
    ensures
        r == sine(i as int),
        -100 <= r <= 100,
{
    let t: [isize; 36] = [
        0, 17, 34, 50, 64, 76, 86, 93, 98, 100, 98, 93, 86, 76, 64, 50, 34, 17,
        0, -17, -34, -50, -64, -76, -86, -93, -98, -100, -98, -93, -86, -76, -64, -50, -34, -17,
    ];
    let r = t[i];
    assert(t@ =~= seq![
        0isize, 17isize, 34isize, 50isize, 64isize, 76isize, 86isize, 93isize, 98isize, 100isize, 98isize,
        93isize, 86isize, 76isize, 64isize, 50isize, 34isize, 17isize, 0isize, -17isize, -34isize, -50isize,
        -64isize, -76isize, -86isize, -93isize, -98isize, -100isize, -98isize, -93isize, -86isize, -76isize,
        -64isize, -50isize, -34isize, -17isize,
    ]);
    r
}

/// Offset `(dx, dy)` from the centre lies in the square of half-side 120
/// turned by the angle whose sine and cosine (scale 100) are `sin`, `cos`,
/// within the 300-pixel window drawn around the centre.
pub open spec fn in_square(dx: int, dy: int, sin: int, cos: int) -> bool {
    let rx = div_toward_zero(dx * cos - dy * sin, 100);
    let ry = div_toward_zero(dx * sin + dy * cos, 100);
    &&& -150 <= dx < 150
    &&& -150 <= dy < 150
    &&& -120 < rx < 120
    &&& -120 < ry < 120
}

/// The square around `(cx, cy)` at turn `step` (10 degrees a step), its
/// rows taken up to row `row`, column `col` of the window.
pub open spec fn square_part(cx: int, cy: int, step: int, row: int, col: int) -> Set<(int, int)> {
    Set::new(
        |p: (int, int)|
            {
                let dx = p.0 - cx;
                let dy = p.1 - cy;
                &&& in_square(dx, dy, sine(step % 36), sine((step % 36 + 9) % 36))
                &&& (dy < row || (dy == row && dx < col))
            },
    )
}

/// The first demo's picture for frame `frame`: the 300-pixel window around
/// the screen's centre cleared to dark grey, and the square, turned 10
/// degrees per frame, drawn in `color`.
pub open spec fn square_spec(f: Frame, fb: Seq<u32>, frame: usize, color: u32) -> Seq<u32> {
    let cx = f.width / 2;
    let cy = f.height / 2;
    paint(
        f,
        paint(f, fb, rect_points(cx - 150, cy - 150, cx + 150, cy + 150), 0x00111111),
        square_part(cx as int, cy as int, frame as int, 150, -150),
        color,
    )
}

pub fn rotating_square(f: Frame, fb: &mut [u32], frame: usize, color: u32)
    requires
        fits(f, old(fb)@.len() as int),
        f.width <= 0x1000_0000,
        f.height <= 0x1000_0000,
    ensures
        final(fb)@ == square_spec(f, old(fb)@, frame, color),
{
    let cx = (f.width / 2) as isize;
    let cy = (f.height / 2) as isize;
    let left = if cx >= 150 {
        (cx - 150) as usize
    } else {
        0
    };
    let top = if cy >= 150 {
        (cy - 150) as usize
    } else {
        0
    };
    fill_rect(f, fb, left, top, (cx + 150) as usize - left, (cy + 150) as usize - top, 0x00111111);
    proof {
        lemma_paint_visible(
            f,
            old(fb)@,
            rect_points(left as int, top as int, cx + 150, cy + 150),
            rect_points(cx - 150, cy - 150, cx + 150, cy + 150),
            0x00111111,
        );
    }
    let ghost fb1 = fb@;
    let step = frame % 36;
    let sin = sine_at(step);
    let cos_index = if step + 9 >= 36 {
        step + 9 - 36
    } else {
        step + 9
    };
    let cos = sine_at(cos_index);
    assert(cos_index == (step + 9) % 36);
    proof {
        assert(square_part(cx as int, cy as int, frame as int, -150, -150) =~= Set::empty());
        lemma_paint_empty(f, fb1, color);
    }
    let mut dy: isize = -150;
    while dy < 150
        invariant
            fits(f, fb@.len() as int),
            fb@.len() == fb1.len(),
            f.width <= 0x1000_0000,
            f.height <= 0x1000_0000,
            cx == f.width / 2,
            cy == f.height / 2,
            -100 <= sin <= 100,
            -100 <= cos <= 100,
            sin == sine((frame % 36) as int),
            cos == sine(((frame % 36 + 9) % 36) as int),
            -150 <= dy <= 150,
            fb@ == paint(f, fb1, square_part(cx as int, cy as int, frame as int, dy as int, -150), color),
        decreases 150 - dy,
    {
        let mut dx: isize = -150;
        while dx < 150
            invariant
                fits(f, fb@.len() as int),
                fb@.len() == fb1.len(),
                f.width <= 0x1000_0000,
                f.height <= 0x1000_0000,
                cx == f.width / 2,
                cy == f.height / 2,
                -100 <= sin <= 100,
                -100 <= cos <= 100,
                sin == sine((frame % 36) as int),
                cos == sine(((frame % 36 + 9) % 36) as int),
                -150 <= dy < 150,
                -150 <= dx <= 150,
                fb@ == paint(f, fb1, square_part(cx as int, cy as int, frame as int, dy as int, dx as int), color),
            decreases 150 - dx,
        {
            let ghost part = square_part(cx as int, cy as int, frame as int, dy as int, dx as int);
            let ghost next = square_part(cx as int, cy as int, frame as int, dy as int, dx + 1);
            let x = cx + dx;
            let y = cy + dy;
            proof {
                assert(-15000 <= dx * cos <= 15000 && -15000 <= dy * sin <= 15000) by (nonlinear_arith)
                    requires
                        -150 <= dx <= 150,
                        -150 <= dy <= 150,
                        -100 <= sin <= 100,
                        -100 <= cos <= 100,
                ;
                assert(-15000 <= dx * sin <= 15000 && -15000 <= dy * cos <= 15000) by (nonlinear_arith)
                    requires
                        -150 <= dx <= 150,
                        -150 <= dy <= 150,
                        -100 <= sin <= 100,
                        -100 <= cos <= 100,
                ;
            }
            let rx = crate::dzen::cycle::div_zero_ward(dx * cos - dy * sin, 100);
            let ry = crate::dzen::cycle::div_zero_ward(dx * sin + dy * cos, 100);
            if x < 0 || y < 0 || x >= f.width as isize || y >= f.height as isize {
                proof {
                    lemma_paint_visible(f, fb1, part, next, color);
                }
            } else if rx > -120 && rx < 120 && ry > -120 && ry < 120 {
                crate::canvas::put(fb, f, x as usize, y as usize, color);
                proof {
                    lemma_paint_union(f, fb1, part, set![(x as int, y as int)], color);
                    assert(part.union(set![(x as int, y as int)]) =~= next);
                }
            } else {
                assert(part =~= next);
            }
            dx += 1;
        }
        assert(square_part(cx as int, cy as int, frame as int, dy as int, 150) =~= square_part(
            cx as int,
            cy as int,
            frame as int,
            dy + 1,
            -150,
        ));
        dy += 1;
    }
    assert(square_part(cx as int, cy as int, frame as int, 150, -150) =~= square_part(
        cx as int,
        cy as int,
        frame as int,
        150,
        -150,
    ));
}

} // verus!
