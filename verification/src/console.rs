//! The kernel's text console: 8 × 8 glyphs on a framebuffer, 10 pixels per
//! line, with backspace, wrapping at the right edge and scrolling at the
//! bottom. Bytes sent to the serial port alongside are the caller's part.
use vstd::prelude::*;
use vstd::arithmetic::div_mod::{lemma_fundamental_div_mod, lemma_fundamental_div_mod_converse};
use crate::canvas::{Frame, pixel_of};

verus! {

pub struct Console {
    frame: Frame,
    cx: usize,
    cy: usize,
    bg_color: u32,
    fg_color: u32,
}

/// The glyph a byte shows: the font holds the characters from the space to
/// the underscore, and lower-case letters show as capitals. Anything else
/// shows as a space.
pub open spec fn glyph_of(ch: u8) -> int {
    if 32 <= ch <= 95 {
        ch - 32
    } else if 97 <= ch <= 122 {
        ch - 97 + 33
    } else {
        0
    }
}

/// Row `row`, column `col` of an 8 × 8 bitmap, top left in the high bit.
pub open spec fn lit(bitmap: u64, row: int, col: int) -> bool {
    (bitmap >> ((7 - row) * 8 + 7 - col) as u64) & 1 == 1
}

/// The colour of cell pixel `(row, col)`: a glyph's lit pixels in `fg`, all
/// else (and all of an erased cell) in `bg`.
pub open spec fn cell_color(bitmap: u64, erase: bool, row: int, col: int, fg: u32, bg: u32) -> u32 {
    if !erase && lit(bitmap, row, col) {
        fg
    } else {
        bg
    }
}

/// `fb` with the 8 × 8 cell at `(cx, cy)` written, its pixels taken row by
/// row up to row `rows`, column `cols`. Word `(cy + row) * stride + cx +
/// col` holds cell pixel `(row, col)`.
pub open spec fn cell_part(
    f: Frame,
    fb: Seq<u32>,
    cx: int,
    cy: int,
    bitmap: u64,
    erase: bool,
    fg: u32,
    bg: u32,
    rows: int,
    cols: int,
) -> Seq<u32> {
    Seq::new(
        fb.len(),
        |i: int|
            {
                let k = i - (cy * f.stride + cx);
                let row = k / (f.stride as int);
                let col = k % (f.stride as int);
                if 0 <= k && row < 8 && col < 8 && (row < rows || (row == rows && col < cols)) {
                    cell_color(bitmap, erase, row, col, fg, bg)
                } else {
                    fb[i]
                }
            },
    )
}

pub open spec fn cell(f: Frame, fb: Seq<u32>, cx: int, cy: int, bitmap: u64, erase: bool, fg: u32, bg: u32) -> Seq<u32> {
    cell_part(f, fb, cx, cy, bitmap, erase, fg, bg, 8, 0)
}

/// The screen moved up one line, pixel by pixel: each visible pixel above
/// the bottom line takes the one 10 rows below it, then the last 10 rows
/// above the bottom line are cleared to `bg`. Moved are the pixels before
/// `(mx, my)` in row order, cleared those from row `height - 20` before
/// `(cx, cy)`.
pub open spec fn scrolled_part(f: Frame, fb: Seq<u32>, bg: u32, my: int, mx: int, cy: int, cx: int) -> Seq<u32> {
    Seq::new(
        fb.len(),
        |i: int|
            {
                let (x, y) = pixel_of(f, i);
                if x < f.width && (y < my || (y == my && x < mx)) {
                    fb[(y + 10) * f.stride + x]
                } else if x < f.width && f.height - 20 <= y && (y < cy || (y == cy && x < cx)) {
                    bg
                } else {
                    fb[i]
                }
            },
    )
}

pub open spec fn scrolled(f: Frame, fb: Seq<u32>, bg: u32) -> Seq<u32> {
    scrolled_part(f, fb, bg, f.height - 20, 0, f.height - 10, 0)
}

/// A word past the screen's visible pixels, or in the stride's margin,
/// has no pixel of the screen.
proof fn lemma_pixel_split(f: Frame, i: int)
    requires
        f.stride > 0,
        0 <= i,
    ensures
        i == pixel_of(f, i).1 * f.stride + pixel_of(f, i).0,
        0 <= pixel_of(f, i).0 < f.stride,
        0 <= pixel_of(f, i).1,
{
    lemma_fundamental_div_mod(i, f.stride as int);
    assert(f.stride * pixel_of(f, i).1 == pixel_of(f, i).1 * f.stride) by (nonlinear_arith);
}

/// What printing `ch` does to the cursor `(cx, cy)` and the screen `fb`.
pub open spec fn print_spec(
    f: Frame,
    fb: Seq<u32>,
    font: Seq<u64>,
    fg: u32,
    bg: u32,
    cx: int,
    cy: int,
    ch: u8,
) -> (int, int, Seq<u32>) {
    if ch == 13 {
        (cx, cy, fb)
    } else {
        let (cx1, cy1, fb1) = if ch == 10 {
            (0, cy + 10, fb)
        } else if ch == 8 {
            let back = if cx >= 8 {
                cx - 8
            } else {
                cx
            };
            (back, cy, cell(f, fb, back, cy, 0, true, fg, bg))
        } else {
            (cx + 8, cy, cell(f, fb, cx, cy, font[glyph_of(ch)], false, fg, bg))
        };
        let (cx2, cy2) = if cx1 >= f.width {
            (0, cy1 + 10)
        } else {
            (cx1, cy1)
        };
        if cy2 >= f.height - 10 {
            (cx2, cy2 - 10, scrolled(f, fb1, bg))
        } else {
            (cx2, cy2, fb1)
        }
    }
}


/// Printing each byte of `text` in turn from cursor `(cx, cy)`.
pub open spec fn print_all(
    f: Frame,
    fb: Seq<u32>,
    font: Seq<u64>,
    fg: u32,
    bg: u32,
    cx: int,
    cy: int,
    text: Seq<u8>,
) -> (int, int, Seq<u32>)
    decreases text.len(),
{
    if text.len() == 0 {
        (cx, cy, fb)
    } else {
        let (cx1, cy1, fb1) = print_all(f, fb, font, fg, bg, cx, cy, text.drop_last());
        print_spec(f, fb1, font, fg, bg, cx1, cy1, text.last())
    }
}

/// Where word `i` of a buffer lies within the cell at `(cx, cy)`.
proof fn lemma_cell_index(f: Frame, cx: int, cy: int, row: int, col: int)
    requires
        0 <= col < 8 <= f.stride,
        0 <= row,
    ensures
        ({
            let k = (cy + row) * f.stride + cx + col - (cy * f.stride + cx);
            k == row * f.stride + col && k / (f.stride as int) == row && k % (f.stride as int) == col
        }),
{
    assert((cy + row) * f.stride == cy * f.stride + row * f.stride) by (nonlinear_arith);
    lemma_fundamental_div_mod_converse(row * f.stride + col, f.stride as int, row, col);
}

impl Console {
    pub closed spec fn frame(&self) -> Frame {
        self.frame
    }

    /// The cursor: the top left pixel of the next glyph.
    pub closed spec fn cursor(&self) -> (int, int) {
        (self.cx as int, self.cy as int)
    }

    pub closed spec fn colors(&self) -> (u32, u32) {
        (self.fg_color, self.bg_color)
    }

    /// The console fits a buffer of `len` words: at least a pixel wide, with
    /// rows a glyph's width apart or more (a glyph at the right edge stays
    /// in its row), two lines above the scrolled-off line, the cursor on the
    /// screen.
    pub open spec fn wf(&self, len: int) -> bool {
        let f = self.frame();
        &&& 1 <= f.width <= f.stride && 8 <= f.stride
        &&& 20 <= f.height
        &&& f.height * f.stride <= len
        &&& 0 <= self.cursor().0 < f.width
        &&& 0 <= self.cursor().1
        &&& self.cursor().1 + 10 < f.height
    }

    pub fn new(width: usize, height: usize, stride: usize, bg_color: u32, fg_color: u32) -> (r: Self)
        ensures
            r.frame() == (Frame { width, height, stride }),
            r.cursor() == (0int, 0int),
            r.colors() == (fg_color, bg_color),
    {
        Console { frame: Frame { width, height, stride }, cx: 0, cy: 0, bg_color, fg_color }
    }

    /// Writes the 8 × 8 cell at `(cx, cy)`: glyph `bitmap`, or blank.
    fn write_cell(&self, fb: &mut [u32], cx: usize, cy: usize, bitmap: u64, erase: bool)
        requires
            1 <= self.frame().width <= self.frame().stride && 8 <= self.frame().stride,
            self.frame().height * self.frame().stride <= old(fb)@.len(),
            cx < self.frame().width,
            cy + 10 < self.frame().height,
        ensures
            final(fb)@ == cell(self.frame(), old(fb)@, cx as int, cy as int, bitmap, erase, self.colors().0, self.colors().1),
    {
        let f = self.frame;
        let len = fb.len();
        let ghost fg = self.fg_color;
        let ghost bg = self.bg_color;
        proof {
            assert(cell_part(f, fb@, cx as int, cy as int, bitmap, erase, fg, bg, 0, 0) =~= fb@);
        }
        let mut row: usize = 0;
        while row < 8
            invariant
                f == self.frame(),
                fg == self.colors().0,
                bg == self.colors().1,
                1 <= f.width <= f.stride && 8 <= f.stride,
                f.height * f.stride <= fb@.len(),
                fb@.len() == old(fb)@.len(),
                len == fb@.len(),
                cx < f.width,
                cy + 10 < f.height,
                row <= 8,
                fb@ == cell_part(f, old(fb)@, cx as int, cy as int, bitmap, erase, fg, bg, row as int, 0),
            decreases 8 - row,
        {
            let mut col: usize = 0;
            while col < 8
                invariant
                    f == self.frame(),
                    fg == self.colors().0,
                    bg == self.colors().1,
                    1 <= f.width <= f.stride && 8 <= f.stride,
                    f.height * f.stride <= fb@.len(),
                    fb@.len() == old(fb)@.len(),
                    len == fb@.len(),
                    cx < f.width,
                    cy + 10 < f.height,
                    row < 8,
                    col <= 8,
                    fb@ == cell_part(f, old(fb)@, cx as int, cy as int, bitmap, erase, fg, bg, row as int, col as int),
                decreases 8 - col,
            {
                let color = if !erase && (bitmap >> (((7 - row) * 8 + 7 - col) as u64)) & 1 == 1 {
                    self.fg_color
                } else {
                    self.bg_color
                };
                proof {
                    assert((cy + row) * f.stride + cx + col < f.height * f.stride) by (nonlinear_arith)
                        requires
                            cy + row + 1 <= f.height,
                            cx + col < f.stride + 8,
                            8 <= f.stride,
                            row < 8,
                            cy + 10 < f.height,
                    ;
                    assert(0 <= (cy + row) * f.stride) by (nonlinear_arith);
                }
                let at = (cy + row) * f.stride + cx + col;
                fb[at] = color;
                proof {
                    lemma_cell_index(f, cx as int, cy as int, row as int, col as int);
                    let next = cell_part(f, old(fb)@, cx as int, cy as int, bitmap, erase, fg, bg, row as int, col + 1);
                    assert forall|i: int| 0 <= i < fb@.len() implies fb@[i] == next[i] by {
                        let k = i - (cy * f.stride + cx);
                        if i != at && 0 <= k {
                            lemma_fundamental_div_mod(k, f.stride as int);
                            if k / (f.stride as int) == row && k % (f.stride as int) == col {
                                assert(f.stride * (row as int) == (row as int) * f.stride) by (nonlinear_arith);
                                assert(false);
                            }
                        }
                    }
                    assert(fb@ =~= next);
                }
                col += 1;
            }
            proof {
                assert(cell_part(f, old(fb)@, cx as int, cy as int, bitmap, erase, fg, bg, row as int, 8) =~= cell_part(
                    f,
                    old(fb)@,
                    cx as int,
                    cy as int,
                    bitmap,
                    erase,
                    fg,
                    bg,
                    row + 1,
                    0,
                ));
            }
            row += 1;
        }
    }

    /// Writes `value` at visible pixel `(x, y)` of `fb`, whose other words
    /// stay.
    proof fn lemma_put(f: Frame, fb: Seq<u32>, x: int, y: int, value: u32)
        requires
            0 <= x < f.width <= f.stride,
            0 <= y,
            y * f.stride + x < fb.len(),
        ensures
            forall|i: int|
                0 <= i < fb.len() ==> #[trigger] fb.update(y * f.stride + x, value)[i] == if pixel_of(f, i) == (x, y) {
                    value
                } else {
                    fb[i]
                },
    {
        crate::canvas::lemma_pixel_index(f, x, y);
        assert forall|i: int| 0 <= i < fb.len() implies #[trigger] fb.update(y * f.stride + x, value)[i] == if pixel_of(f, i) == (x, y) {
            value
        } else {
            fb[i]
        } by {
            lemma_pixel_split(f, i);
        }
    }

    /// Moves the screen up one line and the cursor with it.
    fn scroll(&mut self, fb: &mut [u32])
        requires
            1 <= old(self).frame().width <= old(self).frame().stride && 8 <= old(self).frame().stride,
            20 <= old(self).frame().height,
            old(self).frame().height * old(self).frame().stride <= old(fb)@.len(),
            old(self).frame().height - 10 <= old(self).cursor().1 < old(self).frame().height,
        ensures
            final(fb)@ == scrolled(old(self).frame(), old(fb)@, old(self).colors().1),
            final(self).frame() == old(self).frame(),
            final(self).colors() == old(self).colors(),
            final(self).cursor() == (old(self).cursor().0, old(self).cursor().1 - 10),
    {
        let f = self.frame;
        let bg = self.bg_color;
        let len = fb.len();
        let limit = f.height - 10;
        let ghost old_fb = fb@;
        let ghost h20 = f.height - 20;
        proof {
            assert(scrolled_part(f, old_fb, bg, 0, 0, h20, 0) =~= old_fb);
        }
        let mut y: usize = 10;
        while y < limit
            invariant
                1 <= f.width <= f.stride && 8 <= f.stride,
                20 <= f.height,
                f.height * f.stride <= len,
                len == fb@.len(),
                old_fb.len() == len,
                limit == f.height - 10,
                h20 == f.height - 20,
                10 <= y <= limit,
                fb@ == scrolled_part(f, old_fb, bg, y - 10, 0, h20, 0),
            decreases limit - y,
        {
            let mut x: usize = 0;
            while x < f.width
                invariant
                    1 <= f.width <= f.stride && 8 <= f.stride,
                    20 <= f.height,
                    f.height * f.stride <= len,
                    len == fb@.len(),
                    old_fb.len() == len,
                    limit == f.height - 10,
                    h20 == f.height - 20,
                    10 <= y < limit,
                    x <= f.width,
                    fb@ == scrolled_part(f, old_fb, bg, y - 10, x as int, h20, 0),
                decreases f.width - x,
            {
                proof {
                    assert(y * f.stride + x < f.height * f.stride) by (nonlinear_arith)
                        requires
                            y < f.height,
                            x < f.width <= f.stride,
                    ;
                    assert((y - 10) * f.stride + x <= y * f.stride + x) by (nonlinear_arith)
                        requires
                            y >= 10,
                    ;
                    assert(0 <= (y - 10) * f.stride) by (nonlinear_arith)
                        requires
                            y >= 10,
                    ;
                }
                let from = y * f.stride + x;
                let to = (y - 10) * f.stride + x;
                let value = fb[from];
                proof {
                    crate::canvas::lemma_pixel_index(f, x as int, y as int);
                    assert(value == old_fb[from as int]);
                }
                fb[to] = value;
                proof {
                    let before = scrolled_part(f, old_fb, bg, y - 10, x as int, h20, 0);
                    let after = scrolled_part(f, old_fb, bg, y - 10, x + 1, h20, 0);
                    Self::lemma_put(f, before, x as int, y - 10, value);
                    assert forall|i: int| 0 <= i < len implies fb@[i] == after[i] by {
                        lemma_pixel_split(f, i);
                        assert(before.update(to as int, value)[i] == fb@[i]);
                    }
                    assert(fb@ =~= after);
                }
                x += 1;
            }
            proof {
                assert(scrolled_part(f, old_fb, bg, y - 10, f.width as int, h20, 0) =~= scrolled_part(
                    f,
                    old_fb,
                    bg,
                    y - 9,
                    0,
                    h20,
                    0,
                ));
            }
            y += 1;
        }
        let mut y: usize = limit - 10;
        while y < limit
            invariant
                1 <= f.width <= f.stride && 8 <= f.stride,
                20 <= f.height,
                f.height * f.stride <= len,
                len == fb@.len(),
                old_fb.len() == len,
                limit == f.height - 10,
                h20 == f.height - 20,
                h20 <= y <= limit,
                fb@ == scrolled_part(f, old_fb, bg, h20, 0, y as int, 0),
            decreases limit - y,
        {
            let mut x: usize = 0;
            while x < f.width
                invariant
                    1 <= f.width <= f.stride && 8 <= f.stride,
                    20 <= f.height,
                    f.height * f.stride <= len,
                    len == fb@.len(),
                    old_fb.len() == len,
                    limit == f.height - 10,
                    h20 == f.height - 20,
                    h20 <= y < limit,
                    x <= f.width,
                    fb@ == scrolled_part(f, old_fb, bg, h20, 0, y as int, x as int),
                decreases f.width - x,
            {
                proof {
                    assert(y * f.stride + x < f.height * f.stride) by (nonlinear_arith)
                        requires
                            y < f.height,
                            x < f.width <= f.stride,
                    ;
                    assert(0 <= y * f.stride) by (nonlinear_arith);
                }
                let at = y * f.stride + x;
                fb[at] = bg;
                proof {
                    let before = scrolled_part(f, old_fb, bg, h20, 0, y as int, x as int);
                    let after = scrolled_part(f, old_fb, bg, h20, 0, y as int, x + 1);
                    Self::lemma_put(f, before, x as int, y as int, bg);
                    assert forall|i: int| 0 <= i < len implies fb@[i] == after[i] by {
                        lemma_pixel_split(f, i);
                        assert(before.update(at as int, bg)[i] == fb@[i]);
                    }
                    assert(fb@ =~= after);
                }
                x += 1;
            }
            proof {
                assert(scrolled_part(f, old_fb, bg, h20, 0, y as int, f.width as int) =~= scrolled_part(
                    f,
                    old_fb,
                    bg,
                    h20,
                    0,
                    y + 1,
                    0,
                ));
            }
            y += 1;
        }
        self.cy = self.cy - 10;
    }

    /// Shows `ch`: a newline moves to the next line, a backspace erases the
    /// glyph before the cursor, a carriage return does nothing, anything
    /// else is drawn and the cursor moves on, wrapping at the right edge.
    /// Reaching the bottom line scrolls the screen.
    pub fn print_char(&mut self, fb: &mut [u32], font: &[u64; 64], ch: u8)
        requires
            old(self).wf(old(fb)@.len() as int),
        ensures
            final(self).wf(final(fb)@.len() as int),
            final(fb)@.len() == old(fb)@.len(),
            final(self).frame() == old(self).frame(),
            final(self).colors() == old(self).colors(),
            (final(self).cursor().0, final(self).cursor().1, final(fb)@) == print_spec(
                old(self).frame(),
                old(fb)@,
                font@,
                old(self).colors().0,
                old(self).colors().1,
                old(self).cursor().0,
                old(self).cursor().1,
                ch,
            ),
    {
        if ch == 13 {
            return;
        }
        let len = fb.len();
        proof {
            let f = self.frame;
            assert(f.stride + 8 <= f.height * f.stride) by (nonlinear_arith)
                requires
                    f.height >= 20,
                    f.stride >= 8,
            ;
            assert(f.height * f.stride <= len);
        }
        if ch == 10 {
            self.cx = 0;
            self.cy = self.cy + 10;
        } else if ch == 8 {
            if self.cx >= 8 {
                self.cx = self.cx - 8;
            }
            self.write_cell(fb, self.cx, self.cy, 0, true);
        } else {
            let index = if ch >= 32 && ch <= 95 {
                (ch - 32) as usize
            } else if ch >= 97 && ch <= 122 {
                (ch - 97 + 33) as usize
            } else {
                0
            };
            let bitmap = font[index];
            self.write_cell(fb, self.cx, self.cy, bitmap, false);
            self.cx = self.cx + 8;
        }
        if self.cx >= self.frame.width {
            self.cx = 0;
            self.cy = self.cy + 10;
        }
        if self.cy >= self.frame.height - 10 {
            self.scroll(fb);
        }
    }

    /// Shows each byte of `text` in turn.
    pub fn print(&mut self, fb: &mut [u32], font: &[u64; 64], text: &[u8])
        requires
            old(self).wf(old(fb)@.len() as int),
        ensures
            final(self).wf(final(fb)@.len() as int),
            final(fb)@.len() == old(fb)@.len(),
            final(self).frame() == old(self).frame(),
            final(self).colors() == old(self).colors(),
            (final(self).cursor().0, final(self).cursor().1, final(fb)@) == print_all(
                old(self).frame(),
                old(fb)@,
                font@,
                old(self).colors().0,
                old(self).colors().1,
                old(self).cursor().0,
                old(self).cursor().1,
                text@,
            ),
    {
        let mut i: usize = 0;
        while i < text.len()
            invariant
                self.wf(fb@.len() as int),
                fb@.len() == old(fb)@.len(),
                self.frame() == old(self).frame(),
                self.colors() == old(self).colors(),
                i <= text@.len(),
                (self.cursor().0, self.cursor().1, fb@) == print_all(
                    old(self).frame(),
                    old(fb)@,
                    font@,
                    old(self).colors().0,
                    old(self).colors().1,
                    old(self).cursor().0,
                    old(self).cursor().1,
                    text@.subrange(0, i as int),
                ),
            decreases text@.len() - i,
        {
            self.print_char(fb, font, text[i]);
            proof {
                assert(text@.subrange(0, i + 1).drop_last() =~= text@.subrange(0, i as int));
            }
            i += 1;
        }
        assert(text@.subrange(0, text@.len() as int) =~= text@);
    }

    /// Clears the screen to the background colour and homes the cursor.
    pub fn clear(&mut self, fb: &mut [u32])
        requires
            old(self).wf(old(fb)@.len() as int),
        ensures
            final(self).wf(final(fb)@.len() as int),
            final(self).frame() == old(self).frame(),
            final(self).colors() == old(self).colors(),
            final(self).cursor() == (0int, 0int),
            final(fb)@ == crate::canvas::paint(
                old(self).frame(),
                old(fb)@,
                crate::canvas::rect_points(0, 0, old(self).frame().width as int, old(self).frame().height as int),
                old(self).colors().1,
            ),
    {
        crate::canvas::fill(fb, self.frame, 0, 0, self.frame.width, self.frame.height, self.bg_color);
        self.cx = 0;
        self.cy = 0;
    }
}

} // verus!
