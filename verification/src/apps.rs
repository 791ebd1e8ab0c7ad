//! Logic of the user programs: decimal formatting, the bouncing square's
//! path, and the PS/2 keyboard driver's scancode translation.
use vstd::prelude::*;

verus! {

/// The decimal digits of `v`, most significant first, without leading zeros.
pub open spec fn digits(v: nat) -> Seq<u8>
    decreases v,
{
    if v < 10 {
        seq![(48 + v) as u8]
    } else {
        digits(v / 10).push((48 + v % 10) as u8)
    }
}

proof fn lemma_digits_len(v: nat)
    ensures
        1 <= digits(v).len(),
        v <= u64::MAX ==> digits(v).len() <= 20,
        v < 10 ==> digits(v).len() == 1,
    decreases v,
{
    if v >= 10 {
        lemma_digits_len(v / 10);
    }
    if v <= u64::MAX {
        lemma_digits_len_bound(v);
    }
}

/// A number below 10^k has at most k digits.
proof fn lemma_digits_below(v: nat, k: nat, p: nat)
    requires
        v < p,
        k >= 1,
        p == pow10(k),
    ensures
        digits(v).len() <= k,
    decreases k,
{
    if v >= 10 {
        assert(k > 1) by {
            if k == 1 {
                assert(pow10(1) == 10 * pow10(0));
            }
        }
        assert(v / 10 < pow10((k - 1) as nat)) by {
            assert(pow10(k) == 10 * pow10((k - 1) as nat));
        }
        lemma_digits_below(v / 10, (k - 1) as nat, pow10((k - 1) as nat));
    }
}

pub open spec fn pow10(k: nat) -> nat
    decreases k,
{
    if k == 0 {
        1
    } else {
        10 * pow10((k - 1) as nat)
    }
}

proof fn lemma_digits_len_bound(v: nat)
    requires
        v <= 0xFFFF_FFFF_FFFF_FFFF,
    ensures
        digits(v).len() <= 20,
{
    reveal_with_fuel(pow10, 21);
    assert(pow10(20) == 100000000000000000000);
    lemma_digits_below(v, 20, pow10(20));
}

/// Writes the decimal digits of `value` at the end of `buffer` and returns
/// where they start.
pub fn decimal(value: usize, buffer: &mut [u8; 20]) -> (start: usize)
    ensures
        start < 20,
        final(buffer)@.skip(start as int) == digits(value as nat),
        final(buffer)@.take(start as int) == old(buffer)@.take(start as int),
{
    decimal_u64(value as u64, buffer)
}

/// `decimal` for a 64-bit value.
pub fn decimal_u64(value: u64, buffer: &mut [u8; 20]) -> (start: usize)
    ensures
        start < 20,
        final(buffer)@.skip(start as int) == digits(value as nat),
        final(buffer)@.take(start as int) == old(buffer)@.take(start as int),
{
    let mut start: usize = 20;
    let mut rest = value;
    proof {
        lemma_digits_len(value as nat);
    }
    loop
        invariant
            start <= 20,
            buffer@.len() == 20,
            rest <= value,
            buffer@.take(start as int) == old(buffer)@.take(start as int),
            start == 20 ==> rest == value,
            start < 20 ==> digits(value as nat) == digits(rest as nat) + buffer@.skip(start as int) && rest > 0,
            digits(rest as nat).len() <= start || start == 20,
            digits(value as nat).len() <= 20,
        decreases rest, start,
    {
        proof {
            lemma_digits_len(rest as nat);
        }
        let ghost tail = buffer@.skip(start as int);
        start = start - 1;
        buffer[start] = 48 + (rest % 10) as u8;
        proof {
            assert(buffer@.take(start as int) =~= old(buffer)@.take(start as int));
            assert(buffer@.skip(start as int) =~= seq![(48 + rest % 10) as u8] + tail);
        }
        let ghost before = rest;
        rest = rest / 10;
        if rest == 0 {
            proof {
                assert(digits(before as nat) =~= seq![(48 + before % 10) as u8]);
                if start + 1 < 20 {
                    assert(digits(value as nat) =~= buffer@.skip(start as int));
                } else {
                    assert(buffer@.skip(start as int) =~= seq![(48 + before % 10) as u8]);
                }
            }
            return start;
        }
        proof {
            assert(digits(before as nat) =~= digits(rest as nat).push((48 + before % 10) as u8));
            if start + 1 < 20 {
                assert(digits(value as nat) =~= digits(rest as nat) + buffer@.skip(start as int));
            } else {
                assert(digits(value as nat) =~= digits(rest as nat) + buffer@.skip(start as int));
            }
        }
    }
}

/// Writes the decimal digits of `value` at the start of `buf` and returns
/// how many there are.
pub fn usize_to_str(value: usize, buf: &mut [u8]) -> (n: usize)
    requires
        digits(value as nat).len() <= old(buf)@.len(),
    ensures
        n == digits(value as nat).len(),
        final(buf)@.take(n as int) == digits(value as nat),
        final(buf)@.skip(n as int) == old(buf)@.skip(n as int),
{
    let mut scratch: [u8; 20] = [0u8; 20];
    let start = decimal(value, &mut scratch);
    let n = 20 - start;
    let mut i: usize = 0;
    while i < n
        invariant
            start < 20,
            n == 20 - start,
            n == digits(value as nat).len(),
            n <= buf@.len(),
            i <= n,
            scratch@.skip(start as int) == digits(value as nat),
            buf@.len() == old(buf)@.len(),
            forall|k: int| 0 <= k < i ==> buf@[k] == digits(value as nat)[k],
            forall|k: int| i <= k < buf@.len() ==> buf@[k] == old(buf)@[k],
        decreases n - i,
    {
        buf[i] = scratch[start + i];
        i += 1;
    }
    assert(buf@.take(n as int) =~= digits(value as nat));
    assert(buf@.skip(n as int) =~= old(buf)@.skip(n as int));
    n
}

/// The position on a path of length `limit` at `frame`: forward from 0 to
/// `limit`, then back, repeating.
pub open spec fn bounce_spec(frame: int, limit: int) -> int {
    if limit == 0 {
        0
    } else {
        let phase = frame % (limit * 2);
        if phase <= limit {
            phase
        } else {
            limit * 2 - phase
        }
    }
}

pub fn bounce(frame: usize, limit: usize) -> (r: usize)
    requires
        limit * 2 <= usize::MAX,
    ensures
        r == bounce_spec(frame as int, limit as int),
        r <= limit,
{
    if limit == 0 {
        return 0;
    }
    let phase = frame % (limit * 2);
    if phase <= limit {
        phase
    } else {
        limit * 2 - phase
    }
}

pub open spec fn layout_normal() -> Seq<u8> {
    seq![0, 27, 49, 50, 51, 52, 53, 54, 55, 56, 57, 48, 45, 61, 8, 9, 113, 119, 101, 114, 116, 121, 117, 105, 111, 112, 91, 93, 10, 0, 97, 115, 100, 102, 103, 104, 106, 107, 108, 59, 39, 96, 0, 92, 122, 120, 99, 118, 98, 110, 109, 44, 46, 47, 0, 42, 0, 32]
}

pub open spec fn layout_shift() -> Seq<u8> {
    seq![0, 27, 33, 64, 35, 36, 37, 94, 38, 42, 40, 41, 95, 43, 8, 9, 81, 87, 69, 82, 84, 89, 85, 73, 79, 80, 123, 125, 10, 0, 65, 83, 68, 70, 71, 72, 74, 75, 76, 58, 34, 126, 0, 124, 90, 88, 67, 86, 66, 78, 77, 60, 62, 63, 0, 42, 0, 32]
}

fn layout(shift: bool) -> (r: Vec<u8>)
    ensures
        r@ == if shift {
            layout_shift()
        } else {
            layout_normal()
        },
{
    let r = if shift {
        vec![0, 27, 33, 64, 35, 36, 37, 94, 38, 42, 40, 41, 95, 43, 8, 9, 81, 87, 69, 82, 84, 89, 85, 73, 79, 80, 123, 125, 10, 0, 65, 83, 68, 70, 71, 72, 74, 75, 76, 58, 34, 126, 0, 124, 90, 88, 67, 86, 66, 78, 77, 60, 62, 63, 0, 42, 0, 32]
    } else {
        vec![0, 27, 49, 50, 51, 52, 53, 54, 55, 56, 57, 48, 45, 61, 8, 9, 113, 119, 101, 114, 116, 121, 117, 105, 111, 112, 91, 93, 10, 0, 97, 115, 100, 102, 103, 104, 106, 107, 108, 59, 39, 96, 0, 92, 122, 120, 99, 118, 98, 110, 109, 44, 46, 47, 0, 42, 0, 32]
    };
    proof {
        if shift {
            assert(r@ =~= layout_shift());
        } else {
            assert(r@ =~= layout_normal());
        }
    }
    r
}

/// Modifier state of the PS/2 keyboard driver.
pub struct KbdState {
    pub shift: bool,
    pub control: bool,
    pub extended: bool,
}

/// The driver's state after `code` and the (application code, shell
/// character, background request) it reports; (0, 0, false) reports nothing.
pub open spec fn process_spec(st: KbdState, code: u8) -> (KbdState, (u8, u8, bool)) {
    if code == 0xe0 || code == 0xe1 {
        (KbdState { extended: true, ..st }, (0, 0, false))
    } else if code & 0x7f == 0x1d {
        (KbdState { control: code & 0x80 == 0, extended: false, ..st }, (0, 0, false))
    } else if st.extended {
        (KbdState { extended: false, ..st }, (0, 0, false))
    } else if code & 0x7f == 0x2a || code & 0x7f == 0x36 {
        (KbdState { shift: code & 0x80 == 0, ..st }, (0, 0, false))
    } else if code & 0x80 != 0 {
        (st, (0, 0, false))
    } else if st.control && code == 0x2c {
        (st, (0, 0, true))
    } else {
        let table = if st.shift {
            layout_shift()
        } else {
            layout_normal()
        };
        let shell = if (code as int) < table.len() {
            table[code as int]
        } else {
            0u8
        };
        (st, (code, shell, false))
    }
}

impl KbdState {
    pub fn new() -> (r: Self)
        ensures
            !r.shift && !r.control && !r.extended,
    {
        KbdState { shift: false, control: false, extended: false }
    }

    /// Translates one scancode (set 1): tracks Shift, Ctrl and the extended
    /// prefix, ignores releases, reports Ctrl+Z as a background request, and
    /// maps a press to its US-layout character.
    pub fn process(&mut self, code: u8) -> (r: (u8, u8, bool))
        ensures
            (*final(self), r) == process_spec(*old(self), code),
    {
        if code == 0xe0 || code == 0xe1 {
            self.extended = true;
            return (0, 0, false);
        }
        if code & 0x7f == 0x1d {
            self.control = code & 0x80 == 0;
            self.extended = false;
            return (0, 0, false);
        }
        if self.extended {
            self.extended = false;
            return (0, 0, false);
        }
        if code & 0x7f == 0x2a || code & 0x7f == 0x36 {
            self.shift = code & 0x80 == 0;
            return (0, 0, false);
        }
        if code & 0x80 != 0 {
            return (0, 0, false);
        }
        if self.control && code == 0x2c {
            return (0, 0, true);
        }
        let table = layout(self.shift);
        let shell = if (code as usize) < table.len() {
            table[code as usize]
        } else {
            0
        };
        (code, shell, false)
    }
}

/// Whether scan code `code` is a letter key: one the US layout maps to a
/// lower-case letter.
pub open spec fn letter_key(code: u8) -> bool {
    (code as int) < layout_normal().len() && 97 <= layout_normal()[code as int] <= 122
}

proof fn lemma_letters_capitalise()
    ensures
        layout_normal().len() == 58,
        layout_shift().len() == 58,
        forall|c: int|
            0 <= c < 58 && 97 <= #[trigger] layout_normal()[c] <= 122 ==> layout_shift()[c] == layout_normal()[c] - 32,
{
    assert forall|c: int|
        0 <= c < 58 && 97 <= #[trigger] layout_normal()[c] <= 122 implies layout_shift()[c] == layout_normal()[c] - 32 by {
        if c == 0 {
            assert(layout_normal()[0] == 0u8);
        } else if c == 1 {
            assert(layout_normal()[1] == 27u8);
        } else if c == 2 {
            assert(layout_normal()[2] == 49u8);
        } else if c == 3 {
            assert(layout_normal()[3] == 50u8);
        } else if c == 4 {
            assert(layout_normal()[4] == 51u8);
        } else if c == 5 {
            assert(layout_normal()[5] == 52u8);
        } else if c == 6 {
            assert(layout_normal()[6] == 53u8);
        } else if c == 7 {
            assert(layout_normal()[7] == 54u8);
        } else if c == 8 {
            assert(layout_normal()[8] == 55u8);
        } else if c == 9 {
            assert(layout_normal()[9] == 56u8);
        } else if c == 10 {
            assert(layout_normal()[10] == 57u8);
        } else if c == 11 {
            assert(layout_normal()[11] == 48u8);
        } else if c == 12 {
            assert(layout_normal()[12] == 45u8);
        } else if c == 13 {
            assert(layout_normal()[13] == 61u8);
        } else if c == 14 {
            assert(layout_normal()[14] == 8u8);
        } else if c == 15 {
            assert(layout_normal()[15] == 9u8);
        } else if c == 16 {
            assert(layout_normal()[16] == 113u8 && layout_shift()[16] == 81u8);
        } else if c == 17 {
            assert(layout_normal()[17] == 119u8 && layout_shift()[17] == 87u8);
        } else if c == 18 {
            assert(layout_normal()[18] == 101u8 && layout_shift()[18] == 69u8);
        } else if c == 19 {
            assert(layout_normal()[19] == 114u8 && layout_shift()[19] == 82u8);
        } else if c == 20 {
            assert(layout_normal()[20] == 116u8 && layout_shift()[20] == 84u8);
        } else if c == 21 {
            assert(layout_normal()[21] == 121u8 && layout_shift()[21] == 89u8);
        } else if c == 22 {
            assert(layout_normal()[22] == 117u8 && layout_shift()[22] == 85u8);
        } else if c == 23 {
            assert(layout_normal()[23] == 105u8 && layout_shift()[23] == 73u8);
        } else if c == 24 {
            assert(layout_normal()[24] == 111u8 && layout_shift()[24] == 79u8);
        } else if c == 25 {
            assert(layout_normal()[25] == 112u8 && layout_shift()[25] == 80u8);
        } else if c == 26 {
            assert(layout_normal()[26] == 91u8);
        } else if c == 27 {
            assert(layout_normal()[27] == 93u8);
        } else if c == 28 {
            assert(layout_normal()[28] == 10u8);
        } else if c == 29 {
            assert(layout_normal()[29] == 0u8);
        } else if c == 30 {
            assert(layout_normal()[30] == 97u8 && layout_shift()[30] == 65u8);
        } else if c == 31 {
            assert(layout_normal()[31] == 115u8 && layout_shift()[31] == 83u8);
        } else if c == 32 {
            assert(layout_normal()[32] == 100u8 && layout_shift()[32] == 68u8);
        } else if c == 33 {
            assert(layout_normal()[33] == 102u8 && layout_shift()[33] == 70u8);
        } else if c == 34 {
            assert(layout_normal()[34] == 103u8 && layout_shift()[34] == 71u8);
        } else if c == 35 {
            assert(layout_normal()[35] == 104u8 && layout_shift()[35] == 72u8);
        } else if c == 36 {
            assert(layout_normal()[36] == 106u8 && layout_shift()[36] == 74u8);
        } else if c == 37 {
            assert(layout_normal()[37] == 107u8 && layout_shift()[37] == 75u8);
        } else if c == 38 {
            assert(layout_normal()[38] == 108u8 && layout_shift()[38] == 76u8);
        } else if c == 39 {
            assert(layout_normal()[39] == 59u8);
        } else if c == 40 {
            assert(layout_normal()[40] == 39u8);
        } else if c == 41 {
            assert(layout_normal()[41] == 96u8);
        } else if c == 42 {
            assert(layout_normal()[42] == 0u8);
        } else if c == 43 {
            assert(layout_normal()[43] == 92u8);
        } else if c == 44 {
            assert(layout_normal()[44] == 122u8 && layout_shift()[44] == 90u8);
        } else if c == 45 {
            assert(layout_normal()[45] == 120u8 && layout_shift()[45] == 88u8);
        } else if c == 46 {
            assert(layout_normal()[46] == 99u8 && layout_shift()[46] == 67u8);
        } else if c == 47 {
            assert(layout_normal()[47] == 118u8 && layout_shift()[47] == 86u8);
        } else if c == 48 {
            assert(layout_normal()[48] == 98u8 && layout_shift()[48] == 66u8);
        } else if c == 49 {
            assert(layout_normal()[49] == 110u8 && layout_shift()[49] == 78u8);
        } else if c == 50 {
            assert(layout_normal()[50] == 109u8 && layout_shift()[50] == 77u8);
        } else if c == 51 {
            assert(layout_normal()[51] == 44u8);
        } else if c == 52 {
            assert(layout_normal()[52] == 46u8);
        } else if c == 53 {
            assert(layout_normal()[53] == 47u8);
        } else if c == 54 {
            assert(layout_normal()[54] == 0u8);
        } else if c == 55 {
            assert(layout_normal()[55] == 42u8);
        } else if c == 56 {
            assert(layout_normal()[56] == 0u8);
        } else if c == 57 {
            assert(layout_normal()[57] == 32u8);
        }
    }
}

/// Either Shift key works: pressing the left (0x2a) or the right (0x36)
/// one outside an extended sequence reports nothing and turns Shift on, so a
/// letter key pressed next is reported with its upper-case character;
/// releasing it (the code with bit 7 set) turns Shift off, and the letter is
/// lower case again. Ctrl+Z is left out: it is the background request.
pub proof fn law_shift_capitalises(st: KbdState, shift_key: u8, code: u8)
    requires
        !st.extended,
        shift_key == 0x2a || shift_key == 0x36,
        letter_key(code),
        !(st.control && code == 0x2c),
    ensures
        ({
            let (pressed, quiet) = process_spec(st, shift_key);
            let (after, r) = process_spec(pressed, code);
            &&& quiet == (0u8, 0u8, false)
            &&& pressed.shift
            &&& r == (code, (layout_normal()[code as int] - 32) as u8, false)
        }),
        ({
            let (released, quiet) = process_spec(st, shift_key | 0x80);
            let (after, r) = process_spec(released, code);
            &&& quiet == (0u8, 0u8, false)
            &&& !released.shift
            &&& r == (code, layout_normal()[code as int], false)
        }),
{
    assert((shift_key | 0x80) & 0x7f == shift_key & 0x7f && (shift_key | 0x80) & 0x80 != 0 && shift_key & 0x80 == 0
        && (shift_key | 0x80) != 0xe0 && (shift_key | 0x80) != 0xe1 && (shift_key | 0x80) & 0x7f != 0x1d
        && shift_key & 0x7f != 0x1d && shift_key & 0x7f == shift_key) by (bit_vector)
        requires
            shift_key == 0x2a || shift_key == 0x36,
    ;
    assert(code & 0x7f == code && code & 0x80 == 0) by (bit_vector)
        requires
            code < 58,
    ;
    lemma_letters_capitalise();
    assert(code != 0x2a && code != 0x36 && code != 0x1d && code != 0xe0 && code != 0xe1);
    assert(layout_shift()[code as int] == layout_normal()[code as int] - 32);
}

/// The first demo's square colour at start: turquoise.
pub const APP_THEME: u32 = 0x0000FFFF;

/// The first demo after key `key` (0 for none): a key below 0x80 becomes
/// the last key seen, space picks red, enter blue, `g` green; Escape (0x01
/// on the PS/2 keyboard, 0x1B on the serial line) ends the program. Other
/// values change nothing.
pub open spec fn app_key_spec(key: u8, theme: u32, last: u8) -> (u32, u8, bool) {
    if key != 0 && key < 0x80 {
        let theme = if key == 0x39 || key == 0x20 {
            0x00FF0000u32
        } else if key == 0x1C || key == 0x0D {
            0x000000FFu32
        } else if key == 0x22 || key == 0x67 {
            0x0000FF00u32
        } else {
            theme
        };
        (theme, key, key == 0x01 || key == 0x1B)
    } else {
        (theme, last, false)
    }
}

/// The colour, last key and whether to exit after `key`.
pub fn app_key(key: u8, theme: u32, last: u8) -> (r: (u32, u8, bool))
    ensures
        r == app_key_spec(key, theme, last),
{
    if key != 0 && key < 0x80 {
        let theme = if key == 0x39 || key == 0x20 {
            0x00FF0000
        } else if key == 0x1C || key == 0x0D {
            0x000000FF
        } else if key == 0x22 || key == 0x67 {
            0x0000FF00
        } else {
            theme
        };
        (theme, key, key == 0x01 || key == 0x1B)
    } else {
        (theme, last, false)
    }
}

/// Time-stamp counts between two frames of the second demo.
pub const FRAME_INTERVAL_TSC: usize = 50_000_000;

/// Whether a frame of the second demo is due at counter `ticks` after the
/// last one at `last`; the counter may wrap.
pub fn frame_due(ticks: usize, last: usize) -> (r: bool)
    ensures
        r == (ticks.wrapping_sub(last) >= FRAME_INTERVAL_TSC),
{
    ticks.wrapping_sub(last) >= FRAME_INTERVAL_TSC
}

/// Where the second demo's square moves on a `width` × `height` screen:
/// its top row (120 down, or the screen's height), its side (64, less where
/// the screen is small) and how far it travels across and down.
pub open spec fn app2_layout_spec(width: int, height: int) -> (int, int, int, int) {
    let top = if height < 120 {
        height
    } else {
        120
    };
    let across = if width < 48 {
        0
    } else {
        width - 48
    };
    let below = if height < top + 24 {
        0
    } else {
        height - (top + 24)
    };
    let size = if across < 64 && across <= below {
        across
    } else if below < 64 {
        below
    } else {
        64
    };
    let travel_x = if width < size + 48 {
        0
    } else {
        width - (size + 48)
    };
    let travel_y = if height < top + size + 24 {
        0
    } else {
        height - (top + size + 24)
    };
    (top, size, travel_x, travel_y)
}

pub fn app2_layout(width: usize, height: usize) -> (r: (usize, usize, usize, usize))
    ensures
        (r.0 as int, r.1 as int, r.2 as int, r.3 as int) == app2_layout_spec(width as int, height as int),
        r.1 <= 64,
{
    let top = if height < 120 {
        height
    } else {
        120
    };
    let across = width.saturating_sub(48);
    let below = height.saturating_sub(top + 24);
    let size = if 64 < across {
        64
    } else {
        across
    };
    let size = if size < below {
        size
    } else {
        below
    };
    let travel_x = width.saturating_sub(size + 48);
    let travel_y = height.saturating_sub(top + size + 24);
    (top, size, travel_x, travel_y)
}

/// The text the ping client leaves in shared memory.
pub open spec fn ping_text() -> Seq<u8> {
    "HELLO FROM PING! ZERO-COPY IPC SUCCESS! COUNT: "@.map_values(|c: char| c as u8)
}

/// The ping client's message for `counter`: its text, the counter's digits
/// and a terminating zero. Returns the length before the zero.
pub fn ping_message(counter: usize, buf: &mut [u8]) -> (n: usize)
    requires
        ping_text().len() + digits(counter as nat).len() < old(buf)@.len(),
    ensures
        n == ping_text().len() + digits(counter as nat).len(),
        final(buf)@.take(n as int + 1) == ping_text() + digits(counter as nat) + seq![0u8],
        final(buf)@.skip(n as int + 1) == old(buf)@.skip(n as int + 1),
{
    let text = "HELLO FROM PING! ZERO-COPY IPC SUCCESS! COUNT: ";
    proof {
        reveal_strlit("HELLO FROM PING! ZERO-COPY IPC SUCCESS! COUNT: ");
        assert(vstd::string::is_ascii(text));
        vstd::string::is_ascii_spec_bytes(text);
    }
    let bytes = text.as_bytes();
    assert(bytes@ =~= ping_text());
    let len = bytes.len();
    let mut i: usize = 0;
    while i < len
        invariant
            len == bytes@.len(),
            bytes@ == ping_text(),
            ping_text().len() + digits(counter as nat).len() < buf@.len(),
            buf@.len() == old(buf)@.len(),
            i <= len,
            forall|k: int| 0 <= k < i ==> buf@[k] == ping_text()[k],
            forall|k: int| i <= k < buf@.len() ==> buf@[k] == old(buf)@[k],
        decreases len - i,
    {
        buf[i] = bytes[i];
        i += 1;
    }
    let mut scratch: [u8; 20] = [0u8; 20];
    let start = decimal(counter, &mut scratch);
    let count = 20 - start;
    let mut j: usize = 0;
    while j < count
        invariant
            len == ping_text().len(),
            start < 20,
            count == 20 - start,
            count == digits(counter as nat).len(),
            scratch@.skip(start as int) == digits(counter as nat),
            len + count < buf@.len(),
            buf@.len() == old(buf)@.len(),
            j <= count,
            forall|k: int| 0 <= k < len ==> buf@[k] == ping_text()[k],
            forall|k: int| 0 <= k < j ==> buf@[len + k] == digits(counter as nat)[k],
            forall|k: int| len + j <= k < buf@.len() ==> buf@[k] == old(buf)@[k],
            len + count < usize::MAX,
        decreases count - j,
    {
        assert(scratch@[start + j as int] == scratch@.skip(start as int)[j as int]);
        buf[len + j] = scratch[start + j];
        j += 1;
    }
    buf[len + count] = 0;
    let n = len + count;
    assert(buf@.take(n as int + 1) =~= ping_text() + digits(counter as nat) + seq![0u8]);
    assert(buf@.skip(n as int + 1) =~= old(buf)@.skip(n as int + 1));
    n
}

} // verus!
