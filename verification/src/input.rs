//! Keyboard input as the kernel receives it, and the bounded byte queues of
//! pending input and of program logs.
use vstd::prelude::*;

verus! {

broadcast use vstd::array::group_array_axioms;

/// One key as delivered to the foreground program, to the shell, and
/// whether it sends the foreground program to the background (Ctrl+Z).
#[derive(Clone, Copy, Debug, PartialEq, Eq, Structural)]
pub struct Key {
    pub app: u8,
    pub shell: u8,
    pub background: bool,
}

pub struct Keyboard;

impl Keyboard {
    pub fn new() -> Keyboard {
        Keyboard
    }
}

pub open spec fn shell_byte(byte: u8) -> u8 {
    if byte == 13 {
        10
    } else if byte == 127 {
        8
    } else {
        byte
    }
}

/// The key for a byte received on the serial line: carriage return becomes a
/// newline and DEL a backspace for the shell, and Ctrl+Z (26) backgrounds.
pub fn key_from_serial(byte: u8) -> (r: Key)
    ensures
        r == (Key { app: byte, shell: shell_byte(byte), background: byte == 26 }),
{
    Key {
        app: byte,
        shell: if byte == 13 {
            10
        } else if byte == 127 {
            8
        } else {
            byte
        },
        background: byte == 26,
    }
}

/// A ring of at most `N` bytes; when full, a new byte replaces the oldest.
#[derive(Clone, Copy)]
pub struct Queue<const N: usize> {
    bytes: [u8; N],
    head: usize,
    len: usize,
}

/// The contents after pushing `value`: zero bytes are not queued, and a full
/// queue drops its oldest byte.
pub open spec fn pushed(contents: Seq<u8>, capacity: nat, value: u8) -> Seq<u8> {
    if value == 0 {
        contents
    } else if contents.len() == capacity {
        contents.drop_first().push(value)
    } else {
        contents.push(value)
    }
}

impl<const N: usize> View for Queue<N> {
    /// The queued bytes, oldest first.
    type V = Seq<u8>;

    closed spec fn view(&self) -> Seq<u8> {
        Seq::new(self.len as nat, |i: int| self.bytes@[(self.head + i) % (N as int)])
    }
}

impl<const N: usize> Queue<N> {
    pub closed spec fn wf(&self) -> bool {
        &&& N > 0
        &&& self.head < N
        &&& self.len <= N
    }

    pub fn new() -> (r: Self)
        requires
            N > 0,
        ensures
            r.wf(),
            r@ == Seq::<u8>::empty(),
    {
        let r = Queue { bytes: [0u8; N], head: 0, len: 0 };
        assert(r@ =~= Seq::<u8>::empty());
        r
    }

    /// Queues a byte; zero is ignored, and a full queue forgets its oldest
    /// byte, so the queue always holds the latest bytes.
    pub fn push(&mut self, value: u8)
        requires
            old(self).wf(),
        ensures
            final(self).wf(),
            final(self)@ == pushed(old(self)@, N as nat, value),
            final(self)@.len() <= N,
    {
        if value == 0 {
            return;
        }
        let ghost before = self@;
        if self.len == N {
            self.head = (self.head + 1) % N;
            self.len = self.len - 1;
            assert(self@ =~= before.drop_first()) by {
                assert forall|i: int| 0 <= i < self.len implies #[trigger] self@[i] == before.drop_first()[i] by {
                    lemma_ring_shift(old(self).head as int, i, N as int);
                }
            }
        }
        let ghost middle = self@;
        let at = if self.head >= N - self.len {
            self.head - (N - self.len)
        } else {
            self.head + self.len
        };
        proof {
            if self.head >= N - self.len {
                vstd::arithmetic::div_mod::lemma_mod_sub_multiples_vanish(self.head + self.len, N as int);
                vstd::arithmetic::div_mod::lemma_small_mod(at as nat, N as nat);
            } else {
                vstd::arithmetic::div_mod::lemma_small_mod(at as nat, N as nat);
            }
            assert(at == (self.head + self.len) % (N as int));
        }
        self.bytes[at] = value;
        self.len = self.len + 1;
        assert(self@ =~= middle.push(value)) by {
            assert forall|i: int| 0 <= i < self.len - 1 implies #[trigger] self@[i] == middle[i] by {
                if (self.head + i) % (N as int) == at as int {
                    lemma_mod_distinct(self.head as int, i, self.len - 1, N as int);
                }
            }
        }
    }

    /// Takes the oldest byte.
    pub fn pop(&mut self) -> (r: Option<u8>)
        requires
            old(self).wf(),
        ensures
            final(self).wf(),
            old(self)@.len() == 0 ==> r.is_none() && final(self)@ == old(self)@,
            old(self)@.len() > 0 ==> r == Some(old(self)@[0]) && final(self)@ == old(self)@.drop_first(),
    {
        if self.len == 0 {
            return None;
        }
        let ghost before = self@;
        let value = self.bytes[self.head];
        proof {
            vstd::arithmetic::div_mod::lemma_small_mod(self.head as nat, N as nat);
        }
        self.head = (self.head + 1) % N;
        self.len = self.len - 1;
        assert(self@ =~= before.drop_first()) by {
            assert forall|i: int| 0 <= i < self.len implies #[trigger] self@[i] == before.drop_first()[i] by {
                lemma_ring_shift(old(self).head as int, i, N as int);
            }
        }
        Some(value)
    }

    pub fn clear(&mut self)
        requires
            old(self).wf(),
        ensures
            final(self).wf(),
            final(self)@ == Seq::<u8>::empty(),
    {
        self.head = 0;
        self.len = 0;
        assert(self@ =~= Seq::<u8>::empty());
    }

    pub fn is_empty(&self) -> (r: bool)
        ensures
            r == (self@.len() == 0),
    {
        self.len == 0
    }
}

/// Advancing the head by one shifts every position by one.
proof fn lemma_ring_shift(head: int, i: int, n: int)
    requires
        0 <= head < n,
        0 <= i < n,
    ensures
        ((head + 1) % n + i) % n == (head + (i + 1)) % n,
{
    vstd::arithmetic::div_mod::lemma_add_mod_noop(head + 1, i, n);
    vstd::arithmetic::div_mod::lemma_small_mod(i as nat, n as nat);
    vstd::arithmetic::div_mod::lemma_mod_twice(head + 1, n);
}

/// Two different positions of a ring of size `n` hold different slots.
proof fn lemma_mod_distinct(head: int, i: int, j: int, n: int)
    requires
        0 <= head < n,
        0 <= i < j < n,
    ensures
        (head + i) % n != (head + j) % n,
{
    vstd::arithmetic::div_mod::lemma_fundamental_div_mod(head + i, n);
    vstd::arithmetic::div_mod::lemma_fundamental_div_mod(head + j, n);
    if head + i < n {
        vstd::arithmetic::div_mod::lemma_small_mod((head + i) as nat, n as nat);
        if head + j < n {
            vstd::arithmetic::div_mod::lemma_small_mod((head + j) as nat, n as nat);
        } else {
            vstd::arithmetic::div_mod::lemma_mod_sub_multiples_vanish(head + j, n);
            vstd::arithmetic::div_mod::lemma_small_mod((head + j - n) as nat, n as nat);
        }
    } else {
        vstd::arithmetic::div_mod::lemma_mod_sub_multiples_vanish(head + i, n);
        vstd::arithmetic::div_mod::lemma_small_mod((head + i - n) as nat, n as nat);
        vstd::arithmetic::div_mod::lemma_mod_sub_multiples_vanish(head + j, n);
        vstd::arithmetic::div_mod::lemma_small_mod((head + j - n) as nat, n as nat);
    }
}

/// What a queue gives back is what was put in, oldest first: after pushing
/// non-zero bytes into an empty queue of capacity at least their number, the
/// queue holds exactly those bytes in order.
pub proof fn law_queue_fifo(values: Seq<u8>, capacity: nat)
    requires
        values.len() <= capacity,
        forall|i: int| 0 <= i < values.len() ==> values[i] != 0,
    ensures
        pushed_all(Seq::empty(), capacity, values) == values,
    decreases values.len(),
{
    if values.len() > 0 {
        law_queue_fifo(values.drop_last(), capacity);
        assert(values.drop_last().push(values.last()) =~= values);
    }
}

/// The contents after pushing each of `values` in turn.
pub open spec fn pushed_all(contents: Seq<u8>, capacity: nat, values: Seq<u8>) -> Seq<u8>
    decreases values.len(),
{
    if values.len() == 0 {
        contents
    } else {
        pushed(pushed_all(contents, capacity, values.drop_last()), capacity, values.last())
    }
}

/// A queue never holds more than its capacity, and pushing into a full queue
/// keeps the latest bytes.
pub proof fn law_queue_bounded(contents: Seq<u8>, capacity: nat, value: u8)
    requires
        contents.len() <= capacity,
        capacity > 0,
    ensures
        pushed(contents, capacity, value).len() <= capacity,
        value != 0 ==> pushed(contents, capacity, value).last() == value,
{
}

} // verus!
