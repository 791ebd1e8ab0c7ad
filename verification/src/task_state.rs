//! Scheduling state of one task slot and the round-robin choice of the next
//! runnable slot.
use vstd::prelude::*;

verus! {

#[derive(Clone, Copy, Debug, PartialEq, Eq, Structural)]
pub enum State {
    Empty,
    Ready,
    Sleeping(u64),
    BlockedIpc,
    BlockedIrq(u8),
    Exited,
}

/// A sleeper whose deadline is `deadline` is due at `now` when `now` lies in
/// the half of the wrapping clock that starts at the deadline.
pub open spec fn deadline_reached(now: u64, deadline: u64) -> bool {
    now.wrapping_sub(deadline) < 0x8000_0000_0000_0000u64
}

pub open spec fn woken(state: State, now: u64) -> State {
    match state {
        State::Sleeping(deadline) => if deadline_reached(now, deadline) {
            State::Ready
        } else {
            state
        },
        _ => state,
    }
}

impl State {
    /// Wakes a sleeping task whose deadline has passed; every other state is
    /// left as it is.
    pub fn wake(&mut self, now: u64)
        ensures
            *final(self) == woken(*old(self), now),
    {
        if let State::Sleeping(deadline) = *self {
            if now.wrapping_sub(deadline) < 0x8000_0000_0000_0000u64 {
                *self = State::Ready;
            }
        }
    }

    pub fn label(self) -> (r: &'static str)
        ensures
            r == state_label(self),
    {
        match self {
            State::Empty => "EMPTY",
            State::Ready => "READY",
            State::Sleeping(_) => "SLEEPING",
            State::BlockedIpc => "IPC_WAIT",
            State::BlockedIrq(_) => "IRQ_WAIT",
            State::Exited => "EXITED",
        }
    }
}

pub open spec fn state_label(s: State) -> &'static str {
    match s {
        State::Empty => "EMPTY",
        State::Ready => "READY",
        State::Sleeping(_) => "SLEEPING",
        State::BlockedIpc => "IPC_WAIT",
        State::BlockedIrq(_) => "IRQ_WAIT",
        State::Exited => "EXITED",
    }
}

/// The slot reached after `step` steps clockwise from `current`.
pub open spec fn slot_after(len: int, current: int, step: int) -> int {
    (current + step) % len
}

/// The smallest step in `1..=len` after which a ready slot is reached, if any.
pub open spec fn is_first_ready_step(states: Seq<State>, current: int, step: int) -> bool {
    &&& 1 <= step <= states.len()
    &&& states[slot_after(states.len() as int, current, step)] == State::Ready
    &&& forall|k: int|
        1 <= k < step ==> states[#[trigger] slot_after(states.len() as int, current, k)]
            != State::Ready
}

pub open spec fn any_ready(states: Seq<State>) -> bool {
    exists|i: int| 0 <= i < states.len() && states[i] == State::Ready
}

/// Round-robin choice: the first ready slot strictly after `current`
/// (wrapping round, `current` itself last), or slot 0 when none is ready.
pub fn next(states: &[State], current: usize) -> (r: usize)
    requires
        current + states@.len() < usize::MAX,
    ensures
        any_ready(states@) ==> exists|step: int|
            is_first_ready_step(states@, current as int, step) && r == slot_after(
                states@.len() as int,
                current as int,
                step,
            ),
        !any_ready(states@) ==> r == 0,
{
    let len = states.len();
    let mut step: usize = 1;
    while step <= len
        invariant
            1 <= step <= len + 1,
            len == states@.len(),
            current + len < usize::MAX,
            forall|k: int|
                1 <= k < step ==> states@[#[trigger] slot_after(len as int, current as int, k)]
                    != State::Ready,
        decreases len + 1 - step,
    {
        let slot = (current + step) % len;
        if states[slot] == State::Ready {
            proof {
                assert(is_first_ready_step(states@, current as int, step as int));
            }
            return slot;
        }
        step += 1;
    }
    proof {
        if any_ready(states@) {
            let i = choose|i: int| 0 <= i < states@.len() && states@[i] == State::Ready;
            // the step that reaches slot i
            let k = if i > current as int % len as int {
                i - current as int % len as int
            } else {
                i - current as int % len as int + len as int
            };
            assert(1 <= k <= len);
            assert(slot_after(len as int, current as int, k) == i) by {
                vstd::arithmetic::div_mod::lemma_add_mod_noop(current as int, k, len as int);
                vstd::arithmetic::div_mod::lemma_mod_twice(current as int, len as int);
                vstd::arithmetic::div_mod::lemma_add_mod_noop(current as int % len as int, k, len as int);
                vstd::arithmetic::div_mod::lemma_small_mod(i as nat, len as nat);
                vstd::arithmetic::div_mod::lemma_mod_add_multiples_vanish(i, len as int);
            }
            assert(false);
        }
    }
    0
}

} // verus!
