//! MC146818-compatible CMOS real-time clock: decoding a time sample, and the
//! retry rule that only accepts two identical samples read while no update
//! was in progress. Reading the registers is port I/O; here it is a
//! [`CmosPort`] supplied by the caller, and the choice of what to read next is
//! [`RtcSampler`], a function of the values read so far.
use vstd::prelude::*;

verus! {

pub const SECONDS: u8 = 0x00;
pub const MINUTES: u8 = 0x02;
pub const HOURS: u8 = 0x04;
pub const STATUS_A: u8 = 0x0A;
pub const STATUS_B: u8 = 0x0B;
pub const UPDATE_IN_PROGRESS: u8 = 0x80;
/// Bounded retries keep a missing or stuck RTC from freezing the caller.
pub const ATTEMPTS: usize = 8;

/// A field in binary mode (status B bit 2) or in BCD.
pub open spec fn decode_field(value: u8, mode: u8) -> Option<u8> {
    if mode & 0x04 != 0 {
        Some(value)
    } else if value & 0x0F <= 9 && value >> 4 <= 9 {
        Some(((value >> 4) * 10 + (value & 0x0F)) as u8)
    } else {
        None
    }
}

/// Seconds into the day for (seconds, minutes, hours, status B), or `None`
/// for values no clock shows. In 12-hour mode (status B bit 1 clear) the hour
/// is 1..=12 with bit 7 for PM; 12 AM is midnight.
pub open spec fn decode_spec(seconds: u8, minutes: u8, hours: u8, mode: u8) -> Option<usize> {
    match (decode_field(seconds, mode), decode_field(minutes, mode), decode_field(hours & 0x7F, mode)) {
        (Some(second), Some(minute), Some(raw_hour)) => {
            let twelve_hour = mode & 0x02 == 0;
            if twelve_hour && (raw_hour == 0 || raw_hour > 12) {
                None
            } else if !twelve_hour && hours & 0x80 != 0 {
                None
            } else {
                let hour: int = if twelve_hour {
                    raw_hour % 12 + if hours & 0x80 != 0 {
                        12int
                    } else {
                        0int
                    }
                } else {
                    raw_hour as int
                };
                if second >= 60 || minute >= 60 || hour >= 24 {
                    None
                } else {
                    Some((hour * 3600 + minute * 60 + second) as usize)
                }
            }
        },
        _ => None,
    }
}

fn decode_field_exec(value: u8, mode: u8) -> (r: Option<u8>)
    ensures
        r == decode_field(value, mode),
{
    if mode & 0x04 != 0 {
        Some(value)
    } else if value & 0x0F <= 9 && value >> 4 <= 9 {
        Some((value >> 4) * 10 + (value & 0x0F))
    } else {
        None
    }
}

/// Decodes one sample `[seconds, minutes, hours, status B]`.
pub fn decode_time(sample: [u8; 4]) -> (r: Option<usize>)
    ensures
        r == decode_spec(sample[0], sample[1], sample[2], sample[3]),
        r matches Some(t) ==> t < 86400,
{
    let seconds = sample[0];
    let minutes = sample[1];
    let hours = sample[2];
    let mode = sample[3];
    let second = match decode_field_exec(seconds, mode) {
        Some(v) => v,
        None => return None,
    };
    let minute = match decode_field_exec(minutes, mode) {
        Some(v) => v,
        None => return None,
    };
    let mut hour = match decode_field_exec(hours & 0x7F, mode) {
        Some(v) => v,
        None => return None,
    };
    if mode & 0x02 == 0 {
        if hour == 0 || hour > 12 {
            return None;
        }
        hour = hour % 12 + if hours & 0x80 != 0 {
            12
        } else {
            0
        };
    } else if hours & 0x80 != 0 {
        return None;
    }
    if second >= 60 || minute >= 60 || hour >= 24 {
        return None;
    }
    Some(hour as usize * 3600 + minute as usize * 60 + second as usize)
}

/// The register of the `k`-th read of an attempt: status A, the four time
/// registers, status A, the four again, and status A.
pub open spec fn attempt_register(k: int) -> u8 {
    if k % 5 == 0 {
        STATUS_A
    } else if k % 5 == 1 {
        SECONDS
    } else if k % 5 == 2 {
        MINUTES
    } else if k % 5 == 3 {
        HOURS
    } else {
        STATUS_B
    }
}

pub open spec fn busy(status: u8) -> bool {
    status & UPDATE_IN_PROGRESS != 0
}

#[derive(Clone, Copy, Debug, PartialEq, Eq, Structural)]
pub enum RtcStep {
    /// Read this register next.
    Read(u8),
    /// Sampling is over: a time, or `None` when no attempt succeeded.
    Done(Option<usize>),
}

/// What to do after the values `h` were read, with `attempt` attempts
/// already spent. An attempt restarts as soon as status A shows an update in
/// progress, or when its two samples differ.
pub open spec fn rtc_step(h: Seq<u8>, attempt: nat) -> RtcStep
    decreases h.len(),
{
    if attempt >= ATTEMPTS {
        RtcStep::Done(None)
    } else if h.len() == 0 {
        RtcStep::Read(STATUS_A)
    } else if busy(h[0]) {
        rtc_step(h.skip(1), attempt + 1)
    } else if h.len() < 6 {
        RtcStep::Read(attempt_register(h.len() as int))
    } else if busy(h[5]) {
        rtc_step(h.skip(6), attempt + 1)
    } else if h.len() < 11 {
        RtcStep::Read(attempt_register(h.len() as int))
    } else if !busy(h[10]) && h.subrange(1, 5) == h.subrange(6, 10) {
        RtcStep::Done(decode_spec(h[6], h[7], h[8], h[9]))
    } else {
        rtc_step(h.skip(11), attempt + 1)
    }
}

/// An attempt whose reads `c` are not over yet.
pub open spec fn in_progress(c: Seq<u8>) -> bool {
    &&& c.len() <= 10
    &&& c.len() >= 1 ==> !busy(c[0])
    &&& c.len() >= 6 ==> !busy(c[5])
}

/// An attempt that ended with two identical samples.
pub open spec fn accepted(c: Seq<u8>) -> bool {
    c.len() == 11 && !busy(c[0]) && !busy(c[5]) && !busy(c[10]) && c.subrange(1, 5) == c.subrange(6, 10)
}

/// The reads of one attempt decide the attempt as soon as they are over.
pub open spec fn attempt_failed(c: Seq<u8>) -> bool {
    ||| c.len() == 1 && busy(c[0])
    ||| c.len() == 6 && !busy(c[0]) && busy(c[5])
    ||| c.len() == 11 && !busy(c[0]) && !busy(c[5]) && !accepted(c)
}

pub struct RtcSampler {
    attempt: usize,
    current: Vec<u8>,
    finished: Ghost<Seq<u8>>,
}

impl View for RtcSampler {
    /// Every value read so far, in order.
    type V = Seq<u8>;

    closed spec fn view(&self) -> Seq<u8> {
        self.finished@ + self.current@
    }
}

proof fn lemma_failed_attempt_step(c: Seq<u8>, x: Seq<u8>, attempt: nat)
    requires
        attempt < ATTEMPTS,
        attempt_failed(c),
    ensures
        rtc_step(c + x, attempt) == rtc_step(x, attempt + 1),
{
    let w = c + x;
    assert(w[0] == c[0]);
    if c.len() == 1 {
        assert(w.skip(1) =~= x);
    } else if c.len() == 6 {
        assert(w[5] == c[5]);
        assert(w.skip(6) =~= x);
    } else {
        assert(w[5] == c[5]);
        assert(w[10] == c[10]);
        assert(w.subrange(1, 5) =~= c.subrange(1, 5));
        assert(w.subrange(6, 10) =~= c.subrange(6, 10));
        assert(w.skip(11) =~= x);
    }
}

impl RtcSampler {
    pub closed spec fn wf(&self) -> bool {
        &&& self.attempt <= ATTEMPTS
        &&& self.attempt == ATTEMPTS ==> self.current@.len() == 0
        &&& self.attempt < ATTEMPTS ==> (in_progress(self.current@) || accepted(self.current@))
        &&& forall|x: Seq<u8>|
            #![trigger rtc_step(self.finished@ + x, 0)]
            rtc_step(self.finished@ + x, 0) == rtc_step(x, self.attempt as nat)
    }

    /// Reads still possible before sampling must end.
    pub closed spec fn remaining(&self) -> nat {
        if self.attempt >= ATTEMPTS {
            0
        } else {
            ((ATTEMPTS - self.attempt) * 11 - self.current@.len()) as nat
        }
    }

    pub fn new() -> (r: Self)
        ensures
            r.wf(),
            r@ == Seq::<u8>::empty(),
    {
        let r = RtcSampler { attempt: 0, current: Vec::new(), finished: Ghost(Seq::empty()) };
        assert forall|x: Seq<u8>| rtc_step(r.finished@ + x, 0) == rtc_step(x, 0) by {
            assert(r.finished@ + x =~= x);
        }
        assert(r@ =~= Seq::<u8>::empty());
        r
    }

    /// What to do after the values read so far.
    pub fn next_step(&self) -> (r: RtcStep)
        requires
            self.wf(),
        ensures
            r == rtc_step(self@, 0),
    {
        proof {
            assert(rtc_step(self.finished@ + self.current@, 0) == rtc_step(self.current@, self.attempt as nat));
        }
        if self.attempt >= ATTEMPTS {
            return RtcStep::Done(None);
        }
        let len = self.current.len();
        if len == 11 {
            let sample = [self.current[6], self.current[7], self.current[8], self.current[9]];
            return RtcStep::Done(decode_time(sample));
        }
        let register = if len % 5 == 0 {
            STATUS_A
        } else if len % 5 == 1 {
            SECONDS
        } else if len % 5 == 2 {
            MINUTES
        } else if len % 5 == 3 {
            HOURS
        } else {
            STATUS_B
        };
        RtcStep::Read(register)
    }

    /// Records the value of the register that `next_step` asked for.
    pub fn feed(&mut self, value: u8)
        requires
            old(self).wf(),
            rtc_step(old(self)@, 0) is Read,
        ensures
            final(self).wf(),
            final(self)@ == old(self)@.push(value),
            final(self).remaining() < old(self).remaining(),
    {
        proof {
            assert(rtc_step(self.finished@ + self.current@, 0) == rtc_step(self.current@, self.attempt as nat));
        }
        let ghost before = self@;
        self.current.push(value);
        let len = self.current.len();
        let failed = (len == 1 && value & UPDATE_IN_PROGRESS != 0)
            || (len == 6 && value & UPDATE_IN_PROGRESS != 0)
            || (len == 11 && (value & UPDATE_IN_PROGRESS != 0 || self.current[1] != self.current[6]
                || self.current[2] != self.current[7] || self.current[3] != self.current[8]
                || self.current[4] != self.current[9]));
        proof {
            assert(self@ =~= before.push(value));
            let c = self.current@;
            if len == 11 && !failed {
                assert(c.subrange(1, 5) =~= c.subrange(6, 10));
            }
            if len == 11 && failed && !(value & UPDATE_IN_PROGRESS != 0) {
                assert(c.subrange(1, 5)[0] == c[1]);
                assert(c.subrange(1, 5)[1] == c[2]);
                assert(c.subrange(1, 5)[2] == c[3]);
                assert(c.subrange(1, 5)[3] == c[4]);
                assert(c.subrange(6, 10)[0] == c[6]);
                assert(c.subrange(6, 10)[1] == c[7]);
                assert(c.subrange(6, 10)[2] == c[8]);
                assert(c.subrange(6, 10)[3] == c[9]);
            }
        }
        if failed {
            let ghost c = self.current@;
            let ghost old_finished = self.finished@;
            let ghost old_attempt = self.attempt as nat;
            proof {
                assert(attempt_failed(c));
                assert forall|x: Seq<u8>|
                    #![trigger rtc_step(old_finished + c + x, 0)]
                    rtc_step(old_finished + c + x, 0) == rtc_step(x, old_attempt + 1) by {
                    assert(old_finished + c + x =~= old_finished + (c + x));
                    assert(rtc_step(old_finished + (c + x), 0) == rtc_step(c + x, old_attempt));
                    lemma_failed_attempt_step(c, x, old_attempt);
                }
            }
            self.finished = Ghost(self.finished@ + self.current@);
            self.current = Vec::new();
            self.attempt = self.attempt + 1;
            proof {
                assert(self@ =~= old_finished + c);
            }
        }
    }
}

/// A CMOS register port: `read` selects a register and returns its value.
pub trait CmosPort {
    fn read(&mut self, register: u8) -> u8;
}

/// Reads the RTC until two identical samples are taken with no update in
/// progress, giving up after eight attempts. It asks the port for the
/// registers `rtc_step` names, so what it returns is what `rtc_step` makes
/// of the values the port gave, some sequence of values: a time of day or
/// `None`.
pub fn read_consistent<P: CmosPort>(port: &mut P) -> (r: Option<usize>)
    ensures
        exists|h: Seq<u8>| rtc_step(h, 0) == RtcStep::Done(r),
        r matches Some(t) ==> t < 86400,
{
    let mut sampler = RtcSampler::new();
    loop
        invariant
            sampler.wf(),
        decreases sampler.remaining(),
    {
        match sampler.next_step() {
            RtcStep::Read(register) => {
                let value = port.read(register);
                sampler.feed(value);
            },
            RtcStep::Done(result) => {
                proof {
                    lemma_done_in_day(sampler@, 0);
                    assert(rtc_step(sampler@, 0) == RtcStep::Done(result));
                }
                return result;
            },
        }
    }
}

/// Whatever sampling returns is a time of day.
pub proof fn lemma_done_in_day(h: Seq<u8>, attempt: nat)
    ensures
        rtc_step(h, attempt) matches RtcStep::Done(Some(t)) ==> t < 86400,
    decreases h.len(),
{
    if attempt >= ATTEMPTS || h.len() == 0 {
    } else if busy(h[0]) {
        lemma_done_in_day(h.skip(1), attempt + 1);
    } else if h.len() < 6 {
    } else if busy(h[5]) {
        lemma_done_in_day(h.skip(6), attempt + 1);
    } else if h.len() < 11 {
    } else if !busy(h[10]) && h.subrange(1, 5) == h.subrange(6, 10) {
        lemma_decode_in_day(h[6], h[7], h[8], h[9]);
    } else {
        lemma_done_in_day(h.skip(11), attempt + 1);
    }
}

pub proof fn lemma_decode_in_day(seconds: u8, minutes: u8, hours: u8, mode: u8)
    ensures
        decode_spec(seconds, minutes, hours, mode) matches Some(t) ==> t < 86400,
{
}

} // verus!
