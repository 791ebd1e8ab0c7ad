//! Capabilities and synchronous IPC. A task holds up to 32 capability slots
//! (slot 0 is never handed out); an endpoint capability carries read, write
//! and grant rights. Sending needs write, receiving read, and passing a
//! capability along needs grant; a passed-on endpoint capability keeps at
//! most its rights, masked by what the sender allows.
use vstd::prelude::*;

verus! {

broadcast use vstd::array::group_array_axioms;

pub const CAP_READ: u8 = 1;
pub const CAP_WRITE: u8 = 2;
pub const CAP_GRANT: u8 = 4;
pub const CAP_SLOTS: usize = 32;
pub const ENDPOINTS: usize = 64;
/// The endpoint of the RTC driver, known to every task.
pub const RTC_ENDPOINT: usize = 2;
/// The program index of the RTC driver.
pub const RTC_PROGRAM: usize = 6;

#[derive(Clone, Copy, Debug, PartialEq, Eq, Structural)]
pub enum Capability {
    /// An endpoint and the rights on it.
    Endpoint(usize, u8),
    /// Physical memory: start and size.
    Memory(u64, u64),
    /// One I/O port.
    IOPort(u16),
}

#[derive(Clone, Copy, Debug, PartialEq, Eq, Structural)]
pub enum EpState {
    Unused,
    Idle,
    /// The task in this slot waits to send.
    Sending(usize),
    /// The task in this slot waits to receive.
    Receiving(usize),
}

#[derive(Clone, Copy, Debug, PartialEq, Eq, Structural)]
pub struct Endpoint {
    pub state: EpState,
}

pub type CapSpace = [Option<Capability>; CAP_SLOTS];

/// Result codes returned to user programs.
pub open spec fn code_invalid() -> usize {
    usize::MAX
}

/// Every endpoint capability names an existing endpoint.
pub open spec fn cspace_ok(cs: Seq<Option<Capability>>) -> bool {
    forall|i: int|
        0 <= i < cs.len() ==> match #[trigger] cs[i] {
            Some(Capability::Endpoint(id, _)) => id < ENDPOINTS,
            _ => true,
        }
}

/// The first free slot after slot 0.
pub open spec fn first_free_cap(cs: Seq<Option<Capability>>) -> Option<int> {
    if exists|i: int| 1 <= i < cs.len() && cs[i] is None {
        Some(choose|i: int| 1 <= i < cs.len() && cs[i] is None && forall|j: int| 1 <= j < i ==> cs[j] is Some)
    } else {
        None
    }
}

pub open spec fn first_unused(eps: Seq<Endpoint>) -> Option<int> {
    if exists|i: int| 0 <= i < eps.len() && eps[i].state == EpState::Unused {
        Some(
            choose|i: int|
                0 <= i < eps.len() && eps[i].state == EpState::Unused && forall|j: int|
                    0 <= j < i ==> eps[j].state != EpState::Unused,
        )
    } else {
        None
    }
}

fn free_cap_slot(cs: &CapSpace) -> (r: Option<usize>)
    ensures
        match r {
            Some(i) => first_free_cap(cs@) == Some(i as int) && 1 <= i < CAP_SLOTS,
            None => first_free_cap(cs@) is None,
        },
{
    let mut i: usize = 1;
    while i < CAP_SLOTS
        invariant
            1 <= i <= CAP_SLOTS,
            cs@.len() == CAP_SLOTS,
            forall|j: int| 1 <= j < i ==> cs@[j] is Some,
        decreases CAP_SLOTS - i,
    {
        if cs[i].is_none() {
            proof {
                let c = choose|c: int| 1 <= c < cs@.len() && cs@[c] is None && forall|j: int| 1 <= j < c ==> cs@[j] is Some;
                if c < i {
                } else if c > i {
                    assert(cs@[i as int] is Some);
                }
            }
            return Some(i);
        }
        i += 1;
    }
    None
}

fn unused_endpoint(eps: &Vec<Endpoint>) -> (r: Option<usize>)
    ensures
        match r {
            Some(i) => first_unused(eps@) == Some(i as int) && i < eps@.len(),
            None => first_unused(eps@) is None,
        },
{
    let mut i: usize = 0;
    while i < eps.len()
        invariant
            i <= eps@.len(),
            forall|j: int| 0 <= j < i ==> eps@[j].state != EpState::Unused,
        decreases eps@.len() - i,
    {
        if eps[i].state == EpState::Unused {
            proof {
                let c = choose|c: int|
                    0 <= c < eps@.len() && eps@[c].state == EpState::Unused && forall|j: int|
                        0 <= j < c ==> eps@[j].state != EpState::Unused;
                if c < i {
                } else if c > i {
                    assert(eps@[i as int].state != EpState::Unused);
                }
            }
            return Some(i);
        }
        i += 1;
    }
    None
}

/// The endpoints, the capability slots and the result after a task asks for
/// a new endpoint.
pub open spec fn create_spec(eps: Seq<Endpoint>, cs: Seq<Option<Capability>>) -> (
    Seq<Endpoint>,
    Seq<Option<Capability>>,
    usize,
) {
    match (first_unused(eps), first_free_cap(cs)) {
        (None, _) => (eps, cs, usize::MAX),
        (Some(_), None) => (eps, cs, (usize::MAX - 1) as usize),
        (Some(ep), Some(slot)) => (
            eps.update(ep, Endpoint { state: EpState::Idle }),
            cs.update(slot, Some(Capability::Endpoint(ep as usize, CAP_READ | CAP_WRITE | CAP_GRANT))),
            slot as usize,
        ),
    }
}

/// Creates an endpoint and gives the task a capability with all rights on it
/// in its first free slot. Returns the slot, `usize::MAX` when every endpoint
/// is in use, `usize::MAX - 1` when the task has no free slot (then no
/// endpoint is taken).
pub fn endpoint_create(endpoints: &mut Vec<Endpoint>, cspace: &mut CapSpace) -> (r: usize)
    ensures
        match (first_unused(old(endpoints)@), first_free_cap(old(cspace)@)) {
            (None, _) => r == usize::MAX && final(endpoints)@ == old(endpoints)@ && final(cspace)@ == old(cspace)@,
            (Some(_), None) => r == usize::MAX - 1 && final(endpoints)@ == old(endpoints)@ && final(cspace)@
                == old(cspace)@,
            (Some(ep), Some(slot)) => {
                &&& r == slot
                &&& final(endpoints)@ == old(endpoints)@.update(ep, Endpoint { state: EpState::Idle })
                &&& final(cspace)@ == old(cspace)@.update(
                    slot,
                    Some(Capability::Endpoint(ep as usize, CAP_READ | CAP_WRITE | CAP_GRANT)),
                )
            },
        },
        (final(endpoints)@, final(cspace)@, r) == create_spec(old(endpoints)@, old(cspace)@),
{
    let ep = match unused_endpoint(endpoints) {
        Some(ep) => ep,
        None => return usize::MAX,
    };
    let slot = match free_cap_slot(cspace) {
        Some(s) => s,
        None => return usize::MAX - 1,
    };
    endpoints.set(ep, Endpoint { state: EpState::Idle });
    cspace[slot] = Some(Capability::Endpoint(ep, CAP_READ | CAP_WRITE | CAP_GRANT));
    slot
}

/// Empties slot `index` (never slot 0): 0, or `usize::MAX` for a bad index.
pub fn cap_drop(cspace: &mut CapSpace, index: usize) -> (r: usize)
    ensures
        0 < index < CAP_SLOTS ==> r == 0 && final(cspace)@ == old(cspace)@.update(index as int, None),
        !(0 < index < CAP_SLOTS) ==> r == usize::MAX && final(cspace)@ == old(cspace)@,
{
    if index > 0 && index < CAP_SLOTS {
        cspace[index] = None;
        0
    } else {
        usize::MAX
    }
}

/// `cap` with its endpoint rights masked by `mask`.
pub open spec fn masked(cap: Capability, mask: u8) -> Capability {
    match cap {
        Capability::Endpoint(id, rights) => Capability::Endpoint(id, rights & mask),
        other => other,
    }
}

/// The capability a new task gets from its parent's slot `slot`: an endpoint
/// capability with grant right, restricted to `rights`.
pub open spec fn delegated_spec(cs: Seq<Option<Capability>>, slot: usize, rights: u8) -> Option<Capability> {
    if slot < CAP_SLOTS {
        match cs[slot as int] {
            Some(Capability::Endpoint(id, r)) => if r & CAP_GRANT != 0 {
                Some(Capability::Endpoint(id, r & rights))
            } else {
                None
            },
            _ => None,
        }
    } else {
        None
    }
}

pub fn delegate(cspace: &CapSpace, slot: usize, rights: u8) -> (r: Option<Capability>)
    ensures
        r == delegated_spec(cspace@, slot, rights),
{
    if slot < CAP_SLOTS {
        match cspace[slot] {
            Some(Capability::Endpoint(id, r)) => if r & CAP_GRANT != 0 {
                Some(Capability::Endpoint(id, r & rights))
            } else {
                None
            },
            _ => None,
        }
    } else {
        None
    }
}

/// The capability a send over a channel with `channel_rights` passes from
/// slot `index`: only with the grant right on the channel, and never slot 0.
pub open spec fn sent_spec(cs: Seq<Option<Capability>>, channel_rights: u8, index: usize, mask: u8) -> Option<
    Capability,
> {
    if 0 < index < CAP_SLOTS && channel_rights & CAP_GRANT != 0 {
        match cs[index as int] {
            Some(cap) => Some(masked(cap, mask)),
            None => None,
        }
    } else {
        None
    }
}

pub fn transferred(cspace: &CapSpace, channel_rights: u8, index: usize, mask: u8) -> (r: Option<Capability>)
    ensures
        r == sent_spec(cspace@, channel_rights, index, mask),
{
    if index > 0 && index < CAP_SLOTS && channel_rights & CAP_GRANT != 0 {
        match cspace[index] {
            Some(Capability::Endpoint(t, r)) => Some(Capability::Endpoint(t, r & mask)),
            Some(Capability::Memory(p, s)) => Some(Capability::Memory(p, s)),
            Some(Capability::IOPort(p)) => Some(Capability::IOPort(p)),
            None => None,
        }
    } else {
        None
    }
}

/// The capability a receive takes from the sender's slot `index`.
pub open spec fn received_spec(cs: Seq<Option<Capability>>, index: usize, mask: u8) -> Option<Capability> {
    if 0 < index < CAP_SLOTS {
        match cs[index as int] {
            Some(cap) => Some(masked(cap, mask)),
            None => None,
        }
    } else {
        None
    }
}

pub fn received(sender: &CapSpace, index: usize, mask: u8) -> (r: Option<Capability>)
    ensures
        r == received_spec(sender@, index, mask),
{
    if index > 0 && index < CAP_SLOTS {
        match sender[index] {
            Some(Capability::Endpoint(t, r)) => Some(Capability::Endpoint(t, r & mask)),
            Some(Capability::Memory(p, s)) => Some(Capability::Memory(p, s)),
            Some(Capability::IOPort(p)) => Some(Capability::IOPort(p)),
            None => None,
        }
    } else {
        None
    }
}

/// What a send does.
#[derive(Clone, Copy, Debug, PartialEq, Eq, Structural)]
pub enum SendOutcome {
    /// Return this code to the sender.
    Fail(usize),
    /// The receiver in slot `receiver` gets the message and `capability`;
    /// both go on.
    Deliver { receiver: usize, capability: Option<Capability> },
    /// The sender waits on the endpoint.
    Wait,
}

/// What a receive does.
#[derive(Clone, Copy, Debug, PartialEq, Eq, Structural)]
pub enum RecvOutcome {
    Fail(usize),
    /// Take the message of the sender waiting in slot `sender`.
    Take { sender: usize },
    Wait,
}

pub open spec fn send_spec(cs: Seq<Option<Capability>>, eps: Seq<Endpoint>, slot: usize, index: usize, msg: Seq<usize>) -> (
    Seq<Endpoint>,
    SendOutcome,
) {
    if index >= CAP_SLOTS {
        (eps, SendOutcome::Fail(usize::MAX))
    } else {
        match cs[index as int] {
            Some(Capability::Endpoint(ep, rights)) => if rights & CAP_WRITE == 0 {
                (eps, SendOutcome::Fail((usize::MAX - 2) as usize))
            } else {
                let capability = sent_spec(cs, rights, msg[0], msg[1] as u8);
                match eps[ep as int].state {
                    EpState::Receiving(receiver) => (
                        eps.update(ep as int, Endpoint { state: EpState::Idle }),
                        SendOutcome::Deliver { receiver, capability },
                    ),
                    EpState::Idle => (
                        eps.update(ep as int, Endpoint { state: EpState::Sending(slot) }),
                        SendOutcome::Wait,
                    ),
                    _ => (eps, SendOutcome::Fail((usize::MAX - 1) as usize)),
                }
            },
            _ => (eps, SendOutcome::Fail(usize::MAX)),
        }
    }
}

/// Sends the message `msg` from the task in `slot` over its capability in
/// slot `index`. `msg[0]` names a capability slot to pass along and `msg[1]`
/// masks its rights.
pub fn ipc_send(cspace: &CapSpace, endpoints: &mut Vec<Endpoint>, slot: usize, index: usize, msg: &[usize; 4]) -> (r: SendOutcome)
    requires
        cspace_ok(cspace@),
        old(endpoints)@.len() == ENDPOINTS,
    ensures
        (final(endpoints)@, r) == send_spec(cspace@, old(endpoints)@, slot, index, msg@),
{
    if index >= CAP_SLOTS {
        return SendOutcome::Fail(usize::MAX);
    }
    match cspace[index] {
        Some(Capability::Endpoint(ep, rights)) => {
            if rights & CAP_WRITE == 0 {
                return SendOutcome::Fail(usize::MAX - 2);
            }
            proof {
                assert(cspace@[index as int] == Some(Capability::Endpoint(ep, rights)));
            }
            let capability = transferred(cspace, rights, msg[0], msg[1] as u8);
            match endpoints[ep].state {
                EpState::Receiving(receiver) => {
                    endpoints.set(ep, Endpoint { state: EpState::Idle });
                    SendOutcome::Deliver { receiver, capability }
                },
                EpState::Idle => {
                    endpoints.set(ep, Endpoint { state: EpState::Sending(slot) });
                    SendOutcome::Wait
                },
                _ => SendOutcome::Fail(usize::MAX - 1),
            }
        },
        _ => SendOutcome::Fail(usize::MAX),
    }
}

pub open spec fn recv_spec(cs: Seq<Option<Capability>>, eps: Seq<Endpoint>, slot: usize, index: usize) -> (
    Seq<Endpoint>,
    RecvOutcome,
) {
    if index >= CAP_SLOTS {
        (eps, RecvOutcome::Fail(usize::MAX))
    } else {
        match cs[index as int] {
            Some(Capability::Endpoint(ep, rights)) => if rights & CAP_READ == 0 {
                (eps, RecvOutcome::Fail((usize::MAX - 2) as usize))
            } else {
                match eps[ep as int].state {
                    EpState::Sending(sender) => (
                        eps.update(ep as int, Endpoint { state: EpState::Idle }),
                        RecvOutcome::Take { sender },
                    ),
                    EpState::Idle => (
                        eps.update(ep as int, Endpoint { state: EpState::Receiving(slot) }),
                        RecvOutcome::Wait,
                    ),
                    _ => (eps, RecvOutcome::Fail((usize::MAX - 1) as usize)),
                }
            },
            _ => (eps, RecvOutcome::Fail(usize::MAX)),
        }
    }
}

/// Receives for the task in `slot` over its capability in slot `index`.
pub fn ipc_recv(cspace: &CapSpace, endpoints: &mut Vec<Endpoint>, slot: usize, index: usize) -> (r: RecvOutcome)
    requires
        cspace_ok(cspace@),
        old(endpoints)@.len() == ENDPOINTS,
    ensures
        (final(endpoints)@, r) == recv_spec(cspace@, old(endpoints)@, slot, index),
{
    if index >= CAP_SLOTS {
        return RecvOutcome::Fail(usize::MAX);
    }
    match cspace[index] {
        Some(Capability::Endpoint(ep, rights)) => {
            if rights & CAP_READ == 0 {
                return RecvOutcome::Fail(usize::MAX - 2);
            }
            proof {
                assert(cspace@[index as int] == Some(Capability::Endpoint(ep, rights)));
            }
            match endpoints[ep].state {
                EpState::Sending(sender) => {
                    endpoints.set(ep, Endpoint { state: EpState::Idle });
                    RecvOutcome::Take { sender }
                },
                EpState::Idle => {
                    endpoints.set(ep, Endpoint { state: EpState::Receiving(slot) });
                    RecvOutcome::Wait
                },
                _ => RecvOutcome::Fail(usize::MAX - 1),
            }
        },
        _ => RecvOutcome::Fail(usize::MAX),
    }
}

/// Whether the task may use port `port` through slot `index`: `Ok`, or the
/// code `usize::MAX` (bad slot), `usize::MAX - 1` (no port capability) or
/// `usize::MAX - 2` (another port).
pub open spec fn port_spec(cs: Seq<Option<Capability>>, index: usize, port: u16) -> Result<(), usize> {
    if index >= CAP_SLOTS {
        Err(usize::MAX)
    } else {
        match cs[index as int] {
            Some(Capability::IOPort(p)) => if p == port {
                Ok(())
            } else {
                Err((usize::MAX - 2) as usize)
            },
            _ => Err((usize::MAX - 1) as usize),
        }
    }
}

pub fn port_access(cspace: &CapSpace, index: usize, port: u16) -> (r: Result<(), usize>)
    ensures
        r == port_spec(cspace@, index, port),
{
    if index >= CAP_SLOTS {
        return Err(usize::MAX);
    }
    match cspace[index] {
        Some(Capability::IOPort(p)) => if p == port {
            Ok(())
        } else {
            Err(usize::MAX - 2)
        },
        _ => Err(usize::MAX - 1),
    }
}

/// The capability slots and the result after sharing `physical`.
pub open spec fn share_spec(cs: Seq<Option<Capability>>, physical: Option<u64>, size: u64) -> (
    Seq<Option<Capability>>,
    usize,
) {
    match physical {
        None => (cs, (usize::MAX - 2) as usize),
        Some(p) => match first_free_cap(cs) {
            None => (cs, (usize::MAX - 1) as usize),
            Some(slot) => (cs.update(slot, Some(Capability::Memory(p, size))), slot as usize),
        },
    }
}

/// Records a memory capability for `[physical, physical + size)` in the
/// first free slot: the slot, `usize::MAX - 2` when the address is not
/// mapped (`physical` is `None`), `usize::MAX - 1` when no slot is free.
pub fn mem_share(cspace: &mut CapSpace, physical: Option<u64>, size: u64) -> (r: usize)
    ensures
        physical is None ==> r == usize::MAX - 2 && final(cspace)@ == old(cspace)@,
        physical matches Some(p) ==> match first_free_cap(old(cspace)@) {
            None => r == usize::MAX - 1 && final(cspace)@ == old(cspace)@,
            Some(slot) => r == slot && final(cspace)@ == old(cspace)@.update(slot, Some(Capability::Memory(p, size))),
        },
        (final(cspace)@, r) == share_spec(old(cspace)@, physical, size),
{
    match physical {
        None => usize::MAX - 2,
        Some(p) => match free_cap_slot(cspace) {
            None => usize::MAX - 1,
            Some(slot) => {
                cspace[slot] = Some(Capability::Memory(p, size));
                slot
            },
        },
    }
}

/// The memory named by slot `index`, or the code `usize::MAX` (bad slot) or
/// `usize::MAX - 1` (not a memory capability).
pub fn memory_of(cspace: &CapSpace, index: usize) -> (r: Result<(u64, u64), usize>)
    ensures
        index >= CAP_SLOTS ==> r == Err::<(u64, u64), usize>(usize::MAX),
        index < CAP_SLOTS ==> match cspace@[index as int] {
            Some(Capability::Memory(p, s)) => r == Ok::<(u64, u64), usize>((p, s)),
            _ => r == Err::<(u64, u64), usize>((usize::MAX - 1) as usize),
        },
{
    if index >= CAP_SLOTS {
        return Err(usize::MAX);
    }
    match cspace[index] {
        Some(Capability::Memory(p, s)) => Ok((p, s)),
        _ => Err(usize::MAX - 1),
    }
}

/// The sleep for a wait of `milliseconds`: at most a minute, rounded up to
/// the 10 ms tick, at least one tick.
pub open spec fn wait_spec(milliseconds: usize) -> u64 {
    let capped = if milliseconds < 60000 { milliseconds as int } else { 60000 };
    let ticks = (capped + 9) / 10;
    (if ticks < 1 { 1 } else { ticks } * 10) as u64
}

pub fn wait_duration(milliseconds: usize) -> (r: u64)
    ensures
        r == wait_spec(milliseconds),
        10 <= r <= 60000,
        r % 10 == 0,
{
    let capped = if milliseconds < 60000 {
        milliseconds
    } else {
        60000
    };
    let ticks = (capped + 9) / 10;
    let ticks = if ticks < 1 {
        1
    } else {
        ticks
    };
    (ticks as u64) * 10
}

/// The endpoints once the task in `slot` stops waiting on them.
pub open spec fn released_spec(eps: Seq<Endpoint>, slot: usize) -> Seq<Endpoint> {
    Seq::new(
        eps.len(),
        |i: int|
            if eps[i].state == EpState::Sending(slot) || eps[i].state == EpState::Receiving(slot) {
                Endpoint { state: EpState::Idle }
            } else {
                eps[i]
            },
    )
}

/// A task that exits stops waiting on every endpoint.
pub fn release_endpoints(endpoints: &mut Vec<Endpoint>, slot: usize)
    ensures
        final(endpoints)@ == released_spec(old(endpoints)@, slot),
{
    let mut i: usize = 0;
    while i < endpoints.len()
        invariant
            i <= endpoints@.len(),
            endpoints@.len() == old(endpoints)@.len(),
            forall|j: int| 0 <= j < i ==> endpoints@[j] == released_spec(old(endpoints)@, slot)[j],
            forall|j: int| i <= j < endpoints@.len() ==> endpoints@[j] == old(endpoints)@[j],
        decreases endpoints@.len() - i,
    {
        let state = endpoints[i].state;
        if state == EpState::Sending(slot) || state == EpState::Receiving(slot) {
            endpoints.set(i, Endpoint { state: EpState::Idle });
        }
        i += 1;
    }
    assert(endpoints@ =~= released_spec(old(endpoints)@, slot));
}

/// The capabilities a new task starts with. The RTC driver gets its endpoint
/// with all rights and the two CMOS ports (and the endpoint becomes idle);
/// every other task gets `init` in slot 1 and the right to call the RTC in
/// slot 2.
pub open spec fn initial_cspace_spec(program: usize, init: Option<Capability>) -> Seq<Option<Capability>> {
    if program == RTC_PROGRAM {
        Seq::new(CAP_SLOTS as nat, |_i: int| None::<Capability>).update(
            1,
            Some(Capability::Endpoint(RTC_ENDPOINT, CAP_READ | CAP_WRITE | CAP_GRANT)),
        ).update(2, Some(Capability::IOPort(0x70))).update(3, Some(Capability::IOPort(0x71)))
    } else {
        Seq::new(CAP_SLOTS as nat, |_i: int| None::<Capability>).update(1, init).update(
            2,
            Some(Capability::Endpoint(RTC_ENDPOINT, CAP_WRITE | CAP_GRANT)),
        )
    }
}

pub fn initial_cspace(program: usize, init: Option<Capability>, endpoints: &mut Vec<Endpoint>) -> (r: CapSpace)
    requires
        old(endpoints)@.len() == ENDPOINTS,
    ensures
        r@ == initial_cspace_spec(program, init),
        program == RTC_PROGRAM ==> final(endpoints)@ == old(endpoints)@.update(
            RTC_ENDPOINT as int,
            Endpoint { state: EpState::Idle },
        ),
        program != RTC_PROGRAM ==> final(endpoints)@ == old(endpoints)@,
{
    let mut cspace: CapSpace = [None; CAP_SLOTS];
    if program == RTC_PROGRAM {
        endpoints.set(RTC_ENDPOINT, Endpoint { state: EpState::Idle });
        cspace[1] = Some(Capability::Endpoint(RTC_ENDPOINT, CAP_READ | CAP_WRITE | CAP_GRANT));
        cspace[2] = Some(Capability::IOPort(0x70));
        cspace[3] = Some(Capability::IOPort(0x71));
    } else {
        cspace[1] = init;
        cspace[2] = Some(Capability::Endpoint(RTC_ENDPOINT, CAP_WRITE | CAP_GRANT));
    }
    assert(cspace@ =~= initial_cspace_spec(program, init));
    cspace
}

/// The rights of `a` are among those of `b`.
pub open spec fn rights_within(a: u8, b: u8) -> bool {
    a & b == a
}

/// Capabilities are never amplified: whatever a task passes on, by spawning
/// a child or over IPC, is an endpoint capability with no right its source
/// lacks, or the very memory or port capability it held.
pub proof fn law_no_amplification(cs: Seq<Option<Capability>>, index: usize, channel_rights: u8, mask: u8)
    requires
        index < CAP_SLOTS,
        cs.len() == CAP_SLOTS,
    ensures
        sent_spec(cs, channel_rights, index, mask) matches Some(c) ==> cs[index as int] matches Some(source)
            && grants_at_most(c, source),
        received_spec(cs, index, mask) matches Some(c) ==> cs[index as int] matches Some(source) && grants_at_most(
            c,
            source,
        ),
        delegated_spec(cs, index, mask) matches Some(c) ==> cs[index as int] matches Some(source)
            && grants_at_most(c, source),
{
    if let Some(source) = cs[index as int] {
        if let Capability::Endpoint(id, r) = source {
            assert((r & mask) & r == r & mask) by (bit_vector);
        }
    }
}

/// `c` is `source` or the same endpoint with fewer rights.
pub open spec fn grants_at_most(c: Capability, source: Capability) -> bool {
    match (c, source) {
        (Capability::Endpoint(i, r), Capability::Endpoint(j, s)) => i == j && rights_within(r, s),
        _ => c == source,
    }
}

/// A send meeting a waiting receiver hands the message over and leaves the
/// endpoint idle; a send on an idle endpoint makes the sender wait there, and
/// the next receive on it takes the message and leaves it idle again.
pub proof fn law_rendezvous(
    sender_cs: Seq<Option<Capability>>,
    receiver_cs: Seq<Option<Capability>>,
    eps: Seq<Endpoint>,
    sender: usize,
    receiver: usize,
    send_index: usize,
    recv_index: usize,
    msg: Seq<usize>,
    ep: usize,
)
    requires
        eps.len() == ENDPOINTS,
        ep < ENDPOINTS,
        eps[ep as int].state == EpState::Idle,
        send_index < CAP_SLOTS,
        recv_index < CAP_SLOTS,
        sender_cs[send_index as int] matches Some(Capability::Endpoint(e, r)) && e == ep && r & CAP_WRITE != 0,
        receiver_cs[recv_index as int] matches Some(Capability::Endpoint(e, r)) && e == ep && r & CAP_READ != 0,
    ensures
        ({
            let (eps1, out1) = send_spec(sender_cs, eps, sender, send_index, msg);
            let (eps2, out2) = recv_spec(receiver_cs, eps1, receiver, recv_index);
            &&& out1 == SendOutcome::Wait
            &&& out2 == (RecvOutcome::Take { sender })
            &&& eps2 == eps
        }),
        ({
            let (eps1, out1) = recv_spec(receiver_cs, eps, receiver, recv_index);
            let (eps2, out2) = send_spec(sender_cs, eps1, sender, send_index, msg);
            &&& out1 == RecvOutcome::Wait
            &&& (out2 matches SendOutcome::Deliver { receiver: r, .. } && r == receiver)
            &&& eps2 == eps
        }),
{
    let (eps1, out1) = send_spec(sender_cs, eps, sender, send_index, msg);
    assert(recv_spec(receiver_cs, eps1, receiver, recv_index).0 =~= eps);
    let (eps3, out3) = recv_spec(receiver_cs, eps, receiver, recv_index);
    assert(send_spec(sender_cs, eps3, sender, send_index, msg).0 =~= eps);
}

/// An exiting task leaves no endpoint waiting on it.
pub proof fn law_exit_releases(eps: Seq<Endpoint>, slot: usize)
    ensures
        forall|i: int|
            0 <= i < eps.len() ==> released_spec(eps, slot)[i].state != EpState::Sending(slot)
                && released_spec(eps, slot)[i].state != EpState::Receiving(slot),
{
}

} // verus!
