//! The system call dispatcher: what the kernel decides for a request in a
//! task's mailbox, as a change of the scheduler's state and an action that
//! the trap handler performs with the task's memory and the hardware.
use vstd::prelude::*;
use crate::abi::{
    SyscallMailbox, SYSCALL_ALLOC, SYSCALL_CAP_DROP, SYSCALL_ENDPOINT_CREATE, SYSCALL_EXIT, SYSCALL_FREE,
    SYSCALL_IPC_RECV, SYSCALL_IPC_SEND, SYSCALL_MEM_MAP, SYSCALL_MEM_SHARE, SYSCALL_PORT_IN, SYSCALL_PORT_OUT,
    SYSCALL_RTC_TIME, SYSCALL_SPAWN, SYSCALL_UPTIME, SYSCALL_WAIT, RTC_UNAVAILABLE,
};
use crate::ipc::{Capability, RecvOutcome, SendOutcome, CAP_SLOTS, ENDPOINTS};
use crate::input::Key;
use crate::scheduler::{
    deliver_spec, exit_spec, fault_spec, kill_spec, pids_ok, reap_spec, sched_ok, switch_spec, wake_spec, with_task,
    Sched, Scheduler, TaskView, MAX_CPUS, SLOTS,
};
use crate::paging::{range_readable, Space};
use crate::shell::{program_index, program_name_spec, program_spec, same_word, PROGRAM_COUNT};
use crate::scheduler::{echo_of, output_spec};
use crate::task_state::State;

verus! {

/// Reads the processor's time-stamp counter.
pub const SYSCALL_COUNTER: usize = 1;
/// Takes the next key typed at the task, 0 when there is none.
pub const SYSCALL_KEY: usize = 2;
/// Appends bytes of the task's memory to its log.
pub const SYSCALL_LOG: usize = 3;
/// The most bytes one log call copies.
pub const LOG_CHUNK: usize = 4096;
/// The longest program name a spawn call reads.
pub const NAME_CHUNK: usize = 32;

/// What the trap handler does once the dispatcher has decided.
#[derive(Clone, Copy, Debug, PartialEq, Eq, Structural)]
pub enum Action {
    /// Write this result into the caller's mailbox; the caller goes on.
    Reply(usize),
    /// Write this result into the caller's mailbox, then run another task.
    ReplyAndSwitch(usize),
    /// Run another task: the caller waits, sleeps or has exited.
    Switch,
    /// Reply with the time-stamp counter.
    ReadCounter,
    /// Read the CMOS clock (`rtc::read_consistent`) and reply with the
    /// seconds since midnight, `RTC_UNAVAILABLE` when no stable reading
    /// came (`clock_reply`).
    ReadClock,
    /// Append `length` bytes of the caller's memory at `address` to its log,
    /// or reply `usize::MAX` when they are not all readable.
    Log { address: usize, length: usize },
    /// Allocate `size` bytes of the caller's heap; reply with the address, 0
    /// when that fails.
    Allocate(usize),
    /// Free the caller's heap block at `address`; reply 0, or `usize::MAX`
    /// when there is none.
    Free(usize),
    /// Read the program name (`length` bytes at `address`) and start it in
    /// the background holding `grant`.
    Spawn { address: usize, length: usize, grant: Option<Capability> },
    /// Turn the frame behind `address` into a memory capability of `size`
    /// bytes (`Scheduler::share_memory`).
    Share { address: usize, size: usize },
    /// Map `bytes` bytes from the frame `physical` on into the caller's heap.
    MapShared { physical: u64, bytes: u64 },
    /// Read I/O port `port` and reply with the byte.
    PortIn(u16),
    /// Write `value` to I/O port `port` and reply 0.
    PortOut(u16, u8),
    /// Copy the message into the mailbox of the receiver in slot `receiver`
    /// (result 0), hand `capability` over (`Scheduler::deliver_message`) and
    /// reply 0.
    Deliver { receiver: usize, capability: Option<Capability> },
    /// Copy the message of the sender in slot `sender` into the caller's
    /// mailbox, take its capability (`Scheduler::take_message`), write 0 to
    /// the sender's result and reply 0.
    Take { sender: usize },
}

/// The reply to a clock request, from what reading the clock gave: the
/// seconds since midnight, or `RTC_UNAVAILABLE` when it gave none.
pub fn clock_reply(reading: Option<usize>) -> (r: usize)
    ensures
        r == match reading {
            Some(t) => t,
            None => RTC_UNAVAILABLE,
        },
{
    match reading {
        Some(t) => t,
        None => RTC_UNAVAILABLE,
    }
}

/// Whether `bytes` are well-formed UTF-8, as `core::str::from_utf8` decides.
pub uninterp spec fn utf8_valid(bytes: Seq<u8>) -> bool;

/// `core::str::from_utf8` on `bytes`: whether it accepts them, named
/// `utf8_valid`. Bytes below 0x80 alone are ASCII, which its documentation
/// counts as valid UTF-8.
#[verifier::external_body]
fn is_utf8(bytes: &[u8]) -> (r: bool)
    ensures
        r == utf8_valid(bytes@),
        (forall|i: int| 0 <= i < bytes@.len() ==> bytes@[i] < 128) ==> r,
{
    core::str::from_utf8(bytes).is_ok()
}

/// The reply to a spawn request whose name is not UTF-8.
pub const SPAWN_BAD_NAME: usize = usize::MAX - 3;
/// The reply to a spawn request that names no program.
pub const SPAWN_UNKNOWN: usize = usize::MAX - 2;

/// What a spawn request's name asks for, given whether it is UTF-8: the
/// program it names (ignoring ASCII case), or the reply for a name that is
/// not UTF-8 or names no program.
pub fn spawn_choice(name: &[u8], valid: bool) -> (r: Result<usize, usize>)
    ensures
        !valid ==> r == Err::<usize, usize>(SPAWN_BAD_NAME),
        valid ==> r == match program_spec(name@) {
            Some(i) => Ok::<usize, usize>(i),
            None => Err(SPAWN_UNKNOWN),
        },
{
    if !valid {
        return Err(SPAWN_BAD_NAME);
    }
    match program_index(name) {
        Some(i) => Ok(i),
        None => Err(SPAWN_UNKNOWN),
    }
}

/// A name that matches a program is ASCII.
proof fn lemma_program_name_ascii(name: Seq<u8>, i: int)
    requires
        0 <= i < PROGRAM_COUNT,
        same_word(name, program_name_spec(i)),
    ensures
        forall|k: int| 0 <= k < name.len() ==> name[k] < 128,
{
    assert forall|k: int| 0 <= k < name.len() implies name[k] < 128 by {
        assert(program_name_spec(i)[k] < 128);
    }
}

/// What a spawn request's name asks for: the program it names, ignoring
/// ASCII case; otherwise `SPAWN_BAD_NAME` for a name that is not UTF-8 and
/// `SPAWN_UNKNOWN` for one that names no program.
pub fn spawn_target(name: &[u8]) -> (r: Result<usize, usize>)
    ensures
        program_spec(name@) matches Some(i) ==> r == Ok::<usize, usize>(i) && i < PROGRAM_COUNT,
        program_spec(name@) is None ==> r == Err::<usize, usize>(
            if utf8_valid(name@) {
                SPAWN_UNKNOWN
            } else {
                SPAWN_BAD_NAME
            },
        ),
{
    let valid = is_utf8(name);
    proof {
        if program_spec(name@) is Some {
            let i = choose|i: int| 0 <= i < PROGRAM_COUNT && same_word(name@, program_name_spec(i));
            lemma_program_name_ascii(name@, i);
        }
    }
    spawn_choice(name, valid)
}

/// The task in `slot` as its system call finds it: one call more.
pub open spec fn counted(s: Sched, slot: usize) -> Sched {
    let t = s.tasks[slot as int]->0;
    with_task(s, slot, TaskView { calls: (t.calls + 1) as u64, ..t })
}

/// The state after the request of the task that runs on `cpu`, at `now`
/// milliseconds, and what remains to be done.
pub open spec fn syscall_spec(s0: Sched, cpu: usize, request: SyscallMailbox, now: u64) -> (Sched, Action) {
    let slot = s0.current[cpu as int];
    if slot == 0 || s0.tasks[slot as int]->0.state == State::Exited {
        (s0, Action::Switch)
    } else {
        let s = counted(s0, slot);
        let t = s.tasks[slot as int]->0;
        let n = request.syscall_num;
        let a1 = request.arg1;
        let a2 = request.arg2;
        if n == SYSCALL_COUNTER {
            (s, Action::ReadCounter)
        } else if n == SYSCALL_KEY {
            if t.input.len() == 0 {
                (s, Action::Reply(0))
            } else {
                (with_task(s, slot, TaskView { input: t.input.drop_first(), ..t }), Action::Reply(t.input[0] as usize))
            }
        } else if n == SYSCALL_RTC_TIME {
            (s, Action::ReadClock)
        } else if n == SYSCALL_LOG {
            (s, Action::Log { address: a1, length: if a2 < LOG_CHUNK { a2 } else { LOG_CHUNK } })
        } else if n == SYSCALL_UPTIME {
            (s, Action::Reply(now as usize))
        } else if n == SYSCALL_ALLOC {
            (s, Action::Allocate(a1))
        } else if n == SYSCALL_FREE {
            (s, Action::Free(a1))
        } else if n == SYSCALL_WAIT {
            let state = if t.input.len() == 0 {
                State::Sleeping(now.wrapping_add(crate::ipc::wait_spec(a1)))
            } else {
                State::Ready
            };
            (with_task(s, slot, TaskView { state, dirty: true, ..t }), Action::ReplyAndSwitch(now as usize))
        } else if n == SYSCALL_EXIT {
            (exit_spec(s, cpu), Action::Switch)
        } else if n == SYSCALL_ENDPOINT_CREATE {
            let (eps, cs, code) = crate::ipc::create_spec(s.endpoints, t.cspace);
            (Sched { endpoints: eps, ..with_task(s, slot, TaskView { cspace: cs, ..t }) }, Action::Reply(code))
        } else if n == SYSCALL_CAP_DROP {
            if 0 < a1 < CAP_SLOTS {
                (with_task(s, slot, TaskView { cspace: t.cspace.update(a1 as int, None), ..t }), Action::Reply(0))
            } else {
                (s, Action::Reply(usize::MAX))
            }
        } else if n == SYSCALL_SPAWN {
            let grant = crate::ipc::delegated_spec(t.cspace, request.msg@[0], request.msg@[1] as u8);
            (s, Action::Spawn { address: a1, length: if a2 < NAME_CHUNK { a2 } else { NAME_CHUNK }, grant })
        } else if n == SYSCALL_MEM_SHARE {
            (s, Action::Share { address: a1, size: a2 })
        } else if n == SYSCALL_MEM_MAP {
            if a1 >= CAP_SLOTS {
                (s, Action::Reply(usize::MAX))
            } else {
                match t.cspace[a1 as int] {
                    Some(Capability::Memory(p, n)) => (s, Action::MapShared { physical: p, bytes: n }),
                    _ => (s, Action::Reply((usize::MAX - 1) as usize)),
                }
            }
        } else if n == SYSCALL_PORT_IN {
            match crate::ipc::port_spec(t.cspace, a1, a2 as u16) {
                Ok(()) => (s, Action::PortIn(a2 as u16)),
                Err(code) => (s, Action::Reply(code)),
            }
        } else if n == SYSCALL_PORT_OUT {
            match crate::ipc::port_spec(t.cspace, a1, a2 as u16) {
                Ok(()) => (s, Action::PortOut(a2 as u16, request.msg@[0] as u8)),
                Err(code) => (s, Action::Reply(code)),
            }
        } else if n == SYSCALL_IPC_SEND {
            let (eps, out) = crate::ipc::send_spec(t.cspace, s.endpoints, slot, a1, request.msg@);
            let s1 = Sched { endpoints: eps, ..s };
            match out {
                SendOutcome::Fail(code) => (s1, Action::Reply(code)),
                SendOutcome::Deliver { receiver, capability } => (s1, Action::Deliver { receiver, capability }),
                SendOutcome::Wait => (
                    with_task(s1, slot, TaskView { state: State::BlockedIpc, dirty: true, ..t }),
                    Action::Switch,
                ),
            }
        } else if n == SYSCALL_IPC_RECV {
            let (eps, out) = crate::ipc::recv_spec(t.cspace, s.endpoints, slot, a1);
            let s1 = Sched { endpoints: eps, ..s };
            match out {
                RecvOutcome::Fail(code) => (s1, Action::Reply(code)),
                RecvOutcome::Take { sender } => (s1, Action::Take { sender }),
                RecvOutcome::Wait => (
                    with_task(s1, slot, TaskView { state: State::BlockedIpc, dirty: true, ..t }),
                    Action::Switch,
                ),
            }
        } else {
            (s, Action::Reply(usize::MAX))
        }
    }
}

/// Every system call of a live task is counted once: after it the task is
/// still in its slot, under the same pid, with one call more, whatever the
/// call was.
pub proof fn law_calls_counted(s: Sched, cpu: usize, request: SyscallMailbox, now: u64)
    requires
        sched_ok(s),
        cpu < MAX_CPUS,
        s.current[cpu as int] != 0,
        s.tasks[s.current[cpu as int] as int] is Some,
        s.tasks[s.current[cpu as int] as int]->0.state != State::Exited,
    ensures
        ({
            let slot = s.current[cpu as int];
            let t = s.tasks[slot as int]->0;
            let after = syscall_spec(s, cpu, request, now).0.tasks[slot as int];
            &&& after is Some
            &&& after->0.pid == t.pid
            &&& after->0.calls == (t.calls + 1) as u64
        }),
{
}

/// No task of `a` that is still there in `b` has changed processor.
pub open spec fn pinned(a: Sched, b: Sched) -> bool {
    forall|i: int|
        0 <= i < SLOTS && #[trigger] a.tasks[i] is Some && b.tasks[i] is Some ==> b.tasks[i]->0.cpu == a.tasks[i]->0.cpu
}

/// A task stays on the processor it was started on: a switch, a key, a
/// kill, a timer's wake-up, the reaping of finished tasks and every system
/// call leave each task where it was.
pub proof fn law_tasks_stay_pinned(
    s: Sched,
    cpu: usize,
    next: usize,
    key: Key,
    pid: u64,
    now: u64,
    request: SyscallMailbox,
)
    requires
        sched_ok(s),
        cpu < MAX_CPUS,
        next < SLOTS,
    ensures
        pinned(s, switch_spec(s, cpu, next)),
        pinned(s, deliver_spec(s, key)),
        pinned(s, kill_spec(s, pid)),
        pinned(s, wake_spec(s, now)),
        pinned(s, reap_spec(s)),
        pinned(s, syscall_spec(s, cpu, request, now).0),
{
    crate::scheduler::lemma_find_from(s.tasks, pid, 1);
    if let Some(slot) = crate::scheduler::find_from(s.tasks, pid, 1) {
        let s1 = Sched { tasks: s.tasks.update(slot as int, crate::scheduler::with_state(s.tasks[slot as int], State::Exited)), ..s };
        assert(pinned(s, s1));
    }
}

/// Task ids stay unique and below the next id to hand out: no switch, key,
/// kill, wake-up, reaping, fault or system call renames a task or brings
/// back an old id.
pub proof fn law_pids_stay_unique(
    s: Sched,
    cpu: usize,
    next: usize,
    key: Key,
    pid: u64,
    now: u64,
    request: SyscallMailbox,
    vector: u64,
    error: u64,
    rip: u64,
    address: u64,
)
    requires
        sched_ok(s),
        pids_ok(s),
        cpu < MAX_CPUS,
        next < SLOTS,
    ensures
        pids_ok(switch_spec(s, cpu, next)),
        pids_ok(deliver_spec(s, key)),
        pids_ok(kill_spec(s, pid)),
        pids_ok(wake_spec(s, now)),
        pids_ok(reap_spec(s)),
        s.current[cpu as int] != 0 && s.tasks[s.current[cpu as int] as int] is Some ==> pids_ok(
            fault_spec(s, cpu, vector, error, rip, address),
        ),
        s.current[cpu as int] != 0 && s.tasks[s.current[cpu as int] as int] is Some ==> pids_ok(
            syscall_spec(s, cpu, request, now).0,
        ),
{
    crate::scheduler::lemma_find_from(s.tasks, pid, 1);
    if let Some(slot) = crate::scheduler::find_from(s.tasks, pid, 1) {
        let s1 = Sched { tasks: s.tasks.update(slot as int, crate::scheduler::with_state(s.tasks[slot as int], State::Exited)), ..s };
        assert(pids_ok(s1));
    }
}

impl Scheduler {
    /// Decides the system call in `request`, made by the task running on
    /// `cpu` at `now` milliseconds: the scheduler's part is done, the rest
    /// is the returned action. A call from the idle context or from a task
    /// that has already exited only switches.
    pub fn syscall(&mut self, cpu: usize, request: &SyscallMailbox, now: u64) -> (r: Action)
        requires
            old(self).wf(),
            cpu < MAX_CPUS,
            old(self)@.current[cpu as int] != 0 ==> (old(self)@.tasks[old(self)@.current[cpu as int] as int] matches Some(t)
                && (t.state != State::Exited ==> t.calls < u64::MAX)),
        ensures
            final(self).wf(),
            (final(self)@, r) == syscall_spec(old(self)@, cpu, *request, now),
            r matches Action::Deliver { capability: Some(Capability::Endpoint(id, _)), .. } ==> id < ENDPOINTS,
            r matches Action::Spawn { grant: Some(Capability::Endpoint(id, _)), .. } ==> id < ENDPOINTS,
    {
        let ghost s0 = self@;
        proof {
            self.lemma_view_ok();
        }
        let slot = self.current_slot(cpu);
        if slot == 0 || self.state_of(slot) == State::Exited {
            return Action::Switch;
        }
        self.count_call(slot);
        let ghost s = self@;
        assert(s == counted(s0, slot));
        let n = request.syscall_num;
        let a1 = request.arg1;
        let a2 = request.arg2;
        if n == SYSCALL_COUNTER {
            Action::ReadCounter
        } else if n == SYSCALL_KEY {
            let key = self.next_key(slot);
            Action::Reply(key as usize)
        } else if n == SYSCALL_RTC_TIME {
            Action::ReadClock
        } else if n == SYSCALL_LOG {
            Action::Log { address: a1, length: if a2 < LOG_CHUNK { a2 } else { LOG_CHUNK } }
        } else if n == SYSCALL_UPTIME {
            Action::Reply(now as usize)
        } else if n == SYSCALL_ALLOC {
            Action::Allocate(a1)
        } else if n == SYSCALL_FREE {
            Action::Free(a1)
        } else if n == SYSCALL_WAIT {
            self.wait(slot, now, a1);
            Action::ReplyAndSwitch(now as usize)
        } else if n == SYSCALL_EXIT {
            self.exit_current(cpu);
            Action::Switch
        } else if n == SYSCALL_ENDPOINT_CREATE {
            let code = self.create_endpoint(slot);
            Action::Reply(code)
        } else if n == SYSCALL_CAP_DROP {
            let code = self.drop_cap(slot, a1);
            Action::Reply(code)
        } else if n == SYSCALL_SPAWN {
            let grant = self.delegation(slot, request.msg[0], request.msg[1] as u8);
            Action::Spawn { address: a1, length: if a2 < NAME_CHUNK { a2 } else { NAME_CHUNK }, grant }
        } else if n == SYSCALL_MEM_SHARE {
            Action::Share { address: a1, size: a2 }
        } else if n == SYSCALL_MEM_MAP {
            match self.memory_cap(slot, a1) {
                Ok((physical, bytes)) => Action::MapShared { physical, bytes },
                Err(code) => Action::Reply(code),
            }
        } else if n == SYSCALL_PORT_IN {
            match self.port(slot, a1, a2 as u16) {
                Ok(()) => Action::PortIn(a2 as u16),
                Err(code) => Action::Reply(code),
            }
        } else if n == SYSCALL_PORT_OUT {
            match self.port(slot, a1, a2 as u16) {
                Ok(()) => Action::PortOut(a2 as u16, request.msg[0] as u8),
                Err(code) => Action::Reply(code),
            }
        } else if n == SYSCALL_IPC_SEND {
            match self.send(slot, a1, &request.msg) {
                SendOutcome::Fail(code) => Action::Reply(code),
                SendOutcome::Deliver { receiver, capability } => Action::Deliver { receiver, capability },
                SendOutcome::Wait => Action::Switch,
            }
        } else if n == SYSCALL_IPC_RECV {
            match self.receive(slot, a1) {
                RecvOutcome::Fail(code) => Action::Reply(code),
                RecvOutcome::Take { sender } => Action::Take { sender },
                RecvOutcome::Wait => Action::Switch,
            }
        } else {
            Action::Reply(usize::MAX)
        }
    }
}

impl Scheduler {
    /// Carries out a log request (`Action::Log`) of the task in `slot`,
    /// whose address space is `space`: when every byte of `[address,
    /// address + length)` is readable by the task, `bytes` (what the task's
    /// memory holds there) goes to its log and the reply is `length`;
    /// otherwise nothing is logged and the reply is `usize::MAX`. The second
    /// result is what the serial console shows.
    pub fn log_request(&mut self, slot: usize, space: &Space, address: usize, length: usize, bytes: &[u8]) -> (r: (
        usize,
        Vec<u8>,
    ))
        requires
            old(self).wf(),
            1 <= slot < SLOTS,
            old(self)@.tasks[slot as int] is Some,
            space.wf(),
            range_readable(space@, address as int, length as int) ==> bytes@.len() == length,
        ensures
            final(self).wf(),
            range_readable(space@, address as int, length as int) ==> {
                &&& final(self)@ == output_spec(old(self)@, slot, bytes@)
                &&& r.0 == length
                &&& r.1@ == if old(self)@.foreground == slot {
                    echo_of(
                        old(self)@.tasks[slot as int]->0.pid,
                        old(self)@.tasks[slot as int]->0.log_line_start,
                        bytes@,
                        bytes@.len() as int,
                    )
                } else {
                    Seq::empty()
                }
            },
            !range_readable(space@, address as int, length as int) ==> {
                &&& final(self)@ == old(self)@
                &&& r.0 == usize::MAX
                &&& r.1@ == Seq::<u8>::empty()
            },
    {
        if !space.validate_read(address as u64, length as u64) {
            return (usize::MAX, Vec::new());
        }
        let shown = self.output(slot, bytes);
        (length, shown)
    }
}

} // verus!
