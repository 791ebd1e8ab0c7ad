//! The kernel's task table: up to eight tasks in slots 1 to 8 (slot 0 is the
//! shell), which processor runs which slot, the foreground task that gets
//! the keyboard, the recent faults, and the endpoints that tasks wait on.
//! Address spaces, stacks and screens live beside the table, slot by slot.
use vstd::prelude::*;
use crate::input::{Key, Queue, pushed};
use crate::ipc::{Capability, CapSpace, Endpoint, EpState, ENDPOINTS, cspace_ok, released_spec};
use crate::task_state::{State, woken, any_ready, is_first_ready_step, slot_after, state_label};
use crate::shell::{PROGRAM_COUNT, program_name_spec};

verus! {

broadcast use vstd::array::group_array_axioms;

pub const MAX_TASKS: usize = 8;
pub const SLOTS: usize = 9;
pub const MAX_CPUS: usize = 8;
pub const FAULT_RECORDS: usize = 16;
pub const INPUT_QUEUE: usize = 128;
pub const LOG_QUEUE: usize = 4096;

/// A processor exception that ended a task.
#[derive(Clone, Copy, Debug, PartialEq, Eq, Structural)]
pub struct Fault {
    pub pid: u64,
    pub cpu: usize,
    pub vector: u64,
    pub error: u64,
    pub rip: u64,
    pub address: u64,
}

/// One task's bookkeeping.
#[derive(Clone, Copy)]
pub struct Task {
    pub pid: u64,
    pub program: usize,
    pub state: State,
    pub cpu: usize,
    pub runs: u64,
    pub ticks: u64,
    pub calls: u64,
    pub input: Queue<128>,
    pub log: Queue<4096>,
    pub log_line_start: bool,
    pub dirty: bool,
    pub cspace: CapSpace,
}

/// A task as plain values.
pub ghost struct TaskView {
    pub pid: u64,
    pub program: usize,
    pub state: State,
    pub cpu: usize,
    pub runs: u64,
    pub ticks: u64,
    pub calls: u64,
    pub input: Seq<u8>,
    pub log: Seq<u8>,
    pub log_line_start: bool,
    pub dirty: bool,
    pub cspace: Seq<Option<Capability>>,
}

impl View for Task {
    type V = TaskView;

    open spec fn view(&self) -> TaskView {
        TaskView {
            pid: self.pid,
            program: self.program,
            state: self.state,
            cpu: self.cpu,
            runs: self.runs,
            ticks: self.ticks,
            calls: self.calls,
            input: self.input@,
            log: self.log@,
            log_line_start: self.log_line_start,
            dirty: self.dirty,
            cspace: self.cspace@,
        }
    }
}

impl Task {
    pub open spec fn wf(&self) -> bool {
        &&& self.input.wf()
        &&& self.log.wf()
        &&& cspace_ok(self.cspace@)
        &&& self.program < PROGRAM_COUNT
    }
}

/// The table as plain values.
pub ghost struct Sched {
    pub tasks: Seq<Option<TaskView>>,
    pub current: Seq<usize>,
    pub faults: Seq<Option<Fault>>,
    pub fault_cursor: usize,
    pub next_pid: u64,
    pub foreground: usize,
    pub shell_input: Seq<u8>,
    pub dirty: bool,
    pub notice: Option<(u64, bool)>,
    pub endpoints: Seq<Endpoint>,
}

pub open spec fn task_view(t: Option<Task>) -> Option<TaskView> {
    match t {
        Some(t) => Some(t@),
        None => None,
    }
}

/// The shape every table keeps: nine slots with the shell's empty, the
/// foreground an existing task or the shell, each processor on a slot.
pub open spec fn sched_ok(s: Sched) -> bool {
    &&& s.tasks.len() == SLOTS
    &&& s.tasks[0] is None
    &&& s.current.len() == MAX_CPUS
    &&& forall|c: int| 0 <= c < MAX_CPUS ==> #[trigger] s.current[c] < SLOTS
    &&& s.faults.len() == FAULT_RECORDS
    &&& s.foreground < SLOTS
    &&& s.foreground != 0 ==> s.tasks[s.foreground as int] is Some
    &&& s.endpoints.len() == ENDPOINTS
}

pub struct Scheduler {
    tasks: [Option<Task>; SLOTS],
    current: [usize; MAX_CPUS],
    faults: [Option<Fault>; FAULT_RECORDS],
    fault_cursor: usize,
    next_pid: u64,
    foreground: usize,
    shell_input: Queue<128>,
    dirty: bool,
    notice: Option<(u64, bool)>,
    endpoints: Vec<Endpoint>,
}

impl View for Scheduler {
    type V = Sched;

    closed spec fn view(&self) -> Sched {
        Sched {
            tasks: self.tasks@.map_values(|t: Option<Task>| task_view(t)),
            current: self.current@,
            faults: self.faults@,
            fault_cursor: self.fault_cursor,
            next_pid: self.next_pid,
            foreground: self.foreground,
            shell_input: self.shell_input@,
            dirty: self.dirty,
            notice: self.notice,
            endpoints: self.endpoints@,
        }
    }
}

/// The first slot from `i` on that holds the live task `pid`.
pub open spec fn find_from(tasks: Seq<Option<TaskView>>, pid: u64, i: int) -> Option<usize>
    decreases SLOTS - i,
{
    if i >= SLOTS || i < 1 {
        None
    } else if tasks[i] matches Some(t) && t.pid == pid && t.state != State::Exited {
        Some(i as usize)
    } else {
        find_from(tasks, pid, i + 1)
    }
}


/// What `find_from` finds is a live task with that pid, at or after `i`.
pub proof fn lemma_find_from(tasks: Seq<Option<TaskView>>, pid: u64, i: int)
    ensures
        find_from(tasks, pid, i) matches Some(slot) ==> {
            &&& 1 <= i <= slot < SLOTS
            &&& tasks[slot as int] matches Some(t)
            &&& t.pid == pid
            &&& t.state != State::Exited
        },
        find_from(tasks, pid, i) is None ==> forall|k: int|
            1 <= i <= k < SLOTS ==> !(#[trigger] tasks[k] matches Some(t) && t.pid == pid && t.state != State::Exited),
    decreases SLOTS - i,
{
    if i >= SLOTS || i < 1 {
    } else if tasks[i] matches Some(t) && t.pid == pid && t.state != State::Exited {
    } else {
        lemma_find_from(tasks, pid, i + 1);
    }
}

/// The states one processor schedules: the shell always ready, tasks of
/// other processors and empty slots `Empty`.
pub open spec fn states_spec(s: Sched, cpu: usize) -> Seq<State> {
    Seq::new(
        SLOTS as nat,
        |i: int|
            if i == 0 {
                State::Ready
            } else {
                match s.tasks[i] {
                    Some(t) => if t.cpu == cpu {
                        t.state
                    } else {
                        State::Empty
                    },
                    None => State::Empty,
                }
            },
    )
}

pub open spec fn input_cleared(t: Option<TaskView>) -> Option<TaskView> {
    match t {
        Some(t) => Some(TaskView { input: Seq::empty(), ..t }),
        None => None,
    }
}

/// Giving the keyboard to `slot`: the old and the new foreground task and
/// the shell drop their pending input, and the screen is redrawn.
pub open spec fn focus_spec(s: Sched, slot: usize) -> Sched {
    Sched {
        tasks: Seq::new(
            s.tasks.len(),
            |i: int|
                if i != 0 && (i == s.foreground || i == slot) {
                    input_cleared(s.tasks[i])
                } else {
                    s.tasks[i]
                },
        ),
        shell_input: Seq::empty(),
        foreground: slot,
        dirty: true,
        ..s
    }
}


/// One key from the keyboard: Ctrl+Z sends the foreground task to the
/// background (and the shell reports it); otherwise the key goes to the
/// shell, or to the foreground task, waking it from a sleep.
pub open spec fn deliver_spec(s: Sched, key: Key) -> Sched {
    if key.background && s.foreground != 0 {
        let pid = s.tasks[s.foreground as int]->0.pid;
        Sched { notice: Some((pid, false)), ..focus_spec(s, 0) }
    } else if s.foreground == 0 {
        if !key.background {
            Sched { shell_input: pushed(s.shell_input, INPUT_QUEUE as nat, key.shell), ..s }
        } else {
            s
        }
    } else if key.app != 0 {
        let t = s.tasks[s.foreground as int]->0;
        Sched {
            tasks: s.tasks.update(
                s.foreground as int,
                Some(
                    TaskView {
                        input: pushed(t.input, INPUT_QUEUE as nat, key.app),
                        state: if t.state is Sleeping {
                            State::Ready
                        } else {
                            t.state
                        },
                        ..t
                    },
                ),
            ),
            ..s
        }
    } else {
        s
    }
}

pub open spec fn with_state(t: Option<TaskView>, state: State) -> Option<TaskView> {
    match t {
        Some(t) => Some(TaskView { state, ..t }),
        None => None,
    }
}

/// The task running on `cpu` exits: it stops waiting on endpoints, and if it
/// had the keyboard the shell takes it back and reports the exit.
pub open spec fn exit_spec(s: Sched, cpu: usize) -> Sched {
    let slot = s.current[cpu as int];
    let s1 = exited_spec(s, slot);
    if s.foreground == slot {
        Sched { notice: Some((s.tasks[slot as int]->0.pid, true)), ..focus_spec(s1, 0) }
    } else {
        s1
    }
}

/// The task in `slot` marked exited and released from every endpoint.
pub open spec fn exited_spec(s: Sched, slot: usize) -> Sched {
    Sched {
        tasks: s.tasks.update(slot as int, with_state(s.tasks[slot as int], State::Exited)),
        endpoints: released_spec(s.endpoints, slot),
        ..s
    }
}

/// `kill`: the live task `pid` is marked exited, and the shell takes the
/// keyboard back if it had it.
pub open spec fn kill_spec(s: Sched, pid: u64) -> Sched {
    match find_from(s.tasks, pid, 1) {
        None => s,
        Some(slot) => {
            let s1 = Sched { tasks: s.tasks.update(slot as int, with_state(s.tasks[slot as int], State::Exited)), ..s };
            if slot == s.foreground {
                focus_spec(s1, 0)
            } else {
                s1
            }
        },
    }
}

/// Every sleeper whose deadline has passed at `now` becomes ready.
pub open spec fn wake_spec(s: Sched, now: u64) -> Sched {
    Sched {
        tasks: Seq::new(
            s.tasks.len(),
            |i: int|
                match s.tasks[i] {
                    Some(t) => Some(TaskView { state: woken(t.state, now), ..t }),
                    None => None,
                },
        ),
        ..s
    }
}

/// Exited tasks that no processor is running leave the table.
pub open spec fn reap_spec(s: Sched) -> Sched {
    Sched {
        tasks: Seq::new(
            s.tasks.len(),
            |i: int|
                if i >= 1 && !s.current.contains(i as usize) && (s.tasks[i] matches Some(t) && t.state == State::Exited) {
                    None
                } else {
                    s.tasks[i]
                },
        ),
        ..s
    }
}

/// A task as `ps` shows it.
#[derive(Debug)]
pub struct Summary {
    pub pid: u64,
    pub name: Vec<u8>,
    pub state: &'static str,
    pub foreground: bool,
    pub runs: u64,
    pub ticks: u64,
    pub calls: u64,
    pub cpu: usize,
}

/// The slot a processor switches to from `current`: the round-robin choice
/// among the slots `states` marks ready.
pub open spec fn chosen(states: Seq<State>, current: usize, r: usize) -> bool {
    &&& any_ready(states) ==> exists|step: int|
        is_first_ready_step(states, current as int, step) && r == slot_after(states.len() as int, current as int, step)
    &&& !any_ready(states) ==> r == 0
}

/// Switching `cpu` to slot `next`: the task there counts one more run.
pub open spec fn switch_spec(s: Sched, cpu: usize, next: usize) -> Sched {
    Sched {
        current: s.current.update(cpu as int, next),
        tasks: if next != 0 {
            match s.tasks[next as int] {
                Some(t) => s.tasks.update(next as int, Some(TaskView { runs: (t.runs + 1) as u64, ..t })),
                None => s.tasks,
            }
        } else {
            s.tasks
        },
        ..s
    }
}

/// Every task has runs to spare.
pub open spec fn runs_below_max(s: Sched) -> bool {
    forall|i: int| 0 <= i < SLOTS ==> (#[trigger] s.tasks[i] matches Some(t) ==> t.runs < u64::MAX)
}

/// The live tasks on processor `cpu` among slots below `n`.
pub open spec fn load(tasks: Seq<Option<TaskView>>, cpu: int, n: int) -> nat
    decreases n,
{
    if n <= 0 {
        0
    } else {
        load(tasks, cpu, n - 1) + if tasks[n - 1] matches Some(t) && t.cpu == cpu && t.state != State::Exited {
            1nat
        } else {
            0nat
        }
    }
}

/// The processor a new task goes to: the first online one with the fewest
/// live tasks, or processor 0 when none is online.
pub open spec fn least_loaded(tasks: Seq<Option<TaskView>>, online: Seq<bool>, r: usize) -> bool {
    if exists|c: int| 0 <= c < online.len() && online[c] {
        &&& r < online.len()
        &&& online[r as int]
        &&& forall|c: int| 0 <= c < online.len() && online[c] ==> load(tasks, r as int, SLOTS as int) <= load(tasks, c, SLOTS as int)
        &&& forall|c: int| 0 <= c < r && online[c] ==> load(tasks, r as int, SLOTS as int) < load(tasks, c, SLOTS as int)
    } else {
        r == 0
    }
}

/// The first free slot from `i` on.
pub open spec fn free_from(tasks: Seq<Option<TaskView>>, i: int) -> Option<usize>
    decreases SLOTS - i,
{
    if i >= SLOTS || i < 1 {
        None
    } else if tasks[i] is None {
        Some(i as usize)
    } else {
        free_from(tasks, i + 1)
    }
}

pub proof fn lemma_free_from(tasks: Seq<Option<TaskView>>, i: int)
    ensures
        free_from(tasks, i) matches Some(slot) ==> 1 <= i <= slot < SLOTS && tasks[slot as int] is None,
        free_from(tasks, i) is None ==> forall|k: int| 1 <= i <= k < SLOTS ==> #[trigger] tasks[k] is Some,
    decreases SLOTS - i,
{
    if i >= SLOTS || i < 1 {
    } else if tasks[i] is None {
    } else {
        lemma_free_from(tasks, i + 1);
    }
}

/// A new task of `program` in `slot` with pid `pid` on `cpu`, holding the
/// capabilities `cspace`.
pub open spec fn new_task(pid: u64, program: usize, cpu: usize, cspace: Seq<Option<Capability>>) -> TaskView {
    TaskView {
        pid,
        program,
        state: State::Ready,
        cpu,
        runs: 0,
        ticks: 0,
        calls: 0,
        input: Seq::empty(),
        log: Seq::empty(),
        log_line_start: true,
        dirty: true,
        cspace,
    }
}

/// A new task of `program` in `slot`, with the next pid, on `cpu`: it holds
/// `init` and the right to call the RTC driver (the RTC driver holds its
/// endpoint, made idle, and its ports), and unless it runs in the
/// background it takes the keyboard.
pub open spec fn enter_spec(
    s: Sched,
    slot: usize,
    program: usize,
    background: bool,
    init: Option<Capability>,
    cpu: usize,
) -> Sched {
    let cspace = crate::ipc::initial_cspace_spec(program, init);
    let eps = if program == crate::ipc::RTC_PROGRAM {
        s.endpoints.update(crate::ipc::RTC_ENDPOINT as int, Endpoint { state: EpState::Idle })
    } else {
        s.endpoints
    };
    let s1 = Sched {
        tasks: s.tasks.update(slot as int, Some(new_task(s.next_pid, program, cpu, cspace))),
        next_pid: (s.next_pid + 1) as u64,
        endpoints: eps,
        ..s
    };
    if background {
        s1
    } else {
        focus_spec(s1, slot)
    }
}

/// Every task's pid is positive, below the next pid, and no other task's.
pub open spec fn pids_ok(s: Sched) -> bool {
    &&& forall|i: int| 0 <= i < SLOTS && #[trigger] s.tasks[i] is Some ==> 1 <= s.tasks[i]->0.pid < s.next_pid
    &&& forall|i: int, j: int|
        0 <= i < SLOTS && 0 <= j < SLOTS && i != j && #[trigger] s.tasks[i] is Some && #[trigger] s.tasks[j] is Some
            ==> s.tasks[i]->0.pid != s.tasks[j]->0.pid
}

/// A new task gets a pid that no task in the table has, and the pids stay
/// distinct.
pub proof fn law_fresh_pid(
    s: Sched,
    slot: usize,
    program: usize,
    background: bool,
    init: Option<Capability>,
    cpu: usize,
)
    requires
        sched_ok(s),
        pids_ok(s),
        1 <= s.next_pid < u64::MAX,
        1 <= slot < SLOTS,
        s.tasks[slot as int] is None,
    ensures
        forall|i: int| 0 <= i < SLOTS && #[trigger] s.tasks[i] is Some ==> s.tasks[i]->0.pid != s.next_pid,
        pids_ok(enter_spec(s, slot, program, background, init, cpu)),
{
    let e = enter_spec(s, slot, program, background, init, cpu);
    assert forall|i: int| 0 <= i < SLOTS && #[trigger] e.tasks[i] is Some implies 1 <= e.tasks[i]->0.pid < e.next_pid by {
        if i != slot {
            assert(s.tasks[i] is Some);
        }
    }
    assert forall|i: int, j: int|
        0 <= i < SLOTS && 0 <= j < SLOTS && i != j && #[trigger] e.tasks[i] is Some && #[trigger] e.tasks[j] is Some
            implies e.tasks[i]->0.pid != e.tasks[j]->0.pid by {
        if i != slot && j != slot {
            assert(s.tasks[i] is Some && s.tasks[j] is Some);
        } else if i != slot {
            assert(s.tasks[i] is Some);
        } else {
            assert(s.tasks[j] is Some);
        }
    }
}

/// A processor exception in the task running on `cpu`: the fault goes into
/// the ring of records, the oldest giving way, and the task exits.
pub open spec fn fault_spec(s: Sched, cpu: usize, vector: u64, error: u64, rip: u64, address: u64) -> Sched {
    let pid = s.tasks[s.current[cpu as int] as int]->0.pid;
    exit_spec(
        Sched {
            faults: s.faults.update((s.fault_cursor % FAULT_RECORDS) as int, Some(Fault { pid, cpu, vector, error, rip, address })),
            fault_cursor: (s.fault_cursor + 1) as usize,
            ..s
        },
        cpu,
    )
}

/// A task that faults is ended, and the fault is listed under its pid.
pub proof fn law_fault_ends_task(s: Sched, cpu: usize, vector: u64, error: u64, rip: u64, address: u64)
    requires
        sched_ok(s),
        cpu < MAX_CPUS,
        s.current[cpu as int] != 0,
        s.tasks[s.current[cpu as int] as int] is Some,
    ensures
        ({
            let slot = s.current[cpu as int];
            let r = fault_spec(s, cpu, vector, error, rip, address);
            &&& r.tasks[slot as int] is Some
            &&& r.tasks[slot as int]->0.state == State::Exited
            &&& r.faults.contains(
                Some(Fault { pid: s.tasks[slot as int]->0.pid, cpu, vector, error, rip, address }),
            )
            &&& r.foreground != slot
        }),
{
    let slot = s.current[cpu as int];
    let r = fault_spec(s, cpu, vector, error, rip, address);
    assert(r.faults[(s.fault_cursor % FAULT_RECORDS) as int] == Some(
        Fault { pid: s.tasks[slot as int]->0.pid, cpu, vector, error, rip, address },
    ));
}

/// Once `kill` has ended the task `pid`, no live task has that pid.
pub proof fn law_kill_ends_task(s: Sched, pid: u64)
    requires
        sched_ok(s),
        pids_ok(s),
    ensures
        find_from(kill_spec(s, pid).tasks, pid, 1) is None,
{
    lemma_find_from(s.tasks, pid, 1);
    let k = kill_spec(s, pid);
    lemma_find_from(k.tasks, pid, 1);
    if let Some(slot) = find_from(s.tasks, pid, 1) {
        if let Some(found) = find_from(k.tasks, pid, 1) {
            assert(k.tasks[found as int] matches Some(t) && t.pid == pid && t.state != State::Exited);
            assert(s.tasks[found as int] matches Some(t) && t.pid == pid);
            assert(found != slot);
            assert(s.tasks[slot as int] matches Some(t) && t.pid == pid);
        }
    }
}

/// What precedes a task's output line on the serial console: `[PID n] `.
pub open spec fn pid_prefix(pid: u64) -> Seq<u8> {
    seq![91u8, 80, 73, 68, 32] + crate::apps::digits(pid as nat) + seq![93u8, 32]
}

/// Whether byte `k` of `bytes` starts a line, the first one if `start` does.
pub open spec fn starts_line(start: bool, bytes: Seq<u8>, k: int) -> bool {
    if k == 0 {
        start
    } else {
        bytes[k - 1] == 10
    }
}

/// The first `n` bytes as the serial console shows them: each line that
/// holds more than a line break is prefixed with the task's pid.
pub open spec fn echo_of(pid: u64, start: bool, bytes: Seq<u8>, n: int) -> Seq<u8>
    decreases n,
{
    if n <= 0 {
        Seq::empty()
    } else {
        let b = bytes[n - 1];
        let prefix = if starts_line(start, bytes, n - 1) && b != 13 && b != 10 {
            pid_prefix(pid)
        } else {
            Seq::empty()
        };
        echo_of(pid, start, bytes, n - 1) + prefix + seq![b]
    }
}

/// The log after the first `n` bytes of `bytes`, each pushed in turn.
pub open spec fn logged(log: Seq<u8>, bytes: Seq<u8>, n: int) -> Seq<u8>
    decreases n,
{
    if n <= 0 {
        log
    } else {
        pushed(logged(log, bytes, n - 1), LOG_QUEUE as nat, bytes[n - 1])
    }
}

/// A task's output: kept in its log (the last 4096 bytes), and echoed to
/// the serial console while the task has the foreground.
pub open spec fn output_spec(s: Sched, slot: usize, bytes: Seq<u8>) -> Sched {
    let t = s.tasks[slot as int]->0;
    Sched {
        tasks: s.tasks.update(
            slot as int,
            Some(
                TaskView {
                    log: logged(t.log, bytes, bytes.len() as int),
                    log_line_start: starts_line(t.log_line_start, bytes, bytes.len() as int),
                    ..t
                },
            ),
        ),
        ..s
    }
}

/// The table with `t` in `slot`.
pub open spec fn with_task(s: Sched, slot: usize, t: TaskView) -> Sched {
    Sched { tasks: s.tasks.update(slot as int, Some(t)), ..s }
}

/// The screen to copy to the display and the state after: see
/// `Scheduler::take_screen`.
pub open spec fn screen_spec(s: Sched) -> (Sched, Option<usize>) {
    if s.foreground == 0 {
        if s.dirty {
            (Sched { dirty: false, ..s }, Some(0))
        } else {
            (s, None)
        }
    } else if s.current.contains(s.foreground) {
        (s, None)
    } else {
        let t = s.tasks[s.foreground as int]->0;
        if !s.dirty && !t.dirty {
            (s, None)
        } else {
            (Sched { dirty: false, ..with_task(s, s.foreground, TaskView { dirty: false, ..t }) }, Some(s.foreground))
        }
    }
}

impl Scheduler {
    pub closed spec fn wf(&self) -> bool {
        &&& sched_ok(self@)
        &&& self.shell_input.wf()
        &&& forall|i: int| 0 <= i < SLOTS ==> (#[trigger] self.tasks@[i] matches Some(t) ==> t.wf())
    }

    pub fn new() -> (r: Self)
        ensures
            r.wf(),
            r@.tasks == Seq::new(SLOTS as nat, |_i: int| None::<TaskView>),
            r@.current == Seq::new(MAX_CPUS as nat, |_i: int| 0usize),
            r@.faults == Seq::new(FAULT_RECORDS as nat, |_i: int| None::<Fault>),
            r@.fault_cursor == 0,
            r@.next_pid == 1,
            r@.foreground == 0,
            r@.shell_input == Seq::<u8>::empty(),
            r@.dirty,
            r@.notice is None,
            r@.endpoints == Seq::new(ENDPOINTS as nat, |_i: int| Endpoint { state: EpState::Unused }),
    {
        let mut endpoints: Vec<Endpoint> = Vec::new();
        let mut i: usize = 0;
        while i < ENDPOINTS
            invariant
                i <= ENDPOINTS,
                endpoints@ == Seq::new(i as nat, |_i: int| Endpoint { state: EpState::Unused }),
            decreases ENDPOINTS - i,
        {
            endpoints.push(Endpoint { state: EpState::Unused });
            assert(endpoints@ =~= Seq::new((i + 1) as nat, |_i: int| Endpoint { state: EpState::Unused }));
            i += 1;
        }
        let r = Scheduler {
            tasks: [None; SLOTS],
            current: [0; MAX_CPUS],
            faults: [None; FAULT_RECORDS],
            fault_cursor: 0,
            next_pid: 1,
            foreground: 0,
            shell_input: Queue::new(),
            dirty: true,
            notice: None,
            endpoints,
        };
        assert(r@.tasks =~= Seq::new(SLOTS as nat, |_i: int| None::<TaskView>));
        assert(r@.current =~= Seq::new(MAX_CPUS as nat, |_i: int| 0usize));
        assert(r@.faults =~= Seq::new(FAULT_RECORDS as nat, |_i: int| None::<Fault>));
        r
    }

    /// What processor `cpu` may run, slot by slot.
    pub fn states(&self, cpu: usize) -> (r: Vec<State>)
        requires
            self.wf(),
        ensures
            r@ == states_spec(self@, cpu),
    {
        let mut r: Vec<State> = Vec::new();
        r.push(State::Ready);
        let mut i: usize = 1;
        while i < SLOTS
            invariant
                self.wf(),
                1 <= i <= SLOTS,
                r@ == states_spec(self@, cpu).subrange(0, i as int),
            decreases SLOTS - i,
        {
            let state = match self.tasks[i] {
                Some(t) => if t.cpu == cpu {
                    t.state
                } else {
                    State::Empty
                },
                None => State::Empty,
            };
            r.push(state);
            assert(r@ =~= states_spec(self@, cpu).subrange(0, i + 1));
            i += 1;
        }
        assert(r@ =~= states_spec(self@, cpu));
        r
    }

    /// Whether a task of processor `cpu` is ready to run; when none is, the
    /// processor can halt until the next interrupt.
    pub fn has_ready(&self, cpu: usize) -> (r: bool)
        requires
            self.wf(),
        ensures
            r == exists|i: int| 1 <= i < SLOTS && #[trigger] states_spec(self@, cpu)[i] == State::Ready,
    {
        let states = self.states(cpu);
        let mut i: usize = 1;
        while i < SLOTS
            invariant
                1 <= i <= SLOTS,
                states@ == states_spec(self@, cpu),
                states@.len() == SLOTS,
                forall|k: int| 1 <= k < i ==> states_spec(self@, cpu)[k] != State::Ready,
            decreases SLOTS - i,
        {
            if states[i] == State::Ready {
                assert(states_spec(self@, cpu)[i as int] == State::Ready);
                return true;
            }
            i += 1;
        }
        false
    }

    /// The slot of the live task `pid`.
    pub fn find(&self, pid: u64) -> (r: Option<usize>)
        requires
            self.wf(),
        ensures
            r == find_from(self@.tasks, pid, 1),
    {
        let mut i: usize = 1;
        while i < SLOTS
            invariant
                self.wf(),
                1 <= i <= SLOTS,
                find_from(self@.tasks, pid, 1) == find_from(self@.tasks, pid, i as int),
            decreases SLOTS - i,
        {
            match self.tasks[i] {
                Some(t) => {
                    if t.pid == pid && t.state != State::Exited {
                        return Some(i);
                    }
                },
                None => {},
            }
            i += 1;
        }
        None
    }

    /// Gives the keyboard and screen to `slot` (0 for the shell).
    pub fn focus(&mut self, slot: usize)
        requires
            old(self).wf(),
            slot < SLOTS,
            slot != 0 ==> old(self)@.tasks[slot as int] is Some,
        ensures
            final(self).wf(),
            final(self)@ == focus_spec(old(self)@, slot),
    {
        let ghost before = self@;
        if self.foreground != 0 {
            let fg = self.foreground;
            match self.tasks[fg] {
                Some(t) => {
                    let mut t = t;
                    t.input.clear();
                    self.tasks[fg] = Some(t);
                },
                None => {},
            }
        }
        self.shell_input.clear();
        if slot != 0 {
            match self.tasks[slot] {
                Some(t) => {
                    let mut t = t;
                    t.input.clear();
                    self.tasks[slot] = Some(t);
                },
                None => {},
            }
        }
        self.foreground = slot;
        self.dirty = true;
        assert(self@.tasks =~= focus_spec(before, slot).tasks);
    }

    /// Hands one key to the shell or the foreground task.
    pub fn deliver(&mut self, key: Key)
        requires
            old(self).wf(),
        ensures
            final(self).wf(),
            final(self)@ == deliver_spec(old(self)@, key),
    {
        let ghost before = self@;
        if key.background && self.foreground != 0 {
            let pid = match self.tasks[self.foreground] {
                Some(t) => t.pid,
                None => 0,
            };
            self.focus(0);
            self.notice = Some((pid, false));
        } else if self.foreground == 0 {
            if !key.background {
                self.shell_input.push(key.shell);
            }
        } else if key.app != 0 {
            let fg = self.foreground;
            match self.tasks[fg] {
                Some(t) => {
                    let mut t = t;
                    t.input.push(key.app);
                    if let State::Sleeping(_) = t.state {
                        t.state = State::Ready;
                    }
                    self.tasks[fg] = Some(t);
                    assert(self@.tasks =~= deliver_spec(before, key).tasks);
                },
                None => {},
            }
        }
    }

    /// The task running on `cpu` exits.
    pub fn exit_current(&mut self, cpu: usize)
        requires
            old(self).wf(),
            cpu < MAX_CPUS,
            old(self)@.current[cpu as int] != 0,
            old(self)@.tasks[old(self)@.current[cpu as int] as int] is Some,
        ensures
            final(self).wf(),
            final(self)@ == exit_spec(old(self)@, cpu),
    {
        let ghost before = self@;
        let slot = self.current[cpu];
        let pid = match self.tasks[slot] {
            Some(t) => {
                let mut t = t;
                t.state = State::Exited;
                self.tasks[slot] = Some(t);
                t.pid
            },
            None => 0,
        };
        assert(self.tasks@[slot as int]->0@ == (TaskView { state: State::Exited, ..before.tasks[slot as int]->0 }));
        assert forall|k: int| 0 <= k < SLOTS implies self@.tasks[k] == exited_spec(before, slot).tasks[k] by {
            if k != slot {
                assert(self.tasks@[k] == old(self).tasks@[k]);
            }
        }
        assert(self@.tasks =~= exited_spec(before, slot).tasks);
        crate::ipc::release_endpoints(&mut self.endpoints, slot);
        assert(self@ == exited_spec(before, slot));
        if self.foreground == slot {
            self.focus(0);
            self.notice = Some((pid, true));
        }
    }

    /// Ends the live task `pid`.
    pub fn kill(&mut self, pid: u64) -> (r: Result<(), &'static str>)
        requires
            old(self).wf(),
        ensures
            final(self).wf(),
            final(self)@ == kill_spec(old(self)@, pid),
            find_from(old(self)@.tasks, pid, 1) is None ==> r == Err::<(), &'static str>("NO SUCH PID"),
            find_from(old(self)@.tasks, pid, 1) is Some ==> r is Ok,
    {
        let ghost before = self@;
        proof {
            lemma_find_from(before.tasks, pid, 1);
        }
        let slot = match self.find(pid) {
            Some(slot) => slot,
            None => return Err("NO SUCH PID"),
        };
        match self.tasks[slot] {
            Some(t) => {
                let mut t = t;
                t.state = State::Exited;
                self.tasks[slot] = Some(t);
            },
            None => {},
        }
        assert(self@.tasks =~= before.tasks.update(slot as int, with_state(before.tasks[slot as int], State::Exited)));
        if slot == self.foreground {
            self.focus(0);
        }
        Ok(())
    }

    /// The next byte typed at the shell.
    pub fn take_input(&mut self) -> (r: Option<u8>)
        requires
            old(self).wf(),
        ensures
            final(self).wf(),
            old(self)@.shell_input.len() == 0 ==> r is None && final(self)@ == old(self)@,
            old(self)@.shell_input.len() > 0 ==> r == Some(old(self)@.shell_input[0])
                && final(self)@ == (Sched { shell_input: old(self)@.shell_input.drop_first(), ..old(self)@ }),
    {
        self.shell_input.pop()
    }

    /// The pending report of a task that left the foreground, taken once.
    pub fn take_notice(&mut self) -> (r: Option<(u64, bool)>)
        requires
            old(self).wf(),
        ensures
            final(self).wf(),
            r == old(self)@.notice,
            final(self)@ == (Sched { notice: None, ..old(self)@ }),
    {
        let r = self.notice;
        self.notice = None;
        r
    }

    /// A well-formed scheduler's view keeps the shape `sched_ok` describes.
    pub proof fn lemma_view_ok(&self)
        requires
            self.wf(),
        ensures
            sched_ok(self@),
    {
    }

    /// The slot running on `cpu`, 0 for the idle context.
    pub fn current_slot(&self, cpu: usize) -> (r: usize)
        requires
            self.wf(),
            cpu < MAX_CPUS,
        ensures
            r == self@.current[cpu as int],
            r < SLOTS,
    {
        self.current[cpu]
    }

    /// The state of the task in `slot`, `Empty` for a free slot.
    pub fn state_of(&self, slot: usize) -> (r: State)
        requires
            self.wf(),
            slot < SLOTS,
        ensures
            r == match self@.tasks[slot as int] {
                Some(t) => t.state,
                None => State::Empty,
            },
    {
        match self.tasks[slot] {
            Some(t) => t.state,
            None => State::Empty,
        }
    }

    /// The pid of the foreground task, 0 for the shell.
    pub fn foreground(&self) -> (r: u64)
        requires
            self.wf(),
        ensures
            r == if self@.foreground == 0 {
                0
            } else {
                self@.tasks[self@.foreground as int]->0.pid
            },
    {
        match self.tasks[self.foreground] {
            Some(t) => t.pid,
            None => 0,
        }
    }

    /// The screen needs redrawing.
    pub fn set_dirty(&mut self)
        requires
            old(self).wf(),
        ensures
            final(self).wf(),
            final(self)@ == (Sched { dirty: true, ..old(self)@ }),
    {
        self.dirty = true;
    }

    /// Records that the task on `cpu` faulted, in the ring of the last 16
    /// faults, and ends it.
    pub fn record_fault(&mut self, cpu: usize, vector: u64, error: u64, rip: u64, address: u64)
        requires
            old(self).wf(),
            cpu < MAX_CPUS,
            old(self)@.current[cpu as int] != 0,
            old(self)@.tasks[old(self)@.current[cpu as int] as int] is Some,
            old(self)@.fault_cursor < usize::MAX,
        ensures
            final(self).wf(),
            final(self)@ == fault_spec(old(self)@, cpu, vector, error, rip, address),
    {
        let slot = self.current[cpu];
        let pid = match self.tasks[slot] {
            Some(t) => t.pid,
            None => 0,
        };
        let at = self.fault_cursor % FAULT_RECORDS;
        self.faults[at] = Some(Fault { pid, cpu, vector, error, rip, address });
        self.fault_cursor = self.fault_cursor + 1;
        self.exit_current(cpu);
    }

    /// The last faults, oldest slot first.
    pub fn faults(&self) -> (r: [Option<Fault>; FAULT_RECORDS])
        requires
            self.wf(),
        ensures
            r@ == self@.faults,
    {
        self.faults
    }

    /// Wakes every sleeper due at `now`.
    pub fn wake_all(&mut self, now: u64)
        requires
            old(self).wf(),
        ensures
            final(self).wf(),
            final(self)@ == wake_spec(old(self)@, now),
    {
        let ghost before = self@;
        assert(before.tasks =~= Seq::new(
            SLOTS as nat,
            |k: int|
                if k < 0 {
                    wake_spec(before, now).tasks[k]
                } else {
                    before.tasks[k]
                },
        ));
        let mut i: usize = 0;
        while i < SLOTS
            invariant
                self.wf(),
                sched_ok(before),
                i <= SLOTS,
                self@ == (Sched {
                    tasks: Seq::new(
                        SLOTS as nat,
                        |k: int|
                            if k < i {
                                wake_spec(before, now).tasks[k]
                            } else {
                                before.tasks[k]
                            },
                    ),
                    ..before
                }),
            decreases SLOTS - i,
        {
            let ghost prev = self.tasks@;
            let ghost prev_view = self@.tasks;
            assert(prev_view[i as int] == before.tasks[i as int]);
            assert(prev_view[i as int] == task_view(prev[i as int]));
            match self.tasks[i] {
                Some(t) => {
                    let mut state = t.state;
                    state.wake(now);
                    let mut t = t;
                    t.state = state;
                    self.tasks[i] = Some(t);
                },
                None => {},
            }
            proof {
                let goal = Seq::new(
                    SLOTS as nat,
                    |k: int|
                        if k < i + 1 {
                            wake_spec(before, now).tasks[k]
                        } else {
                            before.tasks[k]
                        },
                );
                assert forall|k: int| 0 <= k < SLOTS implies self@.tasks[k] == goal[k] by {
                    if k != i {
                        assert(self.tasks@[k] == prev[k]);
                        assert(self@.tasks[k] == prev_view[k]);
                    }
                }
                assert(self@.tasks =~= goal);
            }
            i += 1;
        }
        assert(self@.tasks =~= wake_spec(before, now).tasks);
    }

    /// Removes the exited tasks that no processor is running.
    pub fn reap(&mut self)
        requires
            old(self).wf(),
            old(self)@.foreground != 0 ==> old(self)@.tasks[old(self)@.foreground as int]->0.state != State::Exited,
        ensures
            final(self).wf(),
            final(self)@ == reap_spec(old(self)@),
    {
        let ghost before = self@;
        assert(before.tasks =~= Seq::new(
            SLOTS as nat,
            |k: int|
                if k < 1 {
                    reap_spec(before).tasks[k]
                } else {
                    before.tasks[k]
                },
        ));
        let mut i: usize = 1;
        while i < SLOTS
            invariant
                self.wf(),
                sched_ok(before),
                1 <= i <= SLOTS,
                before.foreground != 0 ==> before.tasks[before.foreground as int]->0.state != State::Exited,
                self@ == (Sched {
                    tasks: Seq::new(
                        SLOTS as nat,
                        |k: int|
                            if k < i {
                                reap_spec(before).tasks[k]
                            } else {
                                before.tasks[k]
                            },
                    ),
                    ..before
                }),
            decreases SLOTS - i,
        {
            let mut running = false;
            let mut c: usize = 0;
            while c < MAX_CPUS
                invariant
                    c <= MAX_CPUS,
                    self.current@ == before.current,
                    running == exists|d: int| 0 <= d < c && before.current[d] == i,
                decreases MAX_CPUS - c,
            {
                if self.current[c] == i {
                    running = true;
                }
                c += 1;
            }
            proof {
                if before.current.contains(i) {
                    let d = choose|d: int| 0 <= d < before.current.len() && before.current[d] == i;
                    assert(running);
                }
                if running {
                    assert(before.current.contains(i));
                }
            }
            assert(self@.tasks[i as int] == before.tasks[i as int]);
            assert(self@.tasks[i as int] == task_view(self.tasks@[i as int]));
            let exited = match self.tasks[i] {
                Some(t) => t.state == State::Exited,
                None => false,
            };
            proof {
                assert(running <==> before.current.contains(i));
                assert(exited <==> (before.tasks[i as int] matches Some(t) && t.state == State::Exited));
            }
            let ghost prev = self.tasks@;
            let ghost prev_view = self@.tasks;
            if !running && exited {
                self.tasks[i] = None;
            }
            proof {
                assert forall|k: int| 0 <= k < SLOTS && k != i implies self@.tasks[k] == prev_view[k] by {
                    assert(self.tasks@[k] == prev[k]);
                }
                assert(reap_spec(before).tasks[i as int] == if !running && exited {
                    None
                } else {
                    before.tasks[i as int]
                });
                assert(self@.tasks[i as int] == reap_spec(before).tasks[i as int]);
                let goal = Seq::new(
                    SLOTS as nat,
                    |k: int|
                        if k < i + 1 {
                            reap_spec(before).tasks[k]
                        } else {
                            before.tasks[k]
                        },
                );
                assert forall|k: int| 0 <= k < SLOTS implies self@.tasks[k] == goal[k] by {
                    if k != i {
                        assert(prev_view[k] == (if k < i {
                            reap_spec(before).tasks[k]
                        } else {
                            before.tasks[k]
                        }));
                    }
                }
                assert(self@.tasks =~= goal);
            }
            i += 1;
        }
        assert(self@.tasks =~= reap_spec(before).tasks);
    }

    /// Drains up to `buffer.len()` bytes of the live task `pid`'s log into
    /// `buffer`, oldest first, and returns how many.
    pub fn logs(&mut self, pid: u64, buffer: &mut [u8]) -> (r: Result<usize, &'static str>)
        requires
            old(self).wf(),
        ensures
            final(self).wf(),
            final(buffer)@.len() == old(buffer)@.len(),
            match find_from(old(self)@.tasks, pid, 1) {
                None => r == Err::<usize, &'static str>("NO SUCH PID") && final(self)@ == old(self)@ && final(buffer)@
                    == old(buffer)@,
                Some(slot) => {
                    let log = old(self)@.tasks[slot as int]->0.log;
                    let n = if log.len() < old(buffer)@.len() {
                        log.len()
                    } else {
                        old(buffer)@.len() as nat
                    };
                    &&& r == Ok::<usize, &'static str>(n as usize)
                    &&& final(buffer)@ == log.subrange(0, n as int) + old(buffer)@.subrange(n as int, old(buffer)@.len() as int)
                    &&& final(self)@ == (Sched {
                        tasks: old(self)@.tasks.update(
                            slot as int,
                            Some(TaskView { log: log.subrange(n as int, log.len() as int), ..old(self)@.tasks[slot as int]->0 }),
                        ),
                        ..old(self)@
                    })
                },
            },
    {
        let ghost before = self@;
        proof {
            lemma_find_from(before.tasks, pid, 1);
        }
        let slot = match self.find(pid) {
            Some(slot) => slot,
            None => return Err("NO SUCH PID"),
        };
        let mut t = match self.tasks[slot] {
            Some(t) => t,
            None => return Err("NO SUCH PID"),
        };
        let mut queue = t.log;
        let ghost log = queue@;
        let mut len: usize = 0;
        while len < buffer.len()
            invariant_except_break
                queue.wf(),
                len <= buffer@.len(),
                len <= log.len(),
                queue@ == log.subrange(len as int, log.len() as int),
                buffer@.len() == old(buffer)@.len(),
                buffer@ == log.subrange(0, len as int) + old(buffer)@.subrange(len as int, old(buffer)@.len() as int),
            ensures
                queue.wf(),
                len <= buffer@.len(),
                len <= log.len(),
                len == (if log.len() < buffer@.len() { log.len() } else { buffer@.len() as nat }),
                queue@ == log.subrange(len as int, log.len() as int),
                buffer@.len() == old(buffer)@.len(),
                buffer@ == log.subrange(0, len as int) + old(buffer)@.subrange(len as int, old(buffer)@.len() as int),
            decreases buffer@.len() - len,
        {
            let byte = match queue.pop() {
                Some(byte) => byte,
                None => {
                    break;
                },
            };
            buffer[len] = byte;
            len += 1;
            assert(buffer@ =~= log.subrange(0, len as int) + old(buffer)@.subrange(len as int, old(buffer)@.len() as int));
            assert(queue@ =~= log.subrange(len as int, log.len() as int));
        }
        t.log = queue;
        self.tasks[slot] = Some(t);
        proof {
            assert forall|k: int| 0 <= k < SLOTS implies self@.tasks[k] == before.tasks.update(
                slot as int,
                Some(TaskView { log: log.subrange(len as int, log.len() as int), ..before.tasks[slot as int]->0 }),
            )[k] by {
                if k != slot {
                    assert(self.tasks@[k] == old(self).tasks@[k]);
                }
            }
            assert(self@.tasks =~= before.tasks.update(
                slot as int,
                Some(TaskView { log: log.subrange(len as int, log.len() as int), ..before.tasks[slot as int]->0 }),
            ));
        }
        Ok(len)
    }

    /// Processor `cpu` leaves its slot for the next ready one, round robin.
    pub fn switch(&mut self, cpu: usize) -> (r: usize)
        requires
            old(self).wf(),
            cpu < MAX_CPUS,
            runs_below_max(old(self)@),
        ensures
            final(self).wf(),
            r < SLOTS,
            chosen(states_spec(old(self)@, cpu), old(self)@.current[cpu as int], r),
            final(self)@ == switch_spec(old(self)@, cpu, r),
    {
        let ghost before = self@;
        let states = self.states(cpu);
        let next = crate::task_state::next(states.as_slice(), self.current[cpu]);
        proof {
            assert(states_spec(before, cpu)[0] == State::Ready);
            assert(any_ready(states_spec(before, cpu)));
            let step = choose|step: int|
                is_first_ready_step(states@, before.current[cpu as int] as int, step) && next == slot_after(
                    states@.len() as int,
                    before.current[cpu as int] as int,
                    step,
                );
        }
        self.current[cpu] = next;
        if next != 0 {
            match self.tasks[next] {
                Some(t) => {
                    let mut t = t;
                    t.runs = t.runs + 1;
                    self.tasks[next] = Some(t);
                },
                None => {},
            }
        }
        proof {
            assert forall|k: int| 0 <= k < SLOTS implies self@.tasks[k] == switch_spec(before, cpu, next).tasks[k] by {
                if k != next {
                    assert(self.tasks@[k] == old(self).tasks@[k]);
                }
            }
            assert(self@.tasks =~= switch_spec(before, cpu, next).tasks);
            assert(self@.current =~= switch_spec(before, cpu, next).current);
        }
        next
    }

    /// A timer tick charged to the task running on `cpu`, if any.
    pub fn tick(&mut self, cpu: usize)
        requires
            old(self).wf(),
            cpu < MAX_CPUS,
            old(self)@.tasks[old(self)@.current[cpu as int] as int] matches Some(t) ==> t.ticks < u64::MAX,
        ensures
            final(self).wf(),
            final(self)@ == (Sched {
                tasks: match old(self)@.tasks[old(self)@.current[cpu as int] as int] {
                    Some(t) => old(self)@.tasks.update(
                        old(self)@.current[cpu as int] as int,
                        Some(TaskView { ticks: (t.ticks + 1) as u64, dirty: true, ..t }),
                    ),
                    None => old(self)@.tasks,
                },
                ..old(self)@
            }),
    {
        let ghost before = self@;
        let slot = self.current[cpu];
        match self.tasks[slot] {
            Some(t) => {
                let mut t = t;
                t.ticks = t.ticks + 1;
                t.dirty = true;
                self.tasks[slot] = Some(t);
                proof {
                    assert forall|k: int| 0 <= k < SLOTS && k != slot implies self@.tasks[k] == before.tasks[k] by {
                        assert(self.tasks@[k] == old(self).tasks@[k]);
                    }
                    assert(self@.tasks =~= before.tasks.update(
                        slot as int,
                        Some(TaskView { ticks: (before.tasks[slot as int]->0.ticks + 1) as u64, dirty: true, ..before.tasks[slot as int]->0 }),
                    ));
                }
            },
            None => {},
        }
    }

    /// The processor a new task should run on, among those `online`.
    pub fn pick_cpu(&self, online: &[bool]) -> (r: usize)
        requires
            self.wf(),
        ensures
            least_loaded(self@.tasks, online@, r),
    {
        let mut best: usize = 0;
        let mut best_load: usize = 0;
        let mut found = false;
        let mut c: usize = 0;
        while c < online.len()
            invariant
                self.wf(),
                c <= online@.len(),
                found ==> best < c && online@[best as int] && best_load == load(self@.tasks, best as int, SLOTS as int),
                found ==> forall|d: int| 0 <= d < c && online@[d] ==> load(self@.tasks, best as int, SLOTS as int) <= load(self@.tasks, d, SLOTS as int),
                found ==> forall|d: int| 0 <= d < best && online@[d] ==> load(self@.tasks, best as int, SLOTS as int) < load(self@.tasks, d, SLOTS as int),
                !found ==> forall|d: int| 0 <= d < c ==> !online@[d],
                !found ==> best == 0,
            decreases online@.len() - c,
        {
            if online[c] {
                let here = self.load(c);
                if !found || here < best_load {
                    best = c;
                    best_load = here;
                    found = true;
                }
            }
            c += 1;
        }
        best
    }

    /// The live tasks on `cpu`.
    fn load(&self, cpu: usize) -> (r: usize)
        requires
            self.wf(),
        ensures
            r == load(self@.tasks, cpu as int, SLOTS as int),
    {
        let mut n: usize = 0;
        let mut i: usize = 0;
        while i < SLOTS
            invariant
                self.wf(),
                i <= SLOTS,
                n == load(self@.tasks, cpu as int, i as int),
                n <= i,
            decreases SLOTS - i,
        {
            assert(self@.tasks[i as int] == task_view(self.tasks@[i as int]));
            match self.tasks[i] {
                Some(t) => {
                    if t.cpu == cpu && t.state != State::Exited {
                        n += 1;
                    }
                },
                None => {},
            }
            i += 1;
        }
        n
    }

    /// The slot and pid a new task would get: the first free slot, and the
    /// next pid, while one is left.
    pub fn reserve(&self) -> (r: Result<(usize, u64), &'static str>)
        requires
            self.wf(),
        ensures
            free_from(self@.tasks, 1) is None ==> r == Err::<(usize, u64), &'static str>("TASK LIMIT REACHED (8)"),
            free_from(self@.tasks, 1) matches Some(slot) ==> if self@.next_pid == u64::MAX {
                r == Err::<(usize, u64), &'static str>("PID SPACE EXHAUSTED")
            } else {
                r == Ok::<(usize, u64), &'static str>((slot, self@.next_pid))
            },
    {
        let mut i: usize = 1;
        while i < SLOTS
            invariant
                self.wf(),
                1 <= i <= SLOTS,
                free_from(self@.tasks, 1) == free_from(self@.tasks, i as int),
            decreases SLOTS - i,
        {
            assert(self@.tasks[i as int] == task_view(self.tasks@[i as int]));
            if self.tasks[i].is_none() {
                if self.next_pid == u64::MAX {
                    return Err("PID SPACE EXHAUSTED");
                }
                return Ok((i, self.next_pid));
            }
            i += 1;
        }
        Err("TASK LIMIT REACHED (8)")
    }

    /// Enters a new task of `program` in the free `slot` with the next pid,
    /// on `cpu`, holding `init` (what its parent passed on) and the right to
    /// call the RTC driver; the RTC driver itself holds its endpoint and
    /// ports. A foreground task takes the keyboard.
    pub fn enter(&mut self, slot: usize, program: usize, background: bool, init: Option<Capability>, cpu: usize) -> (r: u64)
        requires
            old(self).wf(),
            1 <= slot < SLOTS,
            old(self)@.tasks[slot as int] is None,
            old(self)@.next_pid < u64::MAX,
            program < PROGRAM_COUNT,
            init matches Some(Capability::Endpoint(id, _)) ==> id < ENDPOINTS,
        ensures
            final(self).wf(),
            r == old(self)@.next_pid,
            final(self)@ == enter_spec(old(self)@, slot, program, background, init, cpu),
    {
        let ghost before = self@;
        let cspace = crate::ipc::initial_cspace(program, init, &mut self.endpoints);
        let pid = self.next_pid;
        let task = Task {
            pid,
            program,
            state: State::Ready,
            cpu,
            runs: 0,
            ticks: 0,
            calls: 0,
            input: Queue::new(),
            log: Queue::new(),
            log_line_start: true,
            dirty: true,
            cspace,
        };
        proof {
            assert(cspace_ok(cspace@));
        }
        self.tasks[slot] = Some(task);
        self.next_pid = pid + 1;
        proof {
            assert forall|k: int| 0 <= k < SLOTS && k != slot implies self@.tasks[k] == before.tasks[k] by {
                assert(self.tasks@[k] == old(self).tasks@[k]);
            }
            assert(self@.tasks =~= before.tasks.update(slot as int, Some(new_task(pid, program, cpu, crate::ipc::initial_cspace_spec(program, init)))));
        }
        if !background {
            self.focus(slot);
        }
        pid
    }

    /// What `ps` shows for slots 1 to 8.
    pub fn summaries(&self) -> (r: Vec<Option<Summary>>)
        requires
            self.wf(),
        ensures
            r@.len() == MAX_TASKS,
            forall|i: int|
                0 <= i < MAX_TASKS ==> match (#[trigger] r@[i], self@.tasks[i + 1]) {
                    (None, None) => true,
                    (Some(m), Some(t)) => {
                        &&& m.pid == t.pid
                        &&& m.name@ == program_name_spec(t.program as int)
                        &&& m.state == if self@.current.contains((i + 1) as usize) {
                            "RUNNING"
                        } else {
                            state_label(t.state)
                        }
                        &&& m.foreground == (self@.foreground == i + 1)
                        &&& m.runs == t.runs
                        &&& m.ticks == t.ticks
                        &&& m.calls == t.calls
                        &&& m.cpu == t.cpu
                    },
                    _ => false,
                },
    {
        let mut r: Vec<Option<Summary>> = Vec::new();
        let mut i: usize = 1;
        while i < SLOTS
            invariant
                self.wf(),
                1 <= i <= SLOTS,
                r@.len() == i - 1,
                forall|k: int|
                    0 <= k < i - 1 ==> match (#[trigger] r@[k], self@.tasks[k + 1]) {
                        (None, None) => true,
                        (Some(m), Some(t)) => {
                            &&& m.pid == t.pid
                            &&& m.name@ == program_name_spec(t.program as int)
                            &&& m.state == if self@.current.contains((k + 1) as usize) {
                                "RUNNING"
                            } else {
                                state_label(t.state)
                            }
                            &&& m.foreground == (self@.foreground == k + 1)
                            &&& m.runs == t.runs
                            &&& m.ticks == t.ticks
                            &&& m.calls == t.calls
                            &&& m.cpu == t.cpu
                        },
                        _ => false,
                    },
            decreases SLOTS - i,
        {
            assert(self@.tasks[i as int] == task_view(self.tasks@[i as int]));
            let entry = match self.tasks[i] {
                Some(t) => {
                    let mut running = false;
                    let mut c: usize = 0;
                    while c < MAX_CPUS
                        invariant
                            self.wf(),
                            c <= MAX_CPUS,
                            running == exists|d: int| 0 <= d < c && self@.current[d] == i,
                        decreases MAX_CPUS - c,
                    {
                        if self.current[c] == i {
                            running = true;
                        }
                        c += 1;
                    }
                    proof {
                        if self@.current.contains(i) {
                            let d = choose|d: int| 0 <= d < self@.current.len() && self@.current[d] == i;
                            assert(running);
                        }
                    }
                    let state = if running {
                        "RUNNING"
                    } else {
                        t.state.label()
                    };
                    Some(Summary {
                        pid: t.pid,
                        name: crate::shell::program_name(t.program),
                        state,
                        foreground: self.foreground == i,
                        runs: t.runs,
                        ticks: t.ticks,
                        calls: t.calls,
                        cpu: t.cpu,
                    })
                },
                None => None,
            };
            r.push(entry);
            i += 1;
        }
        r
    }

    /// Records `bytes` written by the task in `slot` and returns what the
    /// serial console shows of them: nothing unless the task has the
    /// foreground.
    pub fn output(&mut self, slot: usize, bytes: &[u8]) -> (r: Vec<u8>)
        requires
            old(self).wf(),
            1 <= slot < SLOTS,
            old(self)@.tasks[slot as int] is Some,
        ensures
            final(self).wf(),
            final(self)@ == output_spec(old(self)@, slot, bytes@),
            r@ == if old(self)@.foreground == slot {
                echo_of(old(self)@.tasks[slot as int]->0.pid, old(self)@.tasks[slot as int]->0.log_line_start, bytes@, bytes@.len() as int)
            } else {
                Seq::empty()
            },
    {
        let ghost before = self@;
        let mut t = match self.tasks[slot] {
            Some(t) => t,
            None => return Vec::new(),
        };
        let ghost t0 = t@;
        let shown = self.foreground == slot;
        let mut digits = [0u8; 20];
        let start = crate::apps::decimal_u64(t.pid, &mut digits);
        let mut echo: Vec<u8> = Vec::new();
        let mut log = t.log;
        let mut line_start = t.log_line_start;
        let mut i: usize = 0;
        while i < bytes.len()
            invariant
                log.wf(),
                i <= bytes@.len(),
                start < 20,
                digits@.skip(start as int) == crate::apps::digits(t0.pid as nat),
                log@ == logged(t0.log, bytes@, i as int),
                line_start == starts_line(t0.log_line_start, bytes@, i as int),
                echo@ == if shown {
                    echo_of(t0.pid, t0.log_line_start, bytes@, i as int)
                } else {
                    Seq::empty()
                },
            decreases bytes@.len() - i,
        {
            let byte = bytes[i];
            log.push(byte);
            if shown {
                let ghost e0 = echo@;
                if line_start && byte != 13 && byte != 10 {
                    echo.push(91);
                    echo.push(80);
                    echo.push(73);
                    echo.push(68);
                    echo.push(32);
                    let mut k = start;
                    while k < 20
                        invariant
                            start <= k <= 20,
                            digits@.len() == 20,
                            echo@ == e0 + seq![91u8, 80, 73, 68, 32] + digits@.subrange(start as int, k as int),
                        decreases 20 - k,
                    {
                        echo.push(digits[k]);
                        assert(echo@ =~= e0 + seq![91u8, 80, 73, 68, 32] + digits@.subrange(start as int, k + 1));
                        k += 1;
                    }
                    echo.push(93);
                    echo.push(32);
                    assert(digits@.subrange(start as int, 20) =~= digits@.skip(start as int));
                    assert(echo@ =~= e0 + pid_prefix(t0.pid));
                } else {
                    assert(e0 + Seq::<u8>::empty() =~= e0);
                }
                echo.push(byte);
            }
            line_start = byte == 10;
            proof {
                assert(bytes@[i as int] == byte);
                if shown {
                    assert(echo@ =~= echo_of(t0.pid, t0.log_line_start, bytes@, i + 1));
                }
            }
            i += 1;
        }
        t.log = log;
        t.log_line_start = line_start;
        self.tasks[slot] = Some(t);
        proof {
            assert forall|k: int| 0 <= k < SLOTS && k != slot implies self@.tasks[k] == before.tasks[k] by {
                assert(self.tasks@[k] == old(self).tasks@[k]);
            }
            assert(self@.tasks =~= output_spec(before, slot, bytes@).tasks);
        }
        echo
    }

    /// The screen the display should show now, if it needs a copy: the
    /// shell's (0) while the shell has the keyboard and has drawn since the
    /// last copy; the foreground task's (its slot) while no processor runs
    /// it and it or the shell has drawn. The marks it reads are cleared.
    pub fn take_screen(&mut self) -> (r: Option<usize>)
        requires
            old(self).wf(),
        ensures
            final(self).wf(),
            (final(self)@, r) == screen_spec(old(self)@),
    {
        let fg = self.foreground;
        if fg == 0 {
            if !self.dirty {
                return None;
            }
            self.dirty = false;
            return Some(0);
        }
        let ghost s0 = self@;
        let mut i: usize = 0;
        while i < MAX_CPUS
            invariant
                self.wf(),
                self@ == s0,
                s0 == old(self)@,
                fg == self@.foreground,
                fg != 0,
                i <= MAX_CPUS,
                forall|k: int| 0 <= k < i ==> self@.current[k] != fg,
            decreases MAX_CPUS - i,
        {
            if self.current[i] == fg {
                assert(self@.current[i as int] == fg);
                assert(self@.current.contains(fg));
                return None;
            }
            i += 1;
        }
        assert(!self@.current.contains(fg));
        let mut t = self.task(fg);
        if !self.dirty && !t.dirty {
            return None;
        }
        t.dirty = false;
        self.put_task(fg, t);
        self.dirty = false;
        Some(fg)
    }

    /// Puts task `t` back into its slot.
    fn put_task(&mut self, slot: usize, t: Task)
        requires
            old(self).wf(),
            1 <= slot < SLOTS,
            old(self)@.tasks[slot as int] is Some,
            t.wf(),
        ensures
            final(self).wf(),
            final(self)@ == with_task(old(self)@, slot, t@),
    {
        let ghost before = self@;
        self.tasks[slot] = Some(t);
        proof {
            assert forall|k: int| 0 <= k < SLOTS && k != slot implies self@.tasks[k] == before.tasks[k] by {
                assert(self.tasks@[k] == old(self).tasks@[k]);
            }
            assert(self@.tasks =~= with_task(before, slot, t@).tasks);
        }
    }

    /// The task in `slot`.
    fn task(&self, slot: usize) -> (r: Task)
        requires
            self.wf(),
            1 <= slot < SLOTS,
            self@.tasks[slot as int] is Some,
        ensures
            r@ == self@.tasks[slot as int]->0,
            r.wf(),
    {
        match self.tasks[slot] {
            Some(t) => t,
            None => self.tasks[slot].unwrap(),
        }
    }

    /// The system call count of the task in `slot` goes up by one.
    pub fn count_call(&mut self, slot: usize)
        requires
            old(self).wf(),
            1 <= slot < SLOTS,
            old(self)@.tasks[slot as int] matches Some(t) && t.calls < u64::MAX,
        ensures
            final(self).wf(),
            final(self)@ == with_task(
                old(self)@,
                slot,
                TaskView { calls: (old(self)@.tasks[slot as int]->0.calls + 1) as u64, ..old(self)@.tasks[slot as int]->0 },
            ),
    {
        let mut t = self.task(slot);
        t.calls = t.calls + 1;
        self.put_task(slot, t);
    }

    /// The next key typed at the task in `slot`, 0 when there is none.
    pub fn next_key(&mut self, slot: usize) -> (r: u8)
        requires
            old(self).wf(),
            1 <= slot < SLOTS,
            old(self)@.tasks[slot as int] is Some,
        ensures
            final(self).wf(),
            ({
                let t = old(self)@.tasks[slot as int]->0;
                if t.input.len() == 0 {
                    r == 0 && final(self)@ == old(self)@
                } else {
                    r == t.input[0] && final(self)@ == with_task(old(self)@, slot, TaskView { input: t.input.drop_first(), ..t })
                }
            }),
    {
        let mut t = self.task(slot);
        let ghost before = self@;
        match t.input.pop() {
            Some(byte) => {
                self.put_task(slot, t);
                byte
            },
            None => 0,
        }
    }

    /// The task in `slot` waits `milliseconds` from `now` (at most a minute,
    /// in whole ticks), unless a key is already waiting for it.
    pub fn wait(&mut self, slot: usize, now: u64, milliseconds: usize)
        requires
            old(self).wf(),
            1 <= slot < SLOTS,
            old(self)@.tasks[slot as int] is Some,
        ensures
            final(self).wf(),
            ({
                let t = old(self)@.tasks[slot as int]->0;
                let state = if t.input.len() == 0 {
                    State::Sleeping(now.wrapping_add(crate::ipc::wait_spec(milliseconds)))
                } else {
                    State::Ready
                };
                final(self)@ == with_task(old(self)@, slot, TaskView { state, dirty: true, ..t })
            }),
    {
        let duration = crate::ipc::wait_duration(milliseconds);
        let mut t = self.task(slot);
        t.state = if t.input.is_empty() {
            State::Sleeping(now.wrapping_add(duration))
        } else {
            State::Ready
        };
        t.dirty = true;
        self.put_task(slot, t);
    }

    /// A new endpoint for the task in `slot`, with a capability in its first
    /// free capability slot.
    pub fn create_endpoint(&mut self, slot: usize) -> (r: usize)
        requires
            old(self).wf(),
            1 <= slot < SLOTS,
            old(self)@.tasks[slot as int] is Some,
        ensures
            final(self).wf(),
            ({
                let t = old(self)@.tasks[slot as int]->0;
                let (eps, cs, code) = crate::ipc::create_spec(old(self)@.endpoints, t.cspace);
                &&& r == code
                &&& final(self)@ == Sched { endpoints: eps, ..with_task(old(self)@, slot, TaskView { cspace: cs, ..t }) }
            }),
    {
        let mut t = self.task(slot);
        let ghost before = self@;
        let r = crate::ipc::endpoint_create(&mut self.endpoints, &mut t.cspace);
        proof {
            let (eps, cs, code) = crate::ipc::create_spec(before.endpoints, before.tasks[slot as int]->0.cspace);
            assert forall|i: int| 0 <= i < t.cspace@.len() implies match #[trigger] t.cspace@[i] {
                Some(Capability::Endpoint(id, _)) => id < ENDPOINTS,
                _ => true,
            } by {
                if let Some(ep) = crate::ipc::first_unused(before.endpoints) {
                    if let Some(s) = crate::ipc::first_free_cap(before.tasks[slot as int]->0.cspace) {
                        if i != s {
                            assert(t.cspace@[i] == before.tasks[slot as int]->0.cspace[i]);
                        }
                    }
                }
            }
        }
        self.put_task(slot, t);
        r
    }

    /// Empties capability slot `index` of the task in `slot`.
    pub fn drop_cap(&mut self, slot: usize, index: usize) -> (r: usize)
        requires
            old(self).wf(),
            1 <= slot < SLOTS,
            old(self)@.tasks[slot as int] is Some,
        ensures
            final(self).wf(),
            ({
                let t = old(self)@.tasks[slot as int]->0;
                if 0 < index < crate::ipc::CAP_SLOTS {
                    r == 0 && final(self)@ == with_task(old(self)@, slot, TaskView { cspace: t.cspace.update(index as int, None), ..t })
                } else {
                    r == usize::MAX && final(self)@ == old(self)@
                }
            }),
    {
        let mut t = self.task(slot);
        let r = crate::ipc::cap_drop(&mut t.cspace, index);
        if r == 0 {
            self.put_task(slot, t);
        }
        r
    }

    /// Turns `physical` (where the task's address lies, if mapped) into a
    /// memory capability of `size` bytes for the task in `slot`.
    pub fn share_memory(&mut self, slot: usize, physical: Option<u64>, size: u64) -> (r: usize)
        requires
            old(self).wf(),
            1 <= slot < SLOTS,
            old(self)@.tasks[slot as int] is Some,
        ensures
            final(self).wf(),
            ({
                let t = old(self)@.tasks[slot as int]->0;
                let (cs, code) = crate::ipc::share_spec(t.cspace, physical, size);
                r == code && final(self)@ == with_task(old(self)@, slot, TaskView { cspace: cs, ..t })
            }),
    {
        let mut t = self.task(slot);
        let ghost cs0 = t.cspace@;
        let r = crate::ipc::mem_share(&mut t.cspace, physical, size);
        proof {
            assert forall|i: int| 0 <= i < t.cspace@.len() implies match #[trigger] t.cspace@[i] {
                Some(Capability::Endpoint(id, _)) => id < ENDPOINTS,
                _ => true,
            } by {
                assert(t.cspace@[i] == cs0[i] || t.cspace@[i] matches Some(Capability::Memory(_, _)));
            }
        }
        self.put_task(slot, t);
        r
    }

    /// The memory capability in slot `index` of the task in `slot`.
    pub fn memory_cap(&self, slot: usize, index: usize) -> (r: Result<(u64, u64), usize>)
        requires
            self.wf(),
            1 <= slot < SLOTS,
            self@.tasks[slot as int] is Some,
        ensures
            ({
                let cs = self@.tasks[slot as int]->0.cspace;
                &&& index >= crate::ipc::CAP_SLOTS ==> r == Err::<(u64, u64), usize>(usize::MAX)
                &&& index < crate::ipc::CAP_SLOTS ==> match cs[index as int] {
                    Some(Capability::Memory(p, n)) => r == Ok::<(u64, u64), usize>((p, n)),
                    _ => r == Err::<(u64, u64), usize>((usize::MAX - 1) as usize),
                }
            }),
    {
        let t = self.task(slot);
        crate::ipc::memory_of(&t.cspace, index)
    }

    /// Whether the task in `slot` may use I/O port `port` through its
    /// capability in slot `index`.
    pub fn port(&self, slot: usize, index: usize, port: u16) -> (r: Result<(), usize>)
        requires
            self.wf(),
            1 <= slot < SLOTS,
            self@.tasks[slot as int] is Some,
        ensures
            r == crate::ipc::port_spec(self@.tasks[slot as int]->0.cspace, index, port),
    {
        let t = self.task(slot);
        crate::ipc::port_access(&t.cspace, index, port)
    }

    /// The capability a task spawned by the task in `slot` starts with: its
    /// endpoint capability in slot `grant` restricted to `rights`.
    pub fn delegation(&self, slot: usize, grant: usize, rights: u8) -> (r: Option<Capability>)
        requires
            self.wf(),
            1 <= slot < SLOTS,
            self@.tasks[slot as int] is Some,
        ensures
            r == crate::ipc::delegated_spec(self@.tasks[slot as int]->0.cspace, grant, rights),
            r matches Some(Capability::Endpoint(id, _)) ==> id < ENDPOINTS,
    {
        let t = self.task(slot);
        crate::ipc::delegate(&t.cspace, grant, rights)
    }

    /// The task in `slot` sends `msg` over its capability in slot `index`:
    /// it meets a waiting receiver, or waits itself.
    pub fn send(&mut self, slot: usize, index: usize, msg: &[usize; 4]) -> (r: crate::ipc::SendOutcome)
        requires
            old(self).wf(),
            1 <= slot < SLOTS,
            old(self)@.tasks[slot as int] is Some,
        ensures
            final(self).wf(),
            ({
                let t = old(self)@.tasks[slot as int]->0;
                let (eps, out) = crate::ipc::send_spec(t.cspace, old(self)@.endpoints, slot, index, msg@);
                let s1 = Sched { endpoints: eps, ..old(self)@ };
                &&& r == out
                &&& final(self)@ == if out == crate::ipc::SendOutcome::Wait {
                    with_task(s1, slot, TaskView { state: State::BlockedIpc, dirty: true, ..t })
                } else {
                    s1
                }
            }),
            r matches crate::ipc::SendOutcome::Deliver { capability: Some(Capability::Endpoint(id, _)), .. } ==> id < ENDPOINTS,
    {
        let mut t = self.task(slot);
        let r = crate::ipc::ipc_send(&t.cspace, &mut self.endpoints, slot, index, msg);
        if r == crate::ipc::SendOutcome::Wait {
            t.state = State::BlockedIpc;
            t.dirty = true;
            self.put_task(slot, t);
        }
        r
    }

    /// A message reaches the waiting task in `receiver`: the capability passed
    /// with it (or nothing) goes into its slot `recv_index` when that is a
    /// real slot, and it is ready again.
    pub fn deliver_message(&mut self, receiver: usize, recv_index: usize, capability: Option<Capability>)
        requires
            old(self).wf(),
            1 <= receiver < SLOTS,
            old(self)@.tasks[receiver as int] is Some,
            capability matches Some(Capability::Endpoint(id, _)) ==> id < ENDPOINTS,
        ensures
            final(self).wf(),
            ({
                let t = old(self)@.tasks[receiver as int]->0;
                let cs = if 0 < recv_index < crate::ipc::CAP_SLOTS {
                    t.cspace.update(recv_index as int, capability)
                } else {
                    t.cspace
                };
                final(self)@ == with_task(old(self)@, receiver, TaskView { cspace: cs, state: State::Ready, ..t })
            }),
    {
        let mut t = self.task(receiver);
        if recv_index > 0 && recv_index < crate::ipc::CAP_SLOTS {
            t.cspace[recv_index] = capability;
        }
        t.state = State::Ready;
        self.put_task(receiver, t);
    }

    /// The task in `slot` receives over its capability in slot `index`: it
    /// meets a waiting sender, or waits itself.
    pub fn receive(&mut self, slot: usize, index: usize) -> (r: crate::ipc::RecvOutcome)
        requires
            old(self).wf(),
            1 <= slot < SLOTS,
            old(self)@.tasks[slot as int] is Some,
        ensures
            final(self).wf(),
            ({
                let t = old(self)@.tasks[slot as int]->0;
                let (eps, out) = crate::ipc::recv_spec(t.cspace, old(self)@.endpoints, slot, index);
                let s1 = Sched { endpoints: eps, ..old(self)@ };
                &&& r == out
                &&& final(self)@ == if out == crate::ipc::RecvOutcome::Wait {
                    with_task(s1, slot, TaskView { state: State::BlockedIpc, dirty: true, ..t })
                } else {
                    s1
                }
            }),
    {
        let mut t = self.task(slot);
        let r = crate::ipc::ipc_recv(&t.cspace, &mut self.endpoints, slot, index);
        if r == crate::ipc::RecvOutcome::Wait {
            t.state = State::BlockedIpc;
            t.dirty = true;
            self.put_task(slot, t);
        }
        r
    }

    /// The task in `slot` takes the message of the task waiting in `sender`:
    /// the sender's capability in slot `transfer_index`, masked by `mask`,
    /// goes into the receiver's slot `recv_index`, and the sender is ready
    /// again.
    pub fn take_message(&mut self, slot: usize, sender: usize, recv_index: usize, transfer_index: usize, mask: u8)
        requires
            old(self).wf(),
            1 <= slot < SLOTS,
            1 <= sender < SLOTS,
            old(self)@.tasks[slot as int] is Some,
            old(self)@.tasks[sender as int] is Some,
        ensures
            final(self).wf(),
            ({
                let src = old(self)@.tasks[sender as int]->0;
                let got = if 0 < recv_index < crate::ipc::CAP_SLOTS {
                    crate::ipc::received_spec(src.cspace, transfer_index, mask)
                } else {
                    None
                };
                let s1 = match got {
                    Some(cap) => {
                        let t = old(self)@.tasks[slot as int]->0;
                        with_task(old(self)@, slot, TaskView { cspace: t.cspace.update(recv_index as int, Some(cap)), ..t })
                    },
                    None => old(self)@,
                };
                final(self)@ == with_task(s1, sender, TaskView { state: State::Ready, ..s1.tasks[sender as int]->0 })
            }),
    {
        let source = self.task(sender);
        if recv_index > 0 && recv_index < crate::ipc::CAP_SLOTS {
            let got = crate::ipc::received(&source.cspace, transfer_index, mask);
            if let Some(cap) = got {
                let mut t = self.task(slot);
                t.cspace[recv_index] = Some(cap);
                proof {
                    assert forall|i: int| 0 <= i < t.cspace@.len() implies match #[trigger] t.cspace@[i] {
                        Some(Capability::Endpoint(id, _)) => id < ENDPOINTS,
                        _ => true,
                    } by {
                        if i == recv_index {
                            assert(source.cspace@[transfer_index as int] is Some);
                        }
                    }
                }
                self.put_task(slot, t);
            }
        }
        let mut src = self.task(sender);
        src.state = State::Ready;
        self.put_task(sender, src);
    }
}

/// The bytes the allocator has handed out and not taken back, at the moment
/// of the call: the reading a heap test starts from.
pub fn heap_used(heap: &linked_list_allocator::LockedHeap) -> usize {
    crate::allocator::used(heap)
}

/// The allocator's report after a short-lived allocation that came after a
/// reading of `before` used bytes: the used and free bytes now, and whether
/// the used bytes are back to `before`, all of the allocation returned.
pub fn heap_test(heap: &linked_list_allocator::LockedHeap, before: usize) -> (r: (usize, usize, bool))
    ensures
        r.2 == (r.0 == before),
{
    let used = crate::allocator::used(heap);
    let free = crate::allocator::free(heap);
    (used, free, used == before)
}

} // verus!
