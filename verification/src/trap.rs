//! One entry into the kernel, decided: the stop IPI, an exception in the
//! kernel, the timer and the scheduling IPI, an exception in a task, or a
//! system call, as a change of the scheduler's state and what the trap
//! handler does next. The handler keeps the hardware's part (acknowledging
//! interrupts, reading the keyboard, the registers and CR2).
use vstd::prelude::*;
use crate::abi::SyscallMailbox;
use crate::scheduler::{
    chosen, fault_spec, runs_below_max, sched_ok, states_spec, switch_spec, wake_spec, Sched, Scheduler, TaskView,
    FAULT_RECORDS, MAX_CPUS, SLOTS,
};
use crate::syscall::{syscall_spec, Action};
use crate::task_state::State;

verus! {

/// The local timer's vector.
pub const TIMER_VECTOR: u64 = 0x20;
/// The IPI by which one processor asks another to reschedule.
pub const RESCHEDULE_VECTOR: u64 = 0x30;
/// The IPI that stops a processor for good.
pub const STOP_VECTOR: u64 = 0x31;
/// The page fault, whose faulting address is in CR2.
pub const PAGE_FAULT_VECTOR: u64 = 14;
/// The exceptions take the vectors below this one.
pub const EXCEPTIONS: u64 = 32;

/// What the trap handler does once `Scheduler::interrupt` has decided.
#[derive(Clone, Copy, Debug, PartialEq, Eq, Structural)]
pub enum Trap {
    /// Stop this processor: interrupts off, halt for good.
    Stop,
    /// An exception in the kernel itself: report it and stop every processor.
    KernelFault,
    /// Return to the interrupted context as it was.
    Resume,
    /// Run the task in this slot (0: the idle context).
    Run(usize),
    /// Write the first value into the caller's mailbox, then run the task in
    /// the second slot.
    ReplyAndRun(usize, usize),
    /// Carry out this action for the caller (`Action`), then return to it.
    Call(Action),
}

/// The timer's share for the task running on `cpu`: one tick more, and its
/// screen to be redrawn.
pub open spec fn ticked(s: Sched, cpu: usize) -> Sched {
    let slot = s.current[cpu as int];
    match s.tasks[slot as int] {
        Some(t) => Sched {
            tasks: s.tasks.update(slot as int, Some(TaskView { ticks: (t.ticks + 1) as u64, dirty: true, ..t })),
            ..s
        },
        None => s,
    }
}

/// The counters an entry may step stay below their limits: the runs of
/// every task, the ticks and calls of the one running on `cpu`, and the
/// fault cursor.
pub open spec fn counters_fit(s: Sched, cpu: usize) -> bool {
    &&& runs_below_max(s)
    &&& s.fault_cursor < usize::MAX
    &&& s.tasks[s.current[cpu as int] as int] matches Some(t) ==> t.ticks < u64::MAX && t.calls < u64::MAX
}

/// Every task of `b` was in `a` with as many runs.
pub open spec fn runs_kept(a: Sched, b: Sched) -> bool {
    forall|i: int|
        0 <= i < SLOTS && #[trigger] b.tasks[i] is Some ==> a.tasks[i] is Some && b.tasks[i]->0.runs
            == a.tasks[i]->0.runs
}

/// Switching `cpu` from state `s` leads to the task in `next`.
pub open spec fn switched(s: Sched, cpu: usize, next: usize, after: Sched) -> bool {
    &&& chosen(states_spec(s, cpu), s.current[cpu as int], next)
    &&& after == switch_spec(s, cpu, next)
}

/// No wake-up, tick, fault or system call adds a task or a run.
proof fn lemma_runs_kept(s: Sched, cpu: usize, now: u64, request: SyscallMailbox, vector: u64, error: u64, rip: u64, address: u64)
    requires
        sched_ok(s),
        cpu < MAX_CPUS,
    ensures
        runs_kept(s, wake_spec(s, now)),
        runs_kept(wake_spec(s, now), ticked(wake_spec(s, now), cpu)),
        s.current[cpu as int] != 0 && s.tasks[s.current[cpu as int] as int] is Some ==> runs_kept(
            s,
            fault_spec(s, cpu, vector, error, rip, address),
        ),
        s.current[cpu as int] != 0 ==> s.tasks[s.current[cpu as int] as int] is Some ==> runs_kept(
            s,
            syscall_spec(s, cpu, request, now).0,
        ),
{
}

impl Scheduler {
    /// Decides an entry into the kernel on `cpu` through `vector`, `from_user`
    /// when it interrupted a task; `request` is the running task's mailbox,
    /// `now` the time in milliseconds, `error` and `rip` the exception's error
    /// code and instruction pointer, `cr2` the faulting address of a page
    /// fault. The stop IPI stops the processor and an exception in the kernel
    /// stops them all, changing nothing. The timer and the scheduling IPI wake
    /// sleepers, count a tick for the running task and switch (the idle
    /// boot processor resumes). An exception in a task records the fault, ends
    /// the task and switches. Anything else is a system call
    /// (`Scheduler::syscall`): its switch is made here, its other actions are
    /// left to the handler.
    pub fn interrupt(
        &mut self,
        cpu: usize,
        vector: u64,
        from_user: bool,
        request: &SyscallMailbox,
        now: u64,
        error: u64,
        rip: u64,
        cr2: u64,
    ) -> (r: Trap)
        requires
            old(self).wf(),
            cpu < MAX_CPUS,
            counters_fit(old(self)@, cpu),
            old(self)@.current[cpu as int] != 0 ==> old(self)@.tasks[old(self)@.current[cpu as int] as int] is Some,
            vector < EXCEPTIONS && from_user ==> old(self)@.current[cpu as int] != 0,
        ensures
            final(self).wf(),
            vector == STOP_VECTOR ==> r == Trap::Stop && final(self)@ == old(self)@,
            vector < EXCEPTIONS && !from_user ==> r == Trap::KernelFault && final(self)@ == old(self)@,
            vector == TIMER_VECTOR || vector == RESCHEDULE_VECTOR ==> {
                let s1 = wake_spec(old(self)@, now);
                if cpu == 0 && old(self)@.current[cpu as int] == 0 {
                    r == Trap::Resume && final(self)@ == s1
                } else {
                    r matches Trap::Run(next) && switched(ticked(s1, cpu), cpu, next, final(self)@)
                }
            },
            vector < EXCEPTIONS && from_user ==> {
                let address = if vector == PAGE_FAULT_VECTOR {
                    cr2
                } else {
                    0
                };
                r matches Trap::Run(next) && switched(
                    fault_spec(old(self)@, cpu, vector, error, rip, address),
                    cpu,
                    next,
                    final(self)@,
                )
            },
            vector >= EXCEPTIONS && vector != STOP_VECTOR && vector != TIMER_VECTOR && vector != RESCHEDULE_VECTOR ==> {
                let (s1, a) = syscall_spec(old(self)@, cpu, *request, now);
                match a {
                    Action::Switch => r matches Trap::Run(next) && switched(s1, cpu, next, final(self)@),
                    Action::ReplyAndSwitch(v) => r matches Trap::ReplyAndRun(w, next) && w == v && switched(
                        s1,
                        cpu,
                        next,
                        final(self)@,
                    ),
                    _ => r == Trap::Call(a) && final(self)@ == s1,
                }
            },
    {
        let ghost s0 = self@;
        proof {
            self.lemma_view_ok();
            lemma_runs_kept(s0, cpu, now, *request, vector, error, rip, if vector == PAGE_FAULT_VECTOR {
                cr2
            } else {
                0
            });
        }
        if vector == STOP_VECTOR {
            return Trap::Stop;
        }
        if vector < EXCEPTIONS && !from_user {
            return Trap::KernelFault;
        }
        if vector == TIMER_VECTOR || vector == RESCHEDULE_VECTOR {
            let slot = self.current_slot(cpu);
            self.wake_all(now);
            if slot == 0 && cpu == 0 {
                return Trap::Resume;
            }
            if slot != 0 {
                self.tick(cpu);
            }
            let next = self.switch(cpu);
            return Trap::Run(next);
        }
        if vector < EXCEPTIONS {
            let address = if vector == PAGE_FAULT_VECTOR {
                cr2
            } else {
                0
            };
            self.record_fault(cpu, vector, error, rip, address);
            let next = self.switch(cpu);
            return Trap::Run(next);
        }
        let action = self.syscall(cpu, request, now);
        match action {
            Action::Switch => {
                let next = self.switch(cpu);
                Trap::Run(next)
            },
            Action::ReplyAndSwitch(v) => {
                let next = self.switch(cpu);
                Trap::ReplyAndRun(v, next)
            },
            _ => Trap::Call(action),
        }
    }
}

} // verus!
