use mind_core::abi::{SyscallMailbox, RTC_UNAVAILABLE, SYSCALL_RTC_TIME, SYSCALL_UPTIME, SYSCALL_WAIT};
use mind_core::paging::{Space, TableMemory, PAGE, USER_HEAP};
use mind_core::scheduler::Scheduler;
use mind_core::syscall::{clock_reply, Action, SYSCALL_LOG};
use mind_core::trap::{Trap, PAGE_FAULT_VECTOR, RESCHEDULE_VECTOR, STOP_VECTOR, TIMER_VECTOR};

struct Tables {
    next: u64,
}

impl TableMemory for Tables {
    fn allocate_table(&mut self) -> Option<u64> {
        let frame = self.next;
        self.next += PAGE;
        Some(frame)
    }
    fn write_entry(&mut self, _frame: u64, _index: usize, _value: u64) {}
    fn retire_table(&mut self, _frame: u64) {}
}

fn request(number: usize, arg1: usize, arg2: usize) -> SyscallMailbox {
    let mut mailbox = SyscallMailbox::empty();
    mailbox.syscall_num = number;
    mailbox.arg1 = arg1;
    mailbox.arg2 = arg2;
    mailbox
}

/// A scheduler whose processor 0 runs a new task; its slot and pid.
fn running() -> (Scheduler, usize, u64) {
    let mut s = Scheduler::new();
    let (slot, pid) = s.reserve().unwrap();
    s.enter(slot, 0, true, None, 0);
    assert_eq!(s.switch(0), slot);
    (s, slot, pid)
}

fn state(s: &Scheduler, pid: u64) -> &'static str {
    s.summaries().into_iter().flatten().find(|t| t.pid == pid).unwrap().state
}

#[test]
fn the_clock_call_reads_the_rtc() {
    let (mut s, _, _) = running();
    assert_eq!(s.syscall(0, &request(SYSCALL_RTC_TIME, 0, 0), 0), Action::ReadClock);
    assert_eq!(clock_reply(Some(3 * 3600 + 25)), 10825);
    assert_eq!(clock_reply(None), RTC_UNAVAILABLE);
    assert_eq!(RTC_UNAVAILABLE, usize::MAX);
}

#[test]
fn log_calls_copy_readable_bytes_only() {
    let (mut s, slot, pid) = running();
    let mut tables = Tables { next: 0x10_0000 };
    let mut space = Space::new(&mut tables, 0x0F00_0000).unwrap();
    space.map(&mut tables, USER_HEAP, 0x20_0000, PAGE, true, false).unwrap();
    let (reply, _) = s.log_request(slot, &space, USER_HEAP as usize, 5, b"hello");
    assert_eq!(reply, 5);
    let (reply, shown) = s.log_request(slot, &space, (USER_HEAP + PAGE - 2) as usize, 4, b"");
    assert_eq!(reply, usize::MAX);
    assert!(shown.is_empty());
    let mut buffer = [0u8; 16];
    assert_eq!(s.logs(pid, &mut buffer), Ok(5));
    assert_eq!(&buffer[..5], b"hello");
}

#[test]
fn stop_and_kernel_exceptions_change_nothing() {
    let (mut s, _, pid) = running();
    let mailbox = request(SYSCALL_UPTIME, 0, 0);
    assert_eq!(s.interrupt(0, STOP_VECTOR, true, &mailbox, 10, 0, 0, 0), Trap::Stop);
    assert_eq!(s.interrupt(0, 13, false, &mailbox, 10, 0, 0x1234, 0), Trap::KernelFault);
    assert_eq!(state(&s, pid), "RUNNING");
}

#[test]
fn timer_on_the_idle_boot_processor_resumes() {
    let mut s = Scheduler::new();
    let mailbox = SyscallMailbox::empty();
    assert_eq!(s.interrupt(0, TIMER_VECTOR, false, &mailbox, 10, 0, 0, 0), Trap::Resume);
}

#[test]
fn timer_counts_a_tick_and_reschedules() {
    let mut s = Scheduler::new();
    let (slot, pid) = s.reserve().unwrap();
    s.enter(slot, 0, true, None, 1);
    assert_eq!(s.switch(1), slot);
    let mailbox = SyscallMailbox::empty();
    // The idle context takes its turn between the task's.
    assert_eq!(s.interrupt(1, TIMER_VECTOR, true, &mailbox, 10, 0, 0, 0), Trap::Run(0));
    assert_eq!(s.interrupt(1, RESCHEDULE_VECTOR, false, &mailbox, 20, 0, 0, 0), Trap::Run(slot));
    let t = s.summaries().into_iter().flatten().find(|t| t.pid == pid).unwrap();
    assert_eq!(t.ticks, 1);
    assert_eq!(t.runs, 2);
}

#[test]
fn a_user_fault_ends_the_task_and_is_recorded() {
    let (mut s, _, pid) = running();
    let mailbox = SyscallMailbox::empty();
    assert_eq!(s.interrupt(0, PAGE_FAULT_VECTOR, true, &mailbox, 10, 4, 0x8000_0000_10, 0xdead_0000), Trap::Run(0));
    let fault = s.faults()[0].unwrap();
    assert_eq!((fault.pid, fault.vector, fault.error, fault.address), (pid, 14, 4, 0xdead_0000));
    assert_eq!(state(&s, pid), "EXITED");
}

#[test]
fn system_calls_reply_switch_or_hand_over_an_action() {
    let (mut s, _, pid) = running();
    assert_eq!(s.interrupt(0, 0x80, true, &request(SYSCALL_RTC_TIME, 0, 0), 10, 0, 0, 0), Trap::Call(Action::ReadClock));
    assert_eq!(
        s.interrupt(0, 0x80, true, &request(SYSCALL_LOG, 0x10, 3), 10, 0, 0, 0),
        Trap::Call(Action::Log { address: 0x10, length: 3 })
    );
    assert_eq!(s.interrupt(0, 0x80, true, &request(SYSCALL_WAIT, 100, 0), 50, 0, 0, 0), Trap::ReplyAndRun(50, 0));
    assert_eq!(state(&s, pid), "SLEEPING");
}
