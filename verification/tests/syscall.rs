use mind_core::abi::{
    SyscallMailbox, SYSCALL_CAP_DROP, SYSCALL_ENDPOINT_CREATE, SYSCALL_EXIT, SYSCALL_IPC_RECV, SYSCALL_IPC_SEND,
    SYSCALL_MEM_MAP, SYSCALL_PORT_IN, SYSCALL_PORT_OUT, SYSCALL_SPAWN, SYSCALL_UPTIME, SYSCALL_WAIT,
};
use mind_core::input::Key;
use mind_core::ipc::Capability;
use mind_core::scheduler::Scheduler;
use mind_core::syscall::{spawn_target, Action, SPAWN_BAD_NAME, SPAWN_UNKNOWN, SYSCALL_COUNTER, SYSCALL_KEY, SYSCALL_LOG};
use mind_core::task_state::State;

fn request(number: usize, arg1: usize, arg2: usize) -> SyscallMailbox {
    let mut mailbox = SyscallMailbox::empty();
    mailbox.syscall_num = number;
    mailbox.arg1 = arg1;
    mailbox.arg2 = arg2;
    mailbox
}

/// A scheduler whose processor 0 runs a new task of `program`.
fn running(program: usize, background: bool) -> (Scheduler, u64) {
    let mut s = Scheduler::new();
    let (slot, pid) = s.reserve().unwrap();
    s.enter(slot, program, background, None, 0);
    assert_eq!(s.switch(0), slot);
    (s, pid)
}

fn calls(s: &Scheduler, pid: u64) -> u64 {
    s.summaries().into_iter().flatten().find(|t| t.pid == pid).unwrap().calls
}

#[test]
fn the_idle_context_only_switches() {
    let mut s = Scheduler::new();
    assert_eq!(s.syscall(0, &request(SYSCALL_UPTIME, 0, 0), 5), Action::Switch);
}

#[test]
fn keys_come_in_order_and_then_zero() {
    let (mut s, pid) = running(0, false);
    s.deliver(Key { app: b'a', shell: b'a', background: false });
    s.deliver(Key { app: b'b', shell: b'b', background: false });
    assert_eq!(s.syscall(0, &request(SYSCALL_KEY, 0, 0), 0), Action::Reply(b'a' as usize));
    assert_eq!(s.syscall(0, &request(SYSCALL_KEY, 0, 0), 0), Action::Reply(b'b' as usize));
    assert_eq!(s.syscall(0, &request(SYSCALL_KEY, 0, 0), 0), Action::Reply(0));
    assert_eq!(calls(&s, pid), 3);
}

#[test]
fn memory_and_hardware_calls_become_actions() {
    let (mut s, _) = running(0, true);
    assert_eq!(s.syscall(0, &request(SYSCALL_COUNTER, 0, 0), 0), Action::ReadCounter);
    assert_eq!(
        s.syscall(0, &request(SYSCALL_LOG, 0x1000, 10_000), 0),
        Action::Log { address: 0x1000, length: 4096 }
    );
    assert_eq!(s.syscall(0, &request(SYSCALL_LOG, 0x1000, 7), 0), Action::Log { address: 0x1000, length: 7 });
    assert_eq!(s.syscall(0, &request(SYSCALL_UPTIME, 0, 0), 1234), Action::Reply(1234));
    assert_eq!(s.syscall(0, &request(8, 100, 0), 0), Action::Allocate(100));
    assert_eq!(s.syscall(0, &request(9, 0x5000, 0), 0), Action::Free(0x5000));
    assert_eq!(s.syscall(0, &request(15, 0x6000, 64), 0), Action::Share { address: 0x6000, size: 64 });
    assert_eq!(s.syscall(0, &request(99, 0, 0), 0), Action::Reply(usize::MAX));
}

#[test]
fn waiting_sleeps_in_whole_ticks() {
    let (mut s, pid) = running(0, true);
    assert_eq!(s.syscall(0, &request(SYSCALL_WAIT, 15, 0), 1000), Action::ReplyAndSwitch(1000));
    let slot = s.find(pid).unwrap();
    assert_eq!(s.state_of(slot), State::Sleeping(1020));
}

#[test]
fn exit_ends_the_task_and_later_calls_only_switch() {
    let (mut s, pid) = running(0, false);
    assert_eq!(s.syscall(0, &request(SYSCALL_EXIT, 0, 0), 0), Action::Switch);
    assert_eq!(s.foreground(), 0);
    assert_eq!(s.take_notice(), Some((pid, true)));
    assert_eq!(s.syscall(0, &request(SYSCALL_UPTIME, 0, 0), 0), Action::Switch);
    assert_eq!(calls(&s, pid), 1);
}

#[test]
fn capability_calls_check_their_slots() {
    let (mut s, _) = running(4, true);
    assert_eq!(s.syscall(0, &request(SYSCALL_CAP_DROP, 0, 0), 0), Action::Reply(usize::MAX));
    assert_eq!(s.syscall(0, &request(SYSCALL_CAP_DROP, 32, 0), 0), Action::Reply(usize::MAX));
    assert_eq!(s.syscall(0, &request(SYSCALL_CAP_DROP, 5, 0), 0), Action::Reply(0));
    assert_eq!(s.syscall(0, &request(SYSCALL_MEM_MAP, 40, 0), 0), Action::Reply(usize::MAX));
    assert_eq!(s.syscall(0, &request(SYSCALL_MEM_MAP, 3, 0), 0), Action::Reply(usize::MAX - 1));
    assert_eq!(s.syscall(0, &request(SYSCALL_PORT_IN, 2, 0x70), 0), Action::Reply(usize::MAX - 1));
    assert_eq!(s.syscall(0, &request(SYSCALL_PORT_OUT, 40, 0x70), 0), Action::Reply(usize::MAX));
    // A new endpoint takes the first free slot: slot 1 holds nothing for a
    // task started without a capability.
    assert_eq!(s.syscall(0, &request(SYSCALL_ENDPOINT_CREATE, 0, 0), 0), Action::Reply(1));
    let mut spawn = request(SYSCALL_SPAWN, 0x2000, 100);
    spawn.msg = [2, 2, 0, 0];
    assert_eq!(
        s.syscall(0, &spawn, 0),
        Action::Spawn { address: 0x2000, length: 32, grant: Some(Capability::Endpoint(2, 2)) }
    );
    // Slot 1 now holds the new endpoint 0 with every right.
    spawn.msg = [1, 2, 0, 0];
    assert_eq!(
        s.syscall(0, &spawn, 0),
        Action::Spawn { address: 0x2000, length: 32, grant: Some(Capability::Endpoint(0, 2)) }
    );
    spawn.msg = [5, 7, 0, 0];
    assert_eq!(s.syscall(0, &spawn, 0), Action::Spawn { address: 0x2000, length: 32, grant: None });
}

#[test]
fn the_rtc_driver_may_use_its_ports() {
    let (mut s, _) = running(6, true);
    assert_eq!(s.syscall(0, &request(SYSCALL_PORT_IN, 3, 0x71), 0), Action::PortIn(0x71));
    assert_eq!(s.syscall(0, &request(SYSCALL_PORT_IN, 3, 0x70), 0), Action::Reply(usize::MAX - 2));
    let mut out = request(SYSCALL_PORT_OUT, 2, 0x70);
    out.msg = [0x0A, 0, 0, 0];
    assert_eq!(s.syscall(0, &out, 0), Action::PortOut(0x70, 0x0A));
}

#[test]
fn a_send_without_a_receiver_waits() {
    let mut s = Scheduler::new();
    let (rtc, _) = s.reserve().unwrap();
    s.enter(rtc, 6, true, None, 1);
    let (slot, pid) = s.reserve().unwrap();
    s.enter(slot, 4, true, None, 0);
    assert_eq!(s.switch(0), slot);
    // Slot 2 of every task reaches the RTC driver's endpoint, which is idle.
    assert_eq!(s.syscall(0, &request(SYSCALL_IPC_SEND, 2, 0), 0), Action::Switch);
    assert_eq!(s.find(pid), Some(slot));
    assert_eq!(s.state_of(slot), State::BlockedIpc);
    assert_eq!(s.syscall(0, &request(SYSCALL_IPC_RECV, 31, 0), 0), Action::Reply(usize::MAX));
}

#[test]
fn tasks_keep_their_processor_and_their_pid() {
    let mut s = Scheduler::new();
    let (a, pid_a) = s.reserve().unwrap();
    s.enter(a, 0, true, None, 0);
    let (b, pid_b) = s.reserve().unwrap();
    s.enter(b, 1, true, None, 1);
    assert_ne!(pid_a, pid_b);
    assert_eq!(s.switch(0), a);
    assert_eq!(s.switch(1), b);
    for number in [SYSCALL_COUNTER, SYSCALL_KEY, SYSCALL_UPTIME, SYSCALL_ENDPOINT_CREATE, SYSCALL_WAIT] {
        s.syscall(0, &request(number, 10, 0), 100);
        s.syscall(1, &request(number, 10, 0), 100);
    }
    s.wake_all(1000);
    let tasks: Vec<_> = s.summaries().into_iter().flatten().collect();
    assert_eq!(tasks.len(), 2);
    assert_eq!((tasks[0].pid, tasks[0].cpu, tasks[0].calls), (pid_a, 0, 5));
    assert_eq!((tasks[1].pid, tasks[1].cpu, tasks[1].calls), (pid_b, 1, 5));
}

#[test]
fn a_memory_capability_maps_its_frames() {
    let (mut s, pid) = running(5, true);
    let slot = s.find(pid).unwrap();
    let index = s.share_memory(slot, Some(0x7000), 4096);
    assert_eq!(index, 1);
    assert_eq!(
        s.syscall(0, &request(SYSCALL_MEM_MAP, index, 0), 0),
        Action::MapShared { physical: 0x7000, bytes: 4096 }
    );
}

#[test]
fn spawn_names_are_looked_up_ignoring_case() {
    assert_eq!(spawn_target(b"CLOCK"), Ok(2));
    assert_eq!(spawn_target(b"app2"), Ok(1));
    assert_eq!(spawn_target(b"nosuch"), Err(SPAWN_UNKNOWN));
    assert_eq!(spawn_target(&[0xff, 0xfe]), Err(SPAWN_BAD_NAME));
    assert_eq!((SPAWN_UNKNOWN, SPAWN_BAD_NAME), (usize::MAX - 2, usize::MAX - 3));
}
