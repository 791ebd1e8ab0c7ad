use linked_list_allocator::LockedHeap;
use mind_core::input::Key;
use mind_core::ipc::{Capability, RecvOutcome, SendOutcome};
use mind_core::scheduler::{heap_test, Fault, Scheduler, MAX_TASKS};
use mind_core::task_state::State;

fn key(byte: u8) -> Key {
    Key { app: byte, shell: byte, background: false }
}

const CTRL_Z: Key = Key { app: 26, shell: 26, background: true };

#[test]
fn a_fresh_table_has_only_the_shell() {
    let s = Scheduler::new();
    assert_eq!(s.foreground(), 0);
    assert_eq!(s.reserve(), Ok((1, 1)));
    assert_eq!(s.find(1), None);
    assert!(s.summaries().iter().all(|t| t.is_none()));
    assert_eq!(s.states(0)[0], State::Ready);
    assert!(s.states(0)[1..].iter().all(|&st| st == State::Empty));
}

#[test]
fn foreground_tasks_take_the_keyboard_and_ctrl_z_returns_it() {
    let mut s = Scheduler::new();
    let (slot, pid) = s.reserve().unwrap();
    assert_eq!(s.enter(slot, 0, false, None, 0), pid);
    assert_eq!(s.foreground(), pid);
    assert_eq!(s.find(pid), Some(slot));
    s.deliver(key(b'x'));
    assert_eq!(s.take_input(), None); // the key went to the task
    s.deliver(CTRL_Z);
    assert_eq!(s.foreground(), 0);
    assert_eq!(s.take_notice(), Some((pid, false)));
    assert_eq!(s.take_notice(), None);
    s.deliver(key(b'l'));
    assert_eq!(s.take_input(), Some(b'l'));
    assert_eq!(s.take_input(), None);
    s.deliver(CTRL_Z); // nothing to send to the background
    assert_eq!(s.take_notice(), None);
}

#[test]
fn background_tasks_leave_the_keyboard_alone() {
    let mut s = Scheduler::new();
    let (slot, pid) = s.reserve().unwrap();
    s.enter(slot, 4, true, None, 0);
    assert_eq!(s.foreground(), 0);
    let summaries = s.summaries();
    assert_eq!(summaries.len(), MAX_TASKS);
    let ping = summaries[0].as_ref().unwrap();
    assert_eq!(ping.pid, pid);
    assert_eq!(ping.name, b"ping".to_vec());
    assert_eq!(ping.state, "READY");
    assert!(!ping.foreground);
    s.focus(slot);
    assert_eq!(s.foreground(), pid);
}

#[test]
fn processors_take_turns_and_count_runs_and_ticks() {
    let mut s = Scheduler::new();
    let (a, _) = s.reserve().unwrap();
    s.enter(a, 0, true, None, 0);
    let (b, _) = s.reserve().unwrap();
    s.enter(b, 1, true, None, 0);
    let (c, _) = s.reserve().unwrap();
    s.enter(c, 2, true, None, 1);
    assert_eq!(s.switch(0), a);
    s.tick(0);
    assert_eq!(s.switch(0), b);
    assert_eq!(s.switch(0), 0);
    assert_eq!(s.switch(0), a);
    assert_eq!(s.switch(1), c);
    let summaries = s.summaries();
    let first = summaries[0].as_ref().unwrap();
    assert_eq!((first.runs, first.ticks, first.state), (2, 1, "RUNNING"));
    assert_eq!(summaries[1].as_ref().unwrap().state, "READY");
    assert_eq!(summaries[2].as_ref().unwrap().cpu, 1);
}

#[test]
fn new_tasks_go_to_the_least_loaded_online_processor() {
    let mut s = Scheduler::new();
    let (a, _) = s.reserve().unwrap();
    s.enter(a, 0, true, None, 0);
    assert_eq!(s.pick_cpu(&[true, true]), 1);
    assert_eq!(s.pick_cpu(&[true, false]), 0);
    assert_eq!(s.pick_cpu(&[false, false]), 0);
    let (b, _) = s.reserve().unwrap();
    s.enter(b, 0, true, None, 1);
    assert_eq!(s.pick_cpu(&[true, true, true]), 2);
    assert_eq!(s.pick_cpu(&[true, true]), 0);
}

#[test]
fn exits_and_kills_end_tasks_and_reaping_frees_their_slots() {
    let mut s = Scheduler::new();
    let (a, pa) = s.reserve().unwrap();
    s.enter(a, 0, false, None, 0);
    let (b, pb) = s.reserve().unwrap();
    s.enter(b, 1, true, None, 0);
    assert_eq!(s.switch(0), a);
    s.exit_current(0);
    assert_eq!(s.find(pa), None);
    assert_eq!(s.foreground(), 0);
    assert_eq!(s.take_notice(), Some((pa, true)));
    assert_eq!(s.kill(pb), Ok(()));
    assert_eq!(s.kill(pb), Err("NO SUCH PID"));
    assert_eq!(s.kill(77), Err("NO SUCH PID"));
    assert_eq!(s.switch(0), 0);
    s.reap();
    assert!(s.summaries().iter().all(|t| t.is_none()));
    assert_eq!(s.reserve(), Ok((1, 3)));
}

#[test]
fn faults_are_recorded_and_end_the_task() {
    let mut s = Scheduler::new();
    let (a, pid) = s.reserve().unwrap();
    s.enter(a, 1, true, None, 0);
    assert_eq!(s.switch(0), a);
    s.record_fault(0, 14, 2, 0x1234, 0xdead);
    let faults = s.faults();
    assert_eq!(
        faults[0],
        Some(Fault { pid, cpu: 0, vector: 14, error: 2, rip: 0x1234, address: 0xdead })
    );
    assert!(faults[1..].iter().all(|f| f.is_none()));
    assert_eq!(s.find(pid), None);
}

#[test]
fn output_is_logged_and_echoed_with_pid_prefixes_in_the_foreground() {
    let mut s = Scheduler::new();
    let (a, pid) = s.reserve().unwrap();
    s.enter(a, 0, false, None, 0);
    assert_eq!(pid, 1);
    assert_eq!(s.output(a, b"hi\nyo"), b"[PID 1] hi\n[PID 1] yo".to_vec());
    assert_eq!(s.output(a, b"u\n\n"), b"u\n\n".to_vec());
    s.focus(0);
    assert_eq!(s.output(a, b"quiet"), Vec::<u8>::new());
    let mut buffer = [0u8; 4];
    assert_eq!(s.logs(pid, &mut buffer), Ok(4));
    assert_eq!(&buffer, b"hi\ny");
    let mut rest = [0u8; 32];
    assert_eq!(s.logs(pid, &mut rest), Ok(9));
    assert_eq!(&rest[..9], b"ou\n\nquiet");
    assert_eq!(s.logs(pid, &mut rest), Ok(0));
    assert_eq!(s.logs(99, &mut rest), Err("NO SUCH PID"));
}

#[test]
fn sleepers_wake_on_time_and_keys_wake_the_foreground() {
    let mut s = Scheduler::new();
    let (a, _) = s.reserve().unwrap();
    s.enter(a, 0, false, None, 0);
    s.wake_all(5);
    assert_eq!(s.states(0)[a], State::Ready);
    let rtc = Some(Capability::Endpoint(2, 2));
    let (b, _) = s.reserve().unwrap();
    s.enter(b, 6, true, rtc, 0);
    assert_eq!(s.states(0)[b], State::Ready);
    assert_eq!(s.states(1)[b], State::Empty);
}

#[test]
fn heap_report_compares_the_used_bytes() {
    let heap = LockedHeap::empty();
    assert_eq!(heap_test(&heap, 0), (0, 0, true));
    assert_eq!(heap_test(&heap, 8), (0, 0, false));
}

#[test]
fn system_calls_act_on_the_calling_task() {
    let mut s = Scheduler::new();
    let (server, _) = s.reserve().unwrap();
    s.enter(server, 5, true, None, 0);
    let ep_slot = s.create_endpoint(server);
    assert_eq!(ep_slot, 1);
    let grant = s.delegation(server, ep_slot, 2 | 4);
    assert_eq!(grant, Some(Capability::Endpoint(0, 6)));
    let (client, _) = s.reserve().unwrap();
    s.enter(client, 4, false, grant, 0);

    // The server waits; the client's send meets it.
    assert_eq!(s.receive(server, ep_slot), RecvOutcome::Wait);
    assert_eq!(s.states(0)[server], State::BlockedIpc);
    let shared = s.share_memory(client, Some(0x9000), 4096);
    assert_eq!(shared, 3);
    let msg = [shared, 0xff, 7, 8];
    let out = s.send(client, 1, &msg);
    assert_eq!(
        out,
        SendOutcome::Deliver { receiver: server, capability: Some(Capability::Memory(0x9000, 4096)) }
    );
    s.deliver_message(server, 5, Some(Capability::Memory(0x9000, 4096)));
    assert_eq!(s.states(0)[server], State::Ready);
    assert_eq!(s.memory_cap(server, 5), Ok((0x9000, 4096)));

    // The client waits on a send; the server's receive takes it.
    assert_eq!(s.send(client, 1, &msg), SendOutcome::Wait);
    assert_eq!(s.states(0)[client], State::BlockedIpc);
    assert_eq!(s.receive(server, ep_slot), RecvOutcome::Take { sender: client });
    s.take_message(server, client, 6, 2, 0xff);
    assert_eq!(s.states(0)[client], State::Ready);
    assert_eq!(s.drop_cap(server, 6), 0);
    assert_eq!(s.drop_cap(server, 0), usize::MAX);
    assert_eq!(s.port(server, 5, 0x70), Err(usize::MAX - 1));
}

#[test]
fn waits_and_keys() {
    let mut s = Scheduler::new();
    let (a, _) = s.reserve().unwrap();
    s.enter(a, 2, false, None, 0);
    assert_eq!(s.next_key(a), 0);
    s.wait(a, 100, 25);
    assert_eq!(s.states(0)[a], State::Sleeping(130));
    s.deliver(key(b'k'));
    assert_eq!(s.states(0)[a], State::Ready);
    s.wait(a, 200, 25);
    assert_eq!(s.states(0)[a], State::Ready); // a key is waiting
    assert_eq!(s.next_key(a), b'k');
    s.wait(a, 200, 25);
    s.wake_all(229);
    assert_eq!(s.states(0)[a], State::Sleeping(230));
    s.wake_all(230);
    assert_eq!(s.states(0)[a], State::Ready);
    s.count_call(a);
    assert_eq!(s.summaries()[0].as_ref().unwrap().calls, 1);
}

#[test]
fn the_display_copies_the_screen_that_changed() {
    let mut s = Scheduler::new();
    assert_eq!(s.take_screen(), Some(0));
    assert_eq!(s.take_screen(), None);
    s.set_dirty();
    assert_eq!(s.take_screen(), Some(0));
    let (slot, _) = s.reserve().unwrap();
    s.enter(slot, 0, false, None, 0);
    assert_eq!(s.take_screen(), Some(slot));
    assert_eq!(s.take_screen(), None);
    s.set_dirty();
    assert_eq!(s.switch(0), slot);
    // The task is running: its screen is copied once it is switched out.
    assert_eq!(s.take_screen(), None);
    s.exit_current(0);
    assert_eq!(s.take_screen(), Some(0));
}

#[test]
fn a_processor_idles_only_without_ready_tasks() {
    let mut s = Scheduler::new();
    assert!(!s.has_ready(0));
    let (slot, pid) = s.reserve().unwrap();
    s.enter(slot, 0, true, None, 1);
    assert!(!s.has_ready(0));
    assert!(s.has_ready(1));
    assert_eq!(s.kill(pid), Ok(()));
    assert!(!s.has_ready(1));
}
