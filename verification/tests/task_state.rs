use mind_core::task_state::{next, State};

#[test]
fn round_robin_starts_after_the_current_slot() {
    let states = [State::Ready, State::Ready, State::Empty, State::Ready];
    assert_eq!(next(&states, 0), 1);
    assert_eq!(next(&states, 1), 3);
    assert_eq!(next(&states, 3), 0);
    let only_current = [State::Empty, State::Ready, State::Sleeping(5)];
    assert_eq!(next(&only_current, 1), 1);
    let none = [State::Exited, State::BlockedIpc];
    assert_eq!(next(&none, 1), 0);
}

#[test]
fn sleepers_wake_at_their_deadline_even_across_wrap() {
    let mut s = State::Sleeping(100);
    s.wake(99);
    assert_eq!(s, State::Sleeping(100));
    s.wake(100);
    assert_eq!(s, State::Ready);
    let mut wrapped = State::Sleeping(u64::MAX - 5);
    wrapped.wake(3);
    assert_eq!(wrapped, State::Ready);
    let mut blocked = State::BlockedIpc;
    blocked.wake(1000);
    assert_eq!(blocked, State::BlockedIpc);
}

#[test]
fn labels_name_each_state() {
    assert_eq!(State::Empty.label(), "EMPTY");
    assert_eq!(State::Ready.label(), "READY");
    assert_eq!(State::Sleeping(1).label(), "SLEEPING");
    assert_eq!(State::BlockedIpc.label(), "IPC_WAIT");
    assert_eq!(State::BlockedIrq(1).label(), "IRQ_WAIT");
    assert_eq!(State::Exited.label(), "EXITED");
}
