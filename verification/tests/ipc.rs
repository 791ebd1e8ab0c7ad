use mind_core::ipc::{
    cap_drop, delegate, endpoint_create, initial_cspace, ipc_recv, ipc_send, mem_share, memory_of,
    port_access, received, release_endpoints, transferred, wait_duration, CapSpace, Capability,
    EpState, Endpoint, RecvOutcome, SendOutcome, CAP_GRANT, CAP_READ, CAP_SLOTS, CAP_WRITE,
    ENDPOINTS,
};

fn endpoints() -> Vec<Endpoint> {
    vec![Endpoint { state: EpState::Unused }; ENDPOINTS]
}

#[test]
fn created_endpoints_take_the_first_free_slots() {
    let mut eps = endpoints();
    let mut cs: CapSpace = [None; CAP_SLOTS];
    assert_eq!(endpoint_create(&mut eps, &mut cs), 1);
    assert_eq!(cs[1], Some(Capability::Endpoint(0, CAP_READ | CAP_WRITE | CAP_GRANT)));
    assert_eq!(eps[0].state, EpState::Idle);
    assert_eq!(endpoint_create(&mut eps, &mut cs), 2);
    assert_eq!(cs[2], Some(Capability::Endpoint(1, 7)));
    assert_eq!(cap_drop(&mut cs, 1), 0);
    assert_eq!(cs[1], None);
    assert_eq!(endpoint_create(&mut eps, &mut cs), 1);
    assert_eq!(cs[1], Some(Capability::Endpoint(2, 7)));
    assert_eq!(cap_drop(&mut cs, 0), usize::MAX);
    assert_eq!(cap_drop(&mut cs, CAP_SLOTS), usize::MAX);
}

#[test]
fn creation_fails_without_endpoints_or_slots() {
    let mut eps = vec![Endpoint { state: EpState::Idle }; ENDPOINTS];
    let mut cs: CapSpace = [None; CAP_SLOTS];
    assert_eq!(endpoint_create(&mut eps, &mut cs), usize::MAX);
    let mut eps = endpoints();
    let mut full: CapSpace = [Some(Capability::IOPort(1)); CAP_SLOTS];
    assert_eq!(endpoint_create(&mut eps, &mut full), usize::MAX - 1);
    assert_eq!(eps[0].state, EpState::Unused);
}

#[test]
fn delegation_needs_grant_and_masks_rights() {
    let mut cs: CapSpace = [None; CAP_SLOTS];
    cs[1] = Some(Capability::Endpoint(5, CAP_READ | CAP_WRITE | CAP_GRANT));
    cs[2] = Some(Capability::Endpoint(6, CAP_READ | CAP_WRITE));
    cs[3] = Some(Capability::IOPort(0x70));
    assert_eq!(delegate(&cs, 1, CAP_WRITE), Some(Capability::Endpoint(5, CAP_WRITE)));
    assert_eq!(delegate(&cs, 2, CAP_WRITE), None);
    assert_eq!(delegate(&cs, 3, 0xff), None);
    assert_eq!(delegate(&cs, 40, 0xff), None);
}

#[test]
fn passed_capabilities_never_gain_rights() {
    let mut cs: CapSpace = [None; CAP_SLOTS];
    cs[1] = Some(Capability::Endpoint(5, CAP_READ));
    cs[2] = Some(Capability::Memory(0x1000, 0x2000));
    assert_eq!(
        transferred(&cs, CAP_WRITE | CAP_GRANT, 1, 0xff),
        Some(Capability::Endpoint(5, CAP_READ))
    );
    assert_eq!(transferred(&cs, CAP_WRITE, 1, 0xff), None);
    assert_eq!(transferred(&cs, CAP_GRANT, 0, 0xff), None);
    assert_eq!(
        transferred(&cs, CAP_GRANT, 2, 0),
        Some(Capability::Memory(0x1000, 0x2000))
    );
    assert_eq!(received(&cs, 1, CAP_WRITE), Some(Capability::Endpoint(5, 0)));
    assert_eq!(received(&cs, 3, 0xff), None);
}

#[test]
fn send_and_receive_meet_in_either_order() {
    let mut eps = endpoints();
    eps[4].state = EpState::Idle;
    let mut sender: CapSpace = [None; CAP_SLOTS];
    sender[1] = Some(Capability::Endpoint(4, CAP_WRITE | CAP_GRANT));
    sender[2] = Some(Capability::Endpoint(9, CAP_READ | CAP_WRITE));
    let mut receiver: CapSpace = [None; CAP_SLOTS];
    receiver[3] = Some(Capability::Endpoint(4, CAP_READ));
    let msg = [2, CAP_READ as usize, 0, 0];

    assert_eq!(ipc_send(&sender, &mut eps, 5, 1, &msg), SendOutcome::Wait);
    assert_eq!(eps[4].state, EpState::Sending(5));
    assert_eq!(ipc_recv(&receiver, &mut eps, 6, 3), RecvOutcome::Take { sender: 5 });
    assert_eq!(eps[4].state, EpState::Idle);

    assert_eq!(ipc_recv(&receiver, &mut eps, 6, 3), RecvOutcome::Wait);
    assert_eq!(eps[4].state, EpState::Receiving(6));
    assert_eq!(
        ipc_send(&sender, &mut eps, 5, 1, &msg),
        SendOutcome::Deliver { receiver: 6, capability: Some(Capability::Endpoint(9, CAP_READ)) }
    );
    assert_eq!(eps[4].state, EpState::Idle);
}

#[test]
fn ipc_errors_name_their_cause() {
    let mut eps = endpoints();
    eps[4].state = EpState::Idle;
    let mut cs: CapSpace = [None; CAP_SLOTS];
    cs[1] = Some(Capability::Endpoint(4, CAP_READ));
    cs[2] = Some(Capability::IOPort(0x60));
    let msg = [0; 4];
    assert_eq!(ipc_send(&cs, &mut eps, 1, CAP_SLOTS, &msg), SendOutcome::Fail(usize::MAX));
    assert_eq!(ipc_send(&cs, &mut eps, 1, 2, &msg), SendOutcome::Fail(usize::MAX));
    assert_eq!(ipc_send(&cs, &mut eps, 1, 1, &msg), SendOutcome::Fail(usize::MAX - 2));
    cs[3] = Some(Capability::Endpoint(4, CAP_WRITE));
    assert_eq!(ipc_recv(&cs, &mut eps, 1, 3), RecvOutcome::Fail(usize::MAX - 2));
    assert_eq!(ipc_send(&cs, &mut eps, 1, 3, &msg), SendOutcome::Wait);
    assert_eq!(ipc_send(&cs, &mut eps, 2, 3, &msg), SendOutcome::Fail(usize::MAX - 1));
    assert_eq!(ipc_recv(&cs, &mut eps, 1, 9), RecvOutcome::Fail(usize::MAX));
}

#[test]
fn port_and_memory_capabilities() {
    let mut cs: CapSpace = [None; CAP_SLOTS];
    cs[2] = Some(Capability::IOPort(0x70));
    assert_eq!(port_access(&cs, 2, 0x70), Ok(()));
    assert_eq!(port_access(&cs, 2, 0x71), Err(usize::MAX - 2));
    assert_eq!(port_access(&cs, 1, 0x70), Err(usize::MAX - 1));
    assert_eq!(port_access(&cs, 99, 0x70), Err(usize::MAX));
    assert_eq!(mem_share(&mut cs, None, 4096), usize::MAX - 2);
    assert_eq!(mem_share(&mut cs, Some(0x5000), 4096), 1);
    assert_eq!(memory_of(&cs, 1), Ok((0x5000, 4096)));
    assert_eq!(memory_of(&cs, 2), Err(usize::MAX - 1));
    assert_eq!(memory_of(&cs, 32), Err(usize::MAX));
    let mut full: CapSpace = [Some(Capability::IOPort(1)); CAP_SLOTS];
    assert_eq!(mem_share(&mut full, Some(0x5000), 1), usize::MAX - 1);
}

#[test]
fn waits_round_up_to_ticks_within_a_minute() {
    assert_eq!(wait_duration(0), 10);
    assert_eq!(wait_duration(1), 10);
    assert_eq!(wait_duration(10), 10);
    assert_eq!(wait_duration(11), 20);
    assert_eq!(wait_duration(59_999), 60_000);
    assert_eq!(wait_duration(usize::MAX), 60_000);
}

#[test]
fn exit_releases_waits_and_new_tasks_get_rtc_access() {
    let mut eps = endpoints();
    eps[1].state = EpState::Sending(3);
    eps[2].state = EpState::Receiving(4);
    eps[3].state = EpState::Receiving(3);
    release_endpoints(&mut eps, 3);
    assert_eq!(eps[1].state, EpState::Idle);
    assert_eq!(eps[2].state, EpState::Receiving(4));
    assert_eq!(eps[3].state, EpState::Idle);

    let mut eps = endpoints();
    let rtc = initial_cspace(6, None, &mut eps);
    assert_eq!(rtc[1], Some(Capability::Endpoint(2, 7)));
    assert_eq!(rtc[2], Some(Capability::IOPort(0x70)));
    assert_eq!(rtc[3], Some(Capability::IOPort(0x71)));
    assert_eq!(eps[2].state, EpState::Idle);
    let init = Some(Capability::Endpoint(8, CAP_WRITE));
    let app = initial_cspace(0, init, &mut eps);
    assert_eq!(app[1], init);
    assert_eq!(app[2], Some(Capability::Endpoint(2, CAP_WRITE | CAP_GRANT)));
    assert_eq!(app[3], None);
}
