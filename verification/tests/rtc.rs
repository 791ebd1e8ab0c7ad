use mind_core::rtc::{
    decode_time, read_consistent, CmosPort, RtcSampler, RtcStep, STATUS_A, UPDATE_IN_PROGRESS,
};

struct Port<F: FnMut(u8) -> u8>(F);

impl<F: FnMut(u8) -> u8> CmosPort for Port<F> {
    fn read(&mut self, register: u8) -> u8 {
        (self.0)(register)
    }
}

#[test]
fn decodes_bcd_and_binary_24_hour_time() {
    assert_eq!(decode_time([0x59, 0x58, 0x23, 0x02]), Some(86339));
    assert_eq!(decode_time([59, 58, 23, 0x06]), Some(86339));
    assert_eq!(decode_time([0, 0, 0, 0x02]), Some(0));
}

#[test]
fn handles_noon_midnight_and_pm_in_12_hour_modes() {
    for (mode, twelve, eleven) in [(0x00, 0x12, 0x11), (0x04, 12, 11)] {
        assert_eq!(decode_time([0, 0, twelve, mode]), Some(0));
        assert_eq!(decode_time([0, 0, twelve | 0x80, mode]), Some(43200));
        assert_eq!(decode_time([0, 0, eleven | 0x80, mode]), Some(82800));
    }
}

#[test]
fn rejects_invalid_rtc_values() {
    for sample in [
        [0x6A, 0, 0, 2],
        [60, 0, 0, 6],
        [0, 60, 0, 6],
        [0, 0, 24, 6],
        [0, 0, 0, 0],
        [0, 0, 0x13, 0],
        [0, 0, 0x81, 2],
    ] {
        assert_eq!(decode_time(sample), None);
    }
}

#[test]
fn retries_a_snapshot_that_crossed_midnight() {
    let mut readings = [
        0, 0x59, 0x59, 0x23, 2, 0, 0, 0, 0, 2, 0, 0, 0, 0, 0, 2, 0, 0, 0, 0, 2, 0,
    ]
    .into_iter();
    assert_eq!(
        read_consistent(&mut Port(|_| readings.next().unwrap())),
        Some(0)
    );
    assert_eq!(readings.next(), None);
}

#[test]
fn skips_in_progress_updates_and_bounds_retries() {
    let mut reads = 0;
    assert_eq!(
        read_consistent(&mut Port(|register| {
            assert_eq!(register, STATUS_A);
            reads += 1;
            UPDATE_IN_PROGRESS
        })),
        None
    );
    assert_eq!(reads, 8);

    let mut readings = [UPDATE_IN_PROGRESS, 0, 1, 2, 3, 6, 0, 1, 2, 3, 6, 0].into_iter();
    assert_eq!(
        read_consistent(&mut Port(|_| readings.next().unwrap())),
        Some(10921)
    );
}

#[test]
fn sampler_asks_for_registers_in_order() {
    let mut sampler = RtcSampler::new();
    let mut asked = Vec::new();
    for value in [0u8, 1, 2, 3, 2, 0, 1, 2, 3, 2, 0] {
        match sampler.next_step() {
            RtcStep::Read(register) => asked.push(register),
            RtcStep::Done(_) => panic!("finished early"),
        }
        sampler.feed(value);
    }
    assert_eq!(asked, vec![0x0A, 0x00, 0x02, 0x04, 0x0B, 0x0A, 0x00, 0x02, 0x04, 0x0B, 0x0A]);
    assert_eq!(sampler.next_step(), RtcStep::Done(Some(3 * 3600 + 2 * 60 + 1)));
}

#[test]
fn update_in_progress_between_samples_restarts_the_attempt() {
    let mut readings = [0, 1, 2, 3, 6, UPDATE_IN_PROGRESS, 0, 4, 5, 6, 6, 0, 4, 5, 6, 6, 0].into_iter();
    assert_eq!(
        read_consistent(&mut Port(|_| readings.next().unwrap())),
        Some(6 * 3600 + 5 * 60 + 4)
    );
    assert_eq!(readings.next(), None);
}
