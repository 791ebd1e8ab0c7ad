use mind_core::x86::{cr0_value, cr4_value, efer_low, exception_report, hex};
use mind_core::x86::{
    advance, cpu_index, descriptor_table, gate, gdt, identity_entry, identity_map, initial_frame,
    lapic_base, milliseconds, startup_ipi, task_state_segment, tss_descriptor, Handlers,
};

#[test]
fn the_clock_counts_ten_milliseconds_per_tick() {
    let mut ticks = 0u64;
    advance(&mut ticks);
    advance(&mut ticks);
    assert_eq!(ticks, 2);
    assert_eq!(milliseconds(ticks), 20);
    let mut last = u64::MAX;
    advance(&mut last);
    assert_eq!(last, 0);
    assert_eq!(milliseconds(u64::MAX), u64::MAX.wrapping_mul(10));
}

#[test]
fn gates_split_the_handler_address() {
    let g = gate(0x1122_3344_5566_7788, 8);
    assert_eq!(g.offset_low, 0x7788);
    assert_eq!(g.offset_mid, 0x5566);
    assert_eq!(g.offset_high, 0x1122_3344);
    assert_eq!(g.selector, 8);
    assert_eq!(g.type_attr, 0x8e);
    assert_eq!((g.ist, g.zero), (0, 0));
}

fn handlers() -> Handlers {
    let mut offsets = [0u64; 32];
    for (i, o) in offsets.iter_mut().enumerate() {
        *o = 16 * i as u64;
    }
    Handlers {
        unexpected: 0x1000,
        exception_table: 0x2000,
        exception_offsets: offsets,
        timer: 0x3000,
        ipi: 0x3100,
        stop: 0x3200,
        spurious_master: 0x3300,
        spurious_slave: 0x3400,
        syscall: 0x8000,
    }
}

fn target(g: &mind_core::x86::IdtEntry) -> u64 {
    g.offset_low as u64 | (g.offset_mid as u64) << 16 | (g.offset_high as u64) << 32
}

#[test]
fn the_descriptor_table_routes_every_vector() {
    let table = descriptor_table(&handlers(), 8);
    assert_eq!(table.len(), 256);
    assert_eq!(target(&table[0]), 0x2000);
    assert_eq!(target(&table[14]), 0x2000 + 14 * 16);
    assert_eq!(table[8].ist, 1);
    assert_eq!(table[2].ist, 2);
    assert_eq!(table[3].ist, 0);
    assert_eq!(target(&table[0x20]), 0x3000);
    assert_eq!(target(&table[0x30]), 0x3100);
    assert_eq!(target(&table[0x31]), 0x3200);
    assert_eq!(target(&table[0x27]), 0x3300);
    assert_eq!(target(&table[0xff]), 0x3300);
    assert_eq!(target(&table[0x2f]), 0x3400);
    assert_eq!(target(&table[0x80]), 0x8000);
    assert_eq!(table[0x80].type_attr, 0xee);
    assert_eq!(table[0x21].type_attr, 0x8e);
    assert_eq!(target(&table[0x21]), 0x1000);
    assert!(table.iter().all(|g| g.selector == 8 && g.zero == 0));
}

#[test]
fn task_state_segment_and_its_descriptor() {
    let (low, high) = tss_descriptor(0x1234_5678_9abc_def0);
    assert_eq!(low & 0xffff, 103);
    assert_eq!((low >> 16) & 0xff_ffff, 0xbc_def0);
    assert_eq!((low >> 40) & 0xff, 0x89);
    assert_eq!(low >> 56, 0x9a);
    assert_eq!(high, 0x1234_5678);
    let table = gdt(0x1234_5678_9abc_def0);
    assert_eq!(table[1], 0x00af9a000000ffff);
    assert_eq!(table[4], 0x00affa000000ffff);
    assert_eq!((table[5], table[6]), (low, high));

    let tss = task_state_segment(0x1111, 0x2222, 0x3333);
    assert_eq!(tss.len(), 104);
    assert_eq!(u64::from_le_bytes(tss[4..12].try_into().unwrap()), 0x1111);
    assert_eq!(u64::from_le_bytes(tss[36..44].try_into().unwrap()), 0x2222);
    assert_eq!(u64::from_le_bytes(tss[44..52].try_into().unwrap()), 0x3333);
    assert_eq!(u16::from_le_bytes([tss[102], tss[103]]), 104);
    assert!(tss[..4].iter().all(|&b| b == 0));
    assert!(tss[52..102].iter().all(|&b| b == 0));
}

#[test]
fn a_new_task_starts_in_ring_3_at_its_entry() {
    let frame = initial_frame(0x80_0000_1000, 0x80_0101_0ff8);
    assert_eq!(frame[8], 0x80_0400_0000);
    assert_eq!(frame[9], 0x80_0400_1000);
    assert_eq!(frame[17], 0x80_0000_1000);
    assert_eq!(frame[18], 0x23);
    assert_eq!(frame[19], 0x202);
    assert_eq!(frame[20], 0x80_0101_0ff8);
    assert_eq!(frame[21], 0x1b);
    assert_eq!(frame[0], 0);
}

#[test]
fn processors_and_their_apics() {
    let ids = [0, 2, 4, 6, 0, 0, 0, 0];
    assert_eq!(cpu_index(&ids, 4, 4), 2);
    assert_eq!(cpu_index(&ids, 4, 5), 0);
    assert_eq!(cpu_index(&ids, 2, 4), 0);
    assert_eq!(lapic_base(0xfee0_0900, 0), Some(0xfee0_0000));
    assert_eq!(lapic_base(0xfee0_0d00, 0), None);
    assert_eq!(lapic_base(0xfee0_0900, 1), None);
    assert_eq!(startup_ipi(0x8000), 0x608);
}

#[test]
fn the_identity_map_covers_four_gigabytes() {
    assert_eq!(identity_entry(0), 0x83);
    assert_eq!(identity_entry(1), 0x200083);
    assert_eq!(identity_entry(1535), (1535u64 << 21) | 0x83);
    assert_eq!(identity_entry(1536), 0xc000_0000 | 0x83 | 0x18);
    let map = identity_map();
    assert_eq!(map.len(), 2048);
    assert_eq!(map[2047], (2047u64 << 21) | 0x9b);
}

#[test]
fn control_registers_take_the_kernel_settings() {
    assert_eq!(efer_low(1), 0x800);
    assert_eq!(efer_low(0xd01), 0xd00);
    assert_eq!(cr0_value(0xF), 0x10003);
    assert_eq!(cr0_value(0x8000_0011), 0x8001_0013);
    assert_eq!(cr4_value(0x700a0), 0x620);
    assert_eq!(cr4_value(0), 0x600);
}

#[test]
fn kernel_exceptions_are_reported_in_hex() {
    assert_eq!(&hex(0xDEAD_BEEF), b"00000000DEADBEEF");
    assert_eq!(&hex(u64::MAX), b"FFFFFFFFFFFFFFFF");
    assert_eq!(&hex(0), b"0000000000000000");
    assert_eq!(
        exception_report(14, 0x1234, 2),
        b"KERNEL EXCEPTION VECTOR=14 RIP=0000000000001234 ERROR=0000000000000002\r\n".to_vec()
    );
}
