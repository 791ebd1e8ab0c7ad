use mind_core::abi::{task_info, BootInfo, ProgramImage, SyscallMailbox, SYSCALL_MEM_MAP};
use mind_core::shell::PROGRAM_COUNT;

#[test]
fn tasks_see_the_screen_but_nothing_of_the_boot() {
    let boot = BootInfo {
        fb_ptr: 0xe000_0000,
        width: 800,
        height: 600,
        stride: 832,
        programs: [ProgramImage { data: 0x10_0000, len: 4096 }; PROGRAM_COUNT],
        heap_ptr: 0x200_0000,
        heap_len: 64 << 20,
        ap_trampoline: 0x8000,
        cpu_count: 4,
        apic_ids: [0, 1, 2, 3, 0, 0, 0, 0],
    };
    let info = task_info(&boot, 0x80_0200_0000);
    assert_eq!(info.fb_ptr, 0x80_0200_0000);
    assert_eq!((info.width, info.height, info.stride), (800, 600, 832));
    assert_eq!((info.heap_ptr, info.heap_len, info.ap_trampoline, info.cpu_count), (0, 0, 0, 0));
    assert!(info.programs.iter().all(|p| p.data == 0 && p.len == 0));
    assert_eq!(info.apic_ids, [0; 8]);
}

#[test]
fn an_empty_mailbox_is_all_zero() {
    let mb = SyscallMailbox::empty();
    assert_eq!((mb.syscall_num, mb.arg1, mb.arg2, mb.result), (0, 0, 0, 0));
    assert_eq!(mb.msg, [0; 4]);
    assert_eq!(SYSCALL_MEM_MAP, 16);
}

