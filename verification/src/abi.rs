//! The records shared by the bootloader, the kernel and user programs, with
//! addresses held as plain integers, and the system call numbers.
use vstd::prelude::*;
use crate::shell::PROGRAM_COUNT;

verus! {

/// A program file that the bootloader left in memory.
#[derive(Clone, Copy, Debug)]
pub struct ProgramImage {
    pub data: u64,
    pub len: usize,
}

/// What the bootloader hands the kernel, and the kernel each task.
#[derive(Clone, Copy, Debug)]
pub struct BootInfo {
    pub fb_ptr: u64,
    pub width: usize,
    pub height: usize,
    pub stride: usize,
    pub programs: [ProgramImage; PROGRAM_COUNT],
    pub heap_ptr: u64,
    pub heap_len: usize,
    pub ap_trampoline: usize,
    pub cpu_count: usize,
    pub apic_ids: [u32; 8],
}

/// The page through which a task makes system calls.
#[derive(Clone, Copy, Debug)]
pub struct SyscallMailbox {
    pub syscall_num: usize,
    pub arg1: usize,
    pub arg2: usize,
    pub result: usize,
    pub msg: [usize; 4],
}

impl SyscallMailbox {
    /// A mailbox with every word zero.
    pub fn empty() -> (r: Self)
        ensures
            r.syscall_num == 0 && r.arg1 == 0 && r.arg2 == 0 && r.result == 0,
            r.msg@ == seq![0usize, 0, 0, 0],
    {
        let r = SyscallMailbox { syscall_num: 0, arg1: 0, arg2: 0, result: 0, msg: [0; 4] };
        assert(r.msg@ =~= seq![0usize, 0, 0, 0]);
        r
    }
}

pub const SYSCALL_RTC_TIME: usize = 4;
pub const RTC_UNAVAILABLE: usize = usize::MAX;
pub const SYSCALL_WAIT: usize = 5;
pub const SYSCALL_UPTIME: usize = 6;
pub const SYSCALL_EXIT: usize = 7;
pub const SYSCALL_ALLOC: usize = 8;
pub const SYSCALL_FREE: usize = 9;
pub const SYSCALL_IPC_SEND: usize = 10;
pub const SYSCALL_IPC_RECV: usize = 11;
pub const SYSCALL_ENDPOINT_CREATE: usize = 12;
pub const SYSCALL_SPAWN: usize = 13;
pub const SYSCALL_CAP_DROP: usize = 14;
/// Turns a mapped address into a memory capability.
pub const SYSCALL_MEM_SHARE: usize = 15;
/// Maps a memory capability into the caller's heap.
pub const SYSCALL_MEM_MAP: usize = 16;
pub const SYSCALL_PORT_IN: usize = 17;
pub const SYSCALL_PORT_OUT: usize = 18;

pub const HEAP_PAGE_SIZE: usize = 4096;
pub const HEAP_MAX_BLOCKS: usize = 32;
pub const HEAP_MAX_BYTES: usize = 16777216;

/// The record a new task finds in its information page: the boot record with
/// the framebuffer at `screen`, and no heap, program files, trampoline or
/// processor list.
pub fn task_info(boot: &BootInfo, screen: u64) -> (r: BootInfo)
    ensures
        r.fb_ptr == screen,
        r.width == boot.width && r.height == boot.height && r.stride == boot.stride,
        r.heap_ptr == 0 && r.heap_len == 0 && r.ap_trampoline == 0 && r.cpu_count == 0,
        forall|i: int| 0 <= i < PROGRAM_COUNT ==> r.programs@[i].data == 0 && r.programs@[i].len == 0,
        forall|i: int| 0 <= i < 8 ==> r.apic_ids@[i] == 0,
{
    let mut info = *boot;
    info.fb_ptr = screen;
    info.heap_ptr = 0;
    info.heap_len = 0;
    info.programs = [ProgramImage { data: 0, len: 0 }; PROGRAM_COUNT];
    info.ap_trampoline = 0;
    info.cpu_count = 0;
    info.apic_ids = [0; 8];
    info
}

} // verus!
