//! Verified core logic of a small x86-64 kernel: task states, ELF loading and
//! relocation, RTC decoding, input queues, user address spaces, the
//! capability/IPC rules and the five-colour clock application.
use vstd::prelude::*;

pub mod task_state;
pub mod bytes;
pub mod elf_reloc;
pub mod elf;
pub mod dzen;
pub mod rtc;
pub mod input;
pub mod shell;
pub mod apps;
pub mod paging;
pub mod task_space;
pub mod user_heap;
pub mod ipc;
pub mod canvas;
pub mod abi;
pub mod console;
pub mod scheduler;
pub mod syscall;
pub mod trap;
pub mod x86;
pub mod allocator;
pub mod boot;
pub mod draw;
pub mod clock;
