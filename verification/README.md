# mind_core

The logic of MIND CORE, a small x86-64 operating system (UEFI bootloader,
SMP kernel with ring-3 ELF programs, capability IPC and a handful of demo
programs), written in Verus and proved against its contracts.

## Layout

- `src/` — the verified library.
  - `boot`, `elf_reloc`: the bootloader's kernel layout, segment placement
    and relocation.
  - `elf`: parsing and loading the programs' static-PIE images.
  - `paging`, `user_heap`: per-task four-level page tables and the page-block
    heap with guard pages.
  - `scheduler`, `syscall`, `trap`, `ipc`, `task_state`: task table,
    round-robin switching, keys and logs, the system call dispatcher, the
    decision taken on each entry into the kernel, endpoints and capabilities.
  - `x86`: interrupt gates, GDT/TSS, control-register settings, the identity
    map, the timer clock and the exception report.
  - `shell`, `console`, `canvas`, `input`, `rtc`, `abi`: the kernel shell's
    command language and line editor, its text console, framebuffer drawing,
    key queues, CMOS clock sampling and the shared records.
  - `apps`, `draw`, `clock`, `dzen`: the logic of the user programs.
  - `allocator`: what the library reads of `linked_list_allocator`.
- `tests/` — tests of the library on concrete values.
- `app/` — a host program that drives the kernel shell from standard input,
  and the parts that only run on the machine itself: the UEFI side of the
  bootloader, the kernel's port I/O, the ring-3 programs and the trap
  handler that carries out what `trap` decides.

The laws the library states are its public `law_*` proof functions.
