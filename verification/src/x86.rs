//! The processor tables the kernel builds: interrupt gates, the task state
//! segment and its descriptor, a new task's register frame, the kernel's
//! identity mapping, and the timer's millisecond clock.
use vstd::prelude::*;
use crate::paging::{USER_INFO, USER_MAILBOX};
use crate::apps::{digits, decimal_u64};

verus! {

broadcast use vstd::array::group_array_axioms;

/// Milliseconds per timer tick.
pub const TICK_MS: u64 = 10;

/// One timer tick; the counter wraps like the atomic it stands for.
pub fn advance(ticks: &mut u64)
    ensures
        *final(ticks) == (*old(ticks)).wrapping_add(1),
{
    *ticks = (*ticks).wrapping_add(1);
}

/// The uptime the tick counter stands for, wrapping at 2^64 ms.
pub fn milliseconds(ticks: u64) -> (r: u64)
    ensures
        r == ticks.wrapping_mul(TICK_MS),
{
    ticks.wrapping_mul(TICK_MS)
}

/// An interrupt descriptor: the handler's address split in three, the code
/// selector, the interrupt stack, and the descriptor's type and ring.
#[derive(Clone, Copy, Debug, PartialEq, Eq, Structural)]
pub struct IdtEntry {
    pub offset_low: u16,
    pub selector: u16,
    pub ist: u8,
    pub type_attr: u8,
    pub offset_mid: u16,
    pub offset_high: u32,
    pub zero: u32,
}

/// The address a gate jumps to.
pub open spec fn gate_target(e: IdtEntry) -> u64 {
    (e.offset_low as u64) | ((e.offset_mid as u64) << 16u64) | ((e.offset_high as u64) << 32u64)
}

/// A present ring-0 interrupt gate to `address` in code segment `selector`.
pub fn gate(address: u64, selector: u16) -> (r: IdtEntry)
    ensures
        gate_target(r) == address,
        r.selector == selector,
        r.ist == 0,
        r.type_attr == 0x8e,
        r.zero == 0,
{
    let r = IdtEntry {
        offset_low: address as u16,
        selector,
        ist: 0,
        type_attr: 0x8e,
        offset_mid: (address >> 16) as u16,
        offset_high: (address >> 32) as u32,
        zero: 0,
    };
    assert(((address as u16) as u64) | ((((address >> 16u64) as u16) as u64) << 16u64) | ((((address
        >> 32u64) as u32) as u64) << 32u64) == address) by (bit_vector);
    r
}

/// The handlers the kernel installs.
#[derive(Clone, Copy, Debug)]
pub struct Handlers {
    /// Halts the machine on a vector nobody expects.
    pub unexpected: u64,
    /// The table of the 32 exception stubs, each entry an offset from it.
    pub exception_table: u64,
    pub exception_offsets: [u64; 32],
    pub timer: u64,
    pub ipi: u64,
    pub stop: u64,
    pub spurious_master: u64,
    pub spurious_slave: u64,
    pub syscall: u64,
}

/// Where vector `v` leads: an exception stub, the timer (0x20), the
/// scheduling IPI (0x30), the stop IPI (0x31), the spurious PIC and APIC
/// vectors (0x27, 0x2f, 0xff), the system call (0x80), or the halt.
pub open spec fn vector_target(h: Handlers, v: int) -> u64 {
    if v < 32 {
        h.exception_table.wrapping_add(h.exception_offsets@[v])
    } else if v == 0x20 {
        h.timer
    } else if v == 0x30 {
        h.ipi
    } else if v == 0x31 {
        h.stop
    } else if v == 0x27 || v == 0xff {
        h.spurious_master
    } else if v == 0x2f {
        h.spurious_slave
    } else if v == 0x80 {
        h.syscall
    } else {
        h.unexpected
    }
}

/// The whole table in code segment `selector`: double faults (8) run on
/// interrupt stack 1 and NMIs (2) on stack 2, and only the system call gate
/// can be reached from ring 3.
pub open spec fn table_ok(h: Handlers, selector: u16, t: Seq<IdtEntry>) -> bool {
    &&& t.len() == 256
    &&& forall|v: int|
        0 <= v < 256 ==> {
            &&& gate_target(#[trigger] t[v]) == vector_target(h, v)
            &&& t[v].selector == selector
            &&& t[v].ist == (if v == 8 {
                1u8
            } else if v == 2 {
                2u8
            } else {
                0u8
            })
            &&& t[v].type_attr == (if v == 0x80 {
                0xeeu8
            } else {
                0x8eu8
            })
            &&& t[v].zero == 0
        }
}

pub fn descriptor_table(h: &Handlers, selector: u16) -> (r: Vec<IdtEntry>)
    ensures
        table_ok(*h, selector, r@),
{
    let mut t: Vec<IdtEntry> = Vec::new();
    let mut v: usize = 0;
    while v < 256
        invariant
            v <= 256,
            t@.len() == v,
            forall|k: int|
                0 <= k < v ==> {
                    &&& gate_target(#[trigger] t@[k]) == vector_target(*h, k)
                    &&& t@[k].selector == selector
                    &&& t@[k].ist == (if k == 8 {
                        1u8
                    } else if k == 2 {
                        2u8
                    } else {
                        0u8
                    })
                    &&& t@[k].type_attr == (if k == 0x80 {
                        0xeeu8
                    } else {
                        0x8eu8
                    })
                    &&& t@[k].zero == 0
                },
        decreases 256 - v,
    {
        let address = if v < 32 {
            h.exception_table.wrapping_add(h.exception_offsets[v])
        } else if v == 0x20 {
            h.timer
        } else if v == 0x30 {
            h.ipi
        } else if v == 0x31 {
            h.stop
        } else if v == 0x27 || v == 0xff {
            h.spurious_master
        } else if v == 0x2f {
            h.spurious_slave
        } else if v == 0x80 {
            h.syscall
        } else {
            h.unexpected
        };
        let mut entry = gate(address, selector);
        if v == 8 {
            entry.ist = 1;
        } else if v == 2 {
            entry.ist = 2;
        }
        if v == 0x80 {
            entry.type_attr = 0xee;
        }
        t.push(entry);
        v += 1;
    }
    t
}

/// The task state segment's descriptor for a segment at `base`: limit 103,
/// an available 64-bit TSS, the base spread over both words.
pub open spec fn tss_descriptor_spec(base: u64) -> (u64, u64) {
    (103u64 | ((base & 0xffffff) << 16u64) | (0x89u64 << 40u64) | (((base >> 24u64) & 255) << 56u64), base >> 32u64)
}

pub fn tss_descriptor(base: u64) -> (r: (u64, u64))
    ensures
        r == tss_descriptor_spec(base),
        (r.0 >> 16u64) & 0xffffff | (((r.0 >> 56u64) & 255) << 24u64) | (r.1 << 32u64) == base,
        r.0 & 0xffff == 103,
{
    let low = 103u64 | ((base & 0xffffff) << 16) | (0x89u64 << 40) | (((base >> 24) & 255) << 56);
    let high = base >> 32;
    assert(((103u64 | ((base & 0xffffff) << 16u64) | (0x89u64 << 40u64) | (((base >> 24u64) & 255) << 56u64))
        >> 16u64) & 0xffffff | ((((103u64 | ((base & 0xffffff) << 16u64) | (0x89u64 << 40u64) | (((base >> 24u64)
        & 255) << 56u64)) >> 56u64) & 255) << 24u64) | ((base >> 32u64) << 32u64) == base) by (bit_vector);
    assert((103u64 | ((base & 0xffffff) << 16u64) | (0x89u64 << 40u64) | (((base >> 24u64) & 255) << 56u64))
        & 0xffff == 103) by (bit_vector);
    (low, high)
}

/// The descriptor table of one processor: the null descriptor, 64-bit
/// kernel code, kernel data, user data and 64-bit user code, then the task
/// state segment at `tss_base`.
pub open spec fn gdt_spec(tss_base: u64) -> Seq<u64> {
    seq![
        0u64,
        0x00af9a000000ffffu64,
        0x00cf92000000ffffu64,
        0x00cff2000000ffffu64,
        0x00affa000000ffffu64,
        tss_descriptor_spec(tss_base).0,
        tss_descriptor_spec(tss_base).1,
    ]
}

pub fn gdt(tss_base: u64) -> (r: [u64; 7])
    ensures
        r@ == gdt_spec(tss_base),
{
    let (low, high) = tss_descriptor(tss_base);
    let r = [0, 0x00af9a000000ffff, 0x00cf92000000ffff, 0x00cff2000000ffff, 0x00affa000000ffff, low, high];
    assert(r@ =~= gdt_spec(tss_base));
    r
}

/// A task state segment: the ring-0 stack at byte 4, the two interrupt
/// stacks at bytes 36 and 44, and the I/O map base 104 (no I/O map) at 102,
/// every other byte zero.
pub open spec fn tss_spec(rsp0: u64, ist1: u64, ist2: u64) -> Seq<u8> {
    let zero = Seq::new(104, |_i: int| 0u8);
    let with_stacks = crate::bytes::write64(
        crate::bytes::write64(crate::bytes::write64(zero, 4, rsp0), 36, ist1),
        44,
        ist2,
    );
    with_stacks.update(102, 104u8).update(103, 0u8)
}

pub fn task_state_segment(rsp0: u64, ist1: u64, ist2: u64) -> (r: Vec<u8>)
    ensures
        r@ == tss_spec(rsp0, ist1, ist2),
{
    let mut r: Vec<u8> = Vec::new();
    let mut i: usize = 0;
    while i < 104
        invariant
            i <= 104,
            r@ == Seq::new(i as nat, |_i: int| 0u8),
        decreases 104 - i,
    {
        r.push(0);
        assert(r@ =~= Seq::new((i + 1) as nat, |_i: int| 0u8));
        i += 1;
    }
    crate::bytes::write_u64(r.as_mut_slice(), 4, rsp0);
    crate::bytes::write_u64(r.as_mut_slice(), 36, ist1);
    crate::bytes::write_u64(r.as_mut_slice(), 44, ist2);
    r.set(102, 104);
    r.set(103, 0);
    r
}

/// The saved registers a new task starts from: the information page in
/// RDI (word 8), the mailbox in RSI (word 9), the entry point (word 17),
/// user code segment 0x23, interrupts enabled (0x202), the stack top, and
/// user data segment 0x1b.
pub open spec fn initial_frame_spec(entry: u64, stack_top: u64) -> Seq<u64> {
    Seq::new(22, |_i: int| 0u64).update(8, USER_INFO).update(9, USER_MAILBOX).update(17, entry).update(
        18,
        0x23u64,
    ).update(19, 0x202u64).update(20, stack_top).update(21, 0x1bu64)
}

pub fn initial_frame(entry: u64, stack_top: u64) -> (r: [u64; 22])
    ensures
        r@ == initial_frame_spec(entry, stack_top),
{
    let mut words = [0u64; 22];
    words[8] = USER_INFO;
    words[9] = USER_MAILBOX;
    words[17] = entry;
    words[18] = 0x23;
    words[19] = 0x202;
    words[20] = stack_top;
    words[21] = 0x1b;
    assert(words@ =~= initial_frame_spec(entry, stack_top));
    words
}

/// The index of the processor whose local APIC id is `apic`, among the
/// first `count`; 0 when none matches.
pub fn cpu_index(apic_ids: &[u32], count: usize, apic: u32) -> (r: usize)
    requires
        count <= apic_ids@.len(),
    ensures
        r < count && apic_ids@[r as int] == apic && (forall|i: int| 0 <= i < r ==> apic_ids@[i] != apic)
            || r == 0 && (forall|i: int| 0 <= i < count ==> apic_ids@[i] != apic),
{
    let mut i: usize = 0;
    while i < count
        invariant
            i <= count <= apic_ids@.len(),
            forall|k: int| 0 <= k < i ==> apic_ids@[k] != apic,
        decreases count - i,
    {
        if apic_ids[i] == apic {
            return i;
        }
        i += 1;
    }
    0
}

/// The local APIC's base from the APIC base register: the page it names,
/// if it lies below 4 GiB and x2APIC mode (bit 10) is off.
pub fn lapic_base(lo: u32, hi: u32) -> (r: Option<u64>)
    ensures
        r == if hi == 0 && lo & 0x400 == 0 {
            Some((lo & 0xfffff000) as u64)
        } else {
            None::<u64>
        },
{
    if hi == 0 && lo & 0x400 == 0 {
        Some((lo & 0xfffff000) as u64)
    } else {
        None
    }
}

/// The startup IPI that starts an application processor at the trampoline
/// page `base`.
pub fn startup_ipi(base: u64) -> (r: u32)
    requires
        base < 0x100000,
    ensures
        r == 0x600 | ((base >> 12u64) as u32),
{
    0x600 | ((base >> 12) as u32)
}

/// Entry `index` of the kernel's identity map: a 2 MiB present, writable
/// page at `index * 2 MiB`, uncached from 3 GiB on.
pub open spec fn identity_entry_spec(index: u64) -> u64 {
    let physical = (index * 0x200000) as u64;
    physical | 0x83 | if physical >= 0xc0000000 {
        0x18u64
    } else {
        0u64
    }
}

pub fn identity_entry(index: u64) -> (r: u64)
    requires
        index < 2048,
    ensures
        r == identity_entry_spec(index),
{
    let physical = index * 0x200000;
    let uncached: u64 = if physical >= 0xc0000000 {
        0x18
    } else {
        0
    };
    physical | 0x83 | uncached
}

/// The four page directories that map the first 4 GiB, 512 entries each.
pub fn identity_map() -> (r: Vec<u64>)
    ensures
        r@.len() == 2048,
        forall|i: int| 0 <= i < 2048 ==> r@[i] == identity_entry_spec(i as u64),
{
    let mut r: Vec<u64> = Vec::new();
    let mut i: u64 = 0;
    while i < 2048
        invariant
            i <= 2048,
            r@.len() == i,
            forall|k: int| 0 <= k < i ==> r@[k] == identity_entry_spec(k as u64),
        decreases 2048 - i,
    {
        r.push(identity_entry(i));
        i += 1;
    }
    r
}

/// The low half of EFER as the kernel runs: no-execute pages on (bit 11),
/// the SYSCALL instruction off (bit 0), every other bit as the firmware left
/// it.
pub fn efer_low(lo: u32) -> (r: u32)
    ensures
        r == (lo | 0x800) & !1u32,
        r & 0x800 == 0x800,
        r & 1 == 0,
        r & !0x801u32 == lo & !0x801u32,
{
    let r = (lo | 0x800) & !1u32;
    assert(r & 0x800 == 0x800 && r & 1 == 0 && r & !0x801u32 == lo & !0x801u32) by (bit_vector)
        requires
            r == (lo | 0x800) & !1u32,
    ;
    r
}

/// CR0 as the kernel runs: write protection for supervisor writes (bit 16)
/// and monitor-coprocessor (bit 1) on, emulation (bit 2) and task-switched
/// (bit 3) off so that FXSAVE works; other bits kept.
pub fn cr0_value(cr0: u64) -> (r: u64)
    ensures
        r == (cr0 | 0x10002) & !12u64,
        r & 0x10002 == 0x10002,
        r & 12 == 0,
        r & !0x1000eu64 == cr0 & !0x1000eu64,
{
    let r = (cr0 | 0x10002) & !12u64;
    assert(r & 0x10002 == 0x10002 && r & 12 == 0 && r & !0x1000eu64 == cr0 & !0x1000eu64) by (bit_vector)
        requires
            r == (cr0 | 0x10002) & !12u64,
    ;
    r
}

/// The CR4 bits the kernel clears: global pages (7), FSGSBASE (16), PCID
/// (17) and XSAVE (18).
pub const CR4_CLEARED: u64 = 0x70080;

/// CR4 as the kernel runs: FXSAVE (bit 9) and SSE exceptions (bit 10) on,
/// the bits of `CR4_CLEARED` off, every other bit kept.
pub fn cr4_value(cr4: u64) -> (r: u64)
    ensures
        r == (cr4 | 0x600) & !CR4_CLEARED,
        r & 0x600 == 0x600,
        r & CR4_CLEARED == 0,
        r & !0x70680u64 == cr4 & !0x70680u64,
{
    let r = (cr4 | 0x600) & !CR4_CLEARED;
    assert(r & 0x600 == 0x600 && r & 0x70080 == 0 && r & !0x70680u64 == cr4 & !0x70680u64) by (bit_vector)
        requires
            r == (cr4 | 0x600) & !0x70080u64,
    ;
    r
}

/// The character of hexadecimal digit `d`, in capitals.
pub open spec fn hex_char(d: u64) -> u8 {
    if d < 10 {
        (48 + d) as u8
    } else {
        (55 + d) as u8
    }
}

/// The sixteen hexadecimal digits of `n`, most significant first.
pub open spec fn hex_spec(n: u64) -> Seq<u8> {
    Seq::new(16, |i: int| hex_char((n >> ((60 - 4 * i) as u64)) & 15u64))
}

/// Writes the sixteen hexadecimal digits of `n`.
pub fn hex(n: u64) -> (r: [u8; 16])
    ensures
        r@ == hex_spec(n),
{
    let mut r = [0u8; 16];
    let mut i: usize = 0;
    while i < 16
        invariant
            i <= 16,
            forall|k: int| 0 <= k < i ==> r@[k] == hex_spec(n)[k],
        decreases 16 - i,
    {
        let d = (n >> ((60 - 4 * i) as u64)) & 15;
        assert(d < 16) by (bit_vector)
            requires
                d == (n >> ((60 - 4 * i) as u64)) & 15u64,
        ;
        r[i] = if d < 10 {
            48 + d as u8
        } else {
            55 + d as u8
        };
        i += 1;
    }
    assert(r@ =~= hex_spec(n));
    r
}

/// The line the kernel sends on the serial port before it stops for an
/// exception in its own code.
pub open spec fn exception_report_spec(vector: u64, rip: u64, error: u64) -> Seq<u8> {
    "KERNEL EXCEPTION VECTOR="@.map_values(|c: char| c as u8) + digits(vector as nat) + " RIP="@.map_values(
        |c: char| c as u8,
    ) + hex_spec(rip) + " ERROR="@.map_values(|c: char| c as u8) + hex_spec(error) + seq![13u8, 10]
}

/// Appends `bytes` from index `from` on to `out`.
fn push_from(out: &mut Vec<u8>, bytes: &[u8], from: usize)
    requires
        from <= bytes@.len(),
    ensures
        final(out)@ == old(out)@ + bytes@.skip(from as int),
{
    let mut i: usize = from;
    while i < bytes.len()
        invariant
            from <= i <= bytes@.len(),
            out@ == old(out)@ + bytes@.subrange(from as int, i as int),
        decreases bytes@.len() - i,
    {
        out.push(bytes[i]);
        i += 1;
        assert(out@ =~= old(out)@ + bytes@.subrange(from as int, i as int));
    }
    assert(bytes@.subrange(from as int, i as int) =~= bytes@.skip(from as int));
}

pub fn exception_report(vector: u64, rip: u64, error: u64) -> (r: Vec<u8>)
    ensures
        r@ == exception_report_spec(vector, rip, error),
{
    let head = "KERNEL EXCEPTION VECTOR=";
    let at = " RIP=";
    let err = " ERROR=";
    proof {
        reveal_strlit("KERNEL EXCEPTION VECTOR=");
        reveal_strlit(" RIP=");
        reveal_strlit(" ERROR=");
        assert(vstd::string::is_ascii(head));
        assert(vstd::string::is_ascii(at));
        assert(vstd::string::is_ascii(err));
        vstd::string::is_ascii_spec_bytes(head);
        vstd::string::is_ascii_spec_bytes(at);
        vstd::string::is_ascii_spec_bytes(err);
    }
    let head = head.as_bytes();
    let at = at.as_bytes();
    let err = err.as_bytes();
    proof {
        assert(head@ =~= "KERNEL EXCEPTION VECTOR="@.map_values(|c: char| c as u8));
        assert(at@ =~= " RIP="@.map_values(|c: char| c as u8));
        assert(err@ =~= " ERROR="@.map_values(|c: char| c as u8));
    }
    let mut out: Vec<u8> = Vec::new();
    push_from(&mut out, head, 0);
    let mut buffer = [0u8; 20];
    let start = decimal_u64(vector, &mut buffer);
    push_from(&mut out, &buffer, start);
    push_from(&mut out, at, 0);
    let rip_digits = hex(rip);
    push_from(&mut out, &rip_digits, 0);
    push_from(&mut out, err, 0);
    let error_digits = hex(error);
    push_from(&mut out, &error_digits, 0);
    out.push(13);
    out.push(10);
    assert(out@ =~= exception_report_spec(vector, rip, error));
    out
}

} // verus!
