//! Checked loader for x86-64 static PIE executables. Each launch loads the
//! program file again into fresh memory, so no writable data, `.bss`, GOT or
//! stack is shared between two instances of one program.
use vstd::prelude::*;
use crate::bytes::{le16, le32, le64, read_u16, read_u32, read_u64};
use crate::elf_reloc;

verus! {

pub const PT_LOAD: u32 = 1;
pub const PT_DYNAMIC: u32 = 2;
/// Size of one program header.
pub const PHDR_SIZE: usize = 56;
/// Largest image the loader accepts.
pub const MAX_IMAGE: usize = 0x80_0000;

/// The 64-bit word at `at`, as an address-sized value.
pub open spec fn word_at(d: Seq<u8>, at: int) -> usize {
    le64(d, at) as usize
}

/// `[start, start + len)` inside a buffer of `limit` bytes.
pub open spec fn span(start: usize, len: usize, limit: usize) -> Result<(usize, usize), &'static str> {
    if start + len > usize::MAX {
        Err("ELF RANGE OVERFLOW")
    } else if start + len > limit {
        Err("ELF RANGE OUT OF BOUNDS")
    } else {
        Ok((start, (start + len) as usize))
    }
}

pub open spec fn is_power_of_two(n: nat) -> bool
    decreases n,
{
    if n == 0 {
        false
    } else if n == 1 {
        true
    } else {
        n % 2 == 0 && is_power_of_two(n / 2)
    }
}

/// The start of the 4 KiB page that holds `a`.
pub open spec fn page_floor(a: usize) -> usize {
    a & !4095usize
}

/// The checks a PT_LOAD header must pass besides its file range.
pub open spec fn segment_ok(offset: usize, address: usize, filesz: usize, memsz: usize, align: usize) -> bool {
    !(filesz > memsz || (align > 1 && (!is_power_of_two(align as nat) || align > 4096 || address
        % align != offset % align)))
}

pub open spec fn header_count(h: Seq<u8>) -> int {
    h.len() as int / 56
}

/// What the header scan collects: lowest page of a loaded segment, end of the
/// highest one, whether the entry point lies in an executable segment, and
/// the number of PT_DYNAMIC headers.
pub struct HeaderScan {
    pub min: usize,
    pub max: usize,
    pub executable_entry: bool,
    pub dynamic_count: nat,
}

pub open spec fn scan_headers(
    d: Seq<u8>,
    h: Seq<u8>,
    entry: usize,
    i: int,
    st: HeaderScan,
) -> Result<HeaderScan, &'static str>
    decreases header_count(h) - i,
{
    if i >= header_count(h) || i < 0 {
        Ok(st)
    } else {
        let p = 56 * i;
        let kind = le32(h, p);
        if kind == 1 {
            let offset = word_at(h, p + 8);
            let address = word_at(h, p + 16);
            let filesz = word_at(h, p + 32);
            let memsz = word_at(h, p + 40);
            let align = word_at(h, p + 48);
            if !segment_ok(offset, address, filesz, memsz, align) {
                Err("INVALID ELF SEGMENT")
            } else {
                match span(offset, filesz, d.len() as usize) {
                    Err(e) => Err(e),
                    Ok(_) => if address + memsz > usize::MAX {
                        Err("ELF SEGMENT OVERFLOW")
                    } else {
                        let end = (address + memsz) as usize;
                        let min = if memsz != 0 && page_floor(address) < st.min {
                            page_floor(address)
                        } else {
                            st.min
                        };
                        let max = if memsz != 0 && end > st.max {
                            end
                        } else {
                            st.max
                        };
                        let ee = st.executable_entry || (le32(h, p + 4) & 1 != 0 && entry >= address
                            && entry < end);
                        scan_headers(
                            d,
                            h,
                            entry,
                            i + 1,
                            HeaderScan { min, max, executable_entry: ee, dynamic_count: st.dynamic_count },
                        )
                    },
                }
            }
        } else if kind == 2 {
            scan_headers(d, h, entry, i + 1, HeaderScan { dynamic_count: st.dynamic_count + 1, ..st })
        } else if kind == 3 || kind == 7 {
            Err("ELF INTERPRETER/TLS NOT SUPPORTED")
        } else {
            scan_headers(d, h, entry, i + 1, st)
        }
    }
}

pub open spec fn elf_magic() -> Seq<u8> {
    seq![0x7fu8, 0x45u8, 0x4cu8, 0x46u8, 2u8, 1u8, 1u8]
}

/// The file header of a little-endian x86-64 executable of this kind.
pub open spec fn header_ok(d: Seq<u8>) -> bool {
    &&& d.len() >= 64
    &&& d.subrange(0, 7) == elf_magic()
    &&& le16(d, 16) == 3
    &&& le16(d, 18) == 62
    &&& le32(d, 20) == 1
    &&& le16(d, 52) == 64
    &&& le16(d, 54) == 56
}

/// Where a parsed image's parts lie and what it spans once loaded.
pub struct Layout {
    pub headers_start: usize,
    pub headers_end: usize,
    pub min: usize,
    pub size: usize,
    pub entry: usize,
}

pub open spec fn parse_spec(d: Seq<u8>) -> Result<Layout, &'static str> {
    if !header_ok(d) {
        Err("EXPECTED X86-64 STATIC PIE ELF")
    } else {
        match span(word_at(d, 32), (le16(d, 56) * 56) as usize, d.len() as usize) {
            Err(e) => Err(e),
            Ok((hs, he)) => {
                let entry = word_at(d, 24);
                match scan_headers(
                    d,
                    d.subrange(hs as int, he as int),
                    entry,
                    0,
                    HeaderScan { min: usize::MAX, max: 0, executable_entry: false, dynamic_count: 0 },
                ) {
                    Err(e) => Err(e),
                    Ok(st) => if st.max < st.min {
                        Err("ELF HAS NO LOAD SEGMENTS")
                    } else if st.max - st.min == 0 || st.max - st.min > MAX_IMAGE
                        || !st.executable_entry || st.dynamic_count > 1 {
                        Err("INVALID ELF IMAGE OR ENTRY POINT")
                    } else {
                        Ok(
                            Layout {
                                headers_start: hs,
                                headers_end: he,
                                min: st.min,
                                size: (st.max - st.min) as usize,
                                entry,
                            },
                        )
                    },
                }
            },
        }
    }
}

/// The (offset from the image base, memory size, flags) of each non-empty
/// PT_LOAD header among the first `n`.
pub open spec fn segments_spec(h: Seq<u8>, min: usize, n: int) -> Seq<(usize, usize, u32)>
    decreases n,
{
    if n <= 0 {
        Seq::empty()
    } else {
        let p = 56 * (n - 1);
        let rest = segments_spec(h, min, n - 1);
        if le32(h, p) == 1 && word_at(h, p + 40) != 0 {
            rest.push(((word_at(h, p + 16) - min) as usize, word_at(h, p + 40), le32(h, p + 4)))
        } else {
            rest
        }
    }
}

/// Copies the file bytes of each PT_LOAD header, from the `i`-th on, to its
/// place relative to `min`; returns the memory as it stands when the headers
/// end or one is refused.
pub open spec fn copy_loads(d: Seq<u8>, h: Seq<u8>, min: usize, mem: Seq<u8>, i: int) -> (
    Seq<u8>,
    Result<(), &'static str>,
)
    decreases header_count(h) - i,
{
    if i >= header_count(h) || i < 0 {
        (mem, Ok(()))
    } else {
        let p = 56 * i;
        if le32(h, p) != 1 {
            copy_loads(d, h, min, mem, i + 1)
        } else {
            let address = word_at(h, p + 16);
            if address < min {
                (mem, Err("ELF ADDRESS BELOW BASE"))
            } else {
                let filesz = word_at(h, p + 32);
                match span((address - min) as usize, filesz, mem.len() as usize) {
                    Err(e) => (mem, Err(e)),
                    Ok((s, e)) => match span(word_at(h, p + 8), filesz, d.len() as usize) {
                        Err(e2) => (mem, Err(e2)),
                        Ok((fs, fe)) => copy_loads(
                            d,
                            h,
                            min,
                            mem.subrange(0, s as int) + d.subrange(fs as int, fe as int)
                                + mem.subrange(e as int, mem.len() as int),
                            i + 1,
                        ),
                    },
                }
            }
        }
    }
}

/// Applies the relocations of each PT_DYNAMIC header, from the `i`-th on.
pub open spec fn apply_dynamics(h: Seq<u8>, min: usize, base: usize, mem: Seq<u8>, i: int) -> (
    Seq<u8>,
    Result<(), &'static str>,
)
    decreases header_count(h) - i,
{
    if i >= header_count(h) || i < 0 {
        (mem, Ok(()))
    } else {
        let p = 56 * i;
        if le32(h, p) != 2 {
            apply_dynamics(h, min, base, mem, i + 1)
        } else {
            let (m, r) = elf_reloc::apply_spec(
                mem,
                min as u64,
                base as u64,
                word_at(h, p + 16) as u64,
                word_at(h, p + 32),
            );
            if r is Err {
                (m, r)
            } else {
                apply_dynamics(h, min, base, m, i + 1)
            }
        }
    }
}

/// The end of a load once the segments are copied: relocate, then compute the
/// entry point's address.
pub open spec fn finish_relocation(
    h: Seq<u8>,
    min: usize,
    entry: usize,
    base: usize,
    relocated: (Seq<u8>, Result<(), &'static str>),
) -> (Seq<u8>, Result<usize, &'static str>) {
    match relocated.1 {
        Err(e) => (relocated.0, Err(e)),
        Ok(_) => if base + (entry - min) > usize::MAX {
            (relocated.0, Err("ELF ENTRY OVERFLOW"))
        } else {
            (relocated.0, Ok((base + (entry - min)) as usize))
        },
    }
}

pub open spec fn finish_copy(
    h: Seq<u8>,
    min: usize,
    entry: usize,
    base: usize,
    copied: (Seq<u8>, Result<(), &'static str>),
) -> (Seq<u8>, Result<usize, &'static str>) {
    match copied.1 {
        Err(e) => (copied.0, Err(e)),
        Ok(_) => finish_relocation(h, min, entry, base, apply_dynamics(h, min, base, copied.0, 0)),
    }
}

/// The memory after `load` and what `load` returns: the destination is
/// zeroed, the segments copied, the relocations applied, and the entry point's
/// address at `base` returned.
pub open spec fn load_spec(
    d: Seq<u8>,
    h: Seq<u8>,
    min: usize,
    size: usize,
    entry: usize,
    mem: Seq<u8>,
    base: usize,
) -> (Seq<u8>, Result<usize, &'static str>) {
    if mem.len() < size {
        (mem, Err("ELF DESTINATION TOO SMALL"))
    } else {
        finish_copy(h, min, entry, base, copy_loads(d, h, min, Seq::new(mem.len(), |_i: int| 0u8), 0))
    }
}

proof fn lemma_dynamics_none(h: Seq<u8>, min: usize, base: usize, mem: Seq<u8>, i: int)
    requires
        0 <= i,
        forall|j: int| i <= j < header_count(h) ==> #[trigger] le32(h, 56 * j) != 2,
    ensures
        apply_dynamics(h, min, base, mem, i) == (mem, Ok::<(), &'static str>(())),
    decreases header_count(h) - i,
{
    if i < header_count(h) {
        lemma_dynamics_none(h, min, base, mem, i + 1);
    }
}

proof fn lemma_dynamics_skip(h: Seq<u8>, min: usize, base: usize, mem: Seq<u8>, i: int, k: int)
    requires
        0 <= i <= k < header_count(h),
        forall|j: int| i <= j < k ==> #[trigger] le32(h, 56 * j) != 2,
    ensures
        apply_dynamics(h, min, base, mem, i) == apply_dynamics(h, min, base, mem, k),
    decreases k - i,
{
    if i < k {
        lemma_dynamics_skip(h, min, base, mem, i + 1, k);
    }
}

/// Loading relocates what it copies: for an image with one PT_DYNAMIC
/// header, a successful load leaves in memory exactly what
/// `elf_reloc::apply` makes, at `base`, of the zeroed memory with the
/// segments copied in, using that header's dynamic table.
pub proof fn law_load_relocates(
    d: Seq<u8>,
    h: Seq<u8>,
    min: usize,
    size: usize,
    entry: usize,
    mem: Seq<u8>,
    base: usize,
    k: int,
)
    requires
        0 <= k < header_count(h),
        le32(h, 56 * k) == 2,
        forall|j: int| 0 <= j < header_count(h) && j != k ==> #[trigger] le32(h, 56 * j) != 2,
        load_spec(d, h, min, size, entry, mem, base).1 is Ok,
    ensures
        ({
            let copied = copy_loads(d, h, min, Seq::new(mem.len(), |_i: int| 0u8), 0);
            &&& copied.1 is Ok
            &&& elf_reloc::apply_spec(copied.0, min as u64, base as u64, word_at(h, 56 * k + 16) as u64, word_at(h, 56 * k + 32)).0
                == load_spec(d, h, min, size, entry, mem, base).0
            &&& elf_reloc::apply_spec(copied.0, min as u64, base as u64, word_at(h, 56 * k + 16) as u64, word_at(h, 56 * k + 32)).1 is Ok
        }),
{
    let copied = copy_loads(d, h, min, Seq::new(mem.len(), |_i: int| 0u8), 0);
    assert(mem.len() >= size);
    assert(copied.1 is Ok);
    lemma_dynamics_skip(h, min, base, copied.0, 0, k);
    let (m, r) = elf_reloc::apply_spec(copied.0, min as u64, base as u64, word_at(h, 56 * k + 16) as u64, word_at(h, 56 * k + 32));
    lemma_dynamics_none(h, min, base, m, k + 1);
    let dyns = apply_dynamics(h, min, base, copied.0, 0);
    assert(dyns == apply_dynamics(h, min, base, copied.0, k));
    assert(dyns.1 is Ok);
    assert(r is Ok);
    assert(dyns == (m, Ok::<(), &'static str>(())));
    assert(load_spec(d, h, min, size, entry, mem, base).0 == m);
}

/// Every run gets a fresh image: what loading leaves in memory, and what it
/// returns, depend on the memory's length only, never on what it held.
pub proof fn law_load_is_fresh(
    d: Seq<u8>,
    h: Seq<u8>,
    min: usize,
    size: usize,
    entry: usize,
    m1: Seq<u8>,
    m2: Seq<u8>,
    base: usize,
)
    requires
        m1.len() == m2.len(),
        m1.len() >= size,
    ensures
        load_spec(d, h, min, size, entry, m1, base) == load_spec(d, h, min, size, entry, m2, base),
{
    assert(Seq::new(m1.len(), |_i: int| 0u8) =~= Seq::new(m2.len(), |_i: int| 0u8));
}

fn word(data: &[u8], at: usize) -> (r: usize)
    requires
        at + 8 <= data.len(),
    ensures
        r == word_at(data@, at as int),
{
    read_u64(data, at) as usize
}

fn range(start: usize, len: usize, limit: usize) -> (r: Result<(usize, usize), &'static str>)
    ensures
        r == span(start, len, limit),
{
    match start.checked_add(len) {
        None => Err("ELF RANGE OVERFLOW"),
        Some(end) => if end > limit {
            Err("ELF RANGE OUT OF BOUNDS")
        } else {
            Ok((start, end))
        },
    }
}

fn power_of_two(n: usize) -> (r: bool)
    ensures
        r == is_power_of_two(n as nat),
{
    let mut v = n;
    while v > 1 && v % 2 == 0
        invariant
            is_power_of_two(n as nat) == is_power_of_two(v as nat),
        decreases v,
    {
        v = v / 2;
    }
    v == 1
}

/// The `i`-th whole header lies inside a table of `len` bytes.
proof fn lemma_header_in_bounds(i: int, len: int)
    requires
        0 <= i < len / 56,
        len >= 0,
    ensures
        56 * i + 56 <= len,
{
    vstd::arithmetic::div_mod::lemma_fundamental_div_mod(len, 56);
    assert(56 * i + 56 <= 56 * (len / 56)) by (nonlinear_arith)
        requires
            i + 1 <= len / 56,
    ;
}

proof fn lemma_page_floor(a: usize)
    ensures
        page_floor(a) <= a,
{
    assert(a & !4095usize <= a) by (bit_vector);
}

/// Copies `src` into `dst` at `at`.
fn copy_into(dst: &mut [u8], at: usize, src: &[u8])
    requires
        at + src.len() <= old(dst).len(),
    ensures
        final(dst)@ == old(dst)@.subrange(0, at as int) + src@ + old(dst)@.subrange(
            at + src@.len(),
            old(dst)@.len() as int,
        ),
{
    let n = src.len();
    let mut k: usize = 0;
    while k < n
        invariant
            n == src@.len(),
            at + n <= dst.len(),
            k <= n,
            dst@.len() == old(dst)@.len(),
            forall|j: int| 0 <= j < dst@.len() && !(at <= j < at + k) ==> dst@[j] == old(dst)@[j],
            forall|j: int| at <= j < at + k ==> dst@[j] == src@[j - at],
        decreases n - k,
    {
        dst[at + k] = src[k];
        k += 1;
    }
    assert(dst@ =~= old(dst)@.subrange(0, at as int) + src@ + old(dst)@.subrange(
        at + src@.len(),
        old(dst)@.len() as int,
    ));
}

pub struct Image<'a> {
    data: &'a [u8],
    headers: &'a [u8],
    min: usize,
    pub size: usize,
    entry: usize,
}

impl<'a> Image<'a> {
    pub closed spec fn file(&self) -> Seq<u8> {
        self.data@
    }

    pub closed spec fn header_table(&self) -> Seq<u8> {
        self.headers@
    }

    pub closed spec fn base_address(&self) -> usize {
        self.min
    }

    pub closed spec fn loaded_size(&self) -> usize {
        self.size
    }

    pub closed spec fn entry_address(&self) -> usize {
        self.entry
    }

    /// What every parsed image satisfies: whole headers, the entry point and
    /// every non-empty loaded segment at or above the image base.
    pub closed spec fn wf(&self) -> bool {
        &&& self.headers@.len() % 56 == 0
        &&& self.entry >= self.min
        &&& forall|i: int|
            0 <= i < header_count(self.headers@) && le32(self.headers@, 56 * i) == 1 && word_at(
                self.headers@,
                56 * i + 40,
            ) != 0 ==> #[trigger] word_at(self.headers@, 56 * i + 16) >= self.min
    }

    /// Checks a static PIE file: the x86-64 executable header, a header table
    /// inside the file, loaded segments whose file bytes lie in the file and
    /// whose alignment is sound, an entry point inside an executable segment,
    /// at most one dynamic table, no interpreter or TLS, and a non-empty image
    /// of at most 8 MiB.
    pub fn parse(data: &'a [u8]) -> (r: Result<Self, &'static str>)
        ensures
            match (r, parse_spec(data@)) {
                (Ok(img), Ok(l)) => {
                    &&& img.wf()
                    &&& img.file() == data@
                    &&& img.header_table() == data@.subrange(
                        l.headers_start as int,
                        l.headers_end as int,
                    )
                    &&& img.base_address() == l.min
                    &&& img.loaded_size() == l.size
                    &&& img.entry_address() == l.entry
                },
                (Err(e), Err(e2)) => e == e2,
                _ => false,
            },
    {
        if data.len() < 64 {
            return Err("EXPECTED X86-64 STATIC PIE ELF");
        }
        let magic_ok = data[0] == 0x7f && data[1] == 0x45 && data[2] == 0x4c && data[3] == 0x46
            && data[4] == 2 && data[5] == 1 && data[6] == 1;
        proof {
            if magic_ok {
                assert(data@.subrange(0, 7) =~= elf_magic());
            } else {
                assert(!(data@.subrange(0, 7) =~= elf_magic()) ==> data@.subrange(0, 7) != elf_magic());
                if data@.subrange(0, 7) == elf_magic() {
                    assert(data@.subrange(0, 7)[0] == data@[0]);
                    assert(data@.subrange(0, 7)[1] == data@[1]);
                    assert(data@.subrange(0, 7)[2] == data@[2]);
                    assert(data@.subrange(0, 7)[3] == data@[3]);
                    assert(data@.subrange(0, 7)[4] == data@[4]);
                    assert(data@.subrange(0, 7)[5] == data@[5]);
                    assert(data@.subrange(0, 7)[6] == data@[6]);
                }
            }
        }
        if !magic_ok || read_u16(data, 16) != 3 || read_u16(data, 18) != 62 || read_u32(data, 20)
            != 1 || read_u16(data, 52) != 64 || read_u16(data, 54) != 56 {
            return Err("EXPECTED X86-64 STATIC PIE ELF");
        }
        let table_len = read_u16(data, 56) as usize * 56;
        let (hs, he) = match range(word(data, 32), table_len, data.len()) {
            Ok(r) => r,
            Err(e) => return Err(e),
        };
        let headers = vstd::slice::slice_subrange(data, hs, he);
        let count = headers.len() / 56;
        let entry = word(data, 24);
        let mut min: usize = usize::MAX;
        let mut max: usize = 0;
        let mut executable_entry = false;
        let mut dynamic_count: usize = 0;
        let ghost init = HeaderScan { min: usize::MAX, max: 0, executable_entry: false, dynamic_count: 0 };
        let mut i: usize = 0;
        while i < count
            invariant
                header_ok(data@),
                table_len == (le16(data@, 56) * 56) as usize,
                span(word_at(data@, 32), table_len, data.len()) == Ok::<(usize, usize), &'static str>((hs, he)),
                hs <= he <= data@.len(),
                entry == word_at(data@, 24),
                init == (HeaderScan { min: usize::MAX, max: 0, executable_entry: false, dynamic_count: 0 }),
                headers@ == data@.subrange(hs as int, he as int),
                headers@.len() == table_len,
                table_len % 56 == 0,
                count == header_count(headers@),
                i <= count,
                dynamic_count <= i,
                executable_entry ==> entry >= min,
                forall|j: int|
                    0 <= j < i && le32(headers@, 56 * j) == 1 && word_at(headers@, 56 * j + 40) != 0
                        ==> #[trigger] word_at(headers@, 56 * j + 16) >= min,
                scan_headers(data@, headers@, entry, 0, init) == scan_headers(
                    data@,
                    headers@,
                    entry,
                    i as int,
                    HeaderScan { min, max, executable_entry, dynamic_count: dynamic_count as nat },
                ),
            decreases count - i,
        {
            proof {
                lemma_header_in_bounds(i as int, headers.len() as int);
            }
            let p = 56 * i;
            let kind = read_u32(headers, p);
            if kind == PT_LOAD {
                let offset = word(headers, p + 8);
                let address = word(headers, p + 16);
                let filesz = word(headers, p + 32);
                let memsz = word(headers, p + 40);
                let align = word(headers, p + 48);
                if filesz > memsz || (align > 1 && (!power_of_two(align) || align > 4096 || address
                    % align != offset % align)) {
                    return Err("INVALID ELF SEGMENT");
                }
                match range(offset, filesz, data.len()) {
                    Ok(_) => {},
                    Err(e) => return Err(e),
                }
                let end = match address.checked_add(memsz) {
                    Some(end) => end,
                    None => return Err("ELF SEGMENT OVERFLOW"),
                };
                if memsz != 0 {
                    let floor = address & !4095usize;
                    proof {
                        lemma_page_floor(address);
                    }
                    if floor < min {
                        min = floor;
                    }
                    if end > max {
                        max = end;
                    }
                }
                executable_entry = executable_entry || (read_u32(headers, p + 4) & 1 != 0 && entry
                    >= address && entry < end);
            } else if kind == PT_DYNAMIC {
                dynamic_count = dynamic_count + 1;
            } else if kind == 3 || kind == 7 {
                return Err("ELF INTERPRETER/TLS NOT SUPPORTED");
            }
            i += 1;
        }
        if max < min {
            return Err("ELF HAS NO LOAD SEGMENTS");
        }
        let size = max - min;
        if size == 0 || size > MAX_IMAGE || !executable_entry || dynamic_count > 1 {
            return Err("INVALID ELF IMAGE OR ENTRY POINT");
        }
        Ok(Image { data, headers, min, size, entry })
    }

    /// Loads the image into `memory` (zeroed first) so that its base lands at
    /// `base`: copies each loaded segment's file bytes, applies the static
    /// relocations, and returns the entry point's address.
    pub fn load(&self, memory: &mut [u8], base: usize) -> (r: Result<usize, &'static str>)
        requires
            self.wf(),
        ensures
            (final(memory)@, r) == load_spec(
                self.file(),
                self.header_table(),
                self.base_address(),
                self.loaded_size(),
                self.entry_address(),
                old(memory)@,
                base,
            ),
    {
        let len = memory.len();
        if len < self.size {
            return Err("ELF DESTINATION TOO SMALL");
        }
        let mut k: usize = 0;
        while k < len
            invariant
                len == memory@.len(),
                k <= len,
                forall|j: int| 0 <= j < k ==> memory@[j] == 0u8,
            decreases len - k,
        {
            memory[k] = 0;
            k += 1;
        }
        assert(memory@ =~= Seq::new(old(memory)@.len(), |_i: int| 0u8));
        let count = self.headers.len() / 56;
        let ghost d = self.data@;
        let ghost h = self.headers@;
        let mut i: usize = 0;
        while i < count
            invariant
                self.wf(),
                d == self.data@,
                h == self.headers@,
                count == header_count(h),
                i <= count,
                len == memory@.len(),
                len >= self.size,
                old(memory)@.len() == len,
                load_spec(d, h, self.min, self.size, self.entry, old(memory)@, base) == finish_copy(
                    h,
                    self.min,
                    self.entry,
                    base,
                    copy_loads(d, h, self.min, memory@, i as int),
                ),
            decreases count - i,
        {
            proof {
                lemma_header_in_bounds(i as int, self.headers.len() as int);
            }
            let p = 56 * i;
            if read_u32(self.headers, p) == PT_LOAD {
                let address = word(self.headers, p + 16);
                if address < self.min {
                    return Err("ELF ADDRESS BELOW BASE");
                }
                let dest = address - self.min;
                let filesz = word(self.headers, p + 32);
                let (s, e) = match range(dest, filesz, memory.len()) {
                    Ok(r) => r,
                    Err(e) => return Err(e),
                };
                let (fs, fe) = match range(word(self.headers, p + 8), filesz, self.data.len()) {
                    Ok(r) => r,
                    Err(e) => return Err(e),
                };
                let source = vstd::slice::slice_subrange(self.data, fs, fe);
                copy_into(memory, s, source);
                assert(memory@.len() == len);
            }
            i += 1;
        }
        let mut i: usize = 0;
        while i < count
            invariant
                self.wf(),
                d == self.data@,
                h == self.headers@,
                count == header_count(h),
                i <= count,
                load_spec(d, h, self.min, self.size, self.entry, old(memory)@, base)
                    == finish_relocation(
                    h,
                    self.min,
                    self.entry,
                    base,
                    apply_dynamics(h, self.min, base, memory@, i as int),
                ),
            decreases count - i,
        {
            proof {
                lemma_header_in_bounds(i as int, self.headers.len() as int);
            }
            let p = 56 * i;
            if read_u32(self.headers, p) == PT_DYNAMIC {
                let r = elf_reloc::apply(
                    memory,
                    self.min as u64,
                    base as u64,
                    word(self.headers, p + 16) as u64,
                    word(self.headers, p + 32),
                );
                if let Err(e) = r {
                    return Err(e);
                }
            }
            i += 1;
        }
        match base.checked_add(self.entry - self.min) {
            Some(at) => Ok(at),
            None => Err("ELF ENTRY OVERFLOW"),
        }
    }

    /// (offset from the image base, memory size, flags) of each loaded,
    /// non-empty segment, in header order.
    pub fn segments(&self) -> (r: Vec<(usize, usize, u32)>)
        requires
            self.wf(),
        ensures
            r@ == segments_spec(self.header_table(), self.base_address(), header_count(self.header_table())),
    {
        let count = self.headers.len() / 56;
        let mut out: Vec<(usize, usize, u32)> = Vec::new();
        let mut i: usize = 0;
        while i < count
            invariant
                self.wf(),
                count == header_count(self.headers@),
                i <= count,
                out@ == segments_spec(self.headers@, self.min, i as int),
            decreases count - i,
        {
            proof {
                lemma_header_in_bounds(i as int, self.headers.len() as int);
            }
            let p = 56 * i;
            if read_u32(self.headers, p) == PT_LOAD && word(self.headers, p + 40) != 0 {
                assert(word_at(self.headers@, 56 * (i as int) + 16) >= self.min);
                out.push(
                    (
                        word(self.headers, p + 16) - self.min,
                        word(self.headers, p + 40),
                        read_u32(self.headers, p + 4),
                    ),
                );
            }
            i += 1;
        }
        out
    }
}

} // verus!
