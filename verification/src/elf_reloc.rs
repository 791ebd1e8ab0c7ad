//! Static PIE relocation: every `R_X86_64_RELATIVE` entry stores
//! `load_bias + addend` at its target, where `load_bias = load_addr - min_vaddr`
//! (wrapping). The dynamic table is read first; no relocation may overwrite the
//! relocation table itself.
use vstd::prelude::*;
use crate::bytes::{le64, write64, read_u64, write_u64};

verus! {

/// Where `[address, address + size)` lies in an image linked at `min_vaddr`.
pub open spec fn spec_range(image_len: usize, min_vaddr: u64, address: u64, size: usize) -> Result<
    (usize, usize),
    &'static str,
> {
    if address < min_vaddr {
        Err("ELF address below image")
    } else if address - min_vaddr > usize::MAX {
        Err("ELF address overflow")
    } else if address - min_vaddr + size > usize::MAX {
        Err("ELF range overflow")
    } else if address - min_vaddr + size > image_len {
        Err("ELF range outside image")
    } else {
        Ok(((address - min_vaddr) as usize, (address - min_vaddr + size) as usize))
    }
}

pub open spec fn is_unsupported_tag(tag: u64) -> bool {
    tag == 17 || tag == 18 || tag == 23 || tag == 35 || tag == 36
}

/// Reads the 16-byte dynamic entries from `at` to `end`, collecting
/// (DT_RELA, DT_RELASZ, DT_RELAENT), until a DT_NULL entry.
pub open spec fn scan_dynamic(img: Seq<u8>, at: int, end: int, rela: (u64, u64, u64)) -> Result<
    (u64, u64, u64),
    &'static str,
>
    decreases end - at,
{
    if at + 16 > end {
        Err("Unterminated ELF dynamic table")
    } else {
        let tag = le64(img, at);
        let value = le64(img, at + 8);
        if tag == 0 {
            Ok(rela)
        } else if tag == 1 {
            Err("Shared libraries are not supported")
        } else if tag == 7 {
            scan_dynamic(img, at + 16, end, (value, rela.1, rela.2))
        } else if tag == 8 {
            scan_dynamic(img, at + 16, end, (rela.0, value, rela.2))
        } else if tag == 9 {
            scan_dynamic(img, at + 16, end, (rela.0, rela.1, value))
        } else if is_unsupported_tag(tag) && value != 0 {
            Err("Unsupported ELF relocation table")
        } else {
            scan_dynamic(img, at + 16, end, rela)
        }
    }
}

/// Applies the 24-byte relocation entries from `at` to `table_end`, one after
/// the other, to the image; the table occupies `[table_start, table_end)`.
/// Returns the image as it stands when the entries end or one is refused.
pub open spec fn relocate(
    img: Seq<u8>,
    min_vaddr: u64,
    bias: u64,
    table_start: int,
    table_end: int,
    at: int,
) -> (Seq<u8>, Result<(), &'static str>)
    decreases table_end - at,
{
    if at + 24 > table_end {
        (img, Ok(()))
    } else {
        let target = le64(img, at);
        let info = le64(img, at + 8);
        let addend = le64(img, at + 16);
        if info == 0 {
            relocate(img, min_vaddr, bias, table_start, table_end, at + 24)
        } else if info != 8 {
            (img, Err("Only symbol-free R_X86_64_RELATIVE is supported"))
        } else {
            match spec_range(img.len() as usize, min_vaddr, target, 8) {
                Err(e) => (img, Err(e)),
                Ok((ds, de)) => if ds < table_end && de > table_start {
                    (img, Err("ELF relocation overwrites its own table"))
                } else {
                    relocate(
                        write64(img, ds as int, bias.wrapping_add(addend)),
                        min_vaddr,
                        bias,
                        table_start,
                        table_end,
                        at + 24,
                    )
                },
            }
        }
    }
}

/// The image after `apply` and what `apply` returns.
pub open spec fn apply_spec(
    img: Seq<u8>,
    min_vaddr: u64,
    load_addr: u64,
    dynamic_addr: u64,
    dynamic_size: usize,
) -> (Seq<u8>, Result<(), &'static str>) {
    match spec_range(img.len() as usize, min_vaddr, dynamic_addr, dynamic_size) {
        Err(e) => (img, Err(e)),
        Ok((ds, de)) => if dynamic_size % 16 != 0 {
            (img, Err("Invalid ELF dynamic table size"))
        } else {
            match scan_dynamic(img, ds as int, de as int, (0, 0, 0)) {
                Err(e) => (img, Err(e)),
                Ok((rela_addr, rela_size, rela_entry_size)) => if rela_size == 0 {
                    (img, Ok(()))
                } else if rela_entry_size != 24 || rela_size % 24 != 0 {
                    (img, Err("Invalid ELF RELA entry size"))
                } else if rela_size > usize::MAX {
                    (img, Err("ELF relocation size overflow"))
                } else {
                    match spec_range(img.len() as usize, min_vaddr, rela_addr, rela_size as usize) {
                        Err(e) => (img, Err(e)),
                        Ok((rs, re)) => relocate(
                            img,
                            min_vaddr,
                            load_addr.wrapping_sub(min_vaddr),
                            rs as int,
                            re as int,
                            rs as int,
                        ),
                    }
                },
            }
        },
    }
}

/// Two multiples of `k` that differ are at least `k` apart.
proof fn lemma_aligned_step(a: int, b: int, k: int)
    requires
        k > 0,
        0 <= a < b,
        a % k == 0,
        b % k == 0,
    ensures
        a + k <= b,
{
    vstd::arithmetic::div_mod::lemma_fundamental_div_mod(a, k);
    vstd::arithmetic::div_mod::lemma_fundamental_div_mod(b, k);
    let q1 = a / k;
    let q2 = b / k;
    assert(q1 < q2) by (nonlinear_arith)
        requires
            a == k * q1,
            b == k * q2,
            a < b,
            k > 0,
    ;
    assert(k * q1 + k <= k * q2) by (nonlinear_arith)
        requires
            q1 + 1 <= q2,
            k > 0,
    ;
}

fn range(image_len: usize, min_vaddr: u64, address: u64, size: usize) -> (r: Result<
    (usize, usize),
    &'static str,
>)
    ensures
        r == spec_range(image_len, min_vaddr, address, size),
{
    if address < min_vaddr {
        return Err("ELF address below image");
    }
    let offset = address - min_vaddr;
    if offset > usize::MAX as u64 {
        return Err("ELF address overflow");
    }
    let start = offset as usize;
    match start.checked_add(size) {
        None => Err("ELF range overflow"),
        Some(end) => if end > image_len {
            Err("ELF range outside image")
        } else {
            Ok((start, end))
        },
    }
}

/// Applies the static-PIE relocations of an image linked at `min_vaddr` and
/// loaded at `load_addr`, whose dynamic table lies at `dynamic_addr` with
/// `dynamic_size` bytes. On an error the entries before the refused one stay
/// applied, exactly as `apply_spec` describes.
pub fn apply(
    image: &mut [u8],
    min_vaddr: u64,
    load_addr: u64,
    dynamic_addr: u64,
    dynamic_size: usize,
) -> (r: Result<(), &'static str>)
    ensures
        (final(image)@, r) == apply_spec(
            old(image)@,
            min_vaddr,
            load_addr,
            dynamic_addr,
            dynamic_size,
        ),
{
    let ghost img0 = image@;
    let len = image.len();
    let (ds, de) = match range(len, min_vaddr, dynamic_addr, dynamic_size) {
        Ok(r) => r,
        Err(e) => return Err(e),
    };
    if dynamic_size % 16 != 0 {
        return Err("Invalid ELF dynamic table size");
    }
    let mut rela_addr: u64 = 0;
    let mut rela_size: u64 = 0;
    let mut rela_entry_size: u64 = 0;
    let mut terminated = false;
    let mut offset: usize = ds;
    while offset < de
        invariant_except_break
            ds <= offset <= de,
            de <= len,
            len == image@.len(),
            image@ == img0,
            spec_range(len, min_vaddr, dynamic_addr, dynamic_size) == Ok::<
                (usize, usize),
                &'static str,
            >((ds, de)),
            dynamic_size % 16 == 0,
            (offset - ds) % 16 == 0,
            (de - ds) % 16 == 0,
            !terminated,
            scan_dynamic(img0, ds as int, de as int, (0, 0, 0)) == scan_dynamic(
                img0,
                offset as int,
                de as int,
                (rela_addr, rela_size, rela_entry_size),
            ),
        ensures
            image@ == img0,
            terminated ==> scan_dynamic(img0, ds as int, de as int, (0, 0, 0)) == Ok::<
                (u64, u64, u64),
                &'static str,
            >((rela_addr, rela_size, rela_entry_size)),
            !terminated ==> scan_dynamic(img0, ds as int, de as int, (0, 0, 0)) == Err::<
                (u64, u64, u64),
                &'static str,
            >("Unterminated ELF dynamic table"),
        decreases de - offset,
    {
        proof {
            lemma_aligned_step(offset - ds, de - ds, 16);
        }
        let tag = read_u64(image, offset);
        let value = read_u64(image, offset + 8);
        if tag == 0 {
            terminated = true;
            break;
        } else if tag == 1 {
            return Err("Shared libraries are not supported");
        } else if tag == 7 {
            rela_addr = value;
        } else if tag == 8 {
            rela_size = value;
        } else if tag == 9 {
            rela_entry_size = value;
        } else if (tag == 17 || tag == 18 || tag == 23 || tag == 35 || tag == 36) && value != 0 {
            return Err("Unsupported ELF relocation table");
        }
        offset = offset + 16;
    }
    if !terminated {
        return Err("Unterminated ELF dynamic table");
    }
    if rela_size == 0 {
        return Ok(());
    }
    if rela_entry_size != 24 || rela_size % 24 != 0 {
        return Err("Invalid ELF RELA entry size");
    }
    if rela_size > usize::MAX as u64 {
        return Err("ELF relocation size overflow");
    }
    let (rs, re) = match range(len, min_vaddr, rela_addr, rela_size as usize) {
        Ok(r) => r,
        Err(e) => return Err(e),
    };
    let load_bias = load_addr.wrapping_sub(min_vaddr);
    let mut offset: usize = rs;
    while offset < re
        invariant
            rs <= offset <= re,
            img0 == old(image)@,
            re <= len,
            len == image@.len(),
            (offset - rs) % 24 == 0,
            (re - rs) % 24 == 0,
            apply_spec(img0, min_vaddr, load_addr, dynamic_addr, dynamic_size) == relocate(
                image@,
                min_vaddr,
                load_bias,
                rs as int,
                re as int,
                offset as int,
            ),
        decreases re - offset,
    {
        proof {
            lemma_aligned_step(offset - rs, re - rs, 24);
        }
        let target = read_u64(image, offset);
        let info = read_u64(image, offset + 8);
        let addend = read_u64(image, offset + 16);
        if info != 0 {
            if info != 8 {
                return Err("Only symbol-free R_X86_64_RELATIVE is supported");
            }
            let (dest_start, dest_end) = match range(len, min_vaddr, target, 8) {
                Ok(r) => r,
                Err(e) => return Err(e),
            };
            if dest_start < re && dest_end > rs {
                return Err("ELF relocation overwrites its own table");
            }
            write_u64(image, dest_start, load_bias.wrapping_add(addend));
        }
        offset = offset + 24;
    }
    Ok(())
}

/// `x` and `y` have one length and the same bytes in `[lo, hi)`.
pub open spec fn agree(x: Seq<u8>, y: Seq<u8>, lo: int, hi: int) -> bool {
    &&& x.len() == y.len()
    &&& forall|i: int| lo <= i < hi ==> x[i] == y[i]
}

proof fn lemma_le64_agree(x: Seq<u8>, y: Seq<u8>, at: int)
    requires
        0 <= at,
        at + 8 <= x.len(),
        agree(x, y, at, at + 8),
    ensures
        le64(x, at) == le64(y, at),
{
    assert(x.subrange(at, at + 8) =~= y.subrange(at, at + 8));
}

/// The dynamic table is read from its own bytes alone.
proof fn lemma_scan_agree(x: Seq<u8>, y: Seq<u8>, at: int, end: int, rela: (u64, u64, u64))
    requires
        0 <= at,
        end <= x.len(),
        agree(x, y, at, end),
    ensures
        scan_dynamic(x, at, end, rela) == scan_dynamic(y, at, end, rela),
    decreases end - at,
{
    if at + 16 <= end {
        lemma_le64_agree(x, y, at);
        lemma_le64_agree(x, y, at + 8);
        let value = le64(x, at + 8);
        lemma_scan_agree(x, y, at + 16, end, (value, rela.1, rela.2));
        lemma_scan_agree(x, y, at + 16, end, (rela.0, value, rela.2));
        lemma_scan_agree(x, y, at + 16, end, (rela.0, rela.1, value));
        lemma_scan_agree(x, y, at + 16, end, rela);
    }
}

/// Relocating two images that agree on the relocation table: the same
/// outcome, every byte either written alike in both or left as it was in
/// both, and the table itself left alone.
proof fn lemma_relocate_pair(
    x: Seq<u8>,
    y: Seq<u8>,
    min_vaddr: u64,
    bias: u64,
    table_start: int,
    table_end: int,
    at: int,
)
    requires
        0 <= table_start <= at,
        table_end <= x.len(),
        agree(x, y, table_start, table_end),
    ensures
        ({
            let (x2, rx) = relocate(x, min_vaddr, bias, table_start, table_end, at);
            let (y2, ry) = relocate(y, min_vaddr, bias, table_start, table_end, at);
            &&& rx == ry
            &&& x2.len() == x.len()
            &&& y2.len() == y.len()
            &&& forall|i: int| 0 <= i < x.len() ==> x2[i] == y2[i] || (x2[i] == x[i] && y2[i] == y[i])
            &&& forall|i: int| table_start <= i < table_end ==> x2[i] == x[i]
        }),
    decreases table_end - at,
{
    if at + 24 <= table_end {
        lemma_le64_agree(x, y, at);
        lemma_le64_agree(x, y, at + 8);
        lemma_le64_agree(x, y, at + 16);
        let target = le64(x, at);
        let info = le64(x, at + 8);
        let addend = le64(x, at + 16);
        if info == 0 {
            lemma_relocate_pair(x, y, min_vaddr, bias, table_start, table_end, at + 24);
        } else if info == 8 {
            if let Ok((ds, de)) = spec_range(x.len() as usize, min_vaddr, target, 8) {
                if !(ds < table_end && de > table_start) {
                    let v = bias.wrapping_add(addend);
                    let x1 = write64(x, ds as int, v);
                    let y1 = write64(y, ds as int, v);
                    vstd::bytes::lemma_auto_spec_u64_to_from_le_bytes();
                    assert(x1.len() == x.len() && y1.len() == y.len());
                    assert forall|i: int| 0 <= i < x.len() implies x1[i] == if ds <= i < de {
                        y1[i]
                    } else {
                        x[i]
                    } && y1[i] == if ds <= i < de {
                        x1[i]
                    } else {
                        y[i]
                    } by {
                        if i < ds {
                        } else if i < de {
                        } else {
                        }
                    }
                    lemma_relocate_pair(x1, y1, min_vaddr, bias, table_start, table_end, at + 24);
                }
            }
        }
    }
}

/// Relocating an image a second time changes nothing, as long as the first
/// pass left the dynamic table as it was: every entry writes a value taken
/// from the relocation table, which no entry may overwrite, so the second
/// pass writes what is already there.
pub proof fn law_apply_twice(
    image: Seq<u8>,
    min_vaddr: u64,
    load_addr: u64,
    dynamic_addr: u64,
    dynamic_size: usize,
)
    requires
        apply_spec(image, min_vaddr, load_addr, dynamic_addr, dynamic_size).1 is Ok,
        forall|i: int|
            dynamic_addr - min_vaddr <= i < dynamic_addr - min_vaddr + dynamic_size ==> #[trigger] apply_spec(
                image,
                min_vaddr,
                load_addr,
                dynamic_addr,
                dynamic_size,
            ).0[i] == image[i],
    ensures
        apply_spec(apply_spec(image, min_vaddr, load_addr, dynamic_addr, dynamic_size).0, min_vaddr, load_addr, dynamic_addr, dynamic_size)
            == apply_spec(image, min_vaddr, load_addr, dynamic_addr, dynamic_size),
{
    let once = apply_spec(image, min_vaddr, load_addr, dynamic_addr, dynamic_size).0;
    let (ds, de) = spec_range(image.len() as usize, min_vaddr, dynamic_addr, dynamic_size)->Ok_0;
    let (rela_addr, rela_size, rela_entry_size) = scan_dynamic(image, ds as int, de as int, (0, 0, 0))->Ok_0;
    if rela_size != 0 {
        let (rs, re) = spec_range(image.len() as usize, min_vaddr, rela_addr, rela_size as usize)->Ok_0;
        let bias = load_addr.wrapping_sub(min_vaddr);
        lemma_relocate_pair(image, image, min_vaddr, bias, rs as int, re as int, rs as int);
        assert(once.len() == image.len());
        assert(agree(image, once, ds as int, de as int));
        lemma_scan_agree(image, once, ds as int, de as int, (0, 0, 0));
        assert(agree(image, once, rs as int, re as int));
        lemma_relocate_pair(image, once, min_vaddr, bias, rs as int, re as int, rs as int);
        let twice = relocate(once, min_vaddr, bias, rs as int, re as int, rs as int).0;
        assert(twice =~= once);
    }
}

/// The relocation entry `m` entries after the one at `at`.
pub open spec fn rela_at(at: int, m: int) -> int {
    at + 24 * m
}

/// Whether the entry at `e` is an `R_X86_64_RELATIVE` one writing byte `i`
/// of an image linked at `min_vaddr`.
pub open spec fn writes_byte(img: Seq<u8>, min_vaddr: u64, e: int, i: int) -> bool {
    &&& le64(img, e + 8) == 8
    &&& le64(img, e) - min_vaddr <= i < le64(img, e) - min_vaddr + 8
}

proof fn lemma_le64_write_away(x: Seq<u8>, at: int, v: u64, e: int)
    requires
        0 <= at,
        at + 8 <= x.len(),
        0 <= e,
        e + 8 <= x.len(),
        e + 8 <= at || at + 8 <= e,
    ensures
        le64(write64(x, at, v), e) == le64(x, e),
        write64(x, at, v).len() == x.len(),
{
    vstd::bytes::lemma_auto_spec_u64_to_from_le_bytes();
    assert(write64(x, at, v).subrange(e, e + 8) =~= x.subrange(e, e + 8));
}

proof fn lemma_le64_write_same(x: Seq<u8>, at: int, v: u64)
    requires
        0 <= at,
        at + 8 <= x.len(),
    ensures
        le64(write64(x, at, v), at) == v,
        write64(x, at, v).len() == x.len(),
        forall|i: int| 0 <= i < x.len() && !(at <= i < at + 8) ==> write64(x, at, v)[i] == x[i],
        forall|i: int| at <= i < at + 8 ==> write64(x, at, v)[i] == vstd::bytes::spec_u64_to_le_bytes(v)[i - at],
{
    vstd::bytes::lemma_auto_spec_u64_to_from_le_bytes();
    assert(write64(x, at, v).subrange(at, at + 8) =~= vstd::bytes::spec_u64_to_le_bytes(v));
}

/// A byte that no later entry writes keeps its value through relocation.
proof fn lemma_relocate_frame(
    img: Seq<u8>,
    min_vaddr: u64,
    bias: u64,
    table_start: int,
    table_end: int,
    at: int,
    i: int,
)
    requires
        0 <= table_start <= at,
        table_end <= img.len(),
        img.len() <= usize::MAX,
        relocate(img, min_vaddr, bias, table_start, table_end, at).1 is Ok,
        0 <= i < img.len(),
        forall|m: int|
            m >= 0 && rela_at(at, m) + 24 <= table_end ==> !#[trigger] writes_byte(img, min_vaddr, rela_at(at, m), i),
    ensures
        relocate(img, min_vaddr, bias, table_start, table_end, at).0[i] == img[i],
    decreases table_end - at,
{
    if at + 24 <= table_end {
        let target = le64(img, at);
        let info = le64(img, at + 8);
        let addend = le64(img, at + 16);
        assert(rela_at(at, 0) == at);
        if info == 0 {
            assert forall|m: int|
                m >= 0 && rela_at(at + 24, m) + 24 <= table_end implies !#[trigger] writes_byte(
                img,
                min_vaddr,
                rela_at(at + 24, m),
                i,
            ) by {
                assert(rela_at(at + 24, m) == rela_at(at, m + 1));
            }
            lemma_relocate_frame(img, min_vaddr, bias, table_start, table_end, at + 24, i);
        } else {
            let (ds, de) = spec_range(img.len() as usize, min_vaddr, target, 8)->Ok_0;
            let v = bias.wrapping_add(addend);
            let x1 = write64(img, ds as int, v);
            assert(info == 8);
            assert(spec_range(img.len() as usize, min_vaddr, target, 8) is Ok);
            assert(ds + 8 <= img.len() && ds == target - min_vaddr);
            assert(!(ds < table_end && de > table_start));
            lemma_le64_write_same(img, ds as int, v);
            assert(!writes_byte(img, min_vaddr, rela_at(at, 0), i));
            assert(x1.len() == img.len());
            assert(x1[i] == img[i]);
            assert forall|m: int|
                m >= 0 && rela_at(at + 24, m) + 24 <= table_end implies !#[trigger] writes_byte(
                x1,
                min_vaddr,
                rela_at(at + 24, m),
                i,
            ) by {
                let e = rela_at(at + 24, m);
                assert(e == rela_at(at, m + 1));
                lemma_le64_write_away(img, ds as int, v, e);
                lemma_le64_write_away(img, ds as int, v, e + 8);
                assert(!writes_byte(img, min_vaddr, rela_at(at, m + 1), i));
            }
            lemma_relocate_frame(x1, min_vaddr, bias, table_start, table_end, at + 24, i);
        }
    }
}

/// After a successful relocation, the word each `R_X86_64_RELATIVE` entry
/// targets holds `bias + addend`, unless a later entry writes into it.
proof fn lemma_relocate_entry(
    img: Seq<u8>,
    min_vaddr: u64,
    bias: u64,
    table_start: int,
    table_end: int,
    at: int,
    m: int,
)
    requires
        0 <= table_start <= at,
        table_end <= img.len(),
        img.len() <= usize::MAX,
        relocate(img, min_vaddr, bias, table_start, table_end, at).1 is Ok,
        m >= 0,
        rela_at(at, m) + 24 <= table_end,
        le64(img, rela_at(at, m) + 8) == 8,
        forall|j: int, i: int|
            j > m && rela_at(at, j) + 24 <= table_end && le64(img, rela_at(at, m)) - min_vaddr <= i < le64(
                img,
                rela_at(at, m),
            ) - min_vaddr + 8 ==> !#[trigger] writes_byte(img, min_vaddr, rela_at(at, j), i),
    ensures
        le64(img, rela_at(at, m)) >= min_vaddr,
        le64(img, rela_at(at, m)) - min_vaddr + 8 <= img.len(),
        le64(
            relocate(img, min_vaddr, bias, table_start, table_end, at).0,
            le64(img, rela_at(at, m)) - min_vaddr,
        ) == bias.wrapping_add(le64(img, rela_at(at, m) + 16)),
    decreases m,
{
    let target = le64(img, at);
    let info = le64(img, at + 8);
    let addend = le64(img, at + 16);
    assert(rela_at(at, 0) == at);
    if m == 0 {
        let (ds, de) = spec_range(img.len() as usize, min_vaddr, target, 8)->Ok_0;
        let v = bias.wrapping_add(addend);
        let x1 = write64(img, ds as int, v);
        assert(spec_range(img.len() as usize, min_vaddr, target, 8) is Ok);
        assert(ds + 8 <= img.len() && ds == target - min_vaddr);
        assert(!(ds < table_end && de > table_start));
        lemma_le64_write_same(img, ds as int, v);
        let out = relocate(img, min_vaddr, bias, table_start, table_end, at).0;
        assert(out == relocate(x1, min_vaddr, bias, table_start, table_end, at + 24).0);
        assert forall|i: int| ds <= i < ds + 8 implies out[i] == x1[i] by {
            assert forall|j: int|
                j >= 0 && rela_at(at + 24, j) + 24 <= table_end implies !#[trigger] writes_byte(
                x1,
                min_vaddr,
                rela_at(at + 24, j),
                i,
            ) by {
                let e = rela_at(at + 24, j);
                assert(e == rela_at(at, j + 1));
                lemma_le64_write_away(img, ds as int, v, e);
                lemma_le64_write_away(img, ds as int, v, e + 8);
                assert(!writes_byte(img, min_vaddr, rela_at(at, j + 1), i));
            }
            lemma_relocate_frame(x1, min_vaddr, bias, table_start, table_end, at + 24, i);
        }
        lemma_relocate_pair(x1, x1, min_vaddr, bias, table_start, table_end, at + 24);
        assert(out.subrange(ds as int, ds + 8) =~= x1.subrange(ds as int, ds + 8));
    } else {
        assert(rela_at(at, m) == rela_at(at + 24, m - 1));
        if info == 0 {
            assert forall|j: int, i: int|
                j > m - 1 && rela_at(at + 24, j) + 24 <= table_end && le64(img, rela_at(at + 24, m - 1)) - min_vaddr
                    <= i < le64(img, rela_at(at + 24, m - 1)) - min_vaddr + 8 implies !#[trigger] writes_byte(
                img,
                min_vaddr,
                rela_at(at + 24, j),
                i,
            ) by {
                assert(rela_at(at + 24, j) == rela_at(at, j + 1));
            }
            lemma_relocate_entry(img, min_vaddr, bias, table_start, table_end, at + 24, m - 1);
        } else {
            let (ds, de) = spec_range(img.len() as usize, min_vaddr, target, 8)->Ok_0;
            let v = bias.wrapping_add(addend);
            let x1 = write64(img, ds as int, v);
            let e = rela_at(at, m);
            lemma_le64_write_away(img, ds as int, v, e);
            lemma_le64_write_away(img, ds as int, v, e + 8);
            lemma_le64_write_away(img, ds as int, v, e + 16);
            assert forall|j: int, i: int|
                j > m - 1 && rela_at(at + 24, j) + 24 <= table_end && le64(x1, rela_at(at + 24, m - 1)) - min_vaddr
                    <= i < le64(x1, rela_at(at + 24, m - 1)) - min_vaddr + 8 implies !#[trigger] writes_byte(
                x1,
                min_vaddr,
                rela_at(at + 24, j),
                i,
            ) by {
                let f = rela_at(at + 24, j);
                assert(f == rela_at(at, j + 1));
                lemma_le64_write_away(img, ds as int, v, f);
                lemma_le64_write_away(img, ds as int, v, f + 8);
                assert(!writes_byte(img, min_vaddr, rela_at(at, j + 1), i));
            }
            lemma_relocate_entry(x1, min_vaddr, bias, table_start, table_end, at + 24, m - 1);
        }
    }
}

/// Where the relocation table of an image lies, `[start, end)`, as its
/// dynamic table names it (DT_RELA, DT_RELASZ); `None` when the dynamic
/// table or the relocation table cannot be found in the image, or is empty.
pub open spec fn rela_span(image: Seq<u8>, min_vaddr: u64, dynamic_addr: u64, dynamic_size: usize) -> Option<(int, int)> {
    match spec_range(image.len() as usize, min_vaddr, dynamic_addr, dynamic_size) {
        Err(_) => None,
        Ok((ds, de)) => match scan_dynamic(image, ds as int, de as int, (0, 0, 0)) {
            Err(_) => None,
            Ok((rela_addr, rela_size, _)) => if rela_size == 0 || rela_size > usize::MAX {
                None
            } else {
                match spec_range(image.len() as usize, min_vaddr, rela_addr, rela_size as usize) {
                    Err(_) => None,
                    Ok((rs, re)) => Some((rs as int, re as int)),
                }
            },
        },
    }
}

/// Every relocation is applied: after `apply` succeeds, the word that each
/// `R_X86_64_RELATIVE` entry of the relocation table targets lies in the
/// image and holds `load_addr - min_vaddr + addend` (wrapping), the entry's
/// target and addend read from the image as it was, unless a later entry
/// writes into that same word.
pub proof fn law_apply_relocates_every_entry(
    image: Seq<u8>,
    min_vaddr: u64,
    load_addr: u64,
    dynamic_addr: u64,
    dynamic_size: usize,
    start: int,
    end: int,
    k: int,
)
    requires
        image.len() <= usize::MAX,
        apply_spec(image, min_vaddr, load_addr, dynamic_addr, dynamic_size).1 is Ok,
        rela_span(image, min_vaddr, dynamic_addr, dynamic_size) == Some((start, end)),
        k >= 0,
        rela_at(start, k) + 24 <= end,
        le64(image, rela_at(start, k) + 8) == 8,
        forall|j: int, i: int|
            j > k && rela_at(start, j) + 24 <= end && le64(image, rela_at(start, k)) - min_vaddr <= i < le64(
                image,
                rela_at(start, k),
            ) - min_vaddr + 8 ==> !#[trigger] writes_byte(image, min_vaddr, rela_at(start, j), i),
    ensures
        ({
            let target = le64(image, rela_at(start, k)) - min_vaddr;
            &&& 0 <= target
            &&& target + 8 <= image.len()
            &&& le64(apply_spec(image, min_vaddr, load_addr, dynamic_addr, dynamic_size).0, target)
                == load_addr.wrapping_sub(min_vaddr).wrapping_add(le64(image, rela_at(start, k) + 16))
        }),
{
    let bias = load_addr.wrapping_sub(min_vaddr);
    assert(apply_spec(image, min_vaddr, load_addr, dynamic_addr, dynamic_size).0 == relocate(
        image,
        min_vaddr,
        bias,
        start,
        end,
        start,
    ).0);
    lemma_relocate_entry(image, min_vaddr, bias, start, end, start, k);
}

} // verus!
