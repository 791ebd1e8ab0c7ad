//! The bootloader's ELF loading: the kernel's loadable segments laid out
//! from the lowest one, copied into the pages allocated for them (the rest
//! zeroed), relocated for the address they landed at, and the entry point
//! found. Allocating the pages and jumping to the kernel are the firmware
//! glue's part.
use vstd::prelude::*;
use crate::bytes::{le16, le32, le64, read_u16, read_u32, read_u64};

verus! {

pub const PT_LOAD: u32 = 1;
pub const PT_DYNAMIC: u32 = 2;
/// Bytes per program header.
pub const PH_SIZE: u64 = 56;

/// Where the kernel image goes: from its lowest loadable address, `size`
/// bytes long in `pages` pages, entered `entry` bytes in.
#[derive(Clone, Copy, Debug, PartialEq, Eq, Structural)]
pub struct BootLayout {
    pub min_vaddr: u64,
    pub size: u64,
    pub pages: u64,
    pub entry: u64,
}

pub open spec fn ph_offset(file: Seq<u8>) -> int {
    le64(file, 32) as int
}

pub open spec fn ph_count(file: Seq<u8>) -> int {
    le16(file, 56) as int
}

/// Where program header `i` starts.
pub open spec fn ph(file: Seq<u8>, i: int) -> int {
    ph_offset(file) + 56 * i
}

pub open spec fn p_type(file: Seq<u8>, i: int) -> u32 {
    le32(file, ph(file, i))
}

pub open spec fn p_offset(file: Seq<u8>, i: int) -> u64 {
    le64(file, ph(file, i) + 8)
}

pub open spec fn p_vaddr(file: Seq<u8>, i: int) -> u64 {
    le64(file, ph(file, i) + 16)
}

pub open spec fn p_filesz(file: Seq<u8>, i: int) -> u64 {
    le64(file, ph(file, i) + 32)
}

pub open spec fn p_memsz(file: Seq<u8>, i: int) -> u64 {
    le64(file, ph(file, i) + 40)
}

/// Over the first `n` headers: the lowest loadable address and the highest
/// loadable end, or `None` once a segment's end passes 2^64.
pub open spec fn extent(file: Seq<u8>, n: int) -> Option<(u64, u64)>
    decreases n,
{
    if n <= 0 {
        Some((u64::MAX, 0u64))
    } else {
        match extent(file, n - 1) {
            None => None,
            Some((lo, hi)) => if p_type(file, n - 1) != PT_LOAD {
                Some((lo, hi))
            } else if p_vaddr(file, n - 1) + p_memsz(file, n - 1) > u64::MAX {
                None
            } else {
                let end = (p_vaddr(file, n - 1) + p_memsz(file, n - 1)) as u64;
                Some(
                    (
                        if p_vaddr(file, n - 1) < lo {
                            p_vaddr(file, n - 1)
                        } else {
                            lo
                        },
                        if end > hi {
                            end
                        } else {
                            hi
                        },
                    ),
                )
            },
        }
    }
}

/// The layout of the kernel file `file`, or why it cannot be loaded.
pub open spec fn layout_spec(file: Seq<u8>) -> Result<BootLayout, &'static str> {
    if file.len() < 64 {
        Err("ELF HEADER OUT OF FILE")
    } else if file.subrange(0, 4) != seq![0x7fu8, 0x45, 0x4c, 0x46] {
        Err("Invalid ELF magic")
    } else if ph_offset(file) + 56 * ph_count(file) > file.len() {
        Err("PROGRAM HEADERS OUT OF FILE")
    } else {
        match extent(file, ph_count(file)) {
            None => Err("SEGMENT END OVERFLOW"),
            Some((lo, hi)) => if hi < lo {
                Err("NO LOADABLE SEGMENT")
            } else if le64(file, 24) < lo {
                Err("ENTRY BELOW IMAGE")
            } else {
                Ok(
                    BootLayout {
                        min_vaddr: lo,
                        size: (hi - lo) as u64,
                        pages: ((hi - lo) / 4096 + 1) as u64,
                        entry: (le64(file, 24) - lo) as u64,
                    },
                )
            },
        }
    }
}

/// Once a segment's end overflows, the extent stays undefined.
proof fn lemma_extent_none(file: Seq<u8>, i: int, n: int)
    requires
        extent(file, i) is None,
        i <= n,
    ensures
        extent(file, n) is None,
    decreases n - i,
{
    if i < n {
        lemma_extent_none(file, i, n - 1);
    }
}

/// Lays the kernel file out.
pub fn layout(file: &[u8]) -> (r: Result<BootLayout, &'static str>)
    ensures
        r == layout_spec(file@),
{
    if file.len() < 64 {
        return Err("ELF HEADER OUT OF FILE");
    }
    if !(file[0] == 0x7f && file[1] == 0x45 && file[2] == 0x4c && file[3] == 0x46) {
        proof {
            if file@.subrange(0, 4) == seq![0x7fu8, 0x45, 0x4c, 0x46] {
                assert(file@.subrange(0, 4)[0] == file@[0]);
                assert(file@.subrange(0, 4)[1] == file@[1]);
                assert(file@.subrange(0, 4)[2] == file@[2]);
                assert(file@.subrange(0, 4)[3] == file@[3]);
            }
        }
        return Err("Invalid ELF magic");
    }
    assert(file@.subrange(0, 4) =~= seq![0x7fu8, 0x45, 0x4c, 0x46]);
    let phoff = read_u64(file, 32);
    let phnum = read_u16(file, 56) as u64;
    let entry = read_u64(file, 24);
    if phoff > file.len() as u64 || (file.len() as u64 - phoff) / PH_SIZE < phnum {
        proof {
            if phoff <= file.len() as u64 {
                assert(phoff + 56 * phnum > file.len()) by (nonlinear_arith)
                    requires
                        (file.len() - phoff) / 56 < phnum,
                        phoff <= file.len(),
                ;
            }
        }
        return Err("PROGRAM HEADERS OUT OF FILE");
    }
    proof {
        assert(phoff + 56 * phnum <= file.len()) by (nonlinear_arith)
            requires
                (file.len() - phoff) / 56 >= phnum,
                phoff <= file.len(),
        ;
    }
    let mut lo: u64 = u64::MAX;
    let mut hi: u64 = 0;
    let mut i: u64 = 0;
    while i < phnum
        invariant
            phoff == ph_offset(file@),
            phnum == ph_count(file@),
            phoff + 56 * phnum <= file@.len(),
            file@.len() == file.len(),
            file@.len() >= 64,
            file@.subrange(0, 4) == seq![0x7fu8, 0x45, 0x4c, 0x46],
            entry == le64(file@, 24),
            i <= phnum,
            extent(file@, i as int) == Some((lo, hi)),
        decreases phnum - i,
    {
        proof {
            assert(phoff + 56 * i + 56 <= phoff + 56 * phnum) by (nonlinear_arith)
                requires
                    i < phnum,
            ;
            assert(phoff + 56 * i + 56 <= file.len());
        }
        let at = (phoff + PH_SIZE * i) as usize;
        let kind = read_u32(file, at);
        if kind == PT_LOAD {
            let vaddr = read_u64(file, at + 16);
            let memsz = read_u64(file, at + 40);
            if vaddr > u64::MAX - memsz {
                proof {
                    lemma_extent_none(file@, i + 1, phnum as int);
                }
                return Err("SEGMENT END OVERFLOW");
            }
            let end = vaddr + memsz;
            if vaddr < lo {
                lo = vaddr;
            }
            if end > hi {
                hi = end;
            }
        }
        i += 1;
    }
    if hi < lo {
        return Err("NO LOADABLE SEGMENT");
    }
    if entry < lo {
        return Err("ENTRY BELOW IMAGE");
    }
    Ok(BootLayout { min_vaddr: lo, size: hi - lo, pages: (hi - lo) / 4096 + 1, entry: entry - lo })
}


/// `img` with `data` at `dest`, followed by zeros up to `memsz` bytes.
pub open spec fn placed(img: Seq<u8>, dest: int, data: Seq<u8>, memsz: int) -> Seq<u8> {
    let end = if memsz > data.len() {
        dest + memsz
    } else {
        dest + data.len()
    };
    img.subrange(0, dest) + data + Seq::new((end - dest - data.len()) as nat, |_i: int| 0u8) + img.subrange(
        end,
        img.len() as int,
    )
}

/// The image after the loadable segments among the first `n` headers are
/// copied in, each at its address less `min`; or why one does not fit.
pub open spec fn place_spec(file: Seq<u8>, min: u64, img: Seq<u8>, n: int) -> Result<Seq<u8>, &'static str>
    decreases n,
{
    if n <= 0 {
        Ok(img)
    } else {
        match place_spec(file, min, img, n - 1) {
            Err(e) => Err(e),
            Ok(img) => if p_type(file, n - 1) != PT_LOAD {
                Ok(img)
            } else {
                let offset = p_offset(file, n - 1) as int;
                let filesz = p_filesz(file, n - 1) as int;
                let memsz = p_memsz(file, n - 1) as int;
                let dest = p_vaddr(file, n - 1) - min;
                let span = if memsz > filesz {
                    memsz
                } else {
                    filesz
                };
                if offset + filesz > file.len() {
                    Err("SEGMENT OUT OF FILE")
                } else if dest < 0 || dest + span > img.len() {
                    Err("SEGMENT OUT OF IMAGE")
                } else {
                    Ok(placed(img, dest, file.subrange(offset, offset + filesz), memsz))
                }
            },
        }
    }
}

/// The image after the dynamic tables among the first `n` headers are
/// applied for an image loaded at `base`.
pub open spec fn relocate_spec(file: Seq<u8>, min: u64, base: u64, img: Seq<u8>, n: int) -> (Seq<u8>, Result<(), &'static str>)
    decreases n,
{
    if n <= 0 {
        (img, Ok(()))
    } else {
        let (img1, r) = relocate_spec(file, min, base, img, n - 1);
        if r is Err || p_type(file, n - 1) != PT_DYNAMIC {
            (img1, r)
        } else {
            crate::elf_reloc::apply_spec(img1, min, base, p_vaddr(file, n - 1), p_filesz(file, n - 1) as usize)
        }
    }
}

/// The headers of a file that `layout` accepted lie inside it.
pub open spec fn headers_inside(file: Seq<u8>) -> bool {
    ph_offset(file) + 56 * ph_count(file) <= file.len()
}

/// Copies the loadable segments of `file` into `image`, laid out from
/// `min`, and zeroes what each segment holds beyond its file bytes.
pub fn place(file: &[u8], min: u64, image: &mut [u8]) -> (r: Result<(), &'static str>)
    requires
        file@.len() >= 64,
        headers_inside(file@),
    ensures
        match place_spec(file@, min, old(image)@, ph_count(file@)) {
            Ok(img) => r is Ok && final(image)@ == img,
            Err(e) => r == Err::<(), &'static str>(e),
        },
        final(image)@.len() == old(image)@.len(),
{
    let phoff = read_u64(file, 32);
    let phnum = read_u16(file, 56) as u64;
    let mut i: u64 = 0;
    while i < phnum
        invariant
            phoff == ph_offset(file@),
            phnum == ph_count(file@),
            phoff + 56 * phnum <= file@.len(),
            file@.len() == file.len(),
            image@.len() == old(image)@.len(),
            i <= phnum,
            place_spec(file@, min, old(image)@, i as int) == Ok::<Seq<u8>, &'static str>(image@),
        decreases phnum - i,
    {
        proof {
            assert(phoff + 56 * i + 56 <= phoff + 56 * phnum) by (nonlinear_arith)
                requires
                    i < phnum,
            ;
            assert(phoff + 56 * i + 56 <= file.len());
        }
        let at = (phoff + PH_SIZE * i) as usize;
        let kind = read_u32(file, at);
        if kind == PT_LOAD {
            let offset = read_u64(file, at + 8);
            let vaddr = read_u64(file, at + 16);
            let filesz = read_u64(file, at + 32);
            let memsz = read_u64(file, at + 40);
            let span = if memsz > filesz {
                memsz
            } else {
                filesz
            };
            if offset > file.len() as u64 || filesz > file.len() as u64 - offset {
                proof {
                    lemma_place_err_stays(file@, min, old(image)@, i + 1, phnum as int);
                }
                return Err("SEGMENT OUT OF FILE");
            }
            if vaddr < min || vaddr - min > image.len() as u64 || span > image.len() as u64 - (vaddr - min) {
                proof {
                    lemma_place_err_stays(file@, min, old(image)@, i + 1, phnum as int);
                }
                return Err("SEGMENT OUT OF IMAGE");
            }
            let dest = (vaddr - min) as usize;
            let start = offset as usize;
            let count = filesz as usize;
            let ghost before = image@;
            let mut k: usize = 0;
            while k < count
                invariant
                    dest + span <= image@.len(),
                    image@.len() == image.len(),
                    file@.len() == file.len(),
                    count <= span,
                    start + count <= file@.len(),
                    count == filesz,
                    k <= count,
                    image@.len() == before.len(),
                    forall|j: int| 0 <= j < image@.len() && !(dest <= j < dest + k) ==> image@[j] == before[j],
                    forall|j: int| dest <= j < dest + k ==> image@[j] == file@[start + (j - dest)],
                decreases count - k,
            {
                image[dest + k] = file[start + k];
                k += 1;
            }
            let fill = (span - filesz) as usize;
            let mut z: usize = 0;
            while z < fill
                invariant
                    dest + span <= image@.len(),
                    image@.len() == image.len(),
                    file@.len() == file.len(),
                    start + count <= file@.len(),
                    count <= span,
                    count == filesz,
                    fill == span - filesz,
                    z <= fill,
                    image@.len() == before.len(),
                    forall|j: int| 0 <= j < image@.len() && !(dest <= j < dest + count + z) ==> image@[j] == before[j],
                    forall|j: int| dest <= j < dest + count ==> image@[j] == file@[start + (j - dest)],
                    forall|j: int| dest + count <= j < dest + count + z ==> image@[j] == 0,
                decreases fill - z,
            {
                image[dest + count + z] = 0;
                z += 1;
            }
            proof {
                assert(image@ =~= placed(before, dest as int, file@.subrange(start as int, start + count), memsz as int));
            }
        }
        i += 1;
    }
    Ok(())
}

/// An error in placing segments stays an error.
proof fn lemma_place_err_stays(file: Seq<u8>, min: u64, img: Seq<u8>, i: int, n: int)
    requires
        place_spec(file, min, img, i) is Err,
        i <= n,
    ensures
        place_spec(file, min, img, n) == place_spec(file, min, img, i),
    decreases n - i,
{
    if i < n {
        lemma_place_err_stays(file, min, img, i, n - 1);
    }
}

/// Applies the dynamic tables of `file` to `image`, which was laid out from
/// `min` and loaded at `base`.
pub fn relocate(file: &[u8], min: u64, base: u64, image: &mut [u8]) -> (r: Result<(), &'static str>)
    requires
        file@.len() >= 64,
        headers_inside(file@),
    ensures
        final(image)@ == relocate_spec(file@, min, base, old(image)@, ph_count(file@)).0,
        r is Ok <==> relocate_spec(file@, min, base, old(image)@, ph_count(file@)).1 is Ok,
        r matches Err(e) ==> relocate_spec(file@, min, base, old(image)@, ph_count(file@)).1 == Err::<(), &'static str>(e),
{
    let phoff = read_u64(file, 32);
    let phnum = read_u16(file, 56) as u64;
    let mut i: u64 = 0;
    while i < phnum
        invariant
            phoff == ph_offset(file@),
            phnum == ph_count(file@),
            phoff + 56 * phnum <= file@.len(),
            file@.len() == file.len(),
            i <= phnum,
            relocate_spec(file@, min, base, old(image)@, i as int).0 == image@,
            relocate_spec(file@, min, base, old(image)@, i as int).1 is Ok,
        decreases phnum - i,
    {
        proof {
            assert(phoff + 56 * i + 56 <= phoff + 56 * phnum) by (nonlinear_arith)
                requires
                    i < phnum,
            ;
            assert(phoff + 56 * i + 56 <= file.len());
        }
        let at = (phoff + PH_SIZE * i) as usize;
        let kind = read_u32(file, at);
        if kind == PT_DYNAMIC {
            let vaddr = read_u64(file, at + 16);
            let filesz = read_u64(file, at + 32);
            let ghost img0 = image@;
            let r = crate::elf_reloc::apply(image, min, base, vaddr, filesz as usize);
            proof {
                assert(relocate_spec(file@, min, base, old(image)@, i + 1) == crate::elf_reloc::apply_spec(
                    img0,
                    min,
                    base,
                    vaddr,
                    filesz as usize,
                ));
            }
            match r {
                Err(e) => {
                    proof {
                        lemma_relocate_err_stays(file@, min, base, old(image)@, i + 1, phnum as int);
                    }
                    return Err(e);
                },
                Ok(()) => {},
            }
        }
        i += 1;
    }
    Ok(())
}

/// A failed relocation stays failed and leaves the image as it was then.
proof fn lemma_relocate_err_stays(file: Seq<u8>, min: u64, base: u64, img: Seq<u8>, i: int, n: int)
    requires
        relocate_spec(file, min, base, img, i).1 is Err,
        i <= n,
    ensures
        relocate_spec(file, min, base, img, n) == relocate_spec(file, min, base, img, i),
    decreases n - i,
{
    if i < n {
        lemma_relocate_err_stays(file, min, base, img, i, n - 1);
    }
}

} // verus!
