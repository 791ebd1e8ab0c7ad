//! Little-endian field access on byte images.
use vstd::prelude::*;
use vstd::bytes::{spec_u16_from_le_bytes, spec_u32_from_le_bytes, spec_u64_from_le_bytes, spec_u64_to_le_bytes};

verus! {

/// The little-endian 64-bit word stored at `at`.
pub open spec fn le64(img: Seq<u8>, at: int) -> u64 {
    spec_u64_from_le_bytes(img.subrange(at, at + 8))
}

/// The little-endian 16-bit word stored at `at`.
pub open spec fn le16(img: Seq<u8>, at: int) -> u16 {
    spec_u16_from_le_bytes(img.subrange(at, at + 2))
}

/// The little-endian 32-bit word stored at `at`.
pub open spec fn le32(img: Seq<u8>, at: int) -> u32 {
    spec_u32_from_le_bytes(img.subrange(at, at + 4))
}

/// `img` with the eight bytes at `at` replaced by the little-endian encoding of `v`.
pub open spec fn write64(img: Seq<u8>, at: int, v: u64) -> Seq<u8> {
    img.subrange(0, at) + spec_u64_to_le_bytes(v) + img.subrange(at + 8, img.len() as int)
}

pub fn read_u64(data: &[u8], at: usize) -> (r: u64)
    requires
        at + 8 <= data.len(),
    ensures
        r == le64(data@, at as int),
{
    let bytes = vstd::slice::slice_subrange(data, at, at + 8);
    vstd::bytes::u64_from_le_bytes(bytes)
}

pub fn read_u16(data: &[u8], at: usize) -> (r: u16)
    requires
        at + 2 <= data.len(),
    ensures
        r == le16(data@, at as int),
{
    let bytes = vstd::slice::slice_subrange(data, at, at + 2);
    vstd::bytes::u16_from_le_bytes(bytes)
}

pub fn read_u32(data: &[u8], at: usize) -> (r: u32)
    requires
        at + 4 <= data.len(),
    ensures
        r == le32(data@, at as int),
{
    let bytes = vstd::slice::slice_subrange(data, at, at + 4);
    vstd::bytes::u32_from_le_bytes(bytes)
}

pub fn write_u64(data: &mut [u8], at: usize, v: u64)
    requires
        at + 8 <= old(data).len(),
    ensures
        final(data)@ == write64(old(data)@, at as int, v),
        final(data)@.len() == old(data)@.len(),
{
    let bytes = vstd::bytes::u64_to_le_bytes(v);
    let mut j: usize = 0;
    while j < 8
        invariant
            0 <= j <= 8,
            at + 8 <= data.len(),
            bytes@ == spec_u64_to_le_bytes(v),
            bytes@.len() == 8,
            data@.len() == old(data)@.len(),
            forall|i: int|
                0 <= i < data@.len() && !(at <= i < at + j) ==> data@[i] == old(data)@[i],
            forall|i: int| at <= i < at + j ==> data@[i] == bytes@[i - at],
        decreases 8 - j,
    {
        data[at + j] = bytes[j];
        j += 1;
    }
    proof {
        vstd::bytes::lemma_auto_spec_u64_to_from_le_bytes();
        assert(data@ =~= write64(old(data)@, at as int, v));
    }
}

} // verus!
