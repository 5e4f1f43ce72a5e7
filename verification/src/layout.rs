//! Little-endian integer fields of the on-disk layout.
//!
//! Every multi-byte field of the container (header counts and offsets,
//! string-table slots, node records, inline payloads) is little-endian.
//! The spec functions below give the mathematical value of such a field,
//! and the executable readers are proved to return exactly that value.

use vstd::prelude::*;

verus! {

/// Value of the 16-bit little-endian field at byte offset `off`.
pub open spec fn le16(b: Seq<u8>, off: int) -> int
    recommends
        0 <= off,
        off + 2 <= b.len(),
{
    b[off] + 0x100 * b[off + 1]
}

/// Value of the 32-bit little-endian field at byte offset `off`.
pub open spec fn le32(b: Seq<u8>, off: int) -> int
    recommends
        0 <= off,
        off + 4 <= b.len(),
{
    le16(b, off) + 0x1_0000 * le16(b, off + 2)
}

/// Value of the 64-bit little-endian field at byte offset `off`.
pub open spec fn le64(b: Seq<u8>, off: int) -> int
    recommends
        0 <= off,
        off + 8 <= b.len(),
{
    le32(b, off) + 0x1_0000_0000 * le32(b, off + 4)
}

/// The 32-bit field at `off` reinterpreted as a two's-complement signed value.
pub open spec fn le_i32(b: Seq<u8>, off: int) -> i32 {
    le32(b, off) as u32 as i32
}

/// The 64-bit field at `off` reinterpreted as a two's-complement signed value.
pub open spec fn le_i64(b: Seq<u8>, off: int) -> i64 {
    le64(b, off) as u64 as i64
}

pub proof fn lemma_le32_bound(b: Seq<u8>, off: int)
    requires
        0 <= off,
        off + 4 <= b.len(),
    ensures
        0 <= le32(b, off) < 0x1_0000_0000,
{
}

/// Reads the 16-bit little-endian field at `off`.
pub fn read_u16(data: &[u8], off: usize) -> (r: u16)
    requires
        off + 2 <= data@.len(),
    ensures
        r == le16(data@, off as int),
{
    // a slice holds at most usize::MAX bytes; binding the length puts that
    // bound on the offsets in scope
    let _n = data.len();
    let lo = *vstd::slice::slice_index_get(data, off);
    let hi = *vstd::slice::slice_index_get(data, off + 1);
    (lo as u16) + 0x100 * (hi as u16)
}

/// Reads the 32-bit little-endian field at `off`.
pub fn read_u32(data: &[u8], off: usize) -> (r: u32)
    requires
        off + 4 <= data@.len(),
    ensures
        r == le32(data@, off as int),
{
    let _n = data.len();
    let lo = read_u16(data, off);
    let hi = read_u16(data, off + 2);
    (lo as u32) + 0x1_0000 * (hi as u32)
}

/// Reads the 64-bit little-endian field at `off`.
pub fn read_u64(data: &[u8], off: usize) -> (r: u64)
    requires
        off + 8 <= data@.len(),
    ensures
        r == le64(data@, off as int),
{
    let _n = data.len();
    let lo = read_u32(data, off);
    let hi = read_u32(data, off + 4);
    proof {
        lemma_le32_bound(data@, off as int);
        lemma_le32_bound(data@, off + 4);
    }
    (lo as u64) + 0x1_0000_0000 * (hi as u64)
}

/// Reads the 32-bit little-endian field at `off` as a signed value.
pub fn read_i32(data: &[u8], off: usize) -> (r: i32)
    requires
        off + 4 <= data@.len(),
    ensures
        r == le_i32(data@, off as int),
{
    let u = read_u32(data, off);
    #[verifier::truncate] (u as i32)
}

/// Reads the 64-bit little-endian field at `off` as a signed value.
pub fn read_i64(data: &[u8], off: usize) -> (r: i64)
    requires
        off + 8 <= data@.len(),
    ensures
        r == le_i64(data@, off as int),
{
    let u = read_u64(data, off);
    #[verifier::truncate] (u as i64)
}

} // verus!
