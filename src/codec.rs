//! Big-endian field access over byte buffers.

use vstd::prelude::*;

verus! {

/// The big-endian 16-bit integer at `off`.
pub open spec fn be16(b: Seq<u8>, off: int) -> int {
    b[off] * 0x100 + b[off + 1]
}

/// The big-endian 32-bit integer at `off`.
pub open spec fn be32(b: Seq<u8>, off: int) -> int {
    be16(b, off) * 0x10000 + be16(b, off + 2)
}

/// The big-endian 64-bit integer at `off`.
pub open spec fn be64(b: Seq<u8>, off: int) -> int {
    be32(b, off) * 0x1_0000_0000 + be32(b, off + 4)
}

pub fn read_u16(b: &[u8], off: usize) -> (r: u16)
    requires
        off + 2 <= b@.len(),
    ensures
        r as int == be16(b@, off as int),
{
    (b[off] as u16) * 0x100 + (b[off + 1] as u16)
}

pub fn read_u32(b: &[u8], off: usize) -> (r: u32)
    requires
        off + 4 <= b@.len(),
    ensures
        r as int == be32(b@, off as int),
{
    let _n = b.len();
    let hi = read_u16(b, off);
    let lo = read_u16(b, off + 2);
    (hi as u32) * 0x10000 + (lo as u32)
}

pub fn read_u64(b: &[u8], off: usize) -> (r: u64)
    requires
        off + 8 <= b@.len(),
    ensures
        r as int == be64(b@, off as int),
{
    let _n = b.len();
    let hi = read_u32(b, off);
    let lo = read_u32(b, off + 4);
    (hi as u64) * 0x1_0000_0000 + (lo as u64)
}

/// The `N` bytes at `off`, copied.
pub fn read_array<const N: usize>(b: &[u8], off: usize) -> (r: [u8; N])
    requires
        off + N <= b@.len(),
    ensures
        r@ == b@.subrange(off as int, off + N),
{
    let n = b.len();
    let mut out = [0u8; N];
    let mut i: usize = 0;
    while i < N
        invariant
            0 <= i <= N,
            off + N <= b@.len(),
            n == b@.len(),
            out@.len() == N,
            forall|j: int| 0 <= j < i ==> #[trigger] out@[j] == b@[off + j],
        decreases N - i,
    {
        out[i] = b[off + i];
        i = i + 1;
    }
    proof {
        assert(out@ =~= b@.subrange(off as int, off + N));
    }
    out
}

/// The bytes from `start` to `end`, copied.
pub fn read_vec(b: &[u8], start: usize, end: usize) -> (r: Vec<u8>)
    requires
        start <= end <= b@.len(),
    ensures
        r@ == b@.subrange(start as int, end as int),
{
    vstd::slice::slice_to_vec(&b[start..end])
}

} // verus!
