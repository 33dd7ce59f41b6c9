//! Byte-order helpers shared by the packet codecs.

use vstd::prelude::*;

verus! {

/// The 16-bit big-endian value of the bytes `hi`, `lo`.
pub open spec fn be16(hi: u8, lo: u8) -> nat {
    hi as nat * 256 + lo as nat
}

/// `s` with the big-endian bytes of `v` stored at offsets `k`, `k + 1`.
pub open spec fn put16(s: Seq<u8>, k: int, v: u16) -> Seq<u8> {
    s.update(k, (v / 256) as u8).update(k + 1, (v % 256) as u8)
}

/// The 32-bit big-endian value of four bytes.
pub open spec fn be32(b0: u8, b1: u8, b2: u8, b3: u8) -> nat {
    ((b0 as nat * 256 + b1 as nat) * 256 + b2 as nat) * 256 + b3 as nat
}

/// The four big-endian bytes of `x`.
pub open spec fn be32_bytes(x: u32) -> Seq<u8> {
    seq![
        (x / 0x100_0000) as u8,
        (x / 0x1_0000 % 256) as u8,
        (x / 256 % 256) as u8,
        (x % 256) as u8,
    ]
}

/// Append the big-endian bytes of `v`.
pub fn push_be16(v: &mut Vec<u8>, x: u16)
    ensures
        final(v)@ == old(v)@ + seq![(x / 256) as u8, (x % 256) as u8],
{
    v.push((x / 256) as u8);
    v.push((x % 256) as u8);
}

/// Append all bytes of `s`.
pub fn push_all(v: &mut Vec<u8>, s: &[u8])
    ensures
        final(v)@ == old(v)@ + s@,
{
    let ghost v0 = v@;
    let mut i: usize = 0;
    while i < s.len()
        invariant
            i <= s@.len(),
            v@ == v0 + s@.subrange(0, i as int),
        decreases s@.len() - i,
    {
        v.push(s[i]);
        i = i + 1;
        proof {
            assert(v@ =~= v0 + s@.subrange(0, i as int));
        }
    }
    proof {
        assert(s@.subrange(0, i as int) =~= s@);
    }
}

/// Store the big-endian bytes of `x` at `v[k]`, `v[k + 1]`.
pub fn set_be16(v: &mut Vec<u8>, k: usize, x: u16)
    requires
        k + 2 <= old(v)@.len(),
    ensures
        final(v)@ == put16(old(v)@, k as int, x),
{
    let _n = v.len();
    v.set(k, (x / 256) as u8);
    v.set(k + 1, (x % 256) as u8);
}

/// Append the big-endian bytes of `x`.
pub fn push_be32(v: &mut Vec<u8>, x: u32)
    ensures
        final(v)@ == old(v)@ + be32_bytes(x),
{
    v.push((x / 0x100_0000) as u8);
    v.push((x / 0x1_0000 % 256) as u8);
    v.push((x / 256 % 256) as u8);
    v.push((x % 256) as u8);
    proof {
        assert(v@ =~= old(v)@ + be32_bytes(x));
    }
}

/// Read a big-endian u16 at `b[off]`.
pub fn read_be16(b: &[u8], off: usize) -> (r: u16)
    requires
        off + 2 <= b@.len(),
    ensures
        r == be16(b@[off as int], b@[off as int + 1]),
{
    b[off] as u16 * 256 + b[off + 1] as u16
}

/// Read a big-endian u32 at `b[off]`.
pub fn read_be32(b: &[u8], off: usize) -> (r: u32)
    requires
        off + 4 <= b@.len(),
    ensures
        r == be32(b@[off as int], b@[off as int + 1], b@[off as int + 2], b@[off as int + 3]),
{
    ((b[off] as u32 * 256 + b[off + 1] as u32) * 256 + b[off + 2] as u32) * 256 + b[off + 3] as u32
}

} // verus!
