//! Big-endian 32-bit fields: the one multi-byte encoding OSC uses, for
//! signed and unsigned integers and for float bit patterns alike.

use vstd::prelude::*;

verus! {

/// The four big-endian bytes of a 32-bit value.
pub open spec fn be32(v: u32) -> Seq<u8> {
    seq![
        ((v >> 24) & 0xff) as u8,
        ((v >> 16) & 0xff) as u8,
        ((v >> 8) & 0xff) as u8,
        (v & 0xff) as u8,
    ]
}

/// The 32-bit value assembled from four big-endian bytes.
pub open spec fn u32_of_be(b0: u8, b1: u8, b2: u8, b3: u8) -> u32 {
    ((b0 as u32) << 24) | ((b1 as u32) << 16) | ((b2 as u32) << 8) | (b3 as u32)
}

/// The 32-bit value whose big-endian bytes sit at `pos` in `s`.
pub open spec fn be_at(s: Seq<u8>, pos: int) -> u32
    recommends
        0 <= pos && pos + 4 <= s.len(),
{
    u32_of_be(s[pos], s[pos + 1], s[pos + 2], s[pos + 3])
}

/// The unsigned 32-bit pattern of a signed value (two's complement).
pub open spec fn u32_of_i32(v: i32) -> u32 {
    if v >= 0 {
        v as u32
    } else {
        (v + 0x1_0000_0000) as u32
    }
}

/// The signed value of an unsigned 32-bit pattern (two's complement).
pub open spec fn i32_of_u32(v: u32) -> i32 {
    if v < 0x8000_0000 {
        v as i32
    } else {
        (v - 0x1_0000_0000) as i32
    }
}

/// Reassembling the bytes of `v` gives `v` back.
pub proof fn lemma_be32_roundtrip(v: u32)
    ensures
        u32_of_be(be32(v)[0], be32(v)[1], be32(v)[2], be32(v)[3]) == v,
{
    assert(((((v >> 24) & 0xff) as u8 as u32) << 24) | ((((v >> 16) & 0xff) as u8 as u32) << 16)
        | ((((v >> 8) & 0xff) as u8 as u32) << 8) | (((v & 0xff) as u8) as u32) == v)
        by (bit_vector);
}

/// A 32-bit field whose bytes are `be32(v)` reads back as `v`.
pub proof fn lemma_be_at_of_be32(w: Seq<u8>, p: int, v: u32)
    requires
        0 <= p,
        p + 4 <= w.len(),
        w.subrange(p, p + 4) == be32(v),
    ensures
        be_at(w, p) == v,
{
    lemma_be32_roundtrip(v);
    assert(w[p] == w.subrange(p, p + 4)[0]);
    assert(w[p + 1] == w.subrange(p, p + 4)[1]);
    assert(w[p + 2] == w.subrange(p, p + 4)[2]);
    assert(w[p + 3] == w.subrange(p, p + 4)[3]);
}

/// The two's-complement views invert each other.
pub proof fn lemma_i32_u32_roundtrip(v: i32)
    ensures
        i32_of_u32(u32_of_i32(v)) == v,
{
}

/// Append the big-endian bytes of `v`.
pub fn push_be_u32(buf: &mut Vec<u8>, v: u32)
    ensures
        final(buf)@ == old(buf)@ + be32(v),
{
    proof {
        assert((v >> 24) & 0xff < 256 && (v >> 16) & 0xff < 256 && (v >> 8) & 0xff < 256 && v
            & 0xff < 256) by (bit_vector);
    }
    buf.push(((v >> 24) & 0xff) as u8);
    buf.push(((v >> 16) & 0xff) as u8);
    buf.push(((v >> 8) & 0xff) as u8);
    buf.push((v & 0xff) as u8);
    proof {
        assert(buf@ =~= old(buf)@ + be32(v));
    }
}

/// Append the big-endian bytes of a signed value.
pub fn push_be_i32(buf: &mut Vec<u8>, v: i32)
    ensures
        final(buf)@ == old(buf)@ + be32(u32_of_i32(v)),
{
    let u: u32 = i32_to_u32(v);
    push_be_u32(buf, u);
}

/// The unsigned 32-bit pattern of a signed value.
pub fn i32_to_u32(v: i32) -> (r: u32)
    ensures
        r == u32_of_i32(v),
{
    if v >= 0 {
        v as u32
    } else {
        ((v as i64) + 0x1_0000_0000i64) as u32
    }
}

/// The signed value of an unsigned 32-bit pattern.
pub fn u32_to_i32(v: u32) -> (r: i32)
    ensures
        r == i32_of_u32(v),
{
    if v < 0x8000_0000 {
        v as i32
    } else {
        ((v as i64) - 0x1_0000_0000i64) as i32
    }
}

/// Read the unsigned big-endian 32-bit field at `pos`.
pub fn read_be_u32(buf: &[u8], pos: usize) -> (r: u32)
    requires
        pos + 4 <= buf@.len(),
    ensures
        r == be_at(buf@, pos as int),
{
    let b0 = buf[pos];
    let b1 = buf[pos + 1];
    let b2 = buf[pos + 2];
    let b3 = buf[pos + 3];
    ((b0 as u32) << 24) | ((b1 as u32) << 16) | ((b2 as u32) << 8) | (b3 as u32)
}

} // verus!
