//! The 4-byte alignment utility used by every string and blob field.

use vstd::prelude::*;

verus! {

/// Number of zero bytes that bring a field of length `n` up to the next
/// multiple of 4; 0 if `n` is already aligned.
pub open spec fn pad4(n: int) -> int {
    (4 - n % 4) % 4
}

/// How many more bytes are needed to make `len` a multiple of four.
pub fn four_byte_pad(len: usize) -> (r: usize)
    ensures
        r == pad4(len as int),
        r < 4,
        (len + r) % 4 == 0,
{
    let rem = len % 4;
    match rem {
        0 => 0,
        v => 4 - v,
    }
}

/// Byte-for-byte equality of two byte slices.
pub fn bytes_eq(a: &[u8], b: &[u8]) -> (r: bool)
    ensures
        r <==> a@ == b@,
{
    if a.len() != b.len() {
        return false;
    }
    let mut i: usize = 0;
    while i < a.len()
        invariant
            i <= a@.len(),
            a@.len() == b@.len(),
            forall|j: int| 0 <= j < i ==> a@[j] == b@[j],
        decreases a@.len() - i,
    {
        if a[i] != b[i] {
            return false;
        }
        i += 1;
    }
    proof {
        assert(a@ =~= b@);
    }
    true
}

/// A fresh vector holding the same bytes.
pub fn clone_bytes(v: &Vec<u8>) -> (r: Vec<u8>)
    ensures
        r@ == v@,
{
    let mut r: Vec<u8> = Vec::new();
    let mut i: usize = 0;
    while i < v.len()
        invariant
            i <= v@.len(),
            r@ == v@.subrange(0, i as int),
        decreases v@.len() - i,
    {
        r.push(v[i]);
        proof {
            assert(r@ =~= v@.subrange(0, i + 1));
        }
        i += 1;
    }
    proof {
        assert(r@ =~= v@);
    }
    r
}

} // verus!
