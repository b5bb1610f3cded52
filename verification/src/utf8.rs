//! UTF-8 validity over byte sequences, used to validate decoded string
//! fields.  The definition follows the well-formed byte sequences of the
//! UTF-8 encoding scheme: no overlong forms, no surrogates, nothing above
//! U+10FFFF.

use vstd::prelude::*;

verus! {

/// A continuation byte: `10xxxxxx`.
pub open spec fn is_cont(b: u8) -> bool {
    0x80 <= b <= 0xbf
}

/// Whether `s` is a well-formed UTF-8 byte sequence.
pub open spec fn is_utf8(s: Seq<u8>) -> bool
    decreases s.len(),
{
    if s.len() == 0 {
        true
    } else {
        let b0 = s[0];
        if b0 < 0x80 {
            is_utf8(s.skip(1))
        } else if 0xc2 <= b0 <= 0xdf {
            s.len() >= 2 && is_cont(s[1]) && is_utf8(s.skip(2))
        } else if b0 == 0xe0 {
            s.len() >= 3 && 0xa0 <= s[1] <= 0xbf && is_cont(s[2]) && is_utf8(s.skip(3))
        } else if 0xe1 <= b0 <= 0xec {
            s.len() >= 3 && is_cont(s[1]) && is_cont(s[2]) && is_utf8(s.skip(3))
        } else if b0 == 0xed {
            s.len() >= 3 && 0x80 <= s[1] <= 0x9f && is_cont(s[2]) && is_utf8(s.skip(3))
        } else if 0xee <= b0 <= 0xef {
            s.len() >= 3 && is_cont(s[1]) && is_cont(s[2]) && is_utf8(s.skip(3))
        } else if b0 == 0xf0 {
            s.len() >= 4 && 0x90 <= s[1] <= 0xbf && is_cont(s[2]) && is_cont(s[3]) && is_utf8(
                s.skip(4),
            )
        } else if 0xf1 <= b0 <= 0xf3 {
            s.len() >= 4 && is_cont(s[1]) && is_cont(s[2]) && is_cont(s[3]) && is_utf8(s.skip(4))
        } else if b0 == 0xf4 {
            s.len() >= 4 && 0x80 <= s[1] <= 0x8f && is_cont(s[2]) && is_cont(s[3]) && is_utf8(
                s.skip(4),
            )
        } else {
            false
        }
    }
}

/// A sequence of bytes below 0x80 is valid UTF-8.
pub proof fn lemma_ascii_is_utf8(s: Seq<u8>)
    requires
        forall|i: int| 0 <= i < s.len() ==> s[i] < 0x80,
    ensures
        is_utf8(s),
    decreases s.len(),
{
    if s.len() > 0 {
        lemma_ascii_is_utf8(s.skip(1));
    }
}

/// Check whether a byte slice is well-formed UTF-8.
pub fn is_valid_utf8(s: &[u8]) -> (r: bool)
    ensures
        r == is_utf8(s@),
{
    let n = s.len();
    let mut i: usize = 0;
    proof {
        assert(s@.skip(0) =~= s@);
    }
    while i < n
        invariant
            0 <= i <= n,
            n == s@.len(),
            is_utf8(s@) <==> is_utf8(s@.skip(i as int)),
        decreases n - i,
    {
        let ghost rest = s@.skip(i as int);
        let b0 = s[i];
        assert(rest[0] == b0);
        if b0 < 0x80 {
            proof {
                assert(rest.skip(1) =~= s@.skip(i + 1));
            }
            i += 1;
        } else if 0xc2 <= b0 && b0 <= 0xdf {
            if !(i + 1 < n && 0x80 <= s[i + 1] && s[i + 1] <= 0xbf) {
                return false;
            }
            proof {
                assert(rest.skip(2) =~= s@.skip(i + 2));
            }
            i += 2;
        } else if 0xe0 <= b0 && b0 <= 0xef {
            if n - i < 3 {
                return false;
            }
            let b1 = s[i + 1];
            let b2 = s[i + 2];
            assert(rest[1] == b1 && rest[2] == b2);
            let b1_ok = if b0 == 0xe0 {
                0xa0 <= b1 && b1 <= 0xbf
            } else if b0 == 0xed {
                0x80 <= b1 && b1 <= 0x9f
            } else {
                0x80 <= b1 && b1 <= 0xbf
            };
            if !(b1_ok && 0x80 <= b2 && b2 <= 0xbf) {
                return false;
            }
            proof {
                assert(rest.skip(3) =~= s@.skip(i + 3));
            }
            i += 3;
        } else if 0xf0 <= b0 && b0 <= 0xf4 {
            if n - i < 4 {
                return false;
            }
            let b1 = s[i + 1];
            let b2 = s[i + 2];
            let b3 = s[i + 3];
            assert(rest[1] == b1 && rest[2] == b2 && rest[3] == b3);
            let b1_ok = if b0 == 0xf0 {
                0x90 <= b1 && b1 <= 0xbf
            } else if b0 == 0xf4 {
                0x80 <= b1 && b1 <= 0x8f
            } else {
                0x80 <= b1 && b1 <= 0xbf
            };
            if !(b1_ok && 0x80 <= b2 && b2 <= 0xbf && 0x80 <= b3 && b3 <= 0xbf) {
                return false;
            }
            proof {
                assert(rest.skip(4) =~= s@.skip(i + 4));
            }
            i += 4;
        } else {
            return false;
        }
    }
    proof {
        assert(s@.skip(n as int) =~= Seq::<u8>::empty());
    }
    true
}

} // verus!
