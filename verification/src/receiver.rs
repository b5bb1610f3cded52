//! The decoder: untrusted bytes become a packet or a typed error.  The
//! spec functions here define exactly what every buffer decodes to; each
//! executable function is proved to return precisely that.
//!
//! The decoder always works on an unwrapped payload: its input starts at
//! the address byte (or the bundle tag), never at a leading 4-byte size.

use vstd::prelude::*;

use crate::bytes::{be_at, i32_of_u32, read_be_u32, u32_to_i32};
use crate::data::{packets_view, ArgView, OscArg, OscPacket, PacketView};
use crate::sender::bundle_tag;
use crate::utf8::{is_utf8, is_valid_utf8};
use crate::util::{four_byte_pad, pad4};
use vstd::slice::{slice_subrange, slice_to_vec};

verus! {

/// Why a buffer failed to decode.
///
/// Transport failures stay with the transport adapter; the codec itself
/// reports only structural faults.
#[derive(Clone, Copy, Debug, PartialEq, Eq)]
pub enum OscError {
    /// The buffer ended before a required field could be fully read.
    Truncated,
    /// A string field is not valid UTF-8, or the bundle header does not
    /// match the literal `#bundle` tag.
    InvalidEncoding,
    /// A message's type-tag string does not begin with a comma.
    MissingTypeTagComma,
    /// A type-tag byte outside `i`, `f`, `s`, `b`.
    UnknownTypeTag(u8),
    /// Fewer than eight bytes: smaller than the smallest valid packet.
    PacketTooSmall,
}

/// The position of the first null byte at or after `from`, if any.
pub open spec fn find_nul(s: Seq<u8>, from: int) -> Option<int>
    decreases s.len() - from,
{
    if from < 0 || from >= s.len() {
        Option::None
    } else if s[from] == 0 {
        Option::Some(from)
    } else {
        find_nul(s, from + 1)
    }
}

/// What a null-terminated, padded string field at the head of `s` decodes
/// to: the content and the total bytes consumed (content, terminator and
/// padding), or an error.  The whole padded field must be present.
pub open spec fn dec_str(s: Seq<u8>) -> Result<(Seq<u8>, int), OscError> {
    match find_nul(s, 0) {
        Option::None => Result::Err(OscError::Truncated),
        Option::Some(i) => {
            let total = i + 1 + pad4(i + 1);
            if s.len() < total {
                Result::Err(OscError::Truncated)
            } else if !is_utf8(s.take(i)) {
                Result::Err(OscError::InvalidEncoding)
            } else {
                Result::Ok((s.take(i), total))
            }
        },
    }
}

/// What a size-prefixed, padded blob at the head of `s` decodes to.
pub open spec fn dec_blob(s: Seq<u8>) -> Result<(Seq<u8>, int), OscError> {
    if s.len() < 4 {
        Result::Err(OscError::Truncated)
    } else {
        let n = i32_of_u32(be_at(s, 0)) as int;
        if n < 0 {
            Result::Err(OscError::Truncated)
        } else {
            let total = 4 + n + pad4(n);
            if s.len() < total {
                Result::Err(OscError::Truncated)
            } else {
                Result::Ok((s.subrange(4, 4 + n), total))
            }
        }
    }
}

/// What one argument with the given type tag at the head of `s` decodes to.
pub open spec fn dec_arg(tag: u8, s: Seq<u8>) -> Result<(ArgView, int), OscError> {
    if tag == 105 {
        if s.len() < 4 {
            Result::Err(OscError::Truncated)
        } else {
            Result::Ok((ArgView::Int(i32_of_u32(be_at(s, 0))), 4))
        }
    } else if tag == 102 {
        if s.len() < 4 {
            Result::Err(OscError::Truncated)
        } else {
            Result::Ok((ArgView::Float(be_at(s, 0)), 4))
        }
    } else if tag == 115 {
        match dec_str(s) {
            Result::Ok((v, n)) => Result::Ok((ArgView::Str(v), n)),
            Result::Err(e) => Result::Err(e),
        }
    } else if tag == 98 {
        match dec_blob(s) {
            Result::Ok((v, n)) => Result::Ok((ArgView::Blob(v), n)),
            Result::Err(e) => Result::Err(e),
        }
    } else {
        Result::Err(OscError::UnknownTypeTag(tag))
    }
}

/// What the argument payloads for the given tag list decode to, in order.
pub open spec fn dec_args(tags: Seq<u8>, s: Seq<u8>) -> Result<Seq<ArgView>, OscError>
    decreases tags.len(),
{
    if tags.len() == 0 {
        Result::Ok(Seq::empty())
    } else {
        match dec_arg(tags[0], s) {
            Result::Err(e) => Result::Err(e),
            Result::Ok((a, n)) => match dec_args(tags.skip(1), s.skip(n)) {
                Result::Err(e) => Result::Err(e),
                Result::Ok(rest) => Result::Ok(seq![a] + rest),
            },
        }
    }
}

/// What a message buffer decodes to: an address string, a comma-led
/// type-tag string, then one argument per tag.  Trailing bytes beyond the
/// last argument are ignored.
pub open spec fn dec_message(s: Seq<u8>) -> Result<PacketView, OscError> {
    match dec_str(s) {
        Result::Err(e) => Result::Err(e),
        Result::Ok((addr, n1)) => match dec_str(s.skip(n1)) {
            Result::Err(e) => Result::Err(e),
            Result::Ok((tt, n2)) => if tt.len() == 0 || tt[0] != 44 {
                Result::Err(OscError::MissingTypeTagComma)
            } else {
                match dec_args(tt.skip(1), s.skip(n1 + n2)) {
                    Result::Err(e) => Result::Err(e),
                    Result::Ok(args) => Result::Ok(PacketView::Message { addr, args }),
                }
            },
        },
    }
}

/// What a packet buffer decodes to: a bundle when the first byte is `#`,
/// a message otherwise.
pub open spec fn dec_packet(s: Seq<u8>) -> Result<PacketView, OscError>
    decreases s.len(), 1int,
{
    if s.len() > 0 && s[0] == 35 {
        dec_bundle(s)
    } else {
        dec_message(s)
    }
}

/// What a bundle buffer decodes to: the literal `#bundle` tag (verified),
/// a 64-bit time tag, then size-prefixed elements to the end of the
/// buffer.
pub open spec fn dec_bundle(s: Seq<u8>) -> Result<PacketView, OscError>
    decreases s.len(), 0int,
{
    if s.len() < 8 {
        Result::Err(OscError::Truncated)
    } else if s.take(8) != bundle_tag() {
        Result::Err(OscError::InvalidEncoding)
    } else if s.len() < 16 {
        Result::Err(OscError::Truncated)
    } else {
        match dec_elems(s.skip(16)) {
            Result::Err(e) => Result::Err(e),
            Result::Ok(conts) => Result::Ok(
                PacketView::Bundle { time_tag: (be_at(s, 8), be_at(s, 12)), conts },
            ),
        }
    }
}

/// What a sequence of size-prefixed bundle elements decodes to.  An empty
/// buffer ends the list normally; a partial size field, a negative size,
/// or a size larger than what remains is a truncation.
pub open spec fn dec_elems(s: Seq<u8>) -> Result<Seq<PacketView>, OscError>
    decreases s.len(), 2int,
{
    if s.len() == 0 {
        Result::Ok(Seq::empty())
    } else if s.len() < 4 {
        Result::Err(OscError::Truncated)
    } else {
        let n = i32_of_u32(be_at(s, 0)) as int;
        if n < 0 || s.len() - 4 < n {
            Result::Err(OscError::Truncated)
        } else {
            match dec_packet(s.subrange(4, 4 + n)) {
                Result::Err(e) => Result::Err(e),
                Result::Ok(p) => match dec_elems(s.skip(4 + n)) {
                    Result::Err(e) => Result::Err(e),
                    Result::Ok(rest) => Result::Ok(seq![p] + rest),
                },
            }
        }
    }
}

/// What a received datagram decodes to: anything below the 8-byte minimum
/// is rejected outright.
pub open spec fn dec_top(s: Seq<u8>) -> Result<PacketView, OscError> {
    if s.len() < 8 {
        Result::Err(OscError::PacketTooSmall)
    } else {
        dec_packet(s)
    }
}

/// A null-free prefix does not change where the first null is.
pub proof fn lemma_find_nul_skip_prefix(s: Seq<u8>, i: int)
    requires
        0 <= i <= s.len(),
        forall|k: int| 0 <= k < i ==> s[k] != 0,
    ensures
        find_nul(s, 0) == find_nul(s, i),
    decreases i,
{
    if i > 0 {
        lemma_find_nul_skip_prefix(s, i - 1);
    }
}

/// Read a null-terminated, 4-byte-padded string field starting at `pos`.
/// Returns the content and the position just past the field's padding.
pub fn read_null_term_string(buf: &[u8], pos: usize) -> (r: Result<(Vec<u8>, usize), OscError>)
    requires
        pos <= buf@.len(),
    ensures
        match r {
            Result::Ok(v) => ({
                &&& dec_str(buf@.skip(pos as int)) matches Result::Ok(d) && d.0 == v.0@ && d.1
                    == v.1 - pos
                &&& pos <= v.1 <= buf@.len()
            }),
            Result::Err(e) => dec_str(buf@.skip(pos as int)) == Result::<(Seq<u8>, int),
                OscError,
            >::Err(e),
        },
{
    let ghost s = buf@.skip(pos as int);
    let n = buf.len();
    let mut j: usize = pos;
    while j < n && buf[j] != 0
        invariant
            pos <= j <= n,
            n == buf@.len(),
            forall|k: int| pos <= k < j ==> buf@[k] != 0,
        decreases n - j,
    {
        j += 1;
    }
    proof {
        assert forall|k: int| 0 <= k < j - pos implies s[k] != 0 by {
            assert(s[k] == buf@[pos + k]);
        }
        lemma_find_nul_skip_prefix(s, j - pos);
    }
    if j == n {
        proof {
            assert(find_nul(s, 0) is None);
        }
        return Result::Err(OscError::Truncated);
    }
    proof {
        assert(s[j - pos] == buf@[j as int]);
        assert(find_nul(s, 0) == Option::Some(j - pos));
    }
    let rel = j - pos;
    let pad = four_byte_pad(rel + 1);
    if n - j - 1 < pad {
        proof {
            assert(s.len() < rel + 1 + pad4(rel + 1));
        }
        return Result::Err(OscError::Truncated);
    }
    let content = slice_subrange(buf, pos, j);
    proof {
        assert(content@ =~= s.take(rel as int));
    }
    if !is_valid_utf8(content) {
        return Result::Err(OscError::InvalidEncoding);
    }
    let v = slice_to_vec(content);
    let newpos = j + 1 + pad;
    proof {
        assert(newpos - pos == rel + 1 + pad4(rel + 1));
    }
    Result::Ok((v, newpos))
}

/// Read a size-prefixed, padded blob starting at `pos`.  Returns the raw
/// content and the position just past the padding.
pub fn read_blob(buf: &[u8], pos: usize) -> (r: Result<(Vec<u8>, usize), OscError>)
    requires
        pos <= buf@.len(),
    ensures
        match r {
            Result::Ok(v) => ({
                &&& dec_blob(buf@.skip(pos as int)) matches Result::Ok(d) && d.0 == v.0@ && d.1
                    == v.1 - pos
                &&& pos <= v.1 <= buf@.len()
            }),
            Result::Err(e) => dec_blob(buf@.skip(pos as int)) == Result::<(Seq<u8>, int),
                OscError,
            >::Err(e),
        },
{
    let ghost s = buf@.skip(pos as int);
    let n = buf.len();
    if n - pos < 4 {
        return Result::Err(OscError::Truncated);
    }
    proof {
        assert(s[0] == buf@[pos as int] && s[1] == buf@[pos + 1] && s[2] == buf@[pos + 2] && s[3]
            == buf@[pos + 3]);
    }
    let size = u32_to_i32(read_be_u32(buf, pos));
    if size < 0 {
        return Result::Err(OscError::Truncated);
    }
    let size_us = size as usize;
    let pad = four_byte_pad(size_us);
    if n - pos - 4 < size_us || n - pos - 4 - size_us < pad {
        proof {
            assert(s.len() < 4 + size + pad4(size as int));
        }
        return Result::Err(OscError::Truncated);
    }
    let content = slice_subrange(buf, pos + 4, pos + 4 + size_us);
    proof {
        assert(content@ =~= s.subrange(4, 4 + size as int));
    }
    let v = slice_to_vec(content);
    let newpos = pos + 4 + size_us + pad;
    Result::Ok((v, newpos))
}

/// Read one argument at `pos`, dispatching on its type-tag byte.
pub fn read_osc_arg(buf: &[u8], pos: usize, type_tag: u8) -> (r: Result<
    (OscArg, usize),
    OscError,
>)
    requires
        pos <= buf@.len(),
    ensures
        match r {
            Result::Ok(v) => ({
                &&& dec_arg(type_tag, buf@.skip(pos as int)) matches Result::Ok(d) && d.0
                    == v.0@ && d.1 == v.1 - pos
                &&& pos <= v.1 <= buf@.len()
            }),
            Result::Err(e) => dec_arg(type_tag, buf@.skip(pos as int)) == Result::<
                (ArgView, int),
                OscError,
            >::Err(e),
        },
{
    let ghost s = buf@.skip(pos as int);
    if type_tag == 105 {
        if buf.len() - pos < 4 {
            return Result::Err(OscError::Truncated);
        }
        proof {
            assert(s[0] == buf@[pos as int] && s[1] == buf@[pos + 1] && s[2] == buf@[pos + 2]
                && s[3] == buf@[pos + 3]);
        }
        let v = u32_to_i32(read_be_u32(buf, pos));
        Result::Ok((OscArg::OscInt(v), pos + 4))
    } else if type_tag == 102 {
        if buf.len() - pos < 4 {
            return Result::Err(OscError::Truncated);
        }
        proof {
            assert(s[0] == buf@[pos as int] && s[1] == buf@[pos + 1] && s[2] == buf@[pos + 2]
                && s[3] == buf@[pos + 3]);
        }
        let v = read_be_u32(buf, pos);
        Result::Ok((OscArg::OscFloat(v), pos + 4))
    } else if type_tag == 115 {
        match read_null_term_string(buf, pos) {
            Result::Ok((v, newpos)) => Result::Ok((OscArg::OscStr(v), newpos)),
            Result::Err(e) => Result::Err(e),
        }
    } else if type_tag == 98 {
        match read_blob(buf, pos) {
            Result::Ok((v, newpos)) => Result::Ok((OscArg::OscBlob(v), newpos)),
            Result::Err(e) => Result::Err(e),
        }
    } else {
        Result::Err(OscError::UnknownTypeTag(type_tag))
    }
}

/// The executable decode result mirrors the specified one: same error, or
/// a packet with exactly the specified view.
pub open spec fn decode_matches(
    r: Result<OscPacket, OscError>,
    d: Result<PacketView, OscError>,
) -> bool {
    match r {
        Result::Ok(p) => d matches Result::Ok(pv) && pv == crate::data::packet_view(p),
        Result::Err(e) => d matches Result::Err(e2) && e2 == e,
    }
}

/// Interpret a byte buffer as one OSC message.
pub fn read_message(buf: &[u8]) -> (r: Result<OscPacket, OscError>)
    ensures
        decode_matches(r, dec_message(buf@)),
{
    proof {
        assert(buf@.skip(0) =~= buf@);
    }
    let (addr, p1) = match read_null_term_string(buf, 0) {
        Result::Ok(v) => v,
        Result::Err(e) => {
            return Result::Err(e);
        },
    };
    let (tt, p2) = match read_null_term_string(buf, p1) {
        Result::Ok(v) => v,
        Result::Err(e) => {
            return Result::Err(e);
        },
    };
    if tt.len() == 0 || tt[0] != 44 {
        return Result::Err(OscError::MissingTypeTagComma);
    }
    let ghost tags = tt@.skip(1);
    let mut args: Vec<OscArg> = Vec::new();
    let mut pos = p2;
    let mut k: usize = 1;
    while k < tt.len()
        invariant
            1 <= k <= tt@.len(),
            p1 <= p2 <= pos <= buf@.len(),
            tags == tt@.skip(1),
            dec_str(buf@) matches Result::Ok(d1) && d1.0 == addr@ && d1.1 == p1 as int,
            dec_str(buf@.skip(p1 as int)) matches Result::Ok(d2) && d2.0 == tt@ && d2.1 == p2
                - p1,
            tt@.len() > 0 && tt@[0] == 44,
            (match dec_args(tt@.skip(k as int), buf@.skip(pos as int)) {
                Result::Ok(rest) => dec_args(tags, buf@.skip(p2 as int)) == Result::<
                    Seq<ArgView>,
                    OscError,
                >::Ok(crate::data::args_view(args@) + rest),
                Result::Err(e) => dec_args(tags, buf@.skip(p2 as int)) == Result::<
                    Seq<ArgView>,
                    OscError,
                >::Err(e),
            }),
        decreases tt@.len() - k,
    {
        let ghost ktags = tt@.skip(k as int);
        proof {
            assert(ktags[0] == tt@[k as int]);
            assert(ktags.skip(1) =~= tt@.skip(k + 1));
        }
        let tag = tt[k];
        match read_osc_arg(buf, pos, tag) {
            Result::Ok((a, newpos)) => {
                proof {
                    assert(buf@.skip(pos as int).skip(newpos - pos) =~= buf@.skip(
                        newpos as int,
                    ));
                    assert(crate::data::args_view(args@.push(a)) =~= crate::data::args_view(
                        args@,
                    ) + seq![a@]);
                }
                let ghost prevargs = args@;
                args.push(a);
                proof {
                    match dec_args(tt@.skip(k + 1), buf@.skip(newpos as int)) {
                        Result::Ok(rest) => {
                            assert(crate::data::args_view(prevargs) + (seq![a@] + rest)
                                =~= crate::data::args_view(args@) + rest);
                        },
                        Result::Err(_) => {},
                    }
                }
                pos = newpos;
            },
            Result::Err(e) => {
                return Result::Err(e);
            },
        }
        k += 1;
    }
    proof {
        assert(tt@.skip(tt@.len() as int) =~= Seq::<u8>::empty());
        assert(crate::data::args_view(args@) + Seq::<ArgView>::empty() =~= crate::data::args_view(
            args@,
        ));
    }
    Result::Ok(OscPacket::OscMessage { addr, args })
}

/// Interpret a byte buffer as one OSC bundle: the `#bundle` header, a
/// time tag, then size-prefixed elements until the buffer ends.
pub fn read_bundle(buf: &[u8]) -> (r: Result<OscPacket, OscError>)
    ensures
        decode_matches(r, dec_bundle(buf@)),
    decreases buf@.len(), 0int,
{
    let n = buf.len();
    if n < 8 {
        return Result::Err(OscError::Truncated);
    }
    proof {
        assert(bundle_tag()[0] == 35 && bundle_tag()[1] == 98 && bundle_tag()[2] == 117
            && bundle_tag()[3] == 110 && bundle_tag()[4] == 100 && bundle_tag()[5] == 108
            && bundle_tag()[6] == 101 && bundle_tag()[7] == 0);
        assert(forall|i: int| 0 <= i < 8 ==> buf@.take(8)[i] == buf@[i]);
    }
    if buf[0] != 35 || buf[1] != 98 || buf[2] != 117 || buf[3] != 110 || buf[4] != 100 || buf[5]
        != 108 || buf[6] != 101 || buf[7] != 0 {
        proof {
            assert(buf@.take(8) != bundle_tag());
        }
        return Result::Err(OscError::InvalidEncoding);
    }
    proof {
        assert(buf@.take(8) =~= bundle_tag());
    }
    if n < 16 {
        return Result::Err(OscError::Truncated);
    }
    let sec = read_be_u32(buf, 8);
    let frac = read_be_u32(buf, 12);
    let mut conts: Vec<OscPacket> = Vec::new();
    let mut pos: usize = 16;
    while pos < n
        invariant
            16 <= pos <= n,
            n == buf@.len(),
            buf@.take(8) == bundle_tag(),
            sec == be_at(buf@, 8),
            frac == be_at(buf@, 12),
            (match dec_elems(buf@.skip(pos as int)) {
                Result::Ok(rest) => dec_elems(buf@.skip(16)) == Result::<
                    Seq<PacketView>,
                    OscError,
                >::Ok(packets_view(conts@) + rest),
                Result::Err(e) => dec_elems(buf@.skip(16)) == Result::<
                    Seq<PacketView>,
                    OscError,
                >::Err(e),
            }),
        decreases n - pos,
    {
        let ghost st = buf@.skip(pos as int);
        if n - pos < 4 {
            return Result::Err(OscError::Truncated);
        }
        proof {
            assert(st[0] == buf@[pos as int] && st[1] == buf@[pos + 1] && st[2] == buf@[pos + 2]
                && st[3] == buf@[pos + 3]);
        }
        let size = u32_to_i32(read_be_u32(buf, pos));
        if size < 0 {
            return Result::Err(OscError::Truncated);
        }
        let size_us = size as usize;
        if n - pos - 4 < size_us {
            return Result::Err(OscError::Truncated);
        }
        let sub = slice_subrange(buf, pos + 4, pos + 4 + size_us);
        proof {
            assert(sub@ =~= st.subrange(4, 4 + size as int));
        }
        match read_packet(sub) {
            Result::Ok(p) => {
                proof {
                    assert(st.skip(4 + size as int) =~= buf@.skip(pos + 4 + size_us));
                    crate::data::lemma_packets_view_elems(conts@.push(p));
                    crate::data::lemma_packets_view_elems(conts@);
                    assert(packets_view(conts@.push(p)) =~= packets_view(conts@) + seq![p@]);
                }
                let ghost prev = conts@;
                conts.push(p);
                proof {
                    match dec_elems(buf@.skip(pos + 4 + size_us)) {
                        Result::Ok(rest) => {
                            assert(packets_view(prev) + (seq![p@] + rest) =~= packets_view(
                                conts@,
                            ) + rest);
                        },
                        Result::Err(_) => {},
                    }
                }
                pos = pos + 4 + size_us;
            },
            Result::Err(e) => {
                return Result::Err(e);
            },
        }
    }
    proof {
        assert(buf@.skip(n as int) =~= Seq::<u8>::empty());
        assert(packets_view(conts@) + Seq::<PacketView>::empty() =~= packets_view(conts@));
    }
    Result::Ok(OscPacket::OscBundle { time_tag: (sec, frac), conts })
}

/// Whether a buffer holds a bundle: its first byte is `#`.
pub fn is_bundle(buf: &[u8]) -> (r: bool)
    requires
        buf@.len() > 0,
    ensures
        r == (buf@[0] == 35),
{
    buf[0] == 35
}

/// Interpret a buffer as an OSC packet: a bundle when it starts with `#`,
/// a message otherwise.
pub fn read_packet(buf: &[u8]) -> (r: Result<OscPacket, OscError>)
    ensures
        decode_matches(r, dec_packet(buf@)),
    decreases buf@.len(), 1int,
{
    if buf.len() > 0 && is_bundle(buf) {
        read_bundle(buf)
    } else {
        read_message(buf)
    }
}

/// Decode one received datagram.  Anything below the 8-byte minimum — a
/// zero-length address string plus a minimal type-tag string — is rejected
/// as too small.
pub fn decode_packet(buf: &[u8]) -> (r: Result<OscPacket, OscError>)
    ensures
        decode_matches(r, dec_top(buf@)),
{
    if buf.len() < 8 {
        Result::Err(OscError::PacketTooSmall)
    } else {
        read_packet(buf)
    }
}

} // verus!
