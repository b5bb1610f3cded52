//! The laws the codec obeys: padding, round trip, and truncation
//! detection.  Each is a public proof function whose statement stands on
//! the spec functions the codec's contracts use.

use vstd::prelude::*;

use crate::bytes::{be32, be_at, i32_of_u32, lemma_be_at_of_be32};
use crate::data::{ArgView, PacketView};
use crate::receiver::{
    dec_arg, dec_args, dec_blob, dec_bundle, dec_elems, dec_message, dec_packet, dec_str, dec_top,
    find_nul, lemma_find_nul_skip_prefix, OscError,
};
use crate::sender::{
    bundle_tag, enc_arg, enc_args, enc_elems, enc_packet, enc_str, enc_tagstr, lemma_enc_str_len,
    tag_of, tags_of, zeros,
};
use crate::utf8::{is_utf8, lemma_ascii_is_utf8};
use crate::util::pad4;

verus! {

/// A string that survives the wire: valid UTF-8 with no embedded null.
pub open spec fn wf_str(s: Seq<u8>) -> bool {
    is_utf8(s) && forall|i: int| 0 <= i < s.len() ==> s[i] != 0
}

/// An argument that survives the wire: its strings well formed, a blob's
/// length representable in the signed 32-bit size field.
pub open spec fn wf_arg(a: ArgView) -> bool {
    match a {
        ArgView::Int(_) => true,
        ArgView::Float(_) => true,
        ArgView::Str(s) => wf_str(s),
        ArgView::Blob(b) => b.len() <= 0x7fffffff,
    }
}

/// A packet that survives the wire: every string well formed, an address
/// not opening with `#` (which would read back as a bundle), and every
/// bundle element's payload representable in its 32-bit size field.
pub open spec fn wf_packet(p: PacketView) -> bool
    decreases p,
{
    match p {
        PacketView::Message { addr, args } => wf_str(addr) && (addr.len() == 0 || addr[0] != 35)
            && (forall|i: int| 0 <= i < args.len() ==> wf_arg(#[trigger] args[i])),
        PacketView::Bundle { conts, .. } => forall|i: int|
            0 <= i < conts.len() ==> wf_packet(#[trigger] conts[i]) && enc_packet(
                conts[i],
            ).len() <= 0x7fffffff,
    }
}

/// The blob padding law: a blob's wire form is its 4-byte length prefix
/// followed by the raw bytes padded to a multiple of four; the prefix
/// itself is never padded and carries the unpadded length.
pub proof fn lemma_blob_padding(b: Seq<u8>)
    ensures
        enc_arg(ArgView::Blob(b)).len() == 4 + b.len() + pad4(b.len() as int),
        (enc_arg(ArgView::Blob(b)).len() - 4) % 4 == 0,
{
}

/// An encoded string field decodes to its content, whatever follows it.
pub proof fn lemma_dec_enc_str(s: Seq<u8>, rest: Seq<u8>)
    requires
        wf_str(s),
    ensures
        dec_str(enc_str(s) + rest) == Result::<(Seq<u8>, int), OscError>::Ok(
            (s, enc_str(s).len() as int),
        ),
{
    let e = enc_str(s);
    let w = e + rest;
    lemma_enc_str_len(s);
    assert forall|k: int| 0 <= k < s.len() implies w[k] != 0 by {
        assert(w[k] == s[k]);
    }
    lemma_find_nul_skip_prefix(w, s.len() as int);
    assert(w[s.len() as int] == 0);
    assert(find_nul(w, 0) == Option::Some(s.len() as int));
    assert(w.take(s.len() as int) =~= s);
}

/// A string field cut anywhere inside its padded extent fails to decode.
pub proof fn lemma_dec_enc_str_trunc(s: Seq<u8>, rest: Seq<u8>, n: int)
    requires
        wf_str(s),
        0 <= n < enc_str(s).len(),
    ensures
        dec_str((enc_str(s) + rest).take(n)) is Err,
{
    let e = enc_str(s);
    let w = (e + rest).take(n);
    lemma_enc_str_len(s);
    if n <= s.len() {
        assert forall|k: int| 0 <= k < w.len() implies w[k] != 0 by {
            assert(w[k] == s[k]);
        }
        lemma_find_nul_skip_prefix(w, w.len() as int);
        assert(find_nul(w, 0) is None);
    } else {
        assert forall|k: int| 0 <= k < s.len() implies w[k] != 0 by {
            assert(w[k] == s[k]);
        }
        lemma_find_nul_skip_prefix(w, s.len() as int);
        assert(w[s.len() as int] == e[s.len() as int]);
        assert(w[s.len() as int] == 0);
        assert(find_nul(w, 0) == Option::Some(s.len() as int));
        assert(w.len() < s.len() + 1 + pad4(s.len() + 1 as int));
    }
}

/// An encoded blob decodes to its content, whatever follows it.
pub proof fn lemma_dec_enc_blob(b: Seq<u8>, rest: Seq<u8>)
    requires
        b.len() <= 0x7fffffff,
    ensures
        dec_blob(enc_arg(ArgView::Blob(b)) + rest) == Result::<(Seq<u8>, int), OscError>::Ok(
            (b, enc_arg(ArgView::Blob(b)).len() as int),
        ),
{
    let e = enc_arg(ArgView::Blob(b));
    let w = e + rest;
    assert(w.subrange(0, 4) =~= be32(b.len() as u32));
    lemma_be_at_of_be32(w, 0, b.len() as u32);
    assert(i32_of_u32(b.len() as u32) == b.len() as i32);
    assert(w.subrange(4, 4 + b.len() as int) =~= b);
}

/// A blob cut anywhere inside its padded extent fails to decode.
pub proof fn lemma_dec_enc_blob_trunc(b: Seq<u8>, rest: Seq<u8>, n: int)
    requires
        b.len() <= 0x7fffffff,
        0 <= n < enc_arg(ArgView::Blob(b)).len(),
    ensures
        dec_blob((enc_arg(ArgView::Blob(b)) + rest).take(n)) is Err,
{
    let e = enc_arg(ArgView::Blob(b));
    let w = (e + rest).take(n);
    if n >= 4 {
        assert(w.subrange(0, 4) =~= be32(b.len() as u32));
        lemma_be_at_of_be32(w, 0, b.len() as u32);
        assert(i32_of_u32(b.len() as u32) == b.len() as i32);
        assert(w.len() < 4 + b.len() + pad4(b.len() as int));
    }
}

/// An encoded argument decodes under its own tag to itself, whatever
/// follows it.
pub proof fn lemma_dec_enc_arg(a: ArgView, rest: Seq<u8>)
    requires
        wf_arg(a),
    ensures
        dec_arg(tag_of(a), enc_arg(a) + rest) == Result::<(ArgView, int), OscError>::Ok(
            (a, enc_arg(a).len() as int),
        ),
{
    let e = enc_arg(a);
    let w = e + rest;
    match a {
        ArgView::Int(v) => {
            assert(w.subrange(0, 4) =~= be32(crate::bytes::u32_of_i32(v)));
            lemma_be_at_of_be32(w, 0, crate::bytes::u32_of_i32(v));
            crate::bytes::lemma_i32_u32_roundtrip(v);
        },
        ArgView::Float(bits) => {
            assert(w.subrange(0, 4) =~= be32(bits));
            lemma_be_at_of_be32(w, 0, bits);
        },
        ArgView::Str(s) => {
            lemma_dec_enc_str(s, rest);
        },
        ArgView::Blob(b) => {
            lemma_dec_enc_blob(b, rest);
        },
    }
}

/// An argument cut anywhere inside its payload fails to decode.
pub proof fn lemma_dec_enc_arg_trunc(a: ArgView, rest: Seq<u8>, n: int)
    requires
        wf_arg(a),
        0 <= n < enc_arg(a).len(),
    ensures
        dec_arg(tag_of(a), (enc_arg(a) + rest).take(n)) is Err,
{
    match a {
        ArgView::Int(_) => {},
        ArgView::Float(_) => {},
        ArgView::Str(s) => {
            lemma_dec_enc_str_trunc(s, rest, n);
        },
        ArgView::Blob(b) => {
            lemma_dec_enc_blob_trunc(b, rest, n);
        },
    }
}

/// The encoded arguments decode, under their own tags, to themselves,
/// whatever follows them.
pub proof fn lemma_dec_enc_args(args: Seq<ArgView>, rest: Seq<u8>)
    requires
        forall|i: int| 0 <= i < args.len() ==> wf_arg(#[trigger] args[i]),
    ensures
        dec_args(tags_of(args), enc_args(args) + rest) == Result::<Seq<ArgView>, OscError>::Ok(
            args,
        ),
    decreases args,
{
    if args.len() == 0 {
        assert(tags_of(args).len() == 0);
        assert(Seq::<ArgView>::empty() =~= args);
    } else {
        let a = args[0];
        let tail = args.subrange(1, args.len() as int);
        let e0 = enc_arg(a);
        let w = enc_args(args) + rest;
        assert(w =~= e0 + (enc_args(tail) + rest));
        lemma_dec_enc_arg(a, enc_args(tail) + rest);
        assert(tags_of(args)[0] == tag_of(a));
        assert(tags_of(args).skip(1) =~= tags_of(tail));
        assert(w.skip(e0.len() as int) =~= enc_args(tail) + rest);
        lemma_dec_enc_args(tail, rest);
        assert(seq![a] + tail =~= args);
    }
}

/// Arguments cut anywhere inside their payloads fail to decode.
pub proof fn lemma_dec_enc_args_trunc(args: Seq<ArgView>, rest: Seq<u8>, n: int)
    requires
        forall|i: int| 0 <= i < args.len() ==> wf_arg(#[trigger] args[i]),
        0 <= n < enc_args(args).len(),
    ensures
        dec_args(tags_of(args), (enc_args(args) + rest).take(n)) is Err,
    decreases args,
{
    let a = args[0];
    let tail = args.subrange(1, args.len() as int);
    let e0 = enc_arg(a);
    let w = (enc_args(args) + rest).take(n);
    assert(enc_args(args) + rest =~= e0 + (enc_args(tail) + rest));
    assert(tags_of(args)[0] == tag_of(a));
    assert(tags_of(args).skip(1) =~= tags_of(tail));
    if n < e0.len() {
        assert(w =~= (e0 + (enc_args(tail) + rest)).take(n));
        lemma_dec_enc_arg_trunc(a, enc_args(tail) + rest, n);
    } else {
        let inner = enc_args(tail) + rest;
        assert(w =~= e0 + inner.take(n - e0.len() as int));
        lemma_dec_enc_arg(a, inner.take(n - e0.len() as int));
        assert(w.skip(e0.len() as int) =~= inner.take(n - e0.len() as int));
        assert(inner.take(n - e0.len() as int) =~= (enc_args(tail) + rest).take(
            n - e0.len() as int,
        ));
        lemma_dec_enc_args_trunc(tail, rest, n - e0.len() as int);
    }
}

/// The tag characters are printable ASCII: never null, always UTF-8.
pub proof fn lemma_tagstr_content_wf(args: Seq<ArgView>)
    ensures
        wf_str(seq![44u8] + tags_of(args)),
        (seq![44u8] + tags_of(args))[0] == 44,
        (seq![44u8] + tags_of(args)).skip(1) == tags_of(args),
{
    let c = seq![44u8] + tags_of(args);
    assert forall|i: int| 0 <= i < c.len() implies c[i] != 0 && c[i] < 0x80 by {
        if i > 0 {
            assert(c[i] == tags_of(args)[i - 1]);
            assert(tags_of(args)[i - 1] == tag_of(args[i - 1]));
        }
    }
    lemma_ascii_is_utf8(c);
    assert(c.skip(1) =~= tags_of(args));
}

/// The encoded elements of a bundle decode to themselves.
pub proof fn lemma_dec_enc_elems(conts: Seq<PacketView>)
    requires
        forall|i: int|
            0 <= i < conts.len() ==> wf_packet(#[trigger] conts[i]) && enc_packet(
                conts[i],
            ).len() <= 0x7fffffff,
    ensures
        dec_elems(enc_elems(conts)) == Result::<Seq<PacketView>, OscError>::Ok(conts),
    decreases conts, 0int,
{
    if conts.len() == 0 {
        assert(Seq::<PacketView>::empty() =~= conts);
    } else {
        let c0 = conts[0];
        let tail = conts.subrange(1, conts.len() as int);
        let p0 = enc_packet(c0);
        let w = enc_elems(conts);
        let sz = p0.len() as u32;
        assert(w =~= be32(sz) + p0 + enc_elems(tail));
        assert(w.subrange(0, 4) =~= be32(sz));
        lemma_be_at_of_be32(w, 0, sz);
        assert(i32_of_u32(sz) == p0.len() as i32);
        lemma_dec_enc_packet(c0);
        assert(w.subrange(4, 4 + p0.len() as int) =~= p0);
        assert(w.skip(4 + p0.len() as int) =~= enc_elems(tail));
        lemma_dec_enc_elems(tail);
        assert(seq![c0] + tail =~= conts);
    }
}

/// Round trip at the packet level: the encoded payload of a well-formed
/// packet decodes to that packet, and is at least eight bytes long.
pub proof fn lemma_dec_enc_packet(p: PacketView)
    requires
        wf_packet(p),
    ensures
        dec_packet(enc_packet(p)) == Result::<PacketView, OscError>::Ok(p),
        enc_packet(p).len() >= 8,
    decreases p, 1int,
{
    match p {
        PacketView::Message { addr, args } => {
            let ea = enc_str(addr);
            let et = enc_tagstr(args);
            let eg = enc_args(args);
            let w = enc_packet(p);
            assert(w =~= ea + (et + eg));
            lemma_enc_str_len(addr);
            lemma_enc_str_len(seq![44u8] + tags_of(args));
            // the first byte is never '#': either the address's first byte
            // (excluded by well-formedness) or the terminator 0
            if addr.len() > 0 {
                assert(w[0] == addr[0]);
            } else {
                assert(w[0] == ea[0]);
                assert(ea[0] == 0);
            }
            assert(!(w.len() > 0 && w[0] == 35));
            lemma_dec_enc_str(addr, et + eg);
            assert(w.skip(ea.len() as int) =~= et + eg);
            let tc = seq![44u8] + tags_of(args);
            lemma_tagstr_content_wf(args);
            lemma_dec_enc_str(tc, eg);
            assert(w.skip(ea.len() as int).skip(et.len() as int) =~= eg);
            assert(w.skip(ea.len() + et.len() as int) =~= eg);
            assert(eg =~= eg + Seq::<u8>::empty());
            lemma_dec_enc_args(args, Seq::<u8>::empty());
        },
        PacketView::Bundle { time_tag, conts } => {
            let w = enc_packet(p);
            assert(w =~= bundle_tag() + be32(time_tag.0) + be32(time_tag.1) + enc_elems(conts));
            assert(w[0] == bundle_tag()[0]);
            assert(w.take(8) =~= bundle_tag());
            assert(w.subrange(8, 12) =~= be32(time_tag.0));
            assert(w.subrange(12, 16) =~= be32(time_tag.1));
            lemma_be_at_of_be32(w, 8, time_tag.0);
            lemma_be_at_of_be32(w, 12, time_tag.1);
            assert(w.skip(16) =~= enc_elems(conts));
            lemma_dec_enc_elems(conts);
        },
    }
}

/// The round-trip law: decoding the encoded payload of any well-formed
/// packet — the buffer the encoder produces, with its leading 4-byte size
/// stripped — yields exactly that packet.
pub proof fn lemma_round_trip(p: PacketView)
    requires
        wf_packet(p),
    ensures
        dec_top(enc_packet(p)) == Result::<PacketView, OscError>::Ok(p),
{
    lemma_dec_enc_packet(p);
}

/// Whether cutting an encoded element list down to `n` bytes lands
/// exactly on an element boundary.  Such a cut is the one truncation the
/// wire format cannot detect: a bundle's element list simply ends with
/// the buffer, so a prefix of whole elements reads as a shorter, still
/// well-formed bundle.
pub open spec fn is_elem_boundary(conts: Seq<PacketView>, n: int) -> bool
    decreases conts,
{
    if n == 0 {
        true
    } else if conts.len() == 0 {
        false
    } else {
        let e = 4 + enc_packet(conts[0]).len() as int;
        n >= e && is_elem_boundary(conts.subrange(1, conts.len() as int), n - e)
    }
}

/// Whether cutting the encoded payload of `p` down to `n` bytes is
/// undetectable: only a bundle cut exactly at an element boundary is.
pub open spec fn undetectable_cut(p: PacketView, n: int) -> bool {
    match p {
        PacketView::Message { .. } => false,
        PacketView::Bundle { conts, .. } => n >= 16 && is_elem_boundary(conts, n - 16),
    }
}

/// An element list cut anywhere but an element boundary fails to decode.
pub proof fn lemma_dec_enc_elems_trunc(conts: Seq<PacketView>, n: int)
    requires
        forall|i: int|
            0 <= i < conts.len() ==> wf_packet(#[trigger] conts[i]) && enc_packet(
                conts[i],
            ).len() <= 0x7fffffff,
        0 <= n < enc_elems(conts).len(),
        !is_elem_boundary(conts, n),
    ensures
        dec_elems(enc_elems(conts).take(n)) is Err,
    decreases conts,
{
    let c0 = conts[0];
    let tail = conts.subrange(1, conts.len() as int);
    let p0 = enc_packet(c0);
    let sz = p0.len() as u32;
    let e0 = 4 + p0.len() as int;
    let w = enc_elems(conts).take(n);
    assert(enc_elems(conts) =~= be32(sz) + p0 + enc_elems(tail));
    if n < 4 {
        assert(w.len() == n);
    } else {
        assert(w.subrange(0, 4) =~= be32(sz));
        lemma_be_at_of_be32(w, 0, sz);
        assert(i32_of_u32(sz) == p0.len() as i32);
        if n < e0 {
            assert(w.len() - 4 < p0.len());
        } else {
            if n == e0 {
                assert(is_elem_boundary(tail, 0));
                assert(is_elem_boundary(conts, n));
            }
            assert(n > e0);
            assert(w.subrange(4, 4 + p0.len() as int) =~= p0);
            lemma_dec_enc_packet(c0);
            assert(w.skip(e0) =~= enc_elems(tail).take(n - e0));
            assert(!is_elem_boundary(tail, n - e0));
            lemma_dec_enc_elems_trunc(tail, n - e0);
        }
    }
}

/// A message payload cut anywhere short of its full length fails to
/// decode.
proof fn lemma_trunc_message(addr: Seq<u8>, args: Seq<ArgView>, n: int)
    requires
        wf_packet(PacketView::Message { addr, args }),
        0 <= n < enc_packet(PacketView::Message { addr, args }).len(),
    ensures
        dec_packet(enc_packet(PacketView::Message { addr, args }).take(n)) is Err,
{
    let p = PacketView::Message { addr, args };
    let w = enc_packet(p).take(n);
    let ea = enc_str(addr);
    let et = enc_tagstr(args);
    let eg = enc_args(args);
    assert(enc_packet(p) =~= ea + (et + eg));
    lemma_enc_str_len(addr);
    lemma_enc_str_len(seq![44u8] + tags_of(args));
    if n > 0 {
        assert(w[0] == enc_packet(p)[0]);
        if addr.len() > 0 {
            assert(w[0] == addr[0]);
        } else {
            assert(w[0] == ea[0]);
            assert(ea[0] == 0);
        }
    }
    assert(!(w.len() > 0 && w[0] == 35));
    let tc = seq![44u8] + tags_of(args);
    lemma_tagstr_content_wf(args);
    if n < ea.len() {
        assert(w =~= (ea + (et + eg)).take(n));
        lemma_dec_enc_str_trunc(addr, et + eg, n);
    } else {
        let n1 = n - ea.len() as int;
        let inner = et + eg;
        assert(w =~= ea + inner.take(n1));
        lemma_dec_enc_str(addr, inner.take(n1));
        assert(w.skip(ea.len() as int) =~= inner.take(n1));
        if n1 < et.len() {
            assert(inner.take(n1) =~= (et + eg).take(n1));
            lemma_dec_enc_str_trunc(tc, eg, n1);
        } else {
            let n2 = n1 - et.len() as int;
            assert(inner.take(n1) =~= et + eg.take(n2));
            lemma_dec_enc_str(tc, eg.take(n2));
            assert(w.skip(ea.len() + et.len() as int) =~= eg.take(n2));
            assert(n2 < eg.len());
            assert(eg.take(n2) =~= (eg + Seq::<u8>::empty()).take(n2));
            lemma_dec_enc_args_trunc(args, Seq::<u8>::empty(), n2);
        }
    }
}

/// A bundle payload cut anywhere but an element boundary fails to decode.
proof fn lemma_trunc_bundle(time_tag: (u32, u32), conts: Seq<PacketView>, n: int)
    requires
        wf_packet(PacketView::Bundle { time_tag, conts }),
        0 <= n < enc_packet(PacketView::Bundle { time_tag, conts }).len(),
        !undetectable_cut(PacketView::Bundle { time_tag, conts }, n),
    ensures
        dec_packet(enc_packet(PacketView::Bundle { time_tag, conts }).take(n)) is Err,
{
    let p = PacketView::Bundle { time_tag, conts };
    let w = enc_packet(p).take(n);
    let el = enc_elems(conts);
    assert(enc_packet(p) =~= bundle_tag() + be32(time_tag.0) + be32(time_tag.1) + el);
    if n == 0 {
        assert(w.len() == 0);
    } else if n < 8 {
        assert(w[0] == bundle_tag()[0]);
        assert(w.len() < 8);
    } else {
        assert(w[0] == bundle_tag()[0]);
        assert(w.take(8) =~= bundle_tag());
        if n < 16 {
            assert(w.len() < 16);
        } else {
            assert(w.skip(16) =~= el.take(n - 16));
            assert(!is_elem_boundary(conts, n - 16));
            lemma_dec_enc_elems_trunc(conts, n - 16);
        }
    }
}

/// The elements that lie wholly before a boundary cut at `m`.
pub open spec fn cut_elems(conts: Seq<PacketView>, m: int) -> Seq<PacketView>
    decreases conts,
{
    if m <= 0 || conts.len() == 0 {
        Seq::empty()
    } else {
        let e = 4 + enc_packet(conts[0]).len() as int;
        if m >= e {
            seq![conts[0]] + cut_elems(conts.subrange(1, conts.len() as int), m - e)
        } else {
            Seq::empty()
        }
    }
}

/// An element list cut exactly at a boundary decodes to the elements
/// before the cut.
pub proof fn lemma_dec_enc_elems_boundary(conts: Seq<PacketView>, m: int)
    requires
        forall|i: int|
            0 <= i < conts.len() ==> wf_packet(#[trigger] conts[i]) && enc_packet(
                conts[i],
            ).len() <= 0x7fffffff,
        0 <= m <= enc_elems(conts).len(),
        is_elem_boundary(conts, m),
    ensures
        dec_elems(enc_elems(conts).take(m)) == Result::<Seq<PacketView>, OscError>::Ok(
            cut_elems(conts, m),
        ),
    decreases conts,
{
    let w = enc_elems(conts).take(m);
    if m == 0 {
        assert(w =~= Seq::<u8>::empty());
    } else {
        let c0 = conts[0];
        let tail = conts.subrange(1, conts.len() as int);
        let p0 = enc_packet(c0);
        let sz = p0.len() as u32;
        let e0 = 4 + p0.len() as int;
        assert(enc_elems(conts) =~= be32(sz) + p0 + enc_elems(tail));
        assert(m >= e0);
        assert(w.subrange(0, 4) =~= be32(sz));
        lemma_be_at_of_be32(w, 0, sz);
        assert(i32_of_u32(sz) == p0.len() as i32);
        assert(w.subrange(4, 4 + p0.len() as int) =~= p0);
        lemma_dec_enc_packet(c0);
        assert(w.skip(e0) =~= enc_elems(tail).take(m - e0));
        lemma_dec_enc_elems_boundary(tail, m - e0);
        assert(seq![c0] + cut_elems(tail, m - e0) == cut_elems(conts, m));
    }
}

/// The undetectable cut, made precise: a bundle payload cut exactly at an
/// element boundary decodes to the same bundle with the elements past the
/// cut dropped.
pub proof fn lemma_boundary_cut_reads_prefix(time_tag: (u32, u32), conts: Seq<PacketView>, n: int)
    requires
        wf_packet(PacketView::Bundle { time_tag, conts }),
        0 <= n <= enc_packet(PacketView::Bundle { time_tag, conts }).len(),
        undetectable_cut(PacketView::Bundle { time_tag, conts }, n),
    ensures
        dec_packet(enc_packet(PacketView::Bundle { time_tag, conts }).take(n)) == Result::<
            PacketView,
            OscError,
        >::Ok(PacketView::Bundle { time_tag, conts: cut_elems(conts, n - 16) }),
{
    let p = PacketView::Bundle { time_tag, conts };
    let w = enc_packet(p).take(n);
    let el = enc_elems(conts);
    assert(enc_packet(p) =~= bundle_tag() + be32(time_tag.0) + be32(time_tag.1) + el);
    assert(w[0] == bundle_tag()[0]);
    assert(w.take(8) =~= bundle_tag());
    assert(w.subrange(8, 12) =~= be32(time_tag.0));
    assert(w.subrange(12, 16) =~= be32(time_tag.1));
    lemma_be_at_of_be32(w, 8, time_tag.0);
    lemma_be_at_of_be32(w, 12, time_tag.1);
    assert(w.skip(16) =~= el.take(n - 16));
    lemma_dec_enc_elems_boundary(conts, n - 16);
}

/// The truncation law: cutting the encoded payload of a well-formed
/// packet anywhere short of its full length makes decoding fail — except
/// for a bundle cut exactly on an element boundary, which reads back as
/// the same bundle with the trailing elements dropped (made precise by
/// `lemma_boundary_cut_reads_prefix`).
pub proof fn lemma_truncation_detected(p: PacketView, n: int)
    requires
        wf_packet(p),
        0 <= n < enc_packet(p).len(),
        !undetectable_cut(p, n),
    ensures
        dec_packet(enc_packet(p).take(n)) is Err,
{
    match p {
        PacketView::Message { addr, args } => {
            lemma_trunc_message(addr, args, n);
        },
        PacketView::Bundle { time_tag, conts } => {
            lemma_trunc_bundle(time_tag, conts, n);
        },
    }
}

} // verus!
