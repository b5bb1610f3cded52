//! The encoder: a packet becomes its OSC 1.0 wire form, a size-prefixed
//! byte buffer.  The spec functions here define the wire form exactly; the
//! executable functions are proved to produce it byte for byte.

use vstd::prelude::*;

use crate::bytes::{be32, push_be_i32, push_be_u32, u32_of_i32};
use crate::data::{arg_view, args_view, ArgView, OscArg, OscPacket, PacketView};
use crate::util::{four_byte_pad, pad4};

verus! {

/// `n` zero bytes.
pub open spec fn zeros(n: int) -> Seq<u8> {
    Seq::new(n as nat, |i: int| 0u8)
}

/// An encoded OSC string: the content, one null terminator, then null
/// padding up to a multiple of four bytes.
pub open spec fn enc_str(s: Seq<u8>) -> Seq<u8> {
    s + seq![0u8] + zeros(pad4(s.len() + 1 as int))
}

/// The type-tag character of an argument.  This single table serves both
/// the encoder (building the tag string) and the decoder (dispatching on
/// it); the two are tied together by the round-trip proof.
pub open spec fn tag_of(a: ArgView) -> u8 {
    match a {
        ArgView::Int(_) => 105,  // 'i'
        ArgView::Float(_) => 102,  // 'f'
        ArgView::Str(_) => 115,  // 's'
        ArgView::Blob(_) => 98,  // 'b'
    }
}

/// The tag characters of an argument list, in order.
pub open spec fn tags_of(args: Seq<ArgView>) -> Seq<u8> {
    Seq::new(args.len(), |i: int| tag_of(args[i]))
}

/// The encoded type-tag string: a comma, one tag per argument, as an OSC
/// string.
pub open spec fn enc_tagstr(args: Seq<ArgView>) -> Seq<u8> {
    enc_str(seq![44u8] + tags_of(args))
}

/// The encoded payload of one argument.
pub open spec fn enc_arg(a: ArgView) -> Seq<u8> {
    match a {
        ArgView::Int(v) => be32(u32_of_i32(v)),
        ArgView::Float(b) => be32(b),
        ArgView::Str(s) => enc_str(s),
        ArgView::Blob(b) => be32(b.len() as u32) + b + zeros(pad4(b.len() as int)),
    }
}

/// The encoded payloads of an argument list, concatenated in order.
pub open spec fn enc_args(args: Seq<ArgView>) -> Seq<u8>
    decreases args,
{
    if args.len() == 0 {
        Seq::empty()
    } else {
        enc_arg(args[0]) + enc_args(args.subrange(1, args.len() as int))
    }
}

/// The fixed 8-byte bundle header: the literal bytes `#bundle` and a null.
pub open spec fn bundle_tag() -> Seq<u8> {
    seq![35u8, 98u8, 117u8, 110u8, 100u8, 108u8, 101u8, 0u8]
}

/// The encoded payload of a packet, without its own leading 4-byte size.
pub open spec fn enc_packet(p: PacketView) -> Seq<u8>
    decreases p,
{
    match p {
        PacketView::Message { addr, args } => enc_str(addr) + enc_tagstr(args) + enc_args(args),
        PacketView::Bundle { time_tag, conts } => bundle_tag() + be32(time_tag.0) + be32(
            time_tag.1,
        ) + enc_elems(conts),
    }
}

/// Encoded bundle elements: each element's payload preceded by its own
/// big-endian 32-bit size.
pub open spec fn enc_elems(conts: Seq<PacketView>) -> Seq<u8>
    decreases conts,
{
    if conts.len() == 0 {
        Seq::empty()
    } else {
        be32(enc_packet(conts[0]).len() as u32) + enc_packet(conts[0]) + enc_elems(
            conts.subrange(1, conts.len() as int),
        )
    }
}

/// An encoded string is a positive multiple of four bytes long.
pub proof fn lemma_enc_str_len(s: Seq<u8>)
    ensures
        enc_str(s).len() == s.len() + 1 + pad4(s.len() + 1 as int),
        enc_str(s).len() % 4 == 0,
        4 <= enc_str(s).len() <= s.len() + 4,
{
}

/// Each argument's payload is a part of the whole list's payload.
pub proof fn lemma_enc_args_elem_le(args: Seq<ArgView>, i: int)
    requires
        0 <= i < args.len(),
    ensures
        enc_arg(args[i]).len() <= enc_args(args).len(),
    decreases args,
{
    if i > 0 {
        lemma_enc_args_elem_le(args.subrange(1, args.len() as int), i - 1);
        assert(args.subrange(1, args.len() as int)[i - 1] == args[i]);
    }
}

/// Encoding one more argument appends that argument's payload.
pub proof fn lemma_enc_args_snoc(args: Seq<ArgView>, i: int)
    requires
        0 <= i < args.len(),
    ensures
        enc_args(args.subrange(0, i + 1)) == enc_args(args.subrange(0, i)) + enc_arg(args[i]),
    decreases i,
{
    let pre = args.subrange(0, i + 1);
    if i == 0 {
        assert(pre =~= seq![args[0]]);
        assert(pre.subrange(1, pre.len() as int) =~= Seq::<ArgView>::empty());
        assert(args.subrange(0, 0) =~= Seq::<ArgView>::empty());
        assert(enc_args(pre) == enc_arg(pre[0]) + enc_args(pre.subrange(1, pre.len() as int)));
        assert(enc_args(args.subrange(0, i + 1)) =~= enc_args(args.subrange(0, i)) + enc_arg(
            args[i],
        ));
    } else {
        let tail = args.subrange(1, args.len() as int);
        lemma_enc_args_snoc(tail, i - 1);
        assert(pre.subrange(1, pre.len() as int) =~= tail.subrange(0, i));
        assert(args.subrange(0, i).subrange(1, i) =~= tail.subrange(0, i - 1));
        assert(tail[i - 1] == args[i]);
        assert(enc_args(args.subrange(0, i + 1)) =~= enc_args(args.subrange(0, i)) + enc_arg(
            args[i],
        ));
    }
}

/// Each element's payload, and its size prefix, are part of the encoded
/// element list.
pub proof fn lemma_enc_elems_elem_le(conts: Seq<PacketView>, i: int)
    requires
        0 <= i < conts.len(),
    ensures
        enc_packet(conts[i]).len() + 4 <= enc_elems(conts).len(),
    decreases conts,
{
    if i > 0 {
        lemma_enc_elems_elem_le(conts.subrange(1, conts.len() as int), i - 1);
        assert(conts.subrange(1, conts.len() as int)[i - 1] == conts[i]);
    }
}

/// Encoding one more element appends its size prefix and payload.
pub proof fn lemma_enc_elems_snoc(conts: Seq<PacketView>, i: int)
    requires
        0 <= i < conts.len(),
    ensures
        enc_elems(conts.subrange(0, i + 1)) == enc_elems(conts.subrange(0, i)) + be32(
            enc_packet(conts[i]).len() as u32,
        ) + enc_packet(conts[i]),
    decreases i,
{
    let pre = conts.subrange(0, i + 1);
    if i == 0 {
        assert(pre =~= seq![conts[0]]);
        assert(pre.subrange(1, pre.len() as int) =~= Seq::<PacketView>::empty());
        assert(conts.subrange(0, 0) =~= Seq::<PacketView>::empty());
        assert(enc_elems(conts.subrange(0, 1)) =~= enc_elems(conts.subrange(0, 0)) + be32(
            enc_packet(conts[0]).len() as u32,
        ) + enc_packet(conts[0]));
    } else {
        let tail = conts.subrange(1, conts.len() as int);
        lemma_enc_elems_snoc(tail, i - 1);
        assert(pre.subrange(1, pre.len() as int) =~= tail.subrange(0, i));
        assert(conts.subrange(0, i).subrange(1, i) =~= tail.subrange(0, i - 1));
        assert(tail[i - 1] == conts[i]);
        assert(enc_elems(conts.subrange(0, i + 1)) =~= enc_elems(conts.subrange(0, i)) + be32(
            enc_packet(conts[i]).len() as u32,
        ) + enc_packet(conts[i]));
    }
}

/// Append `n` zero bytes.
pub fn push_zeros(buf: &mut Vec<u8>, n: usize)
    ensures
        final(buf)@ == old(buf)@ + zeros(n as int),
{
    let mut k: usize = 0;
    while k < n
        invariant
            k <= n,
            buf@ == old(buf)@ + zeros(k as int),
        decreases n - k,
    {
        buf.push(0);
        proof {
            assert(buf@ =~= old(buf)@ + zeros(k + 1));
        }
        k += 1;
    }
    proof {
        assert(buf@ =~= old(buf)@ + zeros(n as int));
    }
}

/// Convert a string into its null-terminated, null-padded wire form, whose
/// length is always a multiple of four bytes.
pub fn to_osc_string(string: Vec<u8>) -> (r: Vec<u8>)
    ensures
        r@ == enc_str(string@),
        r@.len() % 4 == 0,
{
    let mut r = string;
    r.push(0);
    let pad = four_byte_pad(r.len());
    push_zeros(&mut r, pad);
    proof {
        lemma_enc_str_len(string@);
        assert(r@ =~= enc_str(string@));
    }
    r
}

/// The type-tag character for an argument.
pub fn arg_to_type_tag(arg: &OscArg) -> (r: char)
    ensures
        (r as u8) == tag_of(arg@),
{
    match arg {
        OscArg::OscInt(_) => 'i',
        OscArg::OscFloat(_) => 'f',
        OscArg::OscStr(_) => 's',
        OscArg::OscBlob(_) => 'b',
    }
}

/// Write one argument's payload: a big-endian int or float bit pattern, an
/// OSC string, or a size-prefixed, padded blob.
pub fn write_arg(buf: &mut Vec<u8>, arg: OscArg)
    requires
        enc_arg(arg@).len() <= 0x7fffffff,
    ensures
        final(buf)@ == old(buf)@ + enc_arg(arg@),
{
    match arg {
        OscArg::OscInt(v) => push_be_i32(buf, v),
        OscArg::OscFloat(v) => push_be_u32(buf, v),
        OscArg::OscStr(v) => {
            let mut s = to_osc_string(v);
            buf.append(&mut s);
        },
        OscArg::OscBlob(v) => {
            proof {
                assert(enc_arg(arg@).len() == 4 + v@.len() + pad4(v@.len() as int));
            }
            let n = v.len();
            push_be_i32(buf, n as i32);
            let pad = four_byte_pad(n);
            let mut w = v;
            buf.append(&mut w);
            push_zeros(buf, pad);
            proof {
                assert(u32_of_i32(n as i32) == n as u32);
                assert(buf@ =~= old(buf)@ + enc_arg(arg@));
            }
        },
    }
}

/// Write the type-tag string for an argument list: a comma, one tag per
/// argument, a null, and null padding.
fn write_tag_string(buf: &mut Vec<u8>, args: &Vec<OscArg>)
    requires
        args@.len() + 2 <= usize::MAX,
    ensures
        final(buf)@ == old(buf)@ + enc_tagstr(args_view(args@)),
{
    let ghost tags = tags_of(args_view(args@));
    buf.push(44);
    let mut i: usize = 0;
    while i < args.len()
        invariant
            i <= args@.len(),
            tags == tags_of(args_view(args@)),
            tags.len() == args@.len(),
            buf@ == old(buf)@ + seq![44u8] + tags.subrange(0, i as int),
        decreases args@.len() - i,
    {
        let c = arg_to_type_tag(&args[i]);
        buf.push(c as u8);
        proof {
            assert(tags[i as int] == tag_of(arg_view(args@[i as int])));
            assert(buf@ =~= old(buf)@ + seq![44u8] + tags.subrange(0, i + 1));
        }
        i += 1;
    }
    buf.push(0);
    let pad = four_byte_pad(args.len() + 2);
    push_zeros(buf, pad);
    proof {
        assert(tags.subrange(0, tags.len() as int) =~= tags);
        lemma_enc_str_len(seq![44u8] + tags);
        assert(buf@ =~= old(buf)@ + enc_tagstr(args_view(args@)));
    }
}

/// Write the payloads of all arguments in order.
fn write_args(buf: &mut Vec<u8>, args: Vec<OscArg>)
    requires
        enc_args(args_view(args@)).len() <= 0x7fffffff,
    ensures
        final(buf)@ == old(buf)@ + enc_args(args_view(args@)),
{
    let ghost av = args_view(args@);
    let mut rest = args;
    let ghost mut i: int = 0;
    while rest.len() > 0
        invariant
            0 <= i <= av.len(),
            av == args_view(args@),
            av.len() == args@.len(),
            rest@ == args@.subrange(i, args@.len() as int),
            buf@ == old(buf)@ + enc_args(av.subrange(0, i)),
            enc_args(av).len() <= 0x7fffffff,
        decreases rest@.len(),
    {
        let a = rest.remove(0);
        proof {
            assert(a == args@[i]);
            assert(rest@ =~= args@.subrange(i + 1, args@.len() as int));
            assert(arg_view(a) == av[i]);
            lemma_enc_args_elem_le(av, i);
            lemma_enc_args_snoc(av, i);
        }
        write_arg(buf, a);
        proof {
            i = i + 1;
        }
    }
    proof {
        assert(av.subrange(0, i) =~= av);
    }
}

/// Format a packet as its wire-form buffer.  The first four bytes are the
/// big-endian size of the payload; the payload follows.
pub fn packet_to_buffer(packet: OscPacket) -> (buf: Vec<u8>)
    requires
        enc_packet(packet@).len() <= 0x7fffffff,
    ensures
        buf@ == be32(enc_packet(packet@).len() as u32) + enc_packet(packet@),
    decreases packet,
{
    let ghost payload = enc_packet(packet@);
    let mut buf: Vec<u8> = Vec::new();
    push_be_i32(&mut buf, 0);
    proof {
        assert(buf@ =~= be32(0));
    }
    match packet {
        OscPacket::OscMessage { addr, args } => {
            proof {
                assert(payload == enc_str(addr@) + enc_tagstr(args_view(args@)) + enc_args(
                    args_view(args@),
                ));
                lemma_enc_str_len(seq![44u8] + tags_of(args_view(args@)));
            }
            let mut s = to_osc_string(addr);
            buf.append(&mut s);
            write_tag_string(&mut buf, &args);
            write_args(&mut buf, args);
            proof {
                assert(buf@ =~= be32(0) + payload);
            }
        },
        OscPacket::OscBundle { time_tag, conts } => {
            let ghost whole = conts@;
            let ghost cv = crate::data::packets_view(conts@);
            proof {
                crate::data::lemma_packets_view_elems(conts@);
                assert(payload == bundle_tag() + be32(time_tag.0) + be32(time_tag.1) + enc_elems(
                    cv,
                ));
            }
            buf.push(35);
            buf.push(98);
            buf.push(117);
            buf.push(110);
            buf.push(100);
            buf.push(108);
            buf.push(101);
            buf.push(0);
            push_be_u32(&mut buf, time_tag.0);
            push_be_u32(&mut buf, time_tag.1);
            proof {
                assert(buf@ =~= be32(0) + bundle_tag() + be32(time_tag.0) + be32(time_tag.1)
                    + enc_elems(cv.subrange(0, 0)));
            }
            let mut rest = conts;
            let ghost mut i: int = 0;
            while rest.len() > 0
                invariant
                    0 <= i <= whole.len(),
                    rest@ == whole.subrange(i, whole.len() as int),
                    cv == crate::data::packets_view(whole),
                    cv.len() == whole.len(),
                    forall|j: int| 0 <= j < whole.len() ==> #[trigger] cv[j]
                        == crate::data::packet_view(whole[j]),
                    buf@ == be32(0) + bundle_tag() + be32(time_tag.0) + be32(time_tag.1)
                        + enc_elems(cv.subrange(0, i)),
                    enc_elems(cv).len() <= 0x7fffffff,
                    packet is OscBundle,
                    packet->conts@ == whole,
                decreases rest@.len(),
            {
                let sub = rest.remove(0);
                proof {
                    assert(sub == whole[i]);
                    assert(rest@ =~= whole.subrange(i + 1, whole.len() as int));
                    let cvec = packet->conts;
                    assert(decreases_to!(packet => cvec));
                    assert(decreases_to!(cvec => cvec@));
                    assert(decreases_to!(cvec@ => cvec@[i]));
                    assert(decreases_to!(packet => sub));
                    lemma_enc_elems_elem_le(cv, i);
                    lemma_enc_elems_snoc(cv, i);
                }
                let mut sb = packet_to_buffer(sub);
                buf.append(&mut sb);
                proof {
                    i = i + 1;
                }
            }
            proof {
                assert(cv.subrange(0, i) =~= cv);
                assert(buf@ =~= be32(0) + payload);
            }
        },
    }
    let size = buf.len();
    let val = (size - 4) as i32;
    let mut pre: Vec<u8> = Vec::new();
    push_be_i32(&mut pre, val);
    proof {
        assert(u32_of_i32(val) == payload.len() as u32);
        assert(pre@ == be32(payload.len() as u32));
        assert(pre@.len() == 4);
    }
    let b0 = pre[0];
    let b1 = pre[1];
    let b2 = pre[2];
    let b3 = pre[3];
    buf.set(0, b0);
    buf.set(1, b1);
    buf.set(2, b2);
    buf.set(3, b3);
    proof {
        assert(buf@ =~= be32(payload.len() as u32) + payload);
    }
    buf
}

} // verus!
