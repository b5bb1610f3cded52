//! OSC data types: arguments, time tags, packets, and the read-only address
//! queries applications run over a decoded packet.
//!
//! Each executable type has a mathematical view (`ArgView`, `PacketView`)
//! over `Seq`, which the codec contracts are stated against.

use vstd::prelude::*;

verus! {

/// A fixed-point OSC time tag: seconds and fractional seconds.
pub type OscTimeTag = (u32, u32);

/// One OSC 1.0 argument.
///
/// A 32-bit float argument is carried as its IEEE-754 bit pattern (`u32`),
/// which is exactly what travels on the wire; a string argument is carried
/// as its UTF-8 bytes without the terminating null.
#[derive(Debug, PartialEq)]
pub enum OscArg {
    OscInt(i32),
    OscFloat(u32),
    OscStr(Vec<u8>),
    OscBlob(Vec<u8>),
}

/// A single OSC packet: either a message with an address and arguments, or
/// a bundle of packets to be executed together at a given time.
#[derive(Debug, PartialEq)]
pub enum OscPacket {
    OscMessage { addr: Vec<u8>, args: Vec<OscArg> },
    OscBundle { time_tag: OscTimeTag, conts: Vec<OscPacket> },
}

/// Mathematical view of an argument.
#[verifier::ext_equal]
pub enum ArgView {
    Int(i32),
    Float(u32),
    Str(Seq<u8>),
    Blob(Seq<u8>),
}

/// Mathematical view of a packet.
#[verifier::ext_equal]
pub enum PacketView {
    Message { addr: Seq<u8>, args: Seq<ArgView> },
    Bundle { time_tag: OscTimeTag, conts: Seq<PacketView> },
}

pub open spec fn arg_view(a: OscArg) -> ArgView {
    match a {
        OscArg::OscInt(v) => ArgView::Int(v),
        OscArg::OscFloat(v) => ArgView::Float(v),
        OscArg::OscStr(s) => ArgView::Str(s@),
        OscArg::OscBlob(b) => ArgView::Blob(b@),
    }
}

pub open spec fn args_view(s: Seq<OscArg>) -> Seq<ArgView> {
    Seq::new(s.len(), |i: int| arg_view(s[i]))
}

pub open spec fn packet_view(p: OscPacket) -> PacketView
    decreases p,
{
    match p {
        OscPacket::OscMessage { addr, args } => PacketView::Message {
            addr: addr@,
            args: args_view(args@),
        },
        OscPacket::OscBundle { time_tag, conts } => PacketView::Bundle {
            time_tag,
            conts: packets_view(conts@),
        },
    }
}

pub open spec fn packets_view(s: Seq<OscPacket>) -> Seq<PacketView>
    decreases s,
{
    if s.len() == 0 {
        Seq::empty()
    } else {
        seq![packet_view(s[0])] + packets_view(s.subrange(1, s.len() as int))
    }
}

impl View for OscArg {
    type V = ArgView;

    open spec fn view(&self) -> ArgView {
        arg_view(*self)
    }
}

impl View for OscPacket {
    type V = PacketView;

    open spec fn view(&self) -> PacketView {
        packet_view(*self)
    }
}

impl Clone for OscArg {
    /// A copy with an equal view.
    fn clone(&self) -> (r: Self)
        ensures
            r@ == self@,
    {
        match self {
            OscArg::OscInt(v) => OscArg::OscInt(*v),
            OscArg::OscFloat(v) => OscArg::OscFloat(*v),
            OscArg::OscStr(s) => OscArg::OscStr(crate::util::clone_bytes(s)),
            OscArg::OscBlob(b) => OscArg::OscBlob(crate::util::clone_bytes(b)),
        }
    }
}

impl Clone for OscPacket {
    /// A copy with an equal view.
    fn clone(&self) -> (r: Self)
        ensures
            r@ == self@,
        decreases *self,
    {
        match self {
            OscPacket::OscMessage { addr, args } => {
                let mut cargs: Vec<OscArg> = Vec::new();
                let mut i: usize = 0;
                while i < args.len()
                    invariant
                        i <= args@.len(),
                        cargs@.len() == i,
                        forall|j: int| 0 <= j < i ==> arg_view(#[trigger] cargs@[j]) == arg_view(
                            args@[j],
                        ),
                    decreases args@.len() - i,
                {
                    cargs.push(args[i].clone());
                    i += 1;
                }
                proof {
                    assert(args_view(cargs@) =~= args_view(args@));
                }
                OscPacket::OscMessage { addr: crate::util::clone_bytes(addr), args: cargs }
            },
            OscPacket::OscBundle { time_tag, conts } => {
                proof {
                    lemma_packets_view_elems(conts@);
                }
                let mut cc: Vec<OscPacket> = Vec::new();
                let mut i: usize = 0;
                while i < conts.len()
                    invariant
                        i <= conts@.len(),
                        cc@.len() == i,
                        forall|j: int| 0 <= j < i ==> packet_view(#[trigger] cc@[j])
                            == packet_view(conts@[j]),
                        *self is OscBundle,
                        (*self)->conts == *conts,
                    decreases conts@.len() - i,
                {
                    proof {
                        let cvec = (*self)->conts;
                        assert(decreases_to!(*self => cvec));
                        assert(decreases_to!(cvec => cvec@));
                        assert(cvec@ == conts@);
                        assert(decreases_to!(cvec@ => cvec@[i as int]));
                        assert(decreases_to!(*self => conts@[i as int]));
                    }
                    let c = conts[i].clone();
                    cc.push(c);
                    i += 1;
                }
                proof {
                    lemma_packets_view_elems(cc@);
                    lemma_packets_view_elems(conts@);
                    assert(packets_view(cc@) =~= packets_view(conts@));
                }
                OscPacket::OscBundle { time_tag: *time_tag, conts: cc }
            },
        }
    }
}

/// The view of a packet list is the elementwise view.
pub proof fn lemma_packets_view_elems(s: Seq<OscPacket>)
    ensures
        packets_view(s).len() == s.len(),
        forall|i: int| 0 <= i < s.len() ==> #[trigger] packets_view(s)[i] == packet_view(s[i]),
    decreases s,
{
    if s.len() > 0 {
        lemma_packets_view_elems(s.subrange(1, s.len() as int));
    }
}

/// Whether the packet is, or recursively contains, a message whose address
/// equals `pat` exactly.
pub open spec fn has_addr(p: PacketView, pat: Seq<u8>) -> bool
    decreases p,
{
    match p {
        PacketView::Message { addr, .. } => addr == pat,
        PacketView::Bundle { conts, .. } => exists|i: int|
            0 <= i < conts.len() && has_addr(conts[i], pat),
    }
}

/// The arguments of all messages in `conts` (in order) whose address equals
/// `pat`, concatenated.
pub open spec fn collect_args(conts: Seq<PacketView>, pat: Seq<u8>) -> Seq<ArgView>
    decreases conts,
{
    if conts.len() == 0 {
        Seq::empty()
    } else {
        (match args_with_addr(conts[0], pat) {
            Option::Some(a) => a,
            Option::None => Seq::empty(),
        }) + collect_args(conts.subrange(1, conts.len() as int), pat)
    }
}

/// The arguments associated with address `pat`: for a message, its own
/// arguments if the address matches; for a bundle, the concatenation over
/// the whole tree, provided some message matched at all.  `None` means no
/// message matched; a match with zero arguments gives `Some` of the empty
/// sequence.
pub open spec fn args_with_addr(p: PacketView, pat: Seq<u8>) -> Option<Seq<ArgView>>
    decreases p,
{
    match p {
        PacketView::Message { addr, args } => if addr == pat {
            Option::Some(args)
        } else {
            Option::None
        },
        PacketView::Bundle { conts, .. } => if has_addr(p, pat) {
            Option::Some(collect_args(conts, pat))
        } else {
            Option::None
        },
    }
}

/// A message's arguments are reported exactly when some message matched:
/// `args_with_addr` is `Some` if and only if `has_addr` holds.
pub proof fn lemma_args_some_iff_has_addr(p: PacketView, pat: Seq<u8>)
    ensures
        args_with_addr(p, pat) is Some <==> has_addr(p, pat),
{
}

/// Find out if a packet contains a message with the given OSC address.
pub fn packet_has_addr(packet: &OscPacket, addr_match: &[u8]) -> (r: bool)
    ensures
        r == has_addr(packet@, addr_match@),
    decreases *packet,
{
    match packet {
        OscPacket::OscMessage { addr, .. } => crate::util::bytes_eq(addr.as_slice(), addr_match),
        OscPacket::OscBundle { conts, .. } => {
            proof {
                lemma_packets_view_elems(conts@);
            }
            let ghost cv = packets_view(conts@);
            let mut i: usize = 0;
            let n = conts.len();
            while i < n
                invariant
                    i <= n,
                    n == conts@.len(),
                    cv == packets_view(conts@),
                    cv.len() == conts@.len(),
                    forall|j: int| 0 <= j < i ==> !has_addr(cv[j], addr_match@),
                    forall|j: int| 0 <= j < conts@.len() ==> #[trigger] cv[j] == packet_view(
                        conts@[j],
                    ),
                    packet@ matches PacketView::Bundle { conts: c, .. } && c == cv,
                    *packet is OscBundle,
                    (*packet)->conts == *conts,
                decreases n - i,
            {
                proof {
                    let cvec = (*packet)->conts;
                    assert(decreases_to!(*packet => cvec));
                    assert(decreases_to!(cvec => cvec@));
                    assert(cvec@ == conts@);
                    assert(decreases_to!(cvec@ => cvec@[i as int]));
                    assert(decreases_to!(*packet => conts@[i as int]));
                }
                if packet_has_addr(&conts[i], addr_match) {
                    assert(has_addr(cv[i as int], addr_match@));
                    return true;
                }
                i += 1;
            }
            false
        },
    }
}

/// The args associated with the given address, gathered across the whole
/// packet tree; `None` if the packet contains no message with that address.
pub fn get_args_with_addr(packet: OscPacket, addr_match: &[u8]) -> (r: Option<Vec<OscArg>>)
    ensures
        match r {
            Option::Some(v) => args_with_addr(packet@, addr_match@) == Option::Some(
                args_view(v@),
            ),
            Option::None => args_with_addr(packet@, addr_match@) is None,
        },
    decreases packet,
{
    match packet {
        OscPacket::OscMessage { addr, args } => {
            if crate::util::bytes_eq(addr.as_slice(), addr_match) {
                Option::Some(args)
            } else {
                Option::None
            }
        },
        OscPacket::OscBundle { time_tag, conts } => {
            let ghost whole = conts@;
            let ghost cv = packets_view(conts@);
            proof {
                lemma_packets_view_elems(conts@);
            }
            let mut conts = conts;
            let mut arg_vec: Vec<OscArg> = Vec::new();
            let mut matched = false;
            let ghost mut i: int = 0;
            while conts.len() > 0
                invariant
                    0 <= i <= whole.len(),
                    conts@ == whole.subrange(i, whole.len() as int),
                    cv == packets_view(whole),
                    cv.len() == whole.len(),
                    forall|j: int| 0 <= j < whole.len() ==> #[trigger] cv[j] == packet_view(
                        whole[j],
                    ),
                    matched <==> exists|j: int| 0 <= j < i && has_addr(cv[j], addr_match@),
                    args_view(arg_vec@) == collect_args(cv.subrange(0, i), addr_match@),
                    packet is OscBundle,
                    packet->conts@ == whole,
                decreases conts@.len(),
            {
                let sub = conts.remove(0);
                proof {
                    assert(sub == whole[i]);
                    let cvec = packet->conts;
                    assert(decreases_to!(packet => cvec));
                    assert(decreases_to!(cvec => cvec@));
                    assert(decreases_to!(cvec@ => cvec@[i]));
                    assert(decreases_to!(packet => sub));
                }
                match get_args_with_addr(sub, addr_match) {
                    Option::Some(mut a) => {
                        proof {
                            lemma_args_some_iff_has_addr(cv[i], addr_match@);
                            assert(args_view(arg_vec@ + a@) =~= args_view(arg_vec@) + args_view(
                                a@,
                            ));
                            lemma_collect_args_snoc(cv, addr_match@, i);
                        }
                        matched = true;
                        arg_vec.append(&mut a);
                    },
                    Option::None => {
                        proof {
                            lemma_args_some_iff_has_addr(cv[i], addr_match@);
                            lemma_collect_args_snoc(cv, addr_match@, i);
                            assert(collect_args(cv.subrange(0, i + 1), addr_match@)
                                =~= collect_args(cv.subrange(0, i), addr_match@));
                        }
                    },
                }
                proof {
                    i = i + 1;
                }
            }
            proof {
                assert(i == whole.len());
                assert(cv.subrange(0, i) =~= cv);
                assert(packet@ matches PacketView::Bundle { conts: c2, .. } && c2 == cv);
                if matched {
                    let j = choose|j: int| 0 <= j < i && has_addr(cv[j], addr_match@);
                    assert(0 <= j < cv.len() && has_addr(cv[j], addr_match@));
                    assert(has_addr(packet@, addr_match@));
                } else {
                    assert(forall|j: int|
                        0 <= j < cv.len() ==> !has_addr(#[trigger] cv[j], addr_match@));
                    assert(!has_addr(packet@, addr_match@));
                }
            }
            if matched {
                Option::Some(arg_vec)
            } else {
                Option::None
            }
        },
    }
}

/// Collecting over one more element appends that element's contribution.
pub proof fn lemma_collect_args_snoc(conts: Seq<PacketView>, pat: Seq<u8>, i: int)
    requires
        0 <= i < conts.len(),
    ensures
        collect_args(conts.subrange(0, i + 1), pat) == collect_args(conts.subrange(0, i), pat)
            + (match args_with_addr(conts[i], pat) {
            Option::Some(a) => a,
            Option::None => Seq::<ArgView>::empty(),
        }),
    decreases i,
{
    let pre = conts.subrange(0, i + 1);
    if i == 0 {
        assert(pre =~= seq![conts[0]]);
        assert(pre.subrange(1, pre.len() as int) =~= Seq::<PacketView>::empty());
        assert(conts.subrange(0, 0) =~= Seq::<PacketView>::empty());
    } else {
        lemma_collect_args_snoc(conts.subrange(1, conts.len() as int), pat, i - 1);
        assert(pre.subrange(1, pre.len() as int) =~= conts.subrange(1, conts.len() as int)
            .subrange(0, i));
        assert(conts.subrange(0, i).subrange(1, i) =~= conts.subrange(1, conts.len() as int)
            .subrange(0, i - 1));
        assert(conts.subrange(1, conts.len() as int)[i - 1] == conts[i]);
    }
}

} // verus!
