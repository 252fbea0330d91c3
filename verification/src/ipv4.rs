//! IPv4 packets: a 20-byte fixed header, options up to the length that the
//! header's IHL field gives, and a body up to the packet's total length.

use vstd::prelude::*;
use vstd::slice::slice_to_vec;
use crate::fields::{be_value, be_u16_value, split_off};
use crate::helper::{DecodeError, is_cut, is_failure};

verus! {

broadcast use Seq::lemma_flatten_push;

/// The header length in bytes that a first header byte `b1` gives: four
/// times its low nibble (IHL).
pub open spec fn ihl_bytes(b1: int) -> int {
    (b1 % 16) * 4
}

/// The header length that `b1` gives, computed as the header does it.
fn ihl_bytes_of(b1: usize) -> (r: usize)
    ensures
        r == ihl_bytes(b1 as int),
{
    let ihl = b1 & 0x0f;
    assert(b1 & 0x0f == b1 % 16) by (bit_vector);
    ihl * 4
}

/// Cuts the options off `input`, given the value of `b1` in the context
/// (`None` where the context lacks it): the header length less the 20 bytes
/// of the fixed header.
pub fn options_decode_callbackfn<'a>(input: &'a [u8], b1: Option<usize>) -> (r: Result<
    (&'a [u8], Vec<u8>),
    DecodeError,
>)
    requires
        b1 matches Some(v) ==> 20 <= ihl_bytes(v as int) && ihl_bytes(v as int) - 20
            <= input@.len(),
    ensures
        b1 is None ==> is_failure(r, DecodeError::SymbolNotInContext),
        b1 matches Some(v) ==> is_cut(r, input@, ihl_bytes(v as int) - 20),
{
    match b1 {
        None => Err(DecodeError::SymbolNotInContext),
        Some(v) => {
            let ihl = ihl_bytes_of(v);
            Ok(split_off(input, ihl - 20))
        },
    }
}

/// Cuts the body off `input`, given the values of `total_length` and `b1` in
/// the context (`None` where the context lacks one): the total length less the
/// header length.
pub fn body_decode_callbackfn<'a>(
    input: &'a [u8],
    total_length: Option<usize>,
    b1: Option<usize>,
) -> (r: Result<(&'a [u8], Vec<u8>), DecodeError>)
    requires
        total_length matches Some(t) ==> b1 matches Some(v) ==> ihl_bytes(v as int) <= t && t
            - ihl_bytes(v as int) <= input@.len(),
    ensures
        total_length is None ==> is_failure(r, DecodeError::SymbolNotInContext),
        total_length is Some && b1 is None ==> is_failure(r, DecodeError::SymbolNotInContext),
        total_length matches Some(t) ==> b1 matches Some(v) ==> is_cut(
            r,
            input@,
            t - ihl_bytes(v as int),
        ),
{
    let t = match total_length {
        None => return Err(DecodeError::SymbolNotInContext),
        Some(t) => t,
    };
    let v = match b1 {
        None => return Err(DecodeError::SymbolNotInContext),
        Some(v) => v,
    };
    let ihl = ihl_bytes_of(v);
    Ok(split_off(input, t - ihl))
}

/// The length of an option's body for a context value `incl_len`: two less
/// than it, and nothing where it is 2 or less.
pub open spec fn option_body_len(incl_len: int) -> int {
    if incl_len > 2 {
        incl_len - 2
    } else {
        0
    }
}

/// Cuts an option's body off `input`, given the value of `incl_len` in the
/// context (`None` where the context lacks it).
pub fn ipv4_option_body_decode_callbackfn<'a>(input: &'a [u8], incl_len: Option<usize>) -> (r:
    Result<(&'a [u8], Vec<u8>), DecodeError>)
    requires
        incl_len matches Some(n) ==> option_body_len(n as int) <= input@.len(),
    ensures
        incl_len is None ==> is_failure(r, DecodeError::SymbolNotInContext),
        incl_len matches Some(n) ==> is_cut(r, input@, option_body_len(n as int)),
{
    match incl_len {
        None => Err(DecodeError::SymbolNotInContext),
        Some(n) => {
            if n > 2 {
                Ok(split_off(input, n - 2))
            } else {
                Ok(split_off(input, 0))
            }
        },
    }
}

/// One option: its type byte, its length byte and its body.
pub struct Ipv4Option {
    pub option_type: Vec<u8>,
    pub ipv4_option_len: Vec<u8>,
    pub ipv4_option_body: Vec<u8>,
}

/// The bytes of each field of an option.
#[verifier::ext_equal]
pub struct SpecIpv4Option {
    pub option_type: Seq<u8>,
    pub ipv4_option_len: Seq<u8>,
    pub ipv4_option_body: Seq<u8>,
}

impl View for Ipv4Option {
    type V = SpecIpv4Option;

    open spec fn view(&self) -> SpecIpv4Option {
        SpecIpv4Option {
            option_type: self.option_type@,
            ipv4_option_len: self.ipv4_option_len@,
            ipv4_option_body: self.ipv4_option_body@,
        }
    }
}

/// The options area of a header: the options that follow one another from
/// its start, and the bytes after the last of them.
pub struct Ipv4Options {
    pub options: Vec<Ipv4Option>,
    pub rest: Vec<u8>,
}

/// The options, each by its view, and the bytes after them.
#[verifier::ext_equal]
pub struct SpecIpv4Options {
    pub options: Seq<SpecIpv4Option>,
    pub rest: Seq<u8>,
}

/// The options of a vector, each by its view.
pub open spec fn options_view(v: Seq<Ipv4Option>) -> Seq<SpecIpv4Option> {
    v.map_values(|o: Ipv4Option| o@)
}

impl View for Ipv4Options {
    type V = SpecIpv4Options;

    open spec fn view(&self) -> SpecIpv4Options {
        SpecIpv4Options { options: options_view(self.options@), rest: self.rest@ }
    }
}

/// An IPv4 packet, field by field.
pub struct Ipv4Packet {
    pub b1: Vec<u8>,
    pub b2: Vec<u8>,
    pub total_length: Vec<u8>,
    pub identification: Vec<u8>,
    pub b67: Vec<u8>,
    pub ttl: Vec<u8>,
    pub protocol: Vec<u8>,
    pub header_checksum: Vec<u8>,
    pub src_ip_addr: Vec<u8>,
    pub dst_ip_addr: Vec<u8>,
    pub options: Ipv4Options,
    pub ipv4_body: Vec<u8>,
}

/// The bytes of each field of a packet.
#[verifier::ext_equal]
pub struct SpecIpv4Packet {
    pub b1: Seq<u8>,
    pub b2: Seq<u8>,
    pub total_length: Seq<u8>,
    pub identification: Seq<u8>,
    pub b67: Seq<u8>,
    pub ttl: Seq<u8>,
    pub protocol: Seq<u8>,
    pub header_checksum: Seq<u8>,
    pub src_ip_addr: Seq<u8>,
    pub dst_ip_addr: Seq<u8>,
    pub options: SpecIpv4Options,
    pub ipv4_body: Seq<u8>,
}

impl View for Ipv4Packet {
    type V = SpecIpv4Packet;

    open spec fn view(&self) -> SpecIpv4Packet {
        SpecIpv4Packet {
            b1: self.b1@,
            b2: self.b2@,
            total_length: self.total_length@,
            identification: self.identification@,
            b67: self.b67@,
            ttl: self.ttl@,
            protocol: self.protocol@,
            header_checksum: self.header_checksum@,
            src_ip_addr: self.src_ip_addr@,
            dst_ip_addr: self.dst_ip_addr@,
            options: self.options@,
            ipv4_body: self.ipv4_body@,
        }
    }
}

/// The packet that `s` holds with its options area left unparsed, if `s`
/// holds one: the header length is at least 20 and at most the total length,
/// and the total length is the length of `s`.
pub open spec fn spec_parse_ipv4_less(s: Seq<u8>) -> Option<SpecIpv4Packet> {
    if s.len() < 20 {
        None
    } else {
        let h = ihl_bytes(s[0] as int);
        let t = be_value(s.subrange(2, 4)) as int;
        if 20 <= h && h <= t && t == s.len() {
            Some(
                SpecIpv4Packet {
                    b1: s.subrange(0, 1),
                    b2: s.subrange(1, 2),
                    total_length: s.subrange(2, 4),
                    identification: s.subrange(4, 6),
                    b67: s.subrange(6, 8),
                    ttl: s.subrange(8, 9),
                    protocol: s.subrange(9, 10),
                    header_checksum: s.subrange(10, 12),
                    src_ip_addr: s.subrange(12, 16),
                    dst_ip_addr: s.subrange(16, 20),
                    options: SpecIpv4Options { options: Seq::empty(), rest: s.subrange(20, h) },
                    ipv4_body: s.subrange(h, t),
                },
            )
        } else {
            None
        }
    }
}

/// The options that follow one another from the start of `o`, as many as fit,
/// each a type byte, a length byte and a body whose length the context value
/// `incl_len` gives; where the context lacks it, no option is read.
pub open spec fn spec_parse_options(o: Seq<u8>, incl_len: Option<usize>) -> SpecIpv4Options
    decreases o.len(),
{
    match incl_len {
        None => SpecIpv4Options { options: Seq::empty(), rest: o },
        Some(n) => {
            let k = 2 + option_body_len(n as int);
            if k <= o.len() {
                let opt = SpecIpv4Option {
                    option_type: o.subrange(0, 1),
                    ipv4_option_len: o.subrange(1, 2),
                    ipv4_option_body: o.subrange(2, k),
                };
                let tail = spec_parse_options(o.subrange(k, o.len() as int), incl_len);
                SpecIpv4Options { options: seq![opt] + tail.options, rest: tail.rest }
            } else {
                SpecIpv4Options { options: Seq::empty(), rest: o }
            }
        },
    }
}

/// The packet that `s` holds with its options parsed, given the value of
/// `incl_len` in the context of the options (`None` where it lacks it).
pub open spec fn spec_parse_ipv4_full(s: Seq<u8>, incl_len: Option<usize>) -> Option<
    SpecIpv4Packet,
> {
    match spec_parse_ipv4_less(s) {
        None => None,
        Some(p) => Some(
            SpecIpv4Packet { options: spec_parse_options(p.options.rest, incl_len), ..p },
        ),
    }
}

/// The bytes of an option.
pub open spec fn spec_option_bytes(o: SpecIpv4Option) -> Seq<u8> {
    o.option_type + o.ipv4_option_len + o.ipv4_option_body
}

/// The bytes of an options area.
pub open spec fn spec_options_bytes(o: SpecIpv4Options) -> Seq<u8> {
    o.options.map_values(|x: SpecIpv4Option| spec_option_bytes(x)).flatten() + o.rest
}

/// The bytes of the fixed header of a packet.
pub open spec fn spec_ipv4_fixed_header_bytes(p: SpecIpv4Packet) -> Seq<u8> {
    p.b1 + p.b2 + p.total_length + p.identification + p.b67 + p.ttl + p.protocol
        + p.header_checksum + p.src_ip_addr + p.dst_ip_addr
}

/// The bytes of a packet.
pub open spec fn spec_ipv4_bytes(p: SpecIpv4Packet) -> Seq<u8> {
    spec_ipv4_fixed_header_bytes(p) + spec_options_bytes(p.options) + p.ipv4_body
}

/// Parses a packet, leaving the options area unparsed.
pub fn parse_ipv4_less(input: &[u8]) -> (r: Option<Ipv4Packet>)
    ensures
        spec_parse_ipv4_less(input@) matches Some(p) ==> r matches Some(q) && q@ == p,
        spec_parse_ipv4_less(input@) is None ==> r is None,
{
    if input.len() < 20 {
        return None;
    }
    let (rest, b1) = split_off(input, 1);
    let (rest, b2) = split_off(rest, 1);
    let (rest, total_length) = split_off(rest, 2);
    let (rest, identification) = split_off(rest, 2);
    let (rest, b67) = split_off(rest, 2);
    let (rest, ttl) = split_off(rest, 1);
    let (rest, protocol) = split_off(rest, 1);
    let (rest, header_checksum) = split_off(rest, 2);
    let (rest, src_ip_addr) = split_off(rest, 4);
    let (rest, dst_ip_addr) = split_off(rest, 4);
    let b1_value = b1[0] as usize;
    assert(total_length@ =~= input@.subrange(2, 4));
    let t = be_u16_value(total_length.as_slice());
    let h = ihl_bytes_of(b1_value);
    if h < 20 || h - 20 > rest.len() {
        return None;
    }
    let (rest, raw_options) = options_decode_callbackfn(rest, Some(b1_value)).unwrap();
    if t < h || t - h > rest.len() {
        return None;
    }
    let (rest, ipv4_body) = body_decode_callbackfn(rest, Some(t), Some(b1_value)).unwrap();
    if rest.len() != 0 {
        return None;
    }
    let p = Ipv4Packet {
        b1,
        b2,
        total_length,
        identification,
        b67,
        ttl,
        protocol,
        header_checksum,
        src_ip_addr,
        dst_ip_addr,
        options: Ipv4Options { options: Vec::new(), rest: raw_options },
        ipv4_body,
    };
    assert(p@.options.options =~= Seq::<SpecIpv4Option>::empty());
    assert(p@ =~= spec_parse_ipv4_less(input@).unwrap());
    Some(p)
}

/// Cuts off the start of `o` as many options as follow one another there.
pub fn parse_ipv4_options(o: &[u8], incl_len: Option<usize>) -> (r: Ipv4Options)
    ensures
        r@ == spec_parse_options(o@, incl_len),
{
    let mut options: Vec<Ipv4Option> = Vec::new();
    let mut rest = o;
    loop
        invariant
            spec_parse_options(o@, incl_len) == (SpecIpv4Options {
                options: options_view(options@) + spec_parse_options(rest@, incl_len).options,
                rest: spec_parse_options(rest@, incl_len).rest,
            }),
        ensures
            spec_parse_options(o@, incl_len) == (SpecIpv4Options {
                options: options_view(options@),
                rest: rest@,
            }),
        decreases rest@.len(),
    {
        let fits = match incl_len {
            None => false,
            Some(n) => {
                let m: usize = if n > 2 {
                    n - 2
                } else {
                    0
                };
                rest.len() >= 2 && m <= rest.len() - 2
            },
        };
        if !fits {
            assert(options_view(options@) + Seq::<SpecIpv4Option>::empty() =~= options_view(
                options@,
            ));
            break ;
        }
        let ghost before = options_view(options@);
        let ghost old_rest = rest@;
        let (after, option_type) = split_off(rest, 1);
        let (after, ipv4_option_len) = split_off(after, 1);
        let (after, ipv4_option_body) = ipv4_option_body_decode_callbackfn(after, incl_len).unwrap();
        let opt = Ipv4Option { option_type, ipv4_option_len, ipv4_option_body };
        let ghost k = 2 + option_body_len(incl_len.unwrap() as int);
        assert(opt@ =~= SpecIpv4Option {
            option_type: old_rest.subrange(0, 1),
            ipv4_option_len: old_rest.subrange(1, 2),
            ipv4_option_body: old_rest.subrange(2, k),
        });
        assert(after@ =~= old_rest.subrange(k, old_rest.len() as int));
        options.push(opt);
        rest = after;
        assert(options_view(options@) =~= before.push(opt@));
        assert(before + spec_parse_options(old_rest, incl_len).options =~= options_view(options@)
            + spec_parse_options(rest@, incl_len).options);
    }
    Ipv4Options { options, rest: slice_to_vec(rest) }
}

/// Parses a packet with its options, given the value of `incl_len` in the
/// context of the options (`None` where it lacks it).
pub fn parse_ipv4_full(input: &[u8], incl_len: Option<usize>) -> (r: Option<Ipv4Packet>)
    ensures
        spec_parse_ipv4_full(input@, incl_len) matches Some(p) ==> r matches Some(q) && q@ == p,
        spec_parse_ipv4_full(input@, incl_len) is None ==> r is None,
{
    match parse_ipv4_less(input) {
        None => None,
        Some(p) => {
            let options = parse_ipv4_options(p.options.rest.as_slice(), incl_len);
            let q = Ipv4Packet {
                b1: p.b1,
                b2: p.b2,
                total_length: p.total_length,
                identification: p.identification,
                b67: p.b67,
                ttl: p.ttl,
                protocol: p.protocol,
                header_checksum: p.header_checksum,
                src_ip_addr: p.src_ip_addr,
                dst_ip_addr: p.dst_ip_addr,
                options,
                ipv4_body: p.ipv4_body,
            };
            assert(q@ =~= spec_parse_ipv4_full(input@, incl_len).unwrap());
            Some(q)
        },
    }
}

impl Ipv4Options {
    /// The bytes of the options area.
    pub fn to_bytes(&self) -> (r: Vec<u8>)
        ensures
            r@ == spec_options_bytes(self@),
    {
        let mut out: Vec<u8> = Vec::new();
        let ghost os = options_view(self.options@);
        let ghost f = |x: SpecIpv4Option| spec_option_bytes(x);
        let mut i: usize = 0;
        assert(os.take(0).map_values(f).flatten() =~= out@);
        while i < self.options.len()
            invariant
                i <= self.options@.len(),
                os == options_view(self.options@),
                f == (|x: SpecIpv4Option| spec_option_bytes(x)),
                out@ == os.take(i as int).map_values(f).flatten(),
            decreases self.options@.len() - i,
        {
            let o = &self.options[i];
            out.extend_from_slice(o.option_type.as_slice());
            out.extend_from_slice(o.ipv4_option_len.as_slice());
            out.extend_from_slice(o.ipv4_option_body.as_slice());
            assert(os.take(i + 1).map_values(f) =~= os.take(i as int).map_values(f).push(
                spec_option_bytes(os[i as int]),
            ));
            i = i + 1;
        }
        assert(os.take(i as int) =~= os);
        out.extend_from_slice(self.rest.as_slice());
        out
    }
}

impl Ipv4Packet {
    /// The bytes of the packet.
    pub fn to_bytes(&self) -> (r: Vec<u8>)
        ensures
            r@ == spec_ipv4_bytes(self@),
    {
        let mut out = self.b1.clone();
        out.extend_from_slice(self.b2.as_slice());
        out.extend_from_slice(self.total_length.as_slice());
        out.extend_from_slice(self.identification.as_slice());
        out.extend_from_slice(self.b67.as_slice());
        out.extend_from_slice(self.ttl.as_slice());
        out.extend_from_slice(self.protocol.as_slice());
        out.extend_from_slice(self.header_checksum.as_slice());
        out.extend_from_slice(self.src_ip_addr.as_slice());
        out.extend_from_slice(self.dst_ip_addr.as_slice());
        let options = self.options.to_bytes();
        out.extend_from_slice(options.as_slice());
        out.extend_from_slice(self.ipv4_body.as_slice());
        out
    }
}

/// The options parsed from `o` give back exactly `o`.
pub proof fn lemma_options_parse_bytes(o: Seq<u8>, incl_len: Option<usize>)
    ensures
        spec_options_bytes(spec_parse_options(o, incl_len)) == o,
    decreases o.len(),
{
    let f = |x: SpecIpv4Option| spec_option_bytes(x);
    match incl_len {
        None => {
            assert(Seq::<SpecIpv4Option>::empty().map_values(f).flatten() + o =~= o);
        },
        Some(n) => {
            let k = 2 + option_body_len(n as int);
            if k <= o.len() {
                let rest = o.subrange(k, o.len() as int);
                lemma_options_parse_bytes(rest, incl_len);
                let tail = spec_parse_options(rest, incl_len);
                let opt = spec_parse_options(o, incl_len).options[0];
                let all = seq![opt] + tail.options;
                assert(all.map_values(f).drop_first() =~= tail.options.map_values(f));
                assert(spec_option_bytes(opt) =~= o.subrange(0, k));
                assert(all.map_values(f).flatten() == spec_option_bytes(opt)
                    + tail.options.map_values(f).flatten());
                assert(all.map_values(f).flatten() + tail.rest =~= spec_option_bytes(opt)
                    + spec_options_bytes(tail));
                assert(o.subrange(0, k) + rest =~= o);
            } else {
                assert(Seq::<SpecIpv4Option>::empty().map_values(f).flatten() + o =~= o);
            }
        },
    }
}

/// A packet parsed with its options unparsed gives back exactly the bytes it
/// was parsed from.
pub proof fn lemma_ipv4_less_parse_bytes(s: Seq<u8>)
    requires
        spec_parse_ipv4_less(s) is Some,
    ensures
        spec_ipv4_bytes(spec_parse_ipv4_less(s).unwrap()) == s,
{
    let p = spec_parse_ipv4_less(s).unwrap();
    let h = ihl_bytes(s[0] as int);
    assert(p.options.options.map_values(|x: SpecIpv4Option| spec_option_bytes(x)).flatten()
        =~= Seq::<u8>::empty());
    assert(spec_options_bytes(p.options) =~= s.subrange(20, h));
    assert(spec_ipv4_fixed_header_bytes(p) =~= s.subrange(0, 20));
    assert(spec_ipv4_bytes(p) =~= s);
}

/// A packet parsed with its options gives back exactly the bytes it was
/// parsed from.
pub proof fn lemma_ipv4_full_parse_bytes(s: Seq<u8>, incl_len: Option<usize>)
    requires
        spec_parse_ipv4_full(s, incl_len) is Some,
    ensures
        spec_ipv4_bytes(spec_parse_ipv4_full(s, incl_len).unwrap()) == s,
{
    let p = spec_parse_ipv4_less(s).unwrap();
    lemma_ipv4_less_parse_bytes(s);
    lemma_options_parse_bytes(p.options.rest, incl_len);
    let h = ihl_bytes(s[0] as int);
    assert(p.options.options.map_values(|x: SpecIpv4Option| spec_option_bytes(x)).flatten()
        =~= Seq::<u8>::empty());
    assert(spec_options_bytes(p.options) =~= p.options.rest);
}

/// Where the context of the options has no `incl_len`, the full grammar reads
/// no option and parses exactly as the small one.
pub proof fn lemma_ipv4_full_without_context(s: Seq<u8>)
    ensures
        spec_parse_ipv4_full(s, None) == spec_parse_ipv4_less(s),
{
    if let Some(p) = spec_parse_ipv4_less(s) {
        assert(spec_parse_ipv4_full(s, None).unwrap() =~= p);
    }
}

/// The full grammar accepts exactly what the small one accepts, and both
/// read the same fixed header and body.
pub proof fn lemma_ipv4_full_refines_less(s: Seq<u8>, incl_len: Option<usize>)
    ensures
        spec_parse_ipv4_full(s, incl_len) is Some <==> spec_parse_ipv4_less(s) is Some,
        spec_parse_ipv4_full(s, incl_len) is Some ==> {
            let p = spec_parse_ipv4_less(s).unwrap();
            let q = spec_parse_ipv4_full(s, incl_len).unwrap();
            &&& spec_ipv4_fixed_header_bytes(q) == spec_ipv4_fixed_header_bytes(p)
            &&& q.ipv4_body == p.ipv4_body
            &&& spec_options_bytes(q.options) == spec_options_bytes(p.options)
        },
{
    if let Some(p) = spec_parse_ipv4_less(s) {
        lemma_options_parse_bytes(p.options.rest, incl_len);
        assert(p.options.options.map_values(|x: SpecIpv4Option| spec_option_bytes(x)).flatten()
            =~= Seq::<u8>::empty());
        assert(spec_options_bytes(p.options) =~= p.options.rest);
    }
}

/// A packet's fixed header and body are well formed when the fields have the
/// lengths that the format gives them, the header length is at least 20 and
/// at most the total length, and options and body fill the lengths that the
/// header gives.
pub open spec fn wf_ipv4_frame(p: SpecIpv4Packet) -> bool {
    &&& p.b1.len() == 1
    &&& p.b2.len() == 1
    &&& p.total_length.len() == 2
    &&& p.identification.len() == 2
    &&& p.b67.len() == 2
    &&& p.ttl.len() == 1
    &&& p.protocol.len() == 1
    &&& p.header_checksum.len() == 2
    &&& p.src_ip_addr.len() == 4
    &&& p.dst_ip_addr.len() == 4
    &&& 20 <= ihl_bytes(p.b1[0] as int)
    &&& ihl_bytes(p.b1[0] as int) <= be_value(p.total_length)
    &&& spec_options_bytes(p.options).len() == ihl_bytes(p.b1[0] as int) - 20
    &&& p.ipv4_body.len() == be_value(p.total_length) - ihl_bytes(p.b1[0] as int)
}

/// An option is well formed for a context value `n` of `incl_len` when its
/// type and length fields are one byte each and its body has the length that
/// `n` gives.
pub open spec fn wf_option(o: SpecIpv4Option, n: usize) -> bool {
    &&& o.option_type.len() == 1
    &&& o.ipv4_option_len.len() == 1
    &&& o.ipv4_option_body.len() == option_body_len(n as int)
}

/// An options area is well formed for a context value `incl_len` when, with
/// it, each option is well formed and no whole option stands at the start of
/// the rest; without it, there is no option.
pub open spec fn wf_options(o: SpecIpv4Options, incl_len: Option<usize>) -> bool {
    match incl_len {
        None => o.options.len() == 0,
        Some(n) => {
            &&& forall|i: int| 0 <= i < o.options.len() ==> wf_option(#[trigger] o.options[i], n)
            &&& o.rest.len() < 2 + option_body_len(n as int)
        },
    }
}

/// A well-formed options area parses back from its bytes to itself.
pub proof fn lemma_options_bytes_parse(o: SpecIpv4Options, incl_len: Option<usize>)
    requires
        wf_options(o, incl_len),
    ensures
        spec_parse_options(spec_options_bytes(o), incl_len) == o,
    decreases o.options.len(),
{
    let f = |x: SpecIpv4Option| spec_option_bytes(x);
    let s = spec_options_bytes(o);
    if o.options.len() == 0 {
        assert(o.options.map_values(f) =~= Seq::<Seq<u8>>::empty());
        assert(s =~= o.rest);
        assert(spec_parse_options(s, incl_len) =~= o);
    } else {
        let n = incl_len.unwrap();
        let x = o.options[0];
        let tail = SpecIpv4Options { options: o.options.drop_first(), rest: o.rest };
        assert(wf_option(x, n));
        assert forall|i: int| 0 <= i < tail.options.len() implies wf_option(
            #[trigger] tail.options[i],
            n,
        ) by {
            assert(tail.options[i] == o.options[i + 1]);
        }
        lemma_options_bytes_parse(tail, incl_len);
        assert(o.options.map_values(f).drop_first() =~= tail.options.map_values(f));
        let b = spec_option_bytes(x);
        assert(s =~= b + spec_options_bytes(tail));
        let k = 2 + option_body_len(n as int);
        assert(b.len() == k);
        assert(s.subrange(0, 1) =~= x.option_type);
        assert(s.subrange(1, 2) =~= x.ipv4_option_len);
        assert(s.subrange(2, k) =~= x.ipv4_option_body);
        assert(s.subrange(k, s.len() as int) =~= spec_options_bytes(tail));
        assert(seq![x] + tail.options =~= o.options);
        assert(spec_parse_options(s, incl_len) =~= o);
    }
}

/// A well-formed packet whose options area is not divided into options
/// parses back, by the small grammar, from its bytes to itself.
pub proof fn lemma_ipv4_less_bytes_parse(p: SpecIpv4Packet)
    requires
        wf_ipv4_frame(p),
        p.options.options.len() == 0,
    ensures
        spec_parse_ipv4_less(spec_ipv4_bytes(p)) == Some(p),
{
    let s = spec_ipv4_bytes(p);
    let h = ihl_bytes(p.b1[0] as int);
    assert(p.options.options.map_values(|x: SpecIpv4Option| spec_option_bytes(x))
        =~= Seq::<Seq<u8>>::empty());
    assert(spec_options_bytes(p.options) =~= p.options.rest);
    assert(s.subrange(0, 1) =~= p.b1);
    assert(s.subrange(2, 4) =~= p.total_length);
    assert(s[0] == p.b1[0]);
    assert(s.subrange(20, h) =~= p.options.rest);
    assert(p.options.options =~= Seq::<SpecIpv4Option>::empty());
    assert(spec_parse_ipv4_less(s).unwrap() =~= p);
}

/// A well-formed packet parses back, by the full grammar with the same
/// context value `incl_len`, from its bytes to itself.
pub proof fn lemma_ipv4_full_bytes_parse(p: SpecIpv4Packet, incl_len: Option<usize>)
    requires
        wf_ipv4_frame(p),
        wf_options(p.options, incl_len),
    ensures
        spec_parse_ipv4_full(spec_ipv4_bytes(p), incl_len) == Some(p),
{
    let raw = SpecIpv4Options { options: Seq::empty(), rest: spec_options_bytes(p.options) };
    let q = SpecIpv4Packet { options: raw, ..p };
    assert(Seq::<SpecIpv4Option>::empty().map_values(|x: SpecIpv4Option| spec_option_bytes(x))
        =~= Seq::<Seq<u8>>::empty());
    assert(spec_options_bytes(raw) =~= spec_options_bytes(p.options));
    lemma_ipv4_less_bytes_parse(q);
    assert(spec_ipv4_bytes(q) == spec_ipv4_bytes(p));
    lemma_options_bytes_parse(p.options, incl_len);
    assert(spec_parse_ipv4_full(spec_ipv4_bytes(p), incl_len).unwrap() =~= p);
}

/// The header length is four times the whole low nibble of the first byte,
/// between 0 and 60.
pub proof fn lemma_ihl_bytes_value(b1: u8)
    ensures
        ihl_bytes(b1 as int) == 4 * (b1 & 0x0f) as int,
        ihl_bytes(b1 as int) == 4 * ((b1 as int) % 16),
        0 <= ihl_bytes(b1 as int) <= 60,
{
    assert(b1 & 0x0f == b1 % 16) by (bit_vector);
}

/// An option's body is two bytes shorter than a context length above 2, and
/// empty otherwise.
pub proof fn lemma_option_body_len_value(n: int)
    ensures
        n > 2 ==> option_body_len(n) == n - 2,
        n <= 2 ==> option_body_len(n) == 0,
{
}

/// Where the small grammar accepts `s`, and exactly where: `s` is at least 20
/// bytes, its first byte's low nibble times four (the header length) is at
/// least 20 and at most its length, and its total-length field (bytes 2 and 3,
/// big-endian) is its length. The options are then the bytes from 20 up to the
/// header length, not divided into options, and the body is the rest.
pub proof fn lemma_ipv4_less_layout(s: Seq<u8>)
    ensures
        spec_parse_ipv4_less(s) is Some <==> {
            &&& s.len() >= 20
            &&& 20 <= 4 * ((s[0] as int) % 16)
            &&& 4 * ((s[0] as int) % 16) <= s.len()
            &&& (s[2] as int) * 256 + (s[3] as int) == s.len()
        },
        spec_parse_ipv4_less(s) matches Some(p) ==> {
            &&& p.b1 == s.subrange(0, 1)
            &&& p.total_length == s.subrange(2, 4)
            &&& p.src_ip_addr == s.subrange(12, 16)
            &&& p.dst_ip_addr == s.subrange(16, 20)
            &&& p.options.options.len() == 0
            &&& p.options.rest == s.subrange(20, 4 * ((s[0] as int) % 16))
            &&& p.ipv4_body == s.subrange(4 * ((s[0] as int) % 16), s.len() as int)
        },
{
    if s.len() >= 20 {
        reveal_with_fuel(be_value, 3);
        let t = s.subrange(2, 4);
        assert(t.drop_last().drop_last() =~= Seq::<u8>::empty());
        assert(t.drop_last() =~= seq![s[2]]);
        assert(be_value(t) == (s[2] as int) * 256 + (s[3] as int));
    }
}

/// With a context length `n`, the options read from `o` each have a one-byte
/// type, a one-byte length and a body of `n - 2` bytes (none where `n` is 2
/// or less); what is left is too short for one more, and options and rest
/// together are `o`. Without a context length no option is read.
pub proof fn lemma_options_layout(o: Seq<u8>, incl_len: Option<usize>)
    ensures
        incl_len is None ==> spec_parse_options(o, incl_len).options.len() == 0
            && spec_parse_options(o, incl_len).rest == o,
        incl_len matches Some(n) ==> forall|i: int|
            0 <= i < spec_parse_options(o, incl_len).options.len() ==> {
                &&& (#[trigger] spec_parse_options(o, incl_len).options[i]).option_type.len() == 1
                &&& spec_parse_options(o, incl_len).options[i].ipv4_option_len.len() == 1
                &&& spec_parse_options(o, incl_len).options[i].ipv4_option_body.len() == (if n > 2 {
                    n - 2
                } else {
                    0
                })
            },
        incl_len matches Some(n) ==> spec_parse_options(o, incl_len).rest.len() < 2 + (if n > 2 {
            n - 2
        } else {
            0
        }),
        spec_options_bytes(spec_parse_options(o, incl_len)) == o,
    decreases o.len(),
{
    lemma_options_parse_bytes(o, incl_len);
    if let Some(n) = incl_len {
        let k = 2 + option_body_len(n as int);
        if k <= o.len() {
            let rest = o.subrange(k, o.len() as int);
            lemma_options_layout(rest, incl_len);
            let tail = spec_parse_options(rest, incl_len);
            let all = spec_parse_options(o, incl_len).options;
            assert forall|i: int| 0 < i < all.len() implies all[i] == tail.options[i - 1] by {}
        }
    }
}

} // verus!
