//! Packet capture files (pcap, microsecond resolution, little-endian): a
//! 24-byte header and a sequence of packet records, each a 16-byte record
//! header and as many bytes of packet data as its `incl_len` field says.

use vstd::prelude::*;
use vstd::slice::slice_to_vec;
use crate::fields::{le_value, le_u32_value, lemma_le_value_4, split_off};
use crate::helper::{DecodeError, is_cut, is_failure};

verus! {

broadcast use Seq::lemma_flatten_push;

/// The magic number that opens a little-endian pcap file.
pub open spec fn pcap_magic() -> Seq<u8> {
    seq![0xd4u8, 0xc3u8, 0xb2u8, 0xa1u8]
}

/// The major version field that the format accepts.
pub open spec fn pcap_version_major() -> Seq<u8> {
    seq![0x02u8, 0x00u8]
}

/// Cuts the packet data of a record off `input`, given the value of the
/// record's `incl_len` in the context (`None` where the context lacks it).
pub fn body_decode_callbackfn<'a>(input: &'a [u8], incl_len: Option<usize>) -> (r: Result<
    (&'a [u8], Vec<u8>),
    DecodeError,
>)
    requires
        incl_len matches Some(n) ==> n <= input@.len(),
    ensures
        incl_len is None ==> is_failure(r, DecodeError::SymbolNotInContext),
        incl_len matches Some(n) ==> is_cut(r, input@, n as int),
{
    match incl_len {
        None => Err(DecodeError::SymbolNotInContext),
        Some(n) => Ok(split_off(input, n)),
    }
}

/// One packet record.
pub struct PcapPacket {
    pub ts_sec: Vec<u8>,
    pub ts_usec: Vec<u8>,
    pub incl_len: Vec<u8>,
    pub orig_len: Vec<u8>,
    pub pcap_body: Vec<u8>,
}

/// The bytes of each field of a packet record.
#[verifier::ext_equal]
pub struct SpecPcapPacket {
    pub ts_sec: Seq<u8>,
    pub ts_usec: Seq<u8>,
    pub incl_len: Seq<u8>,
    pub orig_len: Seq<u8>,
    pub pcap_body: Seq<u8>,
}

impl View for PcapPacket {
    type V = SpecPcapPacket;

    open spec fn view(&self) -> SpecPcapPacket {
        SpecPcapPacket {
            ts_sec: self.ts_sec@,
            ts_usec: self.ts_usec@,
            incl_len: self.incl_len@,
            orig_len: self.orig_len@,
            pcap_body: self.pcap_body@,
        }
    }
}

/// A whole capture file.
pub struct Pcap {
    pub magic: Vec<u8>,
    pub version_major: Vec<u8>,
    pub version_minor: Vec<u8>,
    pub thiszone: Vec<u8>,
    pub sigfigs: Vec<u8>,
    pub snaplen: Vec<u8>,
    pub network: Vec<u8>,
    /// The records, as many as follow one another from the header on.
    pub packets: Vec<PcapPacket>,
    /// What follows the last record that fits.
    pub trailer: Vec<u8>,
}

/// The bytes of each field of a capture file.
#[verifier::ext_equal]
pub struct SpecPcap {
    pub magic: Seq<u8>,
    pub version_major: Seq<u8>,
    pub version_minor: Seq<u8>,
    pub thiszone: Seq<u8>,
    pub sigfigs: Seq<u8>,
    pub snaplen: Seq<u8>,
    pub network: Seq<u8>,
    pub packets: Seq<SpecPcapPacket>,
    pub trailer: Seq<u8>,
}

/// The records of a vector, each by its view.
pub open spec fn packets_view(v: Seq<PcapPacket>) -> Seq<SpecPcapPacket> {
    v.map_values(|p: PcapPacket| p@)
}

impl View for Pcap {
    type V = SpecPcap;

    open spec fn view(&self) -> SpecPcap {
        SpecPcap {
            magic: self.magic@,
            version_major: self.version_major@,
            version_minor: self.version_minor@,
            thiszone: self.thiszone@,
            sigfigs: self.sigfigs@,
            snaplen: self.snaplen@,
            network: self.network@,
            packets: packets_view(self.packets@),
            trailer: self.trailer@,
        }
    }
}

/// The length of the record at the start of `s`, where a whole record stands
/// there: its 16 header bytes and the `incl_len` bytes of data.
pub open spec fn spec_packet_len(s: Seq<u8>) -> Option<int> {
    if s.len() < 16 {
        None
    } else if 16 + le_value(s.subrange(8, 12)) <= s.len() {
        Some(16 + le_value(s.subrange(8, 12)) as int)
    } else {
        None
    }
}

/// The record at the start of `s` (meaningful where `spec_packet_len(s)` is some).
pub open spec fn spec_parse_packet(s: Seq<u8>) -> SpecPcapPacket {
    SpecPcapPacket {
        ts_sec: s.subrange(0, 4),
        ts_usec: s.subrange(4, 8),
        incl_len: s.subrange(8, 12),
        orig_len: s.subrange(12, 16),
        pcap_body: s.subrange(16, 16 + le_value(s.subrange(8, 12)) as int),
    }
}

/// The records that follow one another from the start of `s`, as many as
/// fit, and the bytes after the last of them.
pub open spec fn spec_parse_packets(s: Seq<u8>) -> (Seq<SpecPcapPacket>, Seq<u8>)
    decreases s.len(),
{
    match spec_packet_len(s) {
        None => (Seq::empty(), s),
        Some(k) => {
            let (ps, t) = spec_parse_packets(s.subrange(k, s.len() as int));
            (seq![spec_parse_packet(s)] + ps, t)
        },
    }
}

/// The capture file that `s` holds, if it holds one.
pub open spec fn spec_parse_pcap(s: Seq<u8>) -> Option<SpecPcap> {
    if s.len() < 24 || s.subrange(0, 4) != pcap_magic() || s.subrange(4, 6) != pcap_version_major() {
        None
    } else {
        let (ps, t) = spec_parse_packets(s.subrange(24, s.len() as int));
        Some(
            SpecPcap {
                magic: s.subrange(0, 4),
                version_major: s.subrange(4, 6),
                version_minor: s.subrange(6, 8),
                thiszone: s.subrange(8, 12),
                sigfigs: s.subrange(12, 16),
                snaplen: s.subrange(16, 20),
                network: s.subrange(20, 24),
                packets: ps,
                trailer: t,
            },
        )
    }
}

/// The bytes of a record.
pub open spec fn spec_packet_bytes(p: SpecPcapPacket) -> Seq<u8> {
    p.ts_sec + p.ts_usec + p.incl_len + p.orig_len + p.pcap_body
}

/// The bytes of a sequence of records, one after another.
pub open spec fn spec_packets_bytes(ps: Seq<SpecPcapPacket>) -> Seq<u8> {
    ps.map_values(|p: SpecPcapPacket| spec_packet_bytes(p)).flatten()
}

/// The bytes of the file header.
pub open spec fn spec_pcap_header_bytes(f: SpecPcap) -> Seq<u8> {
    f.magic + f.version_major + f.version_minor + f.thiszone + f.sigfigs + f.snaplen + f.network
}

/// The bytes of a capture file.
pub open spec fn spec_pcap_bytes(f: SpecPcap) -> Seq<u8> {
    spec_pcap_header_bytes(f) + spec_packets_bytes(f.packets) + f.trailer
}

/// The length of the record at the start of `s`, if a whole one stands there.
fn packet_len(s: &[u8]) -> (r: Option<usize>)
    ensures
        r matches Some(k) ==> spec_packet_len(s@) == Some(k as int),
        r is None ==> spec_packet_len(s@) is None,
{
    if s.len() < 16 {
        return None;
    }
    let (after, _) = split_off(s, 8);
    let (_, incl_len) = split_off(after, 4);
    assert(incl_len@ =~= s@.subrange(8, 12));
    let n = le_u32_value(incl_len.as_slice());
    if n > s.len() - 16 {
        None
    } else {
        Some(16 + n)
    }
}

/// Cuts the record that starts `s` off it.
fn parse_pcap_packet<'a>(s: &'a [u8], k: usize) -> (r: (PcapPacket, &'a [u8]))
    requires
        spec_packet_len(s@) == Some(k as int),
    ensures
        r.0@ == spec_parse_packet(s@),
        r.1@ == s@.subrange(k as int, s@.len() as int),
{
    let (rest, ts_sec) = split_off(s, 4);
    let (rest, ts_usec) = split_off(rest, 4);
    let (rest, incl_len) = split_off(rest, 4);
    let (rest, orig_len) = split_off(rest, 4);
    assert(incl_len@ =~= s@.subrange(8, 12));
    let n = le_u32_value(incl_len.as_slice());
    let (rest, pcap_body) = body_decode_callbackfn(rest, Some(n)).unwrap();
    let p = PcapPacket { ts_sec, ts_usec, incl_len, orig_len, pcap_body };
    assert(p@ =~= spec_parse_packet(s@));
    assert(rest@ =~= s@.subrange(k as int, s@.len() as int));
    (p, rest)
}

/// Cuts off the start of `input` as many records as follow one another there.
fn parse_pcap_packets<'a>(input: &'a [u8]) -> (r: (Vec<PcapPacket>, &'a [u8]))
    ensures
        spec_parse_packets(input@) == (packets_view(r.0@), r.1@),
{
    let ghost body = input@;
    let rest = input;
    let mut packets: Vec<PcapPacket> = Vec::new();
    let mut rest = rest;
    loop
        invariant
            spec_parse_packets(body) == (
                packets_view(packets@) + spec_parse_packets(rest@).0,
                spec_parse_packets(rest@).1,
            ),
        ensures
            spec_parse_packets(body) == (packets_view(packets@), rest@),
        decreases rest@.len(),
    {
        match packet_len(rest) {
            None => {
                assert(packets_view(packets@) + Seq::<SpecPcapPacket>::empty() =~= packets_view(
                    packets@,
                ));
                break ;
            },
            Some(k) => {
                let ghost before = packets_view(packets@);
                let ghost old_rest = rest@;
                let (p, after) = parse_pcap_packet(rest, k);
                packets.push(p);
                rest = after;
                assert(packets_view(packets@) =~= before.push(p@));
                assert(before + spec_parse_packets(old_rest).0 =~= packets_view(packets@)
                    + spec_parse_packets(rest@).0);
            },
        }
    }
    (packets, rest)
}

/// Parses a capture file.
pub fn parse_pcap(input: &[u8]) -> (r: Option<Pcap>)
    ensures
        spec_parse_pcap(input@) matches Some(f) ==> r matches Some(g) && g@ == f,
        spec_parse_pcap(input@) is None ==> r is None,
{
    if input.len() < 24 {
        return None;
    }
    let (rest, magic) = split_off(input, 4);
    let (rest, version_major) = split_off(rest, 2);
    if magic[0] != 0xd4 || magic[1] != 0xc3 || magic[2] != 0xb2 || magic[3] != 0xa1 {
        assert(magic@ != pcap_magic()) by {
            if magic@ == pcap_magic() {
                assert(magic@[0] == pcap_magic()[0]);
            }
        }
        return None;
    }
    assert(magic@ =~= pcap_magic());
    assert(version_major@ =~= input@.subrange(4, 6));
    if version_major[0] != 0x02 || version_major[1] != 0x00 {
        assert(version_major@ != pcap_version_major()) by {
            if version_major@ == pcap_version_major() {
                assert(version_major@[0] == pcap_version_major()[0]);
            }
        }
        return None;
    }
    assert(version_major@ =~= pcap_version_major());
    let (rest, version_minor) = split_off(rest, 2);
    let (rest, thiszone) = split_off(rest, 4);
    let (rest, sigfigs) = split_off(rest, 4);
    let (rest, snaplen) = split_off(rest, 4);
    let (rest, network) = split_off(rest, 4);
    let ghost body = input@.subrange(24, input@.len() as int);
    assert(rest@ =~= body);
    assert(version_minor@ =~= input@.subrange(6, 8));
    assert(thiszone@ =~= input@.subrange(8, 12));
    assert(sigfigs@ =~= input@.subrange(12, 16));
    assert(snaplen@ =~= input@.subrange(16, 20));
    assert(network@ =~= input@.subrange(20, 24));
    let (packets, rest) = parse_pcap_packets(rest);
    let f = Pcap {
        magic,
        version_major,
        version_minor,
        thiszone,
        sigfigs,
        snaplen,
        network,
        packets,
        trailer: slice_to_vec(rest),
    };
    assert(f@ =~= spec_parse_pcap(input@).unwrap());
    Some(f)
}

impl PcapPacket {
    /// The bytes of the record.
    pub fn to_bytes(&self) -> (r: Vec<u8>)
        ensures
            r@ == spec_packet_bytes(self@),
    {
        let mut out = self.ts_sec.clone();
        out.extend_from_slice(self.ts_usec.as_slice());
        out.extend_from_slice(self.incl_len.as_slice());
        out.extend_from_slice(self.orig_len.as_slice());
        out.extend_from_slice(self.pcap_body.as_slice());
        out
    }
}

impl Pcap {
    /// The bytes of the capture file.
    pub fn to_bytes(&self) -> (r: Vec<u8>)
        ensures
            r@ == spec_pcap_bytes(self@),
    {
        let mut out = self.magic.clone();
        out.extend_from_slice(self.version_major.as_slice());
        out.extend_from_slice(self.version_minor.as_slice());
        out.extend_from_slice(self.thiszone.as_slice());
        out.extend_from_slice(self.sigfigs.as_slice());
        out.extend_from_slice(self.snaplen.as_slice());
        out.extend_from_slice(self.network.as_slice());
        let ghost header = out@;
        assert(header == spec_pcap_header_bytes(self@));
        let ghost ps = packets_view(self.packets@);
        let mut i: usize = 0;
        while i < self.packets.len()
            invariant
                i <= self.packets@.len(),
                ps == packets_view(self.packets@),
                header == spec_pcap_header_bytes(self@),
                out@ == header + spec_packets_bytes(ps.take(i as int)),
            decreases self.packets@.len() - i,
        {
            let b = self.packets[i].to_bytes();
            out.extend_from_slice(b.as_slice());
            assert(ps.take(i + 1).map_values(|p: SpecPcapPacket| spec_packet_bytes(p))
                =~= ps.take(i as int).map_values(|p: SpecPcapPacket| spec_packet_bytes(p)).push(
                spec_packet_bytes(ps[i as int]),
            ));
            i = i + 1;
        }
        assert(ps.take(i as int) =~= ps);
        out.extend_from_slice(self.trailer.as_slice());
        out
    }
}

/// The records and trailer parsed from `s` give back exactly `s`.
pub proof fn lemma_packets_parse_bytes(s: Seq<u8>)
    ensures
        spec_packets_bytes(spec_parse_packets(s).0) + spec_parse_packets(s).1 == s,
    decreases s.len(),
{
    match spec_packet_len(s) {
        None => {
            assert(spec_packets_bytes(Seq::<SpecPcapPacket>::empty()) =~= Seq::<u8>::empty());
            assert(Seq::<u8>::empty() + s =~= s);
        },
        Some(k) => {
            let rest = s.subrange(k, s.len() as int);
            lemma_packets_parse_bytes(rest);
            let (ps, t) = spec_parse_packets(rest);
            let p = spec_parse_packet(s);
            let all = seq![p] + ps;
            let f = |q: SpecPcapPacket| spec_packet_bytes(q);
            assert(all.map_values(f).drop_first() =~= ps.map_values(f));
            assert(spec_packet_bytes(p) =~= s.subrange(0, k));
            assert(spec_packets_bytes(all) == spec_packet_bytes(p) + spec_packets_bytes(ps));
            assert(spec_packets_bytes(all) + t =~= spec_packet_bytes(p) + (spec_packets_bytes(ps)
                + t));
            assert(s.subrange(0, k) + rest =~= s);
        },
    }
}

/// A parsed capture file gives back exactly the bytes it was parsed from.
pub proof fn lemma_pcap_parse_bytes(s: Seq<u8>)
    requires
        spec_parse_pcap(s) is Some,
    ensures
        spec_pcap_bytes(spec_parse_pcap(s).unwrap()) == s,
{
    let body = s.subrange(24, s.len() as int);
    lemma_packets_parse_bytes(body);
    let f = spec_parse_pcap(s).unwrap();
    assert(spec_pcap_header_bytes(f) =~= s.subrange(0, 24));
    assert(spec_pcap_bytes(f) =~= spec_pcap_header_bytes(f) + (spec_packets_bytes(f.packets)
        + f.trailer));
    assert(s.subrange(0, 24) + body =~= s);
}

/// A record is well formed when its fields have the lengths that the format
/// gives them.
pub open spec fn wf_packet(p: SpecPcapPacket) -> bool {
    &&& p.ts_sec.len() == 4
    &&& p.ts_usec.len() == 4
    &&& p.incl_len.len() == 4
    &&& p.orig_len.len() == 4
    &&& p.pcap_body.len() == le_value(p.incl_len)
}

/// A capture file is well formed when its header holds the magic number, the
/// accepted major version and fields of the right lengths, its records are
/// well formed, and no whole record stands at the start of its trailer.
pub open spec fn wf_pcap(f: SpecPcap) -> bool {
    &&& f.magic == pcap_magic()
    &&& f.version_major == pcap_version_major()
    &&& f.version_minor.len() == 2
    &&& f.thiszone.len() == 4
    &&& f.sigfigs.len() == 4
    &&& f.snaplen.len() == 4
    &&& f.network.len() == 4
    &&& forall|i: int| 0 <= i < f.packets.len() ==> wf_packet(#[trigger] f.packets[i])
    &&& spec_packet_len(f.trailer) is None
}

/// Well-formed records followed by a trailer that holds no whole record at
/// its start parse back from their bytes to themselves.
pub proof fn lemma_packets_bytes_parse(ps: Seq<SpecPcapPacket>, t: Seq<u8>)
    requires
        forall|i: int| 0 <= i < ps.len() ==> wf_packet(#[trigger] ps[i]),
        spec_packet_len(t) is None,
    ensures
        spec_parse_packets(spec_packets_bytes(ps) + t) == (ps, t),
    decreases ps.len(),
{
    let f = |q: SpecPcapPacket| spec_packet_bytes(q);
    let s = spec_packets_bytes(ps) + t;
    if ps.len() == 0 {
        assert(ps.map_values(f) =~= Seq::<Seq<u8>>::empty());
        assert(s =~= t);
        assert(ps =~= Seq::<SpecPcapPacket>::empty());
    } else {
        let p = ps[0];
        let rest = ps.drop_first();
        assert forall|i: int| 0 <= i < rest.len() implies wf_packet(#[trigger] rest[i]) by {
            assert(rest[i] == ps[i + 1]);
        }
        lemma_packets_bytes_parse(rest, t);
        assert(ps.map_values(f).drop_first() =~= rest.map_values(f));
        assert(spec_packets_bytes(ps) == spec_packet_bytes(p) + spec_packets_bytes(rest));
        let b = spec_packet_bytes(p);
        assert(wf_packet(p));
        assert(s =~= b + (spec_packets_bytes(rest) + t));
        assert(s.subrange(8, 12) =~= p.incl_len);
        assert(spec_packet_len(s) == Some(b.len() as int));
        assert(spec_parse_packet(s) =~= p);
        assert(s.subrange(b.len() as int, s.len() as int) =~= spec_packets_bytes(rest) + t);
        assert(seq![p] + rest =~= ps);
    }
}

/// A well-formed capture file parses back from its bytes to itself.
pub proof fn lemma_pcap_bytes_parse(f: SpecPcap)
    requires
        wf_pcap(f),
    ensures
        spec_parse_pcap(spec_pcap_bytes(f)) == Some(f),
{
    let s = spec_pcap_bytes(f);
    let h = spec_pcap_header_bytes(f);
    lemma_packets_bytes_parse(f.packets, f.trailer);
    assert(s =~= h + (spec_packets_bytes(f.packets) + f.trailer));
    assert(s.subrange(0, 4) =~= f.magic);
    assert(s.subrange(4, 6) =~= f.version_major);
    assert(s.subrange(24, s.len() as int) =~= spec_packets_bytes(f.packets) + f.trailer);
    assert(spec_parse_pcap(s).unwrap() =~= f);
}

/// The value of a four-byte little-endian field, byte by byte.
pub open spec fn le4(b: Seq<u8>) -> int {
    (b[0] as int) + (b[1] as int) * 0x100 + (b[2] as int) * 0x10000 + (b[3] as int) * 0x1000000
}

/// The records read from `s` each have 4-byte time, length and original
/// length fields and as many data bytes as their `incl_len` field gives,
/// little-endian; what is left is too short for the 16-byte record header, or
/// shorter than the record its header announces.
pub proof fn lemma_packets_layout(s: Seq<u8>)
    ensures
        forall|i: int|
            0 <= i < spec_parse_packets(s).0.len() ==> {
                &&& (#[trigger] spec_parse_packets(s).0[i]).ts_sec.len() == 4
                &&& spec_parse_packets(s).0[i].ts_usec.len() == 4
                &&& spec_parse_packets(s).0[i].incl_len.len() == 4
                &&& spec_parse_packets(s).0[i].orig_len.len() == 4
                &&& spec_parse_packets(s).0[i].pcap_body.len() == le4(
                    spec_parse_packets(s).0[i].incl_len,
                )
            },
        spec_parse_packets(s).1.len() < 16 || spec_parse_packets(s).1.len() < 16 + le4(
            spec_parse_packets(s).1.subrange(8, 12),
        ),
    decreases s.len(),
{
    match spec_packet_len(s) {
        None => {
            if s.len() >= 16 {
                lemma_le_value_4(s.subrange(8, 12));
            }
        },
        Some(k) => {
            let rest = s.subrange(k, s.len() as int);
            lemma_packets_layout(rest);
            lemma_le_value_4(s.subrange(8, 12));
            let ps = spec_parse_packets(s).0;
            let tail = spec_parse_packets(rest).0;
            assert forall|i: int| 0 < i < ps.len() implies ps[i] == tail[i - 1] by {}
            assert(ps[0] == spec_parse_packet(s));
        },
    }
}

/// Where a capture file is read from `s`, and exactly where: `s` has at
/// least 24 bytes and opens with d4 c3 b2 a1 02 00. Its records and trailer
/// are then laid out as `lemma_packets_layout` says, from byte 24 on.
pub proof fn lemma_pcap_layout(s: Seq<u8>)
    ensures
        spec_parse_pcap(s) is Some <==> {
            &&& s.len() >= 24
            &&& s[0] == 0xd4 && s[1] == 0xc3 && s[2] == 0xb2 && s[3] == 0xa1
            &&& s[4] == 0x02 && s[5] == 0x00
        },
        spec_parse_pcap(s) matches Some(f) ==> {
            &&& f.network == s.subrange(20, 24)
            &&& f.snaplen == s.subrange(16, 20)
            &&& (f.packets, f.trailer) == spec_parse_packets(s.subrange(24, s.len() as int))
        },
{
    if s.len() >= 24 {
        let m = s.subrange(0, 4);
        let v = s.subrange(4, 6);
        if s[0] == 0xd4 && s[1] == 0xc3 && s[2] == 0xb2 && s[3] == 0xa1 {
            assert(m =~= pcap_magic());
        } else {
            assert(m != pcap_magic()) by {
                if m == pcap_magic() {
                    assert(m[0] == pcap_magic()[0] && m[1] == pcap_magic()[1]);
                    assert(m[2] == pcap_magic()[2] && m[3] == pcap_magic()[3]);
                }
            }
        }
        if s[4] == 0x02 && s[5] == 0x00 {
            assert(v =~= pcap_version_major());
        } else {
            assert(v != pcap_version_major()) by {
                if v == pcap_version_major() {
                    assert(v[0] == pcap_version_major()[0] && v[1] == pcap_version_major()[1]);
                }
            }
        }
    }
}

} // verus!
