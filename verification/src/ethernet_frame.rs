//! Ethernet frames: two MAC addresses, an EtherType, and, after an IEEE
//! 802.1Q tag protocol identifier (0x8100), a tag control field and a second
//! EtherType; the rest of the frame is its body.

use vstd::prelude::*;
use crate::fields::{be_value, be_u16_value, split_off};
use vstd::slice::slice_to_vec;
use crate::helper::{DecodeError, is_cut, is_failure};

verus! {

/// The length of the `tci` and of the `ether_type_2` field after an
/// `ether_type_1` of value `ether_type_1`: two bytes after the 802.1Q tag
/// protocol identifier, none otherwise.
pub open spec fn vlan_field_len(ether_type_1: int) -> int {
    if ether_type_1 == 0x8100 {
        2
    } else {
        0
    }
}

/// Cuts the `tci` field off `input`, given the value of `ether_type_1` in the
/// context (`None` where the context lacks it).
pub fn tci_decode_callbackfn<'a>(input: &'a [u8], ether_type_1: Option<usize>) -> (r: Result<
    (&'a [u8], Vec<u8>),
    DecodeError,
>)
    requires
        ether_type_1 matches Some(v) ==> vlan_field_len(v as int) <= input@.len(),
    ensures
        ether_type_1 is None ==> is_failure(r, DecodeError::SymbolNotInContext),
        ether_type_1 matches Some(v) ==> is_cut(r, input@, vlan_field_len(v as int)),
{
    match ether_type_1 {
        None => Err(DecodeError::SymbolNotInContext),
        Some(v) => {
            let n: usize = if v == 0x8100 {
                2
            } else {
                0
            };
            Ok(split_off(input, n))
        },
    }
}

/// Cuts the `ether_type_2` field off `input`, given the value of
/// `ether_type_1` in the context (`None` where the context lacks it).
pub fn ether_type_2_decode_callbackfn<'a>(input: &'a [u8], ether_type_1: Option<usize>) -> (r:
    Result<(&'a [u8], Vec<u8>), DecodeError>)
    requires
        ether_type_1 matches Some(v) ==> vlan_field_len(v as int) <= input@.len(),
    ensures
        ether_type_1 is None ==> is_failure(r, DecodeError::SymbolNotInContext),
        ether_type_1 matches Some(v) ==> is_cut(r, input@, vlan_field_len(v as int)),
{
    match ether_type_1 {
        None => Err(DecodeError::SymbolNotInContext),
        Some(v) => {
            let n: usize = if v == 0x8100 {
                2
            } else {
                0
            };
            Ok(split_off(input, n))
        },
    }
}

/// An Ethernet frame, field by field.
pub struct EthernetFrame {
    pub dst_mac: Vec<u8>,
    pub src_mac: Vec<u8>,
    pub ether_type_1: Vec<u8>,
    pub tci: Vec<u8>,
    pub ether_type_2: Vec<u8>,
    pub ethernet_body: Vec<u8>,
}

/// The bytes of each field of an Ethernet frame.
#[verifier::ext_equal]
pub struct SpecEthernetFrame {
    pub dst_mac: Seq<u8>,
    pub src_mac: Seq<u8>,
    pub ether_type_1: Seq<u8>,
    pub tci: Seq<u8>,
    pub ether_type_2: Seq<u8>,
    pub ethernet_body: Seq<u8>,
}

impl View for EthernetFrame {
    type V = SpecEthernetFrame;

    open spec fn view(&self) -> SpecEthernetFrame {
        SpecEthernetFrame {
            dst_mac: self.dst_mac@,
            src_mac: self.src_mac@,
            ether_type_1: self.ether_type_1@,
            tci: self.tci@,
            ether_type_2: self.ether_type_2@,
            ethernet_body: self.ethernet_body@,
        }
    }
}

/// The frame that `s` holds, if it holds one: 6 bytes of destination and 6
/// of source address, a 2-byte EtherType, the 802.1Q fields that it calls
/// for, and the rest as the body.
pub open spec fn spec_parse_ethernet_frame(s: Seq<u8>) -> Option<SpecEthernetFrame> {
    if s.len() < 14 {
        None
    } else {
        let t = vlan_field_len(be_value(s.subrange(12, 14)) as int);
        if s.len() < 14 + 2 * t {
            None
        } else {
            Some(
                SpecEthernetFrame {
                    dst_mac: s.subrange(0, 6),
                    src_mac: s.subrange(6, 12),
                    ether_type_1: s.subrange(12, 14),
                    tci: s.subrange(14, 14 + t),
                    ether_type_2: s.subrange(14 + t, 14 + 2 * t),
                    ethernet_body: s.subrange(14 + 2 * t, s.len() as int),
                },
            )
        }
    }
}

/// The bytes of a frame: its fields in order.
pub open spec fn spec_ethernet_frame_bytes(f: SpecEthernetFrame) -> Seq<u8> {
    f.dst_mac + f.src_mac + f.ether_type_1 + f.tci + f.ether_type_2 + f.ethernet_body
}

/// A frame is well formed when each field has the length that the format
/// gives it.
pub open spec fn wf_ethernet_frame(f: SpecEthernetFrame) -> bool {
    &&& f.dst_mac.len() == 6
    &&& f.src_mac.len() == 6
    &&& f.ether_type_1.len() == 2
    &&& f.tci.len() == vlan_field_len(be_value(f.ether_type_1) as int)
    &&& f.ether_type_2.len() == vlan_field_len(be_value(f.ether_type_1) as int)
}

/// Parses an Ethernet frame.
pub fn parse_ethernet_frame(input: &[u8]) -> (r: Option<EthernetFrame>)
    ensures
        spec_parse_ethernet_frame(input@) matches Some(f) ==> r matches Some(g) && g@ == f,
        spec_parse_ethernet_frame(input@) is None ==> r is None,
{
    if input.len() < 14 {
        return None;
    }
    let (rest, dst_mac) = split_off(input, 6);
    let (rest, src_mac) = split_off(rest, 6);
    let (rest, ether_type_1) = split_off(rest, 2);
    let et1 = be_u16_value(ether_type_1.as_slice());
    assert(ether_type_1@ == input@.subrange(12, 14));
    if et1 == 0x8100 && rest.len() < 4 {
        return None;
    }
    let (rest, tci) = tci_decode_callbackfn(rest, Some(et1)).unwrap();
    let (rest, ether_type_2) = ether_type_2_decode_callbackfn(rest, Some(et1)).unwrap();
    let ethernet_body = slice_to_vec(rest);
    let frame = EthernetFrame { dst_mac, src_mac, ether_type_1, tci, ether_type_2, ethernet_body };
    assert(frame@ =~= spec_parse_ethernet_frame(input@).unwrap());
    Some(frame)
}

impl EthernetFrame {
    /// The bytes of the frame.
    pub fn to_bytes(&self) -> (r: Vec<u8>)
        ensures
            r@ == spec_ethernet_frame_bytes(self@),
    {
        let mut out = self.dst_mac.clone();
        out.extend_from_slice(self.src_mac.as_slice());
        out.extend_from_slice(self.ether_type_1.as_slice());
        out.extend_from_slice(self.tci.as_slice());
        out.extend_from_slice(self.ether_type_2.as_slice());
        out.extend_from_slice(self.ethernet_body.as_slice());
        out
    }
}

/// A parsed frame gives back, field by field, exactly the bytes it was
/// parsed from.
pub proof fn lemma_ethernet_frame_parse_bytes(s: Seq<u8>)
    requires
        spec_parse_ethernet_frame(s) is Some,
    ensures
        spec_ethernet_frame_bytes(spec_parse_ethernet_frame(s).unwrap()) == s,
        wf_ethernet_frame(spec_parse_ethernet_frame(s).unwrap()),
{
    assert(spec_ethernet_frame_bytes(spec_parse_ethernet_frame(s).unwrap()) =~= s);
}

/// A well-formed frame parses back from its bytes to itself.
pub proof fn lemma_ethernet_frame_bytes_parse(f: SpecEthernetFrame)
    requires
        wf_ethernet_frame(f),
    ensures
        spec_parse_ethernet_frame(spec_ethernet_frame_bytes(f)) == Some(f),
{
    let s = spec_ethernet_frame_bytes(f);
    assert(s.subrange(12, 14) =~= f.ether_type_1);
    let t = vlan_field_len(be_value(f.ether_type_1) as int);
    assert(spec_parse_ethernet_frame(s).unwrap() =~= f);
}

/// The 802.1Q fields are two bytes each after the tag protocol identifier
/// 0x8100 and absent after any other EtherType.
pub proof fn lemma_vlan_field_len_value(v: int)
    ensures
        vlan_field_len(v) == 2 <==> v == 0x8100,
        v != 0x8100 ==> vlan_field_len(v) == 0,
{
}

/// Where a frame is read from `s`, and exactly where: `s` has at least 14
/// bytes, and at least 18 where bytes 12 and 13 are 0x81 0x00. After that tag
/// protocol identifier the tag control field is bytes 14..16, the second
/// EtherType bytes 16..18 and the body the rest; after any other EtherType both
/// are empty and the body starts at byte 14. The addresses are bytes 0..6 and
/// 6..12.
pub proof fn lemma_ethernet_frame_layout(s: Seq<u8>)
    ensures
        spec_parse_ethernet_frame(s) is Some <==> s.len() >= 14 && (s[12] == 0x81 && s[13] == 0
            ==> s.len() >= 18),
        spec_parse_ethernet_frame(s) matches Some(f) ==> {
            &&& f.dst_mac == s.subrange(0, 6)
            &&& f.src_mac == s.subrange(6, 12)
            &&& f.ether_type_1 == s.subrange(12, 14)
        },
        spec_parse_ethernet_frame(s) matches Some(f) ==> (s[12] == 0x81 && s[13] == 0) ==> {
            &&& f.tci == s.subrange(14, 16)
            &&& f.ether_type_2 == s.subrange(16, 18)
            &&& f.ethernet_body == s.subrange(18, s.len() as int)
        },
        spec_parse_ethernet_frame(s) matches Some(f) ==> !(s[12] == 0x81 && s[13] == 0) ==> {
            &&& f.tci.len() == 0
            &&& f.ether_type_2.len() == 0
            &&& f.ethernet_body == s.subrange(14, s.len() as int)
        },
{
    if s.len() >= 14 {
        reveal_with_fuel(be_value, 3);
        let t = s.subrange(12, 14);
        assert(t.drop_last().drop_last() =~= Seq::<u8>::empty());
        assert(t.drop_last() =~= seq![s[12]]);
        assert(be_value(t) == (s[12] as int) * 256 + (s[13] as int));
    }
}

} // verus!
