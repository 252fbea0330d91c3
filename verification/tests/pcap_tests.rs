use pang_formats::helper::DecodeError;
use pang_formats::pcap::{body_decode_callbackfn, parse_pcap};

fn header() -> Vec<u8> {
    vec![
        0xd4, 0xc3, 0xb2, 0xa1, // magic
        0x02, 0x00, 0x04, 0x00, // version 2.4
        0, 0, 0, 0, // thiszone
        0, 0, 0, 0, // sigfigs
        0xff, 0xff, 0, 0, // snaplen
        1, 0, 0, 0, // network: Ethernet
    ]
}

fn record(ts: u8, data: &[u8]) -> Vec<u8> {
    let mut r = vec![ts, 0, 0, 0, 0, 0, 0, 0];
    r.extend_from_slice(&(data.len() as u32).to_le_bytes());
    r.extend_from_slice(&(data.len() as u32).to_le_bytes());
    r.extend_from_slice(data);
    r
}

#[test]
fn test_pcap_lang() {
    let mut inp_data = header();
    inp_data.extend(record(1, &[0xaa, 0xbb]));
    let tree = parse_pcap(&inp_data).unwrap();
    assert_eq!(tree.to_bytes(), inp_data);
}

#[test]
fn pcap_with_two_records() {
    let mut input = header();
    input.extend(record(1, &[0xaa, 0xbb, 0xcc]));
    input.extend(record(2, &[0x11]));
    let cap = parse_pcap(&input).unwrap();
    assert_eq!(cap.network, vec![1, 0, 0, 0]);
    assert_eq!(cap.packets.len(), 2);
    assert_eq!(cap.packets[0].ts_sec, vec![1, 0, 0, 0]);
    assert_eq!(cap.packets[0].incl_len, vec![3, 0, 0, 0]);
    assert_eq!(cap.packets[0].pcap_body, vec![0xaa, 0xbb, 0xcc]);
    assert_eq!(cap.packets[1].pcap_body, vec![0x11]);
    assert!(cap.trailer.is_empty());
    assert_eq!(cap.to_bytes(), input);
}

#[test]
fn pcap_with_trailer() {
    let mut input = header();
    input.extend(record(1, &[0xaa]));
    // A record header whose incl_len runs past the end.
    input.extend_from_slice(&[0, 0, 0, 0, 0, 0, 0, 0, 9, 0, 0, 0, 9, 0, 0, 0, 1, 2]);
    let cap = parse_pcap(&input).unwrap();
    assert_eq!(cap.packets.len(), 1);
    assert_eq!(cap.trailer.len(), 18);
    assert_eq!(cap.to_bytes(), input);
}

#[test]
fn pcap_header_only() {
    let cap = parse_pcap(&header()).unwrap();
    assert!(cap.packets.is_empty());
    assert!(cap.trailer.is_empty());
}

#[test]
fn pcap_rejected() {
    let mut bad_magic = header();
    bad_magic[0] = 0xa1;
    assert!(parse_pcap(&bad_magic).is_none());
    let mut bad_version = header();
    bad_version[4] = 0x03;
    assert!(parse_pcap(&bad_version).is_none());
    assert!(parse_pcap(&header()[..23]).is_none());
}

#[test]
fn pcap_body_callback() {
    let (rest, taken) = body_decode_callbackfn(&[1, 2, 3], Some(2)).unwrap();
    assert_eq!(taken, vec![1, 2]);
    assert_eq!(rest, &[3]);
    assert_eq!(body_decode_callbackfn(&[1, 2, 3], None), Err(DecodeError::SymbolNotInContext));
}

#[test]
fn pcap_roundtrip_from_parts() {
    let mut input = header();
    input.extend(record(9, &[1, 2, 3, 4]));
    let cap = parse_pcap(&input).unwrap();
    let again = parse_pcap(&cap.to_bytes()).unwrap();
    assert_eq!(again.packets.len(), 1);
    assert_eq!(again.packets[0].ts_sec, vec![9, 0, 0, 0]);
    assert_eq!(again.packets[0].pcap_body, vec![1, 2, 3, 4]);
    assert!(again.trailer.is_empty());
}
