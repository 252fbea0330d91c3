use pang_formats::helper::DecodeError;
use pang_formats::ipv4::{
    body_decode_callbackfn, ipv4_option_body_decode_callbackfn, options_decode_callbackfn,
    parse_ipv4_full, parse_ipv4_less, Ipv4Options, Ipv4Packet,
};

/// A 28-byte packet: IHL 6 (24-byte header with 4 bytes of options) and a
/// 4-byte body.
fn packet_with_options() -> Vec<u8> {
    vec![
        0x46, 0x00, 0x00, 0x1c, // version/IHL, DSCP, total length 28
        0x12, 0x34, 0x40, 0x00, // identification, flags/fragment offset
        0x40, 0x06, 0xab, 0xcd, // ttl, protocol, checksum
        10, 0, 0, 1, // source
        10, 0, 0, 2, // destination
        0x94, 0x04, 0x00, 0x00, // option: router alert
        0xde, 0xad, 0xbe, 0xef, // body
    ]
}

#[test]
fn test_ipv4_lang_less() {
    let inp_data = packet_with_options();
    let tree = parse_ipv4_less(&inp_data).unwrap();
    assert_eq!(tree.to_bytes(), inp_data);
}

#[test]
fn test_ipv4_lang_full() {
    let inp_data = packet_with_options();
    let tree = parse_ipv4_full(&inp_data, None).unwrap();
    assert_eq!(tree.to_bytes(), inp_data);
}

#[test]
fn ipv4_less_packet() {
    let input = packet_with_options();
    let p = parse_ipv4_less(&input).unwrap();
    assert_eq!(p.b1, vec![0x46]);
    assert_eq!(p.total_length, vec![0x00, 0x1c]);
    assert_eq!(p.src_ip_addr, vec![10, 0, 0, 1]);
    assert_eq!(p.dst_ip_addr, vec![10, 0, 0, 2]);
    assert!(p.options.options.is_empty());
    assert_eq!(p.options.rest, vec![0x94, 0x04, 0x00, 0x00]);
    assert_eq!(p.ipv4_body, vec![0xde, 0xad, 0xbe, 0xef]);
    assert_eq!(p.to_bytes(), input);
}

#[test]
fn ipv4_full_without_context_keeps_options_raw() {
    let input = packet_with_options();
    let p = parse_ipv4_full(&input, None).unwrap();
    let q = parse_ipv4_less(&input).unwrap();
    assert_eq!(p.to_bytes(), q.to_bytes());
    assert_eq!(p.options.rest, q.options.rest);
    assert!(p.options.options.is_empty());
    assert_eq!(p.options.rest, vec![0x94, 0x04, 0x00, 0x00]);
    assert_eq!(p.to_bytes(), input);
}

#[test]
fn ipv4_full_reads_options() {
    let input = packet_with_options();
    let p = parse_ipv4_full(&input, Some(4)).unwrap();
    assert_eq!(p.options.options.len(), 1);
    assert_eq!(p.options.options[0].option_type, vec![0x94]);
    assert_eq!(p.options.options[0].ipv4_option_len, vec![0x04]);
    assert_eq!(p.options.options[0].ipv4_option_body, vec![0x00, 0x00]);
    assert!(p.options.rest.is_empty());
    assert_eq!(p.to_bytes(), input);
    let p = parse_ipv4_full(&input, Some(1)).unwrap();
    assert_eq!(p.options.options.len(), 2);
    assert!(p.options.rest.is_empty());
    let p = parse_ipv4_full(&input, Some(5)).unwrap();
    assert!(p.options.options.is_empty());
    assert_eq!(p.options.rest.len(), 4);
    let p = parse_ipv4_full(&input, Some(3)).unwrap();
    assert_eq!(p.options.options.len(), 1);
    assert_eq!(p.options.rest, vec![0x00]);
}

#[test]
fn ipv4_rejected() {
    let mut short_ihl = packet_with_options();
    short_ihl[0] = 0x44;
    assert!(parse_ipv4_less(&short_ihl).is_none());
    let mut long_total = packet_with_options();
    long_total[3] = 0x1d;
    assert!(parse_ipv4_less(&long_total).is_none());
    let mut trailing = packet_with_options();
    trailing.push(0);
    assert!(parse_ipv4_less(&trailing).is_none());
    assert!(parse_ipv4_less(&[0x45; 19]).is_none());
}

#[test]
fn ipv4_callbacks() {
    let data = [1u8, 2, 3, 4, 5, 6];
    let (rest, taken) = options_decode_callbackfn(&data, Some(0x46)).unwrap();
    assert_eq!(taken, vec![1, 2, 3, 4]);
    assert_eq!(rest, &[5, 6]);
    let (rest, taken) = options_decode_callbackfn(&data, Some(0x45)).unwrap();
    assert!(taken.is_empty());
    assert_eq!(rest, &data);
    let (rest, taken) = body_decode_callbackfn(&data, Some(25), Some(0x45)).unwrap();
    assert_eq!(taken, vec![1, 2, 3, 4, 5]);
    assert_eq!(rest, &[6]);
    let (rest, taken) = ipv4_option_body_decode_callbackfn(&data, Some(5)).unwrap();
    assert_eq!(taken, vec![1, 2, 3]);
    assert_eq!(rest, &[4, 5, 6]);
    let (rest, taken) = ipv4_option_body_decode_callbackfn(&data, Some(2)).unwrap();
    assert!(taken.is_empty());
    assert_eq!(rest, &data);
}

#[test]
fn ipv4_callbacks_without_context() {
    let data = [1u8, 2];
    assert_eq!(options_decode_callbackfn(&data, None), Err(DecodeError::SymbolNotInContext));
    assert_eq!(body_decode_callbackfn(&data, None, Some(0x45)), Err(DecodeError::SymbolNotInContext));
    assert_eq!(body_decode_callbackfn(&data, Some(20), None), Err(DecodeError::SymbolNotInContext));
    assert_eq!(
        ipv4_option_body_decode_callbackfn(&data, None),
        Err(DecodeError::SymbolNotInContext)
    );
}

#[test]
fn ipv4_roundtrip_from_parts() {
    let p = Ipv4Packet {
        b1: vec![0x45],
        b2: vec![0],
        total_length: vec![0, 22],
        identification: vec![0, 1],
        b67: vec![0, 0],
        ttl: vec![64],
        protocol: vec![17],
        header_checksum: vec![0, 0],
        src_ip_addr: vec![192, 168, 0, 1],
        dst_ip_addr: vec![192, 168, 0, 2],
        options: Ipv4Options { options: vec![], rest: vec![] },
        ipv4_body: vec![7, 8],
    };
    let bytes = p.to_bytes();
    assert_eq!(bytes.len(), 22);
    let back = parse_ipv4_less(&bytes).unwrap();
    assert_eq!(back.src_ip_addr, vec![192, 168, 0, 1]);
    assert_eq!(back.ipv4_body, vec![7, 8]);
    assert_eq!(back.to_bytes(), bytes);
}
