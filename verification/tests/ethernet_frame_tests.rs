use pang_formats::ethernet_frame::{
    ether_type_2_decode_callbackfn, parse_ethernet_frame, tci_decode_callbackfn,
};
use pang_formats::helper::DecodeError;

#[test]
fn test_ethernet_frame_grammar() {
    let input = &[
        0x0, 0x0, 0x0, 0x0, 0x0, 0x0, // dst_mac
        0x0, 0x0, 0x0, 0x0, 0x0, 0x0, // src_mac
        0x8, 0x0, // ether_type_1
        0xFF, 0xFF, // body
    ];
    let frame = parse_ethernet_frame(input).unwrap();
    assert_eq!(frame.ether_type_1, vec![0x8, 0x0]);
    assert!(frame.tci.is_empty());
    assert!(frame.ether_type_2.is_empty());
    assert_eq!(frame.ethernet_body, vec![0xFF, 0xFF]);
    assert_eq!(frame.to_bytes(), input.to_vec());
}

#[test]
fn ethernet_frame_with_vlan_tag() {
    let input = [
        1, 2, 3, 4, 5, 6, // dst_mac
        7, 8, 9, 10, 11, 12, // src_mac
        0x81, 0x00, // ether_type_1: 802.1Q
        0x00, 0x64, // tci
        0x08, 0x00, // ether_type_2
        0xAB, // body
    ];
    let frame = parse_ethernet_frame(&input).unwrap();
    assert_eq!(frame.dst_mac, vec![1, 2, 3, 4, 5, 6]);
    assert_eq!(frame.src_mac, vec![7, 8, 9, 10, 11, 12]);
    assert_eq!(frame.tci, vec![0x00, 0x64]);
    assert_eq!(frame.ether_type_2, vec![0x08, 0x00]);
    assert_eq!(frame.ethernet_body, vec![0xAB]);
    assert_eq!(frame.to_bytes(), input.to_vec());
}

#[test]
fn ethernet_frame_too_short() {
    assert!(parse_ethernet_frame(&[0u8; 13]).is_none());
    let tagged_short = [0, 0, 0, 0, 0, 0, 0, 0, 0, 0, 0, 0, 0x81, 0x00, 0x00, 0x64, 0x08];
    assert!(parse_ethernet_frame(&tagged_short).is_none());
}

#[test]
fn tci_callback_cuts_two_bytes_after_tpid() {
    let (rest, taken) = tci_decode_callbackfn(&[1, 2, 3], Some(0x8100)).unwrap();
    assert_eq!(taken, vec![1, 2]);
    assert_eq!(rest, &[3]);
    let (rest, taken) = tci_decode_callbackfn(&[1, 2, 3], Some(0x0800)).unwrap();
    assert!(taken.is_empty());
    assert_eq!(rest, &[1, 2, 3]);
}

#[test]
fn ether_type_2_callback_cuts_two_bytes_after_tpid() {
    let (rest, taken) = ether_type_2_decode_callbackfn(&[8, 0, 9], Some(0x8100)).unwrap();
    assert_eq!(taken, vec![8, 0]);
    assert_eq!(rest, &[9]);
    let (rest, taken) = ether_type_2_decode_callbackfn(&[8, 0, 9], Some(0x86dd)).unwrap();
    assert!(taken.is_empty());
    assert_eq!(rest, &[8, 0, 9]);
}

#[test]
fn ethernet_callbacks_without_context() {
    assert_eq!(tci_decode_callbackfn(&[1, 2], None), Err(DecodeError::SymbolNotInContext));
    assert_eq!(
        ether_type_2_decode_callbackfn(&[1, 2], None),
        Err(DecodeError::SymbolNotInContext)
    );
}
