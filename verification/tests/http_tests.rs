use pang_formats::helper::DecodeError;
use pang_formats::http::{
    find_colon_decode_callback, find_crlf_decode_callback, find_crlf_offset_0_decode_callback,
    find_crlfx2_decode_callback, parse_http_message, FieldLine, HttpMessage,
};

#[test]
fn test_http_grammar() {
    let mut http_message = b"POST /users HTTP/1.1\r\n".to_vec();
    http_message.extend_from_slice(b"Host: example.com\r\n");
    http_message.extend_from_slice(b"Content-Type: application/x-www-form-urlencoded\r\n");
    http_message.extend_from_slice(b"Content-Length: 49\r\n");
    http_message.extend_from_slice(b"\r\n");
    http_message.extend_from_slice(b"name=FirstName+LastName&email=bsmth%40example.com");
    let tree = parse_http_message(&http_message).unwrap();
    assert_eq!(&tree.to_bytes(), &http_message);
}

#[test]
fn http_message_parts() {
    let msg = b"GET / HTTP/1.1\r\nHost: a\r\nX-Y:z\r\n\r\nbody: still\r\nbody";
    let m = parse_http_message(msg).unwrap();
    assert_eq!(m.start_line, b"GET / HTTP/1.1\r\n".to_vec());
    assert_eq!(m.field_lines.len(), 2);
    assert_eq!(m.field_lines[0].field_name, b"Host".to_vec());
    assert_eq!(m.field_lines[0].field_value, b" a".to_vec());
    assert_eq!(m.field_lines[1].field_name, b"X-Y".to_vec());
    assert_eq!(m.field_lines[1].field_value, b"z".to_vec());
    assert_eq!(m.message_body, b"body: still\r\nbody".to_vec());
    assert_eq!(m.to_bytes(), msg.to_vec());
}

#[test]
fn http_message_without_fields() {
    let m = parse_http_message(b"HTTP/1.1 204 No Content\r\n\r\n").unwrap();
    assert!(m.field_lines.is_empty());
    assert!(m.message_body.is_empty());
}

#[test]
fn http_message_rejected() {
    assert!(parse_http_message(b"no line end at all").is_none());
    assert!(parse_http_message(b"GET / HTTP/1.1\r\nHost example\r\n\r\n").is_none());
    assert!(parse_http_message(b"GET / HTTP/1.1\r\nHost: example").is_none());
}

#[test]
fn http_callbacks() {
    let (rest, taken) = find_crlf_decode_callback(b"a\r\nb").unwrap();
    assert_eq!(taken, b"a\r\n".to_vec());
    assert_eq!(rest, b"b");
    let (rest, taken) = find_crlf_offset_0_decode_callback(b"a\r\nb").unwrap();
    assert_eq!(taken, b"a".to_vec());
    assert_eq!(rest, b"\r\nb");
    let (rest, taken) = find_crlfx2_decode_callback(b"a\r\nb\r\n\r\nc").unwrap();
    assert_eq!(taken, b"a\r\nb\r\n".to_vec());
    assert_eq!(rest, b"\r\nc");
    let (rest, taken) = find_colon_decode_callback(b"k:v").unwrap();
    assert_eq!(taken, b"k".to_vec());
    assert_eq!(rest, b":v");
    assert_eq!(find_colon_decode_callback(b"kv"), Err(DecodeError::SymbolNotFound));
    assert_eq!(find_crlfx2_decode_callback(b"a\r\nb\r\n"), Err(DecodeError::SymbolNotFound));
}

#[test]
fn http_roundtrip_from_parts() {
    let m = HttpMessage {
        start_line: b"GET /x HTTP/1.1\r\n".to_vec(),
        field_lines: vec![FieldLine { field_name: b"Accept".to_vec(), field_value: b" */*".to_vec() }],
        message_body: b"a:b\r\n".to_vec(),
    };
    let bytes = m.to_bytes();
    assert_eq!(bytes, b"GET /x HTTP/1.1\r\nAccept: */*\r\n\r\na:b\r\n".to_vec());
    let back = parse_http_message(&bytes).unwrap();
    assert_eq!(back.start_line, m.start_line);
    assert_eq!(back.field_lines.len(), 1);
    assert_eq!(back.field_lines[0].field_name, b"Accept".to_vec());
    assert_eq!(back.field_lines[0].field_value, b" */*".to_vec());
    assert_eq!(back.message_body, m.message_body);
}
