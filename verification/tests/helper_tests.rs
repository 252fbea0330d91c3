use pang_formats::helper::{find_symbol, find_symbol_with_offset, DecodeError};

#[test]
fn find_symbol_gives_first_occurrence() {
    assert_eq!(find_symbol(b"ab\r\ncd\r\n", b"\r\n"), Some(2));
    assert_eq!(find_symbol(b"aaaa", b"aa"), Some(0));
    assert_eq!(find_symbol(b"xyz:", b":"), Some(3));
}

#[test]
fn find_symbol_absent() {
    assert_eq!(find_symbol(b"abc", b"\r\n"), None);
    assert_eq!(find_symbol(b"", b":"), None);
    assert_eq!(find_symbol(b"a", b"abc"), None);
    assert_eq!(find_symbol(b"\r", b"\r\n"), None);
}

#[test]
fn find_symbol_with_offset_splits() {
    let (rest, taken) = find_symbol_with_offset(b"GET / HTTP/1.1\r\nHost: x\r\n", b"\r\n", 2).unwrap();
    assert_eq!(taken, b"GET / HTTP/1.1\r\n".to_vec());
    assert_eq!(rest, b"Host: x\r\n");
    let (rest, taken) = find_symbol_with_offset(b"Host: x", b":", 0).unwrap();
    assert_eq!(taken, b"Host".to_vec());
    assert_eq!(rest, b": x");
}

#[test]
fn find_symbol_with_offset_not_found() {
    assert_eq!(
        find_symbol_with_offset(b"no line end", b"\r\n", 2),
        Err(DecodeError::SymbolNotFound)
    );
}

#[test]
fn cut_parts_make_the_input() {
    let input = b"Host: x\r\nrest";
    let (rest, taken) = find_symbol_with_offset(input, b"\r\n", 2).unwrap();
    let mut joined = taken.clone();
    joined.extend_from_slice(rest);
    assert_eq!(joined, input.to_vec());
}
