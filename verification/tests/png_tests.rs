use pang_formats::helper::DecodeError;
use pang_formats::png::{
    chunk_data_decode_callbackfn, chunk_encode_callback, parse_chunks, parse_png_basic,
    parse_png_chunks, PngChunk, PngImage,
};

const MAGIC: [u8; 8] = [137, 80, 78, 71, 13, 10, 26, 10];

/// A 1x1 RGB image header chunk, with its CRC.
fn ihdr() -> Vec<u8> {
    vec![
        0x00, 0x00, 0x00, 0x0d, b'I', b'H', b'D', b'R', 0x00, 0x00, 0x00, 0x01, 0x00, 0x00, 0x00,
        0x01, 0x08, 0x02, 0x00, 0x00, 0x00, 0x90, 0x77, 0x53, 0xde,
    ]
}

/// The image trailer chunk, with its CRC.
fn iend() -> Vec<u8> {
    vec![0x00, 0x00, 0x00, 0x00, b'I', b'E', b'N', b'D', 0xae, 0x42, 0x60, 0x82]
}

fn image() -> Vec<u8> {
    let mut v = MAGIC.to_vec();
    v.extend(ihdr());
    v.extend(iend());
    v
}

#[test]
fn test_png_basic_grammar() {
    let input = image();
    let tree = parse_png_basic(&input).unwrap();
    assert_eq!(tree.to_bytes(), input);
}

#[test]
fn test_png_basic_chunks_grammar() {
    let input = image();
    let tree = parse_png_chunks(&input).unwrap();
    assert_eq!(tree.to_bytes(), input);
    let tree = tree.fix();
    assert_eq!(tree.to_bytes(), input);
}

#[test]
fn png_basic_splits_signature() {
    let input = image();
    let f = parse_png_basic(&input).unwrap();
    assert_eq!(f.magic, MAGIC.to_vec());
    assert_eq!(f.chunks.len(), 37);
    assert_eq!(f.to_bytes(), input);
    assert!(parse_png_basic(&input[1..]).is_none());
    assert!(parse_png_basic(&MAGIC[..7]).is_none());
}

#[test]
fn png_chunks_parse_and_fix() {
    let input = image();
    let img = parse_png_chunks(&input).unwrap();
    assert_eq!(img.chunks.len(), 2);
    assert_eq!(img.chunks[0].chunk_type, b"IHDR".to_vec());
    assert_eq!(img.chunks[0].chunk_data.len(), 13);
    assert_eq!(img.chunks[1].chunk_type, b"IEND".to_vec());
    assert_eq!(img.to_bytes(), input);
    let fixed = img.fix();
    assert_eq!(fixed.to_bytes(), input);
}

#[test]
fn png_chunks_rejected() {
    let mut truncated = image();
    truncated.pop();
    assert!(parse_png_chunks(&truncated).is_none());
    assert!(parse_png_chunks(&MAGIC).is_none());
}

#[test]
fn chunk_encode_rewrites_crc_and_length() {
    let broken = PngChunk {
        chunk_len: vec![0, 0, 0, 0],
        chunk_type: b"IHDR".to_vec(),
        chunk_data: vec![0, 0, 0, 1, 0, 0, 0, 1, 8, 2, 0, 0, 0],
        chunk_crc: vec![0, 0, 0, 0],
    };
    let fixed = chunk_encode_callback(broken);
    assert_eq!(fixed.to_bytes(), ihdr());
    let bytes = fixed.to_bytes();
    let again = chunk_encode_callback(fixed);
    assert_eq!(again.to_bytes(), ihdr());
    // The rewritten chunk reads back as one chunk.
    let chunks = parse_chunks(&bytes).unwrap();
    assert_eq!(chunks.len(), 1);
    assert_eq!(chunks[0].to_bytes(), bytes);
}

#[test]
fn fix_rewrites_wrong_crc_only() {
    let mut input = image();
    let crc_at = 8 + 21;
    input[crc_at] ^= 0xff;
    let img = parse_png_chunks(&input).unwrap();
    assert_eq!(img.to_bytes(), input);
    assert_eq!(img.fix().to_bytes(), image());
}

#[test]
fn png_image_roundtrip_from_parts() {
    let img = PngImage {
        magic: MAGIC.to_vec(),
        chunks: vec![PngChunk {
            chunk_len: vec![0, 0, 0, 2],
            chunk_type: b"tEXt".to_vec(),
            chunk_data: vec![b'a', 0],
            chunk_crc: vec![1, 2, 3, 4],
        }],
    };
    let bytes = img.to_bytes();
    let back = parse_png_chunks(&bytes).unwrap();
    assert_eq!(back.chunks.len(), 1);
    assert_eq!(back.chunks[0].chunk_type, b"tEXt".to_vec());
    assert_eq!(back.chunks[0].chunk_data, vec![b'a', 0]);
    assert_eq!(back.chunks[0].chunk_crc, vec![1, 2, 3, 4]);
}

#[test]
fn chunk_data_callback() {
    let (rest, taken) = chunk_data_decode_callbackfn(&[1, 2, 3], Some(3)).unwrap();
    assert_eq!(taken, vec![1, 2, 3]);
    assert!(rest.is_empty());
    assert_eq!(chunk_data_decode_callbackfn(&[1], None), Err(DecodeError::SymbolNotInContext));
}
