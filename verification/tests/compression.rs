//! Decompressing a unit.

use fs_ntfs::compression::{decompress_unit, split_token, CHUNK_SIZE};

fn encode_literal_chunk(data: &[u8]) -> Vec<u8> {
    assert!(data.len() <= CHUNK_SIZE);
    // Chunk body = ceil(n/8) flag bytes (all 0) interleaved: one flag
    // byte then up to 8 literals.
    let mut body = Vec::new();
    for group in data.chunks(8) {
        body.push(0u8); // all-literal flags
        body.extend_from_slice(group);
    }
    let mut out = Vec::new();
    let header: u16 = 0x8000 | 0x3000 | ((body.len() - 1) as u16 & 0x0FFF);
    out.extend_from_slice(&header.to_le_bytes());
    out.extend_from_slice(&body);
    out
}

#[test]
fn round_trips_all_literals() {
    let data: Vec<u8> = (0..200u32).map(|i| (i * 7 % 256) as u8).collect();
    let stream = encode_literal_chunk(&data);
    let got = decompress_unit(&stream, data.len()).expect("decompress");
    assert_eq!(got, data);
}

#[test]
fn raw_uncompressed_chunk_is_copied_verbatim() {
    // Header with bit 15 clear => raw chunk; body copied as-is.
    let data = b"raw chunk bytes, not compressed";
    let mut stream = Vec::new();
    let header: u16 = 0x3000 | ((data.len() - 1) as u16 & 0x0FFF); // no 0x8000
    stream.extend_from_slice(&header.to_le_bytes());
    stream.extend_from_slice(data);
    let got = decompress_unit(&stream, data.len()).expect("decompress");
    assert_eq!(&got, data);
}

#[test]
fn back_reference_repeats_prior_bytes() {
    // Build a chunk: literal 'A', then a back-reference (disp=1,
    // length=3) to produce "AAAA". At cur=1, length_bits=12, so the
    // token = ((disp-1) << 12) | (length-3) = (0<<12)|0 = 0x0000.
    // Flag group: bit0=0 (literal 'A'), bit1=1 (back-ref).
    let mut body = Vec::new();
    body.push(0b0000_0010u8); // bit0 literal, bit1 back-ref
    body.push(b'A');
    body.extend_from_slice(&0x0000u16.to_le_bytes()); // disp=1,len=3
    let mut stream = Vec::new();
    let header: u16 = 0x8000 | 0x3000 | ((body.len() - 1) as u16 & 0x0FFF);
    stream.extend_from_slice(&header.to_le_bytes());
    stream.extend_from_slice(&body);

    let got = decompress_unit(&stream, 4).expect("decompress");
    assert_eq!(&got, b"AAAA", "disp=1 len=3 back-ref after 'A' => AAAA");
}

#[test]
fn split_token_boundaries() {
    // cur in 1..=16 => 4 displacement bits, 12 length bits.
    let (len, disp) = split_token(0x0000, 1).unwrap();
    assert_eq!((len, disp), (3, 1));
    let (len, disp) = split_token(0xFFFF, 16).unwrap();
    assert_eq!((len, disp), ((0x0FFF) + 3, 0x0F + 1)); // len 4098, disp 16
    // cur 17 => one shift: 11 length bits, 5 displacement bits.
    let (_len, disp) = split_token(0xFFFF, 17).unwrap();
    assert_eq!(disp, 0x1F + 1); // 5-bit displacement field, max 32
}

#[test]
fn stops_at_zero_header() {
    let data = b"hello";
    let mut stream = encode_literal_chunk(data);
    stream.extend_from_slice(&[0u8, 0u8]); // end marker
    stream.extend_from_slice(b"garbage past the end");
    let got = decompress_unit(&stream, 4096).expect("decompress");
    assert_eq!(&got, data);
}

#[test]
fn truncates_to_max_len() {
    let data: Vec<u8> = (0..100u8).collect();
    let stream = encode_literal_chunk(&data);
    let got = decompress_unit(&stream, 10).expect("decompress");
    assert_eq!(got.len(), 10);
    assert_eq!(&got, &data[..10]);
}

#[test]
fn rejects_overrunning_chunk_header() {
    // Header claims a 4096-byte body but input is short.
    let header: u16 = 0x8000 | 0x3000 | 0x0FFF;
    let mut stream = Vec::new();
    stream.extend_from_slice(&header.to_le_bytes());
    stream.extend_from_slice(b"short");
    assert!(decompress_unit(&stream, 4096).is_err());
}
