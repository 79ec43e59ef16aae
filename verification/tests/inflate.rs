use qu_interp::inflate::{adler32, inflate, zlib_decompress};

#[test]
fn reads_back_a_stored_block_stream_written_by_the_png_encoder() {
    let data: Vec<u8> = (0..1000u32).map(|i| (i % 251) as u8).collect();
    let mut z = vec![0x78, 0x01, 1];
    z.extend_from_slice(&(data.len() as u16).to_le_bytes());
    z.extend_from_slice(&(!(data.len() as u16)).to_le_bytes());
    z.extend_from_slice(&data);
    z.extend_from_slice(&adler32(&data).to_be_bytes());
    assert_eq!(zlib_decompress(&z).unwrap(), data);
}

#[test]
fn decodes_an_overlapping_back_reference() {
    let z: &[u8] = &[0x78, 0xda, 0x4b, 0x4c, 0x84, 0x00, 0x00, 0x0d, 0xac, 0x03, 0x09];
    assert_eq!(zlib_decompress(z).unwrap(), b"aaaaaaaa");
}

#[test]
fn decodes_a_fixed_huffman_block() {
    let z: &[u8] = &[
        0x78, 0x9c, 0x2b, 0xc9, 0x48, 0x55, 0x28, 0x2c, 0xcd, 0x4c, 0xce, 0x56, 0x48, 0x2a,
        0xca, 0x2f, 0xcf, 0x53, 0x48, 0xcb, 0xaf, 0x50, 0xc8, 0x2a, 0xcd, 0x2d, 0x28, 0x56,
        0xc8, 0x2f, 0x4b, 0x2d, 0x52, 0x28, 0xc9, 0x48, 0x55, 0xc8, 0x49, 0xac, 0xaa, 0x54,
        0x48, 0xc9, 0x4f, 0x07, 0x73, 0x46, 0xd5, 0x8e, 0xaa, 0x1d, 0x55, 0x3b, 0xaa, 0x76,
        0x54, 0xed, 0xa8, 0xda, 0xfc, 0x21, 0xa0, 0x16, 0x00, 0x4c, 0x80, 0x84, 0x07,
    ];
    let expected = "the quick brown fox jumps over the lazy dog ".repeat(40);
    assert_eq!(zlib_decompress(z).unwrap(), expected.as_bytes());
}

#[test]
fn decodes_a_dynamic_huffman_block() {
    let z: &[u8] = &[
        0x78, 0xda, 0x9d, 0xce, 0x8d, 0x09, 0xc4, 0x20, 0x0c, 0x40, 0xe1, 0xd9, 0x12, 0xc5,
        0x9f, 0x90, 0xd2, 0x1a, 0x28, 0x1a, 0x45, 0x41, 0xaa, 0xdd, 0x7f, 0x84, 0xbb, 0x5b,
        0xe1, 0xde, 0xb7, 0xc0, 0x03, 0x00, 0x34, 0xd6, 0x05, 0xe2, 0x53, 0x6e, 0xed, 0x73,
        0xa3, 0x67, 0x29, 0x63, 0x19, 0x4a, 0x3a, 0x21, 0x4a, 0x5b, 0xee, 0xaa, 0xcb, 0x4b,
        0x87, 0x43, 0x37, 0xe5, 0x45, 0xe5, 0xe5, 0x86, 0x69, 0x46, 0x05, 0x79, 0x78, 0x84,
        0x6a, 0x33, 0xde, 0xf0, 0x85, 0xd9, 0xd6, 0x30, 0xf8, 0x11, 0xd0, 0x38, 0x13, 0x36,
        0x7e, 0x0b, 0xad, 0x4c, 0x5b, 0x0f, 0xe8, 0xe2, 0x57, 0xbd, 0xdc, 0x6a, 0x12, 0x61,
        0x6a, 0x22, 0xb3, 0x46, 0x11, 0xf6, 0xb8, 0x67, 0xd7, 0x5b, 0x4e, 0xa6, 0xe0, 0xac,
        0x41, 0xf8, 0xf5, 0xf7, 0xcb, 0x07, 0xd9, 0x21, 0x3f, 0x74,
    ];
    let expected: Vec<u8> = (0..200u32).map(|i| ((i * i / 7) % 40 + 65) as u8).collect();
    assert_eq!(zlib_decompress(z).unwrap(), expected);
}

#[test]
fn rejects_a_stream_that_is_not_zlib() {
    assert!(zlib_decompress(b"not a zlib stream at all").is_err());
}

#[test]
fn rejects_a_truncated_stream_rather_than_returning_partial_data() {
    let data: Vec<u8> = (0..500u32).map(|i| (i % 251) as u8).collect();
    let mut z = vec![0x78, 0x01, 1];
    z.extend_from_slice(&(data.len() as u16).to_le_bytes());
    z.extend_from_slice(&(!(data.len() as u16)).to_le_bytes());
    z.extend_from_slice(&data[..200]);
    assert!(zlib_decompress(&z).is_err());
}

#[test]
fn inflate_adler32_matches_the_standard_worked_example() {
    assert_eq!(adler32(b"Wikipedia"), 0x11E6_0398);
}

#[test]
fn raw_deflate_reads_a_stored_block_without_a_zlib_wrapper() {
    let mut d = vec![1u8, 3, 0, 0xFC, 0xFF];
    d.extend_from_slice(b"abc");
    assert_eq!(inflate(&d).unwrap(), b"abc");
}

#[test]
fn a_corrupted_checksum_is_refused() {
    let data = b"hello".to_vec();
    let mut z = vec![0x78, 0x01, 1];
    z.extend_from_slice(&(data.len() as u16).to_le_bytes());
    z.extend_from_slice(&(!(data.len() as u16)).to_le_bytes());
    z.extend_from_slice(&data);
    z.extend_from_slice(&(adler32(&data) ^ 1).to_be_bytes());
    assert!(zlib_decompress(&z).is_err());
}
