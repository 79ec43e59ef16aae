use qu_interp::text_codec::{base64_decode, base64_encode, hex_decode, hex_encode};

#[test]
fn hex_encode_spells_lower_case_pairs() {
    assert_eq!(hex_encode(&[0x00, 0x0f, 0xa5, 0xff]), "000fa5ff");
    assert_eq!(hex_encode(&[]), "");
}

#[test]
fn hex_decode_reads_either_case_and_skips_white_space() {
    assert_eq!(hex_decode("00 0F a5\nFF").unwrap(), vec![0x00, 0x0f, 0xa5, 0xff]);
    assert_eq!(hex_decode("").unwrap(), Vec::<u8>::new());
}

#[test]
fn hex_decode_refuses_an_odd_digit_count() {
    let e = hex_decode("abc").unwrap_err();
    assert!(e.contains("odd number of hex digits (3)"));
}

#[test]
fn hex_decode_refuses_a_non_digit() {
    assert!(hex_decode("zz").is_err());
    assert!(hex_decode("0g").is_err());
}

#[test]
fn hex_round_trip() {
    let data: Vec<u8> = (0..=255u8).collect();
    assert_eq!(hex_decode(&hex_encode(&data)).unwrap(), data);
}

#[test]
fn base64_encodes_the_standard_vectors() {
    assert_eq!(base64_encode(b""), "");
    assert_eq!(base64_encode(b"f"), "Zg==");
    assert_eq!(base64_encode(b"fo"), "Zm8=");
    assert_eq!(base64_encode(b"foo"), "Zm9v");
    assert_eq!(base64_encode(b"foobar"), "Zm9vYmFy");
    assert_eq!(base64_encode(&[0xfb, 0xff]), "+/8=");
}

#[test]
fn base64_decodes_the_standard_vectors() {
    assert_eq!(base64_decode("").unwrap(), b"".to_vec());
    assert_eq!(base64_decode("Zg==").unwrap(), b"f".to_vec());
    assert_eq!(base64_decode("Zm8=").unwrap(), b"fo".to_vec());
    assert_eq!(base64_decode("Zm9v").unwrap(), b"foo".to_vec());
    assert_eq!(base64_decode("Zm9v\n YmFy").unwrap(), b"foobar".to_vec());
}

#[test]
fn base64_decode_refuses_a_bad_length() {
    let e = base64_decode("Zm9").unwrap_err();
    assert!(e.contains("input length 3 is not a multiple of 4"));
}

#[test]
fn base64_decode_refuses_a_foreign_character() {
    assert!(base64_decode("Zm9-").is_err());
    assert!(base64_decode("Zm_v").is_err());
}

#[test]
fn base64_round_trip() {
    let data: Vec<u8> = (0..=255u8).rev().collect();
    for k in 0..8 {
        let part = &data[..data.len() - k];
        assert_eq!(base64_decode(&base64_encode(part)).unwrap(), part.to_vec());
    }
}
