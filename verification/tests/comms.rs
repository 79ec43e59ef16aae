use qu_interp::comms::{crc, crc_check, gray_decode, gray_encode, hamming74_decode, hamming74_encode, qam_params};

#[test]
fn gray_round_trips_over_a_whole_axis() {
    for i in 0..256u32 {
        assert_eq!(gray_decode(gray_encode(i)), i);
    }
}

#[test]
fn gray_neighbours_differ_in_one_bit() {
    for i in 0..255u32 {
        let d = gray_encode(i) ^ gray_encode(i + 1);
        assert_eq!(d.count_ones(), 1, "levels {i}/{} are not Gray-adjacent", i + 1);
    }
}

#[test]
fn qam_rejects_non_square_and_tiny_orders() {
    for bad in [0u64, 1, 2, 3, 6, 32, 128] {
        assert!(qam_params(bad).is_err(), "order {bad} should be rejected");
    }
    for good in [4u64, 16, 64, 256] {
        assert!(qam_params(good).is_ok(), "order {good} should be accepted");
    }
}

/// `p1 = d1^d2^d4`, `p2 = d1^d3^d4`, `p4 = d2^d3^d4`, laid out as
/// `[p1, p2, d1, p4, d2, d3, d4]`.
fn reference_encode(d: [u8; 4]) -> [u8; 7] {
    let p1 = d[0] ^ d[1] ^ d[3];
    let p2 = d[0] ^ d[2] ^ d[3];
    let p4 = d[1] ^ d[2] ^ d[3];
    [p1, p2, d[0], p4, d[1], d[2], d[3]]
}

#[test]
fn hamming_encode_matches_the_reference_on_all_16_words() {
    for n in 0..16u8 {
        let d = [(n >> 3) & 1, (n >> 2) & 1, (n >> 1) & 1, n & 1];
        assert_eq!(hamming74_encode(&d).unwrap(), reference_encode(d).to_vec(), "data word {d:?}");
    }
}

#[test]
fn hamming_corrects_every_single_bit_flip_position() {
    for n in 0..16u8 {
        let d = [(n >> 3) & 1, (n >> 2) & 1, (n >> 1) & 1, n & 1];
        let clean = hamming74_encode(&d).unwrap();
        for pos in 0..7usize {
            let mut corrupt = clean.clone();
            corrupt[pos] ^= 1;
            let got = hamming74_decode(&corrupt).unwrap();
            assert_eq!(got.data, d.to_vec(), "word {d:?}, flip at {pos}");
            assert!(got.corrected, "word {d:?}, flip at {pos}: no correction reported");
            assert_eq!(got.positions, vec![pos + 1], "word {d:?}: syndrome must name the 1-indexed flipped bit");
        }
    }
}

#[test]
fn hamming_reports_no_correction_on_a_clean_codeword() {
    for n in 0..16u8 {
        let d = [(n >> 3) & 1, (n >> 2) & 1, (n >> 1) & 1, n & 1];
        let got = hamming74_decode(&hamming74_encode(&d).unwrap()).unwrap();
        assert_eq!(got.data, d.to_vec());
        assert!(!got.corrected);
        assert_eq!(got.positions, vec![0]);
    }
}

#[test]
fn hamming_handles_several_codewords_in_one_call() {
    let data = [1u8, 0, 1, 1, 0, 0, 1, 0];
    let mut enc = hamming74_encode(&data).unwrap();
    assert_eq!(enc.len(), 14);
    enc[9] ^= 1;
    let got = hamming74_decode(&enc).unwrap();
    assert_eq!(got.data, data.to_vec());
    assert!(got.corrected);
    assert_eq!(got.positions, vec![0, 3]);
}

#[test]
fn hamming_rejects_bit_counts_that_are_not_whole_blocks() {
    assert!(hamming74_encode(&[1, 0, 1]).is_err());
    assert!(hamming74_decode(&[1, 0, 1, 1, 0, 1]).is_err());
}

/// 1101 divided by 1011 (x^3 + x + 1) leaves 001.
#[test]
fn crc_matches_a_hand_worked_division() {
    let poly = [1u8, 0, 1, 1];
    assert_eq!(crc(&[1, 1, 0, 1], &poly).unwrap(), vec![0, 0, 1]);
}

#[test]
fn crc_appended_makes_a_codeword_that_checks_out() {
    let poly = [1u8, 0, 0, 0, 1, 0, 0, 1, 1];
    let mut lcg = 12345u32;
    let msg: Vec<u8> = (0..40)
        .map(|_| {
            lcg = lcg.wrapping_mul(1103515245).wrapping_add(12345);
            ((lcg >> 16) & 1) as u8
        })
        .collect();
    let r = crc(&msg, &poly).unwrap();
    assert_eq!(r.len(), 8);
    let mut codeword = msg.clone();
    codeword.extend_from_slice(&r);
    assert!(crc_check(&codeword, &poly).unwrap());
}

#[test]
fn crc_catches_every_single_bit_error() {
    let poly = [1u8, 0, 1, 1];
    let msg = [1u8, 0, 1, 1, 0, 0, 1, 0, 1, 1];
    let mut codeword = msg.to_vec();
    codeword.extend_from_slice(&crc(&msg, &poly).unwrap());
    for pos in 0..codeword.len() {
        let mut bad = codeword.clone();
        bad[pos] ^= 1;
        assert!(!crc_check(&bad, &poly).unwrap(), "a single flip at {pos} passed the check");
    }
}

#[test]
fn crc_width_follows_the_polynomial() {
    let msg = [1u8, 1, 0, 1, 0, 0, 1];
    for poly in [
        vec![1u8, 1],
        vec![1, 0, 1, 1],
        vec![1, 0, 0, 0, 1, 0, 0, 1, 1],
        vec![1, 0, 0, 0, 1, 0, 0, 0, 0, 0, 0, 1, 0, 0, 0, 0, 1],
    ] {
        assert_eq!(crc(&msg, &poly).unwrap().len(), poly.len() - 1);
    }
}

#[test]
fn crc_rejects_a_malformed_polynomial() {
    assert!(crc(&[1, 0], &[1]).is_err());
    assert!(crc(&[1, 0], &[0, 1, 1]).is_err());
}

#[test]
fn qam_params_of_sixteen_gives_two_bits_per_axis() {
    let p = qam_params(16).unwrap();
    assert_eq!(p.k, 4);
    assert_eq!(p.m, 2);
    assert_eq!(p.levels, 4);
}

#[test]
fn hamming_decode_error_message_names_the_block_size() {
    let err = hamming74_decode(&[1, 0, 1]).unwrap_err();
    assert!(!err.is_empty());
}

#[test]
fn a_codeword_shorter_than_the_remainder_is_an_error() {
    let poly = [1u8, 0, 1, 1];
    assert!(crc_check(&[1, 0], &poly).is_err());
    assert!(crc_check(&[1, 0, 1], &poly).is_ok());
}
