use qu_interp::huffman::{canonical_codes, decode, encode};

fn roundtrip(data: &[u8]) {
    let enc = encode(data).expect("non-empty input encodes");
    let dec = decode(&enc.lengths, &enc.bits, enc.bit_len, enc.symbol_count);
    assert_eq!(dec, data, "round-trip mismatch for {data:?}");
}

#[test]
fn round_trips_ordinary_text() {
    roundtrip(b"the quick brown fox jumps over the lazy dog, again and again");
}

#[test]
fn round_trips_a_single_repeated_byte() {
    roundtrip(&[7u8; 500]);
}

#[test]
fn round_trips_two_symbols() {
    roundtrip(b"ababababababab");
}

#[test]
fn round_trips_all_256_byte_values() {
    let data: Vec<u8> = (0..=255u8).collect();
    roundtrip(&data);
}

#[test]
fn round_trips_skewed_frequencies() {
    let mut data = vec![b'a'; 1000];
    data.extend_from_slice(b"bcdxyz");
    roundtrip(&data);
}

#[test]
fn compresses_skewed_data_below_its_original_size() {
    let mut data = vec![b'a'; 10_000];
    for i in 0..100 {
        data.push((b'b' + (i % 5)) as u8);
    }
    let enc = encode(&data).unwrap();
    let naive_bits = data.len() * 8;
    assert!(
        enc.bit_len < naive_bits / 4,
        "expected real compression on skewed data: {} bits vs {naive_bits} naive",
        enc.bit_len
    );
}

#[test]
fn empty_input_encodes_to_nothing() {
    assert!(encode(&[]).is_none());
}

#[test]
fn canonical_codes_number_equal_lengths_consecutively() {
    let mut lengths = [0u8; 256];
    lengths[b'a' as usize] = 1;
    lengths[b'b' as usize] = 2;
    lengths[b'c' as usize] = 2;
    let codes = canonical_codes(&lengths);
    assert_eq!(codes[b'a' as usize], (0, 1));
    assert_eq!(codes[b'b' as usize], (2, 2));
    assert_eq!(codes[b'c' as usize], (3, 2));
    assert_eq!(codes[0], (0, 0));
}

#[test]
fn encode_counts_symbols_and_codes_only_the_bytes_present() {
    let enc = encode(b"aab").unwrap();
    assert_eq!(enc.symbol_count, 3);
    assert!(enc.lengths[b'a' as usize] > 0 && enc.lengths[b'b' as usize] > 0);
    assert_eq!(enc.lengths[b'z' as usize], 0);
    assert_eq!(enc.bits.len(), (enc.bit_len + 7) / 8);
}

#[test]
fn every_input_below_two_million_bytes_encodes() {
    // Fibonacci-like counts make the deepest Huffman tree for their size.
    let mut data = Vec::new();
    let (mut a, mut b) = (1usize, 1usize);
    for s in 0..28u8 {
        data.extend(std::iter::repeat(s).take(a));
        let c = a + b;
        a = b;
        b = c;
    }
    assert!(data.len() < 1 << 21);
    let e = encode(&data).unwrap();
    assert!(e.lengths.iter().all(|&l| l <= 32));
    assert_eq!(decode(&e.lengths, &e.bits, e.bit_len, e.symbol_count), data);
}
