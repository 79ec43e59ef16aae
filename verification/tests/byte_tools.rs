use qu_interp::byte_tools::{
    find_bytes, get_bit, hexdump, pad_bytes, replace_bytes, reverse_bytes, set_bit, swap_endian, toggle_bit,
};

#[test]
fn bits_count_from_the_low_bit_of_the_first_byte() {
    assert_eq!(get_bit(&[0b0000_0101], 0), Ok(1));
    assert_eq!(get_bit(&[0b0000_0101], 1), Ok(0));
    assert_eq!(get_bit(&[0b0000_0101], 2), Ok(1));
    assert_eq!(get_bit(&[0, 0b1000_0000], 15), Ok(1));
    assert_eq!(set_bit(&[0], 3, true), Ok(vec![8]));
    assert_eq!(set_bit(&[0xff], 0, false), Ok(vec![0xfe]));
    assert_eq!(toggle_bit(&[1, 0], 9), Ok(vec![1, 2]));
    assert_eq!(toggle_bit(&toggle_bit(&[7, 9], 4).unwrap(), 4), Ok(vec![7, 9]));
}

#[test]
fn a_bit_outside_the_buffer_is_named() {
    assert_eq!(
        get_bit(&[1], 8),
        Err("get_bit: bit index 8 is out of range for a 1-byte buffer (0..8)".to_string())
    );
    assert_eq!(
        set_bit(&[1, 2], -1, false),
        Err("clear_bit: bit index -1 is out of range for a 2-byte buffer (0..16)".to_string())
    );
    assert_eq!(
        set_bit(&[], 0, true),
        Err("set_bit: bit index 0 is out of range for a 0-byte buffer (0..0)".to_string())
    );
    assert_eq!(
        toggle_bit(&[0], 99),
        Err("toggle_bit: bit index 99 is out of range for a 1-byte buffer (0..8)".to_string())
    );
}

#[test]
fn swap_endian_reverses_each_chunk() {
    assert_eq!(swap_endian(&[1, 2, 3, 4, 5, 6, 7, 8], 4), Ok(vec![4, 3, 2, 1, 8, 7, 6, 5]));
    assert_eq!(swap_endian(&[1, 2, 3, 4], 2), Ok(vec![2, 1, 4, 3]));
    assert_eq!(swap_endian(&[1, 2, 3], 1), Ok(vec![1, 2, 3]));
    assert_eq!(swap_endian(&[], 4), Ok(vec![]));
    assert_eq!(
        swap_endian(&[1, 2, 3, 4, 5, 6, 7, 8], 3),
        Err("swap_endian: the buffer is 8 bytes, which doesn't divide evenly by width=3".to_string())
    );
    assert_eq!(swap_endian(&[1], 0), Err("swap_endian: `width=0` must be a whole number >= 1".to_string()));
}

#[test]
fn reverse_bytes_turns_the_buffer_around() {
    assert_eq!(reverse_bytes(&[1, 2, 3]), vec![3, 2, 1]);
    assert_eq!(reverse_bytes(&[]), Vec::<u8>::new());
}

#[test]
fn pad_bytes_fills_on_the_chosen_side() {
    assert_eq!(pad_bytes(&[1, 2], 4, 0, "right"), Ok(vec![1, 2, 0, 0]));
    assert_eq!(pad_bytes(&[1, 2], 4, 9, "left"), Ok(vec![9, 9, 1, 2]));
    assert_eq!(pad_bytes(&[1, 2], 1, 9, "left"), Ok(vec![1, 2]));
    assert_eq!(pad_bytes(&[1, 2], 2, 9, "up"), Ok(vec![1, 2]));
    assert_eq!(
        pad_bytes(&[1, 2], 3, 0, "up"),
        Err("pad_bytes: `side=\"up\"` is not a side -- use \"left\" or \"right\"".to_string())
    );
    assert_eq!(pad_bytes(&[1], -1, 0, "right"), Err("pad_bytes: `length=-1` must be >= 0".to_string()));
}

#[test]
fn find_bytes_gives_the_first_match_from_an_offset() {
    let b = [0, 0xde, 0xad, 0xde, 0xad];
    assert_eq!(find_bytes(&b, &[0xde, 0xad], 0), Ok(Some(1)));
    assert_eq!(find_bytes(&b, &[0xde, 0xad], 2), Ok(Some(3)));
    assert_eq!(find_bytes(&b, &[0xde, 0xad], 4), Ok(None));
    assert_eq!(find_bytes(&b, &[0xde, 0xad], 99), Ok(None));
    assert_eq!(find_bytes(&b, &[1, 2, 3, 4, 5, 6], 0), Ok(None));
    assert_eq!(find_bytes(&b, &[], 0), Err("find_hex: the pattern is empty".to_string()));
}

#[test]
fn replace_bytes_does_not_count_overlaps_twice() {
    assert_eq!(replace_bytes(&[1, 2, 1, 2, 1], &[1, 2], &[9]), Ok(vec![9, 9, 1]));
    assert_eq!(replace_bytes(&[1, 1, 1], &[1, 1], &[7, 7, 7]), Ok(vec![7, 7, 7, 1]));
    assert_eq!(replace_bytes(&[5, 6], &[7], &[]), Ok(vec![5, 6]));
    assert_eq!(replace_bytes(&[5], &[], &[1]), Err("replace_bytes: the pattern is empty".to_string()));
}

#[test]
fn hexdump_lays_out_offset_hex_and_text() {
    let expected = format!("00000000  41 42 00 {} AB.\n", "   ".repeat(13));
    assert_eq!(hexdump(b"AB\x00", 16, 0), Ok(expected));
    assert_eq!(
        hexdump(&[0x61, 0x62, 0x63], 2, 0x10),
        Ok("00000010  61 62  ab\n00000012  63     c\n".to_string())
    );
    assert_eq!(hexdump(&[0x7f], 1, 0x1_0000_0000), Ok("100000000  7f  .\n".to_string()));
    assert_eq!(hexdump(&[], 16, 0), Ok(String::new()));
    assert_eq!(hexdump(&[1], 0, 0), Err("hexdump: `width=0` must be a whole number in 1..64".to_string()));
    assert_eq!(hexdump(&[1], 65, 0), Err("hexdump: `width=65` must be a whole number in 1..64".to_string()));
}
