use qu_interp::layout::FieldType::{F32, F64, I16, I32, I64, I8, U16, U32, U64, U8};
use qu_interp::layout::{pack, parse_layout, unpack, FieldType, FieldValue, PackValue};

fn pv(x: f64) -> PackValue {
    PackValue {
        whole: x.is_finite() && x.fract() == 0.0,
        int: x as i64,
        bits32: (x as f32).to_bits(),
        bits64: x.to_bits(),
        text: format!("{x}"),
    }
}

#[test]
fn a_layout_lists_its_fields_with_repeat_counts() {
    assert_eq!(parse_layout("unpack", "u16,i32 f64"), Ok(vec![U16, I32, F64]));
    assert_eq!(parse_layout("unpack", "4u8"), Ok(vec![U8, U8, U8, U8]));
    assert_eq!(parse_layout("unpack", "2BYTE, Float"), Ok(vec![U8, U8, F32]));
    assert_eq!(parse_layout("pack", " u16,,\tu8 "), Ok(vec![U16, U8]));
    assert_eq!(parse_layout("pack", "double i8 u64 i64 u32 i16"), Ok(vec![F64, I8, U64, I64, U32, I16]));
    assert_eq!(parse_layout("pack", "99999999999999999999999u8"), Ok(vec![U8]));
}

#[test]
fn a_bad_layout_is_an_error_naming_the_caller() {
    assert_eq!(
        parse_layout("unpack", "u8 u12"),
        Err("unpack: `u12` is not a field type -- use u8/i8/u16/i16/u32/i32/u64/i64/f32/f64, optionally with a repeat count like `4u8`".to_string())
    );
    assert_eq!(parse_layout("pack", ""), Err("pack: the layout spec `` describes no fields".to_string()));
    assert_eq!(parse_layout("pack", "0u8"), Err("pack: the layout spec `0u8` describes no fields".to_string()));
}

#[test]
fn unpack_reads_each_endianness_and_sign() {
    assert_eq!(
        unpack(&[1, 0, 0xff, 0xff], "u16,i16", &[U16, I16], false),
        Ok(vec![FieldValue::Unsigned(1), FieldValue::Signed(-1)])
    );
    assert_eq!(
        unpack(&[1, 0, 0x80, 0x00], "u16,i16", &[U16, I16], true),
        Ok(vec![FieldValue::Unsigned(256), FieldValue::Signed(-32768)])
    );
    assert_eq!(unpack(&1.0f32.to_le_bytes(), "f32", &[F32], false), Ok(vec![FieldValue::Bits32(0x3f80_0000)]));
    assert_eq!(unpack(&i64::MIN.to_be_bytes(), "i64", &[I64], true), Ok(vec![FieldValue::Signed(i64::MIN)]));
    assert_eq!(unpack(&[7, 9], "u8", &[U8], false), Ok(vec![FieldValue::Unsigned(7)]));
}

#[test]
fn unpack_refuses_a_short_buffer() {
    assert_eq!(
        unpack(&[1], "u16", &[FieldType::U16], false),
        Err("unpack: layout `u16` needs 2 bytes but the buffer has 1 -- short reads are an error here, not a zero fill".to_string())
    );
}

#[test]
fn pack_lays_out_each_field() {
    assert_eq!(pack(&[pv(1.0), pv(-1.0)], "u16,i16", &[U16, I16], false), Ok(vec![1, 0, 0xff, 0xff]));
    assert_eq!(pack(&[pv(1.0), pv(-1.0)], "u16,i16", &[U16, I16], true), Ok(vec![0, 1, 0xff, 0xff]));
    assert_eq!(pack(&[pv(1.0)], "f32", &[F32], false), Ok(1.0f32.to_le_bytes().to_vec()));
    assert_eq!(pack(&[pv(2.5)], "f64", &[F64], true), Ok(2.5f64.to_be_bytes().to_vec()));
}

#[test]
fn pack_refuses_what_would_not_fit() {
    assert_eq!(
        pack(&[pv(256.0)], "u8", &[U8], false),
        Err("pack: value 1 is 256, outside the range 0..255 of its field -- this is an error rather than a wrap, because a silently wrapped field is a wrong answer that looks like a right one".to_string())
    );
    assert_eq!(
        pack(&[pv(0.0), pv(-129.0)], "u8 i8", &[U8, I8], false),
        Err("pack: value 2 is -129, outside the range -128..127 of its field -- this is an error rather than a wrap, because a silently wrapped field is a wrong answer that looks like a right one".to_string())
    );
    assert_eq!(
        pack(&[pv(1.5)], "u8", &[U8], false),
        Err("pack: value 1 for an integer field is `1.5`, which is not a whole number".to_string())
    );
    assert_eq!(
        pack(&[pv(1.0)], "u8 u8", &[U8, U8], false),
        Err("pack: layout `u8 u8` has 2 fields but 1 values were given".to_string())
    );
}

#[test]
fn unpack_gives_back_what_pack_wrote() {
    let fields = [U8, I8, U16, I16, U32, I32, U64, I64];
    let xs = [200.0, -5.0, 60000.0, -300.0, 4e9, -2e9, 12345678901.0, -42.0];
    let values: Vec<PackValue> = xs.iter().map(|x| pv(*x)).collect();
    for big in [false, true] {
        let bytes = pack(&values, "u8 i8 u16 i16 u32 i32 u64 i64", &fields, big).unwrap();
        let back = unpack(&bytes, "u8 i8 u16 i16 u32 i32 u64 i64", &fields, big).unwrap();
        let as_f64: Vec<f64> = back
            .iter()
            .map(|v| match v {
                FieldValue::Unsigned(u) => *u as f64,
                FieldValue::Signed(s) => *s as f64,
                FieldValue::Bits32(b) => f32::from_bits(*b) as f64,
                FieldValue::Bits64(b) => f64::from_bits(*b),
            })
            .collect();
        assert_eq!(as_f64, xs.to_vec());
    }
}
