use qu_interp::font::{glyph_id, unsupported};

fn be16(v: u16) -> [u8; 2] {
    v.to_be_bytes()
}

fn be32(v: u32) -> [u8; 4] {
    v.to_be_bytes()
}

/// A one-table font whose format 4 `cmap` maps 'A'..='C' to glyphs 5..=7.
fn tiny_font_format4() -> Vec<u8> {
    let mut sub = Vec::new();
    sub.extend_from_slice(&be16(4)); // format
    sub.extend_from_slice(&be16(32)); // length
    sub.extend_from_slice(&be16(0)); // language
    sub.extend_from_slice(&be16(4)); // segCountX2
    sub.extend_from_slice(&[0; 6]); // search fields
    sub.extend_from_slice(&be16(0x43));
    sub.extend_from_slice(&be16(0xFFFF)); // endCode
    sub.extend_from_slice(&be16(0)); // reservedPad
    sub.extend_from_slice(&be16(0x41));
    sub.extend_from_slice(&be16(0xFFFF)); // startCode
    sub.extend_from_slice(&be16(5u16.wrapping_sub(0x41)));
    sub.extend_from_slice(&be16(1)); // idDelta
    sub.extend_from_slice(&be16(0));
    sub.extend_from_slice(&be16(0)); // idRangeOffset
    let mut cmap = Vec::new();
    cmap.extend_from_slice(&be16(0));
    cmap.extend_from_slice(&be16(1));
    cmap.extend_from_slice(&be16(3));
    cmap.extend_from_slice(&be16(1));
    cmap.extend_from_slice(&be32(12));
    cmap.extend_from_slice(&sub);
    let mut font = Vec::new();
    font.extend_from_slice(&be32(0x0001_0000));
    font.extend_from_slice(&be16(1));
    font.extend_from_slice(&[0; 6]);
    font.extend_from_slice(b"cmap");
    font.extend_from_slice(&be32(0));
    font.extend_from_slice(&be32(28));
    font.extend_from_slice(&be32(cmap.len() as u32));
    font.extend_from_slice(&cmap);
    font
}

/// The same mapping in a format 12 subtable, one group.
fn tiny_font_format12() -> Vec<u8> {
    let mut sub = Vec::new();
    sub.extend_from_slice(&be16(12));
    sub.extend_from_slice(&be16(0));
    sub.extend_from_slice(&be32(28));
    sub.extend_from_slice(&be32(0));
    sub.extend_from_slice(&be32(1)); // one group
    sub.extend_from_slice(&be32(0x41));
    sub.extend_from_slice(&be32(0x43));
    sub.extend_from_slice(&be32(5));
    let mut cmap = Vec::new();
    cmap.extend_from_slice(&be16(0));
    cmap.extend_from_slice(&be16(1));
    cmap.extend_from_slice(&be16(3));
    cmap.extend_from_slice(&be16(10));
    cmap.extend_from_slice(&be32(12));
    cmap.extend_from_slice(&sub);
    let mut font = Vec::new();
    font.extend_from_slice(&be32(0x0001_0000));
    font.extend_from_slice(&be16(1));
    font.extend_from_slice(&[0; 6]);
    font.extend_from_slice(b"cmap");
    font.extend_from_slice(&be32(0));
    font.extend_from_slice(&be32(28));
    font.extend_from_slice(&be32(cmap.len() as u32));
    font.extend_from_slice(&cmap);
    font
}

#[test]
fn format4_maps_a_delta_segment() {
    let font = tiny_font_format4();
    assert_eq!(glyph_id(&font, 'A'), Some(5));
    assert_eq!(glyph_id(&font, 'C'), Some(7));
    assert_eq!(glyph_id(&font, 'D'), None);
    assert_eq!(glyph_id(&font, '\u{1F600}'), None);
}

#[test]
fn format12_maps_a_group() {
    let font = tiny_font_format12();
    assert_eq!(glyph_id(&font, 'B'), Some(6));
    assert_eq!(glyph_id(&font, 'Z'), None);
}

#[test]
fn unsupported_lists_unmapped_characters_but_not_white_space() {
    let font = tiny_font_format4();
    assert_eq!(unsupported(&font, &[' ', 'A', 'B', 'D', 'Z']), vec!['D', 'Z']);
}

#[test]
fn an_unreadable_font_has_no_glyphs_and_reports_nothing_missing() {
    assert_eq!(glyph_id(b"ttcf\0\0\0\0", 'A'), None);
    assert_eq!(glyph_id(&[], 'A'), None);
    assert!(unsupported(&[1, 2, 3], &['A']).is_empty());
}
