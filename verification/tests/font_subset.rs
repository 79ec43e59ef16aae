use qu_interp::font::glyph_id;
use qu_interp::font_subset::{
    checksum, parse_dict, push_dict_int, push_op, read_index, read_loca, subr_bias, subset, write_cmap,
    write_index,
};

fn be16(v: u16) -> [u8; 2] {
    v.to_be_bytes()
}

fn be32(v: u32) -> [u8; 4] {
    v.to_be_bytes()
}

/// An sfnt holding `tables`, in the order given.
fn sfnt(tables: &[(&[u8; 4], Vec<u8>)]) -> Vec<u8> {
    let mut out = Vec::new();
    out.extend_from_slice(&be32(0x0001_0000));
    out.extend_from_slice(&be16(tables.len() as u16));
    out.extend_from_slice(&[0; 6]);
    let mut off = 12 + 16 * tables.len();
    for (tag, data) in tables {
        out.extend_from_slice(*tag);
        out.extend_from_slice(&be32(0));
        out.extend_from_slice(&be32(off as u32));
        out.extend_from_slice(&be32(data.len() as u32));
        off += data.len();
    }
    for (_, data) in tables {
        out.extend_from_slice(data);
    }
    out
}

/// A three-glyph TrueType font: glyph 0 empty, 'A' drawn by glyph 1 and
/// 'B' by glyph 2, long `loca` offsets.
fn tiny_truetype(with_hmtx: bool) -> Vec<u8> {
    let mut head = vec![0u8; 54];
    head[50..52].copy_from_slice(&be16(1));
    let mut maxp = be32(0x0000_5000).to_vec();
    maxp.extend_from_slice(&be16(3));
    let mut hhea = vec![0u8; 36];
    hhea[34..36].copy_from_slice(&be16(3));
    let mut hmtx = Vec::new();
    for g in 0..3u16 {
        hmtx.extend_from_slice(&be16(500 + g));
        hmtx.extend_from_slice(&be16(10 + g));
    }
    let cmap = write_cmap(&vec![(0x41, 1), (0x42, 2)]).unwrap();
    let mut glyf = Vec::new();
    for g in 1..3u16 {
        glyf.extend_from_slice(&be16(1)); // one contour: a simple glyph
        glyf.extend_from_slice(&be16(g));
        glyf.extend_from_slice(&[0; 8]);
    }
    let mut loca = Vec::new();
    for o in [0u32, 0, 12, 24] {
        loca.extend_from_slice(&be32(o));
    }
    let mut tables: Vec<(&[u8; 4], Vec<u8>)> = vec![
        (b"head", head),
        (b"maxp", maxp),
        (b"hhea", hhea),
        (b"cmap", cmap),
        (b"glyf", glyf),
        (b"loca", loca),
    ];
    if with_hmtx {
        tables.push((b"hmtx", hmtx));
    }
    sfnt(&tables)
}

#[test]
fn an_index_reads_back_what_was_written() {
    let items = vec![b"ab".to_vec(), b"c".to_vec()];
    let bytes = write_index(&items);
    assert_eq!(bytes, vec![0, 2, 1, 1, 3, 4, b'a', b'b', b'c']);
    assert_eq!(read_index(&bytes, 0), Some((items, 9)));
}

#[test]
fn an_empty_index_is_its_count_alone() {
    let bytes = write_index(&Vec::new());
    assert_eq!(bytes, vec![0, 0]);
    assert_eq!(read_index(&bytes, 0), Some((Vec::new(), 2)));
}

#[test]
fn a_truncated_index_does_not_read() {
    assert_eq!(read_index(&[0, 2, 1, 1, 3, 4, b'a'], 0), None);
    assert_eq!(read_index(&[0], 0), None);
}

#[test]
fn dict_operands_and_operators() {
    let mut out = Vec::new();
    push_dict_int(&mut out, 100000);
    push_op(&mut out, 17);
    push_dict_int(&mut out, -2);
    push_op(&mut out, 0x0c1e);
    assert_eq!(out, vec![29, 0, 1, 0x86, 0xa0, 17, 29, 0xff, 0xff, 0xff, 0xfe, 12, 0x1e]);
    let es = parse_dict(&out).unwrap();
    assert_eq!(es.len(), 2);
    assert_eq!(es[0].op, 17);
    assert_eq!(es[0].ints, vec![100000]);
    assert_eq!(es[1].op, 0x0c1e);
    assert_eq!(es[1].ints, vec![-2]);
}

#[test]
fn dict_short_operands() {
    // 139 is zero, 247 0 is 108, 251 0 is -108.
    let es = parse_dict(&[139, 247, 0, 251, 0, 5]).unwrap();
    assert_eq!(es.len(), 1);
    assert_eq!(es[0].op, 5);
    assert_eq!(es[0].ints, vec![0, 108, -108]);
}

#[test]
fn subroutine_bias_follows_the_index_size() {
    assert_eq!(subr_bias(0), 107);
    assert_eq!(subr_bias(1239), 107);
    assert_eq!(subr_bias(1240), 1131);
    assert_eq!(subr_bias(33899), 1131);
    assert_eq!(subr_bias(33900), 32768);
}

#[test]
fn checksum_sums_big_endian_words_with_zero_padding() {
    assert_eq!(checksum(&[]), 0);
    assert_eq!(checksum(&[0, 0, 0, 1, 0, 0, 0, 2]), 3);
    assert_eq!(checksum(&[1]), 0x0100_0000);
    assert_eq!(checksum(&[0xff, 0xff, 0xff, 0xff, 0, 0, 0, 2]), 1);
}

#[test]
fn loca_reads_short_and_long_offsets() {
    assert_eq!(read_loca(&[0, 0, 0, 6, 0, 8], 2, false), Some(vec![0, 12, 16]));
    assert_eq!(read_loca(&[0, 0, 0, 0, 0, 0, 0, 12], 1, true), Some(vec![0, 12]));
    assert_eq!(read_loca(&[0, 0, 0, 6], 2, false), None);
}

#[test]
fn a_written_cmap_maps_what_it_was_given() {
    let cmap = write_cmap(&vec![(0x41, 3), (0x42, 4), (0x1F600, 9)]).unwrap();
    let font = sfnt(&[(b"cmap", cmap)]);
    assert_eq!(glyph_id(&font, 'A'), Some(3));
    assert_eq!(glyph_id(&font, 'B'), Some(4));
    assert_eq!(glyph_id(&font, '\u{1F600}'), Some(9));
    assert_eq!(glyph_id(&font, 'C'), None);
}

#[test]
fn a_subset_renumbers_the_kept_glyphs() {
    let font = tiny_truetype(true);
    assert_eq!(glyph_id(&font, 'B'), Some(2));
    let out = subset(&font, &['B']).unwrap();
    assert_eq!(glyph_id(&out, 'B'), Some(1));
    assert_eq!(glyph_id(&out, 'A'), None);
    let both = subset(&font, &['A', 'B']).unwrap();
    assert_eq!(glyph_id(&both, 'A'), Some(1));
    assert_eq!(glyph_id(&both, 'B'), Some(2));
}

#[test]
fn a_font_missing_a_table_is_not_subset() {
    assert_eq!(subset(&tiny_truetype(false), &['A']), None);
    assert_eq!(subset(&[1, 2, 3], &['A']), None);
    assert_eq!(subset(&[], &[]), None);
}

#[test]
fn a_subset_sums_to_the_sfnt_magic_number() {
    let font = tiny_truetype(true);
    for chars in [&['B'][..], &['A', 'B'][..], &[][..]] {
        let out = subset(&font, chars).unwrap();
        assert_eq!(checksum(&out), 0xB1B0_AFBA);
        assert_eq!(out.len() % 4, 0);
    }
}
