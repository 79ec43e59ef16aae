use qu_interp::bmp::{decode_bmp, encode_bmp};
use qu_interp::codecs::{decode, encode_jpeg, encode_tiff, is_jpeg, is_tiff};
use qu_interp::image::Image;
use qu_interp::inflate::adler32;
use qu_interp::png::{crc32, decode_png, encode_png, paeth};

#[test]
fn a_png_written_by_qu_reads_back_pixel_for_pixel() {
    let (w, h) = (7usize, 5usize);
    let mut rgb = Vec::with_capacity(w * h * 3);
    for y in 0..h {
        for x in 0..w {
            rgb.extend_from_slice(&[(x * 31) as u8, (y * 47) as u8, ((x * y) % 251) as u8]);
        }
    }
    let encoded = encode_png(w, h, &rgb);
    let back = decode_png(&encoded).expect("should decode what we just wrote");
    assert_eq!(back.width, w);
    assert_eq!(back.height, h);
    assert_eq!(back.pixels, rgb, "every pixel must survive the round trip");
}

#[test]
fn decode_recognises_both_formats_from_their_bytes() {
    let img = Image::filled(3, 2, (10, 20, 30));
    let png = decode(&encode_png(3, 2, &img.pixels)).unwrap();
    assert_eq!(png.get_pixel(1, 1), (10, 20, 30));

    let bmp = decode(&encode_bmp(img.width, img.height, &img.pixels)).unwrap();
    assert_eq!(bmp.get_pixel(1, 1), (10, 20, 30));

    let tiff = decode(&encode_tiff(img.width, img.height, &img.pixels).unwrap()).unwrap();
    assert_eq!(tiff.get_pixel(1, 1), (10, 20, 30));

    let jpeg = decode(&encode_jpeg(img.width, img.height, &img.pixels, 90).unwrap()).unwrap();
    assert_eq!((jpeg.width, jpeg.height), (3, 2));

    let err = decode(b"not an image at all").unwrap_err();
    assert!(err.contains("PNG, a BMP, a JPEG or a TIFF"), "got {err}");
}

#[test]
fn jpeg_and_tiff_are_sniffed_from_their_magic_bytes() {
    let img = Image::filled(8, 8, (200, 100, 50));
    let jpeg = encode_jpeg(8, 8, &img.pixels, 90).unwrap();
    assert_eq!(&jpeg[0..3], &[0xFF, 0xD8, 0xFF], "bad JPEG SOI marker");
    assert!(is_jpeg(&jpeg));
    assert!(!is_tiff(&jpeg));

    let tif = encode_tiff(8, 8, &img.pixels).unwrap();
    assert_eq!(&tif[0..4], b"II\x2A\x00", "bad TIFF header");
    assert!(is_tiff(&tif));
    assert!(!is_jpeg(&tif));

    assert!(is_tiff(b"MM\x00\x2A\x00\x00\x00\x08"));
}

fn rms(a: &[u8], b: &[u8]) -> f64 {
    let sq: f64 = a
        .iter()
        .zip(b.iter())
        .map(|(x, y)| {
            let d = *x as f64 - *y as f64;
            d * d
        })
        .sum();
    (sq / a.len() as f64).sqrt()
}

#[test]
fn jpeg_round_trip_is_close_but_not_exact() {
    let (w, h) = (64usize, 48usize);
    let mut pixels = Vec::with_capacity(w * h * 3);
    for y in 0..h {
        for x in 0..w {
            let edge = if x > w / 2 { 60u8 } else { 0u8 };
            pixels.push(((x * 255) / w) as u8);
            pixels.push(((y * 255) / h) as u8);
            pixels.push(128u8.saturating_add(edge));
        }
    }
    let original = Image::new(w, h, pixels).unwrap();
    let bytes = encode_jpeg(w, h, &original.pixels, 90).unwrap();
    let back = decode(&bytes).unwrap();
    assert_eq!((back.width, back.height), (w, h));
    let err = rms(&original.pixels, &back.pixels);
    println!("JPEG q90 round-trip RMS error: {err:.3} levels (out of 255)");
    assert!(err > 0.0, "a JPEG round trip came back bit-identical");
    assert!(err < 12.0, "JPEG q90 round-trip RMS was {err}, far worse than expected");
    let hi = decode(&encode_jpeg(w, h, &original.pixels, 100).unwrap()).unwrap();
    let err_hi = rms(&original.pixels, &hi.pixels);
    println!("JPEG q100 round-trip RMS error: {err_hi:.3} levels");
    assert!(err_hi <= err, "q100 ({err_hi}) was worse than q90 ({err})");
}

#[test]
fn tiff_round_trip_is_pixel_exact() {
    let (w, h) = (17usize, 5usize);
    let mut pixels = Vec::with_capacity(w * h * 3);
    for i in 0..(w * h) {
        pixels.push((i % 256) as u8);
        pixels.push(((i * 7) % 256) as u8);
        pixels.push(((i * 31) % 256) as u8);
    }
    let original = Image::new(w, h, pixels).unwrap();
    let back = decode(&encode_tiff(w, h, &original.pixels).unwrap()).unwrap();
    assert_eq!((back.width, back.height), (w, h));
    assert_eq!(back.pixels, original.pixels, "TIFF round trip lost pixels");
}

#[test]
fn a_grayscale_jpeg_loads_as_rgb() {
    let (w, h) = (16usize, 16usize);
    let mut pixels = Vec::with_capacity(w * h * 3);
    for i in 0..(w * h) {
        let v = ((i * 255) / (w * h)) as u8;
        pixels.extend_from_slice(&[v, v, v]);
    }
    let bytes = encode_jpeg(w, h, &pixels, 95).unwrap();
    let back = decode(&bytes).unwrap();
    for y in 0..h {
        for x in 0..w {
            let (r, g, b) = back.get_pixel(x, y);
            assert!(r.abs_diff(g) <= 2 && g.abs_diff(b) <= 2, "grey pixel came back coloured at ({x},{y}): {r},{g},{b}");
        }
    }
}

#[test]
fn an_oversized_jpeg_is_refused_with_a_reason() {
    let err = encode_jpeg(70_000, 1, &[], 90).unwrap_err();
    assert!(err.contains("65535"), "got {err}");
}

#[test]
fn an_interlaced_png_is_refused_with_a_reason() {
    let mut png = encode_png(2, 2, &[0; 12]);
    png[8 + 8 + 12] = 1;
    let err = decode_png(&png).unwrap_err();
    assert!(err.contains("interlaced"), "got {err}");
}

#[test]
fn a_truncated_or_headerless_png_says_which() {
    let png = encode_png(2, 2, &[0; 12]);
    let err = decode_png(&png[..20]).unwrap_err();
    assert!(err.contains("truncated") || err.contains("no header"), "got {err}");
    let err = decode_png(b"\x89PNG\r\n\x1a\n").unwrap_err();
    assert!(err.contains("no header"), "got {err}");
}

#[test]
fn the_paeth_predictor_matches_the_specification() {
    assert_eq!(paeth(1, 2, 3), 1);
    assert_eq!(paeth(10, 200, 20), 200);
    assert_eq!(paeth(10, 20, 15), 15);
    assert_eq!(paeth(0, 0, 0), 0);
    assert_eq!(paeth(10, 10, 5), 10);
}

#[test]
fn bmp_round_trip_is_pixel_exact() {
    let img = Image::new(
        3,
        2,
        vec![255, 0, 0, 0, 255, 0, 0, 0, 255, 255, 255, 0, 0, 255, 255, 255, 0, 255],
    )
    .unwrap();
    let bytes = encode_bmp(img.width, img.height, &img.pixels);
    let decoded = decode_bmp(&bytes).unwrap();
    assert_eq!(decoded, img);
}

#[test]
fn bmp_round_trip_odd_width_needs_row_padding() {
    let img = Image::filled(5, 3, (12, 200, 77));
    let bytes = encode_bmp(img.width, img.height, &img.pixels);
    let decoded = decode_bmp(&bytes).unwrap();
    assert_eq!(decoded, img);
}

#[test]
fn decode_bmp_rejects_bad_magic() {
    assert!(decode_bmp(&[0u8; 54]).is_err());
}

#[test]
fn decode_bmp_rejects_non_24bpp() {
    let mut bytes = encode_bmp(2, 2, &[0u8; 12]);
    bytes[28] = 32;
    bytes[29] = 0;
    assert!(decode_bmp(&bytes).is_err());
}

#[test]
fn grayscale_matches_hand_computed_bt601_luma() {
    let img = Image::new(4, 1, vec![255, 0, 0, 0, 255, 0, 0, 0, 255, 255, 255, 255]).unwrap();
    let gray = img.to_grayscale();
    let expect = |v: f64| (v.round().clamp(0.0, 255.0)) as u8;
    assert_eq!(gray.get_pixel(0, 0), (expect(0.299 * 255.0), expect(0.299 * 255.0), expect(0.299 * 255.0)));
    assert_eq!(gray.get_pixel(1, 0), (expect(0.587 * 255.0), expect(0.587 * 255.0), expect(0.587 * 255.0)));
    assert_eq!(gray.get_pixel(2, 0), (expect(0.114 * 255.0), expect(0.114 * 255.0), expect(0.114 * 255.0)));
    assert_eq!(gray.get_pixel(3, 0), (255, 255, 255));
}

#[test]
fn resize_nearest_2x_upsamples_each_pixel_into_a_2x2_block() {
    let img = Image::new(2, 1, vec![0, 0, 0, 255, 255, 255]).unwrap();
    let big = img.resize_nearest(4, 2);
    assert_eq!(big.width, 4);
    assert_eq!(big.height, 2);
    for y in 0..2 {
        assert_eq!(big.get_pixel(0, y), (0, 0, 0));
        assert_eq!(big.get_pixel(1, y), (0, 0, 0));
        assert_eq!(big.get_pixel(2, y), (255, 255, 255));
        assert_eq!(big.get_pixel(3, y), (255, 255, 255));
    }
}

#[test]
fn blur_of_a_single_bright_pixel_spreads_to_its_neighbors() {
    let mut img = Image::filled(5, 5, (0, 0, 0));
    img.set_pixel(2, 2, (255, 255, 255));
    let blurred = img.blur3x3();
    let (center, _, _) = blurred.get_pixel(2, 2);
    let expected_shared = (255.0 / 9.0_f64).round() as u8;
    assert_eq!(center, expected_shared);
    let (corner, _, _) = blurred.get_pixel(0, 0);
    assert_eq!(corner, 0);
    let (edge, _, _) = blurred.get_pixel(2, 1);
    assert_eq!(edge, expected_shared);
}

#[test]
fn crop_extracts_the_exact_subregion() {
    let img = Image::new(
        3,
        3,
        vec![1, 1, 1, 2, 2, 2, 3, 3, 3, 4, 4, 4, 5, 5, 5, 6, 6, 6, 7, 7, 7, 8, 8, 8, 9, 9, 9],
    )
    .unwrap();
    let cropped = img.crop(1, 1, 2, 1).unwrap();
    assert_eq!(cropped.width, 2);
    assert_eq!(cropped.height, 1);
    assert_eq!(cropped.get_pixel(0, 0), (5, 5, 5));
    assert_eq!(cropped.get_pixel(1, 0), (6, 6, 6));
}

#[test]
fn crop_out_of_bounds_is_a_clear_error() {
    let img = Image::filled(2, 2, (1, 2, 3));
    assert!(img.crop(1, 1, 5, 5).is_err());
}

#[test]
fn flip_horizontal_reverses_columns() {
    let img = Image::new(3, 1, vec![1, 1, 1, 2, 2, 2, 3, 3, 3]).unwrap();
    let flipped = img.flip_horizontal();
    assert_eq!(flipped.get_pixel(0, 0), (3, 3, 3));
    assert_eq!(flipped.get_pixel(1, 0), (2, 2, 2));
    assert_eq!(flipped.get_pixel(2, 0), (1, 1, 1));
}

#[test]
fn flip_vertical_reverses_rows() {
    let img = Image::new(1, 3, vec![1, 1, 1, 2, 2, 2, 3, 3, 3]).unwrap();
    let flipped = img.flip_vertical();
    assert_eq!(flipped.get_pixel(0, 0), (3, 3, 3));
    assert_eq!(flipped.get_pixel(0, 1), (2, 2, 2));
    assert_eq!(flipped.get_pixel(0, 2), (1, 1, 1));
}

#[test]
fn new_rejects_a_mismatched_pixel_buffer_length() {
    assert!(Image::new(2, 2, vec![0, 0, 0]).is_err());
}

fn binary_from_grid(grid: &[&[u8]]) -> Image {
    let h = grid.len();
    let w = grid[0].len();
    let mut img = Image::filled(w, h, (0, 0, 0));
    for (y, row) in grid.iter().enumerate() {
        for (x, &v) in row.iter().enumerate() {
            let g = if v != 0 { 255 } else { 0 };
            img.set_pixel(x, y, (g, g, g));
        }
    }
    img
}

#[test]
fn erode_radius1_shrinks_a_solid_square_by_exactly_one_ring() {
    let img = binary_from_grid(&[
        &[0, 0, 0, 0, 0, 0, 0],
        &[0, 1, 1, 1, 1, 1, 0],
        &[0, 1, 1, 1, 1, 1, 0],
        &[0, 1, 1, 1, 1, 1, 0],
        &[0, 1, 1, 1, 1, 1, 0],
        &[0, 1, 1, 1, 1, 1, 0],
        &[0, 0, 0, 0, 0, 0, 0],
    ]);
    let eroded = img.erode(1);
    for y in 0..7 {
        for x in 0..7 {
            let expect_fg = (2..=4).contains(&x) && (2..=4).contains(&y);
            assert_eq!(eroded.is_foreground(x, y), expect_fg, "mismatch at ({x},{y})");
        }
    }
}

#[test]
fn dilate_radius1_grows_a_single_pixel_into_a_3x3_block() {
    let mut img = Image::filled(7, 7, (0, 0, 0));
    img.set_pixel(3, 3, (255, 255, 255));
    let dilated = img.dilate(1);
    for y in 0..7 {
        for x in 0..7 {
            let expect_fg = (2..=4).contains(&x) && (2..=4).contains(&y);
            assert_eq!(dilated.is_foreground(x, y), expect_fg, "mismatch at ({x},{y})");
        }
    }
}

#[test]
fn open_removes_a_speck_smaller_than_the_structuring_element() {
    let mut img = Image::filled(9, 9, (0, 0, 0));
    img.set_pixel(4, 4, (255, 255, 255));
    let opened = img.open(1);
    assert!(!opened.pixels.iter().any(|&p| p != 0), "a lone speck must not survive opening");
}

#[test]
fn open_preserves_a_solid_region_at_least_as_large_as_the_structuring_element() {
    let img = binary_from_grid(&[
        &[0, 0, 0, 0, 0],
        &[0, 1, 1, 1, 0],
        &[0, 1, 1, 1, 0],
        &[0, 1, 1, 1, 0],
        &[0, 0, 0, 0, 0],
    ]);
    let opened = img.open(1);
    assert_eq!(opened, img, "a region already >= the structuring element survives opening unchanged");
}

#[test]
fn close_fills_a_hole_smaller_than_the_structuring_element() {
    let mut img = Image::filled(7, 7, (255, 255, 255));
    img.set_pixel(3, 3, (0, 0, 0));
    let closed = img.close(1);
    assert!(closed.is_foreground(3, 3), "closing should fill a small hole");
    assert!(closed.pixels.iter().all(|&p| p == 255), "closing must not erode the surrounding solid block");
}

#[test]
fn tophat_isolates_a_small_bright_speck_on_a_bright_background_plateau() {
    let mut img = Image::filled(9, 9, (100, 100, 100));
    img.set_pixel(4, 4, (200, 200, 200));
    let th = img.tophat(1);
    assert_eq!(th.get_pixel(0, 0), (0, 0, 0));
    let (v, _, _) = th.get_pixel(4, 4);
    assert!(v > 0, "expected the isolated bright speck to survive top-hat, got {v}");
}

#[test]
fn bothat_isolates_a_small_dark_speck_on_a_dark_background_plateau() {
    let mut img = Image::filled(9, 9, (150, 150, 150));
    img.set_pixel(4, 4, (50, 50, 50));
    let bh = img.bothat(1);
    assert_eq!(bh.get_pixel(0, 0), (0, 0, 0));
    let (v, _, _) = bh.get_pixel(4, 4);
    assert!(v > 0, "expected the isolated dark speck to survive bottom-hat, got {v}");
}

#[test]
fn label_components_counts_two_separate_blobs_with_correct_areas() {
    let img = binary_from_grid(&[
        &[1, 1, 0, 0, 0, 0],
        &[1, 1, 0, 0, 0, 0],
        &[0, 0, 0, 0, 0, 0],
        &[0, 0, 0, 1, 1, 1],
        &[0, 0, 0, 0, 0, 0],
    ]);
    let (labels, count) = img.label_components(8).unwrap();
    assert_eq!(count, 2);
    let area_of = |lbl: u32| labels.iter().filter(|&&v| v == lbl).count();
    assert_eq!(area_of(1), 4);
    assert_eq!(area_of(2), 3);
    assert_eq!(labels.iter().filter(|&&v| v == 0).count(), 30 - 4 - 3);
}

#[test]
fn label_components_8_connectivity_merges_a_diagonal_touch_that_4_connectivity_keeps_separate() {
    let img = binary_from_grid(&[&[1, 0], &[0, 1]]);
    let (_, count4) = img.label_components(4).unwrap();
    let (_, count8) = img.label_components(8).unwrap();
    assert_eq!(count4, 2, "4-connectivity must not merge a purely diagonal touch");
    assert_eq!(count8, 1, "8-connectivity must merge a diagonal touch");
}

#[test]
fn label_components_rejects_an_invalid_connectivity() {
    let img = Image::filled(3, 3, (0, 0, 0));
    assert!(img.label_components(6).is_err());
}

#[test]
fn equalize_matches_hand_computed_cdf_lookup_on_a_skewed_grayscale_histogram() {
    let vals = [0u8, 0, 0, 0, 64, 64, 128, 255];
    let mut pixels = Vec::new();
    for &v in &vals {
        pixels.push(v);
        pixels.push(v);
        pixels.push(v);
    }
    let img = Image::new(8, 1, pixels).unwrap();
    let eq = img.equalize();
    let expect = |v: u8| -> u8 {
        match v {
            0 => 0,
            64 => 128,
            128 => 191,
            255 => 255,
            _ => unreachable!(),
        }
    };
    for (i, &v) in vals.iter().enumerate() {
        let (r, g, b) = eq.get_pixel(i, 0);
        let e = expect(v);
        assert_eq!((r, g, b), (e, e, e), "pixel {i} (orig luma {v}) expected {e}, got {r}");
    }
}

#[test]
fn equalize_widens_a_narrow_histogram_spread() {
    let img = Image::new(6, 1, vec![
        100, 100, 100, 102, 102, 102, 104, 104, 104,
        106, 106, 106, 108, 108, 108, 110, 110, 110,
    ]).unwrap();
    let eq = img.equalize();
    let orig_spread = 110 - 100;
    let (min_v, max_v) = eq.pixels.iter().fold((255u8, 0u8), |(lo, hi), &p| (lo.min(p), hi.max(p)));
    assert!(
        (max_v - min_v) as i32 > orig_spread,
        "expected equalize to widen the spread beyond {orig_spread}, got {}",
        max_v - min_v
    );
}

#[test]
fn equalize_preserves_color_ratio_via_luma_remap_not_grayscale_conversion() {
    let mut pixels = vec![180, 60, 30];
    for v in [0u8, 40, 90, 140, 200, 255, 255, 255] {
        pixels.push(v);
        pixels.push(v);
        pixels.push(v);
    }
    let img = Image::new(9, 1, pixels).unwrap();
    let eq = img.equalize();
    let (r, g, b) = eq.get_pixel(0, 0);
    assert!(g > 0 && b > 0, "a colored pixel must not collapse to black");
    let new_rg = r as f64 / g as f64;
    let new_gb = g as f64 / b as f64;
    assert!((new_rg - 3.0).abs() < 0.2, "R:G ratio should stay ~3.0, got {new_rg}");
    assert!((new_gb - 2.0).abs() < 0.2, "G:B ratio should stay ~2.0, got {new_gb}");
}

#[test]
fn crc32_matches_the_standard_conformance_vector() {
    assert_eq!(crc32(b"123456789"), 0xCBF4_3926);
}

#[test]
fn crc32_of_empty_input_is_zero() {
    assert_eq!(crc32(b""), 0);
}

#[test]
fn image_adler32_matches_the_standard_worked_example() {
    assert_eq!(adler32(b"Wikipedia"), 0x11E6_0398);
}

#[test]
fn adler32_of_empty_input_is_one() {
    assert_eq!(adler32(b""), 1);
}

/// A deliberately narrow PNG reader for what `encode_png` emits: one IHDR,
/// IDAT chunks of stored deflate blocks, filter type 0 on every row.
fn test_decode_png(bytes: &[u8]) -> (usize, usize, Vec<u8>) {
    assert_eq!(&bytes[0..8], &[0x89, 0x50, 0x4E, 0x47, 0x0D, 0x0A, 0x1A, 0x0A], "bad PNG signature");
    let mut pos = 8;
    let mut width = 0usize;
    let mut height = 0usize;
    let mut idat: Vec<u8> = Vec::new();
    loop {
        let len = u32::from_be_bytes(bytes[pos..pos + 4].try_into().unwrap()) as usize;
        let kind = &bytes[pos + 4..pos + 8];
        let data = &bytes[pos + 8..pos + 8 + len];
        let crc_stored = u32::from_be_bytes(bytes[pos + 8 + len..pos + 12 + len].try_into().unwrap());
        let mut crc_input = Vec::with_capacity(4 + len);
        crc_input.extend_from_slice(kind);
        crc_input.extend_from_slice(data);
        assert_eq!(crc32(&crc_input), crc_stored, "bad chunk CRC for {:?}", std::str::from_utf8(kind));
        match kind {
            b"IHDR" => {
                width = u32::from_be_bytes(data[0..4].try_into().unwrap()) as usize;
                height = u32::from_be_bytes(data[4..8].try_into().unwrap()) as usize;
                assert_eq!(data[8], 8, "expected 8-bit depth");
                assert_eq!(data[9], 2, "expected truecolor (no alpha) color type");
            }
            b"IDAT" => idat.extend_from_slice(data),
            b"IEND" => break,
            other => panic!("unexpected chunk {:?}", std::str::from_utf8(other)),
        }
        pos += 12 + len;
    }
    assert_eq!(idat[0], 0x78);
    assert_eq!(idat[1], 0x01);
    let mut raw = Vec::new();
    let mut p = 2;
    loop {
        let bfinal = idat[p] & 1;
        let btype = (idat[p] >> 1) & 0b11;
        assert_eq!(btype, 0, "only stored (uncompressed) blocks are expected");
        let block_len = u16::from_le_bytes(idat[p + 1..p + 3].try_into().unwrap()) as usize;
        let nlen = u16::from_le_bytes(idat[p + 3..p + 5].try_into().unwrap());
        assert_eq!(nlen, !(block_len as u16), "LEN/NLEN one's-complement mismatch");
        raw.extend_from_slice(&idat[p + 5..p + 5 + block_len]);
        p += 5 + block_len;
        if bfinal == 1 {
            break;
        }
    }
    let adler_stored = u32::from_be_bytes(idat[p..p + 4].try_into().unwrap());
    assert_eq!(adler32(&raw), adler_stored, "Adler-32 trailer mismatch");
    let mut pixels = Vec::with_capacity(width * height * 3);
    let row_bytes = width * 3;
    for row in raw.chunks_exact(1 + row_bytes) {
        assert_eq!(row[0], 0, "only filter type 0 (None) is expected");
        pixels.extend_from_slice(&row[1..]);
    }
    (width, height, pixels)
}

#[test]
fn png_round_trip_is_pixel_exact() {
    let img = Image::new(
        3,
        2,
        vec![255, 0, 0, 0, 255, 0, 0, 0, 255, 255, 255, 0, 0, 255, 255, 255, 0, 255],
    )
    .unwrap();
    let bytes = encode_png(img.width, img.height, &img.pixels);
    let (w, h, pixels) = test_decode_png(&bytes);
    assert_eq!((w, h), (img.width, img.height));
    assert_eq!(pixels, img.pixels);
}

#[test]
fn png_round_trip_survives_a_stored_block_boundary() {
    let width = 200;
    let height = 200;
    let mut pixels = Vec::with_capacity(width * height * 3);
    for y in 0..height {
        for x in 0..width {
            pixels.push((x % 256) as u8);
            pixels.push((y % 256) as u8);
            pixels.push(((x + y) % 256) as u8);
        }
    }
    let bytes = encode_png(width, height, &pixels);
    let (w, h, decoded) = test_decode_png(&bytes);
    assert_eq!((w, h), (width, height));
    assert_eq!(decoded, pixels);
}

#[test]
fn png_signature_and_chunk_order_are_well_formed() {
    let img = Image::filled(4, 4, (10, 20, 30));
    let bytes = encode_png(img.width, img.height, &img.pixels);
    assert_eq!(&bytes[0..8], &[0x89, 0x50, 0x4E, 0x47, 0x0D, 0x0A, 0x1A, 0x0A]);
    assert_eq!(&bytes[12..16], b"IHDR");
    assert_eq!(&bytes[bytes.len() - 8..bytes.len() - 4], b"IEND");
}

#[test]
fn grayscale_rounds_a_tie_the_way_double_arithmetic_does() {
    // 0.587 * 36 + 0.114 * 12 is 22.5 on paper; in doubles it is a hair
    // below, so it rounds to 22.
    let img = Image::filled(1, 1, (0, 36, 12));
    assert_eq!(img.to_grayscale().get_pixel(0, 0), (22, 22, 22));
    let img = Image::filled(1, 1, (255, 255, 255));
    assert_eq!(img.to_grayscale().get_pixel(0, 0), (255, 255, 255));
    let img = Image::filled(1, 1, (65, 105, 225));
    assert_eq!(img.to_grayscale().get_pixel(0, 0), (107, 107, 107));
}

#[test]
fn a_flat_image_is_fixed_by_sharpening_and_has_no_edges() {
    let img = Image::filled(4, 3, (12, 200, 77));
    assert_eq!(img.sharpen3x3().pixels, img.pixels);
    assert_eq!(img.edge_detect3x3().pixels, Image::filled(4, 3, (0, 0, 0)).pixels);
}

#[test]
fn flipping_twice_and_opening_twice_change_nothing() {
    let mut img = Image::filled(5, 4, (0, 0, 0));
    for (i, p) in img.pixels.iter_mut().enumerate() {
        *p = ((i * 37) % 256) as u8;
    }
    assert_eq!(img.flip_horizontal().flip_horizontal().pixels, img.pixels);
    assert_eq!(img.flip_vertical().flip_vertical().pixels, img.pixels);
    let o = img.open(1);
    assert_eq!(o.open(1).pixels, o.pixels);
}

#[test]
fn jpeg_encoding_refuses_short_data_and_clamps_quality() {
    let img = Image::filled(4, 4, (10, 20, 30));
    assert!(encode_jpeg(4, 4, &img.pixels[..47], 90).is_err());
    assert!(encode_jpeg(0, 4, &img.pixels, 90).is_err());
    assert_eq!(encode_jpeg(4, 4, &img.pixels, 0).unwrap(), encode_jpeg(4, 4, &img.pixels, 1).unwrap());
    assert_eq!(encode_jpeg(4, 4, &img.pixels, 250).unwrap(), encode_jpeg(4, 4, &img.pixels, 100).unwrap());
}

#[test]
fn tiff_encoding_refuses_data_shorter_than_the_image() {
    let img = Image::filled(4, 4, (10, 20, 30));
    assert!(encode_tiff(4, 4, &img.pixels[..10]).is_err());
    assert!(encode_tiff(0, 4, &img.pixels).is_err());
    let t = encode_tiff(4, 4, &img.pixels).unwrap();
    assert_eq!(decode(&t).unwrap().pixels, img.pixels);
}

#[test]
fn nearest_resize_picks_the_pixel_double_arithmetic_picks() {
    // (24 + 0.5) * (2 / 49) - 0.5 is exactly 0.5 on paper, a hair below in
    // doubles, so the left pixel is taken.
    let img = Image::new(2, 1, vec![10, 10, 10, 200, 200, 200]).unwrap();
    let out = img.resize_nearest(49, 1);
    assert_eq!(out.get_pixel(24, 0), (10, 10, 10));
    assert_eq!(out.get_pixel(25, 0), (200, 200, 200));
    assert_eq!(out.get_pixel(0, 0), (10, 10, 10));
    assert_eq!(out.get_pixel(48, 0), (200, 200, 200));
}

#[test]
fn an_unknown_format_names_its_first_bytes() {
    let begins = "not an image this build can read -- expected a PNG, a BMP, a JPEG or a TIFF, and the file begins ";
    assert_eq!(decode(&[1, 0xab, 3, 4, 5]).unwrap_err(), format!("{begins}[01, ab, 03, 04]"));
    assert_eq!(decode(&[0x0f]).unwrap_err(), format!("{begins}[0f]"));
    assert_eq!(decode(&[]).unwrap_err(), format!("{begins}[]"));
}
