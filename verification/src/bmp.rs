//! 24-bit uncompressed BMP (`BITMAPFILEHEADER` + `BITMAPINFOHEADER`,
//! `BI_RGB`): rows bottom-up, BGR, each row padded to 4 bytes.

use vstd::prelude::*;
use crate::bytes::{le16, le32, get_le16, get_le32, push_le16, push_le32, lemma_le16_round_trip, lemma_le32_round_trip, read_le16, read_le32};
use crate::image::{Image, at, image_of, build_image, lemma_image_of_ext, lemma_image_of_self};
use crate::text;

verus! {

/// Bytes per BMP row: `width * 3` rounded up to a multiple of 4.
pub open spec fn row_size(width: int) -> int {
    ((width * 3 + 3) / 4) * 4
}

/// The 54 header bytes `encode_bmp` writes: `BM`, file size, two reserved
/// zeros, pixel offset 54, then a 40-byte `BITMAPINFOHEADER` (width,
/// height, 1 plane, 24 bits, `BI_RGB`, pixel data size, 2835 pixels per
/// metre both ways, no palette), all little-endian.
pub open spec fn bmp_header(width: int, height: int) -> Seq<u8> {
    bmp_file_header(row_size(width) * height) + bmp_info_header(width, height, row_size(width) * height)
}

/// The 14-byte `BITMAPFILEHEADER` for `pixel_bytes` bytes of pixel data.
pub open spec fn bmp_file_header(pixel_bytes: int) -> Seq<u8> {
    seq![0x42u8, 0x4Du8] + le32((54 + pixel_bytes) as u32) + le16(0) + le16(0) + le32(54)
}

/// The 40-byte `BITMAPINFOHEADER`.
pub open spec fn bmp_info_header(width: int, height: int, pixel_bytes: int) -> Seq<u8> {
    le32(40) + le32(width as u32) + le32(height as u32) + le16(1) + le16(24) + le32(0)
        + le32(pixel_bytes as u32) + le32(2835) + le32(2835) + le32(0) + le32(0)
}

/// Image row `y` as BMP stores it: BGR triples, then zero padding.
pub open spec fn bmp_row(rgb: Seq<u8>, width: int, y: int) -> Seq<u8> {
    Seq::new((width * 3) as nat, |k: int| at(rgb, width, k / 3, y, 2 - k % 3))
        + Seq::new((row_size(width) - width * 3) as nat, |k: int| 0u8)
}

/// The last `k` image rows, bottom row first.
pub open spec fn bmp_rows(rgb: Seq<u8>, width: int, height: int, k: nat) -> Seq<u8>
    decreases k,
{
    if k == 0 { seq![] } else { bmp_rows(rgb, width, height, (k - 1) as nat) + bmp_row(rgb, width, height - k) }
}

/// The complete file `encode_bmp` writes.
pub open spec fn spec_encode_bmp(width: int, height: int, rgb: Seq<u8>) -> Seq<u8> {
    bmp_header(width, height) + bmp_rows(rgb, width, height, height as nat)
}

proof fn lemma_row_size(width: int)
    requires
        width >= 0,
    ensures
        width * 3 <= row_size(width) <= width * 3 + 3,
        row_size(width) % 4 == 0,
{
}

/// Encodes `width x height` row-major RGB pixels as a 24-bit uncompressed
/// BMP: rows written bottom-up and padded to a 4-byte boundary, BGR order.
pub fn encode_bmp(width: usize, height: usize, rgb: &[u8]) -> (out: Vec<u8>)
    requires
        rgb@.len() == width * height * 3,
        width * 3 <= usize::MAX,
        row_size(width as int) <= usize::MAX,
        54 + row_size(width as int) * height <= usize::MAX,
    ensures
        out@ == spec_encode_bmp(width as int, height as int, rgb@),
{
    proof {
        lemma_row_size(width as int);
        assert(0 <= row_size(width as int) * height) by (nonlinear_arith)
            requires row_size(width as int) >= 0;
        if height > 0 {
            assert(row_size(width as int) <= row_size(width as int) * height) by (nonlinear_arith)
                requires height >= 1, row_size(width as int) >= 0;
        }
    }
    let n = rgb.len();
    let row = ((width * 3) / 4 + if (width * 3) % 4 != 0 { 1 } else { 0 }) * 4;
    assert(row == row_size(width as int));
    let pixel_data_size = row * height;
    let file_size = 54 + pixel_data_size;
    let mut data: Vec<u8> = Vec::new();
    data.push(0x42);
    data.push(0x4D);
    push_le32(&mut data, #[verifier::truncate] (file_size as u32));
    push_le16(&mut data, 0);
    push_le16(&mut data, 0);
    push_le32(&mut data, 54);
    push_le32(&mut data, 40);
    push_le32(&mut data, #[verifier::truncate] (width as u32));
    push_le32(&mut data, #[verifier::truncate] (height as u32));
    push_le16(&mut data, 1);
    push_le16(&mut data, 24);
    push_le32(&mut data, 0);
    push_le32(&mut data, #[verifier::truncate] (pixel_data_size as u32));
    push_le32(&mut data, 2835);
    push_le32(&mut data, 2835);
    push_le32(&mut data, 0);
    push_le32(&mut data, 0);
    assert(data@ =~= bmp_header(width as int, height as int));
    let pad = row - width * 3;
    let mut k: usize = 0;
    while k < height
        invariant
            k <= height,
            rgb@.len() == width * height * 3,
            n == rgb@.len(),
            row == row_size(width as int),
            pad == row - width * 3,
            54 + row * height <= usize::MAX,
            data@ == bmp_header(width as int, height as int) + bmp_rows(rgb@, width as int, height as int, k as nat),
            data@.len() == 54 + row * k,
        decreases height - k,
    {
        let y = height - 1 - k;
        let ghost before = data@;
        proof {
            assert(y * width * 3 + width * 3 <= width * height * 3) by (nonlinear_arith)
                requires y < height, width >= 0;
            assert(row * k + row <= row * height) by (nonlinear_arith)
                requires k < height, row >= 0;
            assert(y * width <= y * width * 3) by (nonlinear_arith) requires y >= 0, width >= 0;
        }
        let row_start = y * width * 3;
        let mut x: usize = 0;
        while x < width
            invariant
                x <= width,
                y < height,
                row_start == y * width * 3,
                rgb@.len() == width * height * 3,
                n == rgb@.len(),
                y * width * 3 + width * 3 <= width * height * 3,
                data@ == before + Seq::new((x * 3) as nat, |j: int| at(rgb@, width as int, j / 3, y as int, 2 - j % 3)),
            decreases width - x,
        {
            let i = row_start + x * 3;
            assert(i + 3 <= rgb@.len()) by (nonlinear_arith)
                requires i == y * width * 3 + x * 3, x < width, y * width * 3 + width * 3 <= width * height * 3, rgb@.len() == width * height * 3;
            data.push(rgb[i + 2]);
            data.push(rgb[i + 1]);
            data.push(rgb[i]);
            proof {
                assert forall|j: int| 0 <= j < (x + 1) * 3 implies #[trigger] data@[before.len() + j]
                    == at(rgb@, width as int, j / 3, y as int, 2 - j % 3) by {
                    assert((y * width + j / 3) * 3 + (2 - j % 3) == y * width * 3 + (j / 3) * 3 + 2 - j % 3) by (nonlinear_arith);
                    if j >= x * 3 {
                        assert(j / 3 == x);
                    }
                }
                assert(data@ =~= before + Seq::new(((x + 1) * 3) as nat, |j: int| at(rgb@, width as int, j / 3, y as int, 2 - j % 3)));
            }
            x = x + 1;
        }
        let mut z: usize = 0;
        while z < pad
            invariant
                z <= pad,
                data@ == before + Seq::new((width * 3) as nat, |j: int| at(rgb@, width as int, j / 3, y as int, 2 - j % 3))
                    + Seq::new(z as nat, |j: int| 0u8),
            decreases pad - z,
        {
            data.push(0);
            proof {
                let a = before + Seq::new((width * 3) as nat, |j: int| at(rgb@, width as int, j / 3, y as int, 2 - j % 3));
                assert(a + Seq::new((z + 1) as nat, |j: int| 0u8) =~= (a + Seq::new(z as nat, |j: int| 0u8)).push(0u8));
            }
            z = z + 1;
        }
        proof {
            assert(bmp_row(rgb@, width as int, y as int) =~= Seq::new((width * 3) as nat, |j: int| at(rgb@, width as int, j / 3, y as int, 2 - j % 3))
                + Seq::new(pad as nat, |j: int| 0u8));
            assert(y == height - (k + 1));
            assert(row * (k + 1) == row * k + row) by (nonlinear_arith);
            assert(data@ =~= bmp_header(width as int, height as int) + bmp_rows(rgb@, width as int, height as int, (k + 1) as nat));
        }
        k = k + 1;
    }
    data
}

/// The pixel-data offset field.
pub open spec fn bmp_offset(b: Seq<u8>) -> int {
    get_le32(b, 10) as int
}

/// The (signed) width field.
pub open spec fn bmp_width(b: Seq<u8>) -> int {
    (get_le32(b, 18) as i32) as int
}

/// The (signed) height field; negative means rows are stored top-down.
pub open spec fn bmp_height_raw(b: Seq<u8>) -> int {
    (get_le32(b, 22) as i32) as int
}

/// The image height.
pub open spec fn bmp_height(b: Seq<u8>) -> int {
    if bmp_height_raw(b) < 0 { -bmp_height_raw(b) } else { bmp_height_raw(b) }
}

/// `b` is a 24-bit uncompressed BMP this decoder reads: header present,
/// `BM` magic, a `BITMAPINFOHEADER`-sized DIB header, `BI_RGB`, 24 bits per
/// pixel, positive width, nonzero height, and every row inside the file.
pub open spec fn bmp_ok(b: Seq<u8>) -> bool {
    &&& b.len() >= 54
    &&& b[0] == 0x42 && b[1] == 0x4D
    &&& get_le32(b, 14) >= 40
    &&& get_le32(b, 30) == 0
    &&& get_le16(b, 28) == 24
    &&& bmp_width(b) > 0
    &&& bmp_height_raw(b) != 0
    &&& bmp_offset(b) + (bmp_height(b) - 1) * row_size(bmp_width(b)) + bmp_width(b) * 3 <= b.len()
}

/// The file row that holds image row `y`.
pub open spec fn bmp_src_row(b: Seq<u8>, y: int) -> int {
    if bmp_height_raw(b) < 0 { y } else { bmp_height(b) - 1 - y }
}

/// Channel `c` of image pixel `(x, y)` as stored in the file (BGR order).
pub open spec fn bmp_pixel(b: Seq<u8>, x: int, y: int, c: int) -> u8 {
    b[bmp_offset(b) + bmp_src_row(b, y) * row_size(bmp_width(b)) + x * 3 + 2 - c]
}

/// Decodes a 24-bit uncompressed BMP into an [`Image`], bottom-up or
/// top-down. Anything compressed, palette-indexed or not 24 bits per pixel
/// is an error, as is a header or pixel area that the file is too short for.
pub fn decode_bmp(bytes: &[u8]) -> (r: Result<Image, String>)
    ensures
        r is Ok <==> bmp_ok(bytes@),
        r matches Ok(img) ==> {
            &&& img.wf()
            &&& img.width == bmp_width(bytes@)
            &&& img.height == bmp_height(bytes@)
            &&& img.pixels@ == image_of(img.width as int, img.height as int,
                |x: int, y: int, c: int| bmp_pixel(bytes@, x, y, c))
        },
{
    if bytes.len() < 54 {
        return Err(text::owned("not a valid BMP file (shorter than the minimum 54-byte header)"));
    }
    if bytes[0] != 0x42 || bytes[1] != 0x4D {
        return Err(text::owned("not a BMP file (missing the 'BM' magic bytes)"));
    }
    let pixel_offset = read_le32(bytes, 10);
    let dib_size = read_le32(bytes, 14);
    if dib_size < 40 {
        return Err(text::with_number(
            "unsupported BMP: DIB header must be BITMAPINFOHEADER (40 bytes), got ",
            dib_size as u64,
            "",
        ));
    }
    let width_raw = read_le32(bytes, 18) as i32;
    let height_raw = read_le32(bytes, 22) as i32;
    let bpp = read_le16(bytes, 28);
    let compression = read_le32(bytes, 30);
    if compression != 0 {
        return Err(text::with_number(
            "unsupported BMP: only uncompressed BI_RGB is supported (compression code ",
            compression as u64,
            ")",
        ));
    }
    if bpp != 24 {
        return Err(text::with_number("unsupported BMP: only 24-bit RGB is supported, found ", bpp as u64, "-bit"));
    }
    if width_raw <= 0 {
        return Err(text::owned("invalid BMP width (not positive)"));
    }
    if height_raw == 0 {
        return Err(text::owned("invalid BMP height 0"));
    }
    let width64: u64 = width_raw as u64;
    let top_down = height_raw < 0;
    let height64: u64 = if top_down { (0 - (height_raw as i64)) as u64 } else { height_raw as u64 };
    let row64: u64 = ((width64 * 3) / 4 + if (width64 * 3) % 4 != 0 { 1 } else { 0 }) * 4;
    proof {
        assert(row64 == row_size(width64 as int));
        assert((height64 - 1) * row64 <= 0x8000_0000 * 0x1_8000_0000) by (nonlinear_arith)
            requires height64 <= 0x8000_0000, row64 <= 0x1_8000_0000, height64 >= 1;
    }
    let last_end: u64 = pixel_offset as u64 + (height64 - 1) * row64 + width64 * 3;
    if last_end > bytes.len() as u64 {
        return Err(text::owned("BMP file is truncated (pixel data runs past the end of the file)"));
    }
    let n = bytes.len();
    proof {
        lemma_row_size(width64 as int);
        assert(height64 * width64 * 3 <= (height64 - 1) * row64 + width64 * 3) by (nonlinear_arith)
            requires width64 * 3 <= row64, height64 >= 1;
        assert(height64 <= height64 * width64 * 3) by (nonlinear_arith)
            requires width64 >= 1, height64 >= 1;
        assert(width64 * height64 * 3 == height64 * width64 * 3) by (nonlinear_arith);
    }
    let width = width64 as usize;
    let height = height64 as usize;
    let ghost f = |x: int, y: int, c: int| bmp_pixel(bytes@, x, y, c);
    let source = |x: usize, y: usize| -> (v: (u8, u8, u8))
        requires
            x < width,
            y < height,
            width == width64,
            height == height64,
            width64 == bmp_width(bytes@),
            height64 == bmp_height(bytes@),
            row64 == row_size(width64 as int),
            pixel_offset == bmp_offset(bytes@),
            top_down == (bmp_height_raw(bytes@) < 0),
            n == bytes@.len(),
            pixel_offset + (height64 - 1) * row64 + width64 * 3 <= n,
        ensures
            v.0 == f(x as int, y as int, 0) && v.1 == f(x as int, y as int, 1) && v.2 == f(x as int, y as int, 2),
        {
            let yy = y as u64;
            let src_row: u64 = if top_down { yy } else { height64 - 1 - yy };
            proof {
                assert(src_row * row64 <= (height64 - 1) * row64) by (nonlinear_arith)
                    requires src_row <= height64 - 1, row64 >= 0;
            }
            let si64: u64 = pixel_offset as u64 + src_row * row64 + (x as u64) * 3;
            let si = si64 as usize;
            (bytes[si + 2], bytes[si + 1], bytes[si])
        };
    let pixels = build_image(width, height, source, Ghost(f));
    Ok(Image { width, height, pixels })
}

/// Reads of a little-endian field see the bytes that were written there.
proof fn lemma_le32_at(s: Seq<u8>, i: int, v: u32)
    requires
        0 <= i,
        i + 4 <= s.len(),
        s[i] == le32(v)[0] && s[i + 1] == le32(v)[1] && s[i + 2] == le32(v)[2] && s[i + 3] == le32(v)[3],
    ensures
        get_le32(s, i) == v,
{
    lemma_le32_round_trip(v);
}

proof fn lemma_le16_at(s: Seq<u8>, i: int, v: u16)
    requires
        0 <= i,
        i + 2 <= s.len(),
        s[i] == le16(v)[0] && s[i + 1] == le16(v)[1],
    ensures
        get_le16(s, i) == v,
{
    lemma_le16_round_trip(v);
}

/// Row `j` from the bottom of the stored rows is image row `height - 1 - j`.
proof fn lemma_bmp_rows_index(rgb: Seq<u8>, width: int, height: int, k: nat, j: int, t: int)
    requires
        width >= 0,
        0 <= j < k,
        0 <= t < row_size(width),
    ensures
        bmp_rows(rgb, width, height, k).len() == k * row_size(width),
        bmp_rows(rgb, width, height, k)[j * row_size(width) + t] == bmp_row(rgb, width, height - 1 - j)[t],
    decreases k,
{
    lemma_row_size(width);
    let k1 = (k - 1) as nat;
    if k1 > 0 {
        lemma_bmp_rows_len(rgb, width, height, k1);
    }
    lemma_bmp_rows_len(rgb, width, height, k);
    if j < k1 {
        lemma_bmp_rows_index(rgb, width, height, k1, j, t);
        assert(j * row_size(width) + row_size(width) <= k1 * row_size(width)) by (nonlinear_arith)
            requires j + 1 <= k1, row_size(width) >= 0;
    } else {
        assert(j * row_size(width) == k1 * row_size(width));
    }
}

proof fn lemma_bmp_rows_len(rgb: Seq<u8>, width: int, height: int, k: nat)
    requires
        width >= 0,
    ensures
        bmp_rows(rgb, width, height, k).len() == k * row_size(width),
    decreases k,
{
    lemma_row_size(width);
    if k == 0 {
        assert(k * row_size(width) == 0) by (nonlinear_arith) requires k == 0;
    } else {
        lemma_bmp_rows_len(rgb, width, height, (k - 1) as nat);
        assert(bmp_row(rgb, width, height - k).len() == row_size(width));
        assert((k - 1) * row_size(width) + row_size(width) == k * row_size(width)) by (nonlinear_arith);
    }
}

proof fn lemma_bmp_header_fields(width: int, height: int, rows: Seq<u8>)
    requires
        0 < width <= 0x7fff_ffff,
        0 < height <= 0x7fff_ffff,
    ensures
        ({
            let e = bmp_header(width, height) + rows;
            &&& e.len() == 54 + rows.len()
            &&& e[0] == 0x42 && e[1] == 0x4D
            &&& bmp_offset(e) == 54
            &&& get_le32(e, 14) == 40
            &&& get_le16(e, 28) == 24
            &&& get_le32(e, 30) == 0
            &&& bmp_width(e) == width
            &&& bmp_height_raw(e) == height
        }),
{
    let ps = row_size(width) * height;
    let fh = bmp_file_header(ps);
    let ih = bmp_info_header(width, height, ps);
    let e = bmp_header(width, height) + rows;
    let wv = width as u32;
    let hv = height as u32;
    assert(fh.len() == 14 && ih.len() == 40);
    assert forall|k: int| 0 <= k < 14 implies #[trigger] e[k] == fh[k] by {}
    assert forall|k: int| 0 <= k < 40 implies #[trigger] e[14 + k] == ih[k] by {}
    assert(fh[10] == le32(54)[0] && fh[11] == le32(54)[1] && fh[12] == le32(54)[2] && fh[13] == le32(54)[3]);
    assert(e[10] == fh[10] && e[11] == fh[11] && e[12] == fh[12] && e[13] == fh[13]);
    lemma_le32_at(e, 10, 54);
    assert(e[14] == ih[0] && e[15] == ih[1] && e[16] == ih[2] && e[17] == ih[3]);
    lemma_le32_at(e, 14, 40);
    assert(ih[4] == le32(wv)[0] && ih[5] == le32(wv)[1] && ih[6] == le32(wv)[2] && ih[7] == le32(wv)[3]);
    assert(e[18] == ih[4] && e[19] == ih[5] && e[20] == ih[6] && e[21] == ih[7]);
    lemma_le32_at(e, 18, wv);
    assert(ih[8] == le32(hv)[0] && ih[9] == le32(hv)[1] && ih[10] == le32(hv)[2] && ih[11] == le32(hv)[3]);
    assert(e[22] == ih[8] && e[23] == ih[9] && e[24] == ih[10] && e[25] == ih[11]);
    lemma_le32_at(e, 22, hv);
    assert(ih[14] == le16(24)[0] && ih[15] == le16(24)[1]);
    assert(e[28] == ih[14] && e[29] == ih[15]);
    lemma_le16_at(e, 28, 24);
    assert(ih[16] == le32(0)[0] && ih[17] == le32(0)[1] && ih[18] == le32(0)[2] && ih[19] == le32(0)[3]);
    assert(e[30] == ih[16] && e[31] == ih[17] && e[32] == ih[18] && e[33] == ih[19]);
    lemma_le32_at(e, 30, 0);
    assert(wv as i32 == wv) by (bit_vector)
        requires wv <= 0x7fff_ffffu32;
    assert(hv as i32 == hv) by (bit_vector)
        requires hv <= 0x7fff_ffffu32;
}

/// Decoding what [`encode_bmp`] wrote gives back the same image, for any
/// size whose width and height fit the format's signed 32-bit fields.
pub proof fn lemma_bmp_round_trip(width: int, height: int, rgb: Seq<u8>)
    requires
        0 < width <= 0x7fff_ffff,
        0 < height <= 0x7fff_ffff,
        rgb.len() == width * height * 3,
    ensures
        bmp_ok(spec_encode_bmp(width, height, rgb)),
        bmp_width(spec_encode_bmp(width, height, rgb)) == width,
        bmp_height(spec_encode_bmp(width, height, rgb)) == height,
        image_of(width, height, |x: int, y: int, c: int| bmp_pixel(spec_encode_bmp(width, height, rgb), x, y, c)) == rgb,
{
    let e = spec_encode_bmp(width, height, rgb);
    let rows = bmp_rows(rgb, width, height, height as nat);
    let rs = row_size(width);
    lemma_row_size(width);
    lemma_bmp_rows_len(rgb, width, height, height as nat);
    lemma_bmp_header_fields(width, height, rows);
    assert(e.len() == 54 + height * rs);
    assert((height - 1) * rs + width * 3 <= height * rs) by (nonlinear_arith)
        requires width * 3 <= rs, height >= 1;
    assert(bmp_ok(e));
    assert forall|x: int, y: int, c: int| 0 <= x < width && 0 <= y < height && 0 <= c < 3
        implies #[trigger] bmp_pixel(e, x, y, c) == at(rgb, width, x, y, c) by {
        let j = height - 1 - y;
        let t = x * 3 + 2 - c;
        lemma_bmp_rows_index(rgb, width, height, height as nat, j, t);
        assert(bmp_src_row(e, y) == j);
        assert(0 <= j * rs) by (nonlinear_arith) requires j >= 0, rs >= 0;
        assert(j * rs + t < height * rs) by (nonlinear_arith) requires 0 <= j < height, 0 <= t < rs;
        assert(e[54 + j * rs + t] == rows[j * rs + t]);
        assert(t / 3 == x);
        assert(2 - t % 3 == c);
        assert(bmp_row(rgb, width, height - 1 - j)[t] == at(rgb, width, x, y, c));
    }
    lemma_image_of_ext(width, height, |x: int, y: int, c: int| bmp_pixel(e, x, y, c), |x: int, y: int, c: int| at(rgb, width, x, y, c));
    lemma_image_of_self(rgb, width, height);
}

} // verus!
