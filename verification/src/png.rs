//! PNG: a writer that emits uncompressed (stored-block) zlib data, and a
//! reader for non-interlaced images of every bit depth and colour type.

use vstd::prelude::*;
use crate::bytes::{be32, le16, push_be32, push_le16, push_all, push_range};
use crate::bytes::{get_le16, get_be32, lemma_le16_round_trip, lemma_be32_round_trip, read_be32};
use crate::image::{Image, image_of, raster_done, lemma_raster_start, lemma_raster_push, lemma_raster_next_row,
    lemma_raster_finish, lemma_image_is_unique};
use crate::inflate::{adler32, adler32_spec, bit_at, bits_lsb, align_up, inflate_stored, inflate_blocks, inflate_spec, lemma_inflate_blocks_stored,
    zlib_spec, zlib_header_ok, zlib_trailer_found};

verus! {

/// The reflected CRC-32 polynomial of ISO 3309 / ITU-T V.42.
pub const CRC32_POLY: u32 = 0xEDB8_8320;

/// One bit of the reflected CRC-32 shift register.
pub open spec fn crc_shift(c: u32) -> u32 {
    if c & 1 != 0 { (c >> 1u32) ^ 0xEDB8_8320u32 } else { c >> 1u32 }
}

/// `k` shifts of the register.
pub open spec fn crc_shifts(c: u32, k: nat) -> u32
    decreases k,
{
    if k == 0 { c } else { crc_shifts(crc_shift(c), (k - 1) as nat) }
}

/// The register after feeding every byte of `s`, starting from all ones.
pub open spec fn crc_register(s: Seq<u8>) -> u32
    decreases s.len(),
{
    if s.len() == 0 {
        0xFFFF_FFFFu32
    } else {
        crc_shifts(crc_register(s.drop_last()) ^ (s.last() as u32), 8)
    }
}

/// CRC-32 of `s`, the checksum every PNG chunk ends with.
pub open spec fn crc32_spec(s: Seq<u8>) -> u32 {
    crc_register(s) ^ 0xFFFF_FFFFu32
}

/// CRC-32 (ISO 3309 / ITU-T V.42, the variant PNG mandates for every
/// chunk), computed bit by bit.
pub fn crc32(data: &[u8]) -> (r: u32)
    ensures
        r == crc32_spec(data@),
{
    let mut crc: u32 = 0xFFFF_FFFF;
    let mut i: usize = 0;
    while i < data.len()
        invariant
            i <= data@.len(),
            crc == crc_register(data@.take(i as int)),
        decreases data@.len() - i,
    {
        let ghost s1 = data@.take(i + 1);
        assert(s1.drop_last() =~= data@.take(i as int));
        crc = crc ^ (data[i] as u32);
        let ghost start = crc;
        let mut k: u32 = 0;
        while k < 8
            invariant
                k <= 8,
                crc_shifts(crc, (8 - k) as nat) == crc_shifts(start, 8),
            decreases 8 - k,
        {
            if crc & 1 != 0 {
                crc = (crc >> 1) ^ CRC32_POLY;
            } else {
                crc = crc >> 1;
            }
            k = k + 1;
        }
        i = i + 1;
    }
    assert(data@.take(i as int) =~= data@);
    crc ^ 0xFFFF_FFFF
}

/// The zlib header `encode_png` writes: deflate, 32K window, no dictionary,
/// check bits making `0x7801` a multiple of 31.
pub open spec fn zlib_header() -> Seq<u8> {
    seq![0x78u8, 0x01u8]
}

/// One stored DEFLATE block: `BFINAL` in bit 0 of its header byte, then
/// `LEN` and its complement, little-endian, then the bytes themselves.
pub open spec fn stored_block(data: Seq<u8>, is_final: bool) -> Seq<u8> {
    seq![if is_final { 1u8 } else { 0u8 }] + le16(data.len() as u16) + le16(!(data.len() as u16)) + data
}

/// `data` cut into stored blocks of at most 65535 bytes, only the last one
/// final. Empty data is one empty final block.
pub open spec fn stored_blocks(data: Seq<u8>) -> Seq<u8>
    decreases data.len(),
{
    if data.len() <= 65535 {
        stored_block(data, true)
    } else {
        stored_block(data.take(65535), false) + stored_blocks(data.skip(65535))
    }
}

/// The zlib stream `zlib_stored` produces: header, stored blocks, and the
/// big-endian Adler-32 of `data`.
pub open spec fn zlib_stored_spec(data: Seq<u8>) -> Seq<u8> {
    zlib_header() + stored_blocks(data) + be32(adler32_spec(data))
}

proof fn lemma_stored_blocks_len(data: Seq<u8>)
    ensures
        stored_blocks(data).len() <= data.len() + 5 * (data.len() / 65535 + 1),
        stored_blocks(data).len() >= data.len(),
    decreases data.len(),
{
    if data.len() > 65535 {
        lemma_stored_blocks_len(data.skip(65535));
    }
}

/// Wraps `data` in a zlib stream that uses only DEFLATE's uncompressed
/// stored blocks (at most 65535 bytes each), followed by its Adler-32.
pub fn zlib_stored(data: &[u8]) -> (out: Vec<u8>)
    requires
        zlib_stored_spec(data@).len() <= usize::MAX,
    ensures
        out@ == zlib_stored_spec(data@),
{
    let mut out: Vec<u8> = Vec::new();
    out.push(0x78);
    out.push(0x01);
    let mut i: usize = 0;
    assert(data@.skip(0) =~= data@);
    assert(out@ =~= zlib_header());
    loop
        invariant_except_break
            i < data@.len() || (i == 0 && data@.len() == 0),
            out@ + stored_blocks(data@.skip(i as int)) + be32(adler32_spec(data@)) == zlib_stored_spec(data@),
        invariant
            zlib_stored_spec(data@).len() <= usize::MAX,
        ensures
            out@ + be32(adler32_spec(data@)) == zlib_stored_spec(data@),
        decreases data@.len() - i,
    {
        let ghost rest = data@.skip(i as int);
        let remaining = data.len() - i;
        let block_len = if remaining < 65535 { remaining } else { 65535 };
        let is_final = i + block_len >= data.len();
        let ghost chunk = rest.take(block_len as int);
        proof {
            assert(data@.subrange(i as int, i + block_len) =~= chunk);
            if is_final {
                assert(chunk =~= rest);
            } else {
                assert(rest.skip(65535) =~= data@.skip(i + block_len));
            }
            assert(stored_blocks(rest) == stored_block(chunk, is_final)
                + (if is_final { Seq::<u8>::empty() } else { stored_blocks(data@.skip(i + block_len)) }));
            assert(out@.len() + stored_block(chunk, is_final).len() <= usize::MAX);
        }
        let ghost before = out@;
        out.push(if is_final { 1 } else { 0 });
        push_le16(&mut out, block_len as u16);
        push_le16(&mut out, !(block_len as u16));
        push_range(&mut out, data, i, i + block_len);
        assert(out@ =~= before + stored_block(chunk, is_final));
        i = i + block_len;
        if is_final {
            assert(out@ + be32(adler32_spec(data@)) =~= zlib_stored_spec(data@));
            break;
        }
    }
    let sum = adler32(data);
    push_be32(&mut out, sum);
    out
}

/// A PNG chunk: big-endian data length, the 4-byte type, the data, and the
/// big-endian CRC-32 of type and data.
pub open spec fn png_chunk(kind: Seq<u8>, data: Seq<u8>) -> Seq<u8> {
    be32(data.len() as u32) + kind + data + be32(crc32_spec(kind + data))
}

/// Appends one length-prefixed, CRC-32-checked PNG chunk.
pub fn write_png_chunk(out: &mut Vec<u8>, kind: &[u8; 4], data: &[u8])
    requires
        old(out)@.len() + png_chunk(kind@, data@).len() <= usize::MAX,
    ensures
        final(out)@ == old(out)@ + png_chunk(kind@, data@),
{
    push_be32(out, data.len() as u32);
    let mut crc_input: Vec<u8> = Vec::new();
    push_all(&mut crc_input, kind.as_slice());
    push_all(&mut crc_input, data);
    push_all(out, kind.as_slice());
    push_all(out, data);
    let c = crc32(crc_input.as_slice());
    push_be32(out, c);
    assert(final(out)@ =~= old(out)@ + png_chunk(kind@, data@));
}

proof fn lemma_le16_at(s: Seq<u8>, i: int, v: u16)
    requires
        0 <= i,
        i + 2 <= s.len(),
        s[i] == le16(v)[0] && s[i + 1] == le16(v)[1],
    ensures
        get_le16(s, i) == v,
{
    lemma_le16_round_trip(v);
}

/// The header byte of a stored block reads as its `BFINAL` bit and block
/// type 0.
proof fn lemma_stored_header_bits(s: Seq<u8>, k: int, is_final: bool)
    requires
        0 <= k < s.len(),
        s[k] == if is_final { 1u8 } else { 0u8 },
    ensures
        (bit_at(s, 8 * k) == 1) == is_final,
        bits_lsb(s, 8 * k + 1, 2) == 0,
{
    let b = s[k];
    assert((8 * k) / 8 == k && (8 * k) % 8 == 0);
    assert((8 * k + 1) / 8 == k && (8 * k + 1) % 8 == 1);
    assert((8 * k + 2) / 8 == k && (8 * k + 2) % 8 == 2);
    assert((b >> 0u8) & 1u8 == b && (b >> 1u8) & 1u8 == 0 && (b >> 2u8) & 1u8 == 0) by (bit_vector)
        requires b == 0u8 || b == 1u8;
    assert(bit_at(s, 8 * k + 1) == 0);
    assert(bit_at(s, 8 * k + 2) == 0);
    vstd::arithmetic::power2::lemma2_to64();
    assert(bits_lsb(s, 8 * k + 1, 0) == 0);
    assert(bits_lsb(s, 8 * k + 1, 1) == bits_lsb(s, 8 * k + 1, 0) + bit_at(s, 8 * k + 1) * vstd::arithmetic::power2::pow2(0));
    assert(bits_lsb(s, 8 * k + 1, 2) == bits_lsb(s, 8 * k + 1, 1) + bit_at(s, 8 * k + 2) * vstd::arithmetic::power2::pow2(1));
}

/// One stored block written at byte `k` of `s` reads back as its bytes.
proof fn lemma_one_stored_block(s: Seq<u8>, k: int, chunk: Seq<u8>, is_final: bool, out: Seq<u8>)
    requires
        0 <= k,
        chunk.len() <= 65535,
        k + 5 + chunk.len() <= s.len(),
        forall|j: int| 0 <= j < 5 + chunk.len() ==> #[trigger] s[k + j] == stored_block(chunk, is_final)[j],
    ensures
        (bit_at(s, 8 * k) == 1) == is_final,
        bits_lsb(s, 8 * k + 1, 2) == 0,
        inflate_stored(s, 8 * k + 3, out) == Some((out + chunk, (k + 5 + chunk.len()) * 8)),
{
    let blk = stored_block(chunk, is_final);
    let n = chunk.len() as u16;
    assert(s[k + 0] == blk[0]);
    lemma_stored_header_bits(s, k, is_final);
    assert(align_up(8 * k + 3) == 8 * (k + 1));
    assert(s[k + 1] == blk[1] && s[k + 2] == blk[2] && s[k + 3] == blk[3] && s[k + 4] == blk[4]);
    lemma_le16_at(s, k + 1, n);
    lemma_le16_at(s, k + 3, !n);
    assert(!(!n) == n) by (bit_vector);
    assert(s.subrange(k + 5, k + 5 + n) =~= chunk) by {
        assert forall|j: int| 0 <= j < n implies s.subrange(k + 5, k + 5 + n)[j] == chunk[j] by {
            assert(s[k + (5 + j)] == blk[5 + j]);
        }
    }
}

/// Inflating stored blocks written at byte `k` of `s` gives back the data
/// they hold.
proof fn lemma_stored_blocks_inflate(s: Seq<u8>, k: int, data: Seq<u8>, out: Seq<u8>)
    requires
        0 <= k,
        k + stored_blocks(data).len() <= s.len(),
        forall|j: int| 0 <= j < stored_blocks(data).len() ==> #[trigger] s[k + j] == stored_blocks(data)[j],
    ensures
        inflate_blocks(s, 8 * k, out) == Some(out + data),
    decreases data.len(),
{
    let is_final = data.len() <= 65535;
    let chunk = if is_final { data } else { data.take(65535) };
    let blk = stored_block(chunk, is_final);
    let rest = data.skip(65535);
    let tail = if is_final { Seq::<u8>::empty() } else { stored_blocks(rest) };
    assert(stored_blocks(data) == blk + tail);
    assert forall|j: int| 0 <= j < 5 + chunk.len() implies #[trigger] s[k + j] == blk[j] by {
        assert(s[k + j] == stored_blocks(data)[j]);
    }
    lemma_one_stored_block(s, k, chunk, is_final, out);
    lemma_inflate_blocks_stored(s, 8 * k, out);
    if is_final {
        assert(data =~= chunk);
    } else {
        let k2 = k + 5 + 65535;
        assert forall|j: int| 0 <= j < stored_blocks(rest).len() implies #[trigger] s[k2 + j] == stored_blocks(rest)[j] by {
            assert(s[k + (blk.len() + j)] == stored_blocks(data)[blk.len() + j]);
        }
        lemma_stored_blocks_inflate(s, k2, rest, out + chunk);
        assert(out + chunk + rest =~= out + data);
        assert((k + 5 + 65535) * 8 == 8 * k2);
    }
}

/// The zlib header `zlib_stored` writes passes the checks.
proof fn lemma_zlib_header_ok(z: Seq<u8>)
    requires
        z.len() >= 6,
        z[0] == 0x78u8,
        z[1] == 0x01u8,
    ensures
        zlib_header_ok(z),
{
    assert(0x78u8 & 0x0fu8 == 8 && (((0x78u8 as u16) << 8u16) | (0x01u8 as u16)) % 31 == 0 && 0x01u8 & 0x20u8 == 0)
        by (bit_vector);
}

/// A zlib stream of stored blocks, as `zlib_stored` writes it, decompresses
/// to exactly the data it was made from.
pub proof fn lemma_zlib_stored_round_trip(data: Seq<u8>)
    ensures
        zlib_spec(zlib_stored_spec(data)) == Some(data),
{
    let z = zlib_stored_spec(data);
    let blocks = stored_blocks(data);
    let sum = adler32_spec(data);
    let tail = blocks + be32(sum);
    lemma_stored_blocks_len(data);
    assert(z =~= zlib_header() + tail);
    assert(z.skip(2) =~= tail);
    lemma_zlib_header_ok(z);
    assert forall|j: int| 0 <= j < blocks.len() implies #[trigger] tail[0 + j] == blocks[j] by {}
    lemma_stored_blocks_inflate(tail, 0, data, seq![]);
    assert(seq![] + data =~= data);
    lemma_be32_round_trip(sum);
    let end = tail.len() as int;
    assert(tail[end - 4] == be32(sum)[0] && tail[end - 3] == be32(sum)[1] && tail[end - 2] == be32(sum)[2]
        && tail[end - 1] == be32(sum)[3]);
    assert(get_be32(tail, end - 4) == get_be32(be32(sum), 0));
    assert(zlib_trailer_found(tail, sum));
}

/// The 8-byte PNG file signature.
pub open spec fn png_signature() -> Seq<u8> {
    seq![0x89u8, 0x50u8, 0x4Eu8, 0x47u8, 0x0Du8, 0x0Au8, 0x1Au8, 0x0Au8]
}

/// Chunk type `IHDR`.
pub open spec fn tag_ihdr() -> Seq<u8> {
    seq![0x49u8, 0x48u8, 0x44u8, 0x52u8]
}

/// Chunk type `IDAT`.
pub open spec fn tag_idat() -> Seq<u8> {
    seq![0x49u8, 0x44u8, 0x41u8, 0x54u8]
}

/// Chunk type `IEND`.
pub open spec fn tag_iend() -> Seq<u8> {
    seq![0x49u8, 0x45u8, 0x4Eu8, 0x44u8]
}

/// Chunk type `PLTE`.
pub open spec fn tag_plte() -> Seq<u8> {
    seq![0x50u8, 0x4Cu8, 0x54u8, 0x45u8]
}

/// The `IHDR` body `encode_png` writes: width and height, 8 bits per
/// sample, colour type 2 (RGB), compression 0, filter 0, no interlacing.
pub open spec fn ihdr_body(width: int, height: int) -> Seq<u8> {
    be32(width as u32) + be32(height as u32) + seq![8u8, 2u8, 0u8, 0u8, 0u8]
}

/// The first `k` scanlines of `rgb` as PNG stores them unfiltered: a
/// filter-type byte 0, then the row's RGB bytes.
pub open spec fn raw_scanlines(rgb: Seq<u8>, width: int, k: nat) -> Seq<u8>
    decreases k,
{
    if k == 0 {
        seq![]
    } else {
        raw_scanlines(rgb, width, (k - 1) as nat) + seq![0u8]
            + rgb.subrange((k - 1) * width * 3, k * width * 3)
    }
}

/// The complete file `encode_png` writes.
#[verifier::opaque]
pub open spec fn spec_encode_png(width: int, height: int, rgb: Seq<u8>) -> Seq<u8> {
    png_signature() + png_chunk(tag_ihdr(), ihdr_body(width, height))
        + png_chunk(tag_idat(), zlib_stored_spec(raw_scanlines(rgb, width, height as nat)))
        + png_chunk(tag_iend(), seq![])
}

proof fn lemma_raw_scanlines_len(rgb: Seq<u8>, width: int, k: nat)
    requires
        width >= 0,
        k * width * 3 <= rgb.len(),
    ensures
        raw_scanlines(rgb, width, k).len() == k * (width * 3 + 1),
    decreases k,
{
    if k == 0 {
        assert(k * (width * 3 + 1) == 0) by (nonlinear_arith) requires k == 0;
    } else {
        assert((k - 1) * width * 3 <= k * width * 3) by (nonlinear_arith) requires k >= 1, width >= 0;
        assert(0 <= (k - 1) * width * 3) by (nonlinear_arith) requires k >= 1, width >= 0;
        lemma_raw_scanlines_len(rgb, width, (k - 1) as nat);
        assert((k - 1) * (width * 3 + 1) + width * 3 + 1 == k * (width * 3 + 1)) by (nonlinear_arith);
        assert(k * width * 3 - (k - 1) * width * 3 == width * 3) by (nonlinear_arith);
    }
}

/// Encodes `width x height` row-major RGB pixels as a 24-bit truecolour
/// PNG: signature, `IHDR`, one `IDAT` of stored (uncompressed) zlib data
/// with filter type 0 on every row, and `IEND`.
pub fn encode_png(width: usize, height: usize, rgb: &[u8]) -> (out: Vec<u8>)
    requires
        rgb@.len() == width * height * 3,
        spec_encode_png(width as int, height as int, rgb@).len() <= usize::MAX,
    ensures
        out@ == spec_encode_png(width as int, height as int, rgb@),
{
    let n = rgb.len();
    proof {
        reveal(spec_encode_png);
        assert(height * width * 3 == width * height * 3) by (nonlinear_arith);
        lemma_raw_scanlines_len(rgb@, width as int, height as nat);
        lemma_stored_blocks_len(raw_scanlines(rgb@, width as int, height as nat));
    }
    let mut raw: Vec<u8> = Vec::new();
    let mut y: usize = 0;
    while y < height
        invariant
            y <= height,
            rgb@.len() == width * height * 3,
            n == rgb@.len(),
            raw@ == raw_scanlines(rgb@, width as int, y as nat),
            height * (width * 3 + 1) <= usize::MAX,
        decreases height - y,
    {
        proof {
            assert(y * width * 3 <= height * width * 3) by (nonlinear_arith)
                requires y < height, width >= 0;
            assert(width * height * 3 == height * width * 3) by (nonlinear_arith);
            lemma_raw_scanlines_len(rgb@, width as int, y as nat);
            assert((y + 1) * width * 3 <= height * width * 3) by (nonlinear_arith)
                requires y < height, width >= 0;
            assert(y * width * 3 + width * 3 == (y + 1) * width * 3) by (nonlinear_arith);
            assert(y * width <= y * width * 3) by (nonlinear_arith) requires y >= 0, width >= 0;
            assert(y * (width * 3 + 1) + width * 3 + 1 <= height * (width * 3 + 1)) by (nonlinear_arith)
                requires y < height, width >= 0;
            assert(width * height * 3 == height * width * 3) by (nonlinear_arith);
        }
        raw.push(0u8);
        let row_start = y * width * 3;
        push_range(&mut raw, rgb, row_start, row_start + width * 3);
        assert(raw@ =~= raw_scanlines(rgb@, width as int, (y + 1) as nat));
        y = y + 1;
    }
    let mut out: Vec<u8> = Vec::new();
    let sig: [u8; 8] = [0x89, 0x50, 0x4E, 0x47, 0x0D, 0x0A, 0x1A, 0x0A];
    push_all(&mut out, sig.as_slice());
    assert(out@ =~= png_signature());
    let mut ihdr: Vec<u8> = Vec::new();
    push_be32(&mut ihdr, #[verifier::truncate] (width as u32));
    push_be32(&mut ihdr, #[verifier::truncate] (height as u32));
    ihdr.push(8);
    ihdr.push(2);
    ihdr.push(0);
    ihdr.push(0);
    ihdr.push(0);
    assert(ihdr@ =~= ihdr_body(width as int, height as int));
    let tag_h: [u8; 4] = [0x49, 0x48, 0x44, 0x52];
    let tag_d: [u8; 4] = [0x49, 0x44, 0x41, 0x54];
    let tag_e: [u8; 4] = [0x49, 0x45, 0x4E, 0x44];
    assert(tag_h@ =~= tag_ihdr());
    assert(tag_d@ =~= tag_idat());
    assert(tag_e@ =~= tag_iend());
    write_png_chunk(&mut out, &tag_h, ihdr.as_slice());
    let z = zlib_stored(raw.as_slice());
    write_png_chunk(&mut out, &tag_d, z.as_slice());
    let empty: Vec<u8> = Vec::new();
    assert(empty@ =~= Seq::<u8>::empty());
    write_png_chunk(&mut out, &tag_e, empty.as_slice());
    proof {
        reveal(spec_encode_png);
    }
    out
}

/// Paeth's predictor: whichever of left `a`, above `b` and upper-left `c`
/// is nearest their linear estimate `a + b - c`, ties going to `a`, then
/// `b`.
pub open spec fn paeth_spec(a: u8, b: u8, c: u8) -> u8 {
    let p = a + b - c;
    let pa = if p >= a { p - a } else { a - p };
    let pb = if p >= b { p - b } else { b - p };
    let pc = if p >= c { p - c } else { c - p };
    if pa <= pb && pa <= pc { a } else if pb <= pc { b } else { c }
}

/// Paeth's predictor, the fifth PNG row filter.
pub fn paeth(a: u8, b: u8, c: u8) -> (r: u8)
    ensures
        r == paeth_spec(a, b, c),
{
    let (a16, b16, c16) = (a as i16, b as i16, c as i16);
    let p = a16 + b16 - c16;
    let pa = if p >= a16 { p - a16 } else { a16 - p };
    let pb = if p >= b16 { p - b16 } else { b16 - p };
    let pc = if p >= c16 { p - c16 } else { c16 - p };
    if pa <= pb && pa <= pc {
        a
    } else if pb <= pc {
        b
    } else {
        c
    }
}

/// Byte `i` of a scanline after undoing filter `f`: the filtered byte
/// `raw[s + i]` plus (mod 256) a prediction from the byte one pixel to the
/// left (`a`, already reconstructed), the byte above (`b`, from `prev`) and
/// the byte above-left (`c`). `step` is the pixel size in bytes, at least 1.
pub open spec fn recon(raw: Seq<u8>, s: int, prev: Seq<u8>, f: u8, step: int, i: int) -> u8
    decreases i,
{
    let a: u8 = if i >= step && step >= 1 { recon(raw, s, prev, f, step, i - step) } else { 0u8 };
    let c: u8 = if i >= step && step >= 1 { prev[i - step] } else { 0u8 };
    unfilter_byte(raw[s + i], a, prev[i], c, f)
}

/// Filtered byte `x` unfiltered given its reconstructed neighbours: 0 is
/// None, 1 Sub, 2 Up, 3 Average, 4 Paeth; the sum wraps modulo 256.
pub open spec fn unfilter_byte(x: u8, a: u8, b: u8, c: u8, f: u8) -> u8 {
    if f == 0 {
        x
    } else if f == 1 {
        ((x + a) % 256) as u8
    } else if f == 2 {
        ((x + b) % 256) as u8
    } else if f == 3 {
        ((x + (a + b) / 2) % 256) as u8
    } else {
        ((x + paeth_spec(a, b, c)) % 256) as u8
    }
}

fn unfilter_byte_exec(x: u8, a: u8, b: u8, c: u8, f: u8) -> (r: u8)
    ensures
        r == unfilter_byte(x, a, b, c, f),
{
    if f == 0 {
        x
    } else if f == 1 {
        x.wrapping_add(a)
    } else if f == 2 {
        x.wrapping_add(b)
    } else if f == 3 {
        x.wrapping_add((((a as u16) + (b as u16)) / 2) as u8)
    } else {
        x.wrapping_add(paeth(a, b, c))
    }
}

/// The first `k` scanlines, unfiltered and laid end to end (`rb` bytes
/// each): scanline `y` of `raw` is a filter byte and `rb` filtered bytes,
/// and the line above the first is all zeros. `None` if a filter byte is
/// not one of the five filters.
pub open spec fn unfilter_rows(raw: Seq<u8>, rb: int, step: int, k: nat) -> Option<Seq<u8>>
    decreases k,
{
    if k == 0 {
        Some(seq![])
    } else {
        match unfilter_rows(raw, rb, step, (k - 1) as nat) {
            None => None,
            Some(done) => {
                let prev = if k == 1 { Seq::new(rb as nat, |i: int| 0u8) } else { done.subrange((k - 2) * rb, (k - 1) * rb) };
                let at = (k - 1) * (rb + 1);
                let f = raw[at];
                if f > 4 {
                    None
                } else {
                    Some(done + Seq::new(rb as nat, |i: int| recon(raw, at + 1, prev, f, step, i)))
                }
            },
        }
    }
}

/// Undoes the row filter of one scanline in place: `line` holds the
/// filtered bytes and `prev` the unfiltered line above.
fn unfilter_line(line: &mut Vec<u8>, prev: &Vec<u8>, f: u8, step: usize)
    requires
        old(line)@.len() == prev@.len(),
        step >= 1,
        f <= 4,
    ensures
        final(line)@ == Seq::new(old(line)@.len(), |i: int| recon(old(line)@, 0, prev@, f, step as int, i)),
{
    let ghost raw = line@;
    let n = line.len();
    let mut i: usize = 0;
    while i < n
        invariant
            i <= n,
            n == raw.len(),
            line@.len() == n,
            prev@.len() == n,
            step >= 1,
            f <= 4,
            forall|j: int| 0 <= j < i ==> #[trigger] line@[j] == recon(raw, 0, prev@, f, step as int, j),
            forall|j: int| i <= j < n ==> #[trigger] line@[j] == raw[j],
        decreases n - i,
    {
        let a: u8 = if i >= step { line[i - step] } else { 0 };
        let b: u8 = prev[i];
        let c: u8 = if i >= step { prev[i - step] } else { 0 };
        let x = line[i];
        let v = unfilter_byte_exec(x, a, b, c, f);
        proof {
            assert(v == recon(raw, 0, prev@, f, step as int, i as int));
        }
        line.set(i, v);
        i = i + 1;
    }
    assert(line@ =~= Seq::new(raw.len(), |i: int| recon(raw, 0, prev@, f, step as int, i)));
}

/// Reconstruction only looks at the scanline's own bytes.
proof fn lemma_recon_window(raw: Seq<u8>, s: int, rb: int, prev: Seq<u8>, f: u8, step: int, i: int)
    requires
        0 <= i < rb,
        0 <= s,
        s + rb <= raw.len(),
    ensures
        recon(raw.subrange(s, s + rb), 0, prev, f, step, i) == recon(raw, s, prev, f, step, i),
    decreases i,
{
    if i >= step && step >= 1 {
        lemma_recon_window(raw, s, rb, prev, f, step, i - step);
    }
}

/// Once a row fails to unfilter, so does every longer prefix.
proof fn lemma_unfilter_none_stays(raw: Seq<u8>, rb: int, step: int, a: nat, b: nat)
    requires
        a <= b,
        unfilter_rows(raw, rb, step, a) is None,
    ensures
        unfilter_rows(raw, rb, step, b) is None,
    decreases b - a,
{
    if a < b {
        lemma_unfilter_none_stays(raw, rb, step, a, (b - 1) as nat);
    }
}

/// Unfilters `height` scanlines of `rb` bytes each, laid end to end.
fn unfilter_all(raw: &[u8], rb: usize, step: usize, height: usize) -> (r: Result<Vec<u8>, String>)
    requires
        (rb + 1) * height <= raw@.len(),
        step >= 1,
    ensures
        match unfilter_rows(raw@, rb as int, step as int, height as nat) {
            Some(l) => r matches Ok(v) && v@ == l,
            None => r is Err,
        },
{
    let mut lines: Vec<u8> = Vec::new();
    let mut prev: Vec<u8> = vec![0u8; rb];
    let mut y: usize = 0;
    let n = raw.len();
    while y < height
        invariant
            y <= height,
            n == raw@.len(),
            (rb + 1) * height <= n,
            step >= 1,
            prev@.len() == rb,
            lines@.len() == y * rb,
            unfilter_rows(raw@, rb as int, step as int, y as nat) == Some(lines@),
            prev@ == if y == 0 { Seq::new(rb as nat, |i: int| 0u8) } else { lines@.subrange((y - 1) * rb, y * rb) },
        decreases height - y,
    {
        proof {
            assert((y + 1) * (rb + 1) <= (rb + 1) * height) by (nonlinear_arith)
                requires y < height;
            assert(y * (rb + 1) + rb + 1 == (y + 1) * (rb + 1)) by (nonlinear_arith);
        }
        let at = y * (rb + 1);
        let f = raw[at];
        if f > 4 {
            proof {
                lemma_unfilter_none_stays(raw@, rb as int, step as int, (y + 1) as nat, height as nat);
            }
            return Err(crate::text::with_two_numbers("PNG row ", y as u64, " uses filter ", f as u64, ", which is not one of the five"));
        }
        let mut line: Vec<u8> = Vec::new();
        push_range(&mut line, raw, at + 1, at + 1 + rb);
        let ghost window = line@;
        unfilter_line(&mut line, &prev, f, step);
        proof {
            assert(window =~= raw@.subrange(at + 1, at + 1 + rb));
            assert forall|i: int| 0 <= i < rb implies #[trigger] line@[i] == recon(raw@, at + 1, prev@, f, step as int, i) by {
                lemma_recon_window(raw@, at + 1, rb as int, prev@, f, step as int, i);
            }
            assert(line@ =~= Seq::new(rb as nat, |i: int| recon(raw@, at + 1, prev@, f, step as int, i)));
            assert((y + 1) * rb == y * rb + rb) by (nonlinear_arith);
        }
        push_all(&mut lines, line.as_slice());
        proof {
            assert(lines@.subrange(y * rb, (y + 1) * rb) =~= line@);
        }
        prev = line;
        y = y + 1;
    }
    Ok(lines)
}

/// What the chunk scan of a PNG has collected so far.
pub struct PngScan {
    pub width: u32,
    pub height: u32,
    pub depth: u8,
    pub colour: u8,
    pub palette: Seq<(u8, u8, u8)>,
    pub idat: Seq<u8>,
    pub seen_ihdr: bool,
}

/// Nothing collected yet.
pub open spec fn png_scan_start() -> PngScan {
    PngScan { width: 0, height: 0, depth: 0, colour: 0, palette: seq![], idat: seq![], seen_ihdr: false }
}

/// The palette entries of a `PLTE` body: whole RGB triples.
pub open spec fn palette_of(body: Seq<u8>) -> Seq<(u8, u8, u8)> {
    Seq::new(body.len() / 3, |i: int| (body[3 * i], body[3 * i + 1], body[3 * i + 2]))
}

/// The chunks of a PNG from byte `pos`, each a big-endian length, a type,
/// a body and a CRC (which is not checked): `IHDR` gives the size, depth
/// and colour type (an interlaced image is refused), `PLTE` the palette,
/// `IDAT` bodies are concatenated, `IEND` ends the scan and anything else
/// is skipped. `None` when a chunk runs past the end or a header is short.
#[verifier::opaque]
pub open spec fn png_scan(b: Seq<u8>, pos: int, st: PngScan) -> Option<PngScan>
    decreases b.len() - pos,
{
    if pos < 0 || pos + 8 > b.len() {
        Some(st)
    } else {
        let len = get_be32(b, pos) as int;
        let body = pos + 8;
        if body + len + 4 > b.len() {
            None
        } else {
            let kind = b.subrange(pos + 4, pos + 8);
            let next = body + len + 4;
            if kind == tag_ihdr() {
                if len < 13 || b[body + 12] != 0 {
                    None
                } else {
                    png_scan(b, next, PngScan {
                        width: get_be32(b, body),
                        height: get_be32(b, body + 4),
                        depth: b[body + 8],
                        colour: b[body + 9],
                        seen_ihdr: true,
                        ..st
                    })
                }
            } else if kind == tag_plte() {
                png_scan(b, next, PngScan { palette: palette_of(b.subrange(body, body + len)), ..st })
            } else if kind == tag_idat() {
                png_scan(b, next, PngScan { idat: st.idat + b.subrange(body, body + len), ..st })
            } else if kind == tag_iend() {
                Some(st)
            } else {
                png_scan(b, next, st)
            }
        }
    }
}

/// Why a chunk scan stops short.
#[derive(PartialEq, Eq, Structural, Clone, Copy, Debug)]
pub enum PngFault {
    /// A chunk runs past the end of the bytes.
    Truncated,
    /// The header chunk is under 13 bytes.
    ShortHeader,
    /// The header asks for Adam7 interlacing.
    Interlaced,
}

/// The first fault the chunk scan from `pos` meets, if any (it fails
/// exactly where `png_scan` does).
#[verifier::opaque]
pub open spec fn png_scan_fault(b: Seq<u8>, pos: int) -> Option<PngFault>
    decreases b.len() - pos,
{
    if pos < 0 || pos + 8 > b.len() {
        None
    } else {
        let len = get_be32(b, pos) as int;
        let body = pos + 8;
        if body + len + 4 > b.len() {
            Some(PngFault::Truncated)
        } else {
            let kind = b.subrange(pos + 4, pos + 8);
            if kind == tag_ihdr() && len < 13 {
                Some(PngFault::ShortHeader)
            } else if kind == tag_ihdr() && b[body + 12] != 0 {
                Some(PngFault::Interlaced)
            } else if kind == tag_iend() {
                None
            } else {
                png_scan_fault(b, body + len + 4)
            }
        }
    }
}

/// The message for a PNG that asks for interlacing.
pub open spec fn interlaced_text() -> Seq<char> {
    "this PNG is interlaced (Adam7), which this decoder does not read -- save it without interlacing"@
}

/// The chunk scan's state while it runs.
struct PngChunks {
    width: u32,
    height: u32,
    depth: u8,
    colour: u8,
    palette: Vec<(u8, u8, u8)>,
    idat: Vec<u8>,
    seen_ihdr: bool,
}

impl PngChunks {
    spec fn scan(&self) -> PngScan {
        PngScan {
            width: self.width,
            height: self.height,
            depth: self.depth,
            colour: self.colour,
            palette: self.palette@,
            idat: self.idat@,
            seen_ihdr: self.seen_ihdr,
        }
    }
}

/// Whether `b[i..i+4]` is the chunk type `t`.
fn is_tag(b: &[u8], i: usize, t: [u8; 4]) -> (r: bool)
    requires
        i + 4 <= b@.len(),
    ensures
        r == (b@.subrange(i as int, i + 4) == t@),
{
    let r = b[i] == t[0] && b[i + 1] == t[1] && b[i + 2] == t[2] && b[i + 3] == t[3];
    if r {
        assert(b@.subrange(i as int, i + 4) =~= t@);
    } else {
        assert(b@.subrange(i as int, i + 4) != t@) by {
            if b@.subrange(i as int, i + 4) == t@ {
                assert(b@.subrange(i as int, i + 4)[0] == t@[0]);
                assert(b@.subrange(i as int, i + 4)[1] == t@[1]);
                assert(b@.subrange(i as int, i + 4)[2] == t@[2]);
                assert(b@.subrange(i as int, i + 4)[3] == t@[3]);
            }
        }
    }
    r
}

/// Walks the chunks of a PNG whose signature has been checked.
fn scan_png_chunks(bytes: &[u8]) -> (r: Result<PngChunks, String>)
    requires
        bytes@.len() >= 8,
    ensures
        match png_scan(bytes@, 8, png_scan_start()) {
            Some(st) => r matches Ok(c) && c.scan() == st,
            None => r is Err,
        },
        r is Err <==> png_scan_fault(bytes@, 8) is Some,
        r matches Err(m) ==> match png_scan_fault(bytes@, 8) {
            Some(PngFault::Truncated) => crate::text::starts_with(m@, "truncated PNG"@),
            Some(PngFault::ShortHeader) => m@ == "PNG header chunk is too short"@,
            Some(PngFault::Interlaced) => m@ == interlaced_text(),
            None => false,
        },
{
    let n = bytes.len();
    let mut pos: usize = 8;
    let mut st = PngChunks {
        width: 0,
        height: 0,
        depth: 0,
        colour: 0,
        palette: Vec::new(),
        idat: Vec::new(),
        seen_ihdr: false,
    };
    assert(st.scan() =~~= png_scan_start());
    let ghost goal = png_scan(bytes@, 8, png_scan_start());
    proof {
        reveal(png_scan);
    }
    let t_ihdr: [u8; 4] = [0x49, 0x48, 0x44, 0x52];
    let t_plte: [u8; 4] = [0x50, 0x4C, 0x54, 0x45];
    let t_idat: [u8; 4] = [0x49, 0x44, 0x41, 0x54];
    let t_iend: [u8; 4] = [0x49, 0x45, 0x4E, 0x44];
    assert(t_ihdr@ =~= tag_ihdr() && t_plte@ =~= tag_plte() && t_idat@ =~= tag_idat() && t_iend@ =~= tag_iend());
    while n - pos >= 8
        invariant
            8 <= pos <= n,
            n == bytes@.len(),
            t_ihdr@ == tag_ihdr(),
            t_plte@ == tag_plte(),
            t_idat@ == tag_idat(),
            t_iend@ == tag_iend(),
            goal == png_scan(bytes@, 8, png_scan_start()),
            png_scan(bytes@, pos as int, st.scan()) == goal,
            png_scan_fault(bytes@, pos as int) == png_scan_fault(bytes@, 8),
        decreases n - pos,
    {
        let ghost old_st = st.scan();
        proof {
            reveal(png_scan);
            reveal(png_scan_fault);
        }
        let len = read_be32(bytes, pos) as usize;
        let body_at = pos + 8;
        if len > n - body_at || n - body_at - len < 4 {
            proof {
                reveal_strlit("truncated PNG");
                reveal_strlit("truncated PNG: a chunk claims ");
            }
            let m = crate::text::with_number("truncated PNG: a chunk claims ", len as u64, " bytes more than remain");
            assert(m@.subrange(0, 13) =~= "truncated PNG"@);
            return Err(m);
        }
        let next = body_at + len + 4;
        if is_tag(bytes, pos + 4, t_ihdr) {
            if len < 13 {
                return Err(crate::text::owned("PNG header chunk is too short"));
            }
            if bytes[body_at + 12] != 0 {
                return Err(crate::text::owned(
                    "this PNG is interlaced (Adam7), which this decoder does not read -- save it without interlacing",
                ));
            }
            st.width = read_be32(bytes, body_at);
            st.height = read_be32(bytes, body_at + 4);
            st.depth = bytes[body_at + 8];
            st.colour = bytes[body_at + 9];
            st.seen_ihdr = true;
            assert(st.scan() =~~= PngScan {
                width: get_be32(bytes@, body_at as int),
                height: get_be32(bytes@, body_at + 4),
                depth: bytes@[body_at + 8],
                colour: bytes@[body_at + 9],
                seen_ihdr: true,
                ..old_st
            });
        } else if is_tag(bytes, pos + 4, t_plte) {
            let mut palette: Vec<(u8, u8, u8)> = Vec::new();
            let count = len / 3;
            let mut k: usize = 0;
            while k < count
                invariant
                    k <= count,
                    count == len / 3,
                    body_at + len <= n,
                    n == bytes@.len(),
                    palette@ =~= palette_of(bytes@.subrange(body_at as int, body_at + len)).take(k as int),
                decreases count - k,
            {
                let at = body_at + 3 * k;
                palette.push((bytes[at], bytes[at + 1], bytes[at + 2]));
                k = k + 1;
            }
            st.palette = palette;
            assert(st.palette@ =~= palette_of(bytes@.subrange(body_at as int, body_at + len)));
            assert(st.scan() =~~= PngScan { palette: palette_of(bytes@.subrange(body_at as int, body_at + len)), ..old_st });
        } else if is_tag(bytes, pos + 4, t_idat) {
            push_range(&mut st.idat, bytes, body_at, body_at + len);
            assert(st.scan() =~~= PngScan { idat: old_st.idat + bytes@.subrange(body_at as int, body_at + len), ..old_st });
        } else if is_tag(bytes, pos + 4, t_iend) {
            return Ok(st);
        }
        pos = next;
    }
    proof {
        reveal(png_scan_fault);
    }
    Ok(st)
}

/// Samples per pixel of each PNG colour type; 0 for an undefined type.
pub open spec fn png_channels(colour: u8) -> int {
    if colour == 0 {
        1
    } else if colour == 2 {
        3
    } else if colour == 3 {
        1
    } else if colour == 4 {
        2
    } else if colour == 6 {
        4
    } else {
        0
    }
}

/// A defined PNG bit depth.
pub open spec fn png_depth_ok(d: u8) -> bool {
    d == 1 || d == 2 || d == 4 || d == 8 || d == 16
}

/// Where sample `i` of a scanline lives: its high byte at depth 16, its
/// byte at depth 8, else the byte packing it with its neighbours.
pub open spec fn sample_byte(d: u8, i: int) -> int {
    if d == 16 { i * 2 } else if d == 8 { i } else { i / (8int / (d as int)) }
}

/// The raw value of a sample of depth below 8 packed in `byte`, most
/// significant first.
pub open spec fn packed_value(byte: u8, d: u8, i: int) -> u16 {
    let per = 8int / (d as int);
    let shift = (8 - d * (i % per + 1)) as u16;
    let mask = ((1u16 << (d as u16)) - 1) as u16;
    ((byte as u16) >> shift) & mask
}

/// Sample `i` of the scanline at `o`, scaled to 0..255 (16-bit samples
/// keep their high byte; low depths are stretched so the maximum is 255).
pub open spec fn png_sample(l: Seq<u8>, o: int, d: u8, i: int) -> u8 {
    let byte = l[o + sample_byte(d, i)];
    if d == 16 || d == 8 {
        byte
    } else {
        let mask = ((1u16 << (d as u16)) - 1) as u16;
        ((packed_value(byte, d, i) * 255) / (mask as int)) as u8
    }
}

/// Palette index `i` of the scanline at `o` (never rescaled).
pub open spec fn png_index(l: Seq<u8>, o: int, d: u8, i: int) -> int {
    let byte = l[o + sample_byte(d, i)];
    if d == 8 { byte as int } else { packed_value(byte, d, i) as int }
}

/// Channel `c` over white with opacity `a`.
pub open spec fn over_white(c: u8, a: u8) -> u8 {
    ((c * a + 255 * (255 - a)) / 255) as u8
}

/// An RGBA pixel composited onto white.
pub open spec fn composite(r: u8, g: u8, b: u8, a: u8) -> (u8, u8, u8) {
    if a == 255 { (r, g, b) } else { (over_white(r, a), over_white(g, a), over_white(b, a)) }
}

/// Pixel `x` of the unfiltered scanline at `o` as RGB, or `None` for a
/// palette index past the palette's end.
pub open spec fn png_px(l: Seq<u8>, o: int, st: PngScan, x: int) -> Option<(u8, u8, u8)> {
    let d = st.depth;
    if st.colour == 0 {
        let v = png_sample(l, o, d, x);
        Some((v, v, v))
    } else if st.colour == 2 {
        Some((png_sample(l, o, d, 3 * x), png_sample(l, o, d, 3 * x + 1), png_sample(l, o, d, 3 * x + 2)))
    } else if st.colour == 3 {
        let i = png_index(l, o, d, x);
        if i < st.palette.len() { Some(st.palette[i]) } else { None }
    } else if st.colour == 4 {
        let v = png_sample(l, o, d, 2 * x);
        Some(composite(v, v, v, png_sample(l, o, d, 2 * x + 1)))
    } else {
        Some(composite(png_sample(l, o, d, 4 * x), png_sample(l, o, d, 4 * x + 1), png_sample(l, o, d, 4 * x + 2),
            png_sample(l, o, d, 4 * x + 3)))
    }
}

/// Channel `c` of an RGB triple.
pub open spec fn pick(p: (u8, u8, u8), c: int) -> u8 {
    if c == 0 { p.0 } else if c == 1 { p.1 } else { p.2 }
}

/// Every pixel of the unfiltered lines (`rb` bytes each) decodes.
pub open spec fn png_pixels_ok(l: Seq<u8>, rb: int, st: PngScan) -> bool {
    forall|x: int, y: int| 0 <= x < st.width && 0 <= y < st.height ==> #[trigger] png_px(l, y * rb, st, x) is Some
}

/// The RGB image of the unfiltered lines.
pub open spec fn png_image(l: Seq<u8>, rb: int, st: PngScan) -> Seq<u8> {
    image_of(st.width as int, st.height as int, |x: int, y: int, c: int| pick(png_px(l, y * rb, st, x)->0, c))
}

/// Bytes per scanline (without its filter byte).
pub open spec fn row_bytes(st: PngScan) -> int {
    (st.width * (png_channels(st.colour) * st.depth) + 7) / 8
}

/// Bytes per pixel for the filters' left neighbour, at least 1.
pub open spec fn filter_step(st: PngScan) -> int {
    let bpp = png_channels(st.colour) * st.depth;
    if bpp / 8 >= 1 { bpp / 8 } else { 1 }
}

/// Every sample of a row lies inside the row's bytes.
proof fn lemma_sample_in_row(w: int, ch: int, d: u8, i: int)
    requires
        w >= 1,
        1 <= ch <= 4,
        png_depth_ok(d),
        0 <= i < w * ch,
    ensures
        0 <= sample_byte(d, i) < (w * (ch * d) + 7) / 8,
        d < 8 ==> d * (i % (8int / (d as int)) + 1) <= 8,
{
    let n = w * ch;
    assert(w * (ch * d) == n * d) by (nonlinear_arith) requires n == w * ch;
    if d == 16 {
        assert(2 * i < (n * 16 + 7) / 8) by (nonlinear_arith) requires i < n, i >= 0;
    } else if d == 8 {
        assert(i < (n * 8 + 7) / 8) by (nonlinear_arith) requires i < n, i >= 0;
    } else if d == 4 {
        assert(i / 2 < (n * 4 + 7) / 8) by (nonlinear_arith) requires i < n, i >= 0;
    } else if d == 2 {
        assert(i / 4 < (n * 2 + 7) / 8) by (nonlinear_arith) requires i < n, i >= 0;
    } else {
        assert(i / 8 < (n * 1 + 7) / 8) by (nonlinear_arith) requires i < n, i >= 0;
    }
}

/// The raw value of a packed sample of depth 1, 2 or 4.
fn packed_value_exec(byte: u8, d: u8, i: u64) -> (r: u16)
    requires
        d == 1 || d == 2 || d == 4,
        d * ((i as int) % (8int / (d as int)) + 1) <= 8,
    ensures
        r == packed_value(byte, d, i as int),
        r <= ((1u16 << (d as u16)) - 1) as u16,
        1 <= ((1u16 << (d as u16)) - 1) as u16 <= 15,
{
    let per = (8 / d) as u64;
    let shift = 8 - (d as u64) * (i % per + 1);
    assert((1u16 << (d as u16)) >= 2 && (1u16 << (d as u16)) <= 16) by (bit_vector)
        requires d == 1u8 || d == 2u8 || d == 4u8;
    let mask: u16 = (1u16 << (d as u16)) - 1;
    let v: u16 = ((byte as u16) >> (shift as u16)) & mask;
    assert(v <= mask) by (bit_vector)
        requires v == ((byte as u16) >> (shift as u16)) & mask;
    v
}

/// Index of the byte of the scanline at `o` that holds sample `i`.
fn sample_byte_exec(o: usize, d: u8, i: u64, len: usize) -> (r: usize)
    requires
        png_depth_ok(d),
        0 <= o + sample_byte(d, i as int) < len,
    ensures
        r == o + sample_byte(d, i as int),
{
    if d == 16 {
        o + (i * 2) as usize
    } else if d == 8 {
        o + i as usize
    } else {
        let per = (8 / d) as u64;
        o + (i / per) as usize
    }
}

/// Sample `i` of the scanline at `o`, scaled to 0..255.
fn png_sample_exec(l: &[u8], o: usize, d: u8, i: u64) -> (r: u8)
    requires
        png_depth_ok(d),
        0 <= o + sample_byte(d, i as int) < l@.len(),
        d < 8 ==> d * ((i as int) % (8int / (d as int)) + 1) <= 8,
    ensures
        r == png_sample(l@, o as int, d, i as int),
{
    let byte = l[sample_byte_exec(o, d, i, l.len())];
    if d == 16 || d == 8 {
        byte
    } else {
        let v = packed_value_exec(byte, d, i);
        assert((1u16 << (d as u16)) >= 2) by (bit_vector)
            requires d == 1u8 || d == 2u8 || d == 4u8;
        let mask: u16 = (1u16 << (d as u16)) - 1;
        assert(v * 255 <= 15 * 255) by (nonlinear_arith) requires v <= 15;
        assert((v * 255) / (mask as int) <= 255) by (nonlinear_arith) requires v <= mask, mask >= 1;
        ((v * 255) / mask) as u8
    }
}

/// Palette index `i` of the scanline at `o`.
fn png_index_exec(l: &[u8], o: usize, d: u8, i: u64) -> (r: u16)
    requires
        d == 1 || d == 2 || d == 4 || d == 8,
        0 <= o + sample_byte(d, i as int) < l@.len(),
        d < 8 ==> d * ((i as int) % (8int / (d as int)) + 1) <= 8,
    ensures
        r == png_index(l@, o as int, d, i as int),
{
    let byte = l[sample_byte_exec(o, d, i, l.len())];
    if d == 8 {
        byte as u16
    } else {
        packed_value_exec(byte, d, i)
    }
}

/// Channel `c` over white with opacity `a`.
fn over_white_exec(c: u8, a: u8) -> (r: u8)
    ensures
        r == over_white(c, a),
{
    assert(c * a <= 255 * a) by (nonlinear_arith) requires c <= 255, a >= 0;
    ((c as u16 * a as u16 + 255 * (255 - a as u16)) / 255) as u8
}

/// An RGBA pixel composited onto white.
pub(crate) fn composite_exec(r: u8, g: u8, b: u8, a: u8) -> (p: (u8, u8, u8))
    ensures
        p == composite(r, g, b, a),
{
    if a == 255 {
        (r, g, b)
    } else {
        (over_white_exec(r, a), over_white_exec(g, a), over_white_exec(b, a))
    }
}

/// Pixel `x` of the unfiltered scanline at `o` as RGB, or the out-of-range
/// palette index it names.
fn png_px_exec(l: &[u8], o: usize, st: &PngChunks, x: u64) -> (r: Result<(u8, u8, u8), u16>)
    requires
        x < st.width,
        png_depth_ok(st.depth),
        png_channels(st.colour) >= 1,
        !(st.colour == 3 && st.depth == 16),
        o + row_bytes(st.scan()) <= l@.len(),
    ensures
        match png_px(l@, o as int, st.scan(), x as int) {
            Some(p) => r == Ok::<(u8, u8, u8), u16>(p),
            None => r is Err,
        },
{
    let d = st.depth;
    let ghost w = st.width as int;
    let ghost ch = png_channels(st.colour);
    if st.colour == 0 {
        proof { lemma_sample_in_row(w, ch, d, x as int); }
        let v = png_sample_exec(l, o, d, x);
        Ok((v, v, v))
    } else if st.colour == 2 {
        proof {
            lemma_sample_in_row(w, ch, d, 3 * x);
            lemma_sample_in_row(w, ch, d, 3 * x + 1);
            lemma_sample_in_row(w, ch, d, 3 * x + 2);
        }
        Ok((png_sample_exec(l, o, d, 3 * x), png_sample_exec(l, o, d, 3 * x + 1), png_sample_exec(l, o, d, 3 * x + 2)))
    } else if st.colour == 3 {
        proof { lemma_sample_in_row(w, ch, d, x as int); }
        let i = png_index_exec(l, o, d, x);
        if (i as usize) < st.palette.len() {
            Ok(st.palette[i as usize])
        } else {
            Err(i)
        }
    } else if st.colour == 4 {
        proof {
            lemma_sample_in_row(w, ch, d, 2 * x);
            lemma_sample_in_row(w, ch, d, 2 * x + 1);
        }
        let v = png_sample_exec(l, o, d, 2 * x);
        Ok(composite_exec(v, v, v, png_sample_exec(l, o, d, 2 * x + 1)))
    } else {
        proof {
            lemma_sample_in_row(w, ch, d, 4 * x);
            lemma_sample_in_row(w, ch, d, 4 * x + 1);
            lemma_sample_in_row(w, ch, d, 4 * x + 2);
            lemma_sample_in_row(w, ch, d, 4 * x + 3);
        }
        Ok(composite_exec(png_sample_exec(l, o, d, 4 * x), png_sample_exec(l, o, d, 4 * x + 1),
            png_sample_exec(l, o, d, 4 * x + 2), png_sample_exec(l, o, d, 4 * x + 3)))
    }
}

/// Unpacks the unfiltered scanlines to 8-bit RGB, compositing any alpha
/// onto white.
fn png_unpack(lines: &[u8], rb: usize, st: &PngChunks) -> (r: Result<Vec<u8>, String>)
    requires
        st.width >= 1,
        st.height >= 1,
        png_depth_ok(st.depth),
        png_channels(st.colour) >= 1,
        !(st.colour == 3 && st.depth == 16),
        rb == row_bytes(st.scan()),
        lines@.len() == st.height * rb,
    ensures
        png_pixels_ok(lines@, rb as int, st.scan()) ==> (r matches Ok(v) && v@ == png_image(lines@, rb as int, st.scan())),
        !png_pixels_ok(lines@, rb as int, st.scan()) ==> r is Err,
{
    let w = st.width as u64;
    let h = st.height as usize;
    let ghost sc = st.scan();
    let ghost f = |x: int, y: int, c: int| pick(png_px(lines@, y * rb, sc, x)->0, c);
    let mut out: Vec<u8> = Vec::new();
    proof {
        lemma_raster_start(w as int, f);
    }
    let nl = lines.len();
    let mut y: usize = 0;
    while y < h
        invariant
            y <= h,
            nl == lines@.len(),
            f == (|x: int, y: int, c: int| pick(png_px(lines@, y * rb, sc, x)->0, c)),
            h == st.height,
            w == st.width,
            sc == st.scan(),
            png_depth_ok(st.depth),
            png_channels(st.colour) >= 1,
            !(st.colour == 3 && st.depth == 16),
            rb == row_bytes(sc),
            lines@.len() == h * rb,
            raster_done(out@, w as int, 0, y as int, f),
            forall|xx: int, yy: int| 0 <= xx < w && 0 <= yy < y ==> #[trigger] png_px(lines@, yy * rb, sc, xx) is Some,
        decreases h - y,
    {
        proof {
            assert(y * rb + rb <= h * rb) by (nonlinear_arith) requires y < h;
        }
        let o = y * rb;
        let mut x: u64 = 0;
        while x < w
            invariant
                x <= w,
                y < h,
                h == st.height,
                w == st.width,
                sc == st.scan(),
                o == y * rb,
                o + rb <= lines@.len(),
                f == (|x: int, y: int, c: int| pick(png_px(lines@, y * rb, sc, x)->0, c)),
                png_depth_ok(st.depth),
                png_channels(st.colour) >= 1,
                !(st.colour == 3 && st.depth == 16),
                rb == row_bytes(sc),
                raster_done(out@, w as int, x as int, y as int, f),
                forall|xx: int, yy: int| 0 <= xx < w && 0 <= yy < y ==> #[trigger] png_px(lines@, yy * rb, sc, xx) is Some,
                forall|xx: int| 0 <= xx < x ==> #[trigger] png_px(lines@, y * rb, sc, xx) is Some,
            decreases w - x,
        {
            match png_px_exec(lines, o, st, x) {
                Ok(p) => {
                    proof {
                        assert(png_px(lines@, y * rb, sc, x as int) == Some(p));
                        assert(f(x as int, y as int, 0) == p.0);
                        lemma_raster_push(out@, w as int, x as int, y as int, f, p.0, p.1, p.2);
                    }
                    out.push(p.0);
                    out.push(p.1);
                    out.push(p.2);
                },
                Err(i) => {
                    assert(!png_pixels_ok(lines@, rb as int, sc)) by {
                        assert(!(png_px(lines@, y * rb, sc, x as int) is Some));
                    }
                    return Err(crate::text::with_two_numbers("PNG references palette entry ", i as u64, " of ",
                        st.palette.len() as u64, ""));
                },
            }
            x = x + 1;
        }
        proof {
            lemma_raster_next_row(out@, w as int, y as int, f);
        }
        y = y + 1;
    }
    proof {
        lemma_raster_finish(out@, w as int, h as int, f);
        lemma_image_is_unique(out@, w as int, h as int, f);
        assert(png_pixels_ok(lines@, rb as int, sc));
    }
    Ok(out)
}

/// What `decode_png` reads from `b`: its width, height and RGB pixels, or
/// `None`.
pub open spec fn png_decode_spec(b: Seq<u8>) -> Option<(int, int, Seq<u8>)> {
    if b.len() < 8 || b.subrange(0, 8) != png_signature() {
        None
    } else {
        match png_scan(b, 8, png_scan_start()) {
            None => None,
            Some(st) => {
                if !st.seen_ihdr || st.width == 0 || st.height == 0 || st.idat.len() == 0 {
                    None
                } else if png_channels(st.colour) == 0 || !png_depth_ok(st.depth) {
                    None
                } else if st.colour == 3 && (st.palette.len() == 0 || st.depth == 16) {
                    None
                } else {
                    match zlib_spec(st.idat) {
                        None => None,
                        Some(raw) => {
                            let rb = row_bytes(st);
                            if raw.len() < (rb + 1) * st.height {
                                None
                            } else {
                                match unfilter_rows(raw, rb, filter_step(st), st.height as nat) {
                                    None => None,
                                    Some(l) => if png_pixels_ok(l, rb, st) {
                                        Some((st.width as int, st.height as int, png_image(l, rb, st)))
                                    } else {
                                        None
                                    },
                                }
                            }
                        },
                    }
                }
            },
        }
    }
}

/// Whether `bytes` begins with the PNG signature.
pub fn has_png_signature(bytes: &[u8]) -> (r: bool)
    ensures
        r == (bytes@.len() >= 8 && bytes@.subrange(0, 8) == png_signature()),
{
    if bytes.len() < 8 {
        return false;
    }
    let sig: [u8; 8] = [0x89, 0x50, 0x4E, 0x47, 0x0D, 0x0A, 0x1A, 0x0A];
    assert(sig@ =~= png_signature());
    let mut i: usize = 0;
    while i < 8
        invariant
            i <= 8,
            bytes@.len() >= 8,
            sig@ == png_signature(),
            forall|j: int| 0 <= j < i ==> bytes@[j] == sig@[j],
        decreases 8 - i,
    {
        if bytes[i] != sig[i] {
            assert(bytes@.subrange(0, 8)[i as int] != png_signature()[i as int]);
            return false;
        }
        i = i + 1;
    }
    assert(bytes@.subrange(0, 8) =~= png_signature());
    true
}

/// Decodes a PNG into an RGB [`Image`]: bit depths 1, 2, 4, 8 and 16 and
/// colour types 0 (grey), 2 (RGB), 3 (palette), 4 (grey and alpha) and
/// 6 (RGBA); alpha is composited onto white. Interlaced images, a missing
/// or short header, truncated chunks, undefined colour types and depths,
/// a palette image without a palette (or with 16-bit indices), image data
/// that does not decompress or is short, an unknown row filter and a
/// palette index past the palette are errors.
pub fn decode_png(bytes: &[u8]) -> (r: Result<Image, String>)
    ensures
        match png_decode_spec(bytes@) {
            Some((w, h, px)) => r matches Ok(img) && img.wf() && img.width == w && img.height == h && img.pixels@ == px,
            None => r is Err,
        },
        !(bytes@.len() >= 8 && bytes@.subrange(0, 8) == png_signature())
            ==> (r matches Err(m) && m@ == "not a PNG (the 8-byte signature is missing)"@),
        bytes@.len() >= 8 && bytes@.subrange(0, 8) == png_signature() ==> match png_scan_fault(bytes@, 8) {
            Some(PngFault::Truncated) => r matches Err(m) && crate::text::starts_with(m@, "truncated PNG"@),
            Some(PngFault::ShortHeader) => r matches Err(m) && m@ == "PNG header chunk is too short"@,
            Some(PngFault::Interlaced) => r matches Err(m) && m@ == interlaced_text(),
            None => png_scan(bytes@, 8, png_scan_start()) matches Some(st) && (!st.seen_ihdr
                ==> (r matches Err(m) && m@ == "PNG has no header chunk"@)),
        },
{
    if !has_png_signature(bytes) {
        return Err(crate::text::owned("not a PNG (the 8-byte signature is missing)"));
    }
    let st = match scan_png_chunks(bytes) {
        Ok(st) => st,
        Err(e) => {
            return Err(e);
        },
    };
    if !st.seen_ihdr {
        return Err(crate::text::owned("PNG has no header chunk"));
    }
    decode_chunks(st, Ghost(bytes@))
}

/// The image of the chunks a scan gathered (see `png_decode_spec`).
fn decode_chunks(st: PngChunks, Ghost(b): Ghost<Seq<u8>>) -> (r: Result<Image, String>)
    requires
        b.len() >= 8,
        b.subrange(0, 8) == png_signature(),
        png_scan(b, 8, png_scan_start()) == Some(st.scan()),
        st.seen_ihdr,
    ensures
        match png_decode_spec(b) {
            Some((w, h, px)) => r matches Ok(img) && img.wf() && img.width == w && img.height == h && img.pixels@ == px,
            None => r is Err,
        },
{
    if st.width == 0 || st.height == 0 {
        return Err(crate::text::with_two_numbers("PNG has zero extent (", st.width as u64, "x", st.height as u64, ")"));
    }
    if st.idat.len() == 0 {
        return Err(crate::text::owned("PNG has no image data"));
    }
    let channels: u64 = if st.colour == 0 {
        1
    } else if st.colour == 2 {
        3
    } else if st.colour == 3 {
        1
    } else if st.colour == 4 {
        2
    } else if st.colour == 6 {
        4
    } else {
        return Err(crate::text::with_number("PNG colour type ", st.colour as u64, " is not one the format defines"));
    };
    let d = st.depth;
    if !(d == 1 || d == 2 || d == 4 || d == 8 || d == 16) {
        return Err(crate::text::with_number("PNG bit depth ", d as u64, " is not one the format defines"));
    }
    if st.colour == 3 && st.palette.len() == 0 {
        return Err(crate::text::owned("PNG says it is palette-coloured but carries no palette"));
    }
    if st.colour == 3 && d == 16 {
        return Err(crate::text::owned("PNG palette indices cannot be 16 bits deep"));
    }
    let raw = match crate::inflate::zlib_decompress(st.idat.as_slice()) {
        Ok(v) => v,
        Err(m) => {
            return Err(crate::text::with_text("PNG image data would not decompress: ", m.as_str(), ""));
        },
    };
    let bpp: u64 = channels * (d as u64);
    proof {
        assert((st.width as u64) * bpp <= 0xFFFF_FFFFu64 * 64) by (nonlinear_arith)
            requires st.width <= 0xFFFF_FFFFu32, bpp <= 64;
    }
    let rb64: u64 = ((st.width as u64) * bpp + 7) / 8;
    proof {
        assert(((rb64 as u128) + 1) * (st.height as u128) <= (0x20_0000_0000u128) * 0x1_0000_0000u128) by (nonlinear_arith)
            requires rb64 < 0x20_0000_0000u64, st.height <= 0xFFFF_FFFFu32;
    }
    let step: usize = if bpp / 8 >= 1 { (bpp / 8) as usize } else { 1 };
    let expected: u128 = ((rb64 as u128) + 1) * (st.height as u128);
    if (raw.len() as u128) < expected {
        return Err(crate::text::with_number("PNG image data is short: the image needs ", #[verifier::truncate] (expected as u64), " bytes"));
    }
    proof {
        assert(rb64 <= (rb64 + 1) * st.height) by (nonlinear_arith) requires st.height >= 1;
    }
    let rb = rb64 as usize;
    let height = st.height as usize;
    let lines = match unfilter_all(raw.as_slice(), rb, step, height) {
        Ok(v) => v,
        Err(e) => {
            return Err(e);
        },
    };
    proof {
        lemma_unfilter_rows_len(raw@, rb as int, step as int, height as nat);
    }
    let pixels = match png_unpack(lines.as_slice(), rb, &st) {
        Ok(v) => v,
        Err(e) => {
            return Err(e);
        },
    };
    Ok(Image { width: st.width as usize, height, pixels })
}

/// Where a chunk is written, its length, type and body read back.
proof fn lemma_chunk_fields(f: Seq<u8>, pos: int, kind: Seq<u8>, data: Seq<u8>)
    requires
        0 <= pos,
        kind.len() == 4,
        data.len() < 0x1_0000_0000,
        pos + 12 + data.len() <= f.len(),
        forall|j: int| 0 <= j < 12 + data.len() ==> #[trigger] f[pos + j] == png_chunk(kind, data)[j],
    ensures
        get_be32(f, pos) == data.len(),
        f.subrange(pos + 4, pos + 8) == kind,
        f.subrange(pos + 8, pos + 8 + data.len()) == data,
{
    let c = png_chunk(kind, data);
    let n = data.len() as u32;
    lemma_be32_round_trip(n);
    assert(f[pos + 0] == c[0] && f[pos + 1] == c[1] && f[pos + 2] == c[2] && f[pos + 3] == c[3]);
    assert(get_be32(f, pos) == get_be32(be32(n), 0));
    assert(f.subrange(pos + 4, pos + 8) =~= kind) by {
        assert forall|j: int| 0 <= j < 4 implies f.subrange(pos + 4, pos + 8)[j] == kind[j] by {
            assert(f[pos + (4 + j)] == c[4 + j]);
        }
    }
    assert(f.subrange(pos + 8, pos + 8 + data.len()) =~= data) by {
        assert forall|j: int| 0 <= j < data.len() implies f.subrange(pos + 8, pos + 8 + data.len())[j] == data[j] by {
            assert(f[pos + (8 + j)] == c[8 + j]);
        }
    }
}

/// Scanline `y` of the unfiltered stream: filter byte 0, then the row.
proof fn lemma_raw_scanlines_index(rgb: Seq<u8>, w: int, k: nat, y: int, i: int)
    requires
        w >= 0,
        k * w * 3 <= rgb.len(),
        0 <= y < k,
        0 <= i < 3 * w,
    ensures
        raw_scanlines(rgb, w, k)[y * (3 * w + 1)] == 0,
        raw_scanlines(rgb, w, k)[y * (3 * w + 1) + 1 + i] == rgb[y * (3 * w) + i],
    decreases k,
{
    let k1 = (k - 1) as nat;
    assert(k1 * w * 3 <= k * w * 3) by (nonlinear_arith) requires k1 + 1 == k, w >= 0;
    assert(0 <= k1 * w * 3) by (nonlinear_arith) requires w >= 0;
    lemma_raw_scanlines_len(rgb, w, k1);
    assert(k * w * 3 - k1 * w * 3 == 3 * w) by (nonlinear_arith) requires k1 + 1 == k;
    if y < k1 {
        lemma_raw_scanlines_index(rgb, w, k1, y, i);
        assert(y * (3 * w + 1) + 1 + i < k1 * (w * 3 + 1)) by (nonlinear_arith) requires y < k1, 0 <= i < 3 * w;
    } else {
        assert(y * (3 * w + 1) == k1 * (w * 3 + 1));
        assert(k1 * w * 3 + i == y * (3 * w) + i) by (nonlinear_arith) requires y == k1;
    }
}

/// Stored scanlines with filter 0 unfilter to the rows themselves.
#[verifier::spinoff_prover]
proof fn lemma_unfilter_plain(rgb: Seq<u8>, w: int, h: nat, k: nat)
    requires
        w >= 1,
        k <= h,
        rgb.len() == w * h * 3,
    ensures
        unfilter_rows(raw_scanlines(rgb, w, h), 3 * w, 3, k) == Some(rgb.subrange(0, k * (3 * w))),
    decreases k,
{
    let raw = raw_scanlines(rgb, w, h);
    assert(h * w * 3 == w * h * 3) by (nonlinear_arith);
    if k == 0 {
        assert(rgb.subrange(0, 0) =~= Seq::<u8>::empty());
    } else {
        let k1 = (k - 1) as nat;
        lemma_unfilter_plain(rgb, w, h, k1);
        let done = rgb.subrange(0, k1 * (3 * w));
        let at = (k - 1) * (3 * w + 1);
        lemma_raw_scanlines_index(rgb, w, h, k1 as int, 0);
        assert(raw[at] == 0);
        assert(k * (3 * w) == k1 * (3 * w) + 3 * w) by (nonlinear_arith) requires k == k1 + 1;
        assert(k * (3 * w) <= h * (3 * w)) by (nonlinear_arith) requires k <= h, w >= 1;
        let prev = if k == 1 { Seq::new((3 * w) as nat, |i: int| 0u8) } else { done.subrange((k - 2) * (3 * w), (k - 1) * (3 * w)) };
        assert forall|i: int| 0 <= i < 3 * w implies #[trigger] recon(raw, at + 1, prev, 0, 3, i) == rgb[k1 * (3 * w) + i] by {
            lemma_raw_scanlines_index(rgb, w, h, k1 as int, i);
        }
        assert(0 <= k1 * (3 * w)) by (nonlinear_arith) requires w >= 1;
        assert(h * (3 * w) == w * h * 3) by (nonlinear_arith);
        assert(k1 * (3 * w) <= k * (3 * w)) by (nonlinear_arith) requires k1 <= k, w >= 1;
        assert(done.len() == k1 * (3 * w));
        let nw = Seq::new((3 * w) as nat, |i: int| recon(raw, at + 1, prev, 0, 3, i));
        assert forall|j: int| 0 <= j < k * (3 * w) implies #[trigger] (done + nw)[j] == rgb.subrange(0, k * (3 * w))[j] by {
            if j >= k1 * (3 * w) {
                assert(nw[j - k1 * (3 * w)] == rgb[k1 * (3 * w) + (j - k1 * (3 * w))]);
            }
        }
        assert(done + nw =~= rgb.subrange(0, k * (3 * w)));
        assert(nw =~= Seq::new((3 * w) as nat, |i: int| recon(raw, at + 1, prev, raw[at], 3, i)));
    }
}

/// The scan state the chunks of an encoded PNG leave.
pub open spec fn encoded_scan(w: int, h: int, rgb: Seq<u8>) -> PngScan {
    PngScan {
        width: w as u32,
        height: h as u32,
        depth: 8,
        colour: 2,
        seen_ihdr: true,
        idat: zlib_stored_spec(raw_scanlines(rgb, w, h as nat)),
        ..png_scan_start()
    }
}

/// Where the chunks of an encoded PNG lie.
proof fn lemma_encoded_layout(w: int, h: int, rgb: Seq<u8>)
    requires
        0 < w,
        0 < h,
        rgb.len() == w * h * 3,
    ensures
        ({
            let f = spec_encode_png(w, h, rgb);
            let z = zlib_stored_spec(raw_scanlines(rgb, w, h as nat));
            &&& f.len() == 57 + z.len()
            &&& f.subrange(0, 8) == png_signature()
            &&& forall|j: int| 0 <= j < 25 ==> #[trigger] f[8 + j] == png_chunk(tag_ihdr(), ihdr_body(w, h))[j]
            &&& forall|j: int| 0 <= j < 12 + z.len() ==> #[trigger] f[33 + j] == png_chunk(tag_idat(), z)[j]
            &&& forall|j: int| 0 <= j < 12 ==> #[trigger] f[(45 + z.len() as int) + j] == png_chunk(tag_iend(), seq![])[j]
        }),
{
    let z = zlib_stored_spec(raw_scanlines(rgb, w, h as nat));
    let c1 = png_chunk(tag_ihdr(), ihdr_body(w, h));
    let c2 = png_chunk(tag_idat(), z);
    let c3 = png_chunk(tag_iend(), seq![]);
    let f = spec_encode_png(w, h, rgb);
    reveal(spec_encode_png);
    assert(c1.len() == 25 && c3.len() == 12 && c2.len() == 12 + z.len());
    assert(f.subrange(0, 8) =~= png_signature());
    assert forall|j: int| 0 <= j < 25 implies #[trigger] f[8 + j] == c1[j] by {}
    assert forall|j: int| 0 <= j < 12 + z.len() implies #[trigger] f[33 + j] == c2[j] by {}
    assert forall|j: int| 0 <= j < 12 implies #[trigger] f[(45 + z.len() as int) + j] == c3[j] by {}
}

/// One `IHDR` chunk step of the scan.
proof fn lemma_scan_ihdr(b: Seq<u8>, pos: int, st: PngScan)
    requires
        0 <= pos,
        pos + 8 + get_be32(b, pos) + 4 <= b.len(),
        get_be32(b, pos) >= 13,
        b.subrange(pos + 4, pos + 8) == tag_ihdr(),
        b[pos + 8 + 12] == 0,
    ensures
        png_scan(b, pos, st) == png_scan(b, pos + 12 + get_be32(b, pos), (PngScan {
            width: get_be32(b, pos + 8),
            height: get_be32(b, pos + 12),
            depth: b[pos + 16],
            colour: b[pos + 17],
            seen_ihdr: true,
            ..st
        })),
{
    reveal(png_scan);
}

/// One `IDAT` chunk step of the scan.
proof fn lemma_scan_idat(b: Seq<u8>, pos: int, st: PngScan)
    requires
        0 <= pos,
        pos + 8 + get_be32(b, pos) + 4 <= b.len(),
        b.subrange(pos + 4, pos + 8) == tag_idat(),
    ensures
        png_scan(b, pos, st) == png_scan(b, pos + 12 + get_be32(b, pos), (PngScan {
            idat: st.idat + b.subrange(pos + 8, pos + 8 + get_be32(b, pos)),
            ..st
        })),
{
    reveal(png_scan);
    assert(tag_idat()[1] != tag_ihdr()[1] && tag_idat()[0] != tag_plte()[0]);
}

/// An `IEND` chunk ends the scan.
proof fn lemma_scan_iend(b: Seq<u8>, pos: int, st: PngScan)
    requires
        0 <= pos,
        pos + 8 + get_be32(b, pos) + 4 <= b.len(),
        b.subrange(pos + 4, pos + 8) == tag_iend(),
    ensures
        png_scan(b, pos, st) == Some(st),
{
    reveal(png_scan);
    assert(tag_iend()[1] != tag_ihdr()[1] && tag_iend()[0] != tag_plte()[0] && tag_iend()[1] != tag_idat()[1]);
}

/// The `IHDR` fields of an encoded PNG.
proof fn lemma_encoded_header(w: int, h: int, rgb: Seq<u8>)
    requires
        0 < w <= 0xFFFF_FFFF,
        0 < h <= 0xFFFF_FFFF,
        rgb.len() == w * h * 3,
    ensures
        ({
            let f = spec_encode_png(w, h, rgb);
            &&& get_be32(f, 8) == 13
            &&& f.subrange(12, 16) == tag_ihdr()
            &&& f[28] == 0
            &&& get_be32(f, 16) == w
            &&& get_be32(f, 20) == h
            &&& f[24] == 8
            &&& f[25] == 2
        }),
{
    let f = spec_encode_png(w, h, rgb);
    let body = ihdr_body(w, h);
    let c1 = png_chunk(tag_ihdr(), body);
    lemma_encoded_layout(w, h, rgb);
    lemma_chunk_fields(f, 8, tag_ihdr(), body);
    lemma_be32_round_trip(w as u32);
    lemma_be32_round_trip(h as u32);
    assert(f[8int + 20] == c1[20] && f[8int + 16] == c1[16] && f[8int + 17] == c1[17]);
    assert(f[8int + 8] == c1[8] && f[8int + 9] == c1[9] && f[8int + 10] == c1[10] && f[8int + 11] == c1[11]);
    assert(f[8int + 12] == c1[12] && f[8int + 13] == c1[13] && f[8int + 14] == c1[14] && f[8int + 15] == c1[15]);
    assert(get_be32(f, 16) == get_be32(be32(w as u32), 0));
    assert(get_be32(f, 20) == get_be32(be32(h as u32), 0));
}

/// The chunk scan of an encoded PNG finds its header and its one `IDAT`.
proof fn lemma_png_scan_encoded(w: int, h: int, rgb: Seq<u8>)
    requires
        0 < w <= 0xFFFF_FFFF,
        0 < h <= 0xFFFF_FFFF,
        rgb.len() == w * h * 3,
        zlib_stored_spec(raw_scanlines(rgb, w, h as nat)).len() <= 0xFFFF_FFFF,
    ensures
        spec_encode_png(w, h, rgb).len() >= 8,
        spec_encode_png(w, h, rgb).subrange(0, 8) == png_signature(),
        png_scan(spec_encode_png(w, h, rgb), 8, png_scan_start()) == Some(encoded_scan(w, h, rgb)),
{
    let raw = raw_scanlines(rgb, w, h as nat);
    let z = zlib_stored_spec(raw);
    let f = spec_encode_png(w, h, rgb);
    assert(h * w * 3 == w * h * 3) by (nonlinear_arith);
    lemma_raw_scanlines_len(rgb, w, h as nat);
    assert(h * (w * 3 + 1) == (3 * w + 1) * h) by (nonlinear_arith);
    lemma_stored_blocks_len(raw);
    let big_l = z.len();
    lemma_encoded_layout(w, h, rgb);
    lemma_encoded_header(w, h, rgb);
    let st1 = PngScan { width: w as u32, height: h as u32, depth: 8, colour: 2, seen_ihdr: true, ..png_scan_start() };
    lemma_scan_ihdr(f, 8, png_scan_start());
    lemma_chunk_fields(f, 33, tag_idat(), z);
    lemma_scan_idat(f, 33, st1);
    assert(st1.idat + z =~= z);
    let p3: int = 45 + big_l as int;
    lemma_chunk_fields(f, p3, tag_iend(), seq![]);
    lemma_scan_iend(f, p3, encoded_scan(w, h, rgb));
}

/// Decoding what [`encode_png`] wrote gives back the same image, for any
/// size whose compressed image data fits one chunk, whose length field is
/// 32 bits. (Past that the length written is cut to 32 bits and the file
/// does not read back.)
pub proof fn lemma_png_round_trip(w: int, h: int, rgb: Seq<u8>)
    requires
        0 < w <= 0xFFFF_FFFF,
        0 < h <= 0xFFFF_FFFF,
        rgb.len() == w * h * 3,
        zlib_stored_spec(raw_scanlines(rgb, w, h as nat)).len() <= 0xFFFF_FFFF,
    ensures
        png_decode_spec(spec_encode_png(w, h, rgb)) == Some((w, h, rgb)),
{
    let raw = raw_scanlines(rgb, w, h as nat);
    let st = encoded_scan(w, h, rgb);
    lemma_png_scan_encoded(w, h, rgb);
    assert(h * w * 3 == w * h * 3) by (nonlinear_arith);
    lemma_raw_scanlines_len(rgb, w, h as nat);
    assert(h * (w * 3 + 1) == (3 * w + 1) * h) by (nonlinear_arith);
    lemma_stored_blocks_len(raw);
    lemma_zlib_stored_round_trip(raw);
    assert(st.width == w);
    assert((w * 24 + 7) / 8 == 3 * w) by (nonlinear_arith);
    assert(row_bytes(st) == 3 * w);
    assert(filter_step(st) == 3);
    lemma_unfilter_plain(rgb, w, h as nat, h as nat);
    assert(rgb.subrange(0, h * (3 * w)) =~= rgb) by {
        assert(h * (3 * w) == w * h * 3) by (nonlinear_arith);
    }
    assert(raw.len() >= (3 * w + 1) * h);
    assert forall|x: int, y: int| 0 <= x < w && 0 <= y < h implies #[trigger] png_px(rgb, y * (3 * w), st, x) is Some by {}
    assert forall|x: int, y: int, c: int| 0 <= x < w && 0 <= y < h && 0 <= c < 3 implies
        #[trigger] pick(png_px(rgb, y * (3 * w), st, x)->0, c) == crate::image::at(rgb, w, x, y, c) by {
        assert(y * (3 * w) + 3 * x + c == (y * w + x) * 3 + c) by (nonlinear_arith);
    }
    crate::image::lemma_image_of_ext(w, h, |x: int, y: int, c: int| pick(png_px(rgb, y * (3 * w), st, x)->0, c),
        |x: int, y: int, c: int| crate::image::at(rgb, w, x, y, c));
    crate::image::lemma_image_of_self(rgb, w, h);
}

/// The unfiltered lines take `rb` bytes each.
proof fn lemma_unfilter_rows_len(raw: Seq<u8>, rb: int, step: int, k: nat)
    requires
        rb >= 0,
    ensures
        unfilter_rows(raw, rb, step, k) matches Some(l) ==> l.len() == k * rb,
    decreases k,
{
    if k > 0 {
        lemma_unfilter_rows_len(raw, rb, step, (k - 1) as nat);
        assert((k - 1) * rb + rb == k * rb) by (nonlinear_arith);
    } else {
        assert(k * rb == 0) by (nonlinear_arith) requires k == 0;
    }
}

// ------------------------------------------------------- filter round trip

/// The predictor a PNG encoder subtracts, as the PNG specification
/// defines each filter type: 0 none, 1 the byte to the left, 2 the byte
/// above, 3 the floor of the mean of those two (taken over the integers),
/// 4 Paeth's choice among left, above and upper-left (nearest to
/// `left + above - upper_left`, ties to left, then above).
pub open spec fn png_predictor(f: u8, left: u8, above: u8, upper_left: u8) -> int {
    if f == 0 {
        0
    } else if f == 1 {
        left as int
    } else if f == 2 {
        above as int
    } else if f == 3 {
        (left as int + above as int) / 2
    } else {
        let p = left as int + above as int - upper_left as int;
        let da = if p >= left { p - left } else { left - p };
        let db = if p >= above { p - above } else { above - p };
        let dc = if p >= upper_left { p - upper_left } else { upper_left - p };
        if da <= db && da <= dc { left as int } else if db <= dc { above as int } else { upper_left as int }
    }
}

/// A scanline `row` filtered with filter type `f` under the unfiltered
/// line `prev`, pixels `step` bytes wide: each byte less its predictor,
/// modulo 256, the neighbours outside the line counting as zero.
pub open spec fn png_filtered(row: Seq<u8>, prev: Seq<u8>, f: u8, step: int) -> Seq<u8> {
    Seq::new(row.len(), |i: int| {
        let left: u8 = if i >= step { row[i - step] } else { 0u8 };
        let upper_left: u8 = if i >= step { prev[i - step] } else { 0u8 };
        ((row[i] as int - png_predictor(f, left, prev[i], upper_left)) % 256) as u8
    })
}

/// Unfiltering undoes every PNG filter: a scanline filtered by the
/// specification's rule with any of the five filter types comes back
/// byte for byte.
pub proof fn lemma_unfilter_inverts_filter(row: Seq<u8>, prev: Seq<u8>, f: u8, step: int, i: int)
    requires
        f <= 4,
        step >= 1,
        prev.len() == row.len(),
        0 <= i < row.len(),
    ensures
        recon(png_filtered(row, prev, f, step), 0, prev, f, step, i) == row[i],
{
    lemma_recon_inverts(png_filtered(row, prev, f, step), 0, row, prev, f, step, i);
}

/// The same, for a filtered scanline lying at `s` in a longer stream.
proof fn lemma_recon_inverts(raw: Seq<u8>, s: int, row: Seq<u8>, prev: Seq<u8>, f: u8, step: int, i: int)
    requires
        f <= 4,
        step >= 1,
        prev.len() == row.len(),
        0 <= i < row.len(),
        0 <= s,
        s + row.len() <= raw.len(),
        forall|k: int| 0 <= k < row.len() ==> raw[s + k] == #[trigger] png_filtered(row, prev, f, step)[k],
    ensures
        recon(raw, s, prev, f, step, i) == row[i],
    decreases i,
{
    let t = png_filtered(row, prev, f, step);
    let left: u8 = if i >= step { row[i - step] } else { 0u8 };
    let upper_left: u8 = if i >= step { prev[i - step] } else { 0u8 };
    if i >= step {
        lemma_recon_inverts(raw, s, row, prev, f, step, i - step);
    }
    assert(raw[s + i] == t[i]);
    let x = t[i];
    let pr = png_predictor(f, left, prev[i], upper_left);
    assert(0 <= pr < 256) by {
        if f == 3 {
            assert((left as int + prev[i] as int) / 2 <= 255);
        }
    }
    assert(x == ((row[i] as int - pr) % 256) as u8);
    if f == 4 {
        assert(paeth_spec(left, prev[i], upper_left) as int == pr);
    }
    assert(((((row[i] as int - pr) % 256) + pr) % 256) == row[i] as int) by {
        lemma_sub_add_mod(row[i] as int, pr);
    }
}

/// Scanline `y` of `rows` (`rb` bytes each).
pub open spec fn row_of(rows: Seq<u8>, rb: int, y: int) -> Seq<u8> {
    rows.subrange(y * rb, (y + 1) * rb)
}

/// The line above scanline `y`: zeros above the first.
pub open spec fn row_above(rows: Seq<u8>, rb: int, y: int) -> Seq<u8> {
    if y == 0 { Seq::new(rb as nat, |i: int| 0u8) } else { row_of(rows, rb, y - 1) }
}

/// The first `k` scanlines of `rows` as a PNG encoder stores them: each
/// its filter type `fs[y]` and then the line filtered with it under the
/// line above.
pub open spec fn png_stream(rows: Seq<u8>, fs: Seq<u8>, rb: int, step: int, k: nat) -> Seq<u8>
    decreases k,
{
    if k == 0 {
        Seq::empty()
    } else {
        let y = k - 1;
        png_stream(rows, fs, rb, step, (k - 1) as nat) + seq![fs[y]] + png_filtered(row_of(rows, rb, y), row_above(rows, rb, y), fs[y], step)
    }
}

proof fn lemma_row_len(rows: Seq<u8>, rb: int, y: int, n: int)
    requires
        0 <= y < n,
        rb >= 0,
        rows.len() == n * rb,
    ensures
        row_of(rows, rb, y).len() == rb,
        row_above(rows, rb, y).len() == rb,
        0 <= y * rb,
        y * rb + rb == (y + 1) * rb,
        (y + 1) * rb <= n * rb,
{
    assert(0 <= y * rb) by (nonlinear_arith) requires 0 <= y, rb >= 0;
    assert(y * rb + rb == (y + 1) * rb) by (nonlinear_arith);
    assert((y + 1) * rb <= n * rb) by (nonlinear_arith) requires y + 1 <= n, rb >= 0;
    if y > 0 {
        assert(0 <= (y - 1) * rb) by (nonlinear_arith) requires 1 <= y, rb >= 0;
        assert((y - 1) * rb + rb == y * rb) by (nonlinear_arith);
    }
}

proof fn lemma_stream_prefix(rows: Seq<u8>, fs: Seq<u8>, rb: int, step: int, k: nat, n: nat)
    requires
        k <= n,
        rb >= 0,
        rows.len() == n * rb,
    ensures
        png_stream(rows, fs, rb, step, k).len() == k * (rb + 1),
        png_stream(rows, fs, rb, step, n).subrange(0, k * (rb + 1)) == png_stream(rows, fs, rb, step, k),
    decreases n - k,
{
    lemma_stream_len(rows, fs, rb, step, k, n);
    if k < n {
        lemma_stream_prefix(rows, fs, rb, step, k + 1, n);
        lemma_stream_len(rows, fs, rb, step, k + 1, n);
        let a = png_stream(rows, fs, rb, step, k);
        let b = png_stream(rows, fs, rb, step, (k + 1) as nat);
        assert(b.subrange(0, k * (rb + 1)) =~= a);
        assert((k + 1) * (rb + 1) == k * (rb + 1) + rb + 1) by (nonlinear_arith);
        assert(k * (rb + 1) <= (k + 1) * (rb + 1)) by (nonlinear_arith) requires rb >= 0;
        let full = png_stream(rows, fs, rb, step, n);
        lemma_stream_len(rows, fs, rb, step, n, n);
        assert((k + 1) * (rb + 1) <= n * (rb + 1)) by (nonlinear_arith) requires k + 1 <= n, rb >= 0;
        assert(full.subrange(0, k * (rb + 1)) =~= full.subrange(0, (k + 1) * (rb + 1)).subrange(0, k * (rb + 1)));
    } else {
        assert(png_stream(rows, fs, rb, step, n).subrange(0, n * (rb + 1)) =~= png_stream(rows, fs, rb, step, n));
    }
}

proof fn lemma_stream_len(rows: Seq<u8>, fs: Seq<u8>, rb: int, step: int, k: nat, n: nat)
    requires
        k <= n,
        rb >= 0,
        rows.len() == n * rb,
    ensures
        png_stream(rows, fs, rb, step, k).len() == k * (rb + 1),
    decreases k,
{
    if k > 0 {
        lemma_stream_len(rows, fs, rb, step, (k - 1) as nat, n);
        let y = k - 1;
        lemma_row_len(rows, rb, y, n as int);
        let r = row_of(rows, rb, y);
        let f = png_filtered(r, row_above(rows, rb, y), fs[y], step);
        assert(f.len() == rb);
        assert(png_stream(rows, fs, rb, step, k) == png_stream(rows, fs, rb, step, (k - 1) as nat) + seq![fs[y]] + f);
        assert(k * (rb + 1) == (k - 1) * (rb + 1) + 1 + rb) by (nonlinear_arith);
        assert(((k - 1) as nat) * (rb + 1) == (k - 1) * (rb + 1));
    } else {
        assert(k * (rb + 1) == 0) by (nonlinear_arith) requires k == 0;
    }
}

/// Decoding undoes encoding, whatever filter each scanline was stored
/// with: unfiltering a stream of scanlines each filtered by the PNG rule
/// (with its own filter type, under the line above it) gives the
/// scanlines back.
pub proof fn lemma_unfilter_rows_inverts(rows: Seq<u8>, fs: Seq<u8>, rb: int, step: int, n: nat, k: nat)
    requires
        rb >= 0,
        step >= 1,
        k <= n,
        rows.len() == n * rb,
        fs.len() == n,
        forall|y: int| 0 <= y < n ==> #[trigger] fs[y] <= 4,
    ensures
        unfilter_rows(png_stream(rows, fs, rb, step, n), rb, step, k) == Some(rows.subrange(0, k * rb)),
    decreases k,
{
    let full = png_stream(rows, fs, rb, step, n);
    if k == 0 {
        assert(k * rb == 0) by (nonlinear_arith) requires k == 0;
        assert(rows.subrange(0, 0) =~= Seq::<u8>::empty());
    } else {
        lemma_unfilter_rows_inverts(rows, fs, rb, step, n, (k - 1) as nat);
        let y = k - 1;
        let done = rows.subrange(0, y * rb);
        lemma_stream_prefix(rows, fs, rb, step, k, n);
        lemma_stream_len(rows, fs, rb, step, y as nat, n);
        let part = png_stream(rows, fs, rb, step, k);
        let before = png_stream(rows, fs, rb, step, y as nat);
        let at = y * (rb + 1);
        assert(at == before.len());
        lemma_row_len(rows, rb, y, n as int);
        lemma_stream_len(rows, fs, rb, step, n, n);
        assert(k * (rb + 1) <= n * (rb + 1)) by (nonlinear_arith) requires k <= n, rb >= 0;
        assert(k * (rb + 1) == at + 1 + rb) by (nonlinear_arith) requires k == y + 1, at == y * (rb + 1);
        let row = row_of(rows, rb, y);
        let prev = row_above(rows, rb, y);
        let filt = png_filtered(row, prev, fs[y], step);
        assert(part == before + seq![fs[y]] + filt);
        assert(full[at] == part[at]);
        assert(full[at] == fs[y]);
        assert forall|i: int| 0 <= i < row.len() implies full[at + 1 + i] == #[trigger] filt[i] by {
            assert(full[at + 1 + i] == part[at + 1 + i]);
        }
        let p2 = if k == 1 { Seq::new(rb as nat, |i: int| 0u8) } else { done.subrange((k - 2) * rb, (k - 1) * rb) };
        if k > 1 {
            assert((k - 2) * rb >= 0 && (k - 1) * rb == y * rb && (k - 2) * rb + rb == y * rb) by (nonlinear_arith)
                requires
                    k >= 2,
                    rb >= 0,
                    y == k - 1,
            ;
            assert(p2 =~= prev);
        } else {
            assert(p2 =~= prev);
        }
        let new_row = Seq::new(rb as nat, |i: int| recon(full, at + 1, p2, fs[y], step, i));
        assert forall|i: int| 0 <= i < rb implies new_row[i] == row[i] by {
            lemma_recon_inverts(full, at + 1, row, prev, fs[y], step, i);
        }
        assert(new_row =~= row);
        assert(((k - 1) as nat) * rb == y * rb);
        assert(unfilter_rows(full, rb, step, (k - 1) as nat) == Some(done));
        assert(unfilter_rows(full, rb, step, k) == Some(done + new_row));
        assert(done + row =~= rows.subrange(0, k * rb));
    }
}

proof fn lemma_sub_add_mod(r: int, p: int)
    requires
        0 <= r < 256,
        0 <= p < 256,
    ensures
        (((r - p) % 256) + p) % 256 == r,
{
    if r >= p {
        assert((r - p) % 256 == r - p);
    } else {
        assert((r - p) % 256 == r - p + 256);
        assert((r + 256) % 256 == r);
    }
}

} // verus!
