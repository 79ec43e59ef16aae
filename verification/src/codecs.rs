//! Reading and writing images by format: sniffing PNG, BMP, JPEG and
//! TIFF from their first bytes, and the JPEG and TIFF codecs, which the
//! `jpeg-decoder`, `jpeg-encoder` and `tiff` crates do the work of. What
//! this module adds is the checking and reshaping around those calls:
//! dimension limits, widening grayscale, narrowing 16-bit samples and
//! compositing alpha onto white.

use vstd::prelude::*;
use crate::image::Image;
use crate::png::{decode_png, png_decode_spec, png_signature, has_png_signature, composite, composite_exec};
use crate::bmp::{decode_bmp, bmp_ok, bmp_width, bmp_height, bmp_pixel};
use crate::image::image_of;
use crate::text;
use std::io::Cursor;
use jpeg_decoder::PixelFormat;
use tiff::ColorType as TiffColorType;
use tiff::decoder::{Decoder as TiffDecoder, DecodingResult};
use tiff::encoder::{TiffEncoder, colortype::RGB8};

verus! {

/// The sample layout a JPEG frame decodes to.
#[derive(PartialEq, Eq, Structural, Clone, Copy, Debug)]
pub enum JpegLayout {
    /// 8-bit grayscale.
    Gray8,
    /// 16-bit grayscale.
    Gray16,
    /// 8-bit RGB.
    Rgb8,
    /// 8-bit CMYK.
    Cmyk8,
}

/// What the JPEG decoder makes of `bytes`: the frame's width, height and
/// sample layout, and the decoded samples; `None` where it refuses them.
pub uninterp spec fn jpeg_frame(bytes: Seq<u8>) -> Option<(u16, u16, JpegLayout, Seq<u8>)>;

/// Decodes `bytes` with `jpeg_decoder::Decoder` (`decode`, then `info`).
/// Claimed: the result depends on the bytes alone (this build enables the
/// decoder's `platform_independent` feature, which leaves out the IDCT and
/// colour conversions picked by what the processor offers), and is the frame
/// header's width, height and pixel format with the decoded samples, or
/// an error exactly where the decoder refuses the bytes or reports no
/// frame. The error message is the decoder's own wording.
#[verifier::external_body]
fn jpeg_decode(bytes: &[u8]) -> (r: Result<(u16, u16, JpegLayout, Vec<u8>), String>)
    ensures
        match r {
            Ok((w, h, layout, data)) => jpeg_frame(bytes@) == Some((w, h, layout, data@)),
            Err(_) => jpeg_frame(bytes@) is None,
        },
{
    let mut decoder = jpeg_decoder::Decoder::new(bytes);
    let data = decoder.decode().map_err(|e| format!("could not decode this JPEG: {e}"))?;
    let info = decoder.info().ok_or(format!("this JPEG decoded but carried no frame header"))?;
    let layout = match info.pixel_format {
        PixelFormat::L8 => JpegLayout::Gray8,
        PixelFormat::L16 => JpegLayout::Gray16,
        PixelFormat::RGB24 => JpegLayout::Rgb8,
        PixelFormat::CMYK32 => JpegLayout::Cmyk8,
    };
    Ok((info.width, info.height, layout, data))
}

/// Grayscale samples widened to R = G = B.
pub open spec fn widen_gray(data: Seq<u8>) -> Seq<u8> {
    Seq::new(data.len() * 3, |i: int| data[i / 3])
}

/// The RGB pixels a JPEG frame with this layout gives, or `None` for the
/// layouts that are refused (16-bit grayscale and CMYK).
pub open spec fn jpeg_pixels(layout: JpegLayout, data: Seq<u8>) -> Option<Seq<u8>> {
    match layout {
        JpegLayout::Rgb8 => Some(data),
        JpegLayout::Gray8 => Some(widen_gray(data)),
        _ => None,
    }
}

/// Whether bytes begin with JPEG's start-of-image marker and the first
/// byte of the next marker, `FF D8 FF`.
pub open spec fn jpeg_magic(b: Seq<u8>) -> bool {
    b.len() >= 3 && b[0] == 0xFF && b[1] == 0xD8 && b[2] == 0xFF
}

/// Whether bytes begin with a TIFF (or BigTIFF) header in either byte order.
pub open spec fn tiff_magic(b: Seq<u8>) -> bool {
    b.len() >= 4 && (
        (b[0] == 0x49 && b[1] == 0x49 && (b[2] == 0x2A || b[2] == 0x2B) && b[3] == 0x00)
        || (b[0] == 0x4D && b[1] == 0x4D && b[2] == 0x00 && (b[3] == 0x2A || b[3] == 0x2B)))
}

/// Whether the bytes begin like a JPEG.
pub fn is_jpeg(bytes: &[u8]) -> (r: bool)
    ensures
        r == jpeg_magic(bytes@),
{
    bytes.len() >= 3 && bytes[0] == 0xFF && bytes[1] == 0xD8 && bytes[2] == 0xFF
}

/// Whether the bytes begin like a TIFF.
pub fn is_tiff(bytes: &[u8]) -> (r: bool)
    ensures
        r == tiff_magic(bytes@),
{
    bytes.len() >= 4 && (
        (bytes[0] == 0x49 && bytes[1] == 0x49 && (bytes[2] == 0x2A || bytes[2] == 0x2B) && bytes[3] == 0x00)
        || (bytes[0] == 0x4D && bytes[1] == 0x4D && bytes[2] == 0x00 && (bytes[3] == 0x2A || bytes[3] == 0x2B)))
}

/// Grayscale samples widened to R = G = B.
fn widen(data: &Vec<u8>) -> (out: Vec<u8>)
    requires
        data@.len() * 3 <= usize::MAX,
    ensures
        out@ == widen_gray(data@),
{
    let mut out: Vec<u8> = Vec::new();
    let mut i: usize = 0;
    while i < data.len()
        invariant
            i <= data@.len(),
            data@.len() * 3 <= usize::MAX,
            out@ =~= widen_gray(data@.subrange(0, i as int)),
        decreases data@.len() - i,
    {
        let v = data[i];
        out.push(v);
        out.push(v);
        out.push(v);
        i += 1;
        assert(out@ =~= widen_gray(data@.subrange(0, i as int)));
    }
    assert(data@.subrange(0, data@.len() as int) =~= data@);
    out
}

/// Decodes a baseline or progressive JPEG into RGB. Grayscale frames are
/// widened to R = G = B; 16-bit grayscale and CMYK are refused by name,
/// as are empty dimensions, a sample count that does not fit them, and a
/// frame too large to address on this machine.
pub fn decode_jpeg(bytes: &[u8]) -> (r: Result<Image, String>)
    ensures
        match jpeg_frame(bytes@) {
            None => r is Err,
            Some((w, h, layout, data)) => match jpeg_pixels(layout, data) {
                Some(px) => if w > 0 && h > 0 && px.len() == w * h * 3 && w * h * 3 <= usize::MAX {
                    r matches Ok(img) && img.wf() && img.width == w && img.height == h && img.pixels@ == px
                } else {
                    r is Err
                },
                None => r is Err,
            },
        },
{
    let (w, h, layout, data) = match jpeg_decode(bytes) {
        Ok(frame) => frame,
        Err(e) => {
            return Err(e);
        },
    };
    let width = w as usize;
    let height = h as usize;
    if width == 0 || height == 0 {
        return Err(text::with_two_numbers("invalid JPEG dimensions ", w as u64, "x", h as u64, ""));
    }
    proof {
        assert(width * height <= 0xFFFF * 0xFFFF) by (nonlinear_arith) requires width <= 0xFFFF, height <= 0xFFFF;
    }
    let pixels = match layout {
        JpegLayout::Rgb8 => data,
        JpegLayout::Gray8 => {
            if data.len() > usize::MAX / 3 {
                return Err(text::owned("this JPEG decoded to more samples than fit in memory"));
            }
            widen(&data)
        },
        JpegLayout::Gray16 => {
            return Err(text::owned(
                "unsupported JPEG: 16-bit grayscale, which this build does not convert (Image is 8-bit RGB)",
            ));
        },
        JpegLayout::Cmyk8 => {
            return Err(text::owned(
                "unsupported JPEG: CMYK, which this build refuses rather than guess at the Adobe inversion convention and hand back colour-inverted pixels",
            ));
        },
    };
    if width.checked_mul(height).is_none() || (width * height).checked_mul(3).is_none() {
        return Err(text::with_two_numbers("a ", w as u64, "x", h as u64, " JPEG does not fit in memory here"));
    }
    let r = Image::new(width, height, pixels);
    proof {
        if layout == JpegLayout::Gray8 {
            assert(widen_gray(data@).len() == data@.len() * 3);
        }
    }
    r
}

/// What the JPEG encoder writes for 8-bit RGB data at the given size and
/// quality.
pub uninterp spec fn jpeg_bytes(rgb: Seq<u8>, width: u16, height: u16, quality: u8) -> Seq<u8>;

/// Encodes RGB as a baseline JPEG with `jpeg_encoder::Encoder` (`new`,
/// then `encode` into a `Vec`). Claimed: it fails exactly when a dimension
/// is zero or the data is shorter than `width * height * 3` (writing into
/// a `Vec` cannot fail), and otherwise the bytes depend on the arguments
/// alone (this build leaves the encoder's `simd` feature off, so there is
/// no path chosen by the processor).
#[verifier::external_body]
fn jpeg_encode_rgb(rgb: &[u8], width: u16, height: u16, quality: u8) -> (r: Result<Vec<u8>, String>)
    ensures
        r is Ok <==> (width > 0 && height > 0 && rgb@.len() >= width * height * 3),
        r matches Ok(b) ==> b@ == jpeg_bytes(rgb@, width, height, quality),
{
    let mut out: Vec<u8> = Vec::new();
    let encoder = jpeg_encoder::Encoder::new(&mut out, quality);
    match encoder.encode(rgb, width, height, jpeg_encoder::ColorType::Rgb) {
        Ok(()) => Ok(out),
        Err(err) => Err(format!("could not encode this image as JPEG: {err}")),
    }
}

/// `quality` clamped to `1 ..= 100`.
pub open spec fn jpeg_quality(quality: u8) -> u8 {
    if quality < 1 { 1 } else if quality > 100 { 100 } else { quality }
}

/// Encodes RGB as a baseline JPEG at the given quality, clamped to
/// `1 ..= 100`. JPEG stores each dimension in 16 bits, so both must lie
/// in `1 ..= 65535`; the data must hold `width * height * 3` bytes. Lossy:
/// the bytes do not decode back to `rgb`.
pub fn encode_jpeg(width: usize, height: usize, rgb: &[u8], quality: u8) -> (r: Result<Vec<u8>, String>)
    ensures
        r is Ok <==> (1 <= width <= 0xFFFF && 1 <= height <= 0xFFFF && rgb@.len() >= width * height * 3),
        r matches Ok(b) ==> b@ == jpeg_bytes(rgb@, width as u16, height as u16, jpeg_quality(quality)),
{
    if width == 0 || height == 0 || width > 0xFFFF || height > 0xFFFF {
        return Err(text::with_two_numbers(
            "cannot write a ",
            width as u64,
            "x",
            height as u64,
            " image as JPEG: the format stores each dimension in 16 bits, so both must be between 1 and 65535",
        ));
    }
    let q = if quality < 1 { 1 } else if quality > 100 { 100 } else { quality };
    jpeg_encode_rgb(rgb, width as u16, height as u16, q)
}

/// A TIFF's colour type, as far as decoding here cares.
pub enum TiffColor {
    Gray,
    GrayAlpha,
    Rgb,
    Rgba,
    /// Palette, CMYK, YCbCr and the like, which are refused; the decoder's
    /// own name for the type.
    Other(String),
}

/// The samples a TIFF decodes to.
pub enum TiffSamples {
    Bytes(Vec<u8>),
    Words(Vec<u16>),
    /// Wider integers or floating point, which are refused, by kind.
    Other(TiffSampleKind),
}

/// A refused sample type.
#[derive(PartialEq, Eq, Structural, Clone, Copy, Debug)]
pub enum TiffSampleKind {
    Float32,
    Float64,
    Int32,
    Int64,
    Signed,
}

/// The samples a TIFF decodes to, as sequences.
pub enum TiffSampleView {
    Bytes(Seq<u8>),
    Words(Seq<u16>),
    Other(TiffSampleKind),
}

impl View for TiffSamples {
    type V = TiffSampleView;

    open spec fn view(&self) -> TiffSampleView {
        match self {
            TiffSamples::Bytes(v) => TiffSampleView::Bytes(v@),
            TiffSamples::Words(v) => TiffSampleView::Words(v@),
            TiffSamples::Other(k) => TiffSampleView::Other(*k),
        }
    }
}

/// What the TIFF decoder makes of `bytes`: width, height, colour type and
/// the first image's samples; `None` where it refuses them.
pub uninterp spec fn tiff_image(bytes: Seq<u8>) -> Option<(u32, u32, TiffColor, TiffSampleView)>;

/// The dimensions the TIFF decoder reads from `bytes`; `None` where it
/// cannot open the file or read them.
pub uninterp spec fn tiff_dims(bytes: Seq<u8>) -> Option<(u32, u32)>;

/// Decodes the first image of a TIFF with `tiff::decoder::Decoder`
/// (`new`, `dimensions`, then `colortype` and `read_image`). Claimed: the
/// result depends on the bytes alone: an error where the file or its
/// dimensions cannot be read, else the dimensions with either the colour
/// type and samples or the decoder's error for them. The error messages
/// are the decoder's own, prefixed.
#[verifier::external_body]
fn tiff_decode(bytes: &[u8]) -> (r: Result<(u32, u32, Result<(TiffColor, TiffSamples), String>), String>)
    ensures
        match r {
            Err(_) => tiff_dims(bytes@) is None && tiff_image(bytes@) is None,
            Ok((w, h, Err(_))) => tiff_dims(bytes@) == Some((w, h)) && tiff_image(bytes@) is None,
            Ok((w, h, Ok((c, s)))) => tiff_dims(bytes@) == Some((w, h)) && tiff_image(bytes@) == Some((w, h, c, s@)),
        },
{
    let mut d = TiffDecoder::new(Cursor::new(bytes)).map_err(|e| format!("could not read this TIFF: {e}"))?;
    let (w, h) = d.dimensions().map_err(|e| format!("could not read this TIFF's dimensions: {e}"))?;
    let rest = match d.colortype() {
        Err(e) => Err(format!("could not read this TIFF's colour type: {e}")),
        Ok(c) => d.read_image().map(|v| (color_of(c), samples_of(v))).map_err(|e| format!("could not decode this TIFF: {e}")),
    };
    Ok((w, h, rest))
}

/// `tiff`'s colour type, carried opaquely into `color_of`.
#[verifier::external_type_specification]
#[verifier::external_body]
pub struct ExTiffColorType(tiff::ColorType);

/// `tiff`'s decoded samples, carried opaquely into `samples_of`.
#[verifier::external_type_specification]
#[verifier::external_body]
pub struct ExDecodingResult(tiff::decoder::DecodingResult);

/// `tiff`'s colour type as the library's, one for one (used by `tiff_decode`).
#[verifier::external_body]
fn color_of(c: TiffColorType) -> TiffColor {
    match c {
        TiffColorType::Gray(_) => TiffColor::Gray,
        TiffColorType::GrayA(_) => TiffColor::GrayAlpha,
        TiffColorType::RGB(_) => TiffColor::Rgb,
        TiffColorType::RGBA(_) => TiffColor::Rgba,
        other => TiffColor::Other(format!("{other:?}")),
    }
}

/// `tiff`'s decoded samples as the library's, one for one for 8- and
/// 16-bit samples, by kind alone for the others (used by `tiff_decode`).
#[verifier::external_body]
fn samples_of(v: DecodingResult) -> TiffSamples {
    match v {
        DecodingResult::U8(v) => TiffSamples::Bytes(v),
        DecodingResult::U16(v) => TiffSamples::Words(v),
        DecodingResult::F32(_) => TiffSamples::Other(TiffSampleKind::Float32),
        DecodingResult::F64(_) => TiffSamples::Other(TiffSampleKind::Float64),
        DecodingResult::U32(_) => TiffSamples::Other(TiffSampleKind::Int32),
        DecodingResult::U64(_) => TiffSamples::Other(TiffSampleKind::Int64),
        _ => TiffSamples::Other(TiffSampleKind::Signed),
    }
}

/// Samples narrowed to 8 bits (16-bit ones keep their high byte), or
/// `None` for sample types that are refused.
pub open spec fn narrow(s: TiffSampleView) -> Option<Seq<u8>> {
    match s {
        TiffSampleView::Bytes(v) => Some(v),
        TiffSampleView::Words(v) => Some(Seq::new(v.len(), |i: int| (v[i] >> 8) as u8)),
        TiffSampleView::Other(_) => None,
    }
}

/// Samples per pixel of a colour type (0 for the refused ones).
pub open spec fn tiff_channels(c: TiffColor) -> int {
    match c {
        TiffColor::Gray => 1,
        TiffColor::GrayAlpha => 2,
        TiffColor::Rgb => 3,
        TiffColor::Rgba => 4,
        TiffColor::Other(_) => 0,
    }
}

/// Pixel `i` of samples `s` with `ch` samples per pixel, as RGB over white.
pub open spec fn tiff_px(s: Seq<u8>, ch: int, i: int) -> (u8, u8, u8) {
    let o = i * ch;
    if ch == 1 {
        composite(s[o], s[o], s[o], 255)
    } else if ch == 2 {
        composite(s[o], s[o], s[o], s[o + 1])
    } else if ch == 3 {
        composite(s[o], s[o + 1], s[o + 2], 255)
    } else {
        composite(s[o], s[o + 1], s[o + 2], s[o + 3])
    }
}

/// The first `n` pixels of samples `s`, as RGB bytes.
pub open spec fn tiff_rgb(s: Seq<u8>, ch: int, n: int) -> Seq<u8> {
    Seq::new((3 * n) as nat, |k: int| {
        let p = tiff_px(s, ch, k / 3);
        if k % 3 == 0 { p.0 } else if k % 3 == 1 { p.1 } else { p.2 }
    })
}

fn narrow_words(v: &Vec<u16>) -> (out: Vec<u8>)
    ensures
        out@ == Seq::new(v@.len(), |i: int| (v@[i] >> 8) as u8),
{
    let mut out: Vec<u8> = Vec::new();
    let mut i: usize = 0;
    while i < v.len()
        invariant
            i <= v@.len(),
            out@ =~= Seq::new(i as nat, |k: int| (v@[k] >> 8) as u8),
        decreases v@.len() - i,
    {
        let x = v[i];
        assert((x >> 8) < 256) by (bit_vector);
        out.push((x >> 8) as u8);
        i += 1;
    }
    out
}

/// Decodes a TIFF into RGB. 8- and 16-bit grayscale, grayscale with
/// alpha, RGB and RGBA are read; 16-bit samples keep their high byte and
/// alpha is composited onto white. Other colour or sample types, empty
/// dimensions and short pixel data are errors.
pub fn decode_tiff(bytes: &[u8]) -> (r: Result<Image, String>)
    ensures
        match tiff_image(bytes@) {
            None => r is Err,
            Some((w, h, c, sv)) => match narrow(sv) {
                Some(s) => if w > 0 && h > 0 && tiff_channels(c) > 0 && s.len() >= w * h * tiff_channels(c)
                    && w * h * 3 <= usize::MAX {
                    r matches Ok(img) && img.wf() && img.width == w && img.height == h
                        && img.pixels@ == tiff_rgb(s, tiff_channels(c), w * h)
                } else {
                    r is Err
                },
                None => r is Err,
            },
        },
{
    let (w, h, rest) = match tiff_decode(bytes) {
        Ok(t) => t,
        Err(e) => {
            return Err(e);
        },
    };
    if w == 0 || h == 0 {
        return Err(text::with_two_numbers("invalid TIFF dimensions ", w as u64, "x", h as u64, ""));
    }
    let (color, samples) = match rest {
        Ok(t) => t,
        Err(e) => {
            return Err(e);
        },
    };
    let ghost sv = samples@;
    let ghost cv = color;
    let s: Vec<u8> = match samples {
        TiffSamples::Bytes(v) => v,
        TiffSamples::Words(v) => narrow_words(&v),
        TiffSamples::Other(k) => {
            let kind = match k {
                TiffSampleKind::Float32 => "32-bit floats",
                TiffSampleKind::Float64 => "64-bit floats",
                TiffSampleKind::Int32 => "32-bit integers",
                TiffSampleKind::Int64 => "64-bit integers",
                TiffSampleKind::Signed => "a sample type",
            };
            return Err(text::with_text(
                "unsupported TIFF: this build reads 8- and 16-bit integer samples, and this file stores ",
                kind,
                "",
            ));
        },
    };
    let ch: usize = match &color {
        TiffColor::Gray => 1,
        TiffColor::GrayAlpha => 2,
        TiffColor::Rgb => 3,
        TiffColor::Rgba => 4,
        TiffColor::Other(name) => {
            return Err(text::with_text(
                "unsupported TIFF colour type ",
                name.as_str(),
                ": this build reads grayscale, grayscale+alpha, RGB and RGBA",
            ));
        },
    };
    if (w as usize).checked_mul(h as usize).is_none() || (w as usize * h as usize).checked_mul(3).is_none() {
        return Err(text::with_two_numbers("a ", w as u64, "x", h as u64, " TIFF does not fit in memory here"));
    }
    let width = w as usize;
    let height = h as usize;
    let n = width * height;
    proof {
        assert(narrow(sv) == Some(s@));
    }
    if n > s.len() / ch {
        proof {
            assert(n * ch > s@.len()) by (nonlinear_arith) requires n > (s@.len() as int) / (ch as int), ch >= 1;
        }
        proof {
            assert(n * ch <= usize::MAX * 4) by (nonlinear_arith) requires n <= usize::MAX, ch <= 4;
        }
        let expected: u128 = (n as u128) * (ch as u128);
        let a = text::with_number("TIFF pixel data is short: expected ", #[verifier::truncate] (expected as u64), " samples for a ");
        let b = text::with_two_numbers(a.as_str(), w as u64, "x", h as u64, " image with ");
        return Err(text::with_two_numbers(b.as_str(), ch as u64, " channel(s), got ", s.len() as u64, ""));
    }
    proof {
        assert(n * ch <= s@.len()) by (nonlinear_arith) requires n <= (s@.len() as int) / (ch as int), ch >= 1;
    }
    let ghost sq = s@;
    let mut pixels: Vec<u8> = Vec::new();
    let mut i: usize = 0;
    while i < n
        invariant
            i <= n,
            1 <= ch <= 4,
            n * ch <= sq.len(),
            sq.len() <= usize::MAX,
            n * 3 <= usize::MAX,
            s@ == sq,
            pixels@ =~= tiff_rgb(sq, ch as int, i as int),
        decreases n - i,
    {
        proof {
            assert(i * ch + ch <= n * ch) by (nonlinear_arith) requires i < n, ch >= 1;
        }
        let o = i * ch;
        let (pr, pg, pb, pa) = if ch == 1 {
            (s[o], s[o], s[o], 255u8)
        } else if ch == 2 {
            (s[o], s[o], s[o], s[o + 1])
        } else if ch == 3 {
            (s[o], s[o + 1], s[o + 2], 255u8)
        } else {
            (s[o], s[o + 1], s[o + 2], s[o + 3])
        };
        let px = composite_exec(pr, pg, pb, pa);
        pixels.push(px.0);
        pixels.push(px.1);
        pixels.push(px.2);
        proof {
            let t = tiff_rgb(sq, ch as int, i + 1);
            assert(tiff_px(sq, ch as int, i as int) == px);
            assert forall|k: int| 0 <= k < 3 * (i + 1) implies pixels@[k] == t[k] by {
                if k < 3 * i {
                    assert(tiff_rgb(sq, ch as int, i as int)[k] == t[k]);
                } else {
                    assert(k / 3 == i);
                }
            }
        }
        i += 1;
    }
    let r = Image::new(width, height, pixels);
    proof {
        match tiff_image(bytes@) {
            Some((w2, h2, c2, sv2)) => {
                assert(narrow(sv2) == Some(sq));
                assert(c2 == cv);
                assert(tiff_channels(c2) == ch);
            },
            None => {},
        }
    }
    r
}

/// What the TIFF encoder writes for an uncompressed 8-bit RGB image.
pub uninterp spec fn tiff_rgb8(width: u32, height: u32, rgb: Seq<u8>) -> Option<Seq<u8>>;

/// Encodes 8-bit RGB as an uncompressed TIFF with
/// `tiff::encoder::TiffEncoder::write_image` into an in-memory cursor.
/// Claimed: the outcome depends on the arguments alone. The data must hold
/// `width * height * 3` bytes: the encoder slices whole strips out of it
/// and panics on data between `width * height` and that length.
#[verifier::external_body]
fn tiff_encode_rgb8(width: u32, height: u32, rgb: &[u8]) -> (r: Result<Vec<u8>, String>)
    requires
        rgb@.len() >= width * height * 3,
    ensures
        match r {
            Ok(v) => tiff_rgb8(width, height, rgb@) == Some(v@),
            Err(_) => tiff_rgb8(width, height, rgb@) is None,
        },
{
    let mut buf = Cursor::new(Vec::new());
    {
        let mut enc = TiffEncoder::new(&mut buf).map_err(|e| format!("could not start a TIFF: {e}"))?;
        enc.write_image::<RGB8>(width, height, rgb).map_err(|e| format!("could not encode this image as TIFF: {e}"))?;
    }
    Ok(buf.into_inner())
}

/// Encodes RGB as an uncompressed 8-bit RGB TIFF, which reads back
/// pixel-exact. Empty dimensions, dimensions past what TIFF's 32-bit
/// fields hold, and data shorter than `width * height * 3` are errors.
pub fn encode_tiff(width: usize, height: usize, rgb: &[u8]) -> (r: Result<Vec<u8>, String>)
    ensures
        width == 0 || height == 0 || width > u32::MAX || height > u32::MAX || rgb@.len() < width * height * 3 ==> r is Err,
        width > 0 && height > 0 && width <= u32::MAX && height <= u32::MAX && rgb@.len() >= width * height * 3 ==> match r {
            Ok(v) => tiff_rgb8(width as u32, height as u32, rgb@) == Some(v@),
            Err(_) => tiff_rgb8(width as u32, height as u32, rgb@) is None,
        },
{
    if width == 0 || height == 0 {
        return Err(text::with_two_numbers("cannot write a ", width as u64, "x", height as u64, " image as TIFF"));
    }
    if width > 0xFFFF_FFFF || height > 0xFFFF_FFFF {
        return Err(text::with_two_numbers("cannot write a ", width as u64, "x", height as u64,
            " image as TIFF: each dimension must fit in 32 bits"));
    }
    let len = rgb.len();
    let enough = match width.checked_mul(height) {
        Some(n) => match n.checked_mul(3) {
            Some(m) => len >= m,
            None => false,
        },
        None => {
            assert(width * height * 3 >= width * height) by (nonlinear_arith)
                requires
                    width > 0,
                    height > 0,
            ;
            false
        },
    };
    if !enough {
        return Err(text::with_two_numbers("cannot write a ", width as u64, "x", height as u64,
            " image as TIFF: the data is shorter than three bytes a pixel"));
    }
    tiff_encode_rgb8(width as u32, height as u32, rgb)
}

/// The start of the message for bytes of no format read here: it names
/// the four that are.
pub fn unknown_format_text() -> (s: &'static str)
    ensures
        s@ == unknown_format_text_spec(),
{
    "not an image this build can read -- expected a PNG, a BMP, a JPEG or a TIFF, and the file begins "
}

pub open spec fn unknown_format_text_spec() -> Seq<char> {
    "not an image this build can read -- expected a PNG, a BMP, a JPEG or a TIFF, and the file begins "@
}

/// Decodes an image, telling the format from its first bytes: the PNG
/// signature, `BM`, JPEG's `FF D8 FF`, or a TIFF header. Anything else is
/// an error naming the bytes it began with.
pub fn decode(bytes: &[u8]) -> (r: Result<Image, String>)
    ensures
        bytes@.len() >= 8 && bytes@.subrange(0, 8) == png_signature() ==> match png_decode_spec(bytes@) {
            Some((w, h, px)) => r matches Ok(img) && img.wf() && img.width == w && img.height == h && img.pixels@ == px,
            None => r is Err,
        },
        !(bytes@.len() >= 8 && bytes@.subrange(0, 8) == png_signature()) && bytes@.len() >= 2
            && bytes@[0] == 0x42 && bytes@[1] == 0x4D ==> {
            &&& (r is Ok <==> bmp_ok(bytes@))
            &&& r matches Ok(img) ==> img.wf() && img.width == bmp_width(bytes@) && img.height == bmp_height(bytes@)
                && img.pixels@ == image_of(img.width as int, img.height as int, |x: int, y: int, c: int| bmp_pixel(bytes@, x, y, c))
        },
        !(bytes@.len() >= 8 && bytes@.subrange(0, 8) == png_signature())
            && !(bytes@.len() >= 2 && bytes@[0] == 0x42 && bytes@[1] == 0x4D) && jpeg_magic(bytes@) ==> match jpeg_frame(bytes@) {
            None => r is Err,
            Some((w, h, layout, data)) => match jpeg_pixels(layout, data) {
                Some(px) => if w > 0 && h > 0 && px.len() == w * h * 3 && w * h * 3 <= usize::MAX {
                    r matches Ok(img) && img.wf() && img.width == w && img.height == h && img.pixels@ == px
                } else {
                    r is Err
                },
                None => r is Err,
            },
        },
        !(bytes@.len() >= 8 && bytes@.subrange(0, 8) == png_signature())
            && !(bytes@.len() >= 2 && bytes@[0] == 0x42 && bytes@[1] == 0x4D) && !jpeg_magic(bytes@)
            && tiff_magic(bytes@) ==> match tiff_image(bytes@) {
            None => r is Err,
            Some((w, h, c, sv)) => match narrow(sv) {
                Some(s) => if w > 0 && h > 0 && tiff_channels(c) > 0 && s.len() >= w * h * tiff_channels(c)
                    && w * h * 3 <= usize::MAX {
                    r matches Ok(img) && img.wf() && img.width == w && img.height == h
                        && img.pixels@ == tiff_rgb(s, tiff_channels(c), w * h)
                } else {
                    r is Err
                },
                None => r is Err,
            },
        },
        !(bytes@.len() >= 8 && bytes@.subrange(0, 8) == png_signature())
            && !(bytes@.len() >= 2 && bytes@[0] == 0x42 && bytes@[1] == 0x4D) && !jpeg_magic(bytes@)
            && !tiff_magic(bytes@) ==> (r matches Err(m) && m@ == unknown_format_text_spec() + text::byte_list(
            bytes@.take(if bytes@.len() < 4 { bytes@.len() as int } else { 4 }),
        )),
{
    if has_png_signature(bytes) {
        decode_png(bytes)
    } else if bytes.len() >= 2 && bytes[0] == 0x42 && bytes[1] == 0x4D {
        decode_bmp(bytes)
    } else if is_jpeg(bytes) {
        decode_jpeg(bytes)
    } else if is_tiff(bytes) {
        decode_tiff(bytes)
    } else {
        let mut head: Vec<u8> = Vec::new();
        let mut i: usize = 0;
        while i < bytes.len() && i < 4
            invariant
                i <= bytes@.len(),
                i <= 4,
                head@ == bytes@.take(i as int),
            decreases 4 - i,
        {
            head.push(bytes[i]);
            proof {
                assert(head@ =~= bytes@.take(i + 1));
            }
            i += 1;
        }
        proof {
            reveal_strlit("");
        }
        let m = text::with_bytes(unknown_format_text(), head.as_slice(), "");
        proof {
            assert(m@ =~= unknown_format_text_spec() + text::byte_list(head@));
        }
        Err(m)
    }
}

} // verus!
