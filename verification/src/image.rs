//! Qu's raster image primitive: 8-bit-per-channel RGB, row-major, top-left
//! origin, no alpha; `pixels.len()` is always `width * height * 3`.
//! Dependency-free processing: grayscale, resize, 3x3 filters, crop, flip,
//! grayscale morphology, connected components and histogram equalization.
//!
//! All arithmetic here is exact integer arithmetic: where a value is the
//! rounding of a fraction, halves round up (every such fraction is
//! non-negative). Luma follows the double-precision evaluation of its
//! weighted sum exactly (see `luma`).

use vstd::prelude::*;
use vstd::arithmetic::power2::pow2;
use vstd::arithmetic::div_mod::{lemma_fundamental_div_mod_converse, lemma_fundamental_div_mod, lemma_mod_bound, lemma_div_pos_is_pos};
use crate::text;

verus! {

/// Channel `c` of pixel `(x, y)` in a row-major RGB buffer of width `w`.
pub open spec fn at(p: Seq<u8>, w: int, x: int, y: int, c: int) -> u8 {
    p[(y * w + x) * 3 + c]
}

/// `out` holds, in raster order, the first `y` full rows and then `x`
/// pixels of row `y` of an image of width `w` whose channel `c` at `(xx, yy)`
/// is `f(xx, yy, c)`.
pub open spec fn raster_done(out: Seq<u8>, w: int, x: int, y: int, f: spec_fn(int, int, int) -> u8) -> bool {
    &&& out.len() == (y * w + x) * 3
    &&& forall|xx: int, yy: int, cc: int|
        (0 <= yy < y || (yy == y && 0 <= xx < x)) && 0 <= xx < w && 0 <= cc < 3
            ==> #[trigger] at(out, w, xx, yy, cc) == f(xx, yy, cc)
}

/// `out` is exactly the `w x h` image whose channel `c` at `(x, y)` is
/// `f(x, y, c)`.
pub open spec fn image_is(out: Seq<u8>, w: int, h: int, f: spec_fn(int, int, int) -> u8) -> bool {
    &&& out.len() == w * h * 3
    &&& forall|x: int, y: int, c: int| 0 <= x < w && 0 <= y < h && 0 <= c < 3
            ==> #[trigger] at(out, w, x, y, c) == f(x, y, c)
}

pub proof fn lemma_raster_start(w: int, f: spec_fn(int, int, int) -> u8)
    requires
        w >= 0,
    ensures
        raster_done(Seq::<u8>::empty(), w, 0, 0, f),
{
}

pub proof fn lemma_raster_push(out: Seq<u8>, w: int, x: int, y: int, f: spec_fn(int, int, int) -> u8, v0: u8, v1: u8, v2: u8)
    requires
        raster_done(out, w, x, y, f),
        0 <= x < w,
        0 <= y,
        v0 == f(x, y, 0),
        v1 == f(x, y, 1),
        v2 == f(x, y, 2),
    ensures
        raster_done(out.push(v0).push(v1).push(v2), w, x + 1, y, f),
{
    let o2 = out.push(v0).push(v1).push(v2);
    assert((y * w + x + 1) * 3 == (y * w + x) * 3 + 3);
    assert forall|xx: int, yy: int, cc: int|
        (0 <= yy < y || (yy == y && 0 <= xx < x + 1)) && 0 <= xx < w && 0 <= cc < 3
            implies #[trigger] at(o2, w, xx, yy, cc) == f(xx, yy, cc) by {
        if yy == y && xx == x {
            assert(at(o2, w, xx, yy, cc) == o2[out.len() + cc]);
        } else {
            lemma_raster_before(w, xx, yy, x, y);
            assert(at(o2, w, xx, yy, cc) == at(out, w, xx, yy, cc));
        }
    }
}

pub proof fn lemma_raster_next_row(out: Seq<u8>, w: int, y: int, f: spec_fn(int, int, int) -> u8)
    requires
        raster_done(out, w, w, y, f),
        w >= 0,
        y >= 0,
    ensures
        raster_done(out, w, 0, y + 1, f),
{
    assert((y * w + w) == (y + 1) * w) by (nonlinear_arith);
}

pub proof fn lemma_raster_finish(out: Seq<u8>, w: int, h: int, f: spec_fn(int, int, int) -> u8)
    requires
        raster_done(out, w, 0, h, f),
        w >= 0,
        h >= 0,
    ensures
        image_is(out, w, h, f),
{
    assert(h * w == w * h) by (nonlinear_arith);
}

/// Pixel `(xx, yy)` comes before pixel `(x, y)` in raster order.
pub proof fn lemma_raster_before(w: int, xx: int, yy: int, x: int, y: int)
    requires
        0 <= xx < w,
        0 <= yy,
        0 <= x,
        yy < y || (yy == y && xx < x),
    ensures
        (yy * w + xx) * 3 + 3 <= (y * w + x) * 3,
{
    if yy < y {
        assert(yy * w + w <= y * w) by (nonlinear_arith)
            requires
                yy < y,
                w >= 0,
        ;
    }
}

/// Pixel `(x, y)` lies inside a `w x h` buffer.
pub proof fn lemma_index_in_bounds(w: int, h: int, x: int, y: int)
    requires
        0 <= x < w,
        0 <= y < h,
    ensures
        0 <= (y * w + x) * 3,
        (y * w + x) * 3 + 3 <= w * h * 3,
{
    assert(y * w + x < w * h) by (nonlinear_arith)
        requires
            0 <= x < w,
            0 <= y < h,
    ;
    assert(0 <= y * w) by (nonlinear_arith)
        requires
            0 <= y,
            0 <= w,
    ;
}

/// The `w x h` image whose channel `c` at `(x, y)` is `f(x, y, c)`.
pub open spec fn image_of(w: int, h: int, f: spec_fn(int, int, int) -> u8) -> Seq<u8> {
    Seq::new((w * h * 3) as nat, |i: int| f((i / 3) % w, (i / 3) / w, i % 3))
}

proof fn lemma_decompose(w: int, x: int, y: int, c: int)
    requires
        0 <= x < w,
        0 <= y,
        0 <= c < 3,
    ensures
        (((y * w + x) * 3 + c) / 3) % w == x,
        (((y * w + x) * 3 + c) / 3) / w == y,
        ((y * w + x) * 3 + c) % 3 == c,
{
    let i = (y * w + x) * 3 + c;
    lemma_fundamental_div_mod_converse(i, 3, y * w + x, c);
    lemma_fundamental_div_mod_converse(y * w + x, w, y, x);
}

/// Reading a pixel of `image_of` gives back `f`.
pub proof fn lemma_image_of_at(w: int, h: int, f: spec_fn(int, int, int) -> u8, x: int, y: int, c: int)
    requires
        0 <= x < w,
        0 <= y < h,
        0 <= c < 3,
    ensures
        at(image_of(w, h, f), w, x, y, c) == f(x, y, c),
{
    lemma_index_in_bounds(w, h, x, y);
    lemma_decompose(w, x, y, c);
}

/// A buffer with the right length and the right value at every pixel is
/// `image_of` that function.
pub proof fn lemma_image_is_unique(out: Seq<u8>, w: int, h: int, f: spec_fn(int, int, int) -> u8)
    requires
        image_is(out, w, h, f),
        w >= 0,
        h >= 0,
    ensures
        out == image_of(w, h, f),
{
    let g = image_of(w, h, f);
    assert forall|i: int| 0 <= i < out.len() implies out[i] == g[i] by {
        let x = (i / 3) % w;
        let y = (i / 3) / w;
        let c = i % 3;
        assert(w > 0) by {
            if w == 0 {
                assert(w * h * 3 == 0) by (nonlinear_arith) requires w == 0;
            }
        }
        lemma_fundamental_div_mod(i, 3);
        lemma_fundamental_div_mod(i / 3, w);
        lemma_mod_bound(i / 3, w);
        lemma_div_pos_is_pos(i / 3, w);
        assert(i == (y * w + x) * 3 + c) by (nonlinear_arith)
            requires
                i == 3 * (i / 3) + i % 3,
                i / 3 == w * ((i / 3) / w) + (i / 3) % w,
                x == (i / 3) % w,
                y == (i / 3) / w,
                c == i % 3,
        ;
        assert(y < h) by {
            if y >= h {
                assert(y * w + x >= h * w) by (nonlinear_arith) requires y >= h, w > 0, x >= 0;
                assert(h * w * 3 == w * h * 3) by (nonlinear_arith);
            }
        }
        assert(at(out, w, x, y, c) == f(x, y, c));
    }
    assert(out =~= g);
}

/// Two functions that agree on every pixel of a `w x h` image describe the
/// same image.
pub proof fn lemma_image_of_ext(w: int, h: int, f: spec_fn(int, int, int) -> u8, g: spec_fn(int, int, int) -> u8)
    requires
        w >= 0,
        h >= 0,
        forall|x: int, y: int, c: int| 0 <= x < w && 0 <= y < h && 0 <= c < 3 ==> #[trigger] f(x, y, c) == g(x, y, c),
    ensures
        image_of(w, h, f) == image_of(w, h, g),
{
    let a = image_of(w, h, f);
    assert forall|x: int, y: int, c: int| 0 <= x < w && 0 <= y < h && 0 <= c < 3 implies #[trigger] at(a, w, x, y, c) == g(x, y, c) by {
        lemma_image_of_at(w, h, f, x, y, c);
        assert(f(x, y, c) == g(x, y, c));
    }
    lemma_image_is_unique(a, w, h, g);
}

/// A buffer of the right length is the image of its own pixels.
pub proof fn lemma_image_of_self(p: Seq<u8>, w: int, h: int)
    requires
        w >= 0,
        h >= 0,
        p.len() == w * h * 3,
    ensures
        p == image_of(w, h, |x: int, y: int, c: int| at(p, w, x, y, c)),
{
    lemma_image_is_unique(p, w, h, |x: int, y: int, c: int| at(p, w, x, y, c));
}

/// `v` kept inside `0..n` (the nearest edge index when outside).
pub open spec fn clamp_index(v: int, n: int) -> int {
    if v < 0 { 0 } else if v >= n { n - 1 } else { v }
}

/// How many low bits of `n` fall outside the 53 significant bits a
/// double carries.
pub open spec fn sig_shift(n: nat) -> nat
    decreases n,
{
    if n < 0x20_0000_0000_0000 { 0 } else { 1 + sig_shift(n / 2) }
}

/// `n` rounded to 53 significant bits, ties to even: a double's rounding
/// of the value `n` counts in some fixed power-of-two unit.
pub open spec fn round53(n: nat) -> nat {
    let s = sig_shift(n);
    if s == 0 {
        n
    } else {
        let p = pow2(s);
        let q = n / p;
        let rem = n % p;
        let half = pow2((s - 1) as nat);
        (if rem > half || (rem == half && q % 2 == 1) { q + 1 } else { q }) * p
    }
}

/// ITU-R BT.601 luma `0.299 r + 0.587 g + 0.114 b` as a double evaluates
/// it, rounded half away from zero. Values count in units of `2^-56`:
/// the doubles nearest `0.299`, `0.587` and `0.114` are these numerators
/// over `2^56`, and each product and each sum is rounded to 53
/// significant bits, left to right.
pub open spec fn luma(r: u8, g: u8, b: u8) -> u8 {
    let t = round53(round53(round53(21545220617340452 * r as nat) + round53(42297807700263696 * g as nat))
        + round53(8214565720323785 * b as nat));
    let y = (t + 0x80_0000_0000_0000) / 0x100_0000_0000_0000;
    if y > 255 { 255 } else { y as u8 }
}

/// [`round53`] for values below `2^120`.
pub(crate) fn round53_exec(n: u128) -> (r: u128)
    requires
        n < 0x100_0000_0000_0000_0000_0000_0000_0000,
    ensures
        r == round53(n as nat),
        r <= 2 * n,
{
    let mut m: u128 = n;
    let mut p: u128 = 1;
    let mut s: u32 = 0;
    proof {
        assert(pow2(0) == 1) by {
            vstd::arithmetic::power2::lemma_pow2(0);
            reveal(vstd::arithmetic::power::pow);
        }
    }
    while m >= 0x20_0000_0000_0000
        invariant
            n < 0x100_0000_0000_0000_0000_0000_0000_0000,
            p == pow2(s as nat),
            m == n / p,
            s + sig_shift(m as nat) == sig_shift(n as nat),
            1 <= p,
            p * m <= n,
            s <= 67,
            p <= 0x10_0000_0000_0000_0000,
            s > 0 ==> m >= 0x10_0000_0000_0000,
        decreases m,
    {
        proof {
            vstd::arithmetic::div_mod::lemma_div_denominator(n as int, p as int, 2);
            vstd::arithmetic::power2::lemma_pow2_unfold((s + 1) as nat);
            assert(p < 0x8_0000_0000_0000_0000) by (nonlinear_arith)
                requires
                    m >= 0x20_0000_0000_0000,
                    p * m <= n,
                    n < 0x100_0000_0000_0000_0000_0000_0000_0000,
                    p >= 1,
            ;
            assert(s < 67) by {
                vstd::arithmetic::power2::lemma2_to64_rest();
                vstd::arithmetic::power2::lemma2_to64();
                vstd::arithmetic::power2::lemma_pow2_adds(64, 3);
                if s > 67 {
                    vstd::arithmetic::power2::lemma_pow2_strictly_increases(67, s as nat);
                }
            }
        }
        m = m / 2;
        p = p * 2;
        s = s + 1;
        proof {
            assert(p * m <= n) by (nonlinear_arith)
                requires
                    m == (n / (p / 2)) / 2,
                    p / 2 * (n / (p / 2)) <= n,
                    p % 2 == 0,
                    p >= 2,
            ;
        }
    }
    if s == 0 {
        return n;
    }
    let rem = n - m * p;
    let half = p / 2;
    proof {
        vstd::arithmetic::div_mod::lemma_fundamental_div_mod(n as int, p as int);
        assert(m * p == p * m) by (nonlinear_arith);
        assert(rem == n % p);
        vstd::arithmetic::power2::lemma_pow2_unfold(s as nat);
        assert(half == pow2((s - 1) as nat));
        assert(p <= m * p) by (nonlinear_arith)
            requires
                m >= 1,
                p >= 1,
        ;
        assert((m + 1) * p <= 2 * n) by (nonlinear_arith)
            requires
                m * p <= n,
                m >= 1,
                p <= m * p,
        ;
    }
    let q = if rem > half || (rem == half && m % 2 == 1) { m + 1 } else { m };
    q * p
}

/// [`luma`], computed.
pub(crate) fn luma_exec(r: u8, g: u8, b: u8) -> (y: u8)
    ensures
        y == luma(r, g, b),
{
    let a = round53_exec(21545220617340452u128 * (r as u128));
    let c = round53_exec(42297807700263696u128 * (g as u128));
    let s1 = round53_exec(a + c);
    let d = round53_exec(8214565720323785u128 * (b as u128));
    let t = round53_exec(s1 + d);
    let y = (t + 0x80_0000_0000_0000) / 0x100_0000_0000_0000;
    if y > 255 { 255 } else { y as u8 }
}

/// The least `k` from `k0` on (below 200) with `p * 2^k >= 2^52 * q`:
/// where `p / q` scaled by `2^k` has 53 significant bits.
pub open spec fn div_shift(p: nat, q: nat, k: nat) -> nat
    decreases 200 - k,
{
    if k >= 200 || p * pow2(k) >= pow2(52) * q { k } else { div_shift(p, q, k + 1) }
}

/// The double nearest `p / q` (ties to even), as `(m, k)` with value
/// `m / 2^k`.
pub open spec fn fl_div(p: nat, q: nat) -> (nat, nat) {
    let k = div_shift(p, q, 0);
    let num = p * pow2(k);
    let m = num / q;
    let rem = num % q;
    (if 2 * rem > q || (2 * rem == q && m % 2 == 1) { m + 1 } else { m }, k)
}

/// [`fl_div`] for `0 < p, q < 2^64`; `2^k` comes with it.
pub(crate) fn fl_div_exec(p: u128, q: u128) -> (r: (u128, u128, u32))
    requires
        0 < p < 0x1_0000_0000_0000_0000,
        0 < q < 0x1_0000_0000_0000_0000,
    ensures
        r.0 == fl_div(p as nat, q as nat).0,
        r.2 == fl_div(p as nat, q as nat).1,
        r.1 == pow2(r.2 as nat),
        r.2 <= 116,
        1 <= r.1 <= 0x20_0000_0000_0000_0000_0000_0000_0000,
        p * r.1 >= pow2(52) * q,
        p < pow2(52) * q ==> p * r.1 < pow2(53) * q,
        p < pow2(52) * q ==> r.0 <= pow2(53),
        r.0 <= 0x1_0000_0000_0000_0000,
{
    let big: u128 = 0x10_0000_0000_0000 * q;
    let mut num: u128 = p;
    let mut pw: u128 = 1;
    let mut k: u32 = 0;
    proof {
        vstd::arithmetic::power2::lemma2_to64();
        vstd::arithmetic::power2::lemma2_to64_rest();
        assert(pow2(52) == 0x10_0000_0000_0000);
        assert(big < 0x10_0000_0000_0000 * 0x1_0000_0000_0000_0000);
    }
    while num < big
        invariant
            0 < p < 0x1_0000_0000_0000_0000,
            0 < q < 0x1_0000_0000_0000_0000,
            big == pow2(52) * q,
            pw == pow2(k as nat),
            num == p * pw,
            k <= 116,
            k > 0 ==> num < 2 * big,
            div_shift(p as nat, q as nat, k as nat) == div_shift(p as nat, q as nat, 0),
            pw <= 0x20_0000_0000_0000_0000_0000_0000_0000,
            big < 0x10_0000_0000_0000 * 0x1_0000_0000_0000_0000,
            num >= 1,
            pw >= 1,
        decreases 200 - k,
    {
        proof {
            vstd::arithmetic::power2::lemma_pow2_unfold((k + 1) as nat);
            assert(pw < 0x10_0000_0000_0000_0000_0000_0000_0000) by (nonlinear_arith)
                requires
                    p * pw < big,
                    big < 0x10_0000_0000_0000 * 0x1_0000_0000_0000_0000,
                    p >= 1,
            ;
            assert(k < 116) by {
                vstd::arithmetic::power2::lemma2_to64_rest();
                vstd::arithmetic::power2::lemma_pow2_adds(64, 52);
                if k >= 116 {
                    if k > 116 {
                        vstd::arithmetic::power2::lemma_pow2_strictly_increases(116, k as nat);
                    }
                }
            }
            assert(p * (pw * 2) == num * 2) by (nonlinear_arith)
                requires
                    num == p * pw,
            ;
        }
        num = num * 2;
        pw = pw * 2;
        k = k + 1;
    }
    proof {
        assert(div_shift(p as nat, q as nat, k as nat) == k);
    }
    let m = num / q;
    let rem = num % q;
    proof {
        vstd::arithmetic::power2::lemma2_to64();
        vstd::arithmetic::power2::lemma_pow2_unfold(53);
        if p < big {
            assert(k > 0);
            assert(m <= pow2(53)) by (nonlinear_arith)
                requires
                    m == num / q,
                    num < 2 * big,
                    big == pow2(52) * q,
                    pow2(53) == 2 * pow2(52),
                    q > 0,
            ;
        }
    }
    proof {
        if !(p < big) {
            assert(k == 0);
            assert(m <= num) by (nonlinear_arith)
                requires
                    m == num / q,
                    q >= 1,
                    num >= 0,
            ;
        }
    }
    let m2 = if 2 * rem > q || (2 * rem == q && m % 2 == 1) { m + 1 } else { m };
    proof {
        if p < big {
            assert(m2 <= pow2(53)) by (nonlinear_arith)
                requires
                    m == num / q,
                    rem == num % q,
                    num < 2 * big,
                    big == pow2(52) * q,
                    pow2(53) == 2 * pow2(52),
                    q > 0,
                    m2 <= m + 1,
                    m2 == m || 2 * rem >= q,
            ;
        }
    }
    (m2, pw, k)
}

/// `a - b`, floored at 0.
pub open spec fn sat_sub(a: u8, b: u8) -> u8 {
    if a >= b { (a - b) as u8 } else { 0 }
}

/// `v` rounded into the byte range.
pub open spec fn clamp_byte(v: int) -> u8 {
    if v < 0 { 0 } else if v > 255 { 255 } else { v as u8 }
}

/// Per-channel saturating difference `a - b` of two same-size buffers.
pub open spec fn sub_image(a: Seq<u8>, b: Seq<u8>) -> Seq<u8> {
    Seq::new(a.len(), |i: int| sat_sub(a[i], b[i]))
}

/// The source index nearest-neighbour resampling picks for destination
/// index `n` when `src` samples are stretched over `dst`: the source pixel
/// whose centre is closest to the destination centre,
/// `round((n + 0.5) * src / dst - 0.5)` = `floor((2n + 1) * src / (2 * dst))`.
pub open spec fn nearest_src(n: int, src: int, dst: int) -> int {
    let (m, k) = fl_div(src as nat, dst as nat);
    let t = round53(((2 * n + 1) * m) as nat);
    let half = pow2(k);
    if t <= half {
        0
    } else {
        let v = (round53((t - half) as nat) + half) / pow2(k + 1);
        if v > src - 1 { src - 1 } else { v as int }
    }
}

/// One min (erosion) or max (dilation) step.
pub open spec fn morph_op(a: u8, b: u8, dilate: bool) -> u8 {
    if dilate { if a >= b { a } else { b } } else { if a <= b { a } else { b } }
}

/// Folds the first `k` pixels of the window row `sy` (columns
/// `x - r ..`, clamped to the image) into `acc`.
pub open spec fn row_fold(acc: u8, p: Seq<u8>, w: int, x: int, sy: int, c: int, r: int, k: nat, dilate: bool) -> u8
    decreases k,
{
    if k == 0 {
        acc
    } else {
        morph_op(row_fold(acc, p, w, x, sy, c, r, (k - 1) as nat, dilate), at(p, w, clamp_index(x + (k - 1) - r, w), sy, c), dilate)
    }
}

/// Folds the first `k` rows (`y - r ..`, clamped) of the square window of
/// radius `r` around `(x, y)`.
pub open spec fn win_fold(p: Seq<u8>, w: int, h: int, x: int, y: int, c: int, r: int, k: nat, dilate: bool) -> u8
    decreases k,
{
    if k == 0 {
        if dilate { 0 } else { 255 }
    } else {
        row_fold(win_fold(p, w, h, x, y, c, r, (k - 1) as nat, dilate), p, w, x, clamp_index(y + (k - 1) - r, h), c, r, (2 * r + 1) as nat, dilate)
    }
}

/// Grayscale erosion (minimum) or dilation (maximum) of channel `c` over
/// the `(2r+1) x (2r+1)` window around `(x, y)`, edges replicated.
pub open spec fn morph_at(p: Seq<u8>, w: int, h: int, x: int, y: int, c: int, r: int, dilate: bool) -> u8 {
    win_fold(p, w, h, x, y, c, r, (2 * r + 1) as nat, dilate)
}

/// The erosion (or dilation) of a whole `w x h` image.
pub open spec fn morph_image(p: Seq<u8>, w: int, h: int, r: int, dilate: bool) -> Seq<u8> {
    image_of(w, h, |x: int, y: int, c: int| morph_at(p, w, h, x, y, c, r, dilate))
}

/// Channel `c` of the source pixel `(x + dx, y + dy)`, edges replicated.
pub open spec fn tap(p: Seq<u8>, w: int, h: int, x: int, y: int, dx: int, dy: int, c: int) -> int {
    at(p, w, clamp_index(x + dx, w), clamp_index(y + dy, h), c) as int
}

/// The 3x3 box blur of channel `c` at `(x, y)`: the window mean, rounded.
pub open spec fn blur_at(p: Seq<u8>, w: int, h: int, x: int, y: int, c: int) -> u8 {
    let s = tap(p, w, h, x, y, -1, -1, c) + tap(p, w, h, x, y, 0, -1, c) + tap(p, w, h, x, y, 1, -1, c)
        + tap(p, w, h, x, y, -1, 0, c) + tap(p, w, h, x, y, 0, 0, c) + tap(p, w, h, x, y, 1, 0, c)
        + tap(p, w, h, x, y, -1, 1, c) + tap(p, w, h, x, y, 0, 1, c) + tap(p, w, h, x, y, 1, 1, c);
    ((2 * s + 9) / 18) as u8
}

/// The 3x3 cross kernel `centre * k - up - down - left - right`, clamped:
/// `k = 5` sharpens, `k = 4` is the discrete Laplacian.
pub open spec fn cross_at(p: Seq<u8>, w: int, h: int, x: int, y: int, c: int, k: int) -> u8 {
    clamp_byte(k * tap(p, w, h, x, y, 0, 0, c) - tap(p, w, h, x, y, 0, -1, c) - tap(p, w, h, x, y, -1, 0, c)
        - tap(p, w, h, x, y, 1, 0, c) - tap(p, w, h, x, y, 0, 1, c))
}

/// Builds the `w x h` image whose pixel `(x, y)` is `pixel(x, y)`, in
/// raster order.
#[verifier::loop_isolation(false)]
pub(crate) fn build_image<F: Fn(usize, usize) -> (u8, u8, u8)>(
    w: usize,
    h: usize,
    pixel: F,
    Ghost(f): Ghost<spec_fn(int, int, int) -> u8>,
) -> (out: Vec<u8>)
    requires
        w * h * 3 <= usize::MAX,
        forall|x: usize, y: usize| x < w && y < h ==> #[trigger] pixel.requires((x, y)),
        forall|x: usize, y: usize, v: (u8, u8, u8)| x < w && y < h && #[trigger] pixel.ensures((x, y), v)
            ==> v.0 == f(x as int, y as int, 0) && v.1 == f(x as int, y as int, 1) && v.2 == f(x as int, y as int, 2),
    ensures
        out@ == image_of(w as int, h as int, f),
{
    let mut out: Vec<u8> = Vec::new();
    let mut y: usize = 0;
    proof {
        lemma_raster_start(w as int, f);
    }
    while y < h
        invariant
            y <= h,
            raster_done(out@, w as int, 0, y as int, f),
        decreases h - y,
    {
        let mut x: usize = 0;
        while x < w
            invariant
                x <= w,
                y < h,
                raster_done(out@, w as int, x as int, y as int, f),
            decreases w - x,
        {
            let v = pixel(x, y);
            proof {
                lemma_index_in_bounds(w as int, h as int, x as int, y as int);
                lemma_raster_push(out@, w as int, x as int, y as int, f, v.0, v.1, v.2);
            }
            out.push(v.0);
            out.push(v.1);
            out.push(v.2);
            x = x + 1;
        }
        proof {
            lemma_raster_next_row(out@, w as int, y as int, f);
        }
        y = y + 1;
    }
    proof {
        lemma_raster_finish(out@, w as int, h as int, f);
        lemma_image_is_unique(out@, w as int, h as int, f);
    }
    out
}

proof fn lemma_row_fold_le_acc(acc: u8, p: Seq<u8>, w: int, x: int, sy: int, c: int, r: int, k: nat)
    ensures
        row_fold(acc, p, w, x, sy, c, r, k, false) <= acc,
    decreases k,
{
    if k > 0 {
        lemma_row_fold_le_acc(acc, p, w, x, sy, c, r, (k - 1) as nat);
    }
}

proof fn lemma_row_fold_ge_acc(acc: u8, p: Seq<u8>, w: int, x: int, sy: int, c: int, r: int, k: nat)
    ensures
        row_fold(acc, p, w, x, sy, c, r, k, true) >= acc,
    decreases k,
{
    if k > 0 {
        lemma_row_fold_ge_acc(acc, p, w, x, sy, c, r, (k - 1) as nat);
    }
}

/// A minimum over a window row is at most each of its elements; a maximum
/// at least each.
proof fn lemma_row_fold_vs_element(acc: u8, p: Seq<u8>, w: int, x: int, sy: int, c: int, r: int, k: nat, j: int)
    requires
        0 <= j < k,
    ensures
        row_fold(acc, p, w, x, sy, c, r, k, false) <= at(p, w, clamp_index(x + j - r, w), sy, c),
        row_fold(acc, p, w, x, sy, c, r, k, true) >= at(p, w, clamp_index(x + j - r, w), sy, c),
    decreases k,
{
    if j < k - 1 {
        lemma_row_fold_vs_element(acc, p, w, x, sy, c, r, (k - 1) as nat, j);
    }
}

proof fn lemma_win_fold_vs_element(p: Seq<u8>, w: int, h: int, x: int, y: int, c: int, r: int, k: nat, i: int, j: int)
    requires
        r >= 0,
        0 <= i < k,
        0 <= j < 2 * r + 1,
    ensures
        win_fold(p, w, h, x, y, c, r, k, false) <= at(p, w, clamp_index(x + j - r, w), clamp_index(y + i - r, h), c),
        win_fold(p, w, h, x, y, c, r, k, true) >= at(p, w, clamp_index(x + j - r, w), clamp_index(y + i - r, h), c),
    decreases k,
{
    let k1 = (k - 1) as nat;
    let sy = clamp_index(y + k1 - r, h);
    if i == k1 {
        lemma_row_fold_vs_element(win_fold(p, w, h, x, y, c, r, k1, false), p, w, x, sy, c, r, (2 * r + 1) as nat, j);
        lemma_row_fold_vs_element(win_fold(p, w, h, x, y, c, r, k1, true), p, w, x, sy, c, r, (2 * r + 1) as nat, j);
    } else {
        lemma_win_fold_vs_element(p, w, h, x, y, c, r, k1, i, j);
        lemma_row_fold_le_acc(win_fold(p, w, h, x, y, c, r, k1, false), p, w, x, sy, c, r, (2 * r + 1) as nat);
        lemma_row_fold_ge_acc(win_fold(p, w, h, x, y, c, r, k1, true), p, w, x, sy, c, r, (2 * r + 1) as nat);
    }
}

/// A window maximum is at most any common bound of the window's elements;
/// a window minimum at least any common lower bound.
proof fn lemma_row_fold_bounded(acc: u8, p: Seq<u8>, w: int, x: int, sy: int, c: int, r: int, k: nat, lo: u8, hi: u8)
    requires
        forall|j: int| 0 <= j < k ==> lo <= #[trigger] at(p, w, clamp_index(x + j - r, w), sy, c) <= hi,
    ensures
        acc <= hi ==> row_fold(acc, p, w, x, sy, c, r, k, true) <= hi,
        acc >= lo ==> row_fold(acc, p, w, x, sy, c, r, k, false) >= lo,
    decreases k,
{
    if k > 0 {
        lemma_row_fold_bounded(acc, p, w, x, sy, c, r, (k - 1) as nat, lo, hi);
        assert(lo <= at(p, w, clamp_index(x + (k - 1) - r, w), sy, c) <= hi);
    }
}

proof fn lemma_win_fold_bounded(p: Seq<u8>, w: int, h: int, x: int, y: int, c: int, r: int, k: nat, lo: u8, hi: u8)
    requires
        r >= 0,
        forall|i: int, j: int| 0 <= i < k && 0 <= j < 2 * r + 1
            ==> lo <= #[trigger] at(p, w, clamp_index(x + j - r, w), clamp_index(y + i - r, h), c) <= hi,
    ensures
        win_fold(p, w, h, x, y, c, r, k, true) <= hi,
        win_fold(p, w, h, x, y, c, r, k, false) >= lo,
    decreases k,
{
    if k > 0 {
        let k1 = (k - 1) as nat;
        lemma_win_fold_bounded(p, w, h, x, y, c, r, k1, lo, hi);
        let sy = clamp_index(y + k1 - r, h);
        assert forall|j: int| 0 <= j < 2 * r + 1 implies lo <= #[trigger] at(p, w, clamp_index(x + j - r, w), sy, c) <= hi by {
            assert(lo <= at(p, w, clamp_index(x + j - r, w), clamp_index(y + k1 - r, h), c) <= hi);
        }
        lemma_row_fold_bounded(win_fold(p, w, h, x, y, c, r, k1, true), p, w, x, sy, c, r, (2 * r + 1) as nat, lo, hi);
        lemma_row_fold_bounded(win_fold(p, w, h, x, y, c, r, k1, false), p, w, x, sy, c, r, (2 * r + 1) as nat, lo, hi);
    }
}

/// Every pixel of the window around `(x, y)` has `(x, y)` in its own window.
proof fn lemma_window_symmetric(n: int, v: int, r: int, j: int)
    requires
        0 <= v < n,
        r >= 0,
        0 <= j < 2 * r + 1,
    ensures
        ({
            let s = clamp_index(v + j - r, n);
            &&& 0 <= s < n
            &&& 0 <= v - s + r < 2 * r + 1
            &&& clamp_index(s + (v - s + r) - r, n) == v
        }),
{
}

/// Opening never brightens a pixel: every channel of the opening of an
/// image is at most that channel of the image itself (so top-hat is the
/// plain difference, never a saturated one).
pub proof fn lemma_opening_never_brightens(p: Seq<u8>, w: int, h: int, r: int, x: int, y: int, c: int)
    requires
        p.len() == w * h * 3,
        r >= 0,
        0 <= x < w,
        0 <= y < h,
        0 <= c < 3,
    ensures
        at(morph_image(morph_image(p, w, h, r, false), w, h, r, true), w, x, y, c) <= at(p, w, x, y, c),
{
    let e = morph_image(p, w, h, r, false);
    let fe = |xx: int, yy: int, cc: int| morph_at(p, w, h, xx, yy, cc, r, false);
    let fo = |xx: int, yy: int, cc: int| morph_at(e, w, h, xx, yy, cc, r, true);
    lemma_image_of_at(w, h, fo, x, y, c);
    let bound = at(p, w, x, y, c);
    assert forall|i: int, j: int| 0 <= i < 2 * r + 1 && 0 <= j < 2 * r + 1
        implies 0 <= #[trigger] at(e, w, clamp_index(x + j - r, w), clamp_index(y + i - r, h), c) <= bound by {
        let sx = clamp_index(x + j - r, w);
        let sy = clamp_index(y + i - r, h);
        lemma_window_symmetric(w, x, r, j);
        lemma_window_symmetric(h, y, r, i);
        lemma_image_of_at(w, h, fe, sx, sy, c);
        lemma_win_fold_vs_element(p, w, h, sx, sy, c, r, (2 * r + 1) as nat, y - sy + r, x - sx + r);
    }
    lemma_win_fold_bounded(e, w, h, x, y, c, r, (2 * r + 1) as nat, 0, bound);
}

/// Closing never darkens a pixel: every channel of the closing of an image
/// is at least that channel of the image itself (so bottom-hat is the
/// plain difference, never a saturated one).
pub proof fn lemma_closing_never_darkens(p: Seq<u8>, w: int, h: int, r: int, x: int, y: int, c: int)
    requires
        p.len() == w * h * 3,
        r >= 0,
        0 <= x < w,
        0 <= y < h,
        0 <= c < 3,
    ensures
        at(morph_image(morph_image(p, w, h, r, true), w, h, r, false), w, x, y, c) >= at(p, w, x, y, c),
{
    let d = morph_image(p, w, h, r, true);
    let fd = |xx: int, yy: int, cc: int| morph_at(p, w, h, xx, yy, cc, r, true);
    let fc = |xx: int, yy: int, cc: int| morph_at(d, w, h, xx, yy, cc, r, false);
    lemma_image_of_at(w, h, fc, x, y, c);
    let bound = at(p, w, x, y, c);
    assert forall|i: int, j: int| 0 <= i < 2 * r + 1 && 0 <= j < 2 * r + 1
        implies bound <= #[trigger] at(d, w, clamp_index(x + j - r, w), clamp_index(y + i - r, h), c) <= 255 by {
        let sx = clamp_index(x + j - r, w);
        let sy = clamp_index(y + i - r, h);
        lemma_window_symmetric(w, x, r, j);
        lemma_window_symmetric(h, y, r, i);
        lemma_image_of_at(w, h, fd, sx, sy, c);
        lemma_win_fold_vs_element(p, w, h, sx, sy, c, r, (2 * r + 1) as nat, y - sy + r, x - sx + r);
    }
    lemma_win_fold_bounded(d, w, h, x, y, c, r, (2 * r + 1) as nat, bound, 255);
}

/// Channel `c` of the colour `rgb`.
pub open spec fn channel(rgb: (u8, u8, u8), c: int) -> u8 {
    if c == 0 { rgb.0 } else if c == 1 { rgb.1 } else { rgb.2 }
}

/// The `w x h` image of one colour.
pub open spec fn flat_image(w: int, h: int, rgb: (u8, u8, u8)) -> Seq<u8> {
    image_of(w, h, |x: int, y: int, c: int| channel(rgb, c))
}

proof fn lemma_flat_taps(w: int, h: int, rgb: (u8, u8, u8), x: int, y: int, c: int, dx: int, dy: int)
    requires
        w >= 1,
        h >= 1,
        0 <= c < 3,
    ensures
        tap(flat_image(w, h, rgb), w, h, x, y, dx, dy, c) == channel(rgb, c),
{
    let sx = clamp_index(x + dx, w);
    let sy = clamp_index(y + dy, h);
    lemma_image_of_at(w, h, |x: int, y: int, c: int| channel(rgb, c), sx, sy, c);
}

/// A one-colour image is its own sharpening: the kernel
/// `[0 -1 0; -1 5 -1; 0 -1 0]` sums to one, and the borders repeat.
pub proof fn lemma_flat_sharpen(w: int, h: int, rgb: (u8, u8, u8))
    requires
        w >= 1,
        h >= 1,
    ensures
        image_of(w, h, |x: int, y: int, c: int| cross_at(flat_image(w, h, rgb), w, h, x, y, c, 5)) == flat_image(w, h, rgb),
{
    let p = flat_image(w, h, rgb);
    assert forall|x: int, y: int, c: int| 0 <= x < w && 0 <= y < h && 0 <= c < 3
        implies #[trigger] cross_at(p, w, h, x, y, c, 5) == channel(rgb, c) by {
        lemma_flat_taps(w, h, rgb, x, y, c, 0, 0);
        lemma_flat_taps(w, h, rgb, x, y, c, 0, -1);
        lemma_flat_taps(w, h, rgb, x, y, c, -1, 0);
        lemma_flat_taps(w, h, rgb, x, y, c, 1, 0);
        lemma_flat_taps(w, h, rgb, x, y, c, 0, 1);
    }
    lemma_image_of_ext(w, h, |x: int, y: int, c: int| cross_at(p, w, h, x, y, c, 5), |x: int, y: int, c: int| channel(rgb, c));
}

/// A one-colour image has no edges: the Laplacian
/// `[0 -1 0; -1 4 -1; 0 -1 0]` sums to zero, borders included, so edge
/// detection gives black.
pub proof fn lemma_flat_edges(w: int, h: int, rgb: (u8, u8, u8))
    requires
        w >= 1,
        h >= 1,
    ensures
        image_of(w, h, |x: int, y: int, c: int| cross_at(flat_image(w, h, rgb), w, h, x, y, c, 4))
            == flat_image(w, h, (0u8, 0u8, 0u8)),
{
    let p = flat_image(w, h, rgb);
    assert forall|x: int, y: int, c: int| 0 <= x < w && 0 <= y < h && 0 <= c < 3
        implies #[trigger] cross_at(p, w, h, x, y, c, 4) == channel((0u8, 0u8, 0u8), c) by {
        lemma_flat_taps(w, h, rgb, x, y, c, 0, 0);
        lemma_flat_taps(w, h, rgb, x, y, c, 0, -1);
        lemma_flat_taps(w, h, rgb, x, y, c, -1, 0);
        lemma_flat_taps(w, h, rgb, x, y, c, 1, 0);
        lemma_flat_taps(w, h, rgb, x, y, c, 0, 1);
    }
    lemma_image_of_ext(w, h, |x: int, y: int, c: int| cross_at(p, w, h, x, y, c, 4),
        |x: int, y: int, c: int| channel((0u8, 0u8, 0u8), c));
}

/// Flipping left to right twice gives the image back.
pub proof fn lemma_flip_horizontal_twice(p: Seq<u8>, w: int, h: int)
    requires
        w >= 0,
        h >= 0,
        p.len() == w * h * 3,
    ensures
        ({
            let f = image_of(w, h, |x: int, y: int, c: int| at(p, w, w - 1 - x, y, c));
            image_of(w, h, |x: int, y: int, c: int| at(f, w, w - 1 - x, y, c)) == p
        }),
{
    let g = |x: int, y: int, c: int| at(p, w, w - 1 - x, y, c);
    let f = image_of(w, h, g);
    assert forall|x: int, y: int, c: int| 0 <= x < w && 0 <= y < h && 0 <= c < 3
        implies #[trigger] at(f, w, w - 1 - x, y, c) == at(p, w, x, y, c) by {
        lemma_image_of_at(w, h, g, w - 1 - x, y, c);
    }
    lemma_image_of_ext(w, h, |x: int, y: int, c: int| at(f, w, w - 1 - x, y, c), |x: int, y: int, c: int| at(p, w, x, y, c));
    lemma_image_of_self(p, w, h);
}

/// Flipping top to bottom twice gives the image back.
pub proof fn lemma_flip_vertical_twice(p: Seq<u8>, w: int, h: int)
    requires
        w >= 0,
        h >= 0,
        p.len() == w * h * 3,
    ensures
        ({
            let f = image_of(w, h, |x: int, y: int, c: int| at(p, w, x, h - 1 - y, c));
            image_of(w, h, |x: int, y: int, c: int| at(f, w, x, h - 1 - y, c)) == p
        }),
{
    let g = |x: int, y: int, c: int| at(p, w, x, h - 1 - y, c);
    let f = image_of(w, h, g);
    assert forall|x: int, y: int, c: int| 0 <= x < w && 0 <= y < h && 0 <= c < 3
        implies #[trigger] at(f, w, x, h - 1 - y, c) == at(p, w, x, y, c) by {
        lemma_image_of_at(w, h, g, x, h - 1 - y, c);
    }
    lemma_image_of_ext(w, h, |x: int, y: int, c: int| at(f, w, x, h - 1 - y, c), |x: int, y: int, c: int| at(p, w, x, y, c));
    lemma_image_of_self(p, w, h);
}

/// The 3x3 box blur of a whole `w x h` image.
pub open spec fn blur_image(p: Seq<u8>, w: int, h: int) -> Seq<u8> {
    image_of(w, h, |x: int, y: int, c: int| blur_at(p, w, h, x, y, c))
}

/// The image mirrored left to right.
pub open spec fn mirror_image(p: Seq<u8>, w: int, h: int) -> Seq<u8> {
    image_of(w, h, |x: int, y: int, c: int| at(p, w, w - 1 - x, y, c))
}

/// The image turned upside down.
pub open spec fn upside_down_image(p: Seq<u8>, w: int, h: int) -> Seq<u8> {
    image_of(w, h, |x: int, y: int, c: int| at(p, w, x, h - 1 - y, c))
}

/// A tap of the mirrored image is the mirrored tap of the image.
proof fn lemma_mirror_tap(p: Seq<u8>, w: int, h: int, x: int, y: int, dx: int, dy: int, c: int)
    requires
        w >= 1,
        h >= 1,
        0 <= x < w,
        0 <= c < 3,
    ensures
        tap(mirror_image(p, w, h), w, h, x, y, dx, dy, c) == tap(p, w, h, w - 1 - x, y, -dx, dy, c),
{
    let sx = clamp_index(x + dx, w);
    let sy = clamp_index(y + dy, h);
    lemma_image_of_at(w, h, |x: int, y: int, c: int| at(p, w, w - 1 - x, y, c), sx, sy, c);
    assert(w - 1 - sx == clamp_index(w - 1 - x - dx, w));
}

/// A tap of the upside-down image is the upside-down tap of the image.
proof fn lemma_upside_down_tap(p: Seq<u8>, w: int, h: int, x: int, y: int, dx: int, dy: int, c: int)
    requires
        w >= 1,
        h >= 1,
        0 <= y < h,
        0 <= c < 3,
    ensures
        tap(upside_down_image(p, w, h), w, h, x, y, dx, dy, c) == tap(p, w, h, x, h - 1 - y, dx, -dy, c),
{
    let sx = clamp_index(x + dx, w);
    let sy = clamp_index(y + dy, h);
    lemma_image_of_at(w, h, |x: int, y: int, c: int| at(p, w, x, h - 1 - y, c), sx, sy, c);
    assert(h - 1 - sy == clamp_index(h - 1 - y - dy, h));
}

/// Blurring commutes with mirroring left to right: the box blur weighs
/// each of the nine window pixels alike, so it has no left or right.
pub proof fn lemma_blur_commutes_with_mirror(p: Seq<u8>, w: int, h: int)
    requires
        w >= 1,
        h >= 1,
        p.len() == w * h * 3,
    ensures
        blur_image(mirror_image(p, w, h), w, h) == mirror_image(blur_image(p, w, h), w, h),
{
    let m = mirror_image(p, w, h);
    let b = blur_image(p, w, h);
    assert forall|x: int, y: int, c: int| 0 <= x < w && 0 <= y < h && 0 <= c < 3
        implies #[trigger] blur_at(m, w, h, x, y, c) == at(b, w, w - 1 - x, y, c) by {
        lemma_image_of_at(w, h, |x: int, y: int, c: int| blur_at(p, w, h, x, y, c), w - 1 - x, y, c);
        lemma_mirror_tap(p, w, h, x, y, -1, -1, c);
        lemma_mirror_tap(p, w, h, x, y, 0, -1, c);
        lemma_mirror_tap(p, w, h, x, y, 1, -1, c);
        lemma_mirror_tap(p, w, h, x, y, -1, 0, c);
        lemma_mirror_tap(p, w, h, x, y, 0, 0, c);
        lemma_mirror_tap(p, w, h, x, y, 1, 0, c);
        lemma_mirror_tap(p, w, h, x, y, -1, 1, c);
        lemma_mirror_tap(p, w, h, x, y, 0, 1, c);
        lemma_mirror_tap(p, w, h, x, y, 1, 1, c);
    }
    lemma_image_of_ext(w, h, |x: int, y: int, c: int| blur_at(m, w, h, x, y, c), |x: int, y: int, c: int| at(b, w, w - 1 - x, y, c));
}

/// Blurring commutes with turning the image upside down.
pub proof fn lemma_blur_commutes_with_upside_down(p: Seq<u8>, w: int, h: int)
    requires
        w >= 1,
        h >= 1,
        p.len() == w * h * 3,
    ensures
        blur_image(upside_down_image(p, w, h), w, h) == upside_down_image(blur_image(p, w, h), w, h),
{
    let m = upside_down_image(p, w, h);
    let b = blur_image(p, w, h);
    assert forall|x: int, y: int, c: int| 0 <= x < w && 0 <= y < h && 0 <= c < 3
        implies #[trigger] blur_at(m, w, h, x, y, c) == at(b, w, x, h - 1 - y, c) by {
        lemma_image_of_at(w, h, |x: int, y: int, c: int| blur_at(p, w, h, x, y, c), x, h - 1 - y, c);
        lemma_upside_down_tap(p, w, h, x, y, -1, -1, c);
        lemma_upside_down_tap(p, w, h, x, y, 0, -1, c);
        lemma_upside_down_tap(p, w, h, x, y, 1, -1, c);
        lemma_upside_down_tap(p, w, h, x, y, -1, 0, c);
        lemma_upside_down_tap(p, w, h, x, y, 0, 0, c);
        lemma_upside_down_tap(p, w, h, x, y, 1, 0, c);
        lemma_upside_down_tap(p, w, h, x, y, -1, 1, c);
        lemma_upside_down_tap(p, w, h, x, y, 0, 1, c);
        lemma_upside_down_tap(p, w, h, x, y, 1, 1, c);
    }
    lemma_image_of_ext(w, h, |x: int, y: int, c: int| blur_at(m, w, h, x, y, c), |x: int, y: int, c: int| at(b, w, x, h - 1 - y, c));
}

/// A one-colour image blurs to itself: the nine weights sum to one.
pub proof fn lemma_flat_blur(w: int, h: int, rgb: (u8, u8, u8))
    requires
        w >= 1,
        h >= 1,
    ensures
        blur_image(flat_image(w, h, rgb), w, h) == flat_image(w, h, rgb),
{
    let p = flat_image(w, h, rgb);
    assert forall|x: int, y: int, c: int| 0 <= x < w && 0 <= y < h && 0 <= c < 3
        implies #[trigger] blur_at(p, w, h, x, y, c) == channel(rgb, c) by {
        lemma_flat_taps(w, h, rgb, x, y, c, -1, -1);
        lemma_flat_taps(w, h, rgb, x, y, c, 0, -1);
        lemma_flat_taps(w, h, rgb, x, y, c, 1, -1);
        lemma_flat_taps(w, h, rgb, x, y, c, -1, 0);
        lemma_flat_taps(w, h, rgb, x, y, c, 0, 0);
        lemma_flat_taps(w, h, rgb, x, y, c, 1, 0);
        lemma_flat_taps(w, h, rgb, x, y, c, -1, 1);
        lemma_flat_taps(w, h, rgb, x, y, c, 0, 1);
        lemma_flat_taps(w, h, rgb, x, y, c, 1, 1);
    }
    lemma_image_of_ext(w, h, |x: int, y: int, c: int| blur_at(p, w, h, x, y, c), |x: int, y: int, c: int| channel(rgb, c));
}

/// The cross-kernel filter (sharpen for `k = 5`, edges for `k = 4`) of a
/// whole `w x h` image.
pub open spec fn cross_image(p: Seq<u8>, w: int, h: int, k: int) -> Seq<u8> {
    image_of(w, h, |x: int, y: int, c: int| cross_at(p, w, h, x, y, c, k))
}

/// Sharpening and edge detection commute with mirroring left to right:
/// the cross kernel weighs left and right alike.
pub proof fn lemma_cross_commutes_with_mirror(p: Seq<u8>, w: int, h: int, k: int)
    requires
        w >= 1,
        h >= 1,
        p.len() == w * h * 3,
    ensures
        cross_image(mirror_image(p, w, h), w, h, k) == mirror_image(cross_image(p, w, h, k), w, h),
{
    let m = mirror_image(p, w, h);
    let b = cross_image(p, w, h, k);
    assert forall|x: int, y: int, c: int| 0 <= x < w && 0 <= y < h && 0 <= c < 3
        implies #[trigger] cross_at(m, w, h, x, y, c, k) == at(b, w, w - 1 - x, y, c) by {
        lemma_image_of_at(w, h, |x: int, y: int, c: int| cross_at(p, w, h, x, y, c, k), w - 1 - x, y, c);
        lemma_mirror_tap(p, w, h, x, y, 0, 0, c);
        lemma_mirror_tap(p, w, h, x, y, 0, -1, c);
        lemma_mirror_tap(p, w, h, x, y, -1, 0, c);
        lemma_mirror_tap(p, w, h, x, y, 1, 0, c);
        lemma_mirror_tap(p, w, h, x, y, 0, 1, c);
    }
    lemma_image_of_ext(w, h, |x: int, y: int, c: int| cross_at(m, w, h, x, y, c, k), |x: int, y: int, c: int| at(b, w, w - 1 - x, y, c));
}

/// Sharpening and edge detection commute with turning the image upside
/// down: the cross kernel weighs up and down alike.
pub proof fn lemma_cross_commutes_with_upside_down(p: Seq<u8>, w: int, h: int, k: int)
    requires
        w >= 1,
        h >= 1,
        p.len() == w * h * 3,
    ensures
        cross_image(upside_down_image(p, w, h), w, h, k) == upside_down_image(cross_image(p, w, h, k), w, h),
{
    let m = upside_down_image(p, w, h);
    let b = cross_image(p, w, h, k);
    assert forall|x: int, y: int, c: int| 0 <= x < w && 0 <= y < h && 0 <= c < 3
        implies #[trigger] cross_at(m, w, h, x, y, c, k) == at(b, w, x, h - 1 - y, c) by {
        lemma_image_of_at(w, h, |x: int, y: int, c: int| cross_at(p, w, h, x, y, c, k), x, h - 1 - y, c);
        lemma_upside_down_tap(p, w, h, x, y, 0, 0, c);
        lemma_upside_down_tap(p, w, h, x, y, 0, -1, c);
        lemma_upside_down_tap(p, w, h, x, y, -1, 0, c);
        lemma_upside_down_tap(p, w, h, x, y, 1, 0, c);
        lemma_upside_down_tap(p, w, h, x, y, 0, 1, c);
    }
    lemma_image_of_ext(w, h, |x: int, y: int, c: int| cross_at(m, w, h, x, y, c, k), |x: int, y: int, c: int| at(b, w, x, h - 1 - y, c));
}

/// Whether `a` is at least as extreme as `b`: no larger for erosion, no
/// smaller for dilation.
pub open spec fn at_least_as_extreme(a: int, b: int, dilate: bool) -> bool {
    if dilate { a >= b } else { a <= b }
}

proof fn lemma_row_fold_extreme(acc: u8, p: Seq<u8>, w: int, x: int, sy: int, c: int, r: int, k: nat, dilate: bool)
    ensures
        at_least_as_extreme(row_fold(acc, p, w, x, sy, c, r, k, dilate) as int, acc as int, dilate),
        forall|j: int| 0 <= j < k ==> at_least_as_extreme(row_fold(acc, p, w, x, sy, c, r, k, dilate) as int,
            #[trigger] at(p, w, clamp_index(x + j - r, w), sy, c) as int, dilate),
        row_fold(acc, p, w, x, sy, c, r, k, dilate) == acc || exists|j: int| 0 <= j < k
            && row_fold(acc, p, w, x, sy, c, r, k, dilate) == #[trigger] at(p, w, clamp_index(x + j - r, w), sy, c),
    decreases k,
{
    if k > 0 {
        lemma_row_fold_extreme(acc, p, w, x, sy, c, r, (k - 1) as nat, dilate);
        let prev = row_fold(acc, p, w, x, sy, c, r, (k - 1) as nat, dilate);
        let e = at(p, w, clamp_index(x + (k - 1) - r, w), sy, c);
        let res = row_fold(acc, p, w, x, sy, c, r, k, dilate);
        assert(res == morph_op(prev, e, dilate));
        if prev != acc && res == prev {
            let j = choose|j: int| 0 <= j < k - 1 && prev == #[trigger] at(p, w, clamp_index(x + j - r, w), sy, c);
            assert(0 <= j < k && res == at(p, w, clamp_index(x + j - r, w), sy, c));
        }
        if res == e {
            assert(res == at(p, w, clamp_index(x + (k - 1) - r, w), sy, c));
        }
    }
}

proof fn lemma_win_fold_extreme(p: Seq<u8>, w: int, h: int, x: int, y: int, c: int, r: int, k: nat, dilate: bool)
    requires
        r >= 0,
    ensures
        forall|i: int, j: int| 0 <= i < k && 0 <= j < 2 * r + 1 ==> at_least_as_extreme(
            win_fold(p, w, h, x, y, c, r, k, dilate) as int,
            #[trigger] at(p, w, clamp_index(x + j - r, w), clamp_index(y + i - r, h), c) as int,
            dilate,
        ),
        win_fold(p, w, h, x, y, c, r, k, dilate) == (if dilate { 0u8 } else { 255u8 }) || exists|i: int, j: int|
            0 <= i < k && 0 <= j < 2 * r + 1 && win_fold(p, w, h, x, y, c, r, k, dilate)
                == #[trigger] at(p, w, clamp_index(x + j - r, w), clamp_index(y + i - r, h), c),
    decreases k,
{
    if k > 0 {
        lemma_win_fold_extreme(p, w, h, x, y, c, r, (k - 1) as nat, dilate);
        let prev = win_fold(p, w, h, x, y, c, r, (k - 1) as nat, dilate);
        let sy = clamp_index(y + (k - 1) - r, h);
        let n = (2 * r + 1) as nat;
        lemma_row_fold_extreme(prev, p, w, x, sy, c, r, n, dilate);
        let res = win_fold(p, w, h, x, y, c, r, k, dilate);
        assert(res == row_fold(prev, p, w, x, sy, c, r, n, dilate));
        assert forall|i: int, j: int| 0 <= i < k && 0 <= j < 2 * r + 1 implies at_least_as_extreme(
            res as int, #[trigger] at(p, w, clamp_index(x + j - r, w), clamp_index(y + i - r, h), c) as int, dilate) by {
            if i < k - 1 {
                assert(at_least_as_extreme(prev as int, at(p, w, clamp_index(x + j - r, w), clamp_index(y + i - r, h), c) as int, dilate));
            } else {
                assert(at_least_as_extreme(res as int, at(p, w, clamp_index(x + j - r, w), sy, c) as int, dilate));
            }
        }
        if res != (if dilate { 0u8 } else { 255u8 }) {
            if res == prev {
                let (i, j) = choose|i: int, j: int| 0 <= i < k - 1 && 0 <= j < 2 * r + 1 && prev
                    == #[trigger] at(p, w, clamp_index(x + j - r, w), clamp_index(y + i - r, h), c);
                assert(0 <= i < k && res == at(p, w, clamp_index(x + j - r, w), clamp_index(y + i - r, h), c));
            } else {
                let j = choose|j: int| 0 <= j < n && res == #[trigger] at(p, w, clamp_index(x + j - r, w), sy, c);
                assert(res == at(p, w, clamp_index(x + j - r, w), clamp_index(y + (k - 1) - r, h), c));
            }
        }
    }
}

/// Erosion takes the darkest, and dilation the brightest, pixel of the
/// `(2r+1) x (2r+1)` window around each pixel (edges replicated): the
/// result is no brighter (no darker) than any window pixel, and is one
/// of them.
pub proof fn lemma_morph_is_window_extreme(p: Seq<u8>, w: int, h: int, x: int, y: int, c: int, r: int, dilate: bool)
    requires
        r >= 0,
    ensures
        forall|dx: int, dy: int| -r <= dx <= r && -r <= dy <= r ==> at_least_as_extreme(
            morph_at(p, w, h, x, y, c, r, dilate) as int,
            #[trigger] tap(p, w, h, x, y, dx, dy, c),
            dilate,
        ),
        exists|dx: int, dy: int| -r <= dx <= r && -r <= dy <= r && morph_at(p, w, h, x, y, c, r, dilate) as int
            == #[trigger] tap(p, w, h, x, y, dx, dy, c),
{
    let n = (2 * r + 1) as nat;
    lemma_win_fold_extreme(p, w, h, x, y, c, r, n, dilate);
    let res = morph_at(p, w, h, x, y, c, r, dilate);
    assert forall|dx: int, dy: int| -r <= dx <= r && -r <= dy <= r implies at_least_as_extreme(
        res as int, #[trigger] tap(p, w, h, x, y, dx, dy, c), dilate) by {
        let i = dy + r;
        let j = dx + r;
        assert(x + j - r == x + dx && y + i - r == y + dy);
        assert(at_least_as_extreme(res as int, at(p, w, clamp_index(x + j - r, w), clamp_index(y + i - r, h), c) as int, dilate));
    }
    if exists|i: int, j: int| 0 <= i < n && 0 <= j < 2 * r + 1 && res
        == #[trigger] at(p, w, clamp_index(x + j - r, w), clamp_index(y + i - r, h), c) {
        let (i, j) = choose|i: int, j: int| 0 <= i < n && 0 <= j < 2 * r + 1 && res
            == #[trigger] at(p, w, clamp_index(x + j - r, w), clamp_index(y + i - r, h), c);
        assert(res as int == tap(p, w, h, x, y, j - r, i - r, c));
    } else {
        let t = tap(p, w, h, x, y, 0, 0, c);
        assert(at_least_as_extreme(res as int, t, dilate));
        assert(res as int == t);
    }
}

/// A black image with one pixel, `(x0, y0)`, of grey level `v`.
pub open spec fn impulse_image(w: int, h: int, x0: int, y0: int, v: u8) -> Seq<u8> {
    image_of(w, h, impulse_pixels(x0, y0, v))
}

/// The pixels of `impulse_image`.
pub open spec fn impulse_pixels(x0: int, y0: int, v: u8) -> spec_fn(int, int, int) -> u8 {
    |x: int, y: int, c: int| if x == x0 && y == y0 { v } else { 0u8 }
}

proof fn lemma_impulse_tap(w: int, h: int, x0: int, y0: int, v: u8, x: int, y: int, dx: int, dy: int, c: int)
    requires
        1 <= x <= w - 2,
        1 <= y <= h - 2,
        -1 <= dx <= 1,
        -1 <= dy <= 1,
        0 <= c < 3,
    ensures
        tap(impulse_image(w, h, x0, y0, v), w, h, x, y, dx, dy, c) == if x + dx == x0 && y + dy == y0 { v as int } else { 0 },
{
    assert(clamp_index(x + dx, w) == x + dx);
    assert(clamp_index(y + dy, h) == y + dy);
    lemma_image_of_at(w, h, impulse_pixels(x0, y0, v), x + dx, y + dy, c);
}

/// Away from the border, the blur spreads one lit pixel evenly over the
/// 3x3 block around it, each of the nine getting a ninth of its level
/// (rounded), and leaves every other pixel black: each window pixel is
/// counted once, with the same weight.
pub proof fn lemma_blur_spreads_impulse(w: int, h: int, x0: int, y0: int, v: u8, x: int, y: int, c: int)
    requires
        1 <= x <= w - 2,
        1 <= y <= h - 2,
        0 <= c < 3,
    ensures
        blur_at(impulse_image(w, h, x0, y0, v), w, h, x, y, c) == if -1 <= x0 - x <= 1 && -1 <= y0 - y <= 1 {
            ((2 * (v as int) + 9) / 18) as u8
        } else {
            0u8
        },
{
    lemma_impulse_tap(w, h, x0, y0, v, x, y, -1, -1, c);
    lemma_impulse_tap(w, h, x0, y0, v, x, y, 0, -1, c);
    lemma_impulse_tap(w, h, x0, y0, v, x, y, 1, -1, c);
    lemma_impulse_tap(w, h, x0, y0, v, x, y, -1, 0, c);
    lemma_impulse_tap(w, h, x0, y0, v, x, y, 0, 0, c);
    lemma_impulse_tap(w, h, x0, y0, v, x, y, 1, 0, c);
    lemma_impulse_tap(w, h, x0, y0, v, x, y, -1, 1, c);
    lemma_impulse_tap(w, h, x0, y0, v, x, y, 0, 1, c);
    lemma_impulse_tap(w, h, x0, y0, v, x, y, 1, 1, c);
}

/// Erosion keeps order: an image nowhere brighter than another erodes to
/// one nowhere brighter.
proof fn lemma_erode_mono(p: Seq<u8>, q: Seq<u8>, w: int, h: int, r: int)
    requires
        r >= 0,
        w >= 1,
        h >= 1,
        forall|x: int, y: int, c: int| 0 <= x < w && 0 <= y < h && 0 <= c < 3 ==> #[trigger] at(p, w, x, y, c) <= at(q, w, x, y, c),
    ensures
        forall|x: int, y: int, c: int| 0 <= x < w && 0 <= y < h && 0 <= c < 3
            ==> #[trigger] morph_at(p, w, h, x, y, c, r, false) <= morph_at(q, w, h, x, y, c, r, false),
{
    assert forall|x: int, y: int, c: int| 0 <= x < w && 0 <= y < h && 0 <= c < 3
        implies #[trigger] morph_at(p, w, h, x, y, c, r, false) <= morph_at(q, w, h, x, y, c, r, false) by {
        let lo = morph_at(p, w, h, x, y, c, r, false);
        assert forall|i: int, j: int| 0 <= i < 2 * r + 1 && 0 <= j < 2 * r + 1
            implies lo <= #[trigger] at(q, w, clamp_index(x + j - r, w), clamp_index(y + i - r, h), c) <= 255 by {
            lemma_win_fold_vs_element(p, w, h, x, y, c, r, (2 * r + 1) as nat, i, j);
            lemma_window_symmetric(w, x, r, j);
            lemma_window_symmetric(h, y, r, i);
        }
        lemma_win_fold_bounded(q, w, h, x, y, c, r, (2 * r + 1) as nat, lo, 255);
    }
}

/// Opening is idempotent: opening an opened image changes nothing.
pub proof fn lemma_opening_idempotent(p: Seq<u8>, w: int, h: int, r: int)
    requires
        p.len() == w * h * 3,
        w >= 0,
        h >= 0,
        r >= 0,
    ensures
        ({
            let o = morph_image(morph_image(p, w, h, r, false), w, h, r, true);
            morph_image(morph_image(o, w, h, r, false), w, h, r, true) == o
        }),
{
    let e = morph_image(p, w, h, r, false);
    let o = morph_image(e, w, h, r, true);
    let eo = morph_image(o, w, h, r, false);
    if w >= 1 && h >= 1 {
        assert(e.len() == w * h * 3);
        assert(o.len() == w * h * 3);
        assert forall|x: int, y: int, c: int| 0 <= x < w && 0 <= y < h && 0 <= c < 3
            implies #[trigger] at(o, w, x, y, c) <= at(p, w, x, y, c) by {
            lemma_opening_never_brightens(p, w, h, r, x, y, c);
        }
        lemma_erode_mono(o, p, w, h, r);
        let fe = |x: int, y: int, c: int| morph_at(p, w, h, x, y, c, r, false);
        let feo = |x: int, y: int, c: int| morph_at(o, w, h, x, y, c, r, false);
        assert forall|x: int, y: int, c: int| 0 <= x < w && 0 <= y < h && 0 <= c < 3
            implies #[trigger] feo(x, y, c) == fe(x, y, c) by {
            lemma_closing_never_darkens(e, w, h, r, x, y, c);
            lemma_image_of_at(w, h, feo, x, y, c);
            lemma_image_of_at(w, h, fe, x, y, c);
            assert(morph_at(o, w, h, x, y, c, r, false) <= morph_at(p, w, h, x, y, c, r, false));
        }
        lemma_image_of_ext(w, h, feo, fe);
        assert(eo == e);
    } else {
        assert(w * h == 0) by (nonlinear_arith)
            requires
                w >= 0,
                h >= 0,
                !(w >= 1 && h >= 1),
        ;
        assert(eo =~= e);
    }
}

/// [`nearest_src`], computed.
fn nearest_index(n: usize, src: usize, dst: usize) -> (r: usize)
    requires
        n < dst,
        src > 0,
        dst * 3 <= usize::MAX,
        src * 3 <= usize::MAX,
    ensures
        r == nearest_src(n as int, src as int, dst as int),
        r < src,
{
    proof {
        assert(usize::MAX <= 0xffff_ffff_ffff_ffff);
    }
    let (m, pw, k) = fl_div_exec(src as u128, dst as u128);
    proof {
        vstd::arithmetic::power2::lemma2_to64();
        vstd::arithmetic::power2::lemma2_to64_rest();
        if (src as int) < pow2(52) * dst {
            assert((2 * n + 1) * m < 0x40_0000_0000_0000_0000_0000_0000_0000) by (nonlinear_arith)
                requires
                    n < dst,
                    dst < 0x1_0000_0000_0000_0000,
                    m <= 0x20_0000_0000_0000,
            ;
        } else {
            assert(k == 0);
            assert(m <= src / dst + 1) by {
                assert(pow2(0) == 1);
                assert(fl_div(src as nat, dst as nat).0 <= ((src as nat) * pow2(0)) / (dst as nat) + 1);
            }
            assert((2 * n + 1) * m < 0x40_0000_0000_0000_0000_0000_0000_0000) by (nonlinear_arith)
                requires
                    n < dst,
                    dst >= 1,
                    m <= src / dst + 1,
                    src < 0x1_0000_0000_0000_0000,
                    dst < 0x1_0000_0000_0000_0000,
            ;
        }
    }
    let x = (2 * (n as u128) + 1) * m;
    let t = round53_exec(x);
    if t <= pw {
        return 0;
    }
    let d = round53_exec(t - pw);
    proof {
        vstd::arithmetic::power2::lemma_pow2_unfold((k + 1) as nat);
        vstd::arithmetic::power2::lemma_pow2_pos(k as nat);
    }
    let v = (d + pw) / (2 * pw);
    if v > (src - 1) as u128 {
        src - 1
    } else {
        v as usize
    }
}

/// Per-channel saturating subtraction `a - b` of two same-size images.
fn subtract_clamped(a: &Image, b: &Image) -> (out: Image)
    requires
        a.wf(),
        b.wf(),
        a.width == b.width,
        a.height == b.height,
    ensures
        out.wf(),
        out.width == a.width,
        out.height == a.height,
        out.pixels@ == sub_image(a.pixels@, b.pixels@),
{
    let mut out: Vec<u8> = Vec::new();
    let mut i: usize = 0;
    while i < a.pixels.len()
        invariant
            i <= a.pixels@.len(),
            a.pixels@.len() == b.pixels@.len(),
            out@ == sub_image(a.pixels@, b.pixels@).take(i as int),
        decreases a.pixels@.len() - i,
    {
        let (p, q) = (a.pixels[i], b.pixels[i]);
        let v = if p >= q { p - q } else { 0 };
        out.push(v);
        assert(sub_image(a.pixels@, b.pixels@).take(i + 1) =~= sub_image(a.pixels@, b.pixels@).take(i as int).push(v));
        i = i + 1;
    }
    assert(sub_image(a.pixels@, b.pixels@).take(i as int) =~= sub_image(a.pixels@, b.pixels@));
    Image { width: a.width, height: a.height, pixels: out }
}

/// A raster image: row-major RGB, 8 bits per channel.
#[derive(Clone, Debug, PartialEq)]
pub struct Image {
    pub width: usize,
    pub height: usize,
    /// Always exactly `width * height * 3` bytes: `[R,G,B, R,G,B, ...]`,
    /// row-major, top-left origin (row 0 is the top row).
    pub pixels: Vec<u8>,
}

impl Image {
    /// The pixel buffer has the size the dimensions call for.
    pub open spec fn wf(&self) -> bool {
        self.pixels@.len() == self.width * self.height * 3
    }

    /// Channel `c` of pixel `(x, y)`.
    pub open spec fn px(&self, x: int, y: int, c: int) -> u8 {
        at(self.pixels@, self.width as int, x, y, c)
    }

    /// An image from a pixel buffer, which must be exactly
    /// `width * height * 3` bytes long.
    pub fn new(width: usize, height: usize, pixels: Vec<u8>) -> (r: Result<Image, String>)
        requires
            width * height * 3 <= usize::MAX,
        ensures
            r is Ok <==> pixels@.len() == width * height * 3,
            r matches Ok(img) ==> img.width == width && img.height == height && img.pixels@ == pixels@,
    {
        proof {
            assert(0 <= width * height) by (nonlinear_arith);
        }
        let expected = width * height * 3;
        if pixels.len() != expected {
            return Err(text::with_two_numbers(
                "image pixel buffer must be width*height*3 = ",
                expected as u64,
                " bytes for the image's size, got ",
                pixels.len() as u64,
                "",
            ));
        }
        Ok(Image { width, height, pixels })
    }

    /// A solid-color image of the given size.
    #[verifier::loop_isolation(false)]
    pub fn filled(width: usize, height: usize, rgb: (u8, u8, u8)) -> (img: Image)
        requires
            width * height * 3 <= usize::MAX,
        ensures
            img.wf(),
            img.width == width,
            img.height == height,
            forall|x: int, y: int| 0 <= x < width && 0 <= y < height ==>
                #[trigger] img.px(x, y, 0) == rgb.0 && img.px(x, y, 1) == rgb.1 && img.px(x, y, 2) == rgb.2,
            img.pixels@ == flat_image(width as int, height as int, rgb),
    {
        let ghost f = |x: int, y: int, c: int| channel(rgb, c);
        let mut pixels: Vec<u8> = Vec::new();
        let mut y: usize = 0;
        proof {
            lemma_raster_start(width as int, f);
        }
        while y < height
            invariant
                y <= height,
                width * height * 3 <= usize::MAX,
                raster_done(pixels@, width as int, 0, y as int, f),
            decreases height - y,
        {
            let mut x: usize = 0;
            while x < width
                invariant
                    x <= width,
                    y < height,
                    width * height * 3 <= usize::MAX,
                    raster_done(pixels@, width as int, x as int, y as int, f),
                decreases width - x,
            {
                proof {
                    lemma_index_in_bounds(width as int, height as int, x as int, y as int);
                    lemma_raster_push(pixels@, width as int, x as int, y as int, f, rgb.0, rgb.1, rgb.2);
                }
                pixels.push(rgb.0);
                pixels.push(rgb.1);
                pixels.push(rgb.2);
                x = x + 1;
            }
            proof {
                lemma_raster_next_row(pixels@, width as int, y as int, f);
            }
            y = y + 1;
        }
        proof {
            lemma_raster_finish(pixels@, width as int, height as int, f);
        }
        let img = Image { width, height, pixels };
        assert forall|x: int, y: int| 0 <= x < width && 0 <= y < height implies
            #[trigger] img.px(x, y, 0) == rgb.0 && img.px(x, y, 1) == rgb.1 && img.px(x, y, 2) == rgb.2 by {
            assert(at(img.pixels@, width as int, x, y, 0) == f(x, y, 0));
            assert(at(img.pixels@, width as int, x, y, 1) == f(x, y, 1));
            assert(at(img.pixels@, width as int, x, y, 2) == f(x, y, 2));
        }
        proof {
            lemma_image_is_unique(img.pixels@, width as int, height as int, f);
        }
        img
    }

    /// The byte offset of pixel `(x, y)`.
    fn offset(&self, x: usize, y: usize) -> (i: usize)
        requires
            self.wf(),
            x < self.width,
            y < self.height,
        ensures
            i == (y * self.width + x) * 3,
            i + 3 <= self.pixels@.len() <= usize::MAX,
    {
        let n = self.pixels.len();
        proof {
            lemma_index_in_bounds(self.width as int, self.height as int, x as int, y as int);
            assert(0 <= y * self.width <= y * self.width + x <= (y * self.width + x) * 3 <= n);
        }
        (y * self.width + x) * 3
    }

    /// The `(r, g, b)` of pixel `(x, y)`.
    pub fn get_pixel(&self, x: usize, y: usize) -> (rgb: (u8, u8, u8))
        requires
            self.wf(),
            x < self.width,
            y < self.height,
        ensures
            rgb == (self.px(x as int, y as int, 0), self.px(x as int, y as int, 1), self.px(x as int, y as int, 2)),
    {
        let i = self.offset(x, y);
        (self.pixels[i], self.pixels[i + 1], self.pixels[i + 2])
    }

    /// Sets pixel `(x, y)` to `rgb`, leaving every other pixel as it was.
    pub fn set_pixel(&mut self, x: usize, y: usize, rgb: (u8, u8, u8))
        requires
            old(self).wf(),
            x < old(self).width,
            y < old(self).height,
        ensures
            final(self).wf(),
            final(self).width == old(self).width,
            final(self).height == old(self).height,
            final(self).px(x as int, y as int, 0) == rgb.0,
            final(self).px(x as int, y as int, 1) == rgb.1,
            final(self).px(x as int, y as int, 2) == rgb.2,
            forall|xx: int, yy: int, c: int| 0 <= xx < old(self).width && 0 <= yy < old(self).height && 0 <= c < 3
                && (xx != x || yy != y) ==> #[trigger] final(self).px(xx, yy, c) == old(self).px(xx, yy, c),
    {
        let i = self.offset(x, y);
        self.pixels.set(i, rgb.0);
        self.pixels.set(i + 1, rgb.1);
        self.pixels.set(i + 2, rgb.2);
        proof {
            let w = self.width as int;
            assert forall|xx: int, yy: int, c: int| 0 <= xx < old(self).width && 0 <= yy < old(self).height && 0 <= c < 3
                && (xx != x || yy != y) implies #[trigger] self.px(xx, yy, c) == old(self).px(xx, yy, c) by {
                lemma_index_in_bounds(w, self.height as int, xx, yy);
                if yy < y || (yy == y && xx < x) {
                    lemma_raster_before(w, xx, yy, x as int, y as int);
                } else {
                    lemma_raster_before(w, x as int, y as int, xx, yy);
                }
            }
        }
    }

    /// The image's dimensions fit the machine: `width * height * 3`
    /// bytes exist.
    pub(crate) fn size_fits(&self)
        requires
            self.wf(),
        ensures
            self.width * self.height * 3 <= usize::MAX,
    {
        let _n = self.pixels.len();
    }

    /// Channel `c` of pixel `(x, y)`.
    fn channel(&self, x: usize, y: usize, c: usize) -> (v: u8)
        requires
            self.wf(),
            x < self.width,
            y < self.height,
            c < 3,
        ensures
            v == self.px(x as int, y as int, c as int),
    {
        let i = self.offset(x, y);
        self.pixels[i + c]
    }

    /// An independent copy of this image.
    pub fn duplicate(&self) -> (img: Image)
        requires
            self.wf(),
        ensures
            img.wf(),
            img.width == self.width,
            img.height == self.height,
            img.pixels@ == self.pixels@,
    {
        let mut pixels: Vec<u8> = Vec::new();
        let mut i: usize = 0;
        while i < self.pixels.len()
            invariant
                i <= self.pixels@.len(),
                pixels@ == self.pixels@.take(i as int),
            decreases self.pixels@.len() - i,
        {
            pixels.push(self.pixels[i]);
            assert(self.pixels@.take(i + 1) =~= self.pixels@.take(i as int).push(self.pixels@[i as int]));
            i = i + 1;
        }
        assert(self.pixels@.take(i as int) =~= self.pixels@);
        Image { width: self.width, height: self.height, pixels }
    }

    /// RGB -> grayscale via the ITU-R BT.601 luma weights
    /// (`0.299/0.587/0.114`), rounded. Returns a full RGB image with R=G=B.
    pub fn to_grayscale(&self) -> (out: Image)
        requires
            self.wf(),
        ensures
            out.wf(),
            out.width == self.width,
            out.height == self.height,
            out.pixels@ == image_of(self.width as int, self.height as int,
                |x: int, y: int, c: int| luma(self.px(x, y, 0), self.px(x, y, 1), self.px(x, y, 2))),
    {
        let ghost f = |x: int, y: int, c: int| luma(self.px(x, y, 0), self.px(x, y, 1), self.px(x, y, 2));
        let source = |x: usize, y: usize| -> (v: (u8, u8, u8))
            requires
                self.wf(),
                x < self.width,
                y < self.height,
            ensures
                v.0 == f(x as int, y as int, 0) && v.1 == f(x as int, y as int, 1) && v.2 == f(x as int, y as int, 2),
            {
                let (r, g, b) = self.get_pixel(x, y);
                let l = luma_exec(r, g, b);
                (l, l, l)
            };
        self.size_fits();
        let pixels = build_image(self.width, self.height, source, Ghost(f));
        Image { width: self.width, height: self.height, pixels }
    }

    /// The `w x h` sub-image whose top-left corner is `(x0, y0)`. An empty
    /// or out-of-bounds region is an error.
    pub fn crop(&self, x0: usize, y0: usize, w: usize, h: usize) -> (r: Result<Image, String>)
        requires
            self.wf(),
            x0 + w <= usize::MAX,
            y0 + h <= usize::MAX,
        ensures
            r is Ok <==> (w > 0 && h > 0 && x0 + w <= self.width && y0 + h <= self.height),
            r matches Ok(out) ==> {
                &&& out.wf()
                &&& out.width == w
                &&& out.height == h
                &&& out.pixels@ == image_of(w as int, h as int, |x: int, y: int, c: int| self.px(x0 + x, y0 + y, c))
            },
    {
        if w == 0 || h == 0 {
            return Err(text::owned("crop: width and height must be positive"));
        }
        if x0 + w > self.width || y0 + h > self.height {
            return Err(text::with_two_numbers(
                "crop: the region doesn't fit inside a ",
                self.width as u64,
                "x",
                self.height as u64,
                " image",
            ));
        }
        proof {
            assert(w * h <= self.width * self.height) by (nonlinear_arith)
                requires
                    w <= self.width,
                    h <= self.height,
            ;
        }
        self.size_fits();
        let ghost f = |x: int, y: int, c: int| self.px(x0 + x, y0 + y, c);
        let source = |x: usize, y: usize| -> (v: (u8, u8, u8))
            requires
                self.wf(),
                x < w,
                y < h,
                x0 + w <= self.width,
                y0 + h <= self.height,
            ensures
                v.0 == f(x as int, y as int, 0) && v.1 == f(x as int, y as int, 1) && v.2 == f(x as int, y as int, 2),
            {
                let (sx, sy) = (x0 + x, y0 + y);
                self.get_pixel(sx, sy)
            };
        self.size_fits();
        let pixels = build_image(w, h, source, Ghost(f));
        Ok(Image { width: w, height: h, pixels })
    }

    /// The mirror image, columns reversed.
    pub fn flip_horizontal(&self) -> (out: Image)
        requires
            self.wf(),
        ensures
            out.wf(),
            out.width == self.width,
            out.height == self.height,
            out.pixels@ == image_of(self.width as int, self.height as int,
                |x: int, y: int, c: int| self.px(self.width - 1 - x, y, c)),
    {
        let ghost f = |x: int, y: int, c: int| self.px(self.width - 1 - x, y, c);
        let source = |x: usize, y: usize| -> (v: (u8, u8, u8))
            requires
                self.wf(),
                x < self.width,
                y < self.height,
            ensures
                v.0 == f(x as int, y as int, 0) && v.1 == f(x as int, y as int, 1) && v.2 == f(x as int, y as int, 2),
            {
                let col = self.width - 1 - x;
                self.get_pixel(col, y)
            };
        self.size_fits();
        let pixels = build_image(self.width, self.height, source, Ghost(f));
        Image { width: self.width, height: self.height, pixels }
    }

    /// The image upside down, rows reversed.
    pub fn flip_vertical(&self) -> (out: Image)
        requires
            self.wf(),
        ensures
            out.wf(),
            out.width == self.width,
            out.height == self.height,
            out.pixels@ == image_of(self.width as int, self.height as int,
                |x: int, y: int, c: int| self.px(x, self.height - 1 - y, c)),
    {
        let ghost f = |x: int, y: int, c: int| self.px(x, self.height - 1 - y, c);
        let source = |x: usize, y: usize| -> (v: (u8, u8, u8))
            requires
                self.wf(),
                x < self.width,
                y < self.height,
            ensures
                v.0 == f(x as int, y as int, 0) && v.1 == f(x as int, y as int, 1) && v.2 == f(x as int, y as int, 2),
        {
            let row = self.height - 1 - y;
            self.get_pixel(x, row)
        };
        self.size_fits();
        let pixels = build_image(self.width, self.height, source, Ghost(f));
        Image { width: self.width, height: self.height, pixels }
    }

    /// Foreground test for a binary mask (0 = background, 255 =
    /// foreground): the red channel is at least 128.
    pub fn is_foreground(&self, x: usize, y: usize) -> (b: bool)
        requires
            self.wf(),
            x < self.width,
            y < self.height,
        ensures
            b == (self.px(x as int, y as int, 0) >= 128),
    {
        self.get_pixel(x, y).0 >= 128
    }

    /// The clamped neighbour indices `(x - 1, x + 1, y - 1, y + 1)`.
    fn neighbours(&self, x: usize, y: usize) -> (n: (usize, usize, usize, usize))
        requires
            x < self.width,
            y < self.height,
        ensures
            n.0 == clamp_index(x - 1, self.width as int),
            n.1 == clamp_index(x + 1, self.width as int),
            n.2 == clamp_index(y - 1, self.height as int),
            n.3 == clamp_index(y + 1, self.height as int),
    {
        let xl = if x == 0 { 0 } else { x - 1 };
        let xr = if x + 1 >= self.width { self.width - 1 } else { x + 1 };
        let yu = if y == 0 { 0 } else { y - 1 };
        let yd = if y + 1 >= self.height { self.height - 1 } else { y + 1 };
        (xl, xr, yu, yd)
    }

    /// One channel of the 3x3 box blur at `(x, y)`.
    fn blur_channel(&self, x: usize, y: usize, c: usize) -> (v: u8)
        requires
            self.wf(),
            x < self.width,
            y < self.height,
            c < 3,
        ensures
            v == blur_at(self.pixels@, self.width as int, self.height as int, x as int, y as int, c as int),
    {
        let (xl, xr, yu, yd) = self.neighbours(x, y);
        let s: u32 = self.channel(xl, yu, c) as u32 + self.channel(x, yu, c) as u32 + self.channel(xr, yu, c) as u32
            + self.channel(xl, y, c) as u32 + self.channel(x, y, c) as u32 + self.channel(xr, y, c) as u32
            + self.channel(xl, yd, c) as u32 + self.channel(x, yd, c) as u32 + self.channel(xr, yd, c) as u32;
        ((2 * s + 9) / 18) as u8
    }

    /// One channel of the cross kernel with centre weight `k` at `(x, y)`.
    fn cross_channel(&self, x: usize, y: usize, c: usize, k: i32) -> (v: u8)
        requires
            self.wf(),
            x < self.width,
            y < self.height,
            c < 3,
            0 <= k <= 8,
        ensures
            v == cross_at(self.pixels@, self.width as int, self.height as int, x as int, y as int, c as int, k as int),
    {
        let (xl, xr, yu, yd) = self.neighbours(x, y);
        let centre = self.channel(x, y, c) as i32;
        assert(0 <= k * centre <= 8 * 255) by (nonlinear_arith)
            requires
                0 <= k <= 8,
                0 <= centre <= 255,
        ;
        let v: i32 = k * centre - self.channel(x, yu, c) as i32 - self.channel(xl, y, c) as i32
            - self.channel(xr, y, c) as i32 - self.channel(x, yd, c) as i32;
        if v < 0 {
            0
        } else if v > 255 {
            255
        } else {
            v as u8
        }
    }

    /// 3x3 box blur (uniform 1/9 average, rounded), edges replicated.
    pub fn blur3x3(&self) -> (out: Image)
        requires
            self.wf(),
        ensures
            out.wf(),
            out.width == self.width,
            out.height == self.height,
            out.pixels@ == image_of(self.width as int, self.height as int,
                |x: int, y: int, c: int| blur_at(self.pixels@, self.width as int, self.height as int, x, y, c)),
    {
        let ghost f = |x: int, y: int, c: int| blur_at(self.pixels@, self.width as int, self.height as int, x, y, c);
        let source = |x: usize, y: usize| -> (v: (u8, u8, u8))
            requires
                self.wf(),
                x < self.width,
                y < self.height,
            ensures
                v.0 == f(x as int, y as int, 0) && v.1 == f(x as int, y as int, 1) && v.2 == f(x as int, y as int, 2),
            {
                (self.blur_channel(x, y, 0), self.blur_channel(x, y, 1), self.blur_channel(x, y, 2))
            };
        self.size_fits();
        let pixels = build_image(self.width, self.height, source, Ghost(f));
        Image { width: self.width, height: self.height, pixels }
    }

    /// The cross kernel `[0,-1,0; -1,k,-1; 0,-1,0]`, clamped to the byte
    /// range, edges replicated.
    fn cross_filter(&self, k: i32) -> (out: Image)
        requires
            self.wf(),
            0 <= k <= 8,
        ensures
            out.wf(),
            out.width == self.width,
            out.height == self.height,
            out.pixels@ == image_of(self.width as int, self.height as int,
                |x: int, y: int, c: int| cross_at(self.pixels@, self.width as int, self.height as int, x, y, c, k as int)),
    {
        let ghost f = |x: int, y: int, c: int| cross_at(self.pixels@, self.width as int, self.height as int, x, y, c, k as int);
        let source = |x: usize, y: usize| -> (v: (u8, u8, u8))
            requires
                self.wf(),
                x < self.width,
                y < self.height,
                0 <= k <= 8,
            ensures
                v.0 == f(x as int, y as int, 0) && v.1 == f(x as int, y as int, 1) && v.2 == f(x as int, y as int, 2),
            {
                (self.cross_channel(x, y, 0, k), self.cross_channel(x, y, 1, k), self.cross_channel(x, y, 2, k))
            };
        self.size_fits();
        let pixels = build_image(self.width, self.height, source, Ghost(f));
        Image { width: self.width, height: self.height, pixels }
    }

    /// 3x3 sharpen kernel `[0,-1,0; -1,5,-1; 0,-1,0]`.
    pub fn sharpen3x3(&self) -> (out: Image)
        requires
            self.wf(),
        ensures
            out.wf(),
            out.width == self.width,
            out.height == self.height,
            out.pixels@ == image_of(self.width as int, self.height as int,
                |x: int, y: int, c: int| cross_at(self.pixels@, self.width as int, self.height as int, x, y, c, 5)),
    {
        self.cross_filter(5)
    }

    /// 3x3 discrete Laplacian edge-detect kernel `[0,-1,0; -1,4,-1; 0,-1,0]`.
    pub fn edge_detect3x3(&self) -> (out: Image)
        requires
            self.wf(),
        ensures
            out.wf(),
            out.width == self.width,
            out.height == self.height,
            out.pixels@ == image_of(self.width as int, self.height as int,
                |x: int, y: int, c: int| cross_at(self.pixels@, self.width as int, self.height as int, x, y, c, 4)),
    {
        self.cross_filter(4)
    }

    /// Erosion or dilation of all three channels of pixel `(x, y)`.
    fn morph_pixel(&self, x: usize, y: usize, radius: usize, dilate: bool) -> (v: (u8, u8, u8))
        requires
            self.wf(),
            x < self.width,
            y < self.height,
            radius + self.width + self.height <= isize::MAX,
        ensures
            v.0 == morph_at(self.pixels@, self.width as int, self.height as int, x as int, y as int, 0, radius as int, dilate),
            v.1 == morph_at(self.pixels@, self.width as int, self.height as int, x as int, y as int, 1, radius as int, dilate),
            v.2 == morph_at(self.pixels@, self.width as int, self.height as int, x as int, y as int, 2, radius as int, dilate),
    {
        let ghost p = self.pixels@;
        let ghost (w, h, r) = (self.width as int, self.height as int, radius as int);
        let init: u8 = if dilate { 0 } else { 255 };
        let (mut a0, mut a1, mut a2) = (init, init, init);
        let span = 2 * radius + 1;
        let mut k: usize = 0;
        while k < span
            invariant
                self.wf(),
                x < self.width,
                y < self.height,
                radius + self.width + self.height <= isize::MAX,
                span == 2 * radius + 1,
                k <= span,
                p == self.pixels@,
                w == self.width,
                h == self.height,
                r == radius,
                a0 == win_fold(p, w, h, x as int, y as int, 0, r, k as nat, dilate),
                a1 == win_fold(p, w, h, x as int, y as int, 1, r, k as nat, dilate),
                a2 == win_fold(p, w, h, x as int, y as int, 2, r, k as nat, dilate),
            decreases span - k,
        {
            let t = y + k;
            let sy = if t < radius { 0 } else if t - radius >= self.height { self.height - 1 } else { t - radius };
            assert(sy == clamp_index(y + k - r, h));
            let ghost (b0, b1, b2) = (a0, a1, a2);
            let mut j: usize = 0;
            while j < span
                invariant
                    self.wf(),
                    x < self.width,
                    sy < self.height,
                    radius + self.width + self.height <= isize::MAX,
                    span == 2 * radius + 1,
                    j <= span,
                    p == self.pixels@,
                    w == self.width,
                    h == self.height,
                    r == radius,
                    a0 == row_fold(b0, p, w, x as int, sy as int, 0, r, j as nat, dilate),
                    a1 == row_fold(b1, p, w, x as int, sy as int, 1, r, j as nat, dilate),
                    a2 == row_fold(b2, p, w, x as int, sy as int, 2, r, j as nat, dilate),
                decreases span - j,
            {
                let t2 = x + j;
                let sx = if t2 < radius { 0 } else if t2 - radius >= self.width { self.width - 1 } else { t2 - radius };
                assert(sx == clamp_index(x + j - r, w));
                let (pr, pg, pb) = self.get_pixel(sx, sy);
                if dilate {
                    a0 = if a0 >= pr { a0 } else { pr };
                    a1 = if a1 >= pg { a1 } else { pg };
                    a2 = if a2 >= pb { a2 } else { pb };
                } else {
                    a0 = if a0 <= pr { a0 } else { pr };
                    a1 = if a1 <= pg { a1 } else { pg };
                    a2 = if a2 <= pb { a2 } else { pb };
                }
                j = j + 1;
            }
            k = k + 1;
        }
        (a0, a1, a2)
    }

    /// Square-window grayscale erosion (`dilate == false`) or dilation.
    fn morph_filter(&self, radius: usize, dilate: bool) -> (out: Image)
        requires
            self.wf(),
            radius + self.width + self.height <= isize::MAX,
        ensures
            out.wf(),
            out.width == self.width,
            out.height == self.height,
            out.pixels@ == morph_image(self.pixels@, self.width as int, self.height as int, radius as int, dilate),
    {
        let ghost f = |x: int, y: int, c: int| morph_at(self.pixels@, self.width as int, self.height as int, x, y, c, radius as int, dilate);
        let source = |x: usize, y: usize| -> (v: (u8, u8, u8))
            requires
                self.wf(),
                x < self.width,
                y < self.height,
                radius + self.width + self.height <= isize::MAX,
            ensures
                v.0 == f(x as int, y as int, 0) && v.1 == f(x as int, y as int, 1) && v.2 == f(x as int, y as int, 2),
            {
                self.morph_pixel(x, y, radius, dilate)
            };
        self.size_fits();
        let pixels = build_image(self.width, self.height, source, Ghost(f));
        Image { width: self.width, height: self.height, pixels }
    }

    /// Grayscale morphological erosion: each channel becomes the minimum
    /// over the square window of side `2 * radius + 1`, edges replicated.
    /// `radius = 0` leaves the image as it is.
    pub fn erode(&self, radius: usize) -> (out: Image)
        requires
            self.wf(),
            radius + self.width + self.height <= isize::MAX,
        ensures
            out.wf(),
            out.width == self.width,
            out.height == self.height,
            out.pixels@ == morph_image(self.pixels@, self.width as int, self.height as int, radius as int, false),
    {
        self.morph_filter(radius, false)
    }

    /// Grayscale morphological dilation: the maximum over the same window
    /// [`Image::erode`] uses.
    pub fn dilate(&self, radius: usize) -> (out: Image)
        requires
            self.wf(),
            radius + self.width + self.height <= isize::MAX,
        ensures
            out.wf(),
            out.width == self.width,
            out.height == self.height,
            out.pixels@ == morph_image(self.pixels@, self.width as int, self.height as int, radius as int, true),
    {
        self.morph_filter(radius, true)
    }

    /// Opening: erode then dilate -- removes small bright specks.
    pub fn open(&self, radius: usize) -> (out: Image)
        requires
            self.wf(),
            radius + self.width + self.height <= isize::MAX,
        ensures
            out.wf(),
            out.width == self.width,
            out.height == self.height,
            out.pixels@ == morph_image(
                morph_image(self.pixels@, self.width as int, self.height as int, radius as int, false),
                self.width as int, self.height as int, radius as int, true),
    {
        self.erode(radius).dilate(radius)
    }

    /// Closing: dilate then erode -- fills small dark holes.
    pub fn close(&self, radius: usize) -> (out: Image)
        requires
            self.wf(),
            radius + self.width + self.height <= isize::MAX,
        ensures
            out.wf(),
            out.width == self.width,
            out.height == self.height,
            out.pixels@ == morph_image(
                morph_image(self.pixels@, self.width as int, self.height as int, radius as int, true),
                self.width as int, self.height as int, radius as int, false),
    {
        self.dilate(radius).erode(radius)
    }

    /// Top-hat: the original minus its own opening (isolates small bright
    /// features).
    pub fn tophat(&self, radius: usize) -> (out: Image)
        requires
            self.wf(),
            radius + self.width + self.height <= isize::MAX,
        ensures
            out.wf(),
            out.width == self.width,
            out.height == self.height,
            out.pixels@ == sub_image(self.pixels@, morph_image(
                morph_image(self.pixels@, self.width as int, self.height as int, radius as int, false),
                self.width as int, self.height as int, radius as int, true)),
    {
        let opened = self.open(radius);
        subtract_clamped(self, &opened)
    }

    /// Bottom-hat: the closing minus the original (isolates small dark
    /// features).
    pub fn bothat(&self, radius: usize) -> (out: Image)
        requires
            self.wf(),
            radius + self.width + self.height <= isize::MAX,
        ensures
            out.wf(),
            out.width == self.width,
            out.height == self.height,
            out.pixels@ == sub_image(morph_image(
                morph_image(self.pixels@, self.width as int, self.height as int, radius as int, true),
                self.width as int, self.height as int, radius as int, false), self.pixels@),
    {
        let closed = self.close(radius);
        subtract_clamped(&closed, self)
    }

    /// Nearest-neighbor resize: each destination pixel takes the source
    /// pixel whose centre is closest. Resizing to an empty size gives an
    /// empty image.
    pub fn resize_nearest(&self, new_width: usize, new_height: usize) -> (out: Image)
        requires
            self.wf(),
            new_width * new_height * 3 <= usize::MAX,
            new_width > 0 && new_height > 0 ==> self.width > 0 && self.height > 0,
        ensures
            out.wf(),
            out.width == new_width,
            out.height == new_height,
            out.pixels@ == image_of(new_width as int, new_height as int, |x: int, y: int, c: int|
                self.px(nearest_src(x, self.width as int, new_width as int), nearest_src(y, self.height as int, new_height as int), c)),
    {
        let ghost (w, h, nw, nh) = (self.width as int, self.height as int, new_width as int, new_height as int);
        let ghost f = |x: int, y: int, c: int| self.px(nearest_src(x, w, nw), nearest_src(y, h, nh), c);
        if new_width == 0 || new_height == 0 {
            proof {
                assert(new_width * new_height == 0) by (nonlinear_arith)
                    requires new_width == 0 || new_height == 0;
                assert(image_of(nw, nh, f) =~= Seq::<u8>::empty());
            }
            return Image { width: new_width, height: new_height, pixels: Vec::new() };
        }
        self.size_fits();
        proof {
            assert(new_width * 3 <= new_width * new_height * 3 && new_height * 3 <= new_width * new_height * 3) by (nonlinear_arith)
                requires new_width >= 1, new_height >= 1;
            assert(self.width * 3 <= self.width * self.height * 3 && self.height * 3 <= self.width * self.height * 3) by (nonlinear_arith)
                requires self.width >= 1, self.height >= 1;
        }
        let source = |x: usize, y: usize| -> (v: (u8, u8, u8))
            requires
                self.wf(),
                new_width * 3 <= usize::MAX,
                new_height * 3 <= usize::MAX,
                self.width * 3 <= usize::MAX,
                self.height * 3 <= usize::MAX,
                x < new_width,
                y < new_height,
                self.width > 0,
                self.height > 0,
                new_width * new_height * 3 <= usize::MAX,
                self.width * self.height * 3 <= usize::MAX,
            ensures
                v.0 == f(x as int, y as int, 0) && v.1 == f(x as int, y as int, 1) && v.2 == f(x as int, y as int, 2),
            {
                let sx = nearest_index(x, self.width, new_width);
                let sy = nearest_index(y, self.height, new_height);
                self.get_pixel(sx, sy)
            };
        let pixels = build_image(new_width, new_height, source, Ghost(f));
        Image { width: new_width, height: new_height, pixels }
    }
}

} // verus!
