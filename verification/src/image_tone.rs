//! Histogram equalization of [`Image`]s, following the double-precision
//! evaluation of its luma, lookup table and channel ratios exactly.

use vstd::prelude::*;
use crate::image::{Image, at, image_of, luma, build_image, fl_div, fl_div_exec, round53, round53_exec};
use vstd::arithmetic::power2::pow2;

verus! {

/// The BT.601 luma of each of the first `n` pixels of `p`.
pub open spec fn lumas(p: Seq<u8>, n: int) -> Seq<u8> {
    Seq::new(n as nat, |i: int| luma(p[3 * i], p[3 * i + 1], p[3 * i + 2]))
}

/// How many entries of `l` are at most `v`.
pub open spec fn count_le(l: Seq<u8>, v: int) -> nat
    decreases l.len(),
{
    if l.len() == 0 { 0 } else { count_le(l.drop_last(), v) + if l.last() <= v { 1nat } else { 0nat } }
}

/// How many entries of `l` equal `v`.
pub open spec fn count_eq(l: Seq<u8>, v: int) -> nat
    decreases l.len(),
{
    if l.len() == 0 { 0 } else { count_eq(l.drop_last(), v) + if l.last() == v { 1nat } else { 0nat } }
}

/// The first non-zero value of the cumulative histogram from level `v` up
/// (0 when there is none).
pub open spec fn first_nonzero_cdf(l: Seq<u8>, v: int) -> nat
    decreases 256 - v,
{
    if v >= 256 { 0 } else if count_le(l, v) > 0 { count_le(l, v) } else { first_nonzero_cdf(l, v + 1) }
}


/// `c * (p / q)` as doubles compute it (the quotient rounded to a
/// double, then the product), rounded half away from zero and capped at
/// 255; `p > 0`.
pub open spec fn scaled_by_ratio(c: nat, p: nat, q: nat) -> u8 {
    let (m, k) = fl_div(p, q);
    let t = round53(c * m);
    let y = (2 * t + pow2(k)) / pow2(k + 1);
    if y > 255 { 255 } else { y as u8 }
}

/// [`scaled_by_ratio`], computed, for `c <= 255` and `0 < p, q < 2^64`.
fn scaled_by_ratio_exec(c: u128, p: u128, q: u128) -> (r: u8)
    requires
        c <= 255,
        0 < p < 0x1_0000_0000_0000_0000,
        0 < q < 0x1_0000_0000_0000_0000,
    ensures
        r == scaled_by_ratio(c as nat, p as nat, q as nat),
{
    let (m, pw, k) = fl_div_exec(p, q);
    proof {
        assert(c * m <= 255 * 0x1_0000_0000_0000_0000) by (nonlinear_arith)
            requires
                c <= 255,
                m <= 0x1_0000_0000_0000_0000,
        ;
        vstd::arithmetic::power2::lemma_pow2_unfold((k + 1) as nat);
        vstd::arithmetic::power2::lemma_pow2_pos(k as nat);
    }
    let t = round53_exec(c * m);
    let y = (2 * t + pw) / (2 * pw);
    if y > 255 { 255 } else { y as u8 }
}

/// The equalization lookup table at level `v`: the cumulative histogram,
/// less its first non-zero value, scaled to `0..255` over the pixels above
/// that minimum. When every pixel has the same luma the table is the
/// identity.
pub open spec fn eq_lut(l: Seq<u8>, v: int) -> u8 {
    let m = first_nonzero_cdf(l, 0);
    let denom = l.len() - m;
    if denom > 0 {
        if count_le(l, v) <= m {
            0
        } else {
            scaled_by_ratio(255, (count_le(l, v) - m) as nat, denom as nat)
        }
    } else {
        v as u8
    }
}

/// Channel `c` of a pixel whose luma moves from `old` to `new`: scaled by
/// `new / old`, rounded and capped at 255; a black pixel becomes grey `new`.
pub open spec fn eq_channel(c: u8, old: u8, new: u8) -> u8 {
    if old == 0 {
        new
    } else {
        if new == 0 { 0 } else { scaled_by_ratio(c as nat, new as nat, old as nat) }
    }
}

/// The equalized image: each pixel's channels scaled by the ratio of its
/// remapped luma to its luma.
pub open spec fn equalized(p: Seq<u8>, w: int, h: int) -> Seq<u8> {
    image_of(w, h, |x: int, y: int, c: int| {
        let l = lumas(p, w * h);
        let i = y * w + x;
        eq_channel(at(p, w, x, y, c), l[i], eq_lut(l, l[i] as int))
    })
}

/// Counting entries at most `v` counts those at most `v - 1` and those
/// equal to `v`.
proof fn lemma_count_le_step(l: Seq<u8>, v: int)
    ensures
        count_le(l, v) == (if v >= 1 { count_le(l, v - 1) } else { 0 }) + count_eq(l, v) || v < 0,
    decreases l.len(),
{
    if l.len() > 0 {
        lemma_count_le_step(l.drop_last(), v);
    }
}

proof fn lemma_count_le_bound(l: Seq<u8>, v: int)
    ensures
        count_le(l, v) <= l.len(),
        v >= 255 ==> count_le(l, v) == l.len(),
    decreases l.len(),
{
    if l.len() > 0 {
        lemma_count_le_bound(l.drop_last(), v);
    }
}

proof fn lemma_count_eq_bound(l: Seq<u8>, v: int)
    ensures
        count_eq(l, v) <= l.len(),
    decreases l.len(),
{
    if l.len() > 0 {
        lemma_count_eq_bound(l.drop_last(), v);
    }
}


/// Channel `c` rescaled from luma `old` (non-zero) to luma `new`.
fn eq_channel_exec(c: u8, old: u8, new: u8) -> (v: u8)
    requires
        old > 0,
    ensures
        v == eq_channel(c, old, new),
{
    if new == 0 {
        0
    } else {
        scaled_by_ratio_exec(c as u128, new as u128, old as u128)
    }
}

impl Image {
    /// Global histogram equalization that keeps colour: each pixel's luma
    /// is remapped through the normalized cumulative histogram (less its
    /// first non-zero value), and its channels are scaled by the ratio of
    /// new to old luma; a black pixel becomes grey at the new level.
    pub fn equalize(&self) -> (out: Image)
        requires
            self.wf(),
        ensures
            out.wf(),
            out.width == self.width,
            out.height == self.height,
            out.pixels@ == if self.width * self.height == 0 {
                self.pixels@
            } else {
                equalized(self.pixels@, self.width as int, self.height as int)
            },
    {
        let total = self.pixels.len();
        proof {
            assert(self.width * self.height * 3 == 3 * (self.width * self.height));
        }
        let n = total / 3;
        assert(n == self.width * self.height);
        if n == 0 {
            return self.duplicate();
        }
        let ghost p = self.pixels@;
        let mut l: Vec<u8> = Vec::new();
        let mut i: usize = 0;
        while i < n
            invariant
                i <= n,
                n * 3 == total,
                total == p.len(),
                p == self.pixels@,
                l@ == lumas(p, n as int).take(i as int),
            decreases n - i,
        {
            let r = self.pixels[3 * i];
            let g = self.pixels[3 * i + 1];
            let b = self.pixels[3 * i + 2];
            l.push(crate::image::luma_exec(r, g, b));
            assert(l@ =~= lumas(p, n as int).take(i + 1));
            i = i + 1;
        }
        let ghost lv = lumas(p, n as int);
        assert(l@ =~= lv);
        let mut hist: Vec<usize> = vec![0usize; 256];
        let mut i: usize = 0;
        while i < n
            invariant
                i <= n,
                l@ == lv,
                lv.len() == n,
                hist@.len() == 256,
                forall|v: int| 0 <= v < 256 ==> #[trigger] hist@[v] == count_eq(lv.take(i as int), v),
            decreases n - i,
        {
            let v = l[i] as usize;
            proof {
                assert(lv.take(i + 1).drop_last() =~= lv.take(i as int));
                lemma_count_eq_bound(lv.take(i as int), v as int);
            }
            let c = hist[v];
            hist.set(v, c + 1);
            i = i + 1;
        }
        assert(lv.take(n as int) =~= lv);
        let mut cdf: Vec<usize> = Vec::new();
        let mut running: usize = 0;
        let mut v: usize = 0;
        while v < 256
            invariant
                v <= 256,
                hist@.len() == 256,
                lv.len() == n,
                forall|u: int| 0 <= u < 256 ==> #[trigger] hist@[u] == count_eq(lv, u),
                cdf@.len() == v,
                running == if v == 0 { 0 } else { count_le(lv, v - 1) },
                forall|u: int| 0 <= u < v ==> #[trigger] cdf@[u] == count_le(lv, u),
            decreases 256 - v,
        {
            proof {
                lemma_count_le_step(lv, v as int);
                lemma_count_le_bound(lv, v as int);
            }
            running = running + hist[v];
            cdf.push(running);
            v = v + 1;
        }
        let mut cdf_min: usize = 0;
        let mut v: usize = 256;
        while v > 0
            invariant
                v <= 256,
                cdf@.len() == 256,
                forall|u: int| 0 <= u < 256 ==> #[trigger] cdf@[u] == count_le(lv, u),
                cdf_min == first_nonzero_cdf(lv, v as int),
            decreases v,
        {
            v = v - 1;
            if cdf[v] > 0 {
                cdf_min = cdf[v];
            }
        }
        proof {
            lemma_first_nonzero_bound(lv, 0);
        }
        let denom = n - cdf_min;
        let mut lut: Vec<u8> = Vec::new();
        let mut v: usize = 0;
        while v < 256
            invariant
                v <= 256,
                cdf@.len() == 256,
                lv.len() == n,
                cdf_min == first_nonzero_cdf(lv, 0),
                cdf_min <= n,
                denom == n - cdf_min,
                forall|u: int| 0 <= u < 256 ==> #[trigger] cdf@[u] == count_le(lv, u),
                lut@.len() == v,
                forall|u: int| 0 <= u < v ==> #[trigger] lut@[u] == eq_lut(lv, u),
            decreases 256 - v,
        {
            proof {
                lemma_count_le_bound(lv, v as int);
            }
            let entry: u8 = if denom > 0 {
                if cdf[v] <= cdf_min {
                    0
                } else {
                    proof {
                        assert(usize::MAX <= 0xffff_ffff_ffff_ffff);
                    }
                    scaled_by_ratio_exec(255, (cdf[v] - cdf_min) as u128, denom as u128)
                }
            } else {
                v as u8
            };
            lut.push(entry);
            v = v + 1;
        }
        let w = self.width;
        let h = self.height;
        let ghost f = |x: int, y: int, c: int| {
            let l = lumas(self.pixels@, w * h);
            let i = y * w + x;
            eq_channel(at(self.pixels@, w as int, x, y, c), l[i], eq_lut(l, l[i] as int))
        };
        let source = |x: usize, y: usize| -> (px: (u8, u8, u8))
            requires
                x < w,
                y < h,
                n == w * h,
                w == self.width,
                h == self.height,
                self.wf(),
                l@ == lumas(self.pixels@, w * h),
                lut@.len() == 256,
                forall|u: int| 0 <= u < 256 ==> #[trigger] lut@[u] == eq_lut(lumas(self.pixels@, w * h), u),
            ensures
                px.0 == f(x as int, y as int, 0) && px.1 == f(x as int, y as int, 1) && px.2 == f(x as int, y as int, 2),
            {
                proof {
                    assert(y * w + x < w * h) by (nonlinear_arith) requires x < w, y < h;
                    assert(0 <= y * w) by (nonlinear_arith);
                }
                let i = y * w + x;
                let old = l[i];
                let new = lut[old as usize];
                let (r, g, b) = self.get_pixel(x, y);
                if old == 0 {
                    (new, new, new)
                } else {
                    (eq_channel_exec(r, old, new), eq_channel_exec(g, old, new), eq_channel_exec(b, old, new))
                }
            };
        let pixels = build_image(w, h, source, Ghost(f));
        Image { width: w, height: h, pixels }
    }
}

/// The first non-zero cumulative count is at most the pixel count.
proof fn lemma_first_nonzero_bound(l: Seq<u8>, v: int)
    ensures
        first_nonzero_cdf(l, v) <= l.len(),
    decreases 256 - v,
{
    if v < 256 {
        lemma_count_le_bound(l, v);
        lemma_first_nonzero_bound(l, v + 1);
    }
}

} // verus!
