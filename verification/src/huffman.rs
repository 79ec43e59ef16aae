//! Canonical Huffman coding of bytes: the encoder builds a Huffman tree
//! from the byte frequencies, keeps only each symbol's code length, and
//! assigns canonical codes (RFC 1951 §3.2.2), so the decoder rebuilds the
//! same codes from the 256 lengths alone.

use vstd::prelude::*;
use crate::inflate::count_len;
use crate::bytes::push_all;
use vstd::arithmetic::power2::{pow2, lemma_pow2_unfold, lemma_pow2_adds, lemma_pow2_pos};
use crate::huffman_law::{kraft_ok, kraft_sum, lemma_room_is_sum, lemma_single_code_kraft, lemma_huffman_round_trip};

verus! {

/// Bit `i` of `bytes`, most significant bit of each byte first.
pub open spec fn bit_msb(bytes: Seq<u8>, i: int) -> u8 {
    (bytes[i / 8] >> ((7 - i % 8) as u8)) & 1u8
}

/// `bytes` holds the bit string `bs`, most significant bit first, with the
/// last byte padded with zeros.
pub open spec fn packs(bytes: Seq<u8>, bs: Seq<bool>) -> bool {
    &&& bytes.len() == (bs.len() + 7) / 8
    &&& forall|i: int| 0 <= i < bytes.len() * 8 ==> (#[trigger] bit_msb(bytes, i) == 1) == (i < bs.len() && bs[i])
}

/// The `len` bits of `code`, most significant first.
pub open spec fn code_bits(code: u32, len: u8) -> Seq<bool> {
    Seq::new(len as nat, |i: int| (code >> ((len - 1 - i) as u32)) & 1u32 == 1u32)
}

/// The codes of the bytes of `data`, one after another.
pub open spec fn message_bits(codes: Seq<(u32, u8)>, data: Seq<u8>) -> Seq<bool>
    decreases data.len(),
{
    if data.len() == 0 {
        seq![]
    } else {
        message_bits(codes, data.drop_last()) + code_bits(codes[data.last() as int].0, codes[data.last() as int].1)
    }
}

/// The first canonical code of length `len`: the codes of each length
/// follow on, doubled, from those of the length before (arithmetic on
/// 32-bit words).
pub open spec fn canon_base(lengths: Seq<u8>, len: nat) -> u32
    decreases len,
{
    if len <= 1 {
        0
    } else {
        let prev = canon_base(lengths, (len - 1) as nat);
        let c = if len - 1 == 0 { 0 } else { count_len(lengths, len - 1) };
        (((prev + c) % 0x1_0000_0000) as u32) << 1u32
    }
}

/// The canonical `(code, length)` of every symbol: a symbol of length `l`
/// gets the first code of that length plus the number of smaller symbols
/// of the same length; an absent symbol gets `(0, 0)`.
pub open spec fn canonical_codes_spec(lengths: Seq<u8>) -> Seq<(u32, u8)> {
    Seq::new(lengths.len(), |s: int| {
        let l = lengths[s];
        if l == 0 {
            (0u32, 0u8)
        } else {
            (((canon_base(lengths, l as nat) + count_len(lengths.take(s), l as int)) % 0x1_0000_0000) as u32, l)
        }
    })
}

/// `x + y` on 32-bit words.
fn add_wrap(x: u32, y: u32) -> (r: u32)
    ensures
        r == ((x + y) % 0x1_0000_0000) as u32,
{
    let r = x.wrapping_add(y);
    if x as u64 + y as u64 > 0xFFFF_FFFF {
        assert((x + y) % 0x1_0000_0000 == x + y - 0x1_0000_0000);
    } else {
        assert((x + y) % 0x1_0000_0000 == x + y);
    }
    r
}

/// Builds the canonical codes from a code length per symbol.
pub fn canonical_codes(lengths: &[u8; 256]) -> (codes: Vec<(u32, u8)>)
    ensures
        codes@ == canonical_codes_spec(lengths@),
{
    let mut max_len: u8 = 0;
    let mut i: usize = 0;
    while i < 256
        invariant
            i <= 256,
            forall|j: int| 0 <= j < i ==> #[trigger] lengths@[j] <= max_len,
        decreases 256 - i,
    {
        if lengths[i] > max_len {
            max_len = lengths[i];
        }
        i = i + 1;
    }
    let mut len_count: Vec<u32> = vec![0u32; max_len as usize + 1];
    let mut i: usize = 0;
    while i < 256
        invariant
            i <= 256,
            len_count@.len() == max_len + 1,
            forall|j: int| 0 <= j < 256 ==> #[trigger] lengths@[j] <= max_len,
            forall|l: int| 0 <= l <= max_len ==> #[trigger] len_count@[l] == if l == 0 { 0 } else {
                count_len(lengths@.take(i as int), l)
            },
        decreases 256 - i,
    {
        let l = lengths[i];
        proof {
            assert(lengths@.take(i + 1).drop_last() =~= lengths@.take(i as int));
            crate::inflate::lemma_count_len_le_pub(lengths@.take(i as int), l as int);
        }
        if l > 0 {
            let c = len_count[l as usize];
            len_count.set(l as usize, c + 1);
        }
        i = i + 1;
    }
    assert(lengths@.take(256) =~= lengths@);
    let mut next_code: Vec<u32> = vec![0u32; max_len as usize + 2];
    let mut code: u32 = 0;
    let mut len: usize = 1;
    while len <= max_len as usize
        invariant
            1 <= len <= max_len + 1,
            len_count@.len() == max_len + 1,
            next_code@.len() == max_len + 2,
            forall|l: int| 0 <= l <= max_len ==> #[trigger] len_count@[l] == if l == 0 { 0 } else {
                count_len(lengths@, l)
            },
            code == (if len == 1 { 0u32 } else { canon_base(lengths@, (len - 1) as nat) }),
            forall|l: int| 1 <= l < len ==> #[trigger] next_code@[l] == canon_base(lengths@, l as nat),
        decreases max_len + 1 - len,
    {
        let sum = add_wrap(code, len_count[len - 1]);
        code = sum << 1;
        proof {
            if len == 1 {
                assert(sum == 0);
                assert(0u32 << 1u32 == 0u32) by (bit_vector);
            }
        }
        next_code.set(len, code);
        len = len + 1;
    }
    let mut codes: Vec<(u32, u8)> = Vec::new();
    let mut symbol: usize = 0;
    while symbol < 256
        invariant
            symbol <= 256,
            next_code@.len() == max_len + 2,
            forall|j: int| 0 <= j < 256 ==> #[trigger] lengths@[j] <= max_len,
            forall|l: int| 1 <= l <= max_len ==> #[trigger] next_code@[l]
                == ((canon_base(lengths@, l as nat) + count_len(lengths@.take(symbol as int), l)) % 0x1_0000_0000) as u32,
            codes@ == canonical_codes_spec(lengths@).take(symbol as int),
        decreases 256 - symbol,
    {
        let l = lengths[symbol];
        proof {
            assert(lengths@.take(symbol + 1).drop_last() =~= lengths@.take(symbol as int));
        }
        if l > 0 {
            let c = next_code[l as usize];
            codes.push((c, l));
            next_code.set(l as usize, add_wrap(c, 1));
        } else {
            codes.push((0, 0));
        }
        assert(codes@ =~= canonical_codes_spec(lengths@).take(symbol + 1));
        symbol = symbol + 1;
    }
    assert(codes@ =~= canonical_codes_spec(lengths@));
    codes
}

/// Setting bit `7 - r` of a byte leaves its other bits alone.
proof fn lemma_set_bit(b: u8, r: u8, j: u8)
    requires
        r < 8,
        j < 8,
    ensures
        ((b | (1u8 << ((7 - r) as u8))) >> ((7 - j) as u8)) & 1u8 == if j == r { 1u8 } else { (b >> ((7 - j) as u8)) & 1u8 },
{
    assert(((b | (1u8 << ((7 - r) as u8))) >> ((7 - j) as u8)) & 1u8 == if j == r { 1u8 } else { (b >> ((7 - j) as u8)) & 1u8 }) by (bit_vector)
        requires r < 8, j < 8;
}

/// A zero byte has no bits set.
proof fn lemma_zero_bits(j: u8)
    requires
        j < 8,
    ensures
        (0u8 >> ((7 - j) as u8)) & 1u8 == 0,
{
    assert((0u8 >> ((7 - j) as u8)) & 1u8 == 0) by (bit_vector);
}

/// Appends one bit to the packed bit string.
fn push_bit(out: &mut Vec<u8>, bitpos: &mut usize, bit: bool, Ghost(bs): Ghost<Seq<bool>>)
    requires
        packs(old(out)@, bs),
        *old(bitpos) == bs.len(),
        bs.len() < usize::MAX,
    ensures
        packs(final(out)@, bs.push(bit)),
        *final(bitpos) == bs.len() + 1,
{
    let p = *bitpos;
    let byte_idx = p / 8;
    let r = (p % 8) as u8;
    let ghost before = out@;
    if byte_idx == out.len() {
        out.push(0);
    }
    let ghost mid = out@;
    assert(mid.len() == (bs.len() + 8) / 8);
    assert forall|i: int| 0 <= i < mid.len() * 8 implies (#[trigger] bit_msb(mid, i) == 1) == (i < bs.len() && bs[i]) by {
        if i / 8 < before.len() {
            assert(mid[i / 8] == before[i / 8]);
            assert(bit_msb(mid, i) == bit_msb(before, i));
        } else {
            assert(mid[i / 8] == 0);
            lemma_zero_bits((i % 8) as u8);
            assert(bit_msb(mid, i) == 0);
            assert(i >= bs.len());
        }
    }
    if bit {
        let v = out[byte_idx] | (1u8 << (7 - r));
        out.set(byte_idx, v);
    }
    proof {
        let bs2 = bs.push(bit);
        assert(out@.len() == mid.len());
        assert(mid.len() == (bs2.len() + 7) / 8);
        assert forall|i: int| 0 <= i < out@.len() * 8 implies (#[trigger] bit_msb(out@, i) == 1) == (i < bs2.len() && bs2[i]) by {
            assert(bit_msb(mid, i) == 1 <==> (i < bs.len() && bs[i]));
            if i / 8 == byte_idx {
                if bit {
                    lemma_set_bit(mid[i / 8], r, (i % 8) as u8);
                    assert(bit_msb(out@, i) == if i == p { 1u8 } else { bit_msb(mid, i) });
                } else {
                    assert(out@ == mid);
                }
            } else {
                assert(out@[i / 8] == mid[i / 8]);
                assert(bit_msb(out@, i) == bit_msb(mid, i));
            }
            if i == p {
                assert(i >= bs.len());
            }
        }
    }
    *bitpos = p + 1;
}

/// Appends `code`'s `len` bits, most significant first.
fn push_bits(out: &mut Vec<u8>, bitpos: &mut usize, code: u32, len: u8, Ghost(bs): Ghost<Seq<bool>>)
    requires
        packs(old(out)@, bs),
        *old(bitpos) == bs.len(),
        len <= 32,
        bs.len() + len < usize::MAX,
    ensures
        packs(final(out)@, bs + code_bits(code, len)),
        *final(bitpos) == bs.len() + len,
{
    let mut k: u8 = 0;
    while k < len
        invariant
            k <= len <= 32,
            bs.len() + len < usize::MAX,
            packs(out@, bs + code_bits(code, len).take(k as int)),
            *bitpos == bs.len() + k,
        decreases len - k,
    {
        let i = len - 1 - k;
        let bit = (code >> (i as u32)) & 1 == 1;
        let ghost cur = bs + code_bits(code, len).take(k as int);
        push_bit(out, bitpos, bit, Ghost(cur));
        assert(cur.push(bit) =~= bs + code_bits(code, len).take(k + 1));
        k = k + 1;
    }
    assert(code_bits(code, len).take(len as int) =~= code_bits(code, len));
}

/// The result of [`encode`]: the code length of every byte value (0 for
/// values that do not occur), the packed code bits, how many of them are
/// data, and how many bytes were encoded.
pub struct Encoded {
    pub lengths: [u8; 256],
    pub bits: Vec<u8>,
    pub bit_len: usize,
    pub symbol_count: usize,
}

/// How many times byte value `b` occurs in `s`.
pub open spec fn occurrences(s: Seq<u8>, b: int) -> nat
    decreases s.len(),
{
    if s.len() == 0 { 0 } else { occurrences(s.drop_last(), b) + if s.last() == b { 1nat } else { 0nat } }
}

/// Total frequency of a forest of partial trees.
spec fn sum_freq(s: Seq<(u128, Vec<u8>)>) -> int
    decreases s.len(),
{
    if s.len() == 0 { 0 } else { sum_freq(s.drop_last()) + s.last().0 }
}

/// Total number of leaves of a forest of partial trees.
spec fn sum_leaves(s: Seq<(u128, Vec<u8>)>) -> int
    decreases s.len(),
{
    if s.len() == 0 { 0 } else { sum_leaves(s.drop_last()) + s.last().1@.len() }
}

proof fn lemma_sums_nonneg(s: Seq<(u128, Vec<u8>)>)
    ensures
        sum_freq(s) >= 0,
        sum_leaves(s) >= 0,
    decreases s.len(),
{
    if s.len() > 0 {
        lemma_sums_nonneg(s.drop_last());
    }
}

/// Taking a tree out of the forest takes its frequency and leaves out of
/// the totals.
proof fn lemma_sums_remove(s: Seq<(u128, Vec<u8>)>, i: int)
    requires
        0 <= i < s.len(),
    ensures
        sum_freq(s.remove(i)) == sum_freq(s) - s[i].0,
        sum_leaves(s.remove(i)) == sum_leaves(s) - s[i].1@.len(),
    decreases s.len(),
{
    if i == s.len() - 1 {
        assert(s.remove(i) =~= s.drop_last());
    } else {
        lemma_sums_remove(s.drop_last(), i);
        let t = s.drop_last().remove(i).push(s.last());
        assert(s.remove(i) =~= t);
        assert(t.drop_last() =~= s.drop_last().remove(i));
        assert(t.last() == s.last());
        assert(s.drop_last()[i] == s[i]);
    }
}


/// The weight of the leaves `ms` at depths `depth`: a leaf at depth `d`
/// weighs `2^(256 - d)`, so a whole tree weighs `2^256`.
spec fn wsum(depth: Seq<u16>, ms: Seq<u8>) -> int
    decreases ms.len(),
{
    if ms.len() == 0 { 0 } else { wsum(depth, ms.drop_last()) + pow2((256 - depth[ms.last() as int]) as nat) as int }
}

proof fn lemma_wsum_same(d1: Seq<u16>, d2: Seq<u16>, ms: Seq<u8>)
    requires
        forall|m: int| 0 <= m < ms.len() ==> d1[#[trigger] ms[m] as int] == d2[ms[m] as int],
    ensures
        wsum(d1, ms) == wsum(d2, ms),
    decreases ms.len(),
{
    if ms.len() > 0 {
        lemma_wsum_same(d1, d2, ms.drop_last());
        assert(d1[ms[ms.len() - 1] as int] == d2[ms[ms.len() - 1] as int]);
    }
}

proof fn lemma_wsum_append(d: Seq<u16>, a: Seq<u8>, b: Seq<u8>)
    ensures
        wsum(d, a + b) == wsum(d, a) + wsum(d, b),
    decreases b.len(),
{
    if b.len() == 0 {
        assert(a + b =~= a);
    } else {
        lemma_wsum_append(d, a, b.drop_last());
        assert((a + b).drop_last() =~= a + b.drop_last());
    }
}

proof fn lemma_wsum_half(d1: Seq<u16>, d2: Seq<u16>, ms: Seq<u8>)
    requires
        forall|m: int| 0 <= m < ms.len() ==> d2[#[trigger] ms[m] as int] == d1[ms[m] as int] + 1 && d1[ms[m] as int] <= 255,
    ensures
        2 * wsum(d2, ms) == wsum(d1, ms),
    decreases ms.len(),
{
    if ms.len() > 0 {
        lemma_wsum_half(d1, d2, ms.drop_last());
        let x = ms[ms.len() - 1] as int;
        assert(d2[x] == d1[x] + 1 && d1[x] <= 255);
        lemma_pow2_unfold((256 - d1[x]) as nat);
    }
}

/// No leaf occurs twice anywhere in the forest.
spec fn forest_distinct(nodes: Seq<(u128, Vec<u8>)>) -> bool {
    forall|k1: int, m1: int, k2: int, m2: int|
        0 <= k1 < nodes.len() && 0 <= m1 < nodes[k1].1@.len() && 0 <= k2 < nodes.len() && 0 <= m2 < nodes[k2].1@.len()
            && #[trigger] nodes[k1].1@[m1] == #[trigger] nodes[k2].1@[m2] ==> k1 == k2 && m1 == m2
}

/// Index `k` of a forest after removing index `r`, in the forest before.
spec fn before_removal(r: int, k: int) -> int {
    if k < r { k } else { k + 1 }
}

/// Where leaf `m` of tree `k` of the forest after a merge was before it.
spec fn merge_origin(n0len: int, i: int, j: int, alen: int, k: int, m: int) -> (int, int) {
    if k == n0len - 2 {
        if m < alen { (i, m) } else { (before_removal(i, j), m - alen) }
    } else {
        (before_removal(i, before_removal(j, k)), m)
    }
}

/// Joining the trees at `i` and then `j` keeps every leaf distinct.
proof fn lemma_merge_distinct(n0: Seq<(u128, Vec<u8>)>, i: int, j: int, new: Seq<(u128, Vec<u8>)>)
    requires
        forest_distinct(n0),
        0 <= i < n0.len(),
        0 <= j < n0.len() - 1,
        new.len() == n0.len() - 1,
        forall|k: int| 0 <= k < new.len() - 1 ==> #[trigger] new[k] == n0.remove(i).remove(j)[k],
        new[new.len() - 1].1@ == n0[i].1@ + n0.remove(i)[j].1@,
    ensures
        forest_distinct(new),
        forall|k: int, m: int| 0 <= k < new.len() && 0 <= m < new[k].1@.len() ==> {
            let o = merge_origin(n0.len() as int, i, j, n0[i].1@.len() as int, k, m);
            &&& 0 <= o.0 < n0.len()
            &&& 0 <= o.1 < n0[o.0].1@.len()
            &&& #[trigger] new[k].1@[m] == n0[o.0].1@[o.1]
        },
{
    let n1 = n0.remove(i);
    let n2 = n1.remove(j);
    let alen = n0[i].1@.len() as int;
    assert forall|k: int, m: int| 0 <= k < new.len() && 0 <= m < new[k].1@.len() implies {
        let o = merge_origin(n0.len() as int, i, j, alen, k, m);
        &&& 0 <= o.0 < n0.len()
        &&& 0 <= o.1 < n0[o.0].1@.len()
        &&& #[trigger] new[k].1@[m] == n0[o.0].1@[o.1]
    } by {
        if k == new.len() - 1 {
            if m >= alen {
                assert(n1[j] == n0[before_removal(i, j)]);
            }
        } else {
            assert(new[k] == n2[k]);
            assert(n2[k] == n1[before_removal(j, k)]);
            assert(n1[before_removal(j, k)] == n0[before_removal(i, before_removal(j, k))]);
        }
    }
    assert forall|k1: int, m1: int, k2: int, m2: int|
        0 <= k1 < new.len() && 0 <= m1 < new[k1].1@.len() && 0 <= k2 < new.len() && 0 <= m2 < new[k2].1@.len()
            && #[trigger] new[k1].1@[m1] == #[trigger] new[k2].1@[m2] implies k1 == k2 && m1 == m2 by {
        let o1 = merge_origin(n0.len() as int, i, j, alen, k1, m1);
        let o2 = merge_origin(n0.len() as int, i, j, alen, k2, m2);
        assert(n0[o1.0].1@[o1.1] == n0[o2.0].1@[o2.1]);
    }
}


/// Joining two trees of weight `2^256`, with every leaf of the joined tree
/// one deeper and every other leaf where it was, leaves every tree of
/// weight `2^256`.
proof fn lemma_merge_weights(n0: Seq<(u128, Vec<u8>)>, i: int, j: int, new: Seq<(u128, Vec<u8>)>,
    d0: Seq<u16>, d1: Seq<u16>, members: Seq<u8>)
    requires
        forest_distinct(n0),
        0 <= i < n0.len(),
        0 <= j < n0.len() - 1,
        new.len() == n0.len() - 1,
        forall|k: int| 0 <= k < new.len() - 1 ==> #[trigger] new[k] == n0.remove(i).remove(j)[k],
        new[new.len() - 1].1@ == members,
        members == n0[i].1@ + n0.remove(i)[j].1@,
        forall|kk: int| 0 <= kk < n0.len() ==> #[trigger] wsum(d0, n0[kk].1@) == pow2(256),
        d0.len() == 256,
        d1.len() == 256,
        forall|s: int| 0 <= s < 256 ==> #[trigger] d1[s] == d0[s] + (if members.contains(s as u8) { 1int } else { 0int }),
        forall|s: int| 0 <= s < 256 ==> #[trigger] d0[s] <= 254,
    ensures
        forall|kk: int| 0 <= kk < new.len() ==> #[trigger] wsum(d1, new[kk].1@) == pow2(256),
{
    lemma_merge_distinct(n0, i, j, new);
    let last = new.len() - 1;
    let a = n0[i].1@;
    let jb = before_removal(i, j);
    let b = n0.remove(i)[j].1@;
    assert(n0.remove(i)[j] == n0[jb]);
    assert forall|kk: int| 0 <= kk < new.len() implies #[trigger] wsum(d1, new[kk].1@) == pow2(256) by {
        if kk < last {
            let o = before_removal(i, before_removal(j, kk));
            assert(new[kk] == n0[o]);
            assert forall|m: int| 0 <= m < new[kk].1@.len() implies d0[#[trigger] new[kk].1@[m] as int] == d1[new[kk].1@[m] as int] by {
                let e = new[kk].1@[m];
                if members.contains(e) {
                    let m2 = choose|m2: int| 0 <= m2 < members.len() && members[m2] == e;
                    assert(new[last].1@[m2] == new[kk].1@[m]);
                }
            }
            lemma_wsum_same(d0, d1, new[kk].1@);
        } else {
            assert forall|m: int| 0 <= m < a.len() implies d1[#[trigger] a[m] as int] == d0[a[m] as int] + 1 && d0[a[m] as int] <= 255 by {
                assert(members[m] == a[m]);
            }
            assert forall|m: int| 0 <= m < b.len() implies d1[#[trigger] b[m] as int] == d0[b[m] as int] + 1 && d0[b[m] as int] <= 255 by {
                assert(members[a.len() + m] == b[m]);
            }
            lemma_wsum_half(d0, d1, a);
            lemma_wsum_half(d0, d1, b);
            lemma_wsum_append(d1, a, b);
        }
    }
}


/// The sum of the first `k` counts.
spec fn freq_total(f: Seq<u64>, k: int) -> int
    decreases k,
{
    if k <= 0 { 0 } else { freq_total(f, k - 1) + f[k - 1] }
}

/// The sum of the counts of the listed values.
spec fn dist_total(f: Seq<u64>, d: Seq<u8>) -> int
    decreases d.len(),
{
    if d.len() == 0 { 0 } else { dist_total(f, d.drop_last()) + f[d.last() as int] }
}

proof fn lemma_total_update(f: Seq<u64>, b: int, v: u64, k: int)
    requires
        0 <= b < f.len(),
        0 <= k <= f.len(),
    ensures
        freq_total(f.update(b, v), k) == freq_total(f, k) + (if b < k { v - f[b] } else { 0 }),
    decreases k,
{
    if k > 0 {
        lemma_total_update(f, b, v, k - 1);
    }
}

proof fn lemma_total_zero(f: Seq<u64>, k: int)
    requires
        0 <= k <= f.len(),
        forall|x: int| 0 <= x < k ==> #[trigger] f[x] == 0,
    ensures
        freq_total(f, k) == 0,
    decreases k,
{
    if k > 0 {
        lemma_total_zero(f, k - 1);
    }
}

/// `fib(35)` is past `2^21`.
proof fn lemma_fib_35()
    ensures
        fib(35) > 0x20_0000,
{
    assert(fib(0) == 0);
    assert(fib(1) == 1);
    assert(fib(2) == 1);
    assert(fib(3) == 2);
    assert(fib(4) == 3);
    assert(fib(5) == 5);
    assert(fib(6) == 8);
    assert(fib(7) == 13);
    assert(fib(8) == 21);
    assert(fib(9) == 34);
    assert(fib(10) == 55);
    assert(fib(11) == 89);
    assert(fib(12) == 144);
    assert(fib(13) == 233);
    assert(fib(14) == 377);
    assert(fib(15) == 610);
    assert(fib(16) == 987);
    assert(fib(17) == 1597);
    assert(fib(18) == 2584);
    assert(fib(19) == 4181);
    assert(fib(20) == 6765);
    assert(fib(21) == 10946);
    assert(fib(22) == 17711);
    assert(fib(23) == 28657);
    assert(fib(24) == 46368);
    assert(fib(25) == 75025);
    assert(fib(26) == 121393);
    assert(fib(27) == 196418);
    assert(fib(28) == 317811);
    assert(fib(29) == 514229);
    assert(fib(30) == 832040);
    assert(fib(31) == 1346269);
    assert(fib(32) == 2178309);
    assert(fib(33) == 3524578);
    assert(fib(34) == 5702887);
    assert(fib(35) == 9227465);
}

/// The Fibonacci numbers, `fib(1) == fib(2) == 1`.
pub open spec fn fib(n: nat) -> nat
    decreases n,
{
    if n == 0 {
        0
    } else if n == 1 {
        1
    } else {
        fib((n - 1) as nat) + fib((n - 2) as nat)
    }
}

proof fn lemma_fib_mono(a: nat, b: nat)
    requires
        a <= b,
    ensures
        fib(a) <= fib(b),
    decreases b,
{
    if a < b {
        lemma_fib_mono(a, (b - 1) as nat);
        if b >= 2 {
            assert(fib(b) == fib((b - 1) as nat) + fib((b - 2) as nat));
        }
    }
}

/// The forest's trees, in the order of `h`, against their heights: a tree
/// of height `t` weighs at least `fib(t + 2)`, and every other tree at
/// least `fib(t + 1)`. (Joining the two lightest trees keeps this, which
/// is what bounds a Huffman code's length by the input's size.)
spec fn fib_ok(nodes: Seq<(u128, Vec<u8>)>, h: Seq<int>) -> bool {
    &&& h.len() == nodes.len()
    &&& forall|k: int| 0 <= k < nodes.len() ==> 0 <= #[trigger] h[k] && nodes[k].0 >= fib((h[k] + 2) as nat)
    &&& forall|k: int, l: int| 0 <= k < nodes.len() && 0 <= l < nodes.len() && k != l
        ==> (#[trigger] nodes[l]).0 >= fib((#[trigger] h[k] + 1) as nat)
}

/// Every leaf of tree `k` lies at most `h[k]` deep.
spec fn heights_ok(nodes: Seq<(u128, Vec<u8>)>, h: Seq<int>, depth: Seq<u16>) -> bool {
    forall|k: int, m: int| 0 <= k < nodes.len() && 0 <= m < nodes[k].1@.len()
        ==> depth[#[trigger] nodes[k].1@[m] as int] <= h[k]
}

/// Joining the lightest tree `i` with the lightest `j` of the rest keeps
/// `fib_ok`, the joined tree one taller than the taller of the two.
proof fn lemma_fib_step(n0: Seq<(u128, Vec<u8>)>, h0: Seq<int>, i: int, j: int, new: Seq<(u128, Vec<u8>)>)
    requires
        fib_ok(n0, h0),
        0 <= i < n0.len(),
        0 <= j < n0.len() - 1,
        forall|k: int| 0 <= k < n0.len() ==> n0[i].0 <= #[trigger] n0[k].0,
        forall|k: int| 0 <= k < n0.len() - 1 ==> n0.remove(i)[j].0 <= #[trigger] n0.remove(i)[k].0,
        new.len() == n0.len() - 1,
        forall|k: int| 0 <= k < new.len() - 1 ==> #[trigger] new[k] == n0.remove(i).remove(j)[k],
        new[new.len() - 1].0 == n0[i].0 + n0.remove(i)[j].0,
    ensures
        fib_ok(new, h0.remove(i).remove(j).push(
            (if h0[i] >= h0.remove(i)[j] { h0[i] } else { h0.remove(i)[j] }) + 1)),
{
    let jb = before_removal(i, j);
    assert(n0.remove(i)[j] == n0[jb]);
    assert(h0.remove(i)[j] == h0[jb]);
    let ha = h0[i];
    let hb = h0[jb];
    let t = if ha >= hb { ha } else { hb };
    let h = h0.remove(i).remove(j).push(t + 1);
    let wa = n0[i].0 as int;
    let wb = n0[jb].0 as int;
    let last = new.len() - 1;
    assert(fib((t + 3) as nat) == fib((t + 2) as nat) + fib((t + 1) as nat));
    if ha >= hb {
        assert(n0[i].0 >= fib((ha + 2) as nat));
        assert(n0[jb].0 >= fib((ha + 1) as nat));
    } else {
        assert(n0[jb].0 >= fib((hb + 2) as nat));
        assert(n0[i].0 >= fib((hb + 1) as nat));
    }
    assert forall|k: int| 0 <= k < new.len() implies 0 <= #[trigger] h[k] && new[k].0 >= fib((h[k] + 2) as nat) by {
        if k < last {
            let o = before_removal(i, before_removal(j, k));
            assert(new[k] == n0[o]);
            assert(h[k] == h0[o]);
        }
    }
    assert forall|k: int, l: int| 0 <= k < new.len() && 0 <= l < new.len() && k != l
        implies (#[trigger] new[l]).0 >= fib((#[trigger] h[k] + 1) as nat) by {
        if k < last && l < last {
            let ok = before_removal(i, before_removal(j, k));
            let ol = before_removal(i, before_removal(j, l));
            assert(new[k] == n0[ok] && new[l] == n0[ol] && h[k] == h0[ok]);
        } else if k < last {
            let ok = before_removal(i, before_removal(j, k));
            assert(h[k] == h0[ok]);
            assert(ok != i);
            assert(n0[i].0 >= fib((h0[ok] + 1) as nat));
        } else {
            let ol = before_removal(i, before_removal(j, l));
            assert(new[l] == n0[ol]);
            assert(ol != i && ol != jb);
            assert(n0.remove(i)[before_removal(j, l)] == n0[ol]);
            assert(n0[ol].0 >= n0[i].0 && n0[ol].0 >= n0[jb].0);
            lemma_fib_mono((ha + 2) as nat, (t + 2) as nat);
            lemma_fib_mono((hb + 2) as nat, (t + 2) as nat);
            assert(n0[i].0 >= fib((ha + 2) as nat));
            assert(n0[jb].0 >= fib((hb + 2) as nat));
        }
    }
}

/// Joining trees `i` and `j`, every leaf of the joined tree one deeper and
/// every other leaf where it was, keeps each leaf within its tree's height.
proof fn lemma_merge_heights(n0: Seq<(u128, Vec<u8>)>, h0: Seq<int>, i: int, j: int, new: Seq<(u128, Vec<u8>)>,
    d0: Seq<u16>, d1: Seq<u16>, members: Seq<u8>)
    requires
        forest_distinct(n0),
        heights_ok(n0, h0, d0),
        h0.len() == n0.len(),
        0 <= i < n0.len(),
        0 <= j < n0.len() - 1,
        new.len() == n0.len() - 1,
        forall|k: int| 0 <= k < new.len() - 1 ==> #[trigger] new[k] == n0.remove(i).remove(j)[k],
        new[new.len() - 1].1@ == members,
        members == n0[i].1@ + n0.remove(i)[j].1@,
        d0.len() == 256,
        d1.len() == 256,
        forall|s: int| 0 <= s < 256 ==> #[trigger] d1[s] == d0[s] + (if members.contains(s as u8) { 1int } else { 0int }),
    ensures
        heights_ok(new, h0.remove(i).remove(j).push(
            (if h0[i] >= h0.remove(i)[j] { h0[i] } else { h0.remove(i)[j] }) + 1), d1),
{
    lemma_merge_distinct(n0, i, j, new);
    let jb = before_removal(i, j);
    assert(n0.remove(i)[j] == n0[jb]);
    assert(h0.remove(i)[j] == h0[jb]);
    let t = if h0[i] >= h0[jb] { h0[i] } else { h0[jb] };
    let h = h0.remove(i).remove(j).push(t + 1);
    let last = new.len() - 1;
    let a = n0[i].1@;
    let b = n0[jb].1@;
    assert forall|k: int, m: int| 0 <= k < new.len() && 0 <= m < new[k].1@.len()
        implies d1[#[trigger] new[k].1@[m] as int] <= h[k] by {
        let e = new[k].1@[m];
        if k < last {
            let o = before_removal(i, before_removal(j, k));
            assert(new[k] == n0[o]);
            assert(h[k] == h0[o]);
            assert(d0[n0[o].1@[m] as int] <= h0[o]);
            if members.contains(e) {
                let m2 = choose|m2: int| 0 <= m2 < members.len() && members[m2] == e;
                assert(new[last].1@[m2] == new[k].1@[m]);
            }
        } else {
            if m < a.len() {
                assert(members[m] == a[m]);
                assert(d0[n0[i].1@[m] as int] <= h0[i]);
                assert(members.contains(e));
            } else {
                assert(members[m] == b[m - a.len()]);
                assert(d0[n0[jb].1@[m - a.len()] as int] <= h0[jb]);
                assert(members.contains(e));
            }
        }
    }
}

/// The weight of the byte values `s < n` that `present` picks, a value at
/// depth `d` weighing `2^(256 - d)`.
spec fn present_weight(depth: Seq<u16>, present: spec_fn(int) -> bool, n: int) -> int
    decreases n,
{
    if n <= 0 {
        0
    } else {
        present_weight(depth, present, n - 1) + if present(n - 1) { pow2((256 - depth[n - 1]) as nat) as int } else { 0 }
    }
}

proof fn lemma_present_split(depth: Seq<u16>, present: spec_fn(int) -> bool, x: int, n: int)
    requires
        0 <= x < n,
        present(x),
    ensures
        present_weight(depth, present, n)
            == present_weight(depth, |s: int| present(s) && s != x, n) + pow2((256 - depth[x]) as nat) as int,
    decreases n,
{
    if n - 1 > x {
        lemma_present_split(depth, present, x, n - 1);
    } else {
        lemma_present_same(depth, present, |s: int| present(s) && s != x, n - 1);
    }
}

proof fn lemma_present_same(depth: Seq<u16>, p: spec_fn(int) -> bool, q: spec_fn(int) -> bool, n: int)
    requires
        forall|s: int| 0 <= s < n ==> #[trigger] p(s) == q(s),
    ensures
        present_weight(depth, p, n) == present_weight(depth, q, n),
    decreases n,
{
    if n > 0 {
        lemma_present_same(depth, p, q, n - 1);
    }
}

proof fn lemma_present_none(depth: Seq<u16>, p: spec_fn(int) -> bool, n: int)
    requires
        forall|s: int| 0 <= s < n ==> !#[trigger] p(s),
    ensures
        present_weight(depth, p, n) == 0,
    decreases n,
{
    if n > 0 {
        lemma_present_none(depth, p, n - 1);
    }
}

/// The weight of a list of distinct leaves is that of the set of values it
/// lists.
proof fn lemma_leaves_weight(depth: Seq<u16>, ms: Seq<u8>, present: spec_fn(int) -> bool)
    requires
        forall|m1: int, m2: int| 0 <= m1 < ms.len() && 0 <= m2 < ms.len() && m1 != m2 ==> #[trigger] ms[m1] != #[trigger] ms[m2],
        forall|m: int| 0 <= m < ms.len() ==> present(#[trigger] ms[m] as int),
        forall|s: int| 0 <= s < 256 && #[trigger] present(s) ==> ms.contains(s as u8),
    ensures
        wsum(depth, ms) == present_weight(depth, present, 256),
    decreases ms.len(),
{
    if ms.len() == 0 {
        lemma_present_none(depth, present, 256);
    } else {
        let x = ms.last() as int;
        let rest = ms.drop_last();
        let p2 = |s: int| present(s) && s != x;
        assert forall|s: int| 0 <= s < 256 && #[trigger] p2(s) implies rest.contains(s as u8) by {
            let m = choose|m: int| 0 <= m < ms.len() && ms[m] == s as u8;
            assert(m != ms.len() - 1);
            assert(rest[m] == s as u8);
        }
        assert forall|m: int| 0 <= m < rest.len() implies p2(#[trigger] rest[m] as int) by {
            assert(ms[m] != ms[ms.len() - 1]);
        }
        lemma_leaves_weight(depth, rest, p2);
        assert(present(ms[ms.len() - 1] as int));
        lemma_present_split(depth, present, x, 256);
    }
}

/// The present values' weight is `2^224` times the Kraft sum of their
/// code lengths.
proof fn lemma_weight_is_kraft(depth: Seq<u16>, freq: Seq<u64>, lengths: Seq<u8>, n: int)
    requires
        0 <= n <= 256,
        depth.len() == 256,
        freq.len() == 256,
        lengths.len() == 256,
        forall|x: int| 0 <= x < 256 ==> #[trigger] lengths[x] == if freq[x] > 0 { depth[x] as int } else { 0 },
        forall|x: int| 0 <= x < 256 && freq[x] > 0 ==> 1 <= #[trigger] depth[x] <= 32,
    ensures
        present_weight(depth, |s: int| freq[s] > 0, n) == pow2(224) * kraft_sum(lengths.take(n), 32),
    decreases n,
{
    if n > 0 {
        lemma_weight_is_kraft(depth, freq, lengths, n - 1);
        assert(lengths.take(n).drop_last() =~= lengths.take(n - 1));
        let x = n - 1;
        if freq[x] > 0 {
            lemma_pow2_adds(224, (32 - depth[x]) as nat);
            assert(224 + (32 - depth[x]) == 256 - depth[x]);
        }
        let kn = kraft_sum(lengths.take(n), 32);
        let km = kraft_sum(lengths.take(n - 1), 32);
        let tm = if 1 <= lengths[x] <= 32 { pow2((32 - lengths[x]) as nat) as int } else { 0 };
        assert(lengths.take(n).last() == lengths[x]);
        assert(kn == km + tm);
        let p = pow2(224) as int;
        assert(p * kn == p * km + p * tm) by (nonlinear_arith)
            requires
                kn == km + tm,
        ;
    } else {
        assert(lengths.take(0) =~= Seq::<u8>::empty());
    }
}

/// The index of a lowest-frequency tree.
fn lightest(nodes: &Vec<(u128, Vec<u8>)>) -> (r: usize)
    requires
        nodes@.len() >= 1,
    ensures
        r < nodes@.len(),
        forall|k: int| 0 <= k < nodes@.len() ==> nodes@[r as int].0 <= #[trigger] nodes@[k].0,
{
    let mut best: usize = 0;
    let mut k: usize = 1;
    while k < nodes.len()
        invariant
            1 <= k <= nodes@.len(),
            best < k,
            forall|j: int| 0 <= j < k ==> nodes@[best as int].0 <= #[trigger] nodes@[j].0,
        decreases nodes@.len() - k,
    {
        if nodes[k].0 < nodes[best].0 {
            best = k;
        }
        k = k + 1;
    }
    best
}

/// `s` is one of the leaves of the forest.
spec fn in_forest(nodes: Seq<(u128, Vec<u8>)>, s: int) -> bool {
    exists|k: int, m: int| 0 <= k < nodes.len() && 0 <= m < nodes[k].1@.len() && #[trigger] nodes[k].1@[m] == s
}

/// Every leaf of a tree that has been joined at least once is at depth 1
/// or more.
spec fn depths_ok(nodes: Seq<(u128, Vec<u8>)>, depth: Seq<u16>) -> bool {
    forall|k: int, m: int| 0 <= k < nodes.len() && 0 <= m < nodes[k].1@.len()
        ==> depth[#[trigger] nodes[k].1@[m] as int] >= 1 || nodes[k].1@.len() == 1
}

/// The code length of each byte value: its depth in a Huffman tree built
/// by repeatedly joining the two lightest trees, starting from one leaf per
/// value in `distinct`. `None` when some depth exceeds 32.
#[verifier::rlimit(60)]
fn tree_depths(freq: &Vec<u64>, distinct: &Vec<u8>) -> (r: Option<Vec<u8>>)
    requires
        freq@.len() == 256,
        2 <= distinct@.len() <= 256,
        forall|a: int, b: int| 0 <= a < b < distinct@.len() ==> #[trigger] distinct@[a] < #[trigger] distinct@[b],
        forall|s: int| 0 <= s < 256 ==> (#[trigger] freq@[s] > 0) == distinct@.contains(s as u8),
    ensures
        r matches Some(l) ==> l@.len() == 256 && forall|s: int| 0 <= s < 256 ==> (#[trigger] l@[s] > 0) == (freq@[s] > 0)
            && l@[s] <= 32,
        r matches Some(l) ==> kraft_ok(l@),
        r matches Some(l) ==> kraft_sum(l@, 32) == pow2(32),
        dist_total(freq@, distinct@) < 0x20_0000 ==> r is Some,
{
    let ghost total = dist_total(freq@, distinct@);
    let nd = distinct.len();
    let mut nodes: Vec<(u128, Vec<u8>)> = Vec::new();
    let mut k: usize = 0;
    while k < nd
        invariant
            k <= nd,
            nd == distinct@.len(),
            nd <= 256,
            freq@.len() == 256,
            nodes@.len() == k,
            sum_freq(nodes@) <= k * 0x1_0000_0000_0000_0000,
            sum_leaves(nodes@) == k,
            sum_freq(nodes@) == dist_total(freq@, distinct@.take(k as int)),
            forall|j: int| 0 <= j < k ==> (#[trigger] nodes@[j]).1@ == seq![distinct@[j]],
            forall|j: int| 0 <= j < k ==> (#[trigger] nodes@[j]).0 == freq@[distinct@[j] as int],
        decreases nd - k,
    {
        let d = distinct[k];
        let ghost before = nodes@;
        nodes.push((freq[d as usize] as u128, vec![d]));
        assert(nodes@.drop_last() =~= before);
        assert(distinct@.take(k + 1).drop_last() =~= distinct@.take(k as int));
        k = k + 1;
    }
    let mut depth: Vec<u16> = vec![0u16; 256];
    let ghost mut hts: Seq<int> = Seq::new(nd as nat, |k: int| 0int);
    proof {
        assert(distinct@.take(nd as int) =~= distinct@);
        assert(fib(2) == 1 && fib(1) == 1) by {
            reveal_with_fuel(fib, 3);
        }
        assert forall|k: int| 0 <= k < nodes@.len() implies nodes@[k].0 >= 1 by {
            assert(distinct@.contains(distinct@[k]));
        }
        assert(fib_ok(nodes@, hts));
        assert(heights_ok(nodes@, hts, depth@));
        assert forall|s: int| 0 <= s < 256 implies (#[trigger] freq@[s] > 0) == in_forest(nodes@, s) by {
            if freq@[s] > 0 {
                let j = distinct@.index_of(s as u8);
                assert(nodes@[j].1@[0] == s);
            }
            if in_forest(nodes@, s) {
                let (kk, mm) = choose|kk: int, mm: int| 0 <= kk < nodes@.len() && 0 <= mm < nodes@[kk].1@.len() && #[trigger] nodes@[kk].1@[mm] == s;
                assert(nodes@[kk].1@ == seq![distinct@[kk]]);
                assert(distinct@.contains(s as u8));
            }
        }
        assert forall|k1: int, m1: int, k2: int, m2: int|
            0 <= k1 < nodes@.len() && 0 <= m1 < nodes@[k1].1@.len() && 0 <= k2 < nodes@.len() && 0 <= m2 < nodes@[k2].1@.len()
                && #[trigger] nodes@[k1].1@[m1] == #[trigger] nodes@[k2].1@[m2] implies k1 == k2 && m1 == m2 by {
            assert(nodes@[k1].1@ == seq![distinct@[k1]]);
            assert(nodes@[k2].1@ == seq![distinct@[k2]]);
        }
        assert forall|kk: int| 0 <= kk < nodes@.len() implies #[trigger] wsum(depth@, nodes@[kk].1@) == pow2(256) by {
            let ms = nodes@[kk].1@;
            assert(ms == seq![distinct@[kk]]);
            assert(ms.drop_last() =~= Seq::<u8>::empty());
            assert(depth@[distinct@[kk] as int] == 0);
            assert(wsum(depth@, Seq::<u8>::empty()) == 0);
            assert(ms.last() == distinct@[kk]);
        }
    }
    let ghost mut merges: int = 0;
    while nodes.len() > 1
        invariant
            1 <= nodes@.len() <= nd,
            nd == distinct@.len(),
            2 <= nd <= 256,
            freq@.len() == 256,
            depth@.len() == 256,
            merges == nd - nodes@.len(),
            sum_freq(nodes@) <= 256 * 0x1_0000_0000_0000_0000,
            sum_leaves(nodes@) == nd,
            forall|s: int| 0 <= s < 256 ==> #[trigger] depth@[s] <= merges,
            forall|kk: int| 0 <= kk < nodes@.len() ==> (#[trigger] nodes@[kk]).1@.len() >= 1,
            forest_distinct(nodes@),
            forall|kk: int| 0 <= kk < nodes@.len() ==> #[trigger] wsum(depth@, nodes@[kk].1@) == pow2(256),
            forall|s: int| 0 <= s < 256 ==> (#[trigger] freq@[s] > 0) == in_forest(nodes@, s),
            depths_ok(nodes@, depth@),
            total == dist_total(freq@, distinct@),
            sum_freq(nodes@) == total,
            fib_ok(nodes@, hts),
            heights_ok(nodes@, hts, depth@),
        decreases nodes@.len(),
    {
        let ghost n0 = nodes@;
        let i = lightest(&nodes);
        let a = nodes.remove(i);
        let ghost n1 = nodes@;
        let j = lightest(&nodes);
        let b = nodes.remove(j);
        let ghost n2 = nodes@;
        proof {
            lemma_sums_remove(n0, i as int);
            lemma_sums_remove(n1, j as int);
            lemma_sums_nonneg(n2);
        }
        let mut members = a.1;
        push_all(&mut members, b.1.as_slice());
        let ghost old_depth = depth@;
        let ghost joined = n2.push((0u128, members));
        proof {
            assert forall|k: int| 0 <= k < joined.len() - 1 implies #[trigger] joined[k] == n0.remove(i as int).remove(j as int)[k] by {}
            lemma_merge_distinct(n0, i as int, j as int, joined);
            assert forall|m1: int, m2: int| 0 <= m1 < members@.len() && 0 <= m2 < members@.len() && m1 != m2
                implies #[trigger] members@[m1] != #[trigger] members@[m2] by {
                let last = joined.len() - 1;
                assert(joined[last].1@ == members@);
            }
        }
        let mut t: usize = 0;
        while t < members.len()
            invariant
                t <= members@.len(),
                members@.len() <= 256,
                depth@.len() == 256,
                merges < 255,
                forall|m1: int, m2: int| 0 <= m1 < members@.len() && 0 <= m2 < members@.len() && m1 != m2
                    ==> #[trigger] members@[m1] != #[trigger] members@[m2],
                forall|s: int| 0 <= s < 256 ==> #[trigger] depth@[s] == old_depth[s]
                    + (if members@.take(t as int).contains(s as u8) { 1int } else { 0int }),
                forall|s: int| 0 <= s < 256 ==> #[trigger] old_depth[s] <= merges,
            decreases members@.len() - t,
        {
            let s = members[t] as usize;
            let v = depth[s];
            proof {
                assert(!members@.take(t as int).contains(s as u8)) by {
                    if members@.take(t as int).contains(s as u8) {
                        let m = choose|m: int| 0 <= m < t && #[trigger] members@.take(t as int)[m] == s as u8;
                        assert(members@[m] == members@[t as int]);
                    }
                }
            }
            depth.set(s, v + 1);
            proof {
                assert forall|x: int| 0 <= x < 256 implies #[trigger] members@.take(t + 1).contains(x as u8)
                    == (members@.take(t as int).contains(x as u8) || x == s) by {
                    if members@.take(t + 1).contains(x as u8) {
                        let m = choose|m: int| 0 <= m < t + 1 && #[trigger] members@.take(t + 1)[m] == x as u8;
                        if m < t {
                            assert(members@.take(t as int)[m] == x as u8);
                        }
                    }
                    if members@.take(t as int).contains(x as u8) {
                        let m = choose|m: int| 0 <= m < t && #[trigger] members@.take(t as int)[m] == x as u8;
                        assert(members@.take(t + 1)[m] == x as u8);
                    }
                    if x == s {
                        assert(members@.take(t + 1)[t as int] == x as u8);
                    }
                }
            }
            t = t + 1;
        }
        proof {
            assert(members@.take(members@.len() as int) =~= members@);
        }
        let ghost before_push = nodes@;
        nodes.push((a.0 + b.0, members));
        proof {
            assert forall|k: int| 0 <= k < nodes@.len() - 1 implies #[trigger] nodes@[k] == n0.remove(i as int).remove(j as int)[k] by {}
            lemma_merge_distinct(n0, i as int, j as int, nodes@);
            lemma_merge_weights(n0, i as int, j as int, nodes@, old_depth, depth@, nodes@[nodes@.len() - 1].1@);
            lemma_fib_step(n0, hts, i as int, j as int, nodes@);
            lemma_merge_heights(n0, hts, i as int, j as int, nodes@, old_depth, depth@, nodes@[nodes@.len() - 1].1@);
            let ghost ha = hts[i as int];
            let ghost hb = hts.remove(i as int)[j as int];
            hts = hts.remove(i as int).remove(j as int).push((if ha >= hb { ha } else { hb }) + 1);
            merges = merges + 1;
            assert(nodes@.drop_last() =~= n2);
            let merged = nodes@.last();
            assert forall|kk: int| 0 <= kk < n2.len() implies (#[trigger] n2[kk]) == (if kk < j { n1[kk] } else { n1[kk + 1] }) by {}
            assert forall|s: int| 0 <= s < 256 implies (#[trigger] freq@[s] > 0) == in_forest(nodes@, s) by {
                if freq@[s] > 0 {
                    let (kk, mm) = choose|kk: int, mm: int| 0 <= kk < n0.len() && 0 <= mm < n0[kk].1@.len() && #[trigger] n0[kk].1@[mm] == s;
                    if kk == i {
                        assert(nodes@[nodes@.len() - 1].1@[mm] == s);
                    } else {
                        let k1 = if kk < i { kk } else { kk - 1 };
                        assert(n1[k1] == n0[kk]);
                        if k1 == j {
                            assert(nodes@[nodes@.len() - 1].1@[a.1@.len() + mm] == s);
                        } else {
                            let k2 = if k1 < j { k1 } else { k1 - 1 };
                            assert(n2[k2] == n1[k1]);
                            assert(nodes@[k2].1@[mm] == s);
                        }
                    }
                }
                if in_forest(nodes@, s) {
                    let (kk, mm) = choose|kk: int, mm: int| 0 <= kk < nodes@.len() && 0 <= mm < nodes@[kk].1@.len() && #[trigger] nodes@[kk].1@[mm] == s;
                    if kk == nodes@.len() - 1 {
                        if mm < a.1@.len() {
                            assert(n0[i as int].1@[mm] == s);
                        } else {
                            assert(n1[j as int].1@[mm - a.1@.len()] == s);
                            let k0 = if j < i { j as int } else { j + 1 };
                            assert(n0[k0] == n1[j as int]);
                        }
                    } else {
                        let k1 = if kk < j { kk } else { kk + 1 };
                        assert(n1[k1] == n2[kk]);
                        let k0 = if k1 < i { k1 } else { k1 + 1 };
                        assert(n0[k0] == n1[k1]);
                        assert(n0[k0].1@[mm] == s);
                    }
                }
            }
            assert forall|kk: int, mm: int| 0 <= kk < nodes@.len() && 0 <= mm < nodes@[kk].1@.len()
                implies depth@[#[trigger] nodes@[kk].1@[mm] as int] >= 1 || nodes@[kk].1@.len() == 1 by {
                if kk < nodes@.len() - 1 {
                    let k1 = if kk < j { kk } else { kk + 1 };
                    assert(n1[k1] == n2[kk]);
                    let k0 = if k1 < i { k1 } else { k1 + 1 };
                    assert(n0[k0] == n1[k1]);
                    assert(n0[k0].1@[mm] == nodes@[kk].1@[mm]);
                }
            }
        }
    }
    let mut lengths: Vec<u8> = Vec::new();
    let mut s: usize = 0;
    proof {
        assert(nodes@.len() == 1);
        assert(sum_freq(nodes@) == nodes@[0].0) by {
            assert(nodes@.drop_last() =~= Seq::<(u128, Vec<u8>)>::empty());
            assert(sum_freq(nodes@.drop_last()) == 0);
            assert(nodes@.last() == nodes@[0]);
        }
        if total < 0x20_0000 {
            assert forall|x: int| 0 <= x < 256 && freq@[x] > 0 implies #[trigger] depth@[x] <= 32 by {
                let (kk, mm) = choose|kk: int, mm: int| 0 <= kk < nodes@.len() && 0 <= mm < nodes@[kk].1@.len() && #[trigger] nodes@[kk].1@[mm] == x;
                assert(kk == 0);
                assert(depth@[x] <= hts[0]);
                if depth@[x] > 32 {
                    lemma_fib_mono(35, (hts[0] + 2) as nat);
                    lemma_fib_35();
                }
            }
        }
        assert forall|x: int| 0 <= x < 256 && freq@[x] > 0 implies #[trigger] depth@[x] >= 1 by {
            let (kk, mm) = choose|kk: int, mm: int| 0 <= kk < nodes@.len() && 0 <= mm < nodes@[kk].1@.len() && #[trigger] nodes@[kk].1@[mm] == x;
            assert(kk == 0);
            if nodes@[0].1@.len() == 1 {
                let y0 = distinct@[0] as int;
                let y1 = distinct@[1] as int;
                assert(freq@[y0] > 0);
                assert(freq@[y1] > 0);
                assert(in_forest(nodes@, y0));
                assert(in_forest(nodes@, y1));
                let (k0, m0) = choose|kk: int, mm: int| 0 <= kk < nodes@.len() && 0 <= mm < nodes@[kk].1@.len() && #[trigger] nodes@[kk].1@[mm] == y0;
                let (k1, m1) = choose|kk: int, mm: int| 0 <= kk < nodes@.len() && 0 <= mm < nodes@[kk].1@.len() && #[trigger] nodes@[kk].1@[mm] == y1;
                assert(false);
            }
        }
    }
    while s < 256
        invariant
            s <= 256,
            depth@.len() == 256,
            freq@.len() == 256,
            lengths@.len() == s,
            forall|x: int| 0 <= x < 256 && freq@[x] > 0 ==> #[trigger] depth@[x] >= 1,
            forall|x: int| 0 <= x < s ==> (#[trigger] lengths@[x] > 0) == (freq@[x] > 0) && lengths@[x] <= 32,
            forall|x: int| 0 <= x < s ==> #[trigger] lengths@[x] == if freq@[x] > 0 { depth@[x] as int } else { 0 },
            total == dist_total(freq@, distinct@),
            total < 0x20_0000 ==> forall|x: int| 0 <= x < 256 && freq@[x] > 0 ==> #[trigger] depth@[x] <= 32,
        decreases 256 - s,
    {
        if freq[s] > 0 {
            let d = depth[s];
            if d > 32 {
                return None;
            }
            lengths.push(d as u8);
        } else {
            lengths.push(0);
        }
        s = s + 1;
    }
    proof {
        let ms = nodes@[0].1@;
        let present = |x: int| freq@[x] > 0;
        assert forall|m1: int, m2: int| 0 <= m1 < ms.len() && 0 <= m2 < ms.len() && m1 != m2
            implies #[trigger] ms[m1] != #[trigger] ms[m2] by {}
        assert forall|m: int| 0 <= m < ms.len() implies present(#[trigger] ms[m] as int) by {
            assert(in_forest(nodes@, ms[m] as int));
        }
        assert forall|x: int| 0 <= x < 256 && #[trigger] present(x) implies ms.contains(x as u8) by {
            assert(in_forest(nodes@, x));
            let (kk, mm) = choose|kk: int, mm: int| 0 <= kk < nodes@.len() && 0 <= mm < nodes@[kk].1@.len() && #[trigger] nodes@[kk].1@[mm] == x;
            assert(ms[mm] == x as u8);
        }
        lemma_leaves_weight(depth@, ms, present);
        assert forall|x: int| 0 <= x < 256 && freq@[x] > 0 implies 1 <= #[trigger] depth@[x] <= 32 by {
            assert(lengths@[x] == depth@[x]);
        }
        lemma_weight_is_kraft(depth@, freq@, lengths@, 256);
        assert(lengths@.take(256) =~= lengths@);
        lemma_pow2_adds(224, 32);
        lemma_pow2_pos(224);
        assert(kraft_sum(lengths@, 32) == pow2(32)) by (nonlinear_arith)
            requires
                pow2(224) * kraft_sum(lengths@, 32) == pow2(256),
                pow2(224) * pow2(32) == pow2(256),
                pow2(224) > 0,
        ;
        lemma_room_is_sum(lengths@, 32);
    }
    Some(lengths)
}

/// Encodes `data` with canonical Huffman codes. `None` for empty input,
/// and when the tree would need a code longer than 32 bits, which takes
/// at least `fib(35)` (over nine million) bytes: every input of one to
/// `2^21 - 1` bytes encodes.
pub fn encode(data: &[u8]) -> (r: Option<Encoded>)
    requires
        data@.len() <= usize::MAX / 32,
    ensures
        data@.len() == 0 ==> r is None,
        0 < data@.len() < 0x20_0000 ==> r is Some,

        r matches Some(e) ==> {
            &&& e.symbol_count == data@.len()
            &&& forall|s: int| 0 <= s < 256 ==> (#[trigger] e.lengths@[s] > 0) == (occurrences(data@, s) > 0)
            &&& forall|s: int| 0 <= s < 256 ==> #[trigger] e.lengths@[s] <= 32
            &&& kraft_ok(e.lengths@)
            &&& packs(e.bits@, message_bits(canonical_codes_spec(e.lengths@), data@))
            &&& e.bit_len == message_bits(canonical_codes_spec(e.lengths@), data@).len()
            &&& (forall|a: int, b: int| 0 <= a < 256 && 0 <= b < 256
                && occurrences(data@, a) > 0 && occurrences(data@, b) > 0 ==> a == b)
                ==> forall|s: int| 0 <= s < 256 && occurrences(data@, s) > 0 ==> #[trigger] e.lengths@[s] == 1
            &&& (exists|a: int, b: int| 0 <= a < b < 256
                && #[trigger] occurrences(data@, a) > 0 && #[trigger] occurrences(data@, b) > 0)
                ==> kraft_sum(e.lengths@, 32) == pow2(32)
        },
{
    let n = data.len();
    if n == 0 {
        return None;
    }
    let mut freq: Vec<u64> = vec![0u64; 256];
    proof {
        lemma_total_zero(freq@, 256);
    }
    let mut i: usize = 0;
    while i < n
        invariant
            i <= n,
            n == data@.len(),
            freq@.len() == 256,
            forall|s: int| 0 <= s < 256 ==> #[trigger] freq@[s] == occurrences(data@.take(i as int), s),
            freq_total(freq@, 256) == i,
        decreases n - i,
    {
        let b = data[i] as usize;
        proof {
            assert(data@.take(i + 1).drop_last() =~= data@.take(i as int));
            lemma_occurrences_le(data@.take(i as int), b as int);
        }
        let c = freq[b];
        proof {
            lemma_total_update(freq@, b as int, (c + 1) as u64, 256);
        }
        freq.set(b, c + 1);
        i = i + 1;
    }
    assert(data@.take(n as int) =~= data@);
    let mut distinct: Vec<u8> = Vec::new();
    let mut s: usize = 0;
    while s < 256
        invariant
            s <= 256,
            freq@.len() == 256,
            distinct@.len() <= s,
            forall|a: int, b: int| 0 <= a < b < distinct@.len() ==> #[trigger] distinct@[a] < #[trigger] distinct@[b],
            forall|k: int| 0 <= k < distinct@.len() ==> #[trigger] distinct@[k] < s,
            forall|x: int| 0 <= x < s ==> (#[trigger] freq@[x] > 0) == distinct@.contains(x as u8),
            dist_total(freq@, distinct@) == freq_total(freq@, s as int),
        decreases 256 - s,
    {
        let ghost old_d = distinct@;
        if freq[s] > 0 {
            distinct.push(s as u8);
            assert(distinct@.drop_last() =~= old_d);
        }
        proof {
            assert forall|x: int| 0 <= x < s + 1 implies (#[trigger] freq@[x] > 0) == distinct@.contains(x as u8) by {
                if distinct@.contains(x as u8) {
                    let k = distinct@.index_of(x as u8);
                    if k < old_d.len() {
                        assert(old_d[k] == x as u8);
                        assert(old_d.contains(x as u8));
                    }
                }
                if old_d.contains(x as u8) {
                    let k = old_d.index_of(x as u8);
                    assert(distinct@[k] == x as u8);
                    assert(distinct@.contains(x as u8));
                }
                if x == s && freq@[x] > 0 {
                    assert(distinct@[distinct@.len() - 1] == x as u8);
                }
                if x == s && old_d.contains(x as u8) {
                    let k = old_d.index_of(x as u8);
                    assert(old_d[k] < s);
                }
            }
        }
        s = s + 1;
    }
    proof {
        assert(freq@[data@[0] as int] > 0) by {
            lemma_occurrences_pos(data@, 0);
        }
        assert(distinct@.contains(data@[0]));
    }
    let lengths_vec = if distinct.len() == 1 {
        let mut v: Vec<u8> = vec![0u8; 256];
        v.set(distinct[0] as usize, 1);
        proof {
            lemma_single_code_kraft(v@, distinct@[0] as int);
            assert forall|x: int| 0 <= x < 256 implies (#[trigger] v@[x] > 0) == (freq@[x] > 0) by {
                if freq@[x] > 0 {
                    let k = distinct@.index_of(x as u8);
                    assert(k == 0);
                }
            }
        }
        v
    } else {
        match tree_depths(&freq, &distinct) {
            Some(l) => {
                proof {
                    assert(distinct@.contains(distinct@[0]) && distinct@.contains(distinct@[1]));
                    assert(freq@[distinct@[0] as int] > 0 && freq@[distinct@[1] as int] > 0);
                }
                l
            },
            None => {
                return None;
            },
        }
    };
    proof {
        assert(forall|s: int| 0 <= s < 256 ==> #[trigger] freq@[s] == occurrences(data@, s));
        if distinct@.len() == 1 {
            assert forall|s: int| 0 <= s < 256 && freq@[s] > 0 implies #[trigger] lengths_vec@[s] == 1 by {
                let k = distinct@.index_of(s as u8);
                assert(k == 0);
            }
            assert forall|a: int, b: int| 0 <= a < b < 256 && #[trigger] freq@[a] > 0 implies !(#[trigger] freq@[b] > 0) by {
                if freq@[b] > 0 {
                    let ka = distinct@.index_of(a as u8);
                    let kb = distinct@.index_of(b as u8);
                    assert(ka == 0 && kb == 0);
                }
            }
        } else {
            assert(distinct@[0] < distinct@[1]);
        }
    }
    let mut lengths = [0u8; 256];
    let mut k: usize = 0;
    while k < 256
        invariant
            k <= 256,
            lengths_vec@.len() == 256,
            forall|j: int| 0 <= j < k ==> #[trigger] lengths@[j] == lengths_vec@[j],
        decreases 256 - k,
    {
        lengths[k] = lengths_vec[k];
        k = k + 1;
    }
    assert(lengths@ =~= lengths_vec@);
    proof {
        if exists|a: int, b: int| 0 <= a < b < 256
            && #[trigger] occurrences(data@, a) > 0 && #[trigger] occurrences(data@, b) > 0 {
            let (a, b) = choose|a: int, b: int| 0 <= a < b < 256
                && #[trigger] occurrences(data@, a) > 0 && #[trigger] occurrences(data@, b) > 0;
            assert(freq@[a] > 0 && freq@[b] > 0);
            assert(distinct@.len() != 1);
            assert(kraft_sum(lengths@, 32) == pow2(32));
        }
    }
    let codes = canonical_codes(&lengths);
    let ghost cs = canonical_codes_spec(lengths@);
    let mut bits: Vec<u8> = Vec::new();
    let mut bitpos: usize = 0;
    let mut i: usize = 0;
    proof {
        assert(data@.take(0) =~= Seq::<u8>::empty());
    }
    while i < n
        invariant
            i <= n,
            n == data@.len(),
            n <= usize::MAX / 32,
            codes@ == cs,
            cs == canonical_codes_spec(lengths@),
            forall|j: int| 0 <= j < 256 ==> #[trigger] lengths@[j] <= 32,
            packs(bits@, message_bits(cs, data@.take(i as int))),
            bitpos == message_bits(cs, data@.take(i as int)).len(),
            bitpos <= 32 * i,
        decreases n - i,
    {
        let b = data[i] as usize;
        let (code, len) = codes[b];
        proof {
            assert(data@.take(i + 1).drop_last() =~= data@.take(i as int));
            assert(len <= 32);
        }
        push_bits(&mut bits, &mut bitpos, code, len, Ghost(message_bits(cs, data@.take(i as int))));
        i = i + 1;
    }
    assert(data@.take(n as int) =~= data@);
    Some(Encoded { lengths, bits, bit_len: bitpos, symbol_count: n })
}

/// The first symbol from `s` up whose code is `acc` and `len` bits long.
pub open spec fn find_code(codes: Seq<(u32, u8)>, acc: u32, len: int, s: int) -> Option<u8>
    decreases codes.len() - s,
{
    if s < 0 || s >= codes.len() {
        None
    } else if codes[s].1 > 0 && codes[s].1 == len && codes[s].0 == acc {
        Some(s as u8)
    } else {
        find_code(codes, acc, len, s + 1)
    }
}

/// Decoding from bit `pos` with `acc` holding the last `acc_len` unmatched
/// bits: each bit extends the candidate code, and a candidate that equals a
/// symbol's code of the same length is that symbol. Stops after `count`
/// symbols or `bit_len` bits.
pub open spec fn decode_from(
    codes: Seq<(u32, u8)>,
    bits: Seq<u8>,
    bit_len: int,
    count: int,
    pos: int,
    acc: u32,
    acc_len: int,
    out: Seq<u8>,
) -> Seq<u8>
    decreases bit_len - pos,
{
    if out.len() >= count || pos >= bit_len || pos < 0 {
        out
    } else {
        let acc2 = (acc << 1u32) | (bit_msb(bits, pos) as u32);
        match find_code(codes, acc2, acc_len + 1, 0) {
            Some(sym) => decode_from(codes, bits, bit_len, count, pos + 1, 0, 0, out.push(sym)),
            None => decode_from(codes, bits, bit_len, count, pos + 1, acc2, acc_len + 1, out),
        }
    }
}

/// What [`decode`] returns.
pub open spec fn decode_spec(lengths: Seq<u8>, bits: Seq<u8>, bit_len: int, count: int) -> Seq<u8> {
    decode_from(canonical_codes_spec(lengths), bits, bit_len, count, 0, 0, 0, seq![])
}

/// The code table as `(code, length, symbol)` for the symbols present,
/// in symbol order.
fn present_codes(codes: &Vec<(u32, u8)>) -> (r: Vec<(u32, u8, u8)>)
    requires
        codes@.len() == 256,
    ensures
        forall|acc: u32, len: int| #[trigger] find_code(codes@, acc, len, 0) == find_in(r@, acc, len, 0),
{
    let mut r: Vec<(u32, u8, u8)> = Vec::new();
    let mut s: usize = 256;
    proof {
        lemma_find_end(codes@, r@);
    }
    while s > 0
        invariant
            s <= 256,
            codes@.len() == 256,
            forall|acc: u32, len: int| #[trigger] find_code(codes@, acc, len, s as int) == find_in(r@, acc, len, 0),
        decreases s,
    {
        s = s - 1;
        let (c, l) = codes[s];
        let ghost old_r = r@;
        if l > 0 {
            r.insert(0, (c, l, s as u8));
        }
        proof {
            assert forall|acc: u32, len: int| #[trigger] find_code(codes@, acc, len, s as int) == find_in(r@, acc, len, 0) by {
                assert(find_code(codes@, acc, len, s + 1) == find_in(old_r, acc, len, 0));
                if l > 0 {
                    lemma_find_in_shift(r@, old_r, acc, len);
                }
            }
        }
    }
    r
}

/// The first entry of the table from `k` with code `acc` of length `len`.
pub open spec fn find_in(t: Seq<(u32, u8, u8)>, acc: u32, len: int, k: int) -> Option<u8>
    decreases t.len() - k,
{
    if k < 0 || k >= t.len() {
        None
    } else if t[k].1 == len && t[k].0 == acc {
        Some(t[k].2)
    } else {
        find_in(t, acc, len, k + 1)
    }
}

proof fn lemma_find_end(codes: Seq<(u32, u8)>, r: Seq<(u32, u8, u8)>)
    requires
        codes.len() == 256,
        r.len() == 0,
    ensures
        forall|acc: u32, len: int| #[trigger] find_code(codes, acc, len, 256) == find_in(r, acc, len, 0),
{
}

/// Searching a table with an entry put in front looks at that entry first.
proof fn lemma_find_in_shift(t: Seq<(u32, u8, u8)>, rest: Seq<(u32, u8, u8)>, acc: u32, len: int)
    requires
        t.len() == rest.len() + 1,
        forall|k: int| 0 <= k < rest.len() ==> #[trigger] t[k + 1] == rest[k],
    ensures
        find_in(t, acc, len, 0) == if t[0].1 == len && t[0].0 == acc { Some(t[0].2) } else { find_in(rest, acc, len, 0) },
{
    lemma_find_in_shift_from(t, rest, acc, len, 0);
}

proof fn lemma_find_in_shift_from(t: Seq<(u32, u8, u8)>, rest: Seq<(u32, u8, u8)>, acc: u32, len: int, k: int)
    requires
        t.len() == rest.len() + 1,
        forall|j: int| 0 <= j < rest.len() ==> #[trigger] t[j + 1] == rest[j],
        0 <= k <= rest.len(),
    ensures
        find_in(t, acc, len, k + 1) == find_in(rest, acc, len, k),
    decreases rest.len() - k,
{
    if k < rest.len() {
        lemma_find_in_shift_from(t, rest, acc, len, k + 1);
    }
}

/// Decodes `symbol_count` symbols (or as many as `bit_len` bits hold) of
/// data coded with the canonical codes of `lengths`.
pub fn decode(lengths: &[u8; 256], bits: &[u8], bit_len: usize, symbol_count: usize) -> (out: Vec<u8>)
    requires
        bit_len <= bits@.len() * 8,
    ensures
        out@ == decode_spec(lengths@, bits@, bit_len as int, symbol_count as int),
{
    let codes = canonical_codes(lengths);
    let by_code = present_codes(&codes);
    let ghost cs = codes@;
    let mut out: Vec<u8> = Vec::new();
    let mut acc: u32 = 0;
    let mut acc_len: usize = 0;
    let mut bitpos: usize = 0;
    let ghost goal = decode_spec(lengths@, bits@, bit_len as int, symbol_count as int);
    while out.len() < symbol_count && bitpos < bit_len
        invariant
            bitpos <= bit_len <= bits@.len() * 8,
            acc_len <= bitpos,
            cs == canonical_codes_spec(lengths@),
            forall|a: u32, len: int| #[trigger] find_code(cs, a, len, 0) == find_in(by_code@, a, len, 0),
            goal == decode_spec(lengths@, bits@, bit_len as int, symbol_count as int),
            decode_from(cs, bits@, bit_len as int, symbol_count as int, bitpos as int, acc, acc_len as int, out@) == goal,
        decreases bit_len - bitpos,
    {
        let byte_idx = bitpos / 8;
        let shift = (7 - bitpos % 8) as u8;
        let bit = (bits[byte_idx] >> shift) & 1;
        let acc2 = (acc << 1) | bit as u32;
        let found = find_present(&by_code, acc2, acc_len + 1);
        bitpos = bitpos + 1;
        match found {
            Some(sym) => {
                out.push(sym);
                acc = 0;
                acc_len = 0;
            },
            None => {
                acc = acc2;
                acc_len = acc_len + 1;
            },
        }
    }
    out
}

/// The first entry of the table with code `acc` of length `len`.
fn find_present(t: &Vec<(u32, u8, u8)>, acc: u32, len: usize) -> (r: Option<u8>)
    ensures
        r == find_in(t@, acc, len as int, 0),
{
    let mut k: usize = 0;
    while k < t.len()
        invariant
            k <= t@.len(),
            find_in(t@, acc, len as int, 0) == find_in(t@, acc, len as int, k as int),
        decreases t@.len() - k,
    {
        let (c, l, sym) = t[k];
        if l as usize == len && c == acc {
            return Some(sym);
        }
        k = k + 1;
    }
    None
}

proof fn lemma_occurrences_le(s: Seq<u8>, b: int)
    ensures
        occurrences(s, b) <= s.len(),
    decreases s.len(),
{
    if s.len() > 0 {
        lemma_occurrences_le(s.drop_last(), b);
    }
}

/// A byte that is in `s` occurs in it.
proof fn lemma_occurrences_pos(s: Seq<u8>, k: int)
    requires
        0 <= k < s.len(),
    ensures
        occurrences(s, s[k] as int) > 0,
    decreases s.len(),
{
    if k < s.len() - 1 {
        lemma_occurrences_pos(s.drop_last(), k);
    }
}

/// Decoding gives back what encoding took: with the code lengths, packed
/// bits, bit count and symbol count that `encode` returns for `data`,
/// `decode` yields `data` again.
pub proof fn lemma_encode_decode(data: Seq<u8>, lengths: Seq<u8>, bits: Seq<u8>, bit_len: int, symbol_count: int)
    requires
        symbol_count == data.len(),
        forall|s: int| 0 <= s < 256 ==> (#[trigger] lengths[s] > 0) == (occurrences(data, s) > 0),
        kraft_ok(lengths),
        packs(bits, message_bits(canonical_codes_spec(lengths), data)),
        bit_len == message_bits(canonical_codes_spec(lengths), data).len(),
    ensures
        bit_len <= bits.len() * 8,
        decode_spec(lengths, bits, bit_len, symbol_count) == data,
{
    assert forall|k: int| 0 <= k < data.len() implies lengths[#[trigger] data[k] as int] > 0 by {
        lemma_occurrences_pos(data, k);
    }
    lemma_huffman_round_trip(lengths, bits, data);
}

} // verus!
