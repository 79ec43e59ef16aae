//! Why canonical Huffman decoding gives back what was encoded: when the
//! code lengths satisfy Kraft's inequality, the canonical codes are
//! prefix-free, so reading the packed bits one at a time recognises each
//! symbol exactly at the end of its code.

use vstd::prelude::*;
use vstd::arithmetic::power2::{pow2, lemma_pow2_adds, lemma_pow2_pos, lemma_pow2_unfold};
use vstd::arithmetic::div_mod::{lemma_div_is_ordered, lemma_div_multiples_vanish_fancy};
use crate::inflate::count_len;
use crate::huffman::{bit_msb, packs, code_bits, message_bits, canon_base, canonical_codes_spec, find_code,
    decode_from, decode_spec};

verus! {

/// Codes still free at length `l` of a binary tree after placing the codes
/// of lengths `1 ..= l`; negative means the lengths over-subscribe it.
pub open spec fn kraft_room(lengths: Seq<u8>, l: nat) -> int
    decreases l,
{
    if l == 0 { 1 } else { 2 * kraft_room(lengths, (l - 1) as nat) - count_len(lengths, l as int) }
}

/// A code length of at most 32 bits per byte value, with room in the tree
/// for all of them (Kraft's inequality).
pub open spec fn kraft_ok(lengths: Seq<u8>) -> bool {
    &&& lengths.len() == 256
    &&& forall|s: int| 0 <= s < 256 ==> #[trigger] lengths[s] <= 32
    &&& kraft_room(lengths, 32) >= 0
}

/// The first canonical code of length `l`, over the integers.
pub open spec fn first_code(lengths: Seq<u8>, l: nat) -> int
    decreases l,
{
    if l <= 1 { 0 } else { 2 * (first_code(lengths, (l - 1) as nat) + count_len(lengths, l - 1)) }
}

proof fn lemma_room_first(lengths: Seq<u8>, l: nat)
    requires
        l >= 1,
    ensures
        kraft_room(lengths, l) == pow2(l) - first_code(lengths, l) - count_len(lengths, l as int),
    decreases l,
{
    lemma_pow2_unfold(l);
    if l > 1 {
        lemma_room_first(lengths, (l - 1) as nat);
    } else {
        vstd::arithmetic::power2::lemma2_to64();
        assert(kraft_room(lengths, 0) == 1);
        assert(first_code(lengths, 1) == 0);
    }
}

proof fn lemma_room_down(lengths: Seq<u8>, l: nat, m: nat)
    requires
        m <= l,
        kraft_room(lengths, l) >= 0,
    ensures
        kraft_room(lengths, m) >= 0,
    decreases l - m,
{
    if m < l {
        assert(kraft_room(lengths, (l - 1) as nat) >= 0);
        lemma_room_down(lengths, (l - 1) as nat, m);
    }
}

proof fn lemma_first_nonneg(lengths: Seq<u8>, l: nat)
    ensures
        first_code(lengths, l) >= 0,
    decreases l,
{
    if l > 1 {
        lemma_first_nonneg(lengths, (l - 1) as nat);
    }
}

/// With room in the tree, the codes of length `l` fit in `l` bits.
proof fn lemma_first_fits(lengths: Seq<u8>, l: nat)
    requires
        1 <= l <= 32,
        kraft_room(lengths, 32) >= 0,
    ensures
        first_code(lengths, l) + count_len(lengths, l as int) <= pow2(l),
        0 <= first_code(lengths, l),
{
    lemma_room_down(lengths, 32, l);
    lemma_room_first(lengths, l);
    lemma_first_nonneg(lengths, l);
}

/// The 32-bit first code agrees with the integer one while it fits.
proof fn lemma_canon_base_exact(lengths: Seq<u8>, l: nat)
    requires
        1 <= l <= 32,
        first_code(lengths, l) < 0x1_0000_0000,
    ensures
        canon_base(lengths, l) as int == first_code(lengths, l),
    decreases l,
{
    if l > 1 {
        let p = (l - 1) as nat;
        lemma_first_nonneg(lengths, p);
        lemma_canon_base_exact(lengths, p);
        let prev = canon_base(lengths, p);
        let c = count_len(lengths, p as int);
        let x = ((prev + c) % 0x1_0000_0000) as u32;
        assert(x as int == prev + c);
        assert(x < 0x8000_0000);
        assert((x << 1u32) == 2 * x) by (bit_vector)
            requires
                x < 0x8000_0000u32,
        ;
    }
}

/// Each length's block of codes starts at least `2^(m - l)` times past the
/// end of a shorter length's block.
proof fn lemma_first_grows(lengths: Seq<u8>, l: nat, m: nat)
    requires
        1 <= l < m,
    ensures
        first_code(lengths, m) >= pow2((m - l) as nat) * (first_code(lengths, l) + count_len(lengths, l as int)),
    decreases m - l,
{
    lemma_pow2_unfold((m - l) as nat);
    if m == l + 1 {
        assert(pow2(0) == 1) by { vstd::arithmetic::power2::lemma2_to64(); }
    } else {
        let p = (m - 1) as nat;
        lemma_first_grows(lengths, l, p);
        lemma_first_nonneg(lengths, p);
        let a = first_code(lengths, l) + count_len(lengths, l as int);
        lemma_first_nonneg(lengths, l);
        assert(first_code(lengths, m) >= 2 * first_code(lengths, p));
        assert(2 * (pow2((p - l) as nat) * a) == pow2((m - l) as nat) * a) by (nonlinear_arith)
            requires
                pow2((m - l) as nat) == 2 * pow2((p - l) as nat),
        ;
    }
}

/// The rank of a symbol among the earlier symbols of its length is below
/// the number of symbols of that length.
proof fn lemma_rank_below(lengths: Seq<u8>, s: int)
    requires
        0 <= s < lengths.len(),
    ensures
        count_len(lengths.take(s), lengths[s] as int) + 1 <= count_len(lengths, lengths[s] as int),
{
    lemma_count_take_grows(lengths, s + 1, lengths.len() as int, lengths[s] as int);
    assert(lengths.take(s + 1).drop_last() =~= lengths.take(s));
    assert(lengths.take(s + 1).last() == lengths[s]);
    assert(lengths.take(lengths.len() as int) =~= lengths);
}

proof fn lemma_count_take_grows(lengths: Seq<u8>, a: int, b: int, l: int)
    requires
        0 <= a <= b <= lengths.len(),
    ensures
        count_len(lengths.take(a), l) <= count_len(lengths.take(b), l),
    decreases b - a,
{
    if a < b {
        lemma_count_take_grows(lengths, a, b - 1, l);
        assert(lengths.take(b).drop_last() =~= lengths.take(b - 1));
    }
    if b == lengths.len() {
        assert(lengths.take(b) =~= lengths);
    }
}

/// The canonical code of a present symbol is its length's first code
/// plus its rank, and it fits in its length.
proof fn lemma_code_value(lengths: Seq<u8>, s: int)
    requires
        kraft_ok(lengths),
        0 <= s < 256,
        lengths[s] > 0,
    ensures
        canonical_codes_spec(lengths)[s].1 == lengths[s],
        canonical_codes_spec(lengths)[s].0 as int
            == first_code(lengths, lengths[s] as nat) + count_len(lengths.take(s), lengths[s] as int),
        (canonical_codes_spec(lengths)[s].0 as int) < pow2(lengths[s] as nat),
{
    let l = lengths[s] as nat;
    lemma_rank_below(lengths, s);
    lemma_first_fits(lengths, l);
    lemma_pow2_pos(l);
    if l < 32 {
        vstd::arithmetic::power2::lemma_pow2_strictly_increases(l, 32);
    }
    assert(pow2(32) == 0x1_0000_0000) by { vstd::arithmetic::power2::lemma2_to64(); }
    lemma_canon_base_exact(lengths, l);
}

/// No present symbol's code is a prefix of another's, and no two present
/// symbols share a code of the same length.
proof fn lemma_prefix_free(lengths: Seq<u8>, s: int, t: int)
    requires
        kraft_ok(lengths),
        0 <= s < 256,
        0 <= t < 256,
        s != t,
        lengths[s] > 0,
        lengths[t] > 0,
        lengths[t] <= lengths[s],
    ensures
        canonical_codes_spec(lengths)[s].0 as int / (pow2((lengths[s] - lengths[t]) as nat) as int)
            != canonical_codes_spec(lengths)[t].0 as int,
{
    let cs = canonical_codes_spec(lengths);
    let (l, m) = (lengths[s] as nat, lengths[t] as nat);
    lemma_code_value(lengths, s);
    lemma_code_value(lengths, t);
    let d = pow2((l - m) as nat) as int;
    lemma_pow2_pos((l - m) as nat);
    if l == m {
        assert(d == 1) by { vstd::arithmetic::power2::lemma2_to64(); }
        if s < t {
            lemma_count_take_grows(lengths, s + 1, t, l as int);
            assert(lengths.take(s + 1).drop_last() =~= lengths.take(s));
        } else {
            lemma_count_take_grows(lengths, t + 1, s, l as int);
            assert(lengths.take(t + 1).drop_last() =~= lengths.take(t));
        }
    } else {
        lemma_first_grows(lengths, m, l);
        lemma_rank_below(lengths, t);
        let a = first_code(lengths, m) + count_len(lengths, m as int);
        let cv = cs[s].0 as int;
        assert(cv >= d * a);
        lemma_first_nonneg(lengths, m);
        assert(cv / d >= a) by {
            lemma_div_is_ordered(d * a, cv, d);
            lemma_div_multiples_vanish_fancy(a, 0, d);
            assert(d * a + 0 == d * a);
        }
    }
}

/// The first symbol from `k` with code `acc` of length `len` is the only one.
proof fn lemma_find_unique(codes: Seq<(u32, u8)>, acc: u32, len: int, k: int, s: int)
    requires
        0 <= k <= s < codes.len(),
        codes.len() <= 256,
        codes[s].1 > 0 && codes[s].1 == len && codes[s].0 == acc,
        forall|t: int| k <= t < codes.len() && t != s ==> !(#[trigger] codes[t].1 > 0 && codes[t].1 == len && codes[t].0 == acc),
    ensures
        find_code(codes, acc, len, k) == Some(s as u8),
    decreases s - k,
{
    if k < s {
        lemma_find_unique(codes, acc, len, k + 1, s);
    }
}

/// No symbol from `k` on has code `acc` of length `len`.
proof fn lemma_find_none(codes: Seq<(u32, u8)>, acc: u32, len: int, k: int)
    requires
        0 <= k,
        forall|t: int| k <= t < codes.len() ==> !(#[trigger] codes[t].1 > 0 && codes[t].1 == len && codes[t].0 == acc),
    ensures
        find_code(codes, acc, len, k) is None,
    decreases codes.len() - k,
{
    if k < codes.len() {
        lemma_find_none(codes, acc, len, k + 1);
    }
}

/// Reading the rest of a present symbol's code, with `k + 1` bits of it
/// still to come, recognises exactly that symbol at the code's end.
proof fn lemma_read_code(lengths: Seq<u8>, bytes: Seq<u8>, bit_len: int, count: int, pos: int, out: Seq<u8>, s: int, k: int)
    requires
        kraft_ok(lengths),
        0 <= s < 256,
        lengths[s] > 0,
        0 <= k < lengths[s],
        out.len() < count,
        0 <= pos,
        pos + lengths[s] <= bit_len,
        forall|j: int| 0 <= j < lengths[s] ==> #[trigger] bit_msb(bytes, pos + j)
            == (if code_bits(canonical_codes_spec(lengths)[s].0, lengths[s])[j] { 1u8 } else { 0u8 }),
    ensures
        decode_from(canonical_codes_spec(lengths), bytes, bit_len, count, pos + (lengths[s] - 1 - k),
            ((canonical_codes_spec(lengths)[s].0 >> (k as u32)) >> 1u32), lengths[s] - 1 - k, out)
            == decode_from(canonical_codes_spec(lengths), bytes, bit_len, count, pos + lengths[s], 0, 0, out.push(s as u8)),
    decreases k,
{
    let cs = canonical_codes_spec(lengths);
    let l = lengths[s] as int;
    let c = cs[s].0;
    let p = pos + (l - 1 - k);
    let j = l - 1 - k;
    let x = c >> (k as u32);
    let acc = x >> 1u32;
    lemma_code_value(lengths, s);
    assert(bit_msb(bytes, pos + j) == (if code_bits(c, l as u8)[j] { 1u8 } else { 0u8 }));
    let bit = bit_msb(bytes, p);
    assert(code_bits(c, l as u8)[j] == ((c >> ((l - 1 - j) as u32)) & 1u32 == 1u32));
    assert(((acc << 1u32) | (bit as u32)) == x) by (bit_vector)
        requires
            acc == x >> 1u32,
            bit == (if (x & 1u32) == 1u32 { 1u8 } else { 0u8 }),
    ;
    vstd::bits::lemma_u32_shr_is_div(c, k as u32);
    if k == 0 {
        assert(x == c) by (bit_vector)
            requires
                x == c >> 0u32,
        ;
        assert forall|t: int| 0 <= t < cs.len() && t != s implies !(#[trigger] cs[t].1 > 0 && cs[t].1 == l && cs[t].0 == x) by {
            if lengths[t] > 0 && lengths[t] == l {
                lemma_code_value(lengths, t);
                lemma_prefix_free(lengths, s, t);
                assert(pow2(0) == 1) by { vstd::arithmetic::power2::lemma2_to64(); }
            }
        }
        lemma_find_unique(cs, x, l - k, 0, s);
    } else {
        assert forall|t: int| 0 <= t < cs.len() implies !(#[trigger] cs[t].1 > 0 && cs[t].1 == l - k && cs[t].0 == x) by {
            if lengths[t] > 0 && lengths[t] == l - k {
                lemma_code_value(lengths, t);
                lemma_prefix_free(lengths, s, t);
            }
        }
        lemma_find_none(cs, x, l - k, 0);
        let ku = k as u32;
        let km = (k - 1) as u32;
        let x2 = c >> km;
        assert(x2 >> 1u32 == x) by (bit_vector)
            requires
                x2 == c >> km,
                x == c >> ku,
                ku == km + 1,
                ku < 32,
        ;
        lemma_read_code(lengths, bytes, bit_len, count, pos, out, s, k - 1);
    }
}

/// The bits of a message split at any symbol boundary.
proof fn lemma_message_append(codes: Seq<(u32, u8)>, a: Seq<u8>, b: Seq<u8>)
    ensures
        message_bits(codes, a + b) == message_bits(codes, a) + message_bits(codes, b),
    decreases b.len(),
{
    if b.len() == 0 {
        assert(a + b =~= a);
    } else {
        lemma_message_append(codes, a, b.drop_last());
        assert((a + b).drop_last() =~= a + b.drop_last());
    }
}

/// Decoding from the start of symbol `i` of the packed message gives back
/// the whole message.
proof fn lemma_decode_rest(lengths: Seq<u8>, bytes: Seq<u8>, data: Seq<u8>, i: int)
    requires
        kraft_ok(lengths),
        forall|k: int| 0 <= k < data.len() ==> lengths[#[trigger] data[k] as int] > 0,
        packs(bytes, message_bits(canonical_codes_spec(lengths), data)),
        0 <= i <= data.len(),
    ensures
        decode_from(canonical_codes_spec(lengths), bytes, message_bits(canonical_codes_spec(lengths), data).len() as int,
            data.len() as int, message_bits(canonical_codes_spec(lengths), data.take(i)).len() as int, 0, 0, data.take(i))
            == data,
    decreases data.len() - i,
{
    let cs = canonical_codes_spec(lengths);
    let bs = message_bits(cs, data);
    if i == data.len() {
        assert(data.take(i) =~= data);
    } else {
        let s = data[i] as int;
        let l = lengths[s] as int;
        let c = cs[s].0;
        lemma_code_value(lengths, s);
        let head = message_bits(cs, data.take(i));
        assert(data.take(i + 1).drop_last() =~= data.take(i));
        assert(message_bits(cs, data.take(i + 1)) == head + code_bits(c, l as u8));
        lemma_message_append(cs, data.take(i + 1), data.skip(i + 1));
        assert(data.take(i + 1) + data.skip(i + 1) =~= data);
        let pos = head.len() as int;
        assert forall|j: int| 0 <= j < l implies #[trigger] bit_msb(bytes, pos + j)
            == (if code_bits(c, l as u8)[j] { 1u8 } else { 0u8 }) by {
            assert(bs[pos + j] == code_bits(c, l as u8)[j]);
            let b = bytes[(pos + j) / 8];
            let sh = ((7 - (pos + j) % 8) as u8);
            assert((b >> sh) & 1u8 <= 1u8) by (bit_vector);
        }
        assert(((c >> ((l - 1) as u32)) >> 1u32) == 0u32) by {
            vstd::bits::lemma_u32_shr_is_div(c, (l - 1) as u32);
            lemma_pow2_unfold(l as nat);
            let y = c >> ((l - 1) as u32);
            let d = pow2((l - 1) as nat) as int;
            lemma_pow2_pos((l - 1) as nat);
            assert((c as int) < 2 * d);
            assert((c as int) / d < 2) by (nonlinear_arith)
                requires
                    (c as int) < 2 * d,
                    d > 0,
                    c >= 0,
            ;
            assert(y < 2);
            assert(y >> 1u32 == 0u32) by (bit_vector)
                requires
                    y < 2u32,
            ;
        }
        lemma_read_code(lengths, bytes, bs.len() as int, data.len() as int, pos, data.take(i), s, l - 1);
        assert(data.take(i).push(data[i]) =~= data.take(i + 1));
        lemma_decode_rest(lengths, bytes, data, i + 1);
    }
}

/// Decoding what was encoded gives it back: for code lengths with room in
/// the tree (Kraft's inequality), every byte of `data` given a code, and
/// `bytes` packing the message's code bits, decoding `data.len()` symbols
/// from those bits yields `data`.
pub proof fn lemma_huffman_round_trip(lengths: Seq<u8>, bytes: Seq<u8>, data: Seq<u8>)
    requires
        kraft_ok(lengths),
        forall|k: int| 0 <= k < data.len() ==> lengths[#[trigger] data[k] as int] > 0,
        packs(bytes, message_bits(canonical_codes_spec(lengths), data)),
    ensures
        decode_spec(lengths, bytes, message_bits(canonical_codes_spec(lengths), data).len() as int, data.len() as int)
            == data,
{
    lemma_decode_rest(lengths, bytes, data, 0);
    assert(data.take(0) =~= Seq::<u8>::empty());
}

/// The Kraft sum of the lengths from 1 to `top`, in units of `2^-top`:
/// each such length `l` counts `2^(top - l)`.
pub open spec fn kraft_sum(lengths: Seq<u8>, top: nat) -> int
    decreases lengths.len(),
{
    if lengths.len() == 0 {
        0
    } else {
        let x = lengths.last();
        kraft_sum(lengths.drop_last(), top) + if 1 <= x <= top { pow2((top - x) as nat) as int } else { 0 }
    }
}

proof fn lemma_kraft_sum_zero(lengths: Seq<u8>)
    ensures
        kraft_sum(lengths, 0) == 0,
    decreases lengths.len(),
{
    if lengths.len() > 0 {
        lemma_kraft_sum_zero(lengths.drop_last());
    }
}

proof fn lemma_kraft_sum_step(lengths: Seq<u8>, top: nat)
    requires
        top >= 1,
    ensures
        kraft_sum(lengths, top) == 2 * kraft_sum(lengths, (top - 1) as nat) + count_len(lengths, top as int),
    decreases lengths.len(),
{
    if lengths.len() > 0 {
        lemma_kraft_sum_step(lengths.drop_last(), top);
        let x = lengths.last();
        if 1 <= x && x < top {
            lemma_pow2_unfold((top - x) as nat);
        }
        if x == top {
            vstd::arithmetic::power2::lemma2_to64();
        }
    }
}

/// The room left in the tree is what the lengths' Kraft sum leaves free.
pub proof fn lemma_room_is_sum(lengths: Seq<u8>, top: nat)
    ensures
        kraft_room(lengths, top) == pow2(top) - kraft_sum(lengths, top),
    decreases top,
{
    if top == 0 {
        lemma_kraft_sum_zero(lengths);
        vstd::arithmetic::power2::lemma2_to64();
    } else {
        lemma_room_is_sum(lengths, (top - 1) as nat);
        lemma_kraft_sum_step(lengths, top);
        lemma_pow2_unfold(top);
    }
}

proof fn lemma_kraft_sum_single(v: Seq<u8>, x: int, n: int)
    requires
        0 <= n <= v.len(),
        0 <= x < v.len(),
        v[x] == 1,
        forall|j: int| 0 <= j < v.len() && j != x ==> #[trigger] v[j] == 0,
    ensures
        kraft_sum(v.take(n), 32) == if x < n { pow2(31) as int } else { 0 },
    decreases n,
{
    if n > 0 {
        lemma_kraft_sum_single(v, x, n - 1);
        assert(v.take(n).drop_last() =~= v.take(n - 1));
        assert(v.take(n).last() == v[n - 1]);
    } else {
        assert(v.take(0) =~= Seq::<u8>::empty());
    }
}

/// One byte value with a one-bit code, and no others, leaves room in the
/// tree.
pub proof fn lemma_single_code_kraft(v: Seq<u8>, x: int)
    requires
        v.len() == 256,
        0 <= x < 256,
        v[x] == 1,
        forall|j: int| 0 <= j < 256 && j != x ==> #[trigger] v[j] == 0,
    ensures
        kraft_ok(v),
{
    lemma_kraft_sum_single(v, x, 256);
    assert(v.take(256) =~= v);
    lemma_room_is_sum(v, 32);
    vstd::arithmetic::power2::lemma_pow2_strictly_increases(31, 32);
    assert forall|s: int| 0 <= s < 256 implies #[trigger] v[s] <= 32 by {
        if s != x {
            assert(v[s] == 0);
        }
    }
}

} // verus!
