//! Digital-communications primitives: Gray labelling of constellation
//! levels, the shape of a square QAM constellation, the Hamming(7,4)
//! single-error-correcting codec, and a width-generic CRC.
//!
//! Bit-order convention, uniform across all of them: a bit vector is
//! MSB-first, one 0/1 per element.

use vstd::prelude::*;
use vstd::arithmetic::power2::{pow2, lemma_pow2_pos, lemma_pow2_unfold, lemma_pow2_strictly_increases, lemma_pow2_adds, lemma2_to64, lemma2_to64_rest};
use crate::text;

verus! {

// ---------------------------------------------------------------- Gray

/// The Gray-code label of level index `i`.
pub open spec fn spec_gray(i: u32) -> u32 {
    i ^ (i >> 1u32)
}

/// The Gray-code label a square constellation assigns to level index `i`.
/// Adjacent levels differ in exactly one label bit.
pub fn gray_encode(i: u32) -> (g: u32)
    ensures
        g == spec_gray(i),
{
    i ^ (i >> 1)
}

/// Inverse of [`gray_encode`]: recovers the level index from its label by
/// folding in every right shift of the label (shifts 1, 2, 4, 8, 16).
pub fn gray_decode(g: u32) -> (b: u32)
    ensures
        spec_gray(b) == g,
{
    let b1 = g ^ (g >> 1);
    let b2 = b1 ^ (b1 >> 2);
    let b3 = b2 ^ (b2 >> 4);
    let b4 = b3 ^ (b3 >> 8);
    let b5 = b4 ^ (b4 >> 16);
    assert(b5 ^ (b5 >> 1u32) == g) by (bit_vector)
        requires
            b1 == g ^ (g >> 1u32),
            b2 == b1 ^ (b1 >> 2u32),
            b3 == b2 ^ (b2 >> 4u32),
            b4 == b3 ^ (b3 >> 8u32),
            b5 == b4 ^ (b4 >> 16u32),
    ;
    b5
}

/// Gray labelling is one-to-one: two levels with the same label are the
/// same level, so decoding a label gives back exactly the level it names.
pub proof fn lemma_gray_injective(a: u32, b: u32)
    requires
        spec_gray(a) == spec_gray(b),
    ensures
        a == b,
{
    assert(a ^ (a >> 1u32) == b ^ (b >> 1u32) ==> a == b) by (bit_vector);
}

/// Adjacent levels carry labels that differ in exactly one bit: their
/// exclusive-or is a nonzero power of two.
pub proof fn lemma_gray_neighbours_differ_in_one_bit(i: u32)
    requires
        i < u32::MAX,
    ensures
        spec_gray(i) ^ spec_gray((i + 1) as u32) != 0,
        (spec_gray(i) ^ spec_gray((i + 1) as u32)) & (((spec_gray(i) ^ spec_gray((i + 1) as u32)) - 1) as u32) == 0,
{
    let j: u32 = (i + 1) as u32;
    let d: u32 = spec_gray(i) ^ spec_gray(j);
    assert(d != 0 && d & ((d - 1) as u32) == 0) by (bit_vector)
        requires
            i < 0xffff_ffffu32,
            j == i + 1,
            d == (i ^ (i >> 1u32)) ^ (j ^ (j >> 1u32)),
    ;
}

/// The integer an MSB-first bit vector spells, kept to 32 bits
/// (`acc << 1 | b` for each element in turn).
pub open spec fn spec_bits_to_u32(bits: Seq<u8>) -> u32
    decreases bits.len(),
{
    if bits.len() == 0 {
        0
    } else {
        (spec_bits_to_u32(bits.drop_last()) << 1u32) | (bits.last() as u32)
    }
}

/// MSB-first bits to the integer they spell.
pub fn bits_to_u32(bits: &[u8]) -> (r: u32)
    ensures
        r == spec_bits_to_u32(bits@),
{
    let mut acc: u32 = 0;
    let mut i: usize = 0;
    while i < bits.len()
        invariant
            i <= bits.len(),
            acc == spec_bits_to_u32(bits@.take(i as int)),
        decreases bits.len() - i,
    {
        assert(bits@.take(i + 1).drop_last() =~= bits@.take(i as int));
        acc = (acc << 1) | (bits[i] as u32);
        i = i + 1;
    }
    assert(bits@.take(i as int) =~= bits@);
    acc
}

/// Bit `k` of `n` (counting from the least significant) as a 0/1 byte.
pub open spec fn spec_bit(n: u32, k: int) -> u8 {
    ((n >> (k as u32)) & 1u32) as u8
}

/// `n` as `width` MSB-first bits.
pub open spec fn spec_bits_of(n: u32, width: nat) -> Seq<u8> {
    Seq::new(width, |j: int| spec_bit(n, width - 1 - j))
}

/// Appends `n` as `width` MSB-first bits to `out`.
pub fn push_bits(out: &mut Vec<u8>, n: u32, width: usize)
    requires
        width <= 32,
    ensures
        final(out)@ == old(out)@ + spec_bits_of(n, width as nat),
{
    let mut k: usize = width;
    while k > 0
        invariant
            k <= width <= 32,
            out@ == old(out)@ + spec_bits_of(n, width as nat).take((width - k) as int),
        decreases k,
    {
        k = k - 1;
        let bit = ((n >> (k as u32)) & 1) as u8;
        out.push(bit);
        assert(spec_bits_of(n, width as nat).take((width - k) as int) =~= spec_bits_of(n, width as nat).take((width - k - 1) as int).push(bit));
    }
    assert(spec_bits_of(n, width as nat).take(width as int) =~= spec_bits_of(n, width as nat));
}

// ----------------------------------------------------------------- QAM

/// The shape of one square QAM constellation.
#[derive(Debug, Clone, Copy, PartialEq, Eq)]
pub struct QamParams {
    /// Bits per symbol, `log2(order)`.
    pub k: usize,
    /// Bits per axis, `k / 2`.
    pub m: usize,
    /// Amplitude levels per axis, `sqrt(order)`.
    pub levels: usize,
}

/// `order` is a square constellation order with `k` bits per symbol:
/// `order == 2^k` with `k` even and at least 2.
pub open spec fn square_order_bits(order: u64, k: nat) -> bool {
    &&& order == pow2(k)
    &&& k >= 2
    &&& k % 2 == 0
}

proof fn lemma_pow2_injective(a: nat, b: nat)
    requires
        pow2(a) == pow2(b),
    ensures
        a == b,
{
    if a < b {
        lemma_pow2_strictly_increases(a, b);
    } else if b < a {
        lemma_pow2_strictly_increases(b, a);
    }
}

/// Strips trailing zero bits of a nonzero value: returns `k` with
/// `x == 2^k * odd`, and whether that odd part is 1 (`x` is a power of two).
fn split_power_of_two(x: u64) -> (r: (u32, bool))
    requires
        x > 0,
    ensures
        r.1 <==> (x == pow2(r.0 as nat)),
        (exists|j: nat| x == pow2(j)) ==> r.1,
        r.0 < 64,
{
    let mut v: u64 = x;
    let mut k: u32 = 0;
    proof {
        lemma2_to64();
        lemma2_to64_rest();
    }
    while v % 2 == 0
        invariant
            v > 0,
            k < 64,
            x == v * pow2(k as nat),
            pow2(64) == 0x1_0000_0000_0000_0000,
        decreases v,
    {
        proof {
            lemma_pow2_unfold((k + 1) as nat);
            lemma_pow2_pos(k as nat);
            assert(x == (v / 2) * pow2((k + 1) as nat)) by (nonlinear_arith)
                requires
                    x == v * pow2(k as nat),
                    v % 2 == 0,
                    pow2((k + 1) as nat) == 2 * pow2(k as nat),
            ;
            assert(v / 2 >= 1);
            assert(pow2((k + 1) as nat) <= x) by (nonlinear_arith)
                requires
                    x == (v / 2) * pow2((k + 1) as nat),
                    v / 2 >= 1,
            ;
            if k + 1 >= 64 {
                if k + 1 > 64 {
                    lemma_pow2_strictly_increases(64, (k + 1) as nat);
                }
            }
        }
        v = v / 2;
        k = k + 1;
    }
    proof {
        lemma_pow2_pos(k as nat);
        if v != 1 {
            assert(v >= 3);
            assert forall|j: nat| x != pow2(j) by {
                if x == pow2(j) {
                    if j < k as nat {
                        lemma_pow2_strictly_increases(j, k as nat);
                        assert(pow2(k as nat) <= x) by (nonlinear_arith)
                            requires
                                x == v * pow2(k as nat),
                                v >= 1,
                        ;
                    } else if j == k as nat {
                        assert(v * pow2(k as nat) != pow2(k as nat)) by (nonlinear_arith)
                            requires
                                v >= 3,
                                pow2(k as nat) >= 1,
                        ;
                    } else {
                        let e = (j - k) as nat;
                        lemma_pow2_adds(k as nat, e);
                        assert(j == k as nat + e);
                        lemma_pow2_unfold(e);
                        let h = pow2((e - 1) as nat);
                        assert(v * pow2(k as nat) == (2 * h) * pow2(k as nat)) by (nonlinear_arith)
                            requires
                                x == v * pow2(k as nat),
                                x == pow2(k as nat) * pow2(e),
                                pow2(e) == 2 * h,
                        ;
                        assert(v == 2 * h) by (nonlinear_arith)
                            requires
                                v * pow2(k as nat) == (2 * h) * pow2(k as nat),
                                pow2(k as nat) >= 1,
                        ;
                    }
                }
            }
            assert(x != pow2(k as nat)) by (nonlinear_arith)
                requires
                    x == v * pow2(k as nat),
                    v >= 3,
                    pow2(k as nat) >= 1,
            ;
        }
    }
    (k, v == 1)
}

/// Validates `order` and derives the constellation's shape.
///
/// Square QAM needs `log2(order)` to be even, so the bits split evenly
/// between the two axes -- 4, 16, 64, 256, ... Cross constellations (32,
/// 128) and anything that is not a power of two of at least 4 are rejected.
pub fn qam_params(order: u64) -> (r: Result<QamParams, String>)
    ensures
        r is Ok <==> exists|k: nat| square_order_bits(order, k),
        r matches Ok(p) ==> {
            &&& square_order_bits(order, p.k as nat)
            &&& p.m == p.k / 2
            &&& p.levels == pow2(p.m as nat)
        },
{
    proof {
        lemma2_to64();
    }
    if order < 4 {
        proof {
            assert forall|k: nat| !square_order_bits(order, k) by {
                if square_order_bits(order, k) && k > 2 {
                    lemma_pow2_strictly_increases(2, k);
                }
            }
        }
        return Err(text::with_number(
            "order must be a power of two of at least 4 (4, 16, 64, 256, ...), got ",
            order,
            "",
        ));
    }
    let (k, is_power) = split_power_of_two(order);
    if !is_power {
        proof {
            assert forall|j: nat| !square_order_bits(order, j) by {
                if square_order_bits(order, j) {
                    assert(exists|jj: nat| order == pow2(jj));
                }
            }
        }
        return Err(text::with_number(
            "order must be a power of two of at least 4 (4, 16, 64, 256, ...), got ",
            order,
            "",
        ));
    }
    if k % 2 != 0 {
        proof {
            assert forall|j: nat| !square_order_bits(order, j) by {
                if square_order_bits(order, j) {
                    lemma_pow2_injective(j, k as nat);
                }
            }
        }
        return Err(text::with_two_numbers(
            "order ",
            order,
            " is not a square constellation: log2(order) = ",
            k as u64,
            " is odd, so the bits do not split evenly between I and Q. Use 4, 16, 64, 256, ...",
        ));
    }
    proof {
        if k < 2 {
            assert(k == 0);
        }
    }
    let kk: usize = k as usize;
    let m: usize = kk / 2;
    let mut levels: usize = 1;
    let mut i: usize = 0;
    while i < m
        invariant
            i <= m,
            m == kk / 2,
            kk < 64,
            levels == pow2(i as nat),
            pow2(31) == 0x8000_0000,
        decreases m - i,
    {
        proof {
            lemma_pow2_unfold((i + 1) as nat);
            if i + 1 < 31 {
                lemma_pow2_strictly_increases((i + 1) as nat, 31);
            }
        }
        levels = levels * 2;
        i = i + 1;
    }
    proof {
        assert(square_order_bits(order, k as nat));
    }
    Ok(QamParams { k: kk, m, levels })
}

// ------------------------------------------------------- Hamming(7,4)

/// The codeword for one 4-bit data word: parity bits at the power-of-two
/// positions, `[p1, p2, d1, p4, d2, d3, d4]`.
pub open spec fn spec_hamming_block(d0: u8, d1: u8, d2: u8, d3: u8) -> Seq<u8> {
    seq![d0 ^ d1 ^ d3, d0 ^ d2 ^ d3, d0, d1 ^ d2 ^ d3, d1, d2, d3]
}

/// Hamming(7,4) encoding of `data`, one 7-bit codeword per 4 data bits.
pub open spec fn spec_hamming_encode(data: Seq<u8>) -> Seq<u8>
    decreases data.len(),
{
    if data.len() < 4 {
        seq![]
    } else {
        spec_hamming_block(data[0], data[1], data[2], data[3]) + spec_hamming_encode(data.skip(4))
    }
}

/// Hamming(7,4) encoder, one 7-bit codeword per 4 data bits. A bit count
/// that is not a multiple of 4 is an error.
pub fn hamming74_encode(data: &[u8]) -> (r: Result<Vec<u8>, String>)
    ensures
        r is Ok <==> data@.len() % 4 == 0,
        r matches Ok(out) ==> out@ == spec_hamming_encode(data@),
{
    if data.len() % 4 != 0 {
        return Err(text::with_number(
            "hamming74_encode takes 4 data bits per codeword, so the bit count must be a multiple of 4; got ",
            data.len() as u64,
            "",
        ));
    }
    let mut out: Vec<u8> = Vec::new();
    let mut i: usize = 0;
    assert(data@.skip(0) =~= data@);
    assert(out@ + spec_hamming_encode(data@) =~= spec_hamming_encode(data@));
    while i < data.len()
        invariant
            i <= data.len(),
            data@.len() % 4 == 0,
            i % 4 == 0,
            out@ + spec_hamming_encode(data@.skip(i as int)) == spec_hamming_encode(data@),
        decreases data.len() - i,
    {
        let ghost rest = data@.skip(i as int);
        assert(rest.len() >= 4);
        let d0 = data[i];
        let d1 = data[i + 1];
        let d2 = data[i + 2];
        let d3 = data[i + 3];
        out.push(d0 ^ d1 ^ d3);
        out.push(d0 ^ d2 ^ d3);
        out.push(d0);
        out.push(d1 ^ d2 ^ d3);
        out.push(d1);
        out.push(d2);
        out.push(d3);
        assert(rest.skip(4) =~= data@.skip(i + 4));
        assert(rest[0] == d0 && rest[1] == d1 && rest[2] == d2 && rest[3] == d3);
        i = i + 4;
    }
    assert(data@.skip(i as int) =~= Seq::<u8>::empty());
    assert(out@ + Seq::<u8>::empty() =~= out@);
    Ok(out)
}

/// The syndrome of one received 7-byte codeword: `(s4 << 2) | (s2 << 1) | s1`.
pub open spec fn spec_syndrome(c: Seq<u8>) -> usize {
    let s1 = c[0] ^ c[2] ^ c[4] ^ c[6];
    let s2 = c[1] ^ c[2] ^ c[5] ^ c[6];
    let s4 = c[3] ^ c[4] ^ c[5] ^ c[6];
    ((s4 as usize) << 2usize) | ((s2 as usize) << 1usize) | (s1 as usize)
}

/// The received codeword with the bit its syndrome names flipped back
/// (unchanged when the syndrome is zero).
pub open spec fn spec_corrected(c: Seq<u8>) -> Seq<u8> {
    let s = spec_syndrome(c);
    if s > 0 { c.update(s - 1, c[s - 1] ^ 1u8) } else { c }
}

/// The four data bits of one corrected codeword.
pub open spec fn spec_block_data(c: Seq<u8>) -> Seq<u8> {
    let f = spec_corrected(c);
    seq![f[2], f[4], f[5], f[6]]
}

/// Every codeword's syndrome names a position inside the codeword (always
/// true of a stream of 0/1 bits).
pub open spec fn syndromes_in_range(c: Seq<u8>) -> bool
    decreases c.len(),
{
    c.len() >= 7 ==> (spec_syndrome(c) <= 7 && syndromes_in_range(c.skip(7)))
}

/// The data bits recovered from each 7-bit codeword of `c`.
pub open spec fn spec_decode_data(c: Seq<u8>) -> Seq<u8>
    decreases c.len(),
{
    if c.len() < 7 { seq![] } else { spec_block_data(c) + spec_decode_data(c.skip(7)) }
}

/// The syndrome of each 7-bit codeword of `c`.
pub open spec fn spec_decode_positions(c: Seq<u8>) -> Seq<usize>
    decreases c.len(),
{
    if c.len() < 7 { seq![] } else { seq![spec_syndrome(c)] + spec_decode_positions(c.skip(7)) }
}

/// Whether any 7-bit codeword of `c` has a nonzero syndrome.
pub open spec fn spec_any_corrected(c: Seq<u8>) -> bool
    decreases c.len(),
{
    c.len() >= 7 && (spec_syndrome(c) > 0 || spec_any_corrected(c.skip(7)))
}

/// What [`hamming74_decode`] found.
#[derive(Debug, Clone, PartialEq, Eq)]
pub struct Hamming74Decoded {
    /// The recovered data bits, 4 per input codeword.
    pub data: Vec<u8>,
    /// Per codeword, the 1-indexed bit position that was flipped back, or
    /// 0 for a codeword that arrived with a zero syndrome.
    pub positions: Vec<usize>,
    /// True when at least one codeword needed a correction.
    pub corrected: bool,
}

/// Hamming(7,4) decoder: corrects any single bit flip per codeword.
///
/// A double flip produces a nonzero syndrome too and is "corrected" to the
/// wrong codeword: the code's minimum distance is 3.
pub fn hamming74_decode(codeword: &[u8]) -> (r: Result<Hamming74Decoded, String>)
    requires
        syndromes_in_range(codeword@),
    ensures
        r is Ok <==> codeword@.len() % 7 == 0,
        r matches Ok(d) ==> {
            &&& d.data@ == spec_decode_data(codeword@)
            &&& d.positions@ == spec_decode_positions(codeword@)
            &&& d.corrected == spec_any_corrected(codeword@)
        },
{
    if codeword.len() % 7 != 0 {
        return Err(text::with_number(
            "hamming74_decode takes 7-bit codewords, so the bit count must be a multiple of 7; got ",
            codeword.len() as u64,
            "",
        ));
    }
    let mut data: Vec<u8> = Vec::new();
    let mut positions: Vec<usize> = Vec::new();
    let mut corrected = false;
    let mut i: usize = 0;
    assert(codeword@.skip(0) =~= codeword@);
    assert(data@ + spec_decode_data(codeword@) =~= spec_decode_data(codeword@));
    assert(positions@ + spec_decode_positions(codeword@) =~= spec_decode_positions(codeword@));
    while i < codeword.len()
        invariant
            i <= codeword.len(),
            codeword@.len() % 7 == 0,
            i % 7 == 0,
            syndromes_in_range(codeword@.skip(i as int)),
            data@ + spec_decode_data(codeword@.skip(i as int)) == spec_decode_data(codeword@),
            positions@ + spec_decode_positions(codeword@.skip(i as int)) == spec_decode_positions(codeword@),
            (corrected || spec_any_corrected(codeword@.skip(i as int))) == spec_any_corrected(codeword@),
        decreases codeword.len() - i,
    {
        let ghost rest = codeword@.skip(i as int);
        assert(rest.len() >= 7);
        let mut c: Vec<u8> = Vec::new();
        let mut j: usize = 0;
        while j < 7
            invariant
                j <= 7,
                i + 7 <= codeword.len(),
                rest == codeword@.skip(i as int),
                c@ == rest.take(j as int),
            decreases 7 - j,
        {
            c.push(codeword[i + j]);
            assert(rest.take(j + 1) =~= rest.take(j as int).push(rest[j as int]));
            j = j + 1;
        }
        assert(c@ =~= rest.take(7));
        let s1 = c[0] ^ c[2] ^ c[4] ^ c[6];
        let s2 = c[1] ^ c[2] ^ c[5] ^ c[6];
        let s4 = c[3] ^ c[4] ^ c[5] ^ c[6];
        let syndrome: usize = ((s4 as usize) << 2) | ((s2 as usize) << 1) | (s1 as usize);
        assert(syndrome == spec_syndrome(rest));
        if syndrome > 0 {
            let flipped = c[syndrome - 1] ^ 1;
            c.set(syndrome - 1, flipped);
            corrected = true;
        }
        assert(c@ =~= spec_corrected(rest).take(7));
        positions.push(syndrome);
        data.push(c[2]);
        data.push(c[4]);
        data.push(c[5]);
        data.push(c[6]);
        assert(rest.skip(7) =~= codeword@.skip(i + 7));
        i = i + 7;
    }
    assert(codeword@.skip(i as int) =~= Seq::<u8>::empty());
    assert(data@ + Seq::<u8>::empty() =~= data@);
    assert(positions@ + Seq::<usize>::empty() =~= positions@);
    Ok(Hamming74Decoded { data, positions, corrected })
}

/// Decoding a clean encoding gives the data back, reports every syndrome
/// as zero and makes no correction (for a stream of 0/1 bits).
pub proof fn lemma_hamming_round_trip(data: Seq<u8>)
    requires
        data.len() % 4 == 0,
        forall|i: int| 0 <= i < data.len() ==> #[trigger] data[i] <= 1,
    ensures
        syndromes_in_range(spec_hamming_encode(data)),
        spec_decode_data(spec_hamming_encode(data)) == data,
        spec_decode_positions(spec_hamming_encode(data)) == Seq::new(data.len() / 4, |i: int| 0usize),
        !spec_any_corrected(spec_hamming_encode(data)),
    decreases data.len(),
{
    let c = spec_hamming_encode(data);
    if data.len() == 0 {
        assert(spec_decode_data(c) =~= data);
        assert(spec_decode_positions(c) =~= Seq::new(0, |i: int| 0usize));
    } else {
        let rest = data.skip(4);
        assert forall|i: int| 0 <= i < rest.len() implies #[trigger] rest[i] <= 1 by {
            assert(rest[i] == data[i + 4]);
        }
        lemma_hamming_round_trip(rest);
        let (d0, d1, d2, d3) = (data[0], data[1], data[2], data[3]);
        assert(d0 <= 1 && d1 <= 1 && d2 <= 1 && d3 <= 1);
        let b = spec_hamming_block(d0, d1, d2, d3);
        assert(c == b + spec_hamming_encode(rest));
        assert(c.skip(7) =~= spec_hamming_encode(rest));
        let s1 = b[0] ^ b[2] ^ b[4] ^ b[6];
        let s2 = b[1] ^ b[2] ^ b[5] ^ b[6];
        let s4 = b[3] ^ b[4] ^ b[5] ^ b[6];
        assert(s1 == 0 && s2 == 0 && s4 == 0) by (bit_vector)
            requires
                d0 <= 1, d1 <= 1, d2 <= 1, d3 <= 1,
                s1 == (d0 ^ d1 ^ d3) ^ d0 ^ d1 ^ d3,
                s2 == (d0 ^ d2 ^ d3) ^ d0 ^ d2 ^ d3,
                s4 == (d1 ^ d2 ^ d3) ^ d1 ^ d2 ^ d3,
        ;
        assert(c[0] == b[0] && c[1] == b[1] && c[2] == b[2] && c[3] == b[3]);
        assert(c[4] == b[4] && c[5] == b[5] && c[6] == b[6]);
        assert(((0u8 as usize) << 2usize) | ((0u8 as usize) << 1usize) | (0u8 as usize) == 0usize) by (bit_vector);
        assert(spec_syndrome(c) == 0);
        assert(spec_block_data(c) =~= seq![d0, d1, d2, d3]);
        assert(data =~= seq![d0, d1, d2, d3] + rest);
        assert(spec_decode_positions(c) =~= Seq::new(data.len() / 4, |i: int| 0usize));
    }
}

/// A single flipped bit anywhere in one codeword of a clean encoding is
/// corrected: the data comes back intact, the corrected flag is raised, and
/// that codeword's syndrome is the 1-indexed position of the flip (every
/// other codeword reports 0).
pub proof fn lemma_hamming_corrects_single_flip(data: Seq<u8>, pos: int)
    requires
        data.len() % 4 == 0,
        forall|i: int| 0 <= i < data.len() ==> #[trigger] data[i] <= 1,
        0 <= pos < spec_hamming_encode(data).len(),
    ensures
        ({
            let c = spec_hamming_encode(data);
            let bad = c.update(pos, c[pos] ^ 1u8);
            &&& syndromes_in_range(bad)
            &&& spec_decode_data(bad) == data
            &&& spec_any_corrected(bad)
            &&& spec_decode_positions(bad) == Seq::new(data.len() / 4, |i: int| if i == pos / 7 { (pos % 7 + 1) as usize } else { 0usize })
        }),
    decreases data.len(),
{
    let c = spec_hamming_encode(data);
    let bad = c.update(pos, c[pos] ^ 1u8);
    lemma_hamming_round_trip(data);
    let rest = data.skip(4);
    assert forall|i: int| 0 <= i < rest.len() implies #[trigger] rest[i] <= 1 by {
        assert(rest[i] == data[i + 4]);
    }
    let (d0, d1, d2, d3) = (data[0], data[1], data[2], data[3]);
    assert(d0 <= 1 && d1 <= 1 && d2 <= 1 && d3 <= 1);
    let b = spec_hamming_block(d0, d1, d2, d3);
    assert(c == b + spec_hamming_encode(rest));
    assert(c.skip(7) =~= spec_hamming_encode(rest));
    assert(data =~= seq![d0, d1, d2, d3] + rest);
    lemma_hamming_round_trip(rest);
    if pos >= 7 {
        lemma_hamming_corrects_single_flip(rest, pos - 7);
        let c2 = spec_hamming_encode(rest);
        assert(bad.skip(7) =~= c2.update(pos - 7, c2[pos - 7] ^ 1u8));
        assert(bad.take(7) =~= c.take(7));
        assert(bad[0] == c[0] && bad[1] == c[1] && bad[2] == c[2] && bad[3] == c[3]);
        assert(bad[4] == c[4] && bad[5] == c[5] && bad[6] == c[6]);
        assert(spec_syndrome(bad) == spec_syndrome(c));
        let s1 = b[0] ^ b[2] ^ b[4] ^ b[6];
        let s2 = b[1] ^ b[2] ^ b[5] ^ b[6];
        let s4 = b[3] ^ b[4] ^ b[5] ^ b[6];
        assert(s1 == 0 && s2 == 0 && s4 == 0) by (bit_vector)
            requires
                d0 <= 1, d1 <= 1, d2 <= 1, d3 <= 1,
                s1 == (d0 ^ d1 ^ d3) ^ d0 ^ d1 ^ d3,
                s2 == (d0 ^ d2 ^ d3) ^ d0 ^ d2 ^ d3,
                s4 == (d1 ^ d2 ^ d3) ^ d1 ^ d2 ^ d3,
        ;
        assert(((0u8 as usize) << 2usize) | ((0u8 as usize) << 1usize) | (0u8 as usize) == 0usize) by (bit_vector);
        assert(spec_syndrome(bad) == 0);
        assert(spec_block_data(bad) =~= seq![d0, d1, d2, d3]);
        assert(spec_decode_positions(bad) =~= Seq::new(data.len() / 4, |i: int| if i == pos / 7 { (pos % 7 + 1) as usize } else { 0usize }));
    } else {
        assert(bad.skip(7) =~= spec_hamming_encode(rest));
        lemma_flip_in_block(d0, d1, d2, d3, pos);
        assert(bad[0] == spec_hamming_block(d0, d1, d2, d3).update(pos, b[pos] ^ 1u8)[0]);
        assert(bad.take(7) =~= b.update(pos, b[pos] ^ 1u8));
        assert(spec_syndrome(bad) == spec_syndrome(bad.take(7)));
        assert(spec_corrected(bad).take(7) =~= spec_corrected(bad.take(7)));
        assert(spec_block_data(bad) =~= spec_block_data(bad.take(7)));
        assert(spec_decode_positions(bad) =~= Seq::new(data.len() / 4, |i: int| if i == pos / 7 { (pos % 7 + 1) as usize } else { 0usize }));
    }
}

/// One codeword with bit `pos` flipped decodes to its data word and
/// reports syndrome `pos + 1`.
proof fn lemma_flip_in_block(d0: u8, d1: u8, d2: u8, d3: u8, pos: int)
    requires
        d0 <= 1, d1 <= 1, d2 <= 1, d3 <= 1,
        0 <= pos < 7,
    ensures
        ({
            let b = spec_hamming_block(d0, d1, d2, d3);
            let bad = b.update(pos, b[pos] ^ 1u8);
            &&& spec_syndrome(bad) == (pos + 1) as usize
            &&& spec_block_data(bad) == seq![d0, d1, d2, d3]
        }),
{
    let b = spec_hamming_block(d0, d1, d2, d3);
    let bad = b.update(pos, b[pos] ^ 1u8);
    let p0 = d0 ^ d1 ^ d3;
    let p1 = d0 ^ d2 ^ d3;
    let p3 = d1 ^ d2 ^ d3;
    let c0 = bad[0];
    let c1 = bad[1];
    let c2 = bad[2];
    let c3 = bad[3];
    let c4 = bad[4];
    let c5 = bad[5];
    let c6 = bad[6];
    let s1 = c0 ^ c2 ^ c4 ^ c6;
    let s2 = c1 ^ c2 ^ c5 ^ c6;
    let s4 = c3 ^ c4 ^ c5 ^ c6;
    let syn = ((s4 as usize) << 2usize) | ((s2 as usize) << 1usize) | (s1 as usize);
    let f0: u8 = if pos == 0 { p0 ^ 1u8 } else { p0 };
    let f1: u8 = if pos == 1 { p1 ^ 1u8 } else { p1 };
    let f2: u8 = if pos == 2 { d0 ^ 1u8 } else { d0 };
    let f3: u8 = if pos == 3 { p3 ^ 1u8 } else { p3 };
    let f4: u8 = if pos == 4 { d1 ^ 1u8 } else { d1 };
    let f5: u8 = if pos == 5 { d2 ^ 1u8 } else { d2 };
    let f6: u8 = if pos == 6 { d3 ^ 1u8 } else { d3 };
    assert(c0 == f0 && c1 == f1 && c2 == f2 && c3 == f3 && c4 == f4 && c5 == f5 && c6 == f6);
    let pp: u8 = pos as u8;
    assert(syn == (pp as usize) + 1) by (bit_vector)
        requires
            d0 <= 1, d1 <= 1, d2 <= 1, d3 <= 1, pp < 7,
            p0 == d0 ^ d1 ^ d3, p1 == d0 ^ d2 ^ d3, p3 == d1 ^ d2 ^ d3,
            f0 == if pp == 0 { p0 ^ 1u8 } else { p0 },
            f1 == if pp == 1 { p1 ^ 1u8 } else { p1 },
            f2 == if pp == 2 { d0 ^ 1u8 } else { d0 },
            f3 == if pp == 3 { p3 ^ 1u8 } else { p3 },
            f4 == if pp == 4 { d1 ^ 1u8 } else { d1 },
            f5 == if pp == 5 { d2 ^ 1u8 } else { d2 },
            f6 == if pp == 6 { d3 ^ 1u8 } else { d3 },
            s1 == f0 ^ f2 ^ f4 ^ f6,
            s2 == f1 ^ f2 ^ f5 ^ f6,
            s4 == f3 ^ f4 ^ f5 ^ f6,
            syn == ((s4 as usize) << 2usize) | ((s2 as usize) << 1usize) | (s1 as usize),
    ;
    assert(spec_syndrome(bad) == syn);
    let fixed = spec_corrected(bad);
    assert(fixed == bad.update(pos, bad[pos] ^ 1u8));
    assert(bad[pos] ^ 1u8 == b[pos]) by {
        let x = b[pos];
        assert((x ^ 1u8) ^ 1u8 == x) by (bit_vector);
    }
    assert(fixed =~= b);
    assert(spec_block_data(bad) =~= seq![d0, d1, d2, d3]);
}

// ----------------------------------------------------------------- CRC

/// `buf` with `poly` exclusive-or'ed in starting at position `i`.
pub open spec fn spec_xor_at(buf: Seq<u8>, poly: Seq<u8>, i: int) -> Seq<u8> {
    Seq::new(buf.len(), |j: int| if i <= j < i + poly.len() { buf[j] ^ poly[j - i] } else { buf[j] })
}

/// One step of mod-2 long division: subtract (xor) the divisor at `i` when
/// the leading bit there is set.
pub open spec fn spec_div_step(buf: Seq<u8>, poly: Seq<u8>, i: int) -> Seq<u8> {
    if buf[i] == 1 { spec_xor_at(buf, poly, i) } else { buf }
}

/// The first `n` steps of mod-2 long division of `buf` by `poly`.
pub open spec fn spec_div_steps(buf: Seq<u8>, poly: Seq<u8>, n: nat) -> Seq<u8>
    decreases n,
{
    if n == 0 { buf } else { spec_div_step(spec_div_steps(buf, poly, (n - 1) as nat), poly, n - 1) }
}

/// Mod-2 long division of `buf` by `poly`: the remainder ends up in the
/// trailing `poly.len() - 1` positions.
pub open spec fn spec_divide_mod2(buf: Seq<u8>, poly: Seq<u8>) -> Seq<u8> {
    if buf.len() < poly.len() { buf } else { spec_div_steps(buf, poly, (buf.len() - (poly.len() - 1)) as nat) }
}

/// A generator polynomial is well formed: at least two bits, MSB-first,
/// with its leading 1 included.
pub open spec fn valid_poly(poly: Seq<u8>) -> bool {
    poly.len() >= 2 && poly[0] == 1
}

/// The CRC remainder of `bits` under `poly`: divide `bits` followed by
/// `poly.len() - 1` zeros and keep the trailing positions.
pub open spec fn spec_crc(bits: Seq<u8>, poly: Seq<u8>) -> Seq<u8> {
    spec_divide_mod2(bits + Seq::new((poly.len() - 1) as nat, |i: int| 0u8), poly).skip(bits.len() as int)
}

/// `codeword` divides cleanly by `poly`: every remainder position is zero.
pub open spec fn spec_crc_clean(codeword: Seq<u8>, poly: Seq<u8>) -> bool {
    let d = spec_divide_mod2(codeword, poly);
    forall|j: int| codeword.len() - (poly.len() - 1) <= j < codeword.len() ==> #[trigger] d[j] == 0
}

/// Checks a generator polynomial and returns its CRC width in bits.
fn crc_width(poly: &[u8]) -> (r: Result<usize, String>)
    ensures
        r is Ok <==> valid_poly(poly@),
        r matches Ok(w) ==> w == poly@.len() - 1,
{
    if poly.len() < 2 {
        return Err(text::with_number(
            "a CRC generator polynomial needs at least 2 bits (leading 1 plus the width); got ",
            poly.len() as u64,
            "",
        ));
    }
    if poly[0] != 1 {
        return Err(text::owned(
            "a CRC generator polynomial must be written MSB-first with its leading 1 included, e.g. x^3 + x + 1 as [1, 0, 1, 1] or as the number 11",
        ));
    }
    Ok(poly.len() - 1)
}

/// Mod-2 long division of `buf` by `poly`, in place, leaving the remainder
/// in the trailing `poly.len() - 1` positions.
fn divide_mod2(buf: &mut Vec<u8>, poly: &[u8])
    requires
        poly@.len() >= 1,
    ensures
        final(buf)@ == spec_divide_mod2(old(buf)@, poly@),
        final(buf)@.len() == old(buf)@.len(),
{
    proof {
        lemma_divide_mod2_len(buf@, poly@);
    }
    let width = poly.len() - 1;
    if buf.len() < poly.len() {
        return;
    }
    let steps = buf.len() - width;
    let ghost start = buf@;
    let mut i: usize = 0;
    while i < steps
        invariant
            steps == start.len() - width,
            width == poly@.len() - 1,
            start.len() >= poly@.len(),
            start.len() <= usize::MAX,
            i <= steps,
            buf@ == spec_div_steps(start, poly@, i as nat),
            buf@.len() == start.len(),
        decreases steps - i,
    {
        let ghost before = buf@;
        if buf[i] == 1 {
            let mut j: usize = 0;
            while j < poly.len()
                invariant
                    i + poly@.len() <= before.len(),
                    buf@.len() == before.len(),
                    before.len() <= usize::MAX,
                    j <= poly@.len(),
                    buf@ == Seq::new(before.len(), |k: int| if i <= k < i + j { before[k] ^ poly@[k - i] } else { before[k] }),
                decreases poly@.len() - j,
            {
                let v = buf[i + j] ^ poly[j];
                buf.set(i + j, v);
                assert(buf@ =~= Seq::new(before.len(), |k: int| if i <= k < i + j + 1 { before[k] ^ poly@[k - i] } else { before[k] }));
                j = j + 1;
            }
            assert(buf@ =~= spec_xor_at(before, poly@, i as int));
        }
        i = i + 1;
    }
}

proof fn lemma_div_steps_len(buf: Seq<u8>, poly: Seq<u8>, n: nat)
    requires
        n + poly.len() <= buf.len() + 1,
    ensures
        spec_div_steps(buf, poly, n).len() == buf.len(),
    decreases n,
{
    if n > 0 {
        lemma_div_steps_len(buf, poly, (n - 1) as nat);
    }
}

proof fn lemma_divide_mod2_len(buf: Seq<u8>, poly: Seq<u8>)
    requires
        poly.len() >= 1,
    ensures
        spec_divide_mod2(buf, poly).len() == buf.len(),
{
    if buf.len() >= poly.len() {
        lemma_div_steps_len(buf, poly, (buf.len() - (poly.len() - 1)) as nat);
    }
}

/// The CRC remainder of `bits` under generator `poly`, as `poly.len() - 1`
/// bits: textbook unreflected, zero-initialized polynomial division (the
/// message shifted left by the CRC width and divided mod 2).
pub fn crc(bits: &[u8], poly: &[u8]) -> (r: Result<Vec<u8>, String>)
    ensures
        r is Ok <==> valid_poly(poly@),
        r matches Ok(rem) ==> rem@ == spec_crc(bits@, poly@),
{
    let width = crc_width(poly)?;
    let mut buf: Vec<u8> = Vec::new();
    let mut i: usize = 0;
    while i < bits.len()
        invariant
            i <= bits.len(),
            buf@ == bits@.take(i as int),
        decreases bits.len() - i,
    {
        buf.push(bits[i]);
        assert(bits@.take(i + 1) =~= bits@.take(i as int).push(bits@[i as int]));
        i = i + 1;
    }
    let mut z: usize = 0;
    while z < width
        invariant
            z <= width,
            buf@ == bits@ + Seq::new(z as nat, |k: int| 0u8),
        decreases width - z,
    {
        buf.push(0);
        assert(bits@ + Seq::new((z + 1) as nat, |k: int| 0u8) =~= (bits@ + Seq::new(z as nat, |k: int| 0u8)).push(0u8));
        z = z + 1;
    }
    assert(bits@.take(bits@.len() as int) =~= bits@);
    divide_mod2(&mut buf, poly);
    let mut out: Vec<u8> = Vec::new();
    let mut k: usize = bits.len();
    while k < buf.len()
        invariant
            bits@.len() <= k <= buf@.len(),
            out@ == buf@.subrange(bits@.len() as int, k as int),
        decreases buf.len() - k,
    {
        out.push(buf[k]);
        assert(buf@.subrange(bits@.len() as int, k + 1) =~= buf@.subrange(bits@.len() as int, k as int).push(buf@[k as int]));
        k = k + 1;
    }
    assert(out@ =~= spec_crc(bits@, poly@));
    Ok(out)
}

/// True when `codeword` (a message with its CRC already appended) divides
/// cleanly -- the remainder is all zeros. An invalid polynomial, or a
/// codeword shorter than the CRC width, is an error.
pub fn crc_check(codeword: &[u8], poly: &[u8]) -> (r: Result<bool, String>)
    ensures
        r is Ok <==> (valid_poly(poly@) && codeword@.len() >= poly@.len() - 1),
        r matches Ok(b) ==> b == spec_crc_clean(codeword@, poly@),
{
    let width = crc_width(poly)?;
    if codeword.len() < width {
        return Err(text::with_two_numbers(
            "a codeword carrying a ",
            width as u64,
            "-bit CRC needs at least that many bits; got ",
            codeword.len() as u64,
            "",
        ));
    }
    let mut buf: Vec<u8> = Vec::new();
    let mut i: usize = 0;
    while i < codeword.len()
        invariant
            i <= codeword.len(),
            buf@ == codeword@.take(i as int),
        decreases codeword.len() - i,
    {
        buf.push(codeword[i]);
        assert(codeword@.take(i + 1) =~= codeword@.take(i as int).push(codeword@[i as int]));
        i = i + 1;
    }
    assert(codeword@.take(codeword@.len() as int) =~= codeword@);
    divide_mod2(&mut buf, poly);
    let mut k: usize = codeword.len() - width;
    while k < buf.len()
        invariant
            codeword@.len() - width <= k <= buf@.len(),
            buf@.len() == codeword@.len(),
            width == poly@.len() - 1,
            valid_poly(poly@),
            codeword@.len() >= width,
            buf@ == spec_divide_mod2(codeword@, poly@),
            forall|j: int| codeword@.len() - width <= j < k ==> #[trigger] buf@[j] == 0,
        decreases buf.len() - k,
    {
        if buf[k] != 0 {
            return Ok(false);
        }
        k = k + 1;
    }
    Ok(true)
}

/// Pointwise exclusive-or of two sequences of the same length.
pub open spec fn spec_xor_seq(a: Seq<u8>, d: Seq<u8>) -> Seq<u8> {
    Seq::new(a.len(), |j: int| a[j] ^ d[j])
}

/// Division is linear in the part of the dividend that no step looks at:
/// xor-ing a difference `d` that is zero over the first `m` positions into
/// the dividend xors exactly `d` into the state after `m` steps.
proof fn lemma_div_steps_xor(a: Seq<u8>, d: Seq<u8>, poly: Seq<u8>, m: nat)
    requires
        a.len() == d.len(),
        m + poly.len() <= a.len() + 1,
        poly.len() >= 1,
        forall|j: int| 0 <= j < m ==> #[trigger] d[j] == 0,
    ensures
        spec_div_steps(spec_xor_seq(a, d), poly, m) == spec_xor_seq(spec_div_steps(a, poly, m), d),
        spec_div_steps(a, poly, m).len() == a.len(),
    decreases m,
{
    if m == 0 {
    } else {
        let m1 = (m - 1) as nat;
        lemma_div_steps_xor(a, d, poly, m1);
        let sa = spec_div_steps(a, poly, m1);
        let sb = spec_div_steps(spec_xor_seq(a, d), poly, m1);
        assert(sb == spec_xor_seq(sa, d));
        let i = m1 as int;
        assert(d[i] == 0);
        let x = sa[i];
        assert(x ^ 0u8 == x) by (bit_vector);
        assert(sb[i] == sa[i]);
        if sa[i] == 1 {
            assert forall|j: int| 0 <= j < a.len() implies #[trigger] spec_xor_at(sb, poly, i)[j] == spec_xor_seq(spec_xor_at(sa, poly, i), d)[j] by {
                if i <= j < i + poly.len() {
                    let (p, q, r) = (sa[j], d[j], poly[j - i]);
                    assert((p ^ q) ^ r == (p ^ r) ^ q) by (bit_vector);
                }
            }
            assert(spec_xor_at(sb, poly, i) =~= spec_xor_seq(spec_xor_at(sa, poly, i), d));
        }
    }
}

/// Appending a message's CRC makes a codeword that checks out clean.
pub proof fn lemma_crc_appended_checks(msg: Seq<u8>, poly: Seq<u8>)
    requires
        valid_poly(poly),
    ensures
        spec_crc_clean(msg + spec_crc(msg, poly), poly),
{
    let w = (poly.len() - 1) as nat;
    let n = msg.len();
    let zeros = Seq::new(w, |i: int| 0u8);
    let a = msg + zeros;
    let r = spec_crc(msg, poly);
    let b = msg + r;
    let d = Seq::new(n, |i: int| 0u8) + r;
    lemma_divide_mod2_len(a, poly);
    lemma_div_steps_xor(a, Seq::new(a.len(), |i: int| 0u8), poly, 0);
    assert(spec_divide_mod2(a, poly) == spec_div_steps(a, poly, n));
    lemma_div_steps_xor(a, d, poly, n);
    assert(r.len() == w);
    assert forall|j: int| 0 <= j < b.len() implies #[trigger] b[j] == spec_xor_seq(a, d)[j] by {
        if j < n {
            let x = msg[j];
            assert(x ^ 0u8 == x) by (bit_vector);
        } else {
            let y = r[j - n];
            assert(0u8 ^ y == y) by (bit_vector);
        }
    }
    assert(b =~= spec_xor_seq(a, d));
    assert(spec_divide_mod2(b, poly) == spec_div_steps(b, poly, n));
    let fa = spec_div_steps(a, poly, n);
    let fb = spec_divide_mod2(b, poly);
    assert forall|j: int| b.len() - w <= j < b.len() implies #[trigger] fb[j] == 0 by {
        assert(fb[j] == fa[j] ^ d[j]);
        assert(d[j] == r[j - n]);
        assert(r[j - n] == fa[j]);
        let x = fa[j];
        assert(x ^ x == 0) by (bit_vector);
    }
}

} // verus!
