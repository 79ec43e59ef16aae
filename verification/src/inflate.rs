//! DEFLATE (RFC 1951) and zlib (RFC 1950) decompression.
//!
//! The decoder is the canonical-Huffman one: symbols are decoded bit by
//! bit against per-length counts rather than through a lookup table.

use vstd::prelude::*;
use vstd::arithmetic::div_mod::{lemma_add_mod_noop, lemma_mod_bound};
use vstd::arithmetic::power2::{pow2, lemma_pow2_pos, lemma_pow2_unfold, lemma2_to64, lemma_pow2_strictly_increases};
use vstd::bits::{lemma_u32_pow2_no_overflow, lemma_u32_shl_is_mul};
use crate::bytes::{get_le16, get_be32, push_range, read_be32};

verus! {

/// The Adler-32 modulus, the largest prime below 2^16.
pub const MOD_ADLER: u32 = 65521;

/// The sum of the bytes of `s`.
pub open spec fn byte_sum(s: Seq<u8>) -> int
    decreases s.len(),
{
    if s.len() == 0 { 0 } else { byte_sum(s.drop_last()) + s.last() }
}

/// `A` of every prefix of `s` (`1 +` the prefix's byte sum), summed over
/// the non-empty prefixes.
pub open spec fn prefix_a_sum(s: Seq<u8>) -> int
    decreases s.len(),
{
    if s.len() == 0 { 0 } else { prefix_a_sum(s.drop_last()) + 1 + byte_sum(s) }
}

/// Adler-32 of `s` (RFC 1950 §9): `A = 1 + sum of bytes`, `B = sum of A
/// over every prefix`, both modulo 65521, packed as `B * 65536 + A`.
pub open spec fn adler32_spec(s: Seq<u8>) -> u32 {
    ((prefix_a_sum(s) % 65521) * 65536 + (1 + byte_sum(s)) % 65521) as u32
}

/// Adler-32 (RFC 1950 §9), the checksum every zlib stream ends with.
pub fn adler32(data: &[u8]) -> (r: u32)
    ensures
        r == adler32_spec(data@),
{
    let mut a: u32 = 1;
    let mut b: u32 = 0;
    let mut i: usize = 0;
    while i < data.len()
        invariant
            i <= data@.len(),
            a == (1 + byte_sum(data@.take(i as int))) % 65521,
            b == prefix_a_sum(data@.take(i as int)) % 65521,
        decreases data@.len() - i,
    {
        let ghost s = data@.take(i as int);
        let ghost s1 = data@.take(i + 1);
        assert(s1.drop_last() =~= s);
        assert(s1.last() == data@[i as int]);
        proof {
            lemma_add_mod_noop(1 + byte_sum(s), data@[i as int] as int, 65521);
            lemma_mod_bound(1 + byte_sum(s1), 65521);
            lemma_add_mod_noop(prefix_a_sum(s), 1 + byte_sum(s1), 65521);
            lemma_mod_bound(prefix_a_sum(s1), 65521);
        }
        a = (a + data[i] as u32) % MOD_ADLER;
        b = (b + a) % MOD_ADLER;
        i = i + 1;
    }
    assert(data@.take(i as int) =~= data@);
    proof {
        lemma_mod_bound(prefix_a_sum(data@), 65521);
        lemma_mod_bound(1 + byte_sum(data@), 65521);
        assert((b << 16u32) | a == b * 65536 + a) by (bit_vector)
            requires b < 65521u32, a < 65521u32;
    }
    (b << 16) | a
}

/// Bit `i` of the stream: DEFLATE reads each byte least significant bit
/// first.
pub open spec fn bit_at(data: Seq<u8>, i: int) -> nat {
    ((data[i / 8] >> ((i % 8) as u8)) & 1u8) as nat
}

/// The `n` bits at `p` as a number, the first bit least significant (how
/// DEFLATE stores every field except Huffman codes).
pub open spec fn bits_lsb(data: Seq<u8>, p: int, n: nat) -> nat
    decreases n,
{
    if n == 0 { 0 } else { bits_lsb(data, p, (n - 1) as nat) + bit_at(data, p + n - 1) * pow2((n - 1) as nat) }
}

/// The `n` bits at `p` as a number, the first bit most significant (how
/// Huffman codes are packed).
pub open spec fn bits_msb(data: Seq<u8>, p: int, n: nat) -> nat
    decreases n,
{
    if n == 0 { 0 } else { 2 * bits_msb(data, p, (n - 1) as nat) + bit_at(data, p + n - 1) }
}

/// Reads bits from a byte slice, least significant bit of each byte first.
struct BitReader<'a> {
    data: &'a [u8],
    /// Index of the byte holding the next unread bit.
    byte: usize,
    /// Index of the next unread bit within that byte.
    bit: u8,
}

impl<'a> BitReader<'a> {
    /// Index of the next unread bit of the stream.
    spec fn pos(&self) -> int {
        self.byte * 8 + self.bit
    }

    spec fn wf(&self) -> bool {
        &&& self.bit < 8
        &&& self.byte <= self.data@.len()
        &&& self.byte == self.data@.len() ==> self.bit == 0
    }

    fn new(data: &'a [u8]) -> (r: Self)
        ensures
            r.wf(),
            r.data@ == data@,
            r.pos() == 0,
    {
        BitReader { data, byte: 0, bit: 0 }
    }

    /// The next bit.
    fn next_bit(&mut self) -> (r: u32)
        requires
            old(self).wf(),
            old(self).pos() < old(self).data@.len() * 8,
        ensures
            final(self).wf(),
            final(self).data == old(self).data,
            final(self).pos() == old(self).pos() + 1,
            r == bit_at(old(self).data@, old(self).pos()),
            r <= 1,
    {
        let byte = self.data[self.byte];
        let shift = self.bit;
        let b = (byte >> shift) & 1;
        assert(b <= 1) by (bit_vector)
            requires b == (byte >> shift) & 1u8;
        assert(self.pos() / 8 == self.byte && self.pos() % 8 == self.bit);
        if self.bit == 7 {
            self.bit = 0;
            self.byte = self.byte + 1;
        } else {
            self.bit = self.bit + 1;
        }
        b as u32
    }

    /// The next `n` bits, least significant first; `Err` when the stream
    /// ends first.
    fn take(&mut self, n: u32) -> (r: Result<u32, String>)
        requires
            old(self).wf(),
            n <= 16,
        ensures
            final(self).wf(),
            final(self).data == old(self).data,
            (old(self).pos() + n <= old(self).data@.len() * 8) == (r is Ok),
            r matches Ok(v) ==> v == bits_lsb(old(self).data@, old(self).pos(), n as nat)
                && final(self).pos() == old(self).pos() + n && v < 0x10000,
    {
        if n == 0 {
            return Ok(0);
        }
        let left_bytes = self.data.len() - self.byte;
        if left_bytes <= 2 && left_bytes * 8 - (self.bit as usize) < n as usize {
            return Err(crate::text::owned("compressed stream ended mid-symbol"));
        }
        let ghost start = self.pos();
        let mut v: u32 = 0;
        let mut k: u32 = 0;
        proof {
            lemma2_to64();
        }
        while k < n
            invariant
                self.wf(),
                self.data == old(self).data,
                k <= n <= 16,
                self.pos() == start + k,
                start + n <= self.data@.len() * 8,
                v == bits_lsb(self.data@, start, k as nat),
                v < pow2(k as nat),
            decreases n - k,
        {
            let b = self.next_bit();
            proof {
                lemma_or_is_add(v, b, k);
                lemma_pow2_unfold((k + 1) as nat);
            }
            v = v | (b << k);
            k = k + 1;
        }
        proof {
            if n < 16 {
                lemma_pow2_strictly_increases(n as nat, 16);
            }
        }
        Ok(v)
    }

    /// Skips to the next byte boundary: a stored block starts byte-aligned.
    fn align(&mut self)
        requires
            old(self).wf(),
        ensures
            final(self).wf(),
            final(self).data == old(self).data,
            final(self).bit == 0,
            final(self).pos() == align_up(old(self).pos()),
    {
        let n = self.data.len();
        if self.bit != 0 {
            self.bit = 0;
            self.byte = self.byte + 1;
        }
    }

    /// Appends the next `n` whole bytes to `out`; `Err` when the stream has
    /// fewer.
    fn take_bytes(&mut self, n: usize, out: &mut Vec<u8>) -> (r: Result<(), String>)
        requires
            old(self).wf(),
            old(self).bit == 0,
        ensures
            final(self).wf(),
            final(self).data == old(self).data,
            (old(self).byte + n <= old(self).data@.len()) == (r is Ok),
            r is Ok ==> final(out)@ == old(out)@ + old(self).data@.subrange(old(self).byte as int, old(self).byte + n)
                && final(self).byte == old(self).byte + n && final(self).bit == 0,
    {
        if self.data.len() - self.byte < n {
            return Err(crate::text::owned("compressed stream ended inside a stored block"));
        }
        push_range(out, self.data, self.byte, self.byte + n);
        self.byte = self.byte + n;
        Ok(())
    }
}

/// How many entries of `lengths` equal `l`.
pub open spec fn count_len(lengths: Seq<u8>, l: int) -> nat
    decreases lengths.len(),
{
    if lengths.len() == 0 {
        0
    } else {
        count_len(lengths.drop_last(), l) + if lengths.last() == l { 1nat } else { 0nat }
    }
}

/// How many codes lie before the first code of length `len` in canonical
/// order: the codes of lengths `1 .. len`.
pub open spec fn huff_index(count: Seq<u16>, len: nat) -> int
    decreases len,
{
    if len <= 1 { 0 } else { huff_index(count, (len - 1) as nat) + count[len - 1] }
}

/// The first canonical code of length `len` (RFC 1951 §3.2.2): the codes
/// of each length follow on, doubled, from those of the length before.
pub open spec fn huff_first(count: Seq<u16>, len: nat) -> int
    decreases len,
{
    if len <= 1 { 0 } else { (huff_first(count, (len - 1) as nat) + count[len - 1]) * 2 }
}

/// Codes still free at length `l` of a binary tree after placing the codes
/// of lengths `1 ..= l`; negative means the lengths over-subscribe it.
pub open spec fn kraft_left(count: Seq<u16>, l: nat) -> int
    decreases l,
{
    if l == 0 { 1 } else { 2 * kraft_left(count, (l - 1) as nat) - count[l as int] }
}

/// The per-length code counts of `lengths` (index 0, "absent", is 0).
pub open spec fn length_counts(lengths: Seq<u8>) -> Seq<u16> {
    Seq::new(16, |l: int| if l == 0 { 0u16 } else { count_len(lengths, l) as u16 })
}

/// `lengths` is a usable table: every length below 16 and the tree not
/// over-subscribed (an incomplete tree is allowed).
pub open spec fn lengths_ok(lengths: Seq<u8>) -> bool {
    &&& forall|i: int| 0 <= i < lengths.len() ==> #[trigger] lengths[i] < 16
    &&& kraft_left(length_counts(lengths), 15) >= 0
}

/// The canonical symbol table filled in symbol order: each symbol of
/// length `l` goes to the next free slot of the block for length `l`.
/// Returns the per-length next-slot offsets and the table after the first
/// `k` symbols.
pub open spec fn canon_fill(lengths: Seq<u8>, k: nat) -> (Seq<int>, Seq<u16>)
    decreases k,
{
    if k == 0 {
        (
            Seq::new(16, |l: int| if 1 <= l { huff_index(length_counts(lengths), l as nat) } else { 0 }),
            Seq::new(lengths.len(), |i: int| 0u16),
        )
    } else {
        let (o, t) = canon_fill(lengths, (k - 1) as nat);
        let l = lengths[k - 1] as int;
        if l == 0 { (o, t) } else { (o.update(l, o[l] + 1), t.update(o[l], (k - 1) as u16)) }
    }
}

/// The symbols in canonical order: by code length, then by symbol value.
pub open spec fn canon_symbols(lengths: Seq<u8>) -> Seq<u16> {
    canon_fill(lengths, lengths.len()).1
}

/// Outcome of decoding one Huffman code.
pub enum Decoded {
    /// The symbol, and the bit position just after its code.
    Symbol(u16, int),
    /// The stream ended inside the code.
    OutOfData,
    /// No code of any length matches the bits.
    Invalid,
}

/// Decoding a canonical Huffman code at bit `p`, trying lengths from `len`
/// up: the code read so far matches at a length when it lies within that
/// length's run of codes.
pub open spec fn huff_decode_from(count: Seq<u16>, symbols: Seq<u16>, data: Seq<u8>, p: int, len: nat) -> Decoded
    decreases 16 - len,
{
    if len >= 16 || len == 0 {
        Decoded::Invalid
    } else if p + len > data.len() * 8 {
        Decoded::OutOfData
    } else if bits_msb(data, p, len) - huff_first(count, len) < count[len as int] {
        Decoded::Symbol(symbols[huff_index(count, len) + bits_msb(data, p, len) - huff_first(count, len)], p + len)
    } else {
        huff_decode_from(count, symbols, data, p, len + 1)
    }
}

/// Decoding the canonical Huffman code at bit `p` of `data`.
pub open spec fn huff_decode(count: Seq<u16>, symbols: Seq<u16>, data: Seq<u8>, p: int) -> Decoded {
    huff_decode_from(count, symbols, data, p, 1)
}

/// A canonical Huffman table as RFC 1951 describes it: how many codes
/// exist at each length, and the symbols in canonical order.
struct Huffman {
    /// `count[l]` is the number of codes of length `l`; `count[0]` is 0.
    count: Vec<u16>,
    symbols: Vec<u16>,
}

impl Huffman {
    spec fn wf(&self) -> bool {
        &&& self.count@.len() == 16
        &&& self.count@[0] == 0
        &&& huff_index(self.count@, 16) <= self.symbols@.len() <= 320
    }

    /// Builds the table from a code length per symbol; a length of 0 means
    /// the symbol is absent. Lengths of 16 or more, and sets of lengths
    /// that over-subscribe the code tree, are errors; an incomplete tree is
    /// allowed (a distance table with one code is legal).
    fn new(lengths: &[u8]) -> (r: Result<Huffman, String>)
        requires
            lengths@.len() <= 320,
        ensures
            (r is Ok) == lengths_ok(lengths@),
            r matches Ok(h) ==> h.wf() && h.count@ == length_counts(lengths@)
                && h.symbols@ == canon_symbols(lengths@),
    {
        let n = lengths.len();
        let mut count: Vec<u16> = vec![0u16; 16];
        let mut i: usize = 0;
        while i < n
            invariant
                i <= n,
                n == lengths@.len(),
                n <= 320,
                count@.len() == 16,
                forall|l: int| 0 <= l < 16 ==> #[trigger] count@[l] == count_len(lengths@.take(i as int), l),
                forall|j: int| 0 <= j < i ==> #[trigger] lengths@[j] < 16,
            decreases n - i,
        {
            let l = lengths[i];
            if l >= 16 {
                return Err(crate::text::with_number("Huffman code length ", l as u64, " exceeds the 15-bit maximum"));
            }
            proof {
                assert(lengths@.take(i + 1).drop_last() =~= lengths@.take(i as int));
                lemma_count_len_le(lengths@.take(i as int), l as int);
            }
            let c = count[l as usize];
            count.set(l as usize, c + 1);
            i = i + 1;
        }
        assert(lengths@.take(n as int) =~= lengths@);
        count.set(0, 0);
        proof {
            assert forall|l: int| 0 <= l < 16 implies #[trigger] count@[l] == length_counts(lengths@)[l] by {
                if l > 0 {
                    lemma_count_len_le(lengths@, l);
                }
            }
            assert(count@ =~= length_counts(lengths@));
        }
        let mut left: i32 = 1;
        let mut l: usize = 1;
        proof {
            lemma2_to64();
        }
        while l < 16
            invariant
                1 <= l <= 16,
                count@ == length_counts(lengths@),
                n == lengths@.len(),
                n <= 320,
                left == kraft_left(count@, (l - 1) as nat),
                0 <= left <= pow2((l - 1) as nat),
                forall|j: int| 0 <= j < n ==> #[trigger] lengths@[j] < 16,
                pow2(15) == 32768,
            decreases 16 - l,
        {
            proof {
                lemma_pow2_unfold(l as nat);
                if l < 15 {
                    lemma_pow2_strictly_increases(l as nat, 15);
                }
            }
            left = left * 2 - count[l] as i32;
            if left < 0 {
                proof {
                    lemma_kraft_negative_stays(count@, l as nat, 15);
                }
                return Err(crate::text::owned("over-subscribed Huffman table in compressed stream"));
            }
            l = l + 1;
        }
        let mut offs: Vec<u16> = vec![0u16; 16];
        proof {
            lemma_huff_index_le_len(lengths@, 16);
        }
        let mut l: usize = 1;
        while l < 15
            invariant
                1 <= l <= 15,
                count@ == length_counts(lengths@),
                n == lengths@.len(),
                n <= 320,
                huff_index(count@, 16) <= n,
                offs@.len() == 16,
                offs@[0] == 0,
                kraft_left(count@, 15) >= 0,
                forall|j: int| 0 <= j < n ==> #[trigger] lengths@[j] < 16,
                forall|k: int| 1 <= k <= l ==> #[trigger] offs@[k] == huff_index(count@, k as nat),
                forall|k: int| l < k < 16 ==> #[trigger] offs@[k] == 0,
            decreases 15 - l,
        {
            proof {
                lemma_huff_index_mono(count@, (l + 1) as nat, 16);
            }
            let next = offs[l] + count[l];
            offs.set(l + 1, next);
            l = l + 1;
        }
        let mut symbols: Vec<u16> = vec![0u16; n];
        proof {
            lemma_canon_fill(lengths@, 0);
            assert(symbols@ =~= canon_fill(lengths@, 0).1);
            assert forall|k: int| 0 <= k < 16 implies #[trigger] offs@[k] == canon_fill(lengths@, 0).0[k] by {}
        }
        let mut sym: usize = 0;
        while sym < n
            invariant
                sym <= n,
                n == lengths@.len(),
                n <= 320,
                forall|j: int| 0 <= j < n ==> #[trigger] lengths@[j] < 16,
                offs@.len() == 16,
                symbols@ == canon_fill(lengths@, sym as nat).1,
                forall|k: int| 0 <= k < 16 ==> #[trigger] offs@[k] == canon_fill(lengths@, sym as nat).0[k],
                count@ == length_counts(lengths@),
                huff_index(count@, 16) <= n,
                kraft_left(count@, 15) >= 0,
            decreases n - sym,
        {
            let l = lengths[sym];
            proof {
                lemma_canon_fill(lengths@, sym as nat);
                lemma_canon_fill(lengths@, (sym + 1) as nat);
            }
            if l != 0 {
                proof {
                    lemma_canon_slot(lengths@, sym as nat);
                }
                let o = offs[l as usize];
                symbols.set(o as usize, sym as u16);
                offs.set(l as usize, o + 1);
            }
            proof {
                assert(symbols@ =~= canon_fill(lengths@, (sym + 1) as nat).1);
            }
            sym = sym + 1;
        }
        proof {
            lemma_canon_fill(lengths@, n as nat);
        }
        Ok(Huffman { count, symbols })
    }

    /// Decodes one symbol: reads the code a bit at a time, first bit most
    /// significant, until it falls within the run of codes of its length.
    fn decode(&self, r: &mut BitReader) -> (res: Result<u16, String>)
        requires
            self.wf(),
            old(r).wf(),
        ensures
            final(r).wf(),
            final(r).data == old(r).data,
            match huff_decode(self.count@, self.symbols@, old(r).data@, old(r).pos()) {
                Decoded::Symbol(sym, np) => res == Ok::<u16, String>(sym) && final(r).pos() == np,
                _ => res is Err,
            },
    {
        let ghost start = r.pos();
        let mut code: i32 = 0;
        let mut first: i32 = 0;
        let mut index: i32 = 0;
        let mut len: usize = 1;
        proof {
            lemma2_to64();
        }
        while len < 16
            invariant
                1 <= len <= 16,
                self.wf(),
                r.wf(),
                r.data == old(r).data,
                r.pos() == start + len - 1,
                start == old(r).pos(),
                code == 2 * bits_msb(r.data@, start, (len - 1) as nat),
                first == huff_first(self.count@, len as nat),
                index == huff_index(self.count@, len as nat),
                code >= first,
                pow2(0) == 1,
                huff_decode(self.count@, self.symbols@, r.data@, start)
                    == huff_decode_from(self.count@, self.symbols@, r.data@, start, len as nat),
            decreases 16 - len,
        {
            proof {
                lemma_bits_msb_bound(r.data@, start, (len - 1) as nat);
                lemma_huff_first_bound(self.count@, len as nat);
                lemma_huff_index_mono(self.count@, len as nat, 16);
                lemma_huff_index_mono(self.count@, (len + 1) as nat, 16);
            }
            let b = match r.take(1) {
                Ok(v) => v,
                Err(e) => {
                    assert(start + len > r.data@.len() * 8);
                    assert(huff_decode_from(self.count@, self.symbols@, r.data@, start, len as nat) == Decoded::OutOfData);
                    return Err(e);
                },
            };
            proof {
                lemma2_to64();
                lemma_bit_at_le1(r.data@, start + len - 1);
                lemma_bits_lsb_one(r.data@, start + len - 1);
                lemma_pow2_unfold(len as nat);
                if len < 15 {
                    lemma_pow2_strictly_increases(len as nat, 15);
                }
            }
            code = code + b as i32;
            let count = self.count[len] as i32;
            if code - first < count {
                return Ok(self.symbols[(index + (code - first)) as usize]);
            }
            index = index + count;
            first = (first + count) * 2;
            code = code * 2;
            len = len + 1;
        }
        Err(crate::text::owned("invalid Huffman code in compressed stream"))
    }
}

/// A count never exceeds the number of entries.
pub proof fn lemma_count_len_le_pub(s: Seq<u8>, l: int)
    ensures
        count_len(s, l) <= s.len(),
{
    lemma_count_len_le(s, l);
}

proof fn lemma_count_len_le(s: Seq<u8>, l: int)
    ensures
        count_len(s, l) <= s.len(),
    decreases s.len(),
{
    if s.len() > 0 {
        lemma_count_len_le(s.drop_last(), l);
    }
}

/// Counting over a longer prefix counts at least as many.
proof fn lemma_count_len_prefix(s: Seq<u8>, a: nat, b: nat, l: int)
    requires
        a <= b <= s.len(),
    ensures
        count_len(s.take(a as int), l) <= count_len(s.take(b as int), l),
        b < s.len() && s[b as int] == l ==> count_len(s.take(b as int), l) + 1 == count_len(s.take(b as int + 1), l),
    decreases b - a,
{
    if b < s.len() {
        assert(s.take(b as int + 1).drop_last() =~= s.take(b as int));
    }
    if a < b {
        lemma_count_len_prefix(s, a, (b - 1) as nat, l);
        assert(s.take(b as int).drop_last() =~= s.take(b - 1));
    }
}

/// Adding one entry adds one code to the shorter-than-`len` total exactly
/// when its length is in `1 .. len`.
proof fn lemma_huff_index_step(s: Seq<u8>, len: nat)
    requires
        s.len() > 0,
        s.len() <= 320,
        len <= 16,
    ensures
        huff_index(length_counts(s), len) == huff_index(length_counts(s.drop_last()), len)
            + if 1 <= s.last() && s.last() < len { 1int } else { 0int },
    decreases len,
{
    if len > 1 {
        let l1 = (len - 1) as nat;
        lemma_huff_index_step(s, l1);
        lemma_count_len_le(s, l1 as int);
        lemma_count_len_le(s.drop_last(), l1 as int);
        assert(length_counts(s)[l1 as int] == count_len(s, l1 as int));
        assert(length_counts(s.drop_last())[l1 as int] == count_len(s.drop_last(), l1 as int));
    }
}

/// The codes of lengths `1 .. len` are at most all the entries.
proof fn lemma_huff_index_le_len(s: Seq<u8>, len: nat)
    requires
        s.len() <= 320,
        len <= 16,
    ensures
        0 <= huff_index(length_counts(s), len) <= s.len(),
    decreases s.len(),
{
    lemma_huff_index_nonneg(length_counts(s), len);
    if s.len() > 0 {
        lemma_huff_index_step(s, len);
        lemma_huff_index_le_len(s.drop_last(), len);
    } else {
        lemma_huff_index_zero(s, len);
    }
}

proof fn lemma_huff_index_zero(s: Seq<u8>, len: nat)
    requires
        s.len() == 0,
        len <= 16,
    ensures
        huff_index(length_counts(s), len) == 0,
    decreases len,
{
    if len > 1 {
        lemma_huff_index_zero(s, (len - 1) as nat);
        assert(length_counts(s)[len - 1] == 0);
    }
}

/// Once over-subscribed, always over-subscribed.
proof fn lemma_kraft_negative_stays(count: Seq<u16>, a: nat, b: nat)
    requires
        a <= b,
        kraft_left(count, a) < 0,
    ensures
        kraft_left(count, b) < 0,
    decreases b - a,
{
    if a < b {
        lemma_kraft_negative_stays(count, a, (b - 1) as nat);
    }
}

/// The fill offsets: each length's next slot is its block start plus the
/// symbols of that length seen so far; the table keeps its size.
proof fn lemma_canon_fill(lengths: Seq<u8>, k: nat)
    requires
        k <= lengths.len(),
        lengths.len() <= 320,
        forall|i: int| 0 <= i < lengths.len() ==> #[trigger] lengths[i] < 16,
    ensures
        canon_fill(lengths, k).0.len() == 16,
        canon_fill(lengths, k).1.len() == lengths.len(),
        canon_fill(lengths, k).0[0] == 0,
        forall|l: int| 1 <= l < 16 ==> #[trigger] canon_fill(lengths, k).0[l]
            == huff_index(length_counts(lengths), l as nat) + count_len(lengths.take(k as int), l),
    decreases k,
{
    if k == 0 {
        assert forall|l: int| 1 <= l < 16 implies #[trigger] canon_fill(lengths, k).0[l]
            == huff_index(length_counts(lengths), l as nat) + count_len(lengths.take(k as int), l) by {
            assert(lengths.take(0).len() == 0);
        }
        assert(canon_fill(lengths, k).1.len() == lengths.len());
    } else {
        lemma_canon_fill(lengths, (k - 1) as nat);
        assert(lengths.take(k as int).drop_last() =~= lengths.take(k - 1));
        let (o, t) = canon_fill(lengths, (k - 1) as nat);
        let l = lengths[k - 1] as int;
        if l != 0 {
            lemma_count_len_prefix(lengths, (k - 1) as nat, (k - 1) as nat, l);
            lemma_count_len_prefix(lengths, k, lengths.len(), l);
            assert(lengths.take(lengths.len() as int) =~= lengths);
            lemma_count_len_le(lengths, l);
            assert(length_counts(lengths)[l] == count_len(lengths, l));
            lemma_huff_index_mono(length_counts(lengths), (l + 1) as nat, 16);
            lemma_huff_index_le_len(lengths, 16);
            assert(o[l] < lengths.len());
            lemma_huff_index_nonneg(length_counts(lengths), l as nat);
            assert(o[l] >= 0);
            assert(canon_fill(lengths, k).1 == t.update(o[l], (k - 1) as u16));
            assert(canon_fill(lengths, k).1.len() == lengths.len());
        } else {
            assert(canon_fill(lengths, k).1 == t);
            assert(canon_fill(lengths, k).1.len() == lengths.len());
        }
    }
}

/// The slot the next symbol of length `l` goes to lies inside the table.
proof fn lemma_canon_slot(lengths: Seq<u8>, k: nat)
    requires
        k < lengths.len(),
        lengths.len() <= 320,
        lengths[k as int] != 0,
        forall|i: int| 0 <= i < lengths.len() ==> #[trigger] lengths[i] < 16,
    ensures
        0 <= canon_fill(lengths, k).0[lengths[k as int] as int] < lengths.len(),
{
    let l = lengths[k as int] as int;
    lemma_canon_fill(lengths, k);
    lemma_count_len_prefix(lengths, k, k, l);
    lemma_count_len_prefix(lengths, k + 1, lengths.len(), l);
    assert(lengths.take(lengths.len() as int) =~= lengths);
    lemma_count_len_le(lengths, l);
    assert(length_counts(lengths)[l] == count_len(lengths, l));
    lemma_huff_index_mono(length_counts(lengths), (l + 1) as nat, 16);
    lemma_huff_index_le_len(lengths, 16);
    lemma_huff_index_nonneg(length_counts(lengths), l as nat);
}

/// Earlier lengths hold no more codes than later ones.
proof fn lemma_huff_index_mono(count: Seq<u16>, a: nat, b: nat)
    requires
        a <= b,
    ensures
        huff_index(count, a) <= huff_index(count, b),
        a >= 1 ==> huff_index(count, a) >= 0,
    decreases b - a,
{
    if a < b {
        lemma_huff_index_mono(count, a, (b - 1) as nat);
    }
    if a >= 1 {
        lemma_huff_index_nonneg(count, a);
    }
}

proof fn lemma_huff_index_nonneg(count: Seq<u16>, a: nat)
    ensures
        huff_index(count, a) >= 0,
    decreases a,
{
    if a > 1 {
        lemma_huff_index_nonneg(count, (a - 1) as nat);
    }
}

/// The first code of a length is at most `2^len` times the number of
/// shorter codes.
proof fn lemma_huff_first_bound(count: Seq<u16>, len: nat)
    requires
        len >= 1,
    ensures
        0 <= huff_first(count, len) <= pow2(len) * huff_index(count, len),
    decreases len,
{
    lemma_pow2_pos(len);
    lemma_huff_index_nonneg(count, len);
    if len > 1 {
        let l1 = (len - 1) as nat;
        lemma_huff_first_bound(count, l1);
        lemma_pow2_pos(l1);
        lemma_pow2_unfold(len);
        lemma_huff_index_nonneg(count, l1);
        let f = huff_first(count, l1);
        let p = pow2(l1);
        let i = huff_index(count, l1);
        let c = count[l1 as int] as int;
        assert(c <= p * c) by (nonlinear_arith) requires p >= 1, c >= 0;
        assert((f + c) * 2 <= (2 * p) * (i + c)) by (nonlinear_arith)
            requires f <= p * i, c <= p * c, p >= 1, i >= 0, c >= 0;
    }
}

/// A one-bit field is that bit.
proof fn lemma_bits_lsb_one(data: Seq<u8>, p: int)
    ensures
        bits_lsb(data, p, 1) == bit_at(data, p),
{
    lemma2_to64();
    assert(bits_lsb(data, p, 0) == 0);
    assert(bits_lsb(data, p, 1) == bits_lsb(data, p, 0) + bit_at(data, p) * pow2(0));
}

/// A bit is 0 or 1.
proof fn lemma_bit_at_le1(data: Seq<u8>, i: int)
    ensures
        bit_at(data, i) <= 1,
{
    let byte = data[i / 8];
    let sh = (i % 8) as u8;
    assert((byte >> sh) & 1u8 <= 1u8) by (bit_vector);
}

/// An `n`-bit code is below `2^n`.
proof fn lemma_bits_msb_bound(data: Seq<u8>, p: int, n: nat)
    ensures
        bits_msb(data, p, n) < pow2(n),
    decreases n,
{
    if n == 0 {
        lemma2_to64();
    } else {
        lemma_bits_msb_bound(data, p, (n - 1) as nat);
        lemma_pow2_unfold(n);
        lemma_bit_at_le1(data, p + n - 1);
    }
}

/// Base match length of length codes 257..285 (RFC 1951 §3.2.5).
pub open spec fn length_base(i: int) -> int {
    seq![3int, 4, 5, 6, 7, 8, 9, 10, 11, 13, 15, 17, 19, 23, 27, 31, 35, 43, 51, 59, 67, 83, 99, 115, 131,
        163, 195, 227, 258][i]
}

/// Extra bits after each length code.
pub open spec fn length_extra(i: int) -> nat {
    seq![0nat, 0, 0, 0, 0, 0, 0, 0, 1, 1, 1, 1, 2, 2, 2, 2, 3, 3, 3, 3, 4, 4, 4, 4, 5, 5, 5, 5, 0][i]
}

/// Base distance of distance codes 0..29.
pub open spec fn dist_base(i: int) -> int {
    seq![1int, 2, 3, 4, 5, 7, 9, 13, 17, 25, 33, 49, 65, 97, 129, 193, 257, 385, 513, 769, 1025, 1537,
        2049, 3073, 4097, 6145, 8193, 12289, 16385, 24577][i]
}

/// Extra bits after each distance code.
pub open spec fn dist_extra(i: int) -> nat {
    seq![0nat, 0, 0, 0, 1, 1, 2, 2, 3, 3, 4, 4, 5, 5, 6, 6, 7, 7, 8, 8, 9, 9, 10, 10, 11, 11, 12, 12, 13, 13][i]
}

/// The order in which a dynamic block stores the code-length code's own
/// lengths (RFC 1951 §3.2.7).
pub open spec fn code_length_order() -> Seq<int> {
    seq![16int, 17, 18, 0, 8, 7, 9, 6, 10, 5, 11, 4, 12, 3, 13, 2, 14, 1, 15]
}

/// `out` followed by a copy of `len` bytes starting `d` back from its end;
/// the copy may overlap what it writes, which repeats the last `d` bytes.
pub open spec fn copy_back(out: Seq<u8>, d: int, len: int) -> Seq<u8> {
    out + Seq::new(len as nat, |k: int| out[out.len() - d + k % d])
}

/// The Huffman-coded symbols of one block, from bit `p`, appended to
/// `out`: literals are copied, 256 ends the block, 257..285 are a
/// length/distance back-reference. Gives the output and the position after
/// the end-of-block code, or `None` for a malformed or truncated stream.
pub open spec fn inflate_codes(lit: Seq<u8>, dist: Seq<u8>, data: Seq<u8>, p: int, out: Seq<u8>) -> Option<(Seq<u8>, int)>
    decreases data.len() * 8 - p,
{
    if p < 0 || p >= data.len() * 8 {
        None
    } else {
        match huff_decode(length_counts(lit), canon_symbols(lit), data, p) {
            Decoded::Symbol(sym, p1) => {
                proof {
                    lemma_huff_decode_advances(length_counts(lit), canon_symbols(lit), data, p, 1);
                }
                if sym < 256 {
                    inflate_codes(lit, dist, data, p1, out.push(sym as u8))
                } else if sym == 256 {
                    Some((out, p1))
                } else if sym <= 285 {
                    let idx = sym - 257;
                    let eb = length_extra(idx);
                    if p1 + eb > data.len() * 8 {
                        None
                    } else {
                        let len = length_base(idx) + bits_lsb(data, p1, eb);
                        match huff_decode(length_counts(dist), canon_symbols(dist), data, p1 + eb) {
                            Decoded::Symbol(dsym, p2) => {
                                proof {
                                    lemma_huff_decode_advances(length_counts(dist), canon_symbols(dist), data, p1 + eb, 1);
                                }
                                if dsym >= 30 {
                                    None
                                } else {
                                    let deb = dist_extra(dsym as int);
                                    if p2 + deb > data.len() * 8 {
                                        None
                                    } else {
                                        let d = dist_base(dsym as int) + bits_lsb(data, p2, deb);
                                        if d > out.len() {
                                            None
                                        } else {
                                            inflate_codes(lit, dist, data, p2 + deb, copy_back(out, d, len))
                                        }
                                    }
                                }
                            },
                            _ => None,
                        }
                    }
                } else {
                    None
                }
            },
            _ => None,
        }
    }
}

/// A bit position rounded up to a byte boundary.
pub open spec fn align_up(p: int) -> int {
    ((p + 7) / 8) * 8
}

/// A stored block whose body starts at bit `p`: skip to the next byte
/// boundary, read `LEN` and `NLEN` (little-endian, one the complement of
/// the other), then copy `LEN` bytes.
pub open spec fn inflate_stored(data: Seq<u8>, p: int, out: Seq<u8>) -> Option<(Seq<u8>, int)> {
    let b = align_up(p) / 8;
    if b + 4 > data.len() {
        None
    } else {
        let len = get_le16(data, b);
        if len != !get_le16(data, b + 2) {
            None
        } else if b + 4 + len > data.len() {
            None
        } else {
            Some((out + data.subrange(b + 4, b + 4 + len), (b + 4 + len) * 8))
        }
    }
}

/// The fixed literal/length code lengths of RFC 1951 §3.2.6.
pub open spec fn fixed_lit_lengths() -> Seq<u8> {
    Seq::new(288, |i: int| if i < 144 { 8u8 } else if i < 256 { 9u8 } else if i < 280 { 7u8 } else { 8u8 })
}

/// The fixed distance code lengths: all 30 codes 5 bits long.
pub open spec fn fixed_dist_lengths() -> Seq<u8> {
    Seq::new(30, |i: int| 5u8)
}

/// A block coded with the fixed tables, its symbols starting at bit `p`.
pub open spec fn inflate_fixed(data: Seq<u8>, p: int, out: Seq<u8>) -> Option<(Seq<u8>, int)> {
    if lengths_ok(fixed_lit_lengths()) && lengths_ok(fixed_dist_lengths()) {
        inflate_codes(fixed_lit_lengths(), fixed_dist_lengths(), data, p, out)
    } else {
        None
    }
}

/// Where code-length-code length `slot` sits in the stored order.
pub open spec fn code_length_rank(slot: int) -> int {
    seq![3int, 17, 15, 13, 11, 9, 7, 5, 4, 6, 8, 10, 12, 14, 16, 18, 0, 1, 2][slot]
}

/// The 19 code-length-code lengths of a dynamic block: `hclen` 3-bit
/// fields from bit `p`, in the stored order, the rest 0.
pub open spec fn code_length_lengths(data: Seq<u8>, p: int, hclen: int) -> Seq<u8> {
    Seq::new(19, |slot: int| if code_length_rank(slot) < hclen {
        bits_lsb(data, p + 3 * code_length_rank(slot), 3) as u8
    } else {
        0u8
    })
}

/// `s` with `n` entries from `i` set to `v`.
pub open spec fn fill_run(s: Seq<u8>, i: int, n: int, v: u8) -> Seq<u8> {
    Seq::new(s.len(), |k: int| if i <= k < i + n { v } else { s[k] })
}

/// The run-length-coded code lengths of a dynamic block, from entry `i`
/// and bit `p`: 0..15 is a length, 16 repeats the previous length 3..6
/// times, 17 and 18 leave 3..10 and 11..138 entries at zero.
pub open spec fn code_lengths(cl: Seq<u8>, data: Seq<u8>, p: int, lengths: Seq<u8>, i: int) -> Option<(Seq<u8>, int)>
    decreases data.len() * 8 - p,
{
    if i >= lengths.len() {
        Some((lengths, p))
    } else {
        match huff_decode(length_counts(cl), canon_symbols(cl), data, p) {
            Decoded::Symbol(sym, p1) => {
                proof {
                    lemma_huff_decode_advances(length_counts(cl), canon_symbols(cl), data, p, 1);
                }
                if sym <= 15 {
                    code_lengths(cl, data, p1, lengths.update(i, sym as u8), i + 1)
                } else if sym == 16 {
                    if i == 0 || p1 + 2 > data.len() * 8 {
                        None
                    } else {
                        let n: int = 3 + bits_lsb(data, p1, 2) as int;
                        if i + n > lengths.len() {
                            None
                        } else {
                            code_lengths(cl, data, p1 + 2, fill_run(lengths, i, n, lengths[i - 1]), i + n)
                        }
                    }
                } else if sym == 17 || sym == 18 {
                    let eb: nat = if sym == 17 { 3 } else { 7 };
                    if p1 + eb > data.len() * 8 {
                        None
                    } else {
                        let n = (if sym == 17 { 3int } else { 11int }) + bits_lsb(data, p1, eb);
                        if i + n > lengths.len() {
                            None
                        } else {
                            code_lengths(cl, data, p1 + eb, lengths, i + n)
                        }
                    }
                } else {
                    None
                }
            },
            _ => None,
        }
    }
}

/// A dynamic block whose header starts at bit `p`: `HLIT`, `HDIST`,
/// `HCLEN`, the code-length code, the run-length-coded lengths of both
/// tables, then the symbols.
pub open spec fn inflate_dynamic(data: Seq<u8>, p: int, out: Seq<u8>) -> Option<(Seq<u8>, int)> {
    if p + 14 > data.len() * 8 {
        None
    } else {
        let hlit: int = bits_lsb(data, p, 5) as int + 257;
        let hdist: int = bits_lsb(data, p + 5, 5) as int + 1;
        let hclen: int = bits_lsb(data, p + 10, 4) as int + 4;
        if p + 14 + 3 * hclen > data.len() * 8 {
            None
        } else {
            let cl = code_length_lengths(data, p + 14, hclen);
            if !lengths_ok(cl) {
                None
            } else {
                match code_lengths(cl, data, p + 14 + 3 * hclen, Seq::new((hlit + hdist) as nat, |k: int| 0u8), 0) {
                    Some((lengths, p2)) => {
                        let lit = lengths.take(hlit);
                        let dist = lengths.skip(hlit);
                        if lengths_ok(lit) && lengths_ok(dist) {
                            inflate_codes(lit, dist, data, p2, out)
                        } else {
                            None
                        }
                    },
                    None => None,
                }
            }
        }
    }
}

/// The DEFLATE blocks from bit `p`, each with a `BFINAL` bit and a 2-bit
/// type, appended to `out`, up to and including the final one.
#[verifier::opaque]
pub open spec fn inflate_blocks(data: Seq<u8>, p: int, out: Seq<u8>) -> Option<Seq<u8>>
    decreases data.len() * 8 - p,
{
    if p < 0 || p + 3 > data.len() * 8 {
        None
    } else {
        let btype = bits_lsb(data, p + 1, 2);
        let block = if btype == 0 {
            inflate_stored(data, p + 3, out)
        } else if btype == 1 {
            inflate_fixed(data, p + 3, out)
        } else if btype == 2 {
            inflate_dynamic(data, p + 3, out)
        } else {
            None
        };
        match block {
            Some((out2, p2)) => {
                proof {
                    lemma_block_advances(data, p + 3, out);
                }
                if bit_at(data, p) == 1 { Some(out2) } else { inflate_blocks(data, p2, out2) }
            },
            None => None,
        }
    }
}

/// A stored block at bit `p`: its bytes, then the blocks after it unless
/// it is the final one.
pub proof fn lemma_inflate_blocks_stored(data: Seq<u8>, p: int, out: Seq<u8>)
    requires
        0 <= p,
        p + 3 <= data.len() * 8,
        bits_lsb(data, p + 1, 2) == 0,
    ensures
        inflate_blocks(data, p, out) == match inflate_stored(data, p + 3, out) {
            Some((o, q)) => if bit_at(data, p) == 1 { Some(o) } else { inflate_blocks(data, q, o) },
            None => None,
        },
{
    reveal(inflate_blocks);
}

/// What a raw DEFLATE stream decompresses to, or `None`.
pub open spec fn inflate_spec(data: Seq<u8>) -> Option<Seq<u8>> {
    inflate_blocks(data, 0, seq![])
}

/// Every kind of block ends after it starts and inside the stream.
pub proof fn lemma_block_advances(data: Seq<u8>, p: int, out: Seq<u8>)
    requires
        0 <= p,
    ensures
        inflate_stored(data, p, out) matches Some((o, q)) ==> p <= q <= data.len() * 8,
        inflate_fixed(data, p, out) matches Some((o, q)) ==> p <= q <= data.len() * 8,
        inflate_dynamic(data, p, out) matches Some((o, q)) ==> p <= q <= data.len() * 8,
{
    lemma_codes_advances(fixed_lit_lengths(), fixed_dist_lengths(), data, p, out);
    if p + 14 <= data.len() * 8 {
        let hlit: int = bits_lsb(data, p, 5) as int + 257;
        let hdist: int = bits_lsb(data, p + 5, 5) as int + 1;
        let hclen: int = bits_lsb(data, p + 10, 4) as int + 4;
        let cl = code_length_lengths(data, p + 14, hclen);
        let z = Seq::new((hlit + hdist) as nat, |k: int| 0u8);
        lemma_code_lengths_advances(cl, data, p + 14 + 3 * hclen, z, 0);
        if let Some((lengths, p2)) = code_lengths(cl, data, p + 14 + 3 * hclen, z, 0) {
            lemma_codes_advances(lengths.take(hlit), lengths.skip(hlit), data, p2, out);
        }
    }
}

/// The symbols of a block end after they start and inside the stream.
pub proof fn lemma_codes_advances(lit: Seq<u8>, dist: Seq<u8>, data: Seq<u8>, p: int, out: Seq<u8>)
    ensures
        inflate_codes(lit, dist, data, p, out) matches Some((o, q)) ==> p < q <= data.len() * 8,
    decreases data.len() * 8 - p,
{
    if 0 <= p < data.len() * 8 {
        lemma_huff_decode_advances(length_counts(lit), canon_symbols(lit), data, p, 1);
        if let Decoded::Symbol(sym, p1) = huff_decode(length_counts(lit), canon_symbols(lit), data, p) {
            if sym < 256 {
                lemma_codes_advances(lit, dist, data, p1, out.push(sym as u8));
            } else if 256 < sym <= 285 {
                let idx = sym - 257;
                let eb = length_extra(idx);
                if p1 + eb <= data.len() * 8 {
                    let len = length_base(idx) + bits_lsb(data, p1, eb);
                    lemma_huff_decode_advances(length_counts(dist), canon_symbols(dist), data, p1 + eb, 1);
                    if let Decoded::Symbol(dsym, p2) = huff_decode(length_counts(dist), canon_symbols(dist), data, p1 + eb) {
                        if dsym < 30 {
                            let deb = dist_extra(dsym as int);
                            let d = dist_base(dsym as int) + bits_lsb(data, p2, deb);
                            if p2 + deb <= data.len() * 8 && d <= out.len() {
                                lemma_codes_advances(lit, dist, data, p2 + deb, copy_back(out, d, len));
                            }
                        }
                    }
                }
            }
        }
    }
}

/// Reading code lengths ends at or after where it starts, inside the stream.
pub proof fn lemma_code_lengths_advances(cl: Seq<u8>, data: Seq<u8>, p: int, lengths: Seq<u8>, i: int)
    requires
        0 <= p,
    ensures
        code_lengths(cl, data, p, lengths, i) matches Some((l, q)) ==> p <= q && (i < lengths.len() ==> q <= data.len() * 8),
    decreases data.len() * 8 - p,
{
    if i < lengths.len() {
        lemma_huff_decode_advances(length_counts(cl), canon_symbols(cl), data, p, 1);
        if let Decoded::Symbol(sym, p1) = huff_decode(length_counts(cl), canon_symbols(cl), data, p) {
            if sym <= 15 {
                lemma_code_lengths_advances(cl, data, p1, lengths.update(i, sym as u8), i + 1);
            } else if sym == 16 {
                if i != 0 && p1 + 2 <= data.len() * 8 {
                    let n: int = 3 + bits_lsb(data, p1, 2) as int;
                    lemma_code_lengths_advances(cl, data, p1 + 2, fill_run(lengths, i, n, lengths[i - 1]), i + n);
                }
            } else if sym == 17 || sym == 18 {
                let eb: nat = if sym == 17 { 3 } else { 7 };
                let n = (if sym == 17 { 3int } else { 11int }) + bits_lsb(data, p1, eb);
                if p1 + eb <= data.len() * 8 {
                    lemma_code_lengths_advances(cl, data, p1 + eb, lengths, i + n);
                }
            }
        }
    }
}

fn length_base_of(i: usize) -> (r: u16)
    requires
        i < 29,
    ensures
        r == length_base(i as int),
{
    let t: [u16; 29] = [
        3, 4, 5, 6, 7, 8, 9, 10, 11, 13, 15, 17, 19, 23, 27, 31, 35, 43, 51, 59, 67, 83, 99, 115, 131, 163, 195, 227,
        258,
    ];
    assert(t@ =~= seq![3u16, 4, 5, 6, 7, 8, 9, 10, 11, 13, 15, 17, 19, 23, 27, 31, 35, 43, 51, 59, 67, 83, 99, 115, 131, 163, 195, 227, 258]);
    t[i]
}

/// Decodes one Huffman-coded block's symbols into `out`, through its
/// end-of-block code.
fn inflate_block(
    r: &mut BitReader,
    out: &mut Vec<u8>,
    lit: &Huffman,
    dist: &Huffman,
    Ghost(lit_lengths): Ghost<Seq<u8>>,
    Ghost(dist_lengths): Ghost<Seq<u8>>,
) -> (res: Result<(), String>)
    requires
        old(r).wf(),
        lit.wf(),
        dist.wf(),
        lit.count@ == length_counts(lit_lengths),
        lit.symbols@ == canon_symbols(lit_lengths),
        dist.count@ == length_counts(dist_lengths),
        dist.symbols@ == canon_symbols(dist_lengths),
    ensures
        final(r).wf(),
        final(r).data == old(r).data,
        match inflate_codes(lit_lengths, dist_lengths, old(r).data@, old(r).pos(), old(out)@) {
            Some((o, q)) => res is Ok && final(out)@ == o && final(r).pos() == q,
            None => res is Err,
        },
{
    let ghost goal = inflate_codes(lit_lengths, dist_lengths, r.data@, r.pos(), out@);
    loop
        invariant
            r.wf(),
            r.data == old(r).data,
            lit.wf(),
            dist.wf(),
            lit.count@ == length_counts(lit_lengths),
            lit.symbols@ == canon_symbols(lit_lengths),
            dist.count@ == length_counts(dist_lengths),
            dist.symbols@ == canon_symbols(dist_lengths),
            goal == inflate_codes(lit_lengths, dist_lengths, old(r).data@, old(r).pos(), old(out)@),
            inflate_codes(lit_lengths, dist_lengths, r.data@, r.pos(), out@) == goal,
        decreases r.data@.len() * 8 - r.pos(),
    {
        let ghost p = r.pos();
        let ghost data = r.data@;
        proof {
            lemma_huff_decode_advances(length_counts(lit_lengths), canon_symbols(lit_lengths), data, p, 1);
        }
        let sym = match lit.decode(r) {
            Ok(v) => v,
            Err(e) => {
                return Err(e);
            },
        };
        if sym < 256 {
            out.push(sym as u8);
        } else if sym == 256 {
            return Ok(());
        } else if sym <= 285 {
            let idx = (sym - 257) as usize;
            let extra = match r.take(length_extra_of(idx)) {
                Ok(v) => v,
                Err(e) => {
                    return Err(e);
                },
            };
            let len = length_base_of(idx) as usize + extra as usize;
            let ghost p2 = r.pos();
            proof {
                lemma_huff_decode_advances(length_counts(dist_lengths), canon_symbols(dist_lengths), data, p2, 1);
            }
            let dsym = match dist.decode(r) {
                Ok(v) => v,
                Err(e) => {
                    return Err(e);
                },
            };
            if dsym >= 30 {
                return Err(crate::text::with_number("invalid distance symbol ", dsym as u64, ""));
            }
            let dext = match r.take(dist_extra_of(dsym as usize)) {
                Ok(v) => v,
                Err(e) => {
                    return Err(e);
                },
            };
            let d = dist_base_of(dsym as usize) as usize + dext as usize;
            if d > out.len() {
                return Err(crate::text::owned("back-reference points before the start of the output"));
            }
            let start = out.len() - d;
            let ghost o0 = out@;
            let mut k: usize = 0;
            while k < len
                invariant
                    k <= len,
                    d >= 1,
                    d <= o0.len(),
                    start == o0.len() - d,
                    out@ == copy_back(o0, d as int, k as int),
                decreases len - k,
            {
                let cur = out.len();
                proof {
                    assert(out@.len() == o0.len() + k);
                    if start + k >= o0.len() {
                        vstd::arithmetic::div_mod::lemma_mod_add_multiples_vanish(k - d, d as int);
                        assert(out@[start + k] == o0[o0.len() - d + (k - d) % (d as int)]);
                    } else {
                        vstd::arithmetic::div_mod::lemma_small_mod(k as nat, d as nat);
                        assert(out@[start + k] == o0[o0.len() - d + (k as int) % (d as int)]);
                    }
                }
                let b = out[start + k];
                out.push(b);
                assert(out@ =~= copy_back(o0, d as int, k + 1));
                k = k + 1;
            }
        } else {
            return Err(crate::text::with_number("invalid literal/length symbol ", sym as u64, ""));
        }
    }
}

/// Decodes a stored block: byte-aligned `LEN`, `NLEN`, then `LEN` bytes.
fn inflate_stored_block(r: &mut BitReader, out: &mut Vec<u8>) -> (res: Result<(), String>)
    requires
        old(r).wf(),
    ensures
        final(r).wf(),
        final(r).data == old(r).data,
        match inflate_stored(old(r).data@, old(r).pos(), old(out)@) {
            Some((o, q)) => res is Ok && final(out)@ == o && final(r).pos() == q,
            None => res is Err,
        },
{
    r.align();
    assert(r.byte == align_up(old(r).pos()) / 8);
    let mut hdr: Vec<u8> = Vec::new();
    match r.take_bytes(4, &mut hdr) {
        Ok(()) => {},
        Err(e) => {
            return Err(e);
        },
    }
    let len = ((hdr[0] as u16) | ((hdr[1] as u16) << 8)) as u16;
    let nlen = ((hdr[2] as u16) | ((hdr[3] as u16) << 8)) as u16;
    if len != !nlen {
        return Err(crate::text::owned("stored block length does not match its complement"));
    }
    r.take_bytes(len as usize, out)
}

/// Decodes a block coded with the fixed tables.
fn inflate_fixed_block(r: &mut BitReader, out: &mut Vec<u8>) -> (res: Result<(), String>)
    requires
        old(r).wf(),
    ensures
        final(r).wf(),
        final(r).data == old(r).data,
        match inflate_fixed(old(r).data@, old(r).pos(), old(out)@) {
            Some((o, q)) => res is Ok && final(out)@ == o && final(r).pos() == q,
            None => res is Err,
        },
{
    let mut lit_lengths: Vec<u8> = Vec::new();
    let mut i: usize = 0;
    while i < 288
        invariant
            i <= 288,
            lit_lengths@ =~= fixed_lit_lengths().take(i as int),
        decreases 288 - i,
    {
        let l: u8 = if i < 144 { 8 } else if i < 256 { 9 } else if i < 280 { 7 } else { 8 };
        lit_lengths.push(l);
        i = i + 1;
    }
    assert(lit_lengths@ =~= fixed_lit_lengths());
    let dist_lengths: Vec<u8> = vec![5u8; 30];
    assert(dist_lengths@ =~= fixed_dist_lengths());
    let lit = match Huffman::new(lit_lengths.as_slice()) {
        Ok(h) => h,
        Err(e) => {
            return Err(e);
        },
    };
    let dist = match Huffman::new(dist_lengths.as_slice()) {
        Ok(h) => h,
        Err(e) => {
            return Err(e);
        },
    };
    inflate_block(r, out, &lit, &dist, Ghost(fixed_lit_lengths()), Ghost(fixed_dist_lengths()))
}

/// Reads the `hclen` 3-bit code-length-code lengths, stored in their
/// fixed order, into a table indexed by symbol.
fn read_code_length_lengths(r: &mut BitReader, hclen: usize) -> (res: Result<Vec<u8>, String>)
    requires
        old(r).wf(),
        hclen <= 19,
    ensures
        final(r).wf(),
        final(r).data == old(r).data,
        (old(r).pos() + 3 * hclen <= old(r).data@.len() * 8) == (res is Ok),
        res matches Ok(v) ==> v@ == code_length_lengths(old(r).data@, old(r).pos(), hclen as int)
            && final(r).pos() == old(r).pos() + 3 * hclen,
{
    let ghost p = r.pos();
    let ghost data = r.data@;
    proof {
        lemma_code_length_rank();
    }
    let mut cl_lengths: Vec<u8> = vec![0u8; 19];
    let mut k: usize = 0;
    while k < hclen
        invariant
            k <= hclen <= 19,
            r.wf(),
            r.data == old(r).data,
            r.data@ == data,
            data == old(r).data@,
            p == old(r).pos(),
            r.pos() == p + 3 * k,
            p + 3 * k <= data.len() * 8,
            cl_lengths@.len() == 19,
            forall|slot: int| 0 <= slot < 19 ==> 0 <= #[trigger] code_length_rank(slot) < 19,
            forall|j: int| 0 <= j < 19 ==> #[trigger] code_length_rank(code_length_order()[j]) == j,
            forall|slot: int| 0 <= slot < 19 ==> #[trigger] cl_lengths@[slot] == if code_length_rank(slot) < k {
                bits_lsb(data, p + 3 * code_length_rank(slot), 3) as u8
            } else {
                0u8
            },
        decreases hclen - k,
    {
        let v = match r.take(3) {
            Ok(v) => v,
            Err(e) => {
                return Err(e);
            },
        };
        let slot = code_length_order_of(k);
        proof {
            lemma_bits_lsb_bound(data, p + 3 * k, 3);
            lemma2_to64();
        }
        cl_lengths.set(slot, v as u8);
        proof {
            assert forall|s: int| 0 <= s < 19 implies #[trigger] cl_lengths@[s] == if code_length_rank(s) < k + 1 {
                bits_lsb(data, p + 3 * code_length_rank(s), 3) as u8
            } else {
                0u8
            } by {
                if s != slot && code_length_rank(s) == k {
                    assert(code_length_order()[k as int] == slot);
                }
            }
        }
        k = k + 1;
    }
    assert(cl_lengths@ =~= code_length_lengths(data, p, hclen as int));
    Ok(cl_lengths)
}

/// Reads the run-length-coded code lengths of both tables of a dynamic
/// block, `n` entries in all.
fn read_code_lengths(r: &mut BitReader, cl: &Huffman, Ghost(cl_l): Ghost<Seq<u8>>, n: usize) -> (res: Result<Vec<u8>, String>)
    requires
        old(r).wf(),
        cl.wf(),
        cl.count@ == length_counts(cl_l),
        cl.symbols@ == canon_symbols(cl_l),
        n <= 320,
    ensures
        final(r).wf(),
        final(r).data == old(r).data,
        match code_lengths(cl_l, old(r).data@, old(r).pos(), Seq::new(n as nat, |k: int| 0u8), 0) {
            Some((l, q)) => res matches Ok(v) && v@ == l && final(r).pos() == q,
            None => res is Err,
        },
{
    let ghost data = r.data@;
    let mut lengths: Vec<u8> = vec![0u8; n];
    assert(lengths@ =~= Seq::new(n as nat, |k: int| 0u8));
    let ghost goal = code_lengths(cl_l, data, r.pos(), lengths@, 0);
    let mut i: usize = 0;
    while i < n
        invariant
            i <= n,
            n <= 320,
            lengths@.len() == n,
            r.wf(),
            r.data == old(r).data,
            r.data@ == data,
            data == old(r).data@,
            goal == code_lengths(cl_l, old(r).data@, old(r).pos(), Seq::new(n as nat, |k: int| 0u8), 0),
            cl.wf(),
            cl.count@ == length_counts(cl_l),
            cl.symbols@ == canon_symbols(cl_l),
            code_lengths(cl_l, data, r.pos(), lengths@, i as int) == goal,
        decreases data.len() * 8 - r.pos(),
    {
        let ghost q = r.pos();
        proof {
            lemma_huff_decode_advances(length_counts(cl_l), canon_symbols(cl_l), data, q, 1);
        }
        let sym = match cl.decode(r) {
            Ok(v) => v,
            Err(e) => {
                return Err(e);
            },
        };
        if sym <= 15 {
            lengths.set(i, sym as u8);
            i = i + 1;
        } else if sym == 16 {
            if i == 0 {
                return Err(crate::text::owned("code-length repeat with no previous length"));
            }
            let prev = lengths[i - 1];
            let rep = match r.take(2) {
                Ok(v) => 3 + v as usize,
                Err(e) => {
                    return Err(e);
                },
            };
            if rep > n - i {
                return Err(crate::text::owned("code-length repeat runs past the table"));
            }
            let ghost before = lengths@;
            let mut j: usize = 0;
            while j < rep
                invariant
                    j <= rep,
                    i + rep <= n,
                    lengths@.len() == n,
                    before.len() == n,
                    lengths@ == fill_run(before, i as int, j as int, prev),
                decreases rep - j,
            {
                lengths.set(i + j, prev);
                assert(lengths@ =~= fill_run(before, i as int, j + 1, prev));
                j = j + 1;
            }
            i = i + rep;
        } else if sym == 17 || sym == 18 {
            let rep = if sym == 17 {
                match r.take(3) {
                    Ok(v) => 3 + v as usize,
                    Err(e) => {
                        return Err(e);
                    },
                }
            } else {
                match r.take(7) {
                    Ok(v) => 11 + v as usize,
                    Err(e) => {
                        return Err(e);
                    },
                }
            };
            if rep > n - i {
                return Err(crate::text::owned("zero-length run runs past the table"));
            }
            i = i + rep;
        } else {
            return Err(crate::text::with_number("invalid code-length symbol ", sym as u64, ""));
        }
    }
    Ok(lengths)
}

/// Decodes a block that carries its own Huffman tables.
fn inflate_dynamic_block(r: &mut BitReader, out: &mut Vec<u8>) -> (res: Result<(), String>)
    requires
        old(r).wf(),
    ensures
        final(r).wf(),
        final(r).data == old(r).data,
        match inflate_dynamic(old(r).data@, old(r).pos(), old(out)@) {
            Some((o, q)) => res is Ok && final(out)@ == o && final(r).pos() == q,
            None => res is Err,
        },
{
    let ghost p = r.pos();
    let ghost data = r.data@;
    let hlit = match r.take(5) {
        Ok(v) => v as usize + 257,
        Err(e) => {
            return Err(e);
        },
    };
    let hdist = match r.take(5) {
        Ok(v) => v as usize + 1,
        Err(e) => {
            return Err(e);
        },
    };
    let hclen = match r.take(4) {
        Ok(v) => v as usize + 4,
        Err(e) => {
            return Err(e);
        },
    };
    proof {
        lemma_bits_lsb_bound(data, p, 5);
        lemma_bits_lsb_bound(data, p + 5, 5);
        lemma_bits_lsb_bound(data, p + 10, 4);
        lemma2_to64();
    }
    let cl_lengths = match read_code_length_lengths(r, hclen) {
        Ok(v) => v,
        Err(e) => {
            return Err(e);
        },
    };
    let cl = match Huffman::new(cl_lengths.as_slice()) {
        Ok(h) => h,
        Err(e) => {
            return Err(e);
        },
    };
    let n = hlit + hdist;
    let ghost q = r.pos();
    let lengths = match read_code_lengths(r, &cl, Ghost(cl_lengths@), n) {
        Ok(v) => v,
        Err(e) => {
            return Err(e);
        },
    };
    proof {
        lemma_code_lengths_len(cl_lengths@, data, q, Seq::new(n as nat, |k: int| 0u8), 0);
    }
    let mut lit_lengths: Vec<u8> = Vec::new();
    push_range(&mut lit_lengths, lengths.as_slice(), 0, hlit);
    let mut dist_lengths: Vec<u8> = Vec::new();
    push_range(&mut dist_lengths, lengths.as_slice(), hlit, n);
    assert(lit_lengths@ =~= lengths@.take(hlit as int));
    assert(dist_lengths@ =~= lengths@.skip(hlit as int));
    let lit = match Huffman::new(lit_lengths.as_slice()) {
        Ok(h) => h,
        Err(e) => {
            return Err(e);
        },
    };
    let dist = match Huffman::new(dist_lengths.as_slice()) {
        Ok(h) => h,
        Err(e) => {
            return Err(e);
        },
    };
    inflate_block(r, out, &lit, &dist, Ghost(lit_lengths@), Ghost(dist_lengths@))
}

/// An `n`-bit field is below `2^n`.
proof fn lemma_bits_lsb_bound(data: Seq<u8>, p: int, n: nat)
    ensures
        bits_lsb(data, p, n) < pow2(n),
    decreases n,
{
    if n == 0 {
        lemma2_to64();
    } else {
        lemma_bits_lsb_bound(data, p, (n - 1) as nat);
        lemma_pow2_unfold(n);
        lemma_bit_at_le1(data, p + n - 1);
        lemma_pow2_pos((n - 1) as nat);
        assert(bit_at(data, p + n - 1) * pow2((n - 1) as nat) <= pow2((n - 1) as nat)) by (nonlinear_arith)
            requires bit_at(data, p + n - 1) <= 1, pow2((n - 1) as nat) > 0;
    }
}

/// Decompresses a raw DEFLATE stream (no zlib or gzip wrapper), up to and
/// including its final block; anything after that is ignored.
pub fn inflate(input: &[u8]) -> (res: Result<Vec<u8>, String>)
    ensures
        match inflate_spec(input@) {
            Some(o) => res matches Ok(v) && v@ == o,
            None => res is Err,
        },
{
    let mut r = BitReader::new(input);
    let mut out: Vec<u8> = Vec::new();
    assert(out@ =~= Seq::<u8>::empty());
    loop
        invariant
            r.wf(),
            r.data@ == input@,
            inflate_blocks(input@, r.pos(), out@) == inflate_spec(input@),
        decreases input@.len() * 8 - r.pos(),
    {
        let ghost p = r.pos();
        proof {
            reveal(inflate_blocks);
        }
        let is_final = match r.take(1) {
            Ok(v) => v == 1,
            Err(e) => {
                return Err(e);
            },
        };
        let btype = match r.take(2) {
            Ok(v) => v,
            Err(e) => {
                return Err(e);
            },
        };
        proof {
            lemma_bits_lsb_one(input@, p);
            lemma_block_advances(input@, p + 3, out@);
            reveal(inflate_blocks);
        }
        let res = if btype == 0 {
            inflate_stored_block(&mut r, &mut out)
        } else if btype == 1 {
            inflate_fixed_block(&mut r, &mut out)
        } else if btype == 2 {
            inflate_dynamic_block(&mut r, &mut out)
        } else {
            Err(crate::text::owned("reserved DEFLATE block type 3"))
        };
        match res {
            Ok(()) => {},
            Err(e) => {
                return Err(e);
            },
        }
        if is_final {
            return Ok(out);
        }
    }
}

/// The zlib header checks of RFC 1950: room for a header and a checksum,
/// compression method 8 (DEFLATE), check bits making the header a multiple
/// of 31, and no preset dictionary.
pub open spec fn zlib_header_ok(input: Seq<u8>) -> bool {
    &&& input.len() >= 6
    &&& input[0] & 0x0fu8 == 8
    &&& (((input[0] as u16) << 8u16) | (input[1] as u16)) % 31 == 0
    &&& input[1] & 0x20u8 == 0
}

/// The Adler-32 trailer is found: it ends at the end of the stream or
/// within the 9 bytes of padding before it.
pub open spec fn zlib_trailer_found(tail: Seq<u8>, sum: u32) -> bool {
    exists|end: int| 4 <= end <= tail.len() && tail.len() - end <= 9 && #[trigger] get_be32(tail, end - 4) == sum
}

/// What a zlib stream decompresses to: the DEFLATE data after the 2-byte
/// header, accepted only when its Adler-32 trailer is found.
pub open spec fn zlib_spec(input: Seq<u8>) -> Option<Seq<u8>> {
    if !zlib_header_ok(input) {
        None
    } else {
        match inflate_spec(input.skip(2)) {
            Some(out) => if zlib_trailer_found(input.skip(2), adler32_spec(out)) { Some(out) } else { None },
            None => None,
        }
    }
}

/// Looks for the big-endian checksum `sum` ending at the end of `tail` or
/// up to 9 bytes before it, latest position first.
fn find_trailer(tail: &[u8], sum: u32) -> (found: bool)
    ensures
        found == zlib_trailer_found(tail@, sum),
{
    let n = tail.len();
    if n < 4 {
        return false;
    }
    let lowest = if n >= 13 { n - 9 } else { 4 };
    let mut end = n;
    while end >= lowest
        invariant
            4 <= lowest <= n,
            n == tail@.len(),
            lowest == if n >= 13 { n - 9 } else { 4 },
            lowest - 1 <= end <= n,
            forall|e: int| end < e <= n ==> #[trigger] get_be32(tail@, e - 4) != sum,
        decreases end,
    {
        if read_be32(tail, end - 4) == sum {
            return true;
        }
        end = end - 1;
    }
    proof {
        assert forall|e: int| 4 <= e <= tail@.len() && tail@.len() - e <= 9 implies #[trigger] get_be32(tail@, e - 4) != sum by {
            assert(e > end);
        }
    }
    false
}

/// Decompresses a zlib stream (RFC 1950): 2-byte header, DEFLATE data,
/// Adler-32 trailer. The trailer may be followed by up to 9 bytes of
/// padding; it must match the decompressed data.
pub fn zlib_decompress(input: &[u8]) -> (res: Result<Vec<u8>, String>)
    ensures
        match zlib_spec(input@) {
            Some(o) => res matches Ok(v) && v@ == o,
            None => res is Err,
        },
{
    if input.len() < 6 {
        return Err(crate::text::owned("zlib stream is too short to contain a header and checksum"));
    }
    let cmf = input[0];
    let flg = input[1];
    if cmf & 0x0f != 8 {
        return Err(crate::text::with_number("zlib compression method ", (cmf & 0x0f) as u64, " is not DEFLATE"));
    }
    if (((cmf as u16) << 8) | flg as u16) % 31 != 0 {
        return Err(crate::text::owned("zlib header check bits are wrong (not a zlib stream?)"));
    }
    if flg & 0x20 != 0 {
        return Err(crate::text::owned("zlib stream needs a preset dictionary, which is not supported"));
    }
    let tail = vstd::slice::slice_subrange(input, 2, input.len());
    assert(tail@ =~= input@.skip(2));
    let out = match inflate(tail) {
        Ok(v) => v,
        Err(e) => {
            return Err(e);
        },
    };
    let expect = adler32(out.as_slice());
    if !find_trailer(tail, expect) {
        return Err(crate::text::owned("zlib checksum mismatch -- the compressed data is corrupt"));
    }
    Ok(out)
}

fn length_extra_of(i: usize) -> (r: u32)
    requires
        i < 29,
    ensures
        r == length_extra(i as int),
        r <= 5,
{
    let t: [u32; 29] = [0, 0, 0, 0, 0, 0, 0, 0, 1, 1, 1, 1, 2, 2, 2, 2, 3, 3, 3, 3, 4, 4, 4, 4, 5, 5, 5, 5, 0];
    assert(t@ =~= seq![0u32, 0, 0, 0, 0, 0, 0, 0, 1, 1, 1, 1, 2, 2, 2, 2, 3, 3, 3, 3, 4, 4, 4, 4, 5, 5, 5, 5, 0]);
    t[i]
}

fn dist_base_of(i: usize) -> (r: u16)
    requires
        i < 30,
    ensures
        r == dist_base(i as int),
        r >= 1,
{
    let t: [u16; 30] = [
        1, 2, 3, 4, 5, 7, 9, 13, 17, 25, 33, 49, 65, 97, 129, 193, 257, 385, 513, 769, 1025, 1537, 2049, 3073, 4097,
        6145, 8193, 12289, 16385, 24577,
    ];
    assert(t@ =~= seq![1u16, 2, 3, 4, 5, 7, 9, 13, 17, 25, 33, 49, 65, 97, 129, 193, 257, 385, 513, 769, 1025, 1537, 2049, 3073, 4097,
        6145, 8193, 12289, 16385, 24577]);
    t[i]
}

fn dist_extra_of(i: usize) -> (r: u32)
    requires
        i < 30,
    ensures
        r == dist_extra(i as int),
        r <= 13,
{
    let t: [u32; 30] = [0, 0, 0, 0, 1, 1, 2, 2, 3, 3, 4, 4, 5, 5, 6, 6, 7, 7, 8, 8, 9, 9, 10, 10, 11, 11, 12, 12, 13, 13];
    assert(t@ =~= seq![0u32, 0, 0, 0, 1, 1, 2, 2, 3, 3, 4, 4, 5, 5, 6, 6, 7, 7, 8, 8, 9, 9, 10, 10, 11, 11, 12, 12, 13, 13]);
    t[i]
}

fn code_length_order_of(k: usize) -> (r: usize)
    requires
        k < 19,
    ensures
        r == code_length_order()[k as int],
        r < 19,
        code_length_rank(r as int) == k,
{
    let t: [usize; 19] = [16, 17, 18, 0, 8, 7, 9, 6, 10, 5, 11, 4, 12, 3, 13, 2, 14, 1, 15];
    assert(t@ =~= seq![16usize, 17, 18, 0, 8, 7, 9, 6, 10, 5, 11, 4, 12, 3, 13, 2, 14, 1, 15]);
    proof {
        lemma_code_length_rank();
    }
    t[k]
}

/// The stored order and the rank of each slot in it are inverse.
proof fn lemma_code_length_rank()
    ensures
        forall|k: int| 0 <= k < 19 ==> #[trigger] code_length_rank(code_length_order()[k]) == k,
        forall|s: int| 0 <= s < 19 ==> 0 <= #[trigger] code_length_rank(s) < 19,
{
    let o = code_length_order();
    assert(code_length_rank(o[0]) == 0 && code_length_rank(o[1]) == 1 && code_length_rank(o[2]) == 2);
    assert(code_length_rank(o[3]) == 3 && code_length_rank(o[4]) == 4 && code_length_rank(o[5]) == 5);
    assert(code_length_rank(o[6]) == 6 && code_length_rank(o[7]) == 7 && code_length_rank(o[8]) == 8);
    assert(code_length_rank(o[9]) == 9 && code_length_rank(o[10]) == 10 && code_length_rank(o[11]) == 11);
    assert(code_length_rank(o[12]) == 12 && code_length_rank(o[13]) == 13 && code_length_rank(o[14]) == 14);
    assert(code_length_rank(o[15]) == 15 && code_length_rank(o[16]) == 16 && code_length_rank(o[17]) == 17);
    assert(code_length_rank(o[18]) == 18);
    assert forall|k: int| 0 <= k < 19 implies #[trigger] code_length_rank(o[k]) == k by {
        if k == 0 {} else if k == 1 {} else if k == 2 {} else if k == 3 {} else if k == 4 {} else if k == 5 {}
        else if k == 6 {} else if k == 7 {} else if k == 8 {} else if k == 9 {} else if k == 10 {} else if k == 11 {}
        else if k == 12 {} else if k == 13 {} else if k == 14 {} else if k == 15 {} else if k == 16 {} else if k == 17 {}
        else {}
    }
    assert forall|s: int| 0 <= s < 19 implies 0 <= #[trigger] code_length_rank(s) < 19 by {
        if s == 0 {} else if s == 1 {} else if s == 2 {} else if s == 3 {} else if s == 4 {} else if s == 5 {}
        else if s == 6 {} else if s == 7 {} else if s == 8 {} else if s == 9 {} else if s == 10 {} else if s == 11 {}
        else if s == 12 {} else if s == 13 {} else if s == 14 {} else if s == 15 {} else if s == 16 {} else if s == 17 {}
        else {}
    }
}

/// Reading code lengths keeps the table's size.
proof fn lemma_code_lengths_len(cl: Seq<u8>, data: Seq<u8>, p: int, lengths: Seq<u8>, i: int)
    requires
        i >= 0,
    ensures
        code_lengths(cl, data, p, lengths, i) matches Some((l, q)) ==> l.len() == lengths.len(),
    decreases data.len() * 8 - p,
{
    if i < lengths.len() {
        lemma_huff_decode_advances(length_counts(cl), canon_symbols(cl), data, p, 1);
        if let Decoded::Symbol(sym, p1) = huff_decode(length_counts(cl), canon_symbols(cl), data, p) {
            if sym <= 15 {
                lemma_code_lengths_len(cl, data, p1, lengths.update(i, sym as u8), i + 1);
            } else if sym == 16 {
                if i != 0 && p1 + 2 <= data.len() * 8 {
                    let n: int = 3 + bits_lsb(data, p1, 2) as int;
                    lemma_code_lengths_len(cl, data, p1 + 2, fill_run(lengths, i, n, lengths[i - 1]), i + n);
                }
            } else if sym == 17 || sym == 18 {
                let eb: nat = if sym == 17 { 3 } else { 7 };
                let n = (if sym == 17 { 3int } else { 11int }) + bits_lsb(data, p1, eb);
                if p1 + eb <= data.len() * 8 {
                    lemma_code_lengths_len(cl, data, p1 + eb, lengths, i + n);
                }
            }
        }
    }
}

/// A decoded code is at least one bit long and lies inside the stream.
pub proof fn lemma_huff_decode_advances(count: Seq<u16>, symbols: Seq<u16>, data: Seq<u8>, p: int, len: nat)
    requires
        len >= 1,
    ensures
        huff_decode_from(count, symbols, data, p, len) matches Decoded::Symbol(s, np)
            ==> p + len <= np <= data.len() * 8,
    decreases 16 - len,
{
    if len < 16 && p + len <= data.len() * 8
        && !(bits_msb(data, p, len) - huff_first(count, len) < count[len as int]) {
        lemma_huff_decode_advances(count, symbols, data, p, len + 1);
    }
}

/// `x | (b << k)` is `x + b * 2^k` when `x < 2^k` and `b` is one bit.
proof fn lemma_or_is_add(x: u32, b: u32, k: u32)
    requires
        k < 16,
        x < pow2(k as nat),
        b <= 1,
    ensures
        x | (b << k) == x + b * pow2(k as nat),
        x + b * pow2(k as nat) < pow2((k + 1) as nat),
{
    lemma_shl_is_pow2(k);
    lemma_pow2_unfold((k + 1) as nat);
    assert(x | (b << k) == x + b * (1u32 << k)) by (bit_vector)
        requires x < (1u32 << k), b <= 1, k < 16;
    assert(b * pow2(k as nat) <= pow2(k as nat)) by (nonlinear_arith) requires b <= 1;
}

/// `1 << k` is `2^k`.
pub proof fn lemma_shl_is_pow2(k: u32)
    requires
        k < 32,
    ensures
        (1u32 << k) == pow2(k as nat),
{
    lemma_u32_pow2_no_overflow(k as nat);
    lemma_u32_shl_is_mul(1, k);
}

} // verus!
