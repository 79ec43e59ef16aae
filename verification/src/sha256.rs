//! SHA-256 (FIPS 180-4): the message padded to whole 64-byte blocks with
//! a one bit, zeros and its bit length, each block run through the 64
//! compression rounds, and the eight state words written out big-endian.

use vstd::prelude::*;
use crate::layout::{field_bytes, push_field};
use crate::text_codec::hex_of;

verus! {

/// Addition modulo 2^32.
pub open spec fn add32(a: u32, b: u32) -> u32 {
    ((a as int + b as int) % 0x1_0000_0000) as u32
}

/// Rotation right by `n` (`0 < n < 32`).
pub open spec fn rotr(x: u32, n: u32) -> u32 {
    (x >> n) | (x << ((32 - n) as u32))
}

pub open spec fn big_sigma0(x: u32) -> u32 {
    rotr(x, 2) ^ rotr(x, 13) ^ rotr(x, 22)
}

pub open spec fn big_sigma1(x: u32) -> u32 {
    rotr(x, 6) ^ rotr(x, 11) ^ rotr(x, 25)
}

pub open spec fn small_sigma0(x: u32) -> u32 {
    rotr(x, 7) ^ rotr(x, 18) ^ (x >> 3)
}

pub open spec fn small_sigma1(x: u32) -> u32 {
    rotr(x, 17) ^ rotr(x, 19) ^ (x >> 10)
}

/// The round constants.
pub open spec fn round_constants() -> Seq<u32> {
    seq![
        0x428a2f98u32, 0x71374491, 0xb5c0fbcf, 0xe9b5dba5, 0x3956c25b, 0x59f111f1, 0x923f82a4, 0xab1c5ed5,
        0xd807aa98, 0x12835b01, 0x243185be, 0x550c7dc3, 0x72be5d74, 0x80deb1fe, 0x9bdc06a7, 0xc19bf174,
        0xe49b69c1, 0xefbe4786, 0x0fc19dc6, 0x240ca1cc, 0x2de92c6f, 0x4a7484aa, 0x5cb0a9dc, 0x76f988da,
        0x983e5152, 0xa831c66d, 0xb00327c8, 0xbf597fc7, 0xc6e00bf3, 0xd5a79147, 0x06ca6351, 0x14292967,
        0x27b70a85, 0x2e1b2138, 0x4d2c6dfc, 0x53380d13, 0x650a7354, 0x766a0abb, 0x81c2c92e, 0x92722c85,
        0xa2bfe8a1, 0xa81a664b, 0xc24b8b70, 0xc76c51a3, 0xd192e819, 0xd6990624, 0xf40e3585, 0x106aa070,
        0x19a4c116, 0x1e376c08, 0x2748774c, 0x34b0bcb5, 0x391c0cb3, 0x4ed8aa4a, 0x5b9cca4f, 0x682e6ff3,
        0x748f82ee, 0x78a5636f, 0x84c87814, 0x8cc70208, 0x90befffa, 0xa4506ceb, 0xbef9a3f7, 0xc67178f2,
    ]
}

/// The initial hash value.
pub open spec fn initial_state() -> Seq<u32> {
    seq![0x6a09e667u32, 0xbb67ae85, 0x3c6ef372, 0xa54ff53a, 0x510e527f, 0x9b05688c, 0x1f83d9ab, 0x5be0cd19]
}

/// The big-endian word at byte `4 * i` of a block.
pub open spec fn block_word(b: Seq<u8>, i: int) -> u32 {
    (((b[4 * i] as int * 256 + b[4 * i + 1] as int) * 256 + b[4 * i + 2] as int) * 256 + b[4 * i + 3] as int) as u32
}

/// The first `n` words of a block's message schedule.
pub open spec fn schedule(b: Seq<u8>, n: int) -> Seq<u32>
    decreases n,
{
    if n <= 0 {
        Seq::empty()
    } else {
        let w = schedule(b, n - 1);
        let i = n - 1;
        w.push(
            if i < 16 {
                block_word(b, i)
            } else {
                add32(add32(add32(small_sigma1(w[i - 2]), w[i - 7]), small_sigma0(w[i - 15])), w[i - 16])
            },
        )
    }
}

/// One compression round on the working variables `a` to `h`.
pub open spec fn round(v: Seq<u32>, k: u32, w: u32) -> Seq<u32> {
    let ch = (v[4] & v[5]) ^ (!v[4] & v[6]);
    let t1 = add32(add32(add32(add32(v[7], big_sigma1(v[4])), ch), k), w);
    let maj = (v[0] & v[1]) ^ (v[0] & v[2]) ^ (v[1] & v[2]);
    let t2 = add32(big_sigma0(v[0]), maj);
    seq![add32(t1, t2), v[0], v[1], v[2], add32(v[3], t1), v[4], v[5], v[6]]
}

/// The working variables after the first `n` rounds over schedule `w`.
pub open spec fn rounds(v: Seq<u32>, w: Seq<u32>, n: int) -> Seq<u32>
    decreases n,
{
    if n <= 0 { v } else { round(rounds(v, w, n - 1), round_constants()[n - 1], w[n - 1]) }
}

/// The hash state after one more block.
#[verifier::opaque]
pub open spec fn compress(h: Seq<u32>, block: Seq<u8>) -> Seq<u32> {
    let v = rounds(h, schedule(block, 64), 64);
    Seq::new(8, |i: int| add32(h[i], v[i]))
}

/// How many zero bytes follow the `0x80` byte so that the length
/// becomes 56 modulo 64.
pub open spec fn zero_count(len: int) -> int {
    (119 - len % 64) % 64
}

/// The message padded: a `0x80` byte, zeros up to 56 modulo 64, and the
/// bit length (modulo 2^64) as 64 bits big-endian.
pub open spec fn padded(m: Seq<u8>) -> Seq<u8> {
    let bits = ((m.len() * 8) as int % 0x1_0000_0000_0000_0000) as nat;
    m + seq![0x80u8] + Seq::new(zero_count(m.len() as int) as nat, |i: int| 0u8) + field_bytes(bits, 8, true)
}

/// The state after the first `k` blocks of `p`.
pub open spec fn state_after(p: Seq<u8>, k: int) -> Seq<u32>
    decreases k,
{
    if k <= 0 { initial_state() } else { compress(state_after(p, k - 1), p.subrange(64 * (k - 1), 64 * k)) }
}

/// The first `k` state words written out big-endian.
pub open spec fn state_bytes(h: Seq<u32>, k: int) -> Seq<u8>
    decreases k,
{
    if k <= 0 { Seq::empty() } else { state_bytes(h, k - 1) + field_bytes(h[k - 1] as nat, 4, true) }
}

/// The SHA-256 digest of `m`.
pub open spec fn sha256_spec(m: Seq<u8>) -> Seq<u8> {
    let p = padded(m);
    state_bytes(state_after(p, p.len() as int / 64), 8)
}

proof fn lemma_schedule_len(b: Seq<u8>, n: int)
    requires
        0 <= n,
    ensures
        schedule(b, n).len() == n,
    decreases n,
{
    if n > 0 {
        lemma_schedule_len(b, n - 1);
    }
}

fn add32_exec(a: u32, b: u32) -> (r: u32)
    ensures
        r == add32(a, b),
{
    let s: u64 = a as u64 + b as u64;
    (s % 0x1_0000_0000) as u32
}

fn rotr_exec(x: u32, n: u32) -> (r: u32)
    requires
        0 < n < 32,
    ensures
        r == rotr(x, n),
{
    (x >> n) | (x << (32 - n))
}

fn constants() -> (k: Vec<u32>)
    ensures
        k@ == round_constants(),
{
    let k = vec![
        0x428a2f98u32, 0x71374491, 0xb5c0fbcf, 0xe9b5dba5, 0x3956c25b, 0x59f111f1, 0x923f82a4, 0xab1c5ed5,
        0xd807aa98, 0x12835b01, 0x243185be, 0x550c7dc3, 0x72be5d74, 0x80deb1fe, 0x9bdc06a7, 0xc19bf174,
        0xe49b69c1, 0xefbe4786, 0x0fc19dc6, 0x240ca1cc, 0x2de92c6f, 0x4a7484aa, 0x5cb0a9dc, 0x76f988da,
        0x983e5152, 0xa831c66d, 0xb00327c8, 0xbf597fc7, 0xc6e00bf3, 0xd5a79147, 0x06ca6351, 0x14292967,
        0x27b70a85, 0x2e1b2138, 0x4d2c6dfc, 0x53380d13, 0x650a7354, 0x766a0abb, 0x81c2c92e, 0x92722c85,
        0xa2bfe8a1, 0xa81a664b, 0xc24b8b70, 0xc76c51a3, 0xd192e819, 0xd6990624, 0xf40e3585, 0x106aa070,
        0x19a4c116, 0x1e376c08, 0x2748774c, 0x34b0bcb5, 0x391c0cb3, 0x4ed8aa4a, 0x5b9cca4f, 0x682e6ff3,
        0x748f82ee, 0x78a5636f, 0x84c87814, 0x8cc70208, 0x90befffa, 0xa4506ceb, 0xbef9a3f7, 0xc67178f2,
    ];
    assert(k@ =~= round_constants());
    k
}

/// The message schedule of the block at `off`.
fn schedule_exec(p: &Vec<u8>, off: usize) -> (w: Vec<u32>)
    requires
        off + 64 <= p@.len(),
    ensures
        w@ == schedule(p@.subrange(off as int, off + 64), 64),
{
    let ghost b = p@.subrange(off as int, off + 64);
    let plen = p.len();
    let mut w: Vec<u32> = Vec::new();
    let mut i: usize = 0;
    while i < 64
        invariant
            i <= 64,
            plen == p@.len(),
            w@.len() == i,
            off + 64 <= p@.len(),
            b == p@.subrange(off as int, off + 64),
            w@ == schedule(b, i as int),
        decreases 64 - i,
    {
        let x = if i < 16 {
            let o = off + 4 * i;
            assert(b[4 * i as int] == p@[o as int]);
            assert(b[4 * i + 1] == p@[o + 1]);
            assert(b[4 * i + 2] == p@[o + 2]);
            assert(b[4 * i + 3] == p@[o + 3]);
            let b0 = p[o] as u64;
            let b1 = p[o + 1] as u64;
            let b2 = p[o + 2] as u64;
            let b3 = p[o + 3] as u64;
            assert(b0 < 256 && b1 < 256 && b2 < 256 && b3 < 256);
            let v1: u64 = b0 * 256 + b1;
            assert(v1 < 0x10000);
            let v2: u64 = v1 * 256 + b2;
            assert(v2 < 0x1000000);
            let v: u64 = v2 * 256 + b3;
            assert(v < 0x1_0000_0000);
            v as u32
        } else {
            let a = w[i - 2];
            let s1 = rotr_exec(a, 17) ^ rotr_exec(a, 19) ^ (a >> 10);
            let c = w[i - 15];
            let s0 = rotr_exec(c, 7) ^ rotr_exec(c, 18) ^ (c >> 3);
            add32_exec(add32_exec(add32_exec(s1, w[i - 7]), s0), w[i - 16])
        };
        w.push(x);
        i += 1;
    }
    w
}

/// Runs the 64 rounds and adds the result into `h`.
fn compress_exec(h: &Vec<u32>, p: &Vec<u8>, off: usize, k: &Vec<u32>) -> (r: Vec<u32>)
    requires
        h@.len() == 8,
        off + 64 <= p@.len(),
        k@ == round_constants(),
    ensures
        r@ == compress(h@, p@.subrange(off as int, off + 64)),
        r@.len() == 8,
{
    reveal(compress);
    let w = schedule_exec(p, off);
    let ghost ws = w@;
    proof {
        lemma_schedule_len(p@.subrange(off as int, off + 64), 64);
    }
    let mut v: Vec<u32> = h.clone();
    assert(v@ =~= h@);
    let mut i: usize = 0;
    while i < 64
        invariant
            i <= 64,
            k@ == round_constants(),
            w@ == ws,
            ws.len() == 64,
            v@ == rounds(h@, ws, i as int),
            v@.len() == 8,
        decreases 64 - i,
    {
        proof {
            reveal_with_fuel(schedule, 1);
        }
        let e = v[4];
        let ch = (e & v[5]) ^ (!e & v[6]);
        let s1 = rotr_exec(e, 6) ^ rotr_exec(e, 11) ^ rotr_exec(e, 25);
        let t1 = add32_exec(add32_exec(add32_exec(add32_exec(v[7], s1), ch), k[i]), w[i]);
        let a = v[0];
        let maj = (a & v[1]) ^ (a & v[2]) ^ (v[1] & v[2]);
        let s0 = rotr_exec(a, 2) ^ rotr_exec(a, 13) ^ rotr_exec(a, 22);
        let t2 = add32_exec(s0, maj);
        let nv = vec![add32_exec(t1, t2), v[0], v[1], v[2], add32_exec(v[3], t1), v[4], v[5], v[6]];
        proof {
            assert(nv@ =~= round(v@, round_constants()[i as int], ws[i as int]));
        }
        v = nv;
        i += 1;
    }
    let mut r: Vec<u32> = Vec::new();
    let mut j: usize = 0;
    while j < 8
        invariant
            j <= 8,
            h@.len() == 8,
            v@.len() == 8,
            r@ == Seq::new(8, |i: int| add32(h@[i], v@[i])).take(j as int),
        decreases 8 - j,
    {
        r.push(add32_exec(h[j], v[j]));
        proof {
            assert(r@ =~= Seq::new(8, |i: int| add32(h@[i], v@[i])).take(j + 1));
        }
        j += 1;
    }
    assert(r@ =~= Seq::new(8, |i: int| add32(h@[i], v@[i])));
    r
}

proof fn lemma_padded_len(len: int)
    requires
        0 <= len,
    ensures
        (len + 1 + zero_count(len) + 8) % 64 == 0,
        0 <= zero_count(len) < 64,
{
    let r = len % 64;
    let q = len / 64;
    vstd::arithmetic::div_mod::lemma_fundamental_div_mod(len, 64);
    if r <= 55 {
        assert(zero_count(len) == 55 - r);
        assert(len + 1 + zero_count(len) + 8 == 64 * (q + 1));
    } else {
        assert(zero_count(len) == 119 - r);
        assert(len + 1 + zero_count(len) + 8 == 64 * (q + 2));
    }
    vstd::arithmetic::div_mod::lemma_mod_multiples_basic(if r <= 55 { q + 1 } else { q + 2 }, 64);
}

/// The SHA-256 digest of `msg` (see `sha256_spec`).
pub fn sha256(msg: &[u8]) -> (d: Vec<u8>)
    requires
        msg@.len() + 72 <= usize::MAX,
    ensures
        d@ == sha256_spec(msg@),
{
    let n = msg.len();
    let mut data: Vec<u8> = Vec::new();
    crate::bytes::push_all(&mut data, msg);
    data.push(0x80);
    let z = (119 - n % 64) % 64;
    let ghost mid = data@;
    let mut c: usize = 0;
    while c < z
        invariant
            c <= z,
            data@ == mid + Seq::new(c as nat, |i: int| 0u8),
        decreases z - c,
    {
        data.push(0);
        proof {
            assert(data@ =~= mid + Seq::new((c + 1) as nat, |i: int| 0u8));
        }
        c += 1;
    }
    let bits: u64 = ((n as u128 * 8) % 0x1_0000_0000_0000_0000) as u64;
    push_field(&mut data, bits, 8, true);
    proof {
        assert(data@ =~= padded(msg@));
        lemma_padded_len(n as int);
    }
    let k = constants();
    let dlen = data.len();
    let nb = data.len() / 64;
    let mut h: Vec<u32> = vec![0x6a09e667u32, 0xbb67ae85, 0x3c6ef372, 0xa54ff53a, 0x510e527f, 0x9b05688c, 0x1f83d9ab, 0x5be0cd19];
    assert(h@ =~= initial_state());
    let mut i: usize = 0;
    while i < nb
        invariant
            i <= nb,
            nb * 64 == data@.len(),
            dlen == data@.len(),
            k@ == round_constants(),
            h@ == state_after(data@, i as int),
            h@.len() == 8,
        decreases nb - i,
    {
        proof {
            assert(64 * i + 64 <= data@.len()) by (nonlinear_arith)
                requires
                    i < nb,
                    nb * 64 == data@.len(),
            ;
        }
        let next = compress_exec(&h, &data, 64 * i, &k);
        proof {
            assert(next@.len() == 8);
        }
        h = next;
        i += 1;
    }
    let mut out: Vec<u8> = Vec::new();
    let mut j: usize = 0;
    while j < 8
        invariant
            j <= 8,
            h@.len() == 8,
            out@ == state_bytes(h@, j as int),
        decreases 8 - j,
    {
        push_field(&mut out, h[j] as u64, 4, true);
        j += 1;
    }
    proof {
        assert(nb == data@.len() as int / 64);
    }
    out
}

/// The SHA-256 digest of `msg` as 64 lowercase hex digits.
pub fn sha256_hex(msg: &[u8]) -> (s: String)
    requires
        msg@.len() + 72 <= usize::MAX,
    ensures
        s@ == hex_of(sha256_spec(msg@)),
{
    let d = sha256(msg);
    crate::text_codec::hex_encode(d.as_slice())
}

} // verus!
