//! Hex and base64 text for byte buffers: lowercase hex pairs, and standard
//! padded base64. Decoding skips white space, and each decoder gives back
//! exactly the bytes its encoder was given.

use vstd::prelude::*;
use crate::color::{hex_byte, hex_digit, string_of};
use crate::font::white_space;
use crate::text;

verus! {

/// Two lowercase hex digits per byte.
pub open spec fn hex_of(b: Seq<u8>) -> Seq<char>
    decreases b.len(),
{
    if b.len() == 0 { Seq::empty() } else { hex_of(b.drop_last()) + hex_byte(b.last()) }
}

/// The characters of `s` that are not white space, in order.
pub open spec fn strip_white(s: Seq<char>) -> Seq<char>
    decreases s.len(),
{
    if s.len() == 0 {
        Seq::empty()
    } else if white_space(s.last()) {
        strip_white(s.drop_last())
    } else {
        strip_white(s.drop_last()).push(s.last())
    }
}

/// The value of a hex digit of either case, or `None`.
pub open spec fn nibble(c: char) -> Option<int> {
    let v = c as int;
    if 0x30 <= v <= 0x39 {
        Some(v - 0x30)
    } else if 0x61 <= v <= 0x66 {
        Some(v - 0x61 + 10)
    } else if 0x41 <= v <= 0x46 {
        Some(v - 0x41 + 10)
    } else {
        None
    }
}

/// The bytes spelled by pairs of hex digits, or `None` when a character is
/// not a hex digit or one is left over.
pub open spec fn hex_bytes(t: Seq<char>) -> Option<Seq<u8>>
    decreases t.len(),
{
    if t.len() == 0 {
        Some(Seq::empty())
    } else if t.len() == 1 {
        None
    } else {
        match (hex_bytes(t.subrange(0, t.len() - 2)), nibble(t[t.len() - 2]), nibble(t[t.len() - 1])) {
            (Some(b), Some(hi), Some(lo)) => Some(b.push((hi * 16 + lo) as u8)),
            _ => None,
        }
    }
}

/// The characters of a string, in order.
pub(crate) fn chars_of(s: &str) -> (r: Vec<char>)
    ensures
        r@ == s@,
{
    let mut out: Vec<char> = Vec::new();
    for c in it: s.chars()
        invariant
            out@ == it.seq().take(it.index() as int),
    {
        out.push(c);
    }
    out
}

/// The bytes as lowercase hex, two digits each.
pub fn hex_encode(bytes: &[u8]) -> (s: String)
    ensures
        s@ == hex_of(bytes@),
{
    let mut out: Vec<char> = Vec::new();
    let mut i: usize = 0;
    while i < bytes.len()
        invariant
            i <= bytes@.len(),
            out@ == hex_of(bytes@.take(i as int)),
        decreases bytes@.len() - i,
    {
        let b = bytes[i];
        out.push(crate::text::hex_digit_exec(b / 16));
        out.push(crate::text::hex_digit_exec(b % 16));
        assert(bytes@.take(i + 1).drop_last() =~= bytes@.take(i as int));
        assert(out@ =~= hex_of(bytes@.take(i + 1)));
        i += 1;
    }
    assert(bytes@.take(bytes@.len() as int) =~= bytes@);
    string_of(&out)
}

fn nibble_exec(c: char) -> (r: Option<u8>)
    ensures
        match nibble(c) {
            Some(v) => r == Some(v as u8),
            None => r is None,
        },
{
    let v = c as u32;
    if 0x30 <= v && v <= 0x39 {
        Some((v - 0x30) as u8)
    } else if 0x61 <= v && v <= 0x66 {
        Some((v - 0x61 + 10) as u8)
    } else if 0x41 <= v && v <= 0x46 {
        Some((v - 0x41 + 10) as u8)
    } else {
        None
    }
}

pub(crate) fn is_white(c: char) -> (b: bool)
    ensures
        b == white_space(c),
{
    let v = c as u32;
    (0x09 <= v && v <= 0x0D) || v == 0x20 || v == 0x85 || v == 0xA0 || v == 0x1680 || (0x2000 <= v && v <= 0x200A)
        || v == 0x2028 || v == 0x2029 || v == 0x202F || v == 0x205F || v == 0x3000
}

/// The characters that are not white space.
fn without_white(cs: &Vec<char>) -> (t: Vec<char>)
    ensures
        t@ == strip_white(cs@),
{
    let mut t: Vec<char> = Vec::new();
    let mut i: usize = 0;
    while i < cs.len()
        invariant
            i <= cs@.len(),
            t@ == strip_white(cs@.take(i as int)),
        decreases cs@.len() - i,
    {
        let c = cs[i];
        assert(cs@.take(i + 1).drop_last() =~= cs@.take(i as int));
        if !is_white(c) {
            t.push(c);
        }
        i += 1;
    }
    assert(cs@.take(cs@.len() as int) =~= cs@);
    t
}

/// The bytes spelled by hex digit pairs, white space ignored; an odd
/// number of digits, or a character that is not a hex digit, is an error.
pub fn hex_decode(text: &str) -> (r: Result<Vec<u8>, String>)
    ensures
        match hex_bytes(strip_white(text@)) {
            Some(b) => r matches Ok(v) && v@ == b,
            None => r is Err,
        },
{
    let cs = chars_of(text);
    let t = without_white(&cs);
    if t.len() % 2 != 0 {
        proof {
            lemma_hex_bytes_odd(t@);
        }
        return Err(text::with_number("hex_decode: odd number of hex digits (", t.len() as u64, ") -- a byte is two"));
    }
    let mut out: Vec<u8> = Vec::new();
    let mut i: usize = 0;
    while i < t.len()
        invariant
            i <= t@.len(),
            i % 2 == 0,
            t@.len() % 2 == 0,
            t@ == strip_white(text@),
            hex_bytes(t@.take(i as int)) == Some(out@),
            hex_bytes(t@) is Some ==> hex_bytes(t@.take(i as int)) is Some,
        decreases t@.len() - i,
    {
        let hi = nibble_exec(t[i]);
        let lo = nibble_exec(t[i + 1]);
        let ghost next = t@.take(i + 2);
        assert(next.subrange(0, next.len() - 2) =~= t@.take(i as int));
        if hi.is_none() || lo.is_none() {
            proof {
                assert(next[i as int] == t@[i as int]);
                assert(next[i + 1] == t@[i + 1]);
                assert(hex_bytes(next) is None);
                if hex_bytes(t@) is Some {
                    lemma_hex_bytes_prefix(t@, i + 2);
                }
            }
            return Err(text::owned("hex_decode: a character is not a hex digit"));
        }
        let h = hi.unwrap();
        let l = lo.unwrap();
        out.push(h * 16 + l);
        i += 2;
    }
    assert(t@.take(t@.len() as int) =~= t@);
    Ok(out)
}

proof fn lemma_hex_bytes_odd(t: Seq<char>)
    requires
        t.len() % 2 == 1,
    ensures
        hex_bytes(t) is None,
    decreases t.len(),
{
    if t.len() > 1 {
        lemma_hex_bytes_odd(t.subrange(0, t.len() - 2));
    }
}

/// A decodable string's even-length prefixes decode.
proof fn lemma_hex_bytes_prefix(t: Seq<char>, k: int)
    requires
        0 <= k <= t.len(),
        k % 2 == 0,
        t.len() % 2 == 0,
        hex_bytes(t) is Some,
    ensures
        hex_bytes(t.take(k)) is Some,
    decreases t.len() - k,
{
    if k < t.len() {
        let u = t.subrange(0, t.len() - 2);
        assert(hex_bytes(u) is Some);
        lemma_hex_bytes_prefix(u, k);
        assert(u.take(k) =~= t.take(k));
    } else {
        assert(t.take(k) =~= t);
    }
}

/// Hex text has no white space.
proof fn lemma_hex_no_white(b: Seq<u8>)
    ensures
        strip_white(hex_of(b)) == hex_of(b),
    decreases b.len(),
{
    if b.len() > 0 {
        lemma_hex_no_white(b.drop_last());
        let h = hex_of(b.drop_last());
        let x = b.last();
        let s1 = h + seq![hex_digit((x / 16) as int)];
        let s2 = s1 + seq![hex_digit((x % 16) as int)];
        assert(hex_of(b) =~= s2);
        assert(s2.drop_last() =~= s1);
        assert(s1.drop_last() =~= h);
        assert(!white_space(hex_digit((x / 16) as int)));
        assert(!white_space(hex_digit((x % 16) as int)));
        assert(strip_white(s1) =~= s1);
        assert(strip_white(s2) =~= s2);
    }
}

/// Decoding lowercase hex gives back the bytes.
proof fn lemma_hex_decode_of(b: Seq<u8>)
    ensures
        hex_bytes(hex_of(b)) == Some(b),
    decreases b.len(),
{
    if b.len() > 0 {
        lemma_hex_decode_of(b.drop_last());
        let t = hex_of(b);
        let x = b.last();
        assert(t.subrange(0, t.len() - 2) =~= hex_of(b.drop_last()));
        assert(b.drop_last().push(x) =~= b);
        assert(nibble(hex_digit((x / 16) as int)) == Some((x / 16) as int));
        assert(nibble(hex_digit((x % 16) as int)) == Some((x % 16) as int));
    } else {
        assert(hex_of(b) =~= Seq::<char>::empty());
    }
}

/// Hex decoding undoes hex encoding, whatever the bytes.
pub proof fn lemma_hex_round_trip(b: Seq<u8>)
    ensures
        hex_bytes(strip_white(hex_of(b))) == Some(b),
{
    lemma_hex_no_white(b);
    lemma_hex_decode_of(b);
}


/// The base64 digit (standard alphabet) for a value below 64.
pub open spec fn b64_char(v: int) -> char {
    if v < 26 {
        (('A' as int) + v) as char
    } else if v < 52 {
        (('a' as int) + v - 26) as char
    } else if v < 62 {
        (('0' as int) + v - 52) as char
    } else if v == 62 {
        '+'
    } else {
        '/'
    }
}

/// The value of a base64 digit, or `None` for any other character.
pub open spec fn b64_value(c: char) -> Option<int> {
    let v = c as int;
    if 0x41 <= v <= 0x5A {
        Some(v - 0x41)
    } else if 0x61 <= v <= 0x7A {
        Some(v - 0x61 + 26)
    } else if 0x30 <= v <= 0x39 {
        Some(v - 0x30 + 52)
    } else if v == 0x2B {
        Some(62)
    } else if v == 0x2F {
        Some(63)
    } else {
        None
    }
}

/// One group of one to three bytes as four characters; `=` stands in for
/// each digit the missing bytes would have given.
#[verifier::opaque]
pub open spec fn b64_quad(g: Seq<u8>) -> Seq<char> {
    let a = g[0] as int;
    let b = if g.len() > 1 { g[1] as int } else { 0 };
    let c = if g.len() > 2 { g[2] as int } else { 0 };
    let n = a * 65536 + b * 256 + c;
    seq![
        b64_char(n / 262144),
        b64_char((n / 4096) % 64),
        if g.len() > 1 { b64_char((n / 64) % 64) } else { '=' },
        if g.len() > 2 { b64_char(n % 64) } else { '=' },
    ]
}

/// The size of the last group when `len` bytes are cut into threes.
pub open spec fn last_group(len: int) -> int {
    if len % 3 == 0 { 3 } else { len % 3 }
}

/// Standard padded base64: the bytes cut into groups of three from the
/// front, each group four characters.
pub open spec fn b64_of(b: Seq<u8>) -> Seq<char>
    decreases b.len(),
{
    if b.len() == 0 {
        Seq::empty()
    } else {
        let k = b.len() - last_group(b.len() as int);
        b64_of(b.take(k)) + b64_quad(b.skip(k))
    }
}

/// The white space `u8::is_ascii_whitespace` names: space, tab, line
/// feed, form feed and carriage return.
pub open spec fn ascii_white(c: char) -> bool {
    c == ' ' || c == '\t' || c == '\n' || c == '\x0C' || c == '\r'
}

/// The characters of `s` that are not ASCII white space, in order.
pub open spec fn strip_ascii_white(s: Seq<char>) -> Seq<char>
    decreases s.len(),
{
    if s.len() == 0 {
        Seq::empty()
    } else if ascii_white(s.last()) {
        strip_ascii_white(s.drop_last())
    } else {
        strip_ascii_white(s.drop_last()).push(s.last())
    }
}

/// A digit of a four-character group: `=` reads as zero.
pub open spec fn quad_digit(c: char) -> Option<int> {
    if c == '=' { Some(0) } else { b64_value(c) }
}

/// How many of the four characters are `=`.
pub open spec fn pad_count(q: Seq<char>) -> int {
    (if q[0] == '=' { 1int } else { 0 }) + (if q[1] == '=' { 1int } else { 0 })
        + (if q[2] == '=' { 1int } else { 0 }) + (if q[3] == '=' { 1int } else { 0 })
}

/// The bytes of one four-character group: three, less one for each `=`
/// up to two; `None` when a character is neither a digit nor `=`.
#[verifier::opaque]
pub open spec fn b64_group(q: Seq<char>) -> Option<Seq<u8>> {
    match (quad_digit(q[0]), quad_digit(q[1]), quad_digit(q[2]), quad_digit(q[3])) {
        (Some(v0), Some(v1), Some(v2), Some(v3)) => {
            let n = v0 * 262144 + v1 * 4096 + v2 * 64 + v3;
            let p = pad_count(q);
            let one = seq![(n / 65536) as u8];
            let two = if p < 2 { one.push(((n / 256) % 256) as u8) } else { one };
            Some(if p < 1 { two.push((n % 256) as u8) } else { two })
        },
        _ => None,
    }
}

/// The bytes of standard padded base64 text, read four characters at a
/// time; `None` when the length is not a multiple of four or a group
/// does not read.
pub open spec fn b64_bytes(t: Seq<char>) -> Option<Seq<u8>>
    decreases t.len(),
{
    if t.len() == 0 {
        Some(Seq::empty())
    } else if t.len() % 4 != 0 {
        None
    } else {
        match (b64_bytes(t.take(t.len() - 4)), b64_group(t.skip(t.len() - 4))) {
            (Some(a), Some(g)) => Some(a + g),
            _ => None,
        }
    }
}

fn b64_char_exec(v: u32) -> (c: char)
    requires
        v < 64,
    ensures
        c == b64_char(v as int),
{
    if v < 26 {
        ((0x41 + v) as u8) as char
    } else if v < 52 {
        ((0x61 + v - 26) as u8) as char
    } else if v < 62 {
        ((0x30 + v - 52) as u8) as char
    } else if v == 62 {
        '+'
    } else {
        '/'
    }
}

/// The four characters of one group of one to three bytes.
fn quad_chars(g: &[u8]) -> (r: Vec<char>)
    requires
        1 <= g@.len() <= 3,
    ensures
        r@ == b64_quad(g@),
{
    reveal(b64_quad);
    let count = g.len();
    let a = g[0] as u32;
    let b: u32 = if count > 1 { g[1] as u32 } else { 0 };
    let c: u32 = if count > 2 { g[2] as u32 } else { 0 };
    let n: u32 = a * 65536 + b * 256 + c;
    let mut out: Vec<char> = Vec::new();
    out.push(b64_char_exec(n / 262144));
    out.push(b64_char_exec((n / 4096) % 64));
    if count > 1 {
        out.push(b64_char_exec((n / 64) % 64));
    } else {
        out.push('=');
    }
    if count > 2 {
        out.push(b64_char_exec(n % 64));
    } else {
        out.push('=');
    }
    assert(out@ =~= b64_quad(g@));
    out
}

/// One more group at the end of a prefix cut at a multiple of three.
proof fn lemma_b64_of_step(b: Seq<u8>, i: int, count: int)
    requires
        0 <= i,
        i % 3 == 0,
        1 <= count <= 3,
        i + count <= b.len(),
    ensures
        b64_of(b.take(i + count)) == b64_of(b.take(i)) + b64_quad(b.subrange(i, i + count)),
{
    let whole = b.take(i + count);
    assert(last_group(whole.len() as int) == count);
    assert(whole.take(i) =~= b.take(i));
    assert(whole.skip(i) =~= b.subrange(i, i + count));
}

/// The bytes as standard padded base64.
pub fn base64_encode(bytes: &[u8]) -> (s: String)
    ensures
        s@ == b64_of(bytes@),
{
    let mut out: Vec<char> = Vec::new();
    let mut i: usize = 0;
    while i < bytes.len()
        invariant
            i <= bytes@.len(),
            i % 3 == 0 || i == bytes@.len(),
            out@ == b64_of(bytes@.take(i as int)),
        decreases bytes@.len() - i,
    {
        let left = bytes.len() - i;
        let count: usize = if left < 3 { left } else { 3 };
        let mut q = quad_chars(&bytes[i..i + count]);
        proof {
            lemma_b64_of_step(bytes@, i as int, count as int);
        }
        out.append(&mut q);
        i += count;
    }
    assert(bytes@.take(bytes@.len() as int) =~= bytes@);
    string_of(&out)
}

fn is_ascii_white(c: char) -> (b: bool)
    ensures
        b == ascii_white(c),
{
    c == ' ' || c == '\t' || c == '\n' || c == '\x0C' || c == '\r'
}

/// The characters that are not ASCII white space.
fn without_ascii_white(cs: &Vec<char>) -> (t: Vec<char>)
    ensures
        t@ == strip_ascii_white(cs@),
{
    let mut t: Vec<char> = Vec::new();
    let mut i: usize = 0;
    while i < cs.len()
        invariant
            i <= cs@.len(),
            t@ == strip_ascii_white(cs@.take(i as int)),
        decreases cs@.len() - i,
    {
        let c = cs[i];
        assert(cs@.take(i + 1).drop_last() =~= cs@.take(i as int));
        if !is_ascii_white(c) {
            t.push(c);
        }
        i += 1;
    }
    assert(cs@.take(cs@.len() as int) =~= cs@);
    t
}

fn quad_digit_exec(c: char) -> (r: Option<u32>)
    ensures
        match quad_digit(c) {
            Some(v) => r == Some(v as u32),
            None => r is None,
        },
{
    let v = c as u32;
    if c == '=' {
        Some(0)
    } else if 0x41 <= v && v <= 0x5A {
        Some(v - 0x41)
    } else if 0x61 <= v && v <= 0x7A {
        Some(v - 0x61 + 26)
    } else if 0x30 <= v && v <= 0x39 {
        Some(v - 0x30 + 52)
    } else if v == 0x2B {
        Some(62)
    } else if v == 0x2F {
        Some(63)
    } else {
        None
    }
}

/// The bytes of one group of four characters.
fn decode_group(q: &[char]) -> (r: Option<Vec<u8>>)
    requires
        q@.len() == 4,
    ensures
        match b64_group(q@) {
            Some(g) => r matches Some(v) && v@ == g,
            None => r is None,
        },
{
    reveal(b64_group);
    let d0 = quad_digit_exec(q[0]);
    let d1 = quad_digit_exec(q[1]);
    let d2 = quad_digit_exec(q[2]);
    let d3 = quad_digit_exec(q[3]);
    if d0.is_none() || d1.is_none() || d2.is_none() || d3.is_none() {
        return None;
    }
    let v0 = d0.unwrap();
    let v1 = d1.unwrap();
    let v2 = d2.unwrap();
    let v3 = d3.unwrap();
    let n: u32 = v0 * 262144 + v1 * 4096 + v2 * 64 + v3;
    let mut pad: u32 = 0;
    let mut k: usize = 0;
    while k < 4
        invariant
            k <= 4,
            q@.len() == 4,
            pad == (if k > 0 && q@[0] == '=' { 1int } else { 0 }) + (if k > 1 && q@[1] == '=' { 1int } else { 0 })
                + (if k > 2 && q@[2] == '=' { 1int } else { 0 }) + (if k > 3 && q@[3] == '=' { 1int } else { 0 }),
        decreases 4 - k,
    {
        if q[k] == '=' {
            pad += 1;
        }
        k += 1;
    }
    let mut out: Vec<u8> = Vec::new();
    out.push((n / 65536) as u8);
    if pad < 2 {
        out.push(((n / 256) % 256) as u8);
    }
    if pad < 1 {
        out.push((n % 256) as u8);
    }
    Some(out)
}

/// The bytes of standard padded base64 text, ASCII white space ignored.
/// A length (after the white space is dropped) that is not a multiple of
/// four, or a character that is neither a base64 digit nor `=`, is an
/// error.
pub fn base64_decode(text: &str) -> (r: Result<Vec<u8>, String>)
    ensures
        match b64_bytes(strip_ascii_white(text@)) {
            Some(b) => r matches Ok(v) && v@ == b,
            None => r is Err,
        },
{
    let cs = chars_of(text);
    let t = without_ascii_white(&cs);
    if t.len() % 4 != 0 {
        return Err(text::with_number(
            "base64_decode: input length ",
            t.len() as u64,
            " is not a multiple of 4 -- this is standard base64 with padding, not the URL-safe unpadded variant",
        ));
    }
    let mut out: Vec<u8> = Vec::new();
    let mut i: usize = 0;
    while i < t.len()
        invariant
            i <= t@.len(),
            i % 4 == 0,
            t@.len() % 4 == 0,
            t@ == strip_ascii_white(text@),
            b64_bytes(t@.take(i as int)) == Some(out@),
        decreases t@.len() - i,
    {
        let g = decode_group(&t.as_slice()[i..i + 4]);
        proof {
            lemma_b64_bytes_step(t@, i as int);
        }
        match g {
            None => {
                proof {
                    if b64_bytes(t@) is Some {
                        lemma_b64_bytes_prefix(t@, i + 4);
                    }
                }
                return Err(text::owned("base64_decode: a character is not a base64 character"));
            },
            Some(v) => {
                let mut v = v;
                out.append(&mut v);
            },
        }
        i += 4;
    }
    assert(t@.take(t@.len() as int) =~= t@);
    Ok(out)
}

/// Reading one more group of four extends what the prefix read.
proof fn lemma_b64_bytes_step(t: Seq<char>, i: int)
    requires
        0 <= i,
        i + 4 <= t.len(),
        i % 4 == 0,
    ensures
        b64_bytes(t.take(i + 4)) == match (b64_bytes(t.take(i)), b64_group(t.subrange(i, i + 4))) {
            (Some(a), Some(g)) => Some(a + g),
            _ => None::<Seq<u8>>,
        },
{
    let next = t.take(i + 4);
    assert(next.take(next.len() - 4) =~= t.take(i));
    assert(next.skip(next.len() - 4) =~= t.subrange(i, i + 4));
}

/// A readable text's prefixes of whole groups read too.
proof fn lemma_b64_bytes_prefix(t: Seq<char>, k: int)
    requires
        0 <= k <= t.len(),
        k % 4 == 0,
        b64_bytes(t) is Some,
    ensures
        b64_bytes(t.take(k)) is Some,
    decreases t.len() - k,
{
    if k < t.len() {
        let u = t.take(t.len() - 4);
        lemma_b64_bytes_prefix(u, k);
        assert(u.take(k) =~= t.take(k));
    } else {
        assert(t.take(k) =~= t);
    }
}


/// Each base64 digit reads back as the value it was written for.
proof fn lemma_b64_char_value(v: int)
    requires
        0 <= v < 64,
    ensures
        b64_value(b64_char(v)) == Some(v),
        b64_char(v) != '=',
        !ascii_white(b64_char(v)),
{
}

/// A 24-bit number split into four 6-bit digits and put back together.
proof fn lemma_six_bit_digits(n: int)
    requires
        0 <= n < 16777216,
    ensures
        0 <= n / 262144 < 64,
        (n / 262144) * 262144 + ((n / 4096) % 64) * 4096 + ((n / 64) % 64) * 64 + n % 64 == n,
        (n / 262144) * 262144 + ((n / 4096) % 64) * 4096 == n - n % 4096,
        (n / 262144) * 262144 + ((n / 4096) % 64) * 4096 + ((n / 64) % 64) * 64 == n - n % 64,
{
    assert(0 <= n / 262144 < 64) by (nonlinear_arith)
        requires
            0 <= n < 16777216,
    ;
    assert((n / 262144) * 262144 + ((n / 4096) % 64) * 4096 == n - n % 4096) by (nonlinear_arith)
        requires
            0 <= n,
    ;
    assert((n / 4096) * 4096 + ((n / 64) % 64) * 64 == n - n % 64) by (nonlinear_arith)
        requires
            0 <= n,
    ;
    assert(n - n % 4096 == (n / 4096) * 4096) by (nonlinear_arith)
        requires
            0 <= n,
    ;
    assert(n - n % 64 + n % 64 == n);
}

/// The three bytes of a 24-bit group, back from its value.
proof fn lemma_three_bytes(a: int, b: int, c: int)
    requires
        0 <= a < 256,
        0 <= b < 256,
        0 <= c < 256,
    ensures
        0 <= a * 65536 + b * 256 + c < 16777216,
        (a * 65536 + b * 256 + c) / 65536 == a,
        ((a * 65536 + b * 256 + c) / 256) % 256 == b,
        (a * 65536 + b * 256 + c) % 256 == c,
        (a * 65536 + b * 256) % 64 == 0,
        (a * 65536) % 4096 == 0,
{
    assert(0 <= a * 65536 + b * 256 + c < 16777216) by (nonlinear_arith)
        requires
            0 <= a < 256,
            0 <= b < 256,
            0 <= c < 256,
    ;
    assert((a * 65536 + b * 256 + c) / 65536 == a) by (nonlinear_arith)
        requires
            0 <= a < 256,
            0 <= b < 256,
            0 <= c < 256,
    ;
    assert((a * 65536 + b * 256 + c) / 256 == a * 256 + b) by (nonlinear_arith)
        requires
            0 <= a < 256,
            0 <= b < 256,
            0 <= c < 256,
    ;
    assert((a * 256 + b) % 256 == b) by (nonlinear_arith)
        requires
            0 <= a < 256,
            0 <= b < 256,
    ;
    assert((a * 65536 + b * 256 + c) % 256 == c) by (nonlinear_arith)
        requires
            0 <= a < 256,
            0 <= b < 256,
            0 <= c < 256,
    ;
    assert((a * 65536 + b * 256) % 64 == 0) by (nonlinear_arith)
        requires
            0 <= a,
            0 <= b,
    ;
    assert((a * 65536) % 4096 == 0) by (nonlinear_arith)
        requires
            0 <= a,
    ;
}

/// A group of one to three bytes reads back from its four characters.
proof fn lemma_quad_round_trip(g: Seq<u8>)
    requires
        1 <= g.len() <= 3,
    ensures
        b64_group(b64_quad(g)) == Some(g),
{
    reveal(b64_group);
    reveal(b64_quad);
    let a = g[0] as int;
    let b = if g.len() > 1 { g[1] as int } else { 0 };
    let c = if g.len() > 2 { g[2] as int } else { 0 };
    let n = a * 65536 + b * 256 + c;
    lemma_three_bytes(a, b, c);
    lemma_six_bit_digits(n);
    let d0 = n / 262144;
    let d1 = (n / 4096) % 64;
    let d2 = (n / 64) % 64;
    let d3 = n % 64;
    lemma_b64_char_value(d0);
    lemma_b64_char_value(d1);
    lemma_b64_char_value(d2);
    lemma_b64_char_value(d3);
    let q = b64_quad(g);
    assert(quad_digit(q[0]) == Some(d0));
    assert(quad_digit(q[1]) == Some(d1));
    if g.len() == 1 {
        assert(pad_count(q) == 2);
        assert(quad_digit(q[2]) == Some(0int));
        assert(quad_digit(q[3]) == Some(0int));
        assert(seq![(n / 65536) as u8] =~= g);
    } else if g.len() == 2 {
        assert(pad_count(q) == 1);
        assert(quad_digit(q[2]) == Some(d2));
        assert(quad_digit(q[3]) == Some(0int));
        assert(seq![(n / 65536) as u8].push(((n / 256) % 256) as u8) =~= g);
    } else {
        assert(pad_count(q) == 0);
        assert(quad_digit(q[2]) == Some(d2));
        assert(quad_digit(q[3]) == Some(d3));
        assert(seq![(n / 65536) as u8].push(((n / 256) % 256) as u8).push((n % 256) as u8) =~= g);
    }
}

/// A character base64 text is made of.
pub open spec fn b64_text_char(c: char) -> bool {
    c == '=' || b64_value(c) is Some
}

/// A group's four characters are digits or `=`.
proof fn lemma_quad_text(g: Seq<u8>)
    requires
        1 <= g.len() <= 3,
    ensures
        b64_quad(g).len() == 4,
        forall|i: int| 0 <= i < 4 ==> b64_text_char(#[trigger] b64_quad(g)[i]),
{
    reveal(b64_quad);
    let a = g[0] as int;
    let b = if g.len() > 1 { g[1] as int } else { 0 };
    let c = if g.len() > 2 { g[2] as int } else { 0 };
    let n = a * 65536 + b * 256 + c;
    lemma_three_bytes(a, b, c);
    lemma_six_bit_digits(n);
    lemma_b64_char_value(n / 262144);
    lemma_b64_char_value((n / 4096) % 64);
    lemma_b64_char_value((n / 64) % 64);
    lemma_b64_char_value(n % 64);
}

/// Encoded text reads back as the bytes, is whole groups of four, and is
/// made of digits and `=` alone.
proof fn lemma_b64_decode_of(b: Seq<u8>)
    ensures
        b64_bytes(b64_of(b)) == Some(b),
        b64_of(b).len() % 4 == 0,
        forall|i: int| 0 <= i < b64_of(b).len() ==> b64_text_char(#[trigger] b64_of(b)[i]),
    decreases b.len(),
{
    if b.len() == 0 {
        assert(b64_of(b) =~= Seq::<char>::empty());
        assert(b =~= Seq::<u8>::empty());
    } else {
        let k = b.len() - last_group(b.len() as int);
        let head = b.take(k);
        let g = b.skip(k);
        lemma_b64_decode_of(head);
        lemma_quad_round_trip(g);
        lemma_quad_text(g);
        let p = b64_of(head);
        let q = b64_quad(g);
        let t = b64_of(b);
        assert(t == p + q);
        assert(t.take(t.len() - 4) =~= p);
        assert(t.skip(t.len() - 4) =~= q);
        assert(head + g =~= b);
        assert forall|i: int| 0 <= i < t.len() implies b64_text_char(#[trigger] t[i]) by {
            if i >= p.len() {
                assert(t[i] == q[i - p.len()]);
            } else {
                assert(t[i] == p[i]);
            }
        }
    }
}

/// Text with no ASCII white space is left as it is.
proof fn lemma_strip_ascii_clean(x: Seq<char>)
    requires
        forall|i: int| 0 <= i < x.len() ==> !ascii_white(#[trigger] x[i]),
    ensures
        strip_ascii_white(x) == x,
    decreases x.len(),
{
    if x.len() > 0 {
        let y = x.drop_last();
        assert forall|i: int| 0 <= i < y.len() implies !ascii_white(#[trigger] y[i]) by {
            assert(y[i] == x[i]);
        }
        lemma_strip_ascii_clean(y);
        assert(y.push(x.last()) =~= x);
    }
}

/// Base64 decoding undoes base64 encoding, whatever the bytes.
pub proof fn lemma_base64_round_trip(b: Seq<u8>)
    ensures
        b64_bytes(strip_ascii_white(b64_of(b))) == Some(b),
{
    lemma_b64_decode_of(b);
    let t = b64_of(b);
    assert forall|i: int| 0 <= i < t.len() implies !ascii_white(#[trigger] t[i]) by {
        assert(b64_text_char(t[i]));
    }
    lemma_strip_ascii_clean(t);
}

} // verus!
