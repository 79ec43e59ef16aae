//! Building the human-readable error messages the library hands back.

use vstd::prelude::*;
use crate::color::{hex_byte, hex_digit};
use crate::text_codec::chars_of;

verus! {

/// An owned copy of a message fragment.
pub fn owned(s: &str) -> (r: String)
    ensures
        r@ == s@,
{
    s.to_owned()
}

/// The decimal digits of `n`, most significant first, with no leading
/// zero (as `Display` writes an unsigned integer).
pub open spec fn decimal(n: nat) -> Seq<char>
    decreases n,
{
    if n < 10 {
        seq![(('0' as int) + n) as char]
    } else {
        decimal(n / 10) + seq![(('0' as int) + (n % 10)) as char]
    }
}

/// Whether `m` begins with `p`.
pub open spec fn starts_with(m: Seq<char>, p: Seq<char>) -> bool {
    m.len() >= p.len() && m.subrange(0, p.len() as int) == p
}

/// The decimal digit for `d < 10`.
fn digit_char(d: u64) -> (c: char)
    requires
        d < 10,
    ensures
        c == (('0' as int) + d) as char,
{
    ((0x30u8 + d as u8) as char)
}

/// The decimal digits of `n` (see `decimal`).
pub fn decimal_chars(n: u64) -> (r: Vec<char>)
    ensures
        r@ == decimal(n as nat),
{
    let mut q = n;
    let mut out: Vec<char> = Vec::new();
    while q >= 10
        invariant
            decimal(n as nat) == decimal(q as nat) + out@,
        decreases q,
    {
        let ghost before = out@;
        out.insert(0, digit_char(q % 10));
        proof {
            assert(decimal(q as nat) == decimal((q / 10) as nat) + seq![(('0' as int) + (q % 10)) as char]);
            assert(decimal((q / 10) as nat) + out@ =~= decimal(q as nat) + before);
        }
        q = q / 10;
    }
    let ghost before = out@;
    out.insert(0, digit_char(q));
    proof {
        assert(out@ =~= decimal(q as nat) + before);
    }
    out
}

/// A `String` of three runs of characters, one after another.
fn join3(a: Vec<char>, b: Vec<char>, c: Vec<char>) -> (r: String)
    ensures
        r@ == a@ + b@ + c@,
{
    let mut all = a;
    let mut b = b;
    let mut c = c;
    all.append(&mut b);
    all.append(&mut c);
    crate::color::string_of(&all)
}

/// `before`, the decimal digits of `n`, then `after`.
pub(crate) fn with_number(before: &str, n: u64, after: &str) -> (r: String)
    ensures
        r@ == before@ + decimal(n as nat) + after@,
{
    join3(chars_of(before), decimal_chars(n), chars_of(after))
}

/// The characters of `before`, then `n` with its sign, then `after`.
pub(crate) fn with_signed(before: &str, n: i64, after: &str) -> (r: String)
    ensures
        r@ == before@ + (if n < 0 { seq!['-'] + decimal((-n) as nat) } else { decimal(n as nat) }) + after@,
{
    let mut mid: Vec<char> = Vec::new();
    if n < 0 {
        mid.push('-');
        let m: u64 = (0i128 - n as i128) as u64;
        let mut ds = decimal_chars(m);
        mid.append(&mut ds);
    } else {
        mid = decimal_chars(n as u64);
    }
    join3(chars_of(before), mid, chars_of(after))
}

/// `before`, the decimal digits of `a`, `middle`, those of `b`, then
/// `after`.
pub(crate) fn with_two_numbers(before: &str, a: u64, middle: &str, b: u64, after: &str) -> (r: String)
    ensures
        r@ == before@ + decimal(a as nat) + middle@ + decimal(b as nat) + after@,
{
    let first = with_number(before, a, middle);
    with_number(first.as_str(), b, after)
}

/// `before`, `s` itself, then `after`.
pub(crate) fn with_text(before: &str, s: &str, after: &str) -> (r: String)
    ensures
        r@ == before@ + s@ + after@,
{
    join3(chars_of(before), chars_of(s), chars_of(after))
}

/// The bytes as `Debug` writes a list with the `02x` format: two
/// lowercase hex digits each, separated by `", "`, in square brackets.
pub open spec fn byte_list(b: Seq<u8>) -> Seq<char> {
    seq!['['] + byte_items(b) + seq![']']
}

/// The list's items (see `byte_list`).
pub open spec fn byte_items(b: Seq<u8>) -> Seq<char>
    decreases b.len(),
{
    if b.len() == 0 {
        Seq::empty()
    } else if b.len() == 1 {
        hex_byte(b[0])
    } else {
        byte_items(b.drop_last()) + seq![',', ' '] + hex_byte(b.last())
    }
}

/// `before`, the bytes as a bracketed list of two-digit hex numbers (see
/// `byte_list`), then `after`.
pub(crate) fn with_bytes(before: &str, b: &[u8], after: &str) -> (r: String)
    ensures
        r@ == before@ + byte_list(b@) + after@,
{
    let mut mid: Vec<char> = Vec::new();
    mid.push('[');
    let mut k: usize = 0;
    while k < b.len()
        invariant
            k <= b@.len(),
            mid@ == seq!['['] + byte_items(b@.take(k as int)),
        decreases b@.len() - k,
    {
        let ghost before_mid = mid@;
        if k > 0 {
            mid.push(',');
            mid.push(' ');
        }
        let x = b[k];
        mid.push(hex_digit_exec(x / 16));
        mid.push(hex_digit_exec(x % 16));
        proof {
            assert(b@.take(k + 1).drop_last() =~= b@.take(k as int));
            assert(mid@ =~= seq!['['] + byte_items(b@.take(k + 1)));
        }
        k += 1;
    }
    mid.push(']');
    proof {
        assert(b@.take(b@.len() as int) =~= b@);
        assert(mid@ =~= byte_list(b@));
    }
    join3(chars_of(before), mid, chars_of(after))
}

/// The lowercase hex digit for `n < 16`.
pub(crate) fn hex_digit_exec(n: u8) -> (c: char)
    requires
        n < 16,
    ensures
        c == hex_digit(n as int),
{
    if n < 10 { ((0x30 + n) as char) } else { ((0x61 + n - 10) as char) }
}

} // verus!
