//! Bit- and byte-level tools on byte buffers: reading and writing single
//! bits, swapping the byte order inside fixed-width chunks, reversing,
//! padding, and finding or replacing a byte pattern. Bit `i` of a buffer
//! is bit `i % 8` of byte `i / 8`, counting from the least significant
//! bit, so bit 0 of byte 0 is the buffer's lowest bit overall.

use vstd::prelude::*;
use crate::text::{self, decimal};
use crate::color::{hex_byte, hex_digit};

verus! {

/// An owned copy of the bytes.
fn copy_of(b: &[u8]) -> (v: Vec<u8>)
    ensures
        v@ == b@,
{
    let mut v: Vec<u8> = Vec::new();
    crate::bytes::push_all(&mut v, b);
    v
}

/// Bit `i` of the buffer, as 0 or 1.
pub open spec fn bit_of(b: Seq<u8>, i: int) -> u8 {
    (b[i / 8] >> ((i % 8) as u8)) & 1u8
}

/// A signed number as `Display` writes it.
pub open spec fn signed_text(n: int) -> Seq<char> {
    if n < 0 { seq!['-'] + decimal((-n) as nat) } else { decimal(n as nat) }
}

/// The message for a bit index outside an `n`-byte buffer.
pub open spec fn bit_range_text(who: Seq<char>, i: int, n: int) -> Seq<char> {
    who + ": bit index "@ + signed_text(i) + " is out of range for a "@ + decimal(n as nat) + "-byte buffer (0.."@
        + decimal((8 * n) as nat) + ")"@
}

/// The out-of-range message (see `bit_range_text`).
fn bit_range_error(who: &str, i: i64, n: usize) -> (e: String)
    requires
        n * 8 <= i64::MAX,
    ensures
        e@ == bit_range_text(who@, i as int, n as int),
{
    let a = text::with_signed(": bit index ", i, " is out of range for a ");
    let b = text::with_text(who, a.as_str(), "");
    let c = text::with_two_numbers(b.as_str(), n as u64, "-byte buffer (0..", (n as u64) * 8, ")");
    proof {
        reveal_strlit("");
        assert(c@ =~= bit_range_text(who@, i as int, n as int));
    }
    c
}

/// Bit `i` of `b` (0 or 1); an index outside the buffer is an error.
pub fn get_bit(b: &[u8], i: i64) -> (r: Result<u8, String>)
    requires
        b@.len() * 8 <= i64::MAX,
    ensures
        0 <= i < 8 * b@.len() ==> r == Ok::<u8, String>(bit_of(b@, i as int)),
        !(0 <= i < 8 * b@.len()) ==> (r matches Err(e) && e@ == bit_range_text("get_bit"@, i as int, b@.len() as int)),
{
    if i < 0 || i as u64 >= (b.len() as u64) * 8 {
        return Err(bit_range_error("get_bit", i, b.len()));
    }
    assert(i / 8 < b@.len());
    let k = (i / 8) as usize;
    let s = (i % 8) as u8;
    Ok((b[k] >> s) & 1u8)
}

/// `b` with bit `i` set to one (`to_one`) or cleared; an index outside
/// the buffer is an error, named `set_bit` or `clear_bit`.
pub fn set_bit(b: &[u8], i: i64, to_one: bool) -> (r: Result<Vec<u8>, String>)
    requires
        b@.len() * 8 <= i64::MAX,
    ensures
        0 <= i < 8 * b@.len() ==> (r matches Ok(v) && v@ == b@.update(
            i / 8,
            if to_one { b@[i / 8] | (1u8 << ((i % 8) as u8)) } else { b@[i / 8] & !(1u8 << ((i % 8) as u8)) },
        )),
        !(0 <= i < 8 * b@.len()) ==> (r matches Err(e) && e@ == bit_range_text(
            if to_one { "set_bit"@ } else { "clear_bit"@ },
            i as int,
            b@.len() as int,
        )),
{
    if i < 0 || i as u64 >= (b.len() as u64) * 8 {
        let who = if to_one { "set_bit" } else { "clear_bit" };
        return Err(bit_range_error(who, i, b.len()));
    }
    assert(i / 8 < b@.len());
    let k = (i / 8) as usize;
    let s = (i % 8) as u8;
    let mut v = copy_of(b);
    let old_byte = v[k];
    if to_one {
        v.set(k, old_byte | (1u8 << s));
    } else {
        v.set(k, old_byte & !(1u8 << s));
    }
    Ok(v)
}

/// `b` with bit `i` flipped; an index outside the buffer is an error.
pub fn toggle_bit(b: &[u8], i: i64) -> (r: Result<Vec<u8>, String>)
    requires
        b@.len() * 8 <= i64::MAX,
    ensures
        0 <= i < 8 * b@.len() ==> (r matches Ok(v) && v@ == b@.update(i / 8, b@[i / 8] ^ (1u8 << ((i % 8) as u8)))),
        !(0 <= i < 8 * b@.len()) ==> (r matches Err(e) && e@ == bit_range_text("toggle_bit"@, i as int, b@.len() as int)),
{
    if i < 0 || i as u64 >= (b.len() as u64) * 8 {
        return Err(bit_range_error("toggle_bit", i, b.len()));
    }
    assert(i / 8 < b@.len());
    let k = (i / 8) as usize;
    let s = (i % 8) as u8;
    let mut v = copy_of(b);
    let old_byte = v[k];
    v.set(k, old_byte ^ (1u8 << s));
    Ok(v)
}

/// `b` with the bytes of each `w`-byte chunk in reverse order.
pub open spec fn swapped(b: Seq<u8>, w: int) -> Seq<u8> {
    Seq::new(b.len(), |k: int| b[(k / w) * w + (w - 1 - k % w)])
}

proof fn lemma_chunk_index(c: int, j: int, w: int)
    requires
        0 <= c,
        0 <= j < w,
    ensures
        (c * w + j) / w == c,
        (c * w + j) % w == j,
{
    vstd::arithmetic::div_mod::lemma_fundamental_div_mod_converse(c * w + j, w, c, j);
}

/// The byte order reversed inside each `width`-byte chunk (big-endian
/// words become little-endian, and back). A zero width, or a buffer that
/// does not divide into whole chunks, is an error.
pub fn swap_endian(b: &[u8], width: u64) -> (r: Result<Vec<u8>, String>)
    ensures
        width == 0 ==> (r matches Err(e) && e@ == "swap_endian: `width=0` must be a whole number >= 1"@),
        width > 0 && (b@.len() as int) % (width as int) != 0 ==> (r matches Err(e) && e@ == "swap_endian: the buffer is "@
            + decimal(b@.len()) + " bytes, which doesn't divide evenly by width="@ + decimal(width as nat)),
        width > 0 && (b@.len() as int) % (width as int) == 0 ==> (r matches Ok(v) && v@ == swapped(b@, width as int)),
{
    if width == 0 {
        return Err(text::owned("swap_endian: `width=0` must be a whole number >= 1"));
    }
    let n = b.len();
    if (n as u64) % width != 0 {
        let e = text::with_two_numbers(
            "swap_endian: the buffer is ",
            n as u64,
            " bytes, which doesn't divide evenly by width=",
            width,
            "",
        );
        proof {
            reveal_strlit("");
            assert(e@ =~= "swap_endian: the buffer is "@ + decimal(b@.len()) + " bytes, which doesn't divide evenly by width="@
                + decimal(width as nat));
        }
        return Err(e);
    }
    if n == 0 {
        let empty: Vec<u8> = Vec::new();
        proof {
            assert(empty@ =~= swapped(b@, width as int));
        }
        return Ok(empty);
    }
    proof {
        if width > n {
            vstd::arithmetic::div_mod::lemma_small_mod(n as nat, width as nat);
        }
    }
    let w = width as usize;
    let chunks = n / w;
    let ghost want = swapped(b@, w as int);
    proof {
        vstd::arithmetic::div_mod::lemma_fundamental_div_mod(n as int, w as int);
        assert(w * (n / w) == chunks * w) by (nonlinear_arith)
            requires
                chunks == n / w,
        ;
    }
    let mut out: Vec<u8> = Vec::new();
    let mut c: usize = 0;
    while c < chunks
        invariant
            w >= 1,
            chunks * w == n == b@.len(),
            c <= chunks,
            want == swapped(b@, w as int),
            out@ == want.take((c * w) as int),
        decreases chunks - c,
    {
        proof {
            assert((c + 1) * w <= chunks * w) by (nonlinear_arith)
                requires
                    c < chunks,
                    w >= 1,
            ;
            assert((c + 1) * w == c * w + w) by (nonlinear_arith);
        }
        let start = c * w;
        let mut j: usize = 0;
        while j < w
            invariant
                w >= 1,
                chunks * w == n == b@.len(),
                c < chunks,
                start == c * w,
                start + w <= n,
                j <= w,
                want == swapped(b@, w as int),
                out@ == want.take(start + j),
            decreases w - j,
        {
            proof {
                lemma_chunk_index(c as int, j as int, w as int);
            }
            out.push(b[start + (w - 1 - j)]);
            proof {
                assert(want[start + j] == b@[start + (w - 1 - j)]);
                assert(out@ =~= want.take(start + j + 1));
            }
            j += 1;
        }
        c += 1;
    }
    proof {
        assert(want.take(n as int) =~= want);
    }
    Ok(out)
}

/// The buffer end to end.
pub fn reverse_bytes(b: &[u8]) -> (r: Vec<u8>)
    ensures
        r@ == b@.reverse(),
{
    let n = b.len();
    let mut out: Vec<u8> = Vec::new();
    let mut k: usize = 0;
    while k < n
        invariant
            n == b@.len(),
            k <= n,
            out@ == b@.reverse().take(k as int),
        decreases n - k,
    {
        out.push(b[n - 1 - k]);
        proof {
            assert(out@ =~= b@.reverse().take(k + 1));
        }
        k += 1;
    }
    proof {
        assert(b@.reverse().take(n as int) =~= b@.reverse());
    }
    out
}

/// `n` copies of `v`.
pub open spec fn fill(v: u8, n: int) -> Seq<u8> {
    Seq::new(n as nat, |i: int| v)
}

/// `b` padded with `value` up to `length` bytes, on the right or (`side`
/// `"left"`) the left. A buffer already that long comes back unchanged;
/// a negative length, or (when padding is needed) a side other than
/// `"left"` and `"right"`, is an error.
pub fn pad_bytes(b: &[u8], length: i64, value: u8, side: &str) -> (r: Result<Vec<u8>, String>)
    requires
        length <= usize::MAX,
    ensures
        length < 0 ==> (r matches Err(e) && e@ == "pad_bytes: `length="@ + signed_text(length as int) + "` must be >= 0"@),
        0 <= length <= b@.len() ==> (r matches Ok(v) && v@ == b@),
        length > b@.len() && side@ == "right"@ ==> (r matches Ok(v) && v@ == b@ + fill(value, length - b@.len())),
        length > b@.len() && side@ == "left"@ ==> (r matches Ok(v) && v@ == fill(value, length - b@.len()) + b@),
        length > b@.len() && side@ != "right"@ && side@ != "left"@ ==> (r matches Err(e) && e@ == "pad_bytes: `side=\""@
            + side@ + "\"` is not a side -- use \"left\" or \"right\""@),
{
    if length < 0 {
        return Err(text::with_signed("pad_bytes: `length=", length, "` must be >= 0"));
    }
    if b.len() as u64 >= length as u64 {
        return Ok(copy_of(b));
    }
    let length = length as usize;
    let extra = length - b.len();
    let mut pad: Vec<u8> = Vec::new();
    let mut k: usize = 0;
    while k < extra
        invariant
            k <= extra,
            pad@ == fill(value, k as int),
        decreases extra - k,
    {
        pad.push(value);
        proof {
            assert(pad@ =~= fill(value, k + 1));
        }
        k += 1;
    }
    let s = text::owned(side);
    proof {
        reveal_strlit("left");
        reveal_strlit("right");
    }
    assert("left"@ != "right"@) by {
        assert("left"@.len() != "right"@.len());
    }
    if s == text::owned("right") {
        let mut v = copy_of(b);
        let mut p = pad;
        v.append(&mut p);
        Ok(v)
    } else if s == text::owned("left") {
        let mut v = pad;
        let mut rest = copy_of(b);
        v.append(&mut rest);
        Ok(v)
    } else {
        Err(text::with_text("pad_bytes: `side=\"", side, "\"` is not a side -- use \"left\" or \"right\""))
    }
}

/// Whether `p` occurs in `b` starting at `s`.
pub open spec fn occurs_at(b: Seq<u8>, p: Seq<u8>, s: int) -> bool {
    0 <= s && s + p.len() <= b.len() && b.subrange(s, s + p.len()) == p
}

/// Whether `p` occurs at `s` (see `occurs_at`).
fn occurs_at_exec(b: &[u8], p: &[u8], s: usize) -> (r: bool)
    ensures
        r == occurs_at(b@, p@, s as int),
{
    if s > b.len() || p.len() > b.len() - s {
        return false;
    }
    let blen = b.len();
    let mut j: usize = 0;
    while j < p.len()
        invariant
            blen == b@.len(),
            s + p@.len() <= b@.len(),
            j <= p@.len(),
            forall|t: int| 0 <= t < j ==> b@[s + t] == p@[t],
        decreases p@.len() - j,
    {
        assert(s + j < b@.len());
        if b[s + j] != p[j] {
            proof {
                assert(b@.subrange(s as int, s + p@.len())[j as int] != p@[j as int]);
            }
            return false;
        }
        j += 1;
    }
    proof {
        assert(b@.subrange(s as int, s + p@.len()) =~= p@);
    }
    true
}

/// Where `pattern` first occurs in `b` at or after `from` (held to the
/// buffer's length), or `None`. An empty pattern is an error.
pub fn find_bytes(b: &[u8], pattern: &[u8], from: usize) -> (r: Result<Option<usize>, String>)
    ensures
        pattern@.len() == 0 ==> (r matches Err(e) && e@ == "find_hex: the pattern is empty"@),
        pattern@.len() > 0 ==> (r matches Ok(found) && match found {
            Some(s) => {
                &&& (if from < b@.len() { from as int } else { b@.len() as int }) <= s
                &&& occurs_at(b@, pattern@, s as int)
                &&& forall|t: int| (if from < b@.len() { from as int } else { b@.len() as int }) <= t < s ==> !occurs_at(b@, pattern@, t)
            },
            None => forall|t: int| (if from < b@.len() { from as int } else { b@.len() as int }) <= t ==> !occurs_at(b@, pattern@, t),
        }),
{
    let start = if from < b.len() { from } else { b.len() };
    if pattern.len() == 0 {
        return Err(text::owned("find_hex: the pattern is empty"));
    }
    if pattern.len() > b.len() {
        return Ok(None);
    }
    let last = b.len() - pattern.len();
    let mut s = start;
    while s <= last
        invariant
            start <= s,
            b@.len() <= usize::MAX,
            last + pattern@.len() == b@.len(),
            pattern@.len() > 0,
            start == (if from < b@.len() { from as int } else { b@.len() as int }),
            forall|t: int| start <= t < s ==> !occurs_at(b@, pattern@, t),
        decreases last + 1 - s,
    {
        if occurs_at_exec(b, pattern, s) {
            return Ok(Some(s));
        }
        s += 1;
    }
    Ok(None)
}

/// `b` with every occurrence of `p` found scanning from `i` rightwards
/// replaced by `rep`; a match consumes its bytes before the scan goes on.
pub open spec fn replaced(b: Seq<u8>, p: Seq<u8>, rep: Seq<u8>, i: int) -> Seq<u8>
    decreases b.len() - i,
{
    if i < 0 || i >= b.len() || p.len() == 0 {
        Seq::empty()
    } else if occurs_at(b, p, i) {
        rep + replaced(b, p, rep, i + p.len())
    } else {
        seq![b[i]] + replaced(b, p, rep, i + 1)
    }
}

/// `b` with every non-overlapping occurrence of `pattern`, scanning left
/// to right, replaced by `rep` (see `replaced`). An empty pattern is an
/// error.
pub fn replace_bytes(b: &[u8], pattern: &[u8], rep: &[u8]) -> (r: Result<Vec<u8>, String>)
    ensures
        pattern@.len() == 0 ==> (r matches Err(e) && e@ == "replace_bytes: the pattern is empty"@),
        pattern@.len() > 0 ==> (r matches Ok(v) && v@ == replaced(b@, pattern@, rep@, 0)),
{
    if pattern.len() == 0 {
        return Err(text::owned("replace_bytes: the pattern is empty"));
    }
    let mut out: Vec<u8> = Vec::new();
    let mut i: usize = 0;
    while i < b.len()
        invariant
            i <= b@.len(),
            pattern@.len() > 0,
            out@ + replaced(b@, pattern@, rep@, i as int) == replaced(b@, pattern@, rep@, 0),
        decreases b@.len() - i,
    {
        if occurs_at_exec(b, pattern, i) {
            let ghost before = out@;
            let mut r = copy_of(rep);
            out.append(&mut r);
            proof {
                assert(before + replaced(b@, pattern@, rep@, i as int) == before + (rep@ + replaced(b@, pattern@, rep@, i + pattern@.len())));
                assert(out@ + replaced(b@, pattern@, rep@, i + pattern@.len()) =~= before + (rep@ + replaced(b@, pattern@, rep@, i + pattern@.len())));
            }
            i += pattern.len();
        } else {
            let ghost before = out@;
            out.push(b[i]);
            proof {
                assert(out@ + replaced(b@, pattern@, rep@, i + 1) =~= before + (seq![b@[i as int]] + replaced(b@, pattern@, rep@, i + 1)));
            }
            i += 1;
        }
    }
    proof {
        assert(replaced(b@, pattern@, rep@, i as int) =~= Seq::<u8>::empty());
        assert(out@ + Seq::<u8>::empty() =~= out@);
    }
    Ok(out)
}

/// The lowercase hex digits of `n`, most significant first, no leading
/// zero.
pub open spec fn hex_num(n: nat) -> Seq<char>
    decreases n,
{
    if n < 16 { seq![hex_digit(n as int)] } else { hex_num(n / 16) + seq![hex_digit((n % 16) as int)] }
}

/// `n` in lowercase hex, zero-padded to at least 8 digits (`{:08x}`).
pub open spec fn hex8(n: nat) -> Seq<char> {
    let h = hex_num(n);
    if h.len() < 8 { Seq::new((8 - h.len()) as nat, |i: int| '0') + h } else { h }
}

/// How a byte shows in a dump's text column: itself when printable
/// ASCII, `.` otherwise.
pub open spec fn shown(x: u8) -> char {
    if 0x20 <= x < 0x7f { x as char } else { '.' }
}

/// The first `k` of the `w` hex cells of the row starting at byte `s`:
/// two digits and a space per byte, three spaces past the end.
pub open spec fn hex_cells(b: Seq<u8>, s: int, k: int) -> Seq<char>
    decreases k,
{
    if k <= 0 {
        Seq::empty()
    } else {
        hex_cells(b, s, k - 1) + if s + k - 1 < b.len() { hex_byte(b[s + k - 1]) + seq![' '] } else { seq![' ', ' ', ' '] }
    }
}

/// The row of a dump starting at byte `s`: offset, hex cells, text.
pub open spec fn dump_row(b: Seq<u8>, w: int, base: int, s: int) -> Seq<char> {
    let e = if s + w < b.len() { s + w } else { b.len() as int };
    hex8((base + s) as nat) + seq![' ', ' '] + hex_cells(b, s, w) + seq![' '] + Seq::new((e - s) as nat, |i: int| shown(b[s + i]))
        + seq!['\n']
}

/// The first `r` rows of a dump with `w` bytes a row.
pub open spec fn dump_rows(b: Seq<u8>, w: int, base: int, r: nat) -> Seq<char>
    decreases r,
{
    if r == 0 { Seq::empty() } else { dump_rows(b, w, base, (r - 1) as nat) + dump_row(b, w, base, (r - 1) * w) }
}

/// The lowercase hex digits of `n` (see `hex_num`).
fn hex_chars(n: u64) -> (r: Vec<char>)
    ensures
        r@ == hex_num(n as nat),
{
    let mut q = n;
    let mut out: Vec<char> = Vec::new();
    while q >= 16
        invariant
            hex_num(n as nat) == hex_num(q as nat) + out@,
        decreases q,
    {
        let ghost before = out@;
        out.insert(0, text::hex_digit_exec((q % 16) as u8));
        proof {
            assert(hex_num(q as nat) == hex_num((q / 16) as nat) + seq![hex_digit((q % 16) as int)]);
            assert(hex_num((q / 16) as nat) + out@ =~= hex_num(q as nat) + before);
        }
        q = q / 16;
    }
    let ghost before = out@;
    out.insert(0, text::hex_digit_exec(q as u8));
    proof {
        assert(out@ =~= hex_num(q as nat) + before);
    }
    out
}

/// Appends `n` as `{:08x}` writes it.
fn push_hex8(out: &mut Vec<char>, n: u64)
    ensures
        final(out)@ == old(out)@ + hex8(n as nat),
{
    let h = hex_chars(n);
    let mut k = h.len();
    let ghost zeros = 0int;
    while k < 8
        invariant
            h@ == hex_num(n as nat),
            h@.len() <= k <= 8 || (k == h@.len() && k > 8),
            out@ == old(out)@ + Seq::new((k - h@.len()) as nat, |i: int| '0'),
        decreases 8 - k,
    {
        out.push('0');
        proof {
            assert(out@ =~= old(out)@ + Seq::new((k + 1 - h@.len()) as nat, |i: int| '0'));
        }
        k += 1;
    }
    let mut rest = h;
    let ghost hv = rest@;
    let ghost mid = out@;
    out.append(&mut rest);
    proof {
        if hv.len() < 8 {
            assert(out@ =~= old(out)@ + (Seq::new((8 - hv.len()) as nat, |i: int| '0') + hv));
        } else {
            assert(Seq::new(0, |i: int| '0') + hv =~= hv);
            assert(out@ =~= old(out)@ + hv);
        }
    }
}

/// Appends the dump row starting at byte `start` (see `dump_row`).
#[verifier::spinoff_prover]
fn push_row(out: &mut Vec<char>, b: &[u8], w: usize, base: u64, start: usize)
    requires
        1 <= w <= 64,
        start < b@.len(),
        b@.len() + 64 <= usize::MAX,
        base + b@.len() + 64 <= u64::MAX,
    ensures
        final(out)@ == old(out)@ + dump_row(b@, w as int, base as int, start as int),
{
    let n = b.len();
    let ghost before = old(out)@;
    push_hex8(out, base + start as u64);
    out.push(' ');
    out.push(' ');
    let ghost prefix = out@;
    let mut k: usize = 0;
    while k < w
        invariant
            1 <= w <= 64,
            n == b@.len(),
            n + 64 <= usize::MAX,
            start < n,
            k <= w,
            out@ == prefix + hex_cells(b@, start as int, k as int),
        decreases w - k,
    {
        if start + k < n {
            let x = b[start + k];
            out.push(text::hex_digit_exec(x / 16));
            out.push(text::hex_digit_exec(x % 16));
            out.push(' ');
        } else {
            out.push(' ');
            out.push(' ');
            out.push(' ');
        }
        proof {
            assert(out@ =~= prefix + hex_cells(b@, start as int, k + 1));
        }
        k += 1;
    }
    out.push(' ');
    let end = if start + w < n { start + w } else { n };
    let ghost mid = out@;
    let mut t = start;
    while t < end
        invariant
            start <= t <= end <= n == b@.len(),
            out@ == mid + Seq::new((t - start) as nat, |i: int| shown(b@[start + i])),
        decreases end - t,
    {
        let x = b[t];
        let c = if 0x20 <= x && x < 0x7f { x as char } else { '.' };
        out.push(c);
        proof {
            assert(out@ =~= mid + Seq::new((t + 1 - start) as nat, |i: int| shown(b@[start + i])));
        }
        t += 1;
    }
    out.push('\n');
    proof {
        assert(out@ =~= before + dump_row(b@, w as int, base as int, start as int));
    }
}

/// A hex dump of `b`, `width` bytes a row: each row the offset (`base`
/// plus the row's first index, at least 8 hex digits), two spaces, each
/// byte as two hex digits and a space (three spaces past the end), a
/// space, the bytes as text (see `shown`), and a newline. A width outside
/// 1 to 64 is an error.
pub fn hexdump(b: &[u8], width: u64, base: u64) -> (r: Result<String, String>)
    requires
        base + b@.len() + 64 <= u64::MAX,
        b@.len() + 64 <= usize::MAX,
    ensures
        (width < 1 || width > 64) ==> (r matches Err(e) && e@ == "hexdump: `width="@ + decimal(width as nat)
            + "` must be a whole number in 1..64"@),
        1 <= width <= 64 ==> (r matches Ok(s) && s@ == dump_rows(b@, width as int, base as int,
            ((b@.len() + width - 1) / (width as int)) as nat)),
{
    if width < 1 || width > 64 {
        return Err(text::with_number("hexdump: `width=", width, "` must be a whole number in 1..64"));
    }
    let w = width as usize;
    let n = b.len();
    let mut out: Vec<char> = Vec::new();
    let mut start: usize = 0;
    let mut row: usize = 0;
    while start < n
        invariant
            1 <= w <= 64,
            w == width,
            n == b@.len(),
            base + n + 64 <= u64::MAX,
            n + 64 <= usize::MAX,
            start == row * w,
            row <= start,
            start < n + w,
            out@ == dump_rows(b@, w as int, base as int, row as nat),
        decreases n + w - start,
    {
        push_row(&mut out, b, w, base, start);
        proof {
            assert((row + 1) * w == row * w + w) by (nonlinear_arith);
            assert(row + 1 <= (row + 1) * w) by (nonlinear_arith)
                requires
                    w >= 1,
            ;
        }
        start = start + w;
        row = row + 1;
    }
    proof {
        assert(row == (b@.len() + w - 1) / (w as int)) by (nonlinear_arith)
            requires
                start == row * w,
                start >= n,
                start < n + w,
                w >= 1,
                n == b@.len(),
        ;
    }
    Ok(crate::color::string_of(&out))
}

} // verus!
