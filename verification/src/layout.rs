//! Binary record layouts. A layout text such as `"u16,i32,f64"` or
//! `"4u8 u32"` names the fields by type, separated by commas or white
//! space, each optionally preceded by a repeat count; records are unpacked
//! from bytes or packed into them, little- or big-endian. Float fields
//! travel as their IEEE bit patterns.

use vstd::prelude::*;
use crate::font::white_space;
use crate::text::{self, decimal};
use crate::byte_tools::signed_text;
use crate::text_codec::{chars_of, is_white};

verus! {

/// A field's type.
#[derive(Clone, Copy, Debug, PartialEq, Eq)]
pub enum FieldType {
    U8,
    I8,
    U16,
    I16,
    U32,
    I32,
    U64,
    I64,
    F32,
    F64,
}

/// A field's width in bytes.
pub open spec fn width_of(t: FieldType) -> int {
    match t {
        FieldType::U8 | FieldType::I8 => 1,
        FieldType::U16 | FieldType::I16 => 2,
        FieldType::U32 | FieldType::I32 | FieldType::F32 => 4,
        _ => 8,
    }
}

impl FieldType {
    /// The field's width in bytes.
    pub fn width(self) -> (w: usize)
        ensures
            w == width_of(self),
    {
        match self {
            FieldType::U8 | FieldType::I8 => 1,
            FieldType::U16 | FieldType::I16 => 2,
            FieldType::U32 | FieldType::I32 | FieldType::F32 => 4,
            _ => 8,
        }
    }
}

/// Whether `c` separates fields: a comma or white space.
pub open spec fn is_sep(c: char) -> bool {
    c == ',' || white_space(c)
}

/// The tokens finished so far and the one being read, after `s`.
pub open spec fn tok_state(s: Seq<char>) -> (Seq<Seq<char>>, Seq<char>)
    decreases s.len(),
{
    if s.len() == 0 {
        (Seq::empty(), Seq::empty())
    } else {
        let (ts, cur) = tok_state(s.drop_last());
        let c = s.last();
        if is_sep(c) {
            if cur.len() > 0 { (ts.push(cur), Seq::empty()) } else { (ts, Seq::empty()) }
        } else {
            (ts, cur.push(c))
        }
    }
}

/// The layout's tokens: the runs of characters between separators.
pub open spec fn layout_tokens(s: Seq<char>) -> Seq<Seq<char>> {
    let (ts, cur) = tok_state(s);
    if cur.len() > 0 { ts.push(cur) } else { ts }
}

/// Whether `c` is an ASCII digit.
pub open spec fn ascii_digit(c: char) -> bool {
    '0' <= c <= '9'
}

/// How many ASCII digits `t` begins with.
pub open spec fn lead_digits(t: Seq<char>) -> nat
    decreases t.len(),
{
    if t.len() == 0 || !ascii_digit(t[0]) { 0 } else { 1 + lead_digits(t.drop_first()) }
}

/// The value of a run of decimal digits.
pub open spec fn digits_value(d: Seq<char>) -> nat
    decreases d.len(),
{
    if d.len() == 0 { 0 } else { digits_value(d.drop_last()) * 10 + ((d.last() as int) - ('0' as int)) as nat }
}

/// ASCII letters lowered, other characters kept.
pub open spec fn ascii_lower(t: Seq<char>) -> Seq<char> {
    Seq::new(t.len(), |i: int| if 'A' <= t[i] <= 'Z' { ((t[i] as int) + 32) as char } else { t[i] })
}

/// The type a (lowered) field name names.
pub open spec fn type_named(n: Seq<char>) -> Option<FieldType> {
    if n == "u8"@ || n == "byte"@ {
        Some(FieldType::U8)
    } else if n == "i8"@ {
        Some(FieldType::I8)
    } else if n == "u16"@ {
        Some(FieldType::U16)
    } else if n == "i16"@ {
        Some(FieldType::I16)
    } else if n == "u32"@ {
        Some(FieldType::U32)
    } else if n == "i32"@ {
        Some(FieldType::I32)
    } else if n == "u64"@ {
        Some(FieldType::U64)
    } else if n == "i64"@ {
        Some(FieldType::I64)
    } else if n == "f32"@ || n == "float"@ {
        Some(FieldType::F32)
    } else if n == "f64"@ || n == "double"@ {
        Some(FieldType::F64)
    } else {
        None
    }
}

/// A token's repeat count and type, or its lowered name when that names
/// no type. The count is the leading digits' value, or 1 when there are
/// none or the value does not fit a `usize`.
pub open spec fn token_fields(t: Seq<char>) -> Result<(nat, FieldType), Seq<char>> {
    let k = lead_digits(t);
    let v = digits_value(t.take(k as int));
    let count: nat = if k == 0 || v > usize::MAX { 1 } else { v };
    let name = ascii_lower(t.skip(k as int));
    match type_named(name) {
        Some(ty) => Ok((count, ty)),
        None => Err(name),
    }
}

/// The fields of the first `k` tokens, or the first bad name.
pub open spec fn fields_from(toks: Seq<Seq<char>>, k: int) -> Result<Seq<FieldType>, Seq<char>>
    decreases k,
{
    if k <= 0 {
        Ok(Seq::empty())
    } else {
        match fields_from(toks, k - 1) {
            Err(e) => Err(e),
            Ok(fs) => match token_fields(toks[k - 1]) {
                Err(n) => Err(n),
                Ok((c, ty)) => Ok(fs + Seq::new(c, |i: int| ty)),
            },
        }
    }
}

/// The message for a name that names no type.
pub open spec fn bad_type_text(who: Seq<char>, name: Seq<char>) -> Seq<char> {
    who + ": `"@ + name
        + "` is not a field type -- use u8/i8/u16/i16/u32/i32/u64/i64/f32/f64, optionally with a repeat count like `4u8`"@
}

/// The message for a layout with no fields.
pub open spec fn no_fields_text(who: Seq<char>, spec: Seq<char>) -> Seq<char> {
    who + ": the layout spec `"@ + spec + "` describes no fields"@
}

/// The tokens of `s` (see `layout_tokens`).
fn tokens_of(s: &str) -> (r: Vec<Vec<char>>)
    ensures
        r@.map_values(|v: Vec<char>| v@) == layout_tokens(s@),
{
    let cs = chars_of(s);
    let mut toks: Vec<Vec<char>> = Vec::new();
    let mut cur: Vec<char> = Vec::new();
    let mut i: usize = 0;
    while i < cs.len()
        invariant
            i <= cs@.len(),
            cs@ == s@,
            (toks@.map_values(|v: Vec<char>| v@), cur@) == tok_state(cs@.take(i as int)),
        decreases cs@.len() - i,
    {
        let c = cs[i];
        proof {
            assert(cs@.take(i + 1).drop_last() =~= cs@.take(i as int));
        }
        if c == ',' || is_white(c) {
            if cur.len() > 0 {
                let done = cur;
                cur = Vec::new();
                let ghost before = toks@;
                toks.push(done);
                proof {
                    assert(toks@.map_values(|v: Vec<char>| v@) =~= before.map_values(|v: Vec<char>| v@).push(done@));
                }
            } else {
                cur = Vec::new();
            }
        } else {
            cur.push(c);
        }
        i += 1;
    }
    proof {
        assert(cs@.take(cs@.len() as int) =~= cs@);
    }
    if cur.len() > 0 {
        let ghost before = toks@;
        toks.push(cur);
        proof {
            assert(toks@.map_values(|v: Vec<char>| v@) =~= before.map_values(|v: Vec<char>| v@).push(cur@));
        }
    }
    toks
}

proof fn lemma_lead_digits(t: Seq<char>, j: int)
    requires
        0 <= j <= lead_digits(t),
    ensures
        lead_digits(t) <= t.len(),
        j < lead_digits(t) ==> ascii_digit(t[j]),
        j == lead_digits(t) && j < t.len() ==> !ascii_digit(t[j]),
    decreases t.len(),
{
    if t.len() > 0 && ascii_digit(t[0]) {
        if j > 0 {
            lemma_lead_digits(t.drop_first(), j - 1);
        } else {
            lemma_lead_digits(t.drop_first(), 0);
        }
    }
}

/// The repeat count and type of a token, or its lowered name.
fn parse_token(t: &Vec<char>) -> (r: Result<(usize, FieldType), String>)
    ensures
        match token_fields(t@) {
            Ok((c, ty)) => r == Ok::<(usize, FieldType), String>((c as usize, ty)) && c <= usize::MAX,
            Err(n) => r matches Err(e) && e@ == n,
        },
{
    let mut k: usize = 0;
    let mut acc: Option<usize> = Some(0);
    while k < t.len() && '0' <= t[k] && t[k] <= '9'
        invariant
            k <= t@.len(),
            k <= lead_digits(t@),
            forall|i: int| 0 <= i < k ==> ascii_digit(#[trigger] t@[i]),
            match acc {
                Some(v) => v == digits_value(t@.take(k as int)),
                None => digits_value(t@.take(k as int)) > usize::MAX,
            },
        decreases t@.len() - k,
    {
        proof {
            lemma_lead_digits(t@, k as int);
            if k == lead_digits(t@) {
                assert(!ascii_digit(t@[k as int]));
            }
            assert(t@.take(k + 1).drop_last() =~= t@.take(k as int));
        }
        let d = (t[k] as u32 - '0' as u32) as usize;
        acc = match acc {
            Some(v) => match v.checked_mul(10) {
                Some(v10) => v10.checked_add(d),
                None => None,
            },
            None => None,
        };
        k += 1;
    }
    proof {
        lemma_lead_digits(t@, k as int);
        if k < lead_digits(t@) {
            assert(ascii_digit(t@[k as int]));
        }
        assert(k == lead_digits(t@));
    }
    let count: usize = if k == 0 {
        1
    } else {
        match acc {
            Some(v) => v,
            None => 1,
        }
    };
    let mut name: Vec<char> = Vec::new();
    let mut j = k;
    while j < t.len()
        invariant
            k <= j <= t@.len(),
            name@ == ascii_lower(t@.skip(k as int)).take(j - k),
        decreases t@.len() - j,
    {
        let c = t[j];
        let lc = if 'A' <= c && c <= 'Z' { ((c as u8) + 32) as char } else { c };
        name.push(lc);
        proof {
            assert(name@ =~= ascii_lower(t@.skip(k as int)).take(j + 1 - k));
        }
        j += 1;
    }
    proof {
        assert(ascii_lower(t@.skip(k as int)).take(t@.len() - k) =~= ascii_lower(t@.skip(k as int)));
    }
    let n = crate::color::string_of(&name);
    let ty = if n == text::owned("u8") || n == text::owned("byte") {
        FieldType::U8
    } else if n == text::owned("i8") {
        FieldType::I8
    } else if n == text::owned("u16") {
        FieldType::U16
    } else if n == text::owned("i16") {
        FieldType::I16
    } else if n == text::owned("u32") {
        FieldType::U32
    } else if n == text::owned("i32") {
        FieldType::I32
    } else if n == text::owned("u64") {
        FieldType::U64
    } else if n == text::owned("i64") {
        FieldType::I64
    } else if n == text::owned("f32") || n == text::owned("float") {
        FieldType::F32
    } else if n == text::owned("f64") || n == text::owned("double") {
        FieldType::F64
    } else {
        return Err(n);
    };
    Ok((count, ty))
}

/// The fields a layout text names (see `layout_tokens` and
/// `token_fields`), each repeated by its count, in order. A name that
/// names no type, or a layout with no fields, is an error naming `who`.
pub fn parse_layout(who: &str, spec: &str) -> (r: Result<Vec<FieldType>, String>)
    ensures
        match fields_from(layout_tokens(spec@), layout_tokens(spec@).len() as int) {
            Err(n) => r matches Err(e) && e@ == bad_type_text(who@, n),
            Ok(fs) => if fs.len() == 0 {
                r matches Err(e) && e@ == no_fields_text(who@, spec@)
            } else {
                r matches Ok(v) && v@ == fs
            },
        },
{
    let toks = tokens_of(spec);
    let ghost tv = toks@.map_values(|v: Vec<char>| v@);
    let mut out: Vec<FieldType> = Vec::new();
    let mut k: usize = 0;
    while k < toks.len()
        invariant
            k <= toks@.len(),
            tv == toks@.map_values(|v: Vec<char>| v@),
            tv == layout_tokens(spec@),
            fields_from(tv, k as int) == Ok::<Seq<FieldType>, Seq<char>>(out@),
        decreases toks@.len() - k,
    {
        assert(tv[k as int] == toks@[k as int]@);
        match parse_token(&toks[k]) {
            Err(n) => {
                let e = text::with_text(who, ": `", "");
                let m = text::with_text(
                    e.as_str(),
                    n.as_str(),
                    "` is not a field type -- use u8/i8/u16/i16/u32/i32/u64/i64/f32/f64, optionally with a repeat count like `4u8`",
                );
                proof {
                    reveal_strlit("");
                    lemma_fields_stuck_at(tv, k + 1, tv.len() as int);
                    assert(m@ =~= bad_type_text(who@, n@));
                }
                return Err(m);
            },
            Ok((count, ty)) => {
                let ghost before = out@;
                let mut c: usize = 0;
                while c < count
                    invariant
                        c <= count,
                        out@ == before + Seq::new(c as nat, |i: int| ty),
                    decreases count - c,
                {
                    out.push(ty);
                    proof {
                        assert(out@ =~= before + Seq::new((c + 1) as nat, |i: int| ty));
                    }
                    c += 1;
                }
            },
        }
        k += 1;
    }
    if out.len() == 0 {
        let m = text::with_text(who, ": the layout spec `", "");
        let m2 = text::with_text(m.as_str(), spec, "` describes no fields");
        proof {
            reveal_strlit("");
            assert(m2@ =~= no_fields_text(who@, spec@));
        }
        return Err(m2);
    }
    Ok(out)
}

/// Once a token fails, every longer prefix fails the same way.
proof fn lemma_fields_stuck_at(toks: Seq<Seq<char>>, k: int, j: int)
    requires
        0 <= k <= j,
        fields_from(toks, k) is Err,
    ensures
        fields_from(toks, j) == fields_from(toks, k),
    decreases j - k,
{
    if j > k {
        lemma_fields_stuck_at(toks, k, j - 1);
    }
}

/// A field's value as read: integers exactly, floats as their bit
/// patterns.
#[derive(Clone, Copy, Debug, PartialEq, Eq)]
pub enum FieldValue {
    Unsigned(u64),
    Signed(i64),
    Bits32(u32),
    Bits64(u64),
}

/// `256` to the power `k`.
pub open spec fn pow256n(k: nat) -> nat
    decreases k,
{
    if k == 0 { 1 } else { 256 * pow256n((k - 1) as nat) }
}

/// The little-endian value of bytes.
pub open spec fn le_value(s: Seq<u8>) -> nat
    decreases s.len(),
{
    if s.len() == 0 { 0 } else { (s[0] + 256 * le_value(s.drop_first())) as nat }
}

/// A field's bytes read as a number, most significant first when `big`.
pub open spec fn field_raw(s: Seq<u8>, big: bool) -> nat {
    if big { le_value(s.reverse()) } else { le_value(s) }
}

/// A field's value from its raw number: signed types in two's
/// complement over their width.
pub open spec fn field_value(t: FieldType, raw: nat) -> FieldValue {
    let full = pow256n(width_of(t) as nat);
    match t {
        FieldType::U8 | FieldType::U16 | FieldType::U32 | FieldType::U64 => FieldValue::Unsigned(raw as u64),
        FieldType::F32 => FieldValue::Bits32(raw as u32),
        FieldType::F64 => FieldValue::Bits64(raw as u64),
        _ => FieldValue::Signed((if 2 * raw >= full { raw - full } else { raw as int }) as i64),
    }
}

/// Where field `k` starts: the widths of the fields before it.
pub open spec fn offset_of(fs: Seq<FieldType>, k: int) -> int
    decreases k,
{
    if k <= 0 { 0 } else { offset_of(fs, k - 1) + width_of(fs[k - 1]) }
}

/// The fields read from `b`, one after another from its start.
pub open spec fn unpacked(b: Seq<u8>, fs: Seq<FieldType>, big: bool) -> Seq<FieldValue> {
    Seq::new(
        fs.len(),
        |k: int| field_value(fs[k], field_raw(b.subrange(offset_of(fs, k), offset_of(fs, k) + width_of(fs[k])), big)),
    )
}

proof fn lemma_le_bound(s: Seq<u8>)
    ensures
        le_value(s) < pow256n(s.len()),
    decreases s.len(),
{
    if s.len() > 0 {
        lemma_le_bound(s.drop_first());
        let r = le_value(s.drop_first());
        let p = pow256n(s.drop_first().len());
        assert(s[0] + 256 * r < 256 * p) by (nonlinear_arith)
            requires
                r < p,
                s[0] < 256,
        ;
    }
}

proof fn lemma_offsets(fs: Seq<FieldType>, k: int)
    requires
        0 <= k <= fs.len(),
    ensures
        0 <= offset_of(fs, k) <= 8 * k,
        forall|j: int| 0 <= j <= k ==> offset_of(fs, j) <= offset_of(fs, k),
    decreases k,
{
    if k > 0 {
        lemma_offsets(fs, k - 1);
    }
}

/// Reads one field of width `w` at `off`.
fn read_raw(b: &[u8], off: usize, w: usize, big: bool) -> (raw: u64)
    requires
        1 <= w <= 8,
        off + w <= b@.len(),
    ensures
        raw == field_raw(b@.subrange(off as int, off + w), big),
{
    let ghost s = b@.subrange(off as int, off + w);
    let blen = b.len();
    let mut raw: u64 = 0;
    if big {
        let mut j: usize = 0;
        while j < w
            invariant
                j <= w <= 8,
                blen == b@.len(),
                off + w <= b@.len(),
                s == b@.subrange(off as int, off + w),
                raw == le_value(s.take(j as int).reverse()),
            decreases w - j,
        {
            proof {
                lemma_le_bound(s.take(j as int).reverse());
                lemma_pow256n_mono(j as nat, 7);
                assert(s.take(j + 1).reverse() =~= seq![s[j as int]] + s.take(j as int).reverse());
                assert((seq![s[j as int]] + s.take(j as int).reverse()).drop_first() =~= s.take(j as int).reverse());
                assert(raw * 256 + 255 <= 0xFFFF_FFFF_FFFF_FFFF) by (nonlinear_arith)
                    requires
                        raw < pow256n(7),
                        pow256n(7) == 0x100_0000_0000_0000,
                ;
            }
            raw = raw * 256 + b[off + j] as u64;
            j += 1;
        }
        proof {
            assert(s.take(w as int) =~= s);
        }
    } else {
        let mut j: usize = w;
        while j > 0
            invariant
                j <= w <= 8,
                blen == b@.len(),
                off + w <= b@.len(),
                s == b@.subrange(off as int, off + w),
                raw == le_value(s.skip(j as int)),
            decreases j,
        {
            proof {
                lemma_le_bound(s.skip(j as int));
                lemma_pow256n_mono((w - j) as nat, 7);
                assert(s.skip(j - 1).drop_first() =~= s.skip(j as int));
                assert(raw * 256 + 255 <= 0xFFFF_FFFF_FFFF_FFFF) by (nonlinear_arith)
                    requires
                        raw < pow256n(7),
                        pow256n(7) == 0x100_0000_0000_0000,
                ;
            }
            raw = b[off + j - 1] as u64 + raw * 256;
            j -= 1;
        }
        proof {
            assert(s.skip(0) =~= s);
        }
    }
    raw
}

proof fn lemma_pow256n_mono(a: nat, b: nat)
    requires
        a <= b,
    ensures
        pow256n(a) <= pow256n(b),
        pow256n(7) == 0x100_0000_0000_0000,
        pow256n(8) == 0x1_0000_0000_0000_0000,
    decreases b,
{
    reveal_with_fuel(pow256n, 9);
    if a < b {
        lemma_pow256n_mono(a, (b - 1) as nat);
    }
}

/// The message for a buffer too short for its layout.
pub open spec fn short_text(spec: Seq<char>, need: int, have: int) -> Seq<char> {
    "unpack: layout `"@ + spec + "` needs "@ + decimal(need as nat) + " bytes but the buffer has "@ + decimal(have as nat)
        + " -- short reads are an error here, not a zero fill"@
}

/// Reads the fields one after another from the start of `b`,
/// most significant byte first when `big` (see `unpacked`). A buffer
/// shorter than the fields is an error naming the layout text `spec`.
pub fn unpack(b: &[u8], spec: &str, fields: &[FieldType], big: bool) -> (r: Result<Vec<FieldValue>, String>)
    requires
        fields@.len() * 8 <= u64::MAX,
    ensures
        offset_of(fields@, fields@.len() as int) > b@.len() ==> (r matches Err(e) && e@ == short_text(
            spec@,
            offset_of(fields@, fields@.len() as int),
            b@.len() as int,
        )),
        offset_of(fields@, fields@.len() as int) <= b@.len() ==> (r matches Ok(v) && v@ == unpacked(b@, fields@, big)),
{
    let nf = fields.len();
    let mut need: u64 = 0;
    let mut k: usize = 0;
    while k < nf
        invariant
            k <= nf == fields@.len(),
            nf * 8 <= u64::MAX,
            need == offset_of(fields@, k as int),
        decreases nf - k,
    {
        proof {
            lemma_offsets(fields@, k as int);
        }
        need = need + fields[k].width() as u64;
        k += 1;
    }
    if need > b.len() as u64 {
        let a = text::with_text("unpack: layout `", spec, "` needs ");
        let m = text::with_two_numbers(
            a.as_str(),
            need,
            " bytes but the buffer has ",
            b.len() as u64,
            " -- short reads are an error here, not a zero fill",
        );
        proof {
            assert(m@ =~= short_text(spec@, need as int, b@.len() as int));
        }
        return Err(m);
    }
    let mut out: Vec<FieldValue> = Vec::new();
    let blen = b.len();
    let mut off: usize = 0;
    let mut k: usize = 0;
    while k < nf
        invariant
            blen == b@.len(),
            k <= nf == fields@.len(),
            need == offset_of(fields@, nf as int) <= b@.len(),
            off == offset_of(fields@, k as int),
            out@ =~= unpacked(b@, fields@, big).take(k as int),
        decreases nf - k,
    {
        proof {
            lemma_offsets(fields@, nf as int);
            lemma_offsets(fields@, k + 1);
        }
        let t = fields[k];
        let w = t.width();
        let raw = read_raw(b, off, w, big);
        proof {
            lemma_le_bound(b@.subrange(off as int, off + w));
            lemma_le_bound(b@.subrange(off as int, off + w).reverse());
            lemma_pow256n_mono(w as nat, 8);
            reveal_with_fuel(pow256n, 9);
        }
        let v = match t {
            FieldType::U8 | FieldType::U16 | FieldType::U32 | FieldType::U64 => FieldValue::Unsigned(raw),
            FieldType::F32 => FieldValue::Bits32(raw as u32),
            FieldType::F64 => FieldValue::Bits64(raw),
            _ => {
                let full: i128 = if w == 8 { 0x1_0000_0000_0000_0000 } else { (1i128 << (8 * w as i128)) };
                let x: i128 = raw as i128;
                proof {
                    assert(full == pow256n(w as nat)) by {
                        reveal_with_fuel(pow256n, 9);
                        if w == 1 {
                            assert((1i128 << 8i128) == 256) by (bit_vector);
                        } else if w == 2 {
                            assert((1i128 << 16i128) == 0x10000) by (bit_vector);
                        } else if w == 4 {
                            assert((1i128 << 32i128) == 0x1_0000_0000) by (bit_vector);
                        }
                    }
                }
                let sv: i128 = if 2 * x >= full { x - full } else { x };
                FieldValue::Signed(sv as i64)
            },
        };
        out.push(v);
        off = off + w;
        k += 1;
    }
    proof {
        assert(unpacked(b@, fields@, big).take(nf as int) =~= unpacked(b@, fields@, big));
    }
    Ok(out)
}

/// A value handed to `pack`, as the field types need it: whether it is a
/// finite whole number, that number (for integer fields), its bit
/// patterns as a 32- and a 64-bit float (for float fields), and how it
/// is written (for messages).
#[derive(Clone, Debug)]
pub struct PackValue {
    pub whole: bool,
    pub int: i64,
    pub bits32: u32,
    pub bits64: u64,
    pub text: String,
}

/// Whether a field holds a float.
pub open spec fn is_float(t: FieldType) -> bool {
    t == FieldType::F32 || t == FieldType::F64
}

/// The values an integer field accepts.
pub open spec fn int_range(t: FieldType) -> (int, int) {
    match t {
        FieldType::U8 => (0, 255),
        FieldType::I8 => (-128, 127),
        FieldType::U16 => (0, 65535),
        FieldType::I16 => (-32768, 32767),
        FieldType::U32 => (0, 4294967295),
        FieldType::I32 => (-2147483648, 2147483647),
        FieldType::U64 => (0, i64::MAX as int),
        _ => (i64::MIN as int, i64::MAX as int),
    }
}

/// The number a field's bytes carry: a float's bit pattern, or the
/// integer in 64-bit two's complement.
pub open spec fn raw_for(t: FieldType, v: PackValue) -> nat {
    if t == FieldType::F32 {
        v.bits32 as nat
    } else if t == FieldType::F64 {
        v.bits64 as nat
    } else if v.int < 0 {
        (v.int + 0x1_0000_0000_0000_0000) as nat
    } else {
        v.int as nat
    }
}

/// The low `w` bytes of `raw`, least significant first.
pub open spec fn le_bytes(raw: nat, w: nat) -> Seq<u8> {
    Seq::new(w, |j: int| ((raw / pow256n(j as nat)) % 256) as u8)
}

/// A field's bytes, most significant first when `big`.
pub open spec fn field_bytes(raw: nat, w: nat, big: bool) -> Seq<u8> {
    if big { le_bytes(raw, w).reverse() } else { le_bytes(raw, w) }
}

/// The first `k` fields packed, or the first value refused: its index,
/// and whether it was refused for not being whole (else for its range).
pub open spec fn pack_from(vs: Seq<PackValue>, fs: Seq<FieldType>, big: bool, k: int) -> Result<Seq<u8>, (int, bool)>
    decreases k,
{
    if k <= 0 {
        Ok(Seq::empty())
    } else {
        match pack_from(vs, fs, big, k - 1) {
            Err(e) => Err(e),
            Ok(bs) => {
                let t = fs[k - 1];
                let v = vs[k - 1];
                let (lo, hi) = int_range(t);
                if !is_float(t) && !v.whole {
                    Err((k - 1, true))
                } else if !is_float(t) && !(lo <= v.int <= hi) {
                    Err((k - 1, false))
                } else {
                    Ok(bs + field_bytes(raw_for(t, v), width_of(t) as nat, big))
                }
            },
        }
    }
}

/// The message for a value count that does not match the layout.
pub open spec fn count_text(spec: Seq<char>, nf: int, nv: int) -> Seq<char> {
    "pack: layout `"@ + spec + "` has "@ + decimal(nf as nat) + " fields but "@ + decimal(nv as nat) + " values were given"@
}

/// The message for value `i` refused: not whole, or out of range.
pub open spec fn refused_text(vs: Seq<PackValue>, fs: Seq<FieldType>, i: int, not_whole: bool) -> Seq<char> {
    if not_whole {
        "pack: value "@ + decimal((i + 1) as nat) + " for an integer field is `"@ + vs[i].text@ + "`, which is not a whole number"@
    } else {
        "pack: value "@ + decimal((i + 1) as nat) + " is "@ + signed_text(vs[i].int as int) + ", outside the range "@
            + signed_text(int_range(fs[i]).0) + ".."@ + signed_text(int_range(fs[i]).1)
            + " of its field -- this is an error rather than a wrap, because a silently wrapped field is a wrong answer that looks like a right one"@
    }
}

/// Appends a field's bytes (see `field_bytes`).
pub(crate) fn push_field(out: &mut Vec<u8>, raw: u64, w: usize, big: bool)
    requires
        1 <= w <= 8,
    ensures
        final(out)@ == old(out)@ + field_bytes(raw as nat, w as nat, big),
{
    let mut little: Vec<u8> = Vec::new();
    let mut r = raw;
    let mut j: usize = 0;
    assert(pow256n(0) == 1);
    assert(raw as nat / 1 == raw as nat);
    while j < w
        invariant
            j <= w <= 8,
            r == raw as nat / pow256n(j as nat),
            little@ == le_bytes(raw as nat, w as nat).take(j as int),
        decreases w - j,
    {
        little.push((r % 256) as u8);
        proof {
            assert(little@ =~= le_bytes(raw as nat, w as nat).take(j + 1));
            lemma_pow256n_pos(j as nat);
            vstd::arithmetic::div_mod::lemma_div_denominator(raw as int, pow256n(j as nat) as int, 256);
            assert(pow256n(j as nat) * 256 == pow256n((j + 1) as nat));
        }
        r = r / 256;
        j += 1;
    }
    proof {
        assert(little@ =~= le_bytes(raw as nat, w as nat));
    }
    if big {
        let mut k: usize = w;
        let ghost start = out@;
        while k > 0
            invariant
                k <= w,
                little@.len() == w,
                out@ == start + little@.reverse().take((w - k) as int),
            decreases k,
        {
            out.push(little[k - 1]);
            proof {
                assert(out@ =~= start + little@.reverse().take((w - k + 1) as int));
            }
            k -= 1;
        }
        proof {
            assert(little@.reverse().take(w as int) =~= little@.reverse());
        }
    } else {
        crate::bytes::push_all(out, little.as_slice());
    }
}

proof fn lemma_pow256n_pos(k: nat)
    ensures
        pow256n(k) > 0,
    decreases k,
{
    if k > 0 {
        lemma_pow256n_pos((k - 1) as nat);
    }
}

/// The integer range of a field, as numbers.
fn range_of(t: FieldType) -> (r: (i64, i64))
    ensures
        r.0 == int_range(t).0 && r.1 == int_range(t).1,
{
    match t {
        FieldType::U8 => (0, 255),
        FieldType::I8 => (-128, 127),
        FieldType::U16 => (0, 65535),
        FieldType::I16 => (-32768, 32767),
        FieldType::U32 => (0, 4294967295),
        FieldType::I32 => (-2147483648, 2147483647),
        FieldType::U64 => (0, i64::MAX),
        _ => (i64::MIN, i64::MAX),
    }
}

/// Packs the values into the fields one after another, most significant
/// byte first when `big` (see `pack_from`). A count of values other than
/// the fields', a fractional value for an integer field, or one outside
/// its field's range, is an error; the message names the layout text
/// `spec` or the value by its position.
pub fn pack(values: &[PackValue], spec: &str, fields: &[FieldType], big: bool) -> (r: Result<Vec<u8>, String>)
    ensures
        values@.len() != fields@.len() ==> (r matches Err(e) && e@ == count_text(spec@, fields@.len() as int, values@.len() as int)),
        values@.len() == fields@.len() ==> match pack_from(values@, fields@, big, fields@.len() as int) {
            Ok(bs) => r matches Ok(v) && v@ == bs,
            Err((i, not_whole)) => r matches Err(e) && e@ == refused_text(values@, fields@, i, not_whole),
        },
{
    let nf = fields.len();
    if values.len() != nf {
        let a = text::with_text("pack: layout `", spec, "` has ");
        let m = text::with_two_numbers(a.as_str(), nf as u64, " fields but ", values.len() as u64, " values were given");
        proof {
            assert(m@ =~= count_text(spec@, nf as int, values@.len() as int));
        }
        return Err(m);
    }
    let mut out: Vec<u8> = Vec::new();
    let mut k: usize = 0;
    while k < nf
        invariant
            k <= nf == fields@.len() == values@.len(),
            pack_from(values@, fields@, big, k as int) == Ok::<Seq<u8>, (int, bool)>(out@),
        decreases nf - k,
    {
        let t = fields[k];
        let v = &values[k];
        let raw: u64 = match t {
            FieldType::F32 => v.bits32 as u64,
            FieldType::F64 => v.bits64,
            _ => {
                if !v.whole {
                    let a = text::with_number("pack: value ", (k as u64) + 1, " for an integer field is `");
                    let m = text::with_text(a.as_str(), v.text.as_str(), "`, which is not a whole number");
                    proof {
                        lemma_pack_stuck(values@, fields@, big, k + 1, nf as int);
                        assert(m@ =~= refused_text(values@, fields@, k as int, true));
                    }
                    return Err(m);
                }
                let (lo, hi) = range_of(t);
                if v.int < lo || v.int > hi {
                    let a = text::with_number("pack: value ", (k as u64) + 1, " is ");
                    let b = text::with_signed(a.as_str(), v.int, ", outside the range ");
                    let c = text::with_signed(b.as_str(), lo, "..");
                    let m = text::with_signed(
                        c.as_str(),
                        hi,
                        " of its field -- this is an error rather than a wrap, because a silently wrapped field is a wrong answer that looks like a right one",
                    );
                    proof {
                        lemma_pack_stuck(values@, fields@, big, k + 1, nf as int);
                        assert(m@ =~= refused_text(values@, fields@, k as int, false));
                    }
                    return Err(m);
                }
                if v.int < 0 {
                    (v.int as i128 + 0x1_0000_0000_0000_0000i128) as u64
                } else {
                    v.int as u64
                }
            },
        };
        push_field(&mut out, raw, t.width(), big);
        k += 1;
    }
    Ok(out)
}

/// Once a value is refused, every longer prefix is refused the same way.
proof fn lemma_pack_stuck(vs: Seq<PackValue>, fs: Seq<FieldType>, big: bool, k: int, j: int)
    requires
        0 <= k <= j,
        pack_from(vs, fs, big, k) is Err,
    ensures
        pack_from(vs, fs, big, j) == pack_from(vs, fs, big, k),
    decreases j - k,
{
    if j > k {
        lemma_pack_stuck(vs, fs, big, k, j - 1);
    }
}

} // verus!
