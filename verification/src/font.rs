//! Reading a TrueType/OpenType font's character map: the table directory,
//! the choice of Unicode `cmap` subtable, and glyph lookup in formats 4
//! and 12. Every read is bounds-checked; a font this cannot read yields
//! no glyph rather than a wrong one.

use vstd::prelude::*;
use vstd::slice::slice_subrange;

verus! {

/// The big-endian 16-bit value at `o`, if two bytes are there.
pub open spec fn u16_at(d: Seq<u8>, o: int) -> Option<int> {
    if 0 <= o && o + 2 <= d.len() { Some(d[o] * 256 + d[o + 1]) } else { None }
}

/// The big-endian 32-bit value at `o`, if four bytes are there.
pub open spec fn u32_at(d: Seq<u8>, o: int) -> Option<int> {
    if 0 <= o && o + 4 <= d.len() {
        Some(((d[o] * 256 + d[o + 1]) * 256 + d[o + 2]) * 256 + d[o + 3])
    } else {
        None
    }
}

/// The sfnt version tag of a font collection, `ttcf`.
pub open spec fn ttcf() -> int {
    0x74746366
}

/// Number of tables the directory lists.
pub open spec fn table_count(d: Seq<u8>) -> int {
    d[4] * 256 + d[5]
}

/// Offset of directory record `i`.
pub open spec fn record_at(i: int) -> int {
    12 + 16 * i
}

/// Whether the table directory reads: a version that is not a
/// collection's, a table count, and every record inside the file with its
/// table starting inside the file.
pub open spec fn directory_ok(d: Seq<u8>) -> bool {
    &&& d.len() >= 6
    &&& u32_at(d, 0) != Some(ttcf())
    &&& forall|i: int| 0 <= i < table_count(d) ==> #[trigger] record_at(i) + 16 <= d.len()
        && u32_at(d, record_at(i) + 8).unwrap() <= d.len()
}

/// The last directory record before `k` whose tag is `tag` (later records
/// win, as they would in a map keyed by tag).
pub open spec fn find_record(d: Seq<u8>, tag: Seq<u8>, k: int) -> Option<int>
    decreases k,
{
    if k <= 0 {
        None
    } else if d.subrange(record_at(k - 1), record_at(k - 1) + 4) == tag {
        Some(k - 1)
    } else {
        find_record(d, tag, k - 1)
    }
}

/// The bytes of table `tag`: from its offset for its declared length,
/// clamped to the end of the file; `None` when the directory does not
/// read or lists no such table.
pub open spec fn table_bytes(d: Seq<u8>, tag: Seq<u8>) -> Option<Seq<u8>> {
    if !directory_ok(d) {
        None
    } else {
        match find_record(d, tag, table_count(d)) {
            None => None,
            Some(i) => {
                let off = u32_at(d, record_at(i) + 8).unwrap();
                let len = u32_at(d, record_at(i) + 12).unwrap();
                let l = if len < d.len() - off { len } else { d.len() - off };
                Some(d.subrange(off, off + l))
            },
        }
    }
}

/// How strongly a `cmap` encoding record is preferred: full-Unicode
/// format 12 over BMP-only format 4, the Windows platform over the
/// Unicode one; 0 for records that are not used.
pub open spec fn cmap_score(pid: int, eid: int, fmt: int) -> int {
    if pid == 3 && eid == 10 && fmt == 12 {
        5
    } else if pid == 0 && fmt == 12 {
        4
    } else if pid == 3 && eid == 1 && fmt == 4 {
        3
    } else if pid == 0 && fmt == 4 {
        2
    } else {
        0
    }
}

/// Offset of the subtable encoding record `i` points at.
pub open spec fn cmap_offset(cmap: Seq<u8>, i: int) -> int {
    u32_at(cmap, 4 + 8 * i + 4).unwrap()
}

/// The score of encoding record `i` (0 when its subtable's format cannot
/// be read).
pub open spec fn record_score(cmap: Seq<u8>, i: int) -> int {
    let r = 4 + 8 * i;
    match u16_at(cmap, cmap_offset(cmap, i)) {
        None => 0,
        Some(fmt) => cmap_score(u16_at(cmap, r).unwrap(), u16_at(cmap, r + 2).unwrap(), fmt),
    }
}

/// Among the first `k` encoding records, the first one with the highest
/// positive score.
pub open spec fn best_record(cmap: Seq<u8>, k: int) -> Option<int>
    decreases k,
{
    if k <= 0 {
        None
    } else {
        let b = best_record(cmap, k - 1);
        let s = record_score(cmap, k - 1);
        if s > 0 && (b is None || s > record_score(cmap, b.unwrap())) { Some(k - 1) } else { b }
    }
}

/// The preferred Unicode subtable of a `cmap` table, from its start to
/// the table's end; `None` when the encoding records do not read or none
/// is usable.
pub open spec fn best_subtable(cmap: Seq<u8>) -> Option<Seq<u8>> {
    if cmap.len() < 4 {
        None
    } else {
        let n = u16_at(cmap, 2).unwrap();
        if exists|i: int| 0 <= i < n && #[trigger] (4 + 8 * i) + 8 > cmap.len() {
            None
        } else {
            match best_record(cmap, n) {
                None => None,
                Some(i) => Some(cmap.skip(cmap_offset(cmap, i))),
            }
        }
    }
}

/// Sum of two 16-bit values, wrapping at 0x10000.
pub open spec fn add16(a: int, b: int) -> int {
    if a + b > 0xFFFF { a + b - 0x10000 } else { a + b }
}

/// Format 4 lookup of `c < 0x10000` from segment `i` on, with `sc`
/// segments: the first segment whose end is at least `c` decides; a
/// segment starting past `c`, or no such segment, maps to glyph 0.
pub open spec fn format4_from(t: Seq<u8>, c: int, sc: int, i: int) -> Option<int>
    decreases sc - i,
{
    if i >= sc {
        Some(0)
    } else {
        let start_at = 14 + sc * 2 + 2;
        let delta_at = start_at + sc * 2;
        let range_at = delta_at + sc * 2;
        match u16_at(t, 14 + i * 2) {
            None => None,
            Some(end) => if end < c {
                format4_from(t, c, sc, i + 1)
            } else {
                match u16_at(t, start_at + i * 2) {
                    None => None,
                    Some(start) => if start > c {
                        Some(0)
                    } else {
                        match (u16_at(t, delta_at + i * 2), u16_at(t, range_at + i * 2)) {
                            (Some(delta), Some(range_off)) => if range_off == 0 {
                                Some(add16(c, delta))
                            } else {
                                match u16_at(t, range_at + i * 2 + range_off + (c - start) * 2) {
                                    None => None,
                                    Some(g) => Some(if g == 0 { 0 } else { add16(g, delta) }),
                                }
                            },
                            _ => None,
                        }
                    },
                }
            },
        }
    }
}

/// Glyph of `c` in a format 4 subtable (glyph 0 above the BMP).
pub open spec fn format4(t: Seq<u8>, c: int) -> Option<int> {
    if c > 0xFFFF {
        Some(0)
    } else {
        match u16_at(t, 6) {
            None => None,
            Some(x) => format4_from(t, c, x / 2, 0),
        }
    }
}

/// Binary search of the sequential-map groups `lo .. hi` for `c`.
pub open spec fn format12_search(t: Seq<u8>, c: int, lo: int, hi: int) -> Option<int>
    decreases hi - lo,
{
    if lo >= hi {
        Some(0)
    } else {
        let mid = (lo + hi) / 2;
        let g = 16 + mid * 12;
        match (u32_at(t, g), u32_at(t, g + 4)) {
            (Some(start), Some(end)) => if c < start {
                format12_search(t, c, lo, mid)
            } else if c > end {
                format12_search(t, c, mid + 1, hi)
            } else {
                match u32_at(t, g + 8) {
                    None => None,
                    Some(first) => {
                        let gid = first + (c - start);
                        Some(if gid > 0xFFFF { 0 } else { gid })
                    },
                }
            },
            _ => None,
        }
    }
}

/// Glyph of `c` in a format 12 subtable.
pub open spec fn format12(t: Seq<u8>, c: int) -> Option<int> {
    match u32_at(t, 12) {
        None => None,
        Some(n) => format12_search(t, c, 0, n),
    }
}

/// Glyph of `c` in a subtable of format 4 or 12; `None` for other formats
/// or a subtable that does not read.
pub open spec fn lookup(t: Seq<u8>, c: char) -> Option<int> {
    match u16_at(t, 0) {
        Some(f) => if f == 4 { format4(t, c as int) } else if f == 12 { format12(t, c as int) } else { None },
        None => None,
    }
}

/// The Unicode subtable a font's `cmap` offers, if any.
pub open spec fn font_subtable(font: Seq<u8>) -> Option<Seq<u8>> {
    match table_bytes(font, seq![0x63u8, 0x6du8, 0x61u8, 0x70u8]) {
        None => None,
        Some(cmap) => best_subtable(cmap),
    }
}

/// The glyph a font draws `c` with: `None` where the font does not read,
/// has no usable subtable, or maps `c` to glyph 0.
pub open spec fn glyph_of(font: Seq<u8>, c: char) -> Option<u16> {
    match font_subtable(font) {
        None => None,
        Some(t) => match lookup(t, c) {
            Some(g) => if g == 0 { None } else { Some(g as u16) },
            None => None,
        },
    }
}

/// Unicode's White_Space characters, which `char::is_whitespace` reports.
pub open spec fn white_space(c: char) -> bool {
    let v = c as int;
    (0x09 <= v <= 0x0D) || v == 0x20 || v == 0x85 || v == 0xA0 || v == 0x1680 || (0x2000 <= v <= 0x200A)
        || v == 0x2028 || v == 0x2029 || v == 0x202F || v == 0x205F || v == 0x3000
}

/// The characters of `chars` a font cannot draw, in order: not white
/// space, and mapped to no glyph (or glyph 0) by the subtable `t`.
pub open spec fn missing(t: Seq<u8>, chars: Seq<char>) -> Seq<char>
    decreases chars.len(),
{
    if chars.len() == 0 {
        Seq::empty()
    } else {
        let rest = missing(t, chars.drop_last());
        let c = chars.last();
        let g = lookup(t, c);
        if !white_space(c) && (g is None || g == Some(0int)) { rest.push(c) } else { rest }
    }
}

pub(crate) fn u16at(d: &[u8], o: usize) -> (r: Option<u16>)
    ensures
        match u16_at(d@, o as int) {
            Some(v) => r == Some(v as u16),
            None => r is None,
        },
{
    if o < d.len() && d.len() - o >= 2 {
        Some((d[o] as u16) * 256 + d[o + 1] as u16)
    } else {
        None
    }
}

pub(crate) fn u32at(d: &[u8], o: usize) -> (r: Option<u32>)
    ensures
        match u32_at(d@, o as int) {
            Some(v) => r == Some(v as u32),
            None => r is None,
        },
{
    if o < d.len() && d.len() - o >= 4 {
        Some((((d[o] as u32) * 256 + d[o + 1] as u32) * 256 + d[o + 2] as u32) * 256 + d[o + 3] as u32)
    } else {
        None
    }
}

/// The bytes of table `tag`, scanning the table directory.
pub(crate) fn table<'a>(d: &'a [u8], tag: [u8; 4]) -> (r: Option<&'a [u8]>)
    ensures
        match table_bytes(d@, tag@) {
            Some(t) => r matches Some(x) && x@ == t,
            None => r is None,
        },
{
    let version = match u32at(d, 0) {
        Some(v) => v,
        None => {
            return None;
        },
    };
    if version == 0x74746366 {
        return None;
    }
    let n = match u16at(d, 4) {
        Some(n) => n as usize,
        None => {
            return None;
        },
    };
    let mut found: Option<(usize, usize)> = None;
    let ghost mut found_at: Option<int> = None;
    let mut i: usize = 0;
    while i < n
        invariant
            i <= n,
            n == table_count(d@),
            d@.len() >= 6,
            u32_at(d@, 0) != Some(ttcf()),
            forall|j: int| 0 <= j < i ==> #[trigger] record_at(j) + 16 <= d@.len()
                && u32_at(d@, record_at(j) + 8).unwrap() <= d@.len(),
            found_at == find_record(d@, tag@, i as int),
            found_at matches Some(k) ==> 0 <= k < i,
            match found_at {
                Some(k) => found matches Some((o, l)) && o == u32_at(d@, record_at(k) + 8).unwrap()
                    && l == u32_at(d@, record_at(k) + 12).unwrap(),
                None => found is None,
            },
        decreases n - i,
    {
        let r = 12 + i * 16;
        if r > d.len() || d.len() - r < 16 {
            proof {
                assert(!directory_ok(d@)) by {
                    assert(!(record_at(i as int) + 16 <= d@.len()));
                }
            }
            return None;
        }
        let off = match u32at(d, r + 8) {
            Some(v) => v as usize,
            None => {
                return None;
            },
        };
        let len = match u32at(d, r + 12) {
            Some(v) => v as usize,
            None => {
                return None;
            },
        };
        if off > d.len() {
            proof {
                assert(!directory_ok(d@)) by {
                    assert(!(u32_at(d@, record_at(i as int) + 8).unwrap() <= d@.len()));
                }
            }
            return None;
        }
        let same = d[r] == tag[0] && d[r + 1] == tag[1] && d[r + 2] == tag[2] && d[r + 3] == tag[3];
        proof {
            assert(same == (d@.subrange(record_at(i as int), record_at(i as int) + 4) == tag@)) by {
                if same {
                    assert(d@.subrange(record_at(i as int), record_at(i as int) + 4) =~= tag@);
                } else if d@.subrange(record_at(i as int), record_at(i as int) + 4) == tag@ {
                    assert(d@.subrange(record_at(i as int), record_at(i as int) + 4)[0] == tag@[0]);
                    assert(d@.subrange(record_at(i as int), record_at(i as int) + 4)[1] == tag@[1]);
                    assert(d@.subrange(record_at(i as int), record_at(i as int) + 4)[2] == tag@[2]);
                    assert(d@.subrange(record_at(i as int), record_at(i as int) + 4)[3] == tag@[3]);
                }
            }
        }
        if same {
            found = Some((off, len));
            proof {
                found_at = Some(i as int);
            }
        }
        i += 1;
    }
    proof {
        if let Some(k) = found_at {
            assert(record_at(k) + 16 <= d@.len());
        }
    }
    match found {
        Some((o, l)) => {
            let l2 = if l < d.len() - o { l } else { d.len() - o };
            Some(slice_subrange(d, o, o + l2))
        },
        None => None,
    }
}

/// The preferred Unicode subtable of a `cmap` table.
pub(crate) fn best_cmap_subtable<'a>(cmap: &'a [u8]) -> (r: Option<&'a [u8]>)
    ensures
        match best_subtable(cmap@) {
            Some(t) => r matches Some(x) && x@ == t,
            None => r is None,
        },
{
    let n = match u16at(cmap, 2) {
        Some(n) => n as usize,
        None => {
            return None;
        },
    };
    let mut best: Option<(u8, usize)> = None;
    let ghost mut best_i: Option<int> = None;
    let mut i: usize = 0;
    while i < n
        invariant
            i <= n,
            cmap@.len() >= 4,
            n == u16_at(cmap@, 2).unwrap(),
            forall|j: int| 0 <= j < i ==> #[trigger] (4 + 8 * j) + 8 <= cmap@.len(),
            best_i == best_record(cmap@, i as int),
            match best_i {
                Some(k) => best matches Some((sc, off)) && sc == record_score(cmap@, k) && sc > 0
                    && off == cmap_offset(cmap@, k) && 0 <= k < i,
                None => best is None,
            },
        decreases n - i,
    {
        let r = 4 + i * 8;
        let pid = u16at(cmap, r);
        let eid = u16at(cmap, r + 2);
        let offv = u32at(cmap, r + 4);
        if pid.is_none() || eid.is_none() || offv.is_none() {
            proof {
                assert((4 + 8 * (i as int)) + 8 > cmap@.len());
            }
            return None;
        }
        let pid = pid.unwrap();
        let eid = eid.unwrap();
        let off = offv.unwrap() as usize;
        let fmt = u16at(cmap, off);
        let score: u8 = match fmt {
            None => 0,
            Some(f) => if pid == 3 && eid == 10 && f == 12 {
                5
            } else if pid == 0 && f == 12 {
                4
            } else if pid == 3 && eid == 1 && f == 4 {
                3
            } else if pid == 0 && f == 4 {
                2
            } else {
                0
            },
        };
        assert(score == record_score(cmap@, i as int));
        let better = match best {
            None => score > 0,
            Some((b, _)) => score > 0 && score > b,
        };
        if better {
            best = Some((score, off));
            proof {
                best_i = Some(i as int);
            }
        }
        i += 1;
    }
    proof {
        assert(!exists|j: int| 0 <= j < n && #[trigger] (4 + 8 * j) + 8 > cmap@.len());
    }
    match best {
        None => None,
        Some((_, off)) => {
            proof {
                assert(u16_at(cmap@, off as int) is Some);
            }
            Some(slice_subrange(cmap, off, cmap.len()))
        },
    }
}

/// Glyph ids are 16-bit.
proof fn lemma_format4_range(t: Seq<u8>, c: int, sc: int, i: int)
    ensures
        format4_from(t, c, sc, i) matches Some(g) ==> 0 <= g < 0x10000,
    decreases sc - i,
{
    if i < sc {
        lemma_format4_range(t, c, sc, i + 1);
    }
}

proof fn lemma_format12_range(t: Seq<u8>, c: int, lo: int, hi: int)
    ensures
        format12_search(t, c, lo, hi) matches Some(g) ==> 0 <= g < 0x10000,
    decreases hi - lo,
{
    if lo < hi {
        let mid = (lo + hi) / 2;
        lemma_format12_range(t, c, lo, mid);
        lemma_format12_range(t, c, mid + 1, hi);
    }
}

/// A lookup yields a 16-bit glyph id.
pub(crate) proof fn lemma_lookup_range(t: Seq<u8>, c: char)
    ensures
        lookup(t, c) matches Some(g) ==> 0 <= g < 0x10000,
{
    if let Some(x) = u16_at(t, 6) {
        lemma_format4_range(t, c as int, x / 2, 0);
    }
    if let Some(n) = u32_at(t, 12) {
        lemma_format12_range(t, c as int, 0, n);
    }
}

/// What one format 4 segment says of `c`: nothing (look further), or the
/// answer.
enum Step {
    Next,
    Done(Option<u16>),
}

#[verifier::rlimit(40)]
fn format4_segment(t: &[u8], c16: u16, sc: usize, i: usize) -> (r: Step)
    requires
        i < sc < 0x8000,
    ensures
        match r {
            Step::Next => format4_from(t@, c16 as int, sc as int, i as int)
                == format4_from(t@, c16 as int, sc as int, i + 1),
            Step::Done(x) => match format4_from(t@, c16 as int, sc as int, i as int) {
                Some(g) => x == Some(g as u16),
                None => x is None,
            },
        },
{
    let start_at = 14 + sc * 2 + 2;
    let delta_at = start_at + sc * 2;
    let range_at = delta_at + sc * 2;
    let end = match u16at(t, 14 + i * 2) {
        Some(v) => v,
        None => {
            return Step::Done(None);
        },
    };
    if end < c16 {
        return Step::Next;
    }
    let start = match u16at(t, start_at + i * 2) {
        Some(v) => v,
        None => {
            return Step::Done(None);
        },
    };
    if start > c16 {
        return Step::Done(Some(0));
    }
    let delta = u16at(t, delta_at + i * 2);
    let range_off = u16at(t, range_at + i * 2);
    if delta.is_none() || range_off.is_none() {
        return Step::Done(None);
    }
    let delta = delta.unwrap();
    let range_off = range_off.unwrap();
    if range_off == 0 {
        return Step::Done(Some(c16.wrapping_add(delta)));
    }
    let at = range_at + i * 2 + range_off as usize + (c16 - start) as usize * 2;
    match u16at(t, at) {
        Some(g) => Step::Done(Some(if g == 0 { 0 } else { g.wrapping_add(delta) })),
        None => Step::Done(None),
    }
}

/// Glyph of `c` in a format 4 subtable.
fn lookup_format4(t: &[u8], c: u32) -> (r: Option<u16>)
    ensures
        match format4(t@, c as int) {
            Some(g) => r == Some(g as u16),
            None => r is None,
        },
{
    if c > 0xFFFF {
        return Some(0);
    }
    let c16 = c as u16;
    let sc = match u16at(t, 6) {
        Some(x) => (x / 2) as usize,
        None => {
            return None;
        },
    };
    let mut i: usize = 0;
    while i < sc
        invariant
            i <= sc,
            sc < 0x8000,
            c16 == c,
            format4(t@, c as int) == format4_from(t@, c as int, sc as int, i as int),
        decreases sc - i,
    {
        match format4_segment(t, c16, sc, i) {
            Step::Next => {
                i += 1;
            },
            Step::Done(x) => {
                return x;
            },
        }
    }
    Some(0)
}

/// Glyph of `c` in a format 12 subtable, by binary search of its groups.
fn lookup_format12(t: &[u8], c: u32) -> (r: Option<u16>)
    ensures
        match format12(t@, c as int) {
            Some(g) => r == Some(g as u16),
            None => r is None,
        },
{
    let groups = match u32at(t, 12) {
        Some(n) => n as u64,
        None => {
            return None;
        },
    };
    let mut lo: u64 = 0;
    let mut hi: u64 = groups;
    while lo < hi
        invariant
            lo <= hi <= groups,
            groups <= u32::MAX,
            u32_at(t@, 12) == Some(groups as int),
            format12(t@, c as int) == format12_search(t@, c as int, lo as int, hi as int),
        decreases hi - lo,
    {
        let mid = lo + (hi - lo) / 2;
        assert(mid == (lo + hi) / 2);
        let g64 = 16 + mid * 12;
        if g64 + 8 > t.len() as u64 {
            return None;
        }
        let g = g64 as usize;
        let start = u32at(t, g).unwrap();
        let end = u32at(t, g + 4).unwrap();
        if c < start {
            hi = mid;
        } else if c > end {
            lo = mid + 1;
        } else {
            let first = match u32at(t, g + 8) {
                Some(v) => v as u64,
                None => {
                    return None;
                },
            };
            let gid = first + (c - start) as u64;
            return Some(if gid > 0xFFFF { 0 } else { gid as u16 });
        }
    }
    Some(0)
}

/// Glyph of `c` in a subtable of format 4 or 12.
pub(crate) fn lookup_char(t: &[u8], c: char) -> (r: Option<u16>)
    ensures
        match lookup(t@, c) {
            Some(g) => r == Some(g as u16),
            None => r is None,
        },
{
    match u16at(t, 0) {
        Some(4) => lookup_format4(t, c as u32),
        Some(12) => lookup_format12(t, c as u32),
        _ => None,
    }
}

/// The Unicode subtable of a font's `cmap`.
pub(crate) fn subtable_of<'a>(font: &'a [u8]) -> (r: Option<&'a [u8]>)
    ensures
        match font_subtable(font@) {
            Some(t) => r matches Some(x) && x@ == t,
            None => r is None,
        },
{
    let tag: [u8; 4] = [0x63, 0x6d, 0x61, 0x70];
    assert(tag@ =~= seq![0x63u8, 0x6du8, 0x61u8, 0x70u8]);
    match table(font, tag) {
        Some(cmap) => best_cmap_subtable(cmap),
        None => None,
    }
}

/// The glyph id a font draws `ch` with, or `None` when the font cannot be
/// read, has no Unicode character map, or maps `ch` to no glyph. Call it
/// on a subset font, not the original: subsetting renumbers glyphs.
pub fn glyph_id(font: &[u8], ch: char) -> (r: Option<u16>)
    ensures
        r == glyph_of(font@, ch),
{
    let sub = match subtable_of(font) {
        Some(t) => t,
        None => {
            return None;
        },
    };
    proof {
        lemma_lookup_range(sub@, ch);
    }
    match lookup_char(sub, ch) {
        Some(0) | None => None,
        Some(g) => Some(g),
    }
}

/// Whether `c` is Unicode White_Space, as `char::is_whitespace` says.
fn is_white_space(c: char) -> (b: bool)
    ensures
        b == white_space(c),
{
    let v = c as u32;
    (0x09 <= v && v <= 0x0D) || v == 0x20 || v == 0x85 || v == 0xA0 || v == 0x1680 || (0x2000 <= v && v <= 0x200A)
        || v == 0x2028 || v == 0x2029 || v == 0x202F || v == 0x205F || v == 0x3000
}

/// The characters of `chars` the font cannot draw, in the order given:
/// those that are not white space and that its character map sends to no
/// glyph. A font that cannot be read, or has no Unicode character map,
/// reports none.
pub fn unsupported(font: &[u8], chars: &[char]) -> (r: Vec<char>)
    ensures
        match font_subtable(font@) {
            Some(t) => r@ == missing(t, chars@),
            None => r@ == Seq::<char>::empty(),
        },
{
    let sub = match subtable_of(font) {
        Some(t) => t,
        None => {
            return Vec::new();
        },
    };
    let mut out: Vec<char> = Vec::new();
    let mut i: usize = 0;
    while i < chars.len()
        invariant
            i <= chars@.len(),
            font_subtable(font@) == Some(sub@),
            out@ == missing(sub@, chars@.take(i as int)),
        decreases chars@.len() - i,
    {
        let c = chars[i];
        proof {
            lemma_lookup_range(sub@, c);
        }
        let g = lookup_char(sub, c);
        let keep = !is_white_space(c) && match g {
            None => true,
            Some(v) => v == 0,
        };
        proof {
            assert(chars@.take(i + 1).drop_last() =~= chars@.take(i as int));
        }
        if keep {
            out.push(c);
        }
        i += 1;
    }
    proof {
        assert(chars@.take(chars@.len() as int) =~= chars@);
    }
    out
}

/// What `missing` keeps, character by character: a character of `chars`
/// that is not white space and that the font draws with no glyph.
proof fn lemma_missing_members(font: Seq<u8>, t: Seq<u8>, chars: Seq<char>, c: char)
    requires
        font_subtable(font) == Some(t),
    ensures
        missing(t, chars).contains(c) <==> (chars.contains(c) && !white_space(c) && glyph_of(font, c) is None),
    decreases chars.len(),
{
    if chars.len() > 0 {
        let rest = chars.drop_last();
        lemma_missing_members(font, t, rest, c);
        assert(chars == rest.push(chars.last()));
        if chars.contains(c) && !rest.contains(c) {
            let i = choose|i: int| 0 <= i < chars.len() && chars[i] == c;
            if i < chars.len() - 1 {
                assert(rest[i] == c);
            }
            assert(chars.last() == c);
        }
        if rest.contains(c) {
            let i = choose|i: int| 0 <= i < rest.len() && rest[i] == c;
            assert(chars[i] == c);
        }
        let m = missing(t, rest);
        if m.push(chars.last()).contains(c) && !m.contains(c) {
            let i = choose|i: int| 0 <= i < m.len() + 1 && m.push(chars.last())[i] == c;
            if i < m.len() {
                assert(m[i] == c);
            }
        }
        if m.contains(c) {
            let i = choose|i: int| 0 <= i < m.len() && m[i] == c;
            assert(m.push(chars.last())[i] == c);
        }
        if chars.last() == c {
            assert(m.push(c)[m.len() as int] == c);
            assert(chars[chars.len() - 1] == c);
        }
    }
}

/// The characters `unsupported` reports, taken as a set: exactly those of
/// `chars` that are not white space and that the font draws with no
/// glyph, when the font has a Unicode character map; none otherwise. So
/// the report is always drawn from `chars`.
pub proof fn lemma_unsupported_set(font: Seq<u8>, chars: Seq<char>)
    ensures
        match font_subtable(font) {
            Some(t) => missing(t, chars).to_set() == chars.to_set().filter(|c: char| !white_space(c) && glyph_of(font, c) is None),
            None => true,
        },
        match font_subtable(font) {
            Some(t) => missing(t, chars).to_set().subset_of(chars.to_set()),
            None => true,
        },
{
    match font_subtable(font) {
        Some(t) => {
            assert forall|c: char| missing(t, chars).to_set().contains(c) == chars.to_set().filter(
                |c: char| !white_space(c) && glyph_of(font, c) is None,
            ).contains(c) by {
                lemma_missing_members(font, t, chars, c);
            }
            assert(missing(t, chars).to_set() =~= chars.to_set().filter(|c: char| !white_space(c) && glyph_of(font, c) is None));
        },
        None => {},
    }
}

} // verus!
