//! What a written format 4 `cmap` subtable says: looking a character up
//! in it, by the reader's rule (the first segment whose end reaches the
//! character decides, through its start and `idDelta`), gives back the
//! glyph the mapping gave that character.

use vstd::prelude::*;
use crate::font::{add16, best_subtable, best_record, cmap_offset, format4, format4_from, format12, format12_search, lookup, record_score, u16_at, u32_at};
use crate::font_subset::{chars_ok, cmap_spec, needs_format12, floor_log2, format12_spec, format4_segs, format4_spec, groups_bytes, groups_from, seg_column, segs_from, two_pow, word16, word32};

verus! {

/// Whether the mapping's characters strictly ascend.
pub open spec fn chars_ascend(m: Seq<(u32, u16)>) -> bool {
    forall|i: int, j: int| 0 <= i < j < m.len() ==> #[trigger] m[i].0 < #[trigger] m[j].0
}

/// Segments in order: each starts no later than it ends, and ends before
/// the next one starts.
pub open spec fn segs_ordered(s: Seq<(u16, u16, u16)>) -> bool {
    &&& forall|i: int| 0 <= i < s.len() ==> (#[trigger] s[i]).0 <= s[i].1
    &&& forall|i: int, j: int| 0 <= i < j < s.len() ==> (#[trigger] s[i]).1 < (#[trigger] s[j]).0
}

/// Whether segment `i` takes character `c` to glyph `g`.
pub open spec fn seg_maps(s: Seq<(u16, u16, u16)>, i: int, c: int, g: int) -> bool {
    0 <= i < s.len() && s[i].0 <= c <= s[i].1 && (c + s[i].2) % 0x10000 == g
}

proof fn lemma_segs_build(m: Seq<(u32, u16)>, k: int)
    requires
        chars_ascend(m),
        0 <= k <= m.len(),
    ensures
        segs_ordered(segs_from(m, k)),
        forall|i: int| 0 <= i < segs_from(m, k).len() ==> (#[trigger] segs_from(m, k)[i]).1 < 0xFFFF,
        segs_from(m, k).len() <= k,
        segs_from(m, k).len() > 0 ==> exists|j: int| 0 <= j < k && #[trigger] m[j].0 == segs_from(m, k).last().1,
        forall|j: int| 0 <= j < k && (#[trigger] m[j]).0 < 0xFFFF ==> exists|i: int| seg_maps(segs_from(m, k), i, m[j].0 as int, m[j].1 as int),
    decreases k,
{
    if k > 0 {
        lemma_segs_build(m, k - 1);
        let s = segs_from(m, k - 1);
        let (c, g) = m[k - 1];
        let s2 = segs_from(m, k);
        if c >= 0xFFFF {
            assert(s2 == s);
            if s.len() > 0 {
                let j = choose|j: int| 0 <= j < k - 1 && #[trigger] m[j].0 == s.last().1;
                assert(0 <= j < k && m[j].0 == s2.last().1);
            }
            assert forall|j: int| 0 <= j < k && (#[trigger] m[j]).0 < 0xFFFF implies exists|i: int| seg_maps(s2, i, m[j].0 as int, m[j].1 as int) by {
                assert(j < k - 1);
            }
        } else if s.len() > 0 && c == s.last().1 + 1 && g == (c + s.last().2) % 0x10000 {
            let n = s.len() - 1;
            assert(s2 == s.update(n, (s[n].0, c as u16, s[n].2)));
            assert forall|i: int, j: int| 0 <= i < j < s2.len() implies (#[trigger] s2[i]).1 < (#[trigger] s2[j]).0 by {
                assert(s[i].1 < s[j].0);
            }
            assert(m[k - 1].0 == s2.last().1);
            assert forall|j: int| 0 <= j < k && (#[trigger] m[j]).0 < 0xFFFF implies exists|i: int| seg_maps(s2, i, m[j].0 as int, m[j].1 as int) by {
                if j == k - 1 {
                    assert(seg_maps(s2, n, c as int, g as int));
                } else {
                    let i = choose|i: int| seg_maps(s, i, m[j].0 as int, m[j].1 as int);
                    assert(seg_maps(s2, i, m[j].0 as int, m[j].1 as int));
                }
            }
        } else {
            let dd = ((g - c + 0x10000) % 0x10000) as u16;
            assert(s2 == s.push((c as u16, c as u16, dd)));
            if s.len() > 0 {
                let jw = choose|j: int| 0 <= j < k - 1 && #[trigger] m[j].0 == s.last().1;
                assert(m[jw].0 < m[k - 1].0);
                assert forall|i: int| 0 <= i < s.len() implies (#[trigger] s[i]).1 < c by {
                    if i < s.len() - 1 {
                        assert(s[i].1 < s[s.len() - 1].0);
                    }
                }
            }
            assert forall|i: int, j: int| 0 <= i < j < s2.len() implies (#[trigger] s2[i]).1 < (#[trigger] s2[j]).0 by {
                if j < s.len() {
                    assert(s[i].1 < s[j].0);
                } else {
                    assert(s2[i] == s[i]);
                }
            }
            assert(m[k - 1].0 == s2.last().1);
            assert((c + dd) % 0x10000 == g) by {
                if g >= c {
                    assert(dd == g - c);
                } else {
                    assert(dd == g - c + 0x10000);
                }
            }
            assert forall|j: int| 0 <= j < k && (#[trigger] m[j]).0 < 0xFFFF implies exists|i: int| seg_maps(s2, i, m[j].0 as int, m[j].1 as int) by {
                if j == k - 1 {
                    assert(seg_maps(s2, s.len() as int, c as int, g as int));
                } else {
                    let i = choose|i: int| seg_maps(s, i, m[j].0 as int, m[j].1 as int);
                    assert(s2[i] == s[i]);
                    assert(seg_maps(s2, i, m[j].0 as int, m[j].1 as int));
                }
            }
        }
    }
}

/// The field of a segment a column holds.
pub open spec fn seg_field(x: (u16, u16, u16), which: int) -> int {
    if which == 0 { x.0 as int } else if which == 1 { x.1 as int } else if which == 2 { x.2 as int } else { 0 }
}

proof fn lemma_word16_reads(v: int)
    requires
        0 <= v < 0x10000,
    ensures
        ((v / 256) % 256) as u8 * 256 + (v % 256) as u8 == v,
{
    assert((v / 256) % 256 == v / 256) by {
        vstd::arithmetic::div_mod::lemma_small_mod((v / 256) as nat, 256);
    }
    vstd::arithmetic::div_mod::lemma_fundamental_div_mod(v, 256);
}

/// A column holds each segment's field as a big-endian 16-bit word.
proof fn lemma_column(s: Seq<(u16, u16, u16)>, which: int, i: int)
    requires
        0 <= i < s.len(),
    ensures
        seg_column(s, which).len() == 2 * s.len(),
        seg_column(s, which)[2 * i] as int * 256 + seg_column(s, which)[2 * i + 1] as int == seg_field(s[i], which),
    decreases s.len(),
{
    let col = seg_column(s, which);
    lemma_column_len(s, which);
    let prev = seg_column(s.drop_last(), which);
    lemma_column_len(s.drop_last(), which);
    let f = seg_field(s.last(), which);
    assert(col == prev + word16(f));
    if i < s.len() - 1 {
        lemma_column(s.drop_last(), which, i);
        assert(col[2 * i] == prev[2 * i]);
        assert(col[2 * i + 1] == prev[2 * i + 1]);
        assert(s.drop_last()[i] == s[i]);
    } else {
        assert(col[2 * i] == word16(f)[0]);
        assert(col[2 * i + 1] == word16(f)[1]);
        lemma_word16_reads(f);
    }
}

proof fn lemma_column_len(s: Seq<(u16, u16, u16)>, which: int)
    ensures
        seg_column(s, which).len() == 2 * s.len(),
    decreases s.len(),
{
    if s.len() > 0 {
        lemma_column_len(s.drop_last(), which);
    }
}

/// The reader reads field `which` of segment `i` from a column laid at
/// `base`.
proof fn lemma_read_column(t: Seq<u8>, base: int, s: Seq<(u16, u16, u16)>, which: int, i: int)
    requires
        0 <= i < s.len(),
        0 <= base,
        base + 2 * s.len() <= t.len(),
        t.subrange(base, base + 2 * s.len()) == seg_column(s, which),
    ensures
        u16_at(t, base + 2 * i) == Some(seg_field(s[i], which)),
{
    lemma_column(s, which, i);
    let col = seg_column(s, which);
    assert(t[base + 2 * i] == col[2 * i]);
    assert(t[base + 2 * i + 1] == col[2 * i + 1]);
}

proof fn lemma_log2_small(n: int, k: nat)
    requires
        1 <= n < two_pow(k),
    ensures
        floor_log2(n) < k,
    decreases k,
{
    if n > 1 {
        assert(k >= 1) by {
            if k == 0 {
                assert(two_pow(0) == 1);
            }
        }
        assert(two_pow(k) == 2 * two_pow((k - 1) as nat));
        lemma_log2_small(n / 2, (k - 1) as nat);
    }
}

proof fn lemma_two_pow_16()
    ensures
        two_pow(16) == 0x10000,
{
    reveal_with_fuel(two_pow, 17);
}

/// The reader's walk: segments ending before `c` are passed over, and the
/// one covering `c` decides through its `idDelta`.
proof fn lemma_walk(t: Seq<u8>, s: Seq<(u16, u16, u16)>, c: int, i: int, target: int)
    requires
        segs_ordered(s),
        0 <= i <= target < s.len(),
        s[target].0 <= c <= s[target].1,
        forall|k: int| 0 <= k < s.len() ==> u16_at(t, 14 + 2 * k) == Some(seg_field(#[trigger] s[k], 1)),
        forall|k: int| 0 <= k < s.len() ==> u16_at(t, 16 + 2 * s.len() + 2 * k) == Some(seg_field(#[trigger] s[k], 0)),
        forall|k: int| 0 <= k < s.len() ==> u16_at(t, 16 + 4 * s.len() + 2 * k) == Some(seg_field(#[trigger] s[k], 2)),
        forall|k: int| 0 <= k < s.len() ==> u16_at(t, 16 + 6 * s.len() + 2 * k) == Some(seg_field(#[trigger] s[k], 3)),
    ensures
        format4_from(t, c, s.len() as int, i) == Some(add16(c, s[target].2 as int)),
    decreases target - i,
{
    let sc = s.len() as int;
    assert(u16_at(t, 14 + 2 * i) == Some(seg_field(s[i], 1)));
    assert(u16_at(t, 16 + 2 * sc + 2 * i) == Some(seg_field(s[i], 0)));
    assert(u16_at(t, 16 + 4 * sc + 2 * i) == Some(seg_field(s[i], 2)));
    assert(u16_at(t, 16 + 6 * sc + 2 * i) == Some(seg_field(s[i], 3)));
    assert(14 + sc * 2 + 2 + i * 2 == 16 + 2 * sc + 2 * i);
    assert(14 + sc * 2 + 2 + sc * 2 + i * 2 == 16 + 4 * sc + 2 * i);
    assert(14 + sc * 2 + 2 + sc * 2 + sc * 2 + i * 2 == 16 + 6 * sc + 2 * i);
    if i < target {
        assert(s[i].1 < s[target].0);
        lemma_walk(t, s, c, i + 1, target);
    }
}

/// The segment list written ends with the `0xFFFF` segment and stays in
/// order.
proof fn lemma_all_segs(m: Seq<(u32, u16)>)
    requires
        chars_ascend(m),
    ensures
        segs_ordered(format4_segs(m)),
        format4_segs(m).len() <= m.len() + 1,
        forall|j: int| 0 <= j < m.len() && (#[trigger] m[j]).0 < 0xFFFF ==> exists|i: int|
            seg_maps(format4_segs(m), i, m[j].0 as int, m[j].1 as int),
{
    let n = m.len() as int;
    lemma_segs_build(m, n);
    let s0 = segs_from(m, n);
    let s = format4_segs(m);
    assert(s == s0.push((0xFFFFu16, 0xFFFFu16, 1u16)));
    assert forall|i: int, k: int| 0 <= i < k < s.len() implies (#[trigger] s[i]).1 < (#[trigger] s[k]).0 by {
        if k < s0.len() {
            assert(s0[i].1 < s0[k].0);
        } else {
            assert(s[i] == s0[i]);
        }
    }
    assert forall|j: int| 0 <= j < m.len() && (#[trigger] m[j]).0 < 0xFFFF implies exists|i: int|
        seg_maps(s, i, m[j].0 as int, m[j].1 as int) by {
        let i = choose|i: int| seg_maps(s0, i, m[j].0 as int, m[j].1 as int);
        assert(s[i] == s0[i]);
        assert(seg_maps(s, i, m[j].0 as int, m[j].1 as int));
    }
}

/// Where the subtable's fields lie: the format, the doubled segment
/// count, and the four per-segment columns.
#[verifier::spinoff_prover]
#[verifier::rlimit(40)]
proof fn lemma_layout(m: Seq<(u32, u16)>)
    requires
        1 <= format4_segs(m).len() <= 32767,
    ensures
        format4_spec(m) is Some,
        ({
            let t = format4_spec(m).unwrap();
            let s = format4_segs(m);
            let sc = s.len() as int;
            &&& u16_at(t, 0) == Some(4int)
            &&& t.len() == 16 + 8 * sc
            &&& u16_at(t, 6) == Some(2 * sc)
            &&& forall|k: int| 0 <= k < sc ==> u16_at(t, 14 + 2 * k) == Some(seg_field(#[trigger] s[k], 1))
            &&& forall|k: int| 0 <= k < sc ==> u16_at(t, 16 + 2 * sc + 2 * k) == Some(seg_field(#[trigger] s[k], 0))
            &&& forall|k: int| 0 <= k < sc ==> u16_at(t, 16 + 4 * sc + 2 * k) == Some(seg_field(#[trigger] s[k], 2))
            &&& forall|k: int| 0 <= k < sc ==> u16_at(t, 16 + 6 * sc + 2 * k) == Some(seg_field(#[trigger] s[k], 3))
        }),
{
    let s = format4_segs(m);
    let sc = s.len() as int;
    lemma_two_pow_16();
    lemma_log2_small(sc, 16);
    let t = format4_spec(m).unwrap();
    let es = floor_log2(sc);
    let sr = (2 * two_pow(es)) % 0x10000;
    let sc2 = (sc * 2) % 0x10000;
    assert(sc2 == sc * 2);
    let head = word16(4) + word16(16 + 8 * sc) + word16(0) + word16(sc2) + word16(sr) + word16(es as int) + word16(sc2 - sr);
    let c1 = seg_column(s, 1);
    let c0 = seg_column(s, 0);
    let c2 = seg_column(s, 2);
    let c3 = seg_column(s, 3);
    lemma_column_len(s, 0);
    lemma_column_len(s, 1);
    lemma_column_len(s, 2);
    lemma_column_len(s, 3);
    assert(t == head + c1 + word16(0) + c0 + c2 + c3);
    assert(head.len() == 14);
    assert(t.subrange(14, 14 + 2 * sc) =~= c1);
    assert(t.subrange(16 + 2 * sc, 16 + 4 * sc) =~= c0);
    assert(t.subrange(16 + 4 * sc, 16 + 6 * sc) =~= c2);
    assert(t.subrange(16 + 6 * sc, 16 + 8 * sc) =~= c3);
    assert forall|k: int| 0 <= k < sc implies u16_at(t, 14 + 2 * k) == Some(seg_field(#[trigger] s[k], 1)) by {
        lemma_read_column(t, 14, s, 1, k);
    }
    assert forall|k: int| 0 <= k < sc implies u16_at(t, 16 + 2 * sc + 2 * k) == Some(seg_field(#[trigger] s[k], 0)) by {
        lemma_read_column(t, 16 + 2 * sc, s, 0, k);
    }
    assert forall|k: int| 0 <= k < sc implies u16_at(t, 16 + 4 * sc + 2 * k) == Some(seg_field(#[trigger] s[k], 2)) by {
        lemma_read_column(t, 16 + 4 * sc, s, 2, k);
    }
    assert forall|k: int| 0 <= k < sc implies u16_at(t, 16 + 6 * sc + 2 * k) == Some(seg_field(#[trigger] s[k], 3)) by {
        lemma_read_column(t, 16 + 6 * sc, s, 3, k);
    }
    assert(t[0] == word16(4)[0] && t[1] == word16(4)[1]);
    assert(t[6] == word16(sc2)[0] && t[7] == word16(sc2)[1]);
    lemma_word16_reads(4);
    lemma_word16_reads(sc2);
}

/// Looking `c` up in a subtable laid out with segments `s`, one of which
/// takes `c` to `g`, gives `g`.
proof fn lemma_lookup_in(t: Seq<u8>, s: Seq<(u16, u16, u16)>, c: int, g: int, i: int)
    requires
        segs_ordered(s),
        seg_maps(s, i, c, g),
        0 <= c < 0xFFFF,
        u16_at(t, 6) == Some(2 * (s.len() as int)),
        forall|k: int| 0 <= k < s.len() ==> u16_at(t, 14 + 2 * k) == Some(seg_field(#[trigger] s[k], 1)),
        forall|k: int| 0 <= k < s.len() ==> u16_at(t, 16 + 2 * s.len() + 2 * k) == Some(seg_field(#[trigger] s[k], 0)),
        forall|k: int| 0 <= k < s.len() ==> u16_at(t, 16 + 4 * s.len() + 2 * k) == Some(seg_field(#[trigger] s[k], 2)),
        forall|k: int| 0 <= k < s.len() ==> u16_at(t, 16 + 6 * s.len() + 2 * k) == Some(seg_field(#[trigger] s[k], 3)),
    ensures
        format4(t, c) == Some(g),
{
    lemma_walk(t, s, c, 0, i);
    assert((2 * (s.len() as int)) / 2 == s.len());
    assert(add16(c, s[i].2 as int) == (c + s[i].2) % 0x10000);
}

/// A written format 4 subtable maps every character of the mapping below
/// `0xFFFF` to its glyph: the reader's lookup gives back exactly the glyph
/// the mapping gave the character. The characters must ascend, and the
/// mapping must be short enough for the segment count to fit the table's
/// 16-bit `segCountX2` field.
#[verifier::spinoff_prover]
pub proof fn lemma_format4_maps(m: Seq<(u32, u16)>, j: int)
    requires
        chars_ascend(m),
        m.len() <= 32766,
        0 <= j < m.len(),
        m[j].0 < 0xFFFF,
    ensures
        format4_spec(m) is Some,
        u16_at(format4_spec(m).unwrap(), 0) == Some(4int),
        format4(format4_spec(m).unwrap(), m[j].0 as int) == Some(m[j].1 as int),
{
    lemma_all_segs(m);
    let s = format4_segs(m);
    assert(s.len() >= 1);
    lemma_layout(m);
    let t = format4_spec(m).unwrap();
    let c = m[j].0 as int;
    let i = choose|i: int| seg_maps(s, i, c, m[j].1 as int);
    lemma_lookup_in(t, s, c, m[j].1 as int, i);
}

// ------------------------------------------------------------- format 12

/// Groups in order: each starts no later than it ends, and ends before
/// the next one starts.
pub open spec fn groups_ordered(gs: Seq<(u32, u32, u32)>) -> bool {
    &&& forall|i: int| 0 <= i < gs.len() ==> (#[trigger] gs[i]).0 <= gs[i].1
    &&& forall|i: int, j: int| 0 <= i < j < gs.len() ==> (#[trigger] gs[i]).1 < (#[trigger] gs[j]).0
}

/// Whether group `i` takes character `c` to glyph `g`.
pub open spec fn group_maps(gs: Seq<(u32, u32, u32)>, i: int, c: int, g: int) -> bool {
    0 <= i < gs.len() && gs[i].0 <= c <= gs[i].1 && gs[i].2 + (c - gs[i].0) == g
}

proof fn lemma_groups_build(m: Seq<(u32, u16)>, k: int)
    requires
        chars_ascend(m),
        chars_ok(m),
        0 <= k <= m.len(),
    ensures
        groups_ordered(groups_from(m, k)),
        groups_from(m, k).len() <= k,
        forall|i: int| 0 <= i < groups_from(m, k).len() ==> (#[trigger] groups_from(m, k)[i]).1 <= 0x10FFFF
            && groups_from(m, k)[i].2 + (groups_from(m, k)[i].1 - groups_from(m, k)[i].0) <= 0xFFFF,
        groups_from(m, k).len() > 0 ==> exists|j: int| 0 <= j < k && #[trigger] m[j].0 == groups_from(m, k).last().1,
        forall|j: int| 0 <= j < k && (#[trigger] m[j]).0 <= 0x10FFFF ==> exists|i: int| group_maps(groups_from(m, k), i, m[j].0 as int, m[j].1 as int),
    decreases k,
{
    if k > 0 {
        lemma_groups_build(m, k - 1);
        let gs = groups_from(m, k - 1);
        let (c, g) = m[k - 1];
        let g2 = groups_from(m, k);
        assert(m[k - 1].0 <= 0x10FFFF);
        if gs.len() > 0 && c == gs.last().1 + 1 && g == gs.last().2 + (gs.last().1 - gs.last().0) + 1 {
            let n = gs.len() - 1;
            assert(g2 == gs.update(n, (gs[n].0, c, gs[n].2)));
            assert forall|i: int, j: int| 0 <= i < j < g2.len() implies (#[trigger] g2[i]).1 < (#[trigger] g2[j]).0 by {
                assert(gs[i].1 < gs[j].0);
            }
            assert(m[k - 1].0 == g2.last().1);
            assert forall|j: int| 0 <= j < k && (#[trigger] m[j]).0 <= 0x10FFFF implies exists|i: int| group_maps(g2, i, m[j].0 as int, m[j].1 as int) by {
                if j == k - 1 {
                    assert(group_maps(g2, n, c as int, g as int));
                } else {
                    let i = choose|i: int| group_maps(gs, i, m[j].0 as int, m[j].1 as int);
                    assert(group_maps(g2, i, m[j].0 as int, m[j].1 as int));
                }
            }
        } else {
            assert(g2 == gs.push((c, c, g as u32)));
            if gs.len() > 0 {
                let jw = choose|j: int| 0 <= j < k - 1 && #[trigger] m[j].0 == gs.last().1;
                assert(m[jw].0 < m[k - 1].0);
                assert forall|i: int| 0 <= i < gs.len() implies (#[trigger] gs[i]).1 < c by {
                    if i < gs.len() - 1 {
                        assert(gs[i].1 < gs[gs.len() - 1].0);
                    }
                }
            }
            assert forall|i: int, j: int| 0 <= i < j < g2.len() implies (#[trigger] g2[i]).1 < (#[trigger] g2[j]).0 by {
                if j < gs.len() {
                    assert(gs[i].1 < gs[j].0);
                } else {
                    assert(g2[i] == gs[i]);
                }
            }
            assert(m[k - 1].0 == g2.last().1);
            assert forall|j: int| 0 <= j < k && (#[trigger] m[j]).0 <= 0x10FFFF implies exists|i: int| group_maps(g2, i, m[j].0 as int, m[j].1 as int) by {
                if j == k - 1 {
                    assert(group_maps(g2, gs.len() as int, c as int, g as int));
                } else {
                    let i = choose|i: int| group_maps(gs, i, m[j].0 as int, m[j].1 as int);
                    assert(g2[i] == gs[i]);
                    assert(group_maps(g2, i, m[j].0 as int, m[j].1 as int));
                }
            }
        }
    }
}

proof fn lemma_groups_bytes_len(gs: Seq<(u32, u32, u32)>)
    ensures
        groups_bytes(gs).len() == 12 * gs.len(),
    decreases gs.len(),
{
    if gs.len() > 0 {
        lemma_groups_bytes_len(gs.drop_last());
    }
}

/// The big-endian word `word32` writes reads back.
proof fn lemma_word32_reads(d: Seq<u8>, o: int, v: int)
    requires
        0 <= v < 0x1_0000_0000,
        0 <= o,
        o + 4 <= d.len(),
        d[o] == word32(v)[0] && d[o + 1] == word32(v)[1] && d[o + 2] == word32(v)[2] && d[o + 3] == word32(v)[3],
    ensures
        u32_at(d, o) == Some(v),
{
    let x = v as u32;
    assert(((((x / 0x1000000) % 256) * 256 + (x / 0x10000) % 256) * 256 + (x / 256) % 256) * 256 + x % 256 == x)
        by (bit_vector);
}

/// Group `i` lies, as three words, at `12 * i` in the groups' bytes.
proof fn lemma_group_bytes(gs: Seq<(u32, u32, u32)>, i: int)
    requires
        0 <= i < gs.len(),
    ensures
        groups_bytes(gs).subrange(12 * i, 12 * i + 12) == word32(gs[i].0 as int) + word32(gs[i].1 as int) + word32(gs[i].2 as int),
    decreases gs.len(),
{
    lemma_groups_bytes_len(gs);
    lemma_groups_bytes_len(gs.drop_last());
    let x = gs.last();
    let prev = groups_bytes(gs.drop_last());
    let tail = word32(x.0 as int) + word32(x.1 as int) + word32(x.2 as int);
    assert(groups_bytes(gs) == prev + tail);
    if i < gs.len() - 1 {
        lemma_group_bytes(gs.drop_last(), i);
        assert(groups_bytes(gs).subrange(12 * i, 12 * i + 12) =~= prev.subrange(12 * i, 12 * i + 12));
        assert(gs.drop_last()[i] == gs[i]);
    } else {
        assert(groups_bytes(gs).subrange(12 * i, 12 * i + 12) =~= tail);
    }
}

/// The reader finds a group's three fields where the subtable holds them.
proof fn lemma_read_group(t: Seq<u8>, gs: Seq<(u32, u32, u32)>, i: int)
    requires
        0 <= i < gs.len(),
        t.len() == 16 + 12 * gs.len(),
        t.subrange(16, t.len() as int) == groups_bytes(gs),
    ensures
        u32_at(t, 16 + i * 12) == Some(gs[i].0 as int),
        u32_at(t, 16 + i * 12 + 4) == Some(gs[i].1 as int),
        u32_at(t, 16 + i * 12 + 8) == Some(gs[i].2 as int),
{
    lemma_group_bytes(gs, i);
    let rec = word32(gs[i].0 as int) + word32(gs[i].1 as int) + word32(gs[i].2 as int);
    let o = 16 + 12 * i;
    assert forall|k: int| 0 <= k < 12 implies t[o + k] == rec[k] by {
        assert(t[o + k] == groups_bytes(gs)[12 * i + k]);
        assert(groups_bytes(gs)[12 * i + k] == groups_bytes(gs).subrange(12 * i, 12 * i + 12)[k]);
    }
    let w0 = word32(gs[i].0 as int);
    let w1 = word32(gs[i].1 as int);
    let w2 = word32(gs[i].2 as int);
    assert(t[o] == w0[0] && t[o + 1] == w0[1] && t[o + 2] == w0[2] && t[o + 3] == w0[3]) by {
        assert(t[o] == rec[0] && t[o + 1] == rec[1] && t[o + 2] == rec[2] && t[o + 3] == rec[3]);
    }
    assert(t[o + 4] == w1[0] && t[o + 5] == w1[1] && t[o + 6] == w1[2] && t[o + 7] == w1[3]) by {
        assert(t[o + 4] == rec[4] && t[o + 5] == rec[5] && t[o + 6] == rec[6] && t[o + 7] == rec[7]);
    }
    assert(t[o + 8] == w2[0] && t[o + 9] == w2[1] && t[o + 10] == w2[2] && t[o + 11] == w2[3]) by {
        assert(t[o + 8] == rec[8] && t[o + 9] == rec[9] && t[o + 10] == rec[10] && t[o + 11] == rec[11]);
    }
    lemma_word32_reads(t, o, gs[i].0 as int);
    lemma_word32_reads(t, o + 4, gs[i].1 as int);
    lemma_word32_reads(t, o + 8, gs[i].2 as int);
    assert(o == 16 + i * 12);
}

/// The reader's binary search over ordered groups finds the group
/// holding `c`.
proof fn lemma_search(t: Seq<u8>, gs: Seq<(u32, u32, u32)>, c: int, g: int, lo: int, hi: int, target: int)
    requires
        groups_ordered(gs),
        0 <= lo <= target < hi <= gs.len(),
        group_maps(gs, target, c, g),
        0 <= g <= 0xFFFF,
        forall|i: int| 0 <= i < gs.len() ==> u32_at(t, 16 + i * 12) == Some((#[trigger] gs[i]).0 as int)
            && u32_at(t, 16 + i * 12 + 4) == Some(gs[i].1 as int) && u32_at(t, 16 + i * 12 + 8) == Some(gs[i].2 as int),
    ensures
        format12_search(t, c, lo, hi) == Some(g),
    decreases hi - lo,
{
    let mid = (lo + hi) / 2;
    assert(u32_at(t, 16 + mid * 12) == Some(gs[mid].0 as int));
    if c < gs[mid].0 {
        if mid <= target {
            if mid < target {
                assert(gs[mid].1 < gs[target].0);
            }
        }
        lemma_search(t, gs, c, g, lo, mid, target);
    } else if c > gs[mid].1 {
        if mid >= target {
            if mid > target {
                assert(gs[target].1 < gs[mid].0);
            }
        }
        lemma_search(t, gs, c, g, mid + 1, hi, target);
    } else {
        if mid < target {
            assert(gs[mid].1 < gs[target].0);
        }
        if mid > target {
            assert(gs[target].1 < gs[mid].0);
        }
    }
}

/// Where the format 12 subtable's fields lie.
#[verifier::spinoff_prover]
#[verifier::rlimit(30)]
proof fn lemma_f12_layout(m: Seq<(u32, u16)>)
    requires
        groups_from(m, m.len() as int).len() <= m.len(),
        m.len() < 0x1000_0000,
    ensures
        ({
            let t = format12_spec(m);
            let gs = groups_from(m, m.len() as int);
            &&& u16_at(t, 0) == Some(12int)
            &&& u32_at(t, 12) == Some(gs.len() as int)
            &&& forall|i: int| 0 <= i < gs.len() ==> u32_at(t, 16 + i * 12) == Some((#[trigger] gs[i]).0 as int)
                && u32_at(t, 16 + i * 12 + 4) == Some(gs[i].1 as int) && u32_at(t, 16 + i * 12 + 8) == Some(gs[i].2 as int)
        }),
{
    let gs = groups_from(m, m.len() as int);
    let t = format12_spec(m);
    lemma_groups_bytes_len(gs);
    let gl = gs.len() as int;
    assert(gl % 0x1_0000_0000 == gl);
    let head = word16(12) + word16(0) + word32((16 + 12 * gl) % 0x1_0000_0000) + word32(0) + word32(gl % 0x1_0000_0000);
    assert(t == head + groups_bytes(gs));
    assert(head.len() == 16);
    assert(t.subrange(16, t.len() as int) =~= groups_bytes(gs));
    assert forall|i: int| 0 <= i < gs.len() implies u32_at(t, 16 + i * 12) == Some((#[trigger] gs[i]).0 as int)
        && u32_at(t, 16 + i * 12 + 4) == Some(gs[i].1 as int) && u32_at(t, 16 + i * 12 + 8) == Some(gs[i].2 as int) by {
        lemma_read_group(t, gs, i);
    }
    assert(t[12] == word32(gl)[0] && t[13] == word32(gl)[1] && t[14] == word32(gl)[2] && t[15] == word32(gl)[3]);
    lemma_word32_reads(t, 12, gl);
    assert(t[0] == word16(12)[0] && t[1] == word16(12)[1]);
    lemma_word16_reads(12);
}

/// A written format 12 subtable maps every character of the mapping to
/// its glyph: the reader's binary search gives back exactly the glyph the
/// mapping gave the character. The characters must ascend and be Unicode
/// scalar values.
#[verifier::spinoff_prover]
pub proof fn lemma_format12_maps(m: Seq<(u32, u16)>, j: int)
    requires
        chars_ascend(m),
        chars_ok(m),
        0 <= j < m.len(),
    ensures
        u16_at(format12_spec(m), 0) == Some(12int),
        format12(format12_spec(m), m[j].0 as int) == Some(m[j].1 as int),
{
    let n = m.len() as int;
    lemma_groups_build(m, n);
    lemma_ascending_bound(m);
    lemma_f12_layout(m);
    let gs = groups_from(m, n);
    let t = format12_spec(m);
    let c = m[j].0 as int;
    assert(m[j].0 <= 0x10FFFF);
    let i = choose|i: int| group_maps(gs, i, c, m[j].1 as int);
    lemma_search(t, gs, c, m[j].1 as int, 0, gs.len() as int, i);
}

/// Strictly ascending scalar values are fewer than there are scalar values.
proof fn lemma_ascending_bound(m: Seq<(u32, u16)>)
    requires
        chars_ascend(m),
        chars_ok(m),
    ensures
        m.len() <= 0x110000,
{
    if m.len() > 0x110000 {
        lemma_ascend_grows(m, 0x110000);
        assert(m[0x110000].0 <= 0x10FFFF);
    }
}

proof fn lemma_ascend_grows(m: Seq<(u32, u16)>, k: int)
    requires
        chars_ascend(m),
        0 <= k < m.len(),
    ensures
        m[k].0 >= k,
    decreases k,
{
    if k > 0 {
        lemma_ascend_grows(m, k - 1);
        assert(m[k - 1].0 < m[k].0);
    }
}

// ------------------------------------------------------------ whole cmap

proof fn lemma_at16(pre: Seq<u8>, v: int, post: Seq<u8>)
    requires
        0 <= v < 0x10000,
    ensures
        u16_at(pre + word16(v) + post, pre.len() as int) == Some(v),
{
    let d = pre + word16(v) + post;
    assert(d[pre.len() as int] == word16(v)[0]);
    assert(d[pre.len() as int + 1] == word16(v)[1]);
    lemma_word16_reads(v);
}

proof fn lemma_at32(pre: Seq<u8>, v: int, post: Seq<u8>)
    requires
        0 <= v < 0x1_0000_0000,
    ensures
        u32_at(pre + word32(v) + post, pre.len() as int) == Some(v),
{
    let d = pre + word32(v) + post;
    let o = pre.len() as int;
    assert(d[o] == word32(v)[0] && d[o + 1] == word32(v)[1] && d[o + 2] == word32(v)[2] && d[o + 3] == word32(v)[3]);
    lemma_word32_reads(d, o, v);
}

/// A `cmap` table with one format 4 subtable, reachable from the Unicode
/// and the Windows BMP records.
pub open spec fn narrow_cmap(f4: Seq<u8>) -> Seq<u8> {
    word16(0) + word16(2) + (word16(0) + word16(3) + word32(20) + word16(3) + word16(1) + word32(20)) + f4
}

/// A `cmap` table with a format 4 and a format 12 subtable, the latter
/// reachable from the full-repertoire records.
pub open spec fn wide_cmap(f4: Seq<u8>, f12: Seq<u8>) -> Seq<u8> {
    let off12 = 36 + f4.len() as int;
    word16(0) + word16(4) + (word16(0) + word16(3) + word32(36) + word16(3) + word16(1) + word32(36)) + (word16(0)
        + word16(4) + word32(off12) + word16(3) + word16(10) + word32(off12)) + f4 + f12
}

#[verifier::spinoff_prover]
#[verifier::rlimit(40)]
proof fn lemma_narrow_reads(f4: Seq<u8>)
    requires
        u16_at(f4, 0) == Some(4int),
    ensures
        ({
            let t = narrow_cmap(f4);
            &&& t.len() >= 20
            &&& t.skip(20) == f4
            &&& u16_at(t, 2) == Some(2int)
            &&& u16_at(t, 4) == Some(0int)
            &&& u16_at(t, 6) == Some(3int)
            &&& u32_at(t, 8) == Some(20int)
            &&& u16_at(t, 12) == Some(3int)
            &&& u16_at(t, 14) == Some(1int)
            &&& u32_at(t, 16) == Some(20int)
            &&& u16_at(t, 20) == Some(4int)
        }),
{
    let t = narrow_cmap(f4);
    let h = word16(0) + word16(2);
    assert(t =~= h + word16(0) + word16(3) + word32(20) + word16(3) + word16(1) + word32(20) + f4);
    lemma_at16(word16(0), 2, word16(0) + word16(3) + word32(20) + word16(3) + word16(1) + word32(20) + f4);
    lemma_at16(h, 0, word16(3) + word32(20) + word16(3) + word16(1) + word32(20) + f4);
    lemma_at16(h + word16(0), 3, word32(20) + word16(3) + word16(1) + word32(20) + f4);
    lemma_at32(h + word16(0) + word16(3), 20, word16(3) + word16(1) + word32(20) + f4);
    lemma_at16(h + word16(0) + word16(3) + word32(20), 3, word16(1) + word32(20) + f4);
    lemma_at16(h + word16(0) + word16(3) + word32(20) + word16(3), 1, word32(20) + f4);
    lemma_at32(h + word16(0) + word16(3) + word32(20) + word16(3) + word16(1), 20, f4);
    assert(t.skip(20) =~= f4);
    assert(t[20] == f4[0] && t[21] == f4[1]);
}

/// The reader picks the format 4 subtable of a narrow `cmap`.
#[verifier::spinoff_prover]
proof fn lemma_narrow_picks(f4: Seq<u8>)
    requires
        u16_at(f4, 0) == Some(4int),
    ensures
        best_subtable(narrow_cmap(f4)) == Some(f4),
{
    lemma_narrow_reads(f4);
    let t = narrow_cmap(f4);
    reveal_with_fuel(best_record, 3);
    assert(cmap_offset(t, 0) == 20 && cmap_offset(t, 1) == 20);
    assert(record_score(t, 0) == 2);
    assert(record_score(t, 1) == 3);
    assert(best_record(t, 2) == Some(1int));
}

#[verifier::spinoff_prover]
#[verifier::rlimit(60)]
proof fn lemma_wide_reads(f4: Seq<u8>, f12: Seq<u8>)
    requires
        u16_at(f4, 0) == Some(4int),
        u16_at(f12, 0) == Some(12int),
        f4.len() < 0x1000_0000,
    ensures
        ({
            let t = wide_cmap(f4, f12);
            let off12 = 36 + f4.len() as int;
            &&& t.len() >= off12
            &&& t.skip(off12) == f12
            &&& u16_at(t, 2) == Some(4int)
            &&& u16_at(t, 4) == Some(0int)
            &&& u16_at(t, 6) == Some(3int)
            &&& u32_at(t, 8) == Some(36int)
            &&& u16_at(t, 12) == Some(3int)
            &&& u16_at(t, 14) == Some(1int)
            &&& u32_at(t, 16) == Some(36int)
            &&& u16_at(t, 20) == Some(0int)
            &&& u16_at(t, 22) == Some(4int)
            &&& u32_at(t, 24) == Some(off12)
            &&& u16_at(t, 28) == Some(3int)
            &&& u16_at(t, 30) == Some(10int)
            &&& u32_at(t, 32) == Some(off12)
            &&& u16_at(t, 36) == Some(4int)
            &&& u16_at(t, off12) == Some(12int)
        }),
{
    let t = wide_cmap(f4, f12);
    let off12: int = 36 + f4.len() as int;
    let h = word16(0) + word16(4);
    let r0 = word16(0) + word16(3);
    let r1 = word16(3) + word16(1);
    let r2 = word16(0) + word16(4);
    let r3 = word16(3) + word16(10);
    let tail = f4 + f12;
    assert(t =~= h + r0 + word32(36) + r1 + word32(36) + r2 + word32(off12) + r3 + word32(off12) + tail);
    lemma_at16(word16(0), 4, r0 + word32(36) + r1 + word32(36) + r2 + word32(off12) + r3 + word32(off12) + tail);
    lemma_at16(h, 0, word16(3) + word32(36) + r1 + word32(36) + r2 + word32(off12) + r3 + word32(off12) + tail);
    lemma_at16(h + word16(0), 3, word32(36) + r1 + word32(36) + r2 + word32(off12) + r3 + word32(off12) + tail);
    lemma_at32(h + r0, 36, r1 + word32(36) + r2 + word32(off12) + r3 + word32(off12) + tail);
    lemma_at16(h + r0 + word32(36), 3, word16(1) + word32(36) + r2 + word32(off12) + r3 + word32(off12) + tail);
    lemma_at16(h + r0 + word32(36) + word16(3), 1, word32(36) + r2 + word32(off12) + r3 + word32(off12) + tail);
    lemma_at32(h + r0 + word32(36) + r1, 36, r2 + word32(off12) + r3 + word32(off12) + tail);
    lemma_at16(h + r0 + word32(36) + r1 + word32(36), 0, word16(4) + word32(off12) + r3 + word32(off12) + tail);
    lemma_at16(h + r0 + word32(36) + r1 + word32(36) + word16(0), 4, word32(off12) + r3 + word32(off12) + tail);
    lemma_at32(h + r0 + word32(36) + r1 + word32(36) + r2, off12, r3 + word32(off12) + tail);
    lemma_at16(h + r0 + word32(36) + r1 + word32(36) + r2 + word32(off12), 3, word16(10) + word32(off12) + tail);
    lemma_at16(h + r0 + word32(36) + r1 + word32(36) + r2 + word32(off12) + word16(3), 10, word32(off12) + tail);
    lemma_at32(h + r0 + word32(36) + r1 + word32(36) + r2 + word32(off12) + r3, off12, tail);
    assert(t.skip(off12) =~= f12);
    assert(t[36] == f4[0] && t[37] == f4[1]);
    assert(t[off12] == f12[0] && t[off12 + 1] == f12[1]);
}

/// The reader picks the format 12 subtable of a wide `cmap`.
#[verifier::spinoff_prover]
proof fn lemma_wide_picks(f4: Seq<u8>, f12: Seq<u8>)
    requires
        u16_at(f4, 0) == Some(4int),
        u16_at(f12, 0) == Some(12int),
        f4.len() < 0x1000_0000,
    ensures
        best_subtable(wide_cmap(f4, f12)) == Some(f12),
{
    lemma_wide_reads(f4, f12);
    let t = wide_cmap(f4, f12);
    let off12: int = 36 + f4.len() as int;
    reveal_with_fuel(best_record, 5);
    assert(cmap_offset(t, 0) == 36 && cmap_offset(t, 1) == 36);
    assert(cmap_offset(t, 2) == off12 && cmap_offset(t, 3) == off12);
    assert(record_score(t, 0) == 2);
    assert(record_score(t, 1) == 3);
    assert(record_score(t, 2) == 4);
    assert(record_score(t, 3) == 5);
    assert(best_record(t, 4) == Some(3int));
}

/// The written `cmap` is the narrow or the wide one.
#[verifier::spinoff_prover]
#[verifier::rlimit(40)]
proof fn lemma_cmap_shape(m: Seq<(u32, u16)>, f4: Seq<u8>, f12: Seq<u8>)
    requires
        format4_spec(m) == Some(f4),
        format12_spec(m) == f12,
        f4.len() < 0x1000_0000,
    ensures
        cmap_spec(m) == Some(if needs_format12(m) { wide_cmap(f4, f12) } else { narrow_cmap(f4) }),
{
    let wide = needs_format12(m);
    let nrec: int = if wide { 4 } else { 2 };
    let header = 4 + nrec * 8;
    let rec4 = word16(0) + word16(3) + word32(header) + word16(3) + word16(1) + word32(header);
    let off12 = (header + f4.len()) % 0x1_0000_0000;
    let rec12 = word16(0) + word16(4) + word32(off12) + word16(3) + word16(10) + word32(off12);
    let e = Seq::<u8>::empty();
    let whole = word16(0) + word16(nrec) + rec4 + (if wide { rec12 } else { e }) + f4 + (if wide { f12 } else { e });
    assert(cmap_spec(m) == Some(whole));
    if wide {
        assert(off12 == 36 + f4.len() as int);
        assert(whole == wide_cmap(f4, f12));
    } else {
        assert(whole =~= narrow_cmap(f4));
    }
}

/// A written `cmap` table maps every character of the mapping to its
/// glyph: the reader picks its preferred subtable and looks the character
/// up there, and gets back the glyph the mapping gave it. The characters
/// must ascend and be Unicode scalar values, the mapping short enough for
/// format 4, and `U+FFFF` (which format 4 reserves) is mapped only when a
/// character lies above the BMP and format 12 is written.
pub proof fn lemma_cmap_maps(m: Seq<(u32, u16)>, j: int, c: char)
    requires
        chars_ascend(m),
        chars_ok(m),
        m.len() <= 32766,
        0 <= j < m.len(),
        c as u32 == m[j].0,
        m[j].0 != 0xFFFF || needs_format12(m),
    ensures
        cmap_spec(m) is Some,
        best_subtable(cmap_spec(m).unwrap()) matches Some(st) && lookup(st, c) == Some(m[j].1 as int),
{
    lemma_all_segs(m);
    lemma_layout(m);
    lemma_format12_maps(m, j);
    let f4 = format4_spec(m).unwrap();
    let f12 = format12_spec(m);
    lemma_cmap_shape(m, f4, f12);
    if needs_format12(m) {
        lemma_wide_picks(f4, f12);
    } else {
        lemma_narrow_picks(f4);
        assert(m[j].0 <= 0xFFFF);
        lemma_format4_maps(m, j);
    }
}

} // verus!
