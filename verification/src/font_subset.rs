//! Glyph-level subsetting: rebuilding a TrueType or CFF-flavoured OpenType
//! font so that it carries only the glyphs needed to draw a given set of
//! characters. Every read is bounds-checked, and anything this module does
//! not fully understand makes `subset` answer `None` (embed the original)
//! rather than a half-built font.

use vstd::prelude::*;
use crate::bytes::push_range;
use crate::font::{u16_at, u32_at, lookup, table_bytes, best_subtable, directory_ok, find_record, record_at, table_count};
use crate::font::{u16at, u32at, table, best_cmap_subtable, lookup_char, lemma_lookup_range};

verus! {

// ------------------------------------------------------------ byte layout

/// The low 16 bits of `v`, big-endian.
pub open spec fn word16(v: int) -> Seq<u8> {
    seq![((v / 256) % 256) as u8, (v % 256) as u8]
}

/// The low 32 bits of `v`, big-endian.
pub open spec fn word32(v: int) -> Seq<u8> {
    seq![((v / 0x1000000) % 256) as u8, ((v / 0x10000) % 256) as u8, ((v / 256) % 256) as u8, (v % 256) as u8]
}

/// `256` to the power `k`, for the byte widths used here (`k <= 4`).
pub open spec fn pow256(k: int) -> int {
    if k <= 0 {
        1
    } else if k == 1 {
        256
    } else if k == 2 {
        0x10000
    } else if k == 3 {
        0x1000000
    } else {
        0x100000000
    }
}

/// The low `8 n` bits of `v` as `n` big-endian bytes (`n <= 4`).
pub open spec fn uint_bytes(v: int, n: int) -> Seq<u8> {
    Seq::new(n as nat, |j: int| ((v / pow256(n - 1 - j)) % 256) as u8)
}

/// The big-endian unsigned number in the `n` bytes at `o`, if they are
/// there.
pub open spec fn uint_at(d: Seq<u8>, o: int, n: int) -> Option<int>
    decreases n,
{
    if n <= 0 {
        Some(0)
    } else if !(0 <= o && o + n <= d.len()) {
        None
    } else {
        match uint_at(d, o, n - 1) {
            Some(v) => Some(v * 256 + d[o + n - 1]),
            None => None,
        }
    }
}

/// The contents of a list of byte buffers.
pub open spec fn views(v: Seq<Vec<u8>>) -> Seq<Seq<u8>> {
    Seq::new(v.len(), |i: int| v[i]@)
}

/// Appends `x` as two big-endian bytes.
pub fn push_u16(out: &mut Vec<u8>, x: u16)
    ensures
        final(out)@ == old(out)@ + word16(x as int),
{
    out.push((x / 256) as u8);
    out.push((x % 256) as u8);
    assert(final(out)@ =~= old(out)@ + word16(x as int));
}

/// Appends `x` as four big-endian bytes.
pub fn push_u32(out: &mut Vec<u8>, x: u32)
    ensures
        final(out)@ == old(out)@ + word32(x as int),
{
    out.push((x / 0x1000000) as u8);
    out.push(((x / 0x10000) % 256) as u8);
    out.push(((x / 256) % 256) as u8);
    out.push((x % 256) as u8);
    assert(final(out)@ =~= old(out)@ + word32(x as int));
}

/// Appends the low `8 n` bits of `v` as `n` big-endian bytes.
fn push_uint(out: &mut Vec<u8>, v: u128, n: usize)
    requires
        1 <= n <= 4,
    ensures
        final(out)@ == old(out)@ + uint_bytes(v as int, n as int),
{
    let mut k: usize = 0;
    while k < n
        invariant
            k <= n <= 4,
            out@ == old(out)@ + uint_bytes(v as int, n as int).take(k as int),
        decreases n - k,
    {
        let shift = n - 1 - k;
        let div: u128 = if shift == 0 {
            1
        } else if shift == 1 {
            256
        } else if shift == 2 {
            0x10000
        } else {
            0x1000000
        };
        out.push(((v / div) % 256) as u8);
        assert(uint_bytes(v as int, n as int).take(k + 1) =~= uint_bytes(v as int, n as int).take(k as int).push(
            ((v / div) % 256) as u8,
        ));
        k += 1;
    }
    assert(uint_bytes(v as int, n as int).take(n as int) =~= uint_bytes(v as int, n as int));
}

/// The big-endian number in the `n` bytes at `o`.
fn read_uint(d: &[u8], o: usize, n: usize) -> (r: Option<u32>)
    requires
        1 <= n <= 4,
    ensures
        match uint_at(d@, o as int, n as int) {
            Some(v) => r == Some(v as u32) && 0 <= v < pow256(n as int),
            None => r is None,
        },
{
    if o > d.len() || d.len() - o < n {
        proof {
            assert(uint_at(d@, o as int, n as int) is None);
        }
        return None;
    }
    let mut v: u32 = 0;
    let mut k: usize = 0;
    while k < n
        invariant
            k <= n <= 4,
            o + n <= d@.len(),
            uint_at(d@, o as int, k as int) == Some(v as int),
            v < pow256(k as int),
        decreases n - k,
    {
        proof {
            assert(uint_at(d@, o as int, k + 1) == Some(v * 256 + d@[o + k]));
            assert(pow256(k + 1) == pow256(k as int) * 256);
            let b = d@[o + k] as int;
            let p = pow256(k as int);
            assert(v * 256 + b < p * 256) by (nonlinear_arith)
                requires
                    v < p,
                    0 <= b < 256,
            ;
        }
        assert(o + k < d.len());
        v = v * 256 + d[o + k] as u32;
        k += 1;
    }
    Some(v)
}

/// A copy of `d[start .. start + len]`.
fn copy_range(d: &[u8], start: usize, len: usize) -> (r: Vec<u8>)
    requires
        start + len <= d@.len(),
    ensures
        r@ == d@.subrange(start as int, start + len),
{
    let mut out: Vec<u8> = Vec::new();
    assert(start + len <= d.len());
    push_range(&mut out, d, start, start + len);
    assert(out@ =~= d@.subrange(start as int, start + len));
    out
}


// ------------------------------------------------------------ CFF INDEX

/// Offset `i` of the CFF INDEX at `p` whose offsets are `sz` bytes wide.
pub open spec fn index_offset(d: Seq<u8>, p: int, sz: int, i: int) -> Option<int> {
    uint_at(d, p + 3 + i * sz, sz)
}

/// The same offset, taken as read.
pub open spec fn index_off(d: Seq<u8>, p: int, sz: int, i: int) -> int {
    index_offset(d, p, sz, i).unwrap()
}

/// Where the data of the INDEX at `p` starts, less one (its offsets count
/// from 1).
pub open spec fn index_data(p: int, count: int, sz: int) -> int {
    p + 3 + (count + 1) * sz - 1
}

/// Whether offsets `0 ..= count` of the INDEX at `p` can all be read.
pub open spec fn offsets_readable(d: Seq<u8>, p: int, sz: int, count: int) -> bool {
    forall|i: int| 0 <= i <= count ==> #[trigger] index_offset(d, p, sz, i) is Some
}

/// Whether item `i` of the INDEX at `p` is well formed: its offsets start
/// at 1 or later, do not go backwards, and stay inside `d`.
pub open spec fn item_ok(d: Seq<u8>, p: int, sz: int, data: int, i: int) -> bool {
    1 <= index_off(d, p, sz, i) && index_off(d, p, sz, i) <= index_off(d, p, sz, i + 1) && data + index_off(
        d,
        p,
        sz,
        i + 1,
    ) <= d.len()
}

/// Item `i` of the INDEX at `p`.
pub open spec fn index_item(d: Seq<u8>, p: int, sz: int, data: int, i: int) -> Seq<u8> {
    d.subrange(data + index_off(d, p, sz, i), data + index_off(d, p, sz, i + 1))
}

/// The CFF INDEX at `p`: its items and the position just past it. `None`
/// when its count, offset size or any offset cannot be read, an offset
/// size is outside 1..4, an item's offsets go backwards or start below 1,
/// or an item runs past the end of `d`.
pub open spec fn read_index_spec(d: Seq<u8>, p: int) -> Option<(Seq<Seq<u8>>, int)> {
    match u16_at(d, p) {
        None => None,
        Some(count) => if count == 0 {
            Some((Seq::empty(), p + 2))
        } else if !(p + 2 < d.len()) {
            None
        } else {
            let sz = d[p + 2] as int;
            let data = index_data(p, count, sz);
            if !(1 <= sz <= 4) || !offsets_readable(d, p, sz, count) {
                None
            } else if exists|i: int| 0 <= i < count && !#[trigger] item_ok(d, p, sz, data, i) {
                None
            } else {
                Some(
                    (
                        Seq::new(count as nat, |i: int| index_item(d, p, sz, data, i)),
                        data + index_off(d, p, sz, count),
                    ),
                )
            }
        },
    }
}

/// Offsets `0 ..= count` of the INDEX at `p`.
fn read_offsets(d: &[u8], p: usize, sz: usize, count: usize) -> (r: Option<Vec<u32>>)
    requires
        1 <= sz <= 4,
        count <= 0xFFFF,
        p + 3 <= d@.len(),
    ensures
        offsets_readable(d@, p as int, sz as int, count as int) <==> r is Some,
        r matches Some(v) ==> v@.len() == count + 1 && forall|j: int|
            0 <= j <= count ==> #[trigger] index_offset(d@, p as int, sz as int, j) == Some(v@[j] as int),
{
    let mut offs: Vec<u32> = Vec::new();
    let mut i: usize = 0;
    while i <= count
        invariant
            i <= count + 1,
            count <= 0xFFFF,
            1 <= sz <= 4,
            p + 3 <= d@.len(),
            offs@.len() == i,
            forall|j: int| 0 <= j < i ==> #[trigger] index_offset(d@, p as int, sz as int, j) == Some(offs@[j] as int),
        decreases count + 1 - i,
    {
        assert(p + 3 <= d.len());
        assert(i * sz <= 0x40000) by (nonlinear_arith)
            requires
                i <= 0x10000,
                sz <= 4,
        ;
        let rel = i * sz;
        if rel > d.len() - (p + 3) {
            assert(index_offset(d@, p as int, sz as int, i as int) is None);
            return None;
        }
        match read_uint(d, p + 3 + rel, sz) {
            Some(v) => {
                offs.push(v);
                assert(index_offset(d@, p as int, sz as int, i as int) == Some(v as int));
            },
            None => {
                assert(index_offset(d@, p as int, sz as int, i as int) is None);
                return None;
            },
        }
        i += 1;
    }
    Some(offs)
}

/// Reads the CFF INDEX at `p`.
pub fn read_index(d: &[u8], p: usize) -> (r: Option<(Vec<Vec<u8>>, usize)>)
    ensures
        match read_index_spec(d@, p as int) {
            Some((items, end)) => r matches Some((v, e)) && views(v@) == items && e == end,
            None => r is None,
        },
{
    let count = match u16at(d, p) {
        Some(c) => c as usize,
        None => {
            return None;
        },
    };
    assert(p + 2 <= d.len());
    assert(u16_at(d@, p as int) == Some(count as int));
    if count == 0 {
        return Some((Vec::new(), p + 2));
    }
    if p + 2 >= d.len() {
        return None;
    }
    let sz = d[p + 2] as usize;
    if sz < 1 || sz > 4 {
        return None;
    }
    let offs = match read_offsets(d, p, sz, count) {
        Some(o) => o,
        None => {
            return None;
        },
    };
    let ghost gd = d@;
    let ghost gp = p as int;
    let ghost gsz = sz as int;
    proof {
        assert(index_offset(gd, gp, gsz, count as int) is Some);
        assert(p + 3 + count * sz + sz <= d@.len());
        assert((count + 1) * sz == count * sz + sz) by (nonlinear_arith);
    }
    let data = p + 3 + (count + 1) * sz - 1;
    let mut items: Vec<Vec<u8>> = Vec::new();
    let mut i: usize = 0;
    while i < count
        invariant
            i <= count <= 0xFFFF,
            gd == d@,
            gp == p,
            gsz == sz,
            1 <= gsz <= 4,
            p + 2 < d@.len(),
            gsz == d@[p + 2] as int,
            u16_at(d@, p as int) == Some(count as int),
            offsets_readable(gd, gp, gsz, count as int),
            data == index_data(gp, count as int, gsz),
            data <= d@.len(),
            offs@.len() == count + 1,
            forall|j: int| 0 <= j <= count ==> #[trigger] index_offset(gd, gp, gsz, j) == Some(offs@[j] as int),
            forall|j: int| 0 <= j < i ==> #[trigger] item_ok(gd, gp, gsz, data as int, j),
            items@.len() == i,
            forall|j: int| 0 <= j < i ==> (#[trigger] items@[j])@ == index_item(gd, gp, gsz, data as int, j),
        decreases count - i,
    {
        let a = offs[i] as usize;
        let b = offs[i + 1] as usize;
        proof {
            assert(index_offset(gd, gp, gsz, i as int) == Some(offs@[i as int] as int));
            assert(index_offset(gd, gp, gsz, i + 1) == Some(offs@[i + 1] as int));
        }
        if a < 1 || b < a || b > d.len() - data {
            proof {
                assert(!item_ok(gd, gp, gsz, data as int, i as int));
                assert(read_index_spec(d@, p as int) is None);
            }
            return None;
        }
        items.push(copy_range(d, data + a, b - a));
        i += 1;
    }
    let last = offs[count] as usize;
    proof {
        assert(item_ok(gd, gp, gsz, data as int, count - 1));
        assert(index_offset(gd, gp, gsz, count as int) == Some(offs@[count as int] as int));
        assert(views(items@) =~= Seq::new(count as nat, |j: int| index_item(gd, gp, gsz, data as int, j)));
    }
    assert(last <= d.len() - data);
    Some((items, data + last))
}


/// The summed length of the buffers.
pub open spec fn total_len(items: Seq<Seq<u8>>) -> int
    decreases items.len(),
{
    if items.len() == 0 {
        0
    } else {
        total_len(items.drop_last()) + items.last().len()
    }
}

/// The buffers one after another.
pub open spec fn concat(items: Seq<Seq<u8>>) -> Seq<u8>
    decreases items.len(),
{
    if items.len() == 0 {
        Seq::empty()
    } else {
        concat(items.drop_last()) + items.last()
    }
}

/// The narrowest offset width, in bytes, that holds `last`.
pub open spec fn off_size_for(last: int) -> int {
    if last <= 0xFF {
        1
    } else if last <= 0xFFFF {
        2
    } else if last <= 0xFF_FFFF {
        3
    } else {
        4
    }
}

/// The first `k` entries of an INDEX's offset array: item `i` starts at
/// `1` plus the lengths of the items before it.
pub open spec fn offset_array(items: Seq<Seq<u8>>, sz: int, k: int) -> Seq<u8>
    decreases k,
{
    if k <= 0 {
        Seq::empty()
    } else {
        offset_array(items, sz, k - 1) + uint_bytes(1 + total_len(items.take(k - 1)), sz)
    }
}

/// A CFF INDEX holding `items`: the count, the offset width, the offsets
/// (one per item plus the end), then the data. No items is just a zero
/// count.
#[verifier::opaque]
pub open spec fn write_index_spec(items: Seq<Seq<u8>>) -> Seq<u8> {
    if items.len() == 0 {
        word16(0)
    } else {
        let sz = off_size_for(total_len(items) + 1);
        word16(items.len() as int) + seq![sz as u8] + offset_array(items, sz, items.len() + 1int) + concat(items)
    }
}

proof fn lemma_total_len_push(items: Seq<Seq<u8>>, i: int)
    requires
        0 <= i < items.len(),
    ensures
        total_len(items.take(i + 1)) == total_len(items.take(i)) + items[i].len(),
        concat(items.take(i + 1)) == concat(items.take(i)) + items[i],
        total_len(items.take(i)) >= 0,
    decreases i,
{
    assert(items.take(i + 1).drop_last() =~= items.take(i));
    if i > 0 {
        lemma_total_len_push(items, i - 1);
    }
}

/// Lays `items` out as a CFF INDEX. (A count past 65535 keeps its low 16
/// bits, and offsets their low bits, as the format's fields do.)
#[verifier::rlimit(40)]
pub fn write_index(items: &Vec<Vec<u8>>) -> (r: Vec<u8>)
    ensures
        r@ == write_index_spec(views(items@)),
{
    reveal(write_index_spec);
    let ghost its = views(items@);
    let mut out: Vec<u8> = Vec::new();
    if items.len() == 0 {
        push_u16(&mut out, 0);
        assert(out@ =~= word16(0));
        return out;
    }
    let mut total: u128 = 1;
    let mut i: usize = 0;
    while i < items.len()
        invariant
            i <= items@.len(),
            its == views(items@),
            total == 1 + total_len(its.take(i as int)),
            total <= 1 + i * 0x1_0000_0000_0000_0000,
        decreases items@.len() - i,
    {
        proof {
            lemma_total_len_push(its, i as int);
        }
        let n = items[i].len() as u128;
        assert(n < 0x1_0000_0000_0000_0000);
        assert(i * 0x1_0000_0000_0000_0000 + 0x1_0000_0000_0000_0000 == (i + 1) * 0x1_0000_0000_0000_0000) by (nonlinear_arith);
        assert((i + 1) * 0x1_0000_0000_0000_0000 <= 0x1_0000_0000_0000_0000 * 0x1_0000_0000_0000_0000) by (nonlinear_arith)
            requires
                i < 0x1_0000_0000_0000_0000,
        ;
        total = total + n;
        i += 1;
    }
    assert(its.take(its.len() as int) =~= its);
    let sz: usize = if total <= 0xFF {
        1
    } else if total <= 0xFFFF {
        2
    } else if total <= 0xFF_FFFF {
        3
    } else {
        4
    };
    push_u16(&mut out, (items.len() % 0x10000) as u16);
    out.push(sz as u8);
    let ghost head = out@;
    let mut acc: u128 = 1;
    push_uint(&mut out, acc, sz);
    assert(its.take(0) =~= Seq::<Seq<u8>>::empty());
    assert(offset_array(its, sz as int, 1) =~= offset_array(its, sz as int, 0) + uint_bytes(1, sz as int));
    i = 0;
    while i < items.len()
        invariant
            i <= items@.len(),
            1 <= sz <= 4,
            its == views(items@),
            total == 1 + total_len(its),
            acc == 1 + total_len(its.take(i as int)),
            out@ == head + offset_array(its, sz as int, i + 1),
        decreases items@.len() - i,
    {
        proof {
            lemma_total_len_push(its, i as int);
            lemma_total_prefix_le(its, i + 1);
        }
        acc = acc + items[i].len() as u128;
        push_uint(&mut out, acc, sz);
        i += 1;
    }
    let ghost offs = out@;
    i = 0;
    while i < items.len()
        invariant
            i <= items@.len(),
            its == views(items@),
            out@ == offs + concat(its.take(i as int)),
        decreases items@.len() - i,
    {
        proof {
            lemma_total_len_push(its, i as int);
        }
        crate::bytes::push_all(&mut out, items[i].as_slice());
        proof {
            assert(out@ =~= offs + concat(its.take(i + 1)));
        }
        i += 1;
    }
    proof {
        lemma_word16_mod(items@.len() as int);
        assert(head =~= word16(items@.len() as int) + seq![sz as u8]);
        assert(out@ =~= write_index_spec(its));
    }
    out
}

/// A number below `256^n` reads back from its `n` bytes.
proof fn lemma_uint_round(d: Seq<u8>, o: int, v: int, n: int)
    requires
        1 <= n <= 4,
        0 <= v < pow256(n),
        0 <= o,
        o + n <= d.len(),
        d.subrange(o, o + n) == uint_bytes(v, n),
    ensures
        uint_at(d, o, n) == Some(v),
{
    reveal_with_fuel(uint_at, 5);
    let u = uint_bytes(v, n);
    assert(forall|j: int| 0 <= j < n ==> d[o + j] == #[trigger] u[j]) by {
        assert forall|j: int| 0 <= j < n implies d[o + j] == #[trigger] u[j] by {
            assert(d.subrange(o, o + n)[j] == d[o + j]);
        }
    }
    let x = v as u32;
    if n == 1 {
        assert(d[o] == u[0]);
        assert(u[0] == (v % 256) as u8);
    } else if n == 2 {
        assert(d[o] == u[0] && d[o + 1] == u[1]);
        assert(((x / 256) % 256) * 256 + x % 256 == x) by (bit_vector)
            requires
                x < 0x10000,
        ;
    } else if n == 3 {
        assert(d[o] == u[0] && d[o + 1] == u[1] && d[o + 2] == u[2]);
        assert((((x / 0x10000) % 256) * 256 + (x / 256) % 256) * 256 + x % 256 == x) by (bit_vector)
            requires
                x < 0x1000000,
        ;
    } else {
        assert(d[o] == u[0] && d[o + 1] == u[1] && d[o + 2] == u[2] && d[o + 3] == u[3]);
        assert(((((x / 0x1000000) % 256) * 256 + (x / 0x10000) % 256) * 256 + (x / 256) % 256) * 256 + x % 256 == x)
            by (bit_vector);
    }
}

/// Where each offset sits in an INDEX's offset array.
proof fn lemma_offset_array(items: Seq<Seq<u8>>, sz: int, k: int)
    requires
        1 <= sz <= 4,
        0 <= k,
    ensures
        offset_array(items, sz, k).len() == k * sz,
        forall|i: int| 0 <= i < k ==> #[trigger] offset_array(items, sz, k).subrange(i * sz, i * sz + sz) == uint_bytes(
            1 + total_len(items.take(i)),
            sz,
        ),
    decreases k,
{
    if k > 0 {
        lemma_offset_array(items, sz, k - 1);
        let prev = offset_array(items, sz, k - 1);
        let cur = offset_array(items, sz, k);
        assert((k - 1) * sz + sz == k * sz) by (nonlinear_arith);
        assert forall|i: int| 0 <= i < k implies #[trigger] cur.subrange(i * sz, i * sz + sz) == uint_bytes(
            1 + total_len(items.take(i)),
            sz,
        ) by {
            if i < k - 1 {
                assert(i * sz + sz <= (k - 1) * sz) by (nonlinear_arith)
                    requires
                        i < k - 1,
                        sz >= 1,
                ;
                assert(0 <= i * sz) by (nonlinear_arith)
                    requires
                        i >= 0,
                        sz >= 1,
                ;
                assert(cur.subrange(i * sz, i * sz + sz) =~= prev.subrange(i * sz, i * sz + sz));
            } else {
                assert(cur.subrange(i * sz, i * sz + sz) =~= uint_bytes(1 + total_len(items.take(i)), sz));
            }
        }
    }
}

/// Each item sits in the concatenation after the items before it.
proof fn lemma_concat_layout(items: Seq<Seq<u8>>, k: int)
    requires
        0 <= k <= items.len(),
    ensures
        concat(items.take(k)).len() == total_len(items.take(k)),
        forall|i: int| 0 <= i < k ==> #[trigger] concat(items.take(k)).subrange(
            total_len(items.take(i)),
            total_len(items.take(i + 1)),
        ) == items[i],
        forall|i: int| 0 <= i <= k ==> total_len(#[trigger] items.take(i)) <= total_len(items.take(k)),
    decreases k,
{
    if k > 0 {
        lemma_concat_layout(items, k - 1);
        lemma_total_len_push(items, k - 1);
        let prev = concat(items.take(k - 1));
        let cur = concat(items.take(k));
        assert forall|i: int| 0 <= i < k implies #[trigger] cur.subrange(
            total_len(items.take(i)),
            total_len(items.take(i + 1)),
        ) == items[i] by {
            if i < k - 1 {
                lemma_total_len_push(items, i);
                assert(cur.subrange(total_len(items.take(i)), total_len(items.take(i + 1))) =~= prev.subrange(
                    total_len(items.take(i)),
                    total_len(items.take(i + 1)),
                ));
            } else {
                assert(cur.subrange(total_len(items.take(i)), total_len(items.take(i + 1))) =~= items[i]);
            }
        }
    } else {
        assert(items.take(0) =~= Seq::<Seq<u8>>::empty());
    }
}

/// An INDEX reads back as the items written, ending just past itself,
/// for at most 65535 items whose data, plus one, fits a 32-bit offset.
#[verifier::spinoff_prover]
#[verifier::rlimit(80)]
pub proof fn lemma_index_round_trip(items: Seq<Seq<u8>>)
    requires
        items.len() <= 0xFFFF,
        total_len(items) + 1 < 0x100000000,
    ensures
        read_index_spec(write_index_spec(items), 0) == Some((items, write_index_spec(items).len() as int)),
{
    reveal(write_index_spec);
    let d = write_index_spec(items);
    let c = items.len() as int;
    if c == 0 {
        assert(u16_at(d, 0) == Some(0int));
    } else {
        let t = total_len(items);
        let sz = off_size_for(t + 1);
        let oa = offset_array(items, sz, c + 1);
        lemma_offset_array(items, sz, c + 1);
        assert(items.take(c) =~= items);
        lemma_concat_layout(items, c);
        let head = word16(c) + seq![sz as u8];
        assert(d == head + oa + concat(items));
        assert(((c / 256) % 256) * 256 + c % 256 == c) by (nonlinear_arith)
            requires
                0 <= c < 0x10000,
        ;
        assert(u16_at(d, 0) == Some(c));
        assert(d[2] == sz);
        let data = index_data(0, c, sz);
        assert(data == 2 + (c + 1) * sz);
        assert(oa.len() == (c + 1) * sz);
        assert forall|i: int| 0 <= i <= c implies #[trigger] index_offset(d, 0, sz, i) == Some(1 + total_len(items.take(i))) by {
            assert(0 <= i * sz && i * sz + sz <= (c + 1) * sz) by (nonlinear_arith)
                requires
                    0 <= i <= c,
                    sz >= 1,
            ;
            assert(d.subrange(3 + i * sz, 3 + i * sz + sz) =~= oa.subrange(i * sz, i * sz + sz));
            lemma_total_prefix_le(items, i);
            assert(1 + total_len(items.take(i)) < pow256(sz));
            lemma_uint_round(d, 3 + i * sz, 1 + total_len(items.take(i)), sz);
        }
        assert(offsets_readable(d, 0, sz, c));
        assert forall|i: int| 0 <= i < c implies #[trigger] item_ok(d, 0, sz, data, i) && index_item(d, 0, sz, data, i) == items[i] by {
            assert(index_offset(d, 0, sz, i) == Some(1 + total_len(items.take(i))));
            assert(index_offset(d, 0, sz, i + 1) == Some(1 + total_len(items.take(i + 1))));
            lemma_total_len_push(items, i);
            assert(total_len(items.take(i + 1)) <= t);
            let lo = total_len(items.take(i));
            let hi = total_len(items.take(i + 1));
            assert(d.subrange(data + 1 + lo, data + 1 + hi) =~= concat(items).subrange(lo, hi));
        }
        assert(index_offset(d, 0, sz, c) == Some(1 + t));
        let got = Seq::new(c as nat, |i: int| index_item(d, 0, sz, data, i));
        assert forall|i: int| 0 <= i < c implies got[i] == items[i] by {
            assert(item_ok(d, 0, sz, data, i));
        }
        assert(got =~= items);
    }
}

/// Only the low 16 bits of a number reach its two bytes.
proof fn lemma_word16_mod(n: int)
    requires
        n >= 0,
    ensures
        word16(n % 0x10000) == word16(n),
{
    assert(((n % 0x10000) / 256) % 256 == (n / 256) % 256) by (nonlinear_arith)
        requires
            n >= 0,
    ;
    assert((n % 0x10000) % 256 == n % 256) by (nonlinear_arith)
        requires
            n >= 0,
    ;
    assert(word16(n % 0x10000) =~= word16(n));
}

/// A prefix's summed length is at most the whole's.
proof fn lemma_total_prefix_le(items: Seq<Seq<u8>>, k: int)
    requires
        0 <= k <= items.len(),
    ensures
        0 <= total_len(items.take(k)) <= total_len(items),
    decreases items.len() - k,
{
    if k < items.len() {
        lemma_total_len_push(items, k);
        lemma_total_prefix_le(items, k + 1);
    } else {
        assert(items.take(k) =~= items);
        if k > 0 {
            lemma_total_len_push(items, k - 1);
        }
    }
}


// ------------------------------------------------------------- CFF DICT

/// One DICT entry: its operator (a two-byte operator folded into
/// `0x0c00 | b1`), the operand bytes as they stood, and the operands
/// decoded as integers (a real number decodes as 0).
pub struct DictEntry {
    pub op: u16,
    pub raw: Vec<u8>,
    pub ints: Vec<i32>,
}

/// A DICT entry as plain values.
pub open spec fn entry_view(e: DictEntry) -> (u16, Seq<u8>, Seq<i32>) {
    (e.op, e.raw@, e.ints@)
}

/// The entries as plain values.
pub open spec fn entries_view(v: Seq<DictEntry>) -> Seq<(u16, Seq<u8>, Seq<i32>)> {
    Seq::new(v.len(), |i: int| entry_view(v[i]))
}

/// A 16-bit two's-complement number from its big-endian bytes.
pub open spec fn signed16(hi: u8, lo: u8) -> int {
    let v = hi * 256 + lo;
    if v >= 0x8000 { v - 0x10000 } else { v }
}

/// A 32-bit two's-complement number from its big-endian bytes.
pub open spec fn signed32(b0: u8, b1: u8, b2: u8, b3: u8) -> int {
    let v = ((b0 * 256 + b1) * 256 + b2) * 256 + b3;
    if v >= 0x8000_0000 { v - 0x1_0000_0000 } else { v }
}

/// Whether a byte of a packed real number holds the end nibble `0xF`.
pub open spec fn ends_real(b: u8) -> bool {
    b % 16 == 15 || b / 16 == 15
}

/// The position just past the byte, at `k` or later, that ends a real
/// number.
pub open spec fn real_end(d: Seq<u8>, k: int) -> Option<int>
    decreases d.len() - k,
{
    if k < 0 || k >= d.len() {
        None
    } else if ends_real(d[k]) {
        Some(k + 1)
    } else {
        real_end(d, k + 1)
    }
}

/// The entries of `d` from position `i` on, `raw` and `ints` being the
/// operands met since the last operator. Operands after the last operator
/// are dropped; `None` when an operand or operator runs past the end or a
/// byte starts neither.
pub open spec fn dict_from(d: Seq<u8>, i: int, raw: Seq<u8>, ints: Seq<i32>) -> Option<
    Seq<(u16, Seq<u8>, Seq<i32>)>,
>
    decreases d.len() - i, 0int,
{
    if i < 0 || i >= d.len() {
        Some(Seq::empty())
    } else {
        let b0 = d[i];
        if b0 <= 21 {
            if b0 == 12 {
                if i + 1 < d.len() {
                    match dict_from(d, i + 2, Seq::empty(), Seq::empty()) {
                        Some(rest) => Some(seq![((0x0c00 + d[i + 1]) as u16, raw, ints)] + rest),
                        None => None,
                    }
                } else {
                    None
                }
            } else {
                match dict_from(d, i + 1, Seq::empty(), Seq::empty()) {
                    Some(rest) => Some(seq![(b0 as u16, raw, ints)] + rest),
                    None => None,
                }
            }
        } else if b0 == 28 {
            if i + 2 < d.len() {
                dict_from(d, i + 3, raw + d.subrange(i, i + 3), ints.push(signed16(d[i + 1], d[i + 2]) as i32))
            } else {
                None
            }
        } else if b0 == 29 {
            if i + 4 < d.len() {
                dict_from(
                    d,
                    i + 5,
                    raw + d.subrange(i, i + 5),
                    ints.push(signed32(d[i + 1], d[i + 2], d[i + 3], d[i + 4]) as i32),
                )
            } else {
                None
            }
        } else if b0 == 30 {
            match real_end(d, i + 1) {
                Some(j) => if i < j <= d.len() {
                    dict_from(d, j, raw + d.subrange(i, j), ints.push(0))
                } else {
                    None
                },
                None => None,
            }
        } else if 32 <= b0 <= 246 {
            dict_from(d, i + 1, raw.push(b0), ints.push((b0 - 139) as i32))
        } else if 247 <= b0 <= 250 {
            if i + 1 < d.len() {
                dict_from(d, i + 2, raw + d.subrange(i, i + 2), ints.push(((b0 - 247) * 256 + d[i + 1] + 108) as i32))
            } else {
                None
            }
        } else if 251 <= b0 <= 254 {
            if i + 1 < d.len() {
                dict_from(
                    d,
                    i + 2,
                    raw + d.subrange(i, i + 2),
                    ints.push((-(b0 - 251) * 256 - d[i + 1] - 108) as i32),
                )
            } else {
                None
            }
        } else {
            None
        }
    }
}

/// The entries of a whole DICT.
pub open spec fn parse_dict_spec(d: Seq<u8>) -> Option<Seq<(u16, Seq<u8>, Seq<i32>)>> {
    dict_from(d, 0, Seq::empty(), Seq::empty())
}

/// `done` followed by whatever `rest` holds.
pub open spec fn after(done: Seq<(u16, Seq<u8>, Seq<i32>)>, rest: Option<Seq<(u16, Seq<u8>, Seq<i32>)>>) -> Option<
    Seq<(u16, Seq<u8>, Seq<i32>)>,
> {
    match rest {
        Some(r) => Some(done + r),
        None => None,
    }
}

/// Where the real number starting at `k` ends.
fn find_real_end(d: &[u8], k: usize) -> (r: Option<usize>)
    ensures
        match real_end(d@, k as int) {
            Some(j) => r == Some(j as usize) && k < j <= d@.len(),
            None => r is None,
        },
{
    let mut j = k;
    while j < d.len()
        invariant
            k <= j,
            real_end(d@, k as int) == real_end(d@, j as int),
            forall|m: int| k <= m < j ==> !ends_real(#[trigger] d@[m]),
        decreases d@.len() - j,
    {
        let b = d[j];
        if b % 16 == 15 || b / 16 == 15 {
            return Some(j + 1);
        }
        j += 1;
    }
    None
}

/// Splits a DICT into its entries.
pub fn parse_dict(d: &[u8]) -> (r: Option<Vec<DictEntry>>)
    ensures
        match parse_dict_spec(d@) {
            Some(es) => r matches Some(v) && entries_view(v@) == es,
            None => r is None,
        },
{
    let mut out: Vec<DictEntry> = Vec::new();
    let mut operands: Vec<u8> = Vec::new();
    let mut ints: Vec<i32> = Vec::new();
    let mut i: usize = 0;
    while i < d.len()
        invariant
            i <= d@.len(),
            parse_dict_spec(d@) == after(entries_view(out@), dict_from(d@, i as int, operands@, ints@)),
        decreases d@.len() - i,
    {
        let b0 = d[i];
        let ghost before = entries_view(out@);
        if b0 <= 21 {
            let op: u16;
            if b0 == 12 {
                if i + 1 >= d.len() {
                    return None;
                }
                op = 0x0c00 + d[i + 1] as u16;
                i += 2;
            } else {
                op = b0 as u16;
                i += 1;
            }
            let raw = operands;
            let vals = ints;
            operands = Vec::new();
            ints = Vec::new();
            out.push(DictEntry { op, raw, ints: vals });
            proof {
                assert(entries_view(out@) =~= before.push((op, raw@, vals@)));
                assert(operands@ =~= Seq::<u8>::empty());
                assert(ints@ =~= Seq::<i32>::empty());
                let rest = dict_from(d@, i as int, Seq::empty(), Seq::empty());
                if let Some(r) = rest {
                    assert(before + (seq![(op, raw@, vals@)] + r) =~= before.push((op, raw@, vals@)) + r);
                }
            }
        } else if b0 == 28 {
            if d.len() - i < 3 {
                return None;
            }
            let hi = d[i + 1] as u16;
            let lo = d[i + 2] as u16;
            let v = hi * 256 + lo;
            let x: i32 = if v >= 0x8000 { v as i32 - 0x10000 } else { v as i32 };
            ints.push(x);
            push_range(&mut operands, d, i, i + 3);
            i += 3;
        } else if b0 == 29 {
            if d.len() - i < 5 {
                return None;
            }
            let v: u32 = ((d[i + 1] as u32 * 256 + d[i + 2] as u32) * 256 + d[i + 3] as u32) * 256 + d[i + 4] as u32;
            let x: i32 = if v >= 0x8000_0000 { (v - 0x8000_0000) as i32 - 0x4000_0000 - 0x4000_0000 } else { v as i32 };
            ints.push(x);
            push_range(&mut operands, d, i, i + 5);
            i += 5;
        } else if b0 == 30 {
            let j = match find_real_end(d, i + 1) {
                Some(j) => j,
                None => {
                    return None;
                },
            };
            push_range(&mut operands, d, i, j);
            ints.push(0);
            i = j;
        } else if 32 <= b0 && b0 <= 246 {
            ints.push(b0 as i32 - 139);
            operands.push(b0);
            i += 1;
        } else if 247 <= b0 && b0 <= 250 {
            if i + 1 >= d.len() {
                return None;
            }
            ints.push((b0 as i32 - 247) * 256 + d[i + 1] as i32 + 108);
            push_range(&mut operands, d, i, i + 2);
            i += 2;
        } else if 251 <= b0 && b0 <= 254 {
            if i + 1 >= d.len() {
                return None;
            }
            ints.push(-(b0 as i32 - 251) * 256 - d[i + 1] as i32 - 108);
            push_range(&mut operands, d, i, i + 2);
            i += 2;
        } else {
            return None;
        }
    }
    proof {
        assert(entries_view(out@) + Seq::<(u16, Seq<u8>, Seq<i32>)>::empty() =~= entries_view(out@));
    }
    Some(out)
}


/// An integer operand in its always-five-byte form (`29` and the 32-bit
/// two's-complement value), so that rewriting one never changes a DICT's
/// length.
pub open spec fn dict_int_spec(v: i32) -> Seq<u8> {
    seq![29u8] + word32(v as int)
}

/// Adding 2^32 leaves the low 32 bits alone.
proof fn lemma_word32_wrap(v: int)
    ensures
        word32(v + 0x1_0000_0000) == word32(v),
{
    assert((v + 0x1_0000_0000) / 0x1000000 == v / 0x1000000 + 256) by (nonlinear_arith);
    assert((v + 0x1_0000_0000) / 0x10000 == v / 0x10000 + 0x10000) by (nonlinear_arith);
    assert((v + 0x1_0000_0000) / 256 == v / 256 + 0x1000000) by (nonlinear_arith);
    assert((v / 0x1000000 + 256) % 256 == (v / 0x1000000) % 256) by (nonlinear_arith);
    assert((v / 0x10000 + 0x10000) % 256 == (v / 0x10000) % 256) by (nonlinear_arith);
    assert((v / 256 + 0x1000000) % 256 == (v / 256) % 256) by (nonlinear_arith);
    assert((v + 0x1_0000_0000) % 256 == v % 256) by (nonlinear_arith);
    assert(word32(v + 0x1_0000_0000) =~= word32(v));
}

/// Appends `v` in the five-byte operand form.
pub fn push_dict_int(out: &mut Vec<u8>, v: i32)
    ensures
        final(out)@ == old(out)@ + dict_int_spec(v),
{
    let w: i64 = if v < 0 { v as i64 + 0x1_0000_0000 } else { v as i64 };
    let u = w as u32;
    out.push(29);
    let ghost mid = out@;
    push_u32(out, u);
    proof {
        if v < 0 {
            assert(u as int == v + 0x1_0000_0000);
            lemma_word32_wrap(v as int);
        }
        assert(final(out)@ =~= old(out)@ + dict_int_spec(v));
    }
}

/// An operator as DICT bytes: `12` then the low byte for a two-byte one.
pub open spec fn op_bytes(op: u16) -> Seq<u8> {
    if op >= 0x0c00 { seq![12u8, (op % 256) as u8] } else { seq![(op % 256) as u8] }
}

/// Appends an operator.
pub fn push_op(out: &mut Vec<u8>, op: u16)
    ensures
        final(out)@ == old(out)@ + op_bytes(op),
{
    if op >= 0x0c00 {
        out.push(12);
        out.push((op % 256) as u8);
    } else {
        out.push((op % 256) as u8);
    }
    assert(final(out)@ =~= old(out)@ + op_bytes(op));
}

/// The glyph-name SIDs of glyphs `g ..< n` in a range charset (format 1:
/// one-byte counts, format 2: two-byte), reading its ranges from `p`.
pub open spec fn charset_ranges(d: Seq<u8>, f: int, n: int, g: int, p: int) -> Option<Seq<u16>>
    decreases n - g,
{
    if g >= n {
        Some(Seq::empty())
    } else {
        let left = if f == 1 {
            if 0 <= p + 2 < d.len() { Some(d[p + 2] as int) } else { None }
        } else {
            u16_at(d, p + 2)
        };
        match (u16_at(d, p), left) {
            (Some(first), Some(nl)) => {
                let take = if nl + 1 < n - g { nl + 1 } else { n - g };
                match charset_ranges(d, f, n, g + take, p + if f == 1 { 3int } else { 4int }) {
                    Some(rest) => Some(Seq::new(take as nat, |k: int| ((first + k) % 0x10000) as u16) + rest),
                    None => None,
                }
            },
            _ => None,
        }
    }
}

/// The glyph-name SIDs of the `n` glyphs, from the charset at `off`. Offsets
/// 0 to 2 name the predefined charsets, taken as SID equal to glyph id.
pub open spec fn charset_spec(d: Seq<u8>, off: int, n: int) -> Option<Seq<u16>> {
    if off <= 2 {
        Some(Seq::new(n as nat, |g: int| g as u16))
    } else if off >= d.len() {
        None
    } else if d[off] == 0 {
        if n == 0 {
            Some(Seq::empty())
        } else if exists|g: int| 1 <= g < n && #[trigger] u16_at(d, off + 1 + (g - 1) * 2) is None {
            None
        } else {
            Some(Seq::new(n as nat, |g: int| if g == 0 { 0u16 } else { u16_at(d, off + 1 + (g - 1) * 2).unwrap() as u16 }))
        }
    } else if d[off] == 1 || d[off] == 2 {
        if n == 0 {
            Some(Seq::empty())
        } else {
            match charset_ranges(d, d[off] as int, n, 1, off + 1) {
                Some(rest) => Some(seq![0u16] + rest),
                None => None,
            }
        }
    } else {
        None
    }
}

/// Reads the charset at `off` for `n` glyphs.
pub fn read_charset(d: &[u8], off: usize, n: usize) -> (r: Option<Vec<u16>>)
    requires
        n <= 0x10000,
    ensures
        match charset_spec(d@, off as int, n as int) {
            Some(s) => r matches Some(v) && v@ == s,
            None => r is None,
        },
{
    let mut sids: Vec<u16> = Vec::new();
    if off <= 2 {
        let mut g: usize = 0;
        while g < n
            invariant
                g <= n <= 0x10000,
                sids@ == Seq::new(g as nat, |k: int| k as u16),
            decreases n - g,
        {
            sids.push(g as u16);
            assert(sids@ =~= Seq::new((g + 1) as nat, |k: int| k as u16));
            g += 1;
        }
        return Some(sids);
    }
    if off >= d.len() {
        return None;
    }
    let f = d[off];
    if n == 0 {
        if f <= 2 {
            return Some(sids);
        }
        return None;
    }
    if f == 0 {
        sids.push(0);
        let mut g: usize = 1;
        while g < n
            invariant
                1 <= g <= n <= 0x10000,
                2 < off < d@.len(),
                d@[off as int] == 0,
                sids@ =~= Seq::new(g as nat, |k: int| if k == 0 { 0u16 } else { u16_at(d@, off + 1 + (k - 1) * 2).unwrap() as u16 }),
                forall|k: int| 1 <= k < g ==> #[trigger] u16_at(d@, off + 1 + (k - 1) * 2) is Some,
            decreases n - g,
        {
            if (g - 1) * 2 > d.len() - off - 1 {
                assert(u16_at(d@, off + 1 + (g - 1) * 2) is None);
                return None;
            }
            let at = off + 1 + (g - 1) * 2;
            match u16at(d, at) {
                Some(v) => {
                    sids.push(v);
                },
                None => {
                    assert(u16_at(d@, off + 1 + (g - 1) * 2) is None);
                    return None;
                },
            }
            g += 1;
        }
        return Some(sids);
    }
    if f != 1 && f != 2 {
        return None;
    }
    sids.push(0);
    let mut g: usize = 1;
    let mut p: usize = off + 1;
    while g < n
        invariant
            1 <= g <= n <= 0x10000,
            f == 1 || f == 2,
            f == d@[off as int],
            off < d@.len(),
            charset_spec(d@, off as int, n as int) == match charset_ranges(d@, f as int, n as int, g as int, p as int) {
                Some(rest) => Some(sids@ + rest),
                None => None::<Seq<u16>>,
            },
        decreases n - g,
    {
        let first = match u16at(d, p) {
            Some(v) => v,
            None => {
                return None;
            },
        };
        let left: usize = if f == 1 {
            if p > d.len() || d.len() - p < 3 {
                return None;
            }
            d[p + 2] as usize
        } else {
            assert(p + 2 <= d.len());
            match u16at(d, p + 2) {
                Some(v) => v as usize,
                None => {
                    return None;
                },
            }
        };
        let ghost before = sids@;
        let ghost gg = g as int;
        let take: usize = if left + 1 < n - g { left + 1 } else { n - g };
        let mut k: usize = 0;
        while k < take
            invariant
                k <= take <= 0x10000,
                g == gg + k,
                gg + take <= n,
                sids@ == before + Seq::new(k as nat, |j: int| ((first + j) % 0x10000) as u16),
            decreases take - k,
        {
            let x = ((first as u32 + k as u32) % 0x10000) as u16;
            sids.push(x);
            proof {
                assert(x as int == (first + k) % 0x10000);
                assert(sids@ =~= before + Seq::new((k + 1) as nat, |j: int| ((first + j) % 0x10000) as u16));
            }
            g += 1;
            k += 1;
        }
        proof {
            let rest = charset_ranges(d@, f as int, n as int, g as int, p + if f == 1 { 3int } else { 4int });
            if let Some(r) = rest {
                assert(before + (Seq::new(take as nat, |j: int| ((first + j) % 0x10000) as u16) + r) =~= sids@ + r);
            }
        }
        p = if f == 1 { p + 3 } else { p + 4 };
    }
    proof {
        assert(sids@ + Seq::<u16>::empty() =~= sids@);
    }
    Some(sids)
}


// ------------------------------------------------------ CFF subroutines

/// The bias a charstring adds to a subroutine number: a property of the
/// subroutine INDEX's size.
pub open spec fn subr_bias_spec(count: int) -> int {
    if count < 1240 {
        107
    } else if count < 33900 {
        1131
    } else {
        32768
    }
}

/// The subroutine bias for an INDEX of `count` entries.
pub fn subr_bias(count: usize) -> (b: i32)
    ensures
        b == subr_bias_spec(count as int),
{
    if count < 1240 {
        107
    } else if count < 33900 {
        1131
    } else {
        32768
    }
}

/// What a charstring walk carries along: the argument stack, the number of
/// stems declared so far, and which local and global subroutines it has
/// reached.
pub type WalkState = (Seq<i32>, int, Seq<bool>, Seq<bool>);

/// Every argument on the stack is a 16-bit number, as every number a
/// charstring can push is.
pub open spec fn stack_ok(s: Seq<i32>) -> bool {
    forall|i: int| 0 <= i < s.len() ==> -32768 <= #[trigger] s[i] <= 32767
}

/// Position `j`, or the end of `cs` if `j` is past it.
pub open spec fn clamp(cs: Seq<u8>, j: int) -> int {
    if j > cs.len() { cs.len() as int } else { j }
}

/// The walk state after a charstring operator that clears the stack.
pub open spec fn cleared(st: WalkState) -> WalkState {
    (Seq::empty(), st.1, st.2, st.3)
}

/// A Type 2 charstring walked from byte `i`, just far enough to see each
/// subroutine call's number, following calls (at most ten deep). `None`
/// when a number runs past the end, a call has no argument or names no
/// subroutine, calls nest more than ten deep, or the stem count passes
/// `usize::MAX`; a `return` (11) ends the charstring.
pub open spec fn walk_from(
    cs: Seq<u8>,
    i: int,
    st: WalkState,
    depth: int,
    local: Seq<Seq<u8>>,
    global: Seq<Seq<u8>>,
) -> Option<WalkState>
    decreases 11 - depth, cs.len() - i,
{
    if depth < 0 || depth > 10 {
        None
    } else if i < 0 || i >= cs.len() {
        Some(st)
    } else {
        let stack = st.0;
        let b0 = cs[i];
        if 32 <= b0 <= 246 {
            walk_from(cs, i + 1, (stack.push((b0 - 139) as i32), st.1, st.2, st.3), depth, local, global)
        } else if 247 <= b0 <= 250 {
            if i + 1 < cs.len() {
                walk_from(
                    cs,
                    i + 2,
                    (stack.push(((b0 - 247) * 256 + cs[i + 1] + 108) as i32), st.1, st.2, st.3),
                    depth,
                    local,
                    global,
                )
            } else {
                None
            }
        } else if 251 <= b0 <= 254 {
            if i + 1 < cs.len() {
                walk_from(
                    cs,
                    i + 2,
                    (stack.push((-(b0 - 251) * 256 - cs[i + 1] - 108) as i32), st.1, st.2, st.3),
                    depth,
                    local,
                    global,
                )
            } else {
                None
            }
        } else if b0 == 28 || b0 == 255 {
            if i + 2 < cs.len() {
                walk_from(
                    cs,
                    clamp(cs, i + if b0 == 28 { 3int } else { 5int }),
                    (stack.push(signed16(cs[i + 1], cs[i + 2]) as i32), st.1, st.2, st.3),
                    depth,
                    local,
                    global,
                )
            } else {
                None
            }
        } else if b0 == 1 || b0 == 3 || b0 == 18 || b0 == 23 || b0 == 19 || b0 == 20 {
            let stems = st.1 + stack.len() / 2;
            if stems < 0 || stems > usize::MAX {
                None
            } else {
                let next = if b0 == 19 || b0 == 20 { clamp(cs, i + 1 + (stems + 7) / 8) } else { i + 1 };
                walk_from(cs, next, (Seq::empty(), stems, st.2, st.3), depth, local, global)
            }
        } else if b0 == 10 || b0 == 29 {
            let subs = if b0 == 10 { local } else { global };
            if stack.len() == 0 {
                None
            } else {
                let idx = stack.last() + subr_bias_spec(subs.len() as int);
                if idx < 0 || idx >= subs.len() {
                    None
                } else {
                    let st1 = (
                        stack.drop_last(),
                        st.1,
                        if b0 == 10 { st.2.update(idx, true) } else { st.2 },
                        if b0 == 29 { st.3.update(idx, true) } else { st.3 },
                    );
                    match walk_from(subs[idx], 0, st1, depth + 1, local, global) {
                        Some(st2) => walk_from(cs, i + 1, st2, depth, local, global),
                        None => None,
                    }
                }
            }
        } else if b0 == 11 {
            Some(st)
        } else if b0 == 12 {
            walk_from(cs, clamp(cs, i + 2), cleared(st), depth, local, global)
        } else {
            walk_from(cs, i + 1, cleared(st), depth, local, global)
        }
    }
}

/// The walk state of the exec walk, as plain values.
pub open spec fn state_of(stack: Seq<i32>, stems: usize, lused: Seq<bool>, gused: Seq<bool>) -> WalkState {
    (stack, stems as int, lused, gused)
}

/// Walks one charstring (see `walk_from`), recording the subroutines it
/// reaches in `lused` and `gused`.
fn walk(
    cs: &Vec<u8>,
    stack: &mut Vec<i32>,
    stems: &mut usize,
    depth: usize,
    local: &Vec<Vec<u8>>,
    global: &Vec<Vec<u8>>,
    lused: &mut Vec<bool>,
    gused: &mut Vec<bool>,
) -> (ok: bool)
    requires
        stack_ok(old(stack)@),
        old(lused)@.len() == local@.len(),
        old(gused)@.len() == global@.len(),
    ensures
        match walk_from(
            cs@,
            0,
            state_of(old(stack)@, *old(stems), old(lused)@, old(gused)@),
            depth as int,
            views(local@),
            views(global@),
        ) {
            Some(st) => ok && st == state_of(final(stack)@, *final(stems), final(lused)@, final(gused)@),
            None => !ok,
        },
        stack_ok(final(stack)@),
        final(lused)@.len() == local@.len(),
        final(gused)@.len() == global@.len(),
    decreases 11 - depth,
{
    let ghost lv = views(local@);
    let ghost gv = views(global@);
    let ghost start = state_of(stack@, *stems, lused@, gused@);
    if depth > 10 {
        return false;
    }
    let lbias = subr_bias(local.len());
    let gbias = subr_bias(global.len());
    let mut i: usize = 0;
    while i < cs.len()
        invariant
            depth <= 10,
            start == state_of(old(stack)@, *old(stems), old(lused)@, old(gused)@),
            lv == views(local@),
            gv == views(global@),
            lbias == subr_bias_spec(local@.len() as int),
            gbias == subr_bias_spec(global@.len() as int),
            stack_ok(stack@),
            lused@.len() == local@.len(),
            gused@.len() == global@.len(),
            walk_from(cs@, 0, start, depth as int, lv, gv) == walk_from(
                cs@,
                i as int,
                state_of(stack@, *stems, lused@, gused@),
                depth as int,
                lv,
                gv,
            ),
        decreases cs@.len() - i,
    {
        let b0 = cs[i];
        let n = cs.len();
        if 32 <= b0 && b0 <= 246 {
            stack.push(b0 as i32 - 139);
            i += 1;
        } else if 247 <= b0 && b0 <= 250 {
            if i + 1 >= n {
                return false;
            }
            stack.push((b0 as i32 - 247) * 256 + cs[i + 1] as i32 + 108);
            i += 2;
        } else if 251 <= b0 && b0 <= 254 {
            if i + 1 >= n {
                return false;
            }
            stack.push(-(b0 as i32 - 251) * 256 - cs[i + 1] as i32 - 108);
            i += 2;
        } else if b0 == 28 || b0 == 255 {
            if n - i < 3 {
                return false;
            }
            let v = cs[i + 1] as i32 * 256 + cs[i + 2] as i32;
            let x: i32 = if v >= 0x8000 { v - 0x10000 } else { v };
            stack.push(x);
            let step: usize = if b0 == 28 { 3 } else { 5 };
            if n - i <= step {
                i = n;
            } else {
                i += step;
            }
        } else if b0 == 1 || b0 == 3 || b0 == 18 || b0 == 23 || b0 == 19 || b0 == 20 {
            let add = stack.len() / 2;
            if add > usize::MAX - *stems {
                return false;
            }
            *stems = *stems + add;
            stack.clear();
            if b0 == 19 || b0 == 20 {
                let skip = *stems / 8 + if *stems % 8 != 0 { 1 } else { 0 };
                proof {
                    assert(skip == (*stems + 7) / 8);
                }
                if skip >= n - i - 1 {
                    i = n;
                } else {
                    i = i + 1 + skip;
                }
            } else {
                i += 1;
            }
        } else if b0 == 10 || b0 == 29 {
            if stack.len() == 0 {
                return false;
            }
            let top = stack.pop().unwrap();
            let is_local = b0 == 10;
            let count = if is_local { local.len() } else { global.len() };
            let bias = if is_local { lbias } else { gbias };
            let idx = top + bias;
            if idx < 0 || idx as usize >= count {
                return false;
            }
            let k = idx as usize;
            if is_local {
                lused.set(k, true);
            } else {
                gused.set(k, true);
            }
            let sub = if is_local { &local[k] } else { &global[k] };
            let ok = walk(sub, stack, stems, depth + 1, local, global, lused, gused);
            if !ok {
                return false;
            }
            i += 1;
        } else if b0 == 11 {
            return true;
        } else if b0 == 12 {
            stack.clear();
            if n - i <= 2 {
                i = n;
            } else {
                i += 2;
            }
        } else {
            stack.clear();
            i += 1;
        }
    }
    true
}


/// The subroutines reached by the first `k` charstrings, each walked from
/// an empty stack and no stems, starting from the marks `lu` and `gu`.
pub open spec fn use_from(
    css: Seq<Seq<u8>>,
    k: int,
    lu: Seq<bool>,
    gu: Seq<bool>,
    local: Seq<Seq<u8>>,
    global: Seq<Seq<u8>>,
) -> Option<(Seq<bool>, Seq<bool>)>
    decreases k,
{
    if k <= 0 {
        Some((lu, gu))
    } else {
        match use_from(css, k - 1, lu, gu, local, global) {
            Some((l, g)) => match walk_from(css[k - 1], 0, (Seq::empty(), 0, l, g), 0, local, global) {
                Some(st) => Some((st.2, st.3)),
                None => None,
            },
            None => None,
        }
    }
}

/// Which local and global subroutines the charstrings reach, as one mark
/// per subroutine; `None` when a walk meets something it does not
/// understand.
pub open spec fn subr_use_spec(css: Seq<Seq<u8>>, local: Seq<Seq<u8>>, global: Seq<Seq<u8>>) -> Option<
    (Seq<bool>, Seq<bool>),
> {
    use_from(
        css,
        css.len() as int,
        Seq::new(local.len(), |i: int| false),
        Seq::new(global.len(), |i: int| false),
        local,
        global,
    )
}

/// Once a walk fails, every longer run fails too.
proof fn lemma_use_none(
    css: Seq<Seq<u8>>,
    k: int,
    m: int,
    lu: Seq<bool>,
    gu: Seq<bool>,
    local: Seq<Seq<u8>>,
    global: Seq<Seq<u8>>,
)
    requires
        0 < k <= m,
        use_from(css, k, lu, gu, local, global) is None,
    ensures
        use_from(css, m, lu, gu, local, global) is None,
    decreases m - k,
{
    if k < m {
        lemma_use_none(css, k + 1, m, lu, gu, local, global);
    }
}

/// All `false`, `n` long.
fn no_marks(n: usize) -> (v: Vec<bool>)
    ensures
        v@ == Seq::new(n as nat, |i: int| false),
{
    let mut v: Vec<bool> = Vec::new();
    let mut i: usize = 0;
    while i < n
        invariant
            i <= n,
            v@ == Seq::new(i as nat, |j: int| false),
        decreases n - i,
    {
        v.push(false);
        assert(v@ =~= Seq::new((i + 1) as nat, |j: int| false));
        i += 1;
    }
    v
}

/// Which subroutines the retained charstrings reach (see `walk_from`).
pub fn collect_subr_use(css: &Vec<Vec<u8>>, local: &Vec<Vec<u8>>, global: &Vec<Vec<u8>>) -> (r: Option<
    (Vec<bool>, Vec<bool>),
>)
    ensures
        match subr_use_spec(views(css@), views(local@), views(global@)) {
            Some((l, g)) => r matches Some((lv, gv)) && lv@ == l && gv@ == g,
            None => r is None,
        },
        r matches Some((lv, gv)) ==> lv@.len() == local@.len() && gv@.len() == global@.len(),
{
    let mut lused = no_marks(local.len());
    let mut gused = no_marks(global.len());
    let ghost l0 = lused@;
    let ghost g0 = gused@;
    let mut k: usize = 0;
    while k < css.len()
        invariant
            k <= css@.len(),
            lused@.len() == local@.len(),
            gused@.len() == global@.len(),
            l0 == Seq::new(local@.len(), |i: int| false),
            g0 == Seq::new(global@.len(), |i: int| false),
            use_from(views(css@), k as int, l0, g0, views(local@), views(global@)) == Some((lused@, gused@)),
        decreases css@.len() - k,
    {
        let mut stack: Vec<i32> = Vec::new();
        let mut stems: usize = 0;
        assert(stack_ok(stack@));
        let ok = walk(&css[k], &mut stack, &mut stems, 0, local, global, &mut lused, &mut gused);
        proof {
            assert(views(css@)[k as int] == css@[k as int]@);
        }
        if !ok {
            proof {
                lemma_use_none(views(css@), k + 1, css@.len() as int, l0, g0, views(local@), views(global@));
            }
            return None;
        }
        k += 1;
    }
    Some((lused, gused))
}

/// A charstring that only returns: what a dropped subroutine becomes, so
/// that the INDEX keeps its length and every subroutine number stays valid.
pub open spec fn return_only() -> Seq<u8> {
    seq![11u8]
}

/// The INDEX items, each kept where `keep` marks it and otherwise replaced
/// by a bare `return`.
pub open spec fn prune_spec(items: Seq<Seq<u8>>, keep: Seq<bool>) -> Seq<Seq<u8>> {
    Seq::new(items.len(), |i: int| if keep[i] { items[i] } else { return_only() })
}

/// Keeps the marked items, putting a bare `return` in place of the others.
pub fn prune_index(items: &Vec<Vec<u8>>, keep: &Vec<bool>) -> (r: Vec<Vec<u8>>)
    requires
        keep@.len() == items@.len(),
    ensures
        views(r@) == prune_spec(views(items@), keep@),
{
    let mut out: Vec<Vec<u8>> = Vec::new();
    let mut i: usize = 0;
    while i < items.len()
        invariant
            i <= items@.len(),
            keep@.len() == items@.len(),
            out@.len() == i,
            forall|j: int| 0 <= j < i ==> (#[trigger] out@[j])@ == prune_spec(views(items@), keep@)[j],
        decreases items@.len() - i,
    {
        if keep[i] {
            out.push(items[i].clone());
        } else {
            out.push(vec![11u8]);
        }
        proof {
            assert(out@[i as int]@ == prune_spec(views(items@), keep@)[i as int]) by {
                if !keep@[i as int] {
                    assert(out@[i as int]@ =~= return_only());
                }
            }
        }
        i += 1;
    }
    assert(views(out@) =~= prune_spec(views(items@), keep@));
    out
}


// -------------------------------------------------------------- CFF font

/// A DICT entry as plain values: operator, operand bytes, operands.
pub type EntryV = (u16, Seq<u8>, Seq<i32>);

/// The first entry at or after `i` with operator `op`.
pub open spec fn find_from(es: Seq<EntryV>, op: u16, i: int) -> Option<int>
    decreases es.len() - i,
{
    if i < 0 || i >= es.len() {
        None
    } else if es[i].0 == op {
        Some(i)
    } else {
        find_from(es, op, i + 1)
    }
}

/// The last operand of an entry, if it has any.
pub open spec fn last_int(e: EntryV) -> Option<i32> {
    if e.2.len() == 0 { None } else { Some(e.2.last()) }
}

/// The first entry with operator `op`.
fn find_entry(es: &Vec<DictEntry>, op: u16) -> (r: Option<usize>)
    ensures
        match r {
            Some(i) => find_from(entries_view(es@), op, 0) == Some(i as int) && i < es@.len() && es@[i as int].op
                == op,
            None => find_from(entries_view(es@), op, 0) is None,
        },
{
    let mut i: usize = 0;
    while i < es.len()
        invariant
            i <= es@.len(),
            find_from(entries_view(es@), op, 0) == find_from(entries_view(es@), op, i as int),
        decreases es@.len() - i,
    {
        if es[i].op == op {
            return Some(i);
        }
        i += 1;
    }
    None
}

/// The first position at or after `i` holding `x`.
pub open spec fn first_index(list: Seq<u16>, x: u16, i: int) -> Option<int>
    decreases list.len() - i,
{
    if i < 0 || i >= list.len() {
        None
    } else if list[i] == x {
        Some(i)
    } else {
        first_index(list, x, i + 1)
    }
}

/// The new number of string `sid` when the font's own strings are
/// renumbered in the order first asked for: the standard strings (below
/// 391) keep theirs; `list` holds the font strings taken so far. `None`
/// when `sid` names no string of the `nstr` the font carries.
pub open spec fn intern_spec(list: Seq<u16>, sid: u16, nstr: int) -> Option<(Seq<u16>, u16)> {
    if sid < 391 {
        Some((list, sid))
    } else {
        match first_index(list, sid, 0) {
            Some(j) => Some((list, (391 + j) as u16)),
            None => if sid - 391 < nstr {
                Some((list.push(sid), (391 + list.len()) as u16))
            } else {
                None
            },
        }
    }
}

/// Every string the list names is one of the font's `nstr` own strings.
pub open spec fn pool_ok(list: Seq<u16>, nstr: int) -> bool {
    forall|j: int| 0 <= j < list.len() ==> 391 <= #[trigger] list[j] && list[j] - 391 < nstr
}

/// The new number of string `sid` (see `intern_spec`).
fn intern(list: &mut Vec<u16>, sid: u16, nstr: usize) -> (r: Option<u16>)
    requires
        pool_ok(old(list)@, nstr as int),
    ensures
        pool_ok(final(list)@, nstr as int),
        match intern_spec(old(list)@, sid, nstr as int) {
            Some((l, v)) => r == Some(v) && final(list)@ == l,
            None => r is None && final(list)@ == old(list)@,
        },
{
    if sid < 391 {
        return Some(sid);
    }
    let mut j: usize = 0;
    while j < list.len()
        invariant
            j <= list@.len(),
            sid >= 391,
            list@ == old(list)@,
            pool_ok(list@, nstr as int),
            first_index(list@, sid, 0) == first_index(list@, sid, j as int),
        decreases list@.len() - j,
    {
        if list[j] == sid {
            let x: u128 = 391 + j as u128;
            return Some(#[verifier::truncate] (x as u16));
        }
        j += 1;
    }
    if ((sid - 391) as usize) < nstr {
        let n = list.len();
        list.push(sid);
        let x: u128 = 391 + n as u128;
        Some(#[verifier::truncate] (x as u16))
    } else {
        None
    }
}

/// Whether a Top DICT entry is dropped and rebuilt rather than copied:
/// `charset`, `Encoding`, `CharStrings`, `Private`.
pub open spec fn rebuilt_op(op: u16) -> bool {
    op == 15 || op == 16 || op == 17 || op == 18
}

/// Whether a Top DICT operator's operand is a string number: `version`,
/// `Notice`, `FullName`, `FamilyName`, `Weight`, `Copyright`,
/// `PostScript`, `BaseFontName`.
pub open spec fn sid_op(op: u16) -> bool {
    op <= 4 || op == 0x0c00 || op == 0x0c15 || op == 0x0c16
}

/// The bytes the first `k` Top DICT entries contribute to the new Top
/// DICT, and the strings taken by then: rebuilt entries contribute
/// nothing, string-valued ones their renumbered string, the rest their
/// bytes as they stood.
pub open spec fn passthrough_from(es: Seq<EntryV>, k: int, list: Seq<u16>, nstr: int) -> Option<(Seq<u8>, Seq<u16>)>
    decreases k,
{
    if k <= 0 {
        Some((Seq::empty(), list))
    } else {
        match passthrough_from(es, k - 1, list, nstr) {
            None => None,
            Some((bytes, l)) => {
                let e = es[k - 1];
                if rebuilt_op(e.0) {
                    Some((bytes, l))
                } else if sid_op(e.0) {
                    match last_int(e) {
                        None => None,
                        Some(v) => if v < 0 || v > 0xFFFF {
                            None
                        } else {
                            match intern_spec(l, v as u16, nstr) {
                                None => None,
                                Some((l2, ns)) => Some((bytes + dict_int_spec(ns as i32) + op_bytes(e.0), l2)),
                            }
                        },
                    }
                } else {
                    Some((bytes + e.1 + op_bytes(e.0), l))
                }
            },
        }
    }
}

/// The charstrings of the first `k` retained glyphs, the charset entries
/// (renumbered glyph-name strings, none for glyph 0), and the strings
/// taken by then.
pub open spec fn glyphs_from(
    gids: Seq<u16>,
    k: int,
    chs: Seq<Seq<u8>>,
    sids: Seq<u16>,
    list: Seq<u16>,
    nstr: int,
) -> Option<(Seq<Seq<u8>>, Seq<u8>, Seq<u16>)>
    decreases k,
{
    if k <= 0 {
        Some((Seq::empty(), Seq::empty(), list))
    } else {
        match glyphs_from(gids, k - 1, chs, sids, list, nstr) {
            None => None,
            Some((cs, cb, l)) => {
                let og = gids[k - 1] as int;
                if og >= chs.len() {
                    None
                } else if k == 1 {
                    Some((cs.push(chs[og]), cb, l))
                } else if og >= sids.len() {
                    None
                } else {
                    match intern_spec(l, sids[og], nstr) {
                        None => None,
                        Some((l2, ns)) => Some((cs.push(chs[og]), cb + word16(ns as int), l2)),
                    }
                }
            },
        }
    }
}

/// The Private DICT entries other than `Subrs`, re-emitted as they stood.
pub open spec fn private_plain(es: Seq<EntryV>) -> Seq<u8>
    decreases es.len(),
{
    if es.len() == 0 {
        Seq::empty()
    } else {
        let e = es.last();
        private_plain(es.drop_last()) + if e.0 == 19 { Seq::empty() } else { e.1 + op_bytes(e.0) }
    }
}

/// The new Top DICT, given where the charset, the charstrings and the
/// Private DICT land.
pub open spec fn top_dict(pt: Seq<u8>, charset_at: int, charstrings_at: int, priv_len: int, private_at: int) -> Seq<
    u8,
> {
    pt + dict_int_spec(charset_at as i32) + op_bytes(15) + dict_int_spec(charstrings_at as i32) + op_bytes(17)
        + dict_int_spec(priv_len as i32) + dict_int_spec(private_at as i32) + op_bytes(18)
}

/// The strings `list` names, in order.
pub open spec fn pool_items(list: Seq<u16>, strings: Seq<Seq<u8>>) -> Seq<Seq<u8>> {
    Seq::new(list.len(), |j: int| strings[list[j] - 391])
}

/// Everything of a CFF font that stands before its DICTs are read: the
/// header size, and the Name, Top DICT, String and global subroutine
/// INDEXes.
pub open spec fn cff_indexes(cff: Seq<u8>) -> Option<(Seq<Seq<u8>>, Seq<Seq<u8>>, Seq<Seq<u8>>, Seq<Seq<u8>>)> {
    if cff.len() <= 2 {
        None
    } else {
        match read_index_spec(cff, cff[2] as int) {
            None => None,
            Some((names, e1)) => match read_index_spec(cff, e1) {
                None => None,
                Some((tops, e2)) => match read_index_spec(cff, e2) {
                    None => None,
                    Some((strings, e3)) => match read_index_spec(cff, e3) {
                        None => None,
                        Some((gsubrs, _)) => Some((names, tops, strings, gsubrs)),
                    },
                },
            },
        }
    }
}

/// The Private DICT: its entries as re-emitted, pointing `Subrs` (when the
/// font has local subroutines) at the INDEX placed right after them, and
/// those subroutines.
pub open spec fn cff_private(cff: Seq<u8>, psize: int, poff: int) -> Option<(Seq<u8>, Option<Seq<Seq<u8>>>)> {
    if poff + psize > cff.len() {
        None
    } else {
        match parse_dict_spec(cff.subrange(poff, poff + psize)) {
            None => None,
            Some(pes) => {
                let plain = private_plain(pes);
                match find_from(pes, 19, 0) {
                    None => Some((plain, None)),
                    Some(j) => match last_int(pes[j]) {
                        None => None,
                        Some(v) => match read_index_spec(cff, poff + (v as usize)) {
                            None => None,
                            Some((subrs, _)) => Some(
                                (plain + dict_int_spec((plain.len() + 6) as i32) + op_bytes(19), Some(subrs)),
                            ),
                        },
                    },
                }
            },
        }
    }
}

/// The subroutine INDEXes kept: the reached subroutines with the others
/// emptied to a bare `return`, or all of them when the walk gives up.
pub open spec fn kept_subrs(css: Seq<Seq<u8>>, local: Seq<Seq<u8>>, global: Seq<Seq<u8>>) -> (Seq<Seq<u8>>, Seq<Seq<u8>>) {
    match subr_use_spec(css, local, global) {
        Some((l, g)) => (prune_spec(local, l), prune_spec(global, g)),
        None => (local, global),
    }
}

/// Assembles the new CFF from its parts.
pub open spec fn cff_assemble(
    names: Seq<Seq<u8>>,
    pt: Seq<u8>,
    strings: Seq<Seq<u8>>,
    gsubrs: Seq<Seq<u8>>,
    charset: Seq<u8>,
    css: Seq<Seq<u8>>,
    private: Seq<u8>,
    local: Option<Seq<Seq<u8>>>,
) -> Seq<u8> {
    let name_bytes = write_index_spec(names);
    let string_bytes = write_index_spec(strings);
    let gsubr_bytes = write_index_spec(gsubrs);
    let cs_bytes = write_index_spec(css);
    let local_bytes = match local {
        Some(l) => write_index_spec(l),
        None => Seq::empty(),
    };
    let top0 = write_index_spec(seq![top_dict(pt, 0, 0, private.len() as int, 0)]);
    let charset_at = (4 + name_bytes.len() + top0.len() + string_bytes.len() + gsubr_bytes.len()) as int;
    let charstrings_at = charset_at + charset.len();
    let private_at = charstrings_at + cs_bytes.len();
    let top = write_index_spec(seq![top_dict(pt, charset_at, charstrings_at, private.len() as int, private_at)]);
    seq![1u8, 0u8, 4u8, 4u8] + name_bytes + top + string_bytes + gsubr_bytes + charset + cs_bytes + private + local_bytes
}

/// The new CFF from its parts: the subroutines trimmed to what the
/// retained charstrings reach, the strings taken, and the layout.
pub open spec fn cff_finish_spec(
    names: Seq<Seq<u8>>,
    pt: Seq<u8>,
    list: Seq<u16>,
    strings: Seq<Seq<u8>>,
    gsubrs: Seq<Seq<u8>>,
    css: Seq<Seq<u8>>,
    cb: Seq<u8>,
    private: Seq<u8>,
    local: Option<Seq<Seq<u8>>>,
) -> Seq<u8> {
    let lsub = match local {
        Some(x) => x,
        None => Seq::empty(),
    };
    let kept = kept_subrs(css, lsub, gsubrs);
    cff_assemble(
        names,
        pt,
        pool_items(list, strings),
        kept.1,
        seq![0u8] + cb,
        css,
        private,
        match local {
            Some(_) => Some(kept.0),
            None => None,
        },
    )
}

/// Where the charset starts, per the Top DICT (0, the predefined one,
/// when it names none).
pub open spec fn charset_offset(es: Seq<EntryV>) -> i32 {
    match find_from(es, 15, 0) {
        Some(k) => match last_int(es[k]) {
            Some(v) => v,
            None => 0,
        },
        None => 0,
    }
}

/// The new CFF given the font's INDEXes and its Top DICT entries.
pub open spec fn cff_from_dict(
    cff: Seq<u8>,
    gids: Seq<u16>,
    names: Seq<Seq<u8>>,
    strings: Seq<Seq<u8>>,
    gsubrs: Seq<Seq<u8>>,
    es: Seq<EntryV>,
) -> Option<Seq<u8>> {
    if find_from(es, 0x0c1e, 0) is Some {
        None
    } else {
        match (find_from(es, 17, 0), find_from(es, 18, 0)) {
            (Some(ci), Some(pi)) => match last_int(es[ci]) {
                None => None,
                Some(cso) => if es[pi].2.len() < 2 {
                    None
                } else {
                    match read_index_spec(cff, (cso as usize) as int) {
                        None => None,
                        Some((chs, _)) => match charset_spec(cff, (charset_offset(es) as usize) as int, chs.len() as int) {
                            None => None,
                            Some(sids) => match passthrough_from(es, es.len() as int, Seq::empty(), strings.len() as int) {
                                None => None,
                                Some((pt, l1)) => match glyphs_from(gids, gids.len() as int, chs, sids, l1, strings.len() as int) {
                                    None => None,
                                    Some((css, cb, l2)) => match cff_private(
                                        cff,
                                        (es[pi].2[0] as usize) as int,
                                        (es[pi].2[1] as usize) as int,
                                    ) {
                                        None => None,
                                        Some((private, local)) => Some(
                                            cff_finish_spec(names, pt, l2, strings, gsubrs, css, cb, private, local),
                                        ),
                                    },
                                },
                            },
                        },
                    }
                },
            },
            _ => None,
        }
    }
}

/// A name-keyed CFF rebuilt around the glyphs `gids` (in their new order):
/// their charstrings and glyph names, the Top DICT's own strings, and
/// the Private DICT; subroutines no retained charstring reaches are
/// emptied. `None` for a CID-keyed font or anything that does not read.
pub open spec fn subset_cff_spec(cff: Seq<u8>, gids: Seq<u16>) -> Option<Seq<u8>> {
    match cff_indexes(cff) {
        None => None,
        Some((names, tops, strings, gsubrs)) => if tops.len() == 0 {
            None
        } else {
            match parse_dict_spec(tops[0]) {
                None => None,
                Some(es) => cff_from_dict(cff, gids, names, strings, gsubrs, es),
            }
        },
    }
}

/// The last operand of an entry.
fn last_operand(e: &DictEntry) -> (r: Option<i32>)
    ensures
        r == last_int(entry_view(*e)),
{
    if e.ints.len() == 0 {
        None
    } else {
        Some(e.ints[e.ints.len() - 1])
    }
}

/// The Top DICT bytes carried over (see `passthrough_from`), and the
/// strings taken.
fn passthrough(es: &Vec<DictEntry>, list: &mut Vec<u16>, nstr: usize) -> (r: Option<Vec<u8>>)
    requires
        old(list)@.len() == 0,
    ensures
        pool_ok(final(list)@, nstr as int),
        match passthrough_from(entries_view(es@), es@.len() as int, Seq::empty(), nstr as int) {
            Some((bytes, l)) => r matches Some(v) && v@ == bytes && final(list)@ == l,
            None => r is None,
        },
{
    let mut out: Vec<u8> = Vec::new();
    let mut k: usize = 0;
    while k < es.len()
        invariant
            k <= es@.len(),
            passthrough_from(entries_view(es@), k as int, Seq::empty(), nstr as int) == Some((out@, list@)),
            pool_ok(list@, nstr as int),
        decreases es@.len() - k,
    {
        let e = &es[k];
        let op = e.op;
        proof {
            assert(entries_view(es@)[k as int] == entry_view(es@[k as int]));
        }
        if op == 15 || op == 16 || op == 17 || op == 18 {
        } else if op <= 4 || op == 0x0c00 || op == 0x0c15 || op == 0x0c16 {
            let v = match last_operand(e) {
                Some(v) => v,
                None => {
                    proof {
                        lemma_passthrough_none(entries_view(es@), k + 1, es@.len() as int, nstr as int);
                    }
                    return None;
                },
            };
            if v < 0 || v > 0xFFFF {
                proof {
                    lemma_passthrough_none(entries_view(es@), k + 1, es@.len() as int, nstr as int);
                }
                return None;
            }
            let ns = match intern(list, v as u16, nstr) {
                Some(x) => x,
                None => {
                    proof {
                        lemma_passthrough_none(entries_view(es@), k + 1, es@.len() as int, nstr as int);
                    }
                    return None;
                },
            };
            push_dict_int(&mut out, ns as i32);
            push_op(&mut out, op);
        } else {
            crate::bytes::push_all(&mut out, e.raw.as_slice());
            push_op(&mut out, op);
        }
        k += 1;
    }
    Some(out)
}

proof fn lemma_passthrough_none(es: Seq<EntryV>, k: int, m: int, nstr: int)
    requires
        0 < k <= m,
        passthrough_from(es, k, Seq::empty(), nstr) is None,
    ensures
        passthrough_from(es, m, Seq::empty(), nstr) is None,
    decreases m - k,
{
    if k < m {
        lemma_passthrough_none(es, k + 1, m, nstr);
    }
}

proof fn lemma_glyphs_none(gids: Seq<u16>, k: int, m: int, chs: Seq<Seq<u8>>, sids: Seq<u16>, list: Seq<u16>, nstr: int)
    requires
        0 < k <= m,
        glyphs_from(gids, k, chs, sids, list, nstr) is None,
    ensures
        glyphs_from(gids, m, chs, sids, list, nstr) is None,
    decreases m - k,
{
    if k < m {
        lemma_glyphs_none(gids, k + 1, m, chs, sids, list, nstr);
    }
}

/// The retained glyphs' charstrings and charset entries (see
/// `glyphs_from`).
fn glyph_parts(
    gids: &[u16],
    chs: &Vec<Vec<u8>>,
    sids: &Vec<u16>,
    list: &mut Vec<u16>,
    nstr: usize,
) -> (r: Option<(Vec<Vec<u8>>, Vec<u8>)>)
    requires
        pool_ok(old(list)@, nstr as int),
    ensures
        pool_ok(final(list)@, nstr as int),
        match glyphs_from(gids@, gids@.len() as int, views(chs@), sids@, old(list)@, nstr as int) {
            Some((css, cb, l)) => r matches Some((v, b)) && views(v@) == css && b@ == cb && final(list)@ == l,
            None => r is None,
        },
{
    let ghost l0 = list@;
    let mut css: Vec<Vec<u8>> = Vec::new();
    let mut cb: Vec<u8> = Vec::new();
    let mut k: usize = 0;
    while k < gids.len()
        invariant
            k <= gids@.len(),
            l0 == old(list)@,
            glyphs_from(gids@, k as int, views(chs@), sids@, l0, nstr as int) == Some((views(css@), cb@, list@)),
            pool_ok(list@, nstr as int),
        decreases gids@.len() - k,
    {
        let og = gids[k] as usize;
        if og >= chs.len() {
            proof {
                lemma_glyphs_none(gids@, k + 1, gids@.len() as int, views(chs@), sids@, l0, nstr as int);
            }
            return None;
        }
        let ghost before = views(css@);
        css.push(chs[og].clone());
        proof {
            assert(views(css@) =~= before.push(views(chs@)[og as int]));
        }
        if k > 0 {
            if og >= sids.len() {
                proof {
                    lemma_glyphs_none(gids@, k + 1, gids@.len() as int, views(chs@), sids@, l0, nstr as int);
                }
                return None;
            }
            let ns = match intern(list, sids[og], nstr) {
                Some(x) => x,
                None => {
                    proof {
                        lemma_glyphs_none(gids@, k + 1, gids@.len() as int, views(chs@), sids@, l0, nstr as int);
                    }
                    return None;
                },
            };
            push_u16(&mut cb, ns);
        }
        k += 1;
    }
    Some((css, cb))
}

/// The Private DICT entries other than `Subrs`, re-emitted.
fn private_plain_bytes(es: &Vec<DictEntry>) -> (r: Vec<u8>)
    ensures
        r@ == private_plain(entries_view(es@)),
{
    let mut out: Vec<u8> = Vec::new();
    let mut k: usize = 0;
    while k < es.len()
        invariant
            k <= es@.len(),
            out@ == private_plain(entries_view(es@).take(k as int)),
        decreases es@.len() - k,
    {
        proof {
            assert(entries_view(es@).take(k + 1).drop_last() =~= entries_view(es@).take(k as int));
            assert(entries_view(es@)[k as int] == entry_view(es@[k as int]));
        }
        let e = &es[k];
        if e.op != 19 {
            crate::bytes::push_all(&mut out, e.raw.as_slice());
            push_op(&mut out, e.op);
        }
        proof {
            assert(out@ =~= private_plain(entries_view(es@).take(k + 1)));
        }
        k += 1;
    }
    assert(entries_view(es@).take(es@.len() as int) =~= entries_view(es@));
    out
}

/// The Private DICT and local subroutines (see `cff_private`).
#[verifier::rlimit(30)]
fn read_private(cff: &[u8], psize: usize, poff: usize) -> (r: Option<(Vec<u8>, Option<Vec<Vec<u8>>>)>)
    ensures
        match cff_private(cff@, psize as int, poff as int) {
            Some((p, l)) => r matches Some((pv, lv)) && pv@ == p && match l {
                Some(items) => lv matches Some(x) && views(x@) == items,
                None => lv is None,
            },
            None => r is None,
        },
{
    if poff > cff.len() || psize > cff.len() - poff {
        return None;
    }
    let dict = vstd::slice::slice_subrange(cff, poff, poff + psize);
    assert(dict@ == cff@.subrange(poff as int, poff + psize));
    let pes = match parse_dict(dict) {
        Some(x) => x,
        None => {
            return None;
        },
    };
    let ghost pe = entries_view(pes@);
    assert(parse_dict_spec(cff@.subrange(poff as int, poff + psize)) == Some(pe));
    let mut plain = private_plain_bytes(&pes);
    match find_entry(&pes, 19) {
        None => {
            assert(find_from(pe, 19, 0) is None);
            Some((plain, None))
        },
        Some(j) => {
            proof {
                assert(pe[j as int] == entry_view(pes@[j as int]));
                assert(find_from(pe, 19, 0) == Some(j as int));
            }
            let v = match last_operand(&pes[j]) {
                Some(v) => v,
                None => {
                    assert(last_int(pe[j as int]) is None);
                    return None;
                },
            };
            assert(last_int(pe[j as int]) == Some(v));
            let rel = v as usize;
            if rel > usize::MAX - poff {
                proof {
                    assert(read_index_spec(cff@, poff + (v as usize)) is None) by {
                        assert(u16_at(cff@, poff + (v as usize)) is None);
                    }
                }
                return None;
            }
            let subrs = match read_index(cff, poff + rel) {
                Some((items, _)) => items,
                None => {
                    assert(read_index_spec(cff@, poff + (v as usize)) is None);
                    return None;
                },
            };
            let n = plain.len() as u128 + 6;
            push_dict_int(&mut plain, #[verifier::truncate] (n as i32));
            push_op(&mut plain, 19);
            Some((plain, Some(subrs)))
        },
    }
}


/// The new Top DICT (see `top_dict`).
fn build_top(pt: &Vec<u8>, charset_at: u128, charstrings_at: u128, priv_len: u128, private_at: u128) -> (r: Vec<u8>)
    ensures
        r@ == top_dict(pt@, charset_at as int, charstrings_at as int, priv_len as int, private_at as int),
{
    let mut t: Vec<u8> = Vec::new();
    crate::bytes::push_all(&mut t, pt.as_slice());
    push_dict_int(&mut t, #[verifier::truncate] (charset_at as i32));
    push_op(&mut t, 15);
    push_dict_int(&mut t, #[verifier::truncate] (charstrings_at as i32));
    push_op(&mut t, 17);
    push_dict_int(&mut t, #[verifier::truncate] (priv_len as i32));
    push_dict_int(&mut t, #[verifier::truncate] (private_at as i32));
    push_op(&mut t, 18);
    assert(t@ =~= top_dict(pt@, charset_at as int, charstrings_at as int, priv_len as int, private_at as int));
    t
}

/// A one-item INDEX holding `item`.
fn index_of_one(item: Vec<u8>) -> (r: Vec<u8>)
    ensures
        r@ == write_index_spec(seq![item@]),
{
    let mut v: Vec<Vec<u8>> = Vec::new();
    let ghost it = item@;
    v.push(item);
    assert(views(v@) =~= seq![it]);
    write_index(&v)
}

/// The new CFF from its parts (see `cff_finish_spec`).
#[verifier::rlimit(40)]
fn cff_finish(
    names: &Vec<Vec<u8>>,
    pt: &Vec<u8>,
    list: &Vec<u16>,
    strings: &Vec<Vec<u8>>,
    gsubrs: &Vec<Vec<u8>>,
    css: &Vec<Vec<u8>>,
    cb: &Vec<u8>,
    private: &Vec<u8>,
    local: Option<Vec<Vec<u8>>>,
) -> (r: Vec<u8>)
    requires
        pool_ok(list@, strings@.len() as int),
    ensures
        r@ == cff_finish_spec(
            views(names@),
            pt@,
            list@,
            views(strings@),
            views(gsubrs@),
            views(css@),
            cb@,
            private@,
            match local {
                Some(x) => Some(views(x@)),
                None => None,
            },
        ),
{
    let has_local = local.is_some();
    let ghost lopt = match &local {
        Some(x) => Some(views(x@)),
        None => None::<Seq<Seq<u8>>>,
    };
    let lsub: Vec<Vec<u8>> = match local {
        Some(x) => x,
        None => Vec::new(),
    };
    assert(views(lsub@) == match lopt {
        Some(x) => x,
        None => Seq::<Seq<u8>>::empty(),
    }) by {
        if !has_local {
            assert(views(lsub@) =~= Seq::<Seq<u8>>::empty());
        }
    }
    let (kept_local, kept_global) = match collect_subr_use(css, &lsub, gsubrs) {
        Some((lu, gu)) => (prune_index(&lsub, &lu), prune_index(gsubrs, &gu)),
        None => (lsub.clone(), gsubrs.clone()),
    };
    proof {
        let k = kept_subrs(views(css@), views(lsub@), views(gsubrs@));
        assert(views(kept_local@) =~= k.0);
        assert(views(kept_global@) =~= k.1);
    }
    let pool = pool_strings(list, strings);
    let name_bytes = write_index(names);
    let string_bytes = write_index(&pool);
    let gsubr_bytes = write_index(&kept_global);
    let cs_bytes = write_index(css);
    let local_bytes: Vec<u8> = if has_local { write_index(&kept_local) } else { Vec::new() };
    let mut charset: Vec<u8> = Vec::new();
    charset.push(0);
    crate::bytes::push_all(&mut charset, cb.as_slice());
    let priv_len = private.len() as u128;
    let top0 = index_of_one(build_top(pt, 0, 0, priv_len, 0));
    let charset_at: u128 = 4 + name_bytes.len() as u128 + top0.len() as u128 + string_bytes.len() as u128
        + gsubr_bytes.len() as u128;
    let charstrings_at: u128 = charset_at + charset.len() as u128;
    let private_at: u128 = charstrings_at + cs_bytes.len() as u128;
    let top = index_of_one(build_top(pt, charset_at, charstrings_at, priv_len, private_at));
    let mut out: Vec<u8> = Vec::new();
    out.push(1);
    out.push(0);
    out.push(4);
    out.push(4);
    crate::bytes::push_all(&mut out, name_bytes.as_slice());
    crate::bytes::push_all(&mut out, top.as_slice());
    crate::bytes::push_all(&mut out, string_bytes.as_slice());
    crate::bytes::push_all(&mut out, gsubr_bytes.as_slice());
    crate::bytes::push_all(&mut out, charset.as_slice());
    crate::bytes::push_all(&mut out, cs_bytes.as_slice());
    crate::bytes::push_all(&mut out, private.as_slice());
    crate::bytes::push_all(&mut out, local_bytes.as_slice());
    proof {
        assert(charset@ =~= seq![0u8] + cb@);
        let lv = if has_local { Some(views(kept_local@)) } else { None::<Seq<Seq<u8>>> };
        assert(out@ =~= cff_assemble(
            views(names@),
            pt@,
            views(pool@),
            views(kept_global@),
            charset@,
            views(css@),
            private@,
            lv,
        ));
    }
    out
}

/// The new CFF given the font's INDEXes and Top DICT (see
/// `cff_from_dict`).
#[verifier::rlimit(40)]
fn cff_rebuild(
    cff: &[u8],
    gids: &[u16],
    names: &Vec<Vec<u8>>,
    strings: &Vec<Vec<u8>>,
    gsubrs: &Vec<Vec<u8>>,
    es: &Vec<DictEntry>,
) -> (r: Option<Vec<u8>>)
    ensures
        match cff_from_dict(cff@, gids@, views(names@), views(strings@), views(gsubrs@), entries_view(es@)) {
            Some(out) => r matches Some(v) && v@ == out,
            None => r is None,
        },
{
    let ghost ev = entries_view(es@);
    if find_entry(es, 0x0c1e).is_some() {
        return None;
    }
    let ci = match find_entry(es, 17) {
        Some(i) => i,
        None => {
            return None;
        },
    };
    let pi = match find_entry(es, 18) {
        Some(i) => i,
        None => {
            return None;
        },
    };
    assert(ev[ci as int] == entry_view(es@[ci as int]));
    assert(ev[pi as int] == entry_view(es@[pi as int]));
    let cso = match last_operand(&es[ci]) {
        Some(v) => v,
        None => {
            return None;
        },
    };
    if es[pi].ints.len() < 2 {
        return None;
    }
    let charset_off: i32 = match find_entry(es, 15) {
        Some(k) => {
            assert(ev[k as int] == entry_view(es@[k as int]));
            match last_operand(&es[k]) {
                Some(v) => v,
                None => 0,
            }
        },
        None => 0,
    };
    assert(charset_off == charset_offset(ev));
    let (chs, _) = match read_index(cff, #[verifier::truncate] (cso as usize)) {
        Some(x) => x,
        None => {
            return None;
        },
    };
    let sids = match read_charset(cff, #[verifier::truncate] (charset_off as usize), chs.len()) {
        Some(x) => x,
        None => {
            return None;
        },
    };
    let mut list: Vec<u16> = Vec::new();
    let pt = match passthrough(es, &mut list, strings.len()) {
        Some(x) => x,
        None => {
            return None;
        },
    };
    let (css, cb) = match glyph_parts(gids, &chs, &sids, &mut list, strings.len()) {
        Some(x) => x,
        None => {
            return None;
        },
    };
    let psize = #[verifier::truncate] (es[pi].ints[0] as usize);
    let poff = #[verifier::truncate] (es[pi].ints[1] as usize);
    let (private, local) = match read_private(cff, psize, poff) {
        Some(x) => x,
        None => {
            return None;
        },
    };
    Some(cff_finish(names, &pt, &list, strings, gsubrs, &css, &cb, &private, local))
}

/// Rebuilds a name-keyed CFF around the glyphs `gids`, in their new order
/// (see `subset_cff_spec`).
pub fn subset_cff(cff: &[u8], gids: &[u16]) -> (r: Option<Vec<u8>>)
    ensures
        match subset_cff_spec(cff@, gids@) {
            Some(out) => r matches Some(v) && v@ == out,
            None => r is None,
        },
{
    if cff.len() <= 2 {
        return None;
    }
    let hdr = cff[2] as usize;
    let (names, e1) = match read_index(cff, hdr) {
        Some(x) => x,
        None => {
            return None;
        },
    };
    let (tops, e2) = match read_index(cff, e1) {
        Some(x) => x,
        None => {
            return None;
        },
    };
    let (strings, e3) = match read_index(cff, e2) {
        Some(x) => x,
        None => {
            return None;
        },
    };
    let (gsubrs, _) = match read_index(cff, e3) {
        Some(x) => x,
        None => {
            return None;
        },
    };
    assert(cff_indexes(cff@) == Some((views(names@), views(tops@), views(strings@), views(gsubrs@))));
    if tops.len() == 0 {
        return None;
    }
    assert(views(tops@)[0] == tops@[0]@);
    let es = match parse_dict(tops[0].as_slice()) {
        Some(x) => x,
        None => {
            return None;
        },
    };
    cff_rebuild(cff, gids, &names, &strings, &gsubrs, &es)
}

/// The strings the list names, copied out of the String INDEX.
fn pool_strings(list: &Vec<u16>, strings: &Vec<Vec<u8>>) -> (r: Vec<Vec<u8>>)
    requires
        forall|j: int| 0 <= j < list@.len() ==> 391 <= #[trigger] list@[j] && list@[j] - 391 < strings@.len(),
    ensures
        views(r@) == pool_items(list@, views(strings@)),
{
    let mut out: Vec<Vec<u8>> = Vec::new();
    let mut j: usize = 0;
    while j < list.len()
        invariant
            j <= list@.len(),
            forall|k: int| 0 <= k < list@.len() ==> 391 <= #[trigger] list@[k] && list@[k] - 391 < strings@.len(),
            views(out@) == pool_items(list@.take(j as int), views(strings@)),
        decreases list@.len() - j,
    {
        let s = list[j];
        let ghost before = views(out@);
        out.push(strings[(s - 391) as usize].clone());
        proof {
            assert(views(out@) =~= before.push(views(strings@)[s - 391]));
            assert(views(out@) =~= pool_items(list@.take(j + 1), views(strings@)));
        }
        j += 1;
    }
    assert(list@.take(list@.len() as int) =~= list@);
    out
}


// ------------------------------------------------------------------ cmap

/// `2` to the power `k`.
pub open spec fn two_pow(k: nat) -> int
    decreases k,
{
    if k == 0 { 1 } else { 2 * two_pow((k - 1) as nat) }
}

/// The largest `k` with `2^k <= n` (0 for `n <= 1`): the binary-search
/// `entrySelector` of sfnt tables.
pub open spec fn floor_log2(n: int) -> nat
    decreases n,
{
    if n <= 1 { 0 } else { 1 + floor_log2(n / 2) }
}

proof fn lemma_floor_log2(n: int, k: nat)
    requires
        two_pow(k) <= n < 2 * two_pow(k),
    ensures
        floor_log2(n) == k,
    decreases k,
{
    if k > 0 {
        lemma_floor_log2(n / 2, (k - 1) as nat);
    }
}

proof fn lemma_two_pow_pos(k: nat)
    ensures
        two_pow(k) >= 1,
    decreases k,
{
    if k > 0 {
        lemma_two_pow_pos((k - 1) as nat);
    }
}

/// `floor_log2(n)` and `2` to that power, for `n >= 1`.
fn log2_floor(n: usize) -> (r: (usize, usize))
    requires
        n >= 1,
    ensures
        r.0 == floor_log2(n as int),
        r.1 == two_pow(r.0 as nat),
        r.0 < r.1 <= n,
{
    let mut k: usize = 0;
    let mut p: usize = 1;
    while p <= n / 2
        invariant
            1 <= p <= n,
            p == two_pow(k as nat),
            p >= k + 1,
        decreases n - p,
    {
        p = p * 2;
        k = k + 1;
    }
    proof {
        lemma_floor_log2(n as int, k as nat);
    }
    (k, p)
}

/// The format 4 segments for the first `k` mappings: runs in which the
/// character and the glyph both advance by one share a segment (start,
/// end, and the `idDelta` taking one to the other); characters from
/// `0xFFFF` up are left out.
pub open spec fn segs_from(mapping: Seq<(u32, u16)>, k: int) -> Seq<(u16, u16, u16)>
    decreases k,
{
    if k <= 0 {
        Seq::empty()
    } else {
        let segs = segs_from(mapping, k - 1);
        let (c, g) = mapping[k - 1];
        if c >= 0xFFFF {
            segs
        } else if segs.len() > 0 && c == segs.last().1 + 1 && g == (c + segs.last().2) % 0x10000 {
            segs.update(segs.len() - 1, (segs.last().0, c as u16, segs.last().2))
        } else {
            segs.push((c as u16, c as u16, ((g - c + 0x10000) % 0x10000) as u16))
        }
    }
}

/// The segments, with the mandatory final `0xFFFF` one.
pub open spec fn format4_segs(mapping: Seq<(u32, u16)>) -> Seq<(u16, u16, u16)> {
    segs_from(mapping, mapping.len() as int).push((0xFFFFu16, 0xFFFFu16, 1u16))
}

/// One 16-bit field of every segment, in order.
pub open spec fn seg_column(segs: Seq<(u16, u16, u16)>, which: int) -> Seq<u8>
    decreases segs.len(),
{
    if segs.len() == 0 {
        Seq::empty()
    } else {
        let s = segs.last();
        seg_column(segs.drop_last(), which) + word16(
            if which == 0 { s.0 as int } else if which == 1 { s.1 as int } else if which == 2 { s.2 as int } else { 0 },
        )
    }
}

/// A format 4 subtable mapping each character below `0xFFFF` through
/// `idDelta` alone; `None` when it would need 65536 or more segments.
pub open spec fn format4_spec(mapping: Seq<(u32, u16)>) -> Option<Seq<u8>> {
    let segs = format4_segs(mapping);
    let sc = segs.len() as int;
    let es = floor_log2(sc);
    if es >= 16 {
        None
    } else {
        let sr = (2 * two_pow(es)) % 0x10000;
        let sc2 = (sc * 2) % 0x10000;
        Some(
            word16(4) + word16(16 + 8 * sc) + word16(0) + word16(sc2) + word16(sr) + word16(es as int) + word16(sc2 - sr)
                + seg_column(segs, 1) + word16(0) + seg_column(segs, 0) + seg_column(segs, 2) + seg_column(segs, 3),
        )
    }
}

/// Appends one field of every segment.
fn push_column(out: &mut Vec<u8>, segs: &Vec<(u16, u16, u16)>, which: usize)
    ensures
        final(out)@ == old(out)@ + seg_column(segs@, which as int),
{
    let mut i: usize = 0;
    while i < segs.len()
        invariant
            i <= segs@.len(),
            out@ == old(out)@ + seg_column(segs@.take(i as int), which as int),
        decreases segs@.len() - i,
    {
        let s = segs[i];
        let v = if which == 0 { s.0 } else if which == 1 { s.1 } else if which == 2 { s.2 } else { 0 };
        push_u16(out, v);
        proof {
            assert(segs@.take(i + 1).drop_last() =~= segs@.take(i as int));
            assert(out@ =~= old(out)@ + seg_column(segs@.take(i + 1), which as int));
        }
        i += 1;
    }
    assert(segs@.take(segs@.len() as int) =~= segs@);
}

/// The format 4 segments of a mapping (see `format4_segs`).
fn build_segs(mapping: &Vec<(u32, u16)>) -> (r: Vec<(u16, u16, u16)>)
    ensures
        r@ == format4_segs(mapping@),
{
    let mut segs: Vec<(u16, u16, u16)> = Vec::new();
    let mut k: usize = 0;
    while k < mapping.len()
        invariant
            k <= mapping@.len(),
            segs@ == segs_from(mapping@, k as int),
            forall|j: int| 0 <= j < segs@.len() ==> (#[trigger] segs@[j]).1 < 0xFFFF,
        decreases mapping@.len() - k,
    {
        let (c, g) = mapping[k];
        if c < 0xFFFF {
            let c16 = c as u16;
            let n = segs.len();
            if n > 0 && c16 == segs[n - 1].1 + 1 && (g as u32) == (c + segs[n - 1].2 as u32) % 0x10000 {
                let last = segs[n - 1];
                segs.set(n - 1, (last.0, c16, last.2));
            } else {
                let delta = ((g as u32 + 0x10000 - c) % 0x10000) as u16;
                segs.push((c16, c16, delta));
            }
        }
        k += 1;
    }
    segs.push((0xFFFF, 0xFFFF, 1));
    segs
}

/// Writes a format 4 subtable (see `format4_spec`).
pub fn write_format4(mapping: &Vec<(u32, u16)>) -> (r: Option<Vec<u8>>)
    ensures
        match format4_spec(mapping@) {
            Some(t) => r matches Some(v) && v@ == t,
            None => r is None,
        },
{
    let segs = build_segs(mapping);
    let sc = segs.len();
    let (es, p) = log2_floor(sc);
    if es >= 16 {
        return None;
    }
    let sr = ((2 * p as u128) % 0x10000) as u16;
    let sc2 = ((sc as u128 * 2) % 0x10000) as u16;
    let mut t: Vec<u8> = Vec::new();
    push_u16(&mut t, 4);
    push_u16(&mut t, ((16 + 8 * sc as u128) % 0x10000) as u16);
    push_u16(&mut t, 0);
    push_u16(&mut t, sc2);
    push_u16(&mut t, sr);
    push_u16(&mut t, es as u16);
    push_u16(&mut t, ((sc2 as u32 + 0x10000 - sr as u32) % 0x10000) as u16);
    push_column(&mut t, &segs, 1);
    push_u16(&mut t, 0);
    push_column(&mut t, &segs, 0);
    push_column(&mut t, &segs, 2);
    push_column(&mut t, &segs, 3);
    proof {
        lemma_word16_mod(16 + 8 * sc);
        assert(word16(((sc2 as u32 + 0x10000 - sr as u32) % 0x10000) as int) == word16(sc2 - sr)) by {
            lemma_word16_mod(sc2 + 0x10000 - sr);
            lemma_word16_mod_neg(sc2 - sr);
        }
        assert(t@ =~= format4_spec(mapping@).unwrap());
    }
    Some(t)
}

/// Adding 65536 leaves the low 16 bits alone.
proof fn lemma_word16_mod_neg(n: int)
    ensures
        word16(n + 0x10000) == word16(n),
{
    assert((n + 0x10000) / 256 == n / 256 + 256) by (nonlinear_arith);
    assert((n / 256 + 256) % 256 == (n / 256) % 256) by (nonlinear_arith);
    assert((n + 0x10000) % 256 == n % 256) by (nonlinear_arith);
    assert(word16(n + 0x10000) =~= word16(n));
}


/// The format 12 groups for the first `k` mappings: runs in which the
/// character and the glyph both advance by one share a group (first
/// character, last character, first glyph).
pub open spec fn groups_from(mapping: Seq<(u32, u16)>, k: int) -> Seq<(u32, u32, u32)>
    decreases k,
{
    if k <= 0 {
        Seq::empty()
    } else {
        let gs = groups_from(mapping, k - 1);
        let (c, g) = mapping[k - 1];
        if gs.len() > 0 && c == gs.last().1 + 1 && g == gs.last().2 + (gs.last().1 - gs.last().0) + 1 {
            gs.update(gs.len() - 1, (gs.last().0, c, gs.last().2))
        } else {
            gs.push((c, c, g as u32))
        }
    }
}

/// The groups, one after another, each as three 32-bit fields.
pub open spec fn groups_bytes(gs: Seq<(u32, u32, u32)>) -> Seq<u8>
    decreases gs.len(),
{
    if gs.len() == 0 {
        Seq::empty()
    } else {
        let x = gs.last();
        groups_bytes(gs.drop_last()) + word32(x.0 as int) + word32(x.1 as int) + word32(x.2 as int)
    }
}

/// A format 12 subtable for the mapping.
pub open spec fn format12_spec(mapping: Seq<(u32, u16)>) -> Seq<u8> {
    let gs = groups_from(mapping, mapping.len() as int);
    word16(12) + word16(0) + word32((16 + 12 * (gs.len() as int)) % 0x1_0000_0000) + word32(0) + word32(
        (gs.len() as int) % 0x1_0000_0000,
    ) + groups_bytes(gs)
}

/// Every character is a Unicode scalar value, as those of a `char` are.
pub open spec fn chars_ok(mapping: Seq<(u32, u16)>) -> bool {
    forall|i: int| 0 <= i < mapping.len() ==> (#[trigger] mapping[i]).0 <= 0x10FFFF
}

/// Writes a format 12 subtable (see `format12_spec`).
pub fn write_format12(mapping: &Vec<(u32, u16)>) -> (r: Vec<u8>)
    requires
        chars_ok(mapping@),
    ensures
        r@ == format12_spec(mapping@),
{
    let mut gs: Vec<(u32, u32, u32)> = Vec::new();
    let mut k: usize = 0;
    while k < mapping.len()
        invariant
            k <= mapping@.len(),
            chars_ok(mapping@),
            gs@ == groups_from(mapping@, k as int),
            forall|j: int| 0 <= j < gs@.len() ==> (#[trigger] gs@[j]).0 <= gs@[j].1 <= 0x10FFFF && gs@[j].2 <= 0xFFFF
                + 0x10FFFF,
        decreases mapping@.len() - k,
    {
        let (c, g) = mapping[k];
        let n = gs.len();
        if n > 0 && c == gs[n - 1].1 + 1 && g as u32 == gs[n - 1].2 + (gs[n - 1].1 - gs[n - 1].0) + 1 {
            let last = gs[n - 1];
            gs.set(n - 1, (last.0, c, last.2));
        } else {
            gs.push((c, c, g as u32));
        }
        k += 1;
    }
    let mut t: Vec<u8> = Vec::new();
    push_u16(&mut t, 12);
    push_u16(&mut t, 0);
    push_u32(&mut t, ((16 + 12 * gs.len() as u128) % 0x1_0000_0000) as u32);
    push_u32(&mut t, 0);
    push_u32(&mut t, ((gs.len() as u128) % 0x1_0000_0000) as u32);
    let ghost head = t@;
    let mut i: usize = 0;
    while i < gs.len()
        invariant
            i <= gs@.len(),
            t@ == head + groups_bytes(gs@.take(i as int)),
        decreases gs@.len() - i,
    {
        let x = gs[i];
        push_u32(&mut t, x.0);
        push_u32(&mut t, x.1);
        push_u32(&mut t, x.2);
        proof {
            assert(gs@.take(i + 1).drop_last() =~= gs@.take(i as int));
            assert(t@ =~= head + groups_bytes(gs@.take(i + 1)));
        }
        i += 1;
    }
    proof {
        assert(gs@.take(gs@.len() as int) =~= gs@);
        assert(t@ =~= format12_spec(mapping@));
    }
    t
}

/// Whether some character needs more than 16 bits.
pub open spec fn needs_format12(mapping: Seq<(u32, u16)>) -> bool {
    exists|i: int| 0 <= i < mapping.len() && (#[trigger] mapping[i]).0 > 0xFFFF
}

/// A `cmap` table for the mapping: a format 4 subtable, reachable from
/// both the Windows BMP and the Unicode BMP encoding records, and, when a
/// character lies above the BMP, a format 12 subtable reachable from the
/// Windows and Unicode full-repertoire records. `None` when format 4
/// cannot be written.
pub open spec fn cmap_spec(mapping: Seq<(u32, u16)>) -> Option<Seq<u8>> {
    match format4_spec(mapping) {
        None => None,
        Some(f4) => {
            let wide = needs_format12(mapping);
            let nrec: int = if wide { 4 } else { 2 };
            let header = 4 + nrec * 8;
            let rec4 = word16(0) + word16(3) + word32(header) + word16(3) + word16(1) + word32(header);
            let off12 = (header + f4.len()) % 0x1_0000_0000;
            let rec12 = word16(0) + word16(4) + word32(off12) + word16(3) + word16(10) + word32(off12);
            Some(
                word16(0) + word16(nrec) + rec4 + (if wide { rec12 } else { Seq::empty() }) + f4 + (if wide {
                    format12_spec(mapping)
                } else {
                    Seq::empty()
                }),
            )
        },
    }
}

/// Writes the `cmap` table (see `cmap_spec`).
#[verifier::spinoff_prover]
#[verifier::rlimit(40)]
pub fn write_cmap(mapping: &Vec<(u32, u16)>) -> (r: Option<Vec<u8>>)
    requires
        chars_ok(mapping@),
    ensures
        match cmap_spec(mapping@) {
            Some(t) => r matches Some(v) && v@ == t,
            None => r is None,
        },
{
    let mut wide = false;
    let mut i: usize = 0;
    while i < mapping.len()
        invariant
            i <= mapping@.len(),
            wide == exists|j: int| 0 <= j < i && (#[trigger] mapping@[j]).0 > 0xFFFF,
        decreases mapping@.len() - i,
    {
        if mapping[i].0 > 0xFFFF {
            wide = true;
        }
        i += 1;
    }
    let f4 = match write_format4(mapping) {
        Some(x) => x,
        None => {
            return None;
        },
    };
    let nrec: u32 = if wide { 4 } else { 2 };
    let header: u32 = 4 + nrec * 8;
    let f12_off: u128 = header as u128 + f4.len() as u128;
    let mut t: Vec<u8> = Vec::new();
    push_u16(&mut t, 0);
    push_u16(&mut t, nrec as u16);
    push_u16(&mut t, 0);
    push_u16(&mut t, 3);
    push_u32(&mut t, header);
    push_u16(&mut t, 3);
    push_u16(&mut t, 1);
    push_u32(&mut t, header);
    if wide {
        let off = (f12_off % 0x1_0000_0000) as u32;
        push_u16(&mut t, 0);
        push_u16(&mut t, 4);
        push_u32(&mut t, off);
        push_u16(&mut t, 3);
        push_u16(&mut t, 10);
        push_u32(&mut t, off);
    }
    crate::bytes::push_all(&mut t, f4.as_slice());
    if wide {
        let f12 = write_format12(mapping);
        crate::bytes::push_all(&mut t, f12.as_slice());
    }
    proof {
        assert(t@ =~= cmap_spec(mapping@).unwrap());
    }
    Some(t)
}


// ------------------------------------------------------------ glyf / loca

/// Where glyph `i`'s outline starts, by the `loca` table (long offsets, or
/// short ones counting 16-bit words).
pub open spec fn loca_entry(loca: Seq<u8>, i: int, long: bool) -> Option<int> {
    if long {
        u32_at(loca, i * 4)
    } else {
        match u16_at(loca, i * 2) {
            Some(v) => Some(v * 2),
            None => None,
        }
    }
}

/// The `n + 1` glyph offsets of a `loca` table, if all can be read.
pub open spec fn loca_spec(loca: Seq<u8>, n: int, long: bool) -> Option<Seq<u32>> {
    if exists|i: int| 0 <= i <= n && #[trigger] loca_entry(loca, i, long) is None {
        None
    } else {
        Some(Seq::new((n + 1) as nat, |i: int| loca_entry(loca, i, long).unwrap() as u32))
    }
}

/// Reads the glyph offsets.
pub fn read_loca(loca: &[u8], n: usize, long: bool) -> (r: Option<Vec<u32>>)
    requires
        n < 0x10000,
    ensures
        match loca_spec(loca@, n as int, long) {
            Some(v) => r matches Some(x) && x@ == v,
            None => r is None,
        },
{
    let mut out: Vec<u32> = Vec::new();
    let mut i: usize = 0;
    while i <= n
        invariant
            i <= n + 1,
            n < 0x10000,
            out@.len() == i,
            forall|j: int| 0 <= j < i ==> #[trigger] loca_entry(loca@, j, long) is Some,
            forall|j: int| 0 <= j < i ==> out@[j] == loca_entry(loca@, j, long).unwrap() as u32,
        decreases n + 1 - i,
    {
        let v = if long {
            u32at(loca, i * 4)
        } else {
            match u16at(loca, i * 2) {
                Some(w) => Some(w as u32 * 2),
                None => None,
            }
        };
        match v {
            Some(x) => {
                out.push(x);
            },
            None => {
                assert(loca_entry(loca@, i as int, long) is None);
                return None;
            },
        }
        i += 1;
    }
    assert(out@ =~= Seq::new((n + 1) as nat, |j: int| loca_entry(loca@, j, long).unwrap() as u32));
    Some(out)
}

/// Bit `k`'s value `2^k` of a 16-bit flag word, for the few bits used.
pub open spec fn has_flag(flags: int, bit: int) -> bool {
    (flags / bit) % 2 == 1
}

/// The positions of the `glyphIndex` fields of a composite glyph's
/// component records, from the record at `o` on; `None` when a record
/// runs past the end.
pub open spec fn comps_from(g: Seq<u8>, o: int) -> Option<Seq<int>>
    decreases g.len() - o,
{
    match (u16_at(g, o), u16_at(g, o + 2)) {
        (Some(flags), Some(_)) => {
            let args = if has_flag(flags, 1) { 4int } else { 2int };
            let scale = if has_flag(flags, 8) {
                2int
            } else if has_flag(flags, 0x40) {
                4int
            } else if has_flag(flags, 0x80) {
                8int
            } else {
                0int
            };
            let next = o + 4 + args + scale;
            if !has_flag(flags, 0x20) {
                Some(seq![o + 2])
            } else if next > g.len() {
                None
            } else {
                match comps_from(g, next) {
                    Some(rest) => Some(seq![o + 2] + rest),
                    None => None,
                }
            }
        },
        _ => None,
    }
}

/// The positions of a glyph's component `glyphIndex` fields: none for a
/// simple glyph (fewer than 10 bytes, or a contour count that is not
/// negative).
pub open spec fn component_spec(g: Seq<u8>) -> Option<Seq<int>> {
    if g.len() < 10 || g[0] < 0x80 {
        Some(Seq::empty())
    } else {
        comps_from(g, 10)
    }
}

/// Finds a glyph's component `glyphIndex` fields (see `component_spec`).
pub fn component_positions(g: &[u8]) -> (r: Option<Vec<usize>>)
    ensures
        match component_spec(g@) {
            Some(ps) => r matches Some(v) && v@.len() == ps.len() && forall|i: int|
                0 <= i < ps.len() ==> #[trigger] v@[i] == ps[i],
            None => r is None,
        },
{
    let mut pos: Vec<usize> = Vec::new();
    if g.len() < 10 || g[0] < 0x80 {
        return Some(pos);
    }
    let mut o: usize = 10;
    loop
        invariant
            o <= g@.len(),
            g@.len() >= 10,
            component_spec(g@) == match comps_from(g@, o as int) {
                Some(rest) => Some(Seq::new(pos@.len(), |i: int| pos@[i] as int) + rest),
                None => None::<Seq<int>>,
            },
        decreases g@.len() - o,
    {
        let flags = match u16at(g, o) {
            Some(f) => f,
            None => {
                return None;
            },
        };
        assert(o + 2 <= g.len());
        if u16at(g, o + 2).is_none() {
            return None;
        }
        let ghost before = Seq::new(pos@.len(), |i: int| pos@[i] as int);
        pos.push(o + 2);
        let args: usize = if flags % 2 == 1 { 4 } else { 2 };
        let scale: usize = if (flags / 8) % 2 == 1 {
            2
        } else if (flags / 0x40) % 2 == 1 {
            4
        } else if (flags / 0x80) % 2 == 1 {
            8
        } else {
            0
        };
        proof {
            assert(Seq::new(pos@.len(), |i: int| pos@[i] as int) =~= before + seq![o + 2]);
        }
        if (flags / 0x20) % 2 == 0 {
            proof {
                assert(Seq::new(pos@.len(), |i: int| pos@[i] as int) =~= before + seq![o + 2]);
            }
            return Some(pos);
        }
        if 4 + args + scale > g.len() - o {
            return None;
        }
        proof {
            let rest = comps_from(g@, o + 4 + args + scale);
            if let Some(x) = rest {
                assert(before + (seq![o + 2] + x) =~= (before + seq![o + 2]) + x);
            }
        }
        o = o + 4 + args + scale;
    }
}


/// Glyph `g`'s outline bytes: empty when its `loca` range is, `None` when
/// the range runs past the `glyf` table.
pub open spec fn glyph_data(glyf: Seq<u8>, loca: Seq<u32>, g: int) -> Option<Seq<u8>> {
    let s = loca[g] as int;
    let e = loca[g + 1] as int;
    if e <= s {
        Some(Seq::empty())
    } else if e > glyf.len() {
        None
    } else {
        Some(glyf.subrange(s, e))
    }
}

/// The glyph ids glyph `g`'s components name, in record order.
pub open spec fn glyph_comps(glyf: Seq<u8>, loca: Seq<u32>, g: int) -> Option<Seq<int>> {
    match glyph_data(glyf, loca, g) {
        None => None,
        Some(gd) => match component_spec(gd) {
            None => None,
            Some(ps) => if exists|i: int| 0 <= i < ps.len() && #[trigger] u16_at(gd, ps[i]) is None {
                None
            } else {
                Some(Seq::new(ps.len(), |i: int| u16_at(gd, ps[i]).unwrap()))
            },
        },
    }
}

/// Whether glyph `g` reads and names only glyphs below `n`.
pub open spec fn glyph_ok(glyf: Seq<u8>, loca: Seq<u32>, n: int, g: int) -> bool {
    &&& glyph_comps(glyf, loca, g) is Some
    &&& forall|i: int|
        0 <= i < glyph_comps(glyf, loca, g).unwrap().len() ==> #[trigger] glyph_comps(glyf, loca, g).unwrap()[i] < n
}

/// Whether glyph `c` is a component of the readable glyph `g`.
pub open spec fn comp_edge(glyf: Seq<u8>, loca: Seq<u32>, n: int, g: int, c: int) -> bool {
    glyph_ok(glyf, loca, n, g) && glyph_comps(glyf, loca, g).unwrap().contains(c)
}

/// Whether each glyph of `p` is a component of the one before.
pub open spec fn comp_chain(glyf: Seq<u8>, loca: Seq<u32>, n: int, p: Seq<int>) -> bool {
    p.len() >= 1 && forall|i: int| 0 <= i < p.len() - 1 ==> #[trigger] comp_edge(glyf, loca, n, p[i], p[i + 1])
}

/// Whether glyph `x` is one of those marked in `start`.
pub open spec fn marked(start: Seq<bool>, x: int) -> bool {
    0 <= x < start.len() && start[x]
}

/// Whether glyph `g` is reached from a marked glyph through components.
pub open spec fn reachable(glyf: Seq<u8>, loca: Seq<u32>, n: int, start: Seq<bool>, g: int) -> bool {
    exists|p: Seq<int>| #[trigger] comp_chain(glyf, loca, n, p) && marked(start, p[0]) && p.last() == g
}

/// The component glyph ids of glyph `g` (see `glyph_comps`).
fn glyph_components(glyf: &[u8], loca: &Vec<u32>, g: usize) -> (r: Option<Vec<u16>>)
    requires
        g + 1 < loca@.len(),
    ensures
        match glyph_comps(glyf@, loca@, g as int) {
            Some(cs) => r matches Some(v) && v@.len() == cs.len() && forall|i: int|
                0 <= i < cs.len() ==> #[trigger] v@[i] as int == cs[i],
            None => r is None,
        },
{
    assert(g + 1 < loca.len());
    let s = loca[g] as usize;
    let e = loca[g + 1] as usize;
    let mut out: Vec<u16> = Vec::new();
    if e <= s {
        proof {
            assert(component_spec(Seq::<u8>::empty()) == Some(Seq::<int>::empty()));
        }
        return Some(out);
    }
    if e > glyf.len() {
        return None;
    }
    let gd = vstd::slice::slice_subrange(glyf, s, e);
    assert(gd@ == glyf@.subrange(s as int, e as int));
    let ps = match component_positions(gd) {
        Some(p) => p,
        None => {
            return None;
        },
    };
    let ghost sp = component_spec(gd@).unwrap();
    assert(glyph_data(glyf@, loca@, g as int) == Some(gd@));
    let mut i: usize = 0;
    while i < ps.len()
        invariant
            i <= ps@.len(),
            glyph_data(glyf@, loca@, g as int) == Some(gd@),
            component_spec(gd@) == Some(sp),
            ps@.len() == sp.len(),
            forall|k: int| 0 <= k < sp.len() ==> #[trigger] ps@[k] == sp[k],
            out@.len() == i,
            forall|k: int| 0 <= k < i ==> #[trigger] u16_at(gd@, sp[k]) is Some,
            forall|k: int| 0 <= k < i ==> out@[k] as int == u16_at(gd@, sp[k]).unwrap(),
        decreases ps@.len() - i,
    {
        assert(ps@[i as int] == sp[i as int]);
        match u16at(gd, ps[i]) {
            Some(v) => {
                out.push(v);
            },
            None => {
                assert(u16_at(gd@, sp[i as int]) is None);
                return None;
            },
        }
        i += 1;
    }
    assert(out@.len() == sp.len());
    Some(out)
}

/// Extending a chain by a component of its last glyph.
proof fn lemma_chain_push(glyf: Seq<u8>, loca: Seq<u32>, n: int, p: Seq<int>, c: int)
    requires
        comp_chain(glyf, loca, n, p),
        comp_edge(glyf, loca, n, p.last(), c),
    ensures
        comp_chain(glyf, loca, n, p.push(c)),
{
    let q = p.push(c);
    assert forall|i: int| 0 <= i < q.len() - 1 implies #[trigger] comp_edge(glyf, loca, n, q[i], q[i + 1]) by {
        if i < p.len() - 1 {
            assert(q[i] == p[i] && q[i + 1] == p[i + 1]);
        } else {
            assert(q[i] == p.last() && q[i + 1] == c);
        }
    }
}

/// A closed marking that holds the start holds every glyph reached.
proof fn lemma_closed_holds_reached(
    glyf: Seq<u8>,
    loca: Seq<u32>,
    n: int,
    start: Seq<bool>,
    marks: Seq<bool>,
    p: Seq<int>,
    k: int,
)
    requires
        comp_chain(glyf, loca, n, p),
        marked(start, p[0]),
        start.len() == marks.len(),
        forall|x: int| marked(start, x) ==> marked(marks, x),
        forall|x: int|
            #![trigger marked(marks, x)]
            marked(marks, x) ==> glyph_ok(glyf, loca, n, x) && forall|j: int|
                0 <= j < glyph_comps(glyf, loca, x).unwrap().len() ==> marked(
                    marks,
                    #[trigger] glyph_comps(glyf, loca, x).unwrap()[j],
                ),
        0 <= k < p.len(),
    ensures
        marked(marks, p[k]),
    decreases k,
{
    if k > 0 {
        lemma_closed_holds_reached(glyf, loca, n, start, marks, p, k - 1);
        assert(comp_edge(glyf, loca, n, p[k - 1], p[(k - 1) + 1]));
        let cs = glyph_comps(glyf, loca, p[k - 1]).unwrap();
        let j = choose|j: int| 0 <= j < cs.len() && cs[j] == p[k];
        assert(marked(marks, cs[j]));
    }
}

/// How many entries are `true`.
pub open spec fn count_true(m: Seq<bool>) -> nat
    decreases m.len(),
{
    if m.len() == 0 {
        0
    } else {
        count_true(m.drop_last()) + if m.last() { 1nat } else { 0nat }
    }
}

proof fn lemma_count_true(m: Seq<bool>, c: int)
    requires
        0 <= c < m.len(),
        !m[c],
    ensures
        count_true(m.update(c, true)) == count_true(m) + 1,
    decreases m.len(),
{
    let u = m.update(c, true);
    assert(u.drop_last() =~= if c == m.len() - 1 { m.drop_last() } else { m.drop_last().update(c, true) });
    if c < m.len() - 1 {
        lemma_count_true(m.drop_last(), c);
    }
}

proof fn lemma_count_bound(m: Seq<bool>)
    ensures
        count_true(m) <= m.len(),
    decreases m.len(),
{
    if m.len() > 0 {
        lemma_count_bound(m.drop_last());
    }
}

/// Whether glyph `x` reads and all its components are marked.
pub open spec fn settled(glyf: Seq<u8>, loca: Seq<u32>, n: int, marks: Seq<bool>, x: int) -> bool {
    glyph_ok(glyf, loca, n, x) && forall|j: int|
        0 <= j < glyph_comps(glyf, loca, x).unwrap().len() ==> marked(
            marks,
            #[trigger] glyph_comps(glyf, loca, x).unwrap()[j],
        )
}

/// Whether glyph `x` waits in the queue.
pub open spec fn queued(queue: Seq<u16>, x: int) -> bool {
    exists|j: int| 0 <= j < queue.len() && #[trigger] queue[j] == x
}

/// Marks every glyph reached from the marked ones through composite glyph
/// components. Answers `false` when some reached glyph does not read or
/// names a glyph id of `n` or more; otherwise the marks are exactly the
/// reached glyphs.
fn glyph_closure(glyf: &[u8], loca: &Vec<u32>, n: usize, marks: &mut Vec<bool>) -> (ok: bool)
    requires
        loca@.len() == n + 1,
        old(marks)@.len() == n,
        n < 0x10000,
    ensures
        final(marks)@.len() == n,
        ok ==> forall|g: int|
            0 <= g < n ==> (final(marks)@[g] <==> reachable(glyf@, loca@, n as int, old(marks)@, g)),
        ok ==> forall|g: int| reachable(glyf@, loca@, n as int, old(marks)@, g) ==> glyph_ok(glyf@, loca@, n as int, g),
        !ok ==> exists|g: int|
            reachable(glyf@, loca@, n as int, old(marks)@, g) && !glyph_ok(glyf@, loca@, n as int, g),
{
    let ghost start = marks@;
    let ghost gl = glyf@;
    let ghost lo = loca@;
    let ghost nn = n as int;
    let mut queue: Vec<u16> = Vec::new();
    let mut g: usize = 0;
    while g < n
        invariant
            g <= n < 0x10000,
            marks@ == start,
            start.len() == n,
            forall|j: int| 0 <= j < queue@.len() ==> (#[trigger] queue@[j]) < n && marked(marks@, queue@[j] as int),
            forall|x: int| 0 <= x < g && marked(marks@, x) ==> queued(queue@, x),
        decreases n - g,
    {
        if marks[g] {
            let ghost qold = queue@;
            queue.push(g as u16);
            proof {
                assert(queue@[queue@.len() - 1] == g as u16);
                assert forall|x: int| 0 <= x < g + 1 && marked(marks@, x) implies queued(queue@, x) by {
                    if x < g {
                        assert(queued(qold, x));
                        let j = choose|j: int| 0 <= j < qold.len() && #[trigger] qold[j] == x;
                        assert(queue@[j] == x);
                    } else {
                        assert(queue@[queue@.len() - 1] == x);
                    }
                }
            }
        }
        g += 1;
    }
    proof {
        assert forall|x: int| #[trigger] marked(marks@, x) implies reachable(gl, lo, nn, start, x) by {
            let p = seq![x];
            assert(comp_chain(gl, lo, nn, p));
        }
    }
    while queue.len() > 0
        invariant
            marks@.len() == n,
            n < 0x10000,
            lo.len() == n + 1,
            gl == glyf@,
            lo == loca@,
            nn == n,
            start.len() == n,
            start == old(marks)@,
            forall|x: int| marked(start, x) ==> marked(marks@, x),
            forall|x: int| #[trigger] marked(marks@, x) ==> reachable(gl, lo, nn, start, x),
            forall|j: int| 0 <= j < queue@.len() ==> (#[trigger] queue@[j]) < n && marked(marks@, queue@[j] as int),
            forall|x: int|
                #![trigger marked(marks@, x)]
                marked(marks@, x) ==> queued(queue@, x) || settled(gl, lo, nn, marks@, x),
        decreases n - count_true(marks@), queue@.len(),
    {
        proof {
            lemma_count_bound(marks@);
        }
        let ghost q_before = queue@;
        let top = queue.pop().unwrap();
        let t = top as usize;
        assert(q_before[q_before.len() - 1] == top);
        assert(marked(marks@, t as int));
        assert(reachable(gl, lo, nn, start, t as int));
        let comps = match glyph_components(glyf, loca, t) {
            Some(c) => c,
            None => {
                assert(!glyph_ok(gl, lo, nn, t as int));
                return false;
            },
        };
        let ghost cs = glyph_comps(gl, lo, t as int).unwrap();
        let mut i: usize = 0;
        while i < comps.len()
            invariant
                i <= comps@.len(),
                marks@.len() == n,
                start == old(marks)@,
                reachable(gl, lo, nn, start, t as int),
                glyph_comps(gl, lo, t as int) == Some(cs),
                gl == glyf@,
                lo == loca@,
                nn == n,
                comps@.len() == cs.len(),
                forall|k: int| 0 <= k < cs.len() ==> #[trigger] comps@[k] as int == cs[k],
                forall|k: int| 0 <= k < i ==> cs[k] < n,
            decreases comps@.len() - i,
        {
            if comps[i] as usize >= n {
                assert(!glyph_ok(gl, lo, nn, t as int)) by {
                    assert(cs[i as int] >= n);
                    assert(glyph_comps(gl, lo, t as int).unwrap()[i as int] >= n);
                }
                assert(reachable(glyf@, loca@, n as int, old(marks)@, t as int));
                return false;
            }
            i += 1;
        }
        assert(glyph_ok(gl, lo, nn, t as int));
        proof {
            assert forall|x: int| #[trigger] marked(marks@, x) && x != t implies queued(queue@, x) || settled(
                gl,
                lo,
                nn,
                marks@,
                x,
            ) by {
                if queued(q_before, x) {
                    let j = choose|j: int| 0 <= j < q_before.len() && #[trigger] q_before[j] == x;
                    if j < q_before.len() - 1 {
                        assert(queue@[j] == x);
                    }
                }
            }
        }
        let ghost marks0 = marks@;
        let ghost count0 = count_true(marks@);
        let ghost qlen0 = queue@.len();
        i = 0;
        while i < comps.len()
            invariant
                i <= comps@.len(),
                comps@.len() == cs.len(),
                forall|k: int| 0 <= k < cs.len() ==> #[trigger] comps@[k] as int == cs[k],
                cs == glyph_comps(gl, lo, t as int).unwrap(),
                glyph_ok(gl, lo, nn, t as int),
                marked(marks@, t as int),
                marks@.len() == n,
                n < 0x10000,
                gl == glyf@,
                lo == loca@,
                nn == n,
                start.len() == n,
                forall|x: int| marked(marks0, x) ==> marked(marks@, x),
                forall|x: int| marked(start, x) ==> marked(marks@, x),
                forall|x: int| #[trigger] marked(marks@, x) ==> reachable(gl, lo, nn, start, x),
                forall|j: int| 0 <= j < queue@.len() ==> (#[trigger] queue@[j]) < n && marked(marks@, queue@[j] as int),
                forall|x: int|
                    #![trigger marked(marks@, x)]
                    marked(marks@, x) && x != t ==> queued(queue@, x) || settled(gl, lo, nn, marks@, x),
                forall|k: int| 0 <= k < i ==> marked(marks@, #[trigger] cs[k]),
                count_true(marks@) - count0 == queue@.len() - qlen0,
                queue@.len() >= qlen0,
            decreases comps@.len() - i,
        {
            let c = comps[i] as usize;
            assert(c as int == cs[i as int]);
            if !marks[c] {
                let ghost before = marks@;
                let ghost qb = queue@;
                proof {
                    lemma_count_true(marks@, c as int);
                    let p = choose|p: Seq<int>| #[trigger] comp_chain(gl, lo, nn, p) && marked(start, p[0]) && p.last() == t as int;
                    assert(cs.contains(c as int)) by {
                        assert(cs[i as int] == c as int);
                    }
                    lemma_chain_push(gl, lo, nn, p, c as int);
                    assert(p.push(c as int)[0] == p[0]);
                    assert(reachable(gl, lo, nn, start, c as int));
                }
                marks.set(c, true);
                queue.push(c as u16);
                proof {
                    assert forall|x: int| #[trigger] marked(marks@, x) && x != t implies queued(queue@, x) || settled(
                        gl,
                        lo,
                        nn,
                        marks@,
                        x,
                    ) by {
                        if x == c {
                            assert(queue@[queue@.len() - 1] == x);
                        } else {
                            assert(marked(before, x));
                            if queued(qb, x) {
                                let j = choose|j: int| 0 <= j < qb.len() && #[trigger] qb[j] == x;
                                assert(queue@[j] == x);
                            } else {
                                assert(settled(gl, lo, nn, before, x));
                                assert forall|j: int|
                                    0 <= j < glyph_comps(gl, lo, x).unwrap().len() implies marked(
                                    marks@,
                                    #[trigger] glyph_comps(gl, lo, x).unwrap()[j],
                                ) by {
                                    assert(marked(before, glyph_comps(gl, lo, x).unwrap()[j]));
                                }
                            }
                        }
                    }
                    assert forall|x: int| #[trigger] marked(marks@, x) implies reachable(gl, lo, nn, start, x) by {
                        if x != c {
                            assert(marked(before, x));
                        }
                    }
                }
            }
            i += 1;
        }
        proof {
            assert(settled(gl, lo, nn, marks@, t as int));
            if count_true(marks@) == count0 {
                assert(queue@.len() == qlen0);
            }
            lemma_count_bound(marks@);
        }
    }
    proof {
        assert forall|x: int| #[trigger] marked(marks@, x) implies settled(gl, lo, nn, marks@, x) by {
            if queued(queue@, x) {
                let j = choose|j: int| 0 <= j < queue@.len() && #[trigger] queue@[j] == x;
            }
        }
        assert forall|gg: int| reachable(gl, lo, nn, start, gg) implies marked(marks@, gg) && glyph_ok(gl, lo, nn, gg) by {
            let p = choose|p: Seq<int>| #[trigger] comp_chain(gl, lo, nn, p) && marked(start, p[0]) && p.last() == gg;
            lemma_closed_holds_reached(gl, lo, nn, start, marks@, p, p.len() - 1);
            assert(settled(gl, lo, nn, marks@, gg));
        }
        assert forall|gg: int| 0 <= gg < n implies (marks@[gg] <==> reachable(gl, lo, nn, start, gg)) by {
            if marks@[gg] {
                assert(marked(marks@, gg));
            }
            if reachable(gl, lo, nn, start, gg) {
                assert(marked(marks@, gg));
            }
        }
    }
    true
}


// ------------------------------------------------------------------ gvar

/// The bytes `d[o .. o + n]`, if they are all there.
pub open spec fn slice_at(d: Seq<u8>, o: int, n: int) -> Option<Seq<u8>> {
    if 0 <= o && 0 <= n && o + n <= d.len() { Some(d.subrange(o, o + n)) } else { None }
}

/// Where glyph `i`'s variation data starts, relative to the data array.
pub open spec fn gvar_offset(gvar: Seq<u8>, i: int, long: bool) -> Option<int> {
    if long {
        u32_at(gvar, 20 + i * 4)
    } else {
        match u16_at(gvar, 20 + i * 2) {
            Some(v) => Some(v * 2),
            None => None,
        }
    }
}

/// Glyph `g`'s variation data: empty for a glyph past the table's count
/// or with an empty range.
#[verifier::opaque]
pub open spec fn gvar_blob(gvar: Seq<u8>, g: int, count: int, long: bool, data_off: int) -> Option<Seq<u8>> {
    if g >= count {
        Some(Seq::empty())
    } else {
        match (gvar_offset(gvar, g, long), gvar_offset(gvar, g + 1, long)) {
            (Some(st), Some(en)) => if en <= st {
                Some(Seq::empty())
            } else {
                slice_at(gvar, data_off + st, en - st)
            },
            _ => None,
        }
    }
}

/// A length rounded up to even.
pub open spec fn even_up(n: int) -> int {
    if n % 2 == 0 { n } else { n + 1 }
}

/// The blobs' offsets: where each starts once each is padded to even
/// length, then where the last one ends.
pub open spec fn blob_offsets(blobs: Seq<Seq<u8>>) -> Seq<u8>
    decreases blobs.len(),
{
    if blobs.len() == 0 {
        word32(0)
    } else {
        blob_offsets(blobs.drop_last()) + word32(even_total(blobs) % 0x1_0000_0000)
    }
}

/// The blobs' lengths, each rounded up to even, summed.
pub open spec fn even_total(blobs: Seq<Seq<u8>>) -> int
    decreases blobs.len(),
{
    if blobs.len() == 0 {
        0
    } else {
        even_total(blobs.drop_last()) + even_up(blobs.last().len() as int)
    }
}

/// The blobs one after another, each padded with a zero to even length.
pub open spec fn padded_blobs(blobs: Seq<Seq<u8>>) -> Seq<u8>
    decreases blobs.len(),
{
    if blobs.len() == 0 {
        Seq::empty()
    } else {
        let b = blobs.last();
        padded_blobs(blobs.drop_last()) + b + if b.len() % 2 == 1 { seq![0u8] } else { Seq::empty() }
    }
}

/// The variation data of each retained glyph, in order.
pub open spec fn gvar_blobs(gvar: Seq<u8>, gids: Seq<u16>, k: int, count: int, long: bool, data_off: int) -> Option<
    Seq<Seq<u8>>,
>
    decreases k,
{
    if k <= 0 {
        Some(Seq::empty())
    } else {
        match (gvar_blobs(gvar, gids, k - 1, count, long, data_off), gvar_blob(gvar, gids[k - 1] as int, count, long, data_off)) {
            (Some(bs), Some(b)) => Some(bs.push(b)),
            _ => None,
        }
    }
}

/// `gvar` rebuilt for the retained glyphs `gids`: the shared tuples copied
/// whole, each glyph's data moved as it is, and the offsets (long ones
/// from here on) rewritten.
pub open spec fn subset_gvar_spec(gvar: Seq<u8>, gids: Seq<u16>) -> Option<Seq<u8>> {
    match (u16_at(gvar, 4), u16_at(gvar, 6), u32_at(gvar, 8), u16_at(gvar, 12), u16_at(gvar, 14), u32_at(gvar, 16)) {
        (Some(axes), Some(shared_count), Some(shared_off), Some(count), Some(flags), Some(data_off)) => {
            let long = flags % 2 == 1;
            match slice_at(gvar, shared_off, shared_count * axes * 6) {
                None => None,
                Some(shared) => match gvar_blobs(gvar, gids, gids.len() as int, count, long, data_off) {
                    None => None,
                    Some(blobs) => {
                        let n = gids.len() as int;
                        let new_shared_off = 20 + (n + 1) * 4;
                        let new_data_off = new_shared_off + shared.len();
                        Some(
                            word16(1) + word16(0) + word16(axes) + word16(shared_count) + word32(new_shared_off % 0x1_0000_0000)
                                + word16(n) + word16(1) + word32(new_data_off % 0x1_0000_0000) + blob_offsets(blobs) + shared
                                + padded_blobs(blobs),
                        )
                    },
                },
            }
        },
        _ => None,
    }
}

/// `d[o .. o + n]`, if it is all there.
fn slice_of<'a>(d: &'a [u8], o: u128, n: u128) -> (r: Option<&'a [u8]>)
    ensures
        match slice_at(d@, o as int, n as int) {
            Some(x) => r matches Some(v) && v@ == x,
            None => r is None,
        },
{
    if o > d.len() as u128 || n > d.len() as u128 - o {
        return None;
    }
    let r = vstd::slice::slice_subrange(d, o as usize, (o + n) as usize);
    Some(r)
}

/// Where glyph `i`'s variation data starts.
fn gvar_off(gvar: &[u8], i: usize, long: bool) -> (r: Option<u32>)
    requires
        i <= 0x10000,
    ensures
        match gvar_offset(gvar@, i as int, long) {
            Some(v) => r == Some(v as u32) && v < 0x1_0000_0000,
            None => r is None,
        },
{
    if long {
        u32at(gvar, 20 + i * 4)
    } else {
        match u16at(gvar, 20 + i * 2) {
            Some(w) => Some(w as u32 * 2),
            None => None,
        }
    }
}

/// Glyph `g`'s variation data (see `gvar_blob`).
fn read_gvar_blob(gvar: &[u8], g: usize, count: usize, long: bool, data_off: u32) -> (r: Option<Vec<u8>>)
    requires
        count <= 0xFFFF,
    ensures
        match gvar_blob(gvar@, g as int, count as int, long, data_off as int) {
            Some(b) => r matches Some(v) && v@ == b,
            None => r is None,
        },
{
    reveal(gvar_blob);
    if g >= count {
        return Some(Vec::new());
    }
    let st = match gvar_off(gvar, g, long) {
        Some(v) => v,
        None => {
            return None;
        },
    };
    let en = match gvar_off(gvar, g + 1, long) {
        Some(v) => v,
        None => {
            return None;
        },
    };
    if en <= st {
        return Some(Vec::new());
    }
    match slice_of(gvar, data_off as u128 + st as u128, (en - st) as u128) {
        Some(x) => {
            let mut v: Vec<u8> = Vec::new();
            crate::bytes::push_all(&mut v, x);
            assert(v@ =~= x@);
            Some(v)
        },
        None => None,
    }
}

/// The retained glyphs' variation data (see `gvar_blobs`).
fn gvar_blob_list(gvar: &[u8], gids: &[u16], count: usize, long: bool, data_off: u32) -> (r: Option<Vec<Vec<u8>>>)
    requires
        count <= 0xFFFF,
    ensures
        match gvar_blobs(gvar@, gids@, gids@.len() as int, count as int, long, data_off as int) {
            Some(bs) => r matches Some(v) && views(v@) == bs,
            None => r is None,
        },
{
    let mut blobs: Vec<Vec<u8>> = Vec::new();
    let mut k: usize = 0;
    while k < gids.len()
        invariant
            k <= gids@.len(),
            count <= 0xFFFF,
            blobs@.len() == k,
            gvar_blobs(gvar@, gids@, k as int, count as int, long, data_off as int) == Some(views(blobs@)),
        decreases gids@.len() - k,
    {
        let ghost before = views(blobs@);
        let b = match read_gvar_blob(gvar, gids[k] as usize, count, long, data_off) {
            Some(b) => b,
            None => {
                proof {
                    lemma_gvar_blobs_none(gvar@, gids@, k + 1, gids@.len() as int, count as int, long, data_off as int);
                }
                return None;
            },
        };
        proof {
            lemma_gvar_blobs_step(gvar@, gids@, k as int, count as int, long, data_off as int, before, b@);
        }
        blobs.push(b);
        proof {
            assert(views(blobs@) =~= before.push(blobs@[k as int]@));
        }
        k += 1;
    }
    Some(blobs)
}

/// Rebuilds `gvar` for the retained glyphs (see `subset_gvar_spec`).
#[verifier::rlimit(50)]
pub fn subset_gvar(gvar: &[u8], gids: &[u16]) -> (r: Option<Vec<u8>>)
    ensures
        match subset_gvar_spec(gvar@, gids@) {
            Some(t) => r matches Some(v) && v@ == t,
            None => r is None,
        },
{
    let axes = match u16at(gvar, 4) {
        Some(v) => v,
        None => {
            return None;
        },
    };
    let shared_count = match u16at(gvar, 6) {
        Some(v) => v,
        None => {
            return None;
        },
    };
    let shared_off = match u32at(gvar, 8) {
        Some(v) => v,
        None => {
            return None;
        },
    };
    let count = match u16at(gvar, 12) {
        Some(v) => v,
        None => {
            return None;
        },
    };
    let flags = match u16at(gvar, 14) {
        Some(v) => v,
        None => {
            return None;
        },
    };
    let data_off = match u32at(gvar, 16) {
        Some(v) => v,
        None => {
            return None;
        },
    };
    let long = flags % 2 == 1;
    assert(shared_count * axes * 6 <= 0xFFFF * 0xFFFF * 6) by (nonlinear_arith)
        requires
            shared_count <= 0xFFFF,
            axes <= 0xFFFF,
    ;
    let shared = match slice_of(gvar, shared_off as u128, shared_count as u128 * axes as u128 * 6) {
        Some(x) => x,
        None => {
            return None;
        },
    };
    let blobs = match gvar_blob_list(gvar, gids, count as usize, long, data_off) {
        Some(b) => b,
        None => {
            return None;
        },
    };
    let n = gids.len() as u128;
    let new_shared_off: u128 = 20 + (n + 1) * 4;
    let new_data_off: u128 = new_shared_off + shared.len() as u128;
    let mut out: Vec<u8> = Vec::new();
    push_u16(&mut out, 1);
    push_u16(&mut out, 0);
    push_u16(&mut out, axes);
    push_u16(&mut out, shared_count);
    push_u32(&mut out, (new_shared_off % 0x1_0000_0000) as u32);
    push_u16(&mut out, (n % 0x10000) as u16);
    push_u16(&mut out, 1);
    push_u32(&mut out, (new_data_off % 0x1_0000_0000) as u32);
    let ghost head = out@;
    push_u32(&mut out, 0);
    let mut acc: u128 = 0;
    let mut i: usize = 0;
    while i < blobs.len()
        invariant
            i <= blobs@.len(),
            acc == even_total(views(blobs@).take(i as int)),
            acc <= i * 0x1_0000_0000_0000_0000,
            out@ == head + blob_offsets(views(blobs@).take(i as int)),
        decreases blobs@.len() - i,
    {
        let len = blobs[i].len() as u128;
        proof {
            assert(views(blobs@).take(i + 1).drop_last() =~= views(blobs@).take(i as int));
            assert(i * 0x1_0000_0000_0000_0000 + 0x1_0000_0000_0000_0000 == (i + 1) * 0x1_0000_0000_0000_0000) by (nonlinear_arith);
            assert((i + 1) * 0x1_0000_0000_0000_0000 <= 0x1_0000_0000_0000_0000 * 0x1_0000_0000_0000_0000) by (nonlinear_arith)
                requires
                    i < 0x1_0000_0000_0000_0000,
            ;
        }
        acc = acc + if len % 2 == 0 { len } else { len + 1 };
        push_u32(&mut out, (acc % 0x1_0000_0000) as u32);
        i += 1;
    }
    crate::bytes::push_all(&mut out, shared);
    let ghost mid = out@;
    i = 0;
    while i < blobs.len()
        invariant
            i <= blobs@.len(),
            out@ == mid + padded_blobs(views(blobs@).take(i as int)),
        decreases blobs@.len() - i,
    {
        proof {
            assert(views(blobs@).take(i + 1).drop_last() =~= views(blobs@).take(i as int));
        }
        crate::bytes::push_all(&mut out, blobs[i].as_slice());
        if blobs[i].len() % 2 == 1 {
            out.push(0);
        }
        proof {
            assert(out@ =~= mid + padded_blobs(views(blobs@).take(i + 1)));
        }
        i += 1;
    }
    proof {
        assert(views(blobs@).take(blobs@.len() as int) =~= views(blobs@));
        lemma_word16_mod(n as int);
        assert(word32(0) =~= blob_offsets(Seq::<Seq<u8>>::empty()));
        assert(out@ =~= subset_gvar_spec(gvar@, gids@).unwrap());
    }
    Some(out)
}

proof fn lemma_gvar_blobs_step(
    gvar: Seq<u8>,
    gids: Seq<u16>,
    k: int,
    count: int,
    long: bool,
    data_off: int,
    bs: Seq<Seq<u8>>,
    b: Seq<u8>,
)
    requires
        0 <= k,
        gvar_blobs(gvar, gids, k, count, long, data_off) == Some(bs),
        gvar_blob(gvar, gids[k] as int, count, long, data_off) == Some(b),
    ensures
        gvar_blobs(gvar, gids, k + 1, count, long, data_off) == Some(bs.push(b)),
{
}

proof fn lemma_gvar_blobs_none(gvar: Seq<u8>, gids: Seq<u16>, k: int, m: int, count: int, long: bool, data_off: int)
    requires
        0 < k <= m,
        gvar_blobs(gvar, gids, k, count, long, data_off) is None,
    ensures
        gvar_blobs(gvar, gids, m, count, long, data_off) is None,
    decreases m - k,
{
    if k < m {
        lemma_gvar_blobs_none(gvar, gids, k + 1, m, count, long, data_off);
    }
}


// ------------------------------------------------------------------ HVAR

/// A glyph's advance-width delta set: which ItemVariationData subtable
/// (`outer`) and which row in it (`inner`).
pub type DeltaSetIndex = (u16, u16);

/// Entry `g` of a DeltaSetIndexMap: a map shorter than the glyph count
/// repeats its last entry.
pub open spec fn map_entry(d: Seq<u8>, data_at: int, count: int, size: int, ib: nat, g: int) -> Option<DeltaSetIndex> {
    let i = if g < count - 1 { g } else { count - 1 };
    match uint_at(d, data_at + i * size, size) {
        Some(v) => Some((((v / two_pow(ib)) % 0x10000) as u16, (v % two_pow(ib)) as u16)),
        None => None,
    }
}

/// Entries `0 .. n` of a DeltaSetIndexMap, if all can be read.
pub open spec fn map_entries(d: Seq<u8>, data_at: int, count: int, size: int, ib: nat, n: int) -> Option<
    Seq<DeltaSetIndex>,
> {
    if exists|g: int| 0 <= g < n && #[trigger] map_entry(d, data_at, count, size, ib, g) is None {
        None
    } else {
        Some(Seq::new(n as nat, |g: int| map_entry(d, data_at, count, size, ib, g).unwrap()))
    }
}

/// The DeltaSetIndexMap at `off`, as one `(outer, inner)` per glyph. An
/// absent map (offset 0) means outer 0 and inner equal to the glyph id.
/// `None` for an unknown format, an empty map, or entries that run past
/// the end.
pub open spec fn index_map_spec(d: Seq<u8>, off: int, n: int) -> Option<Seq<DeltaSetIndex>> {
    if off == 0 {
        Some(Seq::new(n as nat, |g: int| (0u16, g as u16)))
    } else if !(0 <= off && off + 1 < d.len()) {
        None
    } else {
        let format = d[off] as int;
        let ef = d[off + 1] as int;
        let ib = (ef % 16 + 1) as nat;
        let size = (ef / 16) % 4 + 1;
        let head = if format == 0 {
            match u16_at(d, off + 2) {
                Some(c) => Some((c, off + 4)),
                None => None,
            }
        } else if format == 1 {
            match u32_at(d, off + 2) {
                Some(c) => Some((c, off + 6)),
                None => None,
            }
        } else {
            None
        };
        match head {
            None => None,
            Some((count, data_at)) => if count == 0 {
                None
            } else {
                map_entries(d, data_at, count, size, ib, n)
            },
        }
    }
}

/// `2^k` for `k <= 16`.
fn pow2_small(k: u32) -> (r: u32)
    requires
        k <= 16,
    ensures
        r == two_pow(k as nat),
        1 <= r <= 0x10000,
{
    proof {
        reveal_with_fuel(two_pow, 17);
    }
    if k == 0 {
        1
    } else if k == 1 {
        2
    } else if k == 2 {
        4
    } else if k == 3 {
        8
    } else if k == 4 {
        16
    } else if k == 5 {
        32
    } else if k == 6 {
        64
    } else if k == 7 {
        128
    } else if k == 8 {
        256
    } else if k == 9 {
        512
    } else if k == 10 {
        1024
    } else if k == 11 {
        2048
    } else if k == 12 {
        4096
    } else if k == 13 {
        8192
    } else if k == 14 {
        16384
    } else if k == 15 {
        32768
    } else {
        65536
    }
}

/// Reads a DeltaSetIndexMap (see `index_map_spec`).
pub fn read_index_map(d: &[u8], off: usize, n: usize) -> (r: Option<Vec<DeltaSetIndex>>)
    requires
        n <= 0x10000,
    ensures
        match index_map_spec(d@, off as int, n as int) {
            Some(m) => r matches Some(v) && v@ == m,
            None => r is None,
        },
{
    let mut out: Vec<DeltaSetIndex> = Vec::new();
    if off == 0 {
        let mut g: usize = 0;
        while g < n
            invariant
                g <= n <= 0x10000,
                out@ == Seq::new(g as nat, |j: int| (0u16, j as u16)),
            decreases n - g,
        {
            out.push((0, g as u16));
            assert(out@ =~= Seq::new((g + 1) as nat, |j: int| (0u16, j as u16)));
            g += 1;
        }
        return Some(out);
    }
    if off >= d.len() || d.len() - off < 2 {
        return None;
    }
    let format = d[off];
    let ef = d[off + 1] as u32;
    let ib: u32 = ef % 16 + 1;
    let size: usize = ((ef / 16) % 4 + 1) as usize;
    let (count, data_at): (u32, usize) = if format == 0 {
        match u16at(d, off + 2) {
            Some(c) => (c as u32, off + 4),
            None => {
                return None;
            },
        }
    } else if format == 1 {
        match u32at(d, off + 2) {
            Some(c) => (c, off + 6),
            None => {
                return None;
            },
        }
    } else {
        return None;
    };
    if count == 0 {
        return None;
    }
    let pw = pow2_small(ib);
    let mut g: usize = 0;
    while g < n
        invariant
            g <= n <= 0x10000,
            1 <= size <= 4,
            1 <= ib <= 16,
            pw == two_pow(ib as nat),
            1 <= pw <= 0x10000,
            count >= 1,
            off != 0,
            off + 1 < d@.len(),
            d@[off as int] == format,
            ef == d@[off + 1],
            ib == ef % 16 + 1,
            size == (ef / 16) % 4 + 1,
            (format == 0 && u16_at(d@, off + 2) == Some(count as int) && data_at == off + 4) || (format == 1
                && u32_at(d@, off + 2) == Some(count as int) && data_at == off + 6),
            out@.len() == g,
            forall|j: int| 0 <= j < g ==> #[trigger] map_entry(d@, data_at as int, count as int, size as int, ib as nat, j) is Some,
            forall|j: int|
                0 <= j < g ==> out@[j] == map_entry(d@, data_at as int, count as int, size as int, ib as nat, j).unwrap(),
        decreases n - g,
    {
        let i: u128 = if (g as u128) < count as u128 - 1 { g as u128 } else { count as u128 - 1 };
        assert(i * size <= 0x4_0000_0000) by (nonlinear_arith)
            requires
                i < 0x1_0000_0000,
                size <= 4,
        ;
        let at: u128 = data_at as u128 + i * size as u128;
        if at > d.len() as u128 {
            proof {
                assert(map_entry(d@, data_at as int, count as int, size as int, ib as nat, g as int) is None);
                lemma_index_map_none(d@, off as int, n as int, data_at as int, count as int, g as int);
            }
            return None;
        }
        match read_uint(d, at as usize, size) {
            Some(v) => {
                out.push((((v / pw) % 0x10000) as u16, (v % pw) as u16));
            },
            None => {
                proof {
                    assert(map_entry(d@, data_at as int, count as int, size as int, ib as nat, g as int) is None);
                    lemma_index_map_none(d@, off as int, n as int, data_at as int, count as int, g as int);
                }
                return None;
            },
        }
        g += 1;
    }
    assert(out@ =~= Seq::new(
        n as nat,
        |j: int| map_entry(d@, data_at as int, count as int, size as int, ib as nat, j).unwrap(),
    ));
    Some(out)
}

proof fn lemma_index_map_none(d: Seq<u8>, off: int, n: int, data_at: int, count: int, g: int)
    requires
        off != 0,
        0 <= off,
        off + 1 < d.len(),
        count >= 1,
        0 <= g < n,
        (d[off] == 0 && u16_at(d, off + 2) == Some(count) && data_at == off + 4) || (d[off] == 1 && u32_at(d, off + 2)
            == Some(count) && data_at == off + 6),
        map_entry(d, data_at, count, (d[off + 1] / 16) % 4 + 1, (d[off + 1] % 16 + 1) as nat, g) is None,
    ensures
        index_map_spec(d, off, n) is None,
{
    let ef = d[off + 1] as int;
    let size = (ef / 16) % 4 + 1;
    let ib = (ef % 16 + 1) as nat;
    assert(size == (d[off + 1] / 16) % 4 + 1);
    assert(ib == (d[off + 1] % 16 + 1) as nat);
    assert(map_entry(d, data_at, count, size, ib, g) is None);
}

/// The index map entries as written: one entry per value, four bytes
/// each, outer then inner.
pub open spec fn map_entries_bytes(es: Seq<DeltaSetIndex>) -> Seq<u8>
    decreases es.len(),
{
    if es.len() == 0 {
        Seq::empty()
    } else {
        map_entries_bytes(es.drop_last()) + word16(es.last().0 as int) + word16(es.last().1 as int)
    }
}

/// A format 0 DeltaSetIndexMap with 4-byte entries and a 16-bit inner
/// index.
pub open spec fn write_index_map_spec(es: Seq<DeltaSetIndex>) -> Seq<u8> {
    seq![0u8, 0x3Fu8] + word16(es.len() as int) + map_entries_bytes(es)
}

/// Writes a DeltaSetIndexMap (see `write_index_map_spec`).
pub fn write_index_map(es: &Vec<DeltaSetIndex>) -> (r: Vec<u8>)
    ensures
        r@ == write_index_map_spec(es@),
{
    let mut out: Vec<u8> = Vec::new();
    out.push(0);
    out.push(0x3F);
    push_u16(&mut out, (es.len() % 0x10000) as u16);
    let ghost head = out@;
    let mut i: usize = 0;
    while i < es.len()
        invariant
            i <= es@.len(),
            out@ == head + map_entries_bytes(es@.take(i as int)),
        decreases es@.len() - i,
    {
        push_u16(&mut out, es[i].0);
        push_u16(&mut out, es[i].1);
        proof {
            assert(es@.take(i + 1).drop_last() =~= es@.take(i as int));
            assert(out@ =~= head + map_entries_bytes(es@.take(i + 1)));
        }
        i += 1;
    }
    proof {
        assert(es@.take(es@.len() as int) =~= es@);
        lemma_word16_mod(es@.len() as int);
        assert(out@ =~= write_index_map_spec(es@));
    }
    out
}


/// The first position at or after `i` holding a value of at least `x`
/// (the length when there is none).
pub open spec fn first_ge(l: Seq<u16>, x: u16, i: int) -> int
    decreases l.len() - i,
{
    if i < 0 || i >= l.len() {
        l.len() as int
    } else if l[i] >= x {
        i
    } else {
        first_ge(l, x, i + 1)
    }
}

/// `x` put into its place in the ascending list `l`, unless already there.
pub open spec fn ins_sorted(l: Seq<u16>, x: u16) -> Seq<u16> {
    let p = first_ge(l, x, 0);
    if p < l.len() && l[p] == x { l } else { l.insert(p, x) }
}

/// The inner indices the first `k` picked entries use with outer `o`, in
/// ascending order, each once.
pub open spec fn keep_of(picked: Seq<DeltaSetIndex>, o: int, k: int) -> Seq<u16>
    decreases k,
{
    if k <= 0 {
        Seq::empty()
    } else {
        let l = keep_of(picked, o, k - 1);
        if picked[k - 1].0 == o { ins_sorted(l, picked[k - 1].1) } else { l }
    }
}

/// The inner indices `picked` uses with outer `o`, ascending, each once.
pub open spec fn keep_inners(picked: Seq<DeltaSetIndex>, o: int) -> Seq<u16> {
    keep_of(picked, o, picked.len() as int)
}

/// Puts `x` into its place in the ascending list.
fn insert_sorted(l: &mut Vec<u16>, x: u16)
    ensures
        final(l)@ == ins_sorted(old(l)@, x),
{
    let mut p: usize = 0;
    while p < l.len() && l[p] < x
        invariant
            p <= l@.len(),
            l@ == old(l)@,
            first_ge(l@, x, 0) == first_ge(l@, x, p as int),
        decreases l@.len() - p,
    {
        p += 1;
    }
    if p < l.len() && l[p] == x {
        return;
    }
    l.insert(p, x);
}

/// The inner indices used with outer `o` (see `keep_inners`).
fn keep_list(picked: &Vec<DeltaSetIndex>, o: u16) -> (r: Vec<u16>)
    ensures
        r@ == keep_inners(picked@, o as int),
{
    let mut l: Vec<u16> = Vec::new();
    let mut k: usize = 0;
    while k < picked.len()
        invariant
            k <= picked@.len(),
            l@ == keep_of(picked@, o as int, k as int),
        decreases picked@.len() - k,
    {
        if picked[k].0 == o {
            insert_sorted(&mut l, picked[k].1);
        }
        k += 1;
    }
    l
}

/// The rows `keep` of an ItemVariationData subtable whose rows start at
/// `rows_at`, each `row_size` long; `None` when an index is not below
/// `item_count` or a row runs past the end.
pub open spec fn ivs_rows(ivs: Seq<u8>, keep: Seq<u16>, k: int, item_count: int, rows_at: int, row_size: int) -> Option<
    Seq<u8>,
>
    decreases k,
{
    if k <= 0 {
        Some(Seq::empty())
    } else {
        match ivs_rows(ivs, keep, k - 1, item_count, rows_at, row_size) {
            None => None,
            Some(done) => if keep[k - 1] >= item_count {
                None
            } else {
                match slice_at(ivs, rows_at + keep[k - 1] * row_size, row_size) {
                    Some(row) => Some(done + row),
                    None => None,
                }
            },
        }
    }
}

/// ItemVariationData subtable `outer` keeping only the rows `keep`, in
/// that order; its region indexes copied as they are.
pub open spec fn ivs_subtable(ivs: Seq<u8>, outer: int, keep: Seq<u16>) -> Option<Seq<u8>> {
    match u32_at(ivs, 8 + outer * 4) {
        None => None,
        Some(at) => match (u16_at(ivs, at), u16_at(ivs, at + 2), u16_at(ivs, at + 4)) {
            (Some(item_count), Some(wdc), Some(ric)) => {
                let words = wdc % 0x8000;
                let wide: int = if wdc >= 0x8000 { 4 } else { 2 };
                let narrow: int = if wdc >= 0x8000 { 2 } else { 1 };
                if words > ric {
                    None
                } else {
                    let row_size = words * wide + (ric - words) * narrow;
                    match (slice_at(ivs, at + 6, ric * 2), ivs_rows(ivs, keep, keep.len() as int, item_count, at + 6 + ric * 2, row_size)) {
                        (Some(idx), Some(rows)) => Some(word16(keep.len() as int) + word16(wdc) + word16(ric) + idx + rows),
                        _ => None,
                    }
                }
            },
            _ => None,
        },
    }
}

/// The first `k` rebuilt subtables.
pub open spec fn ivs_subtables(ivs: Seq<u8>, picked: Seq<DeltaSetIndex>, k: int) -> Option<Seq<Seq<u8>>>
    decreases k,
{
    if k <= 0 {
        Some(Seq::empty())
    } else {
        match (ivs_subtables(ivs, picked, k - 1), ivs_subtable(ivs, k - 1, keep_inners(picked, k - 1))) {
            (Some(ts), Some(t)) => Some(ts.push(t)),
            _ => None,
        }
    }
}

/// The subtable offsets: each starts where the one before ends, the first
/// right after the region list at `first`.
pub open spec fn subtable_offsets(ts: Seq<Seq<u8>>, first: int) -> Seq<u8>
    decreases ts.len(),
{
    if ts.len() == 0 {
        Seq::empty()
    } else {
        subtable_offsets(ts.drop_last(), first) + word32((first + total_len(ts.drop_last())) % 0x1_0000_0000)
    }
}

/// An ItemVariationStore laid out from its region list and subtables.
pub open spec fn ivs_layout(count: int, regions: Seq<u8>, ts: Seq<Seq<u8>>) -> Seq<u8> {
    let new_region_off = 8 + count * 4;
    word16(1) + word32(new_region_off) + word16(count) + subtable_offsets(ts, new_region_off + regions.len())
        + regions + concat(ts)
}

/// The ItemVariationStore keeping only the delta-set rows `picked` uses
/// (emptied subtables stay, so outer indices never move); the region list
/// is copied whole. `None` for a store that is not version 1 or does not
/// read.
pub open spec fn subset_ivs_spec(ivs: Seq<u8>, picked: Seq<DeltaSetIndex>) -> Option<Seq<u8>> {
    match (u16_at(ivs, 0), u32_at(ivs, 2), u16_at(ivs, 6)) {
        (Some(version), Some(region_off), Some(count)) => if version != 1 {
            None
        } else {
            match (u16_at(ivs, region_off), u16_at(ivs, region_off + 2)) {
                (Some(axes), Some(rc)) => match slice_at(ivs, region_off, 4 + rc * axes * 6) {
                    None => None,
                    Some(regions) => match ivs_subtables(ivs, picked, count) {
                        None => None,
                        Some(ts) => Some(ivs_layout(count, regions, ts)),
                    },
                },
                _ => None,
            }
        },
        _ => None,
    }
}


/// Rebuilds ItemVariationData subtable `outer` (see `ivs_subtable`).
fn build_ivs_subtable(ivs: &[u8], outer: usize, keep: &Vec<u16>) -> (r: Option<Vec<u8>>)
    requires
        outer < 0x10000,
    ensures
        match ivs_subtable(ivs@, outer as int, keep@) {
            Some(t) => r matches Some(v) && v@ == t,
            None => r is None,
        },
{
    let at = match u32at(ivs, 8 + outer * 4) {
        Some(v) => v as u128,
        None => {
            return None;
        },
    };
    if at > ivs.len() as u128 {
        return None;
    }
    let at = at as usize;
    let item_count = match u16at(ivs, at) {
        Some(v) => v,
        None => {
            return None;
        },
    };
    assert(at + 2 <= ivs.len());
    let wdc = match u16at(ivs, at + 2) {
        Some(v) => v,
        None => {
            return None;
        },
    };
    assert(at + 4 <= ivs.len());
    let ric = match u16at(ivs, at + 4) {
        Some(v) => v,
        None => {
            return None;
        },
    };
    let words = wdc % 0x8000;
    let wide: u128 = if wdc >= 0x8000 { 4 } else { 2 };
    let narrow: u128 = if wdc >= 0x8000 { 2 } else { 1 };
    if words > ric {
        return None;
    }
    assert(words as u128 * wide <= 0x40000) by (nonlinear_arith)
        requires
            words < 0x8000,
            wide <= 4,
    ;
    let ghost a = (ric - words) as int;
    assert(a * narrow <= 0x20000) by (nonlinear_arith)
        requires
            0 <= a < 0x10000,
            narrow <= 2,
    ;
    let row_size: u128 = words as u128 * wide + (ric - words) as u128 * narrow;
    let rows_at: u128 = at as u128 + 6 + ric as u128 * 2;
    let idx = match slice_of(ivs, at as u128 + 6, ric as u128 * 2) {
        Some(x) => x,
        None => {
            return None;
        },
    };
    let mut t: Vec<u8> = Vec::new();
    push_u16(&mut t, (keep.len() % 0x10000) as u16);
    push_u16(&mut t, wdc);
    push_u16(&mut t, ric);
    crate::bytes::push_all(&mut t, idx);
    let ghost head = t@;
    proof {
        lemma_word16_mod(keep@.len() as int);
        assert(ivs_subtable(ivs@, outer as int, keep@) == match ivs_rows(ivs@, keep@, keep@.len() as int, item_count as int, rows_at as int, row_size as int) {
            Some(rows) => Some(head + rows),
            None => None::<Seq<u8>>,
        });
    }
    let mut k: usize = 0;
    while k < keep.len()
        invariant
            k <= keep@.len(),
            ivs_subtable(ivs@, outer as int, keep@) == match ivs_rows(ivs@, keep@, keep@.len() as int, item_count as int, rows_at as int, row_size as int) {
                Some(rows) => Some(head + rows),
                None => None::<Seq<u8>>,
            },
            row_size <= 0x60000,
            rows_at <= 0x1_0000_0000 + 6 + 0x20000,
            ivs_rows(ivs@, keep@, k as int, item_count as int, rows_at as int, row_size as int) == Some(t@.skip(head.len() as int)),
            t@.len() >= head.len(),
            t@.take(head.len() as int) == head,
        decreases keep@.len() - k,
    {
        let inner = keep[k];
        if inner >= item_count {
            proof {
                lemma_ivs_rows_none(ivs@, keep@, k + 1, keep@.len() as int, item_count as int, rows_at as int, row_size as int);
            }
            return None;
        }
        assert(inner as u128 * row_size <= 0x10000 * 0x60000) by (nonlinear_arith)
            requires
                inner < 0x10000,
                row_size <= 0x60000,
        ;
        match slice_of(ivs, rows_at + inner as u128 * row_size, row_size) {
            Some(row) => {
                let ghost before = t@;
                crate::bytes::push_all(&mut t, row);
                proof {
                    assert(t@.skip(head.len() as int) =~= before.skip(head.len() as int) + row@);
                    assert(t@.take(head.len() as int) =~= before.take(head.len() as int));
                }
            },
            None => {
                proof {
                    lemma_ivs_rows_none(ivs@, keep@, k + 1, keep@.len() as int, item_count as int, rows_at as int, row_size as int);
                }
                return None;
            },
        }
        k += 1;
    }
    proof {
        lemma_word16_mod(keep@.len() as int);
        assert(t@ =~= head + t@.skip(head.len() as int));
    }
    Some(t)
}

proof fn lemma_ivs_rows_none(ivs: Seq<u8>, keep: Seq<u16>, k: int, m: int, item_count: int, rows_at: int, row_size: int)
    requires
        0 < k <= m,
        ivs_rows(ivs, keep, k, item_count, rows_at, row_size) is None,
    ensures
        ivs_rows(ivs, keep, m, item_count, rows_at, row_size) is None,
    decreases m - k,
{
    if k < m {
        lemma_ivs_rows_none(ivs, keep, k + 1, m, item_count, rows_at, row_size);
    }
}

proof fn lemma_ivs_subtables_none(ivs: Seq<u8>, picked: Seq<DeltaSetIndex>, k: int, m: int)
    requires
        0 < k <= m,
        ivs_subtables(ivs, picked, k) is None,
    ensures
        ivs_subtables(ivs, picked, m) is None,
    decreases m - k,
{
    if k < m {
        lemma_ivs_subtables_none(ivs, picked, k + 1, m);
    }
}

/// Rebuilds the ItemVariationStore (see `subset_ivs_spec`); also answers
/// its subtable count.
pub fn subset_ivs(ivs: &[u8], picked: &Vec<DeltaSetIndex>) -> (r: Option<(Vec<u8>, u16)>)
    ensures
        match subset_ivs_spec(ivs@, picked@) {
            Some(t) => r matches Some((v, c)) && v@ == t && u16_at(ivs@, 6) == Some(c as int),
            None => r is None,
        },
{
    let version = match u16at(ivs, 0) {
        Some(v) => v,
        None => {
            return None;
        },
    };
    let region_off = match u32at(ivs, 2) {
        Some(v) => v,
        None => {
            return None;
        },
    };
    let count = match u16at(ivs, 6) {
        Some(v) => v,
        None => {
            return None;
        },
    };
    if version != 1 {
        return None;
    }
    if region_off as u128 > ivs.len() as u128 {
        return None;
    }
    let ro = region_off as usize;
    let axes = match u16at(ivs, ro) {
        Some(v) => v,
        None => {
            return None;
        },
    };
    assert(ro + 2 <= ivs.len());
    let rc = match u16at(ivs, ro + 2) {
        Some(v) => v,
        None => {
            return None;
        },
    };
    assert(rc * axes * 6 <= 0xFFFF * 0xFFFF * 6) by (nonlinear_arith)
        requires
            rc <= 0xFFFF,
            axes <= 0xFFFF,
    ;
    let regions = match slice_of(ivs, region_off as u128, 4 + rc as u128 * axes as u128 * 6) {
        Some(x) => x,
        None => {
            return None;
        },
    };
    let ts = match ivs_subtable_list(ivs, picked, count) {
        Some(t) => t,
        None => {
            return None;
        },
    };
    let out = lay_out_ivs(count, regions, &ts);
    Some((out, count))
}

/// The rebuilt subtables (see `ivs_subtables`).
fn ivs_subtable_list(ivs: &[u8], picked: &Vec<DeltaSetIndex>, count: u16) -> (r: Option<Vec<Vec<u8>>>)
    ensures
        match ivs_subtables(ivs@, picked@, count as int) {
            Some(ts) => r matches Some(v) && views(v@) == ts,
            None => r is None,
        },
        r matches Some(v) ==> v@.len() == count,
{
    let mut ts: Vec<Vec<u8>> = Vec::new();
    let mut outer: usize = 0;
    while outer < count as usize
        invariant
            outer <= count,
            ts@.len() == outer,
            ivs_subtables(ivs@, picked@, outer as int) == Some(views(ts@)),
        decreases count - outer,
    {
        let keep = keep_list(picked, outer as u16);
        let ghost before = views(ts@);
        match build_ivs_subtable(ivs, outer, &keep) {
            Some(t) => {
                ts.push(t);
                proof {
                    assert(views(ts@) =~= before.push(ts@[outer as int]@));
                }
            },
            None => {
                proof {
                    lemma_ivs_subtables_none(ivs@, picked@, outer + 1, count as int);
                }
                return None;
            },
        }
        outer += 1;
    }
    Some(ts)
}

/// Lays out the store (see `ivs_layout`).
#[verifier::rlimit(40)]
fn lay_out_ivs(count: u16, regions: &[u8], ts: &Vec<Vec<u8>>) -> (out: Vec<u8>)
    requires
        ts@.len() == count,
    ensures
        out@ == ivs_layout(count as int, regions@, views(ts@)),
{
    let new_region_off: u32 = 8 + count as u32 * 4;
    let first: u128 = new_region_off as u128 + regions.len() as u128;
    let mut out: Vec<u8> = Vec::new();
    push_u16(&mut out, 1);
    push_u32(&mut out, new_region_off);
    push_u16(&mut out, count);
    let ghost head = out@;
    let mut acc: u128 = 0;
    let mut i: usize = 0;
    while i < ts.len()
        invariant
            i <= ts@.len(),
            ts@.len() <= 0xFFFF,
            first < 0x1_0000_0001_0000_0000,
            first == 8 + count * 4 + regions@.len(),
            acc == total_len(views(ts@).take(i as int)),
            acc <= i * 0x1_0000_0000_0000_0000,
            out@ == head + subtable_offsets(views(ts@).take(i as int), first as int),
        decreases ts@.len() - i,
    {
        proof {
            lemma_total_len_push(views(ts@), i as int);
            assert(views(ts@).take(i + 1).drop_last() =~= views(ts@).take(i as int));
            assert(i * 0x1_0000_0000_0000_0000 + 0x1_0000_0000_0000_0000 == (i + 1) * 0x1_0000_0000_0000_0000) by (nonlinear_arith);
            assert((i + 1) * 0x1_0000_0000_0000_0000 <= 0x1_0000_0000_0000_0000 * 0x1_0000_0000_0000_0000) by (nonlinear_arith)
                requires
                    i < 0x1_0000_0000_0000_0000,
            ;
        }
        push_u32(&mut out, ((first + acc) % 0x1_0000_0000) as u32);
        acc = acc + ts[i].len() as u128;
        i += 1;
    }
    crate::bytes::push_all(&mut out, regions);
    let ghost mid = out@;
    i = 0;
    while i < ts.len()
        invariant
            i <= ts@.len(),
            out@ == mid + concat(views(ts@).take(i as int)),
        decreases ts@.len() - i,
    {
        proof {
            lemma_total_len_push(views(ts@), i as int);
        }
        crate::bytes::push_all(&mut out, ts[i].as_slice());
        proof {
            assert(out@ =~= mid + concat(views(ts@).take(i + 1)));
        }
        i += 1;
    }
    proof {
        assert(views(ts@).take(ts@.len() as int) =~= views(ts@));
        assert(out@ =~= ivs_layout(count as int, regions@, views(ts@)));
    }
    out
}


/// Each retained glyph's delta set, by the advance-width map (outer 0,
/// inner 0 for a glyph the map does not reach).
pub open spec fn picked_of(map: Seq<DeltaSetIndex>, gids: Seq<u16>) -> Seq<DeltaSetIndex> {
    Seq::new(gids.len(), |k: int| if (gids[k] as int) < map.len() { map[gids[k] as int] } else { (0u16, 0u16) })
}

/// Entry `k` renumbered to its row in the rebuilt subtable.
pub open spec fn renumbered_entry(picked: Seq<DeltaSetIndex>, k: int) -> Option<DeltaSetIndex> {
    match first_index(keep_inners(picked, picked[k].0 as int), picked[k].1, 0) {
        Some(j) => Some((picked[k].0, j as u16)),
        None => None,
    }
}

/// The delta sets renumbered for the rebuilt store; `None` when one names
/// a subtable the store does not have.
pub open spec fn renumber_spec(picked: Seq<DeltaSetIndex>, count: int) -> Option<Seq<DeltaSetIndex>> {
    if exists|k: int| 0 <= k < picked.len() && ((#[trigger] picked[k]).0 >= count || renumbered_entry(picked, k) is None) {
        None
    } else {
        Some(Seq::new(picked.len(), |k: int| renumbered_entry(picked, k).unwrap()))
    }
}

/// `s` padded with zeros to a multiple of four bytes.
pub open spec fn pad4(s: Seq<u8>) -> Seq<u8> {
    s + Seq::new(((4 - s.len() % 4) % 4) as nat, |i: int| 0u8)
}

/// `HVAR` rebuilt for the retained glyphs `gids` (of `n` in the font): the
/// store keeping only the rows they use, and an advance-width map in the
/// new glyph order; no side-bearing maps.
pub open spec fn subset_hvar_spec(hvar: Seq<u8>, gids: Seq<u16>, n: int) -> Option<Seq<u8>> {
    match (u32_at(hvar, 4), u32_at(hvar, 8)) {
        (Some(io), Some(amo)) => if io > hvar.len() {
            None
        } else {
            match index_map_spec(hvar, amo, n) {
                None => None,
                Some(map) => {
                    let picked = picked_of(map, gids);
                    let ivs = hvar.skip(io);
                    match (subset_ivs_spec(ivs, picked), u16_at(ivs, 6)) {
                        (Some(nivs), Some(count)) => match renumber_spec(picked, count) {
                            None => None,
                            Some(rn) => {
                                let p = pad4(nivs);
                                Some(
                                    word16(1) + word16(0) + word32(20) + word32((20 + p.len() as int) % 0x1_0000_0000) + word32(0)
                                        + word32(0) + p + write_index_map_spec(rn),
                                )
                            },
                        },
                        _ => None,
                    }
                },
            }
        },
        _ => None,
    }
}

/// The first position of `x` in `l`.
fn index_in(l: &Vec<u16>, x: u16) -> (r: Option<usize>)
    ensures
        match r {
            Some(i) => first_index(l@, x, 0) == Some(i as int) && i < l@.len(),
            None => first_index(l@, x, 0) is None,
        },
{
    let mut j: usize = 0;
    while j < l.len()
        invariant
            j <= l@.len(),
            first_index(l@, x, 0) == first_index(l@, x, j as int),
        decreases l@.len() - j,
    {
        if l[j] == x {
            return Some(j);
        }
        j += 1;
    }
    None
}

/// The delta sets renumbered (see `renumber_spec`).
fn renumber(picked: &Vec<DeltaSetIndex>, count: u16) -> (r: Option<Vec<DeltaSetIndex>>)
    ensures
        match renumber_spec(picked@, count as int) {
            Some(v) => r matches Some(x) && x@ == v,
            None => r is None,
        },
{
    let mut out: Vec<DeltaSetIndex> = Vec::new();
    let mut k: usize = 0;
    while k < picked.len()
        invariant
            k <= picked@.len(),
            out@.len() == k,
            forall|j: int| 0 <= j < k ==> (#[trigger] picked@[j]).0 < count && renumbered_entry(picked@, j) is Some,
            forall|j: int| 0 <= j < k ==> out@[j] == renumbered_entry(picked@, j).unwrap(),
        decreases picked@.len() - k,
    {
        let (o, i) = picked[k];
        if o >= count {
            return None;
        }
        let keep = keep_list(picked, o);
        match index_in(&keep, i) {
            Some(j) => {
                proof {
                    lemma_first_index_range(keep@, i, 0);
                    assert(first_index(keep@, i, 0) == Some(j as int));
                    assert(renumbered_entry(picked@, k as int) == Some((o, (j as int) as u16)));
                }
                out.push((o, #[verifier::truncate] (j as u16)));
            },
            None => {
                assert(renumbered_entry(picked@, k as int) is None);
                return None;
            },
        }
        k += 1;
    }
    assert(out@ =~= Seq::new(picked@.len(), |j: int| renumbered_entry(picked@, j).unwrap()));
    Some(out)
}

proof fn lemma_first_index_range(l: Seq<u16>, x: u16, i: int)
    ensures
        first_index(l, x, i) matches Some(j) ==> 0 <= j < l.len() && l[j] == x,
    decreases l.len() - i,
{
    if 0 <= i < l.len() && l[i] != x {
        lemma_first_index_range(l, x, i + 1);
    }
}

/// Rebuilds `HVAR` for the retained glyphs (see `subset_hvar_spec`).
pub fn subset_hvar(hvar: &[u8], gids: &[u16], n: usize) -> (r: Option<Vec<u8>>)
    requires
        n <= 0x10000,
    ensures
        match subset_hvar_spec(hvar@, gids@, n as int) {
            Some(t) => r matches Some(v) && v@ == t,
            None => r is None,
        },
{
    let io = match u32at(hvar, 4) {
        Some(v) => v,
        None => {
            return None;
        },
    };
    let amo = match u32at(hvar, 8) {
        Some(v) => v,
        None => {
            return None;
        },
    };
    if io as u128 > hvar.len() as u128 {
        return None;
    }
    let ivs = vstd::slice::slice_subrange(hvar, io as usize, hvar.len());
    assert(ivs@ == hvar@.skip(io as int));
    let map = match read_index_map(hvar, amo as usize, n) {
        Some(m) => m,
        None => {
            return None;
        },
    };
    let mut picked: Vec<DeltaSetIndex> = Vec::new();
    let mut k: usize = 0;
    while k < gids.len()
        invariant
            k <= gids@.len(),
            picked@ == picked_of(map@, gids@).take(k as int),
        decreases gids@.len() - k,
    {
        let g = gids[k] as usize;
        let e = if g < map.len() { map[g] } else { (0, 0) };
        picked.push(e);
        assert(picked@ =~= picked_of(map@, gids@).take(k + 1));
        k += 1;
    }
    assert(picked@ =~= picked_of(map@, gids@));
    let (mut nivs, count) = match subset_ivs(ivs, &picked) {
        Some(x) => x,
        None => {
            return None;
        },
    };
    let rn = match renumber(&picked, count) {
        Some(x) => x,
        None => {
            return None;
        },
    };
    let new_map = write_index_map(&rn);
    let ghost before = nivs@;
    while nivs.len() % 4 != 0
        invariant
            before.len() <= nivs@.len() <= before.len() + 3,
            nivs@ == before + Seq::new((nivs@.len() - before.len()) as nat, |i: int| 0u8),
            (nivs@.len() - before.len()) <= (4 - before.len() % 4) % 4,
            (nivs@.len() - before.len()) == (4 - before.len() % 4) % 4 || nivs@.len() % 4 != 0,
        decreases 4 - (nivs@.len() - before.len()),
    {
        nivs.push(0);
        assert(nivs@ =~= before + Seq::new((nivs@.len() - before.len()) as nat, |i: int| 0u8));
    }
    let mut out: Vec<u8> = Vec::new();
    push_u16(&mut out, 1);
    push_u16(&mut out, 0);
    push_u32(&mut out, 20);
    push_u32(&mut out, ((20 + nivs.len() as u128) % 0x1_0000_0000) as u32);
    push_u32(&mut out, 0);
    push_u32(&mut out, 0);
    crate::bytes::push_all(&mut out, nivs.as_slice());
    crate::bytes::push_all(&mut out, new_map.as_slice());
    proof {
        assert(nivs@ == pad4(before));
        assert(out@ =~= subset_hvar_spec(hvar@, gids@, n as int).unwrap());
    }
    Some(out)
}


// ------------------------------------------------------------------ name

/// A name record: platform, encoding, language, name id, and its string.
pub type NameRec = (u16, u16, u16, u16, Seq<u8>);

/// Name record `i`: `None` when a field or a kept record's string does
/// not read; `Some(None)` for a record that is dropped (anything but
/// Windows Unicode BMP, and of that only US English or the ids from 256
/// up that variation axes and instances use).
#[verifier::opaque]
pub open spec fn name_rec(name: Seq<u8>, storage: int, i: int) -> Option<Option<NameRec>> {
    let r = 6 + i * 12;
    match (u16_at(name, r), u16_at(name, r + 2), u16_at(name, r + 4), u16_at(name, r + 6), u16_at(name, r + 8), u16_at(name, r + 10)) {
        (Some(pid), Some(eid), Some(lid), Some(nid), Some(len), Some(off)) => if pid != 3 || eid != 1 || (lid != 0x0409
            && nid < 256) {
            Some(None)
        } else {
            match slice_at(name, storage + off, len) {
                Some(st) => Some(Some((pid as u16, eid as u16, lid as u16, nid as u16, st))),
                None => None,
            }
        },
        _ => None,
    }
}

/// The kept records among the first `k`, in table order.
pub open spec fn kept_names(name: Seq<u8>, storage: int, k: int) -> Option<Seq<NameRec>>
    decreases k,
{
    if k <= 0 {
        Some(Seq::empty())
    } else {
        match (kept_names(name, storage, k - 1), name_rec(name, storage, k - 1)) {
            (Some(ks), Some(Some(r))) => Some(ks.push(r)),
            (Some(ks), Some(None)) => Some(ks),
            _ => None,
        }
    }
}

/// The sort key of a kept record: language, then name id (platform and
/// encoding are the same for all of them).
pub open spec fn name_key(r: NameRec) -> int {
    r.2 * 0x10000 + r.3
}

/// The first position at or after `i` whose key is greater than `key`.
pub open spec fn first_after(l: Seq<NameRec>, key: int, i: int) -> int
    decreases l.len() - i,
{
    if i < 0 || i >= l.len() {
        l.len() as int
    } else if name_key(l[i]) > key {
        i
    } else {
        first_after(l, key, i + 1)
    }
}

/// The first `k` records sorted by key, records of equal key keeping their
/// order.
pub open spec fn sorted_names(l: Seq<NameRec>, k: int) -> Seq<NameRec>
    decreases k,
{
    if k <= 0 {
        Seq::empty()
    } else {
        let s = sorted_names(l, k - 1);
        s.insert(first_after(s, name_key(l[k - 1]), 0), l[k - 1])
    }
}

/// The records' strings one after another.
pub open spec fn name_strings(rs: Seq<NameRec>) -> Seq<u8>
    decreases rs.len(),
{
    if rs.len() == 0 {
        Seq::empty()
    } else {
        name_strings(rs.drop_last()) + rs.last().4
    }
}

/// The name records, each pointing at its string in the new storage.
pub open spec fn name_records(rs: Seq<NameRec>) -> Seq<u8>
    decreases rs.len(),
{
    if rs.len() == 0 {
        Seq::empty()
    } else {
        let r = rs.last();
        name_records(rs.drop_last()) + word16(r.0 as int) + word16(r.1 as int) + word16(r.2 as int) + word16(r.3 as int)
            + word16(r.4.len() as int) + word16(name_strings(rs.drop_last()).len() as int)
    }
}

/// `name` keeping only the records a renderer of an embedded font reads,
/// sorted as the format requires; `None` when none is kept or the table
/// does not read.
pub open spec fn subset_name_spec(name: Seq<u8>) -> Option<Seq<u8>> {
    match (u16_at(name, 2), u16_at(name, 4)) {
        (Some(count), Some(storage)) => match kept_names(name, storage, count) {
            None => None,
            Some(ks) => if ks.len() == 0 {
                None
            } else {
                let rs = sorted_names(ks, ks.len() as int);
                let n = rs.len() as int;
                Some(word16(0) + word16(n) + word16(6 + 12 * n) + name_records(rs) + name_strings(rs))
            },
        },
        _ => None,
    }
}

/// A name record as plain values.
pub open spec fn rec_view(r: (u16, u16, u16, u16, Vec<u8>)) -> NameRec {
    (r.0, r.1, r.2, r.3, r.4@)
}

/// The records as plain values.
pub open spec fn recs_view(v: Seq<(u16, u16, u16, u16, Vec<u8>)>) -> Seq<NameRec> {
    Seq::new(v.len(), |i: int| rec_view(v[i]))
}

/// Name record `i` (see `name_rec`).
fn read_name_rec(name: &[u8], storage: u16, i: usize) -> (r: Option<Option<(u16, u16, u16, u16, Vec<u8>)>>)
    requires
        i < 0x10000,
    ensures
        match name_rec(name@, storage as int, i as int) {
            Some(Some(x)) => r matches Some(Some(y)) && rec_view(y) == x,
            Some(None) => r matches Some(None),
            None => r is None,
        },
{
    reveal(name_rec);
    let r = 6 + i * 12;
    let pid = match u16at(name, r) {
        Some(v) => v,
        None => {
            return None;
        },
    };
    assert(r + 2 <= name.len());
    let eid = match u16at(name, r + 2) {
        Some(v) => v,
        None => {
            return None;
        },
    };
    let lid = match u16at(name, r + 4) {
        Some(v) => v,
        None => {
            return None;
        },
    };
    let nid = match u16at(name, r + 6) {
        Some(v) => v,
        None => {
            return None;
        },
    };
    let len = match u16at(name, r + 8) {
        Some(v) => v,
        None => {
            return None;
        },
    };
    let off = match u16at(name, r + 10) {
        Some(v) => v,
        None => {
            return None;
        },
    };
    if pid != 3 || eid != 1 || (lid != 0x0409 && nid < 256) {
        return Some(None);
    }
    match slice_of(name, storage as u128 + off as u128, len as u128) {
        Some(st) => {
            let mut v: Vec<u8> = Vec::new();
            crate::bytes::push_all(&mut v, st);
            assert(v@ =~= st@);
            Some(Some((pid, eid, lid, nid, v)))
        },
        None => None,
    }
}

proof fn lemma_kept_names_none(name: Seq<u8>, storage: int, k: int, m: int)
    requires
        0 < k <= m,
        kept_names(name, storage, k) is None,
    ensures
        kept_names(name, storage, m) is None,
    decreases m - k,
{
    if k < m {
        lemma_kept_names_none(name, storage, k + 1, m);
    }
}

proof fn lemma_kept_step(name: Seq<u8>, storage: int, k: int, ks: Seq<NameRec>, r: Option<NameRec>)
    requires
        0 <= k,
        kept_names(name, storage, k) == Some(ks),
        name_rec(name, storage, k) == Some(r),
    ensures
        kept_names(name, storage, k + 1) == Some(
            match r {
                Some(x) => ks.push(x),
                None => ks,
            },
        ),
{
}

/// The kept name records, in table order (see `kept_names`).
fn collect_names(name: &[u8], count: u16, storage: u16) -> (r: Option<Vec<(u16, u16, u16, u16, Vec<u8>)>>)
    ensures
        match kept_names(name@, storage as int, count as int) {
            Some(ks) => r matches Some(v) && recs_view(v@) == ks,
            None => r is None,
        },
{
    let mut kept: Vec<(u16, u16, u16, u16, Vec<u8>)> = Vec::new();
    let mut i: usize = 0;
    while i < count as usize
        invariant
            i <= count,
            kept_names(name@, storage as int, i as int) == Some(recs_view(kept@)),
        decreases count - i,
    {
        let ghost before = recs_view(kept@);
        match read_name_rec(name, storage, i) {
            Some(Some(rec)) => {
                proof {
                    lemma_kept_step(name@, storage as int, i as int, before, Some(rec_view(rec)));
                }
                kept.push(rec);
                proof {
                    assert(recs_view(kept@) =~= before.push(rec_view(kept@[kept@.len() - 1])));
                }
            },
            Some(None) => {
                proof {
                    lemma_kept_step(name@, storage as int, i as int, before, None);
                }
            },
            None => {
                proof {
                    lemma_kept_names_none(name@, storage as int, i + 1, count as int);
                }
                return None;
            },
        }
        i += 1;
    }
    Some(kept)
}

/// Rebuilds `name` (see `subset_name_spec`).
pub fn subset_name(name: &[u8]) -> (r: Option<Vec<u8>>)
    ensures
        match subset_name_spec(name@) {
            Some(t) => r matches Some(v) && v@ == t,
            None => r is None,
        },
{
    let count = match u16at(name, 2) {
        Some(v) => v,
        None => {
            return None;
        },
    };
    let storage = match u16at(name, 4) {
        Some(v) => v,
        None => {
            return None;
        },
    };
    let kept = match collect_names(name, count, storage) {
        Some(k) => k,
        None => {
            return None;
        },
    };
    if kept.len() == 0 {
        return None;
    }
    let ghost ks = recs_view(kept@);
    let mut sorted: Vec<(u16, u16, u16, u16, Vec<u8>)> = Vec::new();
    let mut k: usize = 0;
    while k < kept.len()
        invariant
            k <= kept@.len(),
            ks == recs_view(kept@),
            recs_view(sorted@) == sorted_names(ks, k as int),
            sorted@.len() == k,
        decreases kept@.len() - k,
    {
        let key: u32 = kept[k].2 as u32 * 0x10000 + kept[k].3 as u32;
        let mut p: usize = 0;
        while p < sorted.len() && (sorted[p].2 as u32 * 0x10000 + sorted[p].3 as u32) <= key
            invariant
                p <= sorted@.len(),
                first_after(recs_view(sorted@), key as int, 0) == first_after(recs_view(sorted@), key as int, p as int),
            decreases sorted@.len() - p,
        {
            proof {
                assert(recs_view(sorted@)[p as int] == rec_view(sorted@[p as int]));
            }
            p += 1;
        }
        proof {
            if p < sorted@.len() {
                assert(recs_view(sorted@)[p as int] == rec_view(sorted@[p as int]));
            }
            assert(first_after(recs_view(sorted@), key as int, p as int) == p);
            assert(ks[k as int] == rec_view(kept@[k as int]));
        }
        let ghost sv = recs_view(sorted@);
        let rec = (kept[k].0, kept[k].1, kept[k].2, kept[k].3, kept[k].4.clone());
        assert(rec_view(rec) == ks[k as int]) by {
            assert(rec.4@ == kept@[k as int].4@);
        }
        sorted.insert(p, rec);
        proof {
            assert(recs_view(sorted@) =~= sv.insert(p as int, ks[k as int]));
        }
        k += 1;
    }
    let n = sorted.len();
    let mut records: Vec<u8> = Vec::new();
    let mut strings: Vec<u8> = Vec::new();
    let ghost rs = recs_view(sorted@);
    k = 0;
    while k < n
        invariant
            k <= n == sorted@.len(),
            rs == recs_view(sorted@),
            records@ == name_records(rs.take(k as int)),
            strings@ == name_strings(rs.take(k as int)),
        decreases n - k,
    {
        proof {
            assert(rs.take(k + 1).drop_last() =~= rs.take(k as int));
            assert(rs[k as int] == rec_view(sorted@[k as int]));
        }
        let (pid, eid, lid, nid) = (sorted[k].0, sorted[k].1, sorted[k].2, sorted[k].3);
        push_u16(&mut records, pid);
        push_u16(&mut records, eid);
        push_u16(&mut records, lid);
        push_u16(&mut records, nid);
        push_u16(&mut records, (sorted[k].4.len() % 0x10000) as u16);
        push_u16(&mut records, (strings.len() % 0x10000) as u16);
        crate::bytes::push_all(&mut strings, sorted[k].4.as_slice());
        proof {
            lemma_word16_mod(sorted@[k as int].4@.len() as int);
            lemma_word16_mod(name_strings(rs.take(k as int)).len() as int);
            assert(records@ =~= name_records(rs.take(k + 1)));
            assert(strings@ =~= name_strings(rs.take(k + 1)));
        }
        k += 1;
    }
    let mut out: Vec<u8> = Vec::new();
    push_u16(&mut out, 0);
    push_u16(&mut out, (n % 0x10000) as u16);
    push_u16(&mut out, ((6 + 12 * n as u128) % 0x10000) as u16);
    crate::bytes::push_all(&mut out, records.as_slice());
    crate::bytes::push_all(&mut out, strings.as_slice());
    proof {
        assert(rs.take(n as int) =~= rs);
        lemma_word16_mod(n as int);
        lemma_word16_mod(6 + 12 * n);
        assert(out@ =~= subset_name_spec(name@).unwrap());
    }
    Some(out)
}


// -------------------------------------------------------------- assembly

/// The big-endian word `i` of `d`, bytes past the end read as zero.
pub open spec fn word_of(d: Seq<u8>, i: int) -> int {
    let b = |k: int| if 0 <= 4 * i + k < d.len() { d[4 * i + k] as int } else { 0int };
    ((b(0) * 256 + b(1)) * 256 + b(2)) * 256 + b(3)
}

/// The sum of the first `k` words, modulo 2^32.
pub open spec fn checksum_upto(d: Seq<u8>, k: int) -> int
    decreases k,
{
    if k <= 0 { 0 } else { (checksum_upto(d, k - 1) + word_of(d, k - 1)) % 0x1_0000_0000 }
}

/// The sfnt table checksum: the 32-bit sum of the big-endian words,
/// the last one padded with zeros.
#[verifier::opaque]
pub open spec fn checksum_spec(d: Seq<u8>) -> int {
    checksum_upto(d, (d.len() as int + 3) / 4)
}

/// Computes the table checksum (see `checksum_spec`).
pub fn checksum(d: &[u8]) -> (r: u32)
    ensures
        r == checksum_spec(d@),
{
    reveal(checksum_spec);
    let mut sum: u64 = 0;
    let mut i: usize = 0;
    let nwords: usize = d.len() / 4 + if d.len() % 4 != 0 { 1 } else { 0 };
    while i < nwords
        invariant
            i <= nwords,
            nwords == (d@.len() + 3) / 4,
            sum == checksum_upto(d@, i as int),
            sum < 0x1_0000_0000,
        decreases nwords - i,
    {
        let mut w: u64 = 0;
        let mut k: usize = 0;
        while k < 4
            invariant
                k <= 4,
                i < nwords,
                nwords == (d@.len() + 3) / 4,
                w < pow256(k as int),
                w == {
                    let b = |j: int| if 0 <= 4 * i + j < d@.len() { d@[4 * i + j] as int } else { 0int };
                    if k == 0 {
                        0
                    } else if k == 1 {
                        b(0)
                    } else if k == 2 {
                        b(0) * 256 + b(1)
                    } else if k == 3 {
                        (b(0) * 256 + b(1)) * 256 + b(2)
                    } else {
                        ((b(0) * 256 + b(1)) * 256 + b(2)) * 256 + b(3)
                    }
                },
            decreases 4 - k,
        {
            let at: u128 = 4 * (i as u128) + k as u128;
            let byte: u64 = if at < d.len() as u128 { d[at as usize] as u64 } else { 0 };
            w = w * 256 + byte;
            k += 1;
        }
        sum = (sum + w) % 0x1_0000_0000;
        i += 1;
    }
    sum as u32
}

/// A table as its tag (the four tag bytes read big-endian) and its data.
pub type TableV = (u32, Seq<u8>);

/// The first position at or after `i` whose tag is greater than `tag`.
pub open spec fn first_tag_after(l: Seq<TableV>, tag: u32, i: int) -> int
    decreases l.len() - i,
{
    if i < 0 || i >= l.len() {
        l.len() as int
    } else if l[i].0 > tag {
        i
    } else {
        first_tag_after(l, tag, i + 1)
    }
}

/// The first `k` tables sorted by tag, tables of equal tag keeping their
/// order.
pub open spec fn sorted_tables(l: Seq<TableV>, k: int) -> Seq<TableV>
    decreases k,
{
    if k <= 0 {
        Seq::empty()
    } else {
        let s = sorted_tables(l, k - 1);
        s.insert(first_tag_after(s, l[k - 1].0, 0), l[k - 1])
    }
}

/// `n` rounded up to a multiple of 4.
pub open spec fn round4(n: int) -> int {
    ((n + 3) / 4) * 4
}

/// Where table `i` starts when the tables follow one another from `base`,
/// each padded to a multiple of 4.
pub open spec fn table_offset(ts: Seq<TableV>, i: int, base: int) -> int
    decreases i,
{
    if i <= 0 { base } else { table_offset(ts, i - 1, base) + round4(ts[i - 1].1.len() as int) }
}

/// The table records of the first `k` tables: tag, checksum, offset and
/// length, each 32 bits.
pub open spec fn table_records(ts: Seq<TableV>, k: int, base: int) -> Seq<u8>
    decreases k,
{
    if k <= 0 {
        Seq::empty()
    } else {
        let t = ts[k - 1];
        table_records(ts, k - 1, base) + word32(t.0 as int) + word32(checksum_spec(t.1)) + word32(
            table_offset(ts, k - 1, base) % 0x1_0000_0000,
        ) + word32((t.1.len() as int) % 0x1_0000_0000)
    }
}

/// The first `k` tables' data, each padded with zeros to a multiple of 4.
pub open spec fn tables_data(ts: Seq<TableV>, k: int) -> Seq<u8>
    decreases k,
{
    if k <= 0 { Seq::empty() } else { tables_data(ts, k - 1) + pad4(ts[k - 1].1) }
}

/// The `head` tag.
pub open spec fn head_tag() -> u32 {
    0x68656164
}

/// The first sorted table tagged `head`, at or after `i`.
pub open spec fn find_head(ts: Seq<TableV>, i: int) -> Option<int>
    decreases ts.len() - i,
{
    if i < 0 || i >= ts.len() {
        None
    } else if ts[i].0 == head_tag() {
        Some(i)
    } else {
        find_head(ts, i + 1)
    }
}

/// The table directory: the sfnt header (with the binary-search fields)
/// and one record per table.
#[verifier::opaque]
pub open spec fn directory_spec(version: u32, ts: Seq<TableV>) -> Seq<u8> {
    let n = ts.len() as int;
    let es = floor_log2(if n < 1 { 1 } else { n });
    let sr = 16 * two_pow(es);
    word32(version as int) + word16(n) + word16(sr) + word16(es as int) + word16(n * 16 - sr) + table_records(ts, n, 12 + 16 * n)
}

/// The file before `head`'s `checkSumAdjustment` is filled in: the table
/// directory and the tables.
pub open spec fn sfnt_body(version: u32, ts: Seq<TableV>) -> Seq<u8> {
    directory_spec(version, ts) + tables_data(ts, ts.len() as int)
}

/// Whether `offs` holds where each table starts.
pub open spec fn offsets_are(offs: Seq<u128>, ts: Seq<TableV>) -> bool {
    offs.len() == ts.len() && forall|j: int| 0 <= j < ts.len() ==> offs[j] == table_offset(ts, j, 12 + 16 * (ts.len() as int))
}

/// The font file: the tables sorted by tag and laid out 4-byte aligned
/// with their checksums, and `head`'s `checkSumAdjustment` set so that the
/// whole file sums to `0xB1B0AFBA`.
pub open spec fn assemble_spec(version: u32, tables: Seq<TableV>) -> Seq<u8> {
    let ts = sorted_tables(tables, tables.len() as int);
    let body = sfnt_body(version, ts);
    match find_head(ts, 0) {
        None => body,
        Some(h) => {
            let at = table_offset(ts, h, 12 + 16 * (ts.len() as int)) % 0x1_0000_0000;
            let adj = (0xB1B0_AFBA - checksum_spec(body) + 0x1_0000_0000) % 0x1_0000_0000;
            body.subrange(0, at + 8) + word32(adj) + body.skip(at + 12)
        },
    }
}


/// The tables as plain values.
pub open spec fn tables_view(v: Seq<(u32, Vec<u8>)>) -> Seq<TableV> {
    Seq::new(v.len(), |i: int| (v[i].0, v[i].1@))
}

proof fn lemma_pad4_len(s: Seq<u8>)
    ensures
        pad4(s).len() == round4(s.len() as int),
{
}

proof fn lemma_tables_data_len(ts: Seq<TableV>, k: int, base: int)
    requires
        0 <= k <= ts.len(),
    ensures
        base + tables_data(ts, k).len() == table_offset(ts, k, base),
    decreases k,
{
    if k > 0 {
        lemma_tables_data_len(ts, k - 1, base);
        lemma_pad4_len(ts[k - 1].1);
    }
}

proof fn lemma_table_offset_mono(ts: Seq<TableV>, i: int, k: int, base: int)
    requires
        0 <= i <= k <= ts.len(),
    ensures
        table_offset(ts, i, base) <= table_offset(ts, k, base),
    decreases k - i,
{
    if i < k {
        lemma_table_offset_mono(ts, i, k - 1, base);
        lemma_pad4_len(ts[k - 1].1);
    }
}

proof fn lemma_table_records_len(ts: Seq<TableV>, k: int, base: int)
    requires
        0 <= k,
    ensures
        table_records(ts, k, base).len() == 16 * k,
    decreases k,
{
    if k > 0 {
        lemma_table_records_len(ts, k - 1, base);
    }
}

/// Sorts the tables by tag, equal tags keeping their order.
fn sort_tables(tables: &Vec<(u32, Vec<u8>)>) -> (r: Vec<(u32, Vec<u8>)>)
    ensures
        tables_view(r@) == sorted_tables(tables_view(tables@), tables@.len() as int),
        r@.len() == tables@.len(),
{
    let ghost tv = tables_view(tables@);
    let mut sorted: Vec<(u32, Vec<u8>)> = Vec::new();
    let mut k: usize = 0;
    while k < tables.len()
        invariant
            k <= tables@.len(),
            tv == tables_view(tables@),
            tables_view(sorted@) == sorted_tables(tv, k as int),
            sorted@.len() == k,
        decreases tables@.len() - k,
    {
        let tag = tables[k].0;
        let mut p: usize = 0;
        while p < sorted.len() && sorted[p].0 <= tag
            invariant
                p <= sorted@.len(),
                first_tag_after(tables_view(sorted@), tag, 0) == first_tag_after(tables_view(sorted@), tag, p as int),
            decreases sorted@.len() - p,
        {
            p += 1;
        }
        let ghost sv = tables_view(sorted@);
        proof {
            assert(first_tag_after(sv, tag, p as int) == p);
            assert(tv[k as int] == (tables@[k as int].0, tables@[k as int].1@));
        }
        let t = (tag, tables[k].1.clone());
        sorted.insert(p, t);
        proof {
            assert(tables_view(sorted@) =~= sv.insert(p as int, tv[k as int]));
        }
        k += 1;
    }
    sorted
}

/// The table directory: header and records (see `sfnt_body`), and where
/// each table will start.
#[verifier::spinoff_prover]
#[verifier::rlimit(60)]
fn directory(version: u32, sorted: &Vec<(u32, Vec<u8>)>) -> (r: (Vec<u8>, Vec<u128>))
    requires
        1 <= sorted@.len() <= 64,
    ensures
        r.0@ == directory_spec(version, tables_view(sorted@)),
        offsets_are(r.1@, tables_view(sorted@)),
{
    reveal(directory_spec);
    let ghost ts = tables_view(sorted@);
    let n = sorted.len();
    let (es, p2) = log2_floor(if n < 1 { 1 } else { n });
    let sr: u16 = (16 * p2) as u16;
    let mut out: Vec<u8> = Vec::new();
    push_u32(&mut out, version);
    push_u16(&mut out, n as u16);
    push_u16(&mut out, sr);
    push_u16(&mut out, es as u16);
    push_u16(&mut out, (n as u16) * 16 - sr);
    let ghost head = out@;
    let base: u128 = 12 + 16 * n as u128;
    let mut offs: Vec<u128> = Vec::new();
    let mut off: u128 = base;
    let mut i: usize = 0;
    while i < n
        invariant
            i <= n == ts.len(),
            n <= 64,
            ts == tables_view(sorted@),
            base == 12 + 16 * n,
            off == table_offset(ts, i as int, base as int),
            off <= base + i * 0x1_0000_0000_0000_0000,
            offs@.len() == i,
            forall|j: int| 0 <= j < i ==> offs@[j] == table_offset(ts, j, base as int),
            out@ == head + table_records(ts, i as int, base as int),
        decreases n - i,
    {
        proof {
            assert(ts[i as int] == (sorted@[i as int].0, sorted@[i as int].1@));
        }
        let sum = checksum(sorted[i].1.as_slice());
        let len = sorted[i].1.len() as u128;
        proof {
            assert(off + (len + 3) / 4 * 4 <= base + (i + 1) * 0x1_0000_0000_0000_0000) by (nonlinear_arith)
                requires
                    off <= base + i * 0x1_0000_0000_0000_0000,
                    len < 0x1_0000_0000_0000_0000,
            ;
            assert(table_offset(ts, i + 1, base as int) == off + (len + 3) / 4 * 4);
        }
        push_u32(&mut out, sorted[i].0);
        push_u32(&mut out, sum);
        push_u32(&mut out, (off % 0x1_0000_0000) as u32);
        push_u32(&mut out, (len % 0x1_0000_0000) as u32);
        offs.push(off);
        proof {
            assert(out@ =~= head + table_records(ts, i + 1, base as int));
        }
        off = off + (len + 3) / 4 * 4;
        i += 1;
    }
    (out, offs)
}

/// Appends the tables' data, each padded to a multiple of 4.
fn append_tables(out: &mut Vec<u8>, sorted: &Vec<(u32, Vec<u8>)>)
    ensures
        final(out)@ == old(out)@ + tables_data(tables_view(sorted@), sorted@.len() as int),
{
    let ghost ts = tables_view(sorted@);
    let n = sorted.len();
    let mut i: usize = 0;
    while i < n
        invariant
            i <= n == ts.len(),
            ts == tables_view(sorted@),
            out@ == old(out)@ + tables_data(ts, i as int),
        decreases n - i,
    {
        proof {
            assert(ts[i as int] == (sorted@[i as int].0, sorted@[i as int].1@));
        }
        let ghost before = out@;
        crate::bytes::push_all(out, sorted[i].1.as_slice());
        let pad = (4 - sorted[i].1.len() % 4) % 4;
        let ghost mid = out@;
        let mut k: usize = 0;
        while k < pad
            invariant
                k <= pad <= 3,
                out@ == mid + Seq::new(k as nat, |j: int| 0u8),
            decreases pad - k,
        {
            out.push(0);
            assert(out@ =~= mid + Seq::new((k + 1) as nat, |j: int| 0u8));
            k += 1;
        }
        proof {
            assert(out@ =~= old(out)@ + tables_data(ts, i + 1));
        }
        i += 1;
    }
}

/// Lays the tables out as an sfnt file (see `assemble_spec`).
#[verifier::spinoff_prover]
#[verifier::rlimit(80)]
fn assemble(version: u32, tables: &Vec<(u32, Vec<u8>)>) -> (r: Vec<u8>)
    requires
        1 <= tables@.len() <= 64,
        forall|i: int| 0 <= i < tables@.len() && (#[trigger] tables@[i]).0 == head_tag() ==> tables@[i].1@.len() >= 12,
    ensures
        r@ == assemble_spec(version, tables_view(tables@)),
{
    let sorted = sort_tables(tables);
    let ghost ts = tables_view(sorted@);
    let n = sorted.len();
    let (mut out, offs) = directory(version, &sorted);
    append_tables(&mut out, &sorted);
    assert(out@ == sfnt_body(version, ts));
    match head_position(&sorted, &offs) {
        Some(at) => {
            proof {
                let h = find_head(ts, 0).unwrap();
                lemma_head_fits(tables_view(tables@), version, h);
                assert(ts == sorted_tables(tables_view(tables@), tables@.len() as int));
                assert(at as int + 12 <= out@.len());
            }
            assert(at + 12 <= out.len());
            let total = checksum(out.as_slice());
            let adj: u32 = ((0xB1B0_AFBAu64 + 0x1_0000_0000 - total as u64) % 0x1_0000_0000) as u32;
            set_word32(&mut out, at + 8, adj);
        },
        None => {},
    }
    out
}

/// Where the first `head` table starts (its offset's low 32 bits).
fn head_position(sorted: &Vec<(u32, Vec<u8>)>, offs: &Vec<u128>) -> (r: Option<usize>)
    requires
        offsets_are(offs@, tables_view(sorted@)),
    ensures
        match find_head(tables_view(sorted@), 0) {
            Some(h) => r == Some((table_offset(tables_view(sorted@), h, 12 + 16 * (sorted@.len() as int)) % 0x1_0000_0000) as usize),
            None => r is None,
        },
{
    let ghost ts = tables_view(sorted@);
    let n = sorted.len();
    let mut h: usize = 0;
    while h < n && sorted[h].0 != 0x68656164
        invariant
            h <= n == ts.len(),
            ts == tables_view(sorted@),
            find_head(ts, 0) == find_head(ts, h as int),
        decreases n - h,
    {
        proof {
            assert(ts[h as int].0 == sorted@[h as int].0);
        }
        h += 1;
    }
    if h < n {
        assert(ts[h as int].0 == sorted@[h as int].0);
        assert(offs@[h as int] == table_offset(ts, h as int, 12 + 16 * (n as int)));
        Some((offs[h] % 0x1_0000_0000) as usize)
    } else {
        None
    }
}

/// The first `head` table's adjustment field lies inside the file.
#[verifier::spinoff_prover]
#[verifier::rlimit(40)]
proof fn lemma_head_fits(tables: Seq<TableV>, version: u32, h: int)
    requires
        forall|i: int| 0 <= i < tables.len() && (#[trigger] tables[i]).0 == head_tag() ==> tables[i].1.len() >= 12,
        find_head(sorted_tables(tables, tables.len() as int), 0) == Some(h),
    ensures
        ({
            let ts = sorted_tables(tables, tables.len() as int);
            (table_offset(ts, h, 12 + 16 * (ts.len() as int)) % 0x1_0000_0000) + 12 <= sfnt_body(version, ts).len()
        }),
{
    reveal(directory_spec);
    let ts = sorted_tables(tables, tables.len() as int);
    let n = ts.len() as int;
    let base = 12 + 16 * n;
    lemma_find_head_range(ts, 0);
    lemma_sorted_tables_len(tables, tables.len() as int);
    lemma_sorted_tables_members(tables, tables.len() as int, h);
    assert(ts[h].1.len() >= 12);
    lemma_tables_data_len(ts, n, base);
    lemma_tables_data_len(ts, h + 1, base);
    lemma_table_offset_mono(ts, h + 1, n, base);
    lemma_table_records_len(ts, n, base);
    lemma_pad4_len(ts[h].1);
}

proof fn lemma_find_head_range(ts: Seq<TableV>, i: int)
    ensures
        find_head(ts, i) matches Some(h) ==> 0 <= h < ts.len() && ts[h].0 == head_tag(),
    decreases ts.len() - i,
{
    if 0 <= i < ts.len() && ts[i].0 != head_tag() {
        lemma_find_head_range(ts, i + 1);
    }
}

/// Overwrites the four bytes at `at` with `v`, big-endian.
fn set_word32(out: &mut Vec<u8>, at: usize, v: u32)
    requires
        at + 4 <= old(out)@.len(),
    ensures
        final(out)@ == old(out)@.subrange(0, at as int) + word32(v as int) + old(out)@.skip(at + 4),
{
    assert(at + 4 <= out.len());
    out.set(at, (v / 0x1000000) as u8);
    out.set(at + 1, ((v / 0x10000) % 256) as u8);
    out.set(at + 2, ((v / 256) % 256) as u8);
    out.set(at + 3, (v % 256) as u8);
    assert(final(out)@ =~= old(out)@.subrange(0, at as int) + word32(v as int) + old(out)@.skip(at + 4));
}

/// Every table of the sorted list is one of the tables given.
proof fn lemma_sorted_tables_members(l: Seq<TableV>, k: int, i: int)
    requires
        0 <= k <= l.len(),
        0 <= i < sorted_tables(l, k).len(),
    ensures
        sorted_tables(l, k).len() == k,
        exists|j: int| 0 <= j < k && l[j] == sorted_tables(l, k)[i],
    decreases k,
{
    if k > 0 {
        let s = sorted_tables(l, k - 1);
        lemma_sorted_tables_len(l, k - 1);
        let p = first_tag_after(s, l[k - 1].0, 0);
        lemma_first_tag_range(s, l[k - 1].0, 0);
        let t = s.insert(p, l[k - 1]);
        if i == p {
            assert(t[i] == l[k - 1]);
        } else if i < p {
            lemma_sorted_tables_members(l, k - 1, i);
            assert(t[i] == s[i]);
        } else {
            lemma_sorted_tables_members(l, k - 1, i - 1);
            assert(t[i] == s[i - 1]);
        }
    } else {
        assert(sorted_tables(l, k).len() == 0);
    }
}

proof fn lemma_sorted_tables_len(l: Seq<TableV>, k: int)
    requires
        0 <= k <= l.len(),
    ensures
        sorted_tables(l, k).len() == k,
    decreases k,
{
    if k > 0 {
        lemma_sorted_tables_len(l, k - 1);
        lemma_first_tag_range(sorted_tables(l, k - 1), l[k - 1].0, 0);
    }
}

proof fn lemma_first_tag_range(l: Seq<TableV>, tag: u32, i: int)
    requires
        0 <= i,
    ensures
        i <= first_tag_after(l, tag, i) <= l.len() || (i > l.len() && first_tag_after(l, tag, i) == l.len()),
        0 <= first_tag_after(l, tag, i) <= l.len(),
    decreases l.len() - i,
{
    if i < l.len() && l[i].0 <= tag {
        lemma_first_tag_range(l, tag, i + 1);
    }
}


// ---------------------------------------------------------------- subset

/// Whether the characters ascend strictly, as a set's do.
pub open spec fn ascending(chars: Seq<char>) -> bool {
    forall|i: int, j: int| 0 <= i < j < chars.len() ==> (chars[i] as u32) < (chars[j] as u32)
}

/// The new `cmap`'s mapping and the glyphs it needs, from the first `k`
/// characters: each character the font maps to a glyph below `n` (other
/// than glyph 0) is kept with its glyph; glyph 0 is always needed. `None`
/// when a character's lookup does not read.
pub open spec fn mapping_from(t: Seq<u8>, chars: Seq<char>, n: int, k: int) -> Option<(Seq<(u32, u16)>, Seq<bool>)>
    decreases k,
{
    if k <= 0 {
        Some((Seq::empty(), Seq::new(n as nat, |g: int| g == 0)))
    } else {
        match mapping_from(t, chars, n, k - 1) {
            None => None,
            Some((m, keep)) => match lookup(t, chars[k - 1]) {
                None => None,
                Some(g) => if g == 0 || g >= n {
                    Some((m, keep))
                } else {
                    Some((m.push((chars[k - 1] as u32, g as u16)), keep.update(g, true)))
                },
            },
        }
    }
}

/// The mapping and needed glyphs (see `mapping_from`).
fn char_mapping(t: &[u8], chars: &[char], n: usize) -> (r: Option<(Vec<(u32, u16)>, Vec<bool>)>)
    requires
        1 <= n <= 0x10000,
    ensures
        match mapping_from(t@, chars@, n as int, chars@.len() as int) {
            Some((m, keep)) => r matches Some((mv, kv)) && mv@ == m && kv@ == keep,
            None => r is None,
        },
{
    let mut keep: Vec<bool> = Vec::new();
    let mut g: usize = 0;
    while g < n
        invariant
            g <= n,
            keep@ == Seq::new(g as nat, |j: int| j == 0),
        decreases n - g,
    {
        keep.push(g == 0);
        assert(keep@ =~= Seq::new((g + 1) as nat, |j: int| j == 0));
        g += 1;
    }
    let mut m: Vec<(u32, u16)> = Vec::new();
    let mut k: usize = 0;
    while k < chars.len()
        invariant
            k <= chars@.len(),
            n <= 0x10000,
            keep@.len() == n,
            mapping_from(t@, chars@, n as int, k as int) == Some((m@, keep@)),
        decreases chars@.len() - k,
    {
        let c = chars[k];
        proof {
            lemma_lookup_range(t@, c);
        }
        match lookup_char(t, c) {
            None => {
                proof {
                    lemma_mapping_none(t@, chars@, n as int, k + 1, chars@.len() as int);
                }
                return None;
            },
            Some(gid) => {
                if gid != 0 && (gid as usize) < n {
                    m.push((c as u32, gid));
                    keep.set(gid as usize, true);
                }
            },
        }
        k += 1;
    }
    Some((m, keep))
}

proof fn lemma_mapping_none(t: Seq<u8>, chars: Seq<char>, n: int, k: int, j: int)
    requires
        0 < k <= j,
        mapping_from(t, chars, n, k) is None,
    ensures
        mapping_from(t, chars, n, j) is None,
    decreases j - k,
{
    if k < j {
        lemma_mapping_none(t, chars, n, k + 1, j);
    }
}

/// The glyphs marked, in ascending order.
pub open spec fn marked_ids(marks: Seq<bool>, k: int) -> Seq<u16>
    decreases k,
{
    if k <= 0 {
        Seq::empty()
    } else {
        marked_ids(marks, k - 1) + if marks[k - 1] { seq![(k - 1) as u16] } else { Seq::empty() }
    }
}

/// The marked glyph ids, ascending.
fn marked_list(marks: &Vec<bool>) -> (r: Vec<u16>)
    requires
        marks@.len() <= 0x10000,
    ensures
        r@ == marked_ids(marks@, marks@.len() as int),
        r@.len() <= marks@.len(),
{
    let mut out: Vec<u16> = Vec::new();
    let mut g: usize = 0;
    while g < marks.len()
        invariant
            g <= marks@.len() <= 0x10000,
            out@ == marked_ids(marks@, g as int),
            out@.len() <= g,
        decreases marks@.len() - g,
    {
        if marks[g] {
            out.push(g as u16);
        }
        proof {
            assert(out@ =~= marked_ids(marks@, g + 1));
        }
        g += 1;
    }
    out
}


/// Glyph `g`'s advance and left side bearing: past the last full metric
/// the advance repeats and the bearings continue in their own array.
pub open spec fn metric(hmtx: Seq<u8>, g: int, nhm: int) -> Option<(int, int)> {
    let (a, b) = if g < nhm { (u16_at(hmtx, g * 4), u16_at(hmtx, g * 4 + 2)) } else {
        (u16_at(hmtx, (nhm - 1) * 4), u16_at(hmtx, nhm * 4 + (g - nhm) * 2))
    };
    match (a, b) {
        (Some(x), Some(y)) => Some((x, y)),
        _ => None,
    }
}

/// The new `hmtx`: a full metric record for each of the first `k`
/// retained glyphs.
pub open spec fn hmtx_from(hmtx: Seq<u8>, gids: Seq<u16>, nhm: int, k: int) -> Option<Seq<u8>>
    decreases k,
{
    if k <= 0 {
        Some(Seq::empty())
    } else {
        match (hmtx_from(hmtx, gids, nhm, k - 1), metric(hmtx, gids[k - 1] as int, nhm)) {
            (Some(done), Some((a, b))) => Some(done + word16(a) + word16(b)),
            _ => None,
        }
    }
}

/// The new `hmtx` (see `hmtx_from`).
fn build_hmtx(hmtx: &[u8], gids: &Vec<u16>, nhm: usize) -> (r: Option<Vec<u8>>)
    requires
        1 <= nhm <= 0xFFFF,
    ensures
        match hmtx_from(hmtx@, gids@, nhm as int, gids@.len() as int) {
            Some(t) => r matches Some(v) && v@ == t,
            None => r is None,
        },
{
    let mut out: Vec<u8> = Vec::new();
    let mut k: usize = 0;
    while k < gids.len()
        invariant
            k <= gids@.len(),
            1 <= nhm <= 0xFFFF,
            hmtx_from(hmtx@, gids@, nhm as int, k as int) == Some(out@),
        decreases gids@.len() - k,
    {
        let g = gids[k] as usize;
        let (a, b) = if g < nhm {
            (u16at(hmtx, g * 4), u16at(hmtx, g * 4 + 2))
        } else {
            (u16at(hmtx, (nhm - 1) * 4), u16at(hmtx, nhm * 4 + (g - nhm) * 2))
        };
        match (a, b) {
            (Some(x), Some(y)) => {
                push_u16(&mut out, x);
                push_u16(&mut out, y);
            },
            _ => {
                proof {
                    lemma_hmtx_none(hmtx@, gids@, nhm as int, k + 1, gids@.len() as int);
                }
                return None;
            },
        }
        k += 1;
    }
    Some(out)
}

proof fn lemma_hmtx_none(hmtx: Seq<u8>, gids: Seq<u16>, nhm: int, k: int, j: int)
    requires
        0 < k <= j,
        hmtx_from(hmtx, gids, nhm, k) is None,
    ensures
        hmtx_from(hmtx, gids, nhm, j) is None,
    decreases j - k,
{
    if k < j {
        lemma_hmtx_none(hmtx, gids, nhm, k + 1, j);
    }
}

/// A glyph's bytes with the first `k` component `glyphIndex` fields
/// rewritten to the components' new glyph ids; `None` when a component is
/// not among the retained glyphs.
pub open spec fn patch_from(gd: Seq<u8>, ps: Seq<int>, k: int, gids: Seq<u16>) -> Option<Seq<u8>>
    decreases k,
{
    if k <= 0 {
        Some(gd)
    } else {
        match patch_from(gd, ps, k - 1, gids) {
            None => None,
            Some(cur) => {
                let pos = ps[k - 1];
                match u16_at(cur, pos) {
                    None => None,
                    Some(c) => match first_index(gids, c as u16, 0) {
                        None => None,
                        Some(ni) => Some(cur.update(pos, ((ni / 256) % 256) as u8).update(pos + 1, (ni % 256) as u8)),
                    },
                }
            },
        }
    }
}

/// Retained glyph `g`'s new outline bytes (components renumbered); empty
/// for an empty glyph.
pub open spec fn glyph_out(glyf: Seq<u8>, loca: Seq<u32>, g: int, gids: Seq<u16>) -> Option<Seq<u8>> {
    let s = loca[g] as int;
    let e = loca[g + 1] as int;
    if e <= s {
        Some(Seq::empty())
    } else {
        match slice_at(glyf, s, e - s) {
            None => None,
            Some(gd) => match component_spec(gd) {
                None => None,
                Some(ps) => patch_from(gd, ps, ps.len() as int, gids),
            },
        }
    }
}

/// The new `glyf` and `loca` (long offsets) for the first `k` retained
/// glyphs, each outline padded to a multiple of 4.
pub open spec fn glyf_from(glyf: Seq<u8>, loca: Seq<u32>, gids: Seq<u16>, k: int) -> Option<(Seq<u8>, Seq<u8>)>
    decreases k,
{
    if k <= 0 {
        Some((Seq::empty(), Seq::empty()))
    } else {
        match glyf_from(glyf, loca, gids, k - 1) {
            None => None,
            Some((go, lo)) => match glyph_out(glyf, loca, gids[k - 1] as int, gids) {
                None => None,
                Some(b) => Some((go + pad4(b), lo + word32((go.len() as int) % 0x1_0000_0000))),
            },
        }
    }
}

/// The new `glyf` and `loca` tables.
pub open spec fn glyf_loca_spec(glyf: Seq<u8>, loca: Seq<u32>, gids: Seq<u16>) -> Option<(Seq<u8>, Seq<u8>)> {
    match glyf_from(glyf, loca, gids, gids.len() as int) {
        None => None,
        Some((go, lo)) => Some((go, lo + word32((go.len() as int) % 0x1_0000_0000))),
    }
}

/// Glyph `g`'s new outline bytes (see `glyph_out`).
fn rebuild_glyph(glyf: &[u8], loca: &Vec<u32>, g: usize, gids: &Vec<u16>) -> (r: Option<Vec<u8>>)
    requires
        g + 1 < loca@.len(),
    ensures
        match glyph_out(glyf@, loca@, g as int, gids@) {
            Some(b) => r matches Some(v) && v@ == b,
            None => r is None,
        },
{
    assert(g + 1 < loca.len());
    let s = loca[g] as u128;
    let e = loca[g + 1] as u128;
    if e <= s {
        return Some(Vec::new());
    }
    let src = match slice_of(glyf, s, e - s) {
        Some(x) => x,
        None => {
            return None;
        },
    };
    let ps = match component_positions(src) {
        Some(p) => p,
        None => {
            return None;
        },
    };
    let ghost sp = component_spec(src@).unwrap();
    let mut gd: Vec<u8> = Vec::new();
    crate::bytes::push_all(&mut gd, src);
    assert(gd@ =~= src@);
    let mut k: usize = 0;
    while k < ps.len()
        invariant
            k <= ps@.len(),
            ps@.len() == sp.len(),
            forall|i: int| 0 <= i < sp.len() ==> #[trigger] ps@[i] == sp[i],
            patch_from(src@, sp, k as int, gids@) == Some(gd@),
            glyph_out(glyf@, loca@, g as int, gids@) == patch_from(src@, sp, sp.len() as int, gids@),
        decreases ps@.len() - k,
    {
        let pos = ps[k];
        assert(pos == sp[k as int]);
        let c = match u16at(gd.as_slice(), pos) {
            Some(v) => v,
            None => {
                proof {
                    lemma_patch_none(src@, sp, k + 1, sp.len() as int, gids@);
                }
                return None;
            },
        };
        let ni = match index_in(gids, c) {
            Some(j) => j,
            None => {
                proof {
                    lemma_patch_none(src@, sp, k + 1, sp.len() as int, gids@);
                }
                return None;
            },
        };
        proof {
            lemma_first_index_range(gids@, c, 0);
            assert(first_index(gids@, c, 0) == Some(ni as int));
        }
        assert(pos + 2 <= gd.len());
        let ghost cur = gd@;
        gd.set(pos, ((ni / 256) % 256) as u8);
        gd.set(pos + 1, (ni % 256) as u8);
        proof {
            assert(gd@ == cur.update(pos as int, ((ni / 256) % 256) as u8).update(pos + 1, (ni % 256) as u8));
        }
        k += 1;
    }
    Some(gd)
}

proof fn lemma_patch_none(gd: Seq<u8>, ps: Seq<int>, k: int, j: int, gids: Seq<u16>)
    requires
        0 < k <= j,
        patch_from(gd, ps, k, gids) is None,
    ensures
        patch_from(gd, ps, j, gids) is None,
    decreases j - k,
{
    if k < j {
        lemma_patch_none(gd, ps, k + 1, j, gids);
    }
}

/// The new `glyf` and `loca` (see `glyf_loca_spec`).
fn rebuild_glyf(glyf: &[u8], loca: &Vec<u32>, gids: &Vec<u16>, n: usize) -> (r: Option<(Vec<u8>, Vec<u8>)>)
    requires
        loca@.len() == n + 1,
        forall|i: int| 0 <= i < gids@.len() ==> (#[trigger] gids@[i]) < n,
    ensures
        match glyf_loca_spec(glyf@, loca@, gids@) {
            Some((go, lo)) => r matches Some((gv, lv)) && gv@ == go && lv@ == lo,
            None => r is None,
        },
{
    let mut go: Vec<u8> = Vec::new();
    let mut lo: Vec<u8> = Vec::new();
    let mut k: usize = 0;
    while k < gids.len()
        invariant
            k <= gids@.len(),
            loca@.len() == n + 1,
            forall|i: int| 0 <= i < gids@.len() ==> (#[trigger] gids@[i]) < n,
            glyf_from(glyf@, loca@, gids@, k as int) == Some((go@, lo@)),
        decreases gids@.len() - k,
    {
        let g = gids[k] as usize;
        assert(gids@[k as int] < n);
        push_u32(&mut lo, (go.len() as u128 % 0x1_0000_0000) as u32);
        let b = match rebuild_glyph(glyf, loca, g, gids) {
            Some(b) => b,
            None => {
                proof {
                    lemma_glyf_none(glyf@, loca@, gids@, k + 1, gids@.len() as int);
                }
                return None;
            },
        };
        let ghost before = go@;
        crate::bytes::push_all(&mut go, b.as_slice());
        let pad = (4 - b.len() % 4) % 4;
        let ghost mid = go@;
        let mut j: usize = 0;
        while j < pad
            invariant
                j <= pad <= 3,
                go@ == mid + Seq::new(j as nat, |x: int| 0u8),
            decreases pad - j,
        {
            go.push(0);
            assert(go@ =~= mid + Seq::new((j + 1) as nat, |x: int| 0u8));
            j += 1;
        }
        proof {
            assert(go@ =~= before + pad4(b@));
        }
        k += 1;
    }
    push_u32(&mut lo, (go.len() as u128 % 0x1_0000_0000) as u32);
    Some((go, lo))
}

proof fn lemma_glyf_none(glyf: Seq<u8>, loca: Seq<u32>, gids: Seq<u16>, k: int, j: int)
    requires
        0 < k <= j,
        glyf_from(glyf, loca, gids, k) is None,
    ensures
        glyf_from(glyf, loca, gids, j) is None,
    decreases j - k,
{
    if k < j {
        lemma_glyf_none(glyf, loca, gids, k + 1, j);
    }
}


/// The table tagged `tag` (its four bytes read big-endian).
pub open spec fn font_table(font: Seq<u8>, tag: u32) -> Option<Seq<u8>> {
    table_bytes(font, word32(tag as int))
}

/// The table tagged `tag`.
fn get_table<'a>(font: &'a [u8], tag: u32) -> (r: Option<&'a [u8]>)
    ensures
        match font_table(font@, tag) {
            Some(t) => r matches Some(x) && x@ == t,
            None => r is None,
        },
{
    let t: [u8; 4] = [(tag / 0x1000000) as u8, ((tag / 0x10000) % 256) as u8, ((tag / 256) % 256) as u8, (tag % 256) as u8];
    assert(t@ =~= word32(tag as int));
    table(font, t)
}

/// The glyphs a subset keeps: glyph 0, the glyphs the characters map to,
/// and (with TrueType outlines) every glyph those reach as components.
/// Also the characters' mapping (old glyph ids) and, with TrueType
/// outlines, the glyph offsets. `None` when a needed table is missing or
/// does not read, the font has no glyphs or metrics, a character's lookup
/// fails, or a reached glyph does not read.
#[verifier::opaque]
pub open spec fn glyph_plan(font: Seq<u8>, chars: Seq<char>) -> Option<(Seq<(u32, u16)>, Seq<u16>, Option<Seq<u32>>)> {
    match (font_table(font, 0x68656164), font_table(font, 0x6d617870), font_table(font, 0x68686561), font_table(font, 0x686d7478), font_table(font, 0x636d6170)) {
        (Some(head), Some(maxp), Some(hhea), Some(_), Some(cmap)) => match (u16_at(maxp, 4), u16_at(hhea, 34)) {
            (Some(n), Some(nhm)) => if n == 0 || nhm == 0 {
                None
            } else {
                match best_subtable(cmap) {
                    None => None,
                    Some(sub) => match mapping_from(sub, chars, n, chars.len() as int) {
                        None => None,
                        Some((m, keep0)) => {
                            let glyf = font_table(font, 0x676c7966);
                            let loca = font_table(font, 0x6c6f6361);
                            match (glyf, loca) {
                                (Some(gl), Some(lo)) => match u16_at(head, 50) {
                                    None => None,
                                    Some(f) => match loca_spec(lo, n, f == 1) {
                                        None => None,
                                        Some(lv) => if exists|g: int|
                                            reachable(gl, lv, n, keep0, g) && !#[trigger] glyph_ok(gl, lv, n, g) {
                                            None
                                        } else {
                                            let kept = Seq::new(n as nat, |g: int| reachable(gl, lv, n, keep0, g));
                                            Some((m, marked_ids(kept, n), Some(lv)))
                                        },
                                    },
                                },
                                (None, _) => Some((m, marked_ids(keep0, n), None)),
                                _ => None,
                            }
                        },
                    },
                }
            },
            _ => None,
        },
        _ => None,
    }
}

/// The mapping in the new glyph numbering: each glyph by its position
/// among the retained ones.
pub open spec fn renumbered(m: Seq<(u32, u16)>, gids: Seq<u16>) -> Seq<(u32, u16)> {
    Seq::new(m.len(), |i: int| (m[i].0, first_index(gids, m[i].1, 0).unwrap() as u16))
}

/// `t` with the 16-bit field at `at` set to `v`.
pub open spec fn with_u16(t: Seq<u8>, at: int, v: int) -> Seq<u8> {
    t.update(at, ((v / 256) % 256) as u8).update(at + 1, (v % 256) as u8)
}

/// The new `head`: its first 54 bytes, `checkSumAdjustment` zeroed, and
/// long `loca` offsets when the outlines are TrueType.
pub open spec fn new_head(head: Seq<u8>, truetype: bool) -> Seq<u8> {
    let h = head.subrange(0, 54).update(8, 0).update(9, 0).update(10, 0).update(11, 0);
    if truetype { with_u16(h, 50, 1) } else { h }
}

/// The new `post`: version 3.0 (no glyph names) over the original's first
/// 32 bytes, or zeros.
pub open spec fn new_post(post: Option<Seq<u8>>) -> Seq<u8> {
    let base = match post {
        Some(p) => if p.len() >= 32 { p.subrange(0, 32) } else { Seq::new(32, |i: int| 0u8) },
        None => Seq::new(32, |i: int| 0u8),
    };
    base.update(0, 0).update(1, 3).update(2, 0).update(3, 0)
}

/// The tables copied through untouched, in this order when present:
/// `OS/2`, `fvar`, `avar`, `STAT`, `MVAR`, `gasp`, `cvt `, `fpgm`, `prep`.
pub open spec fn copied_tags() -> Seq<u32> {
    seq![0x4f532f32u32, 0x66766172u32, 0x61766172u32, 0x53544154u32, 0x4d564152u32, 0x67617370u32, 0x63767420u32, 0x6670676du32, 0x70726570u32]
}

/// The copied tables among the first `k` tags.
pub open spec fn copied_from(font: Seq<u8>, k: int) -> Seq<TableV>
    decreases k,
{
    if k <= 0 {
        Seq::empty()
    } else {
        let tag = copied_tags()[k - 1];
        copied_from(font, k - 1) + match font_table(font, tag) {
            Some(t) => seq![(tag, t)],
            None => Seq::empty(),
        }
    }
}

/// The outline tables: `glyf` and `loca` (with `gvar` and `HVAR` rebuilt
/// when present) for TrueType outlines, otherwise the rebuilt `CFF `.
pub open spec fn outline_tables(font: Seq<u8>, gids: Seq<u16>, n: int, lv: Option<Seq<u32>>) -> Option<Seq<TableV>> {
    match lv {
        Some(l) => match glyf_loca_spec(font_table(font, 0x676c7966).unwrap(), l, gids) {
            None => None,
            Some((go, lo)) => {
                let gvar = match font_table(font, 0x67766172) {
                    Some(g) => match subset_gvar_spec(g, gids) {
                        Some(x) => Some(seq![(0x67766172u32, x)]),
                        None => None,
                    },
                    None => Some(Seq::empty()),
                };
                let hvar = match font_table(font, 0x48564152) {
                    Some(h) => match subset_hvar_spec(h, gids, n) {
                        Some(x) => Some(seq![(0x48564152u32, x)]),
                        None => None,
                    },
                    None => Some(Seq::empty()),
                };
                match (gvar, hvar) {
                    (Some(a), Some(b)) => Some(seq![(0x676c7966u32, go), (0x6c6f6361u32, lo)] + a + b),
                    _ => None,
                }
            },
        },
        None => match font_table(font, 0x43464620) {
            Some(c) => match subset_cff_spec(c, gids) {
                Some(x) => Some(seq![(0x43464620u32, x)]),
                None => None,
            },
            None => None,
        },
    }
}

/// All tables of the subset font, before they are laid out.
#[verifier::opaque]
pub open spec fn subset_tables(font: Seq<u8>, chars: Seq<char>) -> Option<Seq<TableV>> {
    match glyph_plan(font, chars) {
        None => None,
        Some((m, gids, lv)) => {
            let head = font_table(font, 0x68656164).unwrap();
            let maxp = font_table(font, 0x6d617870).unwrap();
            let hhea = font_table(font, 0x68686561).unwrap();
            let hmtx = font_table(font, 0x686d7478).unwrap();
            let n = u16_at(maxp, 4).unwrap();
            let nhm = u16_at(hhea, 34).unwrap();
            let nn = gids.len() as int;
            if head.len() < 54 {
                None
            } else {
                match (hmtx_from(hmtx, gids, nhm, nn), cmap_spec(renumbered(m, gids)), outline_tables(font, gids, n, lv)) {
                    (Some(hm), Some(cm), Some(outl)) => {
                        let name = match font_table(font, 0x6e616d65) {
                            Some(nm) => seq![
                                (0x6e616d65u32, match subset_name_spec(nm) {
                                    Some(x) => x,
                                    None => nm,
                                }),
                            ],
                            None => Seq::empty(),
                        };
                        Some(
                            seq![
                                (0x68656164u32, new_head(head, lv is Some)),
                                (0x6d617870u32, with_u16(maxp, 4, nn)),
                                (0x68686561u32, with_u16(hhea.subrange(0, 36), 34, nn)),
                                (0x686d7478u32, hm),
                                (0x636d6170u32, cm),
                                (0x706f7374u32, new_post(font_table(font, 0x706f7374))),
                            ] + name + outl + copied_from(font, 9),
                        )
                    },
                    _ => None,
                }
            }
        },
    }
}

/// The font rebuilt with only the glyphs needed to draw `chars` (in
/// ascending order, each once): the glyphs `glyph_plan` keeps, renumbered
/// in ascending order of their old ids, with `cmap`, metrics and outlines
/// rebuilt, layout tables and glyph names dropped, and the axis and
/// hinting tables copied. `None`, meaning "embed the original", wherever
/// the font does not read as expected.
pub open spec fn subset_spec(font: Seq<u8>, chars: Seq<char>) -> Option<Seq<u8>> {
    match subset_tables(font, chars) {
        None => None,
        Some(ts) => Some(assemble_spec(u32_at(font, 0).unwrap() as u32, ts)),
    }
}


proof fn lemma_mapping_facts(t: Seq<u8>, chars: Seq<char>, n: int, k: int)
    requires
        0 <= k <= chars.len(),
        1 <= n,
        mapping_from(t, chars, n, k) is Some,
    ensures
        ({
            let (m, keep) = mapping_from(t, chars, n, k).unwrap();
            &&& keep.len() == n
            &&& keep[0]
            &&& forall|i: int| 0 <= i < m.len() ==> (#[trigger] m[i]).1 < n && keep[m[i].1 as int] && m[i].0 <= 0x10FFFF
        }),
    decreases k,
{
    if k > 0 {
        lemma_mapping_facts(t, chars, n, k - 1);
        let (m0, keep0) = mapping_from(t, chars, n, k - 1).unwrap();
        let (m, keep) = mapping_from(t, chars, n, k).unwrap();
        lemma_lookup_range(t, chars[k - 1]);
        let c = chars[k - 1];
        let g = lookup(t, c).unwrap();
        assert forall|i: int| 0 <= i < m.len() implies (#[trigger] m[i]).1 < n && keep[m[i].1 as int] && m[i].0 <= 0x10FFFF by {
            if i < m0.len() {
                assert(m[i] == m0[i]);
                assert(keep0[m0[i].1 as int]);
            } else {
                assert(m[i] == (c as u32, g as u16));
                vstd::utf8::char_is_scalar(c);
            }
        }
    }
}

proof fn lemma_marked_ids(marks: Seq<bool>, k: int)
    requires
        0 <= k <= marks.len(),
        k <= 0x10000,
    ensures
        forall|i: int| 0 <= i < marked_ids(marks, k).len() ==> (#[trigger] marked_ids(marks, k)[i]) < k,
        forall|g: int| 0 <= g < k && marks[g] ==> #[trigger] first_index(marked_ids(marks, k), g as u16, 0) is Some,
        marked_ids(marks, k).len() <= k,
    decreases k,
{
    if k > 0 {
        lemma_marked_ids(marks, k - 1);
        let prev = marked_ids(marks, k - 1);
        let cur = marked_ids(marks, k);
        assert forall|i: int| 0 <= i < cur.len() implies (#[trigger] cur[i]) < k by {
            if i < prev.len() {
                assert(cur[i] == prev[i]);
            }
        }
        assert forall|g: int| 0 <= g < k && marks[g] implies #[trigger] first_index(cur, g as u16, 0) is Some by {
            if g < k - 1 {
                lemma_first_index_prefix(prev, cur, g as u16, 0);
            } else {
                lemma_first_index_found(cur, g as u16, 0, prev.len() as int);
            }
        }
    }
}

/// A value found in a prefix is found at the same place in the whole.
proof fn lemma_first_index_prefix(prev: Seq<u16>, cur: Seq<u16>, x: u16, i: int)
    requires
        0 <= i,
        prev.len() <= cur.len(),
        forall|j: int| 0 <= j < prev.len() ==> cur[j] == prev[j],
        first_index(prev, x, i) is Some,
    ensures
        first_index(cur, x, i) is Some,
    decreases prev.len() - i,
{
    if i < prev.len() && prev[i] != x {
        lemma_first_index_prefix(prev, cur, x, i + 1);
    }
}

/// A value that is present is found.
proof fn lemma_first_index_found(l: Seq<u16>, x: u16, i: int, at: int)
    requires
        0 <= i <= at < l.len(),
        l[at] == x,
    ensures
        first_index(l, x, i) is Some,
    decreases at - i,
{
    if l[i] != x {
        lemma_first_index_found(l, x, i + 1, at);
    }
}

/// What a plan guarantees: the mapped glyphs are all kept, the
/// characters are scalar values, and the `n` glyphs' kept ids are below `n`.
pub open spec fn plan_covers(m: Seq<(u32, u16)>, gids: Seq<u16>, n: int) -> bool {
    &&& forall|i: int| 0 <= i < m.len() ==> #[trigger] first_index(gids, m[i].1, 0) is Some
    &&& chars_ok(m)
    &&& forall|j: int| 0 <= j < gids.len() ==> (#[trigger] gids[j]) < n
    &&& gids.len() <= n
    &&& 1 <= n <= 0xFFFF
}

/// A marked glyph is reached (by the chain of itself alone).
proof fn lemma_start_reached(gl: Seq<u8>, lv: Seq<u32>, n: int, start: Seq<bool>, g: int)
    requires
        0 <= g < start.len(),
        start[g],
    ensures
        reachable(gl, lv, n, start, g),
{
    assert(comp_chain(gl, lv, n, seq![g]));
}

/// The kept ids of `marks` cover every mapped glyph that is marked.
proof fn lemma_covers(marks: Seq<bool>, m: Seq<(u32, u16)>, gids: Seq<u16>, n: int)
    requires
        marks.len() == n,
        1 <= n <= 0xFFFF,
        gids == marked_ids(marks, n),
        forall|i: int| 0 <= i < m.len() ==> (#[trigger] m[i]).1 < n && marks[m[i].1 as int] && m[i].0 <= 0x10FFFF,
    ensures
        plan_covers(m, gids, n),
{
    lemma_marked_ids(marks, n);
    assert forall|i: int| 0 <= i < m.len() implies #[trigger] first_index(gids, m[i].1, 0) is Some by {
        let g = m[i].1 as int;
        assert(marks[g]);
        assert(first_index(marked_ids(marks, n), g as u16, 0) is Some);
        assert(g as u16 == m[i].1);
    }
}

/// What a plan read: `head`, `maxp`, `hhea` and `hmtx` are there, the
/// glyph and metric counts read and are not zero, and glyph offsets (one
/// more than the glyphs) come exactly with TrueType outlines.
pub open spec fn plan_ok(font: Seq<u8>, lo: Option<Seq<u32>>) -> bool {
    let maxp = font_table(font, 0x6d617870);
    let hhea = font_table(font, 0x68686561);
    &&& font_table(font, 0x68656164) is Some
    &&& maxp is Some && u16_at(maxp.unwrap(), 4) is Some && 1 <= u16_at(maxp.unwrap(), 4).unwrap()
    &&& hhea is Some && u16_at(hhea.unwrap(), 34) is Some && 1 <= u16_at(hhea.unwrap(), 34).unwrap()
    &&& font_table(font, 0x686d7478) is Some
    &&& match lo {
        Some(l) => font_table(font, 0x676c7966) is Some && l.len() == u16_at(maxp.unwrap(), 4).unwrap() + 1,
        None => font_table(font, 0x676c7966) is None,
    }
}

/// The glyphs to keep (see `glyph_plan`).
#[verifier::spinoff_prover]
#[verifier::rlimit(60)]
fn plan_glyphs(font: &[u8], chars: &[char]) -> (r: Option<(Vec<(u32, u16)>, Vec<u16>, Option<Vec<u32>>)>)
    ensures
        r matches Some((_, _, lo)) ==> plan_ok(font@, match lo {
            Some(x) => Some(x@),
            None => None,
        }),
        r matches Some((mv, gv, _)) ==> plan_covers(mv@, gv@, u16_at(font_table(font@, 0x6d617870).unwrap(), 4).unwrap()),
        match glyph_plan(font@, chars@) {
            Some((m, gids, lv)) => r matches Some((mv, gv, lo)) && mv@ == m && gv@ == gids && match lv {
                Some(l) => lo matches Some(x) && x@ == l,
                None => lo is None,
            },
            None => r is None,
        },
{
    reveal(glyph_plan);
    let head = match get_table(font, 0x68656164) {
        Some(t) => t,
        None => {
            return None;
        },
    };
    let maxp = match get_table(font, 0x6d617870) {
        Some(t) => t,
        None => {
            return None;
        },
    };
    let hhea = match get_table(font, 0x68686561) {
        Some(t) => t,
        None => {
            return None;
        },
    };
    if get_table(font, 0x686d7478).is_none() {
        return None;
    }
    let cmap = match get_table(font, 0x636d6170) {
        Some(t) => t,
        None => {
            return None;
        },
    };
    let n = match u16at(maxp, 4) {
        Some(v) => v as usize,
        None => {
            return None;
        },
    };
    let nhm = match u16at(hhea, 34) {
        Some(v) => v as usize,
        None => {
            return None;
        },
    };
    if n == 0 || nhm == 0 {
        return None;
    }
    let sub = match best_cmap_subtable(cmap) {
        Some(t) => t,
        None => {
            return None;
        },
    };
    let (m, keep) = match char_mapping(sub, chars, n) {
        Some(x) => x,
        None => {
            return None;
        },
    };
    proof {
        lemma_mapping_facts(sub@, chars@, n as int, chars@.len() as int);
    }
    let glyf = get_table(font, 0x676c7966);
    let loca = get_table(font, 0x6c6f6361);
    match (glyf, loca) {
        (Some(gl), Some(lo)) => {
            let f = match u16at(head, 50) {
                Some(v) => v,
                None => {
                    return None;
                },
            };
            let lv = match read_loca(lo, n, f == 1) {
                Some(x) => x,
                None => {
                    return None;
                },
            };
            let mut marks = keep.clone();
            assert(marks@ == keep@);
            if !glyph_closure(gl, &lv, n, &mut marks) {
                return None;
            }
            proof {
                assert(marks@ =~= Seq::new(n as nat, |g: int| reachable(gl@, lv@, n as int, keep@, g)));
            }
            let gids = marked_list(&marks);
            proof {
                assert forall|g: int| 0 <= g < n && keep@[g] implies #[trigger] marks@[g] by {
                    lemma_start_reached(gl@, lv@, n as int, keep@, g);
                }
                lemma_covers(marks@, m@, gids@, n as int);
            }
            Some((m, gids, Some(lv)))
        },
        (None, _) => {
            let gids = marked_list(&keep);
            proof {
                lemma_covers(keep@, m@, gids@, n as int);
            }
            Some((m, gids, None))
        },
        _ => None,
    }
}


/// The mapping in the new glyph numbering (see `renumbered`).
fn renumber_mapping(m: &Vec<(u32, u16)>, gids: &Vec<u16>) -> (r: Vec<(u32, u16)>)
    requires
        forall|i: int| 0 <= i < m@.len() ==> #[trigger] first_index(gids@, m@[i].1, 0) is Some,
    ensures
        r@ == renumbered(m@, gids@),
{
    let mut out: Vec<(u32, u16)> = Vec::new();
    let mut i: usize = 0;
    while i < m.len()
        invariant
            i <= m@.len(),
            forall|j: int| 0 <= j < m@.len() ==> #[trigger] first_index(gids@, m@[j].1, 0) is Some,
            out@ == renumbered(m@, gids@).take(i as int),
        decreases m@.len() - i,
    {
        let (c, g) = m[i];
        let j = match index_in(gids, g) {
            Some(j) => j,
            None => {
                assert(first_index(gids@, m@[i as int].1, 0) is Some);
                return out;
            },
        };
        out.push((c, #[verifier::truncate] (j as u16)));
        proof {
            assert(out@ =~= renumbered(m@, gids@).take(i + 1));
        }
        i += 1;
    }
    assert(out@ =~= renumbered(m@, gids@));
    out
}

/// Sets the 16-bit field at `at`.
fn set_u16(t: &mut Vec<u8>, at: usize, v: u16)
    requires
        at + 2 <= old(t)@.len(),
    ensures
        final(t)@ == with_u16(old(t)@, at as int, v as int),
{
    let len = t.len();
    assert(at + 1 < len);
    t.set(at, (v / 256) as u8);
    t.set(at + 1, (v % 256) as u8);
}

/// The first `n` bytes of `t`.
fn prefix(t: &[u8], n: usize) -> (r: Vec<u8>)
    requires
        n <= t@.len(),
    ensures
        r@ == t@.subrange(0, n as int),
{
    let mut v: Vec<u8> = Vec::new();
    push_range(&mut v, t, 0, n);
    v
}

/// The new `post` (see `new_post`).
fn build_post(post: Option<&[u8]>) -> (r: Vec<u8>)
    ensures
        r@ == new_post(match post {
            Some(p) => Some(p@),
            None => None,
        }),
{
    let mut base: Vec<u8> = match post {
        Some(p) => if p.len() >= 32 { prefix(p, 32) } else { vec![0u8; 32] },
        None => vec![0u8; 32],
    };
    proof {
        if !(post matches Some(p) && p@.len() >= 32) {
            assert(base@ =~= Seq::new(32, |i: int| 0u8));
        }
    }
    base.set(0, 0);
    base.set(1, 3);
    base.set(2, 0);
    base.set(3, 0);
    base
}

/// The copied tables (see `copied_from`).
fn copied_tables(font: &[u8], out: &mut Vec<(u32, Vec<u8>)>)
    ensures
        tables_view(final(out)@) == tables_view(old(out)@) + copied_from(font@, 9),
{
    let tags: [u32; 9] = [0x4f532f32, 0x66766172, 0x61766172, 0x53544154, 0x4d564152, 0x67617370, 0x63767420, 0x6670676d, 0x70726570];
    assert(tags@ =~= copied_tags());
    let mut k: usize = 0;
    while k < 9
        invariant
            k <= 9,
            tags@ == copied_tags(),
            tables_view(out@) == tables_view(old(out)@) + copied_from(font@, k as int),
        decreases 9 - k,
    {
        let ghost before = tables_view(out@);
        match get_table(font, tags[k]) {
            Some(t) => {
                let mut v: Vec<u8> = Vec::new();
                crate::bytes::push_all(&mut v, t);
                out.push((tags[k], v));
                proof {
                    assert(tables_view(out@) =~= before + seq![(tags[k as int], t@)]);
                }
            },
            None => {
                proof {
                    assert(before + Seq::<TableV>::empty() =~= before);
                }
            },
        }
        proof {
            assert(tables_view(out@) =~= tables_view(old(out)@) + copied_from(font@, k + 1));
        }
        k += 1;
    }
}

/// A table as owned bytes.
fn owned(t: &[u8]) -> (r: Vec<u8>)
    ensures
        r@ == t@,
{
    let mut v: Vec<u8> = Vec::new();
    crate::bytes::push_all(&mut v, t);
    v
}

/// The outline tables (see `outline_tables`).
#[verifier::spinoff_prover]
#[verifier::rlimit(60)]
fn outline_exec(font: &[u8], gids: &Vec<u16>, n: usize, lv: &Option<Vec<u32>>) -> (r: Option<Vec<(u32, Vec<u8>)>>)
    requires
        n <= 0xFFFF,
        forall|j: int| 0 <= j < gids@.len() ==> (#[trigger] gids@[j]) < n,
        lv matches Some(l) ==> l@.len() == n + 1 && font_table(font@, 0x676c7966) is Some,
    ensures
        match outline_tables(font@, gids@, n as int, match lv {
            Some(l) => Some(l@),
            None => None,
        }) {
            Some(ts) => r matches Some(v) && tables_view(v@) == ts,
            None => r is None,
        },
{
    let mut out: Vec<(u32, Vec<u8>)> = Vec::new();
    match lv {
        Some(l) => {
            let gl = match get_table(font, 0x676c7966) {
                Some(t) => t,
                None => {
                    return None;
                },
            };
            let (go, lo) = match rebuild_glyf(gl, l, gids, n) {
                Some(x) => x,
                None => {
                    return None;
                },
            };
            let ghost gov = go@;
            let ghost lov = lo@;
            out.push((0x676c7966, go));
            out.push((0x6c6f6361, lo));
            let ghost base = seq![(0x676c7966u32, gov), (0x6c6f6361u32, lov)];
            proof {
                assert(tables_view(out@) =~= base);
            }
            let ghost a: Seq<TableV> = match font_table(font@, 0x67766172) {
                Some(g) => seq![(0x67766172u32, subset_gvar_spec(g, gids@).unwrap())],
                None => Seq::empty(),
            };
            match get_table(font, 0x67766172) {
                Some(g) => {
                    match subset_gvar(g, gids.as_slice()) {
                        Some(x) => {
                            out.push((0x67766172, x));
                        },
                        None => {
                            return None;
                        },
                    }
                },
                None => {},
            }
            proof {
                assert(tables_view(out@) =~= base + a);
            }
            match get_table(font, 0x48564152) {
                Some(h) => {
                    match subset_hvar(h, gids.as_slice(), n) {
                        Some(x) => {
                            out.push((0x48564152, x));
                        },
                        None => {
                            return None;
                        },
                    }
                },
                None => {},
            }
            proof {
                let b: Seq<TableV> = match font_table(font@, 0x48564152) {
                    Some(h) => seq![(0x48564152u32, subset_hvar_spec(h, gids@, n as int).unwrap())],
                    None => Seq::empty(),
                };
                assert(tables_view(out@) =~= base + a + b);
            }
            Some(out)
        },
        None => {
            match get_table(font, 0x43464620) {
                Some(c) => match subset_cff(c, gids.as_slice()) {
                    Some(x) => {
                        out.push((0x43464620, x));
                        proof {
                            assert(tables_view(out@) =~= seq![(0x43464620u32, out@[0].1@)]);
                        }
                        Some(out)
                    },
                    None => None,
                },
                None => None,
            }
        },
    }
}


/// Whether no table is tagged `head`.
pub open spec fn no_head(ts: Seq<TableV>) -> bool {
    forall|i: int| 0 <= i < ts.len() ==> (#[trigger] ts[i]).0 != head_tag()
}

proof fn lemma_copied_no_head(font: Seq<u8>, k: int)
    requires
        0 <= k <= 9,
    ensures
        no_head(copied_from(font, k)),
        copied_from(font, k).len() <= k,
    decreases k,
{
    if k > 0 {
        lemma_copied_no_head(font, k - 1);
        let prev = copied_from(font, k - 1);
        let cur = copied_from(font, k);
        let tag = copied_tags()[k - 1];
        assert(tag != head_tag());
        assert forall|i: int| 0 <= i < cur.len() implies (#[trigger] cur[i]).0 != head_tag() by {
            if i < prev.len() {
                assert(cur[i] == prev[i]);
            } else {
                assert(cur[i].0 == tag);
            }
        }
    }
}

#[verifier::spinoff_prover]
#[verifier::rlimit(30)]
proof fn lemma_outline_no_head(font: Seq<u8>, gids: Seq<u16>, n: int, lv: Option<Seq<u32>>)
    requires
        outline_tables(font, gids, n, lv) is Some,
    ensures
        no_head(outline_tables(font, gids, n, lv).unwrap()),
        outline_tables(font, gids, n, lv).unwrap().len() <= 4,
{
    let ts = outline_tables(font, gids, n, lv).unwrap();
    assert forall|i: int| 0 <= i < ts.len() implies (#[trigger] ts[i]).0 != head_tag() by {
        match lv {
            Some(l) => {
                if i >= 2 {
                    assert(ts[i].0 == 0x67766172u32 || ts[i].0 == 0x48564152u32);
                }
            },
            None => {},
        }
    }
}

/// The tables of the subset font (see `subset_tables`).
#[verifier::spinoff_prover]
#[verifier::rlimit(100)]
fn build_tables(font: &[u8], chars: &[char]) -> (r: Option<Vec<(u32, Vec<u8>)>>)
    ensures
        r matches Some(v) ==> heads_ok(tables_view(v@)) && u32_at(font@, 0) is Some,
        match subset_tables(font@, chars@) {
            Some(ts) => r matches Some(v) && tables_view(v@) == ts,
            None => r is None,
        },
{
    reveal(subset_tables);
    let (m, gids, lv) = match plan_glyphs(font, chars) {
        Some(x) => x,
        None => {
            return None;
        },
    };
    let ghost lvv: Option<Seq<u32>> = match &lv {
        Some(x) => Some(x@),
        None => None,
    };
    assert(glyph_plan(font@, chars@) == Some((m@, gids@, lvv)));
    let head = get_table(font, 0x68656164).unwrap();
    let maxp = get_table(font, 0x6d617870).unwrap();
    let hhea = get_table(font, 0x68686561).unwrap();
    let hmtx = get_table(font, 0x686d7478).unwrap();
    let n = u16at(maxp, 4).unwrap() as usize;
    let nhm = u16at(hhea, 34).unwrap() as usize;
    if head.len() < 54 {
        return None;
    }
    let nn = gids.len();
    let hm = match build_hmtx(hmtx, &gids, nhm) {
        Some(x) => x,
        None => {
            return None;
        },
    };
    let rm = renumber_mapping(&m, &gids);
    assert(chars_ok(rm@));
    let cm = match write_cmap(&rm) {
        Some(x) => x,
        None => {
            return None;
        },
    };
    let mut outl = match outline_exec(font, &gids, n, &lv) {
        Some(x) => x,
        None => {
            return None;
        },
    };
    let ghost outv = tables_view(outl@);
    let mut tables: Vec<(u32, Vec<u8>)> = Vec::new();
    let mut h = prefix(head, 54);
    h.set(8, 0);
    h.set(9, 0);
    h.set(10, 0);
    h.set(11, 0);
    if lv.is_some() {
        set_u16(&mut h, 50, 1);
    }
    assert(h@ == new_head(head@, lvv is Some));
    tables.push((0x68656164, h));
    let mut mx = owned(maxp);
    set_u16(&mut mx, 4, nn as u16);
    tables.push((0x6d617870, mx));
    let mut hh = prefix(hhea, 36);
    set_u16(&mut hh, 34, nn as u16);
    tables.push((0x68686561, hh));
    tables.push((0x686d7478, hm));
    tables.push((0x636d6170, cm));
    let post = build_post(get_table(font, 0x706f7374));
    tables.push((0x706f7374, post));
    let ghost first = seq![
        (0x68656164u32, new_head(head@, lvv is Some)),
        (0x6d617870u32, with_u16(maxp@, 4, nn as int)),
        (0x68686561u32, with_u16(hhea@.subrange(0, 36), 34, nn as int)),
        (0x686d7478u32, hm@),
        (0x636d6170u32, cm@),
        (0x706f7374u32, new_post(font_table(font@, 0x706f7374))),
    ];
    assert(tables_view(tables@) =~= first);
    let ghost name: Seq<TableV> = match font_table(font@, 0x6e616d65) {
        Some(nm) => seq![
            (0x6e616d65u32, match subset_name_spec(nm) {
                Some(x) => x,
                None => nm,
            }),
        ],
        None => Seq::empty(),
    };
    match get_table(font, 0x6e616d65) {
        Some(nm) => {
            let x = match subset_name(nm) {
                Some(x) => x,
                None => owned(nm),
            };
            tables.push((0x6e616d65, x));
        },
        None => {},
    }
    assert(tables_view(tables@) =~= first + name);
    tables.append(&mut outl);
    assert(tables_view(tables@) =~= first + name + outv);
    copied_tables(font, &mut tables);
    assert(tables_view(tables@) =~= first + name + outv + copied_from(font@, 9));
    proof {
        lemma_outline_no_head(font@, gids@, n as int, lvv);
        lemma_copied_no_head(font@, 9);
        lemma_heads(first, name, outv, copied_from(font@, 9));
    }
    Some(tables)
}

/// At most 64 tables, the first of them `head`, and every table so
/// tagged at least 12 bytes long.
pub open spec fn heads_ok(ts: Seq<TableV>) -> bool {
    &&& 1 <= ts.len() <= 64
    &&& forall|i: int| 0 <= i < ts.len() && (#[trigger] ts[i]).0 == head_tag() ==> ts[i].1.len() >= 12
}

proof fn lemma_heads(first: Seq<TableV>, name: Seq<TableV>, outv: Seq<TableV>, cp: Seq<TableV>)
    requires
        first.len() == 6,
        first[0].1.len() >= 12,
        forall|i: int| 1 <= i < 6 ==> (#[trigger] first[i]).0 != head_tag(),
        name.len() <= 1,
        no_head(name),
        no_head(outv),
        no_head(cp),
        outv.len() <= 4,
        cp.len() <= 9,
    ensures
        heads_ok(first + name + outv + cp),
{
    let ts = first + name + outv + cp;
    assert forall|i: int| 0 <= i < ts.len() && (#[trigger] ts[i]).0 == head_tag() implies ts[i].1.len() >= 12 by {
        if i >= 6 + name.len() + outv.len() {
            assert(ts[i] == cp[i - 6 - name.len() - outv.len()]);
        } else if i >= 6 + name.len() {
            assert(ts[i] == outv[i - 6 - name.len()]);
        } else if i >= 6 {
            assert(ts[i] == name[i - 6]);
        } else {
            assert(ts[i] == first[i]);
        }
    }
}

/// Rebuilds `font` carrying only the glyphs needed to draw `chars`
/// (ascending, each once; see `subset_spec`). `None` means "embed the
/// original": the font holds something this rebuild does not fully read.
pub fn subset(font: &[u8], chars: &[char]) -> (r: Option<Vec<u8>>)
    requires
        ascending(chars@),
    ensures
        match subset_spec(font@, chars@) {
            Some(t) => r matches Some(v) && v@ == t,
            None => r is None,
        },
{
    let tables = match build_tables(font, chars) {
        Some(t) => t,
        None => {
            return None;
        },
    };
    proof {
        assert forall|i: int| 0 <= i < tables@.len() && (#[trigger] tables@[i]).0 == head_tag() implies tables@[i].1@.len() >= 12 by {
            assert(tables_view(tables@)[i] == (tables@[i].0, tables@[i].1@));
        }
    }
    let version = u32at(font, 0).unwrap();
    Some(assemble(version, &tables))
}


// ------------------------------------------------------- the checksum law

/// Whether every table tagged `head` is at least 12 bytes long and holds
/// a zero `checkSumAdjustment` (its bytes 8 to 11).
pub open spec fn heads_zeroed(ts: Seq<TableV>) -> bool {
    forall|i: int|
        0 <= i < ts.len() && (#[trigger] ts[i]).0 == head_tag() ==> {
            &&& ts[i].1.len() >= 12
            &&& ts[i].1[8] == 0 && ts[i].1[9] == 0 && ts[i].1[10] == 0 && ts[i].1[11] == 0
        }
}

/// Adding a multiple of 2^32 inside a sum taken modulo 2^32 changes nothing.
proof fn lemma_mod_add_left(x: int, y: int)
    ensures
        (x % 0x1_0000_0000 + y) % 0x1_0000_0000 == (x + y) % 0x1_0000_0000,
{
    let m: int = 0x1_0000_0000;
    vstd::arithmetic::div_mod::lemma_fundamental_div_mod(x, m);
    vstd::arithmetic::div_mod::lemma_fundamental_div_mod(x + y, m);
    let a = x / m;
    let b = x % m;
    let q = (x + y) / m;
    let r = (x + y) % m;
    assert(b + y == (q - a) * m + r) by (nonlinear_arith)
        requires
            x == m * a + b,
            x + y == m * q + r,
    ;
    vstd::arithmetic::div_mod::lemma_fundamental_div_mod_converse_mod(b + y, m, q - a, r);
}

/// A word away from the overwritten one reads the same.
proof fn lemma_word_unchanged(d: Seq<u8>, d2: Seq<u8>, q: int, j: int)
    requires
        d.len() == d2.len(),
        0 <= j,
        j != q,
        forall|x: int| 0 <= x < d.len() && !(4 * q <= x < 4 * q + 4) ==> d2[x] == d[x],
    ensures
        word_of(d2, j) == word_of(d, j),
{
    if 4 * j < d.len() { assert(d2[4 * j] == d[4 * j]); }
    if 4 * j + 1 < d.len() { assert(d2[4 * j + 1] == d[4 * j + 1]); }
    if 4 * j + 2 < d.len() { assert(d2[4 * j + 2] == d[4 * j + 2]); }
    if 4 * j + 3 < d.len() { assert(d2[4 * j + 3] == d[4 * j + 3]); }
}

/// Overwriting one aligned word of a byte string moves its checksum by
/// the difference of the two words.
#[verifier::spinoff_prover]
#[verifier::rlimit(30)]
proof fn lemma_checksum_replace(d: Seq<u8>, d2: Seq<u8>, q: int, k: int)
    requires
        d.len() == d2.len(),
        0 <= q,
        0 <= k,
        forall|x: int| 0 <= x < d.len() && !(4 * q <= x < 4 * q + 4) ==> d2[x] == d[x],
    ensures
        checksum_upto(d2, k) == if k <= q {
            checksum_upto(d, k)
        } else {
            (checksum_upto(d, k) + 0x1_0000_0000 - word_of(d, q) + word_of(d2, q)) % 0x1_0000_0000
        },
    decreases k,
{
    if k > 0 {
        lemma_checksum_replace(d, d2, q, k - 1);
        let j = k - 1;
        if j != q {
            lemma_word_unchanged(d, d2, q, j);
        }
        let w = word_of(d, q);
        let w2 = word_of(d2, q);
        let a = checksum_upto(d, j);
        if j == q {
            lemma_mod_add_left(a + w, 0x1_0000_0000 - w + w2);
        } else if j > q {
            let wj = word_of(d, j);
            lemma_mod_add_left(a + 0x1_0000_0000 - w + w2, wj);
            lemma_mod_add_left(a + wj, 0x1_0000_0000 - w + w2);
        }
    }
}

/// The tables' data holds each table's bytes at that table's offset.
proof fn lemma_tables_data_holds(ts: Seq<TableV>, k: int, i: int, base: int, x: int)
    requires
        0 <= i < k <= ts.len(),
        0 <= x < ts[i].1.len(),
    ensures
        table_offset(ts, i, base) >= base,
        table_offset(ts, i, base) - base + x < tables_data(ts, k).len(),
        tables_data(ts, k)[table_offset(ts, i, base) - base + x] == ts[i].1[x],
    decreases k,
{
    lemma_tables_data_len(ts, k - 1, base);
    lemma_pad4_len(ts[k - 1].1);
    lemma_table_offset_mono(ts, 0, i, base);
    let prev = tables_data(ts, k - 1);
    let p = pad4(ts[k - 1].1);
    assert(tables_data(ts, k) == prev + p);
    if i < k - 1 {
        lemma_tables_data_holds(ts, k - 1, i, base, x);
        assert((prev + p)[table_offset(ts, i, base) - base + x] == prev[table_offset(ts, i, base) - base + x]);
    } else {
        assert(table_offset(ts, i, base) - base == prev.len());
        assert(p[x] == ts[k - 1].1[x]);
        assert((prev + p)[prev.len() + x] == p[x]);
    }
}

/// Table offsets from an aligned base stay aligned.
proof fn lemma_table_offset_aligned(ts: Seq<TableV>, i: int, base: int)
    requires
        0 <= i <= ts.len(),
        base % 4 == 0,
    ensures
        table_offset(ts, i, base) % 4 == 0,
    decreases i,
{
    if i > 0 {
        lemma_table_offset_aligned(ts, i - 1, base);
        let n = ts[i - 1].1.len() as int;
        assert(round4(n) % 4 == 0) by (nonlinear_arith)
            requires
                round4(n) == ((n + 3) / 4) * 4,
        ;
    }
}

/// The big-endian word written by `word32` reads back as the value.
proof fn lemma_word_of_word32(pre: Seq<u8>, v: int, post: Seq<u8>)
    requires
        0 <= v < 0x1_0000_0000,
        pre.len() % 4 == 0,
    ensures
        word_of(pre + word32(v) + post, pre.len() as int / 4) == v,
{
    let d = pre + word32(v) + post;
    let q = pre.len() as int / 4;
    assert(4 * q == pre.len());
    assert(d[4 * q] == word32(v)[0]);
    assert(d[4 * q + 1] == word32(v)[1]);
    assert(d[4 * q + 2] == word32(v)[2]);
    assert(d[4 * q + 3] == word32(v)[3]);
    let x = v as u32;
    assert(((((x / 0x1000000) % 256) * 256 + (x / 0x10000) % 256) * 256 + (x / 256) % 256) * 256 + x % 256 == x)
        by (bit_vector);
}

/// The laid-out tables before the adjustment is written: whole words,
/// with the first `head` table aligned and its adjustment field zero.
#[verifier::spinoff_prover]
#[verifier::rlimit(40)]
proof fn lemma_body_shape(version: u32, ts: Seq<TableV>, h: int)
    requires
        find_head(ts, 0) == Some(h),
        ts[h].1.len() >= 12,
        ts[h].1[8] == 0 && ts[h].1[9] == 0 && ts[h].1[10] == 0 && ts[h].1[11] == 0,
    ensures
        ({
            let body = sfnt_body(version, ts);
            let off = table_offset(ts, h, 12 + 16 * (ts.len() as int));
            &&& body.len() % 4 == 0
            &&& off % 4 == 0
            &&& off + 12 <= body.len()
            &&& body[off + 8] == 0 && body[off + 9] == 0 && body[off + 10] == 0 && body[off + 11] == 0
        }),
{
    reveal(directory_spec);
    let n = ts.len() as int;
    let base = 12 + 16 * n;
    let body = sfnt_body(version, ts);
    lemma_find_head_range(ts, 0);
    let off = table_offset(ts, h, base);
    lemma_table_records_len(ts, n, base);
    lemma_tables_data_len(ts, n, base);
    lemma_tables_data_len(ts, h + 1, base);
    lemma_table_offset_mono(ts, h + 1, n, base);
    lemma_pad4_len(ts[h].1);
    lemma_table_offset_aligned(ts, h, base);
    lemma_table_offset_aligned(ts, n, base);
    let dir = directory_spec(version, ts);
    let data = tables_data(ts, n);
    assert(dir.len() == base);
    assert(body == dir + data);
    assert(body.len() == table_offset(ts, n, base));
    lemma_tables_data_holds(ts, n, h, base, 8);
    lemma_tables_data_holds(ts, n, h, base, 9);
    lemma_tables_data_holds(ts, n, h, base, 10);
    lemma_tables_data_holds(ts, n, h, base, 11);
    assert(body[off + 8] == data[off - base + 8]);
    assert(body[off + 9] == data[off - base + 9]);
    assert(body[off + 10] == data[off - base + 10]);
    assert(body[off + 11] == data[off - base + 11]);
}

/// Writing `0xB1B0AFBA` less the checksum into a zero word, at a word
/// boundary, brings the checksum to `0xB1B0AFBA`.
#[verifier::spinoff_prover]
proof fn lemma_adjusted_checksum(body: Seq<u8>, at: int)
    requires
        body.len() % 4 == 0,
        at % 4 == 0,
        0 <= at,
        at + 12 <= body.len(),
        body[at + 8] == 0 && body[at + 9] == 0 && body[at + 10] == 0 && body[at + 11] == 0,
    ensures
        ({
            let adj = (0xB1B0_AFBA - checksum_spec(body) + 0x1_0000_0000) % 0x1_0000_0000;
            checksum_spec(body.subrange(0, at + 8) + word32(adj) + body.skip(at + 12)) == 0xB1B0_AFBA
        }),
{
    reveal(checksum_spec);
    let adj = (0xB1B0_AFBA - checksum_spec(body) + 0x1_0000_0000) % 0x1_0000_0000;
    let out = body.subrange(0, at + 8) + word32(adj) + body.skip(at + 12);
    let q = (at + 8) / 4;
    assert(4 * q == at + 8);
    assert(word_of(body, q) == 0);
    lemma_word_of_word32(body.subrange(0, at + 8), adj, body.skip(at + 12));
    assert(word_of(out, q) == adj);
    assert(out.len() == body.len());
    assert forall|x: int| 0 <= x < body.len() && !(4 * q <= x < 4 * q + 4) implies out[x] == body[x] by {
        if x >= at + 12 {
            assert(out[x] == body.skip(at + 12)[x - at - 12]);
        }
    }
    let kk = (out.len() as int + 3) / 4;
    assert(kk > q);
    lemma_checksum_replace(body, out, q, kk);
    let s = checksum_upto(body, kk);
    lemma_mod_add_left(0xB1B0_AFBA - s + 0x1_0000_0000, s + 0x1_0000_0000);
}

/// An sfnt file laid out by `assemble_spec` sums to `0xB1B0AFBA` when it
/// has a `head` table whose `checkSumAdjustment` starts out zero and the
/// file is shorter than 4 GiB.
#[verifier::spinoff_prover]
#[verifier::rlimit(40)]
pub proof fn lemma_assemble_checksum(version: u32, tables: Seq<TableV>)
    requires
        heads_zeroed(tables),
        exists|i: int| 0 <= i < tables.len() && (#[trigger] tables[i]).0 == head_tag(),
        assemble_spec(version, tables).len() < 0x1_0000_0000,
    ensures
        checksum_spec(assemble_spec(version, tables)) == 0xB1B0_AFBA,
{
    let nt = tables.len() as int;
    let ts = sorted_tables(tables, nt);
    lemma_sorted_tables_len(tables, nt);
    let n = ts.len() as int;
    let i0 = choose|i: int| 0 <= i < tables.len() && (#[trigger] tables[i]).0 == head_tag();
    lemma_sorted_tables_has(tables, i0);
    lemma_find_head_some(ts, 0);
    let h = find_head(ts, 0).unwrap();
    lemma_find_head_range(ts, 0);
    lemma_sorted_tables_members(tables, nt, h);
    let j = choose|j: int| 0 <= j < nt && tables[j] == ts[h];
    assert(tables[j].0 == head_tag());
    lemma_body_shape(version, ts, h);
    let body = sfnt_body(version, ts);
    let off = table_offset(ts, h, 12 + 16 * n);
    let out = assemble_spec(version, tables);
    let adj = (0xB1B0_AFBA - checksum_spec(body) + 0x1_0000_0000) % 0x1_0000_0000;
    assert(out == body.subrange(0, (off % 0x1_0000_0000) + 8) + word32(adj) + body.skip((off % 0x1_0000_0000) + 12));
    let m: int = 0x1_0000_0000;
    lemma_table_offset_mono(ts, 0, h, 12 + 16 * n);
    vstd::arithmetic::div_mod::lemma_fundamental_div_mod(off, m);
    assert(off / m >= 0) by (nonlinear_arith)
        requires
            off >= 0,
            m > 0,
    ;
    assert(m * (off / m) >= 0) by (nonlinear_arith)
        requires
            off / m >= 0,
            m > 0,
    ;
    assert(off % m <= off);
    assert(out.len() == body.len());
    vstd::arithmetic::div_mod::lemma_small_mod(off as nat, m as nat);
    assert(off % m == off);
    lemma_adjusted_checksum(body, off);
}

/// A table tagged `head` is among the sorted tables.
proof fn lemma_sorted_tables_has(tables: Seq<TableV>, i0: int)
    requires
        0 <= i0 < tables.len(),
        tables[i0].0 == head_tag(),
    ensures
        exists|h: int| 0 <= h < sorted_tables(tables, tables.len() as int).len()
            && (#[trigger] sorted_tables(tables, tables.len() as int)[h]).0 == head_tag(),
{
    lemma_sorted_tables_keeps(tables, tables.len() as int, i0);
    let ts = sorted_tables(tables, tables.len() as int);
    let h = choose|h: int| 0 <= h < ts.len() && #[trigger] ts[h] == tables[i0];
    assert(ts[h].0 == head_tag());
}

/// Every table among the first `k` is among them once sorted.
proof fn lemma_sorted_tables_keeps(l: Seq<TableV>, k: int, i: int)
    requires
        0 <= i < k <= l.len(),
    ensures
        exists|h: int| 0 <= h < sorted_tables(l, k).len() && #[trigger] sorted_tables(l, k)[h] == l[i],
    decreases k,
{
    let s = sorted_tables(l, k - 1);
    lemma_sorted_tables_len(l, k - 1);
    let p = first_tag_after(s, l[k - 1].0, 0);
    lemma_first_tag_range(s, l[k - 1].0, 0);
    let t = s.insert(p, l[k - 1]);
    assert(t == sorted_tables(l, k));
    if i == k - 1 {
        assert(t[p] == l[i]);
    } else {
        lemma_sorted_tables_keeps(l, k - 1, i);
        let h = choose|h: int| 0 <= h < s.len() && #[trigger] s[h] == l[i];
        if h < p {
            assert(t[h] == l[i]);
        } else {
            assert(t[h + 1] == l[i]);
        }
    }
}

/// `find_head` finds a `head` table wherever one lies at or after `i`.
proof fn lemma_find_head_some(ts: Seq<TableV>, i: int)
    requires
        0 <= i,
        exists|h: int| i <= h < ts.len() && (#[trigger] ts[h]).0 == head_tag(),
    ensures
        find_head(ts, i) is Some,
    decreases ts.len() - i,
{
    if ts[i].0 != head_tag() {
        let h = choose|h: int| i <= h < ts.len() && (#[trigger] ts[h]).0 == head_tag();
        assert(h > i);
        lemma_find_head_some(ts, i + 1);
    }
}

/// The tables a subset is built from carry one `head`, first, with its
/// adjustment zeroed.
#[verifier::spinoff_prover]
#[verifier::rlimit(40)]
proof fn lemma_subset_heads_zeroed(font: Seq<u8>, chars: Seq<char>)
    requires
        subset_tables(font, chars) is Some,
    ensures
        heads_zeroed(subset_tables(font, chars).unwrap()),
        subset_tables(font, chars).unwrap().len() >= 1,
        subset_tables(font, chars).unwrap()[0].0 == head_tag(),
        glyph_plan(font, chars) is Some,
        subset_tables(font, chars).unwrap()[4] == (0x636d6170u32, cmap_spec(
            renumbered(glyph_plan(font, chars).unwrap().0, glyph_plan(font, chars).unwrap().1),
        ).unwrap()),
{
    reveal(subset_tables);
    let ts = subset_tables(font, chars).unwrap();
    let (m, gids, lv) = glyph_plan(font, chars).unwrap();
    let head = font_table(font, 0x68656164).unwrap();
    let maxp = font_table(font, 0x6d617870).unwrap();
    let hhea = font_table(font, 0x68686561).unwrap();
    let hmtx = font_table(font, 0x686d7478).unwrap();
    let n = u16_at(maxp, 4).unwrap();
    let nhm = u16_at(hhea, 34).unwrap();
    let nn = gids.len() as int;
    let hm = hmtx_from(hmtx, gids, nhm, nn).unwrap();
    let cm = cmap_spec(renumbered(m, gids)).unwrap();
    let outl = outline_tables(font, gids, n as int, lv).unwrap();
    let name: Seq<TableV> = match font_table(font, 0x6e616d65) {
        Some(nm) => seq![
            (0x6e616d65u32, match subset_name_spec(nm) {
                Some(x) => x,
                None => nm,
            }),
        ],
        None => Seq::empty(),
    };
    let nh = new_head(head, lv is Some);
    let first: Seq<TableV> = seq![
        (0x68656164u32, nh),
        (0x6d617870u32, with_u16(maxp, 4, nn)),
        (0x68686561u32, with_u16(hhea.subrange(0, 36), 34, nn)),
        (0x686d7478u32, hm),
        (0x636d6170u32, cm),
        (0x706f7374u32, new_post(font_table(font, 0x706f7374))),
    ];
    let cp = copied_from(font, 9);
    assert(ts == first + name + outl + cp);
    lemma_outline_no_head(font, gids, n as int, lv);
    lemma_copied_no_head(font, 9);
    assert(nh.len() == 54 && nh[8] == 0 && nh[9] == 0 && nh[10] == 0 && nh[11] == 0);
    lemma_heads_zeroed_parts(first, name, outl, cp);
    assert(ts[4] == first[4]);
}

proof fn lemma_heads_zeroed_parts(first: Seq<TableV>, name: Seq<TableV>, outv: Seq<TableV>, cp: Seq<TableV>)
    requires
        first.len() == 6,
        first[0].0 == head_tag(),
        first[0].1.len() >= 12,
        first[0].1[8] == 0 && first[0].1[9] == 0 && first[0].1[10] == 0 && first[0].1[11] == 0,
        forall|i: int| 1 <= i < 6 ==> (#[trigger] first[i]).0 != head_tag(),
        no_head(name),
        no_head(outv),
        no_head(cp),
    ensures
        heads_zeroed(first + name + outv + cp),
        (first + name + outv + cp)[0].0 == head_tag(),
{
    let ts = first + name + outv + cp;
    assert forall|i: int| 0 <= i < ts.len() && (#[trigger] ts[i]).0 == head_tag() implies {
        &&& ts[i].1.len() >= 12
        &&& ts[i].1[8] == 0 && ts[i].1[9] == 0 && ts[i].1[10] == 0 && ts[i].1[11] == 0
    } by {
        if i >= 6 + name.len() + outv.len() {
            assert(ts[i] == cp[i - 6 - name.len() - outv.len()]);
        } else if i >= 6 + name.len() {
            assert(ts[i] == outv[i - 6 - name.len()]);
        } else if i >= 6 {
            assert(ts[i] == name[i - 6]);
        } else {
            assert(ts[i] == first[i]);
        }
    }
    assert(ts[0] == first[0]);
}

/// Every subset sums to `0xB1B0AFBA`, as the sfnt format asks of a whole
/// font file, when it is shorter than 4 GiB.
pub proof fn lemma_subset_checksum(font: Seq<u8>, chars: Seq<char>)
    requires
        subset_spec(font, chars) is Some,
        subset_spec(font, chars).unwrap().len() < 0x1_0000_0000,
    ensures
        checksum_spec(subset_spec(font, chars).unwrap()) == 0xB1B0_AFBA,
{
    lemma_subset_heads_zeroed(font, chars);
    let ts = subset_tables(font, chars).unwrap();
    assert(ts[0].0 == head_tag());
    lemma_assemble_checksum(u32_at(font, 0).unwrap() as u32, ts);
}

// ------------------------------------------------------- what the cmap keeps

/// Whether the subtable `t` maps `c` to a drawable glyph below `n`.
pub open spec fn drawable(t: Seq<u8>, c: char, n: int) -> bool {
    lookup(t, c) matches Some(g) && 0 < g < n
}

/// The mapping `mapping_from` builds holds each of the first `k`
/// characters that is drawable, with its glyph, and nothing else.
proof fn lemma_mapping_members(t: Seq<u8>, chars: Seq<char>, n: int, k: int, c: char)
    requires
        0 <= k <= chars.len(),
        mapping_from(t, chars, n, k) is Some,
    ensures
        (exists|i: int| 0 <= i < mapping_from(t, chars, n, k).unwrap().0.len()
            && (#[trigger] mapping_from(t, chars, n, k).unwrap().0[i]).0 == c as u32)
            <==> (chars.take(k).contains(c) && drawable(t, c, n)),
        forall|i: int| 0 <= i < mapping_from(t, chars, n, k).unwrap().0.len() ==> exists|j: int|
            0 <= j < k && (#[trigger] mapping_from(t, chars, n, k).unwrap().0[i]).0 == chars[j] as u32
                && lookup(t, chars[j]) == Some(mapping_from(t, chars, n, k).unwrap().0[i].1 as int),
    decreases k,
{
    if k > 0 {
        lemma_mapping_members(t, chars, n, k - 1, c);
        let m0 = mapping_from(t, chars, n, k - 1).unwrap().0;
        let m = mapping_from(t, chars, n, k).unwrap().0;
        let d = chars[k - 1];
        lemma_lookup_range(t, d);
        assert(chars.take(k) == chars.take(k - 1).push(d));
        assert(chars.take(k).contains(c) <==> (chars.take(k - 1).contains(c) || d == c)) by {
            if chars.take(k).contains(c) && !chars.take(k - 1).contains(c) {
                let j = choose|j: int| 0 <= j < k && #[trigger] chars.take(k)[j] == c;
                if j < k - 1 {
                    assert(chars.take(k - 1)[j] == c);
                }
            }
            if chars.take(k - 1).contains(c) {
                let j = choose|j: int| 0 <= j < k - 1 && #[trigger] chars.take(k - 1)[j] == c;
                assert(chars.take(k)[j] == c);
            }
            if d == c {
                assert(chars.take(k)[k - 1] == c);
            }
        }
        if drawable(t, d, n) {
            let g = lookup(t, d).unwrap();
            assert(m == m0.push((d as u32, g as u16)));
            if d == c {
                assert(m[m0.len() as int].0 == c as u32);
            }
            if exists|i: int| 0 <= i < m.len() && (#[trigger] m[i]).0 == c as u32 {
                let i = choose|i: int| 0 <= i < m.len() && (#[trigger] m[i]).0 == c as u32;
                if i < m0.len() {
                    assert(m0[i].0 == c as u32);
                } else {
                    assert(d as u32 == c as u32);
                    vstd::utf8::char_u32_cast(d, d as u32);
                    vstd::utf8::char_u32_cast(c, c as u32);
                    assert(d == c);
                    assert(chars.take(k)[k - 1] == c);
                }
            }
            if exists|i: int| 0 <= i < m0.len() && (#[trigger] m0[i]).0 == c as u32 {
                let i = choose|i: int| 0 <= i < m0.len() && (#[trigger] m0[i]).0 == c as u32;
                assert(m[i] == m0[i]);
            }
            assert forall|i: int| 0 <= i < m.len() implies exists|j: int|
                0 <= j < k && (#[trigger] m[i]).0 == chars[j] as u32 && lookup(t, chars[j]) == Some(m[i].1 as int) by {
                if i < m0.len() {
                    assert(m[i] == m0[i]);
                    let j = choose|j: int| 0 <= j < k - 1 && (#[trigger] m0[i]).0 == chars[j] as u32
                        && lookup(t, chars[j]) == Some(m0[i].1 as int);
                    assert(0 <= j < k && m[i].0 == chars[j] as u32 && lookup(t, chars[j]) == Some(m[i].1 as int));
                } else {
                    assert(m[i] == (d as u32, g as u16));
                    assert(0 <= k - 1 < k && m[i].0 == chars[k - 1] as u32 && lookup(t, chars[k - 1]) == Some(m[i].1 as int));
                }
            }
        } else {
            assert(m == m0);
            if d == c && !chars.take(k - 1).contains(c) {
                assert(!drawable(t, c, n));
            }
        }
    }
}

/// The character map a subset carries is built from exactly the
/// requested characters the font draws with a glyph below its glyph
/// count (its best `cmap` subtable's mapping of them), each kept with
/// that glyph renumbered among the retained ones; no other character
/// enters it.
#[verifier::spinoff_prover]
#[verifier::rlimit(30)]
pub proof fn lemma_subset_cmap_keeps_drawable(font: Seq<u8>, chars: Seq<char>)
    requires
        subset_spec(font, chars) is Some,
    ensures
        ({
            let (m, gids, lv) = glyph_plan(font, chars).unwrap();
            let t = best_subtable(font_table(font, 0x636d6170).unwrap()).unwrap();
            let n = u16_at(font_table(font, 0x6d617870).unwrap(), 4).unwrap();
            &&& subset_tables(font, chars).unwrap()[4] == (0x636d6170u32, cmap_spec(renumbered(m, gids)).unwrap())
            &&& crate::font::font_subtable(font) == Some(t)
            &&& forall|c: char| #[trigger] chars.contains(c) ==> ((exists|i: int| 0 <= i < m.len()
                && (#[trigger] m[i]).0 == c as u32) <==> (crate::font::glyph_of(font, c) matches Some(g) && (g as int) < n))
            &&& forall|i: int| 0 <= i < m.len() ==> exists|j: int| 0 <= j < chars.len()
                && (#[trigger] m[i]).0 == chars[j] as u32 && lookup(t, chars[j]) == Some(m[i].1 as int)
        }),
{
    lemma_subset_cmap_table(font, chars);
    let (m, gids, lv) = glyph_plan(font, chars).unwrap();
    let t = best_subtable(font_table(font, 0x636d6170).unwrap()).unwrap();
    let n = u16_at(font_table(font, 0x6d617870).unwrap(), 4).unwrap();
    lemma_plan_mapping(font, chars);
    assert(chars.take(chars.len() as int) =~= chars);
    lemma_font_subtable_is(font, t);
    assert forall|c: char| #[trigger] chars.contains(c) implies ((exists|i: int| 0 <= i < m.len()
        && (#[trigger] m[i]).0 == c as u32) <==> (crate::font::glyph_of(font, c) matches Some(g) && (g as int) < n)) by {
        lemma_mapping_members(t, chars, n, chars.len() as int, c);
        lemma_drawable_is_glyph(font, t, c, n as int);
    }
    lemma_mapping_members(t, chars, n, chars.len() as int, 'a');
}

/// The `cmap` table looked up by its tag number is the one the font
/// reader uses.
proof fn lemma_cmap_tag(font: Seq<u8>)
    ensures
        font_table(font, 0x636d6170) == table_bytes(font, seq![0x63u8, 0x6du8, 0x61u8, 0x70u8]),
{
    assert(word32(0x636d6170) =~= seq![0x63u8, 0x6du8, 0x61u8, 0x70u8]);
}

/// The font's Unicode subtable, as the font reader finds it.
proof fn lemma_font_subtable_is(font: Seq<u8>, t: Seq<u8>)
    requires
        font_table(font, 0x636d6170) is Some,
        best_subtable(font_table(font, 0x636d6170).unwrap()) == Some(t),
    ensures
        crate::font::font_subtable(font) == Some(t),
{
    lemma_cmap_tag(font);
}

/// A drawable character is one the font gives a glyph below `n`.
proof fn lemma_drawable_is_glyph(font: Seq<u8>, t: Seq<u8>, c: char, n: int)
    requires
        crate::font::font_subtable(font) == Some(t),
    ensures
        drawable(t, c, n) <==> (crate::font::glyph_of(font, c) matches Some(g) && (g as int) < n),
{
    lemma_lookup_range(t, c);
}

/// A subset's fifth table is the rebuilt `cmap`.
#[verifier::spinoff_prover]
proof fn lemma_subset_cmap_table(font: Seq<u8>, chars: Seq<char>)
    requires
        subset_spec(font, chars) is Some,
    ensures
        glyph_plan(font, chars) is Some,
        ({
            let (m, gids, lv) = glyph_plan(font, chars).unwrap();
            subset_tables(font, chars).unwrap()[4] == (0x636d6170u32, cmap_spec(renumbered(m, gids)).unwrap())
        }),
{
    lemma_subset_heads_zeroed(font, chars);
}

/// The plan's mapping is `mapping_from` over the font's best subtable.
#[verifier::spinoff_prover]
proof fn lemma_plan_mapping(font: Seq<u8>, chars: Seq<char>)
    requires
        glyph_plan(font, chars) is Some,
    ensures
        ({
            let t = best_subtable(font_table(font, 0x636d6170).unwrap()).unwrap();
            let n = u16_at(font_table(font, 0x6d617870).unwrap(), 4).unwrap();
            &&& font_table(font, 0x636d6170) is Some
            &&& best_subtable(font_table(font, 0x636d6170).unwrap()) is Some
            &&& mapping_from(t, chars, n, chars.len() as int) is Some
            &&& glyph_plan(font, chars).unwrap().0 == mapping_from(t, chars, n, chars.len() as int).unwrap().0
        }),
{
    reveal(glyph_plan);
}

// ------------------------------------------------------ reading it back

proof fn lemma_be32_at(d: Seq<u8>, o: int, v: int)
    requires
        0 <= v < 0x1_0000_0000,
        0 <= o,
        o + 4 <= d.len(),
        d.subrange(o, o + 4) == word32(v),
    ensures
        u32_at(d, o) == Some(v),
{
    assert(d[o] == word32(v)[0] && d[o + 1] == word32(v)[1] && d[o + 2] == word32(v)[2] && d[o + 3] == word32(v)[3]) by {
        assert(d[o] == d.subrange(o, o + 4)[0]);
        assert(d[o + 1] == d.subrange(o, o + 4)[1]);
        assert(d[o + 2] == d.subrange(o, o + 4)[2]);
        assert(d[o + 3] == d.subrange(o, o + 4)[3]);
    }
    let x = v as u32;
    assert(((((x / 0x1000000) % 256) * 256 + (x / 0x10000) % 256) * 256 + (x / 256) % 256) * 256 + x % 256 == x)
        by (bit_vector);
}

/// `word32` tells values apart.
proof fn lemma_word32_injective(a: u32, b: u32)
    requires
        word32(a as int) == word32(b as int),
    ensures
        a == b,
{
    let d = word32(a as int);
    assert(d.subrange(0, 4) =~= d);
    lemma_be32_at(d, 0, a as int);
    lemma_be32_at(d, 0, b as int);
}

/// Record `i` of the directory's records.
proof fn lemma_record_bytes(ts: Seq<TableV>, k: int, base: int, i: int)
    requires
        0 <= i < k,
    ensures
        table_records(ts, k, base).len() == 16 * k,
        table_records(ts, k, base).subrange(16 * i, 16 * i + 16) == word32(ts[i].0 as int) + word32(checksum_spec(ts[i].1))
            + word32(table_offset(ts, i, base) % 0x1_0000_0000) + word32((ts[i].1.len() as int) % 0x1_0000_0000),
    decreases k,
{
    lemma_table_records_len(ts, k, base);
    lemma_table_records_len(ts, k - 1, base);
    let prev = table_records(ts, k - 1, base);
    let t = ts[k - 1];
    let rec = word32(t.0 as int) + word32(checksum_spec(t.1)) + word32(table_offset(ts, k - 1, base) % 0x1_0000_0000) + word32(
        (t.1.len() as int) % 0x1_0000_0000,
    );
    assert(table_records(ts, k, base) == prev + rec);
    if i < k - 1 {
        lemma_record_bytes(ts, k - 1, base, i);
        assert(table_records(ts, k, base).subrange(16 * i, 16 * i + 16) =~= prev.subrange(16 * i, 16 * i + 16));
    } else {
        assert(table_records(ts, k, base).subrange(16 * i, 16 * i + 16) =~= rec);
    }
}

/// The last directory record before `k` with the tag, if any.
proof fn lemma_find_record(d: Seq<u8>, tag: Seq<u8>, k: int, p: int)
    requires
        0 <= p < k,
        d.subrange(record_at(p), record_at(p) + 4) == tag,
    ensures
        find_record(d, tag, k) matches Some(i) && 0 <= i < k && d.subrange(record_at(i), record_at(i) + 4) == tag,
    decreases k,
{
    if d.subrange(record_at(k - 1), record_at(k - 1) + 4) != tag {
        lemma_find_record(d, tag, k - 1, p);
    }
}

/// The fixed header of the table directory.
pub open spec fn dir_header(version: u32, n: int) -> Seq<u8> {
    let es = floor_log2(if n < 1 { 1 } else { n });
    let sr = 16 * two_pow(es);
    word32(version as int) + word16(n) + word16(sr) + word16(es as int) + word16(n * 16 - sr)
}

/// The laid-out file before its adjustment: header, records, tables.
proof fn lemma_body_parts(version: u32, ts: Seq<TableV>)
    ensures
        sfnt_body(version, ts) == dir_header(version, ts.len() as int) + table_records(ts, ts.len() as int, 12 + 16 * (ts.len() as int))
            + tables_data(ts, ts.len() as int),
        dir_header(version, ts.len() as int).len() == 12,
        table_records(ts, ts.len() as int, 12 + 16 * (ts.len() as int)).len() == 16 * ts.len(),
{
    reveal(directory_spec);
    lemma_table_records_len(ts, ts.len() as int, 12 + 16 * (ts.len() as int));
}

/// Reading one directory record laid at `12 + 16 * i`.
#[verifier::spinoff_prover]
#[verifier::rlimit(30)]
proof fn lemma_read_record(d: Seq<u8>, recs: Seq<u8>, i: int, a: int, b: int, c: int, e: int)
    requires
        0 <= i,
        16 * i + 16 <= recs.len(),
        12 + recs.len() <= d.len(),
        d.subrange(12, 12 + recs.len() as int) == recs,
        recs.subrange(16 * i, 16 * i + 16) == word32(a) + word32(b) + word32(c) + word32(e),
        0 <= c < 0x1_0000_0000,
        0 <= e < 0x1_0000_0000,
    ensures
        d.subrange(record_at(i), record_at(i) + 4) == word32(a),
        u32_at(d, record_at(i) + 8) == Some(c),
        u32_at(d, record_at(i) + 12) == Some(e),
{
    let o = record_at(i);
    let r = recs.subrange(16 * i, 16 * i + 16);
    assert forall|t: int| 0 <= t < 16 implies d[o + t] == #[trigger] r[t] by {
        assert(d[o + t] == d.subrange(12, 12 + recs.len() as int)[16 * i + t]);
        assert(recs[16 * i + t] == r[t]);
    }
    let wa = word32(a);
    let wc = word32(c);
    let we = word32(e);
    assert(r == wa + word32(b) + wc + we);
    assert forall|t: int| 0 <= t < 4 implies d[o + t] == #[trigger] wa[t] && d[o + 8 + t] == wc[t] && d[o + 12 + t] == we[t] by {
        assert(r[t] == wa[t]);
        assert(r[8 + t] == wc[t]);
        assert(r[12 + t] == we[t]);
        assert(d[o + t] == r[t]);
        assert(d[o + 8 + t] == r[8 + t]);
        assert(d[o + 12 + t] == r[12 + t]);
    }
    assert(d.subrange(o, o + 4) =~= wa);
    assert(d.subrange(o + 8, o + 12) =~= wc);
    assert(d.subrange(o + 12, o + 16) =~= we);
    lemma_be32_at(d, o + 8, c);
    lemma_be32_at(d, o + 12, e);
}

/// The laid-out file's directory: version, count, and each record's tag,
/// offset and length.
#[verifier::spinoff_prover]
#[verifier::rlimit(40)]
proof fn lemma_body_directory(version: u32, ts: Seq<TableV>, i: int)
    requires
        1 <= ts.len() <= 64,
        0 <= i < ts.len(),
        sfnt_body(version, ts).len() < 0x1_0000_0000,
    ensures
        ({
            let body = sfnt_body(version, ts);
            let n = ts.len() as int;
            let base = 12 + 16 * n;
            &&& body.len() == table_offset(ts, n, base)
            &&& u32_at(body, 0) == Some(version as int)
            &&& body[4] * 256 + body[5] == n
            &&& body.subrange(record_at(i), record_at(i) + 4) == word32(ts[i].0 as int)
            &&& u32_at(body, record_at(i) + 8) == Some(table_offset(ts, i, base))
            &&& u32_at(body, record_at(i) + 12) == Some(ts[i].1.len() as int)
            &&& base <= table_offset(ts, i, base)
            &&& table_offset(ts, i, base) + ts[i].1.len() <= body.len()
        }),
{
    let n = ts.len() as int;
    let base = 12 + 16 * n;
    let body = sfnt_body(version, ts);
    lemma_body_parts(version, ts);
    let hdr = dir_header(version, n);
    let recs = table_records(ts, n, base);
    lemma_record_bytes(ts, n, base, i);
    lemma_tables_data_len(ts, n, base);
    lemma_tables_data_len(ts, i + 1, base);
    lemma_table_offset_mono(ts, i + 1, n, base);
    lemma_table_offset_mono(ts, 0, i, base);
    lemma_pad4_len(ts[i].1);
    assert(pad4(ts[i].1).len() >= ts[i].1.len());
    let off = table_offset(ts, i, base);
    assert(off % 0x1_0000_0000 == off);
    assert((ts[i].1.len() as int) % 0x1_0000_0000 == ts[i].1.len());
    assert(body.subrange(12, 12 + recs.len() as int) =~= recs);
    lemma_read_record(body, recs, i, ts[i].0 as int, checksum_spec(ts[i].1), off, ts[i].1.len() as int);
    assert(body.subrange(0, 4) =~= word32(version as int));
    lemma_be32_at(body, 0, version as int);
    assert(body[4] == word16(n)[0] && body[5] == word16(n)[1]);
}

/// Regions of two different tables do not overlap.
proof fn lemma_tables_apart(ts: Seq<TableV>, i: int, h: int, base: int)
    requires
        0 <= i < ts.len(),
        0 <= h < ts.len(),
        i != h,
        ts[h].1.len() >= 12,
    ensures
        table_offset(ts, i, base) + ts[i].1.len() <= table_offset(ts, h, base) + 8
            || table_offset(ts, h, base) + 12 <= table_offset(ts, i, base),
{
    lemma_pad4_len(ts[i].1);
    lemma_pad4_len(ts[h].1);
    assert(pad4(ts[i].1).len() >= ts[i].1.len());
    assert(pad4(ts[h].1).len() >= ts[h].1.len());
    if i < h {
        lemma_table_offset_mono(ts, i + 1, h, base);
    } else {
        lemma_table_offset_mono(ts, h + 1, i, base);
    }
}

/// The laid-out file is its body with, at most, the four bytes of the
/// first `head` table's adjustment rewritten; those lie past the
/// directory and inside that table.
#[verifier::spinoff_prover]
#[verifier::rlimit(40)]
proof fn lemma_out_is_body(version: u32, tables: Seq<TableV>)
    requires
        1 <= tables.len() <= 64,
        heads_zeroed(tables),
        assemble_spec(version, tables).len() < 0x1_0000_0000,
    ensures
        ({
            let ts = sorted_tables(tables, tables.len() as int);
            let body = sfnt_body(version, ts);
            let out = assemble_spec(version, tables);
            let base = 12 + 16 * (ts.len() as int);
            &&& ts.len() == tables.len()
            &&& out.len() == body.len()
            &&& match find_head(ts, 0) {
                None => out == body,
                Some(h) => 0 <= h < ts.len() && ts[h].0 == head_tag() && ts[h].1.len() >= 12
                    && base <= table_offset(ts, h, base)
                    && forall|x: int| 0 <= x < body.len() && !(table_offset(ts, h, base) + 8 <= x < table_offset(ts, h, base) + 12)
                        ==> #[trigger] out[x] == body[x],
            }
        }),
{
    let nt = tables.len() as int;
    let ts = sorted_tables(tables, nt);
    lemma_sorted_tables_len(tables, nt);
    let base = 12 + 16 * nt;
    let body = sfnt_body(version, ts);
    let out = assemble_spec(version, tables);
    match find_head(ts, 0) {
        None => {},
        Some(h) => {
            lemma_find_head_range(ts, 0);
            lemma_sorted_tables_members(tables, nt, h);
            let jh = choose|j: int| 0 <= j < nt && tables[j] == ts[h];
            assert(tables[jh].0 == head_tag());
            lemma_body_shape(version, ts, h);
            let off = table_offset(ts, h, base);
            let adj = (0xB1B0_AFBA - checksum_spec(body) + 0x1_0000_0000) % 0x1_0000_0000;
            assert(out == body.subrange(0, (off % 0x1_0000_0000) + 8) + word32(adj) + body.skip((off % 0x1_0000_0000) + 12));
            lemma_table_offset_mono(ts, 0, h, base);
            vstd::arithmetic::div_mod::lemma_fundamental_div_mod(off, 0x1_0000_0000);
            assert(off / 0x1_0000_0000 >= 0) by (nonlinear_arith) requires off >= 0;
            assert(0x1_0000_0000 * (off / 0x1_0000_0000) >= 0) by (nonlinear_arith) requires off / 0x1_0000_0000 >= 0;
            assert(out.len() == body.len());
            vstd::arithmetic::div_mod::lemma_small_mod(off as nat, 0x1_0000_0000);
            assert forall|x: int| 0 <= x < body.len() && !(off + 8 <= x < off + 12) implies #[trigger] out[x] == body[x] by {
                if x >= off + 12 {
                    assert(out[x] == body.skip(off + 12)[x - off - 12]);
                }
            }
        },
    }
}

/// Reading a laid-out font back: the table directory reads, and looking
/// a table up by its tag gives back exactly the bytes it was given --
/// for every table but `head`, whose checksum adjustment is filled in.
/// The table's tag must be its own, the version not a collection's, and the
/// file shorter than 4 GiB.
#[verifier::spinoff_prover]
#[verifier::rlimit(60)]
pub proof fn lemma_assemble_reads_back(version: u32, tables: Seq<TableV>, k: int)
    requires
        1 <= tables.len() <= 64,
        forall|a: int| 0 <= a < tables.len() && a != k ==> (#[trigger] tables[a]).0 != tables[k].0,
        heads_zeroed(tables),
        version != 0x74746366,
        0 <= k < tables.len(),
        tables[k].0 != head_tag(),
        assemble_spec(version, tables).len() < 0x1_0000_0000,
    ensures
        table_bytes(assemble_spec(version, tables), word32(tables[k].0 as int)) == Some(tables[k].1),
{
    let nt = tables.len() as int;
    let ts = sorted_tables(tables, nt);
    lemma_sorted_tables_len(tables, nt);
    let n = nt;
    let base = 12 + 16 * n;
    let body = sfnt_body(version, ts);
    let out = assemble_spec(version, tables);
    let tag = word32(tables[k].0 as int);
    lemma_sorted_tables_keeps(tables, nt, k);
    let p = choose|h: int| 0 <= h < ts.len() && #[trigger] ts[h] == tables[k];
    lemma_out_is_body(version, tables);
    let (lo, hi) = match find_head(ts, 0) {
        None => (0int, 0int),
        Some(h) => (table_offset(ts, h, base) + 8, table_offset(ts, h, base) + 12),
    };
    assert(forall|x: int| 0 <= x < body.len() && !(lo <= x < hi) ==> #[trigger] out[x] == body[x]);
    lemma_body_directory(version, ts, p);
    // the directory
    assert(out.subrange(0, 6) =~= body.subrange(0, 6));
    assert(u32_at(out, 0) == u32_at(body, 0));
    assert(table_count(out) == n);
    assert forall|i: int| 0 <= i < table_count(out) implies #[trigger] record_at(i) + 16 <= out.len()
        && u32_at(out, record_at(i) + 8).unwrap() <= out.len() by {
        lemma_body_directory(version, ts, i);
        assert(out.subrange(record_at(i) + 8, record_at(i) + 12) =~= body.subrange(record_at(i) + 8, record_at(i) + 12));
        assert(u32_at(out, record_at(i) + 8) == u32_at(body, record_at(i) + 8));
    }
    assert(directory_ok(out));
    assert(out.subrange(record_at(p), record_at(p) + 4) =~= body.subrange(record_at(p), record_at(p) + 4));
    lemma_find_record(out, tag, n, p);
    let i = find_record(out, tag, n).unwrap();
    // the record found is the table's own
    lemma_body_directory(version, ts, i);
    assert(out.subrange(record_at(i), record_at(i) + 4) =~= body.subrange(record_at(i), record_at(i) + 4));
    lemma_word32_injective(ts[i].0, tables[k].0);
    lemma_sorted_tables_members(tables, nt, i);
    let ji = choose|j: int| 0 <= j < nt && tables[j] == ts[i];
    assert(ji == k);
    assert(ts[i] == tables[k]);
    assert(out.subrange(record_at(i) + 8, record_at(i) + 16) =~= body.subrange(record_at(i) + 8, record_at(i) + 16));
    assert(u32_at(out, record_at(i) + 8) == u32_at(body, record_at(i) + 8));
    assert(u32_at(out, record_at(i) + 12) == u32_at(body, record_at(i) + 12));
    let off = table_offset(ts, i, base);
    let len = ts[i].1.len() as int;
    // the table's bytes
    if let Some(h) = find_head(ts, 0) {
        assert(i != h);
        lemma_tables_apart(ts, i, h, base);
    }
    assert forall|x: int| 0 <= x < len implies out[off + x] == ts[i].1[x] by {
        lemma_tables_data_holds(ts, n, i, base, x);
        assert(body[off + x] == tables_data(ts, n)[off - base + x]) by {
            reveal(directory_spec);
            lemma_table_records_len(ts, n, base);
            assert(body == directory_spec(version, ts) + tables_data(ts, n));
        }
    }
    assert(out.subrange(off, off + len) =~= ts[i].1);
}

/// Whether no table carries `tag`.
pub open spec fn no_tag(ts: Seq<TableV>, tag: u32) -> bool {
    forall|i: int| 0 <= i < ts.len() ==> (#[trigger] ts[i]).0 != tag
}

proof fn lemma_copied_no_cmap(font: Seq<u8>, k: int)
    requires
        0 <= k <= 9,
    ensures
        no_tag(copied_from(font, k), 0x636d6170),
    decreases k,
{
    if k > 0 {
        lemma_copied_no_cmap(font, k - 1);
        let prev = copied_from(font, k - 1);
        let cur = copied_from(font, k);
        let tag = copied_tags()[k - 1];
        assert(tag != 0x636d6170);
        assert forall|i: int| 0 <= i < cur.len() implies (#[trigger] cur[i]).0 != 0x636d6170 by {
            if i < prev.len() {
                assert(cur[i] == prev[i]);
            } else {
                assert(cur[i].0 == tag);
            }
        }
    }
}

#[verifier::spinoff_prover]
#[verifier::rlimit(30)]
proof fn lemma_outline_no_cmap(font: Seq<u8>, gids: Seq<u16>, n: int, lv: Option<Seq<u32>>)
    requires
        outline_tables(font, gids, n, lv) is Some,
    ensures
        no_tag(outline_tables(font, gids, n, lv).unwrap(), 0x636d6170),
{
    let ts = outline_tables(font, gids, n, lv).unwrap();
    assert forall|i: int| 0 <= i < ts.len() implies (#[trigger] ts[i]).0 != 0x636d6170 by {
        match lv {
            Some(l) => {
                if i >= 2 {
                    assert(ts[i].0 == 0x67766172u32 || ts[i].0 == 0x48564152u32);
                }
            },
            None => {},
        }
    }
}

/// The subset's tables: between 1 and 64, the `cmap` fifth and the only
/// one so tagged, and the font's version not a collection's.
#[verifier::spinoff_prover]
#[verifier::rlimit(40)]
proof fn lemma_subset_table_list(font: Seq<u8>, chars: Seq<char>)
    requires
        subset_tables(font, chars) is Some,
    ensures
        ({
            let ts = subset_tables(font, chars).unwrap();
            &&& 6 <= ts.len() <= 64
            &&& ts[4].0 == 0x636d6170
            &&& forall|a: int| 0 <= a < ts.len() && a != 4 ==> (#[trigger] ts[a]).0 != 0x636d6170
            &&& u32_at(font, 0) is Some
            &&& u32_at(font, 0).unwrap() != 0x74746366
        }),
{
    reveal(subset_tables);
    let ts = subset_tables(font, chars).unwrap();
    let (m, gids, lv) = glyph_plan(font, chars).unwrap();
    let head = font_table(font, 0x68656164).unwrap();
    let maxp = font_table(font, 0x6d617870).unwrap();
    let hhea = font_table(font, 0x68686561).unwrap();
    let hmtx = font_table(font, 0x686d7478).unwrap();
    let n = u16_at(maxp, 4).unwrap();
    let nhm = u16_at(hhea, 34).unwrap();
    let nn = gids.len() as int;
    let hm = hmtx_from(hmtx, gids, nhm, nn).unwrap();
    let cm = cmap_spec(renumbered(m, gids)).unwrap();
    let outl = outline_tables(font, gids, n as int, lv).unwrap();
    let name: Seq<TableV> = match font_table(font, 0x6e616d65) {
        Some(nm) => seq![
            (0x6e616d65u32, match subset_name_spec(nm) {
                Some(x) => x,
                None => nm,
            }),
        ],
        None => Seq::empty(),
    };
    let first: Seq<TableV> = seq![
        (0x68656164u32, new_head(head, lv is Some)),
        (0x6d617870u32, with_u16(maxp, 4, nn)),
        (0x68686561u32, with_u16(hhea.subrange(0, 36), 34, nn)),
        (0x686d7478u32, hm),
        (0x636d6170u32, cm),
        (0x706f7374u32, new_post(font_table(font, 0x706f7374))),
    ];
    let cp = copied_from(font, 9);
    assert(ts == first + name + outl + cp);
    lemma_outline_no_cmap(font, gids, n as int, lv);
    lemma_copied_no_cmap(font, 9);
    lemma_outline_no_head(font, gids, n as int, lv);
    lemma_copied_no_head(font, 9);
    lemma_cmap_parts(first, name, outl, cp);
    lemma_plan_reads_font(font, chars);
}

proof fn lemma_cmap_parts(first: Seq<TableV>, name: Seq<TableV>, outv: Seq<TableV>, cp: Seq<TableV>)
    requires
        first.len() == 6,
        first[4].0 == 0x636d6170,
        forall|i: int| 0 <= i < 6 && i != 4 ==> (#[trigger] first[i]).0 != 0x636d6170,
        name.len() <= 1,
        no_tag(name, 0x636d6170),
        no_tag(outv, 0x636d6170),
        no_tag(cp, 0x636d6170),
        outv.len() <= 4,
        cp.len() <= 9,
    ensures
        ({
            let ts = first + name + outv + cp;
            &&& 6 <= ts.len() <= 64
            &&& ts[4].0 == 0x636d6170
            &&& forall|a: int| 0 <= a < ts.len() && a != 4 ==> (#[trigger] ts[a]).0 != 0x636d6170
        }),
{
    let ts = first + name + outv + cp;
    assert forall|a: int| 0 <= a < ts.len() && a != 4 implies (#[trigger] ts[a]).0 != 0x636d6170 by {
        if a >= 6 + name.len() + outv.len() {
            assert(ts[a] == cp[a - 6 - name.len() - outv.len()]);
        } else if a >= 6 + name.len() {
            assert(ts[a] == outv[a - 6 - name.len()]);
        } else if a >= 6 {
            assert(ts[a] == name[a - 6]);
        } else {
            assert(ts[a] == first[a]);
        }
    }
    assert(ts[4] == first[4]);
}

/// A font a glyph plan reads is not a collection.
proof fn lemma_plan_reads_font(font: Seq<u8>, chars: Seq<char>)
    requires
        glyph_plan(font, chars) is Some,
    ensures
        u32_at(font, 0) is Some,
        u32_at(font, 0).unwrap() != 0x74746366,
{
    reveal(glyph_plan);
    assert(font_table(font, 0x68656164) is Some);
    assert(crate::font::directory_ok(font));
}

/// The mapping's characters ascend with the requested ones, and there are
/// no more of them.
proof fn lemma_mapping_ascends(t: Seq<u8>, chars: Seq<char>, n: int, k: int)
    requires
        0 <= k <= chars.len(),
        ascending(chars),
        mapping_from(t, chars, n, k) is Some,
    ensures
        crate::cmap_law::chars_ascend(mapping_from(t, chars, n, k).unwrap().0),
        crate::font_subset::chars_ok(mapping_from(t, chars, n, k).unwrap().0),
        mapping_from(t, chars, n, k).unwrap().0.len() <= k,
    decreases k,
{
    if k > 0 {
        lemma_mapping_ascends(t, chars, n, k - 1);
        lemma_mapping_members(t, chars, n, k - 1, 'a');
        let m0 = mapping_from(t, chars, n, k - 1).unwrap().0;
        let m = mapping_from(t, chars, n, k).unwrap().0;
        let d = chars[k - 1];
        vstd::utf8::char_is_scalar(d);
        if m != m0 {
            assert(m == m0.push((d as u32, lookup(t, d).unwrap() as u16)));
            assert forall|i: int, j: int| 0 <= i < j < m.len() implies #[trigger] m[i].0 < #[trigger] m[j].0 by {
                if j < m0.len() {
                    assert(m0[i].0 < m0[j].0);
                } else {
                    let jj = choose|jj: int| 0 <= jj < k - 1 && (#[trigger] m0[i]).0 == chars[jj] as u32
                        && lookup(t, chars[jj]) == Some(m0[i].1 as int);
                    assert((chars[jj] as u32) < (chars[k - 1] as u32));
                }
            }
        }
    }
}

/// The subset's character map, as the font reader finds it, is the one
/// built from the renumbered mapping.
#[verifier::spinoff_prover]
#[verifier::rlimit(30)]
proof fn lemma_subset_cmap_reads(font: Seq<u8>, chars: Seq<char>)
    requires
        subset_spec(font, chars) is Some,
        subset_spec(font, chars).unwrap().len() < 0x1_0000_0000,
    ensures
        crate::font::font_subtable(subset_spec(font, chars).unwrap()) == best_subtable(
            cmap_spec(renumbered(glyph_plan(font, chars).unwrap().0, glyph_plan(font, chars).unwrap().1)).unwrap(),
        ),
{
    let tables = subset_tables(font, chars).unwrap();
    lemma_subset_table_list(font, chars);
    lemma_subset_heads_zeroed(font, chars);
    let version = u32_at(font, 0).unwrap() as u32;
    lemma_assemble_reads_back(version, tables, 4);
    lemma_cmap_tag(subset_spec(font, chars).unwrap());
}

/// Renumbering keeps the characters.
proof fn lemma_renumbered_ok(m: Seq<(u32, u16)>, gids: Seq<u16>)
    requires
        crate::cmap_law::chars_ascend(m),
        crate::font_subset::chars_ok(m),
    ensures
        crate::cmap_law::chars_ascend(renumbered(m, gids)),
        crate::font_subset::chars_ok(renumbered(m, gids)),
        renumbered(m, gids).len() == m.len(),
{
    let rm = renumbered(m, gids);
    assert forall|a: int, b: int| 0 <= a < b < rm.len() implies #[trigger] rm[a].0 < #[trigger] rm[b].0 by {
        assert(m[a].0 < m[b].0);
    }
    assert forall|a: int| 0 <= a < rm.len() implies (#[trigger] rm[a]).0 <= 0x10FFFF by {
        assert(m[a].0 <= 0x10FFFF);
    }
}

/// Where a drawable requested character sits in a mapping built over `t`.
#[verifier::spinoff_prover]
proof fn lemma_mapping_index(t: Seq<u8>, chars: Seq<char>, n: int, c: char) -> (i: int)
    requires
        mapping_from(t, chars, n, chars.len() as int) is Some,
        chars.contains(c),
        drawable(t, c, n),
    ensures
        0 <= i < mapping_from(t, chars, n, chars.len() as int).unwrap().0.len(),
        mapping_from(t, chars, n, chars.len() as int).unwrap().0[i].0 == c as u32,
        lookup(t, c) == Some(mapping_from(t, chars, n, chars.len() as int).unwrap().0[i].1 as int),
{
    let m = mapping_from(t, chars, n, chars.len() as int).unwrap().0;
    lemma_mapping_members(t, chars, n, chars.len() as int, c);
    assert(chars.take(chars.len() as int) =~= chars);
    assert(exists|i: int| 0 <= i < m.len() && (#[trigger] m[i]).0 == c as u32);
    let i = choose|i: int| 0 <= i < m.len() && (#[trigger] m[i]).0 == c as u32;
    let j = choose|j: int| 0 <= j < chars.len() && (#[trigger] m[i]).0 == chars[j] as u32 && lookup(t, chars[j]) == Some(m[i].1 as int);
    vstd::utf8::char_u32_cast(c, c as u32);
    vstd::utf8::char_u32_cast(chars[j], chars[j] as u32);
    assert(chars[j] == c);
    i
}

/// Where a drawable requested character sits in the subset's mapping.
#[verifier::spinoff_prover]
#[verifier::rlimit(30)]
proof fn lemma_subset_char_index(font: Seq<u8>, chars: Seq<char>, c: char) -> (i: int)
    requires
        glyph_plan(font, chars) is Some,
        ascending(chars),
        chars.len() <= 32766,
        chars.contains(c),
        crate::font::glyph_of(font, c) matches Some(g) && (g as int) < u16_at(font_table(font, 0x6d617870).unwrap(), 4).unwrap(),
    ensures
        ({
            let (m, gids, lv) = glyph_plan(font, chars).unwrap();
            let rm = renumbered(m, gids);
            &&& 0 <= i < m.len()
            &&& m[i].0 == c as u32
            &&& m[i].1 == crate::font::glyph_of(font, c).unwrap()
            &&& crate::cmap_law::chars_ascend(rm)
            &&& crate::font_subset::chars_ok(rm)
            &&& rm.len() <= 32766
        }),
{
    lemma_plan_mapping(font, chars);
    let (m, gids, lv) = glyph_plan(font, chars).unwrap();
    let t = best_subtable(font_table(font, 0x636d6170).unwrap()).unwrap();
    let n = u16_at(font_table(font, 0x6d617870).unwrap(), 4).unwrap();
    lemma_font_subtable_is(font, t);
    lemma_drawable_is_glyph(font, t, c, n as int);
    let i = lemma_mapping_index(t, chars, n as int, c);
    lemma_lookup_range(t, c);
    lemma_mapping_ascends(t, chars, n as int, chars.len() as int);
    lemma_renumbered_ok(m, gids);
    i
}

/// No requested character the font can draw is lost: in the subset, the
/// character map sends each one (other than `U+FFFF`) to the new number
/// of its glyph among the retained ones. (The subset must be shorter than
/// 4 GiB, and the request short enough for a format 4 subtable.)
#[verifier::spinoff_prover]
pub proof fn lemma_subset_keeps_drawable_chars(font: Seq<u8>, chars: Seq<char>, c: char)
    requires
        subset_spec(font, chars) is Some,
        subset_spec(font, chars).unwrap().len() < 0x1_0000_0000,
        ascending(chars),
        chars.len() <= 32766,
        chars.contains(c),
        c != '\u{FFFF}',
        crate::font::glyph_of(font, c) matches Some(g) && (g as int) < u16_at(font_table(font, 0x6d617870).unwrap(), 4).unwrap(),
    ensures
        crate::font::font_subtable(subset_spec(font, chars).unwrap()) matches Some(st)
            && lookup(st, c) == Some(first_index(glyph_plan(font, chars).unwrap().1, crate::font::glyph_of(font, c).unwrap(), 0).unwrap() as u16 as int),
{
    lemma_subset_cmap_table(font, chars);
    let i = lemma_subset_char_index(font, chars, c);
    let (m, gids, lv) = glyph_plan(font, chars).unwrap();
    let rm = renumbered(m, gids);
    assert(rm[i].0 == c as u32);
    vstd::utf8::char_u32_cast(c, c as u32);
    assert(c as u32 != 0xFFFF);
    crate::cmap_law::lemma_cmap_maps(rm, i, c);
    lemma_subset_cmap_reads(font, chars);
}

} // verus!
