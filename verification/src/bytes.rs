//! Little- and big-endian byte layouts of fixed-width integers.

use vstd::prelude::*;

verus! {

/// `v` as 2 little-endian bytes.
pub open spec fn le16(v: u16) -> Seq<u8> {
    seq![(v & 0xff) as u8, (v >> 8u16) as u8]
}

/// `v` as 4 little-endian bytes.
pub open spec fn le32(v: u32) -> Seq<u8> {
    seq![(v & 0xff) as u8, ((v >> 8u32) & 0xff) as u8, ((v >> 16u32) & 0xff) as u8, (v >> 24u32) as u8]
}

/// `v` as 4 big-endian bytes.
pub open spec fn be32(v: u32) -> Seq<u8> {
    seq![(v >> 24u32) as u8, ((v >> 16u32) & 0xff) as u8, ((v >> 8u32) & 0xff) as u8, (v & 0xff) as u8]
}

/// The little-endian `u16` in `s[i..i+2]`.
pub open spec fn get_le16(s: Seq<u8>, i: int) -> u16 {
    ((s[i] as u16) | ((s[i + 1] as u16) << 8u16)) as u16
}

/// The little-endian `u32` in `s[i..i+4]`.
pub open spec fn get_le32(s: Seq<u8>, i: int) -> u32 {
    (s[i] as u32) | ((s[i + 1] as u32) << 8u32) | ((s[i + 2] as u32) << 16u32) | ((s[i + 3] as u32) << 24u32)
}

/// The big-endian `u32` in `s[i..i+4]`.
pub open spec fn get_be32(s: Seq<u8>, i: int) -> u32 {
    ((s[i] as u32) << 24u32) | ((s[i + 1] as u32) << 16u32) | ((s[i + 2] as u32) << 8u32) | (s[i + 3] as u32)
}

/// Reading back what was written gives the value written.
pub proof fn lemma_le32_round_trip(v: u32)
    ensures
        get_le32(le32(v), 0) == v,
{
    let (a, b, c, d) = ((v & 0xff) as u8, ((v >> 8u32) & 0xff) as u8, ((v >> 16u32) & 0xff) as u8, (v >> 24u32) as u8);
    assert((a as u32) | ((b as u32) << 8u32) | ((c as u32) << 16u32) | ((d as u32) << 24u32) == v) by (bit_vector)
        requires
            a == (v & 0xff) as u8,
            b == ((v >> 8u32) & 0xff) as u8,
            c == ((v >> 16u32) & 0xff) as u8,
            d == (v >> 24u32) as u8,
    ;
}

/// Reading back what was written gives the value written.
pub proof fn lemma_le16_round_trip(v: u16)
    ensures
        get_le16(le16(v), 0) == v,
{
    let (a, b) = ((v & 0xff) as u8, (v >> 8u16) as u8);
    assert(((a as u16) | ((b as u16) << 8u16)) as u16 == v) by (bit_vector)
        requires
            a == (v & 0xff) as u8,
            b == (v >> 8u16) as u8,
    ;
}

/// Reading back what was written gives the value written.
pub proof fn lemma_be32_round_trip(v: u32)
    ensures
        get_be32(be32(v), 0) == v,
{
    let (a, b, c, d) = ((v >> 24u32) as u8, ((v >> 16u32) & 0xff) as u8, ((v >> 8u32) & 0xff) as u8, (v & 0xff) as u8);
    assert(((a as u32) << 24u32) | ((b as u32) << 16u32) | ((c as u32) << 8u32) | (d as u32) == v) by (bit_vector)
        requires
            a == (v >> 24u32) as u8,
            b == ((v >> 16u32) & 0xff) as u8,
            c == ((v >> 8u32) & 0xff) as u8,
            d == (v & 0xff) as u8,
    ;
}

/// Appends `v` as 2 little-endian bytes.
pub fn push_le16(out: &mut Vec<u8>, v: u16)
    ensures
        final(out)@ == old(out)@ + le16(v),
{
    out.push((v & 0xff) as u8);
    out.push((v >> 8) as u8);
    assert(final(out)@ =~= old(out)@ + le16(v));
}

/// Appends `v` as 4 little-endian bytes.
pub fn push_le32(out: &mut Vec<u8>, v: u32)
    ensures
        final(out)@ == old(out)@ + le32(v),
{
    out.push((v & 0xff) as u8);
    out.push(((v >> 8) & 0xff) as u8);
    out.push(((v >> 16) & 0xff) as u8);
    out.push((v >> 24) as u8);
    assert(final(out)@ =~= old(out)@ + le32(v));
}

/// Appends `v` as 4 big-endian bytes.
pub fn push_be32(out: &mut Vec<u8>, v: u32)
    ensures
        final(out)@ == old(out)@ + be32(v),
{
    out.push((v >> 24) as u8);
    out.push(((v >> 16) & 0xff) as u8);
    out.push(((v >> 8) & 0xff) as u8);
    out.push((v & 0xff) as u8);
    assert(final(out)@ =~= old(out)@ + be32(v));
}

/// Appends all of `data`.
pub fn push_all(out: &mut Vec<u8>, data: &[u8])
    ensures
        final(out)@ == old(out)@ + data@,
{
    let mut i: usize = 0;
    while i < data.len()
        invariant
            i <= data@.len(),
            out@ == old(out)@ + data@.take(i as int),
        decreases data@.len() - i,
    {
        out.push(data[i]);
        assert(data@.take(i + 1) =~= data@.take(i as int).push(data@[i as int]));
        i = i + 1;
    }
    assert(data@.take(i as int) =~= data@);
}

/// Appends `data[start..end]`.
pub fn push_range(out: &mut Vec<u8>, data: &[u8], start: usize, end: usize)
    requires
        start <= end <= data@.len(),
    ensures
        final(out)@ == old(out)@ + data@.subrange(start as int, end as int),
{
    let mut i: usize = start;
    while i < end
        invariant
            start <= i <= end,
            end <= data@.len(),
            out@ == old(out)@ + data@.subrange(start as int, i as int),
        decreases end - i,
    {
        out.push(data[i]);
        assert(data@.subrange(start as int, i + 1) =~= data@.subrange(start as int, i as int).push(data@[i as int]));
        i = i + 1;
    }
}

/// The little-endian `u16` at `s[i..i+2]`.
pub fn read_le16(s: &[u8], i: usize) -> (v: u16)
    requires
        i + 2 <= s@.len(),
    ensures
        v == get_le16(s@, i as int),
{
    ((s[i] as u16) | ((s[i + 1] as u16) << 8)) as u16
}

/// The little-endian `u32` at `s[i..i+4]`.
pub fn read_le32(s: &[u8], i: usize) -> (v: u32)
    requires
        i + 4 <= s@.len(),
    ensures
        v == get_le32(s@, i as int),
{
    (s[i] as u32) | ((s[i + 1] as u32) << 8) | ((s[i + 2] as u32) << 16) | ((s[i + 3] as u32) << 24)
}

/// The big-endian `u32` at `s[i..i+4]`.
pub fn read_be32(s: &[u8], i: usize) -> (v: u32)
    requires
        i + 4 <= s@.len(),
    ensures
        v == get_be32(s@, i as int),
{
    ((s[i] as u32) << 24) | ((s[i + 1] as u32) << 16) | ((s[i + 2] as u32) << 8) | (s[i + 3] as u32)
}

} // verus!
