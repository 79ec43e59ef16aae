//! Connected-component labelling of a binary mask: every foreground pixel
//! gets the number of its component, components numbered in the raster
//! order of their first pixel.

use vstd::prelude::*;
use vstd::arithmetic::div_mod::{lemma_fundamental_div_mod, lemma_fundamental_div_mod_converse};
use crate::image::{Image, lemma_index_in_bounds};
use crate::text::with_number;

verus! {

/// Whether two pixels `(dx, dy)` apart touch: `conn == 4` joins edge
/// neighbours only, any other value joins the eight around a pixel.
pub open spec fn joins(conn: u8, dx: int, dy: int) -> bool {
    if conn == 4 {
        (dx == 0 && (dy == 1 || dy == -1)) || (dy == 0 && (dx == 1 || dx == -1))
    } else {
        -1 <= dx <= 1 && -1 <= dy <= 1 && !(dx == 0 && dy == 0)
    }
}

/// Whether the pixels at raster indices `i` and `j` of a `w`-wide image touch.
pub open spec fn touches(w: int, conn: u8, i: int, j: int) -> bool {
    joins(conn, j % w - i % w, j / w - i / w)
}

/// Whether the pixel at raster index `i` of the RGB buffer `p` is
/// foreground (red channel at least 128).
pub open spec fn fg(p: Seq<u8>, i: int) -> bool {
    p[3 * i] >= 128
}

/// Step `k` of `path` goes to a touching pixel.
pub open spec fn step_ok(w: int, conn: u8, path: Seq<int>, k: int) -> bool {
    touches(w, conn, path[k], path[k + 1])
}

/// `path` walks through foreground pixels of a `w`-wide image of `n`
/// pixels, each step to a touching pixel.
pub open spec fn is_walk(p: Seq<u8>, w: int, n: int, conn: u8, path: Seq<int>) -> bool {
    &&& path.len() >= 1
    &&& forall|k: int| 0 <= k < path.len() ==> 0 <= #[trigger] path[k] < n && fg(p, path[k])
    &&& forall|k: int| 0 <= k < path.len() - 1 ==> #[trigger] step_ok(w, conn, path, k)
}

/// Pixels `a` and `b` lie in one foreground component.
pub open spec fn connected(p: Seq<u8>, w: int, n: int, conn: u8, a: int, b: int) -> bool {
    exists|path: Seq<int>| #[trigger] is_walk(p, w, n, conn, path) && path[0] == a && path.last() == b
}

/// `labels` is the component labelling of the `n`-pixel, `w`-wide RGB
/// buffer `p` with `count` components: background pixels get 0; touching
/// foreground pixels share a label; pixels sharing a label are connected;
/// every label from 1 to `count` is used; and labels are numbered in the
/// raster order of their first pixel.
pub open spec fn labelling_ok(p: Seq<u8>, w: int, n: int, conn: u8, labels: Seq<u32>, count: u32) -> bool {
    &&& labels.len() == n
    &&& forall|i: int| 0 <= i < n ==> (#[trigger] labels[i] > 0) == fg(p, i) && labels[i] <= count
    &&& forall|i: int, j: int|
        0 <= i < n && 0 <= j < n && fg(p, i) && fg(p, j) && #[trigger] touches(w, conn, i, j) ==> labels[i] == labels[j]
    &&& forall|i: int, j: int|
        0 <= i < n && 0 <= j < n && #[trigger] labels[i] == #[trigger] labels[j] && labels[i] > 0 ==> connected(p, w, n, conn, i, j)
    &&& forall|l: int| 1 <= l <= count ==> #[trigger] label_used(labels, n, l)
    &&& forall|i: int| 0 <= i < n && #[trigger] labels[i] > 1 ==> exists|j: int| 0 <= j < i && labels[j] == labels[i] - 1
}

/// Some pixel carries label `l`.
pub open spec fn label_used(labels: Seq<u32>, n: int, l: int) -> bool {
    exists|i: int| 0 <= i < n && labels[i] == l
}

/// How many neighbours a pixel has under the connectivity.
pub open spec fn nb_count(conn: u8) -> int {
    if conn == 4 { 4 } else { 8 }
}

/// Neighbour `k` of a pixel, as an offset.
pub open spec fn offset(conn: u8, k: int) -> (int, int) {
    if conn == 4 {
        if k == 0 { (-1, 0) } else if k == 1 { (1, 0) } else if k == 2 { (0, -1) } else { (0, 1) }
    } else {
        if k == 0 { (-1, -1) } else if k == 1 { (0, -1) } else if k == 2 { (1, -1) } else if k == 3 { (-1, 0) }
        else if k == 4 { (1, 0) } else if k == 5 { (-1, 1) } else if k == 6 { (0, 1) } else { (1, 1) }
    }
}

/// Number of zero labels.
pub open spec fn zeros(s: Seq<u32>) -> nat
    decreases s.len(),
{
    if s.len() == 0 { 0 } else { zeros(s.drop_last()) + if s.last() == 0 { 1nat } else { 0nat } }
}

/// Every foreground pixel touching pixel `i` carries its label.
pub open spec fn closed(p: Seq<u8>, w: int, n: int, conn: u8, labels: Seq<u32>, i: int) -> bool {
    forall|j: int| 0 <= j < n && #[trigger] touches(w, conn, i, j) && fg(p, j) ==> labels[j] == labels[i]
}

/// The state of the flood fill: `q` pixels scanned, `nl` components
/// started at `seeds`, each labelled pixel reached from its seed by the
/// walk in `paths`, `gs` the pixels still to expand, `c` the pixel being
/// expanded (or -1); every other labelled pixel is closed.
pub open spec fn fill_inv(
    p: Seq<u8>, w: int, h: int, conn: u8, labels: Seq<u32>, nl: int, q: int,
    seeds: Seq<int>, paths: Seq<Seq<int>>, gs: Seq<int>, c: int,
) -> bool {
    let n = w * h;
    &&& labels.len() == n && paths.len() == n && seeds.len() == nl
    &&& 0 <= q <= n
    &&& forall|i: int| 0 <= i < n && #[trigger] labels[i] > 0 ==> fg(p, i) && labels[i] <= nl
            && 0 <= seeds[labels[i] - 1] <= i && is_walk(p, w, n, conn, paths[i])
            && paths[i][0] == seeds[labels[i] - 1] && paths[i].last() == i
    &&& forall|i: int| 0 <= i < q && fg(p, i) ==> #[trigger] labels[i] > 0
    &&& forall|k: int| 0 <= k < nl ==> 0 <= #[trigger] seeds[k] < q && labels[seeds[k]] == k + 1
    &&& forall|k1: int, k2: int| 0 <= k1 < k2 < nl ==> #[trigger] seeds[k1] < #[trigger] seeds[k2]
    &&& forall|k: int| 0 <= k < gs.len() ==> 0 <= #[trigger] gs[k] < n && labels[gs[k]] == nl
    &&& forall|i: int| 0 <= i < n && #[trigger] labels[i] > 0 && !gs.contains(i) && i != c
            ==> closed(p, w, n, conn, labels, i)
}

/// Neighbour `k` of `(cx, cy)`, if inside the image and foreground, has label `v`.
pub open spec fn settled(p: Seq<u8>, w: int, h: int, conn: u8, labels: Seq<u32>, cx: int, cy: int, k: int, v: u32) -> bool {
    let nx = cx + offset(conn, k).0;
    let ny = cy + offset(conn, k).1;
    0 <= nx < w && 0 <= ny < h && fg(p, ny * w + nx) ==> labels[ny * w + nx] == v
}

proof fn lemma_zeros_update(s: Seq<u32>, j: int, v: u32)
    requires
        0 <= j < s.len(),
        s[j] == 0,
        v > 0,
    ensures
        zeros(s.update(j, v)) + 1 == zeros(s),
    decreases s.len(),
{
    let t = s.update(j, v);
    if j == s.len() - 1 {
        assert(t.drop_last() =~= s.drop_last());
    } else {
        lemma_zeros_update(s.drop_last(), j, v);
        assert(t.drop_last() =~= s.drop_last().update(j, v));
    }
}

/// The raster index of `(x, y)` gives back `x` and `y`.
proof fn lemma_coords(w: int, x: int, y: int)
    requires
        0 <= x < w,
        0 <= y,
    ensures
        (y * w + x) % w == x,
        (y * w + x) / w == y,
{
    lemma_fundamental_div_mod_converse(y * w + x, w, y, x);
}

/// Raster index `i` splits into coordinates inside the image.
proof fn lemma_split(w: int, h: int, i: int)
    requires
        0 <= h,
        0 <= i < w * h,
    ensures
        w > 0,
        i == (i / w) * w + i % w,
        0 <= i % w < w,
        0 <= i / w < h,
{
    if w <= 0 {
        assert(w * h <= 0) by (nonlinear_arith) requires w <= 0, 0 <= h;
    }
    lemma_fundamental_div_mod(i, w);
    let q = i / w;
    let r = i % w;
    assert(w * q == q * w) by (nonlinear_arith);
    assert(0 <= q < h) by (nonlinear_arith) requires i == q * w + r, 0 <= r < w, 0 <= i < w * h, w > 0;
}

/// Each listed offset joins, and each joining offset is listed.
proof fn lemma_offset_joins(conn: u8, k: int)
    requires
        0 <= k < nb_count(conn),
    ensures
        joins(conn, offset(conn, k).0, offset(conn, k).1),
{
}

proof fn lemma_offset_index(conn: u8, dx: int, dy: int) -> (k: int)
    requires
        joins(conn, dx, dy),
    ensures
        0 <= k < nb_count(conn),
        offset(conn, k) == (dx, dy),
{
    if conn == 4 {
        if dx == -1 { 0 } else if dx == 1 { 1 } else if dy == -1 { 2 } else { 3 }
    } else {
        if dy == -1 {
            if dx == -1 { 0 } else if dx == 0 { 1 } else { 2 }
        } else if dy == 0 {
            if dx == -1 { 3 } else { 4 }
        } else {
            if dx == -1 { 5 } else if dx == 0 { 6 } else { 7 }
        }
    }
}

/// A walk extended by one touching foreground pixel.
proof fn lemma_walk_push(p: Seq<u8>, w: int, n: int, conn: u8, path: Seq<int>, j: int)
    requires
        is_walk(p, w, n, conn, path),
        0 <= j < n,
        fg(p, j),
        touches(w, conn, path.last(), j),
    ensures
        is_walk(p, w, n, conn, path.push(j)),
        path.push(j)[0] == path[0],
        path.push(j).last() == j,
{
    let q = path.push(j);
    assert forall|k: int| 0 <= k < q.len() - 1 implies #[trigger] step_ok(w, conn, q, k) by {
        if k < path.len() - 1 {
            assert(step_ok(w, conn, path, k));
        }
    }
}

/// Two walks from one pixel join into a walk between their ends.
proof fn lemma_walks_meet(p: Seq<u8>, w: int, n: int, conn: u8, a: Seq<int>, b: Seq<int>)
    requires
        is_walk(p, w, n, conn, a),
        is_walk(p, w, n, conn, b),
        a[0] == b[0],
    ensures
        connected(p, w, n, conn, a.last(), b.last()),
{
    let la = a.len();
    let path = Seq::new((la + b.len() - 1) as nat, |k: int| if k < la { a[la - 1 - k] } else { b[k - la + 1] });
    assert forall|k: int| 0 <= k < path.len() implies 0 <= #[trigger] path[k] < n && fg(p, path[k]) by {
        if k < la {
            assert(a[la - 1 - k] == path[k]);
        } else {
            assert(b[k - la + 1] == path[k]);
        }
    }
    assert forall|k: int| 0 <= k < path.len() - 1 implies #[trigger] step_ok(w, conn, path, k) by {
        if k < la - 1 {
            assert(step_ok(w, conn, a, la - 2 - k));
        } else {
            assert(step_ok(w, conn, b, k - la + 1));
        }
    }
    assert(is_walk(p, w, n, conn, path));
}

proof fn lemma_fill_start(p: Seq<u8>, w: int, h: int, conn: u8, labels: Seq<u32>, paths: Seq<Seq<int>>)
    requires
        0 <= w,
        0 <= h,
        labels.len() == w * h,
        paths.len() == w * h,
        forall|i: int| 0 <= i < w * h ==> #[trigger] labels[i] == 0,
    ensures
        fill_inv(p, w, h, conn, labels, 0, 0, Seq::empty(), paths, Seq::empty(), -1),
{
    assert(0 <= w * h) by (nonlinear_arith) requires 0 <= w, 0 <= h;
}

/// Scanning past a pixel that is labelled already or background.
proof fn lemma_fill_skip(p: Seq<u8>, w: int, h: int, conn: u8, labels: Seq<u32>, nl: int, q: int,
    seeds: Seq<int>, paths: Seq<Seq<int>>)
    requires
        fill_inv(p, w, h, conn, labels, nl, q, seeds, paths, Seq::empty(), -1),
        q < w * h,
        labels[q] > 0 || !fg(p, q),
    ensures
        fill_inv(p, w, h, conn, labels, nl, q + 1, seeds, paths, Seq::empty(), -1),
{
}

/// Starting a new component at the unlabelled foreground pixel `q`.
proof fn lemma_fill_seed(p: Seq<u8>, w: int, h: int, conn: u8, labels: Seq<u32>, nl: int, q: int,
    seeds: Seq<int>, paths: Seq<Seq<int>>)
    requires
        fill_inv(p, w, h, conn, labels, nl, q, seeds, paths, Seq::empty(), -1),
        0 <= q < w * h,
        labels[q] == 0,
        fg(p, q),
        nl + 1 <= u32::MAX,
    ensures
        fill_inv(p, w, h, conn, labels.update(q, (nl + 1) as u32), nl + 1, q + 1, seeds.push(q),
            paths.update(q, seq![q]), seq![q], -1),
{
    let n = w * h;
    let l2 = labels.update(q, (nl + 1) as u32);
    let s2 = seeds.push(q);
    let p2 = paths.update(q, seq![q]);
    let g2 = seq![q];
    assert forall|i: int| 0 <= i < n && #[trigger] l2[i] > 0 implies fg(p, i) && l2[i] <= nl + 1
        && 0 <= s2[l2[i] - 1] <= i && is_walk(p, w, n, conn, p2[i])
        && p2[i][0] == s2[l2[i] - 1] && p2[i].last() == i by {
        if i != q {
            assert(labels[i] > 0);
        }
    }
    assert forall|i: int| 0 <= i < n && #[trigger] l2[i] > 0 && !g2.contains(i) && i != -1
        implies closed(p, w, n, conn, l2, i) by {
        assert(i != q) by {
            if i == q {
                assert(g2[0] == q);
            }
        }
        assert(labels[i] > 0);
        assert(closed(p, w, n, conn, labels, i));
        assert forall|j: int| 0 <= j < n && #[trigger] touches(w, conn, i, j) && fg(p, j) implies l2[j] == l2[i] by {
            assert(labels[j] == labels[i]);
        }
    }
    assert forall|k: int| 0 <= k < nl + 1 implies 0 <= #[trigger] s2[k] < q + 1 && l2[s2[k]] == k + 1 by {
        if k < nl {
            assert(seeds[k] < q);
        }
    }
}

/// Taking the last pixel off the work list to expand it.
proof fn lemma_fill_pop(p: Seq<u8>, w: int, h: int, conn: u8, labels: Seq<u32>, nl: int, q: int,
    seeds: Seq<int>, paths: Seq<Seq<int>>, gs: Seq<int>)
    requires
        fill_inv(p, w, h, conn, labels, nl, q, seeds, paths, gs, -1),
        gs.len() > 0,
    ensures
        fill_inv(p, w, h, conn, labels, nl, q, seeds, paths, gs.drop_last(), gs.last()),
{
    let n = w * h;
    let g2 = gs.drop_last();
    assert forall|i: int| 0 <= i < n && #[trigger] labels[i] > 0 && !g2.contains(i) && i != gs.last()
        implies closed(p, w, n, conn, labels, i) by {
        if gs.contains(i) {
            let k = choose|k: int| 0 <= k < gs.len() && gs[k] == i;
            assert(g2[k] == i);
        }
    }
}

/// Labelling the unlabelled foreground pixel `j` touching the pixel `c`
/// being expanded, and putting it on the work list.
proof fn lemma_fill_visit(p: Seq<u8>, w: int, h: int, conn: u8, labels: Seq<u32>, nl: int, q: int,
    seeds: Seq<int>, paths: Seq<Seq<int>>, gs: Seq<int>, c: int, j: int)
    requires
        fill_inv(p, w, h, conn, labels, nl, q, seeds, paths, gs, c),
        0 <= c < w * h,
        labels[c] == nl,
        nl >= 1,
        seeds[nl - 1] == q - 1,
        0 <= j < w * h,
        labels[j] == 0,
        fg(p, j),
        touches(w, conn, c, j),
    ensures
        fill_inv(p, w, h, conn, labels.update(j, nl as u32), nl, q, seeds,
            paths.update(j, paths[c].push(j)), gs.push(j), c),
{
    let n = w * h;
    let l2 = labels.update(j, nl as u32);
    let p2 = paths.update(j, paths[c].push(j));
    let g2 = gs.push(j);
    assert(labels[c] > 0);
    lemma_walk_push(p, w, n, conn, paths[c], j);
    assert(j >= q) by {
        if j < q {
            assert(labels[j] > 0);
        }
    }
    assert forall|i: int| 0 <= i < n && #[trigger] l2[i] > 0 implies fg(p, i) && l2[i] <= nl
        && 0 <= seeds[l2[i] - 1] <= i && is_walk(p, w, n, conn, p2[i])
        && p2[i][0] == seeds[l2[i] - 1] && p2[i].last() == i by {
        if i != j {
            assert(labels[i] > 0);
        }
    }
    assert forall|i: int| 0 <= i < n && #[trigger] l2[i] > 0 && !g2.contains(i) && i != c
        implies closed(p, w, n, conn, l2, i) by {
        assert(i != j) by {
            if i == j {
                assert(g2[gs.len() as int] == j);
            }
        }
        assert(!gs.contains(i)) by {
            if gs.contains(i) {
                let k = choose|k: int| 0 <= k < gs.len() && gs[k] == i;
                assert(g2[k] == i);
            }
        }
        assert(labels[i] > 0);
        assert(closed(p, w, n, conn, labels, i));
        assert forall|jj: int| 0 <= jj < n && #[trigger] touches(w, conn, i, jj) && fg(p, jj) implies l2[jj] == l2[i] by {
            assert(labels[jj] == labels[i]);
        }
    }
    assert forall|k: int| 0 <= k < nl implies 0 <= #[trigger] seeds[k] < q && l2[seeds[k]] == k + 1 by {
        assert(seeds[k] < q);
    }
    assert forall|k: int| 0 <= k < g2.len() implies 0 <= #[trigger] g2[k] < n && l2[g2[k]] == nl by {
        if k < gs.len() {
            assert(gs[k] == g2[k]);
        }
    }
}

/// A labelled foreground pixel touching the pixel being expanded already
/// carries its label.
proof fn lemma_fill_labelled(p: Seq<u8>, w: int, h: int, conn: u8, labels: Seq<u32>, nl: int, q: int,
    seeds: Seq<int>, paths: Seq<Seq<int>>, gs: Seq<int>, c: int, j: int)
    requires
        fill_inv(p, w, h, conn, labels, nl, q, seeds, paths, gs, c),
        0 <= c < w * h,
        labels[c] == nl,
        nl >= 1,
        0 <= j < w * h,
        j != c,
        labels[j] > 0,
        fg(p, j),
        touches(w, conn, c, j),
    ensures
        labels[j] == nl,
{
    let n = w * h;
    assert(labels[c] > 0);
    if gs.contains(j) {
        let k = choose|k: int| 0 <= k < gs.len() && gs[k] == j;
        assert(labels[gs[k]] == nl);
    } else {
        assert(closed(p, w, n, conn, labels, j));
        assert(touches(w, conn, j, c));
    }
}

/// Done expanding `c`: every pixel touching it carries its label.
proof fn lemma_fill_finish(p: Seq<u8>, w: int, h: int, conn: u8, labels: Seq<u32>, nl: int, q: int,
    seeds: Seq<int>, paths: Seq<Seq<int>>, gs: Seq<int>, c: int)
    requires
        fill_inv(p, w, h, conn, labels, nl, q, seeds, paths, gs, c),
        closed(p, w, w * h, conn, labels, c),
    ensures
        fill_inv(p, w, h, conn, labels, nl, q, seeds, paths, gs, -1),
{
}

/// All neighbours of `(cx, cy)` settled means the pixel is closed.
proof fn lemma_settled_closed(p: Seq<u8>, w: int, h: int, conn: u8, labels: Seq<u32>, cx: int, cy: int)
    requires
        0 <= cx < w,
        0 <= cy < h,
        forall|k: int| 0 <= k < nb_count(conn) ==> #[trigger] settled(p, w, h, conn, labels, cx, cy, k, labels[cy * w + cx]),
    ensures
        closed(p, w, w * h, conn, labels, cy * w + cx),
{
    let c = cy * w + cx;
    lemma_coords(w, cx, cy);
    assert forall|j: int| 0 <= j < w * h && #[trigger] touches(w, conn, c, j) && fg(p, j) implies labels[j] == labels[c] by {
        lemma_split(w, h, j);
        let k = lemma_offset_index(conn, j % w - cx, j / w - cy);
        assert(settled(p, w, h, conn, labels, cx, cy, k, labels[c]));
    }
}

/// The finished flood fill is a labelling of the components.
proof fn lemma_fill_done(p: Seq<u8>, w: int, h: int, conn: u8, labels: Seq<u32>, nl: int,
    seeds: Seq<int>, paths: Seq<Seq<int>>)
    requires
        fill_inv(p, w, h, conn, labels, nl, w * h, seeds, paths, Seq::empty(), -1),
        0 <= nl <= u32::MAX,
    ensures
        labelling_ok(p, w, w * h, conn, labels, nl as u32),
{
    let n = w * h;
    assert forall|i: int| 0 <= i < n implies (#[trigger] labels[i] > 0) == fg(p, i) && labels[i] <= nl by {
    }
    assert forall|i: int, j: int| 0 <= i < n && 0 <= j < n && fg(p, i) && fg(p, j) && #[trigger] touches(w, conn, i, j)
        implies labels[i] == labels[j] by {
        assert(labels[i] > 0);
        assert(closed(p, w, n, conn, labels, i));
    }
    assert forall|i: int, j: int| 0 <= i < n && 0 <= j < n && #[trigger] labels[i] == #[trigger] labels[j] && labels[i] > 0
        implies connected(p, w, n, conn, i, j) by {
        lemma_walks_meet(p, w, n, conn, paths[i], paths[j]);
    }
    assert forall|l: int| 1 <= l <= nl implies #[trigger] label_used(labels, n, l) by {
        assert(labels[seeds[l - 1]] == l);
    }
    assert forall|i: int| 0 <= i < n && #[trigger] labels[i] > 1 implies exists|j: int| 0 <= j < i && labels[j] == labels[i] - 1 by {
        let l = labels[i] as int;
        assert(seeds[l - 2] < seeds[l - 1]);
        assert(labels[seeds[l - 2]] == l - 1);
    }
}

/// Neighbour `k` of a pixel, as an offset.
fn offset_exec(conn: u8, k: usize) -> (r: (i8, i8))
    requires
        k < nb_count(conn),
    ensures
        (r.0 as int, r.1 as int) == offset(conn, k as int),
        -1 <= r.0 <= 1,
        -1 <= r.1 <= 1,
{
    if conn == 4 {
        if k == 0 { (-1, 0) } else if k == 1 { (1, 0) } else if k == 2 { (0, -1) } else { (0, 1) }
    } else {
        if k == 0 { (-1, -1) } else if k == 1 { (0, -1) } else if k == 2 { (1, -1) } else if k == 3 { (-1, 0) }
        else if k == 4 { (1, 0) } else if k == 5 { (-1, 1) } else if k == 6 { (0, 1) } else { (1, 1) }
    }
}

/// `c + d`, if it lies in `0 .. limit`.
fn shift(c: usize, d: i8, limit: usize) -> (r: Option<usize>)
    requires
        c < limit,
        -1 <= d <= 1,
    ensures
        match r {
            Some(v) => v == c + d && v < limit,
            None => !(0 <= c + d < limit),
        },
{
    if d < 0 {
        if c == 0 { None } else { Some(c - 1) }
    } else if d > 0 {
        if c + 1 < limit { Some(c + 1) } else { None }
    } else {
        Some(c)
    }
}

impl Image {
    /// Labels the connected foreground regions of the binary mask
    /// (foreground: red channel at least 128) with 4- or 8-connectivity.
    /// Returns one label per pixel in raster order (0 for background,
    /// components numbered from 1 in the raster order of their first
    /// pixel) and the number of components. Any connectivity other than 4
    /// or 8 is an error.
    pub fn label_components(&self, connectivity: u8) -> (r: Result<(Vec<u32>, u32), String>)
        requires
            self.wf(),
            self.width * self.height <= u32::MAX,
        ensures
            r is Err <==> connectivity != 4 && connectivity != 8,
            r matches Ok((labels, count)) ==> labelling_ok(self.pixels@, self.width as int,
                self.width * self.height, connectivity, labels@, count),
    {
        if connectivity != 4 && connectivity != 8 {
            return Err(with_number("connectivity must be 4 or 8, got ", connectivity as u64, ""));
        }
        let w = self.width;
        let h = self.height;
        proof {
            assert(w * h <= w * h * 3) by (nonlinear_arith);
        }
        let n = w * h;
        let ghost p = self.pixels@;
        let ghost conn = connectivity;
        let mut labels: Vec<u32> = vec![0u32; n];
        let mut next_label: u32 = 0;
        let nk: usize = if connectivity == 4 { 4 } else { 8 };
        let mut stack: Vec<(usize, usize)> = Vec::new();
        let ghost mut seeds: Seq<int> = Seq::empty();
        let ghost mut paths: Seq<Seq<int>> = Seq::new(n as nat, |i: int| seq![i]);
        let ghost mut gs: Seq<int> = Seq::empty();
        proof {
            lemma_fill_start(p, w as int, h as int, conn, labels@, paths);
        }
        let mut idx0: usize = 0;
        while idx0 < n
            invariant
                self.wf(),
                p == self.pixels@,
                w == self.width,
                h == self.height,
                n == w * h,
                n <= u32::MAX,
                connectivity == 4 || connectivity == 8,
                conn == connectivity,
                nk == nb_count(conn),
                idx0 <= n,
                next_label <= idx0,
                stack.len() == 0,
                fill_inv(p, w as int, h as int, conn, labels@, next_label as int, idx0 as int, seeds, paths, Seq::empty(), -1),
            decreases n - idx0,
        {
            proof {
                lemma_split(w as int, h as int, idx0 as int);
            }
            let x0 = idx0 % w;
            let y0 = idx0 / w;
            if labels[idx0] != 0 || !self.is_foreground(x0, y0) {
                proof {
                    lemma_fill_skip(p, w as int, h as int, conn, labels@, next_label as int, idx0 as int, seeds, paths);
                }
                idx0 += 1;
                continue;
            }
            proof {
                lemma_fill_seed(p, w as int, h as int, conn, labels@, next_label as int, idx0 as int, seeds, paths);
            }
            next_label += 1;
            labels.set(idx0, next_label);
            stack.push((x0, y0));
            proof {
                seeds = seeds.push(idx0 as int);
                paths = paths.update(idx0 as int, seq![idx0 as int]);
                gs = seq![idx0 as int];
            }
            while stack.len() > 0
                invariant
                    self.wf(),
                    p == self.pixels@,
                    w == self.width,
                    h == self.height,
                    n == w * h,
                    n <= u32::MAX,
                    connectivity == 4 || connectivity == 8,
                    conn == connectivity,
                    nk == nb_count(conn),
                    idx0 < n,
                    1 <= next_label <= idx0 + 1,
                    seeds[next_label - 1] == idx0,
                    stack.len() == gs.len(),
                    forall|k: int| 0 <= k < stack.len() ==> (#[trigger] stack@[k]).0 < w && stack@[k].1 < h
                        && gs[k] == stack@[k].1 * w + stack@[k].0,
                    fill_inv(p, w as int, h as int, conn, labels@, next_label as int, idx0 + 1, seeds, paths, gs, -1),
                decreases 2 * zeros(labels@) + stack.len(),
            {
                let ghost m0 = 2 * zeros(labels@) + stack.len();
                proof {
                    lemma_fill_pop(p, w as int, h as int, conn, labels@, next_label as int, idx0 + 1, seeds, paths, gs);
                }
                let ghost c = gs.last();
                let (cx, cy) = stack.pop().unwrap();
                proof {
                    gs = gs.drop_last();
                    lemma_coords(w as int, cx as int, cy as int);
                    assert(stack@.push((cx, cy))[stack.len() as int] == (cx, cy));
                }
                let mut k: usize = 0;
                while k < nk
                    invariant
                        self.wf(),
                        p == self.pixels@,
                        w == self.width,
                        h == self.height,
                        n == w * h,
                        n <= u32::MAX,
                        connectivity == 4 || connectivity == 8,
                        conn == connectivity,
                        nk == nb_count(conn),
                        idx0 < n,
                        1 <= next_label <= idx0 + 1,
                        seeds[next_label - 1] == idx0,
                        stack.len() == gs.len(),
                        forall|k: int| 0 <= k < stack.len() ==> (#[trigger] stack@[k]).0 < w && stack@[k].1 < h
                            && gs[k] == stack@[k].1 * w + stack@[k].0,
                        cx < w,
                        cy < h,
                        c == cy * w + cx,
                        c % (w as int) == cx,
                        c / (w as int) == cy,
                        0 <= c < n,
                        labels@[c] == next_label,
                        k <= nk,
                        forall|kk: int| 0 <= kk < k ==> #[trigger] settled(p, w as int, h as int, conn, labels@, cx as int, cy as int, kk, next_label),
                        fill_inv(p, w as int, h as int, conn, labels@, next_label as int, idx0 + 1, seeds, paths, gs, c),
                        2 * zeros(labels@) + stack.len() < m0,
                    decreases nk - k,
                {
                    let (dx, dy) = offset_exec(connectivity, k);
                    proof {
                        lemma_offset_joins(conn, k as int);
                    }
                    let sx = shift(cx, dx, w);
                    let sy = shift(cy, dy, h);
                    match (sx, sy) {
                        (Some(nx), Some(ny)) => {
                            proof {
                                lemma_index_in_bounds(w as int, h as int, nx as int, ny as int);
                                lemma_coords(w as int, nx as int, ny as int);
                            }
                            let nidx = ny * w + nx;
                            let fgn = self.is_foreground(nx, ny);
                            if labels[nidx] == 0 && fgn {
                                proof {
                                    lemma_fill_visit(p, w as int, h as int, conn, labels@, next_label as int, idx0 + 1,
                                        seeds, paths, gs, c, nidx as int);
                                    lemma_zeros_update(labels@, nidx as int, next_label);
                                }
                                let ghost before = labels@;
                                labels.set(nidx, next_label);
                                stack.push((nx, ny));
                                proof {
                                    paths = paths.update(nidx as int, paths[c].push(nidx as int));
                                    gs = gs.push(nidx as int);
                                    assert forall|kk: int| 0 <= kk < k implies #[trigger] settled(p, w as int, h as int, conn,
                                        labels@, cx as int, cy as int, kk, next_label) by {
                                        let nx2 = cx + offset(conn, kk).0;
                                        let ny2 = cy + offset(conn, kk).1;
                                        if 0 <= nx2 < w && 0 <= ny2 < h {
                                            lemma_index_in_bounds(w as int, h as int, nx2, ny2);
                                        }
                                        assert(settled(p, w as int, h as int, conn, before, cx as int, cy as int, kk, next_label));
                                    }
                                }
                            } else if fgn {
                                proof {
                                    lemma_fill_labelled(p, w as int, h as int, conn, labels@, next_label as int, idx0 + 1,
                                        seeds, paths, gs, c, nidx as int);
                                }
                            }
                        }
                        _ => {}
                    }
                    assert(settled(p, w as int, h as int, conn, labels@, cx as int, cy as int, k as int, next_label));
                    k += 1;
                }
                proof {
                    lemma_settled_closed(p, w as int, h as int, conn, labels@, cx as int, cy as int);
                    lemma_fill_finish(p, w as int, h as int, conn, labels@, next_label as int, idx0 + 1, seeds, paths, gs, c);
                }
            }
            idx0 += 1;
        }
        proof {
            lemma_fill_done(p, w as int, h as int, conn, labels@, next_label as int, seeds, paths);
        }
        Ok((labels, next_label))
    }
}

} // verus!
