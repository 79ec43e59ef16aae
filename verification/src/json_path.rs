//! Reading and editing a JSON document by a dotted path.
//!
//! A path is dot-separated segments; empty segments are skipped. A segment
//! that reads as a whole number (`usize`) is an array index, anything else
//! an object key. Setting creates missing object members on the way down
//! (a `null` in the way becomes an object) but never creates or grows an
//! array. Deleting whose final segment, or any member on the way, is absent
//! is a no-op; a segment that meets the wrong kind of value is an error.
//! The document is read and written by `serde_json`.

use vstd::prelude::*;
use crate::text;

verus! {

/// A JSON value: numbers keep their JSON spelling; object members come
/// in the parser's order.
#[derive(Debug, PartialEq, Eq)]
pub enum JsonTree {
    Null,
    Bool(bool),
    Number(String),
    Str(String),
    Array(Vec<JsonTree>),
    Object(Vec<(String, JsonTree)>),
}

/// A JSON value as sequences.
pub enum JsonV {
    Null,
    Bool(bool),
    Number(Seq<char>),
    Str(Seq<char>),
    Array(Seq<JsonV>),
    Object(Seq<(Seq<char>, JsonV)>),
}

/// The value a tree holds.
pub open spec fn tree_v(t: JsonTree) -> JsonV
    decreases t,
{
    match t {
        JsonTree::Null => JsonV::Null,
        JsonTree::Bool(b) => JsonV::Bool(b),
        JsonTree::Number(s) => JsonV::Number(s@),
        JsonTree::Str(s) => JsonV::Str(s@),
        JsonTree::Array(v) => JsonV::Array(
            Seq::new(v@.len(), |i: int| if 0 <= i < v@.len() { tree_v(v@[i]) } else { JsonV::Null }),
        ),
        JsonTree::Object(m) => JsonV::Object(
            Seq::new(
                m@.len(),
                |i: int| if 0 <= i < m@.len() { (m@[i].0@, tree_v(m@[i].1)) } else { (Seq::empty(), JsonV::Null) },
            ),
        ),
    }
}

/// The values of a list of trees.
pub open spec fn arr_v(v: Seq<JsonTree>) -> Seq<JsonV> {
    Seq::new(v.len(), |i: int| tree_v(v[i]))
}

/// The members of a list of named trees.
pub open spec fn obj_v(m: Seq<(String, JsonTree)>) -> Seq<(Seq<char>, JsonV)> {
    Seq::new(m.len(), |i: int| (m[i].0@, tree_v(m[i].1)))
}

proof fn lemma_tree_v_array(v: Vec<JsonTree>)
    ensures
        tree_v(JsonTree::Array(v)) == JsonV::Array(arr_v(v@)),
{
    let t = tree_v(JsonTree::Array(v));
    let a = t->Array_0;
    assert(a =~= arr_v(v@));
}

proof fn lemma_tree_v_object(m: Vec<(String, JsonTree)>)
    ensures
        tree_v(JsonTree::Object(m)) == JsonV::Object(obj_v(m@)),
{
    let t = tree_v(JsonTree::Object(m));
    let a = t->Object_0;
    assert(a =~= obj_v(m@));
}

// ------------------------------------------------------------- paths

/// A path segment.
pub enum Seg {
    Key(String),
    Index(usize),
}

/// A path segment as a sequence or a number.
pub enum SegV {
    Key(Seq<char>),
    Index(int),
}

pub open spec fn seg_v(s: Seg) -> SegV {
    match s {
        Seg::Key(k) => SegV::Key(k@),
        Seg::Index(i) => SegV::Index(i as int),
    }
}

/// The pieces of `p` between dots (one more than there are dots).
pub open spec fn pieces(p: Seq<char>) -> Seq<Seq<char>>
    decreases p.len(),
{
    if p.len() == 0 {
        seq![Seq::empty()]
    } else if p.last() == '.' {
        pieces(p.drop_last()).push(Seq::empty())
    } else {
        let q = pieces(p.drop_last());
        q.update(q.len() - 1, q[q.len() - 1].push(p.last()))
    }
}

proof fn lemma_pieces_len(p: Seq<char>)
    ensures
        pieces(p).len() >= 1,
    decreases p.len(),
{
    if p.len() > 0 {
        lemma_pieces_len(p.drop_last());
    }
}

/// Whether `c` is an ASCII digit.
pub open spec fn is_digit(c: char) -> bool {
    '0' <= c && c <= '9'
}

/// The number the digits spell.
pub open spec fn digits_value(d: Seq<char>) -> int
    decreases d.len(),
{
    if d.len() == 0 { 0 } else { digits_value(d.drop_last()) * 10 + (d.last() as int - '0' as int) }
}

/// The digits of an unsigned number as `usize`'s parser takes them: an
/// optional `+`, then one or more digits.
pub open spec fn number_digits(s: Seq<char>) -> Option<Seq<char>> {
    let d = unsigned_part(s);
    if d.len() > 0 && all_digits(d) { Some(d) } else { None }
}

/// `s` without one leading `+`.
pub open spec fn unsigned_part(s: Seq<char>) -> Seq<char> {
    if s.len() > 0 && s[0] == '+' { s.drop_first() } else { s }
}

/// Whether every character is an ASCII digit.
pub open spec fn all_digits(d: Seq<char>) -> bool {
    forall|i: int| 0 <= i < d.len() ==> is_digit(#[trigger] d[i])
}

/// A piece as a segment: an index where it reads as a `usize`, else a key.
pub open spec fn seg_of(s: Seq<char>) -> SegV {
    match number_digits(s) {
        Some(d) => if digits_value(d) <= usize::MAX { SegV::Index(digits_value(d)) } else { SegV::Key(s) },
        None => SegV::Key(s),
    }
}

/// The segments of the first `k` pieces, empty pieces left out.
pub open spec fn segs_from(ps: Seq<Seq<char>>, k: int) -> Seq<SegV>
    decreases k,
{
    if k <= 0 {
        Seq::empty()
    } else if ps[k - 1].len() == 0 {
        segs_from(ps, k - 1)
    } else {
        segs_from(ps, k - 1).push(seg_of(ps[k - 1]))
    }
}

/// The segments of a dotted path.
pub open spec fn path_segs(p: Seq<char>) -> Seq<SegV> {
    segs_from(pieces(p), pieces(p).len() as int)
}

// ------------------------------------------------------------- edits

/// Where key `k` sits among the members, from `i` on.
pub open spec fn key_index(m: Seq<(Seq<char>, JsonV)>, k: Seq<char>, i: int) -> Option<int>
    decreases m.len() - i,
{
    if i < 0 || i >= m.len() {
        None
    } else if m[i].0 == k {
        Some(i)
    } else {
        key_index(m, k, i + 1)
    }
}

/// The value at segments `i..` of the path below `t`, if the path resolves.
pub open spec fn get_spec(t: JsonV, segs: Seq<SegV>, i: int) -> Option<JsonV>
    decreases segs.len() - i,
{
    if i < 0 || i >= segs.len() {
        Some(t)
    } else {
        match segs[i] {
            SegV::Key(k) => match t {
                JsonV::Object(m) => match key_index(m, k, 0) {
                    Some(j) => get_spec(m[j].1, segs, i + 1),
                    None => None,
                },
                _ => None,
            },
            SegV::Index(n) => match t {
                JsonV::Array(a) => if n < a.len() { get_spec(a[n], segs, i + 1) } else { None },
                _ => None,
            },
        }
    }
}

/// Members `m` with key `k` set to `c`: replaced in place, or added last.
pub open spec fn put(m: Seq<(Seq<char>, JsonV)>, k: Seq<char>, c: JsonV) -> Seq<(Seq<char>, JsonV)> {
    match key_index(m, k, 0) {
        Some(j) => m.update(j, (k, c)),
        None => m.push((k, c)),
    }
}

/// `t` with the value at segments `i..` set to `v`: missing members are
/// created (a `null` in the way becomes an object); an array is indexed
/// only within its length. `None` where the path meets the wrong kind of
/// value or an index past an array's end.
pub open spec fn set_spec(t: JsonV, segs: Seq<SegV>, i: int, v: JsonV) -> Option<JsonV>
    decreases segs.len() - i,
{
    if i < 0 || i >= segs.len() {
        Some(v)
    } else {
        match segs[i] {
            SegV::Key(k) => {
                let mm: Option<Seq<(Seq<char>, JsonV)>> = match t {
                    JsonV::Null => Some(Seq::empty()),
                    JsonV::Object(m) => Some(m),
                    _ => None,
                };
                match mm {
                    None => None,
                    Some(m) => {
                        let child = match key_index(m, k, 0) {
                            Some(j) => m[j].1,
                            None => JsonV::Null,
                        };
                        match set_spec(child, segs, i + 1, v) {
                            Some(c) => Some(JsonV::Object(put(m, k, c))),
                            None => None,
                        }
                    },
                }
            },
            SegV::Index(n) => match t {
                JsonV::Array(a) => if 0 <= n < a.len() {
                    match set_spec(a[n], segs, i + 1, v) {
                        Some(c) => Some(JsonV::Array(a.update(n, c))),
                        None => None,
                    }
                } else {
                    None
                },
                _ => None,
            },
        }
    }
}

/// `t` with the member or element at segments `i..` removed. An absent
/// final member or element, or an absent one on the way, leaves `t` as it
/// is; `None` where a segment meets the wrong kind of value.
pub open spec fn delete_spec(t: JsonV, segs: Seq<SegV>, i: int) -> Option<JsonV>
    decreases segs.len() - i,
{
    if i < 0 || i >= segs.len() {
        Some(t)
    } else if i + 1 == segs.len() {
        match segs[i] {
            SegV::Key(k) => match t {
                JsonV::Object(m) => match key_index(m, k, 0) {
                    Some(j) => Some(JsonV::Object(m.remove(j))),
                    None => Some(t),
                },
                _ => None,
            },
            SegV::Index(n) => match t {
                JsonV::Array(a) => if 0 <= n < a.len() { Some(JsonV::Array(a.remove(n))) } else { Some(t) },
                _ => None,
            },
        }
    } else {
        match segs[i] {
            SegV::Key(k) => match t {
                JsonV::Object(m) => match key_index(m, k, 0) {
                    Some(j) => match delete_spec(m[j].1, segs, i + 1) {
                        Some(c) => Some(JsonV::Object(m.update(j, (k, c)))),
                        None => None,
                    },
                    None => Some(t),
                },
                _ => None,
            },
            SegV::Index(n) => match t {
                JsonV::Array(a) => if 0 <= n < a.len() {
                    match delete_spec(a[n], segs, i + 1) {
                        Some(c) => Some(JsonV::Array(a.update(n, c))),
                        None => None,
                    }
                } else {
                    Some(t)
                },
                _ => None,
            },
        }
    }
}


/// Replacing the member that lookup finds keeps lookup finding it.
proof fn lemma_key_index_update(m: Seq<(Seq<char>, JsonV)>, k: Seq<char>, c: JsonV, j: int, i: int)
    requires
        0 <= i <= j < m.len(),
        key_index(m, k, i) == Some(j),
    ensures
        key_index(m.update(j, (k, c)), k, i) == Some(j),
    decreases j - i,
{
    if i < j {
        lemma_key_index_update(m, k, c, j, i + 1);
    }
}

proof fn lemma_key_index_push(m: Seq<(Seq<char>, JsonV)>, k: Seq<char>, c: JsonV, i: int)
    requires
        0 <= i <= m.len(),
        key_index(m, k, i) is None,
    ensures
        key_index(m.push((k, c)), k, i) == Some(m.len() as int),
    decreases m.len() - i,
{
    if i < m.len() {
        lemma_key_index_push(m, k, c, i + 1);
    }
}

/// `put` leaves the key findable, holding the new value.
proof fn lemma_put_finds(m: Seq<(Seq<char>, JsonV)>, k: Seq<char>, c: JsonV)
    ensures
        key_index(put(m, k, c), k, 0) matches Some(j) && 0 <= j < put(m, k, c).len() && put(m, k, c)[j].1 == c,
{
    match key_index(m, k, 0) {
        Some(j) => {
            lemma_key_index_range(m, k, 0);
            lemma_key_index_update(m, k, c, j, 0);
        },
        None => {
            lemma_key_index_push(m, k, c, 0);
        },
    }
}

/// Reading a path back after setting it gives the value set.
pub proof fn lemma_get_after_set(t: JsonV, segs: Seq<SegV>, i: int, v: JsonV)
    requires
        0 <= i,
        set_spec(t, segs, i, v) is Some,
    ensures
        get_spec(set_spec(t, segs, i, v).unwrap(), segs, i) == Some(v),
    decreases segs.len() - i,
{
    if i < segs.len() {
        match segs[i] {
            SegV::Key(k) => {
                let m = match t {
                    JsonV::Null => Seq::empty(),
                    JsonV::Object(m) => m,
                    _ => Seq::empty(),
                };
                let child = match key_index(m, k, 0) {
                    Some(j) => m[j].1,
                    None => JsonV::Null,
                };
                let c = set_spec(child, segs, i + 1, v).unwrap();
                lemma_get_after_set(child, segs, i + 1, v);
                lemma_put_finds(m, k, c);
            },
            SegV::Index(n) => {
                let a = t->Array_0;
                lemma_get_after_set(a[n], segs, i + 1, v);
            },
        }
    }
}

/// `v` with member `k` or element `n` taken out (`s` naming it); `v`
/// itself when there is no such member or element.
pub open spec fn without(v: JsonV, s: SegV) -> JsonV {
    match s {
        SegV::Key(k) => match v {
            JsonV::Object(m) => match key_index(m, k, 0) {
                Some(j) => JsonV::Object(m.remove(j)),
                None => v,
            },
            _ => v,
        },
        SegV::Index(n) => match v {
            JsonV::Array(a) => if 0 <= n < a.len() { JsonV::Array(a.remove(n)) } else { v },
            _ => v,
        },
    }
}

/// Whether `s` can be taken out of `v`: a key from an object, an index
/// from an array.
pub open spec fn holds_kind(v: JsonV, s: SegV) -> bool {
    match s {
        SegV::Key(_) => v is Object,
        SegV::Index(_) => v is Array,
    }
}

/// Deleting a path only changes the value its last segment sits in:
/// where the path without its last segment leads to an object (for a
/// key) or an array (for an index), the deletion succeeds and that same
/// path then leads to the value with the member or element taken out --
/// nothing above it is removed or replaced.
pub proof fn lemma_delete_takes_out_last(t: JsonV, segs: Seq<SegV>, i: int, v: JsonV)
    requires
        segs.len() >= 1,
        0 <= i <= segs.len() - 1,
        forall|j: int| 0 <= j < segs.len() ==> (#[trigger] segs[j] matches SegV::Index(n) ==> n >= 0),
        get_spec(t, segs.take(segs.len() - 1), i) == Some(v),
        holds_kind(v, segs.last()),
    ensures
        delete_spec(t, segs, i) matches Some(d) && get_spec(d, segs.take(segs.len() - 1), i) == Some(
            without(v, segs.last()),
        ),
    decreases segs.len() - i,
{
    let p = segs.take(segs.len() - 1);
    if i == segs.len() - 1 {
        assert(v == t);
    } else {
        assert(p[i] == segs[i]);
        match segs[i] {
            SegV::Key(k) => {
                let m = t->Object_0;
                let j = key_index(m, k, 0).unwrap();
                lemma_key_index_range(m, k, 0);
                lemma_delete_takes_out_last(m[j].1, segs, i + 1, v);
                let c = delete_spec(m[j].1, segs, i + 1).unwrap();
                lemma_key_index_update(m, k, c, j, 0);
                assert(m.update(j, (k, c))[j].1 == c);
            },
            SegV::Index(n) => {
                let a = t->Array_0;
                assert(n >= 0);
                lemma_delete_takes_out_last(a[n], segs, i + 1, v);
                let c = delete_spec(a[n], segs, i + 1).unwrap();
                assert(a.update(n, c)[n] == c);
            },
        }
    }
}

/// Replacing the member with key `k` leaves lookup of any other key alone.
proof fn lemma_key_index_update_other(m: Seq<(Seq<char>, JsonV)>, k: Seq<char>, c: JsonV, j0: int, k2: Seq<char>, i: int)
    requires
        0 <= j0 < m.len(),
        m[j0].0 == k,
        k2 != k,
        0 <= i,
    ensures
        key_index(m.update(j0, (k, c)), k2, i) == key_index(m, k2, i),
    decreases m.len() - i,
{
    if i < m.len() {
        lemma_key_index_update_other(m, k, c, j0, k2, i + 1);
    }
}

/// Past the removed member, lookup in what is left is lookup in the
/// original one place further on.
proof fn lemma_key_index_after_remove(m: Seq<(Seq<char>, JsonV)>, j0: int, k2: Seq<char>, i: int)
    requires
        0 <= j0 < m.len(),
        j0 <= i,
    ensures
        match key_index(m, k2, i + 1) {
            Some(x) => key_index(m.remove(j0), k2, i) == Some(x - 1),
            None => key_index(m.remove(j0), k2, i) is None,
        },
    decreases m.len() - i,
{
    lemma_key_index_range(m, k2, i + 1);
    if i + 1 < m.len() {
        assert(m.remove(j0)[i] == m[i + 1]);
        lemma_key_index_after_remove(m, j0, k2, i + 1);
    }
}

/// Removing the member with key `k` leaves the member found for any other
/// key in place.
proof fn lemma_key_index_remove_other(m: Seq<(Seq<char>, JsonV)>, j0: int, k2: Seq<char>, i: int)
    requires
        0 <= j0 < m.len(),
        m[j0].0 != k2,
        0 <= i <= j0,
    ensures
        match key_index(m, k2, i) {
            Some(x) => key_index(m.remove(j0), k2, i) matches Some(y) && 0 <= y < m.remove(j0).len()
                && m.remove(j0)[y] == m[x],
            None => key_index(m.remove(j0), k2, i) is None,
        },
    decreases j0 - i,
{
    lemma_key_index_range(m, k2, i);
    if i < j0 {
        assert(m.remove(j0)[i] == m[i]);
        lemma_key_index_remove_other(m, j0, k2, i + 1);
    } else {
        lemma_key_index_after_remove(m, j0, k2, j0);
        lemma_key_index_range(m, k2, j0 + 1);
        if let Some(x) = key_index(m, k2, j0 + 1) {
            assert(m.remove(j0)[x - 1] == m[x]);
        }
    }
}

/// Whether path `q` leaves path `segs` at segment `j`: they agree before
/// it and differ there, and (at `segs`' last segment) both are keys, so
/// `q` names a sibling member of the one deleted.
pub open spec fn branches_off(q: Seq<SegV>, segs: Seq<SegV>, j: int) -> bool {
    &&& 0 <= j < q.len()
    &&& j < segs.len()
    &&& forall|i: int| 0 <= i < j ==> #[trigger] q[i] == segs[i]
    &&& q[j] != segs[j]
    &&& j == segs.len() - 1 ==> (q[j] is Key && segs[j] is Key)
}

/// Deleting a path leaves every value off that path where it was: a path
/// that branches off the deleted one (before its last segment, or at a
/// sibling key) reads the same value after the deletion as before.
pub proof fn lemma_delete_keeps_other_paths(t: JsonV, segs: Seq<SegV>, q: Seq<SegV>, i: int, j: int, w: JsonV)
    requires
        0 <= i <= j,
        branches_off(q, segs, j),
        forall|k: int| 0 <= k < segs.len() ==> (#[trigger] segs[k] matches SegV::Index(n) ==> n >= 0),
        forall|k: int| 0 <= k < q.len() ==> (#[trigger] q[k] matches SegV::Index(n) ==> n >= 0),
        get_spec(t, q, i) == Some(w),
        delete_spec(t, segs, i) is Some,
    ensures
        get_spec(delete_spec(t, segs, i).unwrap(), q, i) == Some(w),
    decreases j - i,
{
    let d = delete_spec(t, segs, i).unwrap();
    if i < j {
        assert(q[i] == segs[i]);
        match segs[i] {
            SegV::Key(k) => {
                let m = t->Object_0;
                let x = key_index(m, k, 0).unwrap();
                lemma_key_index_range(m, k, 0);
                lemma_delete_keeps_other_paths(m[x].1, segs, q, i + 1, j, w);
                let c = delete_spec(m[x].1, segs, i + 1).unwrap();
                lemma_key_index_update(m, k, c, x, 0);
            },
            SegV::Index(n) => {
                let a = t->Array_0;
                assert(q[i] matches SegV::Index(n2) && n2 >= 0);
                lemma_delete_keeps_other_paths(a[n], segs, q, i + 1, j, w);
            },
        }
    } else if i + 1 == segs.len() {
        let k = segs[i]->Key_0;
        let k2 = q[i]->Key_0;
        let m = t->Object_0;
        match key_index(m, k, 0) {
            Some(x) => {
                lemma_key_index_range(m, k, 0);
                lemma_key_index_remove_other(m, x, k2, 0);
                lemma_key_index_range(m, k2, 0);
            },
            None => {},
        }
    } else {
        match segs[i] {
            SegV::Key(k) => {
                match t {
                    JsonV::Object(m) => {
                        match key_index(m, k, 0) {
                            Some(x) => {
                                lemma_key_index_range(m, k, 0);
                                let c = delete_spec(m[x].1, segs, i + 1).unwrap();
                                let k2 = q[i]->Key_0;
                                lemma_key_index_update_other(m, k, c, x, k2, 0);
                                lemma_key_index_range(m, k2, 0);
                            },
                            None => {},
                        }
                    },
                    _ => {},
                }
            },
            SegV::Index(n) => {
                match t {
                    JsonV::Array(a) => {},
                    _ => {},
                }
            },
        }
    }
}

// ------------------------------------------------------------- serde_json

#[verifier::external_type_specification]
#[verifier::external_body]
pub struct ExJsonValue(serde_json::Value);

/// What `serde_json::from_str` reads `text` as, taken one for one (a
/// number by its `Display` text, object members in the map's order);
/// `None` where it refuses the text.
pub uninterp spec fn json_doc(text: Seq<char>) -> Option<JsonV>;

/// What `serde_json::Value`'s `Display` writes for a value.
pub uninterp spec fn json_text(v: JsonV) -> Seq<char>;

/// `serde_json::Value` as a tree, one for one (used by `json_parse`).
#[verifier::external_body]
fn tree_of(v: &serde_json::Value) -> JsonTree {
    match v {
        serde_json::Value::Null => JsonTree::Null,
        serde_json::Value::Bool(b) => JsonTree::Bool(*b),
        serde_json::Value::Number(n) => JsonTree::Number(n.to_string()),
        serde_json::Value::String(t) => JsonTree::Str(t.clone()),
        serde_json::Value::Array(a) => JsonTree::Array(a.iter().map(tree_of).collect()),
        serde_json::Value::Object(m) => JsonTree::Object(m.iter().map(|(k, x)| (k.clone(), tree_of(x))).collect()),
    }
}

/// A tree as `serde_json::Value`, one for one (used by `json_render`); a
/// number whose text `serde_json::Number` refuses becomes `null`.
#[verifier::external_body]
fn serde_of(t: &JsonTree) -> serde_json::Value {
    match t {
        JsonTree::Null => serde_json::Value::Null,
        JsonTree::Bool(b) => serde_json::Value::Bool(*b),
        JsonTree::Number(n) => n.parse::<serde_json::Number>().map(serde_json::Value::Number).unwrap_or(serde_json::Value::Null),
        JsonTree::Str(x) => serde_json::Value::String(x.clone()),
        JsonTree::Array(a) => serde_json::Value::Array(a.iter().map(serde_of).collect()),
        JsonTree::Object(m) => serde_json::Value::Object(m.iter().map(|(k, x)| (k.clone(), serde_of(x))).collect()),
    }
}

/// Parses JSON text with `serde_json::from_str`. Claimed: the outcome
/// depends on the text alone.
#[verifier::external_body]
fn json_parse(text: &str) -> (r: Result<JsonTree, String>)
    ensures
        match r {
            Ok(t) => json_doc(text@) == Some(tree_v(t)),
            Err(_) => json_doc(text@) is None,
        },
{
    match serde_json::from_str::<serde_json::Value>(text) {
        Ok(v) => Ok(tree_of(&v)),
        Err(err) => Err(format!("not valid JSON: {err}")),
    }
}

/// Writes a tree as compact JSON with `serde_json::Value`'s `Display`.
/// Claimed: the text depends on the tree's value alone.
#[verifier::external_body]
fn json_render(t: &JsonTree) -> (s: String)
    ensures
        s@ == json_text(tree_v(*t)),
{
    serde_of(t).to_string()
}

// ------------------------------------------------------------- exec

proof fn lemma_digits_grow(d: Seq<char>, j: int)
    requires
        0 <= j <= d.len(),
        forall|i: int| 0 <= i < d.len() ==> is_digit(#[trigger] d[i]),
    ensures
        digits_value(d.take(j)) <= digits_value(d),
        digits_value(d.take(j)) >= 0,
    decreases d.len() - j,
{
    if j < d.len() {
        lemma_digits_grow(d, j + 1);
        assert(d.take(j + 1).drop_last() =~= d.take(j));
        assert(is_digit(d[j]));
    } else {
        assert(d.take(j) =~= d);
        lemma_digits_nonneg(d);
    }
}

proof fn lemma_digits_nonneg(d: Seq<char>)
    requires
        forall|i: int| 0 <= i < d.len() ==> is_digit(#[trigger] d[i]),
    ensures
        digits_value(d) >= 0,
    decreases d.len(),
{
    if d.len() > 0 {
        lemma_digits_nonneg(d.drop_last());
        assert(is_digit(d[d.len() - 1]));
    }
}

proof fn lemma_not_number(s: Seq<char>, bad: int)
    requires
        0 <= bad < unsigned_part(s).len(),
        !is_digit(unsigned_part(s)[bad]),
    ensures
        number_digits(s) is None,
{
}

/// A piece as a segment (see `seg_of`).
fn seg_of_exec(p: &Vec<char>) -> (r: Seg)
    ensures
        seg_v(r) == seg_of(p@),
{
    let start: usize = if p.len() > 0 && p[0] == '+' { 1 } else { 0 };
    let ghost d = unsigned_part(p@);
    assert(d =~= p@.subrange(start as int, p@.len() as int));
    if start >= p.len() {
        assert(d.len() == 0);
        assert(number_digits(p@) is None);
        let key = crate::color::string_of(p);
        assert(seg_v(Seg::Key(key)) == SegV::Key(p@));
        return Seg::Key(key);
    }
    let mut value: usize = 0;
    let mut k: usize = start;
    let mut overflow = false;
    while k < p.len()
        invariant
            start <= k <= p@.len(),
            d == unsigned_part(p@),
            d == p@.subrange(start as int, p@.len() as int),
            forall|i: int| start <= i < k ==> is_digit(#[trigger] p@[i]),
            !overflow ==> value == digits_value(d.take(k - start)),
            overflow ==> digits_value(d.take(k - start)) > usize::MAX,
        decreases p@.len() - k,
    {
        let c = p[k];
        if !('0' <= c && c <= '9') {
            let ghost bad = (k - start) as int;
            assert(0 <= bad < d.len());
            assert(d[bad] == c);
            assert(!is_digit(d[bad]));
            proof { lemma_not_number(p@, bad); }
            let key = crate::color::string_of(p);
            assert(seg_v(Seg::Key(key)) == SegV::Key(p@));
            return Seg::Key(key);
        }
        let dv = (c as u32 - '0' as u32) as usize;
        proof {
            assert(d.take(k + 1 - start).drop_last() =~= d.take(k - start));
            assert(d.take(k + 1 - start).last() == c);
            assert forall|i: int| 0 <= i < d.take(k - start).len() implies is_digit(#[trigger] d.take(k - start)[i]) by {
                assert(d.take(k - start)[i] == p@[start + i]);
            }
            lemma_digits_nonneg(d.take(k - start));
        }
        if !overflow {
            match value.checked_mul(10) {
                Some(t) => match t.checked_add(dv) {
                    Some(u) => {
                        value = u;
                    },
                    None => {
                        overflow = true;
                    },
                },
                None => {
                    overflow = true;
                    assert(digits_value(d.take(k - start)) * 10 + dv > usize::MAX) by (nonlinear_arith)
                        requires
                            digits_value(d.take(k - start)) * 10 > usize::MAX,
                            dv >= 0,
                    ;
                },
            }
        } else {
            assert(digits_value(d.take(k - start)) * 10 + dv > usize::MAX) by (nonlinear_arith)
                requires
                    digits_value(d.take(k - start)) > usize::MAX,
                    dv >= 0,
            ;
        }
        k += 1;
    }
    proof {
        assert(d.take(d.len() as int) =~= d);
        assert forall|i: int| 0 <= i < d.len() implies is_digit(#[trigger] d[i]) by {
            assert(d[i] == p@[start + i]);
        }
        assert(number_digits(p@) == Some(d));
    }
    if overflow {
        Seg::Key(crate::color::string_of(p))
    } else {
        Seg::Index(value)
    }
}

/// The contents of a list of character buffers.
pub open spec fn char_views(v: Seq<Vec<char>>) -> Seq<Seq<char>> {
    Seq::new(v.len(), |i: int| v[i]@)
}

/// A dotted path's segments (see `path_segs`).
fn split_path(path: &str) -> (r: Vec<Seg>)
    ensures
        r@.len() == path_segs(path@).len(),
        forall|i: int| 0 <= i < r@.len() ==> seg_v(#[trigger] r@[i]) == path_segs(path@)[i],
{
    let cs = crate::text_codec::chars_of(path);
    let mut ps: Vec<Vec<char>> = Vec::new();
    ps.push(Vec::new());
    let mut i: usize = 0;
    proof {
        assert(cs@.take(0) =~= Seq::<char>::empty());
        assert(char_views(ps@) =~= pieces(cs@.take(0)));
    }
    while i < cs.len()
        invariant
            i <= cs@.len(),
            cs@ == path@,
            char_views(ps@) == pieces(cs@.take(i as int)),
            ps@.len() >= 1,
        decreases cs@.len() - i,
    {
        let c = cs[i];
        let ghost before = char_views(ps@);
        proof {
            assert(cs@.take(i + 1).drop_last() =~= cs@.take(i as int));
            assert(cs@.take(i + 1).last() == c);
        }
        if c == '.' {
            ps.push(Vec::new());
            proof {
                assert(char_views(ps@) =~= before.push(Seq::empty()));
            }
        } else {
            let mut last = ps.pop().unwrap();
            last.push(c);
            ps.push(last);
            proof {
                assert(char_views(ps@) =~= before.update(before.len() - 1, before[before.len() - 1].push(c)));
            }
        }
        i += 1;
    }
    assert(cs@.take(cs@.len() as int) =~= cs@);
    let ghost pv = pieces(path@);
    let mut out: Vec<Seg> = Vec::new();
    let mut k: usize = 0;
    while k < ps.len()
        invariant
            k <= ps@.len(),
            char_views(ps@) == pv,
            pv == pieces(path@),
            out@.len() == segs_from(pv, k as int).len(),
            forall|j: int| 0 <= j < out@.len() ==> seg_v(#[trigger] out@[j]) == segs_from(pv, k as int)[j],
        decreases ps@.len() - k,
    {
        assert(pv[k as int] == ps@[k as int]@);
        if ps[k].len() > 0 {
            let sg = seg_of_exec(&ps[k]);
            out.push(sg);
        }
        k += 1;
    }
    out
}

/// Where key `k` sits among the members.
fn find_key(m: &Vec<(String, JsonTree)>, k: &String) -> (r: Option<usize>)
    ensures
        match key_index(obj_v(m@), k@, 0) {
            Some(j) => r == Some(j as usize),
            None => r is None,
        },
{
    let mut j: usize = 0;
    while j < m.len()
        invariant
            j <= m@.len(),
            key_index(obj_v(m@), k@, 0) == key_index(obj_v(m@), k@, j as int),
        decreases m@.len() - j,
    {
        if m[j].0 == *k {
            return Some(j);
        }
        j += 1;
    }
    None
}

proof fn lemma_key_index_range(m: Seq<(Seq<char>, JsonV)>, k: Seq<char>, i: int)
    requires
        0 <= i,
    ensures
        key_index(m, k, i) matches Some(j) ==> i <= j < m.len() && m[j].0 == k,
    decreases m.len() - i,
{
    if i < m.len() && m[i].0 != k {
        lemma_key_index_range(m, k, i + 1);
    }
}

/// The value at `path` in the JSON document `doc`. A segment that meets
/// the wrong kind of value, a missing key or an index past an array's end
/// is an error, as is text that is not JSON.
pub fn json_get(doc: &str, path: &str) -> (r: Result<JsonTree, String>)
    ensures
        match json_doc(doc@) {
            None => r is Err,
            Some(t) => match get_spec(t, path_segs(path@), 0) {
                Some(x) => r matches Ok(y) && tree_v(y) == x,
                None => r is Err,
            },
        },
{
    let mut cur = match json_parse(doc) {
        Ok(t) => t,
        Err(m) => {
            return Err(text::with_text("json_get: ", m.as_str(), ""));
        },
    };
    let segs = split_path(path);
    let ghost sv = path_segs(path@);
    let ghost t0 = tree_v(cur);
    let mut i: usize = 0;
    while i < segs.len()
        invariant
            i <= segs@.len(),
            segs@.len() == sv.len(),
            forall|j: int| 0 <= j < segs@.len() ==> seg_v(#[trigger] segs@[j]) == sv[j],
            get_spec(t0, sv, 0) == get_spec(tree_v(cur), sv, i as int),
            json_doc(doc@) == Some(t0),
            sv == path_segs(path@),
        decreases segs@.len() - i,
    {
        assert(seg_v(segs@[i as int]) == sv[i as int]);
        cur = match &segs[i] {
            Seg::Key(k) => match cur {
                JsonTree::Object(mut m) => {
                    proof {
                        lemma_tree_v_object(m);
                        lemma_key_index_range(obj_v(m@), k@, 0);
                    }
                    let ghost mv = obj_v(m@);
                    let ghost cv = tree_v(JsonTree::Object(m));
                    let mlen = m.len();
                    match find_key(&m, k) {
                        Some(j) => {
                            proof {
                                match key_index(mv, k@, 0) {
                                    Some(jj) => {
                                        assert(jj < m@.len());
                                        assert(j == jj as usize);
                                        assert(j as int == jj);
                                    },
                                    None => {},
                                }
                                assert(key_index(mv, k@, 0) == Some(j as int));
                            }
                            let (_, c) = m.remove(j);
                            assert(tree_v(c) == mv[j as int].1);
                            assert(sv[i as int] == SegV::Key(k@));
                            assert(cv == JsonV::Object(mv));
                            assert(key_index(mv, k@, 0) == Some(j as int));
                            assert(get_spec(cv, sv, i as int) == get_spec(tree_v(c), sv, i + 1));
                            c
                        },
                        None => {
                            let a = text::with_text("json_get: `", path, "` -- no key `");
                            return Err(text::with_text(a.as_str(), k.as_str(), "`"));
                        },
                    }
                },
                _ => {
                    let a = text::with_text("json_get: `", path, "` -- not an object where key `");
                    return Err(text::with_text(a.as_str(), k.as_str(), "` is asked for"));
                },
            },
            Seg::Index(n) => match cur {
                JsonTree::Array(mut a) => {
                    proof {
                        lemma_tree_v_array(a);
                    }
                    let ghost av = arr_v(a@);
                    let ghost cv = tree_v(JsonTree::Array(a));
                    if *n < a.len() {
                        let c = a.remove(*n);
                        assert(tree_v(c) == av[*n as int]);
                        assert(get_spec(cv, sv, i as int) == get_spec(tree_v(c), sv, i + 1));
                        c
                    } else {
                        assert(get_spec(tree_v(JsonTree::Array(a)), sv, i as int) is None);
                        let b = text::with_text("json_get: `", path, "` -- index ");
                        return Err(text::with_number(b.as_str(), *n as u64, " is out of range"));
                    }
                },
                _ => {
                    let b = text::with_text("json_get: `", path, "` -- not an array where index ");
                    return Err(text::with_number(b.as_str(), *n as u64, " is asked for"));
                },
            },
        };
        i += 1;
    }
    Ok(cur)
}


/// The message for a path segment that does not fit the document.
fn path_error(who: &str, path: &str, what: &str) -> String {
    let a = text::with_text(who, path, "` -- ");
    text::with_text(a.as_str(), what, "")
}

/// `t` with the value at segments `i..` set to `v` (see `set_spec`).
fn set_in(t: JsonTree, segs: &Vec<Seg>, i: usize, v: JsonTree, path: &str) -> (r: Result<JsonTree, String>)
    requires
        i <= segs@.len(),
    ensures
        match set_spec(tree_v(t), segs@.map_values(|s: Seg| seg_v(s)), i as int, tree_v(v)) {
            Some(x) => r matches Ok(y) && tree_v(y) == x,
            None => r is Err,
        },
    decreases segs@.len() - i,
{
    let ghost sv = segs@.map_values(|s: Seg| seg_v(s));
    if i == segs.len() {
        return Ok(v);
    }
    assert(sv[i as int] == seg_v(segs@[i as int]));
    match &segs[i] {
        Seg::Key(k) => {
            let ghost tv = tree_v(t);
            let mut m: Vec<(String, JsonTree)> = match t {
                JsonTree::Null => Vec::new(),
                JsonTree::Object(m) => {
                    proof {
                        lemma_tree_v_object(m);
                    }
                    m
                },
                _ => {
                    return Err(path_error("json_set: `", path, "a key is asked of a value that is not an object"));
                },
            };
            let ghost mv = obj_v(m@);
            assert(mv =~= match tv { JsonV::Object(mm) => mm, _ => Seq::empty() });
            let mlen = m.len();
            proof {
                lemma_key_index_range(mv, k@, 0);
            }
            match find_key(&m, k) {
                Some(j) => {
                    proof {
                        match key_index(mv, k@, 0) {
                            Some(jj) => {
                                assert(jj < mlen);
                            },
                            None => {},
                        }
                    }
                    let (kk, c) = m.remove(j);
                    assert(tree_v(c) == mv[j as int].1);
                    let nc = set_in(c, segs, i + 1, v, path)?;
                    let ghost ncv = tree_v(nc);
                    m.insert(j, (kk, nc));
                    proof {
                        assert(kk@ == k@);
                        assert(obj_v(m@) =~= mv.update(j as int, (k@, ncv)));
                        lemma_tree_v_object(m);
                    }
                    Ok(JsonTree::Object(m))
                },
                None => {
                    let nc = set_in(JsonTree::Null, segs, i + 1, v, path)?;
                    let ghost ncv = tree_v(nc);
                    m.push((k.clone(), nc));
                    proof {
                        assert(obj_v(m@) =~= mv.push((k@, ncv)));
                        lemma_tree_v_object(m);
                    }
                    Ok(JsonTree::Object(m))
                },
            }
        },
        Seg::Index(n) => match t {
            JsonTree::Array(mut a) => {
                proof {
                    lemma_tree_v_array(a);
                }
                let ghost av = arr_v(a@);
                if *n < a.len() {
                    let c = a.remove(*n);
                    assert(tree_v(c) == av[*n as int]);
                    let nc = set_in(c, segs, i + 1, v, path)?;
                    let ghost ncv = tree_v(nc);
                    a.insert(*n, nc);
                    proof {
                        assert(arr_v(a@) =~= av.update(*n as int, ncv));
                        lemma_tree_v_array(a);
                    }
                    Ok(JsonTree::Array(a))
                } else {
                    Err(path_error("json_set: `", path, "an index is past the array's end -- json_set does not grow arrays"))
                }
            },
            _ => Err(path_error("json_set: `", path, "an index is asked of a value that is not an array -- json_set does not create or grow arrays, only objects")),
        },
    }
}

/// `t` with the member or element at segments `i..` removed (see
/// `delete_spec`).
fn delete_in(t: JsonTree, segs: &Vec<Seg>, i: usize, path: &str) -> (r: Result<JsonTree, String>)
    requires
        i < segs@.len(),
    ensures
        match delete_spec(tree_v(t), segs@.map_values(|s: Seg| seg_v(s)), i as int) {
            Some(x) => r matches Ok(y) && tree_v(y) == x,
            None => r is Err,
        },
    decreases segs@.len() - i,
{
    let ghost sv = segs@.map_values(|s: Seg| seg_v(s));
    assert(sv[i as int] == seg_v(segs@[i as int]));
    let last = i == segs.len() - 1;
    match &segs[i] {
        Seg::Key(k) => match t {
            JsonTree::Object(mut m) => {
                proof {
                    lemma_tree_v_object(m);
                }
                let ghost mv = obj_v(m@);
                let ghost tv = tree_v(JsonTree::Object(m));
                let mlen = m.len();
                proof {
                    lemma_key_index_range(mv, k@, 0);
                }
                match find_key(&m, k) {
                    Some(j) => {
                        proof {
                            match key_index(mv, k@, 0) {
                                Some(jj) => {
                                    assert(jj < mlen);
                                },
                                None => {},
                            }
                        }
                        let (kk, c) = m.remove(j);
                        if last {
                            proof {
                                assert(obj_v(m@) =~= mv.remove(j as int));
                                lemma_tree_v_object(m);
                            }
                            Ok(JsonTree::Object(m))
                        } else {
                            assert(tree_v(c) == mv[j as int].1);
                            let nc = delete_in(c, segs, i + 1, path)?;
                            let ghost ncv = tree_v(nc);
                            m.insert(j, (kk, nc));
                            proof {
                                assert(kk@ == k@);
                                assert(obj_v(m@) =~= mv.update(j as int, (k@, ncv)));
                                lemma_tree_v_object(m);
                            }
                            Ok(JsonTree::Object(m))
                        }
                    },
                    None => Ok(JsonTree::Object(m)),
                }
            },
            _ => Err(path_error("json_delete: `", path, "a key is asked of a value that is not an object")),
        },
        Seg::Index(n) => match t {
            JsonTree::Array(mut a) => {
                proof {
                    lemma_tree_v_array(a);
                }
                let ghost av = arr_v(a@);
                if *n < a.len() {
                    let c = a.remove(*n);
                    if last {
                        proof {
                            assert(arr_v(a@) =~= av.remove(*n as int));
                            lemma_tree_v_array(a);
                        }
                        Ok(JsonTree::Array(a))
                    } else {
                        assert(tree_v(c) == av[*n as int]);
                        let nc = delete_in(c, segs, i + 1, path)?;
                        let ghost ncv = tree_v(nc);
                        a.insert(*n, nc);
                        proof {
                            assert(arr_v(a@) =~= av.update(*n as int, ncv));
                            lemma_tree_v_array(a);
                        }
                        Ok(JsonTree::Array(a))
                    }
                } else {
                    Ok(JsonTree::Array(a))
                }
            },
            _ => Err(path_error("json_delete: `", path, "an index is asked of a value that is not an array")),
        },
    }
}

/// The JSON document `doc` with the value at `path` set to `v`, written
/// back as compact JSON (see `set_spec`). An empty path is an error, as
/// is text that is not JSON.
pub fn json_set(doc: &str, path: &str, v: JsonTree) -> (r: Result<String, String>)
    ensures
        path_segs(path@).len() == 0 ==> r is Err,
        path_segs(path@).len() > 0 ==> match json_doc(doc@) {
            None => r is Err,
            Some(t) => match set_spec(t, path_segs(path@), 0, tree_v(v)) {
                Some(x) => r matches Ok(s) && s@ == json_text(x),
                None => r is Err,
            },
        },
{
    let root = match json_parse(doc) {
        Ok(t) => t,
        Err(m) => {
            return Err(text::with_text("json_set: ", m.as_str(), ""));
        },
    };
    let segs = split_path(path);
    if segs.len() == 0 {
        return Err(text::owned("json_set: the path is empty"));
    }
    proof {
        assert(segs@.map_values(|s: Seg| seg_v(s)) =~= path_segs(path@));
    }
    let t = set_in(root, &segs, 0, v, path)?;
    Ok(json_render(&t))
}

/// The JSON document `doc` with the member or element at `path` removed,
/// written back as compact JSON (see `delete_spec`): removing what is not
/// there changes nothing. An empty path is an error, as is text that is
/// not JSON.
pub fn json_delete(doc: &str, path: &str) -> (r: Result<String, String>)
    ensures
        path_segs(path@).len() == 0 ==> r is Err,
        path_segs(path@).len() > 0 ==> match json_doc(doc@) {
            None => r is Err,
            Some(t) => match delete_spec(t, path_segs(path@), 0) {
                Some(x) => r matches Ok(s) && s@ == json_text(x),
                None => r is Err,
            },
        },
{
    let root = match json_parse(doc) {
        Ok(t) => t,
        Err(m) => {
            return Err(text::with_text("json_delete: ", m.as_str(), ""));
        },
    };
    let segs = split_path(path);
    if segs.len() == 0 {
        return Err(text::owned("json_delete: the path is empty"));
    }
    proof {
        assert(segs@.map_values(|s: Seg| seg_v(s)) =~= path_segs(path@));
    }
    let t = delete_in(root, &segs, 0, path)?;
    Ok(json_render(&t))
}

} // verus!
