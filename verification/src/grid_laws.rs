//! Laws of the uniform-grid broadphase: for every grid, cells at the edge of the `i32` range
//! included, every candidate pair and every neighbourhood point is reported exactly once, and
//! the reporting order depends only on the buckets.

use crate::grid::{
    bucket, cell_members, cell_pairs, cross_pairs_upto, cross_row, forward_key, forward_offset,
    inner_pairs, inner_pairs_upto, inner_row, is_occupied, key_lt, lists_cells_in_order,
    members_upto, near_keys, near_keys_upto, neighbour_part, neighbour_pairs_upto, pairs_upto,
    raw_near_key, saturated, CellKey,
};
use vstd::prelude::*;

verus! {

/// Strictly increasing index lists (the shape of every cell's member list).
pub open spec fn strictly_increasing(s: Seq<u32>) -> bool {
    forall|i: int, j: int| 0 <= i < j < s.len() ==> s[i] < s[j]
}

/// The pairs within one cell are each pair of its members, smaller first, once each.
proof fn lemma_inner_pairs(idx: Seq<u32>, a: int)
    requires
        0 <= a <= idx.len(),
        strictly_increasing(idx),
    ensures
        inner_pairs_upto(idx, a).no_duplicates(),
        forall|p: (u32, u32)|
            #![trigger inner_pairs_upto(idx, a).contains(p)]
            inner_pairs_upto(idx, a).contains(p) <==> (idx.take(a).contains(p.0) && idx.contains(
                p.1,
            ) && p.0 < p.1),
    decreases a,
{
    broadcast use vstd::seq_lib::lemma_seq_concat_contains_all_elements;
    broadcast use vstd::seq_lib::lemma_seq_take_contains;
    if a > 0 {
        lemma_inner_pairs(idx, a - 1);
        let prev = inner_pairs_upto(idx, a - 1);
        let row = inner_row(idx, a - 1);
        assert forall|p: (u32, u32)| row.contains(p) <==> (p.0 == idx[a - 1] && idx.contains(p.1)
            && p.0 < p.1) by {
            if row.contains(p) {
                let t = choose|t: int| 0 <= t < row.len() && row[t] == p;
                assert(idx[a - 1] < idx[a + t]);
            }
            if p.0 == idx[a - 1] && idx.contains(p.1) && p.0 < p.1 {
                let j = choose|j: int| 0 <= j < idx.len() && idx[j] == p.1;
                if j <= a - 1 {
                    if j < a - 1 {
                        assert(idx[j] < idx[a - 1]);
                    }
                }
                assert(row[j - a] == p);
            }
        }
        assert(row.no_duplicates()) by {
            assert forall|s: int, t: int| 0 <= s < row.len() && 0 <= t < row.len() && s != t implies row[s] != row[t] by {
                if s < t {
                    assert(idx[a + s] < idx[a + t]);
                } else {
                    assert(idx[a + t] < idx[a + s]);
                }
            }
        }
        assert forall|s: int, t: int| 0 <= s < prev.len() && 0 <= t < row.len() implies prev[s] != row[t] by {
            assert(prev.contains(prev[s]));
            let j = choose|j: int| 0 <= j < a - 1 && idx[j] == prev[s].0;
            assert(idx[j] < idx[a - 1]);
        }
        vstd::seq_lib::lemma_no_dup_in_concat(prev, row);
        assert forall|p: (u32, u32)| idx.take(a).contains(p.0) <==> (idx.take(a - 1).contains(p.0) || p.0 == idx[a - 1]) by {
            if idx.take(a).contains(p.0) {
                let j = choose|j: int| 0 <= j < a && idx[j] == p.0;
                if j < a - 1 {
                    assert(idx.take(a - 1)[j] == p.0);
                }
            }
            if p.0 == idx[a - 1] {
                assert(idx.take(a)[a - 1] == p.0);
            }
        }
    }
}

/// The pairs between two disjoint cells are each pair with one member in each, smaller first,
/// once each.
proof fn lemma_cross_pairs(idx: Seq<u32>, other: Seq<u32>, a: int)
    requires
        0 <= a <= idx.len(),
        strictly_increasing(idx),
        strictly_increasing(other),
        forall|s: int, t: int| 0 <= s < idx.len() && 0 <= t < other.len() ==> idx[s] != other[t],
    ensures
        cross_pairs_upto(idx, other, a).no_duplicates(),
        forall|p: (u32, u32)|
            #![trigger cross_pairs_upto(idx, other, a).contains(p)]
            cross_pairs_upto(idx, other, a).contains(p) <==> p.0 < p.1 && (
            (idx.take(a).contains(p.0) && other.contains(p.1)) || (idx.take(a).contains(p.1)
                && other.contains(p.0))),
    decreases a,
{
    broadcast use vstd::seq_lib::lemma_seq_concat_contains_all_elements;
    broadcast use vstd::seq_lib::lemma_seq_take_contains;
    if a > 0 {
        lemma_cross_pairs(idx, other, a - 1);
        let prev = cross_pairs_upto(idx, other, a - 1);
        let row = cross_row(idx, other, a - 1);
        let x = idx[a - 1];
        assert forall|p: (u32, u32)| row.contains(p) <==> p.0 < p.1 && ((p.0 == x && other.contains(
            p.1,
        )) || (p.1 == x && other.contains(p.0))) by {
            if row.contains(p) {
                let t = choose|t: int| 0 <= t < row.len() && row[t] == p;
                assert(x != other[t]);
            }
            if p.0 < p.1 && p.0 == x && other.contains(p.1) {
                let j = choose|j: int| 0 <= j < other.len() && other[j] == p.1;
                assert(row[j] == p);
            }
            if p.0 < p.1 && p.1 == x && other.contains(p.0) {
                let j = choose|j: int| 0 <= j < other.len() && other[j] == p.0;
                assert(row[j] == p);
            }
        }
        assert(row.no_duplicates()) by {
            assert forall|s: int, t: int| 0 <= s < row.len() && 0 <= t < row.len() && s != t implies row[s] != row[t] by {
                if s < t {
                    assert(other[s] < other[t]);
                } else {
                    assert(other[t] < other[s]);
                }
                assert(x != other[s]);
                assert(x != other[t]);
            }
        }
        assert forall|s: int, t: int| 0 <= s < prev.len() && 0 <= t < row.len() implies prev[s] != row[t] by {
            let p = prev[s];
            assert(prev.contains(p));
            assert(row.contains(row[t]));
            if p == row[t] {
                if idx.take(a - 1).contains(p.0) {
                    let j = choose|j: int| 0 <= j < a - 1 && idx[j] == p.0;
                    assert(idx[j] < x);
                    if p.0 == x {
                    } else {
                        assert(p.1 == x);
                        assert(other.contains(p.0));
                        let k = choose|k: int| 0 <= k < other.len() && other[k] == p.0;
                        assert(idx[j] != other[k]);
                    }
                } else {
                    let j = choose|j: int| 0 <= j < a - 1 && idx[j] == p.1;
                    assert(idx[j] < x);
                    if p.1 == x {
                    } else {
                        assert(p.0 == x);
                        let k = choose|k: int| 0 <= k < other.len() && other[k] == p.1;
                        assert(idx[j] != other[k]);
                    }
                }
            }
        }
        vstd::seq_lib::lemma_no_dup_in_concat(prev, row);
        assert forall|v: u32| idx.take(a).contains(v) <==> (idx.take(a - 1).contains(v) || v == x) by {
            if idx.take(a).contains(v) {
                let j = choose|j: int| 0 <= j < a && idx[j] == v;
                if j < a - 1 {
                    assert(idx.take(a - 1)[j] == v);
                }
            }
            if v == x {
                assert(idx.take(a)[a - 1] == v);
            }
        }
    }
}

/// Two cells are the same or adjacent (a 3x3 neighbourhood).
pub open spec fn cells_touch(a: CellKey, b: CellKey) -> bool {
    -1 <= a.0 - b.0 <= 1 && -1 <= a.1 - b.1 <= 1
}

/// `b` is one of `a`'s forward neighbours (see [`forward_offset`]).
pub open spec fn is_forward(a: CellKey, b: CellKey) -> bool {
    let dx = b.0 - a.0;
    let dy = b.1 - a.1;
    (dy == 1 && -1 <= dx <= 1) || (dy == 0 && dx == 1)
}

/// The cell whose visit reports a pair of points in cells `a` and `b`: the shared cell, or
/// whichever of the two has the other as a forward neighbour.
pub open spec fn visitor(a: CellKey, b: CellKey) -> CellKey {
    if is_forward(b, a) {
        b
    } else {
        a
    }
}

/// The cell of point `x` (meaningful when it has one).
pub open spec fn cell_of(keys: Seq<Option<CellKey>>, x: u32) -> CellKey {
    match keys[x as int] {
        Some(c) => c,
        None => (0, 0),
    }
}

/// `p` is a pair of distinct bucketed points, smaller index first, whose cells touch.
pub open spec fn touching_pair(keys: Seq<Option<CellKey>>, p: (u32, u32)) -> bool {
    &&& p.0 < p.1 < keys.len()
    &&& keys[p.0 as int] is Some
    &&& keys[p.1 as int] is Some
    &&& cells_touch(cell_of(keys, p.0), cell_of(keys, p.1))
}

/// `p` joins cell `c` and its `o`-th forward neighbour.
pub open spec fn joins_forward(keys: Seq<Option<CellKey>>, p: (u32, u32), c: CellKey, o: int) -> bool {
    let a = cell_of(keys, p.0);
    let b = cell_of(keys, p.1);
    let k = forward_key(c, o);
    k is Some && ((a == c && b == k->0) || (b == c && a == k->0))
}

/// `p` joins cell `c` and one of its first `o` forward neighbours.
pub open spec fn joins_forward_upto(keys: Seq<Option<CellKey>>, p: (u32, u32), c: CellKey, o: int) -> bool
    decreases o,
{
    if o <= 0 {
        false
    } else {
        joins_forward_upto(keys, p, c, o - 1) || joins_forward(keys, p, c, o - 1)
    }
}

/// Membership in a bucketed cell is exactly having that cell.
proof fn lemma_bucket_members(keys: Seq<Option<CellKey>>, c: CellKey)
    requires
        keys.len() <= u32::MAX,
        bucket(keys).contains_key(c),
    ensures
        strictly_increasing(bucket(keys)[c]),
        forall|x: u32| #[trigger]
            bucket(keys)[c].contains(x) <==> (x < keys.len() && keys[x as int] == Some(c)),
{
    lemma_members_occupied(keys, c);
    let mc = cell_members(keys, c);
    assert forall|x: u32| #[trigger] mc.contains(x) implies (x < keys.len() && keys[x as int] == Some(c)) by {
        let t = choose|t: int| 0 <= t < mc.len() && mc[t] == x;
    }
    assert forall|x: u32| x < keys.len() && keys[x as int] == Some(c) implies #[trigger] mc.contains(x) by {
        assert(mc.contains((x as int) as u32));
    }
}

/// The pairs reported while visiting cell `c` between `c` and its first `o` forward
/// neighbours.
proof fn lemma_neighbour_pairs(keys: Seq<Option<CellKey>>, c: CellKey, o: int)
    requires
        keys.len() <= u32::MAX,
        bucket(keys).contains_key(c),
        0 <= o <= 4,
    ensures
        neighbour_pairs_upto(bucket(keys), c, o).no_duplicates(),
        forall|p: (u32, u32)|
            #![trigger neighbour_pairs_upto(bucket(keys), c, o).contains(p)]
            neighbour_pairs_upto(bucket(keys), c, o).contains(p) <==> (p.0 < p.1 < keys.len()
                && keys[p.0 as int] is Some && keys[p.1 as int] is Some && joins_forward_upto(
                keys,
                p,
                c,
                o,
            )),
    decreases o,
{
    broadcast use vstd::seq_lib::lemma_seq_concat_contains_all_elements;
    let m = bucket(keys);
    if o > 0 {
        lemma_neighbour_pairs(keys, c, o - 1);
        let prev = neighbour_pairs_upto(m, c, o - 1);
        let part = neighbour_part(m, c, o - 1);
        let fk = forward_key(c, o - 1);
        let k = fk->0;
        assert(fk is Some ==> k != c);
        lemma_bucket_members(keys, c);
        if fk is Some && m.contains_key(k) {
            lemma_bucket_members(keys, k);
            let idx = m[c];
            let other = m[k];
            assert forall|s: int, t: int| 0 <= s < idx.len() && 0 <= t < other.len() implies idx[s] != other[t] by {
                assert(idx.contains(idx[s]));
                assert(other.contains(other[t]));
            }
            lemma_cross_pairs(idx, other, idx.len() as int);
            assert(idx.take(idx.len() as int) =~= idx);
            assert forall|p: (u32, u32)| part.contains(p) <==> (p.0 < p.1 < keys.len()
                && keys[p.0 as int] is Some && keys[p.1 as int] is Some && joins_forward(keys, p, c, o - 1)) by {
            }
        } else {
            assert forall|p: (u32, u32)| !(p.0 < p.1 < keys.len()
                && keys[p.0 as int] is Some && keys[p.1 as int] is Some && joins_forward(keys, p, c, o - 1)) by {
                if p.0 < p.1 < keys.len() && keys[p.0 as int] is Some && keys[p.1 as int] is Some
                    && joins_forward(keys, p, c, o - 1) {
                    assert(fk is Some);
                    if cell_of(keys, p.0) == k {
                        assert(is_occupied(keys, k));
                    } else {
                        assert(is_occupied(keys, k));
                    }
                }
            }
        }
        assert forall|s: int, t: int| 0 <= s < prev.len() && 0 <= t < part.len() implies prev[s] != part[t] by {
            assert(prev.contains(prev[s]));
            assert(part.contains(part[t]));
            if prev[s] == part[t] {
                let p = prev[s];
                assert(joins_forward(keys, p, c, o - 1));
                lemma_joins_forward_upto_distinct(keys, p, c, o - 1);
            }
        }
        vstd::seq_lib::lemma_no_dup_in_concat(prev, part);
    }
}

/// A pair joining `c` to its `o`-th forward neighbour joins it to no earlier one.
proof fn lemma_joins_forward_upto_distinct(keys: Seq<Option<CellKey>>, p: (u32, u32), c: CellKey, o: int)
    requires
        0 <= o < 4,
        joins_forward(keys, p, c, o),
    ensures
        !joins_forward_upto(keys, p, c, o),
    decreases o,
{
    if o > 0 {
        assert(!joins_forward(keys, p, c, o - 1));
        lemma_joins_forward_upto_distinct_step(keys, p, c, o - 1, o);
    }
}

proof fn lemma_joins_forward_upto_distinct_step(
    keys: Seq<Option<CellKey>>,
    p: (u32, u32),
    c: CellKey,
    q: int,
    o: int,
)
    requires
        0 <= q < o < 4,
        joins_forward(keys, p, c, o),
    ensures
        !joins_forward_upto(keys, p, c, q + 1),
    decreases q,
{
    assert(forward_key(c, o) is Some);
    assert(forward_key(c, q) is Some ==> forward_key(c, q)->0 != forward_key(c, o)->0);
    assert(forward_key(c, q) is Some ==> forward_key(c, q)->0 != c);
    assert(forward_key(c, o)->0 != c);
    assert(!joins_forward(keys, p, c, q));
    if q > 0 {
        lemma_joins_forward_upto_distinct_step(keys, p, c, q - 1, o);
    } else {
        assert(!joins_forward_upto(keys, p, c, 0));
    }
}

/// Joining `c` to one of its four forward neighbours is having one cell `c` and the other a
/// forward neighbour of `c`.
proof fn lemma_joins_forward_all(keys: Seq<Option<CellKey>>, p: (u32, u32), c: CellKey)
    ensures
        joins_forward_upto(keys, p, c, 4) <==> ({
            let a = cell_of(keys, p.0);
            let b = cell_of(keys, p.1);
            (a == c && is_forward(c, b)) || (b == c && is_forward(c, a))
        }),
{
    reveal_with_fuel(joins_forward_upto, 5);
}

/// The pairs reported while visiting cell `c` are exactly the touching pairs it is the
/// [`visitor`] of, each once.
proof fn lemma_cell_pairs(keys: Seq<Option<CellKey>>, c: CellKey)
    requires
        keys.len() <= u32::MAX,
        bucket(keys).contains_key(c),
    ensures
        cell_pairs(bucket(keys), c).no_duplicates(),
        forall|p: (u32, u32)|
            #![trigger cell_pairs(bucket(keys), c).contains(p)]
            cell_pairs(bucket(keys), c).contains(p) <==> (touching_pair(keys, p) && visitor(
                cell_of(keys, p.0),
                cell_of(keys, p.1),
            ) == c),
{
    broadcast use vstd::seq_lib::lemma_seq_concat_contains_all_elements;
    let m = bucket(keys);
    let idx = m[c];
    lemma_bucket_members(keys, c);
    lemma_inner_pairs(idx, idx.len() as int);
    assert(idx.take(idx.len() as int) =~= idx);
    lemma_neighbour_pairs(keys, c, 4);
    let inner = inner_pairs(idx);
    let nb = neighbour_pairs_upto(m, c, 4);
    assert forall|p: (u32, u32)| inner.contains(p) <==> (p.0 < p.1 < keys.len() && keys[p.0 as int]
        == Some(c) && keys[p.1 as int] == Some(c)) by {}
    assert forall|p: (u32, u32)| nb.contains(p) <==> (touching_pair(keys, p) && cell_of(keys, p.0)
        != cell_of(keys, p.1) && visitor(cell_of(keys, p.0), cell_of(keys, p.1)) == c) by {
        lemma_joins_forward_all(keys, p, c);
    }
    assert forall|s: int, t: int| 0 <= s < inner.len() && 0 <= t < nb.len() implies inner[s] != nb[t] by {
        assert(inner.contains(inner[s]));
        assert(nb.contains(nb[t]));
    }
    vstd::seq_lib::lemma_no_dup_in_concat(inner, nb);
    assert forall|p: (u32, u32)| cell_pairs(m, c).contains(p) <==> (touching_pair(keys, p) && visitor(
        cell_of(keys, p.0),
        cell_of(keys, p.1),
    ) == c) by {
        if touching_pair(keys, p) && cell_of(keys, p.0) == cell_of(keys, p.1) && visitor(
            cell_of(keys, p.0),
            cell_of(keys, p.1),
        ) == c {
            assert(inner.contains(p));
        }
    }
}

/// The candidate pairs reported while visiting the first `k` cells are exactly the touching
/// pairs visited from one of those cells, each once.
proof fn lemma_pairs_upto(keys: Seq<Option<CellKey>>, ks: Seq<CellKey>, k: int)
    requires
        keys.len() <= u32::MAX,
        lists_cells_in_order(ks, bucket(keys)),
        0 <= k <= ks.len(),
    ensures
        pairs_upto(bucket(keys), ks, k).no_duplicates(),
        forall|p: (u32, u32)|
            #![trigger pairs_upto(bucket(keys), ks, k).contains(p)]
            pairs_upto(bucket(keys), ks, k).contains(p) <==> (touching_pair(keys, p)
                && ks.take(k).contains(visitor(cell_of(keys, p.0), cell_of(keys, p.1)))),
    decreases k,
{
    broadcast use vstd::seq_lib::lemma_seq_concat_contains_all_elements;
    broadcast use vstd::seq_lib::lemma_seq_take_contains;
    let m = bucket(keys);
    if k > 0 {
        lemma_pairs_upto(keys, ks, k - 1);
        let prev = pairs_upto(m, ks, k - 1);
        let c = ks[k - 1];
        lemma_cell_pairs(keys, c);
        let cur = cell_pairs(m, c);
        assert forall|s: int, t: int| 0 <= s < prev.len() && 0 <= t < cur.len() implies prev[s] != cur[t] by {
            assert(prev.contains(prev[s]));
            assert(cur.contains(cur[t]));
            if prev[s] == cur[t] {
                let p = prev[s];
                let v = visitor(cell_of(keys, p.0), cell_of(keys, p.1));
                let j = choose|j: int| 0 <= j < k - 1 && ks[j] == v;
                assert(key_lt(ks[j], ks[k - 1]));
            }
        }
        vstd::seq_lib::lemma_no_dup_in_concat(prev, cur);
        assert forall|v: CellKey| ks.take(k).contains(v) <==> (ks.take(k - 1).contains(v) || v == c) by {
            if ks.take(k).contains(v) {
                let j = choose|j: int| 0 <= j < k && ks[j] == v;
                if j < k - 1 {
                    assert(ks.take(k - 1)[j] == v);
                }
            }
            if v == c {
                assert(ks.take(k)[k - 1] == v);
            }
        }
    }
}

/// The grid reports each candidate pair exactly once: every pair of distinct bucketed points
/// whose cells are the same or adjacent appears once, smaller index first, and no other pair
/// appears. This holds for every grid, cells at the very edge of the `i32` range included.
pub proof fn lemma_candidate_pairs_exactly_once(keys: Seq<Option<CellKey>>, ks: Seq<CellKey>)
    requires
        keys.len() <= u32::MAX,
        lists_cells_in_order(ks, bucket(keys)),
    ensures
        pairs_upto(bucket(keys), ks, ks.len() as int).no_duplicates(),
        forall|p: (u32, u32)|
            #![trigger pairs_upto(bucket(keys), ks, ks.len() as int).contains(p)]
            pairs_upto(bucket(keys), ks, ks.len() as int).contains(p) <==> touching_pair(keys, p),
{
    lemma_pairs_upto(keys, ks, ks.len() as int);
    assert(ks.take(ks.len() as int) =~= ks);
    assert forall|p: (u32, u32)| touching_pair(keys, p) implies ks.contains(
        visitor(cell_of(keys, p.0), cell_of(keys, p.1)),
    ) by {
        let v = visitor(cell_of(keys, p.0), cell_of(keys, p.1));
        if v == cell_of(keys, p.0) {
            assert(is_occupied(keys, v));
        } else {
            assert(keys[p.1 as int] == Some(v));
            assert(is_occupied(keys, v));
        }
        assert(bucket(keys).contains_key(v));
    }
}

/// The distinct neighbourhood cells are distinct, and are the first `n` neighbourhood cells.
proof fn lemma_near_keys_upto(c: CellKey, n: int)
    requires
        0 <= n <= 9,
    ensures
        near_keys_upto(c, n).no_duplicates(),
        forall|d: CellKey| #[trigger]
            near_keys_upto(c, n).contains(d) <==> exists|j: int| 0 <= j < n && raw_near_key(c, j) == d,
    decreases n,
{
    if n > 0 {
        lemma_near_keys_upto(c, n - 1);
        let prev = near_keys_upto(c, n - 1);
        let k = raw_near_key(c, n - 1);
        assert forall|d: CellKey| #[trigger] near_keys_upto(c, n).contains(d) <==> exists|j: int|
            0 <= j < n && raw_near_key(c, j) == d by {
            if near_keys_upto(c, n).contains(d) {
                if prev.contains(d) {
                    let j = choose|j: int| 0 <= j < n - 1 && raw_near_key(c, j) == d;
                } else {
                    let t = choose|t: int| 0 <= t < near_keys_upto(c, n).len() && near_keys_upto(c, n)[t] == d;
                    assert(t == prev.len());
                    assert(raw_near_key(c, n - 1) == d);
                }
            }
            if exists|j: int| 0 <= j < n && raw_near_key(c, j) == d {
                let j = choose|j: int| 0 <= j < n && raw_near_key(c, j) == d;
                if j < n - 1 {
                    assert(prev.contains(d));
                    let t = choose|t: int| 0 <= t < prev.len() && prev[t] == d;
                    assert(near_keys_upto(c, n)[t] == d);
                } else if !prev.contains(k) {
                    assert(near_keys_upto(c, n)[prev.len() as int] == d);
                }
            }
        }
    }
}

/// The members of the first `j` cells of a list of distinct cells are the points having one of
/// those cells, each once.
proof fn lemma_members_upto(keys: Seq<Option<CellKey>>, ks: Seq<CellKey>, j: int)
    requires
        keys.len() <= u32::MAX,
        ks.no_duplicates(),
        0 <= j <= ks.len(),
    ensures
        members_upto(bucket(keys), ks, j).no_duplicates(),
        forall|x: u32| #[trigger]
            members_upto(bucket(keys), ks, j).contains(x) <==> (x < keys.len() && keys[x as int] is Some
                && ks.take(j).contains(cell_of(keys, x))),
    decreases j,
{
    broadcast use vstd::seq_lib::lemma_seq_concat_contains_all_elements;
    broadcast use vstd::seq_lib::lemma_seq_take_contains;
    let m = bucket(keys);
    if j > 0 {
        lemma_members_upto(keys, ks, j - 1);
        let prev = members_upto(m, ks, j - 1);
        let c = ks[j - 1];
        let cur = if m.contains_key(c) {
            m[c]
        } else {
            Seq::<u32>::empty()
        };
        assert forall|x: u32| #[trigger] cur.contains(x) <==> (x < keys.len() && keys[x as int] == Some(c)) by {
            if m.contains_key(c) {
                lemma_bucket_members(keys, c);
            } else if x < keys.len() && keys[x as int] == Some(c) {
                assert(is_occupied(keys, c));
            }
        }
        assert(cur.no_duplicates()) by {
            if m.contains_key(c) {
                lemma_bucket_members(keys, c);
            }
        }
        assert forall|s: int, t: int| 0 <= s < prev.len() && 0 <= t < cur.len() implies prev[s] != cur[t] by {
            assert(prev.contains(prev[s]));
            assert(cur.contains(cur[t]));
            if prev[s] == cur[t] {
                let i = choose|i: int| 0 <= i < j - 1 && ks[i] == cell_of(keys, prev[s]);
                assert(ks[i] == ks[j - 1]);
            }
        }
        vstd::seq_lib::lemma_no_dup_in_concat(prev, cur);
        assert forall|v: CellKey| ks.take(j).contains(v) <==> (ks.take(j - 1).contains(v) || v == c) by {
            if ks.take(j).contains(v) {
                let i = choose|i: int| 0 <= i < j && ks[i] == v;
                if i < j - 1 {
                    assert(ks.take(j - 1)[i] == v);
                }
            }
            if v == c {
                assert(ks.take(j)[j - 1] == v);
            }
        }
    }
}

/// A neighbourhood query reports each point of the 3x3 neighbourhood of `c` exactly once, and
/// no other point; that neighbourhood is exactly the cells touching `c`, at the edge of the
/// `i32` range too (where saturated offsets fold onto cells already in it).
pub proof fn lemma_near_exactly_once(keys: Seq<Option<CellKey>>, c: CellKey)
    requires
        keys.len() <= u32::MAX,
    ensures
        members_upto(bucket(keys), near_keys(c), near_keys(c).len() as int).no_duplicates(),
        forall|x: u32| #[trigger]
            members_upto(bucket(keys), near_keys(c), near_keys(c).len() as int).contains(x) <==> (x
                < keys.len() && keys[x as int] is Some && near_keys(c).contains(cell_of(keys, x))),
        forall|d: CellKey| #[trigger] near_keys(c).contains(d) <==> cells_touch(c, d),
{
    lemma_near_keys_upto(c, 9);
    let ks = near_keys(c);
    lemma_members_upto(keys, ks, ks.len() as int);
    assert(ks.take(ks.len() as int) =~= ks);
    assert forall|d: CellKey| #[trigger] ks.contains(d) <==> cells_touch(c, d) by {
        if cells_touch(c, d) {
            let j = (d.0 - c.0 + 1) + 3 * (d.1 - c.1 + 1);
            assert(raw_near_key(c, j) == d);
        }
    }
}

/// Two increasing listings of the same cells are the same listing.
proof fn lemma_increasing_listing_unique(a: Seq<CellKey>, b: Seq<CellKey>)
    requires
        forall|i: int, j: int| 0 <= i < j < a.len() ==> key_lt(a[i], a[j]),
        forall|i: int, j: int| 0 <= i < j < b.len() ==> key_lt(b[i], b[j]),
        forall|x: CellKey| a.contains(x) <==> b.contains(x),
    ensures
        a == b,
    decreases a.len() + b.len(),
{
    if a.len() == 0 {
        if b.len() > 0 {
            assert(b.contains(b[0]));
        }
        assert(a =~= b);
    } else if b.len() == 0 {
        assert(a.contains(a[0]));
    } else {
        let la = a.last();
        let lb = b.last();
        assert(a.contains(la));
        assert(b.contains(lb));
        let j = choose|j: int| 0 <= j < b.len() && b[j] == la;
        let i = choose|i: int| 0 <= i < a.len() && a[i] == lb;
        if la != lb {
            assert(j < b.len() - 1);
            assert(i < a.len() - 1);
            assert(key_lt(la, lb));
            assert(key_lt(lb, la));
        }
        let a2 = a.drop_last();
        let b2 = b.drop_last();
        assert forall|x: CellKey| a2.contains(x) <==> b2.contains(x) by {
            if a2.contains(x) {
                let s = choose|s: int| 0 <= s < a2.len() && a2[s] == x;
                assert(key_lt(a[s], la));
                assert(a.contains(x));
                let t = choose|t: int| 0 <= t < b.len() && b[t] == x;
                assert(t != b.len() - 1);
                assert(b2[t] == x);
            }
            if b2.contains(x) {
                let s = choose|s: int| 0 <= s < b2.len() && b2[s] == x;
                assert(key_lt(b[s], lb));
                assert(b.contains(x));
                let t = choose|t: int| 0 <= t < a.len() && a[t] == x;
                assert(t != a.len() - 1);
                assert(a2[t] == x);
            }
        }
        lemma_increasing_listing_unique(a2, b2);
        assert(a =~= a2.push(la));
        assert(b =~= b2.push(lb));
    }
}

/// The order in which candidate pairs are reported depends on nothing but the cells and their
/// members: two grids with the same buckets report the same pairs in the same order.
pub proof fn lemma_candidate_pair_order_deterministic(
    m: Map<CellKey, Seq<u32>>,
    ks1: Seq<CellKey>,
    ks2: Seq<CellKey>,
)
    requires
        lists_cells_in_order(ks1, m),
        lists_cells_in_order(ks2, m),
    ensures
        pairs_upto(m, ks1, ks1.len() as int) == pairs_upto(m, ks2, ks2.len() as int),
{
    assert forall|x: CellKey| ks1.contains(x) <==> ks2.contains(x) by {
        if ks1.contains(x) {
            let i = choose|i: int| 0 <= i < ks1.len() && ks1[i] == x;
            assert(m.contains_key(ks1[i]));
        }
        if ks2.contains(x) {
            let i = choose|i: int| 0 <= i < ks2.len() && ks2[i] == x;
            assert(m.contains_key(ks2[i]));
        }
    }
    lemma_increasing_listing_unique(ks1, ks2);
}

/// An index is a member of cell `c` exactly when its key is `c`; members are strictly
/// increasing.
pub proof fn lemma_members_occupied(keys: Seq<Option<CellKey>>, c: CellKey)
    requires
        keys.len() <= u32::MAX + 1,
    ensures
        forall|t: int| 0 <= t < cell_members(keys, c).len() ==> {
            let x = #[trigger] cell_members(keys, c)[t];
            x < keys.len() && keys[x as int] == Some(c)
        },
        forall|x: int| 0 <= x < keys.len() && keys[x] == Some(c) ==> cell_members(keys, c).contains(x as u32),
        forall|s: int, t: int| 0 <= s < t < cell_members(keys, c).len() ==> cell_members(keys, c)[s] < cell_members(keys, c)[t],
        cell_members(keys, c).len() > 0 <==> is_occupied(keys, c),
    decreases keys.len(),
{
    if keys.len() > 0 {
        let rest = keys.drop_last();
        lemma_members_occupied(rest, c);
        let m = cell_members(keys, c);
        let mr = cell_members(rest, c);
        assert forall|x: int| 0 <= x < keys.len() && keys[x] == Some(c) implies m.contains(x as u32) by {
            if x < keys.len() - 1 {
                assert(rest[x] == Some(c));
                let t = choose|t: int| 0 <= t < mr.len() && mr[t] == x as u32;
                assert(m[t] == x as u32);
            } else {
                assert(m[m.len() - 1] == x as u32);
            }
        }
        if is_occupied(keys, c) {
            let j = choose|j: int| 0 <= j < keys.len() && keys[j] == Some(c);
            assert(m.contains(j as u32));
        }
        if m.len() > 0 {
            let x = m[0];
            assert(keys[x as int] == Some(c));
        }
    }
}

} // verus!
