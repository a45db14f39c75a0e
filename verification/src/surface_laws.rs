//! Laws of the marching-squares topology: each cell's segments end on exactly the sides whose
//! corners straddle the threshold, neighbouring cells name their shared side alike, and chaining
//! yields connected paths of segments.

use crate::surface::{
    chain_from, chains_from, chains_of, count_false, edge_of_cell, edge_pairs_of, first_open_from,
    is_open_at, lemma_count_false_mark, lemma_first_open_from, other_end, walk, EdgeId,
};
use vstd::prelude::*;

verus! {

/// Whether corner `k` (0 = bottom-left, 1 = bottom-right, 2 = top-right, 3 = top-left) of a
/// cell with bit-mask `case` exceeds the threshold.
pub open spec fn corner_set(case: u8, k: int) -> bool {
    if k == 0 {
        case % 2 == 1
    } else if k == 1 {
        (case / 2) % 2 == 1
    } else if k == 2 {
        (case / 4) % 2 == 1
    } else {
        (case / 8) % 2 == 1
    }
}

/// Whether the two corners at the ends of cell side `s` lie on opposite sides of the threshold
/// (side `s` runs from corner `s` to corner `s + 1`, cyclically).
pub open spec fn side_straddles(case: u8, s: u8) -> bool {
    corner_set(case, s as int) != corner_set(case, (s as int + 1) % 4)
}

/// How many of the segments `pairs` end on cell side `s`.
pub open spec fn side_uses(pairs: Seq<(u8, u8)>, s: u8) -> int
    decreases pairs.len(),
{
    if pairs.len() == 0 {
        0
    } else {
        side_uses(pairs.drop_last(), s) + (if pairs.last().0 == s { 1int } else { 0 }) + (
        if pairs.last().1 == s {
            1int
        } else {
            0
        })
    }
}

/// Marching squares is consistent: a cell's segments end on exactly the sides whose two
/// corners straddle the threshold, once on each such side, and every segment joins two
/// different sides.
pub proof fn lemma_segments_end_on_straddling_sides(case: u8, s: u8)
    requires
        case < 16,
        s < 4,
    ensures
        side_uses(edge_pairs_of(case), s) == (if side_straddles(case, s) { 1int } else { 0 }),
        forall|t: int|
            0 <= t < edge_pairs_of(case).len() ==> #[trigger] edge_pairs_of(case)[t].0 != edge_pairs_of(
                case,
            )[t].1 && edge_pairs_of(case)[t].0 < 4 && edge_pairs_of(case)[t].1 < 4,
{
    reveal_with_fuel(side_uses, 3);
    let p = edge_pairs_of(case);
    if p.len() == 2 {
        assert(p.drop_last().drop_last() =~= Seq::<(u8, u8)>::empty());
    } else if p.len() == 1 {
        assert(p.drop_last() =~= Seq::<(u8, u8)>::empty());
    }
}

/// Position of cell side `s` in the order left (3), bottom (0), right (1), top (2).
pub open spec fn side_rank(s: u8) -> int {
    if s == 3 {
        0
    } else if s == 0 {
        1
    } else if s == 1 {
        2
    } else {
        3
    }
}

/// Whether segment `p` joins the two sides meeting at corner `k`, cutting that corner off (corner
/// `k` lies between side `k - 1` and side `k`, cyclically).
pub open spec fn cuts_corner(p: (u8, u8), k: int) -> bool {
    let a = ((k + 3) % 4) as u8;
    let b = k as u8;
    (p.0 == a && p.1 == b) || (p.0 == b && p.1 == a)
}

/// Corners `k` and `k + 2` exceed the threshold and the other two do not.
pub open spec fn is_saddle(case: u8, k: int) -> bool {
    corner_set(case, k) && corner_set(case, k + 2) && !corner_set(case, k + 1) && !corner_set(
        case,
        (k + 3) % 4,
    )
}

/// How the table lists its segments: each segment names its two sides in the order left,
/// bottom, right, top; and in the two saddle cells, where two diagonally opposite corners
/// exceed the threshold and the other two do not, the two segments each cut off one of the
/// corners that exceed the threshold, the lower-numbered corner's segment first. With
/// [`lemma_segments_end_on_straddling_sides`] this fixes every entry of the table.
pub proof fn lemma_segment_orientation_and_saddles(case: u8)
    requires
        case < 16,
    ensures
        forall|t: int|
            0 <= t < edge_pairs_of(case).len() ==> side_rank(#[trigger] edge_pairs_of(case)[t].0)
                < side_rank(edge_pairs_of(case)[t].1),
        edge_pairs_of(case).len() <= 2,
        edge_pairs_of(case).len() == 2 <==> (is_saddle(case, 0) || is_saddle(case, 1)),
        edge_pairs_of(case).len() == 2 ==> (is_saddle(case, 0) && cuts_corner(
            edge_pairs_of(case)[0],
            0,
        ) && cuts_corner(edge_pairs_of(case)[1], 2)) || (is_saddle(case, 1) && cuts_corner(
            edge_pairs_of(case)[0],
            1,
        ) && cuts_corner(edge_pairs_of(case)[1], 3)),
{
    if case == 5 {
        assert(cuts_corner(edge_pairs_of(case)[0], 0));
        assert(cuts_corner(edge_pairs_of(case)[1], 2));
    } else if case == 10 {
        assert(cuts_corner(edge_pairs_of(case)[0], 1));
        assert(cuts_corner(edge_pairs_of(case)[1], 3));
    }
}

/// The segments depend only on which corners differ: complementing every corner (swapping
/// "inside" and "outside") gives the same segments, except in the two ambiguous saddle cases,
/// which are resolved differently.
pub proof fn lemma_complement_case_same_segments(case: u8)
    requires
        case < 16,
        case != 5,
        case != 10,
    ensures
        edge_pairs_of(case) == edge_pairs_of((15 - case) as u8),
{
}

/// Two cells sharing a side name the same grid edge for it, so their segments can be chained by
/// exact matching: the right side of cell `(i, j)` is the left side of cell `(i + 1, j)`, and
/// its top side is the bottom side of cell `(i, j + 1)`.
pub proof fn lemma_neighbouring_cells_share_edges(cell_i: usize, cell_j: usize)
    requires
        cell_i < i32::MAX,
        cell_j < i32::MAX,
    ensures
        edge_of_cell(cell_i, cell_j, 1) == edge_of_cell((cell_i + 1) as usize, cell_j, 3),
        edge_of_cell(cell_i, cell_j, 2) == edge_of_cell(cell_i, (cell_j + 1) as usize, 0),
{
}

/// Grid point of corner `k` (0 = bottom-left, 1 = bottom-right, 2 = top-right, 3 = top-left) of
/// the cell whose bottom-left grid point is `(ci, cj)`.
pub open spec fn corner_point(ci: int, cj: int, k: int) -> (int, int) {
    if k == 0 {
        (ci, cj)
    } else if k == 1 {
        (ci + 1, cj)
    } else if k == 2 {
        (ci + 1, cj + 1)
    } else {
        (ci, cj + 1)
    }
}

/// Side `s` of a cell is the grid edge between the cell's corners `s` and `s + 1`
/// (cyclically): a horizontal edge `(i, j)` runs from grid point `(i, j)` to `(i + 1, j)` and a
/// vertical one from `(i, j)` to `(i, j + 1)`.
pub proof fn lemma_side_runs_between_its_corners(cell_i: usize, cell_j: usize, s: u8)
    requires
        cell_i < i32::MAX,
        cell_j < i32::MAX,
        s < 4,
    ensures
        ({
            let ends = match edge_of_cell(cell_i, cell_j, s) {
                EdgeId::Horizontal(i, j) => ((i as int, j as int), (i + 1, j as int)),
                EdgeId::Vertical(i, j) => ((i as int, j as int), (i as int, j + 1)),
            };
            let p = corner_point(cell_i as int, cell_j as int, s as int);
            let q = corner_point(cell_i as int, cell_j as int, (s as int + 1) % 4);
            (ends.0 == p && ends.1 == q) || (ends.0 == q && ends.1 == p)
        }),
{
}

/// Edges `x` and `y` are the two ends of some segment.
pub open spec fn joined(segs: Seq<(EdgeId, EdgeId)>, x: EdgeId, y: EdgeId) -> bool {
    exists|i: int|
        0 <= i < segs.len() && ((segs[i].0 == x && segs[i].1 == y) || (segs[i].0 == y && segs[i].1
            == x))
}

/// Every two consecutive edges of `c` are joined by a segment.
pub open spec fn is_connected_path(segs: Seq<(EdgeId, EdgeId)>, c: Seq<EdgeId>) -> bool {
    forall|t: int| 0 <= t < c.len() - 1 ==> joined(segs, #[trigger] c[t], c[t + 1])
}

/// A walk moves along segments: from the tip to its first edge, and between consecutive edges.
proof fn lemma_walk_joined(segs: Seq<(EdgeId, EdgeId)>, visited: Seq<bool>, tip: EdgeId)
    ensures
        is_connected_path(segs, seq![tip] + walk(segs, visited, tip).0),
    decreases count_false(visited),
{
    let ext = walk(segs, visited, tip).0;
    match first_open_from(segs, visited, tip, 0) {
        None => {
            assert(ext =~= Seq::<EdgeId>::empty());
        },
        Some(i) => {
            lemma_first_open_from(segs, visited, tip, 0);
            lemma_count_false_mark(visited, i);
            let o = other_end(segs[i], tip);
            let v1 = visited.update(i, true);
            lemma_walk_joined(segs, v1, o);
            let rest = walk(segs, v1, o).0;
            assert(ext == seq![o] + rest);
            assert(joined(segs, tip, o));
            let full = seq![tip] + ext;
            assert(full =~= seq![tip] + (seq![o] + rest));
            assert forall|t: int| 0 <= t < full.len() - 1 implies joined(segs, #[trigger] full[t], full[t + 1]) by {
                if t > 0 {
                    assert(full[t] == (seq![o] + rest)[t - 1]);
                    assert(full[t + 1] == (seq![o] + rest)[t]);
                }
            }
        },
    }
}

/// A polyline grown from one segment is a connected path of segments.
proof fn lemma_chain_from_joined(segs: Seq<(EdgeId, EdgeId)>, visited: Seq<bool>, start: int)
    requires
        0 <= start < segs.len(),
    ensures
        is_connected_path(segs, chain_from(segs, visited, start).0),
{
    let v1 = visited.update(start, true);
    let a0 = segs[start].0;
    let b0 = segs[start].1;
    let fw = walk(segs, v1, b0);
    lemma_walk_joined(segs, v1, b0);
    let c1 = seq![a0, b0] + fw.0;
    assert(joined(segs, a0, b0));
    assert(c1 =~= seq![a0] + (seq![b0] + fw.0));
    assert forall|t: int| 0 <= t < c1.len() - 1 implies joined(segs, #[trigger] c1[t], c1[t + 1]) by {
        if t > 0 {
            assert(c1[t] == (seq![b0] + fw.0)[t - 1]);
            assert(c1[t + 1] == (seq![b0] + fw.0)[t]);
        }
    }
    let bw = walk(segs, fw.1, a0);
    lemma_walk_joined(segs, fw.1, a0);
    let back = seq![a0] + bw.0;
    let c2 = bw.0.reverse() + c1;
    assert forall|t: int| 0 <= t < c2.len() - 1 implies joined(segs, #[trigger] c2[t], c2[t + 1]) by {
        let nb = bw.0.len() as int;
        if t + 1 < nb {
            assert(c2[t] == back[nb - t]);
            assert(c2[t + 1] == back[nb - t - 1]);
            assert(joined(segs, back[nb - t - 1], back[nb - t]));
        } else if t + 1 == nb {
            assert(c2[t] == back[1]);
            assert(c2[t + 1] == a0);
            assert(joined(segs, back[0], back[1]));
        } else {
            assert(c2[t] == c1[t - nb]);
            assert(c2[t + 1] == c1[t - nb + 1]);
        }
    }
    let c3 = chain_from(segs, visited, start).0;
    assert forall|t: int| 0 <= t < c3.len() - 1 implies joined(segs, #[trigger] c3[t], c3[t + 1]) by {
        assert(c3[t] == c2[t]);
        assert(c3[t + 1] == c2[t + 1]);
    }
}

/// Chaining yields connected paths: in every polyline each two consecutive edges are the two
/// ends of one of the segments.
pub proof fn lemma_chains_are_connected(segs: Seq<(EdgeId, EdgeId)>, visited: Seq<bool>, start: int)
    ensures
        forall|k: int|
            0 <= k < chains_from(segs, visited, start).len() ==> is_connected_path(
                segs,
                #[trigger] chains_from(segs, visited, start)[k],
            ),
    decreases segs.len() - start,
{
    if 0 <= start < segs.len() {
        if visited[start] {
            lemma_chains_are_connected(segs, visited, start + 1);
            assert(chains_from(segs, visited, start) == chains_from(segs, visited, start + 1));
        } else {
            let c = chain_from(segs, visited, start);
            lemma_chain_from_joined(segs, visited, start);
            lemma_chains_are_connected(segs, c.1, start + 1);
            let all = chains_from(segs, visited, start);
            assert forall|k: int| 0 <= k < all.len() implies is_connected_path(segs, #[trigger] all[k]) by {
                if k > 0 {
                    assert(all[k] == chains_from(segs, c.1, start + 1)[k - 1]);
                } else {
                    assert(all[0] == c.0);
                }
            }
        }
    }
}

/// How many ends of segment `s` are edge `e` (0, 1 or 2).
pub open spec fn ends_at(s: (EdgeId, EdgeId), e: EdgeId) -> int {
    (if s.0 == e { 1int } else { 0 }) + (if s.1 == e { 1int } else { 0 })
}

/// The number of segment ends at edge `e` among the first `n` segments.
pub open spec fn degree_upto(segs: Seq<(EdgeId, EdgeId)>, e: EdgeId, n: int) -> int
    decreases n,
{
    if n <= 0 {
        0
    } else {
        degree_upto(segs, e, n - 1) + ends_at(segs[n - 1], e)
    }
}

/// The number of segment ends at edge `e` among the first `n` segments that are used.
pub open spec fn used_degree_upto(segs: Seq<(EdgeId, EdgeId)>, visited: Seq<bool>, e: EdgeId, n: int) -> int
    decreases n,
{
    if n <= 0 {
        0
    } else {
        used_degree_upto(segs, visited, e, n - 1) + (if visited[n - 1] {
            ends_at(segs[n - 1], e)
        } else {
            0
        })
    }
}

/// The number of segment ends at edge `e`.
pub open spec fn degree(segs: Seq<(EdgeId, EdgeId)>, e: EdgeId) -> int {
    degree_upto(segs, e, segs.len() as int)
}

/// The number of used segment ends at edge `e`.
pub open spec fn used_degree(segs: Seq<(EdgeId, EdgeId)>, visited: Seq<bool>, e: EdgeId) -> int {
    used_degree_upto(segs, visited, e, segs.len() as int)
}

/// Every edge is the end of exactly two segment ends or of none, and no segment joins an edge to
/// itself: the segments form disjoint cycles.
pub open spec fn forms_cycles(segs: Seq<(EdgeId, EdgeId)>) -> bool {
    &&& forall|e: EdgeId| #[trigger] degree(segs, e) == 0 || degree(segs, e) == 2
    &&& forall|i: int| 0 <= i < segs.len() ==> #[trigger] segs[i].0 != segs[i].1
}

/// At every edge, either no segment end or every segment end is used.
pub open spec fn used_whole(segs: Seq<(EdgeId, EdgeId)>, visited: Seq<bool>) -> bool {
    forall|e: EdgeId| #![trigger used_degree(segs, visited, e)]
        used_degree(segs, visited, e) == 0 || used_degree(segs, visited, e) == degree(segs, e)
}

/// The polyline closes: it has at least two edges and its last edge is joined to its first.
pub open spec fn is_closed(segs: Seq<(EdgeId, EdgeId)>, c: Seq<EdgeId>) -> bool {
    c.len() >= 2 && joined(segs, c.last(), c[0])
}

/// Used ends never outnumber ends.
proof fn lemma_used_degree_bounds(segs: Seq<(EdgeId, EdgeId)>, visited: Seq<bool>, e: EdgeId, n: int)
    requires
        0 <= n <= segs.len(),
    ensures
        0 <= used_degree_upto(segs, visited, e, n) <= degree_upto(segs, e, n),
    decreases n,
{
    if n > 0 {
        lemma_used_degree_bounds(segs, visited, e, n - 1);
    }
}

/// Marking unused segment `i` used adds its ends at `e` to the used degree of `e`.
proof fn lemma_used_degree_mark(segs: Seq<(EdgeId, EdgeId)>, visited: Seq<bool>, e: EdgeId, i: int, n: int)
    requires
        0 <= n <= segs.len(),
        visited.len() == segs.len(),
        0 <= i < segs.len(),
        !visited[i],
    ensures
        used_degree_upto(segs, visited.update(i, true), e, n) == used_degree_upto(segs, visited, e, n)
            + (if i < n { ends_at(segs[i], e) } else { 0 }),
    decreases n,
{
    if n > 0 {
        lemma_used_degree_mark(segs, visited, e, i, n - 1);
    }
}

/// With fewer used ends than ends at `e`, some unused segment touches `e`; with as many, none.
proof fn lemma_open_iff_unused_end(segs: Seq<(EdgeId, EdgeId)>, visited: Seq<bool>, e: EdgeId, n: int)
    requires
        0 <= n <= segs.len(),
        visited.len() == segs.len(),
    ensures
        used_degree_upto(segs, visited, e, n) < degree_upto(segs, e, n) <==> exists|i: int|
            0 <= i < n && #[trigger] is_open_at(segs, visited, e, i),
    decreases n,
{
    if n > 0 {
        lemma_open_iff_unused_end(segs, visited, e, n - 1);
        lemma_used_degree_bounds(segs, visited, e, n - 1);
        if exists|i: int| 0 <= i < n && #[trigger] is_open_at(segs, visited, e, i) {
            let i = choose|i: int| 0 <= i < n && #[trigger] is_open_at(segs, visited, e, i);
            if i < n - 1 {
                assert(exists|i: int| 0 <= i < n - 1 && #[trigger] is_open_at(segs, visited, e, i));
            }
        }
        if exists|i: int| 0 <= i < n - 1 && #[trigger] is_open_at(segs, visited, e, i) {
            let i = choose|i: int| 0 <= i < n - 1 && #[trigger] is_open_at(segs, visited, e, i);
            assert(0 <= i < n && is_open_at(segs, visited, e, i));
        }
        if !visited[n - 1] && ends_at(segs[n - 1], e) > 0 {
            assert(is_open_at(segs, visited, e, n - 1));
        }
    }
}

/// On segments forming cycles, a walk that has left `a0` (both `a0` and the tip have exactly
/// one used end, every other edge none or all) runs round the cycle and stops exactly on its
/// return to `a0`, leaving every edge with none or all of its ends used.
proof fn lemma_walk_returns(segs: Seq<(EdgeId, EdgeId)>, visited: Seq<bool>, tip: EdgeId, a0: EdgeId)
    requires
        visited.len() == segs.len(),
        forms_cycles(segs),
        tip != a0,
        used_degree(segs, visited, a0) == 1,
        used_degree(segs, visited, tip) == 1,
        forall|e: EdgeId|
            e != a0 && e != tip ==> (#[trigger] used_degree(segs, visited, e) == 0 || used_degree(
                segs,
                visited,
                e,
            ) == degree(segs, e)),
    ensures
        walk(segs, visited, tip).0.len() >= 1,
        walk(segs, visited, tip).0.last() == a0,
        used_whole(segs, walk(segs, visited, tip).1),
        used_degree(segs, walk(segs, visited, tip).1, a0) == degree(segs, a0),
        walk(segs, visited, tip).1.len() == segs.len(),
    decreases count_false(visited),
{
    let n = segs.len() as int;
    lemma_used_degree_bounds(segs, visited, tip, n);
    assert(degree(segs, tip) == 2);
    lemma_open_iff_unused_end(segs, visited, tip, n);
    lemma_first_open_from(segs, visited, tip, 0);
    let i = first_open_from(segs, visited, tip, 0)->0;
    lemma_count_false_mark(visited, i);
    let o = other_end(segs[i], tip);
    assert(o != tip);
    let v1 = visited.update(i, true);
    assert forall|e: EdgeId| #[trigger] used_degree(segs, v1, e) == used_degree(segs, visited, e)
        + ends_at(segs[i], e) by {
        lemma_used_degree_mark(segs, visited, e, i, n);
    }
    assert(ends_at(segs[i], tip) == 1);
    assert(ends_at(segs[i], o) == 1);
    assert forall|e: EdgeId| e != tip && e != o implies #[trigger] ends_at(segs[i], e) == 0 by {}
    let rest = walk(segs, v1, o);
    assert(walk(segs, visited, tip).0 == seq![o] + rest.0);
    assert(walk(segs, visited, tip).1 == rest.1);
    if o == a0 {
        assert(used_degree(segs, v1, a0) == 2);
        lemma_used_degree_bounds(segs, v1, a0, n);
        lemma_open_iff_unused_end(segs, v1, a0, n);
        lemma_first_open_from(segs, v1, a0, 0);
        assert(degree(segs, a0) == 2);
        assert(used_degree_upto(segs, v1, a0, n) == degree_upto(segs, a0, n));
        if first_open_from(segs, v1, a0, 0) is Some {
            let j = first_open_from(segs, v1, a0, 0)->0;
            assert(is_open_at(segs, v1, a0, j));
            assert(false);
        }
        assert(first_open_from(segs, v1, a0, 0) is None);
        assert(rest.0 =~= Seq::<EdgeId>::empty());
        assert(rest.1 == v1);
        assert forall|e: EdgeId| #![trigger used_degree(segs, v1, e)] used_degree(segs, v1, e) == 0
            || used_degree(segs, v1, e) == degree(segs, e) by {
            if e != a0 && e != tip {
                assert(used_degree(segs, v1, e) == used_degree(segs, visited, e));
            }
        }
        assert((seq![o] + rest.0).last() == a0);
    } else {
        lemma_used_degree_bounds(segs, visited, o, n);
        lemma_open_iff_unused_end(segs, visited, o, n);
        assert(is_open_at(segs, visited, o, i));
        assert(used_degree(segs, visited, o) == 0);
        assert forall|e: EdgeId| e != a0 && e != o implies (#[trigger] used_degree(segs, v1, e) == 0
            || used_degree(segs, v1, e) == degree(segs, e)) by {
            if e == tip {
                assert(used_degree(segs, v1, tip) == 2);
            } else {
                assert(used_degree(segs, v1, e) == used_degree(segs, visited, e));
            }
        }
        lemma_walk_returns(segs, v1, o, a0);
        assert((seq![o] + rest.0).last() == rest.0.last());
    }
}

/// With no segment used, no edge has a used end.
proof fn lemma_used_degree_none(segs: Seq<(EdgeId, EdgeId)>, visited: Seq<bool>, e: EdgeId, n: int)
    requires
        0 <= n <= segs.len(),
        visited.len() == segs.len(),
        forall|i: int| 0 <= i < visited.len() ==> !#[trigger] visited[i],
    ensures
        used_degree_upto(segs, visited, e, n) == 0,
    decreases n,
{
    if n > 0 {
        lemma_used_degree_none(segs, visited, e, n - 1);
    }
}

/// Each step of a walk uses up one unused segment, and a walk never un-uses one.
proof fn lemma_walk_consumes(segs: Seq<(EdgeId, EdgeId)>, visited: Seq<bool>, tip: EdgeId)
    requires
        visited.len() == segs.len(),
    ensures
        walk(segs, visited, tip).1.len() == visited.len(),
        count_false(visited) == count_false(walk(segs, visited, tip).1) + walk(
            segs,
            visited,
            tip,
        ).0.len(),
        forall|j: int|
            0 <= j < visited.len() && visited[j] ==> #[trigger] walk(segs, visited, tip).1[j],
    decreases count_false(visited),
{
    match first_open_from(segs, visited, tip, 0) {
        None => {},
        Some(i) => {
            lemma_first_open_from(segs, visited, tip, 0);
            lemma_count_false_mark(visited, i);
            let o = other_end(segs[i], tip);
            let v1 = visited.update(i, true);
            lemma_walk_consumes(segs, v1, o);
            assert forall|j: int| 0 <= j < visited.len() && visited[j] implies #[trigger] walk(
                segs,
                visited,
                tip,
            ).1[j] by {
                assert(v1[j]);
            }
        },
    }
}

/// A list with every entry `true` has no `false` entry; one with every entry `false` has only
/// `false` entries.
proof fn lemma_count_false_extremes(v: Seq<bool>)
    ensures
        (forall|j: int| 0 <= j < v.len() ==> #[trigger] v[j]) ==> count_false(v) == 0,
        (forall|j: int| 0 <= j < v.len() ==> !#[trigger] v[j]) ==> count_false(v) == v.len(),
    decreases v.len(),
{
    if v.len() > 0 {
        lemma_count_false_extremes(v.drop_last());
        if forall|j: int| 0 <= j < v.len() ==> #[trigger] v[j] {
            assert(forall|j: int| 0 <= j < v.drop_last().len() ==> #[trigger] v.drop_last()[j] == v[j]);
            assert(v.last() == v[v.len() - 1]);
        }
        if forall|j: int| 0 <= j < v.len() ==> !#[trigger] v[j] {
            assert(forall|j: int| 0 <= j < v.drop_last().len() ==> #[trigger] v.drop_last()[j] == v[j]);
            assert(v.last() == v[v.len() - 1]);
        }
    }
}

/// The total number of edges of the polylines `cs`.
pub open spec fn total_len(cs: Seq<Seq<EdgeId>>) -> int
    decreases cs.len(),
{
    if cs.len() == 0 {
        0
    } else {
        cs[0].len() + total_len(cs.drop_first())
    }
}

/// On segments forming cycles, the polyline grown from an unused segment runs once round its
/// cycle: it closes, and afterwards every edge still has none or all of its ends used.
proof fn lemma_chain_from_closes(segs: Seq<(EdgeId, EdgeId)>, visited: Seq<bool>, start: int)
    requires
        visited.len() == segs.len(),
        forms_cycles(segs),
        used_whole(segs, visited),
        0 <= start < segs.len(),
        !visited[start],
    ensures
        is_closed(segs, chain_from(segs, visited, start).0),
        used_whole(segs, chain_from(segs, visited, start).1),
        chain_from(segs, visited, start).1.len() == segs.len(),
        count_false(visited) == count_false(chain_from(segs, visited, start).1) + chain_from(
            segs,
            visited,
            start,
        ).0.len(),
        chain_from(segs, visited, start).1[start],
        forall|j: int|
            0 <= j < visited.len() && visited[j] ==> #[trigger] chain_from(segs, visited, start).1[j],
{
    let n = segs.len() as int;
    let v1 = visited.update(start, true);
    let a0 = segs[start].0;
    let b0 = segs[start].1;
    assert(a0 != b0);
    assert(is_open_at(segs, visited, a0, start));
    assert(is_open_at(segs, visited, b0, start));
    lemma_open_iff_unused_end(segs, visited, a0, n);
    lemma_open_iff_unused_end(segs, visited, b0, n);
    lemma_used_degree_bounds(segs, visited, a0, n);
    lemma_used_degree_bounds(segs, visited, b0, n);
    assert(used_degree(segs, visited, a0) == 0);
    assert(used_degree(segs, visited, b0) == 0);
    assert forall|e: EdgeId| #[trigger] used_degree(segs, v1, e) == used_degree(segs, visited, e)
        + ends_at(segs[start], e) by {
        lemma_used_degree_mark(segs, visited, e, start, n);
    }
    assert forall|e: EdgeId| e != a0 && e != b0 implies (#[trigger] used_degree(segs, v1, e) == 0
        || used_degree(segs, v1, e) == degree(segs, e)) by {
        assert(used_degree(segs, v1, e) == used_degree(segs, visited, e));
    }
    assert(used_degree(segs, v1, a0) == 1);
    assert(used_degree(segs, v1, b0) == 1);
    lemma_walk_returns(segs, v1, b0, a0);
    lemma_walk_joined(segs, v1, b0);
    lemma_count_false_mark(visited, start);
    lemma_walk_consumes(segs, v1, b0);
    let fw = walk(segs, v1, b0);
    lemma_used_degree_bounds(segs, fw.1, a0, n);
    lemma_open_iff_unused_end(segs, fw.1, a0, n);
    lemma_first_open_from(segs, fw.1, a0, 0);
    if first_open_from(segs, fw.1, a0, 0) is Some {
        let j = first_open_from(segs, fw.1, a0, 0)->0;
        assert(is_open_at(segs, fw.1, a0, j));
        assert(false);
    }
    let bw = walk(segs, fw.1, a0);
    assert(bw.0 =~= Seq::<EdgeId>::empty());
    assert(bw.1 == fw.1);
    let c1 = seq![a0, b0] + fw.0;
    let c2 = bw.0.reverse() + c1;
    assert(c2 =~= c1);
    let path = seq![b0] + fw.0;
    let l = fw.0.len() as int;
    assert(c2.len() == l + 2);
    assert(c2[0] == a0);
    assert(c2.last() == a0);
    let c3 = chain_from(segs, visited, start).0;
    assert(c3 =~= c2.drop_last());
    assert(c3.last() == path[l - 1]);
    assert(path[l] == a0);
    assert(joined(segs, path[l - 1], path[l]));
    assert(c3.len() == l + 1);
    assert(v1[start]);
}

/// Over segments forming cycles, scanning from any state in which every edge has none or all
/// of its ends used yields only closed polylines.
proof fn lemma_chains_from_closed(segs: Seq<(EdgeId, EdgeId)>, visited: Seq<bool>, start: int)
    requires
        visited.len() == segs.len(),
        forms_cycles(segs),
        used_whole(segs, visited),
    ensures
        forall|k: int|
            0 <= k < chains_from(segs, visited, start).len() ==> is_closed(
                segs,
                #[trigger] chains_from(segs, visited, start)[k],
            ),
    decreases segs.len() - start,
{
    if 0 <= start < segs.len() {
        if visited[start] {
            lemma_chains_from_closed(segs, visited, start + 1);
            assert(chains_from(segs, visited, start) == chains_from(segs, visited, start + 1));
        } else {
            let c = chain_from(segs, visited, start);
            lemma_chain_from_closes(segs, visited, start);
            lemma_chains_from_closed(segs, c.1, start + 1);
            let all = chains_from(segs, visited, start);
            assert forall|k: int| 0 <= k < all.len() implies is_closed(segs, #[trigger] all[k]) by {
                if k > 0 {
                    assert(all[k] == chains_from(segs, c.1, start + 1)[k - 1]);
                } else {
                    assert(all[0] == c.0);
                }
            }
        }
    }
}

/// Over segments forming cycles, scanning from a state in which every segment before `start`
/// is used and every edge has none or all of its ends used yields polylines with as many edges
/// in all as there were unused segments: each closed polyline uses one segment per edge.
proof fn lemma_chains_from_total(segs: Seq<(EdgeId, EdgeId)>, visited: Seq<bool>, start: int)
    requires
        visited.len() == segs.len(),
        forms_cycles(segs),
        used_whole(segs, visited),
        0 <= start,
        forall|j: int| 0 <= j < start && j < visited.len() ==> #[trigger] visited[j],
    ensures
        total_len(chains_from(segs, visited, start)) == count_false(visited),
    decreases segs.len() - start,
{
    if start >= segs.len() {
        lemma_count_false_extremes(visited);
    } else if visited[start] {
        lemma_chains_from_total(segs, visited, start + 1);
    } else {
        let c = chain_from(segs, visited, start);
        lemma_chain_from_closes(segs, visited, start);
        assert forall|j: int| 0 <= j < start + 1 && j < c.1.len() implies #[trigger] c.1[j] by {
            if j < start {
                assert(visited[j]);
            }
        }
        lemma_chains_from_total(segs, c.1, start + 1);
        let all = chains_from(segs, visited, start);
        assert(all == seq![c.0] + chains_from(segs, c.1, start + 1));
        assert(all.drop_first() =~= chains_from(segs, c.1, start + 1));
    }
}

/// Segments that form disjoint cycles (every edge the end of exactly two segment ends or of
/// none, no segment joining an edge to itself) chain into closed polylines only: each has at
/// least two edges and its last edge is joined to its first by a segment; and the polylines
/// have as many edges in all as there are segments.
pub proof fn lemma_cycles_chain_into_closed_polylines(segs: Seq<(EdgeId, EdgeId)>)
    requires
        forms_cycles(segs),
    ensures
        forall|k: int|
            0 <= k < chains_of(segs).len() ==> is_closed(segs, #[trigger] chains_of(segs)[k]),
        total_len(chains_of(segs)) == segs.len(),
{
    let none = Seq::new(segs.len(), |i: int| false);
    assert forall|e: EdgeId| #![trigger used_degree(segs, none, e)]
        used_degree(segs, none, e) == 0 || used_degree(segs, none, e) == degree(segs, e) by {
        lemma_used_degree_none(segs, none, e, segs.len() as int);
    }
    lemma_chains_from_closed(segs, none, 0);
    lemma_chains_from_total(segs, none, 0);
    lemma_count_false_extremes(none);
}

} // verus!
