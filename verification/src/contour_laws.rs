//! Closure of the extracted contours: when no grid point on the border of the field exceeds the
//! threshold, every edge of the grid is the end of exactly two marching-squares segments or of
//! none, so chaining yields closed polylines only.

use crate::surface::{
    above_at, cell_case, cell_segments, chains_of, edge_of_cell, edge_pairs_of, segments_upto,
    EdgeId, GRID_SIZE,
};
use crate::surface_laws::{
    corner_set, degree, degree_upto, forms_cycles, is_closed,
    lemma_cycles_chain_into_closed_polylines, lemma_segments_end_on_straddling_sides,
    side_straddles, side_uses, total_len,
};
use vstd::prelude::*;

verus! {

/// Whether side `s` of cell `(ci, cj)` is grid edge `e` and its two corners straddle the
/// threshold (1) or not (0).
pub open spec fn side_count(above: Seq<bool>, ci: int, cj: int, e: EdgeId, s: u8) -> int {
    if edge_of_cell(ci as usize, cj as usize, s) == e && side_straddles(cell_case(above, ci, cj), s) {
        1
    } else {
        0
    }
}

/// How many sides of cell `(ci, cj)` are grid edge `e` with straddling corners.
pub open spec fn cell_edge_count(above: Seq<bool>, ci: int, cj: int, e: EdgeId) -> int {
    side_count(above, ci, cj, e, 0) + side_count(above, ci, cj, e, 1) + side_count(
        above,
        ci,
        cj,
        e,
        2,
    ) + side_count(above, ci, cj, e, 3)
}

/// Segment ends among `pairs` on cell side `s`, when that side is edge `e`.
spec fn uses_as(ci: int, cj: int, e: EdgeId, pairs: Seq<(u8, u8)>, s: u8) -> int {
    if edge_of_cell(ci as usize, cj as usize, s) == e {
        side_uses(pairs, s)
    } else {
        0
    }
}

/// The bits of a cell's corner mask are its four corners.
proof fn lemma_corner_bits(above: Seq<bool>, ci: int, cj: int)
    ensures
        cell_case(above, ci, cj) < 16,
        corner_set(cell_case(above, ci, cj), 0) == above_at(above, ci, cj),
        corner_set(cell_case(above, ci, cj), 1) == above_at(above, ci + 1, cj),
        corner_set(cell_case(above, ci, cj), 2) == above_at(above, ci + 1, cj + 1),
        corner_set(cell_case(above, ci, cj), 3) == above_at(above, ci, cj + 1),
{
}

/// Counting the segment ends of the first `n` segments of a cell at edge `e` side by side.
proof fn lemma_cell_degree_upto(
    above: Seq<bool>,
    ci: int,
    cj: int,
    e: EdgeId,
    pairs: Seq<(u8, u8)>,
    n: int,
)
    requires
        pairs == edge_pairs_of(cell_case(above, ci, cj)),
        0 <= n <= pairs.len(),
        forall|t: int| 0 <= t < pairs.len() ==> #[trigger] pairs[t].0 < 4 && pairs[t].1 < 4,
    ensures
        degree_upto(cell_segments(above, ci, cj), e, n) == uses_as(ci, cj, e, pairs.take(n), 0)
            + uses_as(ci, cj, e, pairs.take(n), 1) + uses_as(ci, cj, e, pairs.take(n), 2) + uses_as(
            ci,
            cj,
            e,
            pairs.take(n),
            3,
        ),
    decreases n,
{
    if n == 0 {
        assert(pairs.take(0).len() == 0);
    } else {
        lemma_cell_degree_upto(above, ci, cj, e, pairs, n - 1);
        let p = pairs[n - 1];
        assert(p.0 < 4 && p.1 < 4);
        assert(pairs.take(n).drop_last() =~= pairs.take(n - 1));
        assert(pairs.take(n).last() == p);
        assert(cell_segments(above, ci, cj)[n - 1] == (
            edge_of_cell(ci as usize, cj as usize, p.0),
            edge_of_cell(ci as usize, cj as usize, p.1),
        ));
    }
}

/// The segment ends of a cell at edge `e` are its sides that are `e` and straddle the
/// threshold.
proof fn lemma_cell_degree(above: Seq<bool>, ci: int, cj: int, e: EdgeId)
    ensures
        degree(cell_segments(above, ci, cj), e) == cell_edge_count(above, ci, cj, e),
{
    let case = cell_case(above, ci, cj);
    let all = edge_pairs_of(case);
    lemma_corner_bits(above, ci, cj);
    lemma_segments_end_on_straddling_sides(case, 0);
    lemma_segments_end_on_straddling_sides(case, 1);
    lemma_segments_end_on_straddling_sides(case, 2);
    lemma_segments_end_on_straddling_sides(case, 3);
    lemma_cell_degree_upto(above, ci, cj, e, all, all.len() as int);
    assert(all.take(all.len() as int) =~= all);
}

/// Lists that agree on their first `n` segments agree on the segment ends there.
proof fn lemma_degree_prefix(a: Seq<(EdgeId, EdgeId)>, b: Seq<(EdgeId, EdgeId)>, e: EdgeId, n: int)
    requires
        0 <= n <= a.len(),
        n <= b.len(),
        forall|i: int| 0 <= i < n ==> a[i] == b[i],
    ensures
        degree_upto(a, e, n) == degree_upto(b, e, n),
    decreases n,
{
    if n > 0 {
        lemma_degree_prefix(a, b, e, n - 1);
    }
}

/// The segment ends at `e` of two lists put one after the other add up.
proof fn lemma_degree_concat(s1: Seq<(EdgeId, EdgeId)>, s2: Seq<(EdgeId, EdgeId)>, e: EdgeId, n: int)
    requires
        0 <= n <= s2.len(),
    ensures
        degree_upto(s1 + s2, e, s1.len() + n) == degree(s1, e) + degree_upto(s2, e, n),
    decreases n,
{
    if n == 0 {
        lemma_degree_prefix(s1, s1 + s2, e, s1.len() as int);
    } else {
        lemma_degree_concat(s1, s2, e, n - 1);
        assert((s1 + s2)[s1.len() + n - 1] == s2[n - 1]);
    }
}

/// How many (cell, side) pairs among the first `k` cells (row by row) are edge `e` with
/// straddling corners.
pub open spec fn grid_count(above: Seq<bool>, e: EdgeId, k: int) -> int
    decreases k,
{
    if k <= 0 {
        0
    } else {
        grid_count(above, e, k - 1) + cell_edge_count(
            above,
            (k - 1) % (GRID_SIZE - 1) as int,
            (k - 1) / (GRID_SIZE - 1) as int,
            e,
        )
    }
}

/// The segment ends at `e` among the segments of the first `k` cells are the straddling sides
/// of those cells that are `e`.
proof fn lemma_grid_degree(above: Seq<bool>, e: EdgeId, k: int)
    requires
        0 <= k,
    ensures
        degree(segments_upto(above, k), e) == grid_count(above, e, k),
    decreases k,
{
    if k > 0 {
        lemma_grid_degree(above, e, k - 1);
        let prev = segments_upto(above, k - 1);
        let cell = cell_segments(above, (k - 1) % (GRID_SIZE - 1) as int, (k - 1) / (GRID_SIZE
            - 1) as int);
        lemma_degree_concat(prev, cell, e, cell.len() as int);
        lemma_cell_degree(above, (k - 1) % (GRID_SIZE - 1) as int, (k - 1) / (GRID_SIZE - 1) as int, e);
    }
}

/// Whether the two grid points at the ends of edge `e` lie on opposite sides of the threshold.
pub open spec fn edge_straddles(above: Seq<bool>, e: EdgeId) -> bool {
    match e {
        EdgeId::Horizontal(i, j) => above_at(above, i as int, j as int) != above_at(
            above,
            i + 1,
            j as int,
        ),
        EdgeId::Vertical(i, j) => above_at(above, i as int, j as int) != above_at(
            above,
            i as int,
            j + 1,
        ),
    }
}

/// The cell of which `e` is the bottom side (horizontal) or the left side (vertical).
pub open spec fn first_cell(e: EdgeId) -> (int, int) {
    match e {
        EdgeId::Horizontal(i, j) => (i as int, j as int),
        EdgeId::Vertical(i, j) => (i as int, j as int),
    }
}

/// The cell of which `e` is the top side (horizontal) or the right side (vertical).
pub open spec fn second_cell(e: EdgeId) -> (int, int) {
    match e {
        EdgeId::Horizontal(i, j) => (i as int, j - 1),
        EdgeId::Vertical(i, j) => (i - 1, j as int),
    }
}

/// Whether `c` is one of the marching-squares cells of the grid.
pub open spec fn in_grid(c: (int, int)) -> bool {
    0 <= c.0 < GRID_SIZE - 1 && 0 <= c.1 < GRID_SIZE - 1
}

/// The position of cell `c` in the row-by-row scan.
pub open spec fn cell_index(c: (int, int)) -> int {
    c.1 * (GRID_SIZE - 1) + c.0
}

/// 1 if `b` holds, else 0.
pub open spec fn indicator(b: bool) -> int {
    if b {
        1
    } else {
        0
    }
}

/// A cell of the grid counts edge `e` once if it is one of the two cells that `e` borders and
/// the ends of `e` straddle the threshold.
proof fn lemma_cell_edge_count(above: Seq<bool>, ci: int, cj: int, e: EdgeId)
    requires
        0 <= ci < GRID_SIZE - 1,
        0 <= cj < GRID_SIZE - 1,
    ensures
        cell_edge_count(above, ci, cj, e) == (if edge_straddles(above, e) {
            indicator((ci, cj) == first_cell(e)) + indicator((ci, cj) == second_cell(e))
        } else {
            0
        }),
{
    lemma_corner_bits(above, ci, cj);
    assert((ci as usize) as i32 == ci);
    assert((cj as usize) as i32 == cj);
}

/// The cell scanned at position `m` is `(a, b)` exactly when `m` is the position of `(a, b)`.
proof fn lemma_cell_index(m: int, a: int, b: int)
    requires
        0 <= m,
        0 <= a < GRID_SIZE - 1,
        0 <= b,
    ensures
        (m % (GRID_SIZE - 1) as int == a && m / (GRID_SIZE - 1) as int == b) <==> m == cell_index(
            (a, b),
        ),
{
    let d = (GRID_SIZE - 1) as int;
    assert(d == 127);
    vstd::arithmetic::div_mod::lemma_fundamental_div_mod(m, d);
    if m == cell_index((a, b)) {
        vstd::arithmetic::div_mod::lemma_fundamental_div_mod_converse(m, d, b, a);
    }
}

/// Among the first `k` cells of the scan, edge `e` is counted once for each of the (at most
/// two) cells it borders, provided its ends straddle the threshold.
proof fn lemma_grid_count(above: Seq<bool>, e: EdgeId, k: int)
    requires
        0 <= k <= (GRID_SIZE - 1) * (GRID_SIZE - 1),
    ensures
        grid_count(above, e, k) == (if edge_straddles(above, e) {
            indicator(in_grid(first_cell(e)) && cell_index(first_cell(e)) < k) + indicator(
                in_grid(second_cell(e)) && cell_index(second_cell(e)) < k,
            )
        } else {
            0
        }),
    decreases k,
{
    if k > 0 {
        lemma_grid_count(above, e, k - 1);
        let m = k - 1;
        let d = (GRID_SIZE - 1) as int;
        assert(d == 127 && (GRID_SIZE - 1) * (GRID_SIZE - 1) == 127 * 127);
        vstd::arithmetic::div_mod::lemma_fundamental_div_mod(m, d);
        vstd::arithmetic::div_mod::lemma_mod_pos_bound(m, d);
        let ci = m % d;
        let cj = m / d;
        assert(0 <= cj < d);
        lemma_cell_edge_count(above, ci, cj, e);
        let f = first_cell(e);
        let g = second_cell(e);
        if in_grid(f) {
            lemma_cell_index(m, f.0, f.1);
        }
        if in_grid(g) {
            lemma_cell_index(m, g.0, g.1);
        }
    }
}

/// No grid point on the border of the grid exceeds the threshold.
pub open spec fn border_clear(above: Seq<bool>) -> bool {
    forall|gi: int, gj: int|
        0 <= gi < GRID_SIZE && 0 <= gj < GRID_SIZE && (gi == 0 || gj == 0 || gi == GRID_SIZE - 1
            || gj == GRID_SIZE - 1) ==> !#[trigger] above_at(above, gi, gj)
}

/// With a clear border, every grid edge is the end of two segment ends or of none.
proof fn lemma_edge_degree_even(above: Seq<bool>, e: EdgeId)
    requires
        border_clear(above),
    ensures
        degree(segments_upto(above, ((GRID_SIZE - 1) * (GRID_SIZE - 1)) as int), e) == 0 || degree(
            segments_upto(above, ((GRID_SIZE - 1) * (GRID_SIZE - 1)) as int),
            e,
        ) == 2,
{
    let kk = ((GRID_SIZE - 1) * (GRID_SIZE - 1)) as int;
    assert(kk == 127 * 127);
    lemma_grid_degree(above, e, kk);
    lemma_grid_count(above, e, kk);
    let f = first_cell(e);
    let g = second_cell(e);
    if in_grid(f) {
        assert(cell_index(f) < kk);
    }
    if in_grid(g) {
        assert(cell_index(g) < kk);
    }
    if edge_straddles(above, e) {
        match e {
            EdgeId::Horizontal(i, j) => {
                assert(in_grid(f) == in_grid(g));
            },
            EdgeId::Vertical(i, j) => {
                assert(in_grid(f) == in_grid(g));
            },
        }
    }
}

/// Within a cell of the grid, different sides are different grid edges.
proof fn lemma_sides_distinct(ci: int, cj: int, s: u8, t: u8)
    requires
        0 <= ci < GRID_SIZE - 1,
        0 <= cj < GRID_SIZE - 1,
        s < 4,
        t < 4,
        s != t,
    ensures
        edge_of_cell(ci as usize, cj as usize, s) != edge_of_cell(ci as usize, cj as usize, t),
{
    assert((ci as usize) as i32 == ci);
    assert((cj as usize) as i32 == cj);
}

/// No segment of the first `k` cells joins a grid edge to itself.
proof fn lemma_no_self_loops(above: Seq<bool>, k: int)
    requires
        0 <= k <= (GRID_SIZE - 1) * (GRID_SIZE - 1),
    ensures
        forall|x: int|
            0 <= x < segments_upto(above, k).len() ==> #[trigger] segments_upto(above, k)[x].0
                != segments_upto(above, k)[x].1,
    decreases k,
{
    if k > 0 {
        lemma_no_self_loops(above, k - 1);
        let m = k - 1;
        let d = (GRID_SIZE - 1) as int;
        assert(d == 127 && (GRID_SIZE - 1) * (GRID_SIZE - 1) == 127 * 127);
        vstd::arithmetic::div_mod::lemma_fundamental_div_mod(m, d);
        vstd::arithmetic::div_mod::lemma_mod_pos_bound(m, d);
        let ci = m % d;
        let cj = m / d;
        assert(0 <= cj < d);
        let prev = segments_upto(above, m);
        let cell = cell_segments(above, ci, cj);
        let all = segments_upto(above, k);
        assert(all == prev + cell);
        let pairs = edge_pairs_of(cell_case(above, ci, cj));
        lemma_corner_bits(above, ci, cj);
        lemma_segments_end_on_straddling_sides(cell_case(above, ci, cj), 0);
        assert forall|x: int| 0 <= x < all.len() implies #[trigger] all[x].0 != all[x].1 by {
            if x >= prev.len() {
                let t = x - prev.len();
                assert(all[x] == cell[t]);
                lemma_sides_distinct(ci, cj, pairs[t].0, pairs[t].1);
            } else {
                assert(all[x] == prev[x]);
            }
        }
    }
}

/// Contours close when the field's border is clear: if no grid point on the border of the grid
/// exceeds the threshold, every grid edge is the end of exactly two marching-squares segments
/// or of none and no segment joins an edge to itself, so the segments form disjoint cycles,
/// every polyline chained from them is closed, and the polylines have as many edges in all as
/// there are segments (a closed polyline of `n` edges runs along `n` segments).
pub proof fn lemma_clear_border_contours_close(above: Seq<bool>)
    requires
        border_clear(above),
    ensures
        ({
            let segs = segments_upto(above, ((GRID_SIZE - 1) * (GRID_SIZE - 1)) as int);
            &&& forms_cycles(segs)
            &&& forall|k: int|
                0 <= k < chains_of(segs).len() ==> is_closed(segs, #[trigger] chains_of(segs)[k])
            &&& total_len(chains_of(segs)) == segs.len()
        }),
{
    let kk = ((GRID_SIZE - 1) * (GRID_SIZE - 1)) as int;
    let segs = segments_upto(above, kk);
    assert forall|e: EdgeId| #[trigger] degree(segs, e) == 0 || degree(segs, e) == 2 by {
        lemma_edge_degree_even(above, e);
    }
    lemma_no_self_loops(above, kk);
    assert forall|i: int| 0 <= i < segs.len() implies #[trigger] segs[i].0 != segs[i].1 by {}
    lemma_cycles_chain_into_closed_polylines(segs);
}

} // verus!
