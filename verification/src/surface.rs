//! Marching-squares topology of the slurry free-surface extraction.
//!
//! The fluid is splatted onto a `GRID_SIZE x GRID_SIZE` scalar field and thresholded; this
//! module takes the thresholded corners (`true` where the field exceeds the threshold), emits the
//! marching-squares segments of every cell as pairs of grid edges, and chains segments that
//! share an edge into polylines. Grid edges are identified by exact integer coordinates
//! ([`EdgeId`]), so the two cells sharing an edge always agree on it.

use std::collections::HashMap;
use vstd::prelude::*;

verus! {

/// Grid points per axis; the grid has `GRID_SIZE - 1` marching-squares cells per axis.
pub const GRID_SIZE: usize = 128;

/// One edge of the grid (between two adjacent grid points), independent of which
/// marching-squares cell references it.
#[derive(Clone, Copy, PartialEq, Eq, Debug, Structural)]
pub enum EdgeId {
    /// Between grid points `(i, j)` and `(i + 1, j)`.
    Horizontal(i32, i32),
    /// Between grid points `(i, j)` and `(i, j + 1)`.
    Vertical(i32, i32),
}

/// The marching-squares segments of a cell with corner bit-mask `case` (bit 0 = bottom-left,
/// bit 1 = bottom-right, bit 2 = top-right, bit 3 = top-left; set if that corner exceeds the
/// threshold), as pairs of the cell's edges (0 = bottom, 1 = right, 2 = top, 3 = left). The two
/// ambiguous cases (5, 10) are resolved with a fixed choice.
pub open spec fn edge_pairs_of(case: u8) -> Seq<(u8, u8)> {
    if case == 0 || case == 15 {
        seq![]
    } else if case == 1 || case == 14 {
        seq![(3u8, 0u8)]
    } else if case == 2 || case == 13 {
        seq![(0u8, 1u8)]
    } else if case == 3 || case == 12 {
        seq![(3u8, 1u8)]
    } else if case == 4 || case == 11 {
        seq![(1u8, 2u8)]
    } else if case == 6 || case == 9 {
        seq![(0u8, 2u8)]
    } else if case == 7 || case == 8 {
        seq![(3u8, 2u8)]
    } else if case == 5 {
        seq![(3u8, 0u8), (1u8, 2u8)]
    } else {
        seq![(0u8, 1u8), (3u8, 2u8)]
    }
}

/// Marching-squares segments for one cell with corner bit-mask `case` (see
/// [`edge_pairs_of`]).
pub fn cell_edge_pairs(case: u8) -> (pairs: Vec<(u8, u8)>)
    requires
        case < 16,
    ensures
        pairs@ == edge_pairs_of(case),
{
    let pairs = match case {
        0 | 15 => vec![],
        1 | 14 => vec![(3, 0)],
        2 | 13 => vec![(0, 1)],
        3 | 12 => vec![(3, 1)],
        4 | 11 => vec![(1, 2)],
        6 | 9 => vec![(0, 2)],
        7 | 8 => vec![(3, 2)],
        5 => vec![(3, 0), (1, 2)],
        _ => vec![(0, 1), (3, 2)],
    };
    assert(pairs@ =~= edge_pairs_of(case));
    pairs
}

/// The grid edge on side `edge_side` (0 = bottom, 1 = right, 2 = top, 3 = left) of the cell
/// whose bottom-left grid point is `(cell_i, cell_j)`.
pub open spec fn edge_of_cell(cell_i: usize, cell_j: usize, edge_side: u8) -> EdgeId {
    let i = cell_i as i32;
    let j = cell_j as i32;
    if edge_side == 0 {
        EdgeId::Horizontal(i, j)
    } else if edge_side == 1 {
        EdgeId::Vertical((i + 1) as i32, j)
    } else if edge_side == 2 {
        EdgeId::Horizontal(i, (j + 1) as i32)
    } else {
        EdgeId::Vertical(i, j)
    }
}

/// The grid edge on side `edge_side` of cell `(cell_i, cell_j)` (see [`edge_of_cell`]).
pub fn cell_edge_id(cell_i: usize, cell_j: usize, edge_side: u8) -> (e: EdgeId)
    requires
        edge_side < 4,
        edge_side == 1 ==> (cell_i as i32) < i32::MAX,
        edge_side == 2 ==> (cell_j as i32) < i32::MAX,
    ensures
        e == edge_of_cell(cell_i, cell_j, edge_side),
{
    let (i, j) = (cell_i as i32, cell_j as i32);
    match edge_side {
        0 => EdgeId::Horizontal(i, j),
        1 => EdgeId::Vertical(i + 1, j),
        2 => EdgeId::Horizontal(i, j + 1),
        _ => EdgeId::Vertical(i, j),
    }
}

/// Whether the grid point `(gi, gj)` exceeds the threshold.
pub open spec fn above_at(above: Seq<bool>, gi: int, gj: int) -> bool {
    above[gj * GRID_SIZE + gi]
}

/// The corner bit-mask of cell `(ci, cj)` (see [`edge_pairs_of`]).
pub open spec fn cell_case(above: Seq<bool>, ci: int, cj: int) -> u8 {
    ((if above_at(above, ci, cj) { 1int } else { 0 }) + (if above_at(above, ci + 1, cj) {
        2int
    } else {
        0
    }) + (if above_at(above, ci + 1, cj + 1) {
        4int
    } else {
        0
    }) + (if above_at(above, ci, cj + 1) {
        8int
    } else {
        0
    })) as u8
}

/// The segments of cell `(ci, cj)`, as pairs of grid edges.
pub open spec fn cell_segments(above: Seq<bool>, ci: int, cj: int) -> Seq<(EdgeId, EdgeId)> {
    edge_pairs_of(cell_case(above, ci, cj)).map_values(
        |p: (u8, u8)|
            (
                edge_of_cell(ci as usize, cj as usize, p.0),
                edge_of_cell(ci as usize, cj as usize, p.1),
            ),
    )
}

/// The segments of the first `k` cells, visiting cells row by row (`cj` outer, `ci` inner).
pub open spec fn segments_upto(above: Seq<bool>, k: int) -> Seq<(EdgeId, EdgeId)>
    decreases k,
{
    if k <= 0 {
        Seq::empty()
    } else {
        segments_upto(above, k - 1) + cell_segments(
            above,
            (k - 1) % (GRID_SIZE - 1) as int,
            (k - 1) / (GRID_SIZE - 1) as int,
        )
    }
}

/// Every marching-squares segment of the thresholded field `above` (one flag per grid point,
/// row by row), cell by cell, row by row.
pub fn contour_segments(above: &Vec<bool>) -> (segments: Vec<(EdgeId, EdgeId)>)
    requires
        above.len() == GRID_SIZE * GRID_SIZE,
    ensures
        segments@ == segments_upto(above@, ((GRID_SIZE - 1) * (GRID_SIZE - 1)) as int),
{
    let cells: usize = GRID_SIZE - 1;
    let mut segments: Vec<(EdgeId, EdgeId)> = Vec::new();
    let mut cj: usize = 0;
    while cj < cells
        invariant
            cells == GRID_SIZE - 1,
            above.len() == GRID_SIZE * GRID_SIZE,
            cj <= cells,
            segments@ == segments_upto(above@, (cj * cells) as int),
        decreases cells - cj,
    {
        let mut ci: usize = 0;
        while ci < cells
            invariant
                cells == GRID_SIZE - 1,
                above.len() == GRID_SIZE * GRID_SIZE,
                cj < cells,
                ci <= cells,
                segments@ == segments_upto(above@, (cj * cells + ci) as int),
            decreases cells - ci,
        {
            let row = cj * GRID_SIZE;
            let next_row = (cj + 1) * GRID_SIZE;
            let mut case: u8 = 0;
            if above[row + ci] {
                case = case + 1;
            }
            if above[row + ci + 1] {
                case = case + 2;
            }
            if above[next_row + ci + 1] {
                case = case + 4;
            }
            if above[next_row + ci] {
                case = case + 8;
            }
            assert(case == cell_case(above@, ci as int, cj as int));
            let pairs = cell_edge_pairs(case);
            let ghost before = segments@;
            let mut t: usize = 0;
            while t < pairs.len()
                invariant
                    ci < cells,
                    cj < cells,
                    cells == GRID_SIZE - 1,
                    pairs@ == edge_pairs_of(case),
                    case == cell_case(above@, ci as int, cj as int),
                    t <= pairs.len(),
                    segments@ == before + cell_segments(above@, ci as int, cj as int).take(t as int),
                decreases pairs.len() - t,
            {
                let (a, b) = pairs[t];
                segments.push((cell_edge_id(ci, cj, a), cell_edge_id(ci, cj, b)));
                assert(cell_segments(above@, ci as int, cj as int).take(t + 1) =~= cell_segments(
                    above@,
                    ci as int,
                    cj as int,
                ).take(t as int).push(cell_segments(above@, ci as int, cj as int)[t as int]));
                t += 1;
            }
            assert(cell_segments(above@, ci as int, cj as int).take(pairs.len() as int)
                =~= cell_segments(above@, ci as int, cj as int));
            assert((cj * cells + ci) % (cells as int) == ci) by (nonlinear_arith)
                requires
                    ci < cells,
                    cells > 0,
            ;
            assert((cj * cells + ci) / (cells as int) == cj) by (nonlinear_arith)
                requires
                    ci < cells,
                    cells > 0,
            ;
            ci += 1;
        }
        assert(cj * cells + cells == (cj + 1) * cells) by (nonlinear_arith);
        cj += 1;
    }
    segments
}

/// The integer key a grid edge is indexed under: injective over all edges (see
/// [`lemma_edge_key_injective`]).
pub open spec fn edge_key(e: EdgeId) -> u128 {
    match e {
        EdgeId::Horizontal(i, j) => ((i + 0x8000_0000) * 0x1_0000_0000 + (j + 0x8000_0000)) as u128,
        EdgeId::Vertical(i, j) => (0x1_0000_0000_0000_0000 + (i + 0x8000_0000) * 0x1_0000_0000 + (j
            + 0x8000_0000)) as u128,
    }
}

/// Indices of the first `n` segments touching edge `e`, in increasing order; a segment whose
/// two ends are both `e` is listed twice.
pub open spec fn incident_upto(segs: Seq<(EdgeId, EdgeId)>, e: EdgeId, n: int) -> Seq<usize>
    decreases n,
{
    if n <= 0 {
        Seq::empty()
    } else {
        incident_upto(segs, e, n - 1) + (if segs[n - 1].0 == e {
            seq![(n - 1) as usize]
        } else {
            Seq::empty()
        }) + (if segs[n - 1].1 == e {
            seq![(n - 1) as usize]
        } else {
            Seq::empty()
        })
    }
}

/// `by_edge` indexes `segs`: under the key of each edge it lists the segments touching that
/// edge, in increasing order, and edges no segment touches have no entry.
pub open spec fn indexes_segments(by_edge: Map<u128, Vec<usize>>, segs: Seq<(EdgeId, EdgeId)>) -> bool {
    forall|e: EdgeId|
        #![trigger incident_upto(segs, e, segs.len() as int)]
        (by_edge.contains_key(edge_key(e)) && by_edge[edge_key(e)]@ == incident_upto(
            segs,
            e,
            segs.len() as int,
        )) || (!by_edge.contains_key(edge_key(e)) && incident_upto(
            segs,
            e,
            segs.len() as int,
        ).len() == 0)
}

/// Segment `idx` is not yet used and touches edge `e`.
pub open spec fn is_open_at(
    segs: Seq<(EdgeId, EdgeId)>,
    visited: Seq<bool>,
    e: EdgeId,
    idx: int,
) -> bool {
    0 <= idx < segs.len() && idx < visited.len() && !visited[idx] && (segs[idx].0 == e
        || segs[idx].1 == e)
}

/// The smallest index, from `j` on, of an unused segment touching `e`.
pub open spec fn first_open_from(
    segs: Seq<(EdgeId, EdgeId)>,
    visited: Seq<bool>,
    e: EdgeId,
    j: int,
) -> Option<int>
    decreases segs.len() - j,
{
    if j < 0 || j >= segs.len() {
        None
    } else if is_open_at(segs, visited, e, j) {
        Some(j)
    } else {
        first_open_from(segs, visited, e, j + 1)
    }
}

/// The end of segment `s` other than `e`.
pub open spec fn other_end(s: (EdgeId, EdgeId), e: EdgeId) -> EdgeId {
    if s.0 == e {
        s.1
    } else {
        s.0
    }
}

/// How many entries of `v` are `false`.
pub open spec fn count_false(v: Seq<bool>) -> nat
    decreases v.len(),
{
    if v.len() == 0 {
        0
    } else {
        count_false(v.drop_last()) + (if v.last() {
            0nat
        } else {
            1nat
        })
    }
}

/// Marking an unused entry used removes one `false`.
pub proof fn lemma_count_false_mark(v: Seq<bool>, i: int)
    requires
        0 <= i < v.len(),
        !v[i],
    ensures
        count_false(v.update(i, true)) + 1 == count_false(v),
    decreases v.len(),
{
    if i < v.len() - 1 {
        lemma_count_false_mark(v.drop_last(), i);
        assert(v.update(i, true).drop_last() =~= v.drop_last().update(i, true));
    } else {
        assert(v.update(i, true).drop_last() =~= v.drop_last());
    }
}

/// [`first_open_from`] finds the smallest open index from `j` on, or none.
pub proof fn lemma_first_open_from(
    segs: Seq<(EdgeId, EdgeId)>,
    visited: Seq<bool>,
    e: EdgeId,
    j: int,
)
    requires
        0 <= j,
    ensures
        match first_open_from(segs, visited, e, j) {
            Some(i) => j <= i && is_open_at(segs, visited, e, i) && forall|k: int|
                j <= k < i ==> !is_open_at(segs, visited, e, k),
            None => forall|k: int| j <= k ==> !is_open_at(segs, visited, e, k),
        },
    decreases segs.len() - j,
{
    if j < segs.len() && !is_open_at(segs, visited, e, j) {
        lemma_first_open_from(segs, visited, e, j + 1);
    }
}

/// The greedy walk from edge `tip`: repeatedly take the smallest-index unused segment touching
/// the current tip, mark it used and move to its other end, until no unused segment touches the
/// tip. Returns the edges reached, in order, and the used flags afterwards.
pub open spec fn walk(segs: Seq<(EdgeId, EdgeId)>, visited: Seq<bool>, tip: EdgeId) -> (Seq<EdgeId>, Seq<bool>)
    decreases count_false(visited),
{
    match first_open_from(segs, visited, tip, 0) {
        None => (Seq::empty(), visited),
        Some(i) => {
            proof {
                lemma_first_open_from(segs, visited, tip, 0);
                lemma_count_false_mark(visited, i);
            }
            let o = other_end(segs[i], tip);
            let rest = walk(segs, visited.update(i, true), o);
            (seq![o] + rest.0, rest.1)
        },
    }
}

/// Facts about the incidence lists: they hold exactly the (in-range) segments touching the
/// edge, in nondecreasing order.
pub proof fn lemma_incident_upto(segs: Seq<(EdgeId, EdgeId)>, e: EdgeId, n: int)
    requires
        0 <= n <= segs.len(),
        segs.len() <= usize::MAX,
    ensures
        forall|q: int|
            0 <= q < incident_upto(segs, e, n).len() ==> {
                let idx = #[trigger] incident_upto(segs, e, n)[q];
                idx < n && (segs[idx as int].0 == e || segs[idx as int].1 == e)
            },
        forall|k: int|
            0 <= k < n && (segs[k].0 == e || segs[k].1 == e) ==> incident_upto(segs, e, n).contains(
                k as usize,
            ),
        forall|q: int, r: int|
            0 <= q <= r < incident_upto(segs, e, n).len() ==> incident_upto(segs, e, n)[q]
                <= incident_upto(segs, e, n)[r],
    decreases n,
{
    if n > 0 {
        lemma_incident_upto(segs, e, n - 1);
        let prev = incident_upto(segs, e, n - 1);
        let cur = incident_upto(segs, e, n);
        assert forall|k: int| 0 <= k < n && (segs[k].0 == e || segs[k].1 == e) implies cur.contains(
            k as usize,
        ) by {
            if k < n - 1 {
                let q = choose|q: int| 0 <= q < prev.len() && prev[q] == k as usize;
                assert(cur[q] == k as usize);
            } else {
                assert(cur[cur.len() - 1] == k as usize);
            }
        }
    }
}

/// The first unused segment in an incidence list is the smallest unused segment touching the
/// edge.
proof fn lemma_first_unvisited_candidate(
    segs: Seq<(EdgeId, EdgeId)>,
    visited: Seq<bool>,
    e: EdgeId,
    p: int,
)
    requires
        segs.len() <= usize::MAX,
        visited.len() == segs.len(),
        0 <= p < incident_upto(segs, e, segs.len() as int).len(),
        !visited[incident_upto(segs, e, segs.len() as int)[p] as int],
        forall|q: int|
            0 <= q < p ==> visited[#[trigger] incident_upto(segs, e, segs.len() as int)[q] as int],
    ensures
        first_open_from(segs, visited, e, 0) == Some(incident_upto(segs, e, segs.len() as int)[p] as int),
{
    let list = incident_upto(segs, e, segs.len() as int);
    lemma_incident_upto(segs, e, segs.len() as int);
    lemma_first_open_from(segs, visited, e, 0);
    let m = list[p] as int;
    assert(list[p] == list[p]);
    assert(is_open_at(segs, visited, e, m));
    assert forall|k: int| 0 <= k < m implies !is_open_at(segs, visited, e, k) by {
        if is_open_at(segs, visited, e, k) {
            assert(list.contains(k as usize));
            let q = choose|q: int| 0 <= q < list.len() && list[q] == k as usize;
            if q >= p {
                assert(list[p] <= list[q]);
            }
            assert(visited[list[q] as int]);
        }
    }
}

/// With every listed segment used, no unused segment touches the edge.
proof fn lemma_no_unvisited_candidate(segs: Seq<(EdgeId, EdgeId)>, visited: Seq<bool>, e: EdgeId)
    requires
        segs.len() <= usize::MAX,
        visited.len() == segs.len(),
        forall|q: int|
            0 <= q < incident_upto(segs, e, segs.len() as int).len() ==> visited[#[trigger] incident_upto(
                segs,
                e,
                segs.len() as int,
            )[q] as int],
    ensures
        first_open_from(segs, visited, e, 0) is None,
{
    let list = incident_upto(segs, e, segs.len() as int);
    lemma_incident_upto(segs, e, segs.len() as int);
    lemma_first_open_from(segs, visited, e, 0);
    if first_open_from(segs, visited, e, 0) is Some {
        let m = first_open_from(segs, visited, e, 0)->0;
        assert(list.contains(m as usize));
        let q = choose|q: int| 0 <= q < list.len() && list[q] == m as usize;
        assert(visited[list[q] as int]);
    }
}

/// The integer key an edge is indexed under (see [`edge_key`]).
pub fn edge_key_of(e: EdgeId) -> (k: u128)
    ensures
        k == edge_key(e),
{
    match e {
        EdgeId::Horizontal(i, j) => {
            let hi = (i as i64 + 0x8000_0000) as u128;
            let lo = (j as i64 + 0x8000_0000) as u128;
            hi * 0x1_0000_0000 + lo
        },
        EdgeId::Vertical(i, j) => {
            let hi = (i as i64 + 0x8000_0000) as u128;
            let lo = (j as i64 + 0x8000_0000) as u128;
            0x1_0000_0000_0000_0000 + hi * 0x1_0000_0000 + lo
        },
    }
}

/// Follows unused segments sharing an endpoint with the current end (`forward`) or start
/// (`!forward`) of `chain`, appending (or prepending) their other endpoint and marking them
/// used, until no unused segment continues the chain. At each step the smallest-index unused
/// segment at the tip is taken (see [`walk`]).
pub fn extend_chain(
    chain: &mut Vec<EdgeId>,
    segments: &Vec<(EdgeId, EdgeId)>,
    by_edge: &HashMap<u128, Vec<usize>>,
    visited: &mut Vec<bool>,
    forward: bool,
)
    requires
        old(chain).len() > 0,
        old(visited).len() == segments.len(),
        indexes_segments(by_edge@, segments@),
    ensures
        final(visited)@.len() == old(visited)@.len(),
        ({
            let tip = if forward {
                old(chain)@.last()
            } else {
                old(chain)@[0]
            };
            let w = walk(segments@, old(visited)@, tip);
            &&& final(visited)@ == w.1
            &&& final(chain)@ == if forward {
                old(chain)@ + w.0
            } else {
                w.0.reverse() + old(chain)@
            }
        }),
{
    broadcast use vstd::std_specs::hash::group_hash_axioms;
    let ghost segs = segments@;
    let ghost chain0 = chain@;
    let ghost tip0 = if forward {
        chain0.last()
    } else {
        chain0[0]
    };
    let ghost w0 = walk(segs, visited@, tip0);
    let ghost mut done: Seq<EdgeId> = Seq::empty();
    assert(chain@ =~= if forward {
        chain0 + done
    } else {
        done.reverse() + chain0
    });
    loop
        invariant
            segs == segments@,
            chain@.len() > 0,
            visited@.len() == segments.len(),
            indexes_segments(by_edge@, segments@),
            chain@ == if forward {
                chain0 + done
            } else {
                done.reverse() + chain0
            },
            w0 == walk(segs, old(visited)@, tip0),
            old(visited)@.len() == segments.len(),
            chain0 == old(chain)@,
            tip0 == if forward {
                chain0.last()
            } else {
                chain0[0]
            },
            ({
                let tip = if forward {
                    chain@.last()
                } else {
                    chain@[0]
                };
                let w = walk(segs, visited@, tip);
                w0.0 == done + w.0 && w0.1 == w.1
            }),
        decreases count_false(visited@),
    {
        let tip = if forward {
            chain[chain.len() - 1]
        } else {
            chain[0]
        };
        proof {
            lemma_incident_upto(segs, tip, segs.len() as int);
        }
        let key = edge_key_of(tip);
        let candidates = match by_edge.get(&key) {
            Some(c) => c,
            None => {
                proof {
                    lemma_no_unvisited_candidate(segs, visited@, tip);
                    assert(walk(segs, visited@, tip) == (Seq::<EdgeId>::empty(), visited@));
                    assert(w0.0 =~= done);
                }
                return ;
            },
        };
        assert(candidates@ == incident_upto(segs, tip, segs.len() as int));
        let mut p: usize = 0;
        while p < candidates.len()
            invariant
                candidates@ == incident_upto(segs, tip, segs.len() as int),
                visited@.len() == segments.len(),
                segs == segments@,
                p <= candidates.len(),
                forall|q: int|
                    0 <= q < candidates.len() ==> #[trigger] candidates@[q] < segments.len(),
                forall|q: int| 0 <= q < p ==> visited@[#[trigger] candidates@[q] as int],
            ensures
                p <= candidates.len(),
                forall|q: int| 0 <= q < p ==> visited@[#[trigger] candidates@[q] as int],
                p < candidates.len() ==> !visited@[candidates@[p as int] as int],
            decreases candidates.len() - p,
        {
            if !visited[candidates[p]] {
                break;
            }
            p += 1;
        }
        if p == candidates.len() {
            proof {
                lemma_no_unvisited_candidate(segs, visited@, tip);
                assert(walk(segs, visited@, tip) == (Seq::<EdgeId>::empty(), visited@));
                assert(w0.0 =~= done);
            }
            return ;
        }
        let next_idx = candidates[p];
        proof {
            lemma_first_unvisited_candidate(segs, visited@, tip, p as int);
            lemma_first_open_from(segs, visited@, tip, 0);
        }
        let ghost v_before = visited@;
        visited.set(next_idx, true);
        let (a, b) = segments[next_idx];
        let other = if a == tip {
            b
        } else {
            a
        };
        assert(other == other_end(segs[next_idx as int], tip));
        if forward {
            chain.push(other);
        } else {
            chain.insert(0, other);
        }
        proof {
            lemma_count_false_mark(v_before, next_idx as int);
            let w_prev = walk(segs, v_before, tip);
            let w_next = walk(segs, visited@, other);
            assert(w_prev.0 == seq![other] + w_next.0);
            assert(done + w_prev.0 =~= done.push(other) + w_next.0);
            done = done.push(other);
            if forward {
                assert(chain@ =~= chain0 + done);
            } else {
                assert(done.reverse() =~= seq![other] + done.drop_last().reverse());
                assert(chain@ =~= done.reverse() + chain0);
            }
        }
    }
}

/// The polyline grown from unused segment `start`: its two edges, extended forward from its
/// second edge and then backward from its first, with the closing repeat of the first edge
/// dropped if the polyline closed on itself. Returns the polyline and the used flags after.
pub open spec fn chain_from(segs: Seq<(EdgeId, EdgeId)>, visited: Seq<bool>, start: int) -> (Seq<EdgeId>, Seq<bool>) {
    let v1 = visited.update(start, true);
    let a0 = segs[start].0;
    let b0 = segs[start].1;
    let fw = walk(segs, v1, b0);
    let c1 = seq![a0, b0] + fw.0;
    let bw = walk(segs, fw.1, a0);
    let c2 = bw.0.reverse() + c1;
    let c3 = if c2.len() > 1 && c2[0] == c2.last() {
        c2.drop_last()
    } else {
        c2
    };
    (c3, bw.1)
}

/// The polylines grown from every segment that is still unused when the scan reaches it,
/// scanning from segment `start` on.
pub open spec fn chains_from(segs: Seq<(EdgeId, EdgeId)>, visited: Seq<bool>, start: int) -> Seq<Seq<EdgeId>>
    decreases segs.len() - start,
{
    if start < 0 || start >= segs.len() {
        Seq::empty()
    } else if visited[start] {
        chains_from(segs, visited, start + 1)
    } else {
        let c = chain_from(segs, visited, start);
        seq![c.0] + chains_from(segs, c.1, start + 1)
    }
}

/// The polylines of a whole segment list (see [`chains_from`]).
pub open spec fn chains_of(segs: Seq<(EdgeId, EdgeId)>) -> Seq<Seq<EdgeId>> {
    chains_from(segs, Seq::new(segs.len(), |i: int| false), 0)
}

/// Adds segment `idx` to the incidence list of edge `e`.
fn index_edge(by_edge: &mut HashMap<u128, Vec<usize>>, e: EdgeId, idx: usize)
    ensures
        final(by_edge)@.dom() == old(by_edge)@.dom().insert(edge_key(e)),
        forall|k: u128|
            k != edge_key(e) && #[trigger] old(by_edge)@.contains_key(k) ==> final(by_edge)@[k]
                == old(by_edge)@[k],
        final(by_edge)@[edge_key(e)]@ == (if old(by_edge)@.contains_key(edge_key(e)) {
            old(by_edge)@[edge_key(e)]@
        } else {
            Seq::empty()
        }).push(idx),
{
    broadcast use vstd::std_specs::hash::group_hash_axioms;
    let key = edge_key_of(e);
    let mut list = match by_edge.remove(&key) {
        Some(v) => v,
        None => Vec::new(),
    };
    list.push(idx);
    by_edge.insert(key, list);
}

/// The edge key is injective: distinct edges never share an index entry.
pub proof fn lemma_edge_key_injective(e1: EdgeId, e2: EdgeId)
    ensures
        edge_key(e1) == edge_key(e2) ==> e1 == e2,
{
}

/// Indexes `segments` by edge: under each edge's key, the segments touching it, in increasing
/// order.
pub fn index_segments(segments: &Vec<(EdgeId, EdgeId)>) -> (by_edge: HashMap<u128, Vec<usize>>)
    ensures
        indexes_segments(by_edge@, segments@),
        forall|k: u128|
            #[trigger] by_edge@.contains_key(k) ==> exists|e: EdgeId|
                edge_key(e) == k && incident_upto(segments@, e, segments@.len() as int).len() > 0,
{
    broadcast use vstd::std_specs::hash::group_hash_axioms;
    let ghost segs = segments@;
    let n = segments.len();
    let mut by_edge: HashMap<u128, Vec<usize>> = HashMap::new();
    let mut idx: usize = 0;
    while idx < n
        invariant
            segs == segments@,
            n == segments.len(),
            idx <= n,
            forall|e: EdgeId|
                #![trigger incident_upto(segs, e, idx as int)]
                (by_edge@.contains_key(edge_key(e)) && by_edge@[edge_key(e)]@ == incident_upto(
                    segs,
                    e,
                    idx as int,
                )) || (!by_edge@.contains_key(edge_key(e)) && incident_upto(
                    segs,
                    e,
                    idx as int,
                ).len() == 0),
            forall|k: u128|
                #[trigger] by_edge@.contains_key(k) ==> exists|e: EdgeId|
                    edge_key(e) == k && incident_upto(segs, e, idx as int).len() > 0,
        decreases n - idx,
    {
        let (a, b) = segments[idx];
        let ghost m0 = by_edge@;
        index_edge(&mut by_edge, a, idx);
        let ghost m1 = by_edge@;
        index_edge(&mut by_edge, b, idx);
        proof {
            assert forall|e: EdgeId|
                (by_edge@.contains_key(edge_key(e)) && by_edge@[edge_key(e)]@ == incident_upto(
                    segs,
                    e,
                    idx + 1,
                )) || (!by_edge@.contains_key(edge_key(e)) && incident_upto(
                    segs,
                    e,
                    idx + 1,
                ).len() == 0) by {
                lemma_edge_key_injective(e, a);
                lemma_edge_key_injective(e, b);
                assert(incident_upto(segs, e, idx as int) == incident_upto(segs, e, idx as int));
                let prev = incident_upto(segs, e, idx as int);
                if e == a && e == b {
                    assert(incident_upto(segs, e, idx + 1) =~= prev.push(idx).push(idx));
                } else if e == a {
                    assert(incident_upto(segs, e, idx + 1) =~= prev.push(idx));
                } else if e == b {
                    assert(incident_upto(segs, e, idx + 1) =~= prev.push(idx));
                } else {
                    assert(incident_upto(segs, e, idx + 1) =~= prev);
                    if m0.contains_key(edge_key(e)) {
                        assert(m1[edge_key(e)] == m0[edge_key(e)]);
                    }
                }
            }
            assert forall|k: u128| #[trigger] by_edge@.contains_key(k) implies exists|e: EdgeId|
                edge_key(e) == k && incident_upto(segs, e, idx + 1).len() > 0 by {
                if k == edge_key(a) {
                    assert(incident_upto(segs, a, idx + 1).len() > 0);
                } else if k == edge_key(b) {
                    assert(incident_upto(segs, b, idx + 1).len() > 0);
                } else {
                    assert(m0.contains_key(k));
                    let e = choose|e: EdgeId| edge_key(e) == k && incident_upto(segs, e, idx as int).len() > 0;
                    assert(incident_upto(segs, e, idx + 1).len() >= incident_upto(segs, e, idx as int).len());
                }
            }
        }
        idx += 1;
    }
    assert(indexes_segments(by_edge@, segs));
    by_edge
}

/// Chains segments sharing an edge into polylines: every segment still unused when the scan
/// reaches it starts a new polyline, grown forward and then backward through unused segments
/// (see [`chains_from`]). A polyline that closed on itself does not repeat its first edge.
/// Contours reaching the grid boundary stay open.
pub fn chain_segments(segments: &Vec<(EdgeId, EdgeId)>) -> (polygons: Vec<Vec<EdgeId>>)
    ensures
        polygons@.len() == chains_of(segments@).len(),
        forall|k: int| 0 <= k < polygons@.len() ==> #[trigger] polygons@[k]@ == chains_of(segments@)[k],
{
    let ghost segs = segments@;
    let n = segments.len();
    let by_edge = index_segments(segments);
    let mut visited: Vec<bool> = Vec::new();
    while visited.len() < n
        invariant
            visited.len() <= n,
            forall|i: int| 0 <= i < visited.len() ==> !visited@[i],
        decreases n - visited.len(),
    {
        visited.push(false);
    }
    assert(visited@ =~= Seq::new(segs.len(), |i: int| false));
    let ghost mut done: Seq<Seq<EdgeId>> = Seq::empty();
    let mut polygons: Vec<Vec<EdgeId>> = Vec::new();
    let mut start: usize = 0;
    while start < n
        invariant
            segs == segments@,
            n == segments.len(),
            start <= n,
            visited.len() == n,
            indexes_segments(by_edge@, segs),
            polygons@.len() == done.len(),
            forall|k: int| 0 <= k < done.len() ==> #[trigger] polygons@[k]@ == done[k],
            done + chains_from(segs, visited@, start as int) == chains_of(segs),
        decreases n - start,
    {
        if !visited[start] {
            let ghost v0 = visited@;
            visited.set(start, true);
            let (a0, b0) = segments[start];
            let mut chain: Vec<EdgeId> = Vec::new();
            chain.push(a0);
            chain.push(b0);
            extend_chain(&mut chain, segments, &by_edge, &mut visited, true);
            extend_chain(&mut chain, segments, &by_edge, &mut visited, false);
            if chain.len() > 1 && chain[0] == chain[chain.len() - 1] {
                chain.pop();
            }
            proof {
                let c = chain_from(segs, v0, start as int);
                assert(chain@ =~= c.0);
                assert(visited@ == c.1);
                assert(chains_from(segs, v0, start as int) == seq![c.0] + chains_from(
                    segs,
                    c.1,
                    start + 1,
                ));
                assert(done.push(c.0) + chains_from(segs, visited@, start + 1) =~= done
                    + chains_from(segs, v0, start as int));
                done = done.push(c.0);
            }
            polygons.push(chain);
        }
        start += 1;
    }
    assert(done =~= chains_of(segs));
    polygons
}

/// The two grid points `((gi0, gj0), (gi1, gj1))` an edge runs between, lower index first, so
/// that both cells sharing the edge interpolate along it in the same direction.
pub fn edge_endpoints(e: EdgeId) -> (ends: ((usize, usize), (usize, usize)))
    requires
        match e {
            EdgeId::Horizontal(i, j) => 0 <= i && 0 <= j,
            EdgeId::Vertical(i, j) => 0 <= i && 0 <= j,
        },
    ensures
        match e {
            EdgeId::Horizontal(i, j) => ends == ((i as usize, j as usize), ((i + 1) as usize, j as usize)),
            EdgeId::Vertical(i, j) => ends == ((i as usize, j as usize), (i as usize, (j + 1) as usize)),
        },
{
    match e {
        EdgeId::Horizontal(i, j) => ((i as usize, j as usize), (i as usize + 1, j as usize)),
        EdgeId::Vertical(i, j) => ((i as usize, j as usize), (i as usize, j as usize + 1)),
    }
}

/// The free-surface contour topology of the thresholded field `above` (one flag per grid point,
/// row by row): the marching-squares segments of every cell, chained into polylines of grid
/// edges.
pub fn contour_edge_chains(above: &Vec<bool>) -> (polygons: Vec<Vec<EdgeId>>)
    requires
        above.len() == GRID_SIZE * GRID_SIZE,
    ensures
        ({
            let segs = segments_upto(above@, ((GRID_SIZE - 1) * (GRID_SIZE - 1)) as int);
            &&& polygons@.len() == chains_of(segs).len()
            &&& forall|k: int| 0 <= k < polygons@.len() ==> #[trigger] polygons@[k]@ == chains_of(segs)[k]
        }),
{
    let segments = contour_segments(above);
    chain_segments(&segments)
}

} // verus!
