//! Deterministic ordering of the contact records of the ball solver.
//!
//! The solver keeps its per-contact accumulators in hash maps, whose iteration order is not
//! reproducible from run to run. The passes that mutate shared per-ball state as they go
//! (friction, restitution, rolling resistance) depend on the order in which contacts are
//! processed, so they process them sorted by key instead: ball-ball contacts by `(i, j)`,
//! ball-wall contacts by the ball index. The payload carried with each key is opaque here.

use vstd::prelude::*;

verus! {

broadcast use vstd::seq_lib::to_multiset_build, vstd::seq_lib::to_multiset_insert;

/// Lexicographic order on ball-ball contact keys `(i, j)`.
pub open spec fn pair_key_le(a: (u32, u32), b: (u32, u32)) -> bool {
    a.0 < b.0 || (a.0 == b.0 && a.1 <= b.1)
}

/// The entries are in nondecreasing `(i, j)` order.
pub open spec fn sorted_by_pair<V>(s: Seq<(u32, u32, V)>) -> bool {
    forall|a: int, b: int|
        0 <= a < b < s.len() ==> pair_key_le((s[a].0, s[a].1), (s[b].0, s[b].1))
}

/// The entries are in nondecreasing ball-index order.
pub open spec fn sorted_by_index<V>(s: Seq<(u32, V)>) -> bool {
    forall|a: int, b: int| 0 <= a < b < s.len() ==> s[a].0 <= s[b].0
}

/// Ball-ball contact entries `(i, j, payload)` rearranged into nondecreasing `(i, j)` order.
/// Entries with equal keys may come out in either order.
pub fn sort_ball_ball_contacts<V: Copy>(entries: Vec<(u32, u32, V)>) -> (sorted: Vec<(u32, u32, V)>)
    ensures
        sorted_by_pair(sorted@),
        sorted@.to_multiset() == entries@.to_multiset(),
{
    let n = entries.len();
    let mut out: Vec<(u32, u32, V)> = Vec::new();
    let mut k: usize = 0;
    assert(out@ =~= entries@.take(0));
    while k < n
        invariant
            n == entries.len(),
            k <= n,
            sorted_by_pair(out@),
            out@.to_multiset() == entries@.take(k as int).to_multiset(),
        decreases n - k,
    {
        let e = entries[k];
        let mut pos: usize = 0;
        while pos < out.len() && !(e.0 < out[pos].0 || (e.0 == out[pos].0 && e.1 < out[pos].1))
            invariant
                pos <= out.len(),
                forall|t: int| 0 <= t < pos ==> pair_key_le((out@[t].0, out@[t].1), (e.0, e.1)),
            decreases out.len() - pos,
        {
            pos += 1;
        }
        let ghost before = out@;
        out.insert(pos, e);
        proof {
            assert(entries@.take(k + 1) =~= entries@.take(k as int).push(e));
            assert forall|a: int, b: int| 0 <= a < b < out@.len() implies pair_key_le(
                (out@[a].0, out@[a].1),
                (out@[b].0, out@[b].1),
            ) by {
                if b < pos {
                } else if b == pos {
                } else if a < pos {
                    assert(pair_key_le((before[a].0, before[a].1), (e.0, e.1)));
                    assert(pair_key_le((before[pos as int].0, before[pos as int].1), (
                        before[b - 1].0,
                        before[b - 1].1,
                    )));
                } else if a == pos {
                    assert(pair_key_le((before[pos as int].0, before[pos as int].1), (
                        before[b - 1].0,
                        before[b - 1].1,
                    )));
                } else {
                }
            }
        }
        k += 1;
    }
    assert(entries@.take(n as int) =~= entries@);
    out
}

/// Ball-wall contact entries `(i, payload)` rearranged into nondecreasing ball-index order.
/// Entries with equal keys may come out in either order.
pub fn sort_ball_wall_contacts<V: Copy>(entries: Vec<(u32, V)>) -> (sorted: Vec<(u32, V)>)
    ensures
        sorted_by_index(sorted@),
        sorted@.to_multiset() == entries@.to_multiset(),
{
    let n = entries.len();
    let mut out: Vec<(u32, V)> = Vec::new();
    let mut k: usize = 0;
    assert(out@ =~= entries@.take(0));
    while k < n
        invariant
            n == entries.len(),
            k <= n,
            sorted_by_index(out@),
            out@.to_multiset() == entries@.take(k as int).to_multiset(),
        decreases n - k,
    {
        let e = entries[k];
        let mut pos: usize = 0;
        while pos < out.len() && out[pos].0 <= e.0
            invariant
                pos <= out.len(),
                forall|t: int| 0 <= t < pos ==> out@[t].0 <= e.0,
            decreases out.len() - pos,
        {
            pos += 1;
        }
        let ghost before = out@;
        out.insert(pos, e);
        proof {
            assert(entries@.take(k + 1) =~= entries@.take(k as int).push(e));
            assert forall|a: int, b: int| 0 <= a < b < out@.len() implies out@[a].0 <= out@[b].0 by {
                if b > pos && a <= pos {
                    assert(before[pos as int].0 <= before[b - 1].0);
                }
            }
        }
        k += 1;
    }
    assert(entries@.take(n as int) =~= entries@);
    out
}

} // verus!
