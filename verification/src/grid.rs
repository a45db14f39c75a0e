//! Integer cell bookkeeping of the uniform-grid broadphase.
//!
//! Points are bucketed by their integer cell coordinates; the caller computes each point's cell
//! (or `None` for a point that must never be reported, such as a non-finite one). Cells live in
//! a `BTreeMap`, not a `HashMap`, so that every traversal visits them in the same (sorted) order
//! on every run: the simulation accumulates contact contributions in this order, and must be
//! reproducible from its parameters and seed alone.

use std::collections::BTreeMap;
use vstd::prelude::*;
use vstd::std_specs::cmp::OrdSpec;
use vstd::std_specs::iter::IteratorSpec;

verus! {

/// Integer coordinates of one grid cell.
pub type CellKey = (i32, i32);

/// Indices (in increasing order) of the points whose cell is `c`, among the first
/// `keys.len()` points.
pub open spec fn cell_members(keys: Seq<Option<CellKey>>, c: CellKey) -> Seq<u32>
    decreases keys.len(),
{
    if keys.len() == 0 {
        Seq::empty()
    } else {
        let rest = cell_members(keys.drop_last(), c);
        if keys.last() == Some(c) {
            rest.push((keys.len() - 1) as u32)
        } else {
            rest
        }
    }
}

/// Whether some point has cell `c`.
pub open spec fn is_occupied(keys: Seq<Option<CellKey>>, c: CellKey) -> bool {
    exists|i: int| 0 <= i < keys.len() && keys[i] == Some(c)
}

/// The bucketing of points with cells `keys`: each occupied cell maps to its members.
pub open spec fn bucket(keys: Seq<Option<CellKey>>) -> Map<CellKey, Seq<u32>> {
    Map::new(|c: CellKey| is_occupied(keys, c), |c: CellKey| cell_members(keys, c))
}

/// The order the grid visits its cells in: lexicographic on `(x, y)`.
pub open spec fn key_lt(a: CellKey, b: CellKey) -> bool {
    a.0 < b.0 || (a.0 == b.0 && a.1 < b.1)
}

/// `ks` lists every cell of `m` once, in increasing [`key_lt`] order.
pub open spec fn lists_cells_in_order(ks: Seq<CellKey>, m: Map<CellKey, Seq<u32>>) -> bool {
    &&& forall|i: int, j: int| 0 <= i < j < ks.len() ==> key_lt(ks[i], ks[j])
    &&& forall|i: int| 0 <= i < ks.len() ==> m.contains_key(ks[i])
    &&& forall|c: CellKey| m.contains_key(c) ==> ks.contains(c)
}

/// A candidate pair as reported: smaller index first.
pub open spec fn ordered(x: u32, y: u32) -> (u32, u32) {
    if x <= y {
        (x, y)
    } else {
        (y, x)
    }
}

/// Pairs of the `a`-th member of a cell with each later member of the same cell.
pub open spec fn inner_row(idx: Seq<u32>, a: int) -> Seq<(u32, u32)> {
    Seq::new((idx.len() - a - 1) as nat, |t: int| ordered(idx[a], idx[a + 1 + t]))
}

/// Pairs within one cell contributed by its first `a` members.
pub open spec fn inner_pairs_upto(idx: Seq<u32>, a: int) -> Seq<(u32, u32)>
    decreases a,
{
    if a <= 0 {
        Seq::empty()
    } else {
        inner_pairs_upto(idx, a - 1) + inner_row(idx, a - 1)
    }
}

/// Every pair of distinct members of one cell, in visiting order.
pub open spec fn inner_pairs(idx: Seq<u32>) -> Seq<(u32, u32)> {
    inner_pairs_upto(idx, idx.len() as int)
}

/// Pairs of the `a`-th member of a cell with each member of another cell.
pub open spec fn cross_row(idx: Seq<u32>, other: Seq<u32>, a: int) -> Seq<(u32, u32)> {
    Seq::new(other.len(), |t: int| ordered(idx[a], other[t]))
}

/// Pairs between two cells contributed by the first `a` members of the first.
pub open spec fn cross_pairs_upto(idx: Seq<u32>, other: Seq<u32>, a: int) -> Seq<(u32, u32)>
    decreases a,
{
    if a <= 0 {
        Seq::empty()
    } else {
        cross_pairs_upto(idx, other, a - 1) + cross_row(idx, other, a - 1)
    }
}

/// Every pair with one member in each of two cells, in visiting order.
pub open spec fn cross_pairs(idx: Seq<u32>, other: Seq<u32>) -> Seq<(u32, u32)> {
    cross_pairs_upto(idx, other, idx.len() as int)
}

/// The "forward" half of a cell's 8-neighbourhood: `(1, 0)`, `(1, 1)`, `(0, 1)`, `(-1, 1)`.
/// Visiting only these from every cell covers each unordered pair of distinct adjacent cells
/// once: the mirror-image offsets are what the other cell would use to reach this one.
pub open spec fn forward_offset(o: int) -> (int, int) {
    if o == 0 {
        (1, 0)
    } else if o == 1 {
        (1, 1)
    } else if o == 2 {
        (0, 1)
    } else {
        (-1, 1)
    }
}

/// `a + d`, saturated to the `i32` range.
pub open spec fn saturated(a: i32, d: int) -> i32 {
    if a + d > i32::MAX {
        i32::MAX
    } else if a + d < i32::MIN {
        i32::MIN
    } else {
        (a + d) as i32
    }
}

/// The cell one forward offset `o` away from `c`, or none where that offset leaves the `i32`
/// range: at the edge of the range a cell simply has fewer forward neighbours, so every pair of
/// distinct adjacent cells is still reached from exactly one of the two.
pub open spec fn forward_key(c: CellKey, o: int) -> Option<CellKey> {
    let x = c.0 + forward_offset(o).0;
    let y = c.1 + forward_offset(o).1;
    if i32::MIN <= x <= i32::MAX && i32::MIN <= y <= i32::MAX {
        Some((x as i32, y as i32))
    } else {
        None
    }
}

/// Pairs between cell `c` and its `o`-th forward neighbour, if that is an occupied cell.
pub open spec fn neighbour_part(m: Map<CellKey, Seq<u32>>, c: CellKey, o: int) -> Seq<(u32, u32)> {
    let k = forward_key(c, o);
    if k is Some && m.contains_key(k->0) {
        cross_pairs(m[c], m[k->0])
    } else {
        Seq::empty()
    }
}

/// Pairs between cell `c` and its first `o` forward neighbours.
pub open spec fn neighbour_pairs_upto(m: Map<CellKey, Seq<u32>>, c: CellKey, o: int) -> Seq<(u32, u32)>
    decreases o,
{
    if o <= 0 {
        Seq::empty()
    } else {
        neighbour_pairs_upto(m, c, o - 1) + neighbour_part(m, c, o - 1)
    }
}

/// The pairs reported while visiting cell `c`: its own pairs, then those with each forward
/// neighbour.
pub open spec fn cell_pairs(m: Map<CellKey, Seq<u32>>, c: CellKey) -> Seq<(u32, u32)> {
    inner_pairs(m[c]) + neighbour_pairs_upto(m, c, 4)
}

/// The pairs reported while visiting the first `k` cells of `ks`.
pub open spec fn pairs_upto(m: Map<CellKey, Seq<u32>>, ks: Seq<CellKey>, k: int) -> Seq<(u32, u32)>
    decreases k,
{
    if k <= 0 {
        Seq::empty()
    } else {
        pairs_upto(m, ks, k - 1) + cell_pairs(m, ks[k - 1])
    }
}

/// The `n`-th (`0 <= n < 9`) cell of the 3x3 neighbourhood of `c`, row by row from
/// `(-1, -1)` to `(1, 1)`, saturating at the edge of the `i32` range.
pub open spec fn raw_near_key(c: CellKey, n: int) -> CellKey {
    (saturated(c.0, n % 3 - 1), saturated(c.1, n / 3 - 1))
}

/// The distinct cells among the first `n` neighbourhood cells of `c`, in first-seen order.
pub open spec fn near_keys_upto(c: CellKey, n: int) -> Seq<CellKey>
    decreases n,
{
    if n <= 0 {
        Seq::empty()
    } else {
        let prev = near_keys_upto(c, n - 1);
        let k = raw_near_key(c, n - 1);
        if prev.contains(k) {
            prev
        } else {
            prev.push(k)
        }
    }
}

/// The distinct cells of the 3x3 neighbourhood of `c`. At the edge of the `i32` range the
/// saturated offsets fold onto each other; each cell still appears once.
pub open spec fn near_keys(c: CellKey) -> Seq<CellKey> {
    near_keys_upto(c, 9)
}

/// The members of the first `j` cells of `ks`, concatenated (an unoccupied cell has none).
pub open spec fn members_upto(m: Map<CellKey, Seq<u32>>, ks: Seq<CellKey>, j: int) -> Seq<u32>
    decreases j,
{
    if j <= 0 {
        Seq::empty()
    } else {
        members_upto(m, ks, j - 1) + (if m.contains_key(ks[j - 1]) {
            m[ks[j - 1]]
        } else {
            Seq::empty()
        })
    }
}

proof fn lemma_key_order_laws()
    ensures
        vstd::laws_cmp::obeys_cmp::<CellKey>(),
        vstd::std_specs::btree::key_obeys_cmp_spec::<CellKey>(),
{
    broadcast use vstd::laws_cmp::group_laws_cmp;
    broadcast use vstd::std_specs::btree::group_btree_axioms;
}

/// A uniform grid over a set of 2D points, used to enumerate candidate neighbour pairs (or a
/// point's neighbours) without an all-pairs O(n^2) scan.
pub struct UniformGrid {
    cells: BTreeMap<CellKey, Vec<u32>>,
}

impl View for UniformGrid {
    type V = Map<CellKey, Seq<u32>>;

    closed spec fn view(&self) -> Map<CellKey, Seq<u32>> {
        Map::new(|c: CellKey| self.cells@.contains_key(c), |c: CellKey| self.cells@[c]@)
    }
}

impl UniformGrid {
    /// Buckets point `i` into cell `keys[i]`; a point whose key is `None` (a non-finite point)
    /// is skipped entirely, so it is never reported as anybody's neighbour.
    pub fn build(keys: &Vec<Option<CellKey>>) -> (grid: Self)
        ensures
            grid@ == bucket(keys@),
    {
        proof {
            lemma_key_order_laws();
        }
        broadcast use vstd::std_specs::btree::group_btree_axioms;
        let mut cells: BTreeMap<CellKey, Vec<u32>> = BTreeMap::new();
        let n = keys.len();
        let mut i: usize = 0;
        while i < n
            invariant
                n == keys.len(),
                i <= n,
                forall|c: CellKey|
                    #![trigger cells@.contains_key(c)]
                    cells@.contains_key(c) <==> is_occupied(keys@.take(i as int), c),
                forall|c: CellKey|
                    #![trigger cells@.contains_key(c)]
                    cells@.contains_key(c) ==> cells@[c]@ == cell_members(
                        keys@.take(i as int),
                        c,
                    ),
            decreases n - i,
        {
            let ghost prev = keys@.take(i as int);
            let ghost next = keys@.take(i + 1);
            assert(next.drop_last() =~= prev);
            match keys[i] {
                Some(k) => {
                    let mut members = match cells.remove(&k) {
                        Some(v) => v,
                        None => Vec::new(),
                    };
                    members.push(i as u32);
                    cells.insert(k, members);
                },
                None => {},
            }
            proof {
                assert forall|c: CellKey| is_occupied(next, c) <==> (is_occupied(prev, c) || next[i as int] == Some(c)) by {
                    if is_occupied(next, c) {
                        let j = choose|j: int| 0 <= j < next.len() && next[j] == Some(c);
                        if j < i { assert(prev[j] == Some(c)); }
                    }
                    if is_occupied(prev, c) {
                        let j = choose|j: int| 0 <= j < prev.len() && prev[j] == Some(c);
                        assert(next[j] == Some(c));
                    }
                }
                assert forall|c: CellKey| !is_occupied(prev, c) implies cell_members(prev, c).len() == 0 by {
                    lemma_unoccupied_has_no_members(prev, c);
                }
            }
            i += 1;
        }
        assert(keys@.take(n as int) =~= keys@);
        let grid = UniformGrid { cells };
        assert(grid@ =~= bucket(keys@));
        grid
    }

/// Every point index in the same or an adjacent cell to `c` (a 3x3 neighbourhood), cell by
    /// cell in row order, each cell once even where saturation at the edge of the `i32` range
    /// folds several offsets onto one cell. Used to query the neighbours of a point that is not
    /// itself necessarily one of the grid's points; the caller computes `c` from it (and asks
    /// nothing for a point that has no cell, such as a non-finite one).
    pub fn for_each_near(&self, c: CellKey) -> (found: Vec<u32>)
        ensures
            found@ == members_upto(self@, near_keys(c), near_keys(c).len() as int),
    {
        proof {
            lemma_key_order_laws();
        }
        broadcast use vstd::std_specs::btree::group_btree_axioms;
        let mut keys: Vec<CellKey> = Vec::new();
        let mut n: usize = 0;
        while n < 9
            invariant
                n <= 9,
                keys@ == near_keys_upto(c, n as int),
            decreases 9 - n,
        {
            let dx: i32 = (n % 3) as i32 - 1;
            let dy: i32 = (n / 3) as i32 - 1;
            let key = (saturating_shift(c.0, dx), saturating_shift(c.1, dy));
            assert(key == raw_near_key(c, n as int));
            if !contains_key(&keys, key) {
                keys.push(key);
            }
            n += 1;
        }
        let ghost m = self@;
        let mut found: Vec<u32> = Vec::new();
        let mut j: usize = 0;
        while j < keys.len()
            invariant
                m == self@,
                j <= keys.len(),
                keys@ == near_keys(c),
                found@ == members_upto(m, keys@, j as int),
            decreases keys.len() - j,
        {
            match self.cells.get(&keys[j]) {
                Some(indices) => {
                    let mut t: usize = 0;
                    let ghost before = found@;
                    while t < indices.len()
                        invariant
                            t <= indices.len(),
                            found@ == before + indices@.take(t as int),
                        decreases indices.len() - t,
                    {
                        found.push(indices[t]);
                        assert(indices@.take(t + 1) =~= indices@.take(t as int).push(indices@[t as int]));
                        t += 1;
                    }
                    assert(indices@.take(indices.len() as int) =~= indices@);
                },
                None => {},
            }
            j += 1;
        }
        found
    }

    /// Every candidate pair: each pair of point indices whose cells are the same or adjacent
    /// (a 3x3 neighbourhood), exactly once, smaller index first, in the grid's deterministic
    /// visiting order (cells in increasing `(x, y)` order; see [`cell_pairs`]). A forward offset
    /// that would leave the `i32` range names no cell and is skipped, so cells at the edge of
    /// the range are not visited twice. Callers must still check the actual distance; this only
    /// narrows an O(n^2) scan down to spatially-nearby candidates.
    pub fn for_each_candidate_pair(&self) -> (pairs: Vec<(u32, u32)>)
        ensures
            exists|ks: Seq<CellKey>|
                lists_cells_in_order(ks, self@) && pairs@ == pairs_upto(self@, ks, ks.len() as int),
    {
        proof {
            lemma_key_order_laws();
        }
        broadcast use vstd::std_specs::btree::group_btree_axioms;
        let ghost m = self@;
        let ghost items = vstd::std_specs::btree::spec_btree_map_iter(&self.cells).remaining();
        let ghost ks = items.map_values(|kv: (&CellKey, &Vec<u32>)| *kv.0);
        let mut out: Vec<(u32, u32)> = Vec::new();
        for (key, indices) in it: self.cells.iter()
            invariant
                m == self@,
                it.seq() == items,
                ks == items.map_values(|kv: (&CellKey, &Vec<u32>)| *kv.0),
                vstd::std_specs::btree::increasing_seq(ks),
                out@ == pairs_upto(m, ks, it.index()),
            ensures
                vstd::std_specs::btree::increasing_seq(ks),
                out@ == pairs_upto(m, ks, ks.len() as int),
        {
            assert(m.contains_key(*key));
            assert(indices@ == m[*key]);
            let ghost before = out@;
            push_inner_pairs(&mut out, indices);
            let mut o: usize = 0;
            while o < 4
                invariant
                    m == self@,
                    m.contains_key(*key),
                    indices@ == m[*key],
                    o <= 4,
                    out@ == before + inner_pairs(m[*key]) + neighbour_pairs_upto(m, *key, o as int),
                decreases 4 - o,
            {
                let (dx, dy) = forward_step(o);
                match (key.0.checked_add(dx), key.1.checked_add(dy)) {
                    (Some(x), Some(y)) => {
                        let other_key: CellKey = (x, y);
                        assert(forward_key(*key, o as int) == Some(other_key));
                        match self.cells.get(&other_key) {
                            Some(other) => {
                                push_cross_pairs(&mut out, indices, other);
                            },
                            None => {},
                        }
                    },
                    _ => {
                        assert(forward_key(*key, o as int) is None);
                    },
                }
                o += 1;
            }
            assert(out@ =~= before + cell_pairs(m, *key));
        }
        proof {
            lemma_iteration_lists_cells(&self.cells, items);
            assert(lists_cells_in_order(ks, self@));
        }
        out
    }
}

/// Whether `key` is already in `keys`.
fn contains_key(keys: &Vec<CellKey>, key: CellKey) -> (r: bool)
    ensures
        r == keys@.contains(key),
{
    let mut i: usize = 0;
    while i < keys.len()
        invariant
            i <= keys.len(),
            forall|j: int| 0 <= j < i ==> keys@[j] != key,
        decreases keys.len() - i,
    {
        if keys[i].0 == key.0 && keys[i].1 == key.1 {
            assert(keys@[i as int] == key);
            return true;
        }
        i += 1;
    }
    false
}

/// `(min, max)` of two indices.
fn ordered_pair(x: u32, y: u32) -> (p: (u32, u32))
    ensures
        p == ordered(x, y),
{
    if x <= y {
        (x, y)
    } else {
        (y, x)
    }
}

/// The `o`-th forward offset.
fn forward_step(o: usize) -> (d: (i32, i32))
    requires
        o < 4,
    ensures
        d.0 == forward_offset(o as int).0,
        d.1 == forward_offset(o as int).1,
{
    if o == 0 {
        (1, 0)
    } else if o == 1 {
        (1, 1)
    } else if o == 2 {
        (0, 1)
    } else {
        (-1, 1)
    }
}

/// `a + d`, saturated to the `i32` range (`i32::saturating_add`).
fn saturating_shift(a: i32, d: i32) -> (r: i32)
    ensures
        r == saturated(a, d as int),
{
    if d > 0 && a > i32::MAX - d {
        i32::MAX
    } else if d < 0 && a < i32::MIN - d {
        i32::MIN
    } else {
        a + d
    }
}

/// Appends every pair of distinct members of one cell.
fn push_inner_pairs(out: &mut Vec<(u32, u32)>, idx: &Vec<u32>)
    ensures
        final(out)@ == old(out)@ + inner_pairs(idx@),
{
    let n = idx.len();
    let mut a: usize = 0;
    while a < n
        invariant
            n == idx.len(),
            a <= n,
            out@ == old(out)@ + inner_pairs_upto(idx@, a as int),
        decreases n - a,
    {
        let mut b: usize = a + 1;
        while b < n
            invariant
                n == idx.len(),
                a < n,
                a + 1 <= b <= n,
                out@ == old(out)@ + inner_pairs_upto(idx@, a as int) + inner_row(idx@, a as int).take(
                    b - a - 1,
                ),
            decreases n - b,
        {
            out.push(ordered_pair(idx[a], idx[b]));
            proof {
                assert(inner_row(idx@, a as int).take(b - a) =~= inner_row(idx@, a as int).take(
                    b - a - 1,
                ).push(ordered(idx@[a as int], idx@[b as int])));
            }
            b += 1;
        }
        proof {
            assert(inner_row(idx@, a as int).take(n - a - 1) =~= inner_row(idx@, a as int));
        }
        a += 1;
    }
}

/// Appends every pair with one member in each of two cells.
fn push_cross_pairs(out: &mut Vec<(u32, u32)>, idx: &Vec<u32>, other: &Vec<u32>)
    ensures
        final(out)@ == old(out)@ + cross_pairs(idx@, other@),
{
    let n = idx.len();
    let k = other.len();
    let mut a: usize = 0;
    while a < n
        invariant
            n == idx.len(),
            k == other.len(),
            a <= n,
            out@ == old(out)@ + cross_pairs_upto(idx@, other@, a as int),
        decreases n - a,
    {
        let mut b: usize = 0;
        while b < k
            invariant
                n == idx.len(),
                k == other.len(),
                a < n,
                b <= k,
                out@ == old(out)@ + cross_pairs_upto(idx@, other@, a as int) + cross_row(
                    idx@,
                    other@,
                    a as int,
                ).take(b as int),
            decreases k - b,
        {
            out.push(ordered_pair(idx[a], other[b]));
            proof {
                assert(cross_row(idx@, other@, a as int).take(b + 1) =~= cross_row(
                    idx@,
                    other@,
                    a as int,
                ).take(b as int).push(ordered(idx@[a as int], other@[b as int])));
            }
            b += 1;
        }
        proof {
            assert(cross_row(idx@, other@, a as int).take(k as int) =~= cross_row(
                idx@,
                other@,
                a as int,
            ));
        }
        a += 1;
    }
}

/// Keys strictly increasing in the order `BTreeMap` iterates them are increasing in
/// [`key_lt`].
proof fn lemma_increasing_keys(ks: Seq<CellKey>)
    requires
        vstd::std_specs::btree::increasing_seq(ks),
    ensures
        forall|i: int, j: int| 0 <= i < j < ks.len() ==> key_lt(ks[i], ks[j]),
{
    lemma_key_order_laws();
    broadcast use vstd::std_specs::btree::axiom_increasing_seq_meaning;
    assert forall|i: int, j: int| 0 <= i < j < ks.len() implies key_lt(ks[i], ks[j]) by {
        assert(ks[i].cmp_spec(&ks[j]) is Less);
    }
}

/// The items of a full iteration over the cells list every cell once, in increasing order.
proof fn lemma_iteration_lists_cells(
    cells: &BTreeMap<CellKey, Vec<u32>>,
    items: Seq<(&CellKey, &Vec<u32>)>,
)
    requires
        items == vstd::std_specs::btree::spec_btree_map_iter(cells).remaining(),
        vstd::std_specs::btree::increasing_seq(
            items.map_values(|kv: (&CellKey, &Vec<u32>)| *kv.0),
        ),
    ensures
        ({
            let ks = items.map_values(|kv: (&CellKey, &Vec<u32>)| *kv.0);
            let m = Map::new(|c: CellKey| cells@.contains_key(c), |c: CellKey| cells@[c]@);
            lists_cells_in_order(ks, m)
        }),
{
    lemma_key_order_laws();
    broadcast use vstd::std_specs::btree::group_btree_axioms;
    let ks = items.map_values(|kv: (&CellKey, &Vec<u32>)| *kv.0);
    lemma_increasing_keys(ks);
    assert forall|c: CellKey| cells@.contains_key(c) implies ks.contains(c) by {
        let t = choose|t: int| 0 <= t < items.len() && items[t] == (&c, &cells@[c]);
        assert(ks[t] == c);
    }
}

/// A cell no point has has no members.
proof fn lemma_unoccupied_has_no_members(keys: Seq<Option<CellKey>>, c: CellKey)
    requires
        !is_occupied(keys, c),
    ensures
        cell_members(keys, c).len() == 0,
    decreases keys.len(),
{
    if keys.len() > 0 {
        let rest = keys.drop_last();
        assert(!is_occupied(rest, c)) by {
            if is_occupied(rest, c) {
                let j = choose|j: int| 0 <= j < rest.len() && rest[j] == Some(c);
                assert(keys[j] == Some(c));
            }
        }
        lemma_unoccupied_has_no_members(rest, c);
        assert(keys[keys.len() - 1] != Some(c));
    }
}

} // verus!
