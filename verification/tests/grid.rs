use glam::Vec2;
use mill_core::grid::UniformGrid;

/// Cell of each point for cell side `cell_size`; non-finite points get none.
fn cell_keys(points: &[Vec2], cell_size: f32) -> Vec<Option<(i32, i32)>> {
    points
        .iter()
        .map(|p| {
            if p.is_finite() {
                Some((
                    (p.x / cell_size).floor() as i32,
                    (p.y / cell_size).floor() as i32,
                ))
            } else {
                None
            }
        })
        .collect()
}

fn build(points: &[Vec2], cell_size: f32) -> UniformGrid {
    UniformGrid::build(&cell_keys(points, cell_size))
}

fn near(grid: &UniformGrid, p: Vec2, cell_size: f32) -> Vec<u32> {
    if !p.is_finite() {
        return Vec::new();
    }
    grid.for_each_near((
        (p.x / cell_size).floor() as i32,
        (p.y / cell_size).floor() as i32,
    ))
}

#[test]
fn finds_all_pairs_within_cell_size_no_duplicates_no_self_pairs() {
    let points = vec![
        Vec2::new(0.0, 0.0),
        Vec2::new(0.05, 0.0),
        Vec2::new(0.0, 0.05),
        Vec2::new(100.0, 100.0), // outlier, far from the cluster
    ];
    let grid = build(&points, 0.2);
    let pairs = grid.for_each_candidate_pair();

    for &(i, j) in &pairs {
        assert!(i < j);
    }
    let mut deduped = pairs.clone();
    deduped.sort_unstable();
    deduped.dedup();
    assert_eq!(
        pairs.len(),
        deduped.len(),
        "pair reported more than once: {pairs:?}"
    );
    for expected in [(0, 1), (0, 2), (1, 2)] {
        assert!(
            pairs.contains(&expected),
            "missing expected pair {expected:?} in {pairs:?}"
        );
    }
    assert!(!pairs.iter().any(|&(i, j)| i == 3 || j == 3));
}

#[test]
fn candidate_pairs_are_a_superset_of_true_neighbours() {
    let cell_size = 1.0;
    let points: Vec<Vec2> = (0..40)
        .map(|i| {
            let t = i as f32 * 0.37;
            Vec2::new(t.sin() * 3.0, (t * 1.3).cos() * 3.0)
        })
        .collect();
    let grid = build(&points, cell_size);
    let candidates: std::collections::HashSet<(u32, u32)> =
        grid.for_each_candidate_pair().into_iter().collect();

    for i in 0..points.len() {
        for j in (i + 1)..points.len() {
            if points[i].distance(points[j]) <= cell_size {
                assert!(
                    candidates.contains(&(i as u32, j as u32)),
                    "true neighbour pair ({i},{j}) missing from candidates"
                );
            }
        }
    }
}

#[test]
fn for_each_near_finds_points_in_adjacent_cells() {
    let points = vec![
        Vec2::new(0.9, 0.0),
        Vec2::new(-0.9, 0.0),
        Vec2::new(50.0, 50.0),
    ];
    let grid = build(&points, 1.0);
    let mut found = near(&grid, Vec2::ZERO, 1.0);
    found.sort_unstable();
    assert_eq!(found, vec![0, 1]);
}

#[test]
fn empty_grid_has_no_pairs_and_no_neighbours() {
    let grid = build(&[], 1.0);
    assert_eq!(grid.for_each_candidate_pair().len(), 0);
    assert_eq!(near(&grid, Vec2::ZERO, 1.0).len(), 0);
}

#[test]
fn for_each_near_does_not_overflow_on_a_non_finite_query_point() {
    let points = vec![Vec2::new(0.9, 0.0), Vec2::new(-0.9, 0.0)];
    let grid = build(&points, 1.0);
    for p in [
        Vec2::splat(f32::INFINITY),
        Vec2::splat(f32::NEG_INFINITY),
        Vec2::new(f32::INFINITY, 0.0),
        Vec2::splat(f32::NAN),
    ] {
        let count = near(&grid, p, 1.0).len();
        assert_eq!(
            count, 0,
            "expected no neighbours for non-finite point {p:?}"
        );
    }
    // The saturated cells such a point would cast to are safe to query too.
    for key in [
        (i32::MAX, i32::MAX),
        (i32::MIN, i32::MIN),
        (i32::MAX, 0),
        (i32::MIN, i32::MAX),
    ] {
        assert_eq!(grid.for_each_near(key).len(), 0);
    }
}

#[test]
fn build_and_candidate_pairs_do_not_overflow_when_a_point_is_non_finite() {
    let points = vec![
        Vec2::new(0.0, 0.0),
        Vec2::new(0.05, 0.0),
        Vec2::splat(f32::INFINITY),
    ];
    let grid = build(&points, 0.2);
    let pairs = grid.for_each_candidate_pair();
    assert!(pairs.contains(&(0, 1)));
    assert!(!pairs.iter().any(|&(i, j)| i == 2 || j == 2));
}

#[test]
fn candidate_pair_iteration_order_is_deterministic_across_rebuilds() {
    let points: Vec<Vec2> = (0..60)
        .map(|i| {
            let t = i as f32 * 0.53;
            Vec2::new(t.sin() * 2.0, (t * 0.7).cos() * 2.0)
        })
        .collect();
    let first_run = build(&points, 0.3).for_each_candidate_pair();
    for _ in 0..5 {
        let pairs = build(&points, 0.3).for_each_candidate_pair();
        assert_eq!(
            pairs, first_run,
            "candidate-pair order changed across an identical rebuild"
        );
    }
}

#[test]
fn candidate_pairs_follow_cell_order_then_forward_neighbours() {
    // Cells: point 0 in (0,0), points 1 and 2 in (1,0), point 3 in (0,1), point 4 in (5,5).
    let keys = vec![
        Some((0, 0)),
        Some((1, 0)),
        Some((1, 0)),
        Some((0, 1)),
        Some((5, 5)),
    ];
    let grid = UniformGrid::build(&keys);
    // Visit (0,0): no inner pairs; forward (1,0) -> (0,1),(0,2); (1,1) none; (0,1) -> (0,3).
    // Visit (0,1): inner none; forward (1,1),(1,2),(0,2) none, (-1,2) none.
    // Visit (1,0): inner (1,2); forward (2,0),(2,1),(1,1) none; (0,1) -> (1,3),(2,3).
    // Visit (5,5): nothing.
    assert_eq!(
        grid.for_each_candidate_pair(),
        vec![(0, 1), (0, 2), (0, 3), (1, 2), (1, 3), (2, 3)]
    );
}

#[test]
fn candidate_pairs_are_exactly_the_touching_pairs() {
    // A deterministic scatter of keys over a small area, plus some unbucketed points.
    let mut keys = Vec::new();
    let mut s: u64 = 12345;
    for i in 0..80 {
        s = s.wrapping_mul(6364136223846793005).wrapping_add(1442695040888963407);
        if i % 11 == 0 {
            keys.push(None);
        } else {
            keys.push(Some((((s >> 33) % 7) as i32 - 3, ((s >> 45) % 7) as i32 - 3)));
        }
    }
    let grid = UniformGrid::build(&keys);
    let pairs = grid.for_each_candidate_pair();
    let mut expected = Vec::new();
    for i in 0..keys.len() {
        for j in (i + 1)..keys.len() {
            if let (Some(a), Some(b)) = (keys[i], keys[j]) {
                if (a.0 - b.0).abs() <= 1 && (a.1 - b.1).abs() <= 1 {
                    expected.push((i as u32, j as u32));
                }
            }
        }
    }
    let mut sorted = pairs.clone();
    sorted.sort_unstable();
    assert_eq!(sorted, expected);
    assert_eq!(pairs.len(), expected.len());
}

#[test]
fn for_each_near_reports_each_neighbourhood_point_once_in_row_order() {
    let keys = vec![
        Some((1, 1)),
        Some((0, 0)),
        Some((-1, -1)),
        Some((2, 2)),
        Some((0, 0)),
        None,
        Some((-1, 1)),
    ];
    let grid = UniformGrid::build(&keys);
    // Rows from dy = -1 to 1, columns from dx = -1 to 1, around (0, 0).
    assert_eq!(grid.for_each_near((0, 0)), vec![2, 1, 4, 6, 0]);
}

#[test]
fn for_each_near_at_the_range_edge_reports_each_cell_once() {
    let keys = vec![Some((i32::MAX, i32::MAX)), Some((i32::MAX - 1, i32::MAX))];
    let grid = UniformGrid::build(&keys);
    let mut found = grid.for_each_near((i32::MAX, i32::MAX));
    found.sort_unstable();
    assert_eq!(found, vec![0, 1]);
}

#[test]
fn cells_at_the_edge_of_the_range_report_each_pair_once() {
    // Two cells stacked at x == i32::MAX: the forward offsets (1, 1) and (0, 1) of the lower
    // one would both saturate onto the upper one.
    let grid = UniformGrid::build(&vec![Some((i32::MAX, 0)), Some((i32::MAX, 1))]);
    assert_eq!(grid.for_each_candidate_pair(), vec![(0, 1)]);
    // The same from finite points whose cells cast to the edge of the range.
    let points = vec![Vec2::new(1e10, 0.0), Vec2::new(1e10, 1.0)];
    assert_eq!(cell_keys(&points, 1.0), vec![Some((i32::MAX, 0)), Some((i32::MAX, 1))]);
    assert_eq!(build(&points, 1.0).for_each_candidate_pair(), vec![(0, 1)]);
    // Two cells side by side in the top row: the offset (-1, 1) of the right one would
    // saturate onto the left one.
    let grid = UniformGrid::build(&vec![Some((i32::MAX - 1, i32::MAX)), Some((i32::MAX, i32::MAX))]);
    assert_eq!(grid.for_each_candidate_pair(), vec![(0, 1)]);
    // All four corners' worth of edge cells: every touching pair once.
    let keys = vec![
        Some((i32::MIN, i32::MAX)),
        Some((i32::MIN + 1, i32::MAX)),
        Some((i32::MIN, i32::MAX - 1)),
        Some((i32::MAX, i32::MIN)),
        Some((i32::MAX - 1, i32::MIN + 1)),
    ];
    let mut pairs = UniformGrid::build(&keys).for_each_candidate_pair();
    pairs.sort_unstable();
    assert_eq!(pairs, vec![(0, 1), (0, 2), (1, 2), (3, 4)]);
}

#[test]
fn near_query_at_the_edge_of_the_range_reports_touching_cells_once() {
    let keys = vec![
        Some((i32::MAX, i32::MAX)),
        Some((i32::MAX - 1, i32::MAX)),
        Some((i32::MAX, i32::MAX - 1)),
        Some((i32::MAX - 2, i32::MAX)),
    ];
    let grid = UniformGrid::build(&keys);
    let mut found = grid.for_each_near((i32::MAX, i32::MAX));
    found.sort_unstable();
    assert_eq!(found, vec![0, 1, 2]);
}
