use mill_core::surface::{
    cell_edge_id, cell_edge_pairs, chain_segments, contour_edge_chains, contour_segments,
    edge_endpoints, edge_key_of, extend_chain, index_segments, EdgeId, GRID_SIZE,
};

#[test]
fn cell_edge_pairs_match_the_marching_squares_table() {
    assert!(cell_edge_pairs(0).is_empty());
    assert!(cell_edge_pairs(15).is_empty());
    assert_eq!(cell_edge_pairs(1), vec![(3, 0)]);
    assert_eq!(cell_edge_pairs(14), vec![(3, 0)]);
    assert_eq!(cell_edge_pairs(2), vec![(0, 1)]);
    assert_eq!(cell_edge_pairs(3), vec![(3, 1)]);
    assert_eq!(cell_edge_pairs(4), vec![(1, 2)]);
    assert_eq!(cell_edge_pairs(6), vec![(0, 2)]);
    assert_eq!(cell_edge_pairs(7), vec![(3, 2)]);
    assert_eq!(cell_edge_pairs(8), vec![(3, 2)]);
    assert_eq!(cell_edge_pairs(5), vec![(3, 0), (1, 2)]);
    assert_eq!(cell_edge_pairs(10), vec![(0, 1), (3, 2)]);
}

#[test]
fn cell_edges_are_shared_between_neighbouring_cells() {
    assert_eq!(cell_edge_id(4, 7, 0), EdgeId::Horizontal(4, 7));
    assert_eq!(cell_edge_id(4, 7, 1), EdgeId::Vertical(5, 7));
    assert_eq!(cell_edge_id(4, 7, 2), EdgeId::Horizontal(4, 8));
    assert_eq!(cell_edge_id(4, 7, 3), EdgeId::Vertical(4, 7));
    assert_eq!(cell_edge_id(4, 7, 1), cell_edge_id(5, 7, 3));
    assert_eq!(cell_edge_id(4, 7, 2), cell_edge_id(4, 8, 0));
}

#[test]
fn edge_endpoints_run_from_the_lower_grid_point() {
    assert_eq!(edge_endpoints(EdgeId::Horizontal(3, 9)), ((3, 9), (4, 9)));
    assert_eq!(edge_endpoints(EdgeId::Vertical(3, 9)), ((3, 9), (3, 10)));
}

fn field_with(points: &[(usize, usize)]) -> Vec<bool> {
    let mut above = vec![false; GRID_SIZE * GRID_SIZE];
    for &(gi, gj) in points {
        above[gj * GRID_SIZE + gi] = true;
    }
    above
}

#[test]
fn an_empty_field_has_no_segments_and_no_contours() {
    let above = field_with(&[]);
    assert!(contour_segments(&above).is_empty());
    assert!(contour_edge_chains(&above).is_empty());
}

#[test]
fn a_single_point_gives_four_segments_around_it() {
    let above = field_with(&[(10, 20)]);
    let segments = contour_segments(&above);
    assert_eq!(
        segments,
        vec![
            // Cell (9, 19): only its top-right corner is set (case 4).
            (EdgeId::Vertical(10, 19), EdgeId::Horizontal(9, 20)),
            // Cell (10, 19): top-left corner (case 8).
            (EdgeId::Vertical(10, 19), EdgeId::Horizontal(10, 20)),
            // Cell (9, 20): bottom-right corner (case 2).
            (EdgeId::Horizontal(9, 20), EdgeId::Vertical(10, 20)),
            // Cell (10, 20): bottom-left corner (case 1).
            (EdgeId::Vertical(10, 20), EdgeId::Horizontal(10, 20)),
        ]
    );
}

#[test]
fn a_single_point_gives_one_closed_contour() {
    let above = field_with(&[(10, 20)]);
    let chains = contour_edge_chains(&above);
    assert_eq!(
        chains,
        vec![vec![
            EdgeId::Vertical(10, 19),
            EdgeId::Horizontal(9, 20),
            EdgeId::Vertical(10, 20),
            EdgeId::Horizontal(10, 20),
        ]]
    );
}

#[test]
fn a_block_gives_one_closed_contour_through_every_crossing_edge() {
    let above = field_with(&[(10, 10), (11, 10), (10, 11), (11, 11)]);
    let chains = contour_edge_chains(&above);
    assert_eq!(chains.len(), 1);
    let chain = &chains[0];
    assert_eq!(chain.len(), 8);
    let mut sorted = chain.clone();
    sorted.sort_by_key(|e| format!("{e:?}"));
    sorted.dedup();
    assert_eq!(sorted.len(), 8);
}

#[test]
fn two_separate_blobs_give_two_contours() {
    let above = field_with(&[(10, 10), (50, 60), (51, 60)]);
    let chains = contour_edge_chains(&above);
    assert_eq!(chains.len(), 2);
    assert_eq!(chains[0].len(), 4);
    assert_eq!(chains[1].len(), 6);
}

#[test]
fn chain_segments_follows_shared_edges_and_drops_the_closing_repeat() {
    let a = EdgeId::Horizontal(0, 0);
    let b = EdgeId::Vertical(1, 0);
    let c = EdgeId::Horizontal(0, 1);
    let d = EdgeId::Vertical(0, 0);
    let x = EdgeId::Horizontal(7, 7);
    let y = EdgeId::Vertical(9, 9);
    let segments = vec![(a, b), (x, y), (c, d), (b, c), (d, a)];
    let chains = chain_segments(&segments);
    assert_eq!(chains, vec![vec![a, b, c, d], vec![x, y]]);
}

#[test]
fn chain_segments_grows_an_open_chain_in_both_directions() {
    let e: Vec<EdgeId> = (0..5).map(|k| EdgeId::Horizontal(k, 0)).collect();
    // The starting segment is in the middle of the path.
    let segments = vec![(e[2], e[3]), (e[0], e[1]), (e[3], e[4]), (e[1], e[2])];
    let chains = chain_segments(&segments);
    assert_eq!(chains, vec![vec![e[0], e[1], e[2], e[3], e[4]]]);
}

#[test]
fn extend_chain_takes_the_lowest_unused_segment_at_each_step() {
    let e: Vec<EdgeId> = (0..6).map(|k| EdgeId::Vertical(k, 3)).collect();
    // Two unused segments touch e[1]; the lower index (1) wins.
    let segments = vec![(e[0], e[1]), (e[1], e[2]), (e[1], e[5]), (e[2], e[3])];
    let by_edge = index_segments(&segments);
    let mut visited = vec![true, false, false, false];
    let mut chain = vec![e[0], e[1]];
    extend_chain(&mut chain, &segments, &by_edge, &mut visited, true);
    assert_eq!(chain, vec![e[0], e[1], e[2], e[3]]);
    assert_eq!(visited, vec![true, true, false, true]);

    let mut visited = vec![true, false, false, false];
    let mut chain = vec![e[2], e[1]];
    extend_chain(&mut chain, &segments, &by_edge, &mut visited, false);
    // From e[2] back through segment 1 to e[1], then through segment 2 to e[5].
    assert_eq!(chain, vec![e[5], e[1], e[2], e[1]]);
    assert_eq!(visited, vec![true, true, true, false]);
}

#[test]
fn index_segments_lists_each_segment_under_both_of_its_edges() {
    let a = EdgeId::Horizontal(0, 0);
    let b = EdgeId::Vertical(1, 0);
    let c = EdgeId::Horizontal(0, 1);
    let segments = vec![(a, b), (b, c), (a, c)];
    let by_edge = index_segments(&segments);
    assert_eq!(by_edge.len(), 3);
    assert_eq!(by_edge[&edge_key_of(a)], vec![0, 2]);
    assert_eq!(by_edge[&edge_key_of(b)], vec![0, 1]);
    assert_eq!(by_edge[&edge_key_of(c)], vec![1, 2]);
}

#[test]
fn edge_keys_of_distinct_edges_differ() {
    assert_ne!(edge_key_of(EdgeId::Horizontal(1, 2)), edge_key_of(EdgeId::Vertical(1, 2)));
    assert_ne!(edge_key_of(EdgeId::Horizontal(1, 2)), edge_key_of(EdgeId::Horizontal(2, 1)));
    assert_ne!(
        edge_key_of(EdgeId::Horizontal(-1, 0)),
        edge_key_of(EdgeId::Horizontal(0, -1))
    );
    assert_ne!(
        edge_key_of(EdgeId::Vertical(i32::MIN, i32::MAX)),
        edge_key_of(EdgeId::Horizontal(i32::MAX, i32::MIN))
    );
}

#[test]
fn each_case_ends_segments_on_exactly_its_straddling_sides() {
    for case in 0u8..16 {
        let corner = |k: u8| (case >> (k % 4)) & 1 == 1;
        let pairs = cell_edge_pairs(case);
        for side in 0u8..4 {
            let uses = pairs
                .iter()
                .map(|&(a, b)| (a == side) as usize + (b == side) as usize)
                .sum::<usize>();
            let straddles = corner(side) != corner(side + 1);
            assert_eq!(uses, straddles as usize, "case {case}, side {side}");
        }
        for &(a, b) in &pairs {
            assert_ne!(a, b);
        }
        if case != 5 && case != 10 {
            assert_eq!(pairs, cell_edge_pairs(15 - case));
        }
    }
}

/// The two edges of a chain are joined by one of the segments.
fn joined(segments: &[(EdgeId, EdgeId)], x: EdgeId, y: EdgeId) -> bool {
    segments
        .iter()
        .any(|&(a, b)| (a == x && b == y) || (a == y && b == x))
}

#[test]
fn contour_chains_of_a_scattered_field_are_connected_and_use_every_segment() {
    let mut above = vec![false; GRID_SIZE * GRID_SIZE];
    let mut s: u64 = 99;
    for gj in 30..70 {
        for gi in 40..90 {
            s = s.wrapping_mul(6364136223846793005).wrapping_add(1442695040888963407);
            above[gj * GRID_SIZE + gi] = (s >> 60) < 7;
        }
    }
    let segments = contour_segments(&above);
    let chains = chain_segments(&segments);
    assert_eq!(chains, contour_edge_chains(&above));
    let mut links = 0;
    for chain in &chains {
        for t in 0..chain.len() - 1 {
            assert!(joined(&segments, chain[t], chain[t + 1]));
        }
        let closed = chain.len() > 2 && joined(&segments, chain[chain.len() - 1], chain[0]);
        links += chain.len() - 1 + closed as usize;
    }
    assert_eq!(links, segments.len());
}

#[test]
fn contours_of_a_field_with_a_clear_border_all_close() {
    let mut above = vec![false; GRID_SIZE * GRID_SIZE];
    let mut s: u64 = 7;
    for gj in 1..GRID_SIZE - 1 {
        for gi in 1..GRID_SIZE - 1 {
            s = s.wrapping_mul(6364136223846793005).wrapping_add(1442695040888963407);
            above[gj * GRID_SIZE + gi] = (s >> 61) < 3;
        }
    }
    let segments = contour_segments(&above);
    assert!(!segments.is_empty());
    for &(a, b) in &segments {
        assert_ne!(a, b);
        for e in [a, b] {
            let ends = segments
                .iter()
                .map(|&(x, y)| (x == e) as usize + (y == e) as usize)
                .sum::<usize>();
            assert_eq!(ends, 2);
        }
    }
    let chains = contour_edge_chains(&above);
    for chain in &chains {
        assert!(chain.len() >= 2);
        assert!(joined(&segments, chain[chain.len() - 1], chain[0]));
    }
    let total: usize = chains.iter().map(|c| c.len()).sum();
    assert_eq!(total, segments.len());
}

#[test]
fn a_contour_reaching_the_border_stays_open() {
    let above = field_with(&[(0, 20), (0, 21), (1, 20), (1, 21)]);
    let segments = contour_segments(&above);
    let chains = contour_edge_chains(&above);
    assert_eq!(chains.len(), 1);
    let chain = &chains[0];
    assert_eq!(chain.len(), segments.len() + 1);
    assert!(!joined(&segments, chain[chain.len() - 1], chain[0]));
}
