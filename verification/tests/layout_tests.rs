use collatz_viz::collatz::collatz_sequence;
use collatz_viz::graph::{build_inverse_tree, build_sequence_graph};
use collatz_viz::gui::GraphView;
use collatz_viz::layout::{
    assign_levels, find_roots, position_at, Position, ANCHOR_X, BASELINE_Y, HORIZONTAL_SPACING,
    VERTICAL_SPACING,
};

#[test]
fn position_of_a_single_node() {
    assert_eq!(position_at(1, 0, 0), Position { x: 400, y: 100 });
}

#[test]
fn positions_in_a_row_of_two() {
    assert_eq!(position_at(2, 0, 0), Position { x: 340, y: 100 });
    assert_eq!(position_at(2, 1, 0), Position { x: 460, y: 100 });
}

#[test]
fn positions_in_a_row_of_three_on_level_two() {
    assert_eq!(position_at(3, 0, 2), Position { x: 280, y: 260 });
    assert_eq!(position_at(3, 1, 2), Position { x: 400, y: 260 });
    assert_eq!(position_at(3, 2, 2), Position { x: 520, y: 260 });
}

#[test]
fn rows_are_evenly_spaced_and_centred() {
    for count in 1usize..40 {
        for level in 0usize..5 {
            for index in 0..count {
                let p = position_at(count, index, level);
                assert_eq!(p.y, BASELINE_Y + level as i64 * VERTICAL_SPACING);
                let mirror = position_at(count, count - 1 - index, level);
                assert_eq!(p.x - ANCHOR_X, ANCHOR_X - mirror.x);
                if index + 1 < count {
                    let next = position_at(count, index + 1, level);
                    assert_eq!(next.x - p.x, HORIZONTAL_SPACING);
                }
            }
        }
    }
}

#[test]
fn deeper_levels_lie_lower() {
    for level in 0usize..100 {
        assert!(position_at(1, 0, level).y < position_at(1, 0, level + 1).y);
    }
}

#[test]
fn layout_of_a_path() {
    let (g, _) = build_sequence_graph(collatz_sequence(6).unwrap());
    assert_eq!(find_roots(&g), vec![0]);
    let levels = assign_levels(&g);
    assert_eq!(levels.len(), 9);
    for (k, level) in levels.iter().enumerate() {
        assert_eq!(level, &vec![k]);
    }
    let view = GraphView::new(g, String::from("path"));
    let positions = view.node_positions();
    assert_eq!(positions.len(), 9);
    for k in 0usize..9 {
        assert_eq!(positions.get(&k), Some(&Position { x: 400, y: 100 + 80 * k as i64 }));
    }
}

#[test]
fn layout_of_two_roots() {
    let (g, _) = build_inverse_tree(16, 1).unwrap();
    assert_eq!(find_roots(&g), vec![1, 2]);
    assert_eq!(assign_levels(&g), vec![vec![1, 2], vec![0]]);
    let positions = GraphView::calculate_layout(&g);
    assert_eq!(positions.len(), 3);
    assert_eq!(positions.get(&1), Some(&Position { x: 340, y: 100 }));
    assert_eq!(positions.get(&2), Some(&Position { x: 460, y: 100 }));
    assert_eq!(positions.get(&0), Some(&Position { x: 400, y: 180 }));
}

#[test]
fn layout_without_a_root_starts_at_the_first_node() {
    let (g, _) = build_sequence_graph(vec![1, 4, 2, 1]);
    assert_eq!(find_roots(&g), vec![0]);
    assert_eq!(assign_levels(&g), vec![vec![0], vec![1], vec![2]]);
}

#[test]
fn layout_takes_the_latest_edge_first() {
    // edges 1 -> 2, 2 -> 1, 1 -> 3: from node 0 the edge to node 2 is the later one
    let (g, _) = build_sequence_graph(vec![1, 2, 1, 3]);
    assert_eq!(assign_levels(&g), vec![vec![0], vec![2, 1]]);
    let positions = GraphView::calculate_layout(&g);
    assert_eq!(positions.get(&0), Some(&Position { x: 400, y: 100 }));
    assert_eq!(positions.get(&2), Some(&Position { x: 340, y: 180 }));
    assert_eq!(positions.get(&1), Some(&Position { x: 460, y: 180 }));
}

#[test]
fn layout_places_a_node_once_at_its_first_level() {
    // 8 -> 4 -> 2 -> 1 -> 4: node 4 is met again from 1 and stays on level 1
    let (g, _) = build_inverse_tree(1, 3).unwrap();
    assert_eq!(find_roots(&g), vec![3]);
    assert_eq!(assign_levels(&g), vec![vec![3], vec![2], vec![1], vec![0]]);
    let positions = GraphView::calculate_layout(&g);
    assert_eq!(positions.len(), 4);
    assert_eq!(positions.get(&2), Some(&Position { x: 400, y: 180 }));
}

#[test]
fn layout_counts_a_loop_as_an_entering_edge() {
    // 5 -> 5 -> 6: node 0 has its own loop entering it, node 1 the edge from node 0
    let (g, _) = build_sequence_graph(vec![5, 5, 6]);
    assert_eq!(find_roots(&g), vec![0]);
    assert_eq!(assign_levels(&g), vec![vec![0], vec![1]]);
}

#[test]
fn layout_leaves_out_what_no_level_reaches() {
    // 1 -> 2 -> 3 -> 2 has root 1; all of it is reached
    let (g, _) = build_sequence_graph(vec![1, 2, 3, 2]);
    assert_eq!(assign_levels(&g), vec![vec![0], vec![1], vec![2]]);
}

#[test]
fn layout_of_an_empty_graph() {
    let (g, _) = build_sequence_graph(vec![]);
    assert!(find_roots(&g).is_empty());
    assert!(assign_levels(&g).is_empty());
    assert!(GraphView::calculate_layout(&g).is_empty());
}

#[test]
fn layout_of_an_inverse_tree_keeps_levels_on_rows() {
    let (g, _) = build_inverse_tree(5, 8).unwrap();
    let levels = assign_levels(&g);
    let positions = GraphView::calculate_layout(&g);
    let mut placed = 0;
    for (k, level) in levels.iter().enumerate() {
        assert!(!level.is_empty());
        for (i, node) in level.iter().enumerate() {
            let p = positions.get(node).unwrap();
            assert_eq!(p.y, 100 + 80 * k as i64);
            assert_eq!(p.x, 400 - 60 * (level.len() as i64 - 1) + 120 * i as i64);
            placed += 1;
        }
    }
    assert_eq!(placed, positions.len());
    assert_eq!(placed, g.node_count());
}

#[test]
fn level_is_the_distance_from_the_nearest_root() {
    let (g, _) = build_inverse_tree(7, 12).unwrap();
    let n = g.node_count();
    let levels = assign_levels(&g);
    // distances by relaxing every edge until nothing changes
    let mut dist: Vec<Option<usize>> = vec![None; n];
    for &r in &find_roots(&g) {
        dist[r] = Some(0);
    }
    let mut changed = true;
    while changed {
        changed = false;
        for e in g.edge_indices() {
            let (a, b) = g.edge_endpoints(e).unwrap();
            if let Some(d) = dist[a.index()] {
                if dist[b.index()].map_or(true, |old| d + 1 < old) {
                    dist[b.index()] = Some(d + 1);
                    changed = true;
                }
            }
        }
    }
    let mut placed = vec![false; n];
    for (k, level) in levels.iter().enumerate() {
        for &node in level {
            assert_eq!(dist[node], Some(k));
            assert!(!placed[node]);
            placed[node] = true;
        }
    }
    for node in 0..n {
        assert_eq!(placed[node], dist[node].is_some());
    }
}

#[test]
fn view_keeps_graph_and_title() {
    let (g, _) = build_sequence_graph(vec![3, 10, 5]);
    let view = GraphView::new(g, String::from("Collatz Sequence starting from 3"));
    assert_eq!(view.title(), "Collatz Sequence starting from 3");
    assert_eq!(view.graph().node_count(), 3);
    assert_eq!(view.graph().edge_count(), 2);
    assert_eq!(view.node_positions().len(), 3);
}
