use collatz_viz::collatz::{collatz_sequence, CollatzError};
use collatz_viz::digraph::CollatzGraph;
use collatz_viz::graph::{build_inverse_tree, build_sequence_graph};
use collatz_viz::inverse::MAX_TREE_VALUE;
use petgraph::graph::{EdgeIndex, NodeIndex};
use std::collections::HashMap;

fn values(g: &CollatzGraph) -> Vec<u64> {
    (0..g.node_count()).map(|i| *g.node_weight(NodeIndex::new(i)).unwrap()).collect()
}

fn edges(g: &CollatzGraph) -> Vec<(u64, u64)> {
    (0..g.edge_count())
        .map(|e| {
            let (a, b) = g.edge_endpoints(EdgeIndex::new(e)).unwrap();
            (g[a], g[b])
        })
        .collect()
}

fn table_matches(g: &CollatzGraph, table: &HashMap<u64, usize>) {
    assert_eq!(table.len(), g.node_count());
    for i in 0..g.node_count() {
        assert_eq!(table.get(&g[NodeIndex::new(i)]), Some(&i));
    }
}

#[test]
fn sequence_graph_of_six() {
    let seq = collatz_sequence(6).unwrap();
    let (g, table) = build_sequence_graph(seq);
    assert_eq!(g.node_count(), 9);
    assert_eq!(g.edge_count(), 8);
    assert_eq!(values(&g), vec![6, 3, 10, 5, 16, 8, 4, 2, 1]);
    assert_eq!(
        edges(&g),
        vec![(6, 3), (3, 10), (10, 5), (5, 16), (16, 8), (8, 4), (4, 2), (2, 1)]
    );
    table_matches(&g, &table);
}

#[test]
fn sequence_graph_of_a_single_element() {
    let (g, table) = build_sequence_graph(vec![1]);
    assert_eq!(values(&g), vec![1]);
    assert_eq!(g.edge_count(), 0);
    table_matches(&g, &table);
}

#[test]
fn sequence_graph_of_nothing() {
    let (g, table) = build_sequence_graph(vec![]);
    assert_eq!(g.node_count(), 0);
    assert_eq!(g.edge_count(), 0);
    assert!(table.is_empty());
}

#[test]
fn sequence_graph_reuses_the_node_of_a_repeated_value() {
    let (g, table) = build_sequence_graph(vec![1, 2, 1, 2]);
    assert_eq!(values(&g), vec![1, 2]);
    assert_eq!(edges(&g), vec![(1, 2), (2, 1), (1, 2)]);
    table_matches(&g, &table);
}

#[test]
fn sequence_graph_numbers_nodes_by_first_occurrence() {
    let (g, table) = build_sequence_graph(vec![7, 7, 3, 7, 9, 3]);
    assert_eq!(values(&g), vec![7, 3, 9]);
    assert_eq!(edges(&g), vec![(7, 7), (7, 3), (3, 7), (7, 9), (9, 3)]);
    assert_eq!(table.get(&7), Some(&0));
    assert_eq!(table.get(&3), Some(&1));
    assert_eq!(table.get(&9), Some(&2));
    assert_eq!(table.get(&1), None);
}

#[test]
fn sequence_graph_counts() {
    for n in 1u64..60 {
        let seq = collatz_sequence(n).unwrap();
        let len = seq.len();
        let mut distinct = seq.clone();
        distinct.sort();
        distinct.dedup();
        let (g, _) = build_sequence_graph(seq);
        assert_eq!(g.node_count(), distinct.len());
        assert_eq!(g.edge_count(), len - 1);
    }
}

#[test]
fn sequence_graph_built_twice_is_the_same() {
    let seq = collatz_sequence(27).unwrap();
    let (a, _) = build_sequence_graph(seq.clone());
    let (b, _) = build_sequence_graph(seq);
    assert_eq!(values(&a), values(&b));
    assert_eq!(edges(&a), edges(&b));
    assert_eq!(a.edge_count(), 111);
}

#[test]
fn inverse_tree_of_one_at_depth_one() {
    let (g, table) = build_inverse_tree(1, 1).unwrap();
    assert_eq!(values(&g), vec![1, 2]);
    assert_eq!(edges(&g), vec![(2, 1)]);
    table_matches(&g, &table);
}

#[test]
fn inverse_tree_at_depth_zero_is_the_root_alone() {
    let (g, table) = build_inverse_tree(5, 0).unwrap();
    assert_eq!(values(&g), vec![5]);
    assert_eq!(g.edge_count(), 0);
    table_matches(&g, &table);
}

#[test]
fn inverse_tree_of_one_at_depth_three_closes_the_cycle() {
    let (g, table) = build_inverse_tree(1, 3).unwrap();
    assert_eq!(values(&g), vec![1, 2, 4, 8]);
    assert_eq!(edges(&g), vec![(2, 1), (4, 2), (8, 4), (1, 4)]);
    table_matches(&g, &table);
}

#[test]
fn inverse_tree_of_sixteen_has_both_predecessors() {
    let (g, table) = build_inverse_tree(16, 1).unwrap();
    assert_eq!(values(&g), vec![16, 32, 5]);
    assert_eq!(edges(&g), vec![(32, 16), (5, 16)]);
    table_matches(&g, &table);
}

#[test]
fn inverse_tree_of_five_at_depth_three() {
    // 5 <- 10 <- {20, 3}; 3 was made pending last and is expanded first: 3 <- 6, then 20 <- 40
    let (g, table) = build_inverse_tree(5, 3).unwrap();
    assert_eq!(values(&g), vec![5, 10, 20, 3, 6, 40]);
    assert_eq!(edges(&g), vec![(10, 5), (20, 10), (3, 10), (6, 3), (40, 20)]);
    table_matches(&g, &table);
}

#[test]
fn inverse_tree_repeats_the_edges_of_an_entry_expanded_twice() {
    // 1 <- 2 <- 4 <- {8, 1}; 1 is expanded again at depth 3 and 2 at depth 4,
    // then 8 <- 16 <- {32, 5}
    let (g, _) = build_inverse_tree(1, 5).unwrap();
    assert_eq!(values(&g), vec![1, 2, 4, 8, 16, 32, 5]);
    assert_eq!(
        edges(&g),
        vec![(2, 1), (4, 2), (8, 4), (1, 4), (2, 1), (4, 2), (16, 8), (32, 16), (5, 16)]
    );
}

#[test]
fn inverse_tree_drops_predecessors_above_the_bound() {
    let start: u64 = 600_000;
    let (g, _) = build_inverse_tree(start, 3).unwrap();
    // 1_200_000 is above the bound, and 600_000 is divisible by 3
    assert_eq!(values(&g), vec![600_000]);
    assert_eq!(g.edge_count(), 0);
}

#[test]
fn inverse_tree_keeps_a_predecessor_at_the_bound() {
    let (g, _) = build_inverse_tree(500_000, 1).unwrap();
    assert_eq!(values(&g), vec![500_000, MAX_TREE_VALUE]);
    assert_eq!(edges(&g), vec![(1_000_000, 500_000)]);
}

#[test]
fn inverse_tree_keeps_a_root_above_the_bound() {
    // 2_000_002 = 3 * 666_667 + 1, and 666_667 is odd
    let (g, _) = build_inverse_tree(2_000_002, 1).unwrap();
    assert_eq!(values(&g), vec![2_000_002, 666_667]);
    assert_eq!(edges(&g), vec![(666_667, 2_000_002)]);
}

#[test]
fn inverse_tree_values_stay_within_the_bound_and_the_depth() {
    for &(start, depth) in &[(1u64, 12usize), (5, 10), (7, 9), (27, 8), (999_999, 6)] {
        let (g, _) = build_inverse_tree(start, depth).unwrap();
        let nodes = values(&g);
        assert_eq!(nodes[0], start);
        for (i, &v) in nodes.iter().enumerate() {
            if i > 0 {
                assert!(v <= MAX_TREE_VALUE);
            }
            // walk forward from v: the root comes within `depth` steps
            let mut cur = v;
            let mut steps = 0;
            while cur != start {
                cur = if cur % 2 == 0 { cur / 2 } else { 3 * cur + 1 };
                steps += 1;
                assert!(steps <= depth);
            }
        }
        for (p, s) in edges(&g) {
            let next = if p % 2 == 0 { p / 2 } else { 3 * p + 1 };
            assert_eq!(next, s);
        }
    }
}

#[test]
fn inverse_tree_holds_everything_within_reach() {
    let start: u64 = 5;
    let depth: usize = 8;
    let (g, _) = build_inverse_tree(start, depth).unwrap();
    let nodes = values(&g);
    for v in 1u64..=20_000 {
        let mut cur = v;
        let mut reaches = cur == start;
        let mut steps = 0;
        while !reaches && steps < depth && cur <= MAX_TREE_VALUE {
            cur = if cur % 2 == 0 { cur / 2 } else { 3 * cur + 1 };
            steps += 1;
            reaches = cur == start;
        }
        assert_eq!(nodes.contains(&v), reaches);
    }
}

#[test]
fn inverse_tree_refuses_zero() {
    assert_eq!(build_inverse_tree(0, 3).err(), Some(CollatzError::InvalidInput));
    assert_eq!(build_inverse_tree(0, 0).err(), Some(CollatzError::InvalidInput));
}

#[test]
fn inverse_tree_reports_a_root_that_cannot_be_doubled() {
    assert_eq!(build_inverse_tree(u64::MAX, 1).err(), Some(CollatzError::ArithmeticOverflow));
    assert_eq!(
        build_inverse_tree(u64::MAX / 2 + 1, 5).err(),
        Some(CollatzError::ArithmeticOverflow)
    );
}

#[test]
fn inverse_tree_of_a_huge_root_at_depth_zero() {
    let (g, _) = build_inverse_tree(u64::MAX, 0).unwrap();
    assert_eq!(values(&g), vec![u64::MAX]);
    assert_eq!(g.edge_count(), 0);
}

#[test]
fn inverse_tree_at_the_largest_depth_that_is_certain() {
    let (g, _) = build_inverse_tree(7, 31).unwrap();
    assert_eq!(values(&g)[0], 7);
    assert!(g.node_count() > 31);
    assert!(g.edge_count() + 1 >= g.node_count());
}
