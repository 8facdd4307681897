//! A graph together with its layout and a title, ready to be drawn.

use crate::digraph::{
    as_ints, graph_edges, graph_nodes, in_added_order, node_count, CollatzGraph, GRAPH_CAPACITY,
};
use crate::layout::{
    assign_levels, is_layering, is_layout, is_place, is_placement, lemma_levels_end,
    lemma_places_bound, level_at, places, position_at, Position,
};
use std::collections::HashMap;
use vstd::prelude::*;
use vstd::std_specs::hash::*;

verus! {

broadcast use vstd::std_specs::hash::group_hash_axioms;

/// A graph, the position of each of its nodes that the layout reaches, and
/// the title to show above it.
pub struct GraphView {
    graph: CollatzGraph,
    node_positions: HashMap<usize, Position>,
    title: String,
}

/// The keys of `positions` are the nodes of the first `k` levels and of the
/// first `i` places of level `k`, each with the position of its place.
spec fn placed_through(
    levels: Seq<Vec<usize>>,
    positions: Map<usize, Position>,
    k: int,
    i: int,
) -> bool {
    &&& forall|a: usize| #[trigger]
        positions.contains_key(a) <==> exists|l: int, j: int|
            0 <= l < levels.len() && 0 <= j < levels[l]@.len() && (l < k || (l == k && j < i))
                && #[trigger] levels[l]@[j] == a
    &&& forall|l: int, j: int|
        0 <= l < levels.len() && 0 <= j < levels[l]@.len() && (l < k || (l == k && j < i))
            ==> is_place(positions[#[trigger] levels[l]@[j]], levels[l]@.len() as int, j, l)
}

impl GraphView {
    /// The graph shown.
    pub closed spec fn shown_graph(&self) -> CollatzGraph {
        self.graph
    }

    /// The positions of the nodes, by node index.
    pub closed spec fn shown_positions(&self) -> Map<usize, Position> {
        self.node_positions@
    }

    /// The title.
    pub closed spec fn shown_title(&self) -> Seq<char> {
        self.title@
    }

    /// The positions are the layout of the graph.
    #[verifier::type_invariant]
    pub closed spec fn well_formed(&self) -> bool {
        is_layout(graph_edges(self.graph), graph_nodes(self.graph).len(), self.node_positions@)
    }

    /// A view of `graph` under `title`, with the layout computed.
    pub fn new(graph: CollatzGraph, title: String) -> (view: Self)
        requires
            in_added_order(graph),
        ensures
            view.shown_graph() == graph,
            view.shown_title() == title@,
            is_layout(graph_edges(graph), graph_nodes(graph).len(), view.shown_positions()),
    {
        let node_positions = Self::calculate_layout(&graph);
        GraphView { graph, node_positions, title }
    }

    /// The layout of `graph`: level `k` is the row at height
    /// `BASELINE_Y + k * VERTICAL_SPACING`, its nodes `HORIZONTAL_SPACING`
    /// apart in the order of the level, the row centred on `ANCHOR_X`. A node
    /// that no level reaches has no position.
    pub fn calculate_layout(graph: &CollatzGraph) -> (positions: HashMap<usize, Position>)
        requires
            in_added_order(*graph),
        ensures
            is_layout(graph_edges(*graph), graph_nodes(*graph).len(), positions@),
    {
        let n: usize = node_count(graph);
        let ghost edges = graph_edges(*graph);
        let levels = assign_levels(graph);
        let mut positions: HashMap<usize, Position> = HashMap::new();
        let mut k: usize = 0;
        while k < levels.len()
            invariant
                k <= levels@.len(),
                n == graph_nodes(*graph).len(),
                n <= GRAPH_CAPACITY,
                is_layering(edges, n as nat, levels@),
                is_placement(n as nat, levels@),
                places(levels@) <= n,
                placed_through(levels@, positions@, k as int, 0),
            decreases levels@.len() - k,
        {
            let count: usize = levels[k].len();
            proof {
                lemma_places_bound(levels@, k as int);
            }
            let mut i: usize = 0;
            while i < count
                invariant
                    k < levels@.len(),
                    i <= count,
                    count == levels@[k as int]@.len(),
                    count <= GRAPH_CAPACITY,
                    k <= GRAPH_CAPACITY,
                    is_placement(n as nat, levels@),
                    placed_through(levels@, positions@, k as int, i as int),
                decreases count - i,
            {
                let node: usize = levels[k][i];
                let place = position_at(count, i, k);
                let ghost before = positions@;
                positions.insert(node, place);
                proof {
                    let after = positions@;
                    assert(after == before.insert(node, place));
                    assert forall|a: usize| #[trigger]
                        after.contains_key(a) <==> exists|l: int, j: int|
                            0 <= l < levels@.len() && 0 <= j < levels@[l]@.len() && (l < k || (l
                                == k && j < i + 1)) && #[trigger] levels@[l]@[j] == a by {
                        if a == node {
                            assert(levels@[k as int]@[i as int] == a);
                        } else {
                            if before.contains_key(a) {
                                let (l, j) = choose|l: int, j: int|
                                    0 <= l < levels@.len() && 0 <= j < levels@[l]@.len() && (l < k
                                        || (l == k && j < i)) && #[trigger] levels@[l]@[j] == a;
                                assert(levels@[l]@[j] == a);
                            }
                        }
                    }
                    assert forall|l: int, j: int|
                        0 <= l < levels@.len() && 0 <= j < levels@[l]@.len() && (l < k || (l == k
                            && j < i + 1)) implies is_place(
                        after[#[trigger] levels@[l]@[j]],
                        levels@[l]@.len() as int,
                        j,
                        l,
                    ) by {
                        if l == k && j == i {
                        } else {
                            assert(levels@[l]@[j] != levels@[k as int]@[i as int]);
                            assert(is_place(before[levels@[l]@[j]], levels@[l]@.len() as int, j, l));
                        }
                    }
                }
                i += 1;
            }
            k += 1;
        }
        proof {
            Self::lemma_placed_is_layout(edges, n as nat, levels@, positions@);
        }
        positions
    }

    /// Positions given level by level to the levels of a graph are its
    /// layout.
    proof fn lemma_placed_is_layout(
        edges: Seq<(int, int)>,
        n: nat,
        levels: Seq<Vec<usize>>,
        positions: Map<usize, Position>,
    )
        requires
            is_layering(edges, n, levels),
            placed_through(levels, positions, levels.len() as int, 0),
        ensures
            is_layout(edges, n, positions),
    {
        assert forall|a: usize| #[trigger]
            positions.contains_key(a) <==> exists|k: nat| #[trigger]
                level_at(edges, n, k).contains(a as int) by {
            if positions.contains_key(a) {
                let (l, j) = choose|l: int, j: int|
                    0 <= l < levels.len() && 0 <= j < levels[l]@.len() && (l < levels.len() || (l
                        == levels.len() && j < 0)) && #[trigger] levels[l]@[j] == a;
                assert(as_ints(levels[l]@)[j] == a as int);
                assert(level_at(edges, n, l as nat).contains(a as int));
            }
            if exists|k: nat| #[trigger] level_at(edges, n, k).contains(a as int) {
                let k = choose|k: nat| #[trigger] level_at(edges, n, k).contains(a as int);
                if k >= levels.len() {
                    lemma_levels_end(edges, n, levels.len(), k);
                }
                let row = as_ints(levels[k as int]@);
                let j = choose|j: int| 0 <= j < row.len() && row[j] == a as int;
                assert(levels[k as int]@[j] == a);
            }
        }
        assert forall|k: nat, i: int| 0 <= i < level_at(edges, n, k).len() implies is_place(
            positions[(#[trigger] level_at(edges, n, k)[i]) as usize],
            level_at(edges, n, k).len() as int,
            i,
            k as int,
        ) by {
            if k >= levels.len() {
                lemma_levels_end(edges, n, levels.len(), k);
            }
            let row = as_ints(levels[k as int]@);
            assert(row[i] == levels[k as int]@[i] as int);
            assert(is_place(
                positions[levels[k as int]@[i]],
                levels[k as int]@.len() as int,
                i,
                k as int,
            ));
        }
    }

    /// The graph.
    pub fn graph(&self) -> (g: &CollatzGraph)
        ensures
            *g == self.shown_graph(),
    {
        &self.graph
    }

    /// The position of each node that has one, by node index: the layout of
    /// the graph.
    pub fn node_positions(&self) -> (positions: &HashMap<usize, Position>)
        ensures
            positions@ == self.shown_positions(),
            is_layout(
                graph_edges(self.shown_graph()),
                graph_nodes(self.shown_graph()).len(),
                positions@,
            ),
    {
        proof {
            use_type_invariant(self);
        }
        &self.node_positions
    }

    /// The title.
    pub fn title(&self) -> (title: &String)
        ensures
            title@ == self.shown_title(),
    {
        &self.title
    }
}

} // verus!
