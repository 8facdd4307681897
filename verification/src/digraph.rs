//! The directed graph that carries Collatz numbers: petgraph's `Graph`, seen
//! by the verifier through two sequences and a handful of calls.
//!
//! Nothing in this file is proved. Each function states what petgraph's
//! source shows of the method it calls.

use petgraph::graph::{Graph, NodeIndex};
use petgraph::{Directed, Direction};
use vstd::prelude::*;

verus! {

/// petgraph's `Graph`, made known to the verifier as a type whose inside it
/// does not see.
#[verifier::external_type_specification]
#[verifier::external_body]
#[verifier::reject_recursive_types(N)]
#[verifier::reject_recursive_types(E)]
#[verifier::reject_recursive_types(Ty)]
#[verifier::reject_recursive_types(Ix)]
pub struct ExGraph<N, E, Ty, Ix>(Graph<N, E, Ty, Ix>);

/// petgraph's marker `Directed`, which a graph with directed edges has for
/// its edge type.
#[verifier::external_type_specification]
#[verifier::external_body]
pub struct ExDirected(Directed);

/// A directed graph whose nodes carry Collatz numbers and whose edges carry
/// nothing. Nodes and edges are numbered from zero in the order in which they
/// were added.
pub type CollatzGraph = Graph<u64, (), Directed, u32>;

/// The most nodes, and the most edges, that a graph indexed by `u32` takes:
/// petgraph keeps the index `u32::MAX` for "no such item", so the indices in
/// use end one below it.
pub const GRAPH_CAPACITY: usize = 0xFFFF_FFFF;

/// The numbers on the nodes of `g`, by node index.
pub uninterp spec fn graph_nodes(g: Graph<u64, (), Directed, u32>) -> Seq<u64>;

/// The edges of `g` by edge index, each as the node indices of its source
/// and its target.
pub uninterp spec fn graph_edges(g: Graph<u64, (), Directed, u32>) -> Seq<(int, int)>;

/// Every node of `g` lists the edges that leave it latest first by edge
/// index. So it is in a graph to which edges were only added; removing an
/// edge renumbers another and can end it.
pub uninterp spec fn in_added_order(g: Graph<u64, (), Directed, u32>) -> bool;

/// A sequence of node indices read as integers.
pub open spec fn as_ints(s: Seq<usize>) -> Seq<int> {
    s.map_values(|h: usize| h as int)
}

/// The targets of the edges that leave node `a`, latest edge first.
pub open spec fn successors_of(edges: Seq<(int, int)>, a: int) -> Seq<int>
    decreases edges.len(),
{
    if edges.len() == 0 {
        Seq::empty()
    } else if edges.last().0 == a {
        seq![edges.last().1] + successors_of(edges.drop_last(), a)
    } else {
        successors_of(edges.drop_last(), a)
    }
}

/// How many edges enter node `a`.
pub open spec fn in_degree_of(edges: Seq<(int, int)>, a: int) -> nat
    decreases edges.len(),
{
    if edges.len() == 0 {
        0
    } else if edges.last().1 == a {
        1 + in_degree_of(edges.drop_last(), a)
    } else {
        in_degree_of(edges.drop_last(), a)
    }
}

/// `Graph::new`: a graph with no node and no edge.
#[verifier::external_body]
pub(crate) fn new_graph() -> (g: CollatzGraph)
    ensures
        graph_nodes(g) == Seq::<u64>::empty(),
        graph_edges(g) == Seq::<(int, int)>::empty(),
        in_added_order(g),
{
    Graph::new()
}

/// `Graph::node_count`: the number of nodes, which is never above
/// `GRAPH_CAPACITY`: `add_node` panics rather than pass it.
#[verifier::external_body]
pub(crate) fn node_count(g: &CollatzGraph) -> (n: usize)
    ensures
        n == graph_nodes(*g).len(),
        n <= GRAPH_CAPACITY,
{
    g.node_count()
}

/// `Graph::edge_count`: the number of edges.
#[verifier::external_body]
pub(crate) fn edge_count(g: &CollatzGraph) -> (n: usize)
    ensures
        n == graph_edges(*g).len(),
{
    g.edge_count()
}

/// `Graph::add_node`: appends a node carrying `value` and returns its index,
/// which is the number of nodes there were. The edges stay as they are, and
/// the new node has none. petgraph panics once the index would be
/// `u32::MAX`; `requires` keeps away from that.
#[verifier::external_body]
pub(crate) fn add_node(g: &mut CollatzGraph, value: u64) -> (handle: usize)
    requires
        graph_nodes(*old(g)).len() < GRAPH_CAPACITY,
    ensures
        handle == graph_nodes(*old(g)).len(),
        graph_nodes(*final(g)) == graph_nodes(*old(g)).push(value),
        graph_edges(*final(g)) == graph_edges(*old(g)),
        in_added_order(*old(g)) ==> in_added_order(*final(g)),
{
    g.add_node(value).index()
}

/// `Graph::add_edge`: appends an edge from node `from` to node `to`; parallel
/// edges are kept. The nodes stay as they are. The new edge has the highest
/// index and is put first in the list of `from`. petgraph panics where an
/// end is no node or the edge's index would be `u32::MAX`; `requires` keeps
/// away from both.
#[verifier::external_body]
pub(crate) fn add_edge(g: &mut CollatzGraph, from: usize, to: usize)
    requires
        from < graph_nodes(*old(g)).len(),
        to < graph_nodes(*old(g)).len(),
        graph_edges(*old(g)).len() < GRAPH_CAPACITY,
    ensures
        graph_nodes(*final(g)) == graph_nodes(*old(g)),
        graph_edges(*final(g)) == graph_edges(*old(g)).push((from as int, to as int)),
        in_added_order(*old(g)) ==> in_added_order(*final(g)),
{
    g.add_edge(NodeIndex::new(from), NodeIndex::new(to), ());
}

/// `Graph::neighbors_directed` with `Outgoing`: the targets of the edges
/// that leave `a`, in the order of the list that `a` keeps of them, which by
/// `requires` is latest first. Each target is a node: `add_edge` takes no
/// other end.
#[verifier::external_body]
pub(crate) fn successors(g: &CollatzGraph, a: usize) -> (out: Vec<usize>)
    requires
        a < graph_nodes(*g).len(),
        in_added_order(*g),
    ensures
        as_ints(out@) == successors_of(graph_edges(*g), a as int),
        forall|i: int| 0 <= i < out@.len() ==> (#[trigger] out@[i]) < graph_nodes(*g).len(),
{
    g.neighbors_directed(NodeIndex::new(a), Direction::Outgoing).map(|n| n.index()).collect()
}

/// `Graph::neighbors_directed` with `Incoming`, counted: one neighbor is
/// listed for each edge that enters `a`, a loop from `a` to itself included.
#[verifier::external_body]
pub(crate) fn in_degree(g: &CollatzGraph, a: usize) -> (n: usize)
    requires
        a < graph_nodes(*g).len(),
    ensures
        n == in_degree_of(graph_edges(*g), a as int),
{
    g.neighbors_directed(NodeIndex::new(a), Direction::Incoming).count()
}

} // verus!
