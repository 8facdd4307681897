//! What the inverse tree of a number is, and the traversal that builds it.

use crate::collatz::{collatz_step, predecessors_of};
use vstd::arithmetic::power2::{lemma2_to64, lemma_pow2_strictly_increases, lemma_pow2_unfold, pow2};
use vstd::prelude::*;

verus! {

/// No predecessor above this value is taken into an inverse tree.
pub const MAX_TREE_VALUE: u64 = 1_000_000;

/// Up to this depth an inverse tree is certain to fit in the graph.
pub const MAX_CERTAIN_DEPTH: usize = 31;

/// `v` reaches `root` by exactly `k` Collatz steps, and each value that a
/// step is taken from is at most `MAX_TREE_VALUE`.
pub open spec fn climbs_to(v: nat, k: nat, root: nat) -> bool
    decreases k,
{
    if k == 0 {
        v == root
    } else {
        v <= MAX_TREE_VALUE && climbs_to(collatz_step(v), (k - 1) as nat, root)
    }
}

/// `v` belongs to the inverse tree of `root` cut at `depth`: it reaches
/// `root` by at most `depth` steps from values within the bound.
pub open spec fn in_inverse_tree(root: nat, depth: nat, v: nat) -> bool {
    exists|k: nat| k <= depth && #[trigger] climbs_to(v, k, root)
}

/// `p` is a predecessor within the bound of `s`, and `s` lies in the tree
/// above the last level, so that the tree holds the step from `p` to `s`.
pub open spec fn tree_step(p: u64, s: u64, root: u64, depth: nat) -> bool {
    &&& p <= MAX_TREE_VALUE
    &&& collatz_step(p as nat) == s as nat
    &&& depth >= 1
    &&& in_inverse_tree(root as nat, (depth - 1) as nat, s as nat)
}

/// The edge `e` joins two nodes, and from the one to the other is a step of
/// the tree.
pub open spec fn is_tree_edge(nodes: Seq<u64>, e: (int, int), root: u64, depth: nat) -> bool {
    &&& 0 <= e.0 < nodes.len()
    &&& 0 <= e.1 < nodes.len()
    &&& tree_step(nodes[e.0], nodes[e.1], root, depth)
}

/// `nodes` and `edges` are the inverse tree of `root` cut at `depth`: the
/// root is node 0, the nodes are the values of the tree, each once, every
/// edge is a step of the tree, and every step of the tree between two nodes
/// has an edge.
pub open spec fn is_inverse_tree(nodes: Seq<u64>, edges: Seq<(int, int)>, root: u64, depth: nat) -> bool {
    &&& nodes.no_duplicates()
    &&& nodes.len() >= 1
    &&& nodes[0] == root
    &&& forall|v: u64| #[trigger] nodes.contains(v) <==> in_inverse_tree(root as nat, depth, v as nat)
    &&& forall|e: int| 0 <= e < edges.len() ==> is_tree_edge(nodes, #[trigger] edges[e], root, depth)
    &&& forall|a: int, b: int|
        0 <= a < nodes.len() && 0 <= b < nodes.len() && #[trigger] tree_step(
            nodes[a],
            nodes[b],
            root,
            depth,
        ) ==> edges.contains((a, b))
}

/// From node `a`, `k` edges taken one after the other end at node 0.
pub open spec fn leads_to_root(edges: Seq<(int, int)>, a: int, k: nat) -> bool
    decreases k,
{
    if k == 0 {
        a == 0
    } else {
        exists|b: int| #[trigger] edges.contains((a, b)) && leads_to_root(edges, b, (k - 1) as nat)
    }
}

/// A value that waits to be expanded, with the index of its node and the
/// number of steps that lead from it to the root.
#[derive(Clone, Copy)]
pub struct Pending {
    pub value: u64,
    pub handle: usize,
    pub depth: usize,
}

/// The traversal at one moment: the graph so far and the pending entries,
/// the one to be expanded next at the end.
pub struct Walk {
    pub nodes: Seq<u64>,
    pub edges: Seq<(int, int)>,
    pub queue: Seq<Pending>,
}

/// `value` is among the pending entries.
pub open spec fn is_waiting(queue: Seq<Pending>, value: u64) -> bool {
    exists|i: int| 0 <= i < queue.len() && (#[trigger] queue[i]).value == value
}

/// The traversal before its first step: the root alone, pending at depth 0.
pub open spec fn first_walk(root: u64) -> Walk {
    Walk {
        nodes: seq![root],
        edges: Seq::empty(),
        queue: seq![Pending { value: root, handle: 0, depth: 0 }],
    }
}

/// The traversal with a node for `p` if `fresh`, an edge from node `hp` to
/// node `hnum`, and `p` pending one step further than `d` if `push`.
pub open spec fn visited_walk(w: Walk, p: u64, hp: int, hnum: int, d: nat, fresh: bool, push: bool) -> Walk {
    Walk {
        nodes: if fresh {
            w.nodes.push(p)
        } else {
            w.nodes
        },
        edges: w.edges.push((hp, hnum)),
        queue: if push {
            w.queue.push(Pending { value: p, handle: hp as usize, depth: (d + 1) as usize })
        } else {
            w.queue
        },
    }
}

/// The traversal after the predecessor `p` of `entry` was visited. Above the
/// bound `p` is passed over. Else it gets a node unless it has one, an edge
/// leads from its node to the node of `entry`, and it becomes pending unless
/// it is.
pub open spec fn visit(w: Walk, entry: Pending, p: nat) -> Walk {
    if p > MAX_TREE_VALUE {
        w
    } else {
        let fresh = !w.nodes.contains(p as u64);
        let hp = if fresh {
            w.nodes.len() as int
        } else {
            w.nodes.index_of(p as u64)
        };
        visited_walk(
            w,
            p as u64,
            hp,
            entry.handle as int,
            entry.depth as nat,
            fresh,
            !is_waiting(w.queue, p as u64),
        )
    }
}

/// The traversal after the predecessors `preds` of `entry` were visited one
/// after the other.
pub open spec fn visit_all(w: Walk, entry: Pending, preds: Seq<nat>) -> Walk
    decreases preds.len(),
{
    if preds.len() == 0 {
        w
    } else {
        visit_all(visit(w, entry, preds.first()), entry, preds.drop_first())
    }
}

/// One step of the traversal: the last pending entry is taken off and,
/// unless it lies at full depth, its predecessors are visited.
pub open spec fn advance(w: Walk, depth: usize) -> Walk {
    let entry = w.queue.last();
    let rest = Walk { queue: w.queue.drop_last(), ..w };
    if entry.depth < depth {
        visit_all(rest, entry, predecessors_of(entry.value as nat))
    } else {
        rest
    }
}

/// The most edges that expanding one pending entry of depth `d` can add,
/// everything that it makes pending counted in.
pub open spec fn edge_budget(depth: nat, d: nat) -> nat
    decreases depth - d,
{
    if d >= depth {
        0
    } else {
        2 + 2 * edge_budget(depth, d + 1)
    }
}

/// The edge budgets of all pending entries together.
pub open spec fn queue_budget(queue: Seq<Pending>, depth: nat) -> nat
    decreases queue.len(),
{
    if queue.len() == 0 {
        0
    } else {
        queue_budget(queue.drop_last(), depth) + edge_budget(depth, queue.last().depth as nat)
    }
}

/// The edge budgets of the pending entries and their number: what is left
/// to do.
pub open spec fn queue_weight(queue: Seq<Pending>, depth: nat) -> nat {
    queue_budget(queue, depth) + queue.len()
}

/// The traversal carried on from `w` until nothing is pending.
pub open spec fn complete(w: Walk, depth: usize) -> Walk
    decreases queue_weight(w.queue, depth as nat),
    via complete_ends
{
    if w.queue.len() == 0 {
        w
    } else {
        complete(advance(w, depth), depth)
    }
}

/// Each step leaves less to do, so the traversal ends.
#[via_fn]
proof fn complete_ends(w: Walk, depth: usize) {
    if w.queue.len() != 0 {
        lemma_advance_weight(w, depth);
    }
}

/// The whole traversal from `start`: its nodes in the order in which they
/// were met, its edges in the order in which they were added.
pub open spec fn tree_walk(start: u64, depth: usize) -> Walk {
    complete(first_walk(start), depth)
}

/// The traversal from any `start` but zero ends with the inverse tree of
/// `start`: every number within the bound that reaches `start` by at most
/// `depth` steps has its node, nothing else has, and the edges are the
/// steps between them.
pub proof fn lemma_tree_walk_is_inverse_tree(start: u64, depth: usize)
    requires
        start >= 1,
    ensures
        is_inverse_tree(
            tree_walk(start, depth).nodes,
            tree_walk(start, depth).edges,
            start,
            depth as nat,
        ),
{
    crate::inverse_proof::lemma_walk_builds_tree(start, depth);
}

/// In an inverse tree every node but the root carries at most
/// `MAX_TREE_VALUE`, and every node reaches the root's node by at most
/// `depth` edges.
pub proof fn lemma_tree_within_bounds(
    nodes: Seq<u64>,
    edges: Seq<(int, int)>,
    root: u64,
    depth: nat,
    a: int,
)
    requires
        is_inverse_tree(nodes, edges, root, depth),
        0 <= a < nodes.len(),
    ensures
        a == 0 || nodes[a] <= MAX_TREE_VALUE,
        exists|k: nat| k <= depth && #[trigger] leads_to_root(edges, a, k),
{
    assert(nodes.contains(nodes[a]));
    let k = choose|k: nat| k <= depth && #[trigger] climbs_to(nodes[a] as nat, k, root as nat);
    lemma_climb_fits(nodes[a] as nat, k, root);
    lemma_tree_path(nodes, edges, root, depth, a, k);
}

/// In an inverse tree, a node whose value reaches the root by `k` steps
/// within the bound reaches the root's node by `k` edges.
pub proof fn lemma_tree_path(
    nodes: Seq<u64>,
    edges: Seq<(int, int)>,
    root: u64,
    depth: nat,
    a: int,
    k: nat,
)
    requires
        is_inverse_tree(nodes, edges, root, depth),
        0 <= a < nodes.len(),
        k <= depth,
        climbs_to(nodes[a] as nat, k, root as nat),
    ensures
        leads_to_root(edges, a, k),
    decreases k,
{
    if k > 0 {
        let p = nodes[a];
        let s = collatz_step(p as nat);
        lemma_climb_fits(s, (k - 1) as nat, root);
        let s64 = s as u64;
        assert(in_inverse_tree(root as nat, (depth - 1) as nat, s64 as nat));
        assert(in_inverse_tree(root as nat, depth, s64 as nat));
        assert(nodes.contains(s64));
        let b = choose|b: int| 0 <= b < nodes.len() && nodes[b] == s64;
        assert(tree_step(nodes[a], nodes[b], root, depth));
        assert(edges.contains((a, b)));
        lemma_tree_path(nodes, edges, root, depth, b, (k - 1) as nat);
    }
}

/// Up to depth `MAX_CERTAIN_DEPTH` the traversal adds fewer edges than the
/// graph has room for.
pub proof fn lemma_tree_fits(start: u64, depth: usize)
    requires
        depth <= MAX_CERTAIN_DEPTH,
    ensures
        tree_walk(start, depth).edges.len() <= edge_budget(depth as nat, 0),
        tree_walk(start, depth).edges.len() < crate::digraph::GRAPH_CAPACITY,
{
    let first = first_walk(start);
    lemma_complete_edges(first, depth);
    assert(first.queue =~= Seq::<Pending>::empty().push(first.queue[0]));
    lemma_queue_budget_push(Seq::<Pending>::empty(), first.queue[0], depth as nat);
    lemma_budget_fits(depth as nat);
}

/// Whatever reaches the root within the bound is the root or is itself
/// within the bound, and so fits in 64 bits.
pub proof fn lemma_climb_fits(v: nat, k: nat, root: u64)
    requires
        climbs_to(v, k, root as nat),
    ensures
        v <= u64::MAX,
        v == root || v <= MAX_TREE_VALUE,
{
}

/// One more edge, and for a new pending entry its budget: what visiting one
/// predecessor of an entry at depth `d` costs at most.
pub open spec fn visit_cost(depth: nat, d: nat) -> nat {
    1 + edge_budget(depth, d + 1)
}

/// Visiting a predecessor adds at most one edge, removes none, and adds at
/// most one pending entry, one step further from the root.
pub proof fn lemma_visit_cost(w: Walk, entry: Pending, p: nat, depth: nat)
    requires
        entry.depth < usize::MAX,
    ensures
        ({
            let x = visit(w, entry, p);
            let cost = visit_cost(depth, entry.depth as nat);
            &&& w.edges.len() <= x.edges.len() <= w.edges.len() + 1
            &&& p <= MAX_TREE_VALUE ==> x.edges.len() == w.edges.len() + 1
            &&& x.edges.len() + queue_budget(x.queue, depth) <= w.edges.len() + queue_budget(
                w.queue,
                depth,
            ) + cost
            &&& queue_weight(x.queue, depth) <= queue_weight(w.queue, depth) + cost
        }),
{
    if p <= MAX_TREE_VALUE {
        let x = visit(w, entry, p);
        if !is_waiting(w.queue, p as u64) {
            lemma_queue_budget_push(w.queue, x.queue.last(), depth);
            assert(x.queue == w.queue.push(x.queue.last()));
        }
    }
}

/// Visiting the predecessors of an entry costs at most as much for each.
pub proof fn lemma_visit_all_cost(w: Walk, entry: Pending, preds: Seq<nat>, depth: nat)
    requires
        entry.depth < usize::MAX,
    ensures
        ({
            let x = visit_all(w, entry, preds);
            let cost = preds.len() * visit_cost(depth, entry.depth as nat);
            &&& w.edges.len() <= x.edges.len()
            &&& x.edges.len() + queue_budget(x.queue, depth) <= w.edges.len() + queue_budget(
                w.queue,
                depth,
            ) + cost
            &&& queue_weight(x.queue, depth) <= queue_weight(w.queue, depth) + cost
        }),
    decreases preds.len(),
{
    let unit = visit_cost(depth, entry.depth as nat);
    if preds.len() > 0 {
        lemma_visit_cost(w, entry, preds.first(), depth);
        lemma_visit_all_cost(visit(w, entry, preds.first()), entry, preds.drop_first(), depth);
        assert(preds.len() * unit == unit + (preds.len() - 1) * unit) by (nonlinear_arith);
    } else {
        assert(preds.len() * unit == 0) by (nonlinear_arith)
            requires
                preds.len() == 0,
        ;
    }
}

/// A step of the traversal leaves less to do, removes no edge, and stays
/// within the budget of what was pending.
pub proof fn lemma_advance_weight(w: Walk, depth: usize)
    requires
        w.queue.len() > 0,
    ensures
        queue_weight(advance(w, depth).queue, depth as nat) < queue_weight(w.queue, depth as nat),
        w.edges.len() <= advance(w, depth).edges.len(),
        advance(w, depth).edges.len() + queue_budget(advance(w, depth).queue, depth as nat)
            <= w.edges.len() + queue_budget(w.queue, depth as nat),
{
    let entry = w.queue.last();
    let rest = Walk { queue: w.queue.drop_last(), ..w };
    if entry.depth < depth {
        let preds = predecessors_of(entry.value as nat);
        let unit = visit_cost(depth as nat, entry.depth as nat);
        lemma_visit_all_cost(rest, entry, preds, depth as nat);
        assert(preds.len() * unit <= 2 * unit) by (nonlinear_arith)
            requires
                preds.len() <= 2,
        ;
    }
}

/// Carrying the traversal on removes no edge, and adds no more than the
/// budget of what is pending.
pub proof fn lemma_complete_edges(w: Walk, depth: usize)
    ensures
        w.edges.len() <= complete(w, depth).edges.len(),
        complete(w, depth).edges.len() <= w.edges.len() + queue_budget(w.queue, depth as nat),
    decreases queue_weight(w.queue, depth as nat),
{
    if w.queue.len() > 0 {
        lemma_advance_weight(w, depth);
        lemma_complete_edges(advance(w, depth), depth);
    }
}

/// The edge budget of an entry doubles with each level that is left to it.
pub proof fn lemma_budget_is_power(depth: nat, d: nat)
    requires
        d <= depth,
    ensures
        edge_budget(depth, d) + 2 == pow2((depth - d + 1) as nat),
    decreases depth - d,
{
    if d == depth {
        lemma2_to64();
    } else {
        lemma_budget_is_power(depth, d + 1);
        lemma_pow2_unfold((depth - d + 1) as nat);
    }
}

/// Up to depth `MAX_CERTAIN_DEPTH` the whole budget of edges is within what
/// the graph takes.
pub proof fn lemma_budget_fits(depth: nat)
    requires
        depth <= MAX_CERTAIN_DEPTH,
    ensures
        edge_budget(depth, 0) + 2 <= 0x1_0000_0000,
{
    lemma_budget_is_power(depth, 0);
    lemma2_to64();
    if depth + 1 < 32 {
        lemma_pow2_strictly_increases((depth + 1) as nat, 32);
    }
}

/// A new pending entry adds its edge budget to that of the others.
pub proof fn lemma_queue_budget_push(queue: Seq<Pending>, q: Pending, depth: nat)
    ensures
        queue_budget(queue.push(q), depth) == queue_budget(queue, depth) + edge_budget(
            depth,
            q.depth as nat,
        ),
{
    assert(queue.push(q).drop_last() == queue);
}

} // verus!
