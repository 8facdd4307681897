//! Builders: the path graph of a sequence, and the bounded tree of
//! predecessors of a number.

use crate::collatz::{
    as_nats, collatz_predecessors, lemma_predecessors_exact, predecessors_of, CollatzError,
};
pub use crate::digraph::CollatzGraph;
use crate::digraph::{
    add_edge, add_node, edge_count, graph_edges, graph_nodes, in_added_order, new_graph,
    GRAPH_CAPACITY,
};
use crate::inverse::{
    advance, complete, first_walk, is_inverse_tree, is_waiting, lemma_advance_weight,
    lemma_complete_edges, lemma_tree_fits, lemma_visit_all_cost, lemma_visit_cost, queue_weight,
    tree_walk, visit, visit_all, visited_walk, Pending, Walk, MAX_CERTAIN_DEPTH, MAX_TREE_VALUE,
};
use crate::inverse_proof::{
    all_seen, feeds, first_reached, lemma_done, lemma_finish, lemma_first_walk, lemma_pop,
    lemma_seen_kept, lemma_visit, lowered, seen, walk_inv,
};
use std::collections::HashMap;
use vstd::prelude::*;
use vstd::std_specs::hash::*;

verus! {

broadcast use vstd::std_specs::hash::group_hash_axioms;

/// The distinct values of `s`, in the order in which each first occurs.
pub open spec fn distinct_values(s: Seq<u64>) -> Seq<u64>
    decreases s.len(),
{
    if s.len() == 0 {
        Seq::empty()
    } else {
        let before = distinct_values(s.drop_last());
        if before.contains(s.last()) {
            before
        } else {
            before.push(s.last())
        }
    }
}

/// One edge for each element of `s` but the last, from the node of that
/// element to the node of the next.
pub open spec fn path_edges(s: Seq<u64>) -> Seq<(int, int)> {
    let nodes = distinct_values(s);
    Seq::new(
        if s.len() == 0 {
            0
        } else {
            (s.len() - 1) as nat
        },
        |i: int| (nodes.index_of(s[i]), nodes.index_of(s[i + 1])),
    )
}

/// `g` is the graph of the sequence `s`.
pub open spec fn is_sequence_graph(g: CollatzGraph, s: Seq<u64>) -> bool {
    graph_nodes(g) == distinct_values(s) && graph_edges(g) == path_edges(s)
}

/// `table` sends each number on a node of `nodes` to that node's index, and
/// holds nothing else; no number stands on two nodes.
pub open spec fn is_handle_table(nodes: Seq<u64>, table: Map<u64, usize>) -> bool {
    &&& nodes.no_duplicates()
    &&& forall|v: u64|
        #![trigger table.contains_key(v)]
        #![trigger nodes.contains(v)]
        table.contains_key(v) <==> nodes.contains(v)
    &&& forall|i: int| 0 <= i < nodes.len() ==> table[#[trigger] nodes[i]] == i
}

/// Why the inverse tree of `start` cannot be built, if it cannot: zero has
/// none; a `start` whose double leaves 64 bits has none below depth 0; and
/// the traversal must not add more edges than the graph can number.
pub open spec fn tree_failure(start: u64, depth: usize) -> Option<CollatzError> {
    if start == 0 {
        Some(CollatzError::InvalidInput)
    } else if depth >= 1 && 2 * start > u64::MAX {
        Some(CollatzError::ArithmeticOverflow)
    } else if tree_walk(start, depth).edges.len() >= GRAPH_CAPACITY {
        Some(CollatzError::GraphTooLarge)
    } else {
        None
    }
}

/// The graph of a sequence: one node for each distinct value, numbered by
/// first occurrence, and one edge for each consecutive pair, a repeated pair
/// repeated. With the graph comes the table from value to node index.
///
/// The sequence must not be longer than a graph indexed by `u32` has room
/// for.
pub fn build_sequence_graph(sequence: Vec<u64>) -> (r: (CollatzGraph, HashMap<u64, usize>))
    requires
        sequence.len() <= GRAPH_CAPACITY,
    ensures
        is_sequence_graph(r.0, sequence@),
        is_handle_table(graph_nodes(r.0), r.1@),
        in_added_order(r.0),
{
    let mut graph = new_graph();
    let mut node_map: HashMap<u64, usize> = HashMap::new();
    let mut i: usize = 0;
    while i < sequence.len()
        invariant
            i <= sequence.len(),
            sequence.len() <= GRAPH_CAPACITY,
            in_added_order(graph),
            graph_nodes(graph) == distinct_values(sequence@.take(i as int)),
            graph_nodes(graph).len() <= i,
            graph_edges(graph).len() == 0,
            is_handle_table(graph_nodes(graph), node_map@),
        decreases sequence.len() - i,
    {
        let num = sequence[i];
        proof {
            assert(sequence@.take(i + 1).drop_last() == sequence@.take(i as int));
            assert(sequence@.take(i + 1).last() == num);
        }
        if !node_map.contains_key(&num) {
            let ghost before = graph_nodes(graph);
            let ghost table = node_map@;
            let handle = add_node(&mut graph, num);
            node_map.insert(num, handle);
            proof {
                lemma_table_grows(before, table, num);
            }
        }
        i += 1;
    }
    assert(sequence@.take(sequence.len() as int) == sequence@);
    proof {
        lemma_distinct_values_holds_all(sequence@);
    }
    let mut j: usize = 0;
    while j + 1 < sequence.len()
        invariant
            j <= sequence.len(),
            sequence.len() > 0 ==> j < sequence.len(),
            sequence.len() <= GRAPH_CAPACITY,
            in_added_order(graph),
            graph_nodes(graph) == distinct_values(sequence@),
            is_handle_table(graph_nodes(graph), node_map@),
            forall|k: int| 0 <= k < sequence.len() ==> graph_nodes(graph).contains(#[trigger] sequence[k]),
            graph_edges(graph).len() == j,
            forall|k: int| 0 <= k < j ==> #[trigger] graph_edges(graph)[k] == path_edges(sequence@)[k],
        decreases sequence.len() - j,
    {
        let from = lookup(&node_map, sequence[j], Ghost(graph_nodes(graph)));
        let to = lookup(&node_map, sequence[j + 1], Ghost(graph_nodes(graph)));
        add_edge(&mut graph, from, to);
        j += 1;
    }
    assert(graph_edges(graph) =~= path_edges(sequence@));
    (graph, node_map)
}

/// The inverse tree of `start`: every number that reaches `start` by at most
/// `depth` Collatz steps taken from values of at most `MAX_TREE_VALUE`, with
/// one node each, `start` at node 0, and an edge from predecessor to
/// successor for every such step between them. Nodes and edges stand in the
/// order in which the traversal `tree_walk` meets them, which expands the
/// entry made pending last and visits the even predecessor before the odd
/// one; an entry that is expanded twice gives its edges twice. With the
/// graph comes the table from value to node index.
///
/// The build fails as `tree_failure` says. Up to depth `MAX_CERTAIN_DEPTH`
/// the edges are never too many.
pub fn build_inverse_tree(start: u64, depth: usize) -> (r: Result<
    (CollatzGraph, HashMap<u64, usize>),
    CollatzError,
>)
    ensures
        match r {
            Ok(built) => {
                &&& tree_failure(start, depth) is None
                &&& graph_nodes(built.0) == tree_walk(start, depth).nodes
                &&& graph_edges(built.0) == tree_walk(start, depth).edges
                &&& is_inverse_tree(graph_nodes(built.0), graph_edges(built.0), start, depth as nat)
                &&& is_handle_table(graph_nodes(built.0), built.1@)
                &&& in_added_order(built.0)
            },
            Err(e) => tree_failure(start, depth) == Some(e),
        },
{
    if start == 0 {
        return Err(CollatzError::InvalidInput);
    }
    if depth >= 1 && start > u64::MAX / 2 {
        return Err(CollatzError::ArithmeticOverflow);
    }
    let mut graph = new_graph();
    let mut node_map: HashMap<u64, usize> = HashMap::new();
    let root: usize = add_node(&mut graph, start);
    node_map.insert(start, root);
    let mut queue: Vec<Pending> = Vec::new();
    queue.push(Pending { value: start, handle: root, depth: 0 });
    let ghost mut reached: Map<u64, nat> = first_reached(start);
    proof {
        lemma_first_walk(start, depth as nat);
        lemma_table_grows(Seq::empty(), Map::empty(), start);
        assert(graph_nodes(graph) =~= seq![start]);
        assert(queue@ =~= seq![Pending { value: start, handle: 0, depth: 0 }]);
        assert(walk_of(graph, queue@) == first_walk(start));
    }
    while queue.len() > 0
        invariant
            start >= 1,
            depth >= 1 ==> 2 * start <= u64::MAX,
            in_added_order(graph),
            walk_inv(walk_of(graph, queue@), reached, start, depth as nat, false, 0, 0),
            is_handle_table(graph_nodes(graph), node_map@),
            complete(walk_of(graph, queue@), depth) == tree_walk(start, depth),
            graph_edges(graph).len() < GRAPH_CAPACITY,
        decreases queue_weight(queue@, depth as nat),
    {
        let ghost before = walk_of(graph, queue@);
        let entry = queue[queue.len() - 1];
        queue.pop();
        proof {
            lemma_pop(before, reached, start, depth as nat);
            lemma_advance_weight(before, depth);
            assert(queue@ == before.queue.drop_last());
            assert(walk_of(graph, queue@) == Walk { queue: before.queue.drop_last(), ..before });
            assert(complete(before, depth) == complete(advance(before, depth), depth));
        }
        if entry.depth < depth {
            let preds = match collatz_predecessors(entry.value) {
                Ok(preds) => preds,
                Err(e) => { return Err(e); },
            };
            let ghost all = as_nats(preds@);
            proof {
                assert(all.skip(0) =~= all);
            }
            let mut t: usize = 0;
            while t < preds.len()
                invariant
                    start >= 1,
                    2 * start <= u64::MAX,
                    in_added_order(graph),
                    entry.depth < depth,
                    t <= preds.len(),
                    all == as_nats(preds@),
                    all == predecessors_of(entry.value as nat),
                    entry.handle < graph_nodes(graph).len(),
                    graph_nodes(graph)[entry.handle as int] == entry.value,
                    walk_inv(
                        walk_of(graph, queue@),
                        reached,
                        start,
                        depth as nat,
                        true,
                        entry.value,
                        entry.depth as nat,
                    ),
                    is_handle_table(graph_nodes(graph), node_map@),
                    forall|k: int|
                        0 <= k < t && (#[trigger] preds[k]) <= MAX_TREE_VALUE ==> seen(
                            walk_of(graph, queue@),
                            reached,
                            preds[k],
                            entry.value,
                            (entry.depth + 1) as nat,
                        ),
                    visit_all(walk_of(graph, queue@), entry, all.skip(t as int)) == advance(
                        before,
                        depth,
                    ),
                    complete(advance(before, depth), depth) == tree_walk(start, depth),
                    graph_edges(graph).len() < GRAPH_CAPACITY,
                decreases preds.len() - t,
            {
                let pred: u64 = preds[t];
                let ghost w = walk_of(graph, queue@);
                proof {
                    assert(all.skip(t as int).first() == pred as nat);
                    assert(all.skip(t as int).drop_first() =~= all.skip(t + 1));
                }
                if pred <= MAX_TREE_VALUE {
                    if edge_count(&graph) >= GRAPH_CAPACITY - 1 {
                        proof {
                            let x = visit(w, entry, pred as nat);
                            lemma_visit_cost(w, entry, pred as nat, depth as nat);
                            lemma_visit_all_cost(x, entry, all.skip(t + 1), depth as nat);
                            lemma_complete_edges(advance(before, depth), depth);
                        }
                        return Err(CollatzError::GraphTooLarge);
                    }
                    let ghost table = node_map@;
                    let ghost earlier = reached;
                    proof {
                        assert(all[t as int] == pred as nat);
                        assert(predecessors_of(entry.value as nat).contains(pred as nat));
                        lemma_predecessors_exact(entry.value as nat, pred as nat);
                        assert(feeds(pred, entry.value));
                    }
                    let found = find(&node_map, pred, Ghost(graph_nodes(graph)));
                    let fresh = found.is_none();
                    let handle: usize = match found {
                        Some(handle) => handle,
                        None => {
                            let handle: usize = add_node(&mut graph, pred);
                            node_map.insert(pred, handle);
                            proof {
                                lemma_table_grows(w.nodes, table, pred);
                            }
                            handle
                        },
                    };
                    add_edge(&mut graph, handle, entry.handle);
                    let pending = is_pending(&queue, pred);
                    if !pending {
                        queue.push(Pending { value: pred, handle, depth: entry.depth + 1 });
                    }
                    proof {
                        reached = lowered(earlier, pred, (entry.depth + 1) as nat);
                        let x = visited_walk(
                            w,
                            pred,
                            handle as int,
                            entry.handle as int,
                            entry.depth as nat,
                            fresh,
                            !pending,
                        );
                        lemma_visit(
                            w,
                            earlier,
                            start,
                            depth as nat,
                            entry.value,
                            entry.handle as int,
                            entry.depth as nat,
                            pred,
                            handle as int,
                            fresh,
                            !pending,
                        );
                        assert(walk_of(graph, queue@) == x);
                        assert(x == visit(w, entry, pred as nat));
                        assert forall|k: int|
                            0 <= k < t + 1 && (#[trigger] preds[k]) <= MAX_TREE_VALUE implies seen(
                            x,
                            reached,
                            preds[k],
                            entry.value,
                            (entry.depth + 1) as nat,
                        ) by {
                            if k < t {
                                lemma_seen_kept(
                                    w,
                                    earlier,
                                    x,
                                    reached,
                                    preds[k],
                                    entry.value,
                                    (entry.depth + 1) as nat,
                                );
                            }
                        }
                    }
                }
                t += 1;
            }
            proof {
                assert(all.skip(preds@.len() as int) =~= Seq::<nat>::empty());
                assert(all_seen(
                    walk_of(graph, queue@),
                    reached,
                    entry.value,
                    entry.depth as nat,
                    all.len() as int,
                )) by {
                    assert forall|k: int|
                        0 <= k < all.len() && (#[trigger] all[k]) <= MAX_TREE_VALUE implies seen(
                        walk_of(graph, queue@),
                        reached,
                        all[k] as u64,
                        entry.value,
                        (entry.depth + 1) as nat,
                    ) by {
                        assert(all[k] == preds@[k] as nat);
                    }
                }
                lemma_finish(
                    walk_of(graph, queue@),
                    reached,
                    start,
                    depth as nat,
                    entry.value,
                    entry.depth as nat,
                );
            }
        }
    }
    proof {
        lemma_done(walk_of(graph, queue@), reached, start, depth as nat);
    }
    Ok((graph, node_map))
}

/// The graph of a sequence has as many nodes as the sequence has distinct
/// values, and one edge fewer than the sequence has elements.
pub proof fn lemma_sequence_graph_counts(s: Seq<u64>)
    ensures
        distinct_values(s).len() == s.to_set().len(),
        s.len() >= 1 ==> path_edges(s).len() == s.len() - 1,
        s.len() == 0 ==> path_edges(s).len() == 0,
{
    lemma_distinct_values_holds_all(s);
    let d = distinct_values(s);
    d.unique_seq_to_set();
    assert(d.to_set() =~= s.to_set());
}

/// Edge `k` of the graph of a sequence leads from the node that carries
/// element `k` to the node that carries element `k + 1`.
pub proof fn lemma_path_edges_follow(s: Seq<u64>, k: int)
    requires
        0 <= k < s.len() - 1,
    ensures
        ({
            let nodes = distinct_values(s);
            let e = path_edges(s)[k];
            &&& 0 <= e.0 < nodes.len()
            &&& 0 <= e.1 < nodes.len()
            &&& nodes[e.0] == s[k]
            &&& nodes[e.1] == s[k + 1]
        }),
{
    lemma_distinct_values_holds_all(s);
    let nodes = distinct_values(s);
    assert(nodes.contains(s[k]));
    assert(nodes.contains(s[k + 1]));
}

/// Building twice from one sequence gives one graph: the same values on the
/// same nodes, and edge for edge the same values at its two ends, which are
/// those of the pair of the sequence that the edge stands for.
pub proof fn lemma_sequence_graph_repeatable(s: Seq<u64>, first: CollatzGraph, second: CollatzGraph)
    requires
        is_sequence_graph(first, s),
        is_sequence_graph(second, s),
    ensures
        graph_nodes(first) == graph_nodes(second),
        graph_edges(first) == graph_edges(second),
        forall|k: int|
            0 <= k < s.len() - 1 ==> {
                let e = #[trigger] graph_edges(first)[k];
                let f = graph_edges(second)[k];
                &&& graph_nodes(first)[e.0] == s[k] && graph_nodes(first)[e.1] == s[k + 1]
                &&& graph_nodes(second)[f.0] == s[k] && graph_nodes(second)[f.1] == s[k + 1]
            },
{
    assert forall|k: int| 0 <= k < s.len() - 1 implies {
        let e = #[trigger] graph_edges(first)[k];
        let f = graph_edges(second)[k];
        &&& graph_nodes(first)[e.0] == s[k] && graph_nodes(first)[e.1] == s[k + 1]
        &&& graph_nodes(second)[f.0] == s[k] && graph_nodes(second)[f.1] == s[k + 1]
    } by {
        lemma_path_edges_follow(s, k);
    }
}

/// Up to depth `MAX_CERTAIN_DEPTH` no inverse tree is too large for the
/// graph: the build fails only for a `start` that is zero or cannot be
/// doubled.
pub proof fn lemma_certain_depth(start: u64, depth: usize)
    requires
        depth <= MAX_CERTAIN_DEPTH,
    ensures
        tree_failure(start, depth) != Some(CollatzError::GraphTooLarge),
        start >= 1 && 2 * start <= u64::MAX ==> tree_failure(start, depth) is None,
{
    lemma_tree_fits(start, depth);
}

/// The distinct values of a sequence hold every element of it and nothing
/// else, each once.
pub proof fn lemma_distinct_values_holds_all(s: Seq<u64>)
    ensures
        distinct_values(s).no_duplicates(),
        distinct_values(s).len() <= s.len(),
        forall|v: u64| distinct_values(s).contains(v) <==> s.contains(v),
        forall|k: int| 0 <= k < s.len() ==> distinct_values(s).contains(#[trigger] s[k]),
    decreases s.len(),
{
    let d = distinct_values(s);
    if s.len() > 0 {
        let front = s.drop_last();
        let before = distinct_values(front);
        lemma_distinct_values_holds_all(front);
        assert forall|v: u64| d.contains(v) <==> s.contains(v) by {
            if s.contains(v) {
                let k = choose|k: int| 0 <= k < s.len() && s[k] == v;
                if k < front.len() {
                    assert(front[k] == v);
                    assert(front.contains(v));
                    let i = choose|i: int| 0 <= i < before.len() && before[i] == v;
                    assert(d[i] == v);
                } else if !before.contains(s.last()) {
                    assert(d[before.len() as int] == v);
                }
            }
            if d.contains(v) {
                let i = choose|i: int| 0 <= i < d.len() && d[i] == v;
                if i < before.len() {
                    assert(before[i] == v);
                    assert(before.contains(v));
                    assert(front.contains(v));
                    let k = choose|k: int| 0 <= k < front.len() && front[k] == v;
                    assert(s[k] == v);
                } else {
                    assert(s[s.len() - 1] == v);
                }
            }
        }
        assert forall|i: int, j: int| 0 <= i < d.len() && 0 <= j < d.len() && i != j implies d[i]
            != d[j] by {
            if i < before.len() {
                assert(before.contains(d[i]));
            }
            if j < before.len() {
                assert(before.contains(d[j]));
            }
        }
    }
    assert forall|k: int| 0 <= k < s.len() implies d.contains(#[trigger] s[k]) by {
        assert(s.contains(s[k]));
    }
}

/// Adding a node for a value that the table does not hold, and entering the
/// value under that node's index, keeps the table in step with the nodes.
pub proof fn lemma_table_grows(nodes: Seq<u64>, table: Map<u64, usize>, value: u64)
    requires
        is_handle_table(nodes, table),
        !table.contains_key(value),
        nodes.len() <= usize::MAX,
    ensures
        is_handle_table(nodes.push(value), table.insert(value, nodes.len() as usize)),
{
    let grown = nodes.push(value);
    let entered = table.insert(value, nodes.len() as usize);
    assert(!nodes.contains(value));
    assert forall|i: int, j: int| 0 <= i < grown.len() && 0 <= j < grown.len() && i != j implies grown[i]
        != grown[j] by {
        if i < nodes.len() {
            assert(nodes.contains(grown[i]));
        }
        if j < nodes.len() {
            assert(nodes.contains(grown[j]));
        }
    }
    assert forall|v: u64|
        #![trigger entered.contains_key(v)]
        #![trigger grown.contains(v)]
        entered.contains_key(v) <==> grown.contains(v) by {
        if grown.contains(v) {
            let i = choose|i: int| 0 <= i < grown.len() && grown[i] == v;
            if i < nodes.len() {
                assert(nodes.contains(v));
            }
        }
        if entered.contains_key(v) {
            if v == value {
                assert(grown[nodes.len() as int] == v);
            } else {
                assert(table.contains_key(v));
                assert(nodes.contains(v));
                let i = choose|i: int| 0 <= i < nodes.len() && nodes[i] == v;
                assert(grown[i] == v);
            }
        }
    }
    assert forall|i: int| 0 <= i < grown.len() implies entered[#[trigger] grown[i]] == i by {
        if i < nodes.len() {
            assert(nodes.contains(nodes[i]));
            assert(table[nodes[i]] == i);
        }
    }
}

/// The traversal as the builder holds it.
spec fn walk_of(g: CollatzGraph, queue: Seq<Pending>) -> Walk {
    Walk { nodes: graph_nodes(g), edges: graph_edges(g), queue }
}

/// Whether `value` is among the pending entries.
fn is_pending(queue: &Vec<Pending>, value: u64) -> (found: bool)
    ensures
        found == is_waiting(queue@, value),
{
    let mut i: usize = 0;
    while i < queue.len()
        invariant
            i <= queue.len(),
            forall|k: int| 0 <= k < i ==> (#[trigger] queue@[k]).value != value,
        decreases queue.len() - i,
    {
        if queue[i].value == value {
            return true;
        }
        i += 1;
    }
    false
}

/// The node index of `value`, if it stands on a node.
fn find(table: &HashMap<u64, usize>, value: u64, Ghost(nodes): Ghost<Seq<u64>>) -> (found: Option<
    usize,
>)
    requires
        is_handle_table(nodes, table@),
    ensures
        found is None <==> !nodes.contains(value),
        found matches Some(handle) ==> handle == nodes.index_of(value) && handle < nodes.len()
            && nodes[handle as int] == value,
{
    proof {
        if nodes.contains(value) {
            let i = nodes.index_of(value);
            assert(nodes[i] == value);
            assert(table@[nodes[i]] == i);
        }
    }
    match table.get(&value) {
        Some(handle) => Some(*handle),
        None => None,
    }
}

/// The node index that the table holds for a value that stands on a node.
fn lookup(table: &HashMap<u64, usize>, value: u64, Ghost(nodes): Ghost<Seq<u64>>) -> (handle: usize)
    requires
        is_handle_table(nodes, table@),
        nodes.contains(value),
    ensures
        handle < nodes.len(),
        handle == nodes.index_of(value),
        nodes[handle as int] == value,
{
    proof {
        let i = nodes.index_of(value);
        assert(nodes[i] == value);
        assert(table@[nodes[i]] == i);
    }
    *table.get(&value).unwrap()
}

} // verus!
