//! Why the traversal builds the inverse tree: what holds of it between two
//! steps, and that each step keeps it.

use crate::collatz::{collatz_step, lemma_predecessors_exact, predecessors_of};
use crate::inverse::{
    advance, climbs_to, complete, first_walk, in_inverse_tree, is_inverse_tree, is_tree_edge,
    is_waiting, lemma_advance_weight, lemma_climb_fits, queue_weight, tree_step, tree_walk, visit,
    visit_all, visited_walk, Pending, Walk, MAX_TREE_VALUE,
};
use vstd::prelude::*;
use vstd::set_lib::{lemma_int_range, lemma_len_subset, set_int_range};

verus! {

/// `p` is a predecessor of `v` that the tree may hold.
pub(crate) open spec fn feeds(p: u64, v: u64) -> bool {
    p <= MAX_TREE_VALUE && collatz_step(p as nat) == v as nat
}

/// An edge leads from the node of `p` to the node of `v`.
pub(crate) open spec fn linked(w: Walk, p: u64, v: u64) -> bool {
    exists|a: int, b: int|
        0 <= a < w.nodes.len() && 0 <= b < w.nodes.len() && w.nodes[a] == p && w.nodes[b] == v
            && #[trigger] w.edges.contains((a, b))
}

/// `p` is a node, joined to the node of `v`, and met with at most `bound`
/// steps.
pub(crate) open spec fn seen(w: Walk, reached: Map<u64, nat>, p: u64, v: u64, bound: nat) -> bool {
    w.nodes.contains(p) && reached[p] <= bound && linked(w, p, v)
}

/// Every predecessor of `v` that the tree may hold has been seen from `v`.
pub(crate) open spec fn closed(w: Walk, reached: Map<u64, nat>, v: u64) -> bool {
    forall|p: u64| #[trigger] feeds(p, v) ==> seen(w, reached, p, v, reached[v] + 1)
}

/// `v` is pending with no more steps than it was met with.
pub(crate) open spec fn queued(w: Walk, reached: Map<u64, nat>, v: u64) -> bool {
    exists|i: int|
        0 <= i < w.queue.len() && (#[trigger] w.queue[i]).value == v && w.queue[i].depth
            <= reached[v]
}

/// Nothing is left to do for `v`, or it is on the way.
pub(crate) open spec fn settled(
    w: Walk,
    reached: Map<u64, nat>,
    v: u64,
    depth: nat,
    expanding: bool,
    num: u64,
    d: nat,
) -> bool {
    ||| expanding && v == num && d <= reached[v]
    ||| queued(w, reached, v)
    ||| reached[v] >= depth
    ||| closed(w, reached, v)
}

/// Node `i` is within the bound unless it is the root, and was met with a
/// number of steps that lead from it to the root.
pub(crate) open spec fn node_ok(w: Walk, reached: Map<u64, nat>, i: int, root: u64, depth: nat) -> bool {
    let v = w.nodes[i];
    &&& i >= 1 ==> v <= MAX_TREE_VALUE
    &&& reached.contains_key(v)
    &&& reached[v] <= depth
    &&& climbs_to(v as nat, reached[v], root as nat)
}

/// The pending entry `q` names a node by its value and index, with a number
/// of steps that lead from it to the root.
pub(crate) open spec fn entry_ok(w: Walk, q: Pending, root: u64, depth: nat, expanding: bool, d: nat) -> bool {
    &&& q.handle < w.nodes.len()
    &&& w.nodes[q.handle as int] == q.value
    &&& q.depth <= depth
    &&& climbs_to(q.value as nat, q.depth as nat, root as nat)
    &&& expanding ==> q.depth <= d + 1
}

/// What holds of the traversal between two steps, `reached` giving for each
/// node the least number of steps with which it was met. While the entry
/// `(num, d)` is being expanded, `expanding` is set.
pub(crate) open spec fn walk_inv(
    w: Walk,
    reached: Map<u64, nat>,
    root: u64,
    depth: nat,
    expanding: bool,
    num: u64,
    d: nat,
) -> bool {
    &&& root >= 1
    &&& w.nodes.len() >= 1
    &&& w.nodes[0] == root
    &&& w.nodes.no_duplicates()
    &&& w.nodes.len() <= w.edges.len() + 1
    &&& reached[root] == 0
    &&& forall|v: u64| #[trigger] reached.contains_key(v) ==> w.nodes.contains(v)
    &&& forall|i: int| 0 <= i < w.nodes.len() ==> #[trigger] node_ok(w, reached, i, root, depth)
    &&& forall|e: int| 0 <= e < w.edges.len() ==> is_tree_edge(w.nodes, #[trigger] w.edges[e], root, depth)
    &&& forall|i: int|
        0 <= i < w.queue.len() ==> entry_ok(w, #[trigger] w.queue[i], root, depth, expanding, d)
    &&& forall|i: int, j: int|
        0 <= i < j < w.queue.len() ==> (#[trigger] w.queue[i]).value != (#[trigger] w.queue[j]).value
            && w.queue[i].depth <= w.queue[j].depth
    &&& forall|i: int|
        0 <= i < w.nodes.len() ==> settled(w, reached, #[trigger] w.nodes[i], depth, expanding, num, d)
    &&& expanding ==> d < depth && w.nodes.contains(num) && climbs_to(num as nat, d, root as nat)
}

/// The least number of steps recorded for `p`, after `p` was met with `k`.
pub(crate) open spec fn lowered(reached: Map<u64, nat>, p: u64, k: nat) -> Map<u64, nat> {
    if reached.contains_key(p) && reached[p] <= k {
        reached
    } else {
        reached.insert(p, k)
    }
}

/// The counts of steps before the first step of the traversal: none for the
/// root.
pub(crate) open spec fn first_reached(root: u64) -> Map<u64, nat> {
    Map::empty().insert(root, 0nat)
}

/// The traversal starts in order.
pub(crate) proof fn lemma_first_walk(root: u64, depth: nat)
    requires
        root >= 1,
    ensures
        walk_inv(first_walk(root), first_reached(root), root, depth, false, 0, 0),
{
    let w = first_walk(root);
    let reached = first_reached(root);
    assert(w.nodes.len() == 1 && w.nodes[0] == root);
    assert(w.queue.len() == 1 && w.queue[0] == Pending { value: root, handle: 0, depth: 0 });
    assert(reached.contains_key(root) && reached[root] == 0);
    assert(climbs_to(root as nat, 0, root as nat));
    assert(w.queue[0].value == root);
    assert(queued(w, reached, root));
    assert forall|v: u64| #[trigger] reached.contains_key(v) implies w.nodes.contains(v) by {
        assert(v == root);
        assert(w.nodes[0] == v);
    }
    assert forall|i: int| 0 <= i < w.nodes.len() implies #[trigger] node_ok(
        w,
        reached,
        i,
        root,
        depth,
    ) by {
        assert(w.nodes[i] == root);
    }
    assert forall|i: int| 0 <= i < w.queue.len() implies entry_ok(
        w,
        #[trigger] w.queue[i],
        root,
        depth,
        false,
        0,
    ) by {
        assert(w.queue[i] == w.queue[0]);
    }
    assert forall|i: int| 0 <= i < w.nodes.len() implies settled(
        w,
        reached,
        #[trigger] w.nodes[i],
        depth,
        false,
        0,
        0,
    ) by {
        assert(w.nodes[i] == root);
    }
}

/// Taking the last pending entry off, to expand it or, at full depth, to
/// leave it a leaf, keeps the traversal in order.
pub(crate) proof fn lemma_pop(w: Walk, reached: Map<u64, nat>, root: u64, depth: nat)
    requires
        walk_inv(w, reached, root, depth, false, 0, 0),
        w.queue.len() > 0,
    ensures
        ({
            let q = w.queue.last();
            let rest = Walk { queue: w.queue.drop_last(), ..w };
            &&& walk_inv(rest, reached, root, depth, q.depth < depth, q.value, q.depth as nat)
            &&& q.handle < w.nodes.len()
            &&& w.nodes[q.handle as int] == q.value
            &&& q.value == root || q.value <= MAX_TREE_VALUE
        }),
{
    let q = w.queue.last();
    let last = w.queue.len() - 1;
    let rest = Walk { queue: w.queue.drop_last(), ..w };
    let expanding = q.depth < depth;
    assert(entry_ok(w, w.queue[last], root, depth, false, 0));
    assert(node_ok(w, reached, q.handle as int, root, depth));
    assert forall|i: int| 0 <= i < rest.queue.len() implies entry_ok(
        rest,
        #[trigger] rest.queue[i],
        root,
        depth,
        expanding,
        q.depth as nat,
    ) by {
        assert(entry_ok(w, w.queue[i], root, depth, false, 0));
        assert(w.queue[i].depth <= w.queue[last].depth);
    }
    assert forall|i: int| 0 <= i < rest.nodes.len() implies #[trigger] node_ok(
        rest,
        reached,
        i,
        root,
        depth,
    ) by {
        assert(node_ok(w, reached, i, root, depth));
    }
    assert forall|i: int| 0 <= i < rest.nodes.len() implies settled(
        rest,
        reached,
        #[trigger] rest.nodes[i],
        depth,
        expanding,
        q.value,
        q.depth as nat,
    ) by {
        let v = w.nodes[i];
        assert(settled(w, reached, v, depth, false, 0, 0));
        if queued(w, reached, v) {
            let k = choose|k: int|
                0 <= k < w.queue.len() && (#[trigger] w.queue[k]).value == v && w.queue[k].depth
                    <= reached[v];
            if k < last {
                assert(rest.queue[k].value == v);
                assert(queued(rest, reached, v));
            }
        } else if closed(w, reached, v) {
            lemma_closed_kept(w, reached, rest, reached, v);
        }
    }
    if expanding {
        assert(w.nodes[q.handle as int] == q.value);
    }
}

/// `x` has the nodes and edges of `w`, at their places, and perhaps more.
pub(crate) open spec fn grows(w: Walk, x: Walk) -> bool {
    &&& w.nodes.len() <= x.nodes.len()
    &&& forall|i: int| 0 <= i < w.nodes.len() ==> #[trigger] x.nodes[i] == w.nodes[i]
    &&& forall|e: (int, int)| #[trigger] w.edges.contains(e) ==> x.edges.contains(e)
}

/// On the nodes of `w` no count of steps is higher in `later` than in
/// `reached`.
pub(crate) open spec fn no_higher(w: Walk, reached: Map<u64, nat>, later: Map<u64, nat>) -> bool {
    forall|v: u64| #[trigger] w.nodes.contains(v) ==> later[v] <= reached[v]
}

/// A node that was closed stays closed while nodes and edges are only added
/// and no count of steps rises, its own staying as it is.
pub(crate) proof fn lemma_closed_kept(
    w: Walk,
    reached: Map<u64, nat>,
    x: Walk,
    later: Map<u64, nat>,
    v: u64,
)
    requires
        closed(w, reached, v),
        grows(w, x),
        no_higher(w, reached, later),
        later[v] == reached[v],
    ensures
        closed(x, later, v),
{
    assert forall|p: u64| #[trigger] feeds(p, v) implies seen(x, later, p, v, later[v] + 1) by {
        assert(seen(w, reached, p, v, reached[v] + 1));
        lemma_seen_kept(w, reached, x, later, p, v, reached[v] + 1);
    }
}

/// A predecessor that was seen stays seen while nodes and edges are only
/// added and no count of steps rises.
pub(crate) proof fn lemma_seen_kept(
    w: Walk,
    reached: Map<u64, nat>,
    x: Walk,
    later: Map<u64, nat>,
    p: u64,
    v: u64,
    bound: nat,
)
    requires
        seen(w, reached, p, v, bound),
        grows(w, x),
        no_higher(w, reached, later),
    ensures
        seen(x, later, p, v, bound),
{
    let i = choose|i: int| 0 <= i < w.nodes.len() && w.nodes[i] == p;
    assert(x.nodes[i] == p);
    let (a, b) = choose|a: int, b: int|
        0 <= a < w.nodes.len() && 0 <= b < w.nodes.len() && w.nodes[a] == p && w.nodes[b] == v
            && #[trigger] w.edges.contains((a, b));
    assert(x.nodes[a] == p && x.nodes[b] == v);
    assert(x.edges.contains((a, b)));
}

/// What visiting a predecessor of the entry under expansion starts from:
/// the traversal in order, `p` a predecessor within the bound of the entry's
/// value `num`, which stands on node `hnum`; `hp` the node of `p`, new if
/// `fresh`; `push` unless `p` is pending.
pub(crate) open spec fn visit_ready(
    w: Walk,
    reached: Map<u64, nat>,
    root: u64,
    depth: nat,
    num: u64,
    hnum: int,
    d: nat,
    p: u64,
    hp: int,
    fresh: bool,
    push: bool,
) -> bool {
    &&& walk_inv(w, reached, root, depth, true, num, d)
    &&& feeds(p, num)
    &&& 0 <= hnum < w.nodes.len()
    &&& w.nodes[hnum] == num
    &&& fresh <==> !w.nodes.contains(p)
    &&& fresh ==> hp == w.nodes.len()
    &&& !fresh ==> 0 <= hp < w.nodes.len() && w.nodes[hp] == p
    &&& push <==> !is_waiting(w.queue, p)
    &&& hp <= usize::MAX
    &&& d + 1 <= usize::MAX
}

/// Visiting one predecessor of the entry under expansion keeps the
/// traversal in order, and leaves that predecessor seen.
pub(crate) proof fn lemma_visit(
    w: Walk,
    reached: Map<u64, nat>,
    root: u64,
    depth: nat,
    num: u64,
    hnum: int,
    d: nat,
    p: u64,
    hp: int,
    fresh: bool,
    push: bool,
)
    requires
        visit_ready(w, reached, root, depth, num, hnum, d, p, hp, fresh, push),
    ensures
        ({
            let x = visited_walk(w, p, hp, hnum, d, fresh, push);
            let later = lowered(reached, p, d + 1);
            &&& walk_inv(x, later, root, depth, true, num, d)
            &&& grows(w, x)
            &&& no_higher(w, reached, later)
            &&& seen(x, later, p, num, d + 1)
        }),
{
    let x = visited_walk(w, p, hp, hnum, d, fresh, push);
    lemma_visit_grows(w, reached, root, depth, num, hnum, d, p, hp, fresh, push);
    lemma_visit_structure(w, reached, root, depth, num, hnum, d, p, hp, fresh, push);
    lemma_visit_settled(w, reached, root, depth, num, hnum, d, p, hp, fresh, push);
    assert(x.nodes[hp] == p);
    assert(x.nodes[hnum] == num);
    assert(x.edges[w.edges.len() as int] == (hp, hnum));
    assert(x.edges.contains((hp, hnum)));
    assert(linked(x, p, num));
}

/// A visit removes nothing and raises no count of steps.
pub(crate) proof fn lemma_visit_grows(
    w: Walk,
    reached: Map<u64, nat>,
    root: u64,
    depth: nat,
    num: u64,
    hnum: int,
    d: nat,
    p: u64,
    hp: int,
    fresh: bool,
    push: bool,
)
    requires
        visit_ready(w, reached, root, depth, num, hnum, d, p, hp, fresh, push),
    ensures
        grows(w, visited_walk(w, p, hp, hnum, d, fresh, push)),
        no_higher(w, reached, lowered(reached, p, d + 1)),
{
    let x = visited_walk(w, p, hp, hnum, d, fresh, push);
    let later = lowered(reached, p, d + 1);
    assert forall|e: (int, int)| #[trigger] w.edges.contains(e) implies x.edges.contains(e) by {
        let k = choose|k: int| 0 <= k < w.edges.len() && w.edges[k] == e;
        assert(x.edges[k] == e);
    }
    assert forall|v: u64| #[trigger] w.nodes.contains(v) implies later[v] <= reached[v] by {
        let i = choose|i: int| 0 <= i < w.nodes.len() && w.nodes[i] == v;
        assert(node_ok(w, reached, i, root, depth));
    }
}

/// After a visit, the parts of the invariant hold that speak of nodes, edges
/// and pending entries one by one.
pub(crate) proof fn lemma_visit_structure(
    w: Walk,
    reached: Map<u64, nat>,
    root: u64,
    depth: nat,
    num: u64,
    hnum: int,
    d: nat,
    p: u64,
    hp: int,
    fresh: bool,
    push: bool,
)
    requires
        visit_ready(w, reached, root, depth, num, hnum, d, p, hp, fresh, push),
    ensures
        ({
            let x = visited_walk(w, p, hp, hnum, d, fresh, push);
            let later = lowered(reached, p, d + 1);
            &&& x.nodes.len() >= 1
            &&& x.nodes[0] == root
            &&& x.nodes.no_duplicates()
            &&& x.nodes.len() <= x.edges.len() + 1
            &&& later[root] == 0
            &&& forall|v: u64| #[trigger] later.contains_key(v) ==> x.nodes.contains(v)
            &&& x.nodes.contains(num)
            &&& x.nodes.contains(p)
            &&& later[p] <= d + 1
            &&& forall|i: int| 0 <= i < x.nodes.len() ==> #[trigger] node_ok(x, later, i, root, depth)
            &&& forall|e: int|
                0 <= e < x.edges.len() ==> is_tree_edge(x.nodes, #[trigger] x.edges[e], root, depth)
            &&& forall|i: int|
                0 <= i < x.queue.len() ==> entry_ok(x, #[trigger] x.queue[i], root, depth, true, d)
            &&& forall|i: int, j: int|
                0 <= i < j < x.queue.len() ==> (#[trigger] x.queue[i]).value != (
                #[trigger] x.queue[j]).value && x.queue[i].depth <= x.queue[j].depth
        }),
{
    let x = visited_walk(w, p, hp, hnum, d, fresh, push);
    let later = lowered(reached, p, d + 1);
    assert(climbs_to(p as nat, d + 1, root as nat));
    assert(w.nodes.contains(num));
    assert(x.nodes[hnum] == num);
    assert(x.nodes[hp] == p);
    assert(node_ok(w, reached, 0, root, depth));
    assert forall|v: u64| #[trigger] later.contains_key(v) implies x.nodes.contains(v) by {
        if v == p {
        } else {
            assert(reached.contains_key(v));
            let i = choose|i: int| 0 <= i < w.nodes.len() && w.nodes[i] == v;
            assert(x.nodes[i] == v);
        }
    }
    if fresh {
        assert forall|i: int, j: int| 0 <= i < x.nodes.len() && 0 <= j < x.nodes.len() && i != j implies x.nodes[i]
            != x.nodes[j] by {
            if i < w.nodes.len() {
                assert(w.nodes.contains(x.nodes[i]));
            }
            if j < w.nodes.len() {
                assert(w.nodes.contains(x.nodes[j]));
            }
        }
        assert(w.nodes.contains(root));
    }
    assert forall|i: int| 0 <= i < x.nodes.len() implies #[trigger] node_ok(
        x,
        later,
        i,
        root,
        depth,
    ) by {
        if i < w.nodes.len() {
            assert(node_ok(w, reached, i, root, depth));
            assert(w.nodes.contains(w.nodes[i]));
        }
    }
    assert(in_inverse_tree(root as nat, (depth - 1) as nat, num as nat)) by {
        assert(climbs_to(num as nat, d, root as nat));
    }
    assert forall|e: int| 0 <= e < x.edges.len() implies is_tree_edge(
        x.nodes,
        #[trigger] x.edges[e],
        root,
        depth,
    ) by {
        if e < w.edges.len() {
            assert(is_tree_edge(w.nodes, w.edges[e], root, depth));
        }
    }
    assert forall|i: int| 0 <= i < x.queue.len() implies entry_ok(
        x,
        #[trigger] x.queue[i],
        root,
        depth,
        true,
        d,
    ) by {
        if i < w.queue.len() {
            assert(entry_ok(w, w.queue[i], root, depth, true, d));
        }
    }
    assert forall|i: int, j: int| 0 <= i < j < x.queue.len() implies (#[trigger] x.queue[i]).value != (
    #[trigger] x.queue[j]).value && x.queue[i].depth <= x.queue[j].depth by {
        if j < w.queue.len() {
            assert(w.queue[i].value != w.queue[j].value);
        } else {
            assert(entry_ok(w, w.queue[i], root, depth, true, d));
            assert(w.queue[i].value != p);
        }
    }
}

/// After a visit, the part of the invariant holds that says that no node is
/// forgotten.
pub(crate) proof fn lemma_visit_settled(
    w: Walk,
    reached: Map<u64, nat>,
    root: u64,
    depth: nat,
    num: u64,
    hnum: int,
    d: nat,
    p: u64,
    hp: int,
    fresh: bool,
    push: bool,
)
    requires
        visit_ready(w, reached, root, depth, num, hnum, d, p, hp, fresh, push),
        grows(w, visited_walk(w, p, hp, hnum, d, fresh, push)),
        no_higher(w, reached, lowered(reached, p, d + 1)),
    ensures
        ({
            let x = visited_walk(w, p, hp, hnum, d, fresh, push);
            let later = lowered(reached, p, d + 1);
            forall|i: int|
                0 <= i < x.nodes.len() ==> settled(x, later, #[trigger] x.nodes[i], depth, true, num, d)
        }),
{
    let x = visited_walk(w, p, hp, hnum, d, fresh, push);
    let later = lowered(reached, p, d + 1);
    let lower = !(reached.contains_key(p) && reached[p] <= d + 1);
    assert forall|i: int| 0 <= i < x.nodes.len() implies settled(
        x,
        later,
        #[trigger] x.nodes[i],
        depth,
        true,
        num,
        d,
    ) by {
        let v = x.nodes[i];
        if v == p && lower {
            // met with fewer steps than before: pending with no more than those
            assert(later[p] == d + 1);
            if push {
                let k = w.queue.len() as int;
                assert(x.queue[k].value == p);
                assert(queued(x, later, p));
            } else {
                let k = choose|k: int| 0 <= k < w.queue.len() && (#[trigger] w.queue[k]).value == p;
                assert(entry_ok(w, w.queue[k], root, depth, true, d));
                assert(x.queue[k].value == p);
                assert(queued(x, later, p));
            }
        } else {
            assert(i < w.nodes.len());
            assert(w.nodes[i] == v);
            assert(later[v] == reached[v]);
            assert(settled(w, reached, v, depth, true, num, d));
            if queued(w, reached, v) {
                let k = choose|k: int|
                    0 <= k < w.queue.len() && (#[trigger] w.queue[k]).value == v && w.queue[k].depth
                        <= reached[v];
                assert(x.queue[k].value == v);
                assert(queued(x, later, v));
            } else if closed(w, reached, v) {
                lemma_closed_kept(w, reached, x, later, v);
            }
        }
    }
}

/// When every predecessor of the expanded entry that the tree may hold has
/// been seen, the expansion is over.
pub(crate) proof fn lemma_finish(
    w: Walk,
    reached: Map<u64, nat>,
    root: u64,
    depth: nat,
    num: u64,
    d: nat,
)
    requires
        walk_inv(w, reached, root, depth, true, num, d),
        all_seen(w, reached, num, d, predecessors_of(num as nat).len() as int),
    ensures
        walk_inv(w, reached, root, depth, false, 0, 0),
{
    assert forall|i: int| 0 <= i < w.queue.len() implies entry_ok(
        w,
        #[trigger] w.queue[i],
        root,
        depth,
        false,
        0,
    ) by {
        assert(entry_ok(w, w.queue[i], root, depth, true, d));
    }
    assert forall|i: int| 0 <= i < w.nodes.len() implies settled(
        w,
        reached,
        #[trigger] w.nodes[i],
        depth,
        false,
        0,
        0,
    ) by {
        let v = w.nodes[i];
        assert(settled(w, reached, v, depth, true, num, d));
        if v == num && d <= reached[v] {
            assert forall|p: u64| #[trigger] feeds(p, v) implies seen(
                w,
                reached,
                p,
                v,
                reached[v] + 1,
            ) by {
                lemma_predecessors_exact(num as nat, p as nat);
                let all = predecessors_of(num as nat);
                let t = choose|t: int| 0 <= t < all.len() && all[t] == p as nat;
                assert(all[t] as u64 == p);
                assert(seen(w, reached, all[t] as u64, num, d + 1));
            }
        }
    }
}

/// Of the first `t` predecessors of `num`, those within the bound have been
/// seen from `num`, with at most one step more than `d`.
pub(crate) open spec fn all_seen(w: Walk, reached: Map<u64, nat>, num: u64, d: nat, t: int) -> bool {
    forall|k: int|
        0 <= k < t && k < predecessors_of(num as nat).len() && (#[trigger] predecessors_of(
            num as nat,
        )[k]) <= MAX_TREE_VALUE ==> seen(
            w,
            reached,
            predecessors_of(num as nat)[k] as u64,
            num,
            d + 1,
        )
}

/// No more nodes than there are values within the bound, and one for the
/// root.
pub(crate) proof fn lemma_node_count(w: Walk, reached: Map<u64, nat>, root: u64, depth: nat)
    requires
        w.nodes.no_duplicates(),
        forall|i: int| 0 <= i < w.nodes.len() ==> #[trigger] node_ok(w, reached, i, root, depth),
    ensures
        w.nodes.len() <= MAX_TREE_VALUE + 2,
{
    if w.nodes.len() > 0 {
        let others = w.nodes.skip(1);
        let read = |v: u64| v as int;
        let values = others.map_values(read);
        assert forall|i: int, j: int| 0 <= i < others.len() && 0 <= j < others.len() && i != j implies others[i]
            != others[j] by {
            assert(others[i] == w.nodes[i + 1] && others[j] == w.nodes[j + 1]);
        }
        assert forall|i: int, j: int| 0 <= i < values.len() && 0 <= j < values.len() && i != j implies values[i]
            != values[j] by {
            assert(values[i] == others[i] as int && values[j] == others[j] as int);
        }
        let range = set_int_range(0, MAX_TREE_VALUE + 1);
        lemma_int_range(0, MAX_TREE_VALUE + 1);
        assert forall|x: int| values.to_set().contains(x) implies range.contains(x) by {
            let i = choose|i: int| 0 <= i < values.len() && values[i] == x;
            assert(node_ok(w, reached, i + 1, root, depth));
            assert(values[i] == w.nodes[i + 1] as int);
        }
        lemma_len_subset(values.to_set(), range);
        values.unique_seq_to_set();
    }
}

/// Visiting what is left of the predecessors of the entry under expansion,
/// from the `t`-th on, ends the expansion with the traversal in order.
pub(crate) proof fn lemma_visit_all_keeps(
    w: Walk,
    reached: Map<u64, nat>,
    root: u64,
    depth: usize,
    entry: Pending,
    t: int,
) -> (later: Map<u64, nat>)
    requires
        walk_inv(w, reached, root, depth as nat, true, entry.value, entry.depth as nat),
        entry.handle < w.nodes.len(),
        w.nodes[entry.handle as int] == entry.value,
        0 <= t <= predecessors_of(entry.value as nat).len(),
        all_seen(w, reached, entry.value, entry.depth as nat, t),
    ensures
        walk_inv(
            visit_all(w, entry, predecessors_of(entry.value as nat).skip(t)),
            later,
            root,
            depth as nat,
            false,
            0,
            0,
        ),
    decreases predecessors_of(entry.value as nat).len() - t,
{
    let all = predecessors_of(entry.value as nat);
    let num = entry.value;
    let d = entry.depth as nat;
    if t == all.len() {
        assert(all.skip(t) =~= Seq::<nat>::empty());
        lemma_finish(w, reached, root, depth as nat, num, d);
        reached
    } else {
        let p = all[t];
        assert(all.skip(t).first() == p);
        assert(all.skip(t).drop_first() =~= all.skip(t + 1));
        if p > MAX_TREE_VALUE {
            lemma_visit_all_keeps(w, reached, root, depth, entry, t + 1)
        } else {
            let v = p as u64;
            let fresh = !w.nodes.contains(v);
            let hp = if fresh {
                w.nodes.len() as int
            } else {
                w.nodes.index_of(v)
            };
            let push = !is_waiting(w.queue, v);
            let x = visited_walk(w, v, hp, entry.handle as int, d, fresh, push);
            let next = lowered(reached, v, d + 1);
            assert(all.contains(p));
            lemma_predecessors_exact(num as nat, p);
            lemma_node_count(w, reached, root, depth as nat);
            lemma_visit(w, reached, root, depth as nat, num, entry.handle as int, d, v, hp, fresh, push);
            assert(x == visit(w, entry, p));
            assert forall|k: int|
                0 <= k < t + 1 && k < all.len() && (#[trigger] all[k]) <= MAX_TREE_VALUE implies seen(
                x,
                next,
                all[k] as u64,
                num,
                d + 1,
            ) by {
                if k < t {
                    lemma_seen_kept(w, reached, x, next, all[k] as u64, num, d + 1);
                }
            }
            lemma_visit_all_keeps(x, next, root, depth, entry, t + 1)
        }
    }
}

/// Carried on until nothing is pending, the traversal stays in order.
pub(crate) proof fn lemma_complete_keeps(w: Walk, reached: Map<u64, nat>, root: u64, depth: usize) -> (last:
    Map<u64, nat>)
    requires
        walk_inv(w, reached, root, depth as nat, false, 0, 0),
    ensures
        walk_inv(complete(w, depth), last, root, depth as nat, false, 0, 0),
        complete(w, depth).queue.len() == 0,
    decreases queue_weight(w.queue, depth as nat),
{
    if w.queue.len() == 0 {
        reached
    } else {
        let entry = w.queue.last();
        let rest = Walk { queue: w.queue.drop_last(), ..w };
        lemma_pop(w, reached, root, depth as nat);
        lemma_advance_weight(w, depth);
        if entry.depth < depth {
            let all = predecessors_of(entry.value as nat);
            assert(all.skip(0) =~= all);
            let later = lemma_visit_all_keeps(rest, reached, root, depth, entry, 0);
            lemma_complete_keeps(advance(w, depth), later, root, depth)
        } else {
            lemma_complete_keeps(rest, reached, root, depth)
        }
    }
}

/// The traversal from any `start` but zero ends with the inverse tree of
/// `start`.
pub(crate) proof fn lemma_walk_builds_tree(start: u64, depth: usize)
    requires
        start >= 1,
    ensures
        is_inverse_tree(
            tree_walk(start, depth).nodes,
            tree_walk(start, depth).edges,
            start,
            depth as nat,
        ),
{
    lemma_first_walk(start, depth as nat);
    let last = lemma_complete_keeps(first_walk(start), first_reached(start), start, depth);
    lemma_done(tree_walk(start, depth), last, start, depth as nat);
}

/// With nothing pending, nodes and edges are the inverse tree.
pub(crate) proof fn lemma_done(w: Walk, reached: Map<u64, nat>, root: u64, depth: nat)
    requires
        walk_inv(w, reached, root, depth, false, 0, 0),
        w.queue.len() == 0,
    ensures
        is_inverse_tree(w.nodes, w.edges, root, depth),
{
    assert forall|v: u64| #[trigger] w.nodes.contains(v) <==> in_inverse_tree(
        root as nat,
        depth,
        v as nat,
    ) by {
        if w.nodes.contains(v) {
            let i = choose|i: int| 0 <= i < w.nodes.len() && w.nodes[i] == v;
            assert(node_ok(w, reached, i, root, depth));
            assert(climbs_to(v as nat, reached[v], root as nat));
        }
        if in_inverse_tree(root as nat, depth, v as nat) {
            let k = choose|k: nat| k <= depth && #[trigger] climbs_to(v as nat, k, root as nat);
            lemma_all_found(w, reached, root, depth, v, k);
        }
    }
    assert forall|a: int, b: int|
        0 <= a < w.nodes.len() && 0 <= b < w.nodes.len() && #[trigger] tree_step(
            w.nodes[a],
            w.nodes[b],
            root,
            depth,
        ) implies w.edges.contains((a, b)) by {
        let p = w.nodes[a];
        let s = w.nodes[b];
        let k = choose|k: nat| k <= depth - 1 && #[trigger] climbs_to(s as nat, k, root as nat);
        lemma_all_found(w, reached, root, depth, s, k);
        assert(settled(w, reached, w.nodes[b], depth, false, 0, 0));
        assert(closed(w, reached, s));
        assert(feeds(p, s));
        assert(linked(w, p, s));
        let (a2, b2) = choose|a2: int, b2: int|
            0 <= a2 < w.nodes.len() && 0 <= b2 < w.nodes.len() && w.nodes[a2] == p && w.nodes[b2] == s
                && #[trigger] w.edges.contains((a2, b2));
        assert(a2 == a && b2 == b);
    }
}

/// With nothing pending, whatever reaches the root by `k` steps within the
/// bound, `k` at most the depth, is a node, met with at most `k` steps.
pub(crate) proof fn lemma_all_found(w: Walk, reached: Map<u64, nat>, root: u64, depth: nat, v: u64, k: nat)
    requires
        walk_inv(w, reached, root, depth, false, 0, 0),
        w.queue.len() == 0,
        k <= depth,
        climbs_to(v as nat, k, root as nat),
    ensures
        w.nodes.contains(v),
        reached[v] <= k,
    decreases k,
{
    if k == 0 {
        assert(w.nodes[0] == v);
    } else {
        let s = collatz_step(v as nat);
        lemma_climb_fits(s, (k - 1) as nat, root);
        let s64 = s as u64;
        lemma_all_found(w, reached, root, depth, s64, (k - 1) as nat);
        let b = choose|b: int| 0 <= b < w.nodes.len() && w.nodes[b] == s64;
        assert(settled(w, reached, w.nodes[b], depth, false, 0, 0));
        assert(closed(w, reached, s64));
        assert(feeds(v, s64));
    }
}

} // verus!
