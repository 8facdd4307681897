//! The layered layout: nodes grouped into levels breadth first from the
//! roots, and each level laid out as a centred row.

use crate::digraph::{
    as_ints, graph_edges, graph_nodes, in_added_order, in_degree, in_degree_of, node_count,
    successors, successors_of, CollatzGraph, GRAPH_CAPACITY,
};
use vstd::prelude::*;

verus! {

/// Distance between neighbours in a row.
pub const HORIZONTAL_SPACING: i64 = 120;

/// Distance between one level and the next.
pub const VERTICAL_SPACING: i64 = 80;

/// The horizontal position that every row is centred on.
pub const ANCHOR_X: i64 = 400;

/// The vertical position of level 0.
pub const BASELINE_Y: i64 = 100;

/// Where a node is drawn.
#[derive(Clone, Copy, Debug, PartialEq, Eq, Structural)]
pub struct Position {
    pub x: i64,
    pub y: i64,
}

/// The horizontal position of place `index` in a row of `count` nodes: the
/// row is `(count - 1) * HORIZONTAL_SPACING` wide and starts half its width
/// left of the anchor.
pub open spec fn row_x(count: int, index: int) -> int {
    ANCHOR_X - ((count - 1) * HORIZONTAL_SPACING) / 2 + index * HORIZONTAL_SPACING
}

/// The vertical position of level `level`.
pub open spec fn level_y(level: int) -> int {
    BASELINE_Y + level * VERTICAL_SPACING
}

/// `p` is the position of place `index` of level `level`, which holds `count`
/// nodes.
pub open spec fn is_place(p: Position, count: int, index: int, level: int) -> bool {
    p.x == row_x(count, index) && p.y == level_y(level)
}

/// The nodes below `n` that no edge enters, in rising order.
pub open spec fn roots_among(edges: Seq<(int, int)>, n: nat) -> Seq<int>
    decreases n,
{
    if n == 0 {
        Seq::empty()
    } else {
        let before = roots_among(edges, (n - 1) as nat);
        if in_degree_of(edges, n - 1) == 0 {
            before.push(n - 1)
        } else {
            before
        }
    }
}

/// Level 0 of a graph of `n` nodes: its roots, or node 0 alone where every
/// node has an edge entering it.
pub open spec fn root_level(edges: Seq<(int, int)>, n: nat) -> Seq<int> {
    if n == 0 {
        Seq::empty()
    } else if roots_among(edges, n).len() == 0 {
        seq![0]
    } else {
        roots_among(edges, n)
    }
}

/// `level` with those of `found` appended, in order, that are neither in
/// `seen` nor in the level already.
pub open spec fn with_new(level: Seq<int>, found: Seq<int>, seen: Set<int>) -> Seq<int>
    decreases found.len(),
{
    if found.len() == 0 {
        level
    } else {
        let so_far = with_new(level, found.drop_last(), seen);
        let s = found.last();
        if seen.contains(s) || so_far.contains(s) {
            so_far
        } else {
            so_far.push(s)
        }
    }
}

/// The level that follows `level`: the successors of its nodes, taken node
/// by node and for each node latest edge first, without those in `seen` and
/// each once.
pub open spec fn discovered(edges: Seq<(int, int)>, level: Seq<int>, seen: Set<int>) -> Seq<int>
    decreases level.len(),
{
    if level.len() == 0 {
        Seq::empty()
    } else {
        with_new(
            discovered(edges, level.drop_last(), seen),
            successors_of(edges, level.last()),
            seen,
        )
    }
}

/// Level `k` of the graph.
pub open spec fn level_at(edges: Seq<(int, int)>, n: nat, k: nat) -> Seq<int>
    decreases k, 0nat,
{
    if k == 0 {
        root_level(edges, n)
    } else {
        discovered(edges, level_at(edges, n, (k - 1) as nat), seen_by(edges, n, (k - 1) as nat))
    }
}

/// The nodes of levels 0 to `k`.
pub open spec fn seen_by(edges: Seq<(int, int)>, n: nat, k: nat) -> Set<int>
    decreases k, 1nat,
{
    if k == 0 {
        level_at(edges, n, 0).to_set()
    } else {
        seen_by(edges, n, (k - 1) as nat).union(level_at(edges, n, k).to_set())
    }
}

/// From some node of level 0, `k` edges taken one after the other lead to
/// node `b`.
pub open spec fn reached_in(edges: Seq<(int, int)>, n: nat, b: int, k: nat) -> bool
    decreases k,
{
    if k == 0 {
        level_at(edges, n, 0).contains(b)
    } else {
        exists|a: int| reached_in(edges, n, a, (k - 1) as nat) && #[trigger] edges.contains((a, b))
    }
}

/// `levels` are the levels of the graph, up to the last that holds a node.
pub open spec fn is_layering(edges: Seq<(int, int)>, n: nat, levels: Seq<Vec<usize>>) -> bool {
    &&& forall|k: int|
        0 <= k < levels.len() ==> as_ints((#[trigger] levels[k])@) == level_at(edges, n, k as nat)
    &&& forall|k: int| 0 <= k < levels.len() ==> (#[trigger] levels[k])@.len() > 0
    &&& level_at(edges, n, levels.len()).len() == 0
}

/// No node stands at two places of `levels`, and each is a node of the
/// graph.
pub open spec fn is_placement(n: nat, levels: Seq<Vec<usize>>) -> bool {
    &&& forall|k: int, i: int|
        0 <= k < levels.len() && 0 <= i < levels[k]@.len() ==> (#[trigger] levels[k]@[i]) < n
    &&& forall|k: int, i: int, l: int, j: int|
        0 <= k < levels.len() && 0 <= i < levels[k]@.len() && 0 <= l < levels.len() && 0 <= j
            < levels[l]@.len() && #[trigger] levels[k]@[i] == #[trigger] levels[l]@[j] ==> k == l
            && i == j
}

/// How many places `levels` have.
pub open spec fn places(levels: Seq<Vec<usize>>) -> nat
    decreases levels.len(),
{
    if levels.len() == 0 {
        0
    } else {
        places(levels.drop_last()) + levels.last()@.len()
    }
}

/// `positions` places the nodes of every level: a node has a position where
/// some level holds it, and then that of its place in its level.
pub open spec fn is_layout(edges: Seq<(int, int)>, n: nat, positions: Map<usize, Position>) -> bool {
    &&& forall|a: usize| #[trigger]
        positions.contains_key(a) <==> exists|k: nat| #[trigger]
            level_at(edges, n, k).contains(a as int)
    &&& forall|k: nat, i: int|
        0 <= i < level_at(edges, n, k).len() ==> is_place(
            positions[(#[trigger] level_at(edges, n, k)[i]) as usize],
            level_at(edges, n, k).len() as int,
            i,
            k as int,
        )
}

/// The roots of the graph in rising order; node 0 alone where there is no
/// root; nothing for a graph without nodes.
pub fn find_roots(graph: &CollatzGraph) -> (roots: Vec<usize>)
    ensures
        as_ints(roots@) == root_level(graph_edges(*graph), graph_nodes(*graph).len()),
        forall|i: int| 0 <= i < roots@.len() ==> (#[trigger] roots@[i]) < graph_nodes(*graph).len(),
        forall|i: int, j: int| 0 <= i < j < roots@.len() ==> roots@[i] != roots@[j],
{
    let n: usize = node_count(graph);
    let mut roots: Vec<usize> = Vec::new();
    let mut a: usize = 0;
    while a < n
        invariant
            a <= n,
            n == graph_nodes(*graph).len(),
            as_ints(roots@) == roots_among(graph_edges(*graph), a as nat),
            forall|i: int| 0 <= i < roots@.len() ==> (#[trigger] roots@[i]) < a,
            forall|i: int, j: int| 0 <= i < j < roots@.len() ==> roots@[i] != roots@[j],
        decreases n - a,
    {
        if in_degree(graph, a) == 0 {
            proof {
                lemma_as_ints_push(roots@, a);
            }
            roots.push(a);
        }
        a += 1;
    }
    if roots.len() == 0 && n > 0 {
        roots.push(0);
        assert(as_ints(roots@) =~= seq![0int]);
    }
    roots
}

/// The levels of the graph, breadth first from the roots: a node stands in
/// the first level that it is discovered for, at the place of its discovery.
pub fn assign_levels(graph: &CollatzGraph) -> (levels: Vec<Vec<usize>>)
    requires
        in_added_order(*graph),
    ensures
        is_layering(graph_edges(*graph), graph_nodes(*graph).len(), levels@),
        is_placement(graph_nodes(*graph).len(), levels@),
        places(levels@) <= graph_nodes(*graph).len(),
{
    let n: usize = node_count(graph);
    let ghost edges = graph_edges(*graph);
    let mut levels: Vec<Vec<usize>> = Vec::new();
    if n == 0 {
        return levels;
    }
    let mut marks: Vec<bool> = Vec::new();
    while marks.len() < n
        invariant
            marks.len() <= n,
            forall|a: int| 0 <= a < marks@.len() ==> !marks@[a],
            unmarked(marks@) == marks@.len(),
        decreases n - marks.len(),
    {
        proof {
            assert(marks@.push(false).drop_last() =~= marks@);
        }
        marks.push(false);
    }
    let roots = find_roots(graph);
    let mut r: usize = 0;
    while r < roots.len()
        invariant
            r <= roots.len(),
            marks@.len() == n,
            forall|i: int| 0 <= i < roots@.len() ==> (#[trigger] roots@[i]) < n,
            forall|i: int, j: int| 0 <= i < j < roots@.len() ==> roots@[i] != roots@[j],
            forall|a: int|
                0 <= a < n ==> (#[trigger] marks@[a] <==> exists|i: int|
                    0 <= i < r && #[trigger] roots@[i] == a),
            unmarked(marks@) + r == n,
        decreases roots.len() - r,
    {
        let root: usize = roots[r];
        proof {
            lemma_mark_one(marks@, root as int);
        }
        marks.set(root, true);
        r += 1;
    }
    proof {
        assert forall|a: int| 0 <= a < n implies (#[trigger] marks@[a] <==> seen_by(edges, n as nat, 0).contains(
            a,
        )) by {
            let first = as_ints(roots@);
            assert(seen_by(edges, n as nat, 0) == level_at(edges, n as nat, 0).to_set());
            assert(level_at(edges, n as nat, 0) == first);
            lemma_seq_in_set(first, a);
            if marks@[a] {
                let i = choose|i: int| 0 <= i < roots@.len() && #[trigger] roots@[i] == a;
                assert(first[i] == a);
                assert(first.contains(a));
            }
            if first.contains(a) {
                let i = choose|i: int| 0 <= i < first.len() && first[i] == a;
                assert(roots@[i] == a);
            }
        }
    }
    levels.push(roots);
    proof {
        assert(levels@.drop_last() =~= Seq::<Vec<usize>>::empty());
        assert(places(levels@.drop_last()) == 0);
    }
    let mut k: usize = 0;
    while k < levels.len()
        invariant
            in_added_order(*graph),
            n == graph_nodes(*graph).len(),
            places(levels@) + unmarked(marks@) == n,
            edges == graph_edges(*graph),
            marks@.len() == n,
            levels@.len() >= 1,
            k + 1 == levels@.len() || (k == levels@.len() && level_at(edges, n as nat, k as nat).len()
                == 0),
            forall|l: int|
                0 <= l < levels@.len() ==> as_ints((#[trigger] levels@[l])@) == level_at(
                    edges,
                    n as nat,
                    l as nat,
                ),
            forall|l: int| 0 <= l < levels@.len() ==> (#[trigger] levels@[l])@.len() > 0,
            is_placement(n as nat, levels@),
            forall|a: int|
                0 <= a < n ==> (#[trigger] marks@[a] <==> seen_by(
                    edges,
                    n as nat,
                    (levels@.len() - 1) as nat,
                ).contains(a)),
            forall|l: int, i: int|
                0 <= l < levels@.len() && 0 <= i < levels@[l]@.len() ==> marks@[(
                #[trigger] levels@[l]@[i]) as int],
        decreases unmarked(marks@) + (levels@.len() - k),
    {
        let ghost seen = seen_by(edges, n as nat, k as nat);
        let ghost free = unmarked(marks@);
        let mut next: Vec<usize> = Vec::new();
        let mut c: usize = 0;
        assert(levels@[k as int]@.take(0) =~= Seq::<usize>::empty());
        assert(as_ints(levels@[k as int]@.take(0)) =~= Seq::<int>::empty());
        while c < levels[k].len()
            invariant
                in_added_order(*graph),
                n == graph_nodes(*graph).len(),
                edges == graph_edges(*graph),
                marks@.len() == n,
                k + 1 == levels@.len(),
                c <= levels@[k as int]@.len(),
                seen == seen_by(edges, n as nat, k as nat),
                is_placement(n as nat, levels@),
                as_ints(next@) == discovered(edges, as_ints(levels@[k as int]@.take(c as int)), seen),
                forall|a: int|
                    0 <= a < n ==> (#[trigger] marks@[a] <==> seen.contains(a) || as_ints(next@).contains(a)),
                forall|i: int| 0 <= i < next@.len() ==> (#[trigger] next@[i]) < n,
                forall|i: int, j: int| 0 <= i < j < next@.len() ==> next@[i] != next@[j],
                forall|l: int, i: int, j: int|
                    0 <= l < levels@.len() && 0 <= i < levels@[l]@.len() && 0 <= j < next@.len()
                        ==> #[trigger] levels@[l]@[i] != #[trigger] next@[j],
                forall|l: int, i: int|
                    0 <= l < levels@.len() && 0 <= i < levels@[l]@.len() ==> marks@[(
                    #[trigger] levels@[l]@[i]) as int],
                unmarked(marks@) + next@.len() == free,
            decreases levels@[k as int]@.len() - c,
        {
            let node: usize = levels[k][c];
            let found = successors(graph, node);
            let ghost base = as_ints(next@);
            let ghost row = levels@[k as int]@;
            proof {
                assert(row.take(c + 1).drop_last() =~= row.take(c as int));
                assert(as_ints(row.take(c + 1)).drop_last() =~= as_ints(row.take(c as int)));
                assert(as_ints(row.take(c + 1)).last() == node as int);
                assert(as_ints(found@).take(0) =~= Seq::<int>::empty());
            }
            let mut j: usize = 0;
            while j < found.len()
                invariant
                    n == graph_nodes(*graph).len(),
                    marks@.len() == n,
                    j <= found@.len(),
                    is_placement(n as nat, levels@),
                    forall|i: int| 0 <= i < found@.len() ==> (#[trigger] found@[i]) < n,
                    as_ints(next@) == with_new(base, as_ints(found@).take(j as int), seen),
                    forall|a: int|
                        0 <= a < n ==> (#[trigger] marks@[a] <==> seen.contains(a) || as_ints(next@).contains(
                            a,
                        )),
                    forall|i: int| 0 <= i < next@.len() ==> (#[trigger] next@[i]) < n,
                    forall|i: int, j: int| 0 <= i < j < next@.len() ==> next@[i] != next@[j],
                    forall|l: int, i: int, j: int|
                        0 <= l < levels@.len() && 0 <= i < levels@[l]@.len() && 0 <= j
                            < next@.len() ==> #[trigger] levels@[l]@[i] != #[trigger] next@[j],
                    forall|l: int, i: int|
                        0 <= l < levels@.len() && 0 <= i < levels@[l]@.len() ==> marks@[(
                        #[trigger] levels@[l]@[i]) as int],
                    unmarked(marks@) + next@.len() == free,
                decreases found@.len() - j,
            {
                let s: usize = found[j];
                proof {
                    let all = as_ints(found@);
                    assert(all.take(j + 1).drop_last() =~= all.take(j as int));
                    assert(all.take(j + 1).last() == s as int);
                }
                if !marks[s] {
                    let ghost marks0 = marks@;
                    let ghost next0 = next@;
                    proof {
                        lemma_mark_one(marks@, s as int);
                        lemma_as_ints_push(next@, s);
                        assert(!marks0[s as int]);
                        assert(!as_ints(next0).contains(s as int));
                        assert forall|i: int| 0 <= i < next@.len() implies next@[i] != s by {
                            if next0[i] == s {
                                assert(as_ints(next0)[i] == s as int);
                            }
                        }
                    }
                    marks.set(s, true);
                    next.push(s);
                    proof {
                        let before = as_ints(next0);
                        let after = as_ints(next@);
                        assert(after == before.push(s as int));
                        assert forall|a: int| 0 <= a < n implies (#[trigger] marks@[a] <==> seen.contains(a)
                            || after.contains(a)) by {
                            if a == s {
                                assert(after[before.len() as int] == a);
                            } else {
                                assert(marks@[a] == marks0[a]);
                                if before.contains(a) {
                                    let i = choose|i: int| 0 <= i < before.len() && before[i] == a;
                                    assert(after[i] == a);
                                }
                                if after.contains(a) {
                                    let i = choose|i: int| 0 <= i < after.len() && after[i] == a;
                                    assert(before[i] == a);
                                }
                            }
                        }
                    }
                }
                j += 1;
            }
            proof {
                assert(as_ints(found@).take(found@.len() as int) =~= as_ints(found@));
            }
            c += 1;
        }
        proof {
            let row = levels@[k as int]@;
            assert(row.take(row.len() as int) =~= row);
            assert(as_ints(next@) == level_at(edges, n as nat, (k + 1) as nat));
            assert forall|a: int| 0 <= a < n implies (#[trigger] marks@[a] <==> seen_by(
                edges,
                n as nat,
                (k + 1) as nat,
            ).contains(a)) by {
                lemma_seq_in_set(as_ints(next@), a);
            }
        }
        if next.len() > 0 {
            proof {
                assert forall|i: int| 0 <= i < next@.len() implies marks@[(#[trigger] next@[i]) as int] by {
                    assert(as_ints(next@)[i] == next@[i] as int);
                    assert(as_ints(next@).contains(next@[i] as int));
                }
            }
            proof {
                assert(levels@.push(next).drop_last() =~= levels@);
            }
            levels.push(next);
        }
        k += 1;
    }
    levels
}

/// The position of place `index` of level `level`, which holds `count` nodes.
pub fn position_at(count: usize, index: usize, level: usize) -> (p: Position)
    requires
        index < count <= GRAPH_CAPACITY,
        level <= GRAPH_CAPACITY,
    ensures
        is_place(p, count as int, index as int, level as int),
{
    let y: i64 = BASELINE_Y + (level as i64) * VERTICAL_SPACING;
    let width: i64 = ((count - 1) as i64) * HORIZONTAL_SPACING;
    let x: i64 = ANCHOR_X - width / 2 + (index as i64) * HORIZONTAL_SPACING;
    Position { x, y }
}

/// The level of a node is its distance from the nearest root: `k` edges
/// lead from level 0 to a node of level `k`, and fewer do not.
pub proof fn lemma_level_is_distance(edges: Seq<(int, int)>, n: nat, k: nat, b: int)
    requires
        level_at(edges, n, k).contains(b),
    ensures
        reached_in(edges, n, b, k),
        forall|m: nat| m < k ==> !#[trigger] reached_in(edges, n, b, m),
    decreases k,
{
    if k > 0 {
        lemma_discovered(edges, level_at(edges, n, (k - 1) as nat), seen_by(edges, n, (k - 1) as nat));
        let a = choose|a: int|
            level_at(edges, n, (k - 1) as nat).contains(a) && #[trigger] edges.contains((a, b));
        lemma_level_is_distance(edges, n, (k - 1) as nat, a);
        assert(reached_in(edges, n, a, (k - 1) as nat) && edges.contains((a, b)));
    }
    assert forall|m: nat| m < k implies !#[trigger] reached_in(edges, n, b, m) by {
        if reached_in(edges, n, b, m) {
            lemma_reached_is_placed(edges, n, b, m);
            let j = choose|j: nat| j <= m && #[trigger] level_at(edges, n, j).contains(b);
            let here = level_at(edges, n, k);
            let there = level_at(edges, n, j);
            let x = choose|x: int| 0 <= x < here.len() && here[x] == b;
            let y = choose|y: int| 0 <= y < there.len() && there[y] == b;
            lemma_level_holds_node_once(edges, n, k, x, j, y);
        }
    }
}

/// The first assignment holds: no node stands at two places of the levels,
/// neither twice in one level nor in two levels.
pub proof fn lemma_level_holds_node_once(
    edges: Seq<(int, int)>,
    n: nat,
    j: nat,
    a: int,
    k: nat,
    b: int,
)
    requires
        0 <= a < level_at(edges, n, j).len(),
        0 <= b < level_at(edges, n, k).len(),
        level_at(edges, n, j)[a] == level_at(edges, n, k)[b],
    ensures
        j == k,
        a == b,
{
    let x = level_at(edges, n, j)[a];
    assert(level_at(edges, n, j).contains(x));
    assert(level_at(edges, n, k).contains(x));
    if j < k {
        lemma_discovered(edges, level_at(edges, n, (k - 1) as nat), seen_by(edges, n, (k - 1) as nat));
        lemma_seen_by(edges, n, (k - 1) as nat, x);
        assert(j <= k - 1 && level_at(edges, n, j).contains(x));
    } else if k < j {
        lemma_discovered(edges, level_at(edges, n, (j - 1) as nat), seen_by(edges, n, (j - 1) as nat));
        lemma_seen_by(edges, n, (j - 1) as nat, x);
        assert(k <= j - 1 && level_at(edges, n, k).contains(x));
    } else {
        if k == 0 {
            lemma_roots_among(edges, n);
        } else {
            lemma_discovered(
                edges,
                level_at(edges, n, (k - 1) as nat),
                seen_by(edges, n, (k - 1) as nat),
            );
        }
    }
}

/// A node of a level below the first has an edge entering it from a node of
/// the level before.
pub proof fn lemma_level_follows_level(edges: Seq<(int, int)>, n: nat, k: nat, i: int)
    requires
        0 <= i < level_at(edges, n, k + 1).len(),
    ensures
        exists|a: int|
            level_at(edges, n, k).contains(a) && #[trigger] edges.contains(
                (a, level_at(edges, n, k + 1)[i]),
            ),
{
    let x = level_at(edges, n, k + 1)[i];
    lemma_discovered(edges, level_at(edges, n, k), seen_by(edges, n, k));
    assert(level_at(edges, n, k + 1).contains(x));
}

/// Where an edge leaves a node of level `k`, its target stands in a level,
/// no later than the next.
pub proof fn lemma_successor_is_placed(edges: Seq<(int, int)>, n: nat, k: nat, a: int, b: int)
    requires
        level_at(edges, n, k).contains(a),
        edges.contains((a, b)),
    ensures
        exists|j: nat| j <= k + 1 && #[trigger] level_at(edges, n, j).contains(b),
{
    lemma_discovered(edges, level_at(edges, n, k), seen_by(edges, n, k));
    lemma_seen_by(edges, n, k, b);
    if seen_by(edges, n, k).contains(b) {
        let j = choose|j: nat| j <= k && #[trigger] level_at(edges, n, j).contains(b);
        assert(j <= k + 1 && level_at(edges, n, j).contains(b));
    } else {
        assert(level_at(edges, n, k + 1).contains(b));
    }
}

/// After an empty level every level is empty.
pub proof fn lemma_levels_end(edges: Seq<(int, int)>, n: nat, last: nat, k: nat)
    requires
        level_at(edges, n, last).len() == 0,
        last <= k,
    ensures
        level_at(edges, n, k).len() == 0,
    decreases k,
{
    if last < k {
        lemma_levels_end(edges, n, last, (k - 1) as nat);
    }
}

/// In a layout the nodes of one level share their vertical position, a
/// deeper level lies strictly lower, the places of a row are
/// `HORIZONTAL_SPACING` apart, and two places equally far from the two ends
/// of a row are equally far from the anchor on either side.
pub proof fn lemma_layout_rows(
    edges: Seq<(int, int)>,
    n: nat,
    positions: Map<usize, Position>,
    k: nat,
    i: int,
    l: nat,
    j: int,
)
    requires
        is_layout(edges, n, positions),
        0 <= i < level_at(edges, n, k).len(),
        0 <= j < level_at(edges, n, l).len(),
    ensures
        ({
            let a = positions[level_at(edges, n, k)[i] as usize];
            let b = positions[level_at(edges, n, l)[j] as usize];
            let count = level_at(edges, n, k).len();
            &&& k == l ==> a.y == b.y
            &&& k < l ==> a.y < b.y
            &&& k == l ==> b.x - a.x == (j - i) * HORIZONTAL_SPACING
            &&& k == l && i + j == count - 1 ==> a.x - ANCHOR_X == ANCHOR_X - b.x
        }),
{
    let row = level_at(edges, n, k);
    let other = level_at(edges, n, l);
    assert(is_place(positions[row[i] as usize], row.len() as int, i, k as int));
    assert(is_place(positions[other[j] as usize], other.len() as int, j, l as int));
    assert(k < l ==> k * VERTICAL_SPACING < l * VERTICAL_SPACING) by (nonlinear_arith);
}

/// What `k` edges lead to from level 0 stands in a level, no later than
/// level `k`.
pub proof fn lemma_reached_is_placed(edges: Seq<(int, int)>, n: nat, b: int, k: nat)
    requires
        reached_in(edges, n, b, k),
    ensures
        exists|j: nat| j <= k && #[trigger] level_at(edges, n, j).contains(b),
    decreases k,
{
    if k == 0 {
        assert(0 <= k && level_at(edges, n, 0).contains(b));
    } else {
        let a = choose|a: int|
            reached_in(edges, n, a, (k - 1) as nat) && #[trigger] edges.contains((a, b));
        lemma_reached_is_placed(edges, n, a, (k - 1) as nat);
        let i = choose|i: nat| i <= k - 1 && #[trigger] level_at(edges, n, i).contains(a);
        lemma_successor_is_placed(edges, n, i, a, b);
        let j = choose|j: nat| j <= i + 1 && #[trigger] level_at(edges, n, j).contains(b);
        assert(j <= k && level_at(edges, n, j).contains(b));
    }
}

/// The level that follows a level holds, each once, the nodes not seen that
/// an edge enters from a node of that level.
pub proof fn lemma_discovered(edges: Seq<(int, int)>, level: Seq<int>, seen: Set<int>)
    ensures
        discovered(edges, level, seen).no_duplicates(),
        forall|x: int|
            #[trigger] discovered(edges, level, seen).contains(x) <==> !seen.contains(x) && exists|
                a: int,
            | level.contains(a) && #[trigger] edges.contains((a, x)),
    decreases level.len(),
{
    let all = discovered(edges, level, seen);
    if level.len() > 0 {
        let front = level.drop_last();
        let before = discovered(edges, front, seen);
        let last = level.last();
        let found = successors_of(edges, last);
        lemma_discovered(edges, front, seen);
        lemma_with_new(before, found, seen);
        assert forall|x: int| #[trigger] all.contains(x) <==> !seen.contains(x) && exists|a: int|
            level.contains(a) && #[trigger] edges.contains((a, x)) by {
            lemma_successors_are_targets(edges, last, x);
            if all.contains(x) {
                if before.contains(x) {
                    let a = choose|a: int| front.contains(a) && #[trigger] edges.contains((a, x));
                    let i = choose|i: int| 0 <= i < front.len() && front[i] == a;
                    assert(level[i] == a);
                    assert(level.contains(a) && edges.contains((a, x)));
                } else {
                    assert(level[level.len() - 1] == last);
                    assert(level.contains(last) && edges.contains((last, x)));
                }
            }
            if !seen.contains(x) && exists|a: int|
                level.contains(a) && #[trigger] edges.contains((a, x)) {
                let a = choose|a: int| level.contains(a) && #[trigger] edges.contains((a, x));
                let i = choose|i: int| 0 <= i < level.len() && level[i] == a;
                if i < front.len() {
                    assert(front[i] == a);
                    assert(front.contains(a) && edges.contains((a, x)));
                    assert(before.contains(x));
                } else {
                    assert(a == last);
                    assert(found.contains(x));
                }
            }
        }
    } else {
        assert forall|x: int| #[trigger] all.contains(x) <==> !seen.contains(x) && exists|a: int|
            level.contains(a) && #[trigger] edges.contains((a, x)) by {
            if all.contains(x) {
                let i = choose|i: int| 0 <= i < all.len() && all[i] == x;
            }
            if exists|a: int| level.contains(a) && #[trigger] edges.contains((a, x)) {
                let a = choose|a: int| level.contains(a) && #[trigger] edges.contains((a, x));
                let i = choose|i: int| 0 <= i < level.len() && level[i] == a;
            }
        }
    }
}

/// A level extended by what was found keeps its nodes at their places,
/// takes of the found ones those that were not seen, and repeats none.
pub proof fn lemma_with_new(level: Seq<int>, found: Seq<int>, seen: Set<int>)
    ensures
        level.no_duplicates() ==> with_new(level, found, seen).no_duplicates(),
        forall|x: int|
            #[trigger] with_new(level, found, seen).contains(x) <==> level.contains(x) || (
            found.contains(x) && !seen.contains(x)),
    decreases found.len(),
{
    let all = with_new(level, found, seen);
    if found.len() > 0 {
        let front = found.drop_last();
        let so_far = with_new(level, front, seen);
        let s = found.last();
        lemma_with_new(level, front, seen);
        assert forall|x: int| #[trigger] all.contains(x) <==> level.contains(x) || (found.contains(x)
            && !seen.contains(x)) by {
            if all.contains(x) {
                let i = choose|i: int| 0 <= i < all.len() && all[i] == x;
                if i < so_far.len() {
                    assert(so_far[i] == x);
                    assert(so_far.contains(x));
                    if front.contains(x) {
                        let j = choose|j: int| 0 <= j < front.len() && front[j] == x;
                        assert(found[j] == x);
                    }
                } else {
                    assert(found[found.len() - 1] == x);
                }
            }
            if level.contains(x) || (found.contains(x) && !seen.contains(x)) {
                if found.contains(x) && !seen.contains(x) && !level.contains(x) {
                    let j = choose|j: int| 0 <= j < found.len() && found[j] == x;
                    if j < front.len() {
                        assert(front[j] == x);
                        assert(front.contains(x));
                    }
                }
                if so_far.contains(x) {
                    let i = choose|i: int| 0 <= i < so_far.len() && so_far[i] == x;
                    assert(all[i] == x);
                } else {
                    assert(x == s);
                    assert(all[so_far.len() as int] == x);
                }
            }
        }
        if level.no_duplicates() {
            assert forall|i: int, j: int| 0 <= i < all.len() && 0 <= j < all.len() && i != j implies all[i]
                != all[j] by {
                if i < so_far.len() {
                    assert(so_far.contains(all[i]));
                }
                if j < so_far.len() {
                    assert(so_far.contains(all[j]));
                }
            }
        }
    }
}

/// The roots among the first `n` nodes are those of them that no edge
/// enters, each once.
pub proof fn lemma_roots_among(edges: Seq<(int, int)>, n: nat)
    ensures
        roots_among(edges, n).no_duplicates(),
        forall|a: int|
            #[trigger] roots_among(edges, n).contains(a) <==> 0 <= a < n && in_degree_of(edges, a)
                == 0,
    decreases n,
{
    let roots = roots_among(edges, n);
    if n > 0 {
        let before = roots_among(edges, (n - 1) as nat);
        lemma_roots_among(edges, (n - 1) as nat);
        assert forall|a: int| #[trigger] roots.contains(a) <==> 0 <= a < n && in_degree_of(edges, a)
            == 0 by {
            if roots.contains(a) {
                let i = choose|i: int| 0 <= i < roots.len() && roots[i] == a;
                if i < before.len() {
                    assert(before[i] == a);
                    assert(before.contains(a));
                }
            }
            if 0 <= a < n && in_degree_of(edges, a) == 0 {
                if a < n - 1 {
                    assert(before.contains(a));
                    let i = choose|i: int| 0 <= i < before.len() && before[i] == a;
                    assert(roots[i] == a);
                } else {
                    assert(roots[before.len() as int] == a);
                }
            }
        }
        assert forall|i: int, j: int| 0 <= i < roots.len() && 0 <= j < roots.len() && i != j implies roots[i]
            != roots[j] by {
            if i < before.len() {
                assert(before.contains(roots[i]));
            }
            if j < before.len() {
                assert(before.contains(roots[j]));
            }
        }
    }
}

/// The successors of a node are the targets of the edges that leave it.
pub proof fn lemma_successors_are_targets(edges: Seq<(int, int)>, a: int, b: int)
    ensures
        successors_of(edges, a).contains(b) <==> edges.contains((a, b)),
    decreases edges.len(),
{
    if edges.len() > 0 {
        let front = edges.drop_last();
        let rest = successors_of(front, a);
        let all = successors_of(edges, a);
        lemma_successors_are_targets(front, a, b);
        if edges.contains((a, b)) {
            let e = choose|e: int| 0 <= e < edges.len() && edges[e] == (a, b);
            if e < front.len() {
                assert(front[e] == (a, b));
                assert(front.contains((a, b)));
                let i = choose|i: int| 0 <= i < rest.len() && rest[i] == b;
                if edges.last().0 == a {
                    assert(all[i + 1] == b);
                }
            } else {
                assert(all[0] == b);
            }
        }
        if all.contains(b) {
            let i = choose|i: int| 0 <= i < all.len() && all[i] == b;
            if edges.last().0 == a && i == 0 {
                assert(edges[edges.len() - 1] == (a, b));
            } else {
                let at = if edges.last().0 == a {
                    i - 1
                } else {
                    i
                };
                assert(rest[at] == b);
                assert(rest.contains(b));
                let e = choose|e: int| 0 <= e < front.len() && front[e] == (a, b);
                assert(edges[e] == (a, b));
            }
        }
    }
}

/// What was seen by level `k` is what the levels up to `k` hold.
pub proof fn lemma_seen_by(edges: Seq<(int, int)>, n: nat, k: nat, x: int)
    ensures
        seen_by(edges, n, k).contains(x) <==> exists|j: nat|
            j <= k && #[trigger] level_at(edges, n, j).contains(x),
    decreases k,
{
    lemma_seq_in_set(level_at(edges, n, k), x);
    if k > 0 {
        lemma_seen_by(edges, n, (k - 1) as nat, x);
        if seen_by(edges, n, (k - 1) as nat).contains(x) {
            let j = choose|j: nat| j <= k - 1 && #[trigger] level_at(edges, n, j).contains(x);
            assert(j <= k && level_at(edges, n, j).contains(x));
        }
        if exists|j: nat| j <= k && #[trigger] level_at(edges, n, j).contains(x) {
            let j = choose|j: nat| j <= k && #[trigger] level_at(edges, n, j).contains(x);
            if j < k {
                assert(j <= k - 1 && level_at(edges, n, j).contains(x));
            }
        }
    } else {
        if exists|j: nat| j <= k && #[trigger] level_at(edges, n, j).contains(x) {
            let j = choose|j: nat| j <= k && #[trigger] level_at(edges, n, j).contains(x);
            assert(j == 0);
        }
        if level_at(edges, n, 0).contains(x) {
            assert(0 <= k && level_at(edges, n, 0).contains(x));
        }
    }
}

/// No level has more places than all levels together, and there are no more
/// levels than places where no level is empty.
pub proof fn lemma_places_bound(levels: Seq<Vec<usize>>, k: int)
    requires
        0 <= k < levels.len(),
        forall|l: int| 0 <= l < levels.len() ==> (#[trigger] levels[l])@.len() > 0,
    ensures
        levels[k]@.len() <= places(levels),
        levels.len() <= places(levels),
    decreases levels.len(),
{
    let front = levels.drop_last();
    if front.len() > 0 {
        assert forall|l: int| 0 <= l < front.len() implies (#[trigger] front[l])@.len() > 0 by {
            assert(front[l] == levels[l]);
        }
        if k < front.len() {
            lemma_places_bound(front, k);
        } else {
            lemma_places_bound(front, 0);
        }
    }
}

/// How many of `marks` are not set.
pub open spec fn unmarked(marks: Seq<bool>) -> nat
    decreases marks.len(),
{
    if marks.len() == 0 {
        0
    } else {
        unmarked(marks.drop_last()) + if marks.last() {
            0nat
        } else {
            1nat
        }
    }
}

/// Setting one mark leaves one mark fewer that is not set.
proof fn lemma_mark_one(marks: Seq<bool>, a: int)
    requires
        0 <= a < marks.len(),
        !marks[a],
    ensures
        unmarked(marks.update(a, true)) + 1 == unmarked(marks),
    decreases marks.len(),
{
    let after = marks.update(a, true);
    if a == marks.len() - 1 {
        assert(after.drop_last() =~= marks.drop_last());
    } else {
        assert(after.drop_last() =~= marks.drop_last().update(a, true));
        lemma_mark_one(marks.drop_last(), a);
    }
}

/// Reading as integers goes along with appending.
proof fn lemma_as_ints_push(s: Seq<usize>, h: usize)
    ensures
        as_ints(s.push(h)) == as_ints(s).push(h as int),
{
    assert(as_ints(s.push(h)) =~= as_ints(s).push(h as int));
}

/// The set of a sequence holds what the sequence holds.
proof fn lemma_seq_in_set(s: Seq<int>, a: int)
    ensures
        s.to_set().contains(a) <==> s.contains(a),
{
}

} // verus!
