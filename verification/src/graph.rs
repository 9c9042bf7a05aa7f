//! Graph algorithms: which nodes can be reached, and in which order nodes can be taken so
//! that every node stands behind the nodes that it has an edge to.
//!
//! A graph of `n` nodes is a list of `n` lists: the list of node `u` names the nodes that
//! `u` has an edge to.

use vstd::prelude::*;

verus! {

/// Every edge of the graph points to a node of the graph.
pub open spec fn is_graph(adj: Seq<Seq<usize>>) -> bool {
    forall|u: int, k: int|
        0 <= u < adj.len() && 0 <= k < adj[u].len() ==> (#[trigger] adj[u][k]) < adj.len()
}

/// Whether the graph has an edge from `u` to `v`.
pub open spec fn is_edge(adj: Seq<Seq<usize>>, u: int, v: int) -> bool {
    0 <= u < adj.len() && exists|k: int| 0 <= k < adj[u].len() && #[trigger] adj[u][k] == v
}

/// Whether `walk` is a walk in the graph: a list of nodes, not empty, with an edge from
/// each node to the next.
pub open spec fn is_walk(adj: Seq<Seq<usize>>, walk: Seq<int>) -> bool {
    &&& walk.len() > 0
    &&& forall|k: int| 0 <= k < walk.len() ==> 0 <= #[trigger] walk[k] < adj.len()
    &&& forall|k: int| 0 <= k < walk.len() - 1 ==> is_edge(adj, #[trigger] walk[k], walk[k + 1])
}

/// Whether `v` is one of the roots.
pub open spec fn is_root(roots: Seq<usize>, v: int) -> bool {
    exists|r: int| 0 <= r < roots.len() && #[trigger] roots[r] == v
}

/// Whether `v` can be reached from a root: a walk leads from a root to `v`.
pub open spec fn reachable(adj: Seq<Seq<usize>>, roots: Seq<usize>, v: int) -> bool {
    exists|walk: Seq<int>|
        #[trigger] is_walk(adj, walk) && is_root(roots, walk[0]) && walk.last() == v
}

/// The number of entries of `marks` that are not set.
pub open spec fn count_clear(marks: Seq<bool>) -> nat
    decreases marks.len(),
{
    if marks.len() == 0 {
        0
    } else if marks.last() {
        count_clear(marks.drop_last())
    } else {
        count_clear(marks.drop_last()) + 1
    }
}

/// Setting an entry that was not set leaves one fewer that is not set.
pub proof fn lemma_count_clear_update(marks: Seq<bool>, i: int)
    requires
        0 <= i < marks.len(),
        !marks[i],
    ensures
        count_clear(marks.update(i, true)) + 1 == count_clear(marks),
    decreases marks.len(),
{
    let after = marks.update(i, true);
    if i == marks.len() - 1 {
        assert(after.drop_last() =~= marks.drop_last());
    } else {
        assert(after.drop_last() =~= marks.drop_last().update(i, true));
        lemma_count_clear_update(marks.drop_last(), i);
    }
}

/// A root can be reached.
pub proof fn lemma_root_reachable(adj: Seq<Seq<usize>>, roots: Seq<usize>, r: int)
    requires
        0 <= r < roots.len(),
        roots[r] < adj.len(),
    ensures
        reachable(adj, roots, roots[r] as int),
{
    let walk = seq![roots[r] as int];
    assert(is_walk(adj, walk));
    assert(is_root(roots, walk[0]));
}

/// What has an edge from a node that can be reached can be reached.
pub proof fn lemma_reachable_step(adj: Seq<Seq<usize>>, roots: Seq<usize>, u: int, v: int)
    requires
        is_graph(adj),
        reachable(adj, roots, u),
        is_edge(adj, u, v),
    ensures
        reachable(adj, roots, v),
{
    let walk = choose|walk: Seq<int>|
        #[trigger] is_walk(adj, walk) && is_root(roots, walk[0]) && walk.last() == u;
    let longer = walk.push(v);
    assert(longer[0] == walk[0]);
    assert forall|k: int| 0 <= k < longer.len() implies 0 <= #[trigger] longer[k] < adj.len() by {
        if k < walk.len() {
            assert(longer[k] == walk[k]);
        }
    }
    assert forall|k: int| 0 <= k < longer.len() - 1 implies is_edge(
        adj,
        #[trigger] longer[k],
        longer[k + 1],
    ) by {
        if k < walk.len() - 1 {
            assert(longer[k] == walk[k]);
            assert(longer[k + 1] == walk[k + 1]);
        }
    }
    assert(is_walk(adj, longer));
}

/// A set of nodes that holds the roots, and with each node all that the node has an edge
/// to, holds all that can be reached.
pub proof fn lemma_closed_set_holds_reachable(
    adj: Seq<Seq<usize>>,
    roots: Seq<usize>,
    marks: Seq<bool>,
    v: int,
)
    requires
        marks.len() == adj.len(),
        forall|r: int| 0 <= r < roots.len() ==> roots[r] < adj.len() && marks[roots[r] as int],
        forall|u: int, w: int|
            0 <= u < adj.len() && marks[u] && #[trigger] is_edge(adj, u, w) && 0 <= w < adj.len()
                ==> marks[w],
        reachable(adj, roots, v),
    ensures
        marks[v],
{
    let walk = choose|walk: Seq<int>|
        #[trigger] is_walk(adj, walk) && is_root(roots, walk[0]) && walk.last() == v;
    lemma_walk_marked(adj, roots, marks, walk, walk.len() - 1);
}

proof fn lemma_walk_marked(
    adj: Seq<Seq<usize>>,
    roots: Seq<usize>,
    marks: Seq<bool>,
    walk: Seq<int>,
    k: int,
)
    requires
        marks.len() == adj.len(),
        forall|r: int| 0 <= r < roots.len() ==> roots[r] < adj.len() && marks[roots[r] as int],
        forall|u: int, w: int|
            0 <= u < adj.len() && marks[u] && #[trigger] is_edge(adj, u, w) && 0 <= w < adj.len()
                ==> marks[w],
        is_walk(adj, walk),
        is_root(roots, walk[0]),
        0 <= k < walk.len(),
    ensures
        marks[walk[k]],
    decreases k,
{
    if k == 0 {
        let r = choose|r: int| 0 <= r < roots.len() && #[trigger] roots[r] == walk[0];
        assert(marks[roots[r] as int]);
    } else {
        lemma_walk_marked(adj, roots, marks, walk, k - 1);
        assert(is_edge(adj, walk[k - 1], walk[k - 1 + 1]));
        assert(0 <= walk[k] < adj.len());
    }
}

/// Whether `u` is an entry of `nodes`.
pub open spec fn lists(nodes: Seq<usize>, u: int) -> bool {
    exists|k: int| 0 <= k < nodes.len() && #[trigger] nodes[k] == u
}

/// Whether `order` lists every node of the graph once, each node behind all nodes that it
/// has an edge to.
pub open spec fn is_dependency_order(adj: Seq<Seq<usize>>, order: Seq<usize>) -> bool {
    &&& order.len() == adj.len()
    &&& forall|k: int| 0 <= k < order.len() ==> (#[trigger] order[k]) < adj.len()
    &&& forall|j: int, k: int| 0 <= j < k < order.len() ==> order[j] != order[k]
    &&& forall|u: int| 0 <= u < adj.len() ==> #[trigger] lists(order, u)
    &&& forall|a: int, b: int|
        0 <= a < order.len() && 0 <= b < order.len() && #[trigger] is_edge(
            adj,
            order[a] as int,
            order[b] as int,
        ) ==> b < a
}

/// Whether `knot` is a set of nodes in which every node has an edge to a node of the set.
/// A set of nodes of a finite graph is one exactly if, from each of its nodes, a walk
/// within the set leads into a cycle.
#[verifier::opaque]
pub open spec fn is_knot(adj: Seq<Seq<usize>>, knot: Set<int>) -> bool {
    forall|u: int| #[trigger] knot.contains(u) ==> exists|v: int| knot.contains(v) && is_edge(adj, u, v)
}

/// From a node of a knot an edge leads to a node of the knot.
pub proof fn lemma_knot_step(adj: Seq<Seq<usize>>, knot: Set<int>, u: int) -> (v: int)
    requires
        is_knot(adj, knot),
        knot.contains(u),
    ensures
        knot.contains(v),
        is_edge(adj, u, v),
{
    reveal(is_knot);
    choose|v: int| knot.contains(v) && is_edge(adj, u, v)
}

/// Whether a walk from `u` leads into a cycle: `u` lies in a knot.
pub open spec fn in_knot(adj: Seq<Seq<usize>>, u: int) -> bool {
    exists|knot: Set<int>| #[trigger] is_knot(adj, knot) && knot.contains(u)
}

/// Whether the entries of `nodes` grow strictly.
pub open spec fn is_ascending(nodes: Seq<usize>) -> bool {
    forall|j: int, k: int| 0 <= j < k < nodes.len() ==> nodes[j] < nodes[k]
}

/// A graph with a knot has no dependency order: in an order, none of the nodes of a knot
/// could come first.
pub proof fn lemma_knot_has_no_order(adj: Seq<Seq<usize>>, order: Seq<usize>, u: int)
    requires
        is_graph(adj),
        is_dependency_order(adj, order),
        0 <= u < adj.len(),
    ensures
        !in_knot(adj, u),
{
    if in_knot(adj, u) {
        let knot = choose|knot: Set<int>| #[trigger] is_knot(adj, knot) && knot.contains(u);
        assert(lists(order, u));
        let k = choose|k: int| 0 <= k < order.len() && #[trigger] order[k] == u;
        lemma_order_avoids_knot(adj, order, knot, k);
    }
}

proof fn lemma_order_avoids_knot(adj: Seq<Seq<usize>>, order: Seq<usize>, knot: Set<int>, k: int)
    requires
        is_graph(adj),
        is_dependency_order(adj, order),
        is_knot(adj, knot),
        0 <= k < order.len(),
    ensures
        !knot.contains(order[k] as int),
    decreases k,
{
    if knot.contains(order[k] as int) {
        let v = lemma_knot_step(adj, knot, order[k] as int);
        let j = choose|j: int| 0 <= j < adj[order[k] as int].len() && #[trigger] adj[order[k] as int][j] == v;
        assert(adj[order[k] as int][j] < adj.len());
        assert(lists(order, v));
        let b = choose|b: int| 0 <= b < order.len() && #[trigger] order[b] == v;
        assert(is_edge(adj, order[k] as int, order[b] as int));
        lemma_order_avoids_knot(adj, order, knot, b);
    }
}

/// Where no entry is clear, every entry is set; where one is clear, one is not set.
pub proof fn lemma_count_clear_zero(marks: Seq<bool>)
    ensures
        count_clear(marks) == 0 <==> forall|i: int| 0 <= i < marks.len() ==> marks[i],
    decreases marks.len(),
{
    if marks.len() > 0 {
        lemma_count_clear_zero(marks.drop_last());
        if count_clear(marks) == 0 {
            assert forall|i: int| 0 <= i < marks.len() implies marks[i] by {
                if i < marks.len() - 1 {
                    assert(marks.drop_last()[i] == marks[i]);
                }
            }
        }
        if forall|i: int| 0 <= i < marks.len() ==> marks[i] {
            assert forall|i: int| 0 <= i < marks.drop_last().len() implies marks.drop_last()[i] by {
                assert(marks.drop_last()[i] == marks[i]);
            }
        }
    }
}

/// Whether every node that `u` has an edge to is marked.
fn all_marked(adj: &Vec<Vec<usize>>, marks: &Vec<bool>, u: usize) -> (r: bool)
    requires
        is_graph(adj.deep_view()),
        marks@.len() == adj@.len(),
        u < adj@.len(),
    ensures
        r == forall|v: int| 0 <= v < adj@.len() && is_edge(adj.deep_view(), u as int, v) ==> marks@[v],
{
    let ghost graph = adj.deep_view();
    let edges = &adj[u];
    assert(edges@ == graph[u as int]);
    let mut ready = true;
    let mut k: usize = 0;
    while k < edges.len()
        invariant
            k <= edges@.len(),
            graph == adj.deep_view(),
            is_graph(graph),
            u < adj@.len(),
            graph.len() == adj@.len(),
            marks@.len() == adj@.len(),
            edges@ == graph[u as int],
            ready == forall|j: int| 0 <= j < k ==> marks@[(#[trigger] edges@[j]) as int],
        decreases edges@.len() - k,
    {
        assert(graph[u as int][k as int] < graph.len());
        if !marks[edges[k]] {
            ready = false;
        }
        k = k + 1;
    }
    proof {
        if ready {
            assert forall|v: int| 0 <= v < adj@.len() && is_edge(graph, u as int, v) implies marks@[v] by {
                let j = choose|j: int| 0 <= j < graph[u as int].len() && #[trigger] graph[u as int][j] == v;
                assert(marks@[edges@[j] as int]);
            }
        } else {
            let j = choose|j: int| 0 <= j < edges@.len() && !marks@[(#[trigger] edges@[j]) as int];
            assert(graph[u as int][j] < graph.len());
            assert(is_edge(graph, u as int, edges@[j] as int));
        }
    }
    ready
}

/// What holds while the nodes are put in order, of the nodes that are placed and of the
/// order so far: the order lists the placed nodes, each once and each behind all nodes
/// that it has an edge to, and no placed node lies in a knot.
#[verifier::opaque]
pub open spec fn is_partial_order(adj: Seq<Seq<usize>>, placed: Seq<bool>, order: Seq<usize>) -> bool {
    &&& placed.len() == adj.len()
    &&& order.len() + count_clear(placed) == adj.len()
    &&& forall|k: int|
        0 <= k < order.len() ==> (#[trigger] order[k]) < adj.len() && placed[order[k] as int]
    &&& forall|u: int| 0 <= u < adj.len() && #[trigger] placed[u] ==> lists(order, u)
    &&& forall|j: int, k: int| 0 <= j < k < order.len() ==> order[j] != order[k]
    &&& forall|a: int, v: int|
        0 <= a < order.len() && 0 <= v < adj.len() && #[trigger] is_edge(adj, order[a] as int, v)
            ==> lists(order.take(a), v)
    &&& forall|u: int| 0 <= u < adj.len() && #[trigger] placed[u] ==> !in_knot(adj, u)
}

/// The order is no longer than the graph, and every node is placed or not.
proof fn lemma_partial_order_len(adj: Seq<Seq<usize>>, placed: Seq<bool>, order: Seq<usize>)
    requires
        is_partial_order(adj, placed, order),
    ensures
        placed.len() == adj.len(),
        order.len() <= adj.len(),
{
    reveal(is_partial_order);
}

/// A node all of whose edges lead to placed nodes can be placed next.
proof fn lemma_place(adj: Seq<Seq<usize>>, placed: Seq<bool>, order: Seq<usize>, u: int)
    requires
        is_graph(adj),
        is_partial_order(adj, placed, order),
        0 <= u < adj.len() <= usize::MAX,
        !placed[u],
        forall|v: int| 0 <= v < adj.len() && is_edge(adj, u, v) ==> placed[v],
    ensures
        is_partial_order(adj, placed.update(u, true), order.push(u as usize)),
{
    reveal(is_partial_order);
    let new_placed = placed.update(u, true);
    let new_order = order.push(u as usize);
    lemma_count_clear_update(placed, u);
    assert forall|w: int| 0 <= w < adj.len() && #[trigger] new_placed[w] implies lists(
        new_order,
        w,
    ) by {
        if w == u {
            assert(new_order[new_order.len() - 1] == u);
        } else {
            assert(placed[w]);
            assert(lists(order, w));
            let k = choose|k: int| 0 <= k < order.len() && #[trigger] order[k] == w;
            assert(new_order[k] == w);
        }
    }
    assert forall|j: int, k: int| 0 <= j < k < new_order.len() implies new_order[j]
        != new_order[k] by {
        if k == order.len() {
            assert(placed[order[j] as int]);
        } else {
            assert(order[j] != order[k]);
        }
    }
    assert forall|a: int, v: int|
        0 <= a < new_order.len() && 0 <= v < adj.len() && #[trigger] is_edge(
            adj,
            new_order[a] as int,
            v,
        ) implies lists(new_order.take(a), v) by {
        if a == order.len() {
            assert(placed[v]);
            assert(lists(order, v));
            assert(new_order.take(a) =~= order);
        } else {
            assert(is_edge(adj, order[a] as int, v));
            assert(new_order.take(a) =~= order.take(a));
        }
    }
    assert forall|w: int| 0 <= w < adj.len() && #[trigger] new_placed[w] implies !in_knot(
        adj,
        w,
    ) by {
        if w == u {
            if in_knot(adj, w) {
                let knot = choose|knot: Set<int>| #[trigger] is_knot(adj, knot) && knot.contains(w);
                let v = lemma_knot_step(adj, knot, w);
                let j = choose|j: int| 0 <= j < adj[w].len() && #[trigger] adj[w][j] == v;
                assert(adj[w][j] < adj.len());
                assert(placed[v]);
                assert(in_knot(adj, v));
            }
        } else {
            assert(placed[w]);
        }
    }
}

/// Once every node is placed, the order is a dependency order.
proof fn lemma_order_complete(adj: Seq<Seq<usize>>, placed: Seq<bool>, order: Seq<usize>)
    requires
        is_partial_order(adj, placed, order),
        order.len() == adj.len(),
    ensures
        is_dependency_order(adj, order),
{
    reveal(is_partial_order);
    lemma_count_clear_zero(placed);
    assert forall|w: int| 0 <= w < adj.len() implies #[trigger] lists(order, w) by {
        assert(placed[w]);
    }
    assert forall|a: int, b: int|
        0 <= a < order.len() && 0 <= b < order.len() && #[trigger] is_edge(
            adj,
            order[a] as int,
            order[b] as int,
        ) implies b < a by {
        assert(lists(order.take(a), order[b] as int));
        let c = choose|c: int| 0 <= c < order.take(a).len() && #[trigger] order.take(a)[c] == order[b];
        assert(order[c] == order[b]);
        if c < b {
            assert(order[c] != order[b]);
        }
        if b < c {
            assert(order[b] != order[c]);
        }
    }
}

/// Where the nodes that are not placed each have an edge to one that is not placed, they
/// are the nodes that lie in a knot.
proof fn lemma_stuck(adj: Seq<Seq<usize>>, placed: Seq<bool>, order: Seq<usize>)
    requires
        is_partial_order(adj, placed, order),
        forall|w: int|
            0 <= w < adj.len() && !placed[w] ==> exists|v: int|
                0 <= v < adj.len() && #[trigger] is_edge(adj, w, v) && !placed[v],
    ensures
        forall|w: int| 0 <= w < adj.len() ==> (#[trigger] in_knot(adj, w) <==> !placed[w]),
        order.len() < adj.len() ==> exists|w: int| 0 <= w < adj.len() && !placed[w],
{
    reveal(is_partial_order);
    let knot = Set::new(|v: int| 0 <= v < adj.len() && !placed[v]);
    assert(is_knot(adj, knot)) by {
        reveal(is_knot);
        assert forall|x: int| #[trigger] knot.contains(x) implies exists|v: int|
            knot.contains(v) && is_edge(adj, x, v) by {
            let v = choose|v: int| 0 <= v < adj.len() && #[trigger] is_edge(adj, x, v) && !placed[v];
            assert(knot.contains(v));
        }
    }
    assert forall|w: int| 0 <= w < adj.len() implies (#[trigger] in_knot(adj, w) <==> !placed[w]) by {
        if !placed[w] {
            assert(knot.contains(w));
        }
    }
    lemma_count_clear_zero(placed);
}

/// Places every node that is ready: every node that is not placed and all of whose edges
/// lead to placed nodes. Returns whether a node was placed.
fn place_ready(adj: &Vec<Vec<usize>>, placed: &mut Vec<bool>, order: &mut Vec<usize>) -> (progress:
    bool)
    requires
        is_graph(adj.deep_view()),
        is_partial_order(adj.deep_view(), old(placed)@, old(order)@),
    ensures
        is_partial_order(adj.deep_view(), final(placed)@, final(order)@),
        progress ==> old(order)@.len() < final(order)@.len(),
        !progress ==> final(order)@ == old(order)@ && final(placed)@ == old(placed)@,
        !progress ==> forall|w: int|
            0 <= w < adj@.len() && !old(placed)@[w] ==> exists|v: int|
                0 <= v < adj@.len() && #[trigger] is_edge(adj.deep_view(), w, v) && !old(placed)@[v],
{
    let ghost graph = adj.deep_view();
    let n = adj.len();
    let mut progress = false;
    let mut u: usize = 0;
    proof {
        lemma_partial_order_len(graph, placed@, order@);
    }
    while u < n
        invariant
            u <= n,
            n == adj@.len(),
            graph == adj.deep_view(),
            graph.len() == n,
            is_graph(graph),
            placed@.len() == n,
            is_partial_order(graph, placed@, order@),
            old(order)@.len() <= order@.len(),
            progress ==> old(order)@.len() < order@.len(),
            !progress ==> order@ == old(order)@ && placed@ == old(placed)@,
            !progress ==> forall|w: int|
                0 <= w < u && !placed@[w] ==> exists|v: int|
                    0 <= v < n && #[trigger] is_edge(graph, w, v) && !placed@[v],
        decreases n - u,
    {
        if !placed[u] {
            let ready = all_marked(adj, placed, u);
            if ready {
                proof {
                    lemma_place(graph, placed@, order@, u as int);
                }
                placed[u] = true;
                order.push(u);
                progress = true;
            }
        }
        u = u + 1;
    }
    progress
}

/// The places of the entries that are not set, in ascending order.
fn clear_entries(marks: &Vec<bool>) -> (r: Vec<usize>)
    ensures
        is_ascending(r@),
        forall|k: int| 0 <= k < r@.len() ==> (#[trigger] r@[k]) < marks@.len() && !marks@[r@[k] as int],
        forall|v: int| 0 <= v < marks@.len() && !marks@[v] ==> lists(r@, v),
{
    let mut found: Vec<usize> = Vec::new();
    let mut w: usize = 0;
    while w < marks.len()
        invariant
            w <= marks@.len(),
            forall|k: int| 0 <= k < found@.len() ==> (#[trigger] found@[k]) < w && !marks@[found@[k] as int],
            forall|v: int| 0 <= v < w && !marks@[v] ==> lists(found@, v),
            is_ascending(found@),
        decreases marks@.len() - w,
    {
        if !marks[w] {
            let ghost before = found@;
            found.push(w);
            proof {
                assert forall|v: int| 0 <= v < w + 1 && !marks@[v] implies lists(found@, v) by {
                    if v == w {
                        assert(found@[found@.len() - 1] == w);
                    } else {
                        assert(lists(before, v));
                        let k = choose|k: int| 0 <= k < before.len() && #[trigger] before[k] == v;
                        assert(found@[k] == v);
                    }
                }
            }
        }
        w = w + 1;
    }
    found
}

/// Puts the nodes of the graph in an order in which every node stands behind all nodes
/// that it has an edge to. There is such an order exactly if the graph has no cycle.
/// Where it has one, the error lists the nodes from which a walk leads into a cycle, in
/// ascending order.
pub fn dependency_order(adj: &Vec<Vec<usize>>) -> (r: Result<Vec<usize>, Vec<usize>>)
    requires
        is_graph(adj.deep_view()),
    ensures
        r is Ok <==> forall|u: int| 0 <= u < adj@.len() ==> !in_knot(adj.deep_view(), u),
        match r {
            Ok(order) => is_dependency_order(adj.deep_view(), order@),
            Err(stuck) => {
                &&& stuck@.len() > 0
                &&& is_ascending(stuck@)
                &&& forall|u: int|
                    0 <= u < adj@.len() ==> (#[trigger] in_knot(adj.deep_view(), u) <==> lists(
                        stuck@,
                        u,
                    ))
                &&& forall|k: int| 0 <= k < stuck@.len() ==> (#[trigger] stuck@[k]) < adj@.len()
            },
        },
{
    let ghost graph = adj.deep_view();
    let n = adj.len();
    let mut placed: Vec<bool> = Vec::new();
    let mut i: usize = 0;
    while i < n
        invariant
            i <= n,
            placed@.len() == i,
            count_clear(placed@) == i,
            forall|v: int| 0 <= v < i ==> !placed@[v],
        decreases n - i,
    {
        let ghost before = placed@;
        placed.push(false);
        assert(placed@.drop_last() =~= before);
        i = i + 1;
    }
    let mut order: Vec<usize> = Vec::new();
    assert(is_partial_order(graph, placed@, order@)) by {
        reveal(is_partial_order);
    }
    loop
        invariant
            n == adj@.len(),
            graph == adj.deep_view(),
            graph.len() == n,
            is_graph(graph),
            order@.len() <= n,
            is_partial_order(graph, placed@, order@),
        decreases n - order@.len(),
    {
        if order.len() == n {
            proof {
                lemma_order_complete(graph, placed@, order@);
                assert forall|u: int| 0 <= u < adj@.len() implies !in_knot(graph, u) by {
                    lemma_knot_has_no_order(graph, order@, u);
                }
            }
            return Ok(order);
        }
        let progress = place_ready(adj, &mut placed, &mut order);
        proof {
            lemma_partial_order_len(graph, placed@, order@);
        }
        if !progress {
            let stuck = clear_entries(&placed);
            proof {
                lemma_stuck(graph, placed@, order@);
                let x = choose|x: int| 0 <= x < graph.len() && !placed@[x];
                assert(lists(stuck@, x));
                assert forall|u: int| 0 <= u < adj@.len() implies (#[trigger] in_knot(graph, u)
                    <==> lists(stuck@, u)) by {
                    if lists(stuck@, u) {
                        let k = choose|k: int| 0 <= k < stuck@.len() && #[trigger] stuck@[k] == u;
                        assert(!placed@[stuck@[k] as int]);
                    }
                }
                assert(in_knot(graph, x));
            }
            return Err(stuck);
        }
    }
}

/// Marks the nodes that can be reached from the roots. Every node is visited at most
/// once.
pub fn reachable_from(adj: &Vec<Vec<usize>>, roots: &Vec<usize>) -> (marks: Vec<bool>)
    requires
        is_graph(adj.deep_view()),
        forall|r: int| 0 <= r < roots@.len() ==> (#[trigger] roots@[r]) < adj@.len(),
    ensures
        marks@.len() == adj@.len(),
        forall|v: int|
            0 <= v < adj@.len() ==> (#[trigger] marks@[v] <==> reachable(
                adj.deep_view(),
                roots@,
                v,
            )),
{
    let ghost graph = adj.deep_view();
    let n = adj.len();
    let mut marks: Vec<bool> = Vec::new();
    let mut i: usize = 0;
    while i < n
        invariant
            i <= n,
            marks@.len() == i,
            forall|v: int| 0 <= v < i ==> !marks@[v],
        decreases n - i,
    {
        marks.push(false);
        i = i + 1;
    }
    let mut stack: Vec<usize> = Vec::new();
    let mut r: usize = 0;
    while r < roots.len()
        invariant
            r <= roots@.len(),
            n == adj@.len(),
            graph == adj.deep_view(),
            graph.len() == n,
            marks@.len() == n,
            forall|q: int| 0 <= q < roots@.len() ==> (#[trigger] roots@[q]) < n,
            forall|q: int| 0 <= q < r ==> marks@[roots@[q] as int],
            forall|v: int| 0 <= v < n && marks@[v] ==> reachable(graph, roots@, v),
            forall|s: int| 0 <= s < stack@.len() ==> (#[trigger] stack@[s]) < n && marks@[stack@[s] as int],
            forall|v: int| 0 <= v < n && #[trigger] marks@[v] ==> stack@.contains(v as usize),
        decreases roots@.len() - r,
    {
        let root = roots[r];
        if !marks[root] {
            let ghost before = stack@;
            marks[root] = true;
            stack.push(root);
            proof {
                lemma_root_reachable(graph, roots@, r as int);
                assert forall|v: int|
                    0 <= v < n && #[trigger] marks@[v] implies stack@.contains(v as usize) by {
                    if v == root {
                        assert(stack@[stack@.len() - 1] == root);
                    } else {
                        let s = choose|s: int| 0 <= s < before.len() && before[s] == v as usize;
                        assert(stack@[s] == v as usize);
                    }
                }
            }
        }
        r = r + 1;
    }
    while stack.len() > 0
        invariant
            n == adj@.len(),
            graph == adj.deep_view(),
            graph.len() == n,
            is_graph(graph),
            marks@.len() == n,
            forall|q: int| 0 <= q < roots@.len() ==> (#[trigger] roots@[q]) < n && marks@[roots@[q] as int],
            forall|v: int| 0 <= v < n && marks@[v] ==> reachable(graph, roots@, v),
            forall|s: int| 0 <= s < stack@.len() ==> (#[trigger] stack@[s]) < n && marks@[stack@[s] as int],
            forall|u: int, w: int|
                0 <= u < n && marks@[u] && #[trigger] is_edge(graph, u, w) && 0 <= w < n
                    ==> marks@[w] || stack@.contains(u as usize),
        decreases 2 * count_clear(marks@) + stack@.len(),
    {
        let ghost measure = 2 * count_clear(marks@) + stack@.len();
        let ghost full = stack@;
        let ghost rest = stack@.drop_last();
        let u = stack.pop().unwrap();
        assert(stack@ == rest);
        proof {
            assert forall|x: int, w: int|
                0 <= x < n && marks@[x] && #[trigger] is_edge(graph, x, w) && 0 <= w < n
                implies marks@[w] || stack@.contains(x as usize) || x == u by {
                if !marks@[w] && x != u {
                    let s = choose|s: int| 0 <= s < full.len() && full[s] == x as usize;
                    assert(rest[s] == x as usize);
                }
            }
        }
        let edges = &adj[u];
        assert(edges@ == graph[u as int]);
        let mut k: usize = 0;
        while k < edges.len()
            invariant
                k <= edges@.len(),
                u < n,
                n == adj@.len(),
                graph == adj.deep_view(),
                graph.len() == n,
                is_graph(graph),
                edges@ == graph[u as int],
                marks@.len() == n,
                marks@[u as int],
                forall|q: int| 0 <= q < roots@.len() ==> (#[trigger] roots@[q]) < n && marks@[roots@[q] as int],
                forall|v: int| 0 <= v < n && marks@[v] ==> reachable(graph, roots@, v),
                forall|s: int| 0 <= s < stack@.len() ==> (#[trigger] stack@[s]) < n && marks@[stack@[s] as int],
                forall|x: int, w: int|
                    0 <= x < n && marks@[x] && #[trigger] is_edge(graph, x, w) && 0 <= w < n
                        ==> marks@[w] || stack@.contains(x as usize) || x == u,
                forall|j: int| 0 <= j < k ==> marks@[(#[trigger] edges@[j]) as int],
                2 * count_clear(marks@) + stack@.len() < measure,
            decreases edges@.len() - k,
        {
            let v = edges[k];
            assert(graph[u as int][k as int] < n);
            if !marks[v] {
                let ghost old_marks = marks@;
                let ghost old_stack = stack@;
                marks[v] = true;
                stack.push(v);
                proof {
                    lemma_count_clear_update(old_marks, v as int);
                    assert(is_edge(graph, u as int, v as int));
                    lemma_reachable_step(graph, roots@, u as int, v as int);
                    assert forall|x: int, w: int|
                        0 <= x < n && marks@[x] && #[trigger] is_edge(graph, x, w) && 0 <= w < n
                        implies marks@[w] || stack@.contains(x as usize) || x == u by {
                        if x == v {
                            assert(stack@[stack@.len() - 1] == v);
                        } else if !marks@[w] && x != u {
                            assert(old_marks[x]);
                            let s = choose|s: int|
                                0 <= s < old_stack.len() && old_stack[s] == x as usize;
                            assert(stack@[s] == x as usize);
                        }
                    }
                }
            }
            k = k + 1;
        }
        proof {
            assert forall|x: int, w: int|
                0 <= x < n && marks@[x] && #[trigger] is_edge(graph, x, w) && 0 <= w < n
                implies marks@[w] || stack@.contains(x as usize) by {
                if x == u {
                    let j = choose|j: int| 0 <= j < graph[x].len() && #[trigger] graph[x][j] == w;
                    assert(marks@[edges@[j] as int]);
                }
            }
        }
    }
    proof {
        assert forall|v: int| 0 <= v < adj@.len() implies (#[trigger] marks@[v] <==> reachable(
            graph,
            roots@,
            v,
        )) by {
            if reachable(graph, roots@, v) {
                assert forall|x: int, w: int|
                    0 <= x < graph.len() && marks@[x] && #[trigger] is_edge(graph, x, w) && 0 <= w
                        < graph.len() implies marks@[w] by {
                    assert(!stack@.contains(x as usize));
                }
                lemma_closed_set_holds_reachable(graph, roots@, marks@, v);
            }
        }
    }
    marks
}

} // verus!
