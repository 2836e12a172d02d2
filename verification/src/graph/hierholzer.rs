//! Hierholzer's algorithm: a trail that uses up the edges reachable from a
//! node, which is an Euler trail where the graph has one from that node.
use vstd::prelude::*;
use super::dijkstra::{lemma_walk_concat, target, walk_end, walk_ok};
use super::scc::{lemma_reach_edge, lemma_reach_refl, lemma_reach_trans, reaches};
use super::sort::{distinct, lemma_chain};
use super::{
    has_list,
    is_list,
    lemma_list_in_range,
    lemma_list_kept,
    lemma_list_of,
    lemma_list_step,
    list_of,
    twin,
    twin_spec,
    Graph,
};
use crate::utils::Flag;

verus! {

/// The number of edges that the cursors `cur`, one for each node, have
/// still before them.
pub open spec fn remaining<E>(edges: Seq<(usize, usize, E)>, cur: Seq<usize>) -> nat
    decreases cur.len(),
{
    if cur.len() == 0 {
        0
    } else {
        remaining(edges, cur.drop_last()) + list_of(edges, cur.last() as int).len()
    }
}

/// Every cursor stands on a list that ends, and every edge leads to a
/// node that has a cursor.
pub open spec fn cursors_ok<E>(edges: Seq<(usize, usize, E)>, cur: Seq<usize>) -> bool {
    &&& forall|v: int| 0 <= v < cur.len() ==> has_list(edges, #[trigger] cur[v] as int)
    &&& forall|e: int| 0 <= e < edges.len() ==> (#[trigger] edges[e]).1 < cur.len()
}

/// Moving one cursor over one edge leaves one edge less.
pub proof fn lemma_remaining_step<E>(edges: Seq<(usize, usize, E)>, cur: Seq<usize>, node: int)
    requires
        0 <= node < cur.len(),
        has_list(edges, cur[node] as int),
        cur[node] != 0,
    ensures
        0 < cur[node] < edges.len(),
        has_list(edges, edges[cur[node] as int].0 as int),
        remaining(edges, cur.update(node, edges[cur[node] as int].0)) + 1 == remaining(edges, cur),
    decreases cur.len(),
{
    lemma_list_step(edges, cur[node] as int);
    let moved = cur.update(node, edges[cur[node] as int].0);
    if node == cur.len() - 1 {
        assert(moved.drop_last() =~= cur.drop_last());
    } else {
        lemma_remaining_step(edges, cur.drop_last(), node);
        assert(moved.drop_last() =~= cur.drop_last().update(node, edges[cur[node] as int].0));
    }
}

/// Two edge arrays have the same links if each edge has the same
/// successor and leads to the same node in both.
pub open spec fn same_links<E>(a: Seq<(usize, usize, E)>, b: Seq<(usize, usize, E)>) -> bool {
    &&& a.len() == b.len()
    &&& forall|e: int| 0 <= e < a.len() ==> (#[trigger] a[e]).0 == b[e].0 && a[e].1 == b[e].1
}

/// Edge arrays with the same links have the same lists.
pub proof fn lemma_same_lists<E>(a: Seq<(usize, usize, E)>, b: Seq<(usize, usize, E)>, start: int)
    requires
        same_links(a, b),
        has_list(a, start),
    ensures
        has_list(b, start),
        list_of(b, start) == list_of(a, start),
{
    let idxs = list_of(a, start);
    lemma_list_step(a, start);
    lemma_list_in_range(a, start, idxs);
    lemma_list_kept(a, b, start, idxs);
    lemma_list_of(b, start, idxs);
}

/// Edge arrays with the same links leave the same edges before the same
/// cursors.
pub proof fn lemma_same_remaining<E>(
    a: Seq<(usize, usize, E)>,
    b: Seq<(usize, usize, E)>,
    cur: Seq<usize>,
)
    requires
        same_links(a, b),
        cursors_ok(a, cur),
    ensures
        cursors_ok(b, cur),
        remaining(b, cur) == remaining(a, cur),
{
    assert forall|v: int| 0 <= v < cur.len() implies has_list(b, #[trigger] cur[v] as int) by {
        lemma_same_lists(a, b, cur[v] as int);
    }
    assert forall|e: int| 0 <= e < b.len() implies (#[trigger] b[e]).1 < cur.len() by {
        assert(a[e].1 == b[e].1);
    }
    lemma_same_count(a, b, cur);
}

/// Edge arrays with the same links leave the same number of edges before
/// cursors that stand on lists.
proof fn lemma_same_count<E>(a: Seq<(usize, usize, E)>, b: Seq<(usize, usize, E)>, cur: Seq<usize>)
    requires
        same_links(a, b),
        forall|v: int| 0 <= v < cur.len() ==> has_list(a, #[trigger] cur[v] as int),
    ensures
        remaining(b, cur) == remaining(a, cur),
    decreases cur.len(),
{
    if cur.len() > 0 {
        assert forall|v: int| 0 <= v < cur.drop_last().len() implies has_list(
            a,
            #[trigger] cur.drop_last()[v] as int,
        ) by {
            assert(cur.drop_last()[v] == cur[v]);
        }
        lemma_same_lists(a, b, cur.last() as int);
        lemma_same_count(a, b, cur.drop_last());
    }
}

/// Edge `e` is still before one of the cursors `cur`.
pub open spec fn in_rest<E>(edges: Seq<(usize, usize, E)>, cur: Seq<usize>, e: int) -> bool {
    exists|v: int| 0 <= v < cur.len() && #[trigger] list_of(edges, cur[v] as int).contains(e)
}

/// The number of edges among the first `upto` slots that are still before
/// the cursors and lead to node `w`.
pub open spec fn rest_into<E>(edges: Seq<(usize, usize, E)>, cur: Seq<usize>, w: int, upto: nat) -> nat
    decreases upto,
{
    if upto == 0 {
        0
    } else {
        rest_into(edges, cur, w, (upto - 1) as nat) + if in_rest(edges, cur, upto - 1)
            && edges[upto - 1].1 == w {
            1nat
        } else {
            0nat
        }
    }
}

/// 1 if the two nodes are the same, else 0.
pub open spec fn one_if(a: int, b: int) -> int {
    if a == b {
        1
    } else {
        0
    }
}

/// Among the edges still before the cursors, every node has as many that
/// lead to it as leave it, but that `from` has one more that leaves it
/// and `to` one more that leads to it: they can form a trail from `from`
/// to `to`. With `from == to` every node is in balance.
pub open spec fn balanced<E>(edges: Seq<(usize, usize, E)>, cur: Seq<usize>, from: int, to: int) -> bool {
    forall|w: int|
        0 <= w < cur.len() ==> rest_into(edges, cur, w, edges.len()) + one_if(w, from)
            == (#[trigger] list_of(edges, cur[w] as int)).len() + one_if(w, to)
}

/// Every cursor stands on the list of its own node.
pub open spec fn within_adj<V, E>(graph: &Graph<V, E>, cur: Seq<usize>) -> bool where
    V: Default + Clone,
    E: Default + Clone,
 {
    &&& cur.len() == graph.head@.len()
    &&& forall|v: int, e: int|
        0 <= v < cur.len() && #[trigger] list_of(graph.edges@, cur[v] as int).contains(e)
            ==> #[trigger] graph.adj(v).contains(e)
}

/// The nodes that the edges of `path` lead to, in order.
pub open spec fn targets<V, E>(graph: &Graph<V, E>, path: Seq<int>) -> Seq<usize> where
    V: Default + Clone,
    E: Default + Clone,
 {
    Seq::new(path.len(), |k: int| graph.edges@[path[k]].1)
}

/// `path` is a trail from `from` to `to`: a walk that passes no edge
/// twice.
pub open spec fn is_trail<V, E>(graph: &Graph<V, E>, from: int, path: Seq<int>, to: int) -> bool where
    V: Default + Clone,
    E: Default + Clone,
 {
    &&& walk_ok(graph, from, path)
    &&& walk_end(graph, from, path) == to
    &&& distinct(path)
}

/// The graph has a trail from `start` to `end` that passes every edge that
/// can be reached, as far as the degrees show it: every node has as many
/// edges that lead to it as leave it, but that `start` has one more that
/// leaves it and `end` one more that leads to it, unless they are the
/// same node.
pub open spec fn eulerian<V, E>(graph: &Graph<V, E>, start: int, end: int) -> bool where
    V: Default + Clone,
    E: Default + Clone,
 {
    balanced(graph.edges@, graph.head@, start, end)
}

/// The path passes every edge of the graph.
pub open spec fn passes_all<V, E>(graph: &Graph<V, E>, path: Seq<int>) -> bool where
    V: Default + Clone,
    E: Default + Clone,
 {
    forall|v: int, e: int|
        0 <= v < graph.head@.len() && #[trigger] graph.adj(v).contains(e) ==> path.contains(e)
}

/// Where no edge is left before the cursors, none is.
proof fn lemma_nothing_left<E>(edges: Seq<(usize, usize, E)>, cur: Seq<usize>)
    requires
        remaining(edges, cur) == 0,
    ensures
        forall|e: int| !in_rest(edges, cur, e),
    decreases cur.len(),
{
    assert forall|v: int| 0 <= v < cur.len() implies (#[trigger] list_of(edges, cur[v] as int)).len()
        == 0 by {
        lemma_nothing_at(edges, cur, v);
    }
    assert forall|e: int| !in_rest(edges, cur, e) by {
        if in_rest(edges, cur, e) {
            let v = choose|v: int| 0 <= v < cur.len() && #[trigger] list_of(
                edges,
                cur[v] as int,
            ).contains(e);
            assert(list_of(edges, cur[v] as int).len() == 0);
        }
    }
}

/// Where no edge is left before the cursors, none is left before the
/// cursor of `v`.
proof fn lemma_nothing_at<E>(edges: Seq<(usize, usize, E)>, cur: Seq<usize>, v: int)
    requires
        remaining(edges, cur) == 0,
        0 <= v < cur.len(),
    ensures
        list_of(edges, cur[v] as int).len() == 0,
    decreases cur.len(),
{
    if v < cur.len() - 1 {
        lemma_nothing_at(edges, cur.drop_last(), v);
    }
}

/// Moving the cursor of `node` over its first edge takes that edge, and
/// no other, from the edges still before the cursors.
proof fn lemma_rest_step<V, E>(graph: &Graph<V, E>, cur: Seq<usize>, node: int, e: int) where
    V: Default + Clone,
    E: Default + Clone,

    requires
        graph.wf(),
        cursors_ok(graph.edges@, cur),
        within_adj(graph, cur),
        0 <= node < cur.len(),
        cur[node] != 0,
    ensures
        in_rest(graph.edges@, cur, cur[node] as int),
        graph.adj(node).contains(cur[node] as int),
        in_rest(graph.edges@, cur.update(node, graph.edges@[cur[node] as int].0), e) == (in_rest(
            graph.edges@,
            cur,
            e,
        ) && e != cur[node]),
        within_adj(graph, cur.update(node, graph.edges@[cur[node] as int].0)),
{
    let edges = graph.edges@;
    let first = cur[node] as int;
    let moved = cur.update(node, edges[first].0);
    let old_list = list_of(edges, first);
    let new_list = list_of(edges, edges[first].0 as int);
    lemma_list_step(edges, first);
    lemma_chain(edges, first, old_list);
    assert(old_list[0] == first);
    assert(old_list.contains(first));
    assert(graph.adj(node).contains(first));
    // the rest of the list is the list without its first edge
    assert forall|x: int| new_list.contains(x) <==> old_list.contains(x) && x != first by {
        if new_list.contains(x) {
            let k = choose|k: int| 0 <= k < new_list.len() && new_list[k] == x;
            assert(old_list[k + 1] == x);
        }
        if old_list.contains(x) && x != first {
            let k = choose|k: int| 0 <= k < old_list.len() && old_list[k] == x;
            assert(new_list[k - 1] == x);
        }
    }
    if in_rest(edges, moved, e) {
        let v = choose|v: int| 0 <= v < moved.len() && #[trigger] list_of(
            edges,
            moved[v] as int,
        ).contains(e);
        if v == node {
            assert(list_of(edges, cur[node] as int).contains(e));
        } else {
            assert(list_of(edges, cur[v] as int).contains(e));
            assert(graph.adj(v).contains(e));
            if e == first {
                assert(graph.adj(node).contains(e));
            }
        }
    }
    if in_rest(edges, cur, e) && e != first {
        let v = choose|v: int| 0 <= v < cur.len() && #[trigger] list_of(
            edges,
            cur[v] as int,
        ).contains(e);
        assert(list_of(edges, moved[v] as int).contains(e));
    }
    assert forall|v: int, x: int|
        0 <= v < moved.len() && #[trigger] list_of(edges, moved[v] as int).contains(
            x,
        ) implies #[trigger] graph.adj(v).contains(x) by {
        if v == node {
            assert(list_of(edges, cur[node] as int).contains(x));
        } else {
            assert(list_of(edges, cur[v] as int).contains(x));
        }
    }
}

/// Taking one edge from the edges still before the cursors leaves one
/// edge less that leads to the node it leads to, and as many that lead to
/// any other node.
proof fn lemma_rest_into_step<E>(
    edges: Seq<(usize, usize, E)>,
    cur: Seq<usize>,
    moved: Seq<usize>,
    gone: int,
    w: int,
    upto: nat,
)
    requires
        upto <= edges.len(),
        in_rest(edges, cur, gone),
        forall|e: int| in_rest(edges, moved, e) == (in_rest(edges, cur, e) && e != gone),
    ensures
        rest_into(edges, moved, w, upto) + (if 0 <= gone < upto && edges[gone].1 == w {
            1int
        } else {
            0int
        }) == rest_into(edges, cur, w, upto),
    decreases upto,
{
    if upto > 0 {
        lemma_rest_into_step(edges, cur, moved, gone, w, (upto - 1) as nat);
        assert(in_rest(edges, moved, upto - 1) == (in_rest(edges, cur, upto - 1) && upto - 1
            != gone));
    }
}

/// After the cursor of `node` has moved over its first edge, to `next`,
/// the edges that are left can form a trail from `next` to where a trail
/// from `node` was to end.
proof fn lemma_balance_step<V, E>(graph: &Graph<V, E>, cur: Seq<usize>, node: int, to: int) where
    V: Default + Clone,
    E: Default + Clone,

    requires
        graph.wf(),
        cursors_ok(graph.edges@, cur),
        within_adj(graph, cur),
        0 <= node < cur.len(),
        cur[node] != 0,
        balanced(graph.edges@, cur, node, to),
    ensures
        balanced(
            graph.edges@,
            cur.update(node, graph.edges@[cur[node] as int].0),
            graph.edges@[cur[node] as int].1 as int,
            to,
        ),
{
    let edges = graph.edges@;
    let first = cur[node] as int;
    let moved = cur.update(node, edges[first].0);
    let next = edges[first].1 as int;
    lemma_list_step(edges, first);
    assert forall|e: int| in_rest(edges, moved, e) == (in_rest(edges, cur, e) && e != first) by {
        lemma_rest_step(graph, cur, node, e);
    }
    lemma_rest_step(graph, cur, node, first);
    assert forall|w: int| 0 <= w < moved.len() implies rest_into(edges, moved, w, edges.len())
        + one_if(w, next) == (#[trigger] list_of(edges, moved[w] as int)).len() + one_if(
        w,
        to,
    ) by {
        lemma_rest_into_step(edges, cur, moved, first, w, edges.len());
        assert(rest_into(edges, cur, w, edges.len()) + one_if(w, node) == list_of(
            edges,
            cur[w] as int,
        ).len() + one_if(w, to));
    }
}

/// A node that no edge leaves any more, from which a trail can be formed,
/// is the node at which the trail ends.
proof fn lemma_balance_end<E>(edges: Seq<(usize, usize, E)>, cur: Seq<usize>, node: int, to: int)
    requires
        cursors_ok(edges, cur),
        0 <= node < cur.len(),
        cur[node] == 0,
        balanced(edges, cur, node, to),
    ensures
        node == to,
        balanced(edges, cur, to, to),
{
    lemma_list_step(edges, cur[node] as int);
    assert(list_of(edges, cur[node] as int).len() == 0);
    assert forall|w: int| 0 <= w < cur.len() implies rest_into(edges, cur, w, edges.len()) + one_if(
        w,
        to,
    ) == (#[trigger] list_of(edges, cur[w] as int)).len() + one_if(w, to) by {
        assert(rest_into(edges, cur, w, edges.len()) + one_if(w, node) == list_of(
            edges,
            cur[w] as int,
        ).len() + one_if(w, to));
    }
}

/// Edges in balance are in balance whatever node is named.
proof fn lemma_balance_any<E>(edges: Seq<(usize, usize, E)>, cur: Seq<usize>, a: int, b: int)
    requires
        balanced(edges, cur, a, a),
    ensures
        balanced(edges, cur, b, b),
{
    assert forall|w: int| 0 <= w < cur.len() implies rest_into(edges, cur, w, edges.len()) + one_if(
        w,
        b,
    ) == (#[trigger] list_of(edges, cur[w] as int)).len() + one_if(w, b) by {
        assert(rest_into(edges, cur, w, edges.len()) + one_if(w, a) == list_of(
            edges,
            cur[w] as int,
        ).len() + one_if(w, a));
    }
}

/// The reverse of a sequence followed by another is the reverse of the
/// other followed by the reverse of the one.
proof fn lemma_reverse_concat(a: Seq<usize>, b: Seq<usize>)
    ensures
        (a + b).reverse() == b.reverse() + a.reverse(),
{
    assert((a + b).reverse() =~= b.reverse() + a.reverse());
}

/// The nodes that a walk made of three parts leads to.
proof fn lemma_targets_concat<V, E>(graph: &Graph<V, E>, e: int, t: Seq<int>, rest: Seq<int>) where
    V: Default + Clone,
    E: Default + Clone,

    ensures
        targets(graph, seq![e] + t + rest) == seq![graph.edges@[e].1] + targets(graph, t) + targets(
            graph,
            rest,
        ),
{
    assert(targets(graph, seq![e] + t + rest) =~= seq![graph.edges@[e].1] + targets(graph, t)
        + targets(graph, rest));
}

/// Three trails that share no edge, each from where the one before ends,
/// make one trail.
proof fn lemma_trail_concat<V, E>(
    graph: &Graph<V, E>,
    node: int,
    e: int,
    t: Seq<int>,
    mid: int,
    rest: Seq<int>,
    to: int,
) where V: Default + Clone, E: Default + Clone
    requires
        graph.adj(node).contains(e),
        is_trail(graph, graph.edges@[e].1 as int, t, mid),
        is_trail(graph, mid, rest, to),
        forall|k: int| 0 <= k < t.len() ==> t[k] != e,
        forall|k: int| 0 <= k < rest.len() ==> rest[k] != e,
        forall|j: int, k: int| 0 <= j < t.len() && 0 <= k < rest.len() ==> t[j] != rest[k],
    ensures
        is_trail(graph, node, seq![e] + t + rest, to),
{
    let first = seq![e];
    assert(first.drop_last() =~= Seq::<int>::empty());
    assert(walk_ok(graph, node, first.drop_last()));
    assert(walk_end(graph, node, first.drop_last()) == node);
    assert(first.last() == e);
    assert(walk_ok(graph, node, first));
    lemma_walk_concat(graph, node, first, t);
    lemma_walk_concat(graph, node, first + t, rest);
    lemma_distinct_concat(e, t, rest);
}

/// The depth-first walk from `node` that takes, at every node, the edges
/// before its cursor in the order of the list, each edge once, and goes on
/// from the node an edge leads to before it takes the next: the nodes in
/// the order in which the walk leaves them for the last time, and the
/// cursors when it ends. `fuel` bounds the number of edges taken.
pub open spec fn walk_with<E>(
    edges: Seq<(usize, usize, E)>,
    cur: Seq<usize>,
    node: int,
    fuel: nat,
) -> (Seq<usize>, Seq<usize>)
    decreases fuel,
{
    if fuel == 0 || !(0 <= node < cur.len()) || cur[node] == 0 {
        (seq![node as usize], cur)
    } else {
        let at = cur[node] as int;
        let first = walk_with(
            edges,
            cur.update(node, edges[at].0),
            edges[at].1 as int,
            (fuel - 1) as nat,
        );
        let rest = walk_with(edges, first.1, node, (fuel - 1) as nat);
        (first.0 + rest.0, rest.1)
    }
}

/// The depth-first walk from `node` over all the edges it comes to.
#[verifier::opaque]
pub open spec fn walk_all<E>(edges: Seq<(usize, usize, E)>, cur: Seq<usize>, node: int) -> (
    Seq<usize>,
    Seq<usize>,
) {
    walk_with(edges, cur, node, remaining(edges, cur) + 1)
}

/// The walk takes no more edges than are before the cursors: with more
/// fuel than that it is the same walk. It leaves the cursors in order.
pub proof fn lemma_walk_fuel<E>(edges: Seq<(usize, usize, E)>, cur: Seq<usize>, node: int, fuel: nat)
    requires
        cursors_ok(edges, cur),
        0 <= node < cur.len(),
        fuel > remaining(edges, cur),
    ensures
        walk_with(edges, cur, node, fuel) == walk_all(edges, cur, node),
        cursors_ok(edges, walk_all(edges, cur, node).1),
        walk_all(edges, cur, node).1.len() == cur.len(),
        remaining(edges, walk_all(edges, cur, node).1) <= remaining(edges, cur),
    decreases remaining(edges, cur),
{
    reveal(walk_all);
    if cur[node] != 0 {
        lemma_remaining_step(edges, cur, node);
        let at = cur[node] as int;
        let moved = cur.update(node, edges[at].0);
        let v = edges[at].1 as int;
        assert(cursors_ok(edges, moved));
        lemma_walk_fuel(edges, moved, v, (fuel - 1) as nat);
        lemma_walk_fuel(edges, moved, v, remaining(edges, cur));
        let first = walk_all(edges, moved, v);
        lemma_walk_fuel(edges, first.1, node, (fuel - 1) as nat);
        lemma_walk_fuel(edges, first.1, node, remaining(edges, cur));
    }
}

/// The walk from a node whose cursor is at the end of its list ends
/// there.
pub proof fn lemma_walk_end<E>(edges: Seq<(usize, usize, E)>, cur: Seq<usize>, node: int)
    requires
        0 <= node < cur.len(),
        cur[node] == 0,
    ensures
        walk_all(edges, cur, node) == (seq![node as usize], cur),
{
    reveal(walk_all);
}

/// The walk from a node that has an edge before its cursor takes that
/// edge, is the walk from the node the edge leads to, and then the walk
/// from the node again.
pub proof fn lemma_walk_step<E>(edges: Seq<(usize, usize, E)>, cur: Seq<usize>, node: int)
    requires
        cursors_ok(edges, cur),
        0 <= node < cur.len(),
        cur[node] != 0,
    ensures
        walk_all(edges, cur, node).0 == walk_all(
            edges,
            cur.update(node, edges[cur[node] as int].0),
            edges[cur[node] as int].1 as int,
        ).0 + walk_all(
            edges,
            walk_all(
                edges,
                cur.update(node, edges[cur[node] as int].0),
                edges[cur[node] as int].1 as int,
            ).1,
            node,
        ).0,
        walk_all(edges, cur, node).1 == walk_all(
            edges,
            walk_all(
                edges,
                cur.update(node, edges[cur[node] as int].0),
                edges[cur[node] as int].1 as int,
            ).1,
            node,
        ).1,
{
    lemma_remaining_step(edges, cur, node);
    let at = cur[node] as int;
    let moved = cur.update(node, edges[at].0);
    let v = edges[at].1 as int;
    assert(cursors_ok(edges, moved));
    lemma_walk_fuel(edges, cur, node, remaining(edges, cur) + 1);
    lemma_walk_fuel(edges, moved, v, remaining(edges, cur));
    let first = walk_all(edges, moved, v);
    lemma_walk_fuel(edges, first.1, node, remaining(edges, cur));
}

/// Edge `e` leaves a node that `from` reaches.
pub open spec fn leaves_reached<V, E>(graph: &Graph<V, E>, from: int, e: int) -> bool where
    V: Default + Clone,
    E: Default + Clone,
 {
    exists|w: int| #[trigger] reaches(graph, from, w) && graph.adj(w).contains(e)
}

/// An edge that leaves `node` leaves a node that `node` reaches, and
/// `node` reaches the node it leads to.
proof fn lemma_leaves_first<V, E>(graph: &Graph<V, E>, node: int, e: int) where
    V: Default + Clone,
    E: Default + Clone,

    requires
        graph.adj(node).contains(e),
    ensures
        leaves_reached(graph, node, e),
        reaches(graph, node, target(graph, e)),
{
    lemma_reach_refl(graph, node);
    let k = choose|k: int| 0 <= k < graph.adj(node).len() && graph.adj(node)[k] == e;
    lemma_reach_edge(graph, node, k);
}

/// An edge that leaves a node that `v` reaches leaves one that `node`
/// reaches, if `node` reaches `v`.
proof fn lemma_leaves_on<V, E>(graph: &Graph<V, E>, node: int, v: int, e: int) where
    V: Default + Clone,
    E: Default + Clone,

    requires
        reaches(graph, node, v),
        leaves_reached(graph, v, e),
    ensures
        leaves_reached(graph, node, e),
{
    let w = choose|w: int| #[trigger] reaches(graph, v, w) && graph.adj(w).contains(e);
    lemma_reach_trans(graph, node, v, w);
}

/// An edge, a sequence of different edges and another such sequence, with
/// no edge in two of them, make one sequence of different edges.
proof fn lemma_distinct_concat(e: int, t: Seq<int>, rest: Seq<int>)
    requires
        distinct(t),
        distinct(rest),
        forall|k: int| 0 <= k < t.len() ==> t[k] != e,
        forall|k: int| 0 <= k < rest.len() ==> rest[k] != e,
        forall|j: int, k: int| 0 <= j < t.len() && 0 <= k < rest.len() ==> t[j] != rest[k],
    ensures
        distinct(seq![e] + t + rest),
{
    let all = seq![e] + t + rest;
    assert forall|i: int, j: int| 0 <= i < j < all.len() implies all[i] != all[j] by {
        if i == 0 {
            if j <= t.len() {
                assert(all[j] == t[j - 1]);
            } else {
                assert(all[j] == rest[j - 1 - t.len()]);
            }
        } else if j <= t.len() {
            assert(all[i] == t[i - 1] && all[j] == t[j - 1]);
        } else if i <= t.len() {
            assert(all[i] == t[i - 1] && all[j] == rest[j - 1 - t.len()]);
        } else {
            assert(all[i] == rest[i - 1 - t.len()] && all[j] == rest[j - 1 - t.len()]);
        }
    }
}

/// Walks from `node` along edges not yet passed, as deep as they go, and
/// appends every node to `res` when the walk has come back to it for the
/// last time. The edges passed, which are returned, are different edges
/// that leave nodes that `node` reaches; the nodes appended are, in
/// reverse, `node` and the nodes they lead to; and the cursor of every
/// node appended is at the end of its list. Where the edges not yet passed
/// can form a trail from `node` to `to`, the edges passed are such a
/// trail.
fn dfs_directed<V, E>(
    node: usize,
    graph: &Graph<V, E>,
    cur: &mut Vec<usize>,
    res: &mut Vec<usize>,
    Ghost(to): Ghost<int>,
) -> (out: Ghost<Seq<int>>) where V: Default + Clone, E: Default + Clone
    requires
        graph.wf(),
        cursors_ok(graph.edges@, old(cur)@),
        within_adj(graph, old(cur)@),
        node < old(cur)@.len(),
    ensures
        cursors_ok(graph.edges@, final(cur)@),
        within_adj(graph, final(cur)@),
        final(cur)@.len() == old(cur)@.len(),
        final(res)@.len() + remaining(graph.edges@, final(cur)@) == old(res)@.len() + remaining(
            graph.edges@,
            old(cur)@,
        ) + 1,
        final(res)@.len() > old(res)@.len(),
        final(res)@.subrange(0, old(res)@.len() as int) == old(res)@,
        final(res)@.subrange(old(res)@.len() as int, final(res)@.len() as int) == walk_all(
            graph.edges@,
            old(cur)@,
            node as int,
        ).0,
        final(cur)@ == walk_all(graph.edges@, old(cur)@, node as int).1,
        final(res)@.last() == node,
        forall|i: int| old(res)@.len() <= i < final(res)@.len() ==> final(res)@[i] < final(cur)@.len(),
        forall|i: int|
            old(res)@.len() <= i < final(res)@.len() ==> final(cur)@[#[trigger] final(res)@[i] as int]
                == 0,
        forall|w: int|
            0 <= w < old(cur)@.len() && old(cur)@[w] == 0 ==> #[trigger] final(cur)@[w] == 0,
        forall|e: int|
            in_rest(graph.edges@, final(cur)@, e) ==> in_rest(graph.edges@, old(cur)@, e),
        distinct(out@),
        final(res)@.subrange(old(res)@.len() as int, final(res)@.len() as int).reverse() == seq![node]
            + targets(graph, out@),
        forall|k: int|
            0 <= k < out@.len() ==> in_rest(graph.edges@, old(cur)@, #[trigger] out@[k]) && !in_rest(
                graph.edges@,
                final(cur)@,
                out@[k],
            ) && leaves_reached(graph, node as int, out@[k]),
        forall|e: int|
            #[trigger] in_rest(graph.edges@, old(cur)@, e) ==> in_rest(graph.edges@, final(cur)@, e)
                || out@.contains(e),
        balanced(graph.edges@, old(cur)@, node as int, to) ==> balanced(
            graph.edges@,
            final(cur)@,
            to,
            to,
        ) && is_trail(graph, node as int, out@, to),
    decreases remaining(graph.edges@, old(cur)@),
{
    let ghost first = res@;
    let ghost edges = graph.edges@;
    let ghost fair = balanced(edges, cur@, node as int, to);
    let ghost mut trail: Seq<int> = Seq::empty();
    proof {
        assert(res@.subrange(first.len() as int, res@.len() as int).reverse() =~= targets(
            graph,
            trail,
        ));
        assert(res@.subrange(first.len() as int, res@.len() as int) + walk_all(
            edges,
            cur@,
            node as int,
        ).0 =~= walk_all(edges, cur@, node as int).0);
    }
    while cur[node] != 0
        invariant
            graph.wf(),
            edges == graph.edges@,
            cursors_ok(edges, cur@),
            within_adj(graph, cur@),
            cur@.len() == old(cur)@.len(),
            node < cur@.len(),
            res@.len() >= first.len(),
            first == old(res)@,
            res@.len() + remaining(edges, cur@) == first.len() + remaining(edges, old(cur)@),
            res@.subrange(0, first.len() as int) == first,
            walk_all(edges, old(cur)@, node as int).0 == res@.subrange(
                first.len() as int,
                res@.len() as int,
            ) + walk_all(edges, cur@, node as int).0,
            walk_all(edges, old(cur)@, node as int).1 == walk_all(edges, cur@, node as int).1,
            forall|i: int| first.len() <= i < res@.len() ==> res@[i] < cur@.len(),
            forall|i: int| first.len() <= i < res@.len() ==> cur@[#[trigger] res@[i] as int] == 0,
            forall|w: int| 0 <= w < cur@.len() && old(cur)@[w] == 0 ==> #[trigger] cur@[w] == 0,
            forall|e: int| in_rest(edges, cur@, e) ==> in_rest(edges, old(cur)@, e),
            fair == balanced(edges, old(cur)@, node as int, to),
            fair && trail.len() == 0 ==> balanced(edges, cur@, node as int, to),
            fair && trail.len() > 0 ==> balanced(edges, cur@, node as int, node as int) && is_trail(
                graph,
                node as int,
                trail,
                to,
            ),
            distinct(trail),
            res@.subrange(first.len() as int, res@.len() as int).reverse() == targets(graph, trail),
            forall|k: int|
                0 <= k < trail.len() ==> in_rest(edges, old(cur)@, #[trigger] trail[k]) && !in_rest(
                    edges,
                    cur@,
                    trail[k],
                ) && leaves_reached(graph, node as int, trail[k]),
            forall|e: int|
                #[trigger] in_rest(edges, old(cur)@, e) ==> in_rest(edges, cur@, e)
                    || trail.contains(e),
        decreases remaining(edges, cur@),
    {
        let ghost before = cur@;
        let ghost aim = if trail.len() == 0 {
            to
        } else {
            node as int
        };
        proof {
            lemma_remaining_step(edges, cur@, node as int);
            lemma_walk_step(edges, cur@, node as int);
            lemma_rest_step(graph, cur@, node as int, 0);
            assert forall|e: int|
                in_rest(edges, before.update(node as int, edges[before[node as int] as int].0), e)
                    == (in_rest(edges, before, e) && e != before[node as int]) by {
                lemma_rest_step(graph, before, node as int, e);
            }
            if fair {
                lemma_balance_step(graph, cur@, node as int, aim);
            }
        }
        let at = cur[node];
        let next = graph.edges[at].0;
        let v = graph.edges[at].1;
        cur.set(node, next);
        let ghost held = res@;
        let ghost moved = cur@;
        let Ghost(part) = dfs_directed(v, graph, cur, res, Ghost(aim));
        proof {
            let grown = seq![at as int] + part + trail;
            assert(res@.subrange(0, first.len() as int) =~= held.subrange(0, first.len() as int));
            assert(res@.subrange(first.len() as int, res@.len() as int) =~= held.subrange(
                first.len() as int,
                held.len() as int,
            ) + res@.subrange(held.len() as int, res@.len() as int)) by {
                assert(res@.subrange(0, held.len() as int) == held);
                assert forall|i: int| first.len() <= i < held.len() implies res@[i] == held[i] by {
                    assert(res@.subrange(0, held.len() as int)[i] == held[i]);
                }
            }
            assert(walk_all(edges, old(cur)@, node as int).0 =~= res@.subrange(
                first.len() as int,
                res@.len() as int,
            ) + walk_all(edges, cur@, node as int).0);
            assert forall|i: int| first.len() <= i < res@.len() implies res@[i] < cur@.len()
                && cur@[#[trigger] res@[i] as int] == 0 by {
                if i < held.len() {
                    assert(res@.subrange(0, held.len() as int)[i] == held[i]);
                    assert(before[held[i] as int] == 0);
                    assert(moved[held[i] as int] == 0);
                }
            }
            assert forall|w: int| 0 <= w < cur@.len() && old(cur)@[w] == 0 implies #[trigger] cur@[w]
                == 0 by {
                assert(before[w] == 0);
                assert(moved[w] == 0);
            }
            assert forall|e: int| in_rest(edges, cur@, e) implies in_rest(edges, old(cur)@, e) by {
                assert(in_rest(edges, moved, e));
                assert(in_rest(edges, before, e));
            }
            assert forall|k: int| 0 <= k < part.len() implies part[k] != at by {
                assert(in_rest(edges, moved, part[k]));
            }
            assert forall|k: int| 0 <= k < trail.len() implies trail[k] != at by {
                assert(!in_rest(edges, before, trail[k]));
            }
            assert forall|j: int, k: int|
                0 <= j < part.len() && 0 <= k < trail.len() implies part[j] != trail[k] by {
                assert(in_rest(edges, moved, part[j]));
                assert(!in_rest(edges, before, trail[k]));
            }
            lemma_distinct_concat(at as int, part, trail);
            assert(graph.adj(node as int).contains(at as int));
            lemma_leaves_first(graph, node as int, at as int);
            if fair {
                lemma_balance_any(edges, cur@, aim, node as int);
                if trail.len() == 0 {
                    assert(walk_ok(graph, to, trail));
                }
                lemma_trail_concat(graph, node as int, at as int, part, aim, trail, to);
            }
            assert forall|k: int| 0 <= k < grown.len() implies in_rest(
                edges,
                old(cur)@,
                #[trigger] grown[k],
            ) && !in_rest(edges, cur@, grown[k]) && leaves_reached(graph, node as int, grown[k]) by {
                if k == 0 {
                    assert(in_rest(edges, before, at as int));
                    assert(!in_rest(edges, moved, at as int));
                } else if k <= part.len() {
                    assert(grown[k] == part[k - 1]);
                    assert(in_rest(edges, moved, part[k - 1]));
                    lemma_leaves_on(graph, node as int, v as int, part[k - 1]);
                } else {
                    assert(grown[k] == trail[k - 1 - part.len()]);
                    assert(!in_rest(edges, before, trail[k - 1 - part.len()]));
                }
            }
            let was = held.subrange(first.len() as int, held.len() as int);
            let new = res@.subrange(held.len() as int, res@.len() as int);
            assert(res@.subrange(first.len() as int, res@.len() as int) =~= was + new) by {
                assert(res@.subrange(0, held.len() as int) == held);
                assert forall|i: int| 0 <= i < was.len() implies was[i] == res@[first.len() + i] by {
                    assert(res@.subrange(0, held.len() as int)[first.len() + i] == held[first.len()
                        + i]);
                }
            }
            lemma_reverse_concat(was, new);
            lemma_targets_concat(graph, at as int, part, trail);
            assert forall|e: int| #[trigger] in_rest(edges, old(cur)@, e) implies in_rest(
                edges,
                cur@,
                e,
            ) || grown.contains(e) by {
                if trail.contains(e) {
                    let k = choose|k: int| 0 <= k < trail.len() && trail[k] == e;
                    assert(grown[1 + part.len() + k] == e);
                } else if e == at {
                    assert(grown[0] == e);
                } else {
                    assert(in_rest(edges, before, e));
                    assert(in_rest(edges, moved, e));
                    if part.contains(e) {
                        let k = choose|k: int| 0 <= k < part.len() && part[k] == e;
                        assert(grown[1 + k] == e);
                    }
                }
            }
            trail = grown;
        }
    }
    let ghost held = res@;
    res.push(node);
    proof {
        assert(res@.subrange(0, first.len() as int) =~= held.subrange(0, first.len() as int));
        assert forall|i: int| first.len() <= i < res@.len() implies res@[i] < cur@.len()
            && cur@[#[trigger] res@[i] as int] == 0 by {
            if i < held.len() {
                assert(res@[i] == held[i]);
            }
        }
        if fair {
            if trail.len() == 0 {
                lemma_balance_end(edges, cur@, node as int, to);
            } else {
                lemma_balance_any(edges, cur@, node as int, to);
            }
        }
        lemma_walk_end(edges, cur@, node as int);
        let was = held.subrange(first.len() as int, held.len() as int);
        assert(res@.subrange(first.len() as int, res@.len() as int) =~= was + seq![node]);
        lemma_reverse_concat(was, seq![node]);
        assert(seq![node].reverse() =~= seq![node]);
    }
    Ghost(trail)
}

/// The elements of `res` in reverse order.
fn reversed(res: &Vec<usize>) -> (out: Vec<usize>)
    ensures
        out@.len() == res@.len(),
        forall|i: int| 0 <= i < res@.len() ==> out@[i] == res@[res@.len() - 1 - i],
{
    let mut out: Vec<usize> = Vec::new();
    let mut i = res.len();
    while i > 0
        invariant
            i <= res@.len(),
            out@.len() == res@.len() - i,
            forall|k: int| 0 <= k < out@.len() ==> out@[k] == res@[res@.len() - 1 - k],
        decreases i,
    {
        i -= 1;
        out.push(res[i]);
    }
    out
}

/// A copy of the heads: a cursor for every node, at the start of its list.
fn cursors(head: &Vec<usize>) -> (out: Vec<usize>)
    ensures
        out@ == head@,
{
    let mut out: Vec<usize> = Vec::new();
    let mut i: usize = 0;
    while i < head.len()
        invariant
            i <= head@.len(),
            out@ == head@.subrange(0, i as int),
        decreases head@.len() - i,
    {
        out.push(head[i]);
        proof {
            assert(head@.subrange(0, i as int).push(head@[i as int]) =~= head@.subrange(0, i + 1));
        }
        i += 1;
    }
    proof {
        assert(head@.subrange(0, head@.len() as int) =~= head@);
    }
    out
}

/// `path` holds, each once, the edges that leave the nodes that `start`
/// reaches, and no other.
pub open spec fn uses_up<V, E>(graph: &Graph<V, E>, start: int, path: Seq<int>) -> bool where
    V: Default + Clone,
    E: Default + Clone,
 {
    &&& distinct(path)
    &&& forall|e: int| #[trigger] path.contains(e) <==> leaves_reached(graph, start, e)
}

/// Node `v` is one of `nodes`.
pub open spec fn listed(nodes: Seq<usize>, v: int) -> bool {
    exists|i: int| 0 <= i < nodes.len() && #[trigger] nodes[i] == v
}

/// Every edge that leaves one of `nodes` is on `path`.
pub open spec fn edges_taken<V, E>(graph: &Graph<V, E>, nodes: Seq<usize>, path: Seq<int>) -> bool where
    V: Default + Clone,
    E: Default + Clone,
 {
    forall|i: int, e: int|
        0 <= i < nodes.len() && #[trigger] graph.adj(nodes[i] as int).contains(e) ==> path.contains(
            e,
        )
}

/// Where `nodes` are `start` and the nodes that the edges of `path` lead
/// to, and every edge that leaves one of them is on `path`, every node
/// that `start` reaches is one of them.
proof fn lemma_reached_listed<V, E>(
    graph: &Graph<V, E>,
    start: usize,
    path: Seq<int>,
    nodes: Seq<usize>,
    walk: Seq<int>,
) where V: Default + Clone, E: Default + Clone
    requires
        nodes == seq![start] + targets(graph, path),
        edges_taken(graph, nodes, path),
        walk_ok(graph, start as int, walk),
    ensures
        listed(nodes, walk_end(graph, start as int, walk)),
    decreases walk.len(),
{
    if walk.len() == 0 {
        assert(nodes[0] == start);
    } else {
        lemma_reached_listed(graph, start, path, nodes, walk.drop_last());
        let w = walk_end(graph, start as int, walk.drop_last());
        let i = choose|i: int| 0 <= i < nodes.len() && #[trigger] nodes[i] == w;
        assert(graph.adj(nodes[i] as int).contains(walk.last()));
        let k = choose|k: int| 0 <= k < path.len() && path[k] == walk.last();
        assert(nodes[k + 1] == targets(graph, path)[k]);
    }
}

/// Hierholzer's algorithm for directed graph.
///
/// Returns the nodes of the depth-first walk from `start`, which takes the
/// edges of every node in the order of its list, in the reverse of the
/// order in which the walk leaves them for the last time. They are `start`
/// and then the node that each edge passed leads to, and the edges passed
/// are the edges that leave the nodes that `start` reaches, each of them
/// once.
///
/// Where the degrees of the graph allow a trail from `start` to a node
/// `end`, the edges passed form one, in the order of the result: each
/// leaves the node that the one before it leads to, and the last leads to
/// `end`.
pub fn hierholzer_directed<V, E>(start: usize, graph: &Graph<V, E>) -> (out: Vec<usize>) where
    V: Default + Clone,
    E: Default + Clone,

    requires
        graph.wf(),
        start < graph.nodes@.len(),
    ensures
        out@ == walk_all(graph.edges@, graph.head@, start as int).0.reverse(),
        1 <= out@.len() <= remaining(graph.edges@, graph.head@) + 1,
        out@[0] == start,
        forall|i: int| 0 <= i < out@.len() ==> out@[i] < graph.nodes@.len(),
        exists|path: Seq<int>|
            #[trigger] uses_up(graph, start as int, path) && out@ == seq![start] + targets(
                graph,
                path,
            ) && (out@.len() == remaining(graph.edges@, graph.head@) + 1 ==> passes_all(
                graph,
                path,
            )) && (forall|end: int|
                0 <= end < graph.nodes@.len() && eulerian(graph, start as int, end) ==> is_trail(
                    graph,
                    start as int,
                    path,
                    end,
                )),
{
    let mut cur = cursors(&graph.head);
    let mut res: Vec<usize> = Vec::new();
    let ghost to = choose|end: int|
        0 <= end < graph.nodes@.len() && eulerian(graph, start as int, end);
    proof {
        assert forall|v: int, e: int|
            0 <= v < cur@.len() && #[trigger] list_of(graph.edges@, cur@[v] as int).contains(
                e,
            ) implies #[trigger] graph.adj(v).contains(e) by {}
    }
    let Ghost(path) = dfs_directed(start, graph, &mut cur, &mut res, Ghost(to));
    let out = reversed(&res);
    proof {
        assert(res@.subrange(0, res@.len() as int) =~= res@);
        assert(out@ =~= res@.reverse());
        assert forall|i: int, e: int|
            0 <= i < out@.len() && #[trigger] graph.adj(out@[i] as int).contains(
                e,
            ) implies path.contains(e) by {
            let x = out@[i] as int;
            assert(out@[i] == res@[res@.len() - 1 - i]);
            assert(cur@[x] == 0);
            assert(list_of(graph.edges@, graph.head@[x] as int).contains(e));
            assert(in_rest(graph.edges@, graph.head@, e));
            if in_rest(graph.edges@, cur@, e) {
                let v = choose|v: int|
                    0 <= v < cur@.len() && #[trigger] list_of(graph.edges@, cur@[v] as int).contains(
                        e,
                    );
                assert(graph.adj(v).contains(e));
                lemma_list_step(graph.edges@, cur@[v] as int);
            }
        }
        assert forall|e: int| leaves_reached(graph, start as int, e) implies #[trigger] path.contains(
            e,
        ) by {
            let w = choose|w: int|
                #[trigger] reaches(graph, start as int, w) && graph.adj(w).contains(e);
            let walk = choose|walk: Seq<int>|
                walk_ok(graph, start as int, walk) && #[trigger] walk_end(graph, start as int, walk)
                    == w;
            lemma_reached_listed(graph, start, path, out@, walk);
            let i = choose|i: int| 0 <= i < out@.len() && #[trigger] out@[i] == w;
            assert(graph.adj(out@[i] as int).contains(e));
        }
        assert forall|e: int| #[trigger] path.contains(e) implies leaves_reached(
            graph,
            start as int,
            e,
        ) by {
            let k = choose|k: int| 0 <= k < path.len() && path[k] == e;
            assert(leaves_reached(graph, start as int, path[k]));
        }
        assert(uses_up(graph, start as int, path));
        if out@.len() == remaining(graph.edges@, graph.head@) + 1 {
            lemma_nothing_left(graph.edges@, cur@);
            assert forall|v: int, e: int|
                0 <= v < graph.head@.len() && #[trigger] graph.adj(v).contains(
                    e,
                ) implies path.contains(e) by {
                assert(list_of(graph.edges@, graph.head@[v] as int).contains(e));
                assert(in_rest(graph.edges@, graph.head@, e));
            }
        }
        assert forall|end: int|
            0 <= end < graph.nodes@.len() && eulerian(graph, start as int, end) implies is_trail(
            graph,
            start as int,
            path,
            end,
        ) by {
            // the degrees allow one end only
            let w = end;
            assert(rest_into(graph.edges@, graph.head@, w, graph.edges@.len()) + one_if(
                w,
                start as int,
            ) == list_of(graph.edges@, graph.head@[w] as int).len() + one_if(w, end));
            assert(rest_into(graph.edges@, graph.head@, w, graph.edges@.len()) + one_if(
                w,
                start as int,
            ) == list_of(graph.edges@, graph.head@[w] as int).len() + one_if(w, to));
            assert(end == to);
        }
    }
    out
}

/// The edge in slot `e` has not been passed in either direction.
pub open spec fn unpassed<V, E>(graph: &Graph<V, E>, e: int) -> bool where
    V: Default + Clone,
    E: Default + Clone + Flag,
 {
    !graph.edges@[e].2.is_set()
}

/// The number of edges among `idxs` that have not been passed.
pub open spec fn unpassed_in<V, E>(graph: &Graph<V, E>, idxs: Seq<int>) -> nat where
    V: Default + Clone,
    E: Default + Clone + Flag,

    decreases idxs.len(),
{
    if idxs.len() == 0 {
        0
    } else {
        unpassed_in(graph, idxs.drop_first()) + if unpassed(graph, idxs[0]) {
            1nat
        } else {
            0nat
        }
    }
}

/// The twin of the edge `e`, which leaves `u`, leaves the node that `e`
/// leads to and leads back to `u`.
pub open spec fn leads_back<V, E>(graph: &Graph<V, E>, u: int, e: int) -> bool where
    V: Default + Clone,
    E: Default + Clone + Flag,
 {
    graph.adj(graph.edges@[e].1 as int).contains(twin_spec(e)) && graph.edges@[twin_spec(e)].1
        == u
}

/// The edge in slot `e` and its twin are both marked or both not.
pub open spec fn same_mark<V, E>(graph: &Graph<V, E>, e: int) -> bool where
    V: Default + Clone,
    E: Default + Clone + Flag,
 {
    unpassed(graph, e) == unpassed(graph, twin_spec(e))
}

/// Every edge stands twice, in twin slots, once for each direction, and
/// is marked in both or in neither.
pub open spec fn paired<V, E>(graph: &Graph<V, E>) -> bool where
    V: Default + Clone,
    E: Default + Clone + Flag,
 {
    &&& graph.edges@.len() % 2 == 1
    &&& forall|u: int, e: int|
        0 <= u < graph.head@.len() && graph.adj(u).contains(e) ==> #[trigger] leads_back(
            graph,
            u,
            e,
        )
    &&& forall|e: int| 1 <= e < graph.edges@.len() ==> #[trigger] same_mark(graph, e)
}

/// Every edge that has not been passed is still before the cursor of the
/// node it leaves.
pub open spec fn ahead<V, E>(graph: &Graph<V, E>, cur: Seq<usize>) -> bool where
    V: Default + Clone,
    E: Default + Clone + Flag,
 {
    forall|u: int, e: int|
        0 <= u < graph.head@.len() && #[trigger] graph.adj(u).contains(e) && unpassed(graph, e)
            ==> #[trigger] list_of(graph.edges@, cur[u] as int).contains(e)
}

/// Among the edges not passed, every node has an even number, but that
/// `from` and `to` have an odd number, unless they are the same node: the
/// edges can form a trail from `from` to `to`.
pub open spec fn even_but<V, E>(graph: &Graph<V, E>, cur: Seq<usize>, from: int, to: int) -> bool where
    V: Default + Clone,
    E: Default + Clone + Flag,
 {
    forall|w: int|
        0 <= w < cur.len() ==> (unpassed_in(graph, #[trigger] list_of(graph.edges@, cur[w] as int))
            + one_if(w, from) + one_if(w, to)) % 2 == 0
}

/// No edge, and no twin of an edge, occurs twice.
pub open spec fn one_way(path: Seq<int>) -> bool {
    forall|j: int, k: int|
        0 <= j < k < path.len() ==> path[j] != path[k] && path[j] != twin_spec(path[k])
}

/// `path` is a trail from `from` to `to` in an undirected graph: a walk
/// that passes no edge twice, in whatever direction.
pub open spec fn is_tour<V, E>(graph: &Graph<V, E>, from: int, path: Seq<int>, to: int) -> bool where
    V: Default + Clone,
    E: Default + Clone,
 {
    &&& walk_ok(graph, from, path)
    &&& walk_end(graph, from, path) == to
    &&& one_way(path)
}

/// Graphs with the same links have the same walks.
proof fn lemma_walk_same<V, E>(a: &Graph<V, E>, b: &Graph<V, E>, from: int, path: Seq<int>) where
    V: Default + Clone,
    E: Default + Clone,

    requires
        a.wf(),
        same_links(a.edges@, b.edges@),
        a.head@ == b.head@,
        walk_ok(a, from, path),
        0 <= from < a.head@.len(),
    ensures
        walk_ok(b, from, path),
        walk_end(b, from, path) == walk_end(a, from, path),
        0 <= walk_end(a, from, path) < a.head@.len(),
    decreases path.len(),
{
    if path.len() > 0 {
        lemma_walk_same(a, b, from, path.drop_last());
        let u = walk_end(a, from, path.drop_last());
        lemma_same_lists(a.edges@, b.edges@, a.head@[u] as int);
        lemma_list_step(a.edges@, a.head@[u] as int);
        lemma_list_in_range(a.edges@, a.head@[u] as int, a.adj(u));
        let k = choose|k: int| 0 <= k < a.adj(u).len() && a.adj(u)[k] == path.last();
        assert(0 < a.adj(u)[k] < a.edges@.len());
        assert(a.edges@[path.last()].1 == b.edges@[path.last()].1);
        assert(a.edges@[path.last()].1 < a.nodes@.len());
    }
}

/// Marking one edge of a list that has not been passed leaves one edge
/// less that has not; marking an edge that is not on the list, or has been
/// passed, changes nothing.
proof fn lemma_mark_in<V, E>(a: &Graph<V, E>, b: &Graph<V, E>, idxs: Seq<int>, slot: int) where
    V: Default + Clone,
    E: Default + Clone + Flag,

    requires
        distinct(idxs),
        forall|k: int| 0 <= k < idxs.len() ==> 0 <= #[trigger] idxs[k] < a.edges@.len(),
        forall|e: int|
            0 <= e < a.edges@.len() && e != slot ==> #[trigger] unpassed(b, e) == unpassed(a, e),
        !unpassed(b, slot),
    ensures
        unpassed_in(b, idxs) + (if idxs.contains(slot) && unpassed(a, slot) {
            1int
        } else {
            0int
        }) == unpassed_in(a, idxs),
    decreases idxs.len(),
{
    if idxs.len() > 0 {
        let rest = idxs.drop_first();
        assert forall|i: int, j: int| 0 <= i < j < rest.len() implies rest[i] != rest[j] by {
            assert(rest[i] == idxs[i + 1] && rest[j] == idxs[j + 1]);
        }
        assert forall|k: int| 0 <= k < rest.len() implies 0 <= #[trigger] rest[k]
            < a.edges@.len() by {
            assert(rest[k] == idxs[k + 1]);
        }
        assert(0 <= idxs[0] < a.edges@.len());
        lemma_mark_in(a, b, rest, slot);
        if idxs[0] == slot {
            assert(!rest.contains(slot)) by {
                if rest.contains(slot) {
                    let k = choose|k: int| 0 <= k < rest.len() && rest[k] == slot;
                    assert(idxs[k + 1] == slot);
                }
            }
        } else {
            if idxs.contains(slot) {
                let k = choose|k: int| 0 <= k < idxs.len() && idxs[k] == slot;
                assert(rest[k - 1] == slot);
            }
            if rest.contains(slot) {
                let k = choose|k: int| 0 <= k < rest.len() && rest[k] == slot;
                assert(idxs[k + 1] == slot);
            }
        }
    }
}

/// Having the same links is symmetric and transitive.
pub proof fn lemma_same_links<E>(
    a: Seq<(usize, usize, E)>,
    b: Seq<(usize, usize, E)>,
    c: Seq<(usize, usize, E)>,
)
    requires
        same_links(a, b),
        same_links(b, c),
    ensures
        same_links(b, a),
        same_links(a, c),
{
    assert forall|e: int| 0 <= e < b.len() implies (#[trigger] b[e]).0 == a[e].0 && b[e].1
        == a[e].1 by {
        assert(a[e].0 == b[e].0);
    }
    assert forall|e: int| 0 <= e < a.len() implies (#[trigger] a[e]).0 == c[e].0 && a[e].1
        == c[e].1 by {
        assert(b[e].0 == c[e].0);
    }
}

/// A graph with the same links and heads as a well-formed graph has the
/// same lists.
proof fn lemma_adj_same<V, E>(a: &Graph<V, E>, b: &Graph<V, E>) where
    V: Default + Clone,
    E: Default + Clone,

    requires
        a.wf(),
        same_links(a.edges@, b.edges@),
        b.head@ == a.head@,
    ensures
        forall|u: int| #[trigger] b.adj(u) == a.adj(u),
{
    assert forall|u: int| #[trigger] b.adj(u) == a.adj(u) by {
        if 0 <= u < a.head@.len() {
            lemma_same_lists(a.edges@, b.edges@, a.head@[u] as int);
        }
    }
}

/// A graph with the same links as a well-formed graph, the same heads and
/// the same erased slots is well formed and has the same lists.
proof fn lemma_wf_same<V, E>(a: &Graph<V, E>, b: &Graph<V, E>) where
    V: Default + Clone,
    E: Default + Clone,

    requires
        a.wf(),
        same_links(a.edges@, b.edges@),
        b.head@ == a.head@,
        b.nodes@.len() == a.nodes@.len(),
        b.erased@ == a.erased@,
    ensures
        b.wf(),
        forall|u: int| #[trigger] b.adj(u) == a.adj(u),
{
    lemma_adj_same(a, b);
    assert forall|v: int| 0 <= v < b.head@.len() implies has_list(
        b.edges@,
        #[trigger] b.head@[v] as int,
    ) by {
        lemma_same_lists(a.edges@, b.edges@, a.head@[v] as int);
    }
    assert forall|e: int| 0 <= e < b.edges@.len() implies (#[trigger] b.edges@[e]).1
        < b.nodes@.len() by {
        assert(a.edges@[e].1 == b.edges@[e].1);
    }
    assert forall|v: int, k: int|
        0 <= v < b.head@.len() && 0 <= k < b.erased@.len() implies !(#[trigger] b.adj(
        v,
    )).contains(#[trigger] b.erased@[k] as int) by {
        assert(b.adj(v) == a.adj(v));
        assert(!a.adj(v).contains(a.erased@[k] as int));
    }
    assert forall|u: int, v: int, x: int|
        0 <= u < b.head@.len() && 0 <= v < b.head@.len() && u != v && #[trigger] b.adj(
            u,
        ).contains(x) implies !#[trigger] b.adj(v).contains(x) by {
        assert(b.adj(u) == a.adj(u));
        assert(b.adj(v) == a.adj(v));
        assert(a.adj(u).contains(x));
    }
}

/// Moving the cursor of `node` over an edge that has been passed changes
/// nothing among the edges that have not.
proof fn lemma_step_over<V, E>(graph: &Graph<V, E>, cur: Seq<usize>, node: int, to: int, fair: bool) where
    V: Default + Clone,
    E: Default + Clone + Flag,

    requires
        graph.wf(),
        cursors_ok(graph.edges@, cur),
        within_adj(graph, cur),
        0 <= node < cur.len(),
        cur[node] != 0,
        !unpassed(graph, cur[node] as int),
        fair ==> ahead(graph, cur) && even_but(graph, cur, node, to),
    ensures
        fair ==> ahead(graph, cur.update(node, graph.edges@[cur[node] as int].0)) && even_but(
            graph,
            cur.update(node, graph.edges@[cur[node] as int].0),
            node,
            to,
        ),
{
    let edges = graph.edges@;
    let first = cur[node] as int;
    let moved = cur.update(node, edges[first].0);
    lemma_list_step(edges, first);
    let old_list = list_of(edges, first);
    let new_list = list_of(edges, edges[first].0 as int);
    assert(old_list.drop_first() =~= new_list);
    if fair {
        assert forall|u: int, e: int|
            0 <= u < graph.head@.len() && #[trigger] graph.adj(u).contains(e) && unpassed(
                graph,
                e,
            ) implies #[trigger] list_of(edges, moved[u] as int).contains(e) by {
            assert(list_of(edges, cur[u] as int).contains(e));
            if u == node {
                let k = choose|k: int| 0 <= k < old_list.len() && old_list[k] == e;
                assert(new_list[k - 1] == e);
            }
        }
        assert forall|w: int| 0 <= w < moved.len() implies (unpassed_in(
            graph,
            #[trigger] list_of(edges, moved[w] as int),
        ) + one_if(w, node) + one_if(w, to)) % 2 == 0 by {
            assert((unpassed_in(graph, list_of(edges, cur[w] as int)) + one_if(w, node) + one_if(
                w,
                to,
            )) % 2 == 0);
        }
    }
}

/// What is known when the first edge before the cursor of `node`, which
/// has not been passed, is passed: `a` is the graph before, `m` the graph
/// with the edge marked, `b` the graph with its twin marked too.
pub open spec fn passing<V, E>(
    a: &Graph<V, E>,
    m: &Graph<V, E>,
    b: &Graph<V, E>,
    cur: Seq<usize>,
    node: int,
) -> bool where V: Default + Clone, E: Default + Clone + Flag {
    &&& a.wf()
    &&& same_links(a.edges@, m.edges@)
    &&& same_links(a.edges@, b.edges@)
    &&& m.head@ == a.head@
    &&& b.head@ == a.head@
    &&& cursors_ok(a.edges@, cur)
    &&& within_adj(a, cur)
    &&& 0 <= node < cur.len()
    &&& cur[node] != 0
    &&& paired(a)
    &&& ahead(a, cur)
    &&& unpassed(a, cur[node] as int)
    &&& forall|e: int|
        0 <= e < a.edges@.len() && e != cur[node] ==> #[trigger] unpassed(m, e) == unpassed(a, e)
    &&& !unpassed(m, cur[node] as int)
    &&& forall|e: int|
        0 <= e < a.edges@.len() && e != twin_spec(cur[node] as int) ==> #[trigger] unpassed(b, e)
            == unpassed(m, e)
    &&& !unpassed(b, twin_spec(cur[node] as int))
}

/// The edge that is passed and its twin: the edge is the first before the
/// cursor of `node`; its twin is another slot, before the cursor of the
/// node the edge leads to, and leads back.
proof fn lemma_passing_slots<V, E>(
    a: &Graph<V, E>,
    m: &Graph<V, E>,
    b: &Graph<V, E>,
    cur: Seq<usize>,
    node: int,
) where V: Default + Clone, E: Default + Clone + Flag
    requires
        passing(a, m, b, cur, node),
    ensures
        0 < cur[node] < a.edges@.len(),
        0 < twin_spec(cur[node] as int) < a.edges@.len(),
        twin_spec(cur[node] as int) != cur[node],
        a.adj(node).contains(cur[node] as int),
        a.edges@[cur[node] as int].1 < cur.len(),
        list_of(a.edges@, cur[a.edges@[cur[node] as int].1 as int] as int).contains(
            twin_spec(cur[node] as int),
        ),
        a.adj(a.edges@[cur[node] as int].1 as int).contains(twin_spec(cur[node] as int)),
        unpassed(a, twin_spec(cur[node] as int)),
        unpassed(m, twin_spec(cur[node] as int)),
        forall|u: int| #[trigger] b.adj(u) == a.adj(u),
        forall|u: int| #[trigger] m.adj(u) == a.adj(u),
{
    let edges = a.edges@;
    let first = cur[node] as int;
    lemma_adj_same(a, m);
    lemma_adj_same(a, b);
    lemma_rest_step(a, cur, node, 0);
    lemma_list_step(edges, first);
    lemma_list_in_range(edges, first, list_of(edges, first));
    assert(list_of(edges, first)[0] == first);
    assert(a.adj(node).contains(first));
    assert(leads_back(a, node, first));
    assert(same_mark(a, first));
    assert(unpassed(m, twin_spec(first)) == unpassed(a, twin_spec(first)));
}

/// After an edge and its twin are marked, every edge is still marked in
/// both slots or in neither.
proof fn lemma_pass_paired<V, E>(
    a: &Graph<V, E>,
    m: &Graph<V, E>,
    b: &Graph<V, E>,
    cur: Seq<usize>,
    node: int,
) where V: Default + Clone, E: Default + Clone + Flag
    requires
        passing(a, m, b, cur, node),
    ensures
        paired(b),
{
    let edges = a.edges@;
    lemma_passing_slots(a, m, b, cur, node);
    assert forall|u: int, e: int|
        0 <= u < b.head@.len() && b.adj(u).contains(e) implies #[trigger] leads_back(b, u, e) by {
        assert(b.adj(u) == a.adj(u));
        assert(a.adj(u).contains(e));
        assert(leads_back(a, u, e));
        lemma_list_step(edges, a.head@[u] as int);
        lemma_list_in_range(edges, a.head@[u] as int, a.adj(u));
        let k = choose|k: int| 0 <= k < a.adj(u).len() && a.adj(u)[k] == e;
        assert(0 < a.adj(u)[k] < edges.len());
        assert(b.edges@[e].1 == edges[e].1);
        assert(0 < twin_spec(e) < edges.len());
        assert(b.edges@[twin_spec(e)].1 == edges[twin_spec(e)].1);
        assert(b.adj(edges[e].1 as int) == a.adj(edges[e].1 as int));
    }
    assert forall|e: int| 1 <= e < b.edges@.len() implies #[trigger] same_mark(b, e) by {
        assert(same_mark(a, e));
        assert(twin_spec(twin_spec(e)) == e);
        let t = twin_spec(e);
        let first = cur[node] as int;
        if e != first {
            assert(unpassed(m, e) == unpassed(a, e));
        }
        if e != twin_spec(first) {
            assert(unpassed(b, e) == unpassed(m, e));
        }
        if t != first {
            assert(unpassed(m, t) == unpassed(a, t));
        }
        if t != twin_spec(first) {
            assert(unpassed(b, t) == unpassed(m, t));
        }
    }
}

/// After an edge from `node` is passed, the edges not passed before the
/// cursor of `w` are one less for `node` and one less for the node the
/// edge leads to.
#[verifier::rlimit(40)]
proof fn lemma_pass_count<V, E>(
    a: &Graph<V, E>,
    m: &Graph<V, E>,
    b: &Graph<V, E>,
    cur: Seq<usize>,
    node: int,
    w: int,
) where V: Default + Clone, E: Default + Clone + Flag
    requires
        passing(a, m, b, cur, node),
        0 <= w < cur.len(),
    ensures
        unpassed_in(
            b,
            list_of(b.edges@, cur.update(node, a.edges@[cur[node] as int].0)[w] as int),
        ) + one_if(w, node) + one_if(w, a.edges@[cur[node] as int].1 as int) == unpassed_in(
            a,
            list_of(a.edges@, cur[w] as int),
        ),
{
    let edges = a.edges@;
    let first = cur[node] as int;
    let back = twin_spec(first);
    let moved = cur.update(node, edges[first].0);
    let v = edges[first].1 as int;
    lemma_passing_slots(a, m, b, cur, node);
    let was = list_of(edges, cur[w] as int);
    let now = list_of(edges, moved[w] as int);
    lemma_list_step(edges, cur[w] as int);
    lemma_chain(edges, cur[w] as int, was);
    if w == node {
        assert(now =~= was.drop_first());
        assert(was[0] == first);
        assert(unpassed_in(a, was) == unpassed_in(a, now) + 1);
        lemma_same_lists(edges, b.edges@, edges[first].0 as int);
    } else {
        lemma_same_lists(edges, b.edges@, cur[w] as int);
    }
    lemma_list_step(edges, moved[w] as int);
    lemma_chain(edges, moved[w] as int, now);
    lemma_mark_in(a, m, now, first);
    lemma_mark_in(m, b, now, back);
    // the edge itself is before no cursor any more
    if now.contains(first) {
        if w == node {
            let k = choose|k: int| 0 <= k < now.len() && now[k] == first;
            assert(was[k + 1] == first);
        } else {
            assert(was.contains(first));
            assert(a.adj(w).contains(first));
        }
    }
    // its twin is before the cursor of the node the edge leads to
    if w == v {
        assert(was.contains(back));
        if w == node {
            let k = choose|k: int| 0 <= k < was.len() && was[k] == back;
            assert(now[k - 1] == back);
        }
        assert(now.contains(back));
    } else if now.contains(back) {
        if w == node {
            let k = choose|k: int| 0 <= k < now.len() && now[k] == back;
            assert(was[k + 1] == back);
        }
        assert(was.contains(back));
        assert(a.adj(w).contains(back));
    }
}

/// After an edge is passed, the edges not passed can form a trail from the
/// node the edge leads to.
proof fn lemma_pass_even<V, E>(
    a: &Graph<V, E>,
    m: &Graph<V, E>,
    b: &Graph<V, E>,
    cur: Seq<usize>,
    node: int,
    to: int,
) where V: Default + Clone, E: Default + Clone + Flag
    requires
        passing(a, m, b, cur, node),
        even_but(a, cur, node, to),
    ensures
        even_but(
            b,
            cur.update(node, a.edges@[cur[node] as int].0),
            a.edges@[cur[node] as int].1 as int,
            to,
        ),
{
    let moved = cur.update(node, a.edges@[cur[node] as int].0);
    let v = a.edges@[cur[node] as int].1 as int;
    assert forall|w: int| 0 <= w < moved.len() implies (unpassed_in(
        b,
        #[trigger] list_of(b.edges@, moved[w] as int),
    ) + one_if(w, v) + one_if(w, to)) % 2 == 0 by {
        lemma_pass_count(a, m, b, cur, node, w);
        assert((unpassed_in(a, list_of(a.edges@, cur[w] as int)) + one_if(w, node) + one_if(w, to))
            % 2 == 0);
    }
}

/// A node that no unpassed edge leaves any more, from which a trail can be
/// formed, is the node at which the trail ends.
proof fn lemma_even_end<V, E>(graph: &Graph<V, E>, cur: Seq<usize>, node: int, to: int) where
    V: Default + Clone,
    E: Default + Clone + Flag,

    requires
        cursors_ok(graph.edges@, cur),
        0 <= node < cur.len(),
        0 <= to < cur.len(),
        cur[node] == 0,
        even_but(graph, cur, node, to),
    ensures
        node == to,
{
    lemma_list_step(graph.edges@, cur[node] as int);
    assert(list_of(graph.edges@, cur[node] as int).len() == 0);
    assert((unpassed_in(graph, list_of(graph.edges@, cur[node] as int)) + one_if(node, node)
        + one_if(node, to)) % 2 == 0);
}

/// Edges of which every node has an even number have so whatever node is
/// named.
proof fn lemma_even_any<V, E>(graph: &Graph<V, E>, cur: Seq<usize>, a: int, b: int) where
    V: Default + Clone,
    E: Default + Clone + Flag,

    requires
        even_but(graph, cur, a, a),
    ensures
        even_but(graph, cur, b, b),
{
    assert forall|w: int| 0 <= w < cur.len() implies (unpassed_in(
        graph,
        #[trigger] list_of(graph.edges@, cur[w] as int),
    ) + one_if(w, b) + one_if(w, b)) % 2 == 0 by {
        assert((unpassed_in(graph, list_of(graph.edges@, cur[w] as int)) + one_if(w, a) + one_if(
            w,
            a,
        )) % 2 == 0);
    }
}

/// Marks the edge with index `idx` as passed.
fn mark<V, E>(graph: &mut Graph<V, E>, idx: usize) where
    V: Default + Clone,
    E: Default + Clone + Flag,

    requires
        idx < old(graph).edges@.len(),
    ensures
        same_links(old(graph).edges@, final(graph).edges@),
        final(graph).edges@[idx as int].2.is_set(),
        forall|e: int|
            0 <= e < old(graph).edges@.len() && e != idx ==> final(graph).edges@[e] == old(graph).edges@[e],
        final(graph).nodes@ == old(graph).nodes@,
        final(graph).head@ == old(graph).head@,
        final(graph).erased@ == old(graph).erased@,
{
    let (_, _, info) = graph.get_edge_mut(idx);
    info.set(true);
}

/// Cursors on the lists of their nodes stay so in a graph with the same
/// links and heads.
proof fn lemma_within_same<V, E>(a: &Graph<V, E>, b: &Graph<V, E>, cur: Seq<usize>) where
    V: Default + Clone,
    E: Default + Clone,

    requires
        a.wf(),
        same_links(a.edges@, b.edges@),
        b.head@ == a.head@,
        cursors_ok(a.edges@, cur),
        within_adj(a, cur),
    ensures
        within_adj(b, cur),
{
    lemma_adj_same(a, b);
    assert forall|v: int, e: int|
        0 <= v < cur.len() && #[trigger] list_of(b.edges@, cur[v] as int).contains(
            e,
        ) implies #[trigger] b.adj(v).contains(e) by {
        lemma_same_lists(a.edges@, b.edges@, cur[v] as int);
        assert(list_of(a.edges@, cur[v] as int).contains(e));
        assert(a.adj(v).contains(e));
        assert(b.adj(v) == a.adj(v));
    }
}

/// Graphs with the same links lead to the same nodes along a path of real
/// edges.
proof fn lemma_targets_same<V, E>(a: &Graph<V, E>, b: &Graph<V, E>, path: Seq<int>) where
    V: Default + Clone,
    E: Default + Clone,

    requires
        same_links(a.edges@, b.edges@),
        forall|k: int| 0 <= k < path.len() ==> 0 < #[trigger] path[k] < a.edges@.len(),
    ensures
        targets(b, path) == targets(a, path),
{
    assert forall|k: int| 0 <= k < path.len() implies targets(b, path)[k] == targets(a, path)[k] by {
        assert(0 < path[k] < a.edges@.len());
        assert(a.edges@[path[k]].1 == b.edges@[path[k]].1);
    }
    assert(targets(b, path) =~= targets(a, path));
}

/// An edge not passed, a trail of edges not passed from where it leads,
/// and a trail of passed edges from where that ends make one trail.
proof fn lemma_tour_grows<V, E>(
    a: &Graph<V, E>,
    c: &Graph<V, E>,
    node: int,
    e: int,
    part: Seq<int>,
    aim: int,
    trail: Seq<int>,
    to: int,
) where V: Default + Clone, E: Default + Clone + Flag
    requires
        a.wf(),
        same_links(a.edges@, c.edges@),
        c.head@ == a.head@,
        paired(a),
        0 <= node < a.head@.len(),
        a.adj(node).contains(e),
        0 < e < a.edges@.len(),
        unpassed(a, e),
        is_tour(c, a.edges@[e].1 as int, part, aim),
        trail.len() == 0 ==> aim == to,
        trail.len() > 0 ==> aim == node && is_tour(a, node, trail, to),
        forall|k: int|
            0 <= k < part.len() ==> 0 < #[trigger] part[k] < a.edges@.len() && part[k] != e
                && part[k] != twin_spec(e) && unpassed(a, part[k]),
        forall|k: int|
            0 <= k < trail.len() ==> 0 < #[trigger] trail[k] < a.edges@.len() && !unpassed(
                a,
                trail[k],
            ),
    ensures
        is_tour(c, node, seq![e] + part + trail, to),
        targets(c, seq![e] + part + trail) == seq![a.edges@[e].1] + targets(c, part) + targets(
            a,
            trail,
        ),
{
    let first = seq![e];
    let all = first + part + trail;
    lemma_adj_same(a, c);
    assert(c.adj(node) == a.adj(node));
    assert(c.edges@[e].1 == a.edges@[e].1);
    assert(a.edges@[e].1 < a.nodes@.len());
    assert(first.drop_last() =~= Seq::<int>::empty());
    assert(walk_ok(c, node, first.drop_last()));
    assert(walk_end(c, node, first.drop_last()) == node);
    assert(first.last() == e);
    assert(walk_ok(c, node, first));
    lemma_walk_concat(c, node, first, part);
    if trail.len() > 0 {
        lemma_walk_same(a, c, node, trail);
    } else {
        assert(walk_ok(c, aim, trail));
    }
    lemma_walk_concat(c, node, first + part, trail);
    lemma_targets_same(a, c, trail);
    assert(targets(c, all) =~= seq![a.edges@[e].1] + targets(c, part) + targets(c, trail));
    assert forall|j: int, k: int| 0 <= j < k < all.len() implies all[j] != all[k] && all[j]
        != twin_spec(all[k]) by {
        if k > part.len() {
            let y = trail[k - 1 - part.len()];
            assert(all[k] == y);
            assert(!unpassed(a, y));
            assert(same_mark(a, y));
            if j == 0 {
                assert(all[j] == e);
            } else if j <= part.len() {
                assert(all[j] == part[j - 1]);
                assert(unpassed(a, part[j - 1]));
            } else {
                assert(all[j] == trail[j - 1 - part.len()]);
            }
        } else {
            let y = part[k - 1];
            assert(all[k] == y);
            assert(twin_spec(twin_spec(y)) == y);
            if j == 0 {
                assert(all[j] == e);
            } else {
                assert(all[j] == part[j - 1]);
            }
        }
    }
}

/// The marks that two steps of marking leave: the edge and its twin are
/// marked, and no other mark has changed.
proof fn lemma_marked<V, E>(a: &Graph<V, E>, m: &Graph<V, E>, b: &Graph<V, E>, idx: int, back: int) where
    V: Default + Clone,
    E: Default + Clone + Flag,

    requires
        0 <= idx < a.edges@.len(),
        0 <= back < a.edges@.len(),
        a.edges@.len() == m.edges@.len(),
        m.edges@.len() == b.edges@.len(),
        m.edges@[idx].2.is_set(),
        forall|e: int| 0 <= e < a.edges@.len() && e != idx ==> m.edges@[e] == a.edges@[e],
        b.edges@[back].2.is_set(),
        forall|e: int| 0 <= e < a.edges@.len() && e != back ==> b.edges@[e] == m.edges@[e],
    ensures
        forall|e: int| 0 <= e < a.edges@.len() && e != idx ==> #[trigger] unpassed(m, e) == unpassed(a, e),
        !unpassed(m, idx),
        forall|e: int| 0 <= e < a.edges@.len() && e != back ==> #[trigger] unpassed(b, e) == unpassed(m, e),
        !unpassed(b, back),
        forall|e: int| 0 <= e < a.edges@.len() && !unpassed(a, e) ==> !#[trigger] unpassed(b, e),
{
    assert forall|e: int| 0 <= e < a.edges@.len() && !unpassed(a, e) implies !#[trigger] unpassed(
        b,
        e,
    ) by {
        if e != back {
            assert(b.edges@[e] == m.edges@[e]);
            if e != idx {
                assert(m.edges@[e] == a.edges@[e]);
            }
        }
    }
}

/// What must hold for the walk from `node` to give a trail to `to`: the
/// edges stand in pairs, those not passed are before the cursors, and
/// they can form a trail from `node` to `to`.
pub open spec fn fair_from<V, E>(graph: &Graph<V, E>, cur: Seq<usize>, node: int, to: int) -> bool where
    V: Default + Clone,
    E: Default + Clone + Flag,
 {
    &&& paired(graph)
    &&& ahead(graph, cur)
    &&& 0 <= to < cur.len()
    &&& even_but(graph, cur, node, to)
}

/// The marks of the edges, slot by slot.
pub open spec fn marks_of<V, E>(graph: &Graph<V, E>) -> Seq<bool> where
    V: Default + Clone,
    E: Default + Clone + Flag,
 {
    Seq::new(graph.edges@.len(), |e: int| graph.edges@[e].2.is_set())
}

/// The depth-first walk from `node` in a graph whose edges stand twice,
/// in twin slots: at every node it takes the edges before the cursor in
/// the order of the list, steps over an edge that is marked, marks an edge
/// that is not, and the twin of it, and goes on from the node that edge
/// leads to before it takes the next. The result holds the nodes in the
/// order in which the walk leaves them for the last time, the cursors when
/// it ends, and the marks then. `fuel` bounds the number of edges taken.
pub open spec fn tour_with<E>(
    edges: Seq<(usize, usize, E)>,
    marks: Seq<bool>,
    cur: Seq<usize>,
    node: int,
    fuel: nat,
) -> (Seq<usize>, Seq<usize>, Seq<bool>)
    decreases fuel,
{
    if fuel == 0 || !(0 <= node < cur.len()) || cur[node] == 0 {
        (seq![node as usize], cur, marks)
    } else {
        let at = cur[node] as int;
        let moved = cur.update(node, edges[at].0);
        if marks[at] {
            tour_with(edges, marks, moved, node, (fuel - 1) as nat)
        } else {
            let first = tour_with(
                edges,
                marked_at(marks, at),
                moved,
                edges[at].1 as int,
                (fuel - 1) as nat,
            );
            let rest = tour_with(edges, first.2, first.1, node, (fuel - 1) as nat);
            (first.0 + rest.0, rest.1, rest.2)
        }
    }
}

/// The depth-first walk from `node` over all the edges it comes to.
#[verifier::opaque]
pub open spec fn tour_all<E>(
    edges: Seq<(usize, usize, E)>,
    marks: Seq<bool>,
    cur: Seq<usize>,
    node: int,
) -> (Seq<usize>, Seq<usize>, Seq<bool>) {
    tour_with(edges, marks, cur, node, remaining(edges, cur) + 1)
}

/// The walk takes no more edges than are before the cursors: with more
/// fuel than that it is the same walk. It leaves the cursors in order.
pub proof fn lemma_tour_fuel<E>(
    edges: Seq<(usize, usize, E)>,
    marks: Seq<bool>,
    cur: Seq<usize>,
    node: int,
    fuel: nat,
)
    requires
        cursors_ok(edges, cur),
        0 <= node < cur.len(),
        fuel > remaining(edges, cur),
    ensures
        tour_with(edges, marks, cur, node, fuel) == tour_all(edges, marks, cur, node),
        cursors_ok(edges, tour_all(edges, marks, cur, node).1),
        tour_all(edges, marks, cur, node).1.len() == cur.len(),
        remaining(edges, tour_all(edges, marks, cur, node).1) <= remaining(edges, cur),
    decreases remaining(edges, cur),
{
    reveal(tour_all);
    if cur[node] != 0 {
        lemma_remaining_step(edges, cur, node);
        let at = cur[node] as int;
        let moved = cur.update(node, edges[at].0);
        assert(cursors_ok(edges, moved));
        if marks[at] {
            lemma_tour_fuel(edges, marks, moved, node, (fuel - 1) as nat);
            lemma_tour_fuel(edges, marks, moved, node, remaining(edges, cur));
        } else {
            let v = edges[at].1 as int;
            let marked = marked_at(marks, at);
            lemma_tour_fuel(edges, marked, moved, v, (fuel - 1) as nat);
            lemma_tour_fuel(edges, marked, moved, v, remaining(edges, cur));
            let first = tour_all(edges, marked, moved, v);
            lemma_tour_fuel(edges, first.2, first.1, node, (fuel - 1) as nat);
            lemma_tour_fuel(edges, first.2, first.1, node, remaining(edges, cur));
        }
    }
}

/// The walk from a node whose cursor is at the end of its list ends
/// there.
pub proof fn lemma_tour_end<E>(
    edges: Seq<(usize, usize, E)>,
    marks: Seq<bool>,
    cur: Seq<usize>,
    node: int,
)
    requires
        0 <= node < cur.len(),
        cur[node] == 0,
    ensures
        tour_all(edges, marks, cur, node) == (seq![node as usize], cur, marks),
{
    reveal(tour_all);
}

/// The walk steps over a marked edge before the cursor of its node.
pub proof fn lemma_tour_skip<E>(
    edges: Seq<(usize, usize, E)>,
    marks: Seq<bool>,
    cur: Seq<usize>,
    node: int,
)
    requires
        cursors_ok(edges, cur),
        0 <= node < cur.len(),
        cur[node] != 0,
        marks[cur[node] as int],
    ensures
        tour_all(edges, marks, cur, node) == tour_all(
            edges,
            marks,
            cur.update(node, edges[cur[node] as int].0),
            node,
        ),
{
    lemma_remaining_step(edges, cur, node);
    let moved = cur.update(node, edges[cur[node] as int].0);
    assert(cursors_ok(edges, moved));
    lemma_tour_fuel(edges, marks, cur, node, remaining(edges, cur) + 1);
    lemma_tour_fuel(edges, marks, moved, node, remaining(edges, cur));
}

/// The marks after the edge in slot `at` and its twin have been marked.
pub open spec fn marked_at(marks: Seq<bool>, at: int) -> Seq<bool> {
    marks.update(at, true).update(twin_spec(at), true)
}

/// The walk takes an edge before the cursor of its node that is not
/// marked: it marks the edge and its twin, is the walk from the node the
/// edge leads to, and then the walk from the node again.
pub proof fn lemma_tour_step<E>(
    edges: Seq<(usize, usize, E)>,
    marks: Seq<bool>,
    cur: Seq<usize>,
    node: int,
)
    requires
        cursors_ok(edges, cur),
        0 <= node < cur.len(),
        cur[node] != 0,
        !marks[cur[node] as int],
    ensures
        tour_all(edges, marks, cur, node).0 == tour_all(
            edges,
            marked_at(marks, cur[node] as int),
            cur.update(node, edges[cur[node] as int].0),
            edges[cur[node] as int].1 as int,
        ).0 + tour_all(
            edges,
            tour_all(
                edges,
                marked_at(marks, cur[node] as int),
                cur.update(node, edges[cur[node] as int].0),
                edges[cur[node] as int].1 as int,
            ).2,
            tour_all(
                edges,
                marked_at(marks, cur[node] as int),
                cur.update(node, edges[cur[node] as int].0),
                edges[cur[node] as int].1 as int,
            ).1,
            node,
        ).0,
        tour_all(edges, marks, cur, node).1 == tour_all(
            edges,
            tour_all(
                edges,
                marked_at(marks, cur[node] as int),
                cur.update(node, edges[cur[node] as int].0),
                edges[cur[node] as int].1 as int,
            ).2,
            tour_all(
                edges,
                marked_at(marks, cur[node] as int),
                cur.update(node, edges[cur[node] as int].0),
                edges[cur[node] as int].1 as int,
            ).1,
            node,
        ).1,
        tour_all(edges, marks, cur, node).2 == tour_all(
            edges,
            tour_all(
                edges,
                marked_at(marks, cur[node] as int),
                cur.update(node, edges[cur[node] as int].0),
                edges[cur[node] as int].1 as int,
            ).2,
            tour_all(
                edges,
                marked_at(marks, cur[node] as int),
                cur.update(node, edges[cur[node] as int].0),
                edges[cur[node] as int].1 as int,
            ).1,
            node,
        ).2,
{
    lemma_remaining_step(edges, cur, node);
    let at = cur[node] as int;
    let moved = cur.update(node, edges[at].0);
    let v = edges[at].1 as int;
    assert(cursors_ok(edges, moved));
    lemma_tour_fuel(edges, marks, cur, node, remaining(edges, cur) + 1);
    lemma_tour_fuel(edges, marked_at(marks, at), moved, v, remaining(edges, cur));
    let first = tour_all(edges, marked_at(marks, at), moved, v);
    lemma_tour_fuel(edges, first.2, first.1, node, remaining(edges, cur));
}

/// The walk depends on the links of the edges alone.
pub proof fn lemma_tour_same<E>(
    a: Seq<(usize, usize, E)>,
    b: Seq<(usize, usize, E)>,
    marks: Seq<bool>,
    cur: Seq<usize>,
    node: int,
)
    requires
        same_links(a, b),
        cursors_ok(a, cur),
        0 <= node < cur.len(),
    ensures
        tour_all(b, marks, cur, node) == tour_all(a, marks, cur, node),
    decreases remaining(a, cur),
{
    lemma_same_remaining(a, b, cur);
    if cur[node] == 0 {
        lemma_tour_end(a, marks, cur, node);
        lemma_tour_end(b, marks, cur, node);
    } else {
        lemma_remaining_step(a, cur, node);
        let at = cur[node] as int;
        assert(a[at].0 == b[at].0 && a[at].1 == b[at].1);
        let moved = cur.update(node, a[at].0);
        assert(cursors_ok(a, moved));
        if marks[at] {
            lemma_tour_skip(a, marks, cur, node);
            lemma_tour_skip(b, marks, cur, node);
            lemma_tour_same(a, b, marks, moved, node);
        } else {
            lemma_tour_step(a, marks, cur, node);
            lemma_tour_step(b, marks, cur, node);
            let v = a[at].1 as int;
            lemma_tour_same(a, b, marked_at(marks, at), moved, v);
            let first = tour_all(a, marked_at(marks, at), moved, v);
            lemma_tour_fuel(a, marked_at(marks, at), moved, v, remaining(a, moved) + 1);
            lemma_tour_same(a, b, first.2, first.1, node);
        }
    }
}

/// The mark of the edge in slot `e` after the edges of `path` have been
/// passed: it is not marked if and only if it was not and neither it nor
/// its twin is on `path`.
pub open spec fn mark_kept<V, E>(before: &Graph<V, E>, after: &Graph<V, E>, path: Seq<int>, e: int) -> bool where
    V: Default + Clone,
    E: Default + Clone + Flag,
 {
    unpassed(after, e) == (unpassed(before, e) && !path.contains(e) && !path.contains(
        twin_spec(e),
    ))
}

/// The marks of `after` are those of `before` and those of the edges of
/// `path` and of their twins.
pub open spec fn marks_from<V, E>(before: &Graph<V, E>, after: &Graph<V, E>, path: Seq<int>) -> bool where
    V: Default + Clone,
    E: Default + Clone + Flag,
 {
    forall|e: int| 1 <= e < before.edges@.len() ==> #[trigger] mark_kept(before, after, path, e)
}

/// Edge `e` leaves one of `nodes`, from place `from` on.
pub open spec fn leaves_any<V, E>(graph: &Graph<V, E>, nodes: Seq<usize>, from: int, e: int) -> bool where
    V: Default + Clone,
    E: Default + Clone,
 {
    exists|i: int| from <= i < nodes.len() && #[trigger] graph.adj(nodes[i] as int).contains(e)
}

/// No edge of the graph has been passed.
pub open spec fn fresh<V, E>(graph: &Graph<V, E>) -> bool where
    V: Default + Clone,
    E: Default + Clone + Flag,
 {
    forall|e: int| 1 <= e < graph.edges@.len() ==> #[trigger] unpassed(graph, e)
}

/// What an edge followed by two sequences of edges holds.
proof fn lemma_contains_three(e: int, t: Seq<int>, rest: Seq<int>, x: int)
    ensures
        (seq![e] + t + rest).contains(x) <==> x == e || t.contains(x) || rest.contains(x),
{
    let all = seq![e] + t + rest;
    if all.contains(x) {
        let k = choose|k: int| 0 <= k < all.len() && all[k] == x;
        if k == 0 {
        } else if k <= t.len() {
            assert(t[k - 1] == x);
        } else {
            assert(rest[k - 1 - t.len()] == x);
        }
    }
    if x == e {
        assert(all[0] == x);
    }
    if t.contains(x) {
        let k = choose|k: int| 0 <= k < t.len() && t[k] == x;
        assert(all[k + 1] == x);
    }
    if rest.contains(x) {
        let k = choose|k: int| 0 <= k < rest.len() && rest[k] == x;
        assert(all[k + 1 + t.len()] == x);
    }
}

/// The marks after an edge has been passed, then the edges of `part`, when
/// those of `trail` had been passed before: `first` is the graph at the
/// start, `a` the graph after `trail`, `b` the graph with the edge and its
/// twin marked, `c` the graph after `part`.
proof fn lemma_marks_grow<V, E>(
    first: &Graph<V, E>,
    a: &Graph<V, E>,
    b: &Graph<V, E>,
    c: &Graph<V, E>,
    idx: int,
    part: Seq<int>,
    trail: Seq<int>,
) where V: Default + Clone, E: Default + Clone + Flag
    requires
        first.edges@.len() == a.edges@.len(),
        a.edges@.len() == b.edges@.len(),
        1 <= idx < a.edges@.len(),
        1 <= twin_spec(idx) < a.edges@.len(),
        marks_from(first, a, trail),
        marks_from(b, c, part),
        !unpassed(b, idx),
        !unpassed(b, twin_spec(idx)),
        forall|e: int|
            0 <= e < a.edges@.len() && e != idx && e != twin_spec(idx) ==> #[trigger] unpassed(b, e)
                == unpassed(a, e),
    ensures
        marks_from(first, c, seq![idx] + part + trail),
{
    let grown = seq![idx] + part + trail;
    assert forall|e: int| 1 <= e < first.edges@.len() implies #[trigger] mark_kept(
        first,
        c,
        grown,
        e,
    ) by {
        assert(mark_kept(first, a, trail, e));
        assert(mark_kept(b, c, part, e));
        lemma_contains_three(idx, part, trail, e);
        lemma_contains_three(idx, part, trail, twin_spec(e));
        assert(twin_spec(twin_spec(e)) == e);
        assert(twin_spec(twin_spec(idx)) == idx);
        if e != idx && e != twin_spec(idx) {
            assert(unpassed(b, e) == unpassed(a, e));
        }
    }
}

/// Moving the cursor of `node` over its first edge keeps every edge that
/// is not marked before the cursor of its node, if that first edge is
/// marked by then and no mark has been taken away.
proof fn lemma_ahead_on<V, E>(a: &Graph<V, E>, b: &Graph<V, E>, cur: Seq<usize>, node: int) where
    V: Default + Clone,
    E: Default + Clone + Flag,

    requires
        a.wf(),
        same_links(a.edges@, b.edges@),
        b.head@ == a.head@,
        cursors_ok(a.edges@, cur),
        cur.len() == a.head@.len(),
        0 <= node < cur.len(),
        cur[node] != 0,
        ahead(a, cur),
        !unpassed(b, cur[node] as int),
        forall|e: int| 0 <= e < a.edges@.len() && !unpassed(a, e) ==> !#[trigger] unpassed(b, e),
    ensures
        ahead(b, cur.update(node, a.edges@[cur[node] as int].0)),
{
    let edges = a.edges@;
    let first = cur[node] as int;
    let moved = cur.update(node, edges[first].0);
    lemma_list_step(edges, first);
    let old_list = list_of(edges, first);
    let new_list = list_of(edges, edges[first].0 as int);
    assert(old_list.drop_first() =~= new_list);
    lemma_adj_same(a, b);
    assert forall|w: int| 0 <= w < moved.len() implies #[trigger] list_of(
        b.edges@,
        moved[w] as int,
    ) == list_of(edges, moved[w] as int) by {
        if w == node {
            lemma_same_lists(edges, b.edges@, edges[first].0 as int);
        } else {
            lemma_same_lists(edges, b.edges@, cur[w] as int);
        }
    }
    assert forall|u: int, e: int|
        0 <= u < b.head@.len() && #[trigger] b.adj(u).contains(e) && unpassed(
            b,
            e,
        ) implies #[trigger] list_of(b.edges@, moved[u] as int).contains(e) by {
        assert(b.adj(u) == a.adj(u));
        lemma_list_step(edges, a.head@[u] as int);
        lemma_list_in_range(edges, a.head@[u] as int, a.adj(u));
        let at = choose|at: int| 0 <= at < a.adj(u).len() && a.adj(u)[at] == e;
        assert(0 < a.adj(u)[at] < edges.len());
        assert(unpassed(a, e));
        assert(e != first);
        assert(list_of(edges, cur[u] as int).contains(e));
        assert(list_of(b.edges@, moved[u] as int) == list_of(edges, moved[u] as int));
        if u == node {
            let k = choose|k: int| 0 <= k < old_list.len() && old_list[k] == e;
            assert(new_list[k - 1] == e);
        }
    }
}

/// Walks from `node` along edges not yet passed in either direction, as
/// deep as they go, marks each edge it passes and the twin of it, and
/// appends every node to `res` when the walk has come back to it for the
/// last time. The edges passed, which are returned, are different edges
/// that were not marked and leave the nodes appended; the nodes appended
/// are, in reverse, `node` and the nodes they lead to; the cursor of every
/// node appended is at the end of its list; and the marks are those from
/// before and those of the edges passed and their twins. Where the edges
/// not passed can form a trail from `node` to `to`, the edges passed are
/// such a trail.
#[verifier::rlimit(100)]
#[verifier::spinoff_prover]
fn dfs_undirected<V, E>(
    node: usize,
    graph: &mut Graph<V, E>,
    cur: &mut Vec<usize>,
    res: &mut Vec<usize>,
    Ghost(to): Ghost<int>,
) -> (out: Ghost<Seq<int>>) where V: Default + Clone, E: Default + Clone + Flag
    requires
        old(graph).wf(),
        cursors_ok(old(graph).edges@, old(cur)@),
        within_adj(old(graph), old(cur)@),
        ahead(old(graph), old(cur)@),
        old(graph).edges@.len() % 2 == 1,
        node < old(cur)@.len(),
    ensures
        final(graph).wf(),
        same_links(old(graph).edges@, final(graph).edges@),
        final(graph).edges@[0] == old(graph).edges@[0],
        final(graph).nodes@ == old(graph).nodes@,
        final(graph).head@ == old(graph).head@,
        final(graph).erased@ == old(graph).erased@,
        cursors_ok(old(graph).edges@, final(cur)@),
        within_adj(final(graph), final(cur)@),
        ahead(final(graph), final(cur)@),
        final(cur)@.len() == old(cur)@.len(),
        final(res)@.len() + remaining(old(graph).edges@, final(cur)@) <= old(res)@.len()
            + remaining(old(graph).edges@, old(cur)@) + 1,
        final(res)@.len() > old(res)@.len(),
        final(res)@.subrange(0, old(res)@.len() as int) == old(res)@,
        final(res)@.last() == node,
        forall|i: int| old(res)@.len() <= i < final(res)@.len() ==> final(res)@[i] < final(cur)@.len(),
        forall|i: int|
            old(res)@.len() <= i < final(res)@.len() ==> final(cur)@[#[trigger] final(res)@[i] as int]
                == 0,
        forall|w: int|
            0 <= w < old(cur)@.len() && old(cur)@[w] == 0 ==> #[trigger] final(cur)@[w] == 0,
        forall|e: int|
            0 <= e < old(graph).edges@.len() && !unpassed(old(graph), e) ==> !#[trigger] unpassed(
                final(graph),
                e,
            ),
        final(res)@.subrange(old(res)@.len() as int, final(res)@.len() as int) == tour_all(
            old(graph).edges@,
            marks_of(old(graph)),
            old(cur)@,
            node as int,
        ).0,
        final(cur)@ == tour_all(old(graph).edges@, marks_of(old(graph)), old(cur)@, node as int).1,
        marks_of(final(graph)) == tour_all(
            old(graph).edges@,
            marks_of(old(graph)),
            old(cur)@,
            node as int,
        ).2,
        marks_from(old(graph), final(graph), out@),
        distinct(out@),
        final(res)@.subrange(old(res)@.len() as int, final(res)@.len() as int).reverse() == seq![node]
            + targets(final(graph), out@),
        forall|k: int|
            0 <= k < out@.len() ==> 0 < #[trigger] out@[k] < old(graph).edges@.len() && unpassed(
                old(graph),
                out@[k],
            ) && !unpassed(final(graph), out@[k]) && leaves_any(
                old(graph),
                final(res)@,
                old(res)@.len() as int,
                out@[k],
            ),
        fair_from(old(graph), old(cur)@, node as int, to) ==> fair_from(
            final(graph),
            final(cur)@,
            to,
            to,
        ) && is_tour(final(graph), node as int, out@, to),
    decreases remaining(old(graph).edges@, old(cur)@),
{
    let ghost first = res@;
    let ghost links = graph.edges@;
    let ghost fair = fair_from(&*graph, cur@, node as int, to);
    let ghost mut trail: Seq<int> = Seq::empty();
    proof {
        lemma_same_links(links, links, links);
        assert(res@.subrange(first.len() as int, res@.len() as int).reverse() =~= targets(
            &*graph,
            trail,
        ));
        assert forall|e: int| 1 <= e < links.len() implies #[trigger] mark_kept(
            old(graph),
            &*graph,
            trail,
            e,
        ) by {}
        assert(res@.subrange(first.len() as int, res@.len() as int) + tour_all(
            links,
            marks_of(&*graph),
            cur@,
            node as int,
        ).0 =~= tour_all(links, marks_of(&*graph), cur@, node as int).0);
    }
    while cur[node] != 0
        invariant
            graph.wf(),
            old(graph).wf(),
            same_links(links, graph.edges@),
            links == old(graph).edges@,
            graph.edges@[0] == links[0],
            graph.nodes@ == old(graph).nodes@,
            graph.head@ == old(graph).head@,
            graph.erased@ == old(graph).erased@,
            cursors_ok(links, cur@),
            within_adj(&*graph, cur@),
            ahead(&*graph, cur@),
            links.len() % 2 == 1,
            cur@.len() == old(cur)@.len(),
            node < cur@.len(),
            res@.len() >= first.len(),
            first == old(res)@,
            res@.len() + remaining(links, cur@) <= first.len() + remaining(links, old(cur)@),
            res@.subrange(0, first.len() as int) == first,
            forall|i: int| first.len() <= i < res@.len() ==> res@[i] < cur@.len(),
            forall|i: int| first.len() <= i < res@.len() ==> cur@[#[trigger] res@[i] as int] == 0,
            forall|w: int| 0 <= w < cur@.len() && old(cur)@[w] == 0 ==> #[trigger] cur@[w] == 0,
            forall|e: int|
                0 <= e < links.len() && !unpassed(old(graph), e) ==> !#[trigger] unpassed(
                    &*graph,
                    e,
                ),
            fair == fair_from(old(graph), old(cur)@, node as int, to),
            fair ==> paired(&*graph) && 0 <= to < cur@.len(),
            fair && trail.len() == 0 ==> even_but(&*graph, cur@, node as int, to),
            fair && trail.len() > 0 ==> even_but(&*graph, cur@, node as int, node as int) && is_tour(
                &*graph,
                node as int,
                trail,
                to,
            ),
            tour_all(links, marks_of(old(graph)), old(cur)@, node as int).0 == res@.subrange(
                first.len() as int,
                res@.len() as int,
            ) + tour_all(links, marks_of(&*graph), cur@, node as int).0,
            tour_all(links, marks_of(old(graph)), old(cur)@, node as int).1 == tour_all(
                links,
                marks_of(&*graph),
                cur@,
                node as int,
            ).1,
            tour_all(links, marks_of(old(graph)), old(cur)@, node as int).2 == tour_all(
                links,
                marks_of(&*graph),
                cur@,
                node as int,
            ).2,
            marks_from(old(graph), &*graph, trail),
            distinct(trail),
            res@.subrange(first.len() as int, res@.len() as int).reverse() == targets(
                &*graph,
                trail,
            ),
            forall|k: int|
                0 <= k < trail.len() ==> 0 < #[trigger] trail[k] < links.len() && unpassed(
                    old(graph),
                    trail[k],
                ) && !unpassed(&*graph, trail[k]) && (old(graph).adj(node as int).contains(trail[k])
                    || leaves_any(old(graph), res@, first.len() as int, trail[k])),
        decreases remaining(links, cur@),
    {
        let ghost before = cur@;
        let ghost a = *graph;
        let ghost aim = if trail.len() == 0 {
            to
        } else {
            node as int
        };
        proof {
            lemma_remaining_step(links, cur@, node as int);
            lemma_same_links(links, a.edges@, a.edges@);
            lemma_same_remaining(links, a.edges@, before);
            lemma_rest_step(&a, before, node as int, 0);
            lemma_list_step(links, before[node as int] as int);
            assert(a.edges@[before[node as int] as int].0 == links[before[node as int] as int].0);
            lemma_adj_same(old(graph), &a);
            assert(a.adj(node as int).contains(before[node as int] as int));
        }
        let idx = cur[node];
        let next = graph.edges[idx].0;
        let v = graph.edges[idx].1;
        cur.set(node, next);
        let ghost moved = cur@;
        proof {
            assert(cursors_ok(links, moved));
            lemma_same_remaining(links, a.edges@, moved);
            assert forall|i: int| first.len() <= i < res@.len() implies moved[#[trigger] res@[i] as int]
                == 0 by {
                assert(before[res@[i] as int] == 0);
            }
            assert forall|w: int| 0 <= w < moved.len() && old(cur)@[w] == 0 implies #[trigger] moved[w]
                == 0 by {
                assert(before[w] == 0);
            }
        }
        if !graph.edges[idx].2.get() {
            mark(graph, idx);
            let ghost m = *graph;
            assert(graph.edges@.len() == graph.edges.len());
            let back = twin(idx);
            mark(graph, back);
            let ghost b = *graph;
            proof {
                lemma_same_links(a.edges@, m.edges@, b.edges@);
                lemma_same_links(links, a.edges@, b.edges@);
                lemma_wf_same(&a, &b);
                lemma_within_same(&a, &b, moved);
                lemma_same_remaining(a.edges@, b.edges@, moved);
                lemma_same_remaining(a.edges@, links, moved);
                lemma_marked(&a, &m, &b, idx as int, back as int);
                assert(!unpassed(&b, idx as int)) by {
                    if idx != back {
                        assert(unpassed(&b, idx as int) == unpassed(&m, idx as int));
                    }
                }
                lemma_same_links(a.edges@, a.edges@, a.edges@);
                assert(cursors_ok(a.edges@, before)) by {
                    assert forall|w: int| 0 <= w < before.len() implies has_list(
                        a.edges@,
                        #[trigger] before[w] as int,
                    ) by {
                        lemma_same_lists(links, a.edges@, before[w] as int);
                    }
                }
                lemma_ahead_on(&a, &b, before, node as int);
                assert(marks_of(&b) =~= marked_at(marks_of(&a), idx as int));
                lemma_tour_step(links, marks_of(&a), before, node as int);
                lemma_tour_same(links, b.edges@, marks_of(&b), moved, v as int);
                if fair {
                    assert(passing(&a, &m, &b, before, node as int));
                    lemma_passing_slots(&a, &m, &b, before, node as int);
                    lemma_pass_paired(&a, &m, &b, before, node as int);
                    lemma_pass_even(&a, &m, &b, before, node as int, aim);
                }
            }
            let ghost held = res@;
            let Ghost(part) = dfs_undirected(v, graph, cur, res, Ghost(aim));
            proof {
                let c = *graph;
                let grown = seq![idx as int] + part + trail;
                assert(res@.subrange(first.len() as int, res@.len() as int) =~= held.subrange(
                    first.len() as int,
                    held.len() as int,
                ) + res@.subrange(held.len() as int, res@.len() as int)) by {
                    assert(res@.subrange(0, held.len() as int) == held);
                    assert forall|i: int| first.len() <= i < held.len() implies res@[i]
                        == held[i] by {
                        assert(res@.subrange(0, held.len() as int)[i] == held[i]);
                    }
                }
                assert(tour_all(links, marks_of(old(graph)), old(cur)@, node as int).0
                    =~= res@.subrange(first.len() as int, res@.len() as int) + tour_all(
                    links,
                    marks_of(&c),
                    cur@,
                    node as int,
                ).0);
                lemma_same_links(links, b.edges@, c.edges@);
                lemma_same_links(a.edges@, b.edges@, c.edges@);
                lemma_same_links(links, b.edges@, b.edges@);
                lemma_same_remaining(b.edges@, links, cur@);
                lemma_same_remaining(b.edges@, links, moved);
                lemma_adj_same(old(graph), &b);
                assert(res@.subrange(0, first.len() as int) =~= held.subrange(
                    0,
                    first.len() as int,
                ));
                assert forall|i: int| first.len() <= i < res@.len() implies res@[i] < cur@.len()
                    && cur@[#[trigger] res@[i] as int] == 0 by {
                    if i < held.len() {
                        assert(res@.subrange(0, held.len() as int)[i] == held[i]);
                        assert(moved[held[i] as int] == 0);
                    }
                }
                assert forall|w: int| 0 <= w < cur@.len() && old(cur)@[w] == 0 implies #[trigger] cur@[w]
                    == 0 by {
                    assert(moved[w] == 0);
                }
                assert forall|e: int|
                    0 <= e < links.len() && !unpassed(old(graph), e) implies !#[trigger] unpassed(
                    &c,
                    e,
                ) by {
                    assert(!unpassed(&a, e));
                    assert(!unpassed(&b, e));
                }
                assert forall|k: int| 0 <= k < part.len() implies 0 < #[trigger] part[k]
                    < a.edges@.len() && part[k] != idx && part[k] != twin_spec(idx as int)
                    && unpassed(&a, part[k]) by {
                    assert(unpassed(&b, part[k]));
                    if part[k] != back {
                        assert(unpassed(&b, part[k]) == unpassed(&m, part[k]));
                        if part[k] != idx {
                            assert(unpassed(&m, part[k]) == unpassed(&a, part[k]));
                        }
                    }
                }
                assert forall|k: int| 0 <= k < trail.len() implies 0 < #[trigger] trail[k]
                    < a.edges@.len() && !unpassed(&a, trail[k]) by {}
                assert forall|j: int, k: int|
                    0 <= j < part.len() && 0 <= k < trail.len() implies part[j] != trail[k] by {
                    assert(unpassed(&a, part[j]));
                    assert(!unpassed(&a, trail[k]));
                }
                lemma_distinct_concat(idx as int, part, trail);
                assert forall|e: int|
                    0 <= e < a.edges@.len() && e != idx && e != twin_spec(
                        idx as int,
                    ) implies #[trigger] unpassed(&b, e) == unpassed(&a, e) by {
                    assert(unpassed(&b, e) == unpassed(&m, e));
                    assert(unpassed(&m, e) == unpassed(&a, e));
                }
                lemma_marks_grow(old(graph), &a, &b, &c, idx as int, part, trail);
                lemma_targets_concat(&c, idx as int, part, trail);
                lemma_targets_same(&a, &c, trail);
                if fair {
                    lemma_even_any(&c, cur@, aim, node as int);
                    lemma_tour_grows(&a, &c, node as int, idx as int, part, aim, trail, to);
                }
                assert forall|k: int| 0 <= k < grown.len() implies 0 < #[trigger] grown[k]
                    < links.len() && unpassed(old(graph), grown[k]) && !unpassed(&c, grown[k]) && (old(
                    graph,
                ).adj(node as int).contains(grown[k]) || leaves_any(
                    old(graph),
                    res@,
                    first.len() as int,
                    grown[k],
                )) by {
                    if k == 0 {
                        assert(grown[k] == idx);
                        assert(!unpassed(&b, idx as int));
                        if unpassed(old(graph), idx as int) == false {
                            assert(!unpassed(&a, idx as int));
                        }
                    } else if k <= part.len() {
                        assert(grown[k] == part[k - 1]);
                        if unpassed(old(graph), part[k - 1]) == false {
                            assert(!unpassed(&a, part[k - 1]));
                        }
                        assert(leaves_any(&b, res@, held.len() as int, part[k - 1]));
                        let i = choose|i: int|
                            held.len() <= i < res@.len() && #[trigger] b.adj(res@[i] as int).contains(
                                part[k - 1],
                            );
                        assert(old(graph).adj(res@[i] as int).contains(part[k - 1]));
                    } else {
                        let y = trail[k - 1 - part.len()];
                        assert(grown[k] == y);
                        assert(!unpassed(&a, y));
                        assert(!unpassed(&b, y));
                        if !old(graph).adj(node as int).contains(y) {
                            assert(leaves_any(old(graph), held, first.len() as int, y));
                            let i = choose|i: int|
                                first.len() <= i < held.len() && #[trigger] old(graph).adj(
                                    held[i] as int,
                                ).contains(y);
                            assert(res@.subrange(0, held.len() as int)[i] == held[i]);
                            assert(old(graph).adj(res@[i] as int).contains(y));
                        }
                    }
                }
                let was = held.subrange(first.len() as int, held.len() as int);
                let new = res@.subrange(held.len() as int, res@.len() as int);
                assert(res@.subrange(first.len() as int, res@.len() as int) =~= was + new) by {
                    assert(res@.subrange(0, held.len() as int) == held);
                    assert forall|i: int| 0 <= i < was.len() implies was[i] == res@[first.len() + i] by {
                        assert(res@.subrange(0, held.len() as int)[first.len() + i] == held[first.len()
                            + i]);
                    }
                }
                lemma_reverse_concat(was, new);
                assert(c.edges@[idx as int].1 == v);
                trail = grown;
            }
        } else {
            proof {
                lemma_same_links(a.edges@, a.edges@, a.edges@);
                assert(cursors_ok(a.edges@, before)) by {
                    assert forall|w: int| 0 <= w < before.len() implies has_list(
                        a.edges@,
                        #[trigger] before[w] as int,
                    ) by {
                        lemma_same_lists(links, a.edges@, before[w] as int);
                    }
                }
                lemma_ahead_on(&a, &a, before, node as int);
                lemma_tour_skip(links, marks_of(&a), before, node as int);
                lemma_step_over(&a, before, node as int, aim, fair);
                if fair && trail.len() > 0 {
                    assert(aim == node);
                }
            }
        }
    }
    let ghost held = res@;
    res.push(node);
    proof {
        assert(res@.subrange(0, first.len() as int) =~= held.subrange(0, first.len() as int));
        assert forall|i: int| first.len() <= i < res@.len() implies res@[i] < cur@.len()
            && cur@[#[trigger] res@[i] as int] == 0 by {
            if i < held.len() {
                assert(res@[i] == held[i]);
            }
        }
        lemma_same_remaining(links, graph.edges@, cur@);
        lemma_tour_end(links, marks_of(&*graph), cur@, node as int);
        assert forall|k: int| 0 <= k < trail.len() implies leaves_any(
            old(graph),
            res@,
            first.len() as int,
            #[trigger] trail[k],
        ) by {
            if old(graph).adj(node as int).contains(trail[k]) {
                assert(old(graph).adj(res@[held.len() as int] as int).contains(trail[k]));
            } else {
                let i = choose|i: int|
                    first.len() <= i < held.len() && #[trigger] old(graph).adj(
                        held[i] as int,
                    ).contains(trail[k]);
                assert(res@[i] == held[i]);
                assert(old(graph).adj(res@[i] as int).contains(trail[k]));
            }
        }
        if fair {
            if trail.len() == 0 {
                lemma_even_end(&*graph, cur@, node as int, to);
                assert(walk_ok(&*graph, node as int, trail));
            } else {
                lemma_even_any(&*graph, cur@, node as int, to);
            }
        }
        let was = held.subrange(first.len() as int, held.len() as int);
        assert(res@.subrange(first.len() as int, res@.len() as int) =~= was + seq![node]);
        lemma_reverse_concat(was, seq![node]);
        assert(seq![node].reverse() =~= seq![node]);
    }
    Ghost(trail)
}

/// Every edge that leaves one of `nodes` is on `path`, or its twin is.
pub open spec fn edges_passed<V, E>(graph: &Graph<V, E>, nodes: Seq<usize>, path: Seq<int>) -> bool where
    V: Default + Clone,
    E: Default + Clone,
 {
    forall|i: int, e: int|
        0 <= i < nodes.len() && #[trigger] graph.adj(nodes[i] as int).contains(e) ==> path.contains(
            e,
        ) || path.contains(twin_spec(e))
}

/// Where `nodes` are `start` and the nodes that the edges of `path` lead
/// to, every edge of `path` leaves one of them, and every edge that leaves
/// one of them is on `path` in one direction or the other, every node that
/// `start` reaches is one of them.
proof fn lemma_reached_toured<V, E>(
    graph: &Graph<V, E>,
    start: usize,
    path: Seq<int>,
    nodes: Seq<usize>,
    walk: Seq<int>,
) where V: Default + Clone, E: Default + Clone + Flag
    requires
        graph.wf(),
        paired(graph),
        nodes == seq![start] + targets(graph, path),
        forall|i: int| 0 <= i < nodes.len() ==> nodes[i] < graph.nodes@.len(),
        forall|k: int| 0 <= k < path.len() ==> leaves_any(graph, nodes, 0, #[trigger] path[k]),
        edges_passed(graph, nodes, path),
        walk_ok(graph, start as int, walk),
    ensures
        listed(nodes, walk_end(graph, start as int, walk)),
    decreases walk.len(),
{
    if walk.len() == 0 {
        assert(nodes[0] == start);
    } else {
        lemma_reached_toured(graph, start, path, nodes, walk.drop_last());
        let w = walk_end(graph, start as int, walk.drop_last());
        let e = walk.last();
        let i = choose|i: int| 0 <= i < nodes.len() && #[trigger] nodes[i] == w;
        assert(graph.adj(nodes[i] as int).contains(e));
        if path.contains(e) {
            let k = choose|k: int| 0 <= k < path.len() && path[k] == e;
            assert(nodes[k + 1] == targets(graph, path)[k]);
        } else {
            let k = choose|k: int| 0 <= k < path.len() && path[k] == twin_spec(e);
            assert(leaves_any(graph, nodes, 0, path[k]));
            let j = choose|j: int|
                0 <= j < nodes.len() && #[trigger] graph.adj(nodes[j] as int).contains(path[k]);
            assert(leads_back(graph, w, e));
            lemma_list_step(graph.edges@, graph.head@[w] as int);
            lemma_list_in_range(graph.edges@, graph.head@[w] as int, graph.adj(w));
            let at = choose|at: int| 0 <= at < graph.adj(w).len() && graph.adj(w)[at] == e;
            assert(0 < graph.adj(w)[at] < graph.edges@.len());
            let x = graph.edges@[e].1 as int;
            assert(graph.edges@[e].1 < graph.nodes@.len());
            if nodes[j] != x {
                assert(graph.adj(x).contains(twin_spec(e)));
                assert(!graph.adj(nodes[j] as int).contains(twin_spec(e)));
            }
            assert(nodes[j] == x);
        }
    }
}

/// Hierholzer's algorithm for undirected graph, in which every edge
/// stands twice, once for each direction, in slots that are twins.
///
/// Returns the nodes of the depth-first walk from `start`, which takes the
/// edges of every node in the order of its list and steps over those that
/// are marked, in the reverse of the order in which the walk leaves them
/// for the last time. They are `start` and then the node that each edge
/// passed leads to. The edges passed are different edges that were not
/// marked, and each leaves a node of the result; they and their twins are
/// marked afterwards, and no other mark changes. No edge that leaves a
/// node of the result is left unmarked. Only the marks of the graph
/// change.
///
/// Where the edges stand in pairs and none is marked, every edge that
/// leaves a node that `start` reaches is marked afterwards.
///
/// Where the edges stand in pairs and the numbers of unmarked edges at the
/// nodes allow a trail from `start` to a node `end`, the edges passed form
/// one, in the order of the result: each leaves the node that the one
/// before it leads to, none is passed twice, in whatever direction, and
/// the last leads to `end`.
pub fn hierholzer_undirected<V, E>(start: usize, graph: &mut Graph<V, E>) -> (out: Vec<usize>) where
    V: Default + Clone,
    E: Default + Clone + Flag,

    requires
        old(graph).wf(),
        old(graph).edges@.len() % 2 == 1,
        start < old(graph).nodes@.len(),
    ensures
        final(graph).wf(),
        same_links(old(graph).edges@, final(graph).edges@),
        final(graph).edges@[0] == old(graph).edges@[0],
        final(graph).nodes@ == old(graph).nodes@,
        final(graph).head@ == old(graph).head@,
        final(graph).erased@ == old(graph).erased@,
        out@ == tour_all(
            old(graph).edges@,
            marks_of(old(graph)),
            old(graph).head@,
            start as int,
        ).0.reverse(),
        marks_of(final(graph)) == tour_all(
            old(graph).edges@,
            marks_of(old(graph)),
            old(graph).head@,
            start as int,
        ).2,
        1 <= out@.len() <= remaining(old(graph).edges@, old(graph).head@) + 1,
        out@[0] == start,
        forall|i: int| 0 <= i < out@.len() ==> out@[i] < old(graph).nodes@.len(),
        exists|path: Seq<int>|
            #[trigger] marks_from(old(graph), final(graph), path) && distinct(path) && out@
                == seq![start] + targets(final(graph), path) && (forall|k: int|
                0 <= k < path.len() ==> 0 < #[trigger] path[k] < old(graph).edges@.len()
                    && unpassed(old(graph), path[k]) && leaves_any(old(graph), out@, 0, path[k]))
                && (forall|end: int|
                fair_from(old(graph), old(graph).head@, start as int, end) ==> is_tour(
                    final(graph),
                    start as int,
                    path,
                    end,
                )),
        forall|i: int, e: int|
            0 <= i < out@.len() && #[trigger] old(graph).adj(out@[i] as int).contains(e)
                ==> !unpassed(final(graph), e),
        paired(old(graph)) && fresh(old(graph)) ==> forall|w: int, e: int|
            #[trigger] reaches(old(graph), start as int, w) && #[trigger] old(graph).adj(w).contains(e)
                ==> !unpassed(final(graph), e),
{
    let mut cur = cursors(&graph.head);
    let mut res: Vec<usize> = Vec::new();
    let ghost to = choose|end: int| fair_from(&*graph, graph.head@, start as int, end);
    proof {
        assert forall|v: int, e: int|
            0 <= v < cur@.len() && #[trigger] list_of(graph.edges@, cur@[v] as int).contains(
                e,
            ) implies #[trigger] graph.adj(v).contains(e) by {}
        assert(ahead(&*graph, cur@));
    }
    let Ghost(path) = dfs_undirected(start, graph, &mut cur, &mut res, Ghost(to));
    let out = reversed(&res);
    proof {
        let lists = old(graph);
        assert(res@.subrange(0, res@.len() as int) =~= res@);
        assert(out@ =~= res@.reverse());
        lemma_adj_same(lists, &*graph);
        assert forall|k: int| 0 <= k < path.len() implies 0 < #[trigger] path[k] < lists.edges@.len()
            && unpassed(lists, path[k]) && leaves_any(lists, out@, 0, path[k]) by {
            assert(leaves_any(lists, res@, 0, path[k]));
            let i = choose|i: int|
                0 <= i < res@.len() && #[trigger] lists.adj(res@[i] as int).contains(path[k]);
            assert(out@[res@.len() - 1 - i] == res@[i]);
            assert(lists.adj(out@[res@.len() - 1 - i] as int).contains(path[k]));
        }
        assert forall|i: int, e: int|
            0 <= i < out@.len() && #[trigger] lists.adj(out@[i] as int).contains(
                e,
            ) implies !unpassed(&*graph, e) by {
            let x = out@[i] as int;
            assert(out@[i] == res@[res@.len() - 1 - i]);
            assert(cur@[x] == 0);
            assert(graph.adj(x) == lists.adj(x));
            if unpassed(&*graph, e) {
                assert(list_of(graph.edges@, cur@[x] as int).contains(e));
                lemma_same_lists(lists.edges@, graph.edges@, 0);
                lemma_list_step(graph.edges@, 0);
            }
        }
        assert forall|end: int|
            fair_from(lists, lists.head@, start as int, end) implies is_tour(
            &*graph,
            start as int,
            path,
            end,
        ) by {
            // the numbers of edges at the nodes allow one end only
            assert((unpassed_in(lists, list_of(lists.edges@, lists.head@[end] as int)) + one_if(
                end,
                start as int,
            ) + one_if(end, end)) % 2 == 0);
            assert((unpassed_in(lists, list_of(lists.edges@, lists.head@[end] as int)) + one_if(
                end,
                start as int,
            ) + one_if(end, to)) % 2 == 0);
            assert(end == to);
        }
        if paired(lists) && fresh(lists) {
            lemma_targets_same(lists, &*graph, path);
            assert forall|i: int, e: int|
                0 <= i < out@.len() && #[trigger] lists.adj(out@[i] as int).contains(
                    e,
                ) implies path.contains(e) || path.contains(twin_spec(e)) by {
                let x = out@[i] as int;
                lemma_list_step(lists.edges@, lists.head@[x] as int);
                lemma_list_in_range(lists.edges@, lists.head@[x] as int, lists.adj(x));
                let at = choose|at: int| 0 <= at < lists.adj(x).len() && lists.adj(x)[at] == e;
                assert(0 < lists.adj(x)[at] < lists.edges@.len());
                assert(!unpassed(&*graph, e));
                assert(unpassed(lists, e));
                assert(mark_kept(lists, &*graph, path, e));
            }
            assert forall|w: int, e: int|
                #[trigger] reaches(lists, start as int, w) && #[trigger] lists.adj(w).contains(
                    e,
                ) implies !unpassed(&*graph, e) by {
                let walk = choose|walk: Seq<int>|
                    walk_ok(lists, start as int, walk) && #[trigger] walk_end(
                        lists,
                        start as int,
                        walk,
                    ) == w;
                lemma_reached_toured(lists, start, path, out@, walk);
                let i = choose|i: int| 0 <= i < out@.len() && #[trigger] out@[i] == w;
                assert(lists.adj(out@[i] as int).contains(e));
            }
        }
    }
    out
}

} // verus!
