//! Strongly connected components, by Tarjan's algorithm.
use vstd::prelude::*;
use super::dijkstra::{lemma_walk_concat, target, walk_end, walk_ok};
use super::{lemma_list_in_range, lemma_list_step, Graph};

verus! {

/// The number of entries that are 0.
pub open spec fn count_zero(s: Seq<usize>) -> nat
    decreases s.len(),
{
    if s.len() == 0 {
        0
    } else {
        count_zero(s.drop_last()) + if s.last() == 0 {
            1nat
        } else {
            0nat
        }
    }
}

/// Overwriting a 0 entry with another number leaves one 0 entry less.
pub proof fn lemma_count_zero_set(s: Seq<usize>, i: int, value: usize)
    requires
        0 <= i < s.len(),
        s[i] == 0,
        value != 0,
    ensures
        count_zero(s.update(i, value)) + 1 == count_zero(s),
    decreases s.len(),
{
    if i == s.len() - 1 {
        assert(s.update(i, value).drop_last() =~= s.drop_last());
    } else {
        lemma_count_zero_set(s.drop_last(), i, value);
        assert(s.update(i, value).drop_last() =~= s.drop_last().update(i, value));
    }
}

/// A sequence of zeros has as many 0 entries as it is long.
pub proof fn lemma_count_zero_all(s: Seq<usize>)
    requires
        forall|i: int| 0 <= i < s.len() ==> s[i] == 0,
    ensures
        count_zero(s) == s.len(),
    decreases s.len(),
{
    if s.len() > 0 {
        lemma_count_zero_all(s.drop_last());
    }
}

/// The state of the search between two steps. `dfn` numbers the nodes in
/// the order in which they were met, from 1, with 0 for a node not met;
/// `low` is the low link of a node; `stack` holds the nodes that were met
/// and have no component yet; `scc` holds the component of a node, from 1,
/// with 0 for none; `cnt` nodes were met and `sc` components were found.
/// While the nodes of a new component leave the stack and none has left
/// yet, `pending` is 1, else 0.
pub open spec fn search_ok(
    nodes: int,
    dfn: Seq<usize>,
    low: Seq<usize>,
    stack: Seq<usize>,
    in_stack: Seq<bool>,
    scc: Seq<usize>,
    cnt: usize,
    sc: usize,
    pending: int,
) -> bool {
    &&& dfn.len() == nodes
    &&& low.len() == nodes
    &&& in_stack.len() == nodes
    &&& scc.len() == nodes
    &&& nodes <= usize::MAX
    &&& cnt + count_zero(dfn) == nodes
    &&& sc + stack.len() <= cnt + pending
    &&& forall|v: int| 0 <= v < nodes ==> (#[trigger] low[v]) <= dfn[v] && dfn[v] <= cnt
    &&& forall|p: int|
        0 <= p < stack.len() ==> (#[trigger] stack[p]) < nodes && dfn[stack[p] as int] != 0
            && in_stack[stack[p] as int]
    &&& forall|p: int, q: int|
        0 <= p < q < stack.len() ==> dfn[#[trigger] stack[p] as int] < dfn[#[trigger] stack[q] as int]
    &&& forall|v: int| 0 <= v < nodes && #[trigger] in_stack[v] ==> stack.contains(v as usize)
    &&& forall|v: int| 0 <= v < nodes && #[trigger] in_stack[v] ==> scc[v] == 0
    &&& forall|v: int| 0 <= v < nodes && (#[trigger] dfn[v]) == 0 ==> scc[v] == 0 && !in_stack[v]
    &&& forall|v: int|
        0 <= v < nodes && (#[trigger] dfn[v]) != 0 ==> in_stack[v] || 1 <= scc[v] <= sc
    &&& forall|p: int| 0 <= p < stack.len() ==> #[trigger] anchored(dfn, low, stack, p)
    &&& forall|k: int| 1 <= k <= sc - pending ==> #[trigger] labelled(scc, k)
}

/// The low link of the node at place `p` of the stack is the number of a
/// node at or below that place.
pub open spec fn anchored(dfn: Seq<usize>, low: Seq<usize>, stack: Seq<usize>, p: int) -> bool {
    exists|q: int| 0 <= q <= p && low[stack[p] as int] == dfn[#[trigger] stack[q] as int]
}

/// Some node has the component `k`.
pub open spec fn labelled(scc: Seq<usize>, k: int) -> bool {
    exists|v: int| 0 <= v < scc.len() && #[trigger] scc[v] == k
}

/// There is a walk from `a` to `b`.
pub open spec fn reaches<V, E>(graph: &Graph<V, E>, a: int, b: int) -> bool where
    V: Default + Clone,
    E: Default + Clone,
 {
    exists|path: Seq<int>| walk_ok(graph, a, path) && #[trigger] walk_end(graph, a, path) == b
}

/// There are walks from `a` to `b` and back: the two nodes are strongly
/// connected.
pub open spec fn mutual<V, E>(graph: &Graph<V, E>, a: int, b: int) -> bool where
    V: Default + Clone,
    E: Default + Clone,
 {
    reaches(graph, a, b) && reaches(graph, b, a)
}

/// Every node reaches itself.
pub proof fn lemma_reach_refl<V, E>(graph: &Graph<V, E>, a: int) where
    V: Default + Clone,
    E: Default + Clone,

    ensures
        reaches(graph, a, a),
{
    let path = Seq::<int>::empty();
    assert(walk_ok(graph, a, path) && walk_end(graph, a, path) == a);
}

/// A node reaches the node that one of its edges leads to.
pub proof fn lemma_reach_edge<V, E>(graph: &Graph<V, E>, a: int, k: int) where
    V: Default + Clone,
    E: Default + Clone,

    requires
        0 <= k < graph.adj(a).len(),
    ensures
        reaches(graph, a, target(graph, graph.adj(a)[k])),
{
    let e = graph.adj(a)[k];
    let path = seq![e];
    assert(path.drop_last() =~= Seq::<int>::empty());
    assert(walk_ok(graph, a, path.drop_last()));
    assert(walk_end(graph, a, path.drop_last()) == a);
    assert(graph.adj(a).contains(e));
    assert(path.last() == e);
    assert(walk_ok(graph, a, path) && walk_end(graph, a, path) == target(graph, e));
}

/// A node reaches what a node it reaches reaches.
pub proof fn lemma_reach_trans<V, E>(graph: &Graph<V, E>, a: int, b: int, c: int) where
    V: Default + Clone,
    E: Default + Clone,

    requires
        reaches(graph, a, b),
        reaches(graph, b, c),
    ensures
        reaches(graph, a, c),
{
    let first = choose|path: Seq<int>|
        walk_ok(graph, a, path) && #[trigger] walk_end(graph, a, path) == b;
    let second = choose|path: Seq<int>|
        walk_ok(graph, b, path) && #[trigger] walk_end(graph, b, path) == c;
    lemma_walk_concat(graph, a, first, second);
    assert(walk_ok(graph, a, first + second) && walk_end(graph, a, first + second) == c);
}

/// The `k`-th edge that leaves `w` leads to a node that has a component.
pub open spec fn labelled_edge<V, E>(graph: &Graph<V, E>, scc: Seq<usize>, w: int, k: int) -> bool where
    V: Default + Clone,
    E: Default + Clone,
 {
    scc[target(graph, graph.adj(w)[k])] != 0
}

/// The labels are those of strongly connected components, as far as nodes
/// have one: no edge leads from a node that has a component to a node
/// that has none; nodes with the same component are strongly connected;
/// and a node that is strongly connected with one that has a component
/// has the same.
pub open spec fn labels_ok<V, E>(graph: &Graph<V, E>, scc: Seq<usize>) -> bool where
    V: Default + Clone,
    E: Default + Clone,
 {
    &&& scc.len() == graph.nodes@.len()
    &&& forall|w: int, k: int|
        0 <= w < scc.len() && scc[w] != 0 && 0 <= k < graph.adj(w).len() ==> #[trigger] labelled_edge(
            graph,
            scc,
            w,
            k,
        )
    &&& forall|a: int, b: int|
        0 <= a < scc.len() && 0 <= b < scc.len() && scc[a] != 0 && scc[a] == scc[b]
            ==> #[trigger] mutual(graph, a, b)
    &&& forall|a: int, y: int|
        0 <= a < scc.len() && 0 <= y < scc.len() && scc[a] != 0 && #[trigger] mutual(graph, a, y)
            ==> scc[y] == scc[a]
}

/// A walk from a node that has a component ends at a node that has one.
proof fn lemma_closed_walk<V, E>(graph: &Graph<V, E>, scc: Seq<usize>, a: int, path: Seq<int>) where
    V: Default + Clone,
    E: Default + Clone,

    requires
        graph.wf(),
        scc.len() == graph.nodes@.len(),
        forall|w: int, k: int|
            0 <= w < scc.len() && scc[w] != 0 && 0 <= k < graph.adj(w).len()
                ==> #[trigger] labelled_edge(graph, scc, w, k),
        0 <= a < scc.len(),
        scc[a] != 0,
        walk_ok(graph, a, path),
    ensures
        0 <= walk_end(graph, a, path) < scc.len(),
        scc[walk_end(graph, a, path)] != 0,
    decreases path.len(),
{
    if path.len() > 0 {
        lemma_closed_walk(graph, scc, a, path.drop_last());
        let w = walk_end(graph, a, path.drop_last());
        let k = choose|k: int| 0 <= k < graph.adj(w).len() && graph.adj(w)[k] == path.last();
        assert(labelled_edge(graph, scc, w, k));
        lemma_list_step(graph.edges@, graph.head@[w] as int);
        lemma_list_in_range(graph.edges@, graph.head@[w] as int, graph.adj(w));
        assert(0 < graph.adj(w)[k] < graph.edges@.len());
    }
}

/// The `k`-th edge that leaves `w` has been looked at: it leads to a node
/// that has a component, or to a node on the stack whose number is no
/// less than the low link of `w`.
pub open spec fn edge_done<V, E>(
    graph: &Graph<V, E>,
    dfn: Seq<usize>,
    low: Seq<usize>,
    in_stack: Seq<bool>,
    scc: Seq<usize>,
    w: int,
    k: int,
) -> bool where V: Default + Clone, E: Default + Clone {
    let x = target(graph, graph.adj(w)[k]);
    scc[x] != 0 || (in_stack[x] && low[w] <= dfn[x])
}

/// The first `upto` edges that leave `w` have been looked at.
pub open spec fn edges_done<V, E>(
    graph: &Graph<V, E>,
    dfn: Seq<usize>,
    low: Seq<usize>,
    in_stack: Seq<bool>,
    scc: Seq<usize>,
    w: int,
    upto: int,
) -> bool where V: Default + Clone, E: Default + Clone {
    forall|k: int| 0 <= k < upto ==> #[trigger] edge_done(graph, dfn, low, in_stack, scc, w, k)
}

/// The node at place `q` of the stack has been dealt with in the search
/// from `u`: its low link is below its number and no less than that of
/// `u`, `u` reaches it, and all its edges have been looked at.
pub open spec fn settled<V, E>(
    graph: &Graph<V, E>,
    dfn: Seq<usize>,
    low: Seq<usize>,
    stack: Seq<usize>,
    in_stack: Seq<bool>,
    scc: Seq<usize>,
    u: int,
    q: int,
) -> bool where V: Default + Clone, E: Default + Clone {
    let w = stack[q] as int;
    &&& low[w] < dfn[w]
    &&& low[u] <= low[w]
    &&& reaches(graph, u, w)
    &&& edges_done(graph, dfn, low, in_stack, scc, w, graph.adj(w).len() as int)
}

/// Every node above place `place` of the stack has been dealt with in the
/// search from `u`.
pub open spec fn region_ok<V, E>(
    graph: &Graph<V, E>,
    dfn: Seq<usize>,
    low: Seq<usize>,
    stack: Seq<usize>,
    in_stack: Seq<bool>,
    scc: Seq<usize>,
    place: int,
    u: int,
) -> bool where V: Default + Clone, E: Default + Clone {
    forall|q: int|
        place < q < stack.len() ==> #[trigger] settled(graph, dfn, low, stack, in_stack, scc, u, q)
}

/// The node at place `p` of the stack reaches the node, at or below that
/// place, whose number is its low link.
pub open spec fn reach_anchor<V, E>(
    graph: &Graph<V, E>,
    dfn: Seq<usize>,
    low: Seq<usize>,
    stack: Seq<usize>,
    p: int,
) -> bool where V: Default + Clone, E: Default + Clone {
    exists|q: int|
        0 <= q <= p && low[stack[p] as int] == dfn[#[trigger] stack[q] as int] && reaches(
            graph,
            stack[p] as int,
            stack[q] as int,
        )
}

/// Every node on the stack reaches the node whose number is its low link.
pub open spec fn anchors_ok<V, E>(
    graph: &Graph<V, E>,
    dfn: Seq<usize>,
    low: Seq<usize>,
    stack: Seq<usize>,
) -> bool where V: Default + Clone, E: Default + Clone {
    forall|p: int| 0 <= p < stack.len() ==> #[trigger] reach_anchor(graph, dfn, low, stack, p)
}

/// Node `w` is on the stack at or above place `place`.
pub open spec fn in_segment(stack: Seq<usize>, place: int, w: int) -> bool {
    exists|q: int| place <= q < stack.len() && #[trigger] stack[q] == w
}

/// What the search knows when the node `u`, at place `place` of the
/// stack, turns out to be the root of a component: its low link is its
/// own number, all its edges have been looked at, and every node above it
/// has been dealt with.
pub open spec fn at_root<V, E>(
    graph: &Graph<V, E>,
    dfn: Seq<usize>,
    low: Seq<usize>,
    stack: Seq<usize>,
    in_stack: Seq<bool>,
    scc: Seq<usize>,
    cnt: usize,
    sc: usize,
    place: int,
) -> bool where V: Default + Clone, E: Default + Clone {
    let u = stack[place] as int;
    &&& graph.wf()
    &&& search_ok(graph.nodes@.len() as int, dfn, low, stack, in_stack, scc, cnt, sc, 0)
    &&& labels_ok(graph, scc)
    &&& anchors_ok(graph, dfn, low, stack)
    &&& 0 <= place < stack.len()
    &&& low[u] == dfn[u]
    &&& region_ok(graph, dfn, low, stack, in_stack, scc, place, u)
    &&& edges_done(graph, dfn, low, in_stack, scc, u, graph.adj(u).len() as int)
}

/// At the root of a component, every edge from a node of the segment
/// leads to a node that has a component or to a node of the segment.
proof fn lemma_segment_edges<V, E>(
    graph: &Graph<V, E>,
    dfn: Seq<usize>,
    low: Seq<usize>,
    stack: Seq<usize>,
    in_stack: Seq<bool>,
    scc: Seq<usize>,
    cnt: usize,
    sc: usize,
    place: int,
    q: int,
    k: int,
) where V: Default + Clone, E: Default + Clone
    requires
        at_root(graph, dfn, low, stack, in_stack, scc, cnt, sc, place),
        place <= q < stack.len(),
        0 <= k < graph.adj(stack[q] as int).len(),
    ensures
        0 <= target(graph, graph.adj(stack[q] as int)[k]) < dfn.len(),
        scc[target(graph, graph.adj(stack[q] as int)[k])] != 0 || in_segment(
            stack,
            place,
            target(graph, graph.adj(stack[q] as int)[k]),
        ),
{
    let u = stack[place] as int;
    let w = stack[q] as int;
    let x = target(graph, graph.adj(w)[k]);
    assert(stack[q] < dfn.len());
    lemma_list_step(graph.edges@, graph.head@[w] as int);
    lemma_list_in_range(graph.edges@, graph.head@[w] as int, graph.adj(w));
    assert(0 < graph.adj(w)[k] < graph.edges@.len());
    if q > place {
        assert(settled(graph, dfn, low, stack, in_stack, scc, u, q));
    }
    assert(edge_done(graph, dfn, low, in_stack, scc, w, k));
    if scc[x] == 0 {
        assert(stack.contains(x as usize));
        let px = choose|px: int| 0 <= px < stack.len() && stack[px] == x as usize;
        if px < place {
            assert(dfn[stack[px] as int] < dfn[stack[place] as int]);
        }
        assert(stack[px] == x);
    }
}

/// At the root of a component, every node of the segment reaches the
/// root.
proof fn lemma_segment_back<V, E>(
    graph: &Graph<V, E>,
    dfn: Seq<usize>,
    low: Seq<usize>,
    stack: Seq<usize>,
    in_stack: Seq<bool>,
    scc: Seq<usize>,
    cnt: usize,
    sc: usize,
    place: int,
    q: int,
) where V: Default + Clone, E: Default + Clone
    requires
        at_root(graph, dfn, low, stack, in_stack, scc, cnt, sc, place),
        place <= q < stack.len(),
    ensures
        reaches(graph, stack[q] as int, stack[place] as int),
        reaches(graph, stack[place] as int, stack[q] as int),
    decreases q,
{
    let u = stack[place] as int;
    if q == place {
        lemma_reach_refl(graph, u);
    } else {
        assert(settled(graph, dfn, low, stack, in_stack, scc, u, q));
        assert(reach_anchor(graph, dfn, low, stack, q));
        let at = choose|at: int|
            0 <= at <= q && low[stack[q] as int] == dfn[#[trigger] stack[at] as int] && reaches(
                graph,
                stack[q] as int,
                stack[at] as int,
            );
        if at == q {
            assert(false);
        }
        if at < place {
            assert(dfn[stack[at] as int] < dfn[stack[place] as int]);
        }
        lemma_segment_back(graph, dfn, low, stack, in_stack, scc, cnt, sc, place, at);
        lemma_reach_trans(graph, stack[q] as int, stack[at] as int, u);
    }
}

/// The labels after the segment has got the new component `label`.
pub open spec fn labels_after(stack: Seq<usize>, scc: Seq<usize>, place: int, label: usize) -> Seq<
    usize,
> {
    Seq::new(
        scc.len(),
        |w: int|
            if in_segment(stack, place, w) {
                label
            } else {
                scc[w]
            },
    )
}

/// At the root of a component, the segment is a strongly connected
/// component: giving it a new label keeps the labels in order.
proof fn lemma_component<V, E>(
    graph: &Graph<V, E>,
    dfn: Seq<usize>,
    low: Seq<usize>,
    stack: Seq<usize>,
    in_stack: Seq<bool>,
    scc: Seq<usize>,
    cnt: usize,
    sc: usize,
    place: int,
    label: usize,
) where V: Default + Clone, E: Default + Clone
    requires
        at_root(graph, dfn, low, stack, in_stack, scc, cnt, sc, place),
        label == sc + 1,
    ensures
        labels_ok(graph, labels_after(stack, scc, place, label)),
{
    let done = labels_after(stack, scc, place, label);
    let n = scc.len() as int;
    let u = stack[place] as int;
    // a node of the segment has no component yet; a node with one is not on the stack
    assert forall|w: int| in_segment(stack, place, w) implies 0 <= w < n && scc[w] == 0 by {
        let q = choose|q: int| place <= q < stack.len() && #[trigger] stack[q] == w;
        assert(stack[q] < n);
        assert(in_stack[stack[q] as int]);
    }
    assert forall|w: int, k: int|
        0 <= w < n && done[w] != 0 && 0 <= k < graph.adj(w).len() implies #[trigger] labelled_edge(
        graph,
        done,
        w,
        k,
    ) by {
        if in_segment(stack, place, w) {
            let q = choose|q: int| place <= q < stack.len() && #[trigger] stack[q] == w;
            lemma_segment_edges(graph, dfn, low, stack, in_stack, scc, cnt, sc, place, q, k);
        } else {
            assert(labelled_edge(graph, scc, w, k));
            lemma_list_step(graph.edges@, graph.head@[w] as int);
            lemma_list_in_range(graph.edges@, graph.head@[w] as int, graph.adj(w));
            assert(0 < graph.adj(w)[k] < graph.edges@.len());
        }
    }
    assert forall|a: int, b: int|
        0 <= a < n && 0 <= b < n && done[a] != 0 && done[a] == done[b] implies #[trigger] mutual(
        graph,
        a,
        b,
    ) by {
        if in_segment(stack, place, a) {
            assert(scc[b] <= sc) by {
                assert(low[b] <= dfn[b]);
            }
            assert(in_segment(stack, place, b));
            let qa = choose|q: int| place <= q < stack.len() && #[trigger] stack[q] == a;
            let qb = choose|q: int| place <= q < stack.len() && #[trigger] stack[q] == b;
            lemma_segment_back(graph, dfn, low, stack, in_stack, scc, cnt, sc, place, qa);
            lemma_segment_back(graph, dfn, low, stack, in_stack, scc, cnt, sc, place, qb);
            lemma_reach_trans(graph, a, u, b);
            lemma_reach_trans(graph, b, u, a);
        } else {
            assert(scc[a] <= sc) by {
                assert(low[a] <= dfn[a]);
            }
            assert(!in_segment(stack, place, b));
            assert(mutual(graph, a, b));
        }
    }
    assert forall|a: int, y: int|
        0 <= a < n && 0 <= y < n && done[a] != 0 && #[trigger] mutual(graph, a, y) implies done[y]
        == done[a] by {
        if in_segment(stack, place, a) {
            // `y` is reached from the segment, so it has a component or is in the
            // segment; and it reaches the segment, so it has no component
            let there = choose|path: Seq<int>|
                walk_ok(graph, a, path) && #[trigger] walk_end(graph, a, path) == y;
            lemma_closed_walk(graph, done, a, there);
            if !in_segment(stack, place, y) {
                let back = choose|path: Seq<int>|
                    walk_ok(graph, y, path) && #[trigger] walk_end(graph, y, path) == a;
                lemma_closed_walk(graph, scc, y, back);
            }
        } else {
            assert(scc[y] == scc[a]);
            assert(!in_segment(stack, place, y));
        }
    }
}

/// Giving the node `u`, which is at place `place` of the stack, the
/// number of a node at or below that place as its low link keeps the
/// state of the search in order.
proof fn lemma_low_link(
    nodes: int,
    dfn: Seq<usize>,
    was: Seq<usize>,
    low: Seq<usize>,
    stack: Seq<usize>,
    in_stack: Seq<bool>,
    scc: Seq<usize>,
    cnt: usize,
    sc: usize,
    place: int,
    q: int,
)
    requires
        search_ok(nodes, dfn, was, stack, in_stack, scc, cnt, sc, 0),
        0 <= q <= place < stack.len(),
        low == was.update(stack[place] as int, dfn[stack[q] as int]),
    ensures
        search_ok(nodes, dfn, low, stack, in_stack, scc, cnt, sc, 0),
{
    let u = stack[place] as int;
    assert(dfn[stack[q] as int] <= dfn[u]) by {
        if q < place {
            assert(dfn[stack[q] as int] < dfn[stack[place] as int]);
        }
    }
    assert(stack[place] < nodes);
    assert forall|v: int| 0 <= v < nodes implies (#[trigger] low[v]) <= dfn[v] && dfn[v] <= cnt by {
        assert(was[v] <= dfn[v]);
    }
    assert forall|p: int| 0 <= p < stack.len() implies #[trigger] anchored(dfn, low, stack, p) by {
        if p == place {
            assert(low[stack[p] as int] == dfn[stack[q] as int]);
        } else {
            assert(anchored(dfn, was, stack, p));
            let r = choose|r: int| 0 <= r <= p && was[stack[p] as int] == dfn[#[trigger] stack[r] as int];
            if p < place {
                assert(dfn[stack[p] as int] < dfn[stack[place] as int]);
            } else {
                assert(dfn[stack[place] as int] < dfn[stack[p] as int]);
            }
            assert(low[stack[p] as int] == dfn[stack[r] as int]);
        }
    }
}

/// The component of the node that the `k`-th edge of `w` leads to has no
/// greater number than that of `w`.
pub open spec fn falls<V, E>(graph: &Graph<V, E>, scc: Seq<usize>, w: int, k: int) -> bool where
    V: Default + Clone,
    E: Default + Clone,
 {
    scc[target(graph, graph.adj(w)[k])] <= scc[w]
}

/// The components are numbered against the edges: no edge leads from a
/// node that has a component to a node whose component has a greater
/// number.
#[verifier::opaque]
pub open spec fn descending<V, E>(graph: &Graph<V, E>, scc: Seq<usize>) -> bool where
    V: Default + Clone,
    E: Default + Clone,
 {
    forall|w: int, k: int|
        0 <= w < scc.len() && scc[w] != 0 && 0 <= k < graph.adj(w).len() ==> #[trigger] falls(
            graph,
            scc,
            w,
            k,
        )
}

/// Giving the segment the next number keeps the components numbered
/// against the edges: what an edge from the segment leads to has that
/// number or an earlier one, and no edge leads into the segment from a
/// node that has a component.
proof fn lemma_descending_after<V, E>(
    graph: &Graph<V, E>,
    dfn: Seq<usize>,
    low: Seq<usize>,
    stack: Seq<usize>,
    in_stack: Seq<bool>,
    scc: Seq<usize>,
    cnt: usize,
    sc: usize,
    place: int,
    label: usize,
) where V: Default + Clone, E: Default + Clone
    requires
        graph.wf(),
        search_ok(graph.nodes@.len() as int, dfn, low, stack, in_stack, scc, cnt, sc, 0),
        labels_ok(graph, scc),
        descending(graph, scc),
        0 <= place,
        label == sc + 1,
    ensures
        descending(graph, labels_after(stack, scc, place, label)),
{
    reveal(descending);
    let done = labels_after(stack, scc, place, label);
    let n = scc.len() as int;
    assert forall|w: int| in_segment(stack, place, w) implies 0 <= w < n && scc[w] == 0 by {
        let q = choose|q: int| place <= q < stack.len() && #[trigger] stack[q] == w;
        assert(stack[q] < n);
        assert(in_stack[stack[q] as int]);
    }
    assert forall|w: int, k: int|
        0 <= w < n && done[w] != 0 && 0 <= k < graph.adj(w).len() implies #[trigger] falls(
        graph,
        done,
        w,
        k,
    ) by {
        lemma_list_step(graph.edges@, graph.head@[w] as int);
        lemma_list_in_range(graph.edges@, graph.head@[w] as int, graph.adj(w));
        let e = graph.adj(w)[k];
        assert(0 < e < graph.edges@.len());
        let x = target(graph, e);
        assert(graph.edges@[e].1 < graph.nodes@.len());
        assert(0 <= x < n);
        assert(scc[x] <= sc) by {
            if dfn[x] != 0 && !in_stack[x] {
                assert(1 <= scc[x] <= sc);
            }
        }
        if !in_segment(stack, place, w) {
            assert(labelled_edge(graph, scc, w, k));
            assert(falls(graph, scc, w, k));
            assert(!in_segment(stack, place, x));
        }
    }
}

/// Every node that has been met since the numbers were `before` is reached
/// from `u`.
#[verifier::opaque]
pub open spec fn met_from<V, E>(
    graph: &Graph<V, E>,
    before: Seq<usize>,
    after: Seq<usize>,
    u: int,
) -> bool where V: Default + Clone, E: Default + Clone {
    forall|w: int|
        0 <= w < before.len() && before[w] == 0 && after[w] != 0 ==> #[trigger] reaches(
            graph,
            u,
            w,
        )
}

/// When the search enters `u`, the one node it has met is `u` itself.
proof fn lemma_met_first<V, E>(graph: &Graph<V, E>, before: Seq<usize>, u: int, number: usize) where
    V: Default + Clone,
    E: Default + Clone,

    requires
        0 <= u < before.len(),
    ensures
        met_from(graph, before, before.update(u, number), u),
{
    reveal(met_from);
    lemma_reach_refl(graph, u);
}

/// What the search from the node `v` meets, to which the edge `j` of `u`
/// leads, the search from `u` meets.
proof fn lemma_met_child<V, E>(
    graph: &Graph<V, E>,
    first: Seq<usize>,
    before: Seq<usize>,
    after: Seq<usize>,
    u: int,
    v: int,
    j: int,
) where V: Default + Clone, E: Default + Clone
    requires
        first.len() == before.len(),
        met_from(graph, first, before, u),
        met_from(graph, before, after, v),
        0 <= j < graph.adj(u).len(),
        v == target(graph, graph.adj(u)[j]),
    ensures
        met_from(graph, first, after, u),
{
    reveal(met_from);
    lemma_reach_edge(graph, u, j);
    assert forall|w: int|
        0 <= w < first.len() && first[w] == 0 && after[w] != 0 implies #[trigger] reaches(
        graph,
        u,
        w,
    ) by {
        if before[w] == 0 {
            assert(reaches(graph, v, w));
            lemma_reach_trans(graph, u, v, w);
        }
    }
}

/// Some node from 1 on reaches `v`.
pub open spec fn sourced<V, E>(graph: &Graph<V, E>, v: int) -> bool where
    V: Default + Clone,
    E: Default + Clone,
 {
    exists|r: int| 1 <= r < graph.nodes@.len() && #[trigger] reaches(graph, r, v)
}

/// Some edge leads to `v`.
pub open spec fn entered_by_edge<V, E>(graph: &Graph<V, E>, v: int) -> bool where
    V: Default + Clone,
    E: Default + Clone,
 {
    exists|w: int, k: int|
        0 <= k < graph.adj(w).len() && #[trigger] target(graph, graph.adj(w)[k]) == v
}

/// A node that another node reaches has an edge that leads to it.
pub proof fn lemma_reached_by_edge<V, E>(graph: &Graph<V, E>, a: int, v: int) where
    V: Default + Clone,
    E: Default + Clone,

    requires
        reaches(graph, a, v),
        a != v,
    ensures
        entered_by_edge(graph, v),
{
    let path = choose|path: Seq<int>|
        walk_ok(graph, a, path) && #[trigger] walk_end(graph, a, path) == v;
    let w = walk_end(graph, a, path.drop_last());
    let k = choose|k: int| 0 <= k < graph.adj(w).len() && graph.adj(w)[k] == path.last();
    assert(target(graph, graph.adj(w)[k]) == v);
}

/// The state of the search.
pub struct Search {
    pub dfn: Seq<usize>,
    pub low: Seq<usize>,
    pub stack: Seq<usize>,
    pub in_stack: Seq<bool>,
    pub scc: Seq<usize>,
    pub cnt: usize,
    pub sc: usize,
}

/// What holds between two steps of the search: the state is in order, the
/// labels are those of strongly connected components, and every node on
/// the stack reaches the node whose number is its low link.
pub open spec fn inv<V, E>(graph: &Graph<V, E>, s: Search) -> bool where
    V: Default + Clone,
    E: Default + Clone,
 {
    &&& graph.wf()
    &&& search_ok(graph.nodes@.len() as int, s.dfn, s.low, s.stack, s.in_stack, s.scc, s.cnt, s.sc, 0)
    &&& labels_ok(graph, s.scc)
    &&& anchors_ok(graph, s.dfn, s.low, s.stack)
}

/// How far the search from `u`, which is at place `place` of the stack,
/// has come: `j` of its edges have been looked at, and every node above it
/// on the stack has been dealt with.
pub open spec fn progress<V, E>(graph: &Graph<V, E>, s: Search, place: int, u: int, j: int) -> bool where
    V: Default + Clone,
    E: Default + Clone,
 {
    &&& 0 <= place < s.stack.len()
    &&& s.stack[place] == u
    &&& 0 <= j <= graph.adj(u).len()
    &&& region_ok(graph, s.dfn, s.low, s.stack, s.in_stack, s.scc, place, u)
    &&& edges_done(graph, s.dfn, s.low, s.in_stack, s.scc, u, j)
}

/// What a step of the search leaves alone: all that is recorded of the
/// nodes met before.
pub open spec fn frame(a: Search, b: Search) -> bool {
    &&& a.dfn.len() == b.dfn.len()
    &&& forall|w: int| 0 <= w < a.dfn.len() && a.dfn[w] != 0 ==> #[trigger] kept(a, b, w)
}

/// All that is recorded of the node `w` is the same in both states.
pub open spec fn kept(a: Search, b: Search, w: int) -> bool {
    b.dfn[w] == a.dfn[w] && b.low[w] == a.low[w] && b.in_stack[w] == a.in_stack[w] && b.scc[w]
        == a.scc[w]
}

/// What is left alone by two steps is left alone by both.
proof fn lemma_frame_trans(a: Search, b: Search, c: Search)
    requires
        frame(a, b),
        frame(b, c),
    ensures
        frame(a, c),
{
    assert forall|w: int| 0 <= w < a.dfn.len() && a.dfn[w] != 0 implies #[trigger] kept(a, c, w) by {
        assert(kept(a, b, w));
        assert(kept(b, c, w));
    }
}

/// The state after the search has entered the node `u`.
pub open spec fn entered(s: Search, u: int) -> Search {
    Search {
        dfn: s.dfn.update(u, (s.cnt + 1) as usize),
        low: s.low.update(u, (s.cnt + 1) as usize),
        stack: s.stack.push(u as usize),
        in_stack: s.in_stack.update(u, true),
        scc: s.scc,
        cnt: (s.cnt + 1) as usize,
        sc: s.sc,
    }
}

/// Entering a node that has not been met keeps the search in order.
#[verifier::rlimit(40)]
proof fn lemma_entered<V, E>(graph: &Graph<V, E>, s: Search, u: int) where
    V: Default + Clone,
    E: Default + Clone,

    requires
        inv(graph, s),
        0 <= u < s.dfn.len(),
        s.dfn[u] == 0,
        u <= usize::MAX,
    ensures
        s.cnt < s.dfn.len(),
        count_zero(entered(s, u).dfn) + 1 == count_zero(s.dfn),
        inv(graph, entered(s, u)),
        progress(graph, entered(s, u), s.stack.len() as int, u, 0),
        frame(s, entered(s, u)),
{
    let nodes = graph.nodes@.len() as int;
    let t = entered(s, u);
    let top = s.stack.len() as int;
    lemma_count_zero_set(s.dfn, u, 1);
    lemma_count_zero_set(s.dfn, u, (s.cnt + 1) as usize);
    if s.in_stack[u] {
        let p = choose|p: int| 0 <= p < s.stack.len() && s.stack[p] == u as usize;
        assert(s.dfn[s.stack[p] as int] != 0);
    }
    assert forall|p: int| 0 <= p < t.stack.len() implies (#[trigger] t.stack[p]) < nodes
        && t.dfn[t.stack[p] as int] != 0 && t.in_stack[t.stack[p] as int] by {
        if p < top {
            assert(t.stack[p] == s.stack[p]);
        }
    }
    assert forall|p: int| 0 <= p < t.stack.len() implies #[trigger] anchored(
        t.dfn,
        t.low,
        t.stack,
        p,
    ) by {
        if p < top {
            assert(anchored(s.dfn, s.low, s.stack, p));
            let q = choose|q: int|
                0 <= q <= p && s.low[s.stack[p] as int] == s.dfn[#[trigger] s.stack[q] as int];
            assert(t.stack[q] == s.stack[q]);
            assert(t.stack[p] == s.stack[p]);
            assert(t.low[t.stack[p] as int] == t.dfn[t.stack[q] as int]);
        } else {
            assert(t.low[t.stack[p] as int] == t.dfn[t.stack[p] as int]);
        }
    }
    assert forall|p: int| 0 <= p < t.stack.len() implies #[trigger] reach_anchor(
        graph,
        t.dfn,
        t.low,
        t.stack,
        p,
    ) by {
        if p < top {
            assert(reach_anchor(graph, s.dfn, s.low, s.stack, p));
            let q = choose|q: int|
                0 <= q <= p && s.low[s.stack[p] as int] == s.dfn[#[trigger] s.stack[q] as int]
                    && reaches(graph, s.stack[p] as int, s.stack[q] as int);
            assert(t.stack[q] == s.stack[q]);
            assert(t.stack[p] == s.stack[p]);
            assert(s.dfn[s.stack[p] as int] != 0 && s.dfn[s.stack[q] as int] != 0);
        } else {
            lemma_reach_refl(graph, u);
            assert(t.stack[p] == u);
        }
    }
    assert forall|v: int| 0 <= v < nodes && #[trigger] t.in_stack[v] implies t.stack.contains(
        v as usize,
    ) by {
        if v != u {
            let p = choose|p: int| 0 <= p < s.stack.len() && s.stack[p] == v as usize;
            assert(t.stack[p] == v as usize);
        } else {
            assert(t.stack[top] == u);
        }
    }
    assert forall|p: int, q: int| 0 <= p < q < t.stack.len() implies t.dfn[#[trigger] t.stack[p] as int]
        < t.dfn[#[trigger] t.stack[q] as int] by {
        assert(t.stack[p] == s.stack[p]);
        assert(s.dfn[s.stack[p] as int] != 0);
        assert(s.low[s.stack[p] as int] <= s.dfn[s.stack[p] as int]);
        if q < top {
            assert(t.stack[q] == s.stack[q]);
            assert(s.dfn[s.stack[q] as int] != 0);
            assert(s.dfn[s.stack[p] as int] < s.dfn[s.stack[q] as int]);
        }
    }
    assert forall|v: int| 0 <= v < nodes implies (#[trigger] t.low[v]) <= t.dfn[v] && t.dfn[v]
        <= t.cnt by {
        assert(s.low[v] <= s.dfn[v]);
    }
    assert forall|v: int| 0 <= v < nodes && #[trigger] t.in_stack[v] implies t.scc[v] == 0 by {
        if v == u {
            assert(s.dfn[v] == 0);
        } else {
            assert(s.in_stack[v]);
        }
    }
    assert forall|v: int| 0 <= v < nodes && (#[trigger] t.dfn[v]) != 0 implies t.in_stack[v] || 1
        <= t.scc[v] <= t.sc by {
        if v != u {
            assert(s.dfn[v] != 0);
        }
    }
    assert forall|v: int| 0 <= v < nodes && (#[trigger] t.dfn[v]) == 0 implies t.scc[v] == 0
        && !t.in_stack[v] by {
        assert(s.dfn[v] == 0);
    }
    assert forall|k: int| 1 <= k <= t.sc implies #[trigger] labelled(t.scc, k) by {
        assert(labelled(s.scc, k));
    }
    assert forall|w: int| 0 <= w < s.dfn.len() && s.dfn[w] != 0 implies #[trigger] kept(s, t, w) by {}
}

/// The state with `value` as the low link of `u`.
pub open spec fn lowered(s: Search, u: int, value: usize) -> Search {
    Search { low: s.low.update(u, value), ..s }
}

/// Giving `u`, which is at place `place` of the stack, as its low link
/// the smaller number of a node on the stack that it reaches keeps the
/// search in order.
#[verifier::rlimit(40)]
proof fn lemma_lowered<V, E>(graph: &Graph<V, E>, s: Search, place: int, u: int, j: int, at: int) where
    V: Default + Clone,
    E: Default + Clone,

    requires
        inv(graph, s),
        progress(graph, s, place, u, j),
        0 <= at < s.stack.len(),
        s.dfn[s.stack[at] as int] < s.low[u],
        reaches(graph, u, s.stack[at] as int),
    ensures
        at < place,
        inv(graph, lowered(s, u, s.dfn[s.stack[at] as int])),
        progress(graph, lowered(s, u, s.dfn[s.stack[at] as int]), place, u, j),
{
    let nodes = graph.nodes@.len() as int;
    let value = s.dfn[s.stack[at] as int];
    let t = lowered(s, u, value);
    assert(s.stack[place] < nodes);
    assert(s.low[u] <= s.dfn[u]);
    if at >= place {
        if at > place {
            assert(s.dfn[s.stack[place] as int] < s.dfn[s.stack[at] as int]);
        }
        assert(false);
    }
    lemma_low_link(nodes, s.dfn, s.low, t.low, s.stack, s.in_stack, s.scc, s.cnt, s.sc, place, at);
    assert forall|p: int| 0 <= p < t.stack.len() implies #[trigger] reach_anchor(
        graph,
        t.dfn,
        t.low,
        t.stack,
        p,
    ) by {
        if p == place {
            assert(t.low[t.stack[p] as int] == t.dfn[t.stack[at] as int]);
        } else {
            assert(reach_anchor(graph, s.dfn, s.low, s.stack, p));
            let q = choose|q: int|
                0 <= q <= p && s.low[s.stack[p] as int] == s.dfn[#[trigger] s.stack[q] as int]
                    && reaches(graph, s.stack[p] as int, s.stack[q] as int);
            if p < place {
                assert(s.dfn[s.stack[p] as int] < s.dfn[s.stack[place] as int]);
            } else {
                assert(s.dfn[s.stack[place] as int] < s.dfn[s.stack[p] as int]);
            }
            assert(t.low[t.stack[p] as int] == t.dfn[t.stack[q] as int]);
        }
    }
    assert forall|q: int| place < q < t.stack.len() implies #[trigger] settled(
        graph,
        t.dfn,
        t.low,
        t.stack,
        t.in_stack,
        t.scc,
        u,
        q,
    ) by {
        assert(settled(graph, s.dfn, s.low, s.stack, s.in_stack, s.scc, u, q));
        let w = s.stack[q] as int;
        assert(s.dfn[s.stack[place] as int] < s.dfn[s.stack[q] as int]);
        assert(w != u);
        assert forall|k: int| 0 <= k < graph.adj(w).len() implies #[trigger] edge_done(
            graph,
            t.dfn,
            t.low,
            t.in_stack,
            t.scc,
            w,
            k,
        ) by {
            assert(edge_done(graph, s.dfn, s.low, s.in_stack, s.scc, w, k));
        }
    }
    assert forall|k: int| 0 <= k < j implies #[trigger] edge_done(
        graph,
        t.dfn,
        t.low,
        t.in_stack,
        t.scc,
        u,
        k,
    ) by {
        assert(edge_done(graph, s.dfn, s.low, s.in_stack, s.scc, u, k));
    }
}

/// One more edge of `u` has been looked at.
proof fn lemma_edge_done<V, E>(graph: &Graph<V, E>, s: Search, place: int, u: int, j: int) where
    V: Default + Clone,
    E: Default + Clone,

    requires
        progress(graph, s, place, u, j),
        j < graph.adj(u).len(),
        edge_done(graph, s.dfn, s.low, s.in_stack, s.scc, u, j),
    ensures
        progress(graph, s, place, u, j + 1),
{
    assert forall|k: int| 0 <= k < j + 1 implies #[trigger] edge_done(
        graph,
        s.dfn,
        s.low,
        s.in_stack,
        s.scc,
        u,
        k,
    ) by {
        if k < j {
            assert(edge_done(graph, s.dfn, s.low, s.in_stack, s.scc, u, k));
        }
    }
}

/// What the search from a node `v` that had not been met leaves to the
/// search that called it: all recorded of the nodes met before is as it
/// was; the stack below is as it was; and either `v` and all on top of it
/// have left the stack, and `v` has a component, or `v` is on the stack
/// right above what was there, with a low link below its number, and all
/// on top of it has been dealt with.
pub open spec fn returned<V, E>(graph: &Graph<V, E>, a: Search, b: Search, v: int) -> bool where
    V: Default + Clone,
    E: Default + Clone,
 {
    &&& inv(graph, b)
    &&& frame(a, b)
    &&& b.dfn[v] > a.cnt
    &&& b.stack.len() >= a.stack.len()
    &&& b.stack.subrange(0, a.stack.len() as int) == a.stack
    &&& b.stack.len() == a.stack.len() ==> b.scc[v] != 0 && b.low[v] == b.dfn[v]
    &&& b.stack.len() > a.stack.len() ==> b.stack[a.stack.len() as int] == v && b.low[v] < b.dfn[v]
        && progress(graph, b, a.stack.len() as int, v, graph.adj(v).len() as int)
}

/// After the search from the node `v` that the edge `j` of `u` leads to
/// has returned, the search from `u` is as far as before, with all that
/// the search from `v` left on the stack dealt with.
#[verifier::rlimit(60)]
proof fn lemma_child<V, E>(graph: &Graph<V, E>, a: Search, b: Search, place: int, u: int, j: int) where
    V: Default + Clone,
    E: Default + Clone,

    requires
        inv(graph, a),
        progress(graph, a, place, u, j),
        j < graph.adj(u).len(),
        returned(graph, a, b, target(graph, graph.adj(u)[j])),
        a.dfn[target(graph, graph.adj(u)[j])] == 0,
        0 <= target(graph, graph.adj(u)[j]) < a.dfn.len(),
        b.low[target(graph, graph.adj(u)[j])] >= b.low[u],
    ensures
        progress(graph, b, place, u, j + 1),
{
    let v = target(graph, graph.adj(u)[j]);
    let base = a.stack.len() as int;
    assert(a.stack[place] < a.dfn.len());
    assert(a.dfn[a.stack[place] as int] != 0);
    assert(b.stack.subrange(0, base)[place] == a.stack[place]);
    assert(kept(a, b, u));
    lemma_reach_edge(graph, u, j);
    assert forall|q: int| place < q < b.stack.len() implies #[trigger] settled(
        graph,
        b.dfn,
        b.low,
        b.stack,
        b.in_stack,
        b.scc,
        u,
        q,
    ) by {
        let w = b.stack[q] as int;
        if q < base {
            assert(b.stack.subrange(0, base)[q] == a.stack[q]);
            assert(settled(graph, a.dfn, a.low, a.stack, a.in_stack, a.scc, u, q));
            assert(a.stack[q] < a.dfn.len() && a.dfn[a.stack[q] as int] != 0);
            assert(kept(a, b, w));
            lemma_edges_kept(graph, a, b, w, graph.adj(w).len() as int);
        } else if q == base {
            assert(w == v);
            assert(edges_done(graph, b.dfn, b.low, b.in_stack, b.scc, v, graph.adj(v).len() as int));
        } else {
            assert(settled(graph, b.dfn, b.low, b.stack, b.in_stack, b.scc, v, q));
            lemma_reach_trans(graph, u, v, w);
        }
    }
    lemma_edges_kept(graph, a, b, u, j);
    assert(edge_done(graph, b.dfn, b.low, b.in_stack, b.scc, u, j)) by {
        if b.stack.len() > base {
            assert(b.stack[base] < b.dfn.len());
            assert(b.in_stack[b.stack[base] as int]);
            assert(b.low[v] <= b.dfn[v]);
        }
    }
    assert forall|k: int| 0 <= k < j + 1 implies #[trigger] edge_done(
        graph,
        b.dfn,
        b.low,
        b.in_stack,
        b.scc,
        u,
        k,
    ) by {}
}

/// Edges that have been looked at stay so while what is recorded of the
/// nodes met before stays as it is.
proof fn lemma_edges_kept<V, E>(graph: &Graph<V, E>, a: Search, b: Search, w: int, upto: int) where
    V: Default + Clone,
    E: Default + Clone,

    requires
        graph.wf(),
        search_ok(graph.nodes@.len() as int, a.dfn, a.low, a.stack, a.in_stack, a.scc, a.cnt, a.sc, 0),
        frame(a, b),
        0 <= w < a.dfn.len(),
        a.dfn[w] != 0,
        0 <= upto <= graph.adj(w).len(),
        edges_done(graph, a.dfn, a.low, a.in_stack, a.scc, w, upto),
    ensures
        edges_done(graph, b.dfn, b.low, b.in_stack, b.scc, w, upto),
{
    lemma_list_step(graph.edges@, graph.head@[w] as int);
    lemma_list_in_range(graph.edges@, graph.head@[w] as int, graph.adj(w));
    assert forall|k: int| 0 <= k < upto implies #[trigger] edge_done(
        graph,
        b.dfn,
        b.low,
        b.in_stack,
        b.scc,
        w,
        k,
    ) by {
        assert(edge_done(graph, a.dfn, a.low, a.in_stack, a.scc, w, k));
        assert(0 < graph.adj(w)[k] < graph.edges@.len());
        let x = target(graph, graph.adj(w)[k]);
        assert(0 <= x < a.dfn.len());
        assert(a.low[x] <= a.dfn[x]);
        if a.dfn[x] == 0 {
            assert(a.scc[x] == 0 && !a.in_stack[x]);
        }
        assert(kept(a, b, x));
        assert(kept(a, b, w));
    }
}

/// After the search from the node `v` that the edge `j` of `u` leads to
/// has returned with a smaller low link, which `u` takes over, the search
/// from `u` is as far as before, with all that the search from `v` left
/// on the stack dealt with.
#[verifier::rlimit(80)]
proof fn lemma_child_lowered<V, E>(
    graph: &Graph<V, E>,
    a: Search,
    b: Search,
    place: int,
    u: int,
    j: int,
) where V: Default + Clone, E: Default + Clone
    requires
        inv(graph, a),
        progress(graph, a, place, u, j),
        j < graph.adj(u).len(),
        returned(graph, a, b, target(graph, graph.adj(u)[j])),
        a.dfn[target(graph, graph.adj(u)[j])] == 0,
        0 <= target(graph, graph.adj(u)[j]) < a.dfn.len(),
        b.low[target(graph, graph.adj(u)[j])] < b.low[u],
    ensures
        inv(graph, lowered(b, u, b.low[target(graph, graph.adj(u)[j])])),
        progress(graph, lowered(b, u, b.low[target(graph, graph.adj(u)[j])]), place, u, j + 1),
{
    let nodes = graph.nodes@.len() as int;
    let v = target(graph, graph.adj(u)[j]);
    let base = a.stack.len() as int;
    let c = lowered(b, u, b.low[v]);
    assert(a.stack[place] < a.dfn.len());
    assert(a.dfn[a.stack[place] as int] != 0);
    assert(b.stack.subrange(0, base)[place] == a.stack[place]);
    assert(kept(a, b, u));
    assert(a.low[u] <= a.dfn[u] && a.dfn[u] <= a.cnt);
    // the node the edge leads to is still on the stack
    assert(b.stack.len() > base);
    assert(b.stack[base] < nodes);
    assert(b.in_stack[b.stack[base] as int]);
    assert(b.dfn[b.stack[place] as int] < b.dfn[b.stack[base] as int]);
    assert(v != u);
    lemma_reach_edge(graph, u, j);
    assert(reach_anchor(graph, b.dfn, b.low, b.stack, base));
    let at = choose|at: int|
        0 <= at <= base && b.low[b.stack[base] as int] == b.dfn[#[trigger] b.stack[at] as int]
            && reaches(graph, b.stack[base] as int, b.stack[at] as int);
    if at >= place {
        if at > place {
            assert(b.dfn[b.stack[place] as int] < b.dfn[b.stack[at] as int]);
        }
        assert(false);
    }
    lemma_reach_trans(graph, u, v, b.stack[at] as int);
    lemma_low_link(nodes, b.dfn, b.low, c.low, b.stack, b.in_stack, b.scc, b.cnt, b.sc, place, at);
    assert forall|p: int| 0 <= p < c.stack.len() implies #[trigger] reach_anchor(
        graph,
        c.dfn,
        c.low,
        c.stack,
        p,
    ) by {
        if p == place {
            assert(c.low[c.stack[p] as int] == c.dfn[c.stack[at] as int]);
        } else {
            assert(reach_anchor(graph, b.dfn, b.low, b.stack, p));
            let q = choose|q: int|
                0 <= q <= p && b.low[b.stack[p] as int] == b.dfn[#[trigger] b.stack[q] as int]
                    && reaches(graph, b.stack[p] as int, b.stack[q] as int);
            if p < place {
                assert(b.dfn[b.stack[p] as int] < b.dfn[b.stack[place] as int]);
            } else {
                assert(b.dfn[b.stack[place] as int] < b.dfn[b.stack[p] as int]);
            }
            assert(c.low[c.stack[p] as int] == c.dfn[c.stack[q] as int]);
        }
    }
    assert forall|q: int| place < q < c.stack.len() implies #[trigger] settled(
        graph,
        c.dfn,
        c.low,
        c.stack,
        c.in_stack,
        c.scc,
        u,
        q,
    ) by {
        let w = b.stack[q] as int;
        assert(b.dfn[b.stack[place] as int] < b.dfn[b.stack[q] as int]);
        assert(w != u);
        if q < base {
            assert(b.stack.subrange(0, base)[q] == a.stack[q]);
            assert(settled(graph, a.dfn, a.low, a.stack, a.in_stack, a.scc, u, q));
            assert(a.stack[q] < a.dfn.len() && a.dfn[a.stack[q] as int] != 0);
            assert(kept(a, b, w));
            lemma_edges_kept(graph, a, b, w, graph.adj(w).len() as int);
        } else if q == base {
            assert(w == v);
        } else {
            assert(settled(graph, b.dfn, b.low, b.stack, b.in_stack, b.scc, v, q));
            lemma_reach_trans(graph, u, v, w);
        }
        assert forall|k: int| 0 <= k < graph.adj(w).len() implies #[trigger] edge_done(
            graph,
            c.dfn,
            c.low,
            c.in_stack,
            c.scc,
            w,
            k,
        ) by {
            assert(edge_done(graph, b.dfn, b.low, b.in_stack, b.scc, w, k));
        }
    }
    lemma_edges_kept(graph, a, b, u, j);
    assert forall|k: int| 0 <= k < j + 1 implies #[trigger] edge_done(
        graph,
        c.dfn,
        c.low,
        c.in_stack,
        c.scc,
        u,
        k,
    ) by {
        if k < j {
            assert(edge_done(graph, b.dfn, b.low, b.in_stack, b.scc, u, k));
        } else {
            assert(b.low[v] <= b.dfn[v]);
        }
    }
}

/// What the arrays of the search hold.
pub open spec fn state(
    dfn: Seq<usize>,
    low: Seq<usize>,
    stack: Seq<usize>,
    in_stack: Seq<bool>,
    scc: Seq<usize>,
    cnt: usize,
    sc: usize,
) -> Search {
    Search { dfn, low, stack, in_stack, scc, cnt, sc }
}

/// The labels during the time in which the segment leaves the stack: a
/// node that is still on the stack at or above `place` has none yet, and
/// every other node has the label it is to have.
pub open spec fn leaving(stack: Seq<usize>, place: int, scc: Seq<usize>, done: Seq<usize>) -> bool {
    &&& scc.len() == done.len()
    &&& forall|w: int|
        0 <= w < scc.len() ==> (#[trigger] scc[w]) == if in_segment(stack, place, w) {
            0
        } else {
            done[w]
        }
}

/// The node on top of the stack leaves it and gets its label.
proof fn lemma_left(
    nodes: int,
    dfn: Seq<usize>,
    low: Seq<usize>,
    full: Seq<usize>,
    stack: Seq<usize>,
    in_stack: Seq<bool>,
    scc: Seq<usize>,
    cnt: usize,
    sc: usize,
    pending: int,
    place: int,
    done: Seq<usize>,
    label: usize,
)
    requires
        search_ok(nodes, dfn, low, stack, in_stack, scc, cnt, sc, pending),
        0 <= place < stack.len() <= full.len(),
        stack == full.subrange(0, stack.len() as int),
        leaving(stack, place, scc, done),
        forall|w: int| 0 <= w < nodes && in_segment(full, place, w) ==> #[trigger] done[w] == label,
    ensures
        leaving(stack.drop_last(), place, scc.update(stack.last() as int, label), done),
        stack.drop_last() == full.subrange(0, stack.len() - 1),
{
    let top = stack.len() - 1;
    let v = stack[top] as int;
    let rest = stack.drop_last();
    let after = scc.update(v, label);
    assert(rest =~= full.subrange(0, top));
    assert(stack[top] < nodes);
    assert(in_segment(full, place, v)) by {
        assert(full[top] == stack[top]);
    }
    assert forall|w: int| 0 <= w < after.len() implies (#[trigger] after[w]) == if in_segment(
        rest,
        place,
        w,
    ) {
        0
    } else {
        done[w]
    } by {
        if w == v {
            if in_segment(rest, place, w) {
                let q = choose|q: int| place <= q < rest.len() && #[trigger] rest[q] == w;
                assert(stack[q] == rest[q]);
                assert(dfn[stack[q] as int] < dfn[stack[top] as int]);
            }
        } else {
            if in_segment(rest, place, w) {
                let q = choose|q: int| place <= q < rest.len() && #[trigger] rest[q] == w;
                assert(stack[q] == w);
                assert(in_segment(stack, place, w));
            }
            if in_segment(stack, place, w) {
                let q = choose|q: int| place <= q < stack.len() && #[trigger] stack[q] == w;
                assert(rest[q] == w);
                assert(in_segment(rest, place, w));
            }
            assert(scc[w] == if in_segment(stack, place, w) {
                0
            } else {
                done[w]
            });
        }
    }
}

/// Every node on a part of the stack from the bottom up reaches the node
/// whose number is its low link.
proof fn lemma_anchors_below<V, E>(
    graph: &Graph<V, E>,
    dfn: Seq<usize>,
    low: Seq<usize>,
    full: Seq<usize>,
    len: int,
) where V: Default + Clone, E: Default + Clone
    requires
        anchors_ok(graph, dfn, low, full),
        0 <= len <= full.len(),
    ensures
        anchors_ok(graph, dfn, low, full.subrange(0, len)),
{
    let part = full.subrange(0, len);
    assert forall|p: int| 0 <= p < part.len() implies #[trigger] reach_anchor(
        graph,
        dfn,
        low,
        part,
        p,
    ) by {
        assert(reach_anchor(graph, dfn, low, full, p));
        let q = choose|q: int|
            0 <= q <= p && low[full[p] as int] == dfn[#[trigger] full[q] as int] && reaches(
                graph,
                full[p] as int,
                full[q] as int,
            );
        assert(part[q] == full[q] && part[p] == full[p]);
    }
}

/// Changing the low link of a node that had not been met leaves all that
/// was recorded of the nodes met before as it was.
proof fn lemma_frame_lowered(a: Search, b: Search, u: int, value: usize)
    requires
        frame(a, b),
        b.low.len() == a.dfn.len(),
        0 <= u < a.dfn.len(),
        a.dfn[u] == 0,
    ensures
        frame(a, lowered(b, u, value)),
{
    let c = lowered(b, u, value);
    assert forall|w: int| 0 <= w < a.dfn.len() && a.dfn[w] != 0 implies #[trigger] kept(a, c, w) by {
        assert(kept(a, b, w));
    }
}

/// Finds the components of the nodes that can be reached from `u`, which
/// has not been met, and have no component yet.
#[verifier::rlimit(100)]
#[verifier::spinoff_prover]
fn tarjan<V, E>(
    graph: &Graph<V, E>,
    u: usize,
    cnt: &mut usize,
    dfn: &mut Vec<usize>,
    low: &mut Vec<usize>,
    sc: &mut usize,
    scc: &mut Vec<usize>,
    stack: &mut Vec<usize>,
    in_stack: &mut Vec<bool>,
) where V: Default + Clone, E: Default + Clone
    requires
        u < graph.nodes@.len(),
        old(dfn)@[u as int] == 0,
        inv(
            graph,
            state(
                old(dfn)@,
                old(low)@,
                old(stack)@,
                old(in_stack)@,
                old(scc)@,
                *old(cnt),
                *old(sc),
            ),
        ),
        descending(graph, old(scc)@),
    ensures
        descending(graph, final(scc)@),
        met_from(graph, old(dfn)@, final(dfn)@, u as int),
        returned(
            graph,
            state(
                old(dfn)@,
                old(low)@,
                old(stack)@,
                old(in_stack)@,
                old(scc)@,
                *old(cnt),
                *old(sc),
            ),
            state(
                final(dfn)@,
                final(low)@,
                final(stack)@,
                final(in_stack)@,
                final(scc)@,
                *final(cnt),
                *final(sc),
            ),
            u as int,
        ),
        count_zero(final(dfn)@) < count_zero(old(dfn)@),
    decreases count_zero(old(dfn)@),
{
    let ghost nodes = graph.nodes@.len() as int;
    let ghost s0 = state(dfn@, low@, stack@, in_stack@, scc@, *cnt, *sc);
    let ghost place = stack@.len() as int;
    proof {
        lemma_entered(graph, s0, u as int);
    }
    *cnt += 1;
    low.set(u, *cnt);
    dfn.set(u, *cnt);
    stack.push(u);
    in_stack.set(u, true);
    proof {
        lemma_met_first(graph, s0.dfn, u as int, *cnt);
        assert(state(dfn@, low@, stack@, in_stack@, scc@, *cnt, *sc) == entered(s0, u as int));
        assert(stack@.subrange(0, place) =~= s0.stack);
    }
    let list = graph.get_edges(u);
    let mut j: usize = 0;
    while j < list.len()
        invariant
            nodes == graph.nodes@.len(),
            u < nodes,
            s0 == state(
                old(dfn)@,
                old(low)@,
                old(stack)@,
                old(in_stack)@,
                old(scc)@,
                *old(cnt),
                *old(sc),
            ),
            inv(graph, s0),
            place == s0.stack.len(),
            s0.dfn.len() == nodes,
            s0.dfn[u as int] == 0,
            j <= list@.len(),
            graph.lists(list@, graph.adj(u as int)),
            inv(graph, state(dfn@, low@, stack@, in_stack@, scc@, *cnt, *sc)),
            progress(
                graph,
                state(dfn@, low@, stack@, in_stack@, scc@, *cnt, *sc),
                place,
                u as int,
                j as int,
            ),
            frame(s0, state(dfn@, low@, stack@, in_stack@, scc@, *cnt, *sc)),
            dfn@[u as int] > s0.cnt,
            count_zero(dfn@) < count_zero(s0.dfn),
            stack@.subrange(0, place) == s0.stack,
            descending(graph, scc@),
            met_from(graph, s0.dfn, dfn@, u as int),
        decreases list@.len() - j,
    {
        let v = *list[j].0;
        let ghost a = state(dfn@, low@, stack@, in_stack@, scc@, *cnt, *sc);
        proof {
            lemma_list_step(graph.edges@, graph.head@[u as int] as int);
            lemma_list_in_range(graph.edges@, graph.head@[u as int] as int, graph.adj(u as int));
            assert(v == target(graph, graph.adj(u as int)[j as int]));
            assert(v < nodes);
            assert(low@[u as int] <= dfn@[u as int]);
            assert(low@[v as int] <= dfn@[v as int]);
            assert(dfn@[u as int] <= *cnt);
        }
        if dfn[v] == 0 {
            tarjan(graph, v, cnt, dfn, low, sc, scc, stack, in_stack);
            let ghost b = state(dfn@, low@, stack@, in_stack@, scc@, *cnt, *sc);
            proof {
                lemma_met_child(graph, s0.dfn, a.dfn, b.dfn, u as int, v as int, j as int);
                lemma_frame_trans(s0, a, b);
                assert(stack@.subrange(0, place) =~= a.stack.subrange(0, place));
                assert(kept(a, b, u as int));
                assert forall|x: int| 0 <= x < a.dfn.len() && a.dfn[x] != 0 implies #[trigger] b.dfn[x]
                    == a.dfn[x] by {
                    assert(kept(a, b, x));
                }
                lemma_count_zero_kept(a.dfn, b.dfn);
            }
            if low[v] < low[u] {
                proof {
                    lemma_child_lowered(graph, a, b, place, u as int, j as int);
                    lemma_frame_lowered(s0, b, u as int, b.low[v as int]);
                }
                low.set(u, low[v]);
                proof {
                    assert(state(dfn@, low@, stack@, in_stack@, scc@, *cnt, *sc) == lowered(
                        b,
                        u as int,
                        b.low[v as int],
                    ));
                }
            } else {
                proof {
                    lemma_child(graph, a, b, place, u as int, j as int);
                }
            }
        } else if in_stack[v] {
            if dfn[v] < low[u] {
                proof {
                    let at = choose|at: int| 0 <= at < stack@.len() && stack@[at] == v;
                    lemma_reach_edge(graph, u as int, j as int);
                    lemma_lowered(graph, a, place, u as int, j as int, at);
                    lemma_frame_lowered(s0, a, u as int, a.dfn[v as int]);
                    lemma_edge_done(
                        graph,
                        lowered(a, u as int, a.dfn[v as int]),
                        place,
                        u as int,
                        j as int,
                    );
                }
                low.set(u, dfn[v]);
                proof {
                    assert(state(dfn@, low@, stack@, in_stack@, scc@, *cnt, *sc) == lowered(
                        a,
                        u as int,
                        a.dfn[v as int],
                    ));
                }
            } else {
                proof {
                    lemma_edge_done(graph, a, place, u as int, j as int);
                }
            }
        } else {
            proof {
                lemma_edge_done(graph, a, place, u as int, j as int);
            }
        }
        j += 1;
    }
    if dfn[u] == low[u] {
        let ghost sure = state(dfn@, low@, stack@, in_stack@, scc@, *cnt, *sc);
        let ghost full = stack@;
        let ghost done = labels_after(full, scc@, place, (*sc + 1) as usize);
        proof {
            lemma_component(
                graph,
                dfn@,
                low@,
                stack@,
                in_stack@,
                scc@,
                *cnt,
                *sc,
                place,
                (*sc + 1) as usize,
            );
            lemma_descending_after(
                graph,
                dfn@,
                low@,
                stack@,
                in_stack@,
                scc@,
                *cnt,
                *sc,
                place,
                (*sc + 1) as usize,
            );
            assert forall|w: int| 0 <= w < nodes implies (#[trigger] scc@[w]) == if in_segment(
                full,
                place,
                w,
            ) {
                0
            } else {
                done[w]
            } by {
                if in_segment(full, place, w) {
                    let q = choose|q: int| place <= q < full.len() && #[trigger] full[q] == w;
                    assert(in_stack@[full[q] as int]);
                }
            }
            assert(full.subrange(0, full.len() as int) =~= full);
            assert(full.subrange(0, place) =~= s0.stack);
        }
        *sc += 1;
        let ghost mut pending: int = 1;
        proof {
            assert forall|k: int| 1 <= k <= *sc - 1 implies #[trigger] labelled(scc@, k) by {
                assert(labelled(scc@, k));
            }
        }
        loop
            invariant_except_break
                stack@.len() > place,
                stack@[place] == u,
            invariant
                nodes == graph.nodes@.len(),
                graph.wf(),
                u < nodes,
                s0 == state(
                    old(dfn)@,
                    old(low)@,
                    old(stack)@,
                    old(in_stack)@,
                    old(scc)@,
                    *old(cnt),
                    *old(sc),
                ),
                inv(graph, s0),
                inv(graph, sure),
                frame(s0, sure),
                labels_ok(graph, done),
                descending(graph, done),
                met_from(graph, s0.dfn, sure.dfn, u as int),
                s0.dfn[u as int] == 0,
                sure.dfn[u as int] > s0.cnt,
                sure.low[u as int] == sure.dfn[u as int],
                count_zero(sure.dfn) < count_zero(s0.dfn),
                full.subrange(0, place) == s0.stack,
                place < full.len(),
                full[place] == u,
                *sc >= 1,
                *sc == sure.sc + 1,
                *cnt == sure.cnt,
                0 <= pending <= 1,
                place == s0.stack.len(),
                stack@.len() >= place,
                stack@.len() <= full.len(),
                stack@ == full.subrange(0, stack@.len() as int),
                full == sure.stack,
                dfn@ == sure.dfn,
                low@ == sure.low,
                done == labels_after(full, sure.scc, place, *sc),
                forall|w: int|
                    0 <= w < nodes && !in_segment(full, place, w) ==> (#[trigger] in_stack@[w])
                        == sure.in_stack[w],
                leaving(stack@, place, scc@, done),
                search_ok(nodes, dfn@, low@, stack@, in_stack@, scc@, *cnt, *sc, pending),
            ensures
                stack@ == full.subrange(0, place),
                scc@ == done,
                search_ok(nodes, dfn@, low@, stack@, in_stack@, scc@, *cnt, *sc, 0),
            decreases stack@.len(),
        {
            let ghost held = stack@;
            let ghost marks = in_stack@;
            let ghost labels = scc@;
            let v = stack.pop().unwrap();
            in_stack.set(v, false);
            scc.set(v, *sc);
            proof {
                lemma_popped(
                    nodes,
                    dfn@,
                    low@,
                    held,
                    stack@,
                    marks,
                    in_stack@,
                    labels,
                    scc@,
                    *cnt,
                    *sc,
                    pending,
                );
                lemma_left(
                    nodes,
                    dfn@,
                    low@,
                    full,
                    held,
                    marks,
                    labels,
                    *cnt,
                    *sc,
                    pending,
                    place,
                    done,
                    *sc,
                );
                pending = 0;
                assert(in_segment(full, place, v as int)) by {
                    assert(full[held.len() - 1] == v);
                }
                if u == v {
                    if held.len() - 1 > place {
                        assert(dfn@[held[place] as int] < dfn@[held[held.len() - 1] as int]);
                    }
                    assert(stack@ =~= full.subrange(0, place));
                    assert forall|w: int| 0 <= w < nodes implies scc@[w] == done[w] by {
                        if in_segment(stack@, place, w) {
                            let q = choose|q: int|
                                place <= q < stack@.len() && #[trigger] stack@[q] == w;
                        }
                    }
                    assert(scc@ =~= done);
                }
            }
            if u == v {
                break ;
            }
        }
        proof {
            let last = state(dfn@, low@, stack@, in_stack@, scc@, *cnt, *sc);
            lemma_anchors_below(graph, sure.dfn, sure.low, full, place);
            assert(in_segment(full, place, u as int)) by {
                assert(full[place] == u);
            }
            assert forall|w: int| 0 <= w < s0.dfn.len() && s0.dfn[w] != 0 implies #[trigger] kept(
                s0,
                last,
                w,
            ) by {
                assert(kept(s0, sure, w));
                if in_segment(full, place, w) {
                    let q = choose|q: int| place <= q < full.len() && #[trigger] full[q] == w;
                    if q > place {
                        assert(sure.dfn[full[place] as int] < sure.dfn[full[q] as int]);
                    }
                    assert(s0.low[w] <= s0.dfn[w]);
                    assert(false);
                }
            }
            assert(frame(s0, last));
            assert(last.stack =~= s0.stack);
            assert(anchors_ok(graph, last.dfn, last.low, last.stack));
            assert(labels_ok(graph, last.scc));
            assert(inv(graph, last));
            assert(last.scc[u as int] != 0);
            assert(last.stack.subrange(0, s0.stack.len() as int) =~= s0.stack);
        }
    } else {
        proof {
            let last = state(dfn@, low@, stack@, in_stack@, scc@, *cnt, *sc);
            assert(low@[u as int] <= dfn@[u as int]);
            assert(last.stack.len() > s0.stack.len());
            assert(last.stack[s0.stack.len() as int] == u);
            assert(graph.adj(u as int).len() == list@.len());
            assert(progress(graph, last, place, u as int, graph.adj(u as int).len() as int));
        }
    }
}

/// Taking the top node from the stack and giving it the newest component
/// keeps the state of the search in order.
proof fn lemma_popped(
    nodes: int,
    dfn: Seq<usize>,
    low: Seq<usize>,
    full: Seq<usize>,
    stack: Seq<usize>,
    marks: Seq<bool>,
    in_stack: Seq<bool>,
    labels: Seq<usize>,
    scc: Seq<usize>,
    cnt: usize,
    sc: usize,
    pending: int,
)
    requires
        search_ok(nodes, dfn, low, full, marks, labels, cnt, sc, pending),
        0 <= pending <= 1,
        sc >= 1,
        full.len() > 0,
        stack == full.drop_last(),
        in_stack == marks.update(full.last() as int, false),
        scc == labels.update(full.last() as int, sc),
    ensures
        search_ok(nodes, dfn, low, stack, in_stack, scc, cnt, sc, 0),
{
    let top = full.len() - 1;
    let v = full[top] as int;
    assert(full[top] < nodes);
    assert forall|p: int| 0 <= p < stack.len() implies (#[trigger] stack[p]) < nodes && dfn[stack[p] as int]
        != 0 && in_stack[stack[p] as int] by {
        assert(stack[p] == full[p]);
        assert(dfn[full[p] as int] < dfn[full[top] as int]);
    }
    assert forall|p: int, q: int| 0 <= p < q < stack.len() implies dfn[#[trigger] stack[p] as int]
        < dfn[#[trigger] stack[q] as int] by {
        assert(stack[p] == full[p] && stack[q] == full[q]);
    }
    assert forall|x: int| 0 <= x < nodes && #[trigger] in_stack[x] implies stack.contains(
        x as usize,
    ) by {
        assert(marks[x]);
        let p = choose|p: int| 0 <= p < full.len() && full[p] == x as usize;
        assert(stack[p] == x as usize);
    }
    assert forall|x: int| 0 <= x < nodes && #[trigger] in_stack[x] implies scc[x] == 0 by {
        assert(marks[x]);
    }
    assert forall|p: int| 0 <= p < stack.len() implies #[trigger] anchored(dfn, low, stack, p) by {
        assert(anchored(dfn, low, full, p));
        let q = choose|q: int| 0 <= q <= p && low[full[p] as int] == dfn[#[trigger] full[q] as int];
        assert(stack[q] == full[q] && stack[p] == full[p]);
    }
    assert forall|k: int| 1 <= k <= sc implies #[trigger] labelled(scc, k) by {
        if k == sc {
            assert(scc[v] == k);
        } else {
            assert(labelled(labels, k));
            let w = choose|w: int| 0 <= w < labels.len() && #[trigger] labels[w] == k;
            assert(marks[v]);
            assert(labels[v] == 0);
            assert(scc[w] == k);
        }
    }
}

/// Labels every node with its strongly connected component, by Tarjan's
/// algorithm, and returns the number of components and the label of each
/// node.
///
/// The components are numbered from 1 in the order in which the search
/// completes them, so that an edge between two components leads to the
/// one with the smaller number. Every node from 1 on has a component and
/// every component has a node; node 0, the buffer slot, has one if and
/// only if a node from 1 on reaches it, and the label 0 else. Two nodes
/// that have a component have the same if and only if each can be reached
/// from the other.
pub fn scc<V, E>(graph: &Graph<V, E>) -> (out: (usize, Vec<usize>)) where
    V: Default + Clone,
    E: Default + Clone,

    requires
        graph.wf(),
    ensures
        out.1@.len() == graph.nodes@.len(),
        out.0 <= graph.nodes@.len(),
        forall|v: int| 1 <= v < out.1@.len() ==> 1 <= #[trigger] out.1@[v] <= out.0,
        out.1@[0] <= out.0,
        forall|k: int| 1 <= k <= out.0 ==> #[trigger] labelled(out.1@, k),
        labels_ok(graph, out.1@),
        forall|a: int, b: int|
            0 <= a < out.1@.len() && 0 <= b < out.1@.len() && out.1@[a] != 0 && out.1@[b] != 0 ==> (
            out.1@[a] == out.1@[b] <==> #[trigger] mutual(graph, a, b)),
        forall|w: int, k: int|
            0 <= w < out.1@.len() && out.1@[w] != 0 && 0 <= k < graph.adj(w).len()
                ==> #[trigger] falls(graph, out.1@, w, k),
        out.1@[0] != 0 <==> sourced(graph, 0),
        !entered_by_edge(graph, 0) ==> out.1@[0] == 0,
{
    let nodes = graph.nodes.len();
    let n = graph.len_nodes();
    let mut dfn: Vec<usize> = Vec::new();
    let mut low: Vec<usize> = Vec::new();
    let mut scc: Vec<usize> = Vec::new();
    let mut in_stack: Vec<bool> = Vec::new();
    let mut i: usize = 0;
    while i < nodes
        invariant
            i <= nodes,
            dfn@.len() == i,
            low@.len() == i,
            scc@.len() == i,
            in_stack@.len() == i,
            forall|v: int| 0 <= v < i ==> dfn@[v] == 0 && low@[v] == 0 && scc@[v] == 0 && !in_stack@[v],
        decreases nodes - i,
    {
        dfn.push(0);
        low.push(0);
        scc.push(0);
        in_stack.push(false);
        i += 1;
    }
    let mut sc: usize = 0;
    let mut stack: Vec<usize> = Vec::new();
    let mut cnt: usize = 0;
    proof {
        lemma_count_zero_all(dfn@);
        assert(labels_ok(graph, scc@));
        assert(anchors_ok(graph, dfn@, low@, stack@));
        assert(descending(graph, scc@)) by {
            reveal(descending);
        }
    }
    let mut u: usize = 1;
    while u <= n
        invariant
            graph.wf(),
            nodes == graph.nodes@.len(),
            n + 1 == nodes,
            1 <= u <= n + 1,
            stack@.len() == 0,
            inv(graph, state(dfn@, low@, stack@, in_stack@, scc@, cnt, sc)),
            forall|v: int| 1 <= v < u ==> (#[trigger] dfn@[v]) != 0,
            descending(graph, scc@),
            dfn@[0] != 0 ==> sourced(graph, 0),
        decreases n + 1 - u,
    {
        if dfn[u] == 0 {
            let ghost before = state(dfn@, low@, stack@, in_stack@, scc@, cnt, sc);
            tarjan(graph, u, &mut cnt, &mut dfn, &mut low, &mut sc, &mut scc, &mut stack, &mut in_stack);
            proof {
                let after = state(dfn@, low@, stack@, in_stack@, scc@, cnt, sc);
                if stack@.len() > 0 {
                    assert(anchored(dfn@, low@, stack@, 0));
                }
                assert forall|v: int| 1 <= v < u + 1 implies (#[trigger] dfn@[v]) != 0 by {
                    if v < u {
                        assert(kept(before, after, v));
                    }
                }
                if before.dfn[0] == 0 && dfn@[0] != 0 {
                    reveal(met_from);
                    assert(reaches(graph, u as int, 0));
                }
            }
        }
        u += 1;
    }
    proof {
        assert forall|v: int| 1 <= v < scc@.len() implies 1 <= #[trigger] scc@[v] <= sc by {
            assert(dfn@[v] != 0);
            if in_stack@[v] {
                assert(stack@.contains(v as usize));
            }
        }
        assert(low@[0] <= dfn@[0]);
        if dfn@[0] != 0 {
            if in_stack@[0] {
                assert(stack@.contains(0usize));
            }
        }
        reveal(descending);
        if sourced(graph, 0) {
            let r = choose|r: int| 1 <= r < graph.nodes@.len() && #[trigger] reaches(graph, r, 0);
            let path = choose|path: Seq<int>|
                walk_ok(graph, r, path) && #[trigger] walk_end(graph, r, path) == 0;
            lemma_closed_walk(graph, scc@, r, path);
            lemma_reached_by_edge(graph, r, 0);
        }
    }
    (sc, scc)
}

/// When nothing that was met is forgotten, no fewer nodes have been met.
proof fn lemma_count_zero_kept(before: Seq<usize>, after: Seq<usize>)
    requires
        before.len() == after.len(),
        forall|x: int| 0 <= x < before.len() && before[x] != 0 ==> #[trigger] after[x] == before[x],
    ensures
        count_zero(after) <= count_zero(before),
    decreases before.len(),
{
    if before.len() > 0 {
        assert(after.last() == after[after.len() - 1]);
        assert forall|x: int| 0 <= x < before.drop_last().len() && before.drop_last()[x]
            != 0 implies #[trigger] after.drop_last()[x] == before.drop_last()[x] by {
            assert(after[x] == before[x]);
        }
        lemma_count_zero_kept(before.drop_last(), after.drop_last());
        if before.last() != 0 {
            assert(after[before.len() - 1] == before[before.len() - 1]);
        }
    }
}

} // verus!
