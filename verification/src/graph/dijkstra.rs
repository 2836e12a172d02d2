//! Shortest paths from one node.
use vstd::prelude::*;
use super::heap::{Label, MinHeap, before};
use super::{lemma_list_in_range, lemma_list_step, Distance, Graph};

verus! {

/// The node that edge `e` leads to.
pub open spec fn target<V, E>(graph: &Graph<V, E>, e: int) -> int where
    V: Default + Clone,
    E: Default + Clone,
 {
    graph.edges@[e].1 as int
}

/// The length of edge `e`.
pub open spec fn weight<V, E>(graph: &Graph<V, E>, e: int) -> int where
    V: Default + Clone,
    E: Default + Clone + Distance<usize>,
 {
    graph.edges@[e].2.dist_spec() as int
}

/// `path` is a walk that starts at `from`: a sequence of edges, each of
/// which leaves the node that the one before it leads to.
pub open spec fn walk_ok<V, E>(graph: &Graph<V, E>, from: int, path: Seq<int>) -> bool where
    V: Default + Clone,
    E: Default + Clone,

    decreases path.len(),
{
    path.len() == 0 || (walk_ok(graph, from, path.drop_last()) && graph.adj(
        walk_end(graph, from, path.drop_last()),
    ).contains(path.last()))
}

/// The node at which a walk from `from` ends.
pub open spec fn walk_end<V, E>(graph: &Graph<V, E>, from: int, path: Seq<int>) -> int where
    V: Default + Clone,
    E: Default + Clone,
 {
    if path.len() == 0 {
        from
    } else {
        target(graph, path.last())
    }
}

/// A walk followed by a walk from where it ends is a walk.
pub proof fn lemma_walk_concat<V, E>(graph: &Graph<V, E>, from: int, a: Seq<int>, b: Seq<int>) where
    V: Default + Clone,
    E: Default + Clone,

    requires
        walk_ok(graph, from, a),
        walk_ok(graph, walk_end(graph, from, a), b),
    ensures
        walk_ok(graph, from, a + b),
        walk_end(graph, from, a + b) == walk_end(graph, walk_end(graph, from, a), b),
    decreases b.len(),
{
    if b.len() == 0 {
        assert(a + b =~= a);
    } else {
        lemma_walk_concat(graph, from, a, b.drop_last());
        assert((a + b).drop_last() =~= a + b.drop_last());
        assert((a + b).last() == b.last());
    }
}

/// The length of a walk: the sum of the lengths of its edges.
pub open spec fn walk_len<V, E>(graph: &Graph<V, E>, path: Seq<int>) -> int where
    V: Default + Clone,
    E: Default + Clone + Distance<usize>,

    decreases path.len(),
{
    if path.len() == 0 {
        0
    } else {
        walk_len(graph, path.drop_last()) + weight(graph, path.last())
    }
}

/// The label of `u` has been carried over the `k`-th edge that leaves
/// `u`: unless the sum is too large for a label, the node the edge leads
/// to has a label that is no larger than the label of `u` plus the length
/// of the edge.
pub open spec fn carried<V, E>(
    graph: &Graph<V, E>,
    dist: Seq<Option<usize>>,
    u: int,
    k: int,
) -> bool where V: Default + Clone, E: Default + Clone + Distance<usize> {
    let e = graph.adj(u)[k];
    let t = target(graph, e);
    dist[u].is_some() && (dist[u].unwrap() + weight(graph, e) <= usize::MAX ==> dist[t].is_some()
        && dist[t].unwrap() <= dist[u].unwrap() + weight(graph, e))
}

/// Every label has been carried over every edge that leaves its node.
pub open spec fn relaxed<V, E>(graph: &Graph<V, E>, dist: Seq<Option<usize>>) -> bool where
    V: Default + Clone,
    E: Default + Clone + Distance<usize>,
 {
    forall|u: int, k: int|
        0 <= u < dist.len() && dist[u].is_some() && 0 <= k < graph.adj(u).len() ==> #[trigger] carried(
            graph,
            dist,
            u,
            k,
        )
}

/// Every label is the length of a walk from `source` to its node.
pub open spec fn attained<V, E>(
    graph: &Graph<V, E>,
    source: int,
    dist: Seq<Option<usize>>,
) -> bool where V: Default + Clone, E: Default + Clone + Distance<usize> {
    forall|v: int|
        0 <= v < dist.len() && (#[trigger] dist[v]).is_some() ==> exists|path: Seq<int>|
            walk_ok(graph, source, path) && walk_end(graph, source, path) == v && walk_len(
                graph,
                path,
            ) == dist[v].unwrap()
}

/// Labels that start with 0 at the source and have been carried over
/// every edge are no larger than the length of any walk from the source:
/// a node that a walk of a length that fits a label reaches has a label,
/// and the label is at most that length.
pub proof fn lemma_labels_least<V, E>(
    graph: &Graph<V, E>,
    source: int,
    dist: Seq<Option<usize>>,
    path: Seq<int>,
) where V: Default + Clone, E: Default + Clone + Distance<usize>
    requires
        graph.wf(),
        dist.len() == graph.nodes@.len(),
        0 <= source < dist.len(),
        dist[source] == Some(0usize),
        relaxed(graph, dist),
        walk_ok(graph, source, path),
        walk_len(graph, path) <= usize::MAX,
    ensures
        0 <= walk_end(graph, source, path) < dist.len(),
        dist[walk_end(graph, source, path)].is_some(),
        dist[walk_end(graph, source, path)].unwrap() <= walk_len(graph, path),
    decreases path.len(),
{
    if path.len() > 0 {
        let prefix = path.drop_last();
        let e = path.last();
        lemma_labels_least(graph, source, dist, prefix);
        let u = walk_end(graph, source, prefix);
        let k = choose|k: int| 0 <= k < graph.adj(u).len() && graph.adj(u)[k] == e;
        assert(carried(graph, dist, u, k));
        lemma_list_step(graph.edges@, graph.head@[u] as int);
        lemma_list_in_range(graph.edges@, graph.head@[u] as int, graph.adj(u));
    }
}

/// The number of `false` entries.
pub open spec fn count_false(s: Seq<bool>) -> nat
    decreases s.len(),
{
    if s.len() == 0 {
        0
    } else {
        count_false(s.drop_last()) + if s.last() {
            0nat
        } else {
            1nat
        }
    }
}

/// Setting a `false` entry to `true` leaves one `false` entry less.
pub proof fn lemma_count_false_set(s: Seq<bool>, i: int)
    requires
        0 <= i < s.len(),
        !s[i],
    ensures
        count_false(s.update(i, true)) + 1 == count_false(s),
    decreases s.len(),
{
    if i == s.len() - 1 {
        assert(s.update(i, true).drop_last() =~= s.drop_last());
    } else {
        lemma_count_false_set(s.drop_last(), i);
        assert(s.update(i, true).drop_last() =~= s.drop_last().update(i, true));
    }
}

/// What holds between two steps of the search. `visited` marks the nodes
/// whose label is final; `queue` holds the labels waiting; `paths` holds a
/// walk for every label. While the edges of the node `cur` are handled,
/// `upto` of them are done; between nodes `cur` is -1.
spec fn search_ok<V, E>(
    graph: &Graph<V, E>,
    source: int,
    dist: Seq<Option<usize>>,
    visited: Seq<bool>,
    queue: Seq<Label>,
    paths: Seq<Seq<int>>,
    cur: int,
    upto: int,
) -> bool where V: Default + Clone, E: Default + Clone + Distance<usize> {
    let n = graph.nodes@.len() as int;
    &&& n <= usize::MAX
    &&& dist.len() == n
    &&& visited.len() == n
    &&& paths.len() == n
    &&& 0 <= source < n
    &&& dist[source] == Some(0usize)
    &&& forall|v: int|
        0 <= v < n && (#[trigger] dist[v]).is_some() ==> walk_ok(graph, source, paths[v])
            && walk_end(graph, source, paths[v]) == v && walk_len(graph, paths[v])
            == dist[v].unwrap()
    &&& forall|u: int| 0 <= u < n && #[trigger] visited[u] ==> dist[u].is_some()
    &&& forall|u: int, k: int|
        0 <= u < n && visited[u] && 0 <= k < graph.adj(u).len() && (u != cur || k < upto)
            ==> #[trigger] carried(graph, dist, u, k)
    &&& forall|s: int, x: int|
        0 <= s < n && 0 <= x < n && #[trigger] visited[s] && !#[trigger] visited[x]
            && dist[x].is_some() ==> dist[s].unwrap() <= dist[x].unwrap()
    &&& forall|x: int|
        0 <= x < n && !#[trigger] visited[x] && dist[x].is_some() ==> queue.contains(
            (dist[x].unwrap(), x as usize),
        )
    &&& forall|e: Label| #[trigger]
        queue.contains(e) ==> e.1 < n && dist[e.1 as int].is_some() && dist[e.1 as int].unwrap()
            <= e.0
    &&& cur >= 0 ==> 0 <= cur < n && visited[cur] && forall|s: int|
        0 <= s < n && #[trigger] visited[s] ==> dist[s].unwrap() <= dist[cur].unwrap()
}

/// Dropping a waiting label whose node is final changes nothing.
proof fn lemma_skip<V, E>(
    graph: &Graph<V, E>,
    source: int,
    dist: Seq<Option<usize>>,
    visited: Seq<bool>,
    queue: Seq<Label>,
    rest: Seq<Label>,
    paths: Seq<Seq<int>>,
    label: Label,
) where V: Default + Clone, E: Default + Clone + Distance<usize>
    requires
        search_ok(graph, source, dist, visited, queue, paths, -1, 0),
        queue.contains(label),
        visited[label.1 as int],
        forall|e: Label| e != label && queue.contains(e) ==> rest.contains(e),
        forall|e: Label| rest.contains(e) ==> queue.contains(e),
    ensures
        search_ok(graph, source, dist, visited, rest, paths, -1, 0),
{
    assert forall|x: int|
        0 <= x < dist.len() && !#[trigger] visited[x] && dist[x].is_some() implies rest.contains(
        (dist[x].unwrap(), x as usize),
    ) by {
        assert(queue.contains((dist[x].unwrap(), x as usize)));
    }
}

/// Taking a label that leaves before no other, for a node that is not
/// final, makes that node final with that label.
proof fn lemma_pick<V, E>(
    graph: &Graph<V, E>,
    source: int,
    dist: Seq<Option<usize>>,
    visited: Seq<bool>,
    queue: Seq<Label>,
    rest: Seq<Label>,
    paths: Seq<Seq<int>>,
    label: Label,
) where V: Default + Clone, E: Default + Clone + Distance<usize>
    requires
        search_ok(graph, source, dist, visited, queue, paths, -1, 0),
        queue.contains(label),
        !visited[label.1 as int],
        forall|e: Label| queue.contains(e) ==> !before(e, label),
        forall|e: Label| e != label && queue.contains(e) ==> rest.contains(e),
        forall|e: Label| rest.contains(e) ==> queue.contains(e),
    ensures
        dist[label.1 as int] == Some(label.0),
        search_ok(
            graph,
            source,
            dist,
            visited.update(label.1 as int, true),
            rest,
            paths,
            label.1 as int,
            0,
        ),
{
    let u = label.1 as int;
    let n = dist.len() as int;
    let marked = visited.update(u, true);
    let own = (dist[u].unwrap(), u as usize);
    assert(queue.contains(own));
    assert(!before(own, label));
    assert forall|x: int| 0 <= x < n && !visited[x] && dist[x].is_some() implies dist[x].unwrap()
        >= label.0 by {
        let theirs = (dist[x].unwrap(), x as usize);
        assert(queue.contains(theirs));
        assert(!before(theirs, label));
    }
    assert forall|x: int|
        0 <= x < n && !#[trigger] marked[x] && dist[x].is_some() implies rest.contains(
        (dist[x].unwrap(), x as usize),
    ) by {
        assert(!visited[x]);
        assert(queue.contains((dist[x].unwrap(), x as usize)));
    }
    assert forall|s: int, x: int|
        0 <= s < n && 0 <= x < n && #[trigger] marked[s] && !#[trigger] marked[x]
            && dist[x].is_some() implies dist[s].unwrap() <= dist[x].unwrap() by {
        assert(!visited[x]);
        if s != u {
            assert(visited[s]);
        }
    }
    assert forall|s: int| 0 <= s < n && #[trigger] marked[s] implies dist[s].unwrap()
        <= dist[u].unwrap() by {
        if s != u {
            assert(visited[s]);
            assert(!visited[u]);
        }
    }
    assert forall|s: int, k: int|
        0 <= s < n && marked[s] && 0 <= k < graph.adj(s).len() && (s != u || k
            < 0) implies #[trigger] carried(graph, dist, s, k) by {
        assert(visited[s]);
    }
    assert forall|s: int| 0 <= s < n && #[trigger] marked[s] implies dist[s].is_some() by {
        if s != u {
            assert(visited[s]);
        }
    }
}

/// Handling an edge of `cur` that gives the node it leads to a smaller
/// label.
proof fn lemma_improve<V, E>(
    graph: &Graph<V, E>,
    source: int,
    dist: Seq<Option<usize>>,
    visited: Seq<bool>,
    queue: Seq<Label>,
    more: Seq<Label>,
    paths: Seq<Seq<int>>,
    cur: int,
    upto: int,
    sum: usize,
) where V: Default + Clone, E: Default + Clone + Distance<usize>
    requires
        graph.wf(),
        search_ok(graph, source, dist, visited, queue, paths, cur, upto),
        0 <= cur,
        0 <= upto < graph.adj(cur).len(),
        sum == dist[cur].unwrap() + weight(graph, graph.adj(cur)[upto]),
        dist[target(graph, graph.adj(cur)[upto])].is_none() || dist[target(
            graph,
            graph.adj(cur)[upto],
        )].unwrap() > sum,
        forall|e: Label|
            more.contains(e) <==> queue.contains(e) || e == (
                sum,
                target(graph, graph.adj(cur)[upto]) as usize,
            ),
    ensures
        0 <= target(graph, graph.adj(cur)[upto]) < dist.len(),
        !visited[target(graph, graph.adj(cur)[upto])],
        search_ok(
            graph,
            source,
            dist.update(target(graph, graph.adj(cur)[upto]), Some(sum)),
            visited,
            more,
            paths.update(
                target(graph, graph.adj(cur)[upto]),
                paths[cur].push(graph.adj(cur)[upto]),
            ),
            cur,
            upto + 1,
        ),
{
    let n = dist.len() as int;
    let e = graph.adj(cur)[upto];
    let v = target(graph, e);
    lemma_list_step(graph.edges@, graph.head@[cur] as int);
    lemma_list_in_range(graph.edges@, graph.head@[cur] as int, graph.adj(cur));
    assert(0 <= v < n);
    let after = dist.update(v, Some(sum));
    let walks = paths.update(v, paths[cur].push(e));
    assert(visited[cur]);
    if visited[v] {
        assert(dist[v].unwrap() <= dist[cur].unwrap());
    }
    assert forall|x: int| 0 <= x < n && (#[trigger] after[x]).is_some() implies walk_ok(
        graph,
        source,
        walks[x],
    ) && walk_end(graph, source, walks[x]) == x && walk_len(graph, walks[x])
        == after[x].unwrap() by {
        if x == v {
            assert(dist[cur].is_some());
            assert(walks[x].drop_last() =~= paths[cur]);
            assert(graph.adj(cur).contains(e));
        } else {
            assert(dist[x].is_some());
        }
    }
    assert forall|s: int, k: int|
        0 <= s < n && visited[s] && 0 <= k < graph.adj(s).len() && (s != cur || k < upto
            + 1) implies #[trigger] carried(graph, after, s, k) by {
        lemma_list_step(graph.edges@, graph.head@[s] as int);
        lemma_list_in_range(graph.edges@, graph.head@[s] as int, graph.adj(s));
        let t = target(graph, graph.adj(s)[k]);
        assert(0 <= t < n);
        if s != cur || k < upto {
            assert(carried(graph, dist, s, k));
        }
    }
    assert forall|s: int, x: int|
        0 <= s < n && 0 <= x < n && #[trigger] visited[s] && !#[trigger] visited[x]
            && after[x].is_some() implies after[s].unwrap() <= after[x].unwrap() by {
        assert(dist[s].unwrap() <= dist[cur].unwrap());
    }
    assert forall|x: int|
        0 <= x < n && !#[trigger] visited[x] && after[x].is_some() implies more.contains(
        (after[x].unwrap(), x as usize),
    ) by {
        if x != v {
            assert(queue.contains((dist[x].unwrap(), x as usize)));
        }
    }
    assert forall|l: Label| #[trigger] more.contains(l) implies l.1 < n && after[l.1 as int].is_some()
        && after[l.1 as int].unwrap() <= l.0 by {
        if queue.contains(l) {
            assert(dist[l.1 as int].is_some());
        }
    }
    assert forall|s: int| 0 <= s < n && #[trigger] visited[s] implies after[s].unwrap()
        <= after[cur].unwrap() by {
        assert(dist[s].unwrap() <= dist[cur].unwrap());
    }
}

/// Handling an edge of `cur` that gives no smaller label.
proof fn lemma_keep<V, E>(
    graph: &Graph<V, E>,
    source: int,
    dist: Seq<Option<usize>>,
    visited: Seq<bool>,
    queue: Seq<Label>,
    paths: Seq<Seq<int>>,
    cur: int,
    upto: int,
) where V: Default + Clone, E: Default + Clone + Distance<usize>
    requires
        search_ok(graph, source, dist, visited, queue, paths, cur, upto),
        0 <= cur,
        0 <= upto < graph.adj(cur).len(),
        dist[cur].unwrap() + weight(graph, graph.adj(cur)[upto]) <= usize::MAX ==> dist[target(
            graph,
            graph.adj(cur)[upto],
        )].is_some() && dist[target(graph, graph.adj(cur)[upto])].unwrap() <= dist[cur].unwrap()
            + weight(graph, graph.adj(cur)[upto]),
    ensures
        search_ok(graph, source, dist, visited, queue, paths, cur, upto + 1),
{
    assert forall|s: int, k: int|
        0 <= s < dist.len() && visited[s] && 0 <= k < graph.adj(s).len() && (s != cur || k < upto
            + 1) implies #[trigger] carried(graph, dist, s, k) by {
        if s != cur || k < upto {
            assert(carried(graph, dist, s, k));
        }
    }
}

/// When no label waits, every label has been carried over every edge.
proof fn lemma_done<V, E>(
    graph: &Graph<V, E>,
    source: int,
    dist: Seq<Option<usize>>,
    visited: Seq<bool>,
    queue: Seq<Label>,
    paths: Seq<Seq<int>>,
) where V: Default + Clone, E: Default + Clone + Distance<usize>
    requires
        search_ok(graph, source, dist, visited, queue, paths, -1, 0),
        queue.len() == 0,
    ensures
        relaxed(graph, dist),
        attained(graph, source, dist),
{
    assert forall|u: int, k: int|
        0 <= u < dist.len() && dist[u].is_some() && 0 <= k < graph.adj(
            u,
        ).len() implies #[trigger] carried(graph, dist, u, k) by {
        if !visited[u] {
            assert(queue.contains((dist[u].unwrap(), u as usize)));
        }
    }
    assert forall|v: int| 0 <= v < dist.len() && (#[trigger] dist[v]).is_some() implies exists|
        path: Seq<int>,
    |
        walk_ok(graph, source, path) && walk_end(graph, source, path) == v && walk_len(
            graph,
            path,
        ) == dist[v].unwrap() by {
        let path = paths[v];
        assert(walk_ok(graph, source, path) && walk_end(graph, source, path) == v && walk_len(
            graph,
            path,
        ) == dist[v].unwrap());
    }
}

/// Dijkstra - Finding shortest paths from given vertex.
///
/// For more information, see [Dijkstra algorithm](https://cp-algorithms.com/graph/dijkstra.html)
/// - Input:
///     - `source` - the source vertex
///     - `graph` - the graph with a length on each edge
/// - Output:
///     - for each vertex the length of a shortest walk from the source to
///       it, or `None` if there is no walk to it whose length fits in a
///       `usize`.
///
/// The contract says this with three facts: the source has the label 0;
/// every label is the length of a walk; and every label has been carried
/// over every edge, from which `lemma_labels_least` shows that no walk is
/// shorter than the label of its end.
pub fn dijkstra<V, E>(source: usize, graph: &Graph<V, E>) -> (dist: Vec<Option<usize>>) where
    V: Default + Clone,
    E: Default + Clone + Distance<usize>,

    requires
        graph.wf(),
        source < graph.nodes@.len(),
    ensures
        dist@.len() == graph.nodes@.len(),
        dist@[source as int] == Some(0usize),
        attained(graph, source as int, dist@),
        relaxed(graph, dist@),
{
    let n = graph.nodes.len();
    let mut dist: Vec<Option<usize>> = Vec::new();
    let mut visited: Vec<bool> = Vec::new();
    let mut i: usize = 0;
    while i < n
        invariant
            i <= n,
            dist@.len() == i,
            visited@.len() == i,
            forall|v: int| 0 <= v < i ==> (#[trigger] dist@[v]).is_none(),
            forall|v: int| 0 <= v < i ==> !#[trigger] visited@[v],
        decreases n - i,
    {
        dist.push(None);
        visited.push(false);
        i += 1;
    }
    dist.set(source, Some(0));
    let mut pq = MinHeap::new();
    pq.push((0, source));
    let ghost mut paths: Seq<Seq<int>> = Seq::new(n as nat, |v: int| Seq::<int>::empty());
    proof {
        assert(pq.data@.contains((0usize, source)));
        assert(search_ok(graph, source as int, dist@, visited@, pq.data@, paths, -1, 0));
    }
    while !pq.is_empty()
        invariant
            graph.wf(),
            n == graph.nodes@.len(),
            pq.wf(),
            search_ok(graph, source as int, dist@, visited@, pq.data@, paths, -1, 0),
        decreases count_false(visited@), pq.data@.len(),
    {
        let ghost queue = pq.data@;
        let label = pq.pop().unwrap();
        let u = label.1;
        if visited[u] {
            proof {
                lemma_skip(graph, source as int, dist@, visited@, queue, pq.data@, paths, label);
            }
            continue ;
        }
        proof {
            lemma_pick(graph, source as int, dist@, visited@, queue, pq.data@, paths, label);
            lemma_count_false_set(visited@, u as int);
        }
        visited.set(u, true);
        let reach = label.0;
        let list = graph.get_edges(u);
        let mut j: usize = 0;
        while j < list.len()
            invariant
                graph.wf(),
                n == graph.nodes@.len(),
                pq.wf(),
                u < n,
                j <= list@.len(),
                graph.lists(list@, graph.adj(u as int)),
                dist@[u as int] == Some(reach),
                search_ok(graph, source as int, dist@, visited@, pq.data@, paths, u as int, j as int),
            decreases list@.len() - j,
        {
            let ghost e = graph.adj(u as int)[j as int];
            let v = *list[j].0;
            let w = list[j].1.dist();
            proof {
                lemma_list_step(graph.edges@, graph.head@[u as int] as int);
                lemma_list_in_range(graph.edges@, graph.head@[u as int] as int, graph.adj(u as int));
                assert(v == target(graph, e));
                assert(w == weight(graph, e));
            }
            let sum = reach.checked_add(w);
            let better = match sum {
                Some(c) => match dist[v] {
                    None => true,
                    Some(known) => known > c,
                },
                None => false,
            };
            if better {
                let c = sum.unwrap();
                let ghost queue = pq.data@;
                let ghost labels = dist@;
                dist.set(v, Some(c));
                pq.push((c, v));
                proof {
                    lemma_improve(
                        graph,
                        source as int,
                        labels,
                        visited@,
                        queue,
                        pq.data@,
                        paths,
                        u as int,
                        j as int,
                        c,
                    );
                    paths = paths.update(v as int, paths[u as int].push(e));
                }
            } else {
                proof {
                    lemma_keep(
                        graph,
                        source as int,
                        dist@,
                        visited@,
                        pq.data@,
                        paths,
                        u as int,
                        j as int,
                    );
                }
            }
            j += 1;
        }
        proof {
            assert(search_ok(graph, source as int, dist@, visited@, pq.data@, paths, -1, 0));
        }
    }
    proof {
        lemma_done(graph, source as int, dist@, visited@, pq.data@, paths);
    }
    dist
}

} // verus!
