//! Graphs and graph algorithms.
//!
//! All graph algorithms work on [`Graph`], an adjacency list laid out in
//! flat arrays: the edges of a node form a linked list through the edge
//! array, which the node's head starts and the edge index 0 ends.
pub mod degree;
pub mod dijkstra;
pub mod distance;
mod heap;
pub mod hierholzer;
pub mod scc;
pub mod sort;

pub use self::degree::Degree;
pub use self::dijkstra::dijkstra;
pub use self::distance::Distance;
pub use self::hierholzer::{hierholzer_directed, hierholzer_undirected};
pub use self::scc::scc;

use vstd::prelude::*;

verus! {

/// `idxs` are the indices of the edges met when the list that starts at
/// edge `start` is followed to its end, the edge index 0.
pub open spec fn is_list<E>(edges: Seq<(usize, usize, E)>, start: int, idxs: Seq<int>) -> bool
    decreases idxs.len(),
{
    if idxs.len() == 0 {
        start == 0
    } else {
        &&& 0 < start < edges.len()
        &&& idxs[0] == start
        &&& is_list(edges, edges[start].0 as int, idxs.drop_first())
    }
}

/// Following the list that starts at edge `start` comes to an end.
pub open spec fn has_list<E>(edges: Seq<(usize, usize, E)>, start: int) -> bool {
    exists|idxs: Seq<int>| is_list(edges, start, idxs)
}

/// The indices of the edges of the list that starts at edge `start`, in
/// the order of the list.
pub open spec fn list_of<E>(edges: Seq<(usize, usize, E)>, start: int) -> Seq<int> {
    choose|idxs: Seq<int>| is_list(edges, start, idxs)
}

/// A list has one sequence of edges.
pub proof fn lemma_list_unique<E>(
    edges: Seq<(usize, usize, E)>,
    start: int,
    a: Seq<int>,
    b: Seq<int>,
)
    requires
        is_list(edges, start, a),
        is_list(edges, start, b),
    ensures
        a == b,
    decreases a.len(),
{
    if a.len() > 0 && b.len() > 0 {
        lemma_list_unique(edges, edges[start].0 as int, a.drop_first(), b.drop_first());
        assert(a =~= seq![a[0]] + a.drop_first());
        assert(b =~= seq![b[0]] + b.drop_first());
    } else {
        assert(a =~= b);
    }
}

/// The sequence of edges of a list that is known to end.
pub proof fn lemma_list_of<E>(edges: Seq<(usize, usize, E)>, start: int, idxs: Seq<int>)
    requires
        is_list(edges, start, idxs),
    ensures
        has_list(edges, start),
        list_of(edges, start) == idxs,
{
    lemma_list_unique(edges, start, list_of(edges, start), idxs);
}

/// A list that ends is empty if it starts at 0; otherwise it is its first
/// edge followed by the list that starts at that edge's successor.
pub proof fn lemma_list_step<E>(edges: Seq<(usize, usize, E)>, start: int)
    requires
        has_list(edges, start),
    ensures
        is_list(edges, start, list_of(edges, start)),
        start == 0 <==> list_of(edges, start).len() == 0,
        start != 0 ==> 0 < start < edges.len() && has_list(edges, edges[start].0 as int)
            && list_of(edges, start) == seq![start] + list_of(edges, edges[start].0 as int),
{
    let idxs = list_of(edges, start);
    if start != 0 {
        lemma_list_of(edges, edges[start].0 as int, idxs.drop_first());
        assert(idxs =~= seq![start] + idxs.drop_first());
    }
}

/// Every edge of a list is a real edge: its index is neither 0 nor out of
/// range.
pub proof fn lemma_list_in_range<E>(edges: Seq<(usize, usize, E)>, start: int, idxs: Seq<int>)
    requires
        is_list(edges, start, idxs),
    ensures
        forall|k: int| 0 <= k < idxs.len() ==> 0 < #[trigger] idxs[k] < edges.len(),
    decreases idxs.len(),
{
    if idxs.len() > 0 {
        lemma_list_in_range(edges, edges[start].0 as int, idxs.drop_first());
        assert forall|k: int| 0 <= k < idxs.len() implies 0 < #[trigger] idxs[k] < edges.len() by {
            if k > 0 {
                assert(idxs[k] == idxs.drop_first()[k - 1]);
            }
        }
    }
}

/// A list is unchanged by a change of the edge array that leaves the
/// successors of its own edges alone.
pub proof fn lemma_list_kept<E>(
    edges: Seq<(usize, usize, E)>,
    other: Seq<(usize, usize, E)>,
    start: int,
    idxs: Seq<int>,
)
    requires
        is_list(edges, start, idxs),
        other.len() >= edges.len(),
        forall|k: int| 0 <= k < idxs.len() ==> other[#[trigger] idxs[k]].0 == edges[idxs[k]].0,
    ensures
        is_list(other, start, idxs),
    decreases idxs.len(),
{
    if idxs.len() > 0 {
        assert(idxs[0] == start);
        assert forall|k: int| 0 <= k < idxs.drop_first().len() implies other[#[trigger] idxs.drop_first()[k]].0
            == edges[idxs.drop_first()[k]].0 by {
            assert(idxs.drop_first()[k] == idxs[k + 1]);
        }
        lemma_list_kept(edges, other, edges[start].0 as int, idxs.drop_first());
    }
}

/// The edge that pairs with edge `idx` when edges are added two at a
/// time, one for each direction: 1 with 2, 3 with 4, and so on.
pub open spec fn twin_spec(idx: int) -> int {
    if idx % 2 == 1 {
        idx + 1
    } else {
        idx - 1
    }
}

/// The edge that pairs with edge `idx`.
pub fn twin(idx: usize) -> (out: usize)
    requires
        1 <= idx,
        twin_spec(idx as int) <= usize::MAX,
    ensures
        out == twin_spec(idx as int),
{
    let low = idx - 1;
    assert((low ^ 1) / 2 == low / 2 && (low ^ 1) % 2 != low % 2) by (bit_vector);
    (low ^ 1) + 1
}

/// `v` is what a node holds that was made without a value of its own: a
/// copy of a default value of `V`.
pub open spec fn blank_node<V: Default + Clone>(v: V) -> bool {
    exists|d: V| call_ensures(V::default, (), d) && #[trigger] cloned(d, v)
}

/// Graph representation using adjacency list.
///
/// `V` is the information stored in each node, and `E` is the information
/// stored in each edge. An edge is a triple: the index of the next edge of
/// the same node (0 at the end of the list), the node the edge leads to,
/// and its information. Edge 0 is a buffer slot and no edge of the graph.
pub struct Graph<V = (), E = ()> where V: Default + Clone, E: Default + Clone {
    /// The information stored in each node.
    pub nodes: Vec<V>,
    /// The head node in adjacency list for each node in graph.
    pub head: Vec<usize>,
    /// The information stored in each edge.
    pub edges: Vec<(usize, usize, E)>,
    /// The slots of the edge array that are recorded as erased and will be
    /// used again for new edges, the last recorded first.
    pub erased: Vec<usize>,
}

impl<V, E> Graph<V, E> where V: Default + Clone, E: Default + Clone {
    /// The indices of the edges that leave node `v`, in the order of its
    /// list; empty for a `v` that is no node.
    pub open spec fn adj(&self, v: int) -> Seq<int> {
        if 0 <= v < self.head@.len() {
            list_of(self.edges@, self.head@[v] as int)
        } else {
            Seq::empty()
        }
    }

    /// Every slot recorded as erased is the slot of a real edge, is
    /// recorded once, and is on no node's list.
    pub open spec fn free_slots(&self) -> bool {
        &&& self.erased@.len() < self.edges@.len()
        &&& forall|k: int|
            0 <= k < self.erased@.len() ==> 0 < #[trigger] self.erased@[k]
                < self.edges@.len()
        &&& forall|j: int, k: int|
            0 <= j < k < self.erased@.len() ==> self.erased@[j]
                != self.erased@[k]
        &&& forall|v: int, k: int|
            0 <= v < self.head@.len() && 0 <= k < self.erased@.len() ==> !(#[trigger] self.adj(
                v,
            )).contains(#[trigger] self.erased@[k] as int)
    }

    /// No edge is on the lists of two nodes.
    pub open spec fn apart(&self) -> bool {
        forall|u: int, v: int, x: int|
            0 <= u < self.head@.len() && 0 <= v < self.head@.len() && u != v
                && #[trigger] self.adj(u).contains(x) ==> !#[trigger] self.adj(v).contains(x)
    }

    /// The edges that leave node `v`, for a `v` that is an index.
    pub open spec fn adj_of(&self, v: usize) -> Seq<int> {
        self.adj(v as int)
    }

    /// The graph is well formed: there is a head for every node, every
    /// list comes to an end, the lists share no edge, every edge leads to
    /// a node, and the erased slots are free.
    pub open spec fn wf(&self) -> bool {
        &&& self.nodes@.len() >= 1
        &&& self.head@.len() == self.nodes@.len()
        &&& self.edges@.len() >= 1
        &&& forall|v: int|
            0 <= v < self.head@.len() ==> has_list(self.edges@, #[trigger] self.head@[v] as int)
        &&& forall|e: int|
            0 <= e < self.edges@.len() ==> (#[trigger] self.edges@[e]).1 < self.nodes@.len()
        &&& self.free_slots()
        &&& self.apart()
    }

    /// Create a new graph with `n` nodes and no edge.
    pub fn new(n: usize) -> (out: Self)
        requires
            n < usize::MAX,
        ensures
            out.wf(),
            out.nodes@.len() == n + 1,
            out.edges@.len() == 1,
            out.erased@.len() == 0,
            forall|v: int| 0 <= v <= n ==> out.head@[v] == 0 && #[trigger] out.adj(v)
                == Seq::<int>::empty(),
            forall|v: int| 0 <= v <= n ==> call_ensures(V::default, (), #[trigger] out.nodes@[v]),
            out.edges@[0].0 == 0,
            out.edges@[0].1 == 0,
            call_ensures(E::default, (), out.edges@[0].2),
    {
        let mut nodes: Vec<V> = Vec::new();
        let mut i: usize = 0;
        while i <= n
            invariant
                n < usize::MAX,
                i <= n + 1,
                nodes@.len() == i,
                forall|v: int| 0 <= v < i ==> call_ensures(V::default, (), #[trigger] nodes@[v]),
            decreases n + 1 - i,
        {
            nodes.push(V::default());
            i += 1;
        }
        Self::from_nodes(nodes)
    }

    /// Create a new graph from a given vector of nodes, with no edge.
    /// `nodes[0]` is the buffer slot: the graph is well formed if the
    /// vector holds it.
    pub fn from_nodes(nodes: Vec<V>) -> (out: Self)
        ensures
            nodes@.len() >= 1 ==> out.wf(),
            out.nodes@ == nodes@,
            out.head@.len() == nodes@.len(),
            out.edges@.len() == 1,
            out.erased@.len() == 0,
            forall|v: int| 0 <= v < nodes@.len() ==> out.head@[v] == 0 && #[trigger] out.adj(v)
                == Seq::<int>::empty(),
            out.edges@[0].0 == 0,
            out.edges@[0].1 == 0,
            call_ensures(E::default, (), out.edges@[0].2),
    {
        let mut head: Vec<usize> = Vec::new();
        let mut i: usize = 0;
        while i < nodes.len()
            invariant
                i <= nodes@.len(),
                head@.len() == i,
                forall|v: int| 0 <= v < i ==> head@[v] == 0,
            decreases nodes@.len() - i,
        {
            head.push(0);
            i += 1;
        }
        let mut edges: Vec<(usize, usize, E)> = Vec::new();
        edges.push((0, 0, E::default()));
        let out = Graph { nodes, head, edges, erased: Vec::new() };
        proof {
            lemma_list_of(out.edges@, 0, Seq::<int>::empty());
        }
        out
    }

    /// Create a graph with no node and no edge.
    pub fn empty() -> (out: Self)
        ensures
            out.wf(),
            out.nodes@.len() == 1,
            out.edges@.len() == 1,
            out.erased@.len() == 0,
            out.head@[0] == 0,
            out.adj(0) == Seq::<int>::empty(),
            call_ensures(V::default, (), out.nodes@[0]),
            out.edges@[0].0 == 0,
            out.edges@[0].1 == 0,
            call_ensures(E::default, (), out.edges@[0].2),
    {
        Self::new(0)
    }

    /// Get the number of nodes in the graph.
    pub fn len_nodes(&self) -> (out: usize)
        requires
            self.nodes@.len() >= 1,
        ensures
            out == self.nodes@.len() - 1,
    {
        self.nodes.len() - 1
    }

    /// Get the number of edges in the graph: the slots of the edge array
    /// that are not recorded as erased.
    pub fn len_edges(&self) -> (out: usize)
        requires
            self.erased@.len() < self.edges@.len(),
        ensures
            out == self.edges@.len() - self.erased@.len() - 1,
    {
        self.edges.len() - self.erased.len() - 1
    }

    /// Moves the cursor `idx` from an edge to the next edge of its list and
    /// records the slot it then points at as erased. A cursor at 0, the end
    /// of a list, is left alone.
    pub fn erase_edge(&mut self, idx: &mut usize)
        requires
            *old(idx) < old(self).edges@.len(),
        ensures
            final(self).nodes@ == old(self).nodes@,
            final(self).head@ == old(self).head@,
            final(self).edges@ == old(self).edges@,
            *old(idx) == 0 ==> *final(idx) == 0 && final(self).erased@ == old(self).erased@,
            *old(idx) != 0 ==> *final(idx) == old(self).edges@[*old(idx) as int].0 && final(self).erased@ == old(self).erased@.push(*final(idx)),
    {
        if *idx == 0 {
            return ;
        }
        *idx = self.edges[*idx].0;
        self.erased.push(*idx);
    }

    /// Get the edge information of the edge with index `idx`: the next
    /// edge of its list, the node it leads to, and what is stored in it.
    pub fn get_edge(&self, idx: usize) -> (out: (usize, usize, &E))
        requires
            idx < self.edges@.len(),
        ensures
            out.0 == self.edges@[idx as int].0,
            out.1 == self.edges@[idx as int].1,
            *out.2 == self.edges@[idx as int].2,
    {
        let edge = &self.edges[idx];
        (edge.0, edge.1, &edge.2)
    }

    /// Get the twin edge information of the edge with index `idx`.
    /// Often used in undirected graphs as the reverse edge.
    pub fn get_twin_edge(&self, idx: usize) -> (out: (usize, usize, &E))
        requires
            1 <= idx,
            twin_spec(idx as int) < self.edges@.len(),
        ensures
            out.0 == self.edges@[twin_spec(idx as int)].0,
            out.1 == self.edges@[twin_spec(idx as int)].1,
            *out.2 == self.edges@[twin_spec(idx as int)].2,
    {
        assert(self.edges@.len() == self.edges.len());
        self.get_edge(twin(idx))
    }
    /// Get the edge information of the edge with index `idx`, with what is
    /// stored in it open to change.
    pub fn get_edge_mut(&mut self, idx: usize) -> (out: (usize, usize, &mut E))
        requires
            idx < old(self).edges@.len(),
        ensures
            out.0 == old(self).edges@[idx as int].0,
            out.1 == old(self).edges@[idx as int].1,
            *out.2 == old(self).edges@[idx as int].2,
            final(self).edges@ == old(self).edges@.update(
                idx as int,
                (out.0, out.1, *final(out.2)),
            ),
            final(self).nodes@ == old(self).nodes@,
            final(self).head@ == old(self).head@,
            final(self).erased@ == old(self).erased@,
    {
        let edge = &mut self.edges[idx];
        (edge.0, edge.1, &mut edge.2)
    }

    /// Get the twin edge information of the edge with index `idx`, with
    /// what is stored in it open to change.
    /// Often used in undirected graphs as the reverse edge.
    pub fn get_twin_edge_mut(&mut self, idx: usize) -> (out: (usize, usize, &mut E))
        requires
            1 <= idx,
            twin_spec(idx as int) < old(self).edges@.len(),
        ensures
            out.0 == old(self).edges@[twin_spec(idx as int)].0,
            out.1 == old(self).edges@[twin_spec(idx as int)].1,
            *out.2 == old(self).edges@[twin_spec(idx as int)].2,
            final(self).edges@ == old(self).edges@.update(
                twin_spec(idx as int),
                (out.0, out.1, *final(out.2)),
            ),
            final(self).nodes@ == old(self).nodes@,
            final(self).head@ == old(self).head@,
            final(self).erased@ == old(self).erased@,
    {
        assert(self.edges@.len() == self.edges.len());
        self.get_edge_mut(twin(idx))
    }
    /// `found` lists the edges `idxs` in order, each with its own index,
    /// the node it leads to and what is stored in it.
    pub open spec fn lists_enum(&self, found: Seq<(usize, (&usize, &E))>, idxs: Seq<int>) -> bool {
        &&& found.len() == idxs.len()
        &&& forall|i: int|
            0 <= i < idxs.len() ==> (#[trigger] found[i]).0 == idxs[i] && *found[i].1.0
                == self.edges@[idxs[i]].1 && *found[i].1.1 == self.edges@[idxs[i]].2
    }

    /// `found` lists the edges `idxs` in order, each with the node it
    /// leads to and what is stored in it.
    pub open spec fn lists(&self, found: Seq<(&usize, &E)>, idxs: Seq<int>) -> bool {
        &&& found.len() == idxs.len()
        &&& forall|i: int|
            0 <= i < idxs.len() ==> *(#[trigger] found[i]).0 == self.edges@[idxs[i]].1
                && *found[i].1 == self.edges@[idxs[i]].2
    }

    /// Returns the edges of the list that starts at the edge with index
    /// `edge`, in order: for each the index of the edge, the destination
    /// node, and the information stored in the edge.
    pub fn get_edges_enum_from(&self, edge: usize) -> (out: Vec<(usize, (&usize, &E))>)
        requires
            has_list(self.edges@, edge as int),
        ensures
            self.lists_enum(out@, list_of(self.edges@, edge as int)),
    {
        let ghost idxs = list_of(self.edges@, edge as int);
        let ghost mut k: int = 0;
        let mut out: Vec<(usize, (&usize, &E))> = Vec::new();
        let mut cur = edge;
        proof {
            lemma_list_step(self.edges@, edge as int);
            assert(idxs.skip(0) =~= idxs);
        }
        while cur != 0
            invariant
                0 <= k <= idxs.len(),
                is_list(self.edges@, cur as int, idxs.skip(k)),
                self.lists_enum(out@, idxs.take(k)),
            decreases idxs.len() - k,
        {
            let this = &self.edges[cur];
            proof {
                assert(idxs.skip(k).drop_first() =~= idxs.skip(k + 1));
                assert(idxs.take(k + 1) =~= idxs.take(k).push(cur as int));
            }
            out.push((cur, (&this.1, &this.2)));
            cur = this.0;
            proof {
                k = k + 1;
            }
        }
        proof {
            assert(idxs.take(k) =~= idxs);
        }
        out
    }

    /// Returns the edges of the list that starts at the edge with index
    /// `edge`, in order: for each the destination node and the information
    /// stored in the edge.
    pub fn get_edges_from(&self, edge: usize) -> (out: Vec<(&usize, &E)>)
        requires
            has_list(self.edges@, edge as int),
        ensures
            self.lists(out@, list_of(self.edges@, edge as int)),
    {
        let ghost idxs = list_of(self.edges@, edge as int);
        let ghost mut k: int = 0;
        let mut out: Vec<(&usize, &E)> = Vec::new();
        let mut cur = edge;
        proof {
            lemma_list_step(self.edges@, edge as int);
            assert(idxs.skip(0) =~= idxs);
        }
        while cur != 0
            invariant
                0 <= k <= idxs.len(),
                is_list(self.edges@, cur as int, idxs.skip(k)),
                self.lists(out@, idxs.take(k)),
            decreases idxs.len() - k,
        {
            let this = &self.edges[cur];
            proof {
                assert(idxs.skip(k).drop_first() =~= idxs.skip(k + 1));
                assert(idxs.take(k + 1) =~= idxs.take(k).push(cur as int));
            }
            out.push((&this.1, &this.2));
            cur = this.0;
            proof {
                k = k + 1;
            }
        }
        proof {
            assert(idxs.take(k) =~= idxs);
        }
        out
    }

    /// Returns the edges of a node, in the order of its list: for each the
    /// destination node and the information stored in the edge.
    pub fn get_edges(&self, node: usize) -> (out: Vec<(&usize, &E)>)
        requires
            node < self.head@.len(),
            has_list(self.edges@, self.head@[node as int] as int),
        ensures
            self.lists(out@, self.adj(node as int)),
    {
        self.get_edges_from(self.head[node])
    }

    /// Returns the edges of a node, in the order of its list: for each the
    /// index of the edge, the destination node, and the information stored
    /// in the edge.
    pub fn get_edges_enum(&self, node: usize) -> (out: Vec<(usize, (&usize, &E))>)
        requires
            node < self.head@.len(),
            has_list(self.edges@, self.head@[node as int] as int),
        ensures
            self.lists_enum(out@, self.adj(node as int)),
    {
        self.get_edges_enum_from(self.head[node])
    }

    /// Returns the edges from the cursor `cur` to the end of its list, as
    /// `get_edges_from` does, and leaves the cursor at the end.
    /// This is used if you want to iterate edges only once.
    pub fn get_edges_from_once(&self, cur: &mut usize) -> (out: Vec<(&usize, &E)>)
        requires
            has_list(self.edges@, *old(cur) as int),
        ensures
            self.lists(out@, list_of(self.edges@, *old(cur) as int)),
            *final(cur) == 0,
    {
        let out = self.get_edges_from(*cur);
        *cur = 0;
        out
    }

    /// Returns the edges from the cursor `cur` to the end of its list, as
    /// `get_edges_enum_from` does, and leaves the cursor at the end.
    /// This is used if you want to iterate edges only once.
    pub fn get_edges_enum_from_once(&self, cur: &mut usize) -> (out: Vec<(usize, (&usize, &E))>)
        requires
            has_list(self.edges@, *old(cur) as int),
        ensures
            self.lists_enum(out@, list_of(self.edges@, *old(cur) as int)),
            *final(cur) == 0,
    {
        let out = self.get_edges_enum_from(*cur);
        *cur = 0;
        out
    }
    /// The effect of linking the slot `idx`, which is on no list, in front
    /// of the list of `from`.
    proof fn lemma_linked(&self, post: &Self, from: int, to: usize, info: E, idx: usize)
        requires
            self.wf(),
            0 <= from < self.head@.len(),
            to < self.nodes@.len(),
            0 < idx <= self.edges@.len(),
            forall|v: int|
                0 <= v < self.head@.len() ==> !(#[trigger] self.adj(v)).contains(idx as int),
            idx == self.edges@.len() ==> self.erased@.len() == 0 && post.edges@
                == self.edges@.push((self.head@[from], to, info)) && post.erased@ == self.erased@,
            idx < self.edges@.len() ==> self.erased@.len() > 0 && idx == self.erased@.last()
                && post.edges@ == self.edges@.update(idx as int, (self.head@[from], to, info))
                && post.erased@ == self.erased@.drop_last(),
            post.nodes@ == self.nodes@,
            post.head@ == self.head@.update(from, idx),
        ensures
            post.wf(),
            post.adj(from) == seq![idx as int] + self.adj(from),
            forall|v: int| 0 <= v < self.head@.len() && v != from ==> #[trigger] post.adj(v)
                == self.adj(v),
    {
        assert forall|v: int| 0 <= v < self.head@.len() implies is_list(
            post.edges@,
            self.head@[v] as int,
            #[trigger] self.adj(v),
        ) by {
            lemma_list_step(self.edges@, self.head@[v] as int);
            lemma_list_in_range(self.edges@, self.head@[v] as int, self.adj(v));
            assert forall|k: int| 0 <= k < self.adj(v).len() implies post.edges@[#[trigger] self.adj(
                v,
            )[k]].0 == self.edges@[self.adj(v)[k]].0 by {
                assert(self.adj(v).contains(self.adj(v)[k]));
            }
            lemma_list_kept(self.edges@, post.edges@, self.head@[v] as int, self.adj(v));
        }
        let grown = seq![idx as int] + self.adj(from);
        assert(is_list(post.edges@, idx as int, grown)) by {
            assert(grown.drop_first() =~= self.adj(from));
            assert(is_list(post.edges@, self.head@[from] as int, self.adj(from)));
        }
        lemma_list_of(post.edges@, idx as int, grown);
        assert forall|v: int| 0 <= v < self.head@.len() && v != from implies #[trigger] post.adj(v)
            == self.adj(v) by {
            assert(is_list(post.edges@, self.head@[v] as int, self.adj(v)));
            lemma_list_of(post.edges@, self.head@[v] as int, self.adj(v));
        }
        assert forall|v: int| 0 <= v < post.head@.len() implies has_list(
            post.edges@,
            #[trigger] post.head@[v] as int,
        ) by {
            if v != from {
                assert(is_list(post.edges@, self.head@[v] as int, self.adj(v)));
                lemma_list_of(post.edges@, self.head@[v] as int, self.adj(v));
            } else {
                assert(post.head@[v] == idx);
            }
        }
        assert forall|u: int, v: int, x: int|
            0 <= u < post.head@.len() && 0 <= v < post.head@.len() && u != v
                && #[trigger] post.adj(u).contains(x) implies !#[trigger] post.adj(v).contains(
            x,
        ) by {
            if u == from {
                assert(post.adj(v) == self.adj(v));
                if x != idx {
                    let at = choose|at: int| 0 <= at < grown.len() && grown[at] == x;
                    assert(self.adj(from)[at - 1] == x);
                    assert(self.adj(from).contains(x));
                }
            } else if v == from {
                assert(post.adj(u) == self.adj(u));
                if post.adj(v).contains(x) && x != idx {
                    let at = choose|at: int| 0 <= at < grown.len() && grown[at] == x;
                    assert(self.adj(from)[at - 1] == x);
                    assert(self.adj(from).contains(x));
                }
            } else {
                assert(post.adj(u) == self.adj(u));
                assert(post.adj(v) == self.adj(v));
            }
        }
        assert forall|v: int, k: int|
            0 <= v < post.head@.len() && 0 <= k < post.erased@.len() implies !(#[trigger] post.adj(
            v,
        )).contains(#[trigger] post.erased@[k] as int) by {
            assert(post.erased@[k] == self.erased@[k]);
            assert(!self.adj(v).contains(self.erased@[k] as int));
            if v == from {
                assert(self.erased@[k] != idx);
                if grown.contains(self.erased@[k] as int) {
                    let at = choose|at: int| 0 <= at < grown.len() && grown[at] == self.erased@[k];
                    assert(self.adj(from)[at - 1] == self.erased@[k]);
                }
            }
        }
    }

    /// Adding nodes without edges keeps a graph well formed and every list
    /// as it was.
    proof fn lemma_resized(&self, post: &Self)
        requires
            self.wf(),
            post.edges@ == self.edges@,
            post.erased@ == self.erased@,
            post.nodes@.len() >= self.nodes@.len(),
            post.head@.len() == post.nodes@.len(),
            forall|v: int| 0 <= v < self.head@.len() ==> post.head@[v] == self.head@[v],
            forall|v: int| self.head@.len() <= v < post.head@.len() ==> post.head@[v] == 0,
        ensures
            post.wf(),
            forall|v: int| #[trigger] post.adj(v) == self.adj(v),
    {
        lemma_list_of(post.edges@, 0, Seq::<int>::empty());
        assert forall|v: int| #[trigger] post.adj(v) == self.adj(v) by {
            if 0 <= v < self.head@.len() {
                assert(post.head@[v] == self.head@[v]);
            } else if self.head@.len() <= v < post.head@.len() {
                assert(post.head@[v] == 0);
            }
        }
        assert forall|v: int| 0 <= v < post.head@.len() implies has_list(
            post.edges@,
            #[trigger] post.head@[v] as int,
        ) by {
            if v < self.head@.len() {
                assert(has_list(self.edges@, self.head@[v] as int));
            }
        }
        assert forall|v: int, k: int|
            0 <= v < post.head@.len() && 0 <= k < post.erased@.len() implies !(#[trigger] post.adj(
            v,
        )).contains(#[trigger] post.erased@[k] as int) by {
            if v < self.head@.len() {
                assert(!self.adj(v).contains(self.erased@[k] as int));
            }
        }
        assert forall|u: int, v: int, x: int|
            0 <= u < post.head@.len() && 0 <= v < post.head@.len() && u != v
                && #[trigger] post.adj(u).contains(x) implies !#[trigger] post.adj(v).contains(
            x,
        ) by {
            assert(post.adj(u) == self.adj(u));
            assert(post.adj(v) == self.adj(v));
            if u < self.head@.len() && v < self.head@.len() {
                assert(!self.adj(v).contains(x));
            }
        }
    }

    /// Add an edge from `from` to `to` with information `info`, in front of
    /// the edges that leave `from`. Nodes are added as far as `from` and
    /// `to` need them, each a copy of the default value. The edge takes the slot that was recorded as erased
    /// last, or a new slot at the end of the edge array if there is none.
    pub fn add_edge(&mut self, from: usize, to: usize, info: E)
        requires
            old(self).wf(),
            from < usize::MAX,
            to < usize::MAX,
            old(self).edges@.len() < usize::MAX,
        ensures
            final(self).wf(),
            final(self).nodes@.len() >= old(self).nodes@.len(),
            final(self).nodes@.len() > from,
            final(self).nodes@.len() > to,
            final(self).nodes@.len() == old(self).nodes@.len() || final(self).nodes@.len() == from
                + 1 || final(self).nodes@.len() == to + 1,
            forall|i: int|
                0 <= i < old(self).nodes@.len() ==> final(self).nodes@[i] == old(self).nodes@[i],
            forall|i: int|
                old(self).nodes@.len() <= i < final(self).nodes@.len() ==> blank_node(
                    #[trigger] final(self).nodes@[i],
                ),
            final(self).adj(from as int) == seq![final(self).head@[from as int] as int] + old(self).adj(from as int),
            final(self).edges@[final(self).head@[from as int] as int].1 == to,
            final(self).edges@[final(self).head@[from as int] as int].2 == info,
            forall|v: int|
                0 <= v < final(self).head@.len() && v != from ==> #[trigger] final(self).adj(v)
                    == old(self).adj(v),
            forall|e: int|
                0 <= e < old(self).edges@.len() && e != final(self).head@[from as int]
                    ==> final(self).edges@[e] == old(self).edges@[e],
            old(self).erased@.len() == 0 ==> final(self).head@[from as int] == old(self).edges@.len() && final(self).edges@.len() == old(self).edges@.len() + 1 && final(self).erased@.len() == 0,
            old(self).erased@.len() > 0 ==> final(self).head@[from as int] == old(self).erased@.last() && final(self).edges@.len() == old(self).edges@.len() && final(self).erased@ == old(self).erased@.drop_last(),
    {
        let top = if from > to {
            from
        } else {
            to
        };
        let ghost first = *self;
        if top >= self.nodes.len() {
            let blank = V::default();
            self.nodes.resize(top + 1, blank);
            self.head.resize(top + 1, 0);
            assert forall|i: int| first.nodes@.len() <= i < self.nodes@.len() implies blank_node(
                #[trigger] self.nodes@[i],
            ) by {
                assert(cloned(blank, self.nodes@[i]));
            }
        }
        let ghost pre = *self;
        proof {
            first.lemma_resized(&pre);
        }
        if self.erased.len() == 0 {
            let next = self.head[from];
            self.edges.push((next, to, info));
            let idx = self.edges.len() - 1;
            self.head.set(from, idx);
            proof {
                assert forall|v: int| 0 <= v < pre.head@.len() implies !(#[trigger] pre.adj(
                    v,
                )).contains(idx as int) by {
                    lemma_list_step(pre.edges@, pre.head@[v] as int);
                    lemma_list_in_range(pre.edges@, pre.head@[v] as int, pre.adj(v));
                }
                pre.lemma_linked(self, from as int, to, info, idx);
            }
        } else {
            let idx = self.erased.pop().unwrap();
            let next = self.head[from];
            self.edges.set(idx, (next, to, info));
            self.head.set(from, idx);
            proof {
                assert(idx == pre.erased@[pre.erased@.len() - 1]);
                assert(self.erased@ =~= pre.erased@.drop_last());
                pre.lemma_linked(self, from as int, to, info, idx);
            }
        }
    }
}

} // verus!
