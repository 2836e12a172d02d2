//! Disjoint set union, also known as union-find.
//!
//! Every element points to a parent; an element that is its own parent is
//! the root, and the name, of its set. The parent links form a forest:
//! following them from any element ends at a root.
use vstd::prelude::*;
use vstd::set_lib::{lemma_int_range, lemma_len_subset, set_int_range};

verus! {

/// Every element has a parent among the elements, and `rank`, bounded by
/// `height`, grows strictly along every parent link. Such a rank exists
/// exactly if the links have no cycle other than the loops at the roots.
pub open spec fn ranked(parent: Seq<usize>, rank: Seq<nat>, height: nat) -> bool {
    &&& parent.len() >= 1
    &&& rank.len() == parent.len()
    &&& forall|i: int| 0 <= i < parent.len() ==> (#[trigger] parent[i]) < parent.len()
    &&& forall|i: int| 0 <= i < parent.len() ==> (#[trigger] rank[i]) <= height
    &&& forall|i: int|
        0 <= i < parent.len() && (#[trigger] parent[i]) != i ==> rank[i] < rank[parent[i] as int]
}

/// `w` is a rank with its bound for the links `parent`.
pub open spec fn ranked_by(parent: Seq<usize>, w: (Seq<nat>, nat)) -> bool {
    ranked(parent, w.0, w.1)
}

/// The parent links form a forest.
pub open spec fn is_forest(parent: Seq<usize>) -> bool {
    exists|w: (Seq<nat>, nat)| ranked_by(parent, w)
}

/// A rank of a forest, with its bound.
pub open spec fn witness(parent: Seq<usize>) -> (Seq<nat>, nat) {
    choose|w: (Seq<nat>, nat)| ranked_by(parent, w)
}

/// Links that have a rank form a forest, and the chosen rank of a forest
/// is one.
pub proof fn lemma_forest(parent: Seq<usize>, rank: Seq<nat>, height: nat)
    requires
        ranked(parent, rank, height),
    ensures
        is_forest(parent),
        ranked(parent, witness(parent).0, witness(parent).1),
{
    assert(ranked_by(parent, (rank, height)));
}

/// The chosen rank of a forest is a rank.
pub proof fn lemma_witness(parent: Seq<usize>)
    requires
        is_forest(parent),
    ensures
        ranked(parent, witness(parent).0, witness(parent).1),
{
}

/// The element reached from `x` after at most `fuel` parent links,
/// stopping at a root.
pub open spec fn climb(parent: Seq<usize>, x: int, fuel: nat) -> int
    decreases fuel,
{
    if fuel == 0 || !(0 <= x < parent.len()) || parent[x] == x {
        x
    } else {
        climb(parent, parent[x] as int, (fuel - 1) as nat)
    }
}

/// The root of the tree of `x` in a forest.
pub open spec fn root(parent: Seq<usize>, x: int) -> int {
    climb(parent, x, witness(parent).1)
}

/// In a forest, climbing from `x` with enough fuel ends at a root, whose
/// rank is above that of `x` unless `x` is that root; more fuel changes
/// nothing.
pub proof fn lemma_climb(parent: Seq<usize>, rank: Seq<nat>, height: nat, x: int, fuel: nat)
    requires
        ranked(parent, rank, height),
        0 <= x < parent.len(),
        fuel >= height - rank[x],
    ensures
        0 <= climb(parent, x, fuel) < parent.len(),
        parent[climb(parent, x, fuel)] == climb(parent, x, fuel),
        climb(parent, x, fuel) != x ==> rank[x] < rank[climb(parent, x, fuel)],
        climb(parent, x, fuel) == climb(parent, x, (height - rank[x]) as nat),
    decreases height - rank[x],
{
    if parent[x] != x {
        let up = parent[x] as int;
        lemma_climb(parent, rank, height, up, (fuel - 1) as nat);
        lemma_climb(parent, rank, height, up, (height - rank[x] - 1) as nat);
    }
}

/// The root of `x` does not depend on the rank that shows the forest:
/// climbing with the fuel of any rank ends at it.
pub proof fn lemma_root(parent: Seq<usize>, rank: Seq<nat>, height: nat, x: int)
    requires
        ranked(parent, rank, height),
        0 <= x < parent.len(),
    ensures
        root(parent, x) == climb(parent, x, height),
        0 <= root(parent, x) < parent.len(),
        parent[root(parent, x)] == root(parent, x),
        root(parent, x) != x ==> rank[x] < rank[root(parent, x)],
        parent[x] == x ==> root(parent, x) == x,
        root(parent, parent[x] as int) == root(parent, x),
{
    let w = witness(parent);
    lemma_forest(parent, rank, height);
    lemma_climb(parent, w.0, w.1, x, w.1);
    lemma_climb(parent, rank, height, x, height);
    lemma_fuel(parent, x, w.1, height);
    let up = parent[x] as int;
    lemma_climb(parent, w.0, w.1, up, w.1);
    if parent[x] != x {
        lemma_climb(parent, w.0, w.1, up, (w.1 - 1) as nat);
    }
}

/// Two amounts of fuel that both suffice to reach a root reach the same.
proof fn lemma_fuel(parent: Seq<usize>, x: int, a: nat, b: nat)
    requires
        0 <= climb(parent, x, a) < parent.len(),
        parent[climb(parent, x, a)] == climb(parent, x, a),
        0 <= climb(parent, x, b) < parent.len(),
        parent[climb(parent, x, b)] == climb(parent, x, b),
    ensures
        climb(parent, x, a) == climb(parent, x, b),
    decreases a,
{
    if a > 0 && b > 0 && 0 <= x < parent.len() && parent[x] != x {
        lemma_fuel(parent, parent[x] as int, (a - 1) as nat, (b - 1) as nat);
    }
}

/// The number of parent links from `x` to a root, counted up to `fuel`.
pub open spec fn hops(parent: Seq<usize>, x: int, fuel: nat) -> nat
    decreases fuel,
{
    if fuel == 0 || !(0 <= x < parent.len()) || parent[x] == x {
        0
    } else {
        1 + hops(parent, parent[x] as int, (fuel - 1) as nat)
    }
}

/// One more unit of fuel takes the climb one link further, unless it has
/// come to a root.
proof fn lemma_climb_next(parent: Seq<usize>, x: int, fuel: nat)
    requires
        forall|i: int| 0 <= i < parent.len() ==> (#[trigger] parent[i]) < parent.len(),
        0 <= x < parent.len(),
    ensures
        0 <= climb(parent, x, fuel) < parent.len(),
        climb(parent, x, fuel + 1) == parent[climb(parent, x, fuel)],
    decreases fuel,
{
    reveal_with_fuel(climb, 2);
    if fuel > 0 && parent[x] != x {
        lemma_climb_next(parent, parent[x] as int, (fuel - 1) as nat);
    }
}

/// Once the climb has come to a root, more fuel changes neither where it
/// ends nor how many links it takes.
proof fn lemma_hops_settle(parent: Seq<usize>, x: int, fuel: nat, more: nat)
    requires
        0 <= x < parent.len(),
        0 <= climb(parent, x, fuel) < parent.len(),
        parent[climb(parent, x, fuel)] == climb(parent, x, fuel),
        more >= fuel,
    ensures
        hops(parent, x, more) == hops(parent, x, fuel),
        hops(parent, x, fuel) <= fuel,
        climb(parent, x, more) == climb(parent, x, fuel),
    decreases fuel,
{
    if parent[x] != x && fuel > 0 {
        lemma_hops_settle(parent, parent[x] as int, (fuel - 1) as nat, (more - 1) as nat);
    }
}

/// In a forest a climb never takes as many links as there are elements.
proof fn lemma_forest_is_shallow(parent: Seq<usize>, rank: Seq<nat>, height: nat, x: int)
    requires
        ranked(parent, rank, height),
        0 <= x < parent.len(),
    ensures
        parent[climb(parent, x, parent.len())] == climb(parent, x, parent.len()),
{
    let n = parent.len();
    let top = climb(parent, x, n);
    lemma_climb_next(parent, x, n);
    if parent[top] != top {
        // the elements on the way are different, and there are too many
        let way = Seq::new(n + 1, |k: int| climb(parent, x, k as nat));
        assert forall|k: int| 0 <= k <= n implies 0 <= #[trigger] way[k] < n && parent[way[k]]
            != way[k] by {
            lemma_climb_next(parent, x, k as nat);
            if parent[way[k]] == way[k] {
                lemma_hops_settle(parent, x, k as nat, n);
            }
        }
        assert forall|a: int, b: int| 0 <= a < b <= n implies rank[#[trigger] way[a]]
            < rank[#[trigger] way[b]] by {
            assert(way[b - 1] == climb(parent, x, (b - 1) as nat));
            assert(way[a] == climb(parent, x, a as nat));
            assert(way[b] == climb(parent, x, b as nat));
            lemma_rank_rises(parent, rank, height, x, a, b);
        }
        assert(way.no_duplicates());
        way.unique_seq_to_set();
        lemma_int_range(0, n as int);
        assert(way.to_set().subset_of(set_int_range(0, n as int))) by {
            assert forall|v: int| way.to_set().contains(v) implies set_int_range(
                0,
                n as int,
            ).contains(v) by {
                let k = choose|k: int| 0 <= k < way.len() && way[k] == v;
                assert(0 <= way[k] < n);
            }
        }
        lemma_len_subset(way.to_set(), set_int_range(0, n as int));
    }
}

/// Along a climb that has not come to a root the rank rises.
proof fn lemma_rank_rises(
    parent: Seq<usize>,
    rank: Seq<nat>,
    height: nat,
    x: int,
    a: int,
    b: int,
)
    requires
        ranked(parent, rank, height),
        0 <= x < parent.len(),
        0 <= a < b,
        parent[climb(parent, x, (b - 1) as nat)] != climb(parent, x, (b - 1) as nat),
    ensures
        rank[climb(parent, x, a as nat)] < rank[climb(parent, x, b as nat)],
    decreases b - a,
{
    lemma_climb_next(parent, x, (b - 1) as nat);
    lemma_climb_next(parent, x, a as nat);
    let before = climb(parent, x, (b - 1) as nat);
    assert(rank[before] < rank[parent[before] as int]);
    if a < b - 1 {
        lemma_climb_next(parent, x, (b - 2) as nat);
        if parent[climb(parent, x, (b - 2) as nat)] == climb(parent, x, (b - 2) as nat) {
            lemma_hops_settle(parent, x, (b - 2) as nat, (b - 1) as nat);
        }
        lemma_rank_rises(parent, rank, height, x, a, b - 1);
    }
}

/// Links along which every climb comes to a root form a forest.
proof fn lemma_shallow_is_forest(parent: Seq<usize>)
    requires
        parent.len() >= 1,
        forall|i: int| 0 <= i < parent.len() ==> (#[trigger] parent[i]) < parent.len(),
        forall|x: int|
            0 <= x < parent.len() ==> parent[#[trigger] climb(parent, x, parent.len())] == climb(
                parent,
                x,
                parent.len(),
            ),
    ensures
        is_forest(parent),
{
    let n = parent.len();
    let rank = Seq::new(n, |x: int| (n - hops(parent, x, n)) as nat);
    assert forall|i: int| 0 <= i < n && (#[trigger] parent[i]) != i implies rank[i]
        < rank[parent[i] as int] by {
        let up = parent[i] as int;
        lemma_climb_next(parent, i, n);
        lemma_climb_next(parent, up, n);
        lemma_climb_next(parent, up, (n - 1) as nat);
        assert(climb(parent, i, n) == climb(parent, up, (n - 1) as nat));
        lemma_hops_settle(parent, up, (n - 1) as nat, n);
        lemma_hops_settle(parent, i, n, n);
    }
    assert forall|i: int| 0 <= i < n implies (#[trigger] rank[i]) <= n by {
        lemma_climb_next(parent, i, n);
        lemma_hops_settle(parent, i, n, n);
    }
    lemma_forest(parent, rank, n);
}

/// Whether the parent links `parent` form a forest: whether a disjoint set
/// union can be made of them.
pub fn links_form_forest(parent: &Vec<usize>) -> (out: bool)
    ensures
        out == is_forest(parent@),
{
    let n = parent.len();
    if n == 0 {
        proof {
            if is_forest(parent@) {
                lemma_witness(parent@);
            }
        }
        return false;
    }
    let mut i: usize = 0;
    while i < n
        invariant
            n == parent@.len(),
            i <= n,
            forall|k: int| 0 <= k < i ==> (#[trigger] parent@[k]) < n,
        decreases n - i,
    {
        if parent[i] >= n {
            proof {
                if is_forest(parent@) {
                    lemma_witness(parent@);
                    assert(parent@[i as int] < n);
                }
            }
            return false;
        }
        i += 1;
    }
    let mut x: usize = 0;
    while x < n
        invariant
            n == parent@.len(),
            n >= 1,
            x <= n,
            forall|k: int| 0 <= k < n ==> (#[trigger] parent@[k]) < n,
            forall|y: int|
                0 <= y < x ==> parent@[#[trigger] climb(parent@, y, n as nat)] == climb(
                    parent@,
                    y,
                    n as nat,
                ),
        decreases n - x,
    {
        let mut c = x;
        let mut steps: usize = 0;
        while parent[c] != c && steps < n
            invariant
                n == parent@.len(),
                x < n,
                c < n,
                steps <= n,
                forall|k: int| 0 <= k < n ==> (#[trigger] parent@[k]) < n,
                c == climb(parent@, x as int, steps as nat),
            decreases n - steps,
        {
            proof {
                lemma_climb_next(parent@, x as int, steps as nat);
            }
            c = parent[c];
            steps += 1;
        }
        if parent[c] != c {
            proof {
                if is_forest(parent@) {
                    lemma_witness(parent@);
                    let w = witness(parent@);
                    lemma_forest_is_shallow(parent@, w.0, w.1, x as int);
                }
            }
            return false;
        }
        proof {
            lemma_hops_settle(parent@, x as int, steps as nat, n as nat);
        }
        x += 1;
    }
    proof {
        lemma_shallow_is_forest(parent@);
    }
    true
}

/// Disjoint set union over the elements `0..=len`.
#[derive(Debug)]
pub struct DisjointSetUnion {
    parent: Vec<usize>,
}

impl DisjointSetUnion {
    /// The parent links form a forest.
    pub closed spec fn wf(&self) -> bool {
        is_forest(self.parent@)
    }

    /// The largest element, for use in contracts.
    pub closed spec fn spec_len(&self) -> usize {
        (self.parent.len() - 1) as usize
    }

    /// The root, and so the name, of the set of `x`.
    pub closed spec fn root_of(&self, x: int) -> int {
        root(self.parent@, x)
    }

    /// The root of a set is one of the elements and is its own root.
    pub proof fn lemma_root_of(&self, x: int)
        requires
            self.wf(),
            0 <= x <= self.len(),
        ensures
            0 <= self.root_of(x) <= self.len(),
            self.root_of(self.root_of(x)) == self.root_of(x),
    {
        let w = witness(self.parent@);
        lemma_witness(self.parent@);
        lemma_root(self.parent@, w.0, w.1, x);
        lemma_root(self.parent@, w.0, w.1, self.root_of(x));
    }

    /// Constructs a new disjoint set union with the specified `len`, every
    /// element in a set of its own.
    pub fn with_len(len: usize) -> (out: Self)
        requires
            len < usize::MAX,
        ensures
            out.wf(),
            out.len() == len,
            forall|x: int| 0 <= x <= len ==> out.root_of(x) == x,
    {
        let mut parent: Vec<usize> = Vec::new();
        let mut i: usize = 0;
        while i <= len
            invariant
                len < usize::MAX,
                i <= len + 1,
                parent@.len() == i,
                forall|j: int| 0 <= j < i ==> parent@[j] == j,
            decreases len + 1 - i,
        {
            parent.push(i);
            i += 1;
        }
        let out = DisjointSetUnion { parent };
        proof {
            let rank = Seq::new(out.parent@.len(), |i: int| 0nat);
            assert(ranked(out.parent@, rank, 0));
            lemma_forest(out.parent@, rank, 0);
            assert forall|x: int| 0 <= x <= len implies out.root_of(x) == x by {
                lemma_root(out.parent@, rank, 0, x);
            }
        }
        out
    }

    /// Constructs a new disjoint set union of the elements `0..=n`.
    pub fn new(n: usize) -> (out: Self)
        requires
            n < usize::MAX,
        ensures
            out.wf(),
            out.len() == n,
            forall|x: int| 0 <= x <= n ==> out.root_of(x) == x,
    {
        Self::with_len(n)
    }

    /// Constructs a disjoint set union with the specified `parent` links.
    pub fn from(a: Vec<usize>) -> (out: Self)
        requires
            is_forest(a@),
        ensures
            out.wf(),
            out.len() == a.len() - 1,
            forall|x: int| 0 <= x < a.len() ==> out.root_of(x) == root(a@, x),
    {
        DisjointSetUnion { parent: a }
    }

    /// The length of the disjoint set union.
    #[verifier::when_used_as_spec(spec_len)]
    pub fn len(&self) -> (out: usize)
        requires
            self.wf(),
        ensures
            out == self.len(),
    {
        proof {
            lemma_witness(self.parent@);
        }
        self.parent.len() - 1
    }

    /// Returns `true` if the disjoint set union is empty.
    pub fn is_empty(&self) -> (out: bool)
        requires
            self.wf(),
        ensures
            out == (self.len() == 0),
    {
        self.len() == 0
    }

    /// How far below the bound of the forest's rank `x` stands: an upper
    /// bound on the number of links from `x` to its root.
    pub closed spec fn slack(&self, x: int) -> nat {
        (witness(self.parent@).1 - witness(self.parent@).0[x]) as nat
    }

    /// Returns the root of the set of `x`, and links `x` and every element
    /// on the way straight to it. No set changes.
    pub fn find(&mut self, x: usize) -> (out: usize)
        requires
            old(self).wf(),
            x <= old(self).len(),
        ensures
            final(self).wf(),
            final(self).len() == old(self).len(),
            out == old(self).root_of(x as int),
            forall|y: int|
                0 <= y <= old(self).len() ==> final(self).root_of(y) == old(self).root_of(y),
        decreases old(self).slack(x as int),
    {
        let ghost before = self.parent@;
        let ghost w = witness(before);
        proof {
            lemma_witness(before);
            lemma_root(before, w.0, w.1, x as int);
        }
        let up = self.parent[x];
        if up == x {
            x
        } else {
            let out = self.find(up);
            let ghost mid = *self;
            let ghost linked = self.parent@;
            let ghost v = witness(linked);
            proof {
                lemma_witness(linked);
                lemma_root(before, w.0, w.1, up as int);
                lemma_root(before, w.0, w.1, out as int);
                assert(mid.root_of(x as int) == old(self).root_of(x as int));
                assert(mid.root_of(out as int) == old(self).root_of(out as int));
                lemma_root(linked, v.0, v.1, x as int);
                lemma_root(linked, v.0, v.1, out as int);
            }
            self.parent.set(x, out);
            proof {
                let after = self.parent@;
                assert(ranked(after, v.0, v.1));
                lemma_forest(after, v.0, v.1);
                assert forall|y: int| 0 <= y < after.len() implies root(after, y) == root(
                    linked,
                    y,
                ) by {
                    lemma_relinked(linked, after, v.0, v.1, x as int, y);
                }
            }
            out
        }
    }

    /// Joins the set of `x` into the set of `y`: every element of the set
    /// of `x` then has the root of `y`, and no other element changes its
    /// root.
    pub fn union(&mut self, x: usize, y: usize)
        requires
            old(self).wf(),
            x <= old(self).len(),
            y <= old(self).len(),
        ensures
            final(self).wf(),
            final(self).len() == old(self).len(),
            forall|z: int|
                0 <= z <= old(self).len() ==> final(self).root_of(z) == if old(self).root_of(z)
                    == old(self).root_of(x as int) {
                    old(self).root_of(y as int)
                } else {
                    old(self).root_of(z)
                },
    {
        let fx = self.find(x);
        let fy = self.find(y);
        let ghost found = self.parent@;
        let ghost w = witness(found);
        proof {
            lemma_witness(found);
            lemma_root(found, w.0, w.1, x as int);
            lemma_root(found, w.0, w.1, y as int);
        }
        self.parent.set(fx, fy);
        proof {
            let after = self.parent@;
            if fx == fy {
                assert(after =~= found);
            } else {
                let lifted = if w.0[fy as int] > w.0[fx as int] {
                    w.0[fy as int]
                } else {
                    w.0[fx as int] + 1
                };
                let rank = w.0.update(fy as int, lifted);
                let height = w.1 + 1;
                assert(ranked(after, rank, height));
                lemma_forest(after, rank, height);
                assert forall|z: int| 0 <= z < after.len() implies root(after, z) == if root(
                    found,
                    z,
                ) == fx {
                    fy as int
                } else {
                    root(found, z)
                } by {
                    lemma_joined(found, after, w.0, w.1, rank, height, fx as int, fy as int, z);
                }
            }
        }
    }

    /// Joins the set of `x` into the set of `y`.
    pub fn join(&mut self, x: usize, y: usize)
        requires
            old(self).wf(),
            x <= old(self).len(),
            y <= old(self).len(),
        ensures
            final(self).wf(),
            final(self).len() == old(self).len(),
            forall|z: int|
                0 <= z <= old(self).len() ==> final(self).root_of(z) == if old(self).root_of(z)
                    == old(self).root_of(x as int) {
                    old(self).root_of(y as int)
                } else {
                    old(self).root_of(z)
                },
    {
        self.union(x, y)
    }
}

/// Linking `x` straight to its root changes no root.
proof fn lemma_relinked(
    before: Seq<usize>,
    after: Seq<usize>,
    rank: Seq<nat>,
    height: nat,
    x: int,
    y: int,
)
    requires
        ranked(before, rank, height),
        ranked(after, rank, height),
        0 <= x < before.len(),
        0 <= y < before.len(),
        after == before.update(x, root(before, x) as usize),
    ensures
        root(after, y) == root(before, y),
    decreases height - rank[y],
{
    lemma_root(before, rank, height, y);
    lemma_root(after, rank, height, y);
    lemma_root(before, rank, height, x);
    let top = root(before, x);
    if y == x {
        lemma_root(after, rank, height, top);
        lemma_root(before, rank, height, top);
        if top != x {
            assert(after[top] == before[top]);
        }
    } else if before[y] != y {
        lemma_relinked(before, after, rank, height, x, before[y] as int);
    }
}

/// Linking the root `fx` to another root `fy` gives every element of the
/// tree of `fx` the root `fy` and changes no other root.
proof fn lemma_joined(
    before: Seq<usize>,
    after: Seq<usize>,
    rank: Seq<nat>,
    height: nat,
    lifted: Seq<nat>,
    raised: nat,
    fx: int,
    fy: int,
    z: int,
)
    requires
        ranked(before, rank, height),
        ranked(after, lifted, raised),
        0 <= fx < before.len(),
        0 <= fy < before.len(),
        0 <= z < before.len(),
        fx != fy,
        before[fx] == fx,
        before[fy] == fy,
        after == before.update(fx, fy as usize),
    ensures
        root(after, z) == if root(before, z) == fx {
            fy
        } else {
            root(before, z)
        },
    decreases height - rank[z],
{
    lemma_root(before, rank, height, z);
    lemma_root(after, lifted, raised, z);
    if z == fx {
        lemma_root(after, lifted, raised, fy);
    } else if before[z] != z {
        lemma_joined(before, after, rank, height, lifted, raised, fx, fy, before[z] as int);
    }
}

} // verus!
