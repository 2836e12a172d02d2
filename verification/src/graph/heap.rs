//! A binary heap of distance labels, for the shortest-path search.
use vstd::prelude::*;

verus! {

/// A node with a distance label: the distance, then the node.
pub type Label = (usize, usize);

/// Label `a` leaves the heap before label `b`: it has the smaller
/// distance, or the same distance and the larger node.
pub open spec fn before(a: Label, b: Label) -> bool {
    a.0 < b.0 || (a.0 == b.0 && a.1 > b.1)
}

/// The slot above slot `i` in the implicit tree.
pub open spec fn up(i: int) -> int {
    (i - 1) / 2
}

/// No label stands above one that leaves before it, except that nothing
/// is claimed of the pair at `hole` and the slot above it.
pub open spec fn ordered_except(data: Seq<Label>, hole: int) -> bool {
    forall|i: int| 1 <= i < data.len() && i != hole ==> !before(#[trigger] data[i], data[up(i)])
}

/// No label stands above one that leaves before it.
pub open spec fn ordered(data: Seq<Label>) -> bool {
    ordered_except(data, 0)
}

/// In an ordered heap no label leaves before the one at the top.
pub proof fn lemma_top_first(data: Seq<Label>, i: int)
    requires
        ordered(data),
        0 <= i < data.len(),
    ensures
        !before(data[i], data[0]),
    decreases i,
{
    if i > 0 {
        lemma_top_first(data, up(i));
    }
}

/// A min-heap of labels.
pub struct MinHeap {
    pub data: Vec<Label>,
}

impl MinHeap {
    /// The heap is ordered.
    pub open spec fn wf(&self) -> bool {
        ordered(self.data@)
    }

    /// An empty heap.
    pub fn new() -> (out: Self)
        ensures
            out.wf(),
            out.data@.len() == 0,
    {
        MinHeap { data: Vec::new() }
    }

    /// Whether label `a` leaves before label `b`.
    fn goes_before(a: Label, b: Label) -> (out: bool)
        ensures
            out == before(a, b),
    {
        a.0 < b.0 || (a.0 == b.0 && a.1 > b.1)
    }

    /// Exchanges the labels at slots `i` and `j`.
    fn swap(&mut self, i: usize, j: usize)
        requires
            i < old(self).data@.len(),
            j < old(self).data@.len(),
        ensures
            final(self).data@ == old(self).data@.update(i as int, old(self).data@[j as int]).update(
                j as int,
                old(self).data@[i as int],
            ),
    {
        let a = self.data[i];
        let b = self.data[j];
        self.data.set(i, b);
        self.data.set(j, a);
    }

    /// Adds a label.
    pub fn push(&mut self, label: Label)
        requires
            old(self).wf(),
        ensures
            final(self).wf(),
            final(self).data@.len() == old(self).data@.len() + 1,
            forall|e: Label|
                final(self).data@.contains(e) <==> old(self).data@.contains(e) || e == label,
    {
        let ghost start = self.data@;
        self.data.push(label);
        let mut i = self.data.len() - 1;
        proof {
            assert(self.data@[i as int] == label);
            assert forall|e: Label| self.data@.contains(e) <==> start.contains(e) || e == label by {
                if start.contains(e) {
                    let k = choose|k: int| 0 <= k < start.len() && start[k] == e;
                    assert(self.data@[k] == e);
                }
            }
        }
        while i > 0 && Self::goes_before(self.data[i], self.data[(i - 1) / 2])
            invariant
                i < self.data@.len(),
                self.data@.len() == start.len() + 1,
                ordered_except(self.data@, i as int),
                forall|c: int|
                    1 <= c < self.data@.len() && up(c) == i && i > 0 ==> !before(
                        #[trigger] self.data@[c],
                        self.data@[up(i as int)],
                    ),
                forall|e: Label| self.data@.contains(e) <==> start.contains(e) || e == label,
            decreases i,
        {
            let ghost prev = self.data@;
            let above = (i - 1) / 2;
            self.swap(i, above);
            proof {
                lemma_swap_contains(prev, self.data@, i as int, above as int);
                assert forall|e: Label| self.data@.contains(e) <==> start.contains(e) || e
                    == label by {
                    assert(self.data@.contains(e) <==> prev.contains(e));
                }
            }
            i = above;
            assert(forall|e: Label| self.data@.contains(e) <==> start.contains(e) || e == label);
        }
    }

    /// Removes and returns a label that leaves before no other, or `None`
    /// if the heap is empty.
    pub fn pop(&mut self) -> (out: Option<Label>)
        requires
            old(self).wf(),
        ensures
            final(self).wf(),
            old(self).data@.len() == 0 ==> out.is_none() && final(self).data@.len() == 0,
            old(self).data@.len() > 0 ==> out.is_some() && final(self).data@.len() + 1 == old(self).data@.len(),
            out.is_some() ==> old(self).data@.contains(out.unwrap()),
            forall|e: Label| out.is_some() && old(self).data@.contains(e) ==> !before(e, out.unwrap()),
            forall|e: Label|
                out.is_some() && old(self).data@.contains(e) && e != out.unwrap() ==> final(self).data@.contains(e),
            forall|e: Label| final(self).data@.contains(e) ==> old(self).data@.contains(e),
    {
        let ghost start = self.data@;
        if self.data.len() == 0 {
            return None;
        }
        let last = self.data.len() - 1;
        proof {
            assert forall|e: Label| start.contains(e) implies !before(e, start[0]) by {
                let k = choose|k: int| 0 <= k < start.len() && start[k] == e;
                lemma_top_first(start, k);
            }
        }
        self.swap(0, last);
        let ghost swapped = self.data@;
        let out = self.data.pop().unwrap();
        proof {
            lemma_swap_contains(start, swapped, 0, last as int);
            assert(out == start[0]);
            assert forall|e: Label| start.contains(e) && e != out implies self.data@.contains(e) by {
                let k = choose|k: int| 0 <= k < swapped.len() && swapped[k] == e;
                assert(k != last);
                assert(self.data@[k] == e);
            }
            assert forall|e: Label| self.data@.contains(e) implies start.contains(e) by {
                let k = choose|k: int| 0 <= k < self.data@.len() && self.data@[k] == e;
                assert(swapped[k] == e);
            }
        }
        let ghost rest = self.data@;
        let n = self.data.len();
        let mut i: usize = 0;
        while i < n / 2
            invariant
                n == self.data@.len(),
                n == rest.len(),
                forall|c: int|
                    1 <= c < n && up(c) != i ==> !before(#[trigger] self.data@[c], self.data@[up(c)]),
                forall|c: int|
                    1 <= c < n && up(c) == i && i > 0 ==> !before(
                        #[trigger] self.data@[c],
                        self.data@[up(i as int)],
                    ),
                forall|e: Label| self.data@.contains(e) <==> rest.contains(e),
            decreases n - i,
        {
            let left = 2 * i + 1;
            let right = 2 * i + 2;
            let mut least = left;
            if right < n && Self::goes_before(self.data[right], self.data[left]) {
                least = right;
            }
            if Self::goes_before(self.data[least], self.data[i]) {
                let ghost prev = self.data@;
                self.swap(i, least);
                proof {
                    lemma_swap_contains(prev, self.data@, i as int, least as int);
                    assert forall|e: Label| self.data@.contains(e) <==> rest.contains(e) by {
                        assert(self.data@.contains(e) <==> prev.contains(e));
                    }
                }
                i = least;
            } else {
                i = n;
            }
            assert(forall|e: Label| self.data@.contains(e) <==> rest.contains(e));
        }
        Some(out)
    }

    /// Whether the heap holds no label.
    pub fn is_empty(&self) -> (out: bool)
        ensures
            out == (self.data@.len() == 0),
    {
        self.data.len() == 0
    }
}

/// Exchanging two labels keeps the labels that the heap holds.
proof fn lemma_swap_contains(before: Seq<Label>, after: Seq<Label>, i: int, j: int)
    requires
        0 <= i < before.len(),
        0 <= j < before.len(),
        after == before.update(i, before[j]).update(j, before[i]),
    ensures
        forall|e: Label| after.contains(e) <==> before.contains(e),
{
    assert forall|e: Label| after.contains(e) <==> before.contains(e) by {
        if before.contains(e) {
            let k = choose|k: int| 0 <= k < before.len() && before[k] == e;
            if k == i {
                assert(after[j] == e);
            } else if k == j {
                assert(after[i] == e);
            } else {
                assert(after[k] == e);
            }
        }
        if after.contains(e) {
            let k = choose|k: int| 0 <= k < after.len() && after[k] == e;
            if k == i {
                assert(before[j] == e);
            } else if k == j {
                assert(before[i] == e);
            } else {
                assert(before[k] == e);
            }
        }
    }
}

} // verus!
