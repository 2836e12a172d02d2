//! Segment tree with lazy propagation over an abstract algebra.
//!
//! The tree stores one aggregate and one pending tag per node in two flat
//! arrays. Node 1 is the root; the children of node `x` are `2x` and
//! `2x + 1`; a node that covers positions `l..=r` splits them at
//! `(l + r) / 2`.
pub mod model;
pub mod ops;

pub use self::ops::{AddSum, Operation, OperationPair};

use vstd::prelude::*;
use self::model::{
    all_ok,
    lemma_concat_ok,
    lemma_push_all_ok,
    lemma_reduce_ok,
    lemma_window_ok,
    apply_on,
    lemma_apply_on_concat,
    lemma_apply_on_covered,
    lemma_apply_on_missed,
    lemma_push_all_composes,
    lemma_push_all_concat,
    lemma_push_all_identity,
    lemma_push_val_reduce,
    lemma_reduce_concat,
    lemma_reduce_one,
    lemma_window_concat,
    lemma_window_extremes,
    push_all,
    range_apply,
    range_reduce,
    reduce,
    window,
};
use std::marker::PhantomData;

verus! {

/// Node `i` lies in the subtree rooted at node `x`.
pub open spec fn descendant(i: int, x: int) -> bool
    decreases i,
{
    if x < 1 || i < x {
        false
    } else if i == x {
        true
    } else {
        descendant(i / 2, x)
    }
}

/// The position at which a node covering `l..=r` splits: its left child
/// covers `l..=split(l, r)`, its right child the rest.
pub open spec fn split(l: int, r: int) -> int {
    (l + r) / 2
}

/// The subtrees of the two children of a node share no node.
pub proof fn lemma_children_disjoint(i: int, x: int)
    requires
        x >= 1,
    ensures
        !(descendant(i, 2 * x) && descendant(i, 2 * x + 1)),
    decreases i,
{
    if i > 2 * x + 1 {
        lemma_children_disjoint(i / 2, x);
    } else if i == 2 * x + 1 {
        assert(!descendant(i / 2, 2 * x));
    }
}

/// The subtree of a child lies in the subtree of its parent and does not
/// hold the parent.
pub proof fn lemma_descendant_of_child(i: int, x: int)
    requires
        x >= 1,
        descendant(i, 2 * x) || descendant(i, 2 * x + 1),
    ensures
        descendant(i, x),
        i != x,
    decreases i,
{
    if i > 2 * x + 1 {
        lemma_descendant_of_child(i / 2, x);
    } else {
        assert(i / 2 == x);
        assert(descendant(x, x));
    }
}

/// Node `x` covering `l..=r` sits where a node of a tree over `len`
/// positions can sit. The root does: `x == 1`, `l == 1`, `r == len`; and
/// if a node does, so do its children, inside the `4 * len` slots.
pub open spec fn placed(x: int, l: int, r: int, len: int) -> bool {
    &&& 1 <= x <= 4 * len
    &&& 1 <= l <= r <= len
    &&& (x + 1) * (r - l) <= 2 * (len - 1)
}

/// The children of a placed inner node are placed.
pub proof fn lemma_placed_children(x: int, l: int, r: int, len: int)
    requires
        placed(x, l, r, len),
        l < r,
    ensures
        l <= split(l, r) < r,
        placed(2 * x, l, split(l, r), len),
        placed(2 * x + 1, split(l, r) + 1, r, len),
{
    let m = split(l, r);
    let d = r - l;
    let k = m - l;
    let j = r - m - 1;
    assert(2 * k <= d && 2 * j <= d && k >= 0 && j >= 0);
    assert(x + 1 <= 2 * (len - 1)) by (nonlinear_arith)
        requires
            (x + 1) * d <= 2 * (len - 1),
            d >= 1,
            x >= 1,
    ;
    assert((2 * x + 1) * k <= 2 * (len - 1)) by (nonlinear_arith)
        requires
            (x + 1) * d <= 2 * (len - 1),
            2 * k <= d,
            k >= 0,
            x >= 1,
    ;
    assert((2 * x + 2) * j <= 2 * (len - 1)) by (nonlinear_arith)
        requires
            (x + 1) * d <= 2 * (len - 1),
            2 * j <= d,
            j >= 0,
            x >= 1,
    ;
}

/// The positions `1..` of an array whose slot 0 is a buffer.
pub open spec fn positions<V>(a: Seq<V>) -> Seq<V> {
    if a.len() == 0 {
        a
    } else {
        a.subrange(1, a.len() as int)
    }
}

/// A segment tree over values `V` with pending updates `T` from the
/// algebra `O`.
#[derive(Debug)]
pub struct SegmentTree<V, T, O> where V: Copy, T: Copy, O: Operation<V, T> {
    val: Vec<V>,
    tag: Vec<T>,
    len: usize,
    phantom: PhantomData<O>,
}

impl<V, T, O> View for SegmentTree<V, T, O> where V: Copy, T: Copy, O: Operation<V, T> {
    type V = Seq<V>;

    /// The sequence the tree stands for: element `i` of the view is the
    /// value at position `i + 1`.
    closed spec fn view(&self) -> Seq<V> {
        if self.len == 0 {
            Seq::empty()
        } else {
            self.subtree_seq(1, 1, self.len as int)
        }
    }
}

impl<V, T, O> SegmentTree<V, T, O> where V: Copy, T: Copy, O: Operation<V, T> {
    /// The number of positions, for use in contracts.
    pub closed spec fn spec_len(&self) -> usize {
        self.len
    }

    /// The two arrays have one slot for each of the `4 * len` possible
    /// nodes, and the unused slot 0.
    pub closed spec fn shaped(&self) -> bool {
        &&& 4 * self.len + 1 <= usize::MAX
        &&& self.val@.len() == 4 * self.len + 1
        &&& self.tag@.len() == 4 * self.len + 1
    }

    /// The values at the positions `l..=r`, read off the subtree of node
    /// `x`, which covers them: the values at its leaves with the pending
    /// tags of the subtree applied.
    pub closed spec fn subtree_seq(&self, x: int, l: int, r: int) -> Seq<V>
        decreases r - l,
    {
        if l >= r {
            seq![self.val@[x]]
        } else {
            push_all::<V, T, O>(
                self.subtree_seq(2 * x, l, split(l, r)) + self.subtree_seq(
                    2 * x + 1,
                    split(l, r) + 1,
                    r,
                ),
                self.tag@[x],
            )
        }
    }

    /// The lazy-propagation invariant on the subtree of node `x`, which
    /// covers `l..=r`: every node of it has its slot, with a value and a
    /// tag that the algebra works on, and the value of every node is the
    /// aggregate of the values its span stands for, up to the tags pending
    /// above that node.
    pub closed spec fn subtree_wf(&self, x: int, l: int, r: int) -> bool
        decreases r - l,
    {
        &&& self.shaped()
        &&& 1 <= x < self.val@.len()
        &&& 1 <= l <= r <= self.len
        &&& O::val_ok(self.val@[x])
        &&& O::tag_ok(self.tag@[x])
        &&& self.val@[x] == reduce::<V, T, O>(self.subtree_seq(x, l, r))
        &&& (l < r ==> 2 * x + 1 < self.val@.len() && self.subtree_wf(2 * x, l, split(l, r))
            && self.subtree_wf(
            2 * x + 1,
            split(l, r) + 1,
            r,
        ))
    }

    /// The tree is well formed: the arrays have their shape and, unless
    /// the tree is empty, the invariant holds from the root down.
    pub open spec fn wf(&self) -> bool {
        &&& self.shaped()
        &&& self.len() > 0 ==> self.subtree_wf(1, 1, self.len() as int)
    }

    /// No update is pending anywhere in the tree.
    pub closed spec fn pending_free(&self) -> bool {
        forall|i: int| 0 <= i < self.tag@.len() ==> self.tag@[i] == O::tag_identity_spec()
    }

    /// `self` and `other` hold the same values and tags in the subtree of
    /// node `x`.
    pub closed spec fn agrees_inside(&self, other: &Self, x: int) -> bool {
        forall|i: int|
            0 <= i < self.val@.len() && #[trigger] descendant(i, x) ==> self.val@[i]
                == other.val@[i] && self.tag@[i] == other.tag@[i]
    }

    /// `self` and `other` have the same length and hold the same values and
    /// tags outside the subtree of node `x`.
    pub closed spec fn agrees_outside(&self, other: &Self, x: int) -> bool {
        &&& self.len == other.len
        &&& self.val@.len() == other.val@.len()
        &&& self.tag@.len() == other.tag@.len()
        &&& forall|i: int|
            0 <= i < self.val@.len() && !#[trigger] descendant(i, x) ==> self.val@[i]
                == other.val@[i] && self.tag@[i] == other.tag@[i]
    }

    /// A subtree stands for one value per position of its span.
    pub proof fn lemma_subtree_len(&self, x: int, l: int, r: int)
        requires
            l <= r,
        ensures
            self.subtree_seq(x, l, r).len() == r - l + 1,
        decreases r - l,
    {
        if l < r {
            self.lemma_subtree_len(2 * x, l, split(l, r));
            self.lemma_subtree_len(2 * x + 1, split(l, r) + 1, r);
        }
    }

    /// The view of a well-formed tree has one element per position.
    pub proof fn lemma_view_len(&self)
        requires
            self.wf(),
        ensures
            self@.len() == self.len(),
    {
        if self.len > 0 {
            self.lemma_subtree_len(1, 1, self.len as int);
        }
    }

    /// A well-formed subtree stands for values that the algebra works on.
    pub proof fn lemma_subtree_ok(&self, x: int, l: int, r: int)
        requires
            self.subtree_wf(x, l, r),
        ensures
            all_ok::<V, T, O>(self.subtree_seq(x, l, r)),
        decreases r - l,
    {
        if l < r {
            let m = split(l, r);
            self.lemma_subtree_ok(2 * x, l, m);
            self.lemma_subtree_ok(2 * x + 1, m + 1, r);
            let left = self.subtree_seq(2 * x, l, m);
            let right = self.subtree_seq(2 * x + 1, m + 1, r);
            lemma_concat_ok::<V, T, O>(left, right);
            lemma_push_all_ok::<V, T, O>(left + right, self.tag@[x]);
        }
    }

    /// A well-formed tree stands for values that the algebra works on.
    pub proof fn lemma_view_ok(&self)
        requires
            self.wf(),
        ensures
            all_ok::<V, T, O>(self@),
    {
        if self.len > 0 {
            self.lemma_subtree_ok(1, 1, self.len as int);
        }
    }

    /// What a subtree stands for, and whether it is well formed, depends
    /// on the slots of that subtree alone.
    proof fn lemma_subtree_local(&self, other: &Self, x: int, l: int, r: int)
        requires
            self.subtree_wf(x, l, r),
            self.agrees_inside(other, x),
            other.len == self.len,
            other.shaped(),
        ensures
            other.subtree_seq(x, l, r) == self.subtree_seq(x, l, r),
            other.subtree_wf(x, l, r),
        decreases r - l,
    {
        assert(descendant(x, x));
        if l < r {
            let m = split(l, r);
            assert forall|i: int|
                0 <= i < self.val@.len() && #[trigger] descendant(
                    i,
                    2 * x,
                ) implies self.val@[i] == other.val@[i] && self.tag@[i] == other.tag@[i] by {
                lemma_descendant_of_child(i, x);
            }
            assert forall|i: int|
                0 <= i < self.val@.len() && #[trigger] descendant(
                    i,
                    2 * x + 1,
                ) implies self.val@[i] == other.val@[i] && self.tag@[i] == other.tag@[i] by {
                lemma_descendant_of_child(i, x);
            }
            self.lemma_subtree_local(other, 2 * x, l, m);
            self.lemma_subtree_local(other, 2 * x + 1, m + 1, r);
        }
    }

    /// The number of positions.
    #[verifier::when_used_as_spec(spec_len)]
    pub fn len(&self) -> (out: usize)
        ensures
            out == self.len(),
    {
        self.len
    }

    /// Whether the tree has no position.
    pub fn is_empty(&self) -> (out: bool)
        ensures
            out == (self.len() == 0),
    {
        self.len == 0
    }

    /// The nodes of a well-formed subtree hold values and tags that the
    /// algebra works on: the node `x`, and its two children if it has any.
    proof fn lemma_nodes_ok(&self, x: int, l: int, r: int)
        requires
            self.subtree_wf(x, l, r),
        ensures
            O::val_ok(self.val@[x]),
            O::tag_ok(self.tag@[x]),
            l < r ==> O::val_ok(self.val@[2 * x]) && O::tag_ok(self.tag@[2 * x]) && O::val_ok(
                self.val@[2 * x + 1],
            ) && O::tag_ok(self.tag@[2 * x + 1]),
    {
        if l < r {
            assert(self.subtree_wf(2 * x, l, split(l, r)));
            assert(self.subtree_wf(2 * x + 1, split(l, r) + 1, r));
        }
    }

    /// Recombines the value of node `x` from its two children.
    fn pushup(&mut self, x: usize)
        requires
            2 * x + 1 < old(self).val.len(),
            O::val_ok(old(self).val@[2 * x]),
            O::val_ok(old(self).val@[2 * x + 1]),
        ensures
            final(self).val@ == old(self).val@.update(
                x as int,
                O::combine_spec(old(self).val@[2 * x], old(self).val@[2 * x + 1]),
            ),
            final(self).tag@ == old(self).tag@,
            final(self).len == old(self).len,
    {
        let combined = O::combine(self.val[2 * x], self.val[2 * x + 1]);
        self.val.set(x, combined);
    }

    /// The effect of flushing a tag `t` into a child `c` that covers
    /// `l..=r`: the child then stands for its old values with `t` applied.
    proof fn lemma_child_pushed(&self, post: &Self, c: int, l: int, r: int, t: T)
        requires
            self.subtree_wf(c, l, r),
            O::tag_ok(t),
            post.len == self.len,
            post.shaped(),
            post.val@[c] == O::push_val_spec(self.val@[c], t, (r - l + 1) as usize),
            post.tag@[c] == O::push_tag_spec(self.tag@[c], t),
            forall|i: int|
                2 * c <= i < self.val@.len() ==> post.val@[i] == self.val@[i] && post.tag@[i]
                    == self.tag@[i],
        ensures
            post.subtree_wf(c, l, r),
            post.subtree_seq(c, l, r) == push_all::<V, T, O>(self.subtree_seq(c, l, r), t),
    {
        let before = self.subtree_seq(c, l, r);
        self.lemma_subtree_len(c, l, r);
        self.lemma_subtree_ok(c, l, r);
        lemma_push_val_reduce::<V, T, O>(before, t);
        O::lemma_push_val_ok(self.val@[c], t, (r - l + 1) as usize);
        O::lemma_push_tag_ok(self.tag@[c], t);
        if l == r {
            assert(post.subtree_seq(c, l, r) =~= push_all::<V, T, O>(before, t));
        } else {
            let m = split(l, r);
            self.lemma_subtree_local(post, 2 * c, l, m);
            self.lemma_subtree_local(post, 2 * c + 1, m + 1, r);
            self.lemma_subtree_ok(2 * c, l, m);
            self.lemma_subtree_ok(2 * c + 1, m + 1, r);
            let below = self.subtree_seq(2 * c, l, m) + self.subtree_seq(2 * c + 1, m + 1, r);
            lemma_concat_ok::<V, T, O>(
                self.subtree_seq(2 * c, l, m),
                self.subtree_seq(2 * c + 1, m + 1, r),
            );
            lemma_push_all_composes::<V, T, O>(below, self.tag@[c], t);
        }
    }

    /// The effect of flushing the tag of node `x`, which covers `l..=r`,
    /// into both children: the subtree stands for the same values, and no
    /// tag is pending at `x` any more.
    proof fn lemma_pushdown(&self, post: &Self, x: int, l: int, r: int)
        requires
            self.subtree_wf(x, l, r),
            l < r,
            post.len == self.len,
            post.val@ == self.val@.update(
                2 * x,
                O::push_val_spec(self.val@[2 * x], self.tag@[x], (split(l, r) - l + 1) as usize),
            ).update(
                2 * x + 1,
                O::push_val_spec(self.val@[2 * x + 1], self.tag@[x], (r - split(l, r)) as usize),
            ),
            post.tag@ == self.tag@.update(
                2 * x,
                O::push_tag_spec(self.tag@[2 * x], self.tag@[x]),
            ).update(2 * x + 1, O::push_tag_spec(self.tag@[2 * x + 1], self.tag@[x])).update(
                x,
                O::tag_identity_spec(),
            ),
        ensures
            post.subtree_wf(x, l, r),
            post.subtree_seq(x, l, r) == self.subtree_seq(x, l, r),
            post.subtree_seq(x, l, r) == post.subtree_seq(2 * x, l, split(l, r))
                + post.subtree_seq(2 * x + 1, split(l, r) + 1, r),
            post.agrees_outside(self, x),
    {
        let m = split(l, r);
        let t = self.tag@[x];
        self.lemma_child_pushed(post, 2 * x, l, m, t);
        self.lemma_child_pushed(post, 2 * x + 1, m + 1, r, t);
        let left = self.subtree_seq(2 * x, l, m);
        let right = self.subtree_seq(2 * x + 1, m + 1, r);
        lemma_push_all_concat::<V, T, O>(left, right, t);
        post.lemma_subtree_ok(2 * x, l, m);
        post.lemma_subtree_ok(2 * x + 1, m + 1, r);
        lemma_concat_ok::<V, T, O>(
            post.subtree_seq(2 * x, l, m),
            post.subtree_seq(2 * x + 1, m + 1, r),
        );
        O::lemma_identities_ok();
        lemma_push_all_identity::<V, T, O>(
            post.subtree_seq(2 * x, l, m) + post.subtree_seq(2 * x + 1, m + 1, r),
        );
        assert(descendant(x, x));
        assert(descendant(2 * x, x)) by {
            assert(descendant(2 * x, 2 * x));
            lemma_descendant_of_child(2 * x, x);
        }
        assert(descendant(2 * x + 1, x)) by {
            assert(descendant(2 * x + 1, 2 * x + 1));
            lemma_descendant_of_child(2 * x + 1, x);
        }
    }

    /// Flushes the pending tag of node `x`, which covers `l..=r`, into its
    /// two children: each child's value takes the tag over that child's
    /// span, each child's tag is composed with it, and the tag of `x`
    /// becomes neutral. No other slot changes.
    fn pushdown(&mut self, x: usize, l: usize, r: usize)
        requires
            old(self).subtree_wf(x as int, l as int, r as int),
            l < r,
        ensures
            final(self).subtree_wf(x as int, l as int, r as int),
            final(self).subtree_seq(x as int, l as int, r as int) == old(self).subtree_seq(
                x as int,
                l as int,
                r as int,
            ),
            final(self).subtree_seq(x as int, l as int, r as int) == final(self).subtree_seq(
                2 * x,
                l as int,
                split(l as int, r as int),
            ) + final(self).subtree_seq(2 * x + 1, split(l as int, r as int) + 1, r as int),
            final(self).tag@[x as int] == O::tag_identity_spec(),
            final(self).agrees_outside(old(self), x as int),
            final(self).len == old(self).len,
            final(self).val@ == old(self).val@.update(
                2 * x,
                O::push_val_spec(
                    old(self).val@[2 * x],
                    old(self).tag@[x as int],
                    (split(l as int, r as int) - l + 1) as usize,
                ),
            ).update(
                2 * x + 1,
                O::push_val_spec(
                    old(self).val@[2 * x + 1],
                    old(self).tag@[x as int],
                    (r - split(l as int, r as int)) as usize,
                ),
            ),
            final(self).tag@ == old(self).tag@.update(
                2 * x,
                O::push_tag_spec(old(self).tag@[2 * x], old(self).tag@[x as int]),
            ).update(
                2 * x + 1,
                O::push_tag_spec(old(self).tag@[2 * x + 1], old(self).tag@[x as int]),
            ).update(x as int, O::tag_identity_spec()),
    {
        let ghost pre = *self;
        let m = (l + r) / 2;
        let t = self.tag[x];
        proof {
            pre.lemma_nodes_ok(x as int, l as int, r as int);
        }
        let left = O::push_val(self.val[2 * x], t, m - l + 1);
        self.val.set(2 * x, left);
        let right = O::push_val(self.val[2 * x + 1], t, r - m);
        self.val.set(2 * x + 1, right);
        let left_tag = O::push_tag(self.tag[2 * x], t);
        self.tag.set(2 * x, left_tag);
        let right_tag = O::push_tag(self.tag[2 * x + 1], t);
        self.tag.set(2 * x + 1, right_tag);
        let neutral = O::tag_identity();
        self.tag.set(x, neutral);
        proof {
            pre.lemma_pushdown(self, x as int, l as int, r as int);
        }
    }

    /// The effect of applying `delta` at node `x`, whose span `l..=r` lies
    /// inside the range of the update: the subtree stands for its old
    /// values with `delta` applied to each.
    proof fn lemma_covered(&self, post: &Self, x: int, l: int, r: int, delta: T)
        requires
            self.subtree_wf(x, l, r),
            O::tag_ok(delta),
            post.len == self.len,
            post.val@ == self.val@.update(
                x,
                O::push_val_spec(self.val@[x], delta, (r - l + 1) as usize),
            ),
            post.tag@ == self.tag@.update(x, O::push_tag_spec(self.tag@[x], delta)),
        ensures
            post.subtree_wf(x, l, r),
            post.subtree_seq(x, l, r) == push_all::<V, T, O>(self.subtree_seq(x, l, r), delta),
            post.agrees_outside(self, x),
    {
        self.lemma_child_pushed(post, x, l, r, delta);
        assert(descendant(x, x));
    }

    /// A change confined to the subtree of one child of node `x` leaves the
    /// other child's subtree, and the slots of `x` itself, as they were.
    proof fn lemma_sibling_kept(&self, post: &Self, x: int, l: int, r: int, left_changed: bool)
        requires
            x >= 1,
            l < r,
            !left_changed ==> self.subtree_wf(2 * x, l, split(l, r)),
            left_changed ==> self.subtree_wf(2 * x + 1, split(l, r) + 1, r),
            post.agrees_outside(
                self,
                if left_changed {
                    2 * x
                } else {
                    2 * x + 1
                },
            ),
        ensures
            post.val@[x] == self.val@[x],
            post.tag@[x] == self.tag@[x],
            left_changed ==> post.subtree_wf(2 * x + 1, split(l, r) + 1, r) && post.subtree_seq(
                2 * x + 1,
                split(l, r) + 1,
                r,
            ) == self.subtree_seq(2 * x + 1, split(l, r) + 1, r),
            !left_changed ==> post.subtree_wf(2 * x, l, split(l, r)) && post.subtree_seq(
                2 * x,
                l,
                split(l, r),
            ) == self.subtree_seq(2 * x, l, split(l, r)),
    {
        let m = split(l, r);
        assert(!descendant(x, 2 * x));
        assert(!descendant(x, 2 * x + 1));
        if left_changed {
            assert forall|i: int|
                0 <= i < self.val@.len() && #[trigger] descendant(
                    i,
                    2 * x + 1,
                ) implies self.val@[i] == post.val@[i] && self.tag@[i] == post.tag@[i] by {
                lemma_children_disjoint(i, x);
            }
            self.lemma_subtree_local(post, 2 * x + 1, m + 1, r);
        } else {
            assert forall|i: int|
                0 <= i < self.val@.len() && #[trigger] descendant(
                    i,
                    2 * x,
                ) implies self.val@[i] == post.val@[i] && self.tag@[i] == post.tag@[i] by {
                lemma_children_disjoint(i, x);
            }
            self.lemma_subtree_local(post, 2 * x, l, m);
        }
    }

    /// The effect of recombining node `x`, which covers `l..=r` and holds
    /// no pending tag, from two well-formed children: the subtree is well
    /// formed and stands for what the children stand for, left then right.
    proof fn lemma_pushup(&self, post: &Self, x: int, l: int, r: int)
        requires
            1 <= x,
            1 <= l < r <= self.len,
            self.subtree_wf(2 * x, l, split(l, r)),
            self.subtree_wf(2 * x + 1, split(l, r) + 1, r),
            self.tag@[x] == O::tag_identity_spec(),
            post.len == self.len,
            post.tag@ == self.tag@,
            post.val@ == self.val@.update(
                x,
                O::combine_spec(self.val@[2 * x], self.val@[2 * x + 1]),
            ),
        ensures
            post.subtree_wf(x, l, r),
            post.subtree_seq(x, l, r) == self.subtree_seq(2 * x, l, split(l, r))
                + self.subtree_seq(2 * x + 1, split(l, r) + 1, r),
    {
        let m = split(l, r);
        assert(!descendant(x, 2 * x));
        assert(!descendant(x, 2 * x + 1));
        self.lemma_subtree_local(post, 2 * x, l, m);
        self.lemma_subtree_local(post, 2 * x + 1, m + 1, r);
        let left = self.subtree_seq(2 * x, l, m);
        let right = self.subtree_seq(2 * x + 1, m + 1, r);
        self.lemma_subtree_ok(2 * x, l, m);
        self.lemma_subtree_ok(2 * x + 1, m + 1, r);
        lemma_concat_ok::<V, T, O>(left, right);
        O::lemma_identities_ok();
        O::lemma_combine_ok(self.val@[2 * x], self.val@[2 * x + 1]);
        lemma_push_all_identity::<V, T, O>(left + right);
        lemma_reduce_concat::<V, T, O>(left, right);
    }

    /// Changes confined to the two children's subtrees and to the value of
    /// node `x` are confined to the subtree of `x`.
    proof fn lemma_outside_trans(
        &self,
        left_done: &Self,
        both_done: &Self,
        last: &Self,
        first: &Self,
        x: int,
    )
        requires
            x >= 1,
            self.agrees_outside(first, x),
            left_done.agrees_outside(self, 2 * x),
            both_done.agrees_outside(left_done, 2 * x + 1),
            last.len == both_done.len,
            last.tag@ == both_done.tag@,
            last.val@.len() == both_done.val@.len(),
            forall|i: int|
                0 <= i < last.val@.len() && i != x ==> last.val@[i] == both_done.val@[i],
        ensures
            last.agrees_outside(first, x),
    {
        assert(descendant(x, x));
        assert forall|i: int| 0 <= i < last.val@.len() && !#[trigger] descendant(i, x) implies
            last.val@[i] == first.val@[i] && last.tag@[i] == first.tag@[i] by {
            if descendant(i, 2 * x) || descendant(i, 2 * x + 1) {
                lemma_descendant_of_child(i, x);
            }
        }
    }

    /// Applies `delta` to every position in `ql..=qr`.
    ///
    /// The call works on the subtree of node `x`, which covers `l..=r`; a
    /// caller passes the root: `x == 1`, `l == 1`, `r == self.len()`. The
    /// subtree then stands for its old values with `delta` applied at the
    /// positions of `ql..=qr`, and nothing outside the subtree has changed.
    /// The range lies within `1..=self.len()` and meets the span, and
    /// `delta` is a tag that the algebra works on.
    #[verifier::rlimit(30)]
    pub fn modify(&mut self, x: usize, l: usize, r: usize, ql: usize, qr: usize, delta: T)
        requires
            old(self).subtree_wf(x as int, l as int, r as int),
            1 <= ql <= qr <= old(self).len(),
            ql <= r,
            l <= qr,
            O::tag_ok(delta),
        ensures
            final(self).subtree_wf(x as int, l as int, r as int),
            final(self).subtree_seq(x as int, l as int, r as int) == apply_on::<V, T, O>(
                old(self).subtree_seq(x as int, l as int, r as int),
                l as int,
                ql as int,
                qr as int,
                delta,
            ),
            final(self).agrees_outside(old(self), x as int),
            x == 1 && l == 1 && r == old(self).len() ==> final(self).wf() && final(self).len()
                == old(self).len() && final(self)@ == range_apply::<V, T, O>(
                old(self)@,
                ql as int,
                qr as int,
                delta,
            ),
        decreases r - l,
    {
        let ghost pre = *self;
        if ql <= l && r <= qr {
            let pushed = O::push_val(self.val[x], delta, r - l + 1);
            self.val.set(x, pushed);
            let composed = O::push_tag(self.tag[x], delta);
            self.tag.set(x, composed);
            proof {
                pre.lemma_covered(self, x as int, l as int, r as int, delta);
                pre.lemma_subtree_len(x as int, l as int, r as int);
                lemma_apply_on_covered::<V, T, O>(
                    pre.subtree_seq(x as int, l as int, r as int),
                    l as int,
                    ql as int,
                    qr as int,
                    delta,
                );
            }
        } else {
            self.pushdown(x, l, r);
            let m = (l + r) / 2;
            let ghost flushed = *self;
            let ghost left = flushed.subtree_seq(2 * x, l as int, m as int);
            let ghost right = flushed.subtree_seq(2 * x + 1, m + 1, r as int);
            proof {
                flushed.lemma_subtree_len(2 * x, l as int, m as int);
                lemma_apply_on_concat::<V, T, O>(left, right, l as int, ql as int, qr as int, delta);
            }
            if ql <= m {
                self.modify(2 * x, l, m, ql, qr, delta);
            } else {
                proof {
                    lemma_apply_on_missed::<V, T, O>(left, l as int, ql as int, qr as int, delta);
                }
            }
            let ghost left_done = *self;
            proof {
                flushed.lemma_sibling_kept(&left_done, x as int, l as int, r as int, true);
            }
            if m < qr {
                self.modify(2 * x + 1, m + 1, r, ql, qr, delta);
            } else {
                proof {
                    lemma_apply_on_missed::<V, T, O>(
                        right,
                        m + 1,
                        ql as int,
                        qr as int,
                        delta,
                    );
                }
            }
            let ghost both_done = *self;
            proof {
                left_done.lemma_sibling_kept(&both_done, x as int, l as int, r as int, false);
            }
            self.pushup(x);
            proof {
                both_done.lemma_pushup(self, x as int, l as int, r as int);
                flushed.lemma_outside_trans(&left_done, &both_done, self, &pre, x as int);
            }
        }
    }

    /// Returns the aggregate of the positions in `ql..=qr`.
    ///
    /// The call works on the subtree of node `x`, which covers `l..=r`; a
    /// caller passes the root: `x == 1`, `l == 1`, `r == self.len()`. The
    /// result is the aggregate of the values that the subtree stands for at
    /// the positions of `ql..=qr`. Pending tags may move down the tree, but
    /// the subtree stands for the same values afterwards. The range lies
    /// within `1..=self.len()` and meets the span.
    #[verifier::rlimit(30)]
    pub fn query(&mut self, x: usize, l: usize, r: usize, ql: usize, qr: usize) -> (out: V)
        requires
            old(self).subtree_wf(x as int, l as int, r as int),
            1 <= ql <= qr <= old(self).len(),
            ql <= r,
            l <= qr,
        ensures
            final(self).subtree_wf(x as int, l as int, r as int),
            final(self).subtree_seq(x as int, l as int, r as int) == old(self).subtree_seq(
                x as int,
                l as int,
                r as int,
            ),
            final(self).agrees_outside(old(self), x as int),
            O::val_ok(out),
            out == reduce::<V, T, O>(
                window(
                    old(self).subtree_seq(x as int, l as int, r as int),
                    l as int,
                    ql as int,
                    qr as int,
                ),
            ),
            x == 1 && l == 1 && r == old(self).len() ==> final(self).wf() && final(self).len()
                == old(self).len() && final(self)@ == old(self)@ && out == range_reduce::<V, T, O>(
                old(self)@,
                ql as int,
                qr as int,
            ),
        decreases r - l,
    {
        let ghost pre = *self;
        if ql <= l && r <= qr {
            proof {
                pre.lemma_subtree_len(x as int, l as int, r as int);
                lemma_window_extremes(
                    pre.subtree_seq(x as int, l as int, r as int),
                    l as int,
                    ql as int,
                    qr as int,
                );
                assert(descendant(x as int, x as int));
            }
            self.val[x]
        } else {
            self.pushdown(x, l, r);
            let m = (l + r) / 2;
            let ghost flushed = *self;
            let ghost left = flushed.subtree_seq(2 * x, l as int, m as int);
            let ghost right = flushed.subtree_seq(2 * x + 1, m + 1, r as int);
            proof {
                flushed.lemma_subtree_len(2 * x, l as int, m as int);
                flushed.lemma_subtree_len(2 * x + 1, m + 1, r as int);
                flushed.lemma_subtree_ok(2 * x, l as int, m as int);
                flushed.lemma_subtree_ok(2 * x + 1, m + 1, r as int);
                lemma_window_ok::<V, T, O>(left, l as int, ql as int, qr as int);
                lemma_window_ok::<V, T, O>(right, m + 1, ql as int, qr as int);
                O::lemma_identities_ok();
                lemma_window_concat(left, right, l as int, ql as int, qr as int);
                lemma_reduce_concat::<V, T, O>(
                    window(left, l as int, ql as int, qr as int),
                    window(right, m + 1, ql as int, qr as int),
                );
                lemma_window_extremes(left, l as int, ql as int, qr as int);
                lemma_window_extremes(right, m + 1, ql as int, qr as int);
            }
            let left_part = if ql <= m {
                self.query(2 * x, l, m, ql, qr)
            } else {
                O::val_identity()
            };
            let ghost left_done = *self;
            proof {
                flushed.lemma_sibling_kept(&left_done, x as int, l as int, r as int, true);
            }
            let right_part = if m < qr {
                self.query(2 * x + 1, m + 1, r, ql, qr)
            } else {
                O::val_identity()
            };
            proof {
                left_done.lemma_sibling_kept(self, x as int, l as int, r as int, false);
                flushed.lemma_outside_trans(&left_done, self, self, &pre, x as int);
                O::lemma_combine_ok(left_part, right_part);
            }
            O::combine(left_part, right_part)
        }
    }

    /// Every value in the arrays is the neutral value.
    spec fn blank(&self) -> bool {
        forall|i: int| 0 <= i < self.val@.len() ==> self.val@[i] == O::val_identity_spec()
    }

    /// A tree whose values are all neutral and that has no pending tag is
    /// well formed and stands for neutral values.
    proof fn lemma_blank_subtree(&self, x: int, l: int, r: int)
        requires
            self.shaped(),
            self.blank(),
            self.pending_free(),
            placed(x, l, r, self.len as int),
        ensures
            self.subtree_wf(x, l, r),
            self.subtree_seq(x, l, r) == Seq::new(
                (r - l + 1) as nat,
                |i: int| O::val_identity_spec(),
            ),
        decreases r - l,
    {
        let neutral = O::val_identity_spec();
        O::lemma_identities_ok();
        if l == r {
            lemma_reduce_one::<V, T, O>(neutral);
            assert(self.subtree_seq(x, l, r) =~= Seq::new(1, |i: int| neutral));
        } else {
            let m = split(l, r);
            lemma_placed_children(x, l, r, self.len as int);
            self.lemma_blank_subtree(2 * x, l, m);
            self.lemma_blank_subtree(2 * x + 1, m + 1, r);
            let left = self.subtree_seq(2 * x, l, m);
            let right = self.subtree_seq(2 * x + 1, m + 1, r);
            self.lemma_subtree_ok(2 * x, l, m);
            self.lemma_subtree_ok(2 * x + 1, m + 1, r);
            lemma_concat_ok::<V, T, O>(left, right);
            lemma_push_all_identity::<V, T, O>(left + right);
            lemma_reduce_concat::<V, T, O>(left, right);
            O::lemma_combine_identity(neutral);
            assert(left + right =~= Seq::new((r - l + 1) as nat, |i: int| neutral));
        }
    }

    /// The arrays for a tree over `len` positions, every value and every
    /// tag neutral.
    fn with_len(len: usize) -> (st: Self)
        requires
            len <= usize::MAX / 4,
        ensures
            st.shaped(),
            st.blank(),
            st.pending_free(),
            st.len == len,
    {
        let slots = 4 * len + 1;
        let mut val: Vec<V> = Vec::new();
        let mut tag: Vec<T> = Vec::new();
        let mut i: usize = 0;
        while i < slots
            invariant
                i <= slots,
                val@.len() == i,
                tag@.len() == i,
                forall|k: int| 0 <= k < i ==> val@[k] == O::val_identity_spec(),
                forall|k: int| 0 <= k < i ==> tag@[k] == O::tag_identity_spec(),
            decreases slots - i,
        {
            val.push(O::val_identity());
            tag.push(O::tag_identity());
            i += 1;
        }
        SegmentTree { val, tag, len, phantom: PhantomData }
    }

    /// Constructs a tree over `len` positions that all hold the neutral
    /// value.
    pub fn new(len: usize) -> (st: Self)
        requires
            len <= usize::MAX / 4,
        ensures
            st.wf(),
            st.pending_free(),
            st.len() == len,
            st@ == Seq::new(len as nat, |i: int| O::val_identity_spec()),
    {
        let st = Self::with_len(len);
        proof {
            if len > 0 {
                st.lemma_blank_subtree(1, 1, len as int);
            } else {
                assert(st@ =~= Seq::new(len as nat, |i: int| O::val_identity_spec()));
            }
        }
        st
    }

    /// Fills the subtree of node `x`, which covers `l..=r`, from `a`, in
    /// which the value of position `p` stands at index `p - 1 + base`.
    fn init(&mut self, x: usize, l: usize, r: usize, a: &Vec<V>, base: usize)
        requires
            old(self).shaped(),
            old(self).pending_free(),
            placed(x as int, l as int, r as int, old(self).len as int),
            base <= 1,
            r - 1 + base < a.len(),
            forall|i: int| l - 1 + base <= i < r + base ==> O::val_ok(#[trigger] a@[i]),
        ensures
            final(self).subtree_wf(x as int, l as int, r as int),
            final(self).subtree_seq(x as int, l as int, r as int) == a@.subrange(
                l - 1 + base,
                r + base,
            ),
            final(self).agrees_outside(old(self), x as int),
            final(self).pending_free(),
        decreases r - l,
    {
        let ghost pre = *self;
        if l == r {
            self.val.set(x, a[l - 1 + base]);
            proof {
                O::lemma_identities_ok();
                lemma_reduce_one::<V, T, O>(a@[l - 1 + base]);
                assert(descendant(x as int, x as int));
                assert(self.subtree_seq(x as int, l as int, r as int) =~= a@.subrange(
                    l - 1 + base,
                    r + base,
                ));
            }
        } else {
            let m = (l + r) / 2;
            proof {
                lemma_placed_children(x as int, l as int, r as int, self.len as int);
            }
            self.init(2 * x, l, m, a, base);
            let ghost left_done = *self;
            self.init(2 * x + 1, m + 1, r, a, base);
            let ghost both_done = *self;
            proof {
                left_done.lemma_sibling_kept(&both_done, x as int, l as int, r as int, false);
                both_done.lemma_nodes_ok(2 * x, l as int, m as int);
                both_done.lemma_nodes_ok(2 * x + 1, m + 1, r as int);
            }
            self.pushup(x);
            proof {
                both_done.lemma_pushup(self, x as int, l as int, r as int);
                pre.lemma_outside_trans(&left_done, &both_done, self, &pre, x as int);
                assert(a@.subrange(l - 1 + base, m + base) + a@.subrange(m + base, r + base)
                    =~= a@.subrange(l - 1 + base, r + base));
            }
        }
    }

    /// Fills the subtree of node `x`, which covers `l..=r`, from `a`, whose
    /// first element is the value of position 1; the values taken are
    /// values that the algebra works on. No tag may be pending.
    ///
    /// A caller passes the root: `x == 1`, `l == 1`, `r == self.len()`;
    /// the tree then stands for the first `self.len()` elements of `a`.
    pub fn build(&mut self, x: usize, l: usize, r: usize, a: &Vec<V>)
        requires
            old(self).shaped(),
            old(self).pending_free(),
            placed(x as int, l as int, r as int, old(self).len() as int),
            r <= a.len(),
            all_ok::<V, T, O>(a@.subrange(l - 1, r as int)),
        ensures
            final(self).subtree_wf(x as int, l as int, r as int),
            final(self).subtree_seq(x as int, l as int, r as int) == a@.subrange(
                l - 1,
                r as int,
            ),
            final(self).agrees_outside(old(self), x as int),
            final(self).pending_free(),
            x == 1 && l == 1 && r == old(self).len() ==> final(self).wf() && final(self).len()
                == old(self).len() && final(self)@ == a@.subrange(0, r as int),
    {
        proof {
            assert forall|i: int| l - 1 <= i < r implies O::val_ok(#[trigger] a@[i]) by {
                assert(a@.subrange(l - 1, r as int)[i - (l - 1)] == a@[i]);
            }
        }
        self.init(x, l, r, a, 0);
    }

    /// Constructs the tree that stands for the positions `1..` of `a`,
    /// which hold values that the algebra works on; `a[0]` is a buffer slot
    /// and is never read.
    pub fn from(a: Vec<V>) -> (st: Self)
        requires
            a.len() <= usize::MAX / 4,
            all_ok::<V, T, O>(positions(a@)),
        ensures
            st.wf(),
            st.pending_free(),
            st@ == positions(a@),
            st.len() == positions(a@).len(),
    {
        let len = if a.len() == 0 {
            0
        } else {
            a.len() - 1
        };
        let mut st = Self::with_len(len);
        if len > 0 {
            proof {
                assert forall|i: int| 1 <= i < len + 1 implies O::val_ok(#[trigger] a@[i]) by {
                    assert(positions(a@)[i - 1] == a@[i]);
                }
            }
            st.init(1, 1, len, &a, 1);
        } else {
            proof {
                assert(st@ =~= positions(a@));
            }
        }
        st
    }

} // impl

} // verus!
