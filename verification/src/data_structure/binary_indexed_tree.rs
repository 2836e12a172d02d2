//! Binary indexed tree (Fenwick tree): point update and range sum.
//!
//! Node `i` of the tree holds the sum of the `low_bit(i)` positions that
//! end at `i`. Sums are taken modulo the number of `isize` values, so every
//! operation is total; a sum that fits in an `isize` is the exact sum.
use vstd::prelude::*;
use crate::num::modular::{
    congruent,
    lemma_congruent_add,
    lemma_congruent_refl,
    lemma_congruent_sub,
    lemma_congruent_sym,
    lemma_congruent_trans,
    lemma_wrap_isize,
    lemma_wrap_isize_congruent,
    modulus_isize,
    wrap_isize,
    wrapping_add_isize,
    wrapping_sub_isize,
};

verus! {

/// The largest power of two that divides `i`; 0 for `i == 0`.
pub open spec fn low_bit_spec(i: nat) -> nat
    decreases i,
{
    if i == 0 {
        0
    } else if i % 2 == 1 {
        1
    } else {
        2 * low_bit_spec(i / 2)
    }
}

/// The node below `i` on the way to 0: `i` with its lowest set bit cleared.
pub open spec fn below(i: nat) -> nat {
    if 1 <= low_bit_spec(i) <= i {
        (i - low_bit_spec(i)) as nat
    } else {
        0
    }
}

/// The exact sum of a sequence.
pub open spec fn total(s: Seq<isize>) -> int
    decreases s.len(),
{
    if s.len() == 0 {
        0
    } else {
        total(s.drop_last()) + s.last()
    }
}

/// The lowest set bit of a positive number is positive and at most the
/// number.
pub proof fn lemma_low_bit_bounds(i: nat)
    requires
        i >= 1,
    ensures
        1 <= low_bit_spec(i) <= i,
        below(i) == i - low_bit_spec(i),
    decreases i,
{
    if i % 2 == 0 {
        lemma_low_bit_bounds(i / 2);
    }
}

/// Between a node and the next node above it on the update path, every
/// node covers positions above the lower node only.
pub proof fn lemma_between(i: nat, k: nat)
    requires
        i >= 1,
        i < k < i + low_bit_spec(i),
    ensures
        below(k) >= i,
    decreases i,
{
    lemma_low_bit_bounds(k);
    if i % 2 == 0 && k % 2 == 0 {
        lemma_low_bit_bounds(i / 2);
        lemma_between(i / 2, k / 2);
        lemma_low_bit_bounds(k / 2);
    }
}

/// The next node on the update path covers at least twice as many
/// positions.
pub proof fn lemma_up(i: nat)
    requires
        i >= 1,
    ensures
        low_bit_spec(i + low_bit_spec(i)) >= 2 * low_bit_spec(i),
    decreases i,
{
    lemma_low_bit_bounds(i);
    if i % 2 == 0 {
        lemma_up(i / 2);
        assert((i + low_bit_spec(i)) / 2 == i / 2 + low_bit_spec(i / 2));
    } else {
        lemma_low_bit_bounds((i + 1) / 2);
    }
}

/// The node below covers at least as many positions.
pub proof fn lemma_down(i: nat)
    requires
        i >= 1,
        below(i) >= 1,
    ensures
        low_bit_spec(below(i)) >= low_bit_spec(i),
    decreases i,
{
    lemma_low_bit_bounds(i);
    lemma_low_bit_bounds(below(i));
    if i % 2 == 0 {
        lemma_low_bit_bounds(i / 2);
        assert(below(i) == 2 * below(i / 2));
        lemma_down(i / 2);
    }
}

/// The lowest set bit, computed on machine words.
proof fn lemma_low_bit_word(i: usize)
    requires
        i >= 1,
    ensures
        (i & !((i - 1) as usize)) == low_bit_spec(i as nat),
    decreases i,
{
    let h: usize = i / 2;
    if i % 2 == 1 {
        assert((i & !((i - 1) as usize)) == 1) by (bit_vector)
            requires
                i % 2 == 1,
        ;
    } else {
        lemma_low_bit_word(h);
        lemma_low_bit_bounds(h as nat);
        assert((i & !((i - 1) as usize)) == ((2 * (h & !((h - 1) as usize))) as usize))
            by (bit_vector)
            requires
                i % 2 == 0,
                i >= 1,
                h == i / 2,
        ;
    }
}

/// The lowest set bit of `index`.
fn low_bit(index: usize) -> (out: usize)
    requires
        index >= 1,
    ensures
        out == low_bit_spec(index as nat),
        1 <= out <= index,
{
    proof {
        lemma_low_bit_word(index);
        lemma_low_bit_bounds(index as nat);
    }
    index & !(index - 1)
}

/// The sum of the nodes on the way from `k` down to 0: the exact sum that
/// the array `body` holds for the positions `1..=k`.
pub open spec fn prefix(body: Seq<isize>, k: nat) -> int
    decreases k,
{
    if k == 0 || k >= body.len() {
        0
    } else {
        body[k as int] + prefix(body, below(k))
    }
}

/// The elements that the array `body` stands for.
pub open spec fn elements(body: Seq<isize>) -> Seq<isize> {
    Seq::new(
        (body.len() - 1) as nat,
        |i: int| wrap_isize(prefix(body, (i + 1) as nat) - prefix(body, i as nat)),
    )
}

/// What `body` holds for the positions `1..=k` depends on its slots up to
/// `k` alone.
pub proof fn lemma_prefix_local(a: Seq<isize>, b: Seq<isize>, k: nat)
    requires
        k < a.len(),
        k < b.len(),
        forall|j: int| 1 <= j <= k ==> a[j] == b[j],
    ensures
        prefix(a, k) == prefix(b, k),
    decreases k,
{
    if k > 0 {
        lemma_low_bit_bounds(k);
        lemma_prefix_local(a, b, below(k));
    }
}

/// The exact sum of the elements at indices `lo..hi` is congruent to the
/// difference of what `body` holds up to `hi` and up to `lo`.
pub proof fn lemma_total_telescopes(body: Seq<isize>, lo: nat, hi: nat)
    requires
        lo <= hi < body.len(),
    ensures
        congruent(
            total(elements(body).subrange(lo as int, hi as int)),
            prefix(body, hi) - prefix(body, lo),
            modulus_isize(),
        ),
    decreases hi - lo,
{
    let m = modulus_isize();
    let part = elements(body).subrange(lo as int, hi as int);
    if lo == hi {
        lemma_congruent_refl(0, m);
    } else {
        let before = (hi - 1) as nat;
        lemma_total_telescopes(body, lo, before);
        assert(part.drop_last() =~= elements(body).subrange(lo as int, before as int));
        lemma_wrap_isize(prefix(body, hi) - prefix(body, before));
        lemma_congruent_add(
            total(part.drop_last()),
            prefix(body, before) - prefix(body, lo),
            part.last() as int,
            prefix(body, hi) - prefix(body, before),
            m,
        );
    }
}

/// The sum of the elements at indices `lo..hi`, modulo the number of
/// `isize` values.
pub open spec fn range_sum(s: Seq<isize>, lo: int, hi: int) -> isize {
    if lo < hi {
        wrap_isize(total(s.subrange(lo, hi)))
    } else {
        0
    }
}

/// The amount by which adding `delta` at position `index` changes the sum
/// of the positions `1..=k`.
pub open spec fn bump(index: nat, delta: isize, k: nat) -> int {
    if k >= index {
        delta as int
    } else {
        0
    }
}

/// After `delta` has been added to node `c` of the update path of
/// `index`, the nodes from `c` up to the next node of the path hold the
/// old sums plus `delta`.
proof fn lemma_add_step(
    pre: Seq<isize>,
    cur: Seq<isize>,
    next: Seq<isize>,
    index: nat,
    delta: isize,
    c: nat,
    k: nat,
)
    requires
        pre.len() == cur.len(),
        1 <= index <= c <= k < pre.len(),
        k < c + low_bit_spec(c),
        below(c) < index,
        next == cur.update(c as int, wrap_isize(cur[c as int] + delta)),
        forall|j: int| c <= j < pre.len() ==> cur[j] == pre[j],
        forall|j: nat|
            j < c ==> congruent(
                #[trigger] prefix(cur, j),
                prefix(pre, j) + bump(index, delta, j),
                modulus_isize(),
            ),
    ensures
        congruent(prefix(next, k), prefix(pre, k) + delta, modulus_isize()),
    decreases k,
{
    let m = modulus_isize();
    lemma_low_bit_bounds(k);
    if k == c {
        let under = below(c);
        lemma_prefix_local(cur, next, under);
        lemma_wrap_isize(cur[c as int] + delta);
        lemma_congruent_add(
            next[c as int] as int,
            pre[c as int] + delta,
            prefix(next, under),
            prefix(pre, under),
            m,
        );
    } else {
        lemma_between(c, k);
        lemma_add_step(pre, cur, next, index, delta, c, below(k));
        lemma_congruent_refl(pre[k as int] as int, m);
        lemma_congruent_add(
            pre[k as int] as int,
            pre[k as int] as int,
            prefix(next, below(k)),
            prefix(pre, below(k)) + delta,
            m,
        );
    }
}

/// If adding `delta` at `index` has changed every sum `1..=k` by
/// `bump(index, delta, k)`, then it has changed the element at `index` by
/// `delta` and no other.
proof fn lemma_add_elements(pre: Seq<isize>, post: Seq<isize>, index: nat, delta: isize)
    requires
        pre.len() == post.len(),
        1 <= index < pre.len(),
        forall|k: nat|
            k < pre.len() ==> congruent(
                #[trigger] prefix(post, k),
                prefix(pre, k) + bump(index, delta, k),
                modulus_isize(),
            ),
    ensures
        elements(post) == elements(pre).update(
            index - 1,
            wrap_isize(elements(pre)[index - 1] + delta),
        ),
{
    let m = modulus_isize();
    let want = elements(pre).update(index - 1, wrap_isize(elements(pre)[index - 1] + delta));
    assert forall|i: int| 0 <= i < pre.len() - 1 implies elements(post)[i] == want[i] by {
        let hi = (i + 1) as nat;
        let lo = i as nat;
        let old_step = prefix(pre, hi) - prefix(pre, lo);
        lemma_congruent_sub(
            prefix(post, hi),
            prefix(pre, hi) + bump(index, delta, hi),
            prefix(post, lo),
            prefix(pre, lo) + bump(index, delta, lo),
            m,
        );
        if hi == index {
            lemma_wrap_isize(old_step);
            lemma_congruent_refl(delta as int, m);
            lemma_congruent_add(elements(pre)[i] as int, old_step, delta as int, delta as int, m);
            lemma_congruent_sym(elements(pre)[i] + delta, old_step + delta, m);
            lemma_congruent_trans(
                prefix(post, hi) - prefix(post, lo),
                old_step + delta,
                elements(pre)[i] + delta,
                m,
            );
            lemma_wrap_isize_congruent(
                prefix(post, hi) - prefix(post, lo),
                elements(pre)[i] + delta,
            );
        } else {
            lemma_wrap_isize_congruent(prefix(post, hi) - prefix(post, lo), old_step);
        }
    }
    assert(elements(post) =~= want);
}

/// The exact sum of the entries `1..=k` of `a`.
pub open spec fn partial(a: Seq<isize>, k: nat) -> int
    decreases k,
{
    if k == 0 {
        0
    } else {
        partial(a, (k - 1) as nat) + a[k as int]
    }
}

/// The first node on the way down from `c` that lies below `i`, but no
/// node below `lo`.
pub open spec fn reach(c: nat, lo: nat, i: nat) -> nat
    decreases c,
{
    if c <= lo {
        lo
    } else if c < i {
        c
    } else {
        reach(below(c), lo, i)
    }
}

/// Node `c` lies on the way down from node `top`.
pub open spec fn on_chain(top: nat, c: nat) -> bool
    decreases top,
{
    top == c || (top > c && top >= 1 && on_chain(below(top), c))
}

/// A node lies on its own way down.
proof fn lemma_on_chain_top(top: nat)
    ensures
        on_chain(top, top),
{
}

/// The way down from a node goes on below every node on it.
proof fn lemma_on_chain_down(top: nat, c: nat)
    requires
        on_chain(top, c),
        c >= 1,
    ensures
        on_chain(top, below(c)),
    decreases top,
{
    lemma_low_bit_bounds(c);
    if top == c {
        assert(on_chain(below(c), below(c)));
    } else {
        lemma_low_bit_bounds(top);
        lemma_on_chain_down(below(top), c);
    }
}

/// Before any node has handed on its sum, nothing below a node is covered.
proof fn lemma_reach_bottom(c: nat, lo: nat)
    ensures
        reach(c, lo, 1) == lo,
    decreases c,
{
    if c > lo {
        lemma_low_bit_bounds(c);
        lemma_reach_bottom(below(c), lo);
    }
}

/// When every node has handed on its sum, all below a node is covered.
proof fn lemma_reach_done(c: nat, lo: nat, i: nat)
    requires
        lo <= c < i,
    ensures
        reach(c, lo, i) == c,
{
}

/// The way down from just below a node `i` stops at once.
proof fn lemma_reach_own(i: nat)
    requires
        i >= 1,
    ensures
        reach((i - 1) as nat, below(i), i) == i - 1,
{
    lemma_low_bit_bounds(i);
}

/// On the way down from below the node above `i`, the first node below
/// `i + 1` is `i`, and the first node below `i` is the node below `i`.
proof fn lemma_reach_parent(i: nat, c: nat)
    requires
        i >= 1,
        i <= c < i + low_bit_spec(i),
    ensures
        reach(c, below(i + low_bit_spec(i)), i + 1) == i,
        reach(c, below(i + low_bit_spec(i)), i) == below(i),
    decreases c,
{
    let p = i + low_bit_spec(i);
    lemma_low_bit_bounds(i);
    lemma_low_bit_bounds(p);
    lemma_up(i);
    reveal_with_fuel(reach, 2);
    if c > i {
        lemma_between(i, c);
        lemma_low_bit_bounds(c);
        lemma_reach_parent(i, below(c));
    }
}

/// If the node below `c` is above the node below the node above `c`, it
/// covers twice as many positions as `c`.
proof fn lemma_double(c: nat)
    requires
        c >= 1,
        below(c) > below(c + low_bit_spec(c)),
    ensures
        low_bit_spec(below(c)) == 2 * low_bit_spec(c),
    decreases c,
{
    let j = c + low_bit_spec(c);
    lemma_low_bit_bounds(c);
    lemma_low_bit_bounds(j);
    lemma_up(c);
    if c % 2 == 1 {
        lemma_low_bit_bounds(j / 2);
        lemma_low_bit_bounds(((c - 1) / 2) as nat);
    } else {
        let h = c / 2;
        lemma_low_bit_bounds(h);
        lemma_low_bit_bounds(h + low_bit_spec(h));
        assert(j / 2 == h + low_bit_spec(h));
        assert(below(c) == 2 * below(h));
        assert(below(j) == 2 * below(h + low_bit_spec(h)));
        lemma_double(h);
        lemma_low_bit_bounds(below(h));
    }
}

/// Every node on the way down from below `j` that is above the node below
/// `j` has `j` as the node above it.
proof fn lemma_chain_parent(j: nat, t: nat, c: nat)
    requires
        j >= 1,
        t >= 1,
        t + low_bit_spec(t) == j,
        on_chain(t, c),
        c > below(j),
    ensures
        c + low_bit_spec(c) == j,
    decreases t,
{
    if t != c {
        lemma_low_bit_bounds(t);
        lemma_low_bit_bounds(j);
        assert(on_chain(below(t), c));
        assert(below(t) >= c);
        lemma_double(t);
        lemma_chain_parent(j, below(t), c);
    }
}

/// A node that is not the node above `i` has as much covered when `i` has
/// handed on its sum as before.
proof fn lemma_reach_same(j: nat, i: nat, c: nat)
    requires
        j >= 1,
        i >= 1,
        j != i + low_bit_spec(i),
        on_chain((j - 1) as nat, c),
    ensures
        reach(c, below(j), i + 1) == reach(c, below(j), i),
    decreases c,
{
    let lo = below(j);
    lemma_low_bit_bounds(j);
    if c > lo && c >= i {
        if c == i {
            // then `j` would be the node above `i`
            if j % 2 == 1 {
                assert(lo == j - 1);
            } else {
                lemma_low_bit_bounds((j - 1) as nat);
                lemma_chain_parent(j, (j - 1) as nat, c);
            }
        } else {
            lemma_low_bit_bounds(c);
            lemma_on_chain_down((j - 1) as nat, c);
            lemma_reach_same(j, i, below(c));
        }
    }
}

/// An array whose every node holds the sum of the positions it covers
/// holds the sum of the positions `1..=k` on the way down from `k`.
proof fn lemma_prefix_partial(body: Seq<isize>, a: Seq<isize>, k: nat)
    requires
        body.len() == a.len(),
        k < body.len(),
        forall|j: nat|
            1 <= j < body.len() ==> congruent(
                #[trigger] body[j as int] as int,
                partial(a, j) - partial(a, below(j)),
                modulus_isize(),
            ),
    ensures
        congruent(prefix(body, k), partial(a, k), modulus_isize()),
    decreases k,
{
    let m = modulus_isize();
    if k == 0 {
        lemma_congruent_refl(0, m);
    } else {
        lemma_low_bit_bounds(k);
        lemma_prefix_partial(body, a, below(k));
        lemma_congruent_add(
            body[k as int] as int,
            partial(a, k) - partial(a, below(k)),
            prefix(body, below(k)),
            partial(a, below(k)),
            m,
        );
    }
}

/// What the array `body` holds when the nodes below `i` have handed on
/// their sums: every node holds its own element and the sum of what has
/// been handed on to it.
pub open spec fn handed_on(a: Seq<isize>, body: Seq<isize>, i: nat) -> bool {
    &&& body.len() == a.len()
    &&& forall|j: nat|
        1 <= j < a.len() ==> congruent(
            #[trigger] body[j as int] as int,
            a[j as int] + partial(a, reach((j - 1) as nat, below(j), i)) - partial(a, below(j)),
            modulus_isize(),
        )
}

/// Before any node has handed on its sum, every node holds its element.
proof fn lemma_init_start(a: Seq<isize>)
    ensures
        handed_on(a, a, 1),
{
    assert forall|j: nat| 1 <= j < a.len() implies congruent(
        #[trigger] a[j as int] as int,
        a[j as int] + partial(a, reach((j - 1) as nat, below(j), 1)) - partial(a, below(j)),
        modulus_isize(),
    ) by {
        lemma_low_bit_bounds(j);
        lemma_reach_bottom((j - 1) as nat, below(j));
        lemma_congruent_refl(a[j as int] as int, modulus_isize());
    }
}

/// A node that has no node above it in the array hands on nothing.
proof fn lemma_init_keep(a: Seq<isize>, body: Seq<isize>, i: nat)
    requires
        handed_on(a, body, i),
        1 <= i < a.len(),
        i + low_bit_spec(i) >= a.len(),
    ensures
        handed_on(a, body, i + 1),
{
    assert forall|j: nat| 1 <= j < a.len() implies congruent(
        #[trigger] body[j as int] as int,
        a[j as int] + partial(a, reach((j - 1) as nat, below(j), i + 1)) - partial(a, below(j)),
        modulus_isize(),
    ) by {
        lemma_on_chain_top((j - 1) as nat);
        lemma_reach_same(j, i, (j - 1) as nat);
    }
}

/// A node hands on its sum to the node above it.
proof fn lemma_init_hand_on(a: Seq<isize>, before: Seq<isize>, after: Seq<isize>, i: nat)
    requires
        handed_on(a, before, i),
        1 <= i < a.len(),
        i + low_bit_spec(i) < a.len(),
        after == before.update(
            (i + low_bit_spec(i)) as int,
            wrap_isize(before[(i + low_bit_spec(i)) as int] + before[i as int]),
        ),
    ensures
        handed_on(a, after, i + 1),
{
    let m = modulus_isize();
    let up = i + low_bit_spec(i);
    lemma_low_bit_bounds(i);
    lemma_low_bit_bounds(up);
    lemma_up(i);
    lemma_reach_parent(i, (up - 1) as nat);
    lemma_reach_own(i);
    let sum = before[up as int] + before[i as int];
    lemma_wrap_isize(sum);
    lemma_congruent_add(
        before[up as int] as int,
        a[up as int] + partial(a, below(i)) - partial(a, below(up)),
        before[i as int] as int,
        a[i as int] + partial(a, (i - 1) as nat) - partial(a, below(i)),
        m,
    );
    lemma_congruent_trans(
        after[up as int] as int,
        sum,
        a[up as int] + partial(a, i) - partial(a, below(up)),
        m,
    );
    assert forall|j: nat| 1 <= j < a.len() implies congruent(
        #[trigger] after[j as int] as int,
        a[j as int] + partial(a, reach((j - 1) as nat, below(j), i + 1)) - partial(a, below(j)),
        m,
    ) by {
        if j != up {
            assert(after[j as int] == before[j as int]);
            lemma_on_chain_top((j - 1) as nat);
            lemma_reach_same(j, i, (j - 1) as nat);
        }
    }
}

/// When every node has handed on its sum, the array is that of the tree of
/// the elements.
proof fn lemma_init_done(a: Seq<isize>, body: Seq<isize>)
    requires
        a.len() >= 1,
        handed_on(a, body, a.len()),
    ensures
        elements(body) == positions(a),
{
    let m = modulus_isize();
    let n = (a.len() - 1) as nat;
    assert forall|j: nat| 1 <= j < body.len() implies congruent(
        #[trigger] body[j as int] as int,
        partial(a, j) - partial(a, below(j)),
        m,
    ) by {
        lemma_low_bit_bounds(j);
        lemma_reach_done((j - 1) as nat, below(j), a.len());
    }
    assert forall|k: int| 0 <= k < n implies #[trigger] elements(body)[k] == positions(a)[k] by {
        let hi = (k + 1) as nat;
        let lo = k as nat;
        lemma_prefix_partial(body, a, hi);
        lemma_prefix_partial(body, a, lo);
        lemma_congruent_sub(prefix(body, hi), partial(a, hi), prefix(body, lo), partial(a, lo), m);
        lemma_wrap_isize_congruent(prefix(body, hi) - prefix(body, lo), a[k + 1] as int);
        lemma_wrap_isize(a[k + 1] as int);
    }
    assert(elements(body) =~= positions(a));
}

/// Binary indexed tree over `isize` elements at positions `1..=len`.
#[derive(Debug)]
pub struct BinaryIndexedTree {
    body: Vec<isize>,
}

impl View for BinaryIndexedTree {
    type V = Seq<isize>;

    /// The elements: element `i` of the view is the one at position `i + 1`.
    closed spec fn view(&self) -> Seq<isize> {
        elements(self.body@)
    }
}

impl BinaryIndexedTree {
    /// The tree has its buffer slot 0.
    pub closed spec fn wf(&self) -> bool {
        self.body@.len() >= 1
    }

    /// The number of elements, for use in contracts.
    pub closed spec fn spec_len(&self) -> usize {
        (self.body.len() - 1) as usize
    }

    /// The view has one element per position, and the position behind the
    /// last one is still a `usize`.
    pub proof fn lemma_view_len(&self)
        requires
            self.wf(),
        ensures
            self@.len() == self.len(),
            self.len() < usize::MAX,
    {
    }

    /// Constructs an empty binary indexed tree.
    pub fn new() -> (out: Self)
        ensures
            out.wf(),
            out@ == Seq::<isize>::empty(),
            out.len() == 0,
    {
        let mut body: Vec<isize> = Vec::new();
        body.push(0);
        let out = BinaryIndexedTree { body };
        assert(out@ =~= Seq::<isize>::empty());
        out
    }

    /// The length of the binary indexed tree.
    #[verifier::when_used_as_spec(spec_len)]
    pub fn len(&self) -> (out: usize)
        requires
            self.wf(),
        ensures
            out == self.len(),
            out < usize::MAX,
    {
        self.body.len() - 1
    }

    /// Returns `true` if the binary indexed tree is empty.
    pub fn is_empty(&self) -> (out: bool)
        requires
            self.wf(),
        ensures
            out == (self.len() == 0),
    {
        self.len() == 0
    }

    /// Constructs an empty binary indexed tree with room for `capacity`
    /// elements.
    pub fn with_capacity(capacity: usize) -> (out: Self)
        requires
            capacity < isize::MAX / 8,
        ensures
            out.wf(),
            out@ == Seq::<isize>::empty(),
            out.len() == 0,
    {
        let mut body: Vec<isize> = Vec::with_capacity(capacity + 1);
        body.push(0);
        let out = BinaryIndexedTree { body };
        assert(out@ =~= Seq::<isize>::empty());
        out
    }

    /// Constructs a binary indexed tree of `n` elements, all zero.
    pub fn with_len(n: usize) -> (out: Self)
        requires
            n < usize::MAX,
        ensures
            out.wf(),
            out@ == Seq::new(n as nat, |i: int| 0isize),
            out.len() == n,
    {
        let mut body: Vec<isize> = Vec::new();
        let mut i: usize = 0;
        while i <= n
            invariant
                i <= n + 1,
                n < usize::MAX,
                body@.len() == i,
                forall|j: int| 0 <= j < i ==> body@[j] == 0,
            decreases n + 1 - i,
        {
            body.push(0);
            i += 1;
        }
        let out = BinaryIndexedTree { body };
        proof {
            assert forall|k: nat| k <= n implies prefix(out.body@, k) == 0 by {
                lemma_zero_prefix(out.body@, k);
            }
            lemma_wrap_isize(0);
            assert(out@ =~= Seq::new(n as nat, |i: int| 0isize));
        }
        out
    }

    /// Updates the value of the element at `index` by adding `delta`.
    /// Complexity: _O(log n)_.
    pub fn add(&mut self, index: usize, delta: isize)
        requires
            old(self).wf(),
            1 <= index <= old(self).len(),
        ensures
            final(self).wf(),
            final(self).len() == old(self).len(),
            final(self)@ == old(self)@.update(
                index - 1,
                wrap_isize(old(self)@[index - 1] + delta),
            ),
    {
        let n = self.len();
        let ghost pre = self.body@;
        let mut c = index;
        proof {
            lemma_low_bit_bounds(index as nat);
            assert forall|j: nat| j < c implies congruent(
                #[trigger] prefix(self.body@, j),
                prefix(pre, j) + bump(index as nat, delta, j),
                modulus_isize(),
            ) by {
                lemma_congruent_refl(prefix(pre, j), modulus_isize());
            }
        }
        while c <= n
            invariant
                self.body@.len() == pre.len(),
                pre.len() == n + 1,
                n < usize::MAX,
                1 <= index <= c,
                c <= n ==> below(c as nat) < index,
                forall|j: int| c <= j < pre.len() ==> self.body@[j] == pre[j],
                forall|j: nat|
                    j < c && j <= n ==> congruent(
                        #[trigger] prefix(self.body@, j),
                        prefix(pre, j) + bump(index as nat, delta, j),
                        modulus_isize(),
                    ),
            decreases usize::MAX - c,
        {
            let ghost cur = self.body@;
            let grown = wrapping_add_isize(self.body[c], delta);
            self.body.set(c, grown);
            let step = low_bit(c);
            proof {
                let next = self.body@;
                lemma_up(c as nat);
                lemma_low_bit_bounds((c + step) as nat);
                assert forall|j: nat| j < c + step && j <= n implies congruent(
                    #[trigger] prefix(next, j),
                    prefix(pre, j) + bump(index as nat, delta, j),
                    modulus_isize(),
                ) by {
                    if j < c {
                        lemma_prefix_local(cur, next, j);
                    } else {
                        lemma_add_step(pre, cur, next, index as nat, delta, c as nat, j);
                    }
                }
            }
            c = c.saturating_add(step);
        }
        proof {
            lemma_add_elements(pre, self.body@, index as nat, delta);
        }
    }

    /// Returns the sum of the elements at the positions `start..end`,
    /// which is 0 for an empty range.
    /// Complexity: _O(log n)_.
    pub fn sum(&self, start: usize, end: usize) -> (out: isize)
        requires
            self.wf(),
            1 <= start <= self.len() + 1,
            1 <= end <= self.len() + 1,
        ensures
            out == range_sum(self@, start - 1, end - 1),
    {
        if start >= end {
            return 0;
        }
        let ghost m = modulus_isize();
        let ghost lo = (start - 1) as nat;
        let ghost hi = (end - 1) as nat;
        let mut start = start - 1;
        let mut end = end - 1;
        let mut s: isize = 0;
        proof {
            lemma_congruent_refl(0, m);
        }
        while end > start
            invariant
                self.wf(),
                m == modulus_isize(),
                start == lo,
                end <= hi < self.body@.len(),
                congruent(s as int, prefix(self.body@, hi) - prefix(self.body@, end as nat), m),
                end > start || end == 0 || start < end + low_bit_spec(end as nat),
            decreases end,
        {
            let ghost before = s;
            s = wrapping_add_isize(s, self.body[end]);
            let step = low_bit(end);
            proof {
                lemma_low_bit_bounds(end as nat);
                if end - step >= 1 {
                    lemma_down(end as nat);
                }
                lemma_wrap_isize(before + self.body@[end as int]);
                lemma_congruent_refl(self.body@[end as int] as int, m);
                lemma_congruent_add(
                    before as int,
                    prefix(self.body@, hi) - prefix(self.body@, end as nat),
                    self.body@[end as int] as int,
                    self.body@[end as int] as int,
                    m,
                );
                lemma_congruent_trans(
                    s as int,
                    before + self.body@[end as int],
                    prefix(self.body@, hi) - prefix(self.body@, below(end as nat)),
                    m,
                );
            }
            end -= step;
        }
        while start > end
            invariant
                self.wf(),
                m == modulus_isize(),
                end <= start <= lo,
                lo <= hi < self.body@.len(),
                congruent(
                    s as int,
                    prefix(self.body@, hi) - prefix(self.body@, end as nat) - (prefix(
                        self.body@,
                        lo,
                    ) - prefix(self.body@, start as nat)),
                    m,
                ),
                start == end || end == 0 || start < end + low_bit_spec(end as nat),
            decreases start,
        {
            let ghost before = s;
            s = wrapping_sub_isize(s, self.body[start]);
            let step = low_bit(start);
            proof {
                lemma_low_bit_bounds(start as nat);
                if end >= 1 {
                    lemma_between(end as nat, start as nat);
                }
                lemma_wrap_isize(before - self.body@[start as int]);
                lemma_congruent_refl(self.body@[start as int] as int, m);
                lemma_congruent_sub(
                    before as int,
                    prefix(self.body@, hi) - prefix(self.body@, end as nat) - (prefix(
                        self.body@,
                        lo,
                    ) - prefix(self.body@, start as nat)),
                    self.body@[start as int] as int,
                    self.body@[start as int] as int,
                    m,
                );
                lemma_congruent_trans(
                    s as int,
                    before - self.body@[start as int],
                    prefix(self.body@, hi) - prefix(self.body@, end as nat) - (prefix(
                        self.body@,
                        lo,
                    ) - prefix(self.body@, below(start as nat))),
                    m,
                );
            }
            start -= step;
        }
        proof {
            lemma_total_telescopes(self.body@, lo, hi);
            lemma_congruent_sym(
                total(self@.subrange(lo as int, hi as int)),
                prefix(self.body@, hi) - prefix(self.body@, lo),
                m,
            );
            lemma_congruent_trans(
                s as int,
                prefix(self.body@, hi) - prefix(self.body@, lo),
                total(self@.subrange(lo as int, hi as int)),
                m,
            );
            lemma_wrap_isize_congruent(s as int, total(self@.subrange(lo as int, hi as int)));
            lemma_wrap_isize(s as int);
        }
        s
    }

    /// Pushes a new element into the binary indexed tree.
    /// Complexity: _O(log n)_.
    pub fn push(&mut self, value: isize)
        requires
            old(self).wf(),
            old(self).len() < usize::MAX - 1,
        ensures
            final(self).wf(),
            final(self)@ == old(self)@.push(value),
            final(self).len() == old(self).len() + 1,
    {
        let ghost pre = self.body@;
        let ghost m = modulus_isize();
        let len = self.len() + 1;
        let step = low_bit(len);
        let sum = self.sum(len - step + 1, len);
        let node = wrapping_add_isize(value, sum);
        self.body.push(node);
        proof {
            let post = self.body@;
            let under = (len - step) as nat;
            let last = (len - 1) as nat;
            lemma_low_bit_bounds(len as nat);
            assert forall|k: nat| k < len implies prefix(post, k) == prefix(pre, k) by {
                lemma_prefix_local(pre, post, k);
            }
            // what the new node adds to the sums below it
            lemma_wrap_isize(value + sum);
            if under < last {
                lemma_total_telescopes(pre, under, last);
                lemma_wrap_isize(total(elements(pre).subrange(under as int, last as int)));
                lemma_congruent_trans(
                    sum as int,
                    total(elements(pre).subrange(under as int, last as int)),
                    prefix(pre, last) - prefix(pre, under),
                    m,
                );
            } else {
                lemma_congruent_refl(0, m);
            }
            lemma_congruent_refl(value as int, m);
            lemma_congruent_add(
                value as int,
                value as int,
                sum as int,
                prefix(pre, last) - prefix(pre, under),
                m,
            );
            lemma_congruent_trans(
                node as int,
                value + sum,
                value + (prefix(pre, last) - prefix(pre, under)),
                m,
            );
            lemma_congruent_refl(prefix(pre, under) - prefix(pre, last), m);
            lemma_congruent_add(
                node as int,
                value + (prefix(pre, last) - prefix(pre, under)),
                prefix(pre, under) - prefix(pre, last),
                prefix(pre, under) - prefix(pre, last),
                m,
            );
            lemma_wrap_isize_congruent(prefix(post, len as nat) - prefix(post, last), value as int);
            lemma_wrap_isize(value as int);
            assert(self@ =~= old(self)@.push(value));
        }
    }

    /// Removes the last element and returns the node that held it: the sum
    /// of the last `low_bit(len)` elements. Returns `None`, and changes
    /// nothing, if the tree is empty.
    /// Complexity: _O(1)_.
    pub fn pop(&mut self) -> (out: Option<isize>)
        requires
            old(self).wf(),
        ensures
            final(self).wf(),
            old(self).len() == 0 ==> out.is_none() && final(self)@ == old(self)@,
            old(self).len() > 0 ==> final(self)@ == old(self)@.drop_last() && out == Some(
                range_sum(
                    old(self)@,
                    old(self).len() - low_bit_spec(old(self).len() as nat),
                    old(self).len() as int,
                ),
            ),
    {
        if self.body.len() <= 1 {
            return None;
        }
        let ghost pre = self.body@;
        let out = self.body.pop();
        proof {
            let m = modulus_isize();
            let post = self.body@;
            let len = (pre.len() - 1) as nat;
            let under = below(len);
            lemma_low_bit_bounds(len);
            assert forall|k: nat| k < len implies prefix(post, k) == prefix(pre, k) by {
                lemma_prefix_local(pre, post, k);
            }
            assert(self@ =~= old(self)@.drop_last());
            lemma_total_telescopes(pre, under, len);
            lemma_wrap_isize_congruent(
                total(elements(pre).subrange(under as int, len as int)),
                pre[len as int] as int,
            );
            lemma_wrap_isize(pre[len as int] as int);
        }
        out
    }

    /// Turns an array of elements into the array of the tree, in place:
    /// every node hands its sum on to the next node above it, which covers
    /// it.
    /// Complexity: _O(n)_.
    fn init(&mut self)
        requires
            old(self).wf(),
        ensures
            final(self).wf(),
            final(self)@ == positions(old(self).body@),
    {
        let n = self.len();
        let ghost a = self.body@;
        let mut i: usize = 1;
        proof {
            lemma_init_start(a);
        }
        while i <= n
            invariant
                n + 1 == a.len(),
                self.body@.len() == a.len(),
                n < usize::MAX,
                1 <= i <= n + 1,
                handed_on(a, self.body@, i as nat),
            decreases n + 1 - i,
        {
            let step = low_bit(i);
            let ghost before = self.body@;
            if step <= n - i {
                let j = i + step;
                let t = self.body[i];
                let grown = wrapping_add_isize(self.body[j], t);
                self.body.set(j, grown);
                proof {
                    lemma_init_hand_on(a, before, self.body@, i as nat);
                }
            } else {
                proof {
                    lemma_init_keep(a, before, i as nat);
                }
            }
            i += 1;
        }
        proof {
            lemma_init_done(a, self.body@);
        }
    }

    /// Constructs the binary indexed tree of the elements at the positions
    /// `1..` of `a`; `a[0]` is a buffer slot and is never read.
    /// Complexity: _O(n)_.
    pub fn from(a: Vec<isize>) -> (out: Self)
        ensures
            out.wf(),
            out@ == positions(a@),
            out.len() == positions(a@).len(),
    {
        if a.len() == 0 {
            return Self::new();
        }
        let mut bit = BinaryIndexedTree { body: a };
        bit.init();
        bit
    }

} // impl

/// The positions `1..` of an array whose slot 0 is a buffer.
pub open spec fn positions(a: Seq<isize>) -> Seq<isize> {
    if a.len() == 0 {
        a
    } else {
        a.subrange(1, a.len() as int)
    }
}

/// An array of zeros holds the sum 0 for every prefix.
proof fn lemma_zero_prefix(body: Seq<isize>, k: nat)
    requires
        forall|j: int| 0 <= j < body.len() ==> body[j] == 0,
    ensures
        prefix(body, k) == 0,
    decreases k,
{
    if k > 0 && k < body.len() {
        lemma_low_bit_bounds(k);
        lemma_zero_prefix(body, below(k));
    }
}

impl Default for BinaryIndexedTree {
    fn default() -> (out: Self)
        ensures
            out.wf(),
            out@ == Seq::<isize>::empty(),
    {
        Self::new()
    }
}

} // verus!
