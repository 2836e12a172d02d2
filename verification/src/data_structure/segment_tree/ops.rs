//! The algebra a segment tree is built over.
use vstd::prelude::*;
use crate::num::modular::{
    lemma_congruent_add,
    lemma_congruent_mul,
    lemma_congruent_refl,
    lemma_congruent_trans,
    lemma_wrap_i64,
    lemma_wrap_i64_congruent,
    lemma_wrap_isize,
    lemma_wrap_isize_congruent,
    modulus_i64,
    modulus_isize,
    wrap_i64,
    wrap_isize,
    wrapped_len_i64,
    wrapped_len_isize,
    wrapping_add_i64,
    wrapping_add_isize,
    wrapping_mul_i64,
    wrapping_mul_isize,
};
use super::model::reduce;
use std::marker::PhantomData;

verus! {

/// An algebra of aggregate values `V` and pending updates (tags) `T`.
///
/// `val_ok` and `tag_ok` say which values and tags the algebra works on;
/// the `*_spec` functions say what the algebra is; the executable functions
/// compute them on those values and tags; the lemmas are the laws that
/// lazy propagation relies on, which hold of those values and tags. An
/// implementation is pure: it has no state and every primitive is a
/// function of its arguments alone.
pub trait Operation<V, T>: Sized {
    /// `v` is a value that the algebra works on.
    spec fn val_ok(v: V) -> bool;

    /// `t` is a tag that the algebra works on.
    spec fn tag_ok(t: T) -> bool;

    /// The aggregate of a span made of a left part followed by a right part.
    spec fn combine_spec(left: V, right: V) -> V;

    /// The aggregate of a span of `len` elements after `tag` has been
    /// applied to each of them, from the aggregate `val` before.
    spec fn push_val_spec(val: V, tag: T, len: usize) -> V;

    /// The single tag that acts as `child_tag` followed by `tag`.
    spec fn push_tag_spec(child_tag: T, tag: T) -> T;

    /// The aggregate of the empty span.
    spec fn val_identity_spec() -> V;

    /// The tag that changes nothing.
    spec fn tag_identity_spec() -> T;

    /// Combines the values of a left and a right child.
    fn combine(left: V, right: V) -> (out: V)
        requires
            Self::val_ok(left),
            Self::val_ok(right),
        ensures
            out == Self::combine_spec(left, right),
    ;

    /// Applies a tag to the value of a span of `len` elements.
    fn push_val(val: V, tag: T, len: usize) -> (out: V)
        requires
            Self::val_ok(val),
            Self::tag_ok(tag),
        ensures
            out == Self::push_val_spec(val, tag, len),
    ;

    /// Composes a tag into the tag a child already holds.
    fn push_tag(child_tag: T, tag: T) -> (out: T)
        requires
            Self::tag_ok(child_tag),
            Self::tag_ok(tag),
        ensures
            out == Self::push_tag_spec(child_tag, tag),
    ;

    /// The neutral value.
    fn val_identity() -> (out: V)
        ensures
            out == Self::val_identity_spec(),
    ;

    /// The neutral tag.
    fn tag_identity() -> (out: T)
        ensures
            out == Self::tag_identity_spec(),
    ;

    /// The neutral value and the neutral tag are a value and a tag that
    /// the algebra works on.
    proof fn lemma_identities_ok()
        ensures
            Self::val_ok(Self::val_identity_spec()),
            Self::tag_ok(Self::tag_identity_spec()),
    ;

    /// Combining two values gives a value that the algebra works on.
    proof fn lemma_combine_ok(a: V, b: V)
        requires
            Self::val_ok(a),
            Self::val_ok(b),
        ensures
            Self::val_ok(Self::combine_spec(a, b)),
    ;

    /// Applying a tag to a value gives a value that the algebra works on.
    proof fn lemma_push_val_ok(v: V, t: T, len: usize)
        requires
            Self::val_ok(v),
            Self::tag_ok(t),
        ensures
            Self::val_ok(Self::push_val_spec(v, t, len)),
    ;

    /// Composing two tags gives a tag that the algebra works on.
    proof fn lemma_push_tag_ok(t1: T, t2: T)
        requires
            Self::tag_ok(t1),
            Self::tag_ok(t2),
        ensures
            Self::tag_ok(Self::push_tag_spec(t1, t2)),
    ;

    /// Combining is associative.
    proof fn lemma_combine_associative(a: V, b: V, c: V)
        requires
            Self::val_ok(a),
            Self::val_ok(b),
            Self::val_ok(c),
        ensures
            Self::combine_spec(Self::combine_spec(a, b), c) == Self::combine_spec(
                a,
                Self::combine_spec(b, c),
            ),
    ;

    /// The neutral value is neutral on both sides of a combination.
    proof fn lemma_combine_identity(x: V)
        requires
            Self::val_ok(x),
        ensures
            Self::combine_spec(x, Self::val_identity_spec()) == x,
            Self::combine_spec(Self::val_identity_spec(), x) == x,
    ;

    /// Composing the neutral tag into a tag leaves it unchanged.
    proof fn lemma_push_tag_identity(t: T)
        requires
            Self::tag_ok(t),
        ensures
            Self::push_tag_spec(t, Self::tag_identity_spec()) == t,
    ;

    /// Applying the neutral tag leaves a value unchanged, whatever the span.
    proof fn lemma_push_val_identity(v: V, len: usize)
        requires
            Self::val_ok(v),
        ensures
            Self::push_val_spec(v, Self::tag_identity_spec(), len) == v,
    ;

    /// Applying two tags in sequence is applying their composition once.
    proof fn lemma_push_val_composes(v: V, t1: T, t2: T, len: usize)
        requires
            Self::val_ok(v),
            Self::tag_ok(t1),
            Self::tag_ok(t2),
        ensures
            Self::push_val_spec(Self::push_val_spec(v, t1, len), t2, len) == Self::push_val_spec(
                v,
                Self::push_tag_spec(t1, t2),
                len,
            ),
    ;

    /// Applying a tag to a combined span is applying it to both parts.
    proof fn lemma_push_val_distributes(a: V, b: V, t: T, left_len: usize, right_len: usize)
        requires
            Self::val_ok(a),
            Self::val_ok(b),
            Self::tag_ok(t),
            left_len > 0,
            right_len > 0,
            left_len + right_len <= usize::MAX,
        ensures
            Self::push_val_spec(Self::combine_spec(a, b), t, (left_len + right_len) as usize)
                == Self::combine_spec(
                Self::push_val_spec(a, t, left_len),
                Self::push_val_spec(b, t, right_len),
            ),
    ;
}

/// Range add, range sum: values are sums, tags are amounts added to every
/// element. Sums are taken modulo the number of values of the integer type,
/// so the algebra works on every value and every tag.
#[derive(Debug)]
pub struct AddSum;

impl Operation<i64, i64> for AddSum {
    open spec fn val_ok(v: i64) -> bool {
        true
    }

    open spec fn tag_ok(t: i64) -> bool {
        true
    }

    open spec fn combine_spec(left: i64, right: i64) -> i64 {
        wrap_i64(left + right)
    }

    open spec fn push_val_spec(val: i64, tag: i64, len: usize) -> i64 {
        wrap_i64(val + tag * len)
    }

    open spec fn push_tag_spec(child_tag: i64, tag: i64) -> i64 {
        wrap_i64(child_tag + tag)
    }

    open spec fn val_identity_spec() -> i64 {
        0
    }

    open spec fn tag_identity_spec() -> i64 {
        0
    }

    fn combine(left: i64, right: i64) -> (out: i64) {
        wrapping_add_i64(left, right)
    }

    fn push_val(val: i64, tag: i64, len: usize) -> (out: i64) {
        let span = wrapped_len_i64(len);
        let grown = wrapping_mul_i64(tag, span);
        proof {
            let m = modulus_i64();
            lemma_wrap_i64(len as int);
            lemma_wrap_i64(tag * span);
            lemma_congruent_refl(tag as int, m);
            lemma_congruent_refl(val as int, m);
            lemma_congruent_mul(tag as int, tag as int, span as int, len as int, m);
            lemma_congruent_trans(grown as int, tag * span, tag * len, m);
            lemma_congruent_add(val as int, val as int, grown as int, tag * len, m);
            lemma_wrap_i64_congruent(val + grown, val + tag * len);
        }
        wrapping_add_i64(val, grown)
    }

    fn push_tag(child_tag: i64, tag: i64) -> (out: i64) {
        wrapping_add_i64(child_tag, tag)
    }

    fn val_identity() -> (out: i64) {
        0
    }

    fn tag_identity() -> (out: i64) {
        0
    }

    proof fn lemma_identities_ok() {
    }

    proof fn lemma_combine_ok(a: i64, b: i64) {
    }

    proof fn lemma_push_val_ok(v: i64, t: i64, len: usize) {
    }

    proof fn lemma_push_tag_ok(t1: i64, t2: i64) {
    }

    proof fn lemma_combine_associative(a: i64, b: i64, c: i64) {
        let m = modulus_i64();
        lemma_wrap_i64(a + b);
        lemma_wrap_i64(b + c);
        lemma_congruent_refl(a as int, m);
        lemma_congruent_refl(c as int, m);
        lemma_congruent_add(wrap_i64(a + b) as int, a + b, c as int, c as int, m);
        lemma_congruent_add(a as int, a as int, wrap_i64(b + c) as int, b + c, m);
        lemma_wrap_i64_congruent(wrap_i64(a + b) + c, a + b + c);
        lemma_wrap_i64_congruent(a + wrap_i64(b + c), a + (b + c));
    }

    proof fn lemma_combine_identity(x: i64) {
        lemma_wrap_i64(x as int);
    }

    proof fn lemma_push_tag_identity(t: i64) {
        lemma_wrap_i64(t as int);
    }

    proof fn lemma_push_val_identity(v: i64, len: usize) {
        lemma_wrap_i64(v as int);
        assert(0 * len == 0);
    }

    proof fn lemma_push_val_composes(v: i64, t1: i64, t2: i64, len: usize) {
        let m = modulus_i64();
        let once = wrap_i64(v + t1 * len);
        let both = wrap_i64(t1 + t2);
        lemma_wrap_i64(v + t1 * len);
        lemma_wrap_i64(t1 + t2);
        lemma_congruent_refl(t2 * len, m);
        lemma_congruent_refl(len as int, m);
        lemma_congruent_refl(v as int, m);
        lemma_congruent_add(once as int, v + t1 * len, t2 * len, t2 * len, m);
        lemma_congruent_mul(both as int, t1 + t2, len as int, len as int, m);
        lemma_congruent_add(v as int, v as int, both * len, (t1 + t2) * len, m);
        assert(v + t1 * len + t2 * len == v + (t1 + t2) * len) by (nonlinear_arith);
        lemma_wrap_i64_congruent(once + t2 * len, v + t1 * len + t2 * len);
        lemma_wrap_i64_congruent(v + both * len, v + (t1 + t2) * len);
    }

    proof fn lemma_push_val_distributes(a: i64, b: i64, t: i64, left_len: usize, right_len: usize) {
        let m = modulus_i64();
        let whole = wrap_i64(a + b);
        let left = wrap_i64(a + t * left_len);
        let right = wrap_i64(b + t * right_len);
        lemma_wrap_i64(a + b);
        lemma_wrap_i64(a + t * left_len);
        lemma_wrap_i64(b + t * right_len);
        lemma_congruent_refl(t * (left_len + right_len), m);
        lemma_congruent_add(
            whole as int,
            a + b,
            t * (left_len + right_len),
            t * (left_len + right_len),
            m,
        );
        lemma_congruent_add(left as int, a + t * left_len, right as int, b + t * right_len, m);
        assert(a + b + t * (left_len + right_len) == (a + t * left_len) + (b + t * right_len))
            by (nonlinear_arith);
        lemma_wrap_i64_congruent(whole + t * (left_len + right_len), a + b + t * (left_len + right_len));
        lemma_wrap_i64_congruent(left + right, (a + t * left_len) + (b + t * right_len));
    }
}

impl Operation<isize, isize> for AddSum {
    open spec fn val_ok(v: isize) -> bool {
        true
    }

    open spec fn tag_ok(t: isize) -> bool {
        true
    }

    open spec fn combine_spec(left: isize, right: isize) -> isize {
        wrap_isize(left + right)
    }

    open spec fn push_val_spec(val: isize, tag: isize, len: usize) -> isize {
        wrap_isize(val + tag * len)
    }

    open spec fn push_tag_spec(child_tag: isize, tag: isize) -> isize {
        wrap_isize(child_tag + tag)
    }

    open spec fn val_identity_spec() -> isize {
        0
    }

    open spec fn tag_identity_spec() -> isize {
        0
    }

    fn combine(left: isize, right: isize) -> (out: isize) {
        wrapping_add_isize(left, right)
    }

    fn push_val(val: isize, tag: isize, len: usize) -> (out: isize) {
        let span = wrapped_len_isize(len);
        let grown = wrapping_mul_isize(tag, span);
        proof {
            let m = modulus_isize();
            lemma_wrap_isize(len as int);
            lemma_wrap_isize(tag * span);
            lemma_congruent_refl(tag as int, m);
            lemma_congruent_refl(val as int, m);
            lemma_congruent_mul(tag as int, tag as int, span as int, len as int, m);
            lemma_congruent_trans(grown as int, tag * span, tag * len, m);
            lemma_congruent_add(val as int, val as int, grown as int, tag * len, m);
            lemma_wrap_isize_congruent(val + grown, val + tag * len);
        }
        wrapping_add_isize(val, grown)
    }

    fn push_tag(child_tag: isize, tag: isize) -> (out: isize) {
        wrapping_add_isize(child_tag, tag)
    }

    fn val_identity() -> (out: isize) {
        0
    }

    fn tag_identity() -> (out: isize) {
        0
    }

    proof fn lemma_identities_ok() {
    }

    proof fn lemma_combine_ok(a: isize, b: isize) {
    }

    proof fn lemma_push_val_ok(v: isize, t: isize, len: usize) {
    }

    proof fn lemma_push_tag_ok(t1: isize, t2: isize) {
    }

    proof fn lemma_combine_associative(a: isize, b: isize, c: isize) {
        let m = modulus_isize();
        lemma_wrap_isize(a + b);
        lemma_wrap_isize(b + c);
        lemma_congruent_refl(a as int, m);
        lemma_congruent_refl(c as int, m);
        lemma_congruent_add(wrap_isize(a + b) as int, a + b, c as int, c as int, m);
        lemma_congruent_add(a as int, a as int, wrap_isize(b + c) as int, b + c, m);
        lemma_wrap_isize_congruent(wrap_isize(a + b) + c, a + b + c);
        lemma_wrap_isize_congruent(a + wrap_isize(b + c), a + (b + c));
    }

    proof fn lemma_combine_identity(x: isize) {
        lemma_wrap_isize(x as int);
    }

    proof fn lemma_push_tag_identity(t: isize) {
        lemma_wrap_isize(t as int);
    }

    proof fn lemma_push_val_identity(v: isize, len: usize) {
        lemma_wrap_isize(v as int);
        assert(0 * len == 0);
    }

    proof fn lemma_push_val_composes(v: isize, t1: isize, t2: isize, len: usize) {
        let m = modulus_isize();
        let once = wrap_isize(v + t1 * len);
        let both = wrap_isize(t1 + t2);
        lemma_wrap_isize(v + t1 * len);
        lemma_wrap_isize(t1 + t2);
        lemma_congruent_refl(t2 * len, m);
        lemma_congruent_refl(len as int, m);
        lemma_congruent_refl(v as int, m);
        lemma_congruent_add(once as int, v + t1 * len, t2 * len, t2 * len, m);
        lemma_congruent_mul(both as int, t1 + t2, len as int, len as int, m);
        lemma_congruent_add(v as int, v as int, both * len, (t1 + t2) * len, m);
        assert(v + t1 * len + t2 * len == v + (t1 + t2) * len) by (nonlinear_arith);
        lemma_wrap_isize_congruent(once + t2 * len, v + t1 * len + t2 * len);
        lemma_wrap_isize_congruent(v + both * len, v + (t1 + t2) * len);
    }

    proof fn lemma_push_val_distributes(a: isize, b: isize, t: isize, left_len: usize, right_len: usize) {
        let m = modulus_isize();
        let whole = wrap_isize(a + b);
        let left = wrap_isize(a + t * left_len);
        let right = wrap_isize(b + t * right_len);
        lemma_wrap_isize(a + b);
        lemma_wrap_isize(a + t * left_len);
        lemma_wrap_isize(b + t * right_len);
        lemma_congruent_refl(t * (left_len + right_len), m);
        lemma_congruent_add(
            whole as int,
            a + b,
            t * (left_len + right_len),
            t * (left_len + right_len),
            m,
        );
        lemma_congruent_add(left as int, a + t * left_len, right as int, b + t * right_len, m);
        assert(a + b + t * (left_len + right_len) == (a + t * left_len) + (b + t * right_len))
            by (nonlinear_arith);
        lemma_wrap_isize_congruent(whole + t * (left_len + right_len), a + b + t * (left_len + right_len));
        lemma_wrap_isize_congruent(left + right, (a + t * left_len) + (b + t * right_len));
    }
}

/// The product of two algebras: values and tags are pairs, and every
/// primitive acts on each component with that component's own algebra.
/// Neither component ever reads the other's value or tag.
pub struct OperationPair<V1, V2, T1, T2, O1, O2> where
    V1: Copy,
    V2: Copy,
    T1: Copy,
    T2: Copy,
    O1: Operation<V1, T1>,
    O2: Operation<V2, T2>,
 {
    _phantoms: (
        PhantomData<V1>,
        PhantomData<V2>,
        PhantomData<T1>,
        PhantomData<T2>,
        PhantomData<O1>,
        PhantomData<O2>,
    ),
}

impl<V1, V2, T1, T2, O1, O2> Operation<(V1, V2), (T1, T2)> for OperationPair<
    V1,
    V2,
    T1,
    T2,
    O1,
    O2,
> where
    V1: Copy,
    V2: Copy,
    T1: Copy,
    T2: Copy,
    O1: Operation<V1, T1>,
    O2: Operation<V2, T2>,
 {
    open spec fn val_ok(v: (V1, V2)) -> bool {
        O1::val_ok(v.0) && O2::val_ok(v.1)
    }

    open spec fn tag_ok(t: (T1, T2)) -> bool {
        O1::tag_ok(t.0) && O2::tag_ok(t.1)
    }

    open spec fn combine_spec(left: (V1, V2), right: (V1, V2)) -> (V1, V2) {
        (O1::combine_spec(left.0, right.0), O2::combine_spec(left.1, right.1))
    }

    open spec fn push_val_spec(val: (V1, V2), tag: (T1, T2), len: usize) -> (V1, V2) {
        (O1::push_val_spec(val.0, tag.0, len), O2::push_val_spec(val.1, tag.1, len))
    }

    open spec fn push_tag_spec(child_tag: (T1, T2), tag: (T1, T2)) -> (T1, T2) {
        (O1::push_tag_spec(child_tag.0, tag.0), O2::push_tag_spec(child_tag.1, tag.1))
    }

    open spec fn val_identity_spec() -> (V1, V2) {
        (O1::val_identity_spec(), O2::val_identity_spec())
    }

    open spec fn tag_identity_spec() -> (T1, T2) {
        (O1::tag_identity_spec(), O2::tag_identity_spec())
    }

    fn combine(left: (V1, V2), right: (V1, V2)) -> (out: (V1, V2)) {
        (O1::combine(left.0, right.0), O2::combine(left.1, right.1))
    }

    fn push_val(val: (V1, V2), tag: (T1, T2), len: usize) -> (out: (V1, V2)) {
        (O1::push_val(val.0, tag.0, len), O2::push_val(val.1, tag.1, len))
    }

    fn push_tag(child_tag: (T1, T2), tag: (T1, T2)) -> (out: (T1, T2)) {
        (O1::push_tag(child_tag.0, tag.0), O2::push_tag(child_tag.1, tag.1))
    }

    fn val_identity() -> (out: (V1, V2)) {
        (O1::val_identity(), O2::val_identity())
    }

    fn tag_identity() -> (out: (T1, T2)) {
        (O1::tag_identity(), O2::tag_identity())
    }

    proof fn lemma_identities_ok() {
        O1::lemma_identities_ok();
        O2::lemma_identities_ok();
    }

    proof fn lemma_combine_ok(a: (V1, V2), b: (V1, V2)) {
        O1::lemma_combine_ok(a.0, b.0);
        O2::lemma_combine_ok(a.1, b.1);
    }

    proof fn lemma_push_val_ok(v: (V1, V2), t: (T1, T2), len: usize) {
        O1::lemma_push_val_ok(v.0, t.0, len);
        O2::lemma_push_val_ok(v.1, t.1, len);
    }

    proof fn lemma_push_tag_ok(t1: (T1, T2), t2: (T1, T2)) {
        O1::lemma_push_tag_ok(t1.0, t2.0);
        O2::lemma_push_tag_ok(t1.1, t2.1);
    }

    proof fn lemma_combine_associative(a: (V1, V2), b: (V1, V2), c: (V1, V2)) {
        O1::lemma_combine_associative(a.0, b.0, c.0);
        O2::lemma_combine_associative(a.1, b.1, c.1);
    }

    proof fn lemma_combine_identity(x: (V1, V2)) {
        O1::lemma_combine_identity(x.0);
        O2::lemma_combine_identity(x.1);
    }

    proof fn lemma_push_tag_identity(t: (T1, T2)) {
        O1::lemma_push_tag_identity(t.0);
        O2::lemma_push_tag_identity(t.1);
    }

    proof fn lemma_push_val_identity(v: (V1, V2), len: usize) {
        O1::lemma_push_val_identity(v.0, len);
        O2::lemma_push_val_identity(v.1, len);
    }

    proof fn lemma_push_val_composes(v: (V1, V2), t1: (T1, T2), t2: (T1, T2), len: usize) {
        O1::lemma_push_val_composes(v.0, t1.0, t2.0, len);
        O2::lemma_push_val_composes(v.1, t1.1, t2.1, len);
    }

    proof fn lemma_push_val_distributes(
        a: (V1, V2),
        b: (V1, V2),
        t: (T1, T2),
        left_len: usize,
        right_len: usize,
    ) {
        O1::lemma_push_val_distributes(a.0, b.0, t.0, left_len, right_len);
        O2::lemma_push_val_distributes(a.1, b.1, t.1, left_len, right_len);
    }
}

/// The exact sum of a sequence of `i64` values.
pub open spec fn sum_i64(s: Seq<i64>) -> int
    decreases s.len(),
{
    if s.len() == 0 {
        0
    } else {
        sum_i64(s.drop_last()) + s.last()
    }
}

/// In the range-add, range-sum algebra over `i64` the aggregate of a
/// sequence is its sum modulo the number of `i64` values: the exact sum
/// where that fits in a `i64`.
pub proof fn lemma_add_sum_i64(s: Seq<i64>)
    ensures
        reduce::<i64, i64, AddSum>(s) == wrap_i64(sum_i64(s)),
        i64::MIN <= sum_i64(s) <= i64::MAX ==> reduce::<i64, i64, AddSum>(s) == sum_i64(s),
    decreases s.len(),
{
    let m = modulus_i64();
    lemma_wrap_i64(sum_i64(s));
    if s.len() > 0 {
        let front = s.drop_last();
        lemma_add_sum_i64(front);
        lemma_wrap_i64(sum_i64(front));
        lemma_congruent_refl(s.last() as int, m);
        lemma_congruent_add(
            wrap_i64(sum_i64(front)) as int,
            sum_i64(front),
            s.last() as int,
            s.last() as int,
            m,
        );
        lemma_wrap_i64_congruent(wrap_i64(sum_i64(front)) + s.last(), sum_i64(front) + s.last());
    }
}

/// The exact sum of a sequence of `isize` values.
pub open spec fn sum_isize(s: Seq<isize>) -> int
    decreases s.len(),
{
    if s.len() == 0 {
        0
    } else {
        sum_isize(s.drop_last()) + s.last()
    }
}

/// In the range-add, range-sum algebra over `isize` the aggregate of a
/// sequence is its sum modulo the number of `isize` values: the exact sum
/// where that fits in a `isize`.
pub proof fn lemma_add_sum_isize(s: Seq<isize>)
    ensures
        reduce::<isize, isize, AddSum>(s) == wrap_isize(sum_isize(s)),
        isize::MIN <= sum_isize(s) <= isize::MAX ==> reduce::<isize, isize, AddSum>(s) == sum_isize(s),
    decreases s.len(),
{
    let m = modulus_isize();
    lemma_wrap_isize(sum_isize(s));
    if s.len() > 0 {
        let front = s.drop_last();
        lemma_add_sum_isize(front);
        lemma_wrap_isize(sum_isize(front));
        lemma_congruent_refl(s.last() as int, m);
        lemma_congruent_add(
            wrap_isize(sum_isize(front)) as int,
            sum_isize(front),
            s.last() as int,
            s.last() as int,
            m,
        );
        lemma_wrap_isize_congruent(wrap_isize(sum_isize(front)) + s.last(), sum_isize(front) + s.last());
    }
}

} // verus!
