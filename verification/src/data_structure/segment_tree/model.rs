//! The sequence a segment tree stands for, and the naive operations on it.
//!
//! A tree over `n` elements is a model of a plain sequence of `n` values at
//! positions `1..=n`. Everything a tree does is stated against the functions
//! here, which act on that sequence element by element.
use vstd::prelude::*;
use super::ops::{Operation, OperationPair};

verus! {

/// The aggregate of a sequence: its values combined from left to right,
/// starting from the neutral value.
pub open spec fn reduce<V, T, O: Operation<V, T>>(s: Seq<V>) -> V
    decreases s.len(),
{
    if s.len() == 0 {
        O::val_identity_spec()
    } else {
        O::combine_spec(reduce::<V, T, O>(s.drop_last()), s.last())
    }
}

/// The sequence after `tag` has been applied to every element.
pub open spec fn push_all<V, T, O: Operation<V, T>>(s: Seq<V>, tag: T) -> Seq<V> {
    Seq::new(s.len(), |i: int| O::push_val_spec(s[i], tag, 1))
}

/// `s` holds the elements at positions `first, first + 1, ..`; the result
/// has `delta` applied to those whose position lies in `ql..=qr`.
pub open spec fn apply_on<V, T, O: Operation<V, T>>(
    s: Seq<V>,
    first: int,
    ql: int,
    qr: int,
    delta: T,
) -> Seq<V> {
    Seq::new(
        s.len(),
        |i: int|
            if ql <= first + i <= qr {
                O::push_val_spec(s[i], delta, 1)
            } else {
                s[i]
            },
    )
}

/// `s` holds the elements at positions `first, first + 1, ..`; the result
/// is the part of `s` whose positions lie in `ql..=qr`.
pub open spec fn window<V>(s: Seq<V>, first: int, ql: int, qr: int) -> Seq<V> {
    let from = if ql - first < 0 {
        0
    } else {
        ql - first
    };
    let to = if qr - first + 1 > s.len() {
        s.len() as int
    } else {
        qr - first + 1
    };
    if from < to {
        s.subrange(from, to)
    } else {
        Seq::empty()
    }
}

/// The naive range update: `delta` applied to each of the positions
/// `ql..=qr` of a sequence whose first element is at position 1.
pub open spec fn range_apply<V, T, O: Operation<V, T>>(
    s: Seq<V>,
    ql: int,
    qr: int,
    delta: T,
) -> Seq<V> {
    apply_on::<V, T, O>(s, 1, ql, qr, delta)
}

/// The naive range query: the aggregate of the positions `ql..=qr` of a
/// sequence whose first element is at position 1.
pub open spec fn range_reduce<V, T, O: Operation<V, T>>(s: Seq<V>, ql: int, qr: int) -> V {
    reduce::<V, T, O>(window(s, 1, ql, qr))
}

/// Every element of `s` is a value that the algebra works on.
pub open spec fn all_ok<V, T, O: Operation<V, T>>(s: Seq<V>) -> bool {
    forall|i: int| 0 <= i < s.len() ==> O::val_ok(#[trigger] s[i])
}

/// The aggregate of values that the algebra works on is such a value.
pub proof fn lemma_reduce_ok<V, T, O: Operation<V, T>>(s: Seq<V>)
    requires
        all_ok::<V, T, O>(s),
    ensures
        O::val_ok(reduce::<V, T, O>(s)),
    decreases s.len(),
{
    if s.len() == 0 {
        O::lemma_identities_ok();
    } else {
        assert forall|i: int| 0 <= i < s.drop_last().len() implies O::val_ok(
            #[trigger] s.drop_last()[i],
        ) by {
            assert(s.drop_last()[i] == s[i]);
        }
        lemma_reduce_ok::<V, T, O>(s.drop_last());
        assert(O::val_ok(s[s.len() - 1]));
        O::lemma_combine_ok(reduce::<V, T, O>(s.drop_last()), s.last());
    }
}

/// Applying a tag to values that the algebra works on gives such values.
pub proof fn lemma_push_all_ok<V, T, O: Operation<V, T>>(s: Seq<V>, tag: T)
    requires
        all_ok::<V, T, O>(s),
        O::tag_ok(tag),
    ensures
        all_ok::<V, T, O>(push_all::<V, T, O>(s, tag)),
{
    let pushed = push_all::<V, T, O>(s, tag);
    assert forall|i: int| 0 <= i < pushed.len() implies O::val_ok(#[trigger] pushed[i]) by {
        assert(O::val_ok(s[i]));
        O::lemma_push_val_ok(s[i], tag, 1);
    }
}

/// A part of a sequence of values that the algebra works on holds such
/// values.
pub proof fn lemma_window_ok<V, T, O: Operation<V, T>>(s: Seq<V>, first: int, ql: int, qr: int)
    requires
        all_ok::<V, T, O>(s),
    ensures
        all_ok::<V, T, O>(window(s, first, ql, qr)),
{
    let part = window(s, first, ql, qr);
    let from = if ql - first < 0 {
        0
    } else {
        ql - first
    };
    assert forall|i: int| 0 <= i < part.len() implies O::val_ok(#[trigger] part[i]) by {
        assert(part[i] == s[from + i]);
    }
}

/// Two sequences of values that the algebra works on make one.
pub proof fn lemma_concat_ok<V, T, O: Operation<V, T>>(a: Seq<V>, b: Seq<V>)
    requires
        all_ok::<V, T, O>(a),
        all_ok::<V, T, O>(b),
    ensures
        all_ok::<V, T, O>(a + b),
{
    assert forall|i: int| 0 <= i < (a + b).len() implies O::val_ok(#[trigger] (a + b)[i]) by {
        if i < a.len() {
            assert((a + b)[i] == a[i]);
        } else {
            assert((a + b)[i] == b[i - a.len()]);
        }
    }
}

/// The aggregate of a single element is that element.
pub proof fn lemma_reduce_one<V, T, O: Operation<V, T>>(v: V)
    requires
        O::val_ok(v),
    ensures
        reduce::<V, T, O>(seq![v]) == v,
{
    let s = seq![v];
    assert(s.drop_last().len() == 0);
    assert(reduce::<V, T, O>(s.drop_last()) == O::val_identity_spec());
    O::lemma_combine_identity(v);
}

/// The aggregate of a concatenation is the combination of the aggregates.
pub proof fn lemma_reduce_concat<V, T, O: Operation<V, T>>(a: Seq<V>, b: Seq<V>)
    requires
        all_ok::<V, T, O>(a),
        all_ok::<V, T, O>(b),
    ensures
        reduce::<V, T, O>(a + b) == O::combine_spec(
            reduce::<V, T, O>(a),
            reduce::<V, T, O>(b),
        ),
    decreases b.len(),
{
    lemma_reduce_ok::<V, T, O>(a);
    if b.len() == 0 {
        assert(a + b =~= a);
        O::lemma_combine_identity(reduce::<V, T, O>(a));
    } else {
        assert((a + b).drop_last() =~= a + b.drop_last());
        assert((a + b).last() == b.last());
        assert forall|i: int| 0 <= i < b.drop_last().len() implies O::val_ok(
            #[trigger] b.drop_last()[i],
        ) by {
            assert(b.drop_last()[i] == b[i]);
        }
        assert(O::val_ok(b[b.len() - 1]));
        lemma_reduce_ok::<V, T, O>(b.drop_last());
        lemma_reduce_concat::<V, T, O>(a, b.drop_last());
        O::lemma_combine_associative(
            reduce::<V, T, O>(a),
            reduce::<V, T, O>(b.drop_last()),
            b.last(),
        );
    }
}

/// Applying a tag to the aggregate of a non-empty span is aggregating the
/// span after the tag has been applied to each element.
pub proof fn lemma_push_val_reduce<V, T, O: Operation<V, T>>(s: Seq<V>, tag: T)
    requires
        0 < s.len() <= usize::MAX,
        all_ok::<V, T, O>(s),
        O::tag_ok(tag),
    ensures
        O::push_val_spec(reduce::<V, T, O>(s), tag, s.len() as usize) == reduce::<V, T, O>(
            push_all::<V, T, O>(s, tag),
        ),
    decreases s.len(),
{
    let pushed = push_all::<V, T, O>(s, tag);
    assert(pushed.drop_last() =~= push_all::<V, T, O>(s.drop_last(), tag));
    assert(pushed.last() == O::push_val_spec(s.last(), tag, 1));
    assert(O::val_ok(s[s.len() - 1]));
    O::lemma_push_val_ok(s.last(), tag, 1);
    assert forall|i: int| 0 <= i < s.drop_last().len() implies O::val_ok(
        #[trigger] s.drop_last()[i],
    ) by {
        assert(s.drop_last()[i] == s[i]);
    }
    lemma_reduce_ok::<V, T, O>(s.drop_last());
    if s.len() == 1 {
        assert(s =~= seq![s.last()]);
        assert(pushed =~= seq![pushed.last()]);
        lemma_reduce_one::<V, T, O>(s.last());
        lemma_reduce_one::<V, T, O>(pushed.last());
    } else {
        lemma_push_val_reduce::<V, T, O>(s.drop_last(), tag);
        O::lemma_push_val_distributes(
            reduce::<V, T, O>(s.drop_last()),
            s.last(),
            tag,
            s.drop_last().len() as usize,
            1,
        );
    }
}

/// Applying the neutral tag to every element changes nothing.
pub proof fn lemma_push_all_identity<V, T, O: Operation<V, T>>(s: Seq<V>)
    requires
        all_ok::<V, T, O>(s),
    ensures
        push_all::<V, T, O>(s, O::tag_identity_spec()) == s,
{
    assert forall|i: int| 0 <= i < s.len() implies O::push_val_spec(
        s[i],
        O::tag_identity_spec(),
        1,
    ) == s[i] by {
        O::lemma_push_val_identity(s[i], 1);
    }
    assert(push_all::<V, T, O>(s, O::tag_identity_spec()) =~= s);
}

/// Applying two tags in sequence to every element is applying their
/// composition once.
pub proof fn lemma_push_all_composes<V, T, O: Operation<V, T>>(s: Seq<V>, t1: T, t2: T)
    requires
        all_ok::<V, T, O>(s),
        O::tag_ok(t1),
        O::tag_ok(t2),
    ensures
        push_all::<V, T, O>(push_all::<V, T, O>(s, t1), t2) == push_all::<V, T, O>(
            s,
            O::push_tag_spec(t1, t2),
        ),
{
    assert forall|i: int| 0 <= i < s.len() implies O::push_val_spec(
        O::push_val_spec(s[i], t1, 1),
        t2,
        1,
    ) == O::push_val_spec(s[i], O::push_tag_spec(t1, t2), 1) by {
        O::lemma_push_val_composes(s[i], t1, t2, 1);
    }
    assert(push_all::<V, T, O>(push_all::<V, T, O>(s, t1), t2) =~= push_all::<V, T, O>(
        s,
        O::push_tag_spec(t1, t2),
    ));
}

/// Applying a tag to every element of a concatenation acts on both parts.
pub proof fn lemma_push_all_concat<V, T, O: Operation<V, T>>(a: Seq<V>, b: Seq<V>, tag: T)
    ensures
        push_all::<V, T, O>(a + b, tag) == push_all::<V, T, O>(a, tag) + push_all::<V, T, O>(
            b,
            tag,
        ),
{
    assert(push_all::<V, T, O>(a + b, tag) =~= push_all::<V, T, O>(a, tag) + push_all::<V, T, O>(
        b,
        tag,
    ));
}

/// A range update that covers every position of `s` applies the tag to
/// every element.
pub proof fn lemma_apply_on_covered<V, T, O: Operation<V, T>>(
    s: Seq<V>,
    first: int,
    ql: int,
    qr: int,
    delta: T,
)
    requires
        ql <= first,
        first + s.len() - 1 <= qr,
    ensures
        apply_on::<V, T, O>(s, first, ql, qr, delta) == push_all::<V, T, O>(s, delta),
{
    assert(apply_on::<V, T, O>(s, first, ql, qr, delta) =~= push_all::<V, T, O>(s, delta));
}

/// A range update that misses every position of `s` changes nothing.
pub proof fn lemma_apply_on_missed<V, T, O: Operation<V, T>>(
    s: Seq<V>,
    first: int,
    ql: int,
    qr: int,
    delta: T,
)
    requires
        qr < first || first + s.len() - 1 < ql,
    ensures
        apply_on::<V, T, O>(s, first, ql, qr, delta) == s,
{
    assert(apply_on::<V, T, O>(s, first, ql, qr, delta) =~= s);
}

/// A range update of a concatenation acts on both parts, each at its own
/// positions.
pub proof fn lemma_apply_on_concat<V, T, O: Operation<V, T>>(
    a: Seq<V>,
    b: Seq<V>,
    first: int,
    ql: int,
    qr: int,
    delta: T,
)
    ensures
        apply_on::<V, T, O>(a + b, first, ql, qr, delta) == apply_on::<V, T, O>(
            a,
            first,
            ql,
            qr,
            delta,
        ) + apply_on::<V, T, O>(b, first + a.len(), ql, qr, delta),
{
    assert(apply_on::<V, T, O>(a + b, first, ql, qr, delta) =~= apply_on::<V, T, O>(
        a,
        first,
        ql,
        qr,
        delta,
    ) + apply_on::<V, T, O>(b, first + a.len(), ql, qr, delta));
}

/// The window of a concatenation is the window of the left part followed
/// by the window of the right part.
pub proof fn lemma_window_concat<V>(a: Seq<V>, b: Seq<V>, first: int, ql: int, qr: int)
    ensures
        window(a + b, first, ql, qr) == window(a, first, ql, qr) + window(
            b,
            first + a.len(),
            ql,
            qr,
        ),
{
    assert(window(a + b, first, ql, qr) =~= window(a, first, ql, qr) + window(
        b,
        first + a.len(),
        ql,
        qr,
    ));
}

/// A window that covers every position of `s` is `s`; one that misses
/// every position is empty.
pub proof fn lemma_window_extremes<V>(s: Seq<V>, first: int, ql: int, qr: int)
    ensures
        ql <= first && first + s.len() - 1 <= qr ==> window(s, first, ql, qr) == s,
        qr < first || first + s.len() - 1 < ql ==> window(s, first, ql, qr) == Seq::<V>::empty(),
{
    if ql <= first && first + s.len() - 1 <= qr {
        assert(window(s, first, ql, qr) =~= s);
    }
    if qr < first || first + s.len() - 1 < ql {
        assert(window(s, first, ql, qr) =~= Seq::<V>::empty());
    }
}

/// Querying every position of a sequence yields the aggregate of the whole
/// sequence. So a tree that has just been built from a sequence, and is
/// asked for all its positions before any update, returns the aggregate of
/// that sequence: building gives the tree the sequence as its view, and a
/// query returns `range_reduce` of the view.
pub proof fn lemma_range_reduce_all<V, T, O: Operation<V, T>>(s: Seq<V>)
    ensures
        range_reduce::<V, T, O>(s, 1, s.len() as int) == reduce::<V, T, O>(s),
{
    lemma_window_extremes(s, 1, 1, s.len() as int);
    if s.len() == 0 {
        assert(s =~= Seq::<V>::empty());
    }
}

/// A range update changes exactly the positions of its range, each by one
/// application of the tag, and keeps the length.
pub proof fn lemma_range_apply_pointwise<V, T, O: Operation<V, T>>(
    s: Seq<V>,
    ql: int,
    qr: int,
    delta: T,
    p: int,
)
    requires
        1 <= p <= s.len(),
    ensures
        range_apply::<V, T, O>(s, ql, qr, delta).len() == s.len(),
        range_apply::<V, T, O>(s, ql, qr, delta)[p - 1] == if ql <= p <= qr {
            O::push_val_spec(s[p - 1], delta, 1)
        } else {
            s[p - 1]
        },
{
}

/// The first components of a sequence of pairs.
pub open spec fn firsts<A, B>(s: Seq<(A, B)>) -> Seq<A> {
    Seq::new(s.len(), |i: int| s[i].0)
}

/// The second components of a sequence of pairs.
pub open spec fn seconds<A, B>(s: Seq<(A, B)>) -> Seq<B> {
    Seq::new(s.len(), |i: int| s[i].1)
}

/// In a pair algebra the aggregate of a sequence of pairs is the pair of
/// the aggregates of its components, each taken in its own algebra.
pub proof fn lemma_pair_reduce<V1, V2, T1, T2, O1, O2>(s: Seq<(V1, V2)>) where
    V1: Copy,
    V2: Copy,
    T1: Copy,
    T2: Copy,
    O1: Operation<V1, T1>,
    O2: Operation<V2, T2>,

    ensures
        reduce::<(V1, V2), (T1, T2), OperationPair<V1, V2, T1, T2, O1, O2>>(s) == (
            reduce::<V1, T1, O1>(firsts(s)),
            reduce::<V2, T2, O2>(seconds(s)),
        ),
    decreases s.len(),
{
    if s.len() > 0 {
        lemma_pair_reduce::<V1, V2, T1, T2, O1, O2>(s.drop_last());
        assert(firsts(s).drop_last() =~= firsts(s.drop_last()));
        assert(seconds(s).drop_last() =~= seconds(s.drop_last()));
    }
}

/// In a pair algebra a range update acts on each component as the same
/// range update does in that component's own algebra.
pub proof fn lemma_pair_range_apply<V1, V2, T1, T2, O1, O2>(
    s: Seq<(V1, V2)>,
    ql: int,
    qr: int,
    delta: (T1, T2),
) where
    V1: Copy,
    V2: Copy,
    T1: Copy,
    T2: Copy,
    O1: Operation<V1, T1>,
    O2: Operation<V2, T2>,

    ensures
        firsts(
            range_apply::<(V1, V2), (T1, T2), OperationPair<V1, V2, T1, T2, O1, O2>>(
                s,
                ql,
                qr,
                delta,
            ),
        ) == range_apply::<V1, T1, O1>(firsts(s), ql, qr, delta.0),
        seconds(
            range_apply::<(V1, V2), (T1, T2), OperationPair<V1, V2, T1, T2, O1, O2>>(
                s,
                ql,
                qr,
                delta,
            ),
        ) == range_apply::<V2, T2, O2>(seconds(s), ql, qr, delta.1),
{
    let both = range_apply::<(V1, V2), (T1, T2), OperationPair<V1, V2, T1, T2, O1, O2>>(
        s,
        ql,
        qr,
        delta,
    );
    assert(firsts(both) =~= range_apply::<V1, T1, O1>(firsts(s), ql, qr, delta.0));
    assert(seconds(both) =~= range_apply::<V2, T2, O2>(seconds(s), ql, qr, delta.1));
}

/// In a pair algebra a range query returns the pair of what the same query
/// returns on each component in that component's own algebra.
pub proof fn lemma_pair_range_reduce<V1, V2, T1, T2, O1, O2>(
    s: Seq<(V1, V2)>,
    ql: int,
    qr: int,
) where
    V1: Copy,
    V2: Copy,
    T1: Copy,
    T2: Copy,
    O1: Operation<V1, T1>,
    O2: Operation<V2, T2>,

    ensures
        range_reduce::<(V1, V2), (T1, T2), OperationPair<V1, V2, T1, T2, O1, O2>>(s, ql, qr) == (
            range_reduce::<V1, T1, O1>(firsts(s), ql, qr),
            range_reduce::<V2, T2, O2>(seconds(s), ql, qr),
        ),
{
    lemma_pair_reduce::<V1, V2, T1, T2, O1, O2>(window(s, 1, ql, qr));
    assert(firsts(window(s, 1, ql, qr)) =~= window(firsts(s), 1, ql, qr));
    assert(seconds(window(s, 1, ql, qr)) =~= window(seconds(s), 1, ql, qr));
}

} // verus!
