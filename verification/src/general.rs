//! General purpose algorithms.
use vstd::prelude::*;
use vstd::seq_lib::{lemma_multiset_commutative, to_multiset_update};
use std::ops::Range;

verus! {

/// `f` can be called on every number of `left..right`.
pub open spec fn callable_on<F: Fn(usize) -> bool>(f: &F, left: usize, right: usize) -> bool {
    forall|x: usize| left <= x < right ==> call_requires(f, (x,))
}

/// Once `f` can answer `true` on a number of `left..right`, it cannot
/// answer `false` on a later one.
pub open spec fn monotone_on<F: Fn(usize) -> bool>(f: &F, left: usize, right: usize) -> bool {
    forall|x: usize, y: usize|
        left <= x <= y < right && call_ensures(f, (x,), true) ==> !call_ensures(f, (y,), false)
}

/// Finds the smallest number `x` in `bounds` such that `f(x) == true`,
/// or the end of `bounds` if there is none.
///
/// Whatever `f` is, the result is a boundary: `f` answered `true` on it,
/// unless it is the end of the range, and `false` on the number before it,
/// unless it is the start. For a monotone `f` the result is then the
/// smallest number on which `f` can answer `true`.
pub fn binary_search<F: Fn(usize) -> bool>(bounds: Range<usize>, f: F) -> (out: usize)
    requires
        callable_on(&f, bounds.start, bounds.end),
    ensures
        bounds.start >= bounds.end ==> out == bounds.start,
        bounds.start <= bounds.end ==> bounds.start <= out <= bounds.end,
        bounds.start <= out < bounds.end ==> call_ensures(f, (out,), true),
        bounds.start < out <= bounds.end ==> call_ensures(f, ((out - 1) as usize,), false),
        monotone_on(&f, bounds.start, bounds.end) ==> forall|x: usize|
            bounds.start <= x < bounds.end ==> (x < out ==> !call_ensures(f, (x,), true)) && (x
                >= out ==> !call_ensures(f, (x,), false)),
{
    let mut left = bounds.start;
    let mut right = bounds.end;
    while left < right
        invariant
            callable_on(&f, bounds.start, bounds.end),
            bounds.start <= left,
            right <= bounds.end,
            bounds.start <= bounds.end ==> left <= right,
            bounds.start >= bounds.end ==> left == bounds.start,
            right < bounds.end ==> call_ensures(f, (right,), true),
            bounds.start < left ==> call_ensures(f, ((left - 1) as usize,), false),
        decreases right - left,
    {
        let mid = left + (right - left) / 2;
        if f(mid) {
            right = mid;
        } else {
            left = mid + 1;
        }
    }
    left
}

/// The sequence goes up from place `k` to place `k + 1`.
pub open spec fn rises_at(s: Seq<usize>, k: int) -> bool {
    s[k] < s[k + 1]
}

/// The sequence does not go down from place `k` to place `k + 1`.
pub open spec fn climbs_at(s: Seq<usize>, k: int) -> bool {
    s[k] <= s[k + 1]
}

/// The sequence goes up somewhere: it is not the last of its permutations.
pub open spec fn has_rise(s: Seq<usize>) -> bool {
    exists|k: int| 0 <= k < s.len() - 1 && #[trigger] rises_at(s, k)
}

/// `i` is the last place at which the sequence goes up.
pub open spec fn last_rise(s: Seq<usize>, i: int) -> bool {
    &&& 0 <= i < s.len() - 1
    &&& rises_at(s, i)
    &&& forall|k: int| i < k < s.len() - 1 ==> !#[trigger] rises_at(s, k)
}

/// `j` is the last place behind `i` that holds more than place `i`.
pub open spec fn last_above(s: Seq<usize>, i: int, j: int) -> bool {
    &&& i < j < s.len()
    &&& s[i] < s[j]
    &&& forall|k: int| j < k < s.len() ==> (#[trigger] s[k]) <= s[i]
}

/// The sequence with the places `i` and `j` exchanged and all that
/// follows place `i` reversed.
pub open spec fn turned(s: Seq<usize>, i: int, j: int) -> Seq<usize> {
    let swapped = s.update(i, s[j]).update(j, s[i]);
    swapped.subrange(0, i + 1) + swapped.subrange(i + 1, s.len() as int).reverse()
}

/// The permutation that follows `s` in lexicographic order, for an `s`
/// that is not the last.
pub open spec fn next_of(s: Seq<usize>) -> Seq<usize> {
    let i = choose|i: int| last_rise(s, i);
    let j = choose|j: int| last_above(s, i, j);
    turned(s, i, j)
}

/// A sequence has one last rise, and one last place above it.
pub proof fn lemma_next_of(s: Seq<usize>, i: int, j: int)
    requires
        last_rise(s, i),
        last_above(s, i, j),
    ensures
        next_of(s) == turned(s, i, j),
{
    let i2 = choose|i2: int| last_rise(s, i2);
    if i2 < i {
        assert(!rises_at(s, i));
    } else if i < i2 {
        assert(!rises_at(s, i2));
    }
    let j2 = choose|j2: int| last_above(s, i, j2);
    if j2 < j {
        assert(s[j] <= s[i]);
    } else if j < j2 {
        assert(s[j2] <= s[i]);
    }
}

/// What follows a sequence in lexicographic order: it agrees with the
/// sequence before the last rise, holds more at the last rise, holds there
/// the least that follows and is more, goes up nowhere behind it, and is a
/// permutation of the sequence.
pub proof fn lemma_turned(s: Seq<usize>, i: int, j: int)
    requires
        last_rise(s, i),
        last_above(s, i, j),
    ensures
        turned(s, i, j).len() == s.len(),
        turned(s, i, j).subrange(0, i) == s.subrange(0, i),
        turned(s, i, j)[i] == s[j],
        s[i] < turned(s, i, j)[i],
        forall|k: int| i < k < s.len() && s[i] < #[trigger] s[k] ==> s[j] <= s[k],
        forall|k: int| i < k < s.len() - 1 ==> #[trigger] climbs_at(turned(s, i, j), k),
        turned(s, i, j).to_multiset() == s.to_multiset(),
{
    let n = s.len() as int;
    let once = s.update(i, s[j]);
    let swapped = once.update(j, s[i]);
    let front = swapped.subrange(0, i + 1);
    let back = swapped.subrange(i + 1, n);
    let t = turned(s, i, j);
    assert(t.subrange(0, i) =~= s.subrange(0, i));
    // behind the last rise the sequence goes down, so the least above is the last above
    assert forall|k: int| i < k < n && s[i] < #[trigger] s[k] implies s[j] <= s[k] by {
        if k > j {
            assert(s[k] <= s[i]);
        } else {
            lemma_falls(s, i, k, j);
        }
    }
    // behind the last rise the result goes down nowhere
    assert forall|k: int| i < k < n - 1 implies #[trigger] climbs_at(t, k) by {
        let a = n + i - k - 1;
        assert(t[k] == swapped[a + 1]);
        assert(t[k + 1] == swapped[a]);
        assert(!rises_at(s, a));
        if a + 1 == j {
            assert(!rises_at(s, a));
        } else if a == j {
            assert(s[j + 1] <= s[i]);
        }
    }
    // the same elements
    broadcast use vstd::multiset::group_multiset_axioms;

    broadcast use vstd::multiset::group_multiset_properties;

    to_multiset_update(s, i, s[j]);
    to_multiset_update(once, j, s[i]);
    s.to_multiset_ensures();
    once.to_multiset_ensures();
    assert(s.contains(s[i]));
    assert(once[j] == s[j]);
    assert(once.contains(once[j]));
    assert forall|v: usize| swapped.to_multiset().count(v) == s.to_multiset().count(v) by {
        let m = s.to_multiset();
        assert(m.count(s[i]) > 0);
        assert(once.to_multiset().count(s[j]) > 0);
    }
    assert(swapped.to_multiset() =~= s.to_multiset());
    back.lemma_reverse_to_multiset();
    lemma_multiset_commutative(front, back);
    lemma_multiset_commutative(front, back.reverse());
    assert(front + back =~= swapped);
    assert(t.to_multiset() =~= s.to_multiset());
}

/// Behind the last rise at `i` the sequence only falls: from place `a` to
/// place `b`.
proof fn lemma_falls(s: Seq<usize>, i: int, a: int, b: int)
    requires
        last_rise(s, i),
        i < a <= b < s.len(),
    ensures
        s[a] >= s[b],
    decreases b - a,
{
    if a < b {
        lemma_falls(s, i, a, b - 1);
        assert(!rises_at(s, b - 1));
    }
}

/// `a` comes before `b` in lexicographic order: at the first place at
/// which they differ, `a` holds less.
pub open spec fn lex_less(a: Seq<usize>, b: Seq<usize>) -> bool {
    exists|d: int|
        0 <= d < a.len() && d < b.len() && #[trigger] a.subrange(0, d) == b.subrange(0, d) && a[d]
            < b[d]
}

/// Two sequences that start with the same part and hold the same elements
/// hold the same elements behind that part.
proof fn lemma_same_rest(a: Seq<usize>, b: Seq<usize>, d: int)
    requires
        0 <= d <= a.len(),
        d <= b.len(),
        a.subrange(0, d) == b.subrange(0, d),
        a.to_multiset() == b.to_multiset(),
    ensures
        a.subrange(d, a.len() as int).to_multiset() == b.subrange(d, b.len() as int).to_multiset(),
        a.len() == b.len(),
{
    broadcast use vstd::multiset::group_multiset_axioms;

    let front = a.subrange(0, d);
    let ra = a.subrange(d, a.len() as int);
    let rb = b.subrange(d, b.len() as int);
    assert(front + ra =~= a);
    assert(front + rb =~= b);
    lemma_multiset_commutative(front, ra);
    lemma_multiset_commutative(front, rb);
    assert forall|v: usize| ra.to_multiset().count(v) == rb.to_multiset().count(v) by {
        assert(a.to_multiset().count(v) == front.to_multiset().count(v) + ra.to_multiset().count(v));
        assert(b.to_multiset().count(v) == front.to_multiset().count(v) + rb.to_multiset().count(v));
    }
    assert(ra.to_multiset() =~= rb.to_multiset());
    a.to_multiset_ensures();
    b.to_multiset_ensures();
}

/// An element of one of two sequences that hold the same elements is an
/// element of the other.
proof fn lemma_found(a: Seq<usize>, b: Seq<usize>, k: int) -> (at: int)
    requires
        a.to_multiset() == b.to_multiset(),
        0 <= k < b.len(),
    ensures
        0 <= at < a.len(),
        a[at] == b[k],
{
    a.to_multiset_ensures();
    b.to_multiset_ensures();
    assert(b.contains(b[k]));
    assert(b.to_multiset().count(b[k]) > 0);
    assert(a.to_multiset().count(b[k]) > 0);
    assert(a.contains(b[k]));
    choose|at: int| 0 <= at < a.len() && a[at] == b[k]
}

/// A sequence that goes down nowhere comes before every other arrangement
/// of its elements.
proof fn lemma_sorted_first(a: Seq<usize>, b: Seq<usize>)
    requires
        forall|k: int| 0 <= k < a.len() - 1 ==> #[trigger] climbs_at(a, k),
        a.to_multiset() == b.to_multiset(),
    ensures
        a == b || lex_less(a, b),
    decreases a.len(),
{
    assert(a.subrange(0, 0) =~= b.subrange(0, 0));
    lemma_same_rest(a, b, 0);
    if a.len() == 0 {
        assert(a =~= b);
    } else {
        let at = lemma_found(a, b, 0);
        lemma_climbs_to(a, 0, at);
        if a[0] < b[0] {
            assert(a.subrange(0, 0) =~= b.subrange(0, 0));
        } else {
            assert(a.subrange(0, 1) =~= b.subrange(0, 1));
            lemma_same_rest(a, b, 1);
            let ta = a.subrange(1, a.len() as int);
            let tb = b.subrange(1, b.len() as int);
            assert forall|k: int| 0 <= k < ta.len() - 1 implies #[trigger] climbs_at(ta, k) by {
                assert(climbs_at(a, k + 1));
            }
            lemma_sorted_first(ta, tb);
            lemma_lex_behind(a, b, 1);
        }
    }
}

/// A sequence that goes down nowhere holds no more at an earlier place
/// than at a later.
proof fn lemma_climbs_to(a: Seq<usize>, i: int, j: int)
    requires
        forall|k: int| 0 <= k < a.len() - 1 ==> #[trigger] climbs_at(a, k),
        0 <= i <= j < a.len(),
    ensures
        a[i] <= a[j],
    decreases j - i,
{
    if i < j {
        lemma_climbs_to(a, i, j - 1);
        assert(climbs_at(a, j - 1));
    }
}

/// Sequences that start with the same part compare as what follows that
/// part.
proof fn lemma_lex_behind(a: Seq<usize>, b: Seq<usize>, d: int)
    requires
        0 <= d <= a.len(),
        a.len() == b.len(),
        a.subrange(0, d) == b.subrange(0, d),
    ensures
        a.subrange(d, a.len() as int) == b.subrange(d, b.len() as int) ==> a == b,
        lex_less(a.subrange(d, a.len() as int), b.subrange(d, b.len() as int)) ==> lex_less(a, b),
{
    let ta = a.subrange(d, a.len() as int);
    let tb = b.subrange(d, b.len() as int);
    if ta == tb {
        assert(a =~= a.subrange(0, d) + ta);
        assert(b =~= b.subrange(0, d) + tb);
    }
    if lex_less(ta, tb) {
        let e = choose|e: int|
            0 <= e < ta.len() && e < tb.len() && #[trigger] ta.subrange(0, e) == tb.subrange(0, e)
                && ta[e] < tb[e];
        assert(a.subrange(0, d + e) =~= a.subrange(0, d) + ta.subrange(0, e));
        assert(b.subrange(0, d + e) =~= b.subrange(0, d) + tb.subrange(0, e));
        assert(a[d + e] == ta[e] && b[d + e] == tb[e]);
    }
}

/// What `next_permutation` leaves is the next arrangement in lexicographic
/// order: it comes behind the sequence, and no arrangement of the same
/// elements comes between the two.
pub proof fn lemma_next_is_next(s: Seq<usize>, q: Seq<usize>)
    requires
        has_rise(s),
    ensures
        lex_less(s, next_of(s)),
        next_of(s).to_multiset() == s.to_multiset(),
        q.to_multiset() == s.to_multiset() && lex_less(s, q) ==> next_of(s) == q || lex_less(
            next_of(s),
            q,
        ),
{
    let i = lemma_last_rise(s, (s.len() - 2) as int);
    let j = lemma_last_above(s, i, (s.len() - 1) as int);
    lemma_next_of(s, i, j);
    lemma_turned(s, i, j);
    let t = turned(s, i, j);
    assert(lex_less(s, t)) by {
        assert(s.subrange(0, i) == t.subrange(0, i));
    }
    if q.to_multiset() == s.to_multiset() && lex_less(s, q) {
        assert(s.subrange(0, 0) =~= q.subrange(0, 0));
        lemma_same_rest(s, q, 0);
        let d = choose|d: int|
            0 <= d < s.len() && d < q.len() && #[trigger] s.subrange(0, d) == q.subrange(0, d)
                && s[d] < q[d];
        lemma_same_rest(s, q, d);
        let at = lemma_found(s.subrange(d, s.len() as int), q.subrange(d, q.len() as int), 0);
        assert(s[d + at] == q[d]);
        if d < i {
            assert(t.subrange(0, d) =~= q.subrange(0, d)) by {
                assert forall|k: int| 0 <= k < d implies t[k] == q[k] by {
                    assert(t.subrange(0, i)[k] == s.subrange(0, i)[k]);
                    assert(s.subrange(0, d)[k] == q.subrange(0, d)[k]);
                }
            }
            assert(t[d] == s[d]) by {
                assert(t.subrange(0, i)[d] == s.subrange(0, i)[d]);
            }
        } else if d > i {
            // behind the last rise the sequence only falls
            lemma_falls(s, i, d, d + at);
            assert(false);
        } else {
            assert(s[j] <= s[d + at]);
            assert(t.subrange(0, i) =~= q.subrange(0, i));
            if t[i] == q[i] {
                assert(t.subrange(0, i + 1) =~= q.subrange(0, i + 1)) by {
                    assert forall|k: int| 0 <= k < i + 1 implies t[k] == q[k] by {
                        if k < i {
                            assert(t.subrange(0, i)[k] == q.subrange(0, i)[k]);
                        }
                    }
                }
                lemma_same_rest(t, q, i + 1);
                let tt = t.subrange(i + 1, t.len() as int);
                let tq = q.subrange(i + 1, q.len() as int);
                assert forall|k: int| 0 <= k < tt.len() - 1 implies #[trigger] climbs_at(tt, k) by {
                    assert(climbs_at(t, i + 1 + k));
                }
                lemma_sorted_first(tt, tq);
                lemma_lex_behind(t, q, i + 1);
            }
        }
    }
}

/// A sequence that goes up somewhere has a last place at which it does.
proof fn lemma_last_rise(s: Seq<usize>, from: int) -> (i: int)
    requires
        has_rise(s),
        -1 <= from < s.len() - 1,
        forall|k: int| from < k < s.len() - 1 ==> !#[trigger] rises_at(s, k),
    ensures
        last_rise(s, i),
    decreases from + 1,
{
    if from >= 0 && rises_at(s, from) {
        from
    } else {
        if from < 0 {
            let k = choose|k: int| 0 <= k < s.len() - 1 && #[trigger] rises_at(s, k);
            assert(false);
        }
        lemma_last_rise(s, from - 1)
    }
}

/// Behind a place at which the sequence goes up there is a last place
/// that holds more.
proof fn lemma_last_above(s: Seq<usize>, i: int, from: int) -> (j: int)
    requires
        0 <= i < s.len() - 1,
        rises_at(s, i),
        i < from < s.len(),
        forall|k: int| from < k < s.len() ==> (#[trigger] s[k]) <= s[i],
    ensures
        last_above(s, i, j),
    decreases from,
{
    if s[i] < s[from] {
        from
    } else {
        lemma_last_above(s, i, from - 1)
    }
}

/// Reverses the part of `arr` from place `start` on.
fn reverse_from(arr: &mut Vec<usize>, start: usize)
    requires
        start <= old(arr)@.len(),
    ensures
        final(arr)@ == old(arr)@.subrange(0, start as int) + old(arr)@.subrange(
            start as int,
            old(arr)@.len() as int,
        ).reverse(),
{
    let n = arr.len();
    let ghost first = arr@;
    if n - start < 2 {
        proof {
            let back = first.subrange(start as int, n as int);
            assert(back.reverse() =~= back);
            assert(first.subrange(0, start as int) + back =~= first);
        }
        return ;
    }
    let mut lo = start;
    let mut hi = n - 1;
    while lo < hi
        invariant
            n == arr@.len(),
            n == first.len(),
            start <= lo,
            hi < n,
            lo + hi == start + n - 1,
            lo <= hi + 1,
            forall|k: int| 0 <= k < lo || hi < k < n ==> #[trigger] arr@[k] == if k < start {
                first[k]
            } else {
                first[start + n - 1 - k]
            },
            forall|k: int| lo <= k <= hi ==> #[trigger] arr@[k] == first[k],
        decreases n - lo,
    {
        let a = arr[lo];
        let b = arr[hi];
        arr.set(lo, b);
        arr.set(hi, a);
        lo += 1;
        hi -= 1;
    }
    proof {
        let back = first.subrange(start as int, n as int);
        assert(arr@ =~= first.subrange(0, start as int) + back.reverse());
    }
}

/// Get the next permutation of the specified sequence, in lexicographic
/// order, and return `true`; or, if the sequence is the last of its
/// permutations, turn it into the first, by reversing it, and return
/// `false`.
pub fn next_permutation(arr: &mut Vec<usize>) -> (out: bool)
    ensures
        out == has_rise(old(arr)@),
        out ==> final(arr)@ == next_of(old(arr)@),
        !out ==> final(arr)@ == old(arr)@.reverse(),
        final(arr)@.to_multiset() == old(arr)@.to_multiset(),
{
    let ghost first = arr@;
    let n = arr.len();
    if n == 0 {
        proof {
            assert(first.reverse() =~= first);
        }
        return false;
    }
    // the last place at which the sequence goes up
    let mut i = n - 1;
    let mut found = false;
    while i > 0 && !found
        invariant
            arr@ == first,
            n == first.len(),
            i < n,
            forall|k: int| i <= k < n - 1 && !(found && k == i) ==> !#[trigger] rises_at(first, k),
            found ==> i < n - 1 && rises_at(first, i as int),
        decreases i + if found {
            0int
        } else {
            1int
        },
    {
        if arr[i - 1] < arr[i] {
            found = true;
        }
        i -= 1;
        proof {
            if !found {
                assert(!rises_at(first, i as int));
            }
        }
    }
    if !found {
        reverse_from(arr, 0);
        proof {
            assert(first.subrange(0, 0) + first.subrange(0, n as int).reverse() =~= first.reverse());
            first.lemma_reverse_to_multiset();
        }
        return false;
    }
    // the last place behind it that holds more
    let mut j = n - 1;
    while arr[j] <= arr[i]
        invariant
            arr@ == first,
            n == first.len(),
            i < j < n,
            rises_at(first, i as int),
            forall|k: int| j < k < n ==> (#[trigger] first[k]) <= first[i as int],
        decreases j,
    {
        proof {
            if j == i + 1 {
                assert(first[i as int] < first[i + 1]);
            }
        }
        j -= 1;
    }
    let a = arr[i];
    let b = arr[j];
    arr.set(i, b);
    arr.set(j, a);
    reverse_from(arr, i + 1);
    proof {
        lemma_next_of(first, i as int, j as int);
        lemma_turned(first, i as int, j as int);
    }
    true
}

} // verus!
