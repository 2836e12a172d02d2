//! Sorting the edges of a node: a merge sort on the linked list of its
//! edges, which moves no edge and changes only the links between them.
use vstd::prelude::*;
use super::{
    has_list,
    is_list,
    lemma_list_kept,
    lemma_list_of,
    lemma_list_step,
    lemma_list_unique,
    Graph,
};
use std::cmp::Ordering;

verus! {

/// Every index is the index of a real edge.
pub open spec fn in_range<E>(edges: Seq<(usize, usize, E)>, idxs: Seq<int>) -> bool {
    forall|k: int| 0 <= k < idxs.len() ==> 0 < #[trigger] idxs[k] < edges.len()
}

/// The edge at place `k` is followed in the edge array by the edge at
/// place `k + 1`.
pub open spec fn follows<E>(edges: Seq<(usize, usize, E)>, idxs: Seq<int>, k: int) -> bool {
    edges[idxs[k]].0 == idxs[k + 1]
}

/// Each edge but the last is followed in the edge array by the next.
pub open spec fn linked<E>(edges: Seq<(usize, usize, E)>, idxs: Seq<int>) -> bool {
    forall|k: int| 0 <= k < idxs.len() - 1 ==> #[trigger] follows(edges, idxs, k)
}

/// No index occurs twice.
pub open spec fn distinct(idxs: Seq<int>) -> bool {
    forall|i: int, j: int| 0 <= i < j < idxs.len() ==> idxs[i] != idxs[j]
}

/// A part of a list from place `k` on is the list that starts at the
/// edge at place `k`.
pub proof fn lemma_list_suffix<E>(edges: Seq<(usize, usize, E)>, start: int, idxs: Seq<int>, k: int)
    requires
        is_list(edges, start, idxs),
        0 <= k <= idxs.len(),
    ensures
        is_list(
            edges,
            if k < idxs.len() {
                idxs[k]
            } else {
                0
            },
            idxs.skip(k),
        ),
        k > 0 ==> 0 < idxs[k - 1] < edges.len() && edges[idxs[k - 1]].0 == if k < idxs.len() {
            idxs[k]
        } else {
            0
        },
    decreases k,
{
    reveal_with_fuel(is_list, 2);
    if k == 0 {
        assert(idxs.skip(0) =~= idxs);
    } else {
        lemma_list_suffix(edges, start, idxs, k - 1);
        let prev = idxs.skip(k - 1);
        let rest = idxs.skip(k);
        assert(prev.drop_first() =~= rest);
        assert(prev[0] == idxs[k - 1]);
        assert(is_list(edges, edges[idxs[k - 1]].0 as int, rest));
        if rest.len() > 0 {
            assert(rest[0] == idxs[k]);
        }
    }
}

/// No edge occurs twice in a list.
pub proof fn lemma_list_distinct<E>(edges: Seq<(usize, usize, E)>, start: int, idxs: Seq<int>)
    requires
        is_list(edges, start, idxs),
    ensures
        distinct(idxs),
{
    assert forall|i: int, j: int| 0 <= i < j < idxs.len() implies idxs[i] != idxs[j] by {
        if idxs[i] == idxs[j] {
            lemma_list_suffix(edges, start, idxs, i);
            lemma_list_suffix(edges, start, idxs, j);
            lemma_list_unique(edges, idxs[i], idxs.skip(i), idxs.skip(j));
        }
    }
}

/// A list is a chain of real edges that starts at its first edge and ends
/// with the successor 0.
pub proof fn lemma_chain<E>(edges: Seq<(usize, usize, E)>, start: int, idxs: Seq<int>)
    requires
        is_list(edges, start, idxs),
    ensures
        in_range(edges, idxs),
        linked(edges, idxs),
        distinct(idxs),
        idxs.len() == 0 ==> start == 0,
        idxs.len() > 0 ==> idxs[0] == start && edges[idxs.last()].0 == 0,
{
    lemma_list_distinct(edges, start, idxs);
    assert forall|k: int| 0 <= k < idxs.len() implies 0 < #[trigger] idxs[k] < edges.len() by {
        lemma_list_suffix(edges, start, idxs, k + 1);
    }
    assert forall|k: int| 0 <= k < idxs.len() - 1 implies #[trigger] follows(edges, idxs, k) by {
        lemma_list_suffix(edges, start, idxs, k + 1);
    }
    if idxs.len() > 0 {
        lemma_list_suffix(edges, start, idxs, idxs.len() as int);
    }
}

/// A chain of real edges that ends with the successor 0 is a list.
pub proof fn lemma_from_chain<E>(edges: Seq<(usize, usize, E)>, idxs: Seq<int>)
    requires
        idxs.len() > 0,
        in_range(edges, idxs),
        linked(edges, idxs),
        edges[idxs.last()].0 == 0,
    ensures
        is_list(edges, idxs[0], idxs),
    decreases idxs.len(),
{
    let rest = idxs.drop_first();
    if rest.len() > 0 {
        assert forall|k: int| 0 <= k < rest.len() implies 0 < #[trigger] rest[k] < edges.len() by {
            assert(rest[k] == idxs[k + 1]);
        }
        assert forall|k: int| 0 <= k < rest.len() - 1 implies #[trigger] follows(edges, rest, k) by {
            assert(follows(edges, idxs, k + 1));
            assert(rest[k] == idxs[k + 1] && rest[k + 1] == idxs[k + 2]);
        }
        assert(rest.last() == idxs.last());
        lemma_from_chain(edges, rest);
        assert(follows(edges, idxs, 0));
        assert(rest[0] == idxs[1]);
    } else {
        assert(idxs.last() == idxs[0]);
        assert(is_list(edges, 0, rest));
    }
    assert(0 < idxs[0] < edges.len());
}

/// What is stored in node `a`.
pub open spec fn node_at<V>(nodes: Seq<V>, a: usize) -> V {
    nodes[a as int]
}

/// What `f` compares: the node an edge leads to, and what is stored in
/// that node.
pub open spec fn says<V, F: Fn(&(usize, &V), &(usize, &V)) -> bool>(
    f: &F,
    nodes: Seq<V>,
    a: usize,
    b: usize,
    answer: bool,
) -> bool {
    call_ensures(f, (&(a, &node_at(nodes, a)), &(b, &node_at(nodes, b))), answer)
}

/// `f` can be asked about every two nodes.
pub open spec fn askable<V, F: Fn(&(usize, &V), &(usize, &V)) -> bool>(f: &F, nodes: Seq<V>) -> bool {
    forall|a: usize, b: usize|
        a < nodes.len() && b < nodes.len() ==> call_requires(
            f,
            (&(a, &node_at(nodes, a)), &(b, &node_at(nodes, b))),
        )
}

/// `f` has put the edge to `a` in front of the edge to `b`: asked whether
/// the first goes before the second it has said yes, or asked whether the
/// second goes before the first it has said no.
pub open spec fn put_first<V, F: Fn(&(usize, &V), &(usize, &V)) -> bool>(
    f: &F,
    nodes: Seq<V>,
    a: usize,
    b: usize,
) -> bool {
    says(f, nodes, a, b, true) || says(f, nodes, b, a, false)
}

/// `f` has put the edge at place `k` in front of the edge at place
/// `k + 1`.
pub open spec fn ordered_at<V, E, F: Fn(&(usize, &V), &(usize, &V)) -> bool>(
    f: &F,
    nodes: Seq<V>,
    edges: Seq<(usize, usize, E)>,
    idxs: Seq<int>,
    k: int,
) -> bool {
    put_first(f, nodes, edges[idxs[k]].1, edges[idxs[k + 1]].1)
}

/// Along `idxs`, `f` has put every edge in front of the next.
pub open spec fn in_order<V, E, F: Fn(&(usize, &V), &(usize, &V)) -> bool>(
    f: &F,
    nodes: Seq<V>,
    edges: Seq<(usize, usize, E)>,
    idxs: Seq<int>,
) -> bool {
    forall|k: int| 0 <= k < idxs.len() - 1 ==> #[trigger] ordered_at(f, nodes, edges, idxs, k)
}

/// The edge arrays `a` and `b` differ at most in the successors of the
/// edges `idxs`.
pub open spec fn relinked<E>(
    a: Seq<(usize, usize, E)>,
    b: Seq<(usize, usize, E)>,
    idxs: Seq<int>,
) -> bool {
    &&& a.len() == b.len()
    &&& forall|e: int| 0 <= e < a.len() ==> (#[trigger] b[e]).1 == a[e].1 && b[e].2 == a[e].2
    &&& forall|e: int| 0 <= e < a.len() && !idxs.contains(e) ==> (#[trigger] b[e]).0 == a[e].0
}

/// `a` and `b` hold the same indices.
pub open spec fn same_members(a: Seq<int>, b: Seq<int>) -> bool {
    forall|x: int| a.contains(x) <==> b.contains(x)
}

/// Cutting a list after its first `h` edges gives two lists.
proof fn lemma_cut<E>(
    edges: Seq<(usize, usize, E)>,
    cut: Seq<(usize, usize, E)>,
    start: int,
    idxs: Seq<int>,
    h: int,
)
    requires
        is_list(edges, start, idxs),
        0 < h < idxs.len(),
        0 < idxs[h - 1] < edges.len(),
        cut == edges.update(idxs[h - 1], (0usize, edges[idxs[h - 1]].1, edges[idxs[h - 1]].2)),
    ensures
        is_list(cut, start, idxs.take(h)),
        is_list(cut, idxs[h], idxs.skip(h)),
        edges[idxs[h - 1]].0 == idxs[h],
        relinked(edges, cut, idxs),
        distinct(idxs),
{
    lemma_chain(edges, start, idxs);
    lemma_list_suffix(edges, start, idxs, h);
    let front = idxs.take(h);
    let back = idxs.skip(h);
    assert forall|k: int| 0 <= k < front.len() implies 0 < #[trigger] front[k] < cut.len() by {
        assert(front[k] == idxs[k]);
    }
    assert forall|k: int| 0 <= k < front.len() - 1 implies #[trigger] follows(cut, front, k) by {
        assert(follows(edges, idxs, k));
        assert(front[k] == idxs[k] && front[k + 1] == idxs[k + 1]);
        assert(idxs[k] != idxs[h - 1]);
    }
    assert(front.last() == idxs[h - 1]);
    lemma_from_chain(cut, front);
    assert forall|k: int| 0 <= k < back.len() implies cut[#[trigger] back[k]].0 == edges[back[k]].0 by {
        assert(back[k] == idxs[h + k]);
        assert(idxs[h - 1] != idxs[h + k]);
    }
    lemma_list_kept(edges, cut, idxs[h], back);
    assert forall|e: int| 0 <= e < edges.len() && !idxs.contains(e) implies (#[trigger] cut[e]).0
        == edges[e].0 by {
        assert(idxs.contains(idxs[h - 1]));
    }
}

/// A list none of whose edges is among the edges `changed` is kept by a
/// change of the successors of those edges.
proof fn lemma_other_list_kept<E>(
    a: Seq<(usize, usize, E)>,
    b: Seq<(usize, usize, E)>,
    changed: Seq<int>,
    start: int,
    idxs: Seq<int>,
)
    requires
        relinked(a, b, changed),
        is_list(a, start, idxs),
        forall|k: int| 0 <= k < idxs.len() ==> !changed.contains(#[trigger] idxs[k]),
    ensures
        is_list(b, start, idxs),
{
    lemma_chain(a, start, idxs);
    assert forall|k: int| 0 <= k < idxs.len() implies b[#[trigger] idxs[k]].0 == a[idxs[k]].0 by {
        assert(!changed.contains(idxs[k]));
    }
    lemma_list_kept(a, b, start, idxs);
}

/// The state of a merge of the lists `ra` and `rb`: `i` edges of the one
/// and `j` of the other have been moved to the merged chain `m`, whose
/// last edge is `lst`; what is left of the two lists starts at `rest_a` and
/// `rest_b`; and `lst` still has as its successor what was left of its own
/// list when it was moved.
pub open spec fn merging<E>(
    edges: Seq<(usize, usize, E)>,
    ra: Seq<int>,
    rb: Seq<int>,
    i: int,
    j: int,
    m: Seq<int>,
    rest_a: int,
    rest_b: int,
    lst: int,
    from_a: bool,
) -> bool {
    &&& 0 <= i <= ra.len()
    &&& 0 <= j <= rb.len()
    &&& m.len() == i + j
    &&& m.len() >= 1
    &&& distinct(ra + rb)
    &&& distinct(m)
    &&& is_list(edges, rest_a, ra.skip(i))
    &&& is_list(edges, rest_b, rb.skip(j))
    &&& in_range(edges, m)
    &&& linked(edges, m)
    &&& m.last() == lst
    &&& forall|x: int| m.contains(x) <==> ra.take(i).contains(x) || rb.take(j).contains(x)
    &&& from_a ==> i >= 1 && lst == ra[i - 1] && edges[lst].0 == rest_a
    &&& !from_a ==> j >= 1 && lst == rb[j - 1] && edges[lst].0 == rest_b
}

/// The first step of a merge.
proof fn lemma_merge_first<E>(edges: Seq<(usize, usize, E)>, ra: Seq<int>, rb: Seq<int>, first_a: bool)
    requires
        ra.len() > 0,
        rb.len() > 0,
        is_list(edges, ra[0], ra),
        is_list(edges, rb[0], rb),
        distinct(ra + rb),
    ensures
        first_a ==> merging(
            edges,
            ra,
            rb,
            1,
            0,
            seq![ra[0]],
            edges[ra[0]].0 as int,
            rb[0],
            ra[0],
            true,
        ),
        !first_a ==> merging(
            edges,
            ra,
            rb,
            0,
            1,
            seq![rb[0]],
            ra[0],
            edges[rb[0]].0 as int,
            rb[0],
            false,
        ),
{
    lemma_list_suffix(edges, ra[0], ra, 1);
    lemma_list_suffix(edges, rb[0], rb, 1);
    lemma_list_suffix(edges, ra[0], ra, 0);
    lemma_list_suffix(edges, rb[0], rb, 0);
    if first_a {
        let m = seq![ra[0]];
        assert forall|x: int| m.contains(x) <==> ra.take(1).contains(x) || rb.take(0).contains(x) by {
            if m.contains(x) {
                assert(ra.take(1)[0] == x);
            }
            if ra.take(1).contains(x) {
                assert(m[0] == x);
            }
        }
    } else {
        let m = seq![rb[0]];
        assert forall|x: int| m.contains(x) <==> ra.take(0).contains(x) || rb.take(1).contains(x) by {
            if m.contains(x) {
                assert(rb.take(1)[0] == x);
            }
            if rb.take(1).contains(x) {
                assert(m[0] == x);
            }
        }
    }
}

/// A step of a merge: the first edge left of one list is linked behind
/// the merged chain.
#[verifier::rlimit(60)]
#[verifier::spinoff_prover]
proof fn lemma_merge_step<E>(
    edges: Seq<(usize, usize, E)>,
    after: Seq<(usize, usize, E)>,
    ra: Seq<int>,
    rb: Seq<int>,
    i: int,
    j: int,
    m: Seq<int>,
    head1: usize,
    head2: usize,
    last: usize,
    from_a: bool,
    take_a: bool,
)
    requires
        merging(edges, ra, rb, i, j, m, head1 as int, head2 as int, last as int, from_a),
        take_a ==> head1 != 0,
        !take_a ==> head2 != 0,
        after == edges.update(
            last as int,
            (
                if take_a {
                    head1
                } else {
                    head2
                },
                edges[last as int].1,
                edges[last as int].2,
            ),
        ),
    ensures
        take_a ==> i < ra.len() && head1 == ra[i] && merging(
            after,
            ra,
            rb,
            i + 1,
            j,
            m.push(head1 as int),
            after[head1 as int].0 as int,
            head2 as int,
            head1 as int,
            true,
        ),
        !take_a ==> j < rb.len() && head2 == rb[j] && merging(
            after,
            ra,
            rb,
            i,
            j + 1,
            m.push(head2 as int),
            head1 as int,
            after[head2 as int].0 as int,
            head2 as int,
            false,
        ),
        relinked(edges, after, seq![last as int]),
{
    let rest_a = head1 as int;
    let rest_b = head2 as int;
    let lst = last as int;
    let both = ra + rb;
    let ta = ra.skip(i);
    let tb = rb.skip(j);
    lemma_chain(edges, rest_a, ta);
    lemma_chain(edges, rest_b, tb);
    assert(m.contains(m.last()));
    assert(0 < lst < edges.len());
    // the last edge of the chain is on neither of the lists that are left
    assert forall|k: int| 0 <= k < ta.len() implies (#[trigger] ta[k]) != lst by {
        assert(ta[k] == both[i + k]);
        if from_a {
            assert(lst == both[i - 1]);
        } else {
            assert(lst == both[ra.len() + j - 1]);
        }
    }
    assert forall|k: int| 0 <= k < tb.len() implies (#[trigger] tb[k]) != lst by {
        assert(tb[k] == both[ra.len() + j + k]);
        if from_a {
            assert(lst == both[i - 1]);
        } else {
            assert(lst == both[ra.len() + j - 1]);
        }
    }
    assert forall|k: int| 0 <= k < ta.len() implies after[#[trigger] ta[k]].0 == edges[ta[k]].0 by {
        assert(ta[k] != lst);
    }
    assert forall|k: int| 0 <= k < tb.len() implies after[#[trigger] tb[k]].0 == edges[tb[k]].0 by {
        assert(tb[k] != lst);
    }
    lemma_list_kept(edges, after, rest_a, ta);
    lemma_list_kept(edges, after, rest_b, tb);
    assert forall|e: int| 0 <= e < edges.len() && !seq![lst].contains(e) implies (#[trigger] after[e]).0
        == edges[e].0 by {
        assert(seq![lst][0] == lst);
    }
    if take_a {
        let new = m.push(rest_a);
        let grown = ra.take(i + 1);
        assert(ta[0] == ra[i]);
        lemma_list_suffix(after, rest_a, ta, 1);
        assert(ta.skip(1) =~= ra.skip(i + 1));
        assert(!m.contains(rest_a)) by {
            if m.contains(rest_a) {
                if ra.take(i).contains(rest_a) {
                    let k = choose|k: int| 0 <= k < ra.take(i).len() && ra.take(i)[k] == rest_a;
                    assert(both[k] == rest_a && both[i] == rest_a);
                } else {
                    let k = choose|k: int| 0 <= k < rb.take(j).len() && rb.take(j)[k] == rest_a;
                    assert(both[ra.len() + k] == rest_a && both[i] == rest_a);
                }
            }
        }
        assert forall|a: int, b: int| 0 <= a < b < new.len() implies new[a] != new[b] by {
            if b == m.len() {
                assert(m.contains(m[a]));
            }
        }
        assert forall|k: int| 0 <= k < new.len() implies 0 < #[trigger] new[k] < after.len() by {
            if k < m.len() {
                assert(new[k] == m[k]);
            }
        }
        assert forall|k: int| 0 <= k < new.len() - 1 implies #[trigger] follows(after, new, k) by {
            if k < m.len() - 1 {
                assert(follows(edges, m, k));
                assert(new[k] == m[k] && new[k + 1] == m[k + 1]);
                assert(m[k] != m[m.len() - 1]);
            }
        }
        assert forall|x: int| new.contains(x) <==> grown.contains(x) || rb.take(j).contains(x) by {
            if new.contains(x) {
                let k = choose|k: int| 0 <= k < new.len() && new[k] == x;
                if k < m.len() {
                    assert(m.contains(x));
                    if ra.take(i).contains(x) {
                        let q = choose|q: int| 0 <= q < ra.take(i).len() && ra.take(i)[q] == x;
                        assert(grown[q] == x);
                    }
                } else {
                    assert(grown[i] == x);
                }
            }
            if grown.contains(x) {
                let q = choose|q: int| 0 <= q < grown.len() && grown[q] == x;
                if q < i {
                    assert(ra.take(i)[q] == x);
                    assert(m.contains(x));
                    let k = choose|k: int| 0 <= k < m.len() && m[k] == x;
                    assert(new[k] == x);
                } else {
                    assert(new[m.len() as int] == x);
                }
            }
            if rb.take(j).contains(x) {
                assert(m.contains(x));
                let k = choose|k: int| 0 <= k < m.len() && m[k] == x;
                assert(new[k] == x);
            }
        }
    } else {
        let new = m.push(rest_b);
        let grown = rb.take(j + 1);
        assert(tb[0] == rb[j]);
        lemma_list_suffix(after, rest_b, tb, 1);
        assert(tb.skip(1) =~= rb.skip(j + 1));
        assert(!m.contains(rest_b)) by {
            if m.contains(rest_b) {
                if ra.take(i).contains(rest_b) {
                    let k = choose|k: int| 0 <= k < ra.take(i).len() && ra.take(i)[k] == rest_b;
                    assert(both[k] == rest_b && both[ra.len() + j] == rest_b);
                } else {
                    let k = choose|k: int| 0 <= k < rb.take(j).len() && rb.take(j)[k] == rest_b;
                    assert(both[ra.len() + k] == rest_b && both[ra.len() + j] == rest_b);
                }
            }
        }
        assert forall|a: int, b: int| 0 <= a < b < new.len() implies new[a] != new[b] by {
            if b == m.len() {
                assert(m.contains(m[a]));
            }
        }
        assert forall|k: int| 0 <= k < new.len() implies 0 < #[trigger] new[k] < after.len() by {
            if k < m.len() {
                assert(new[k] == m[k]);
            }
        }
        assert forall|k: int| 0 <= k < new.len() - 1 implies #[trigger] follows(after, new, k) by {
            if k < m.len() - 1 {
                assert(follows(edges, m, k));
                assert(new[k] == m[k] && new[k + 1] == m[k + 1]);
                assert(m[k] != m[m.len() - 1]);
            }
        }
        assert forall|x: int| new.contains(x) <==> ra.take(i).contains(x) || grown.contains(x) by {
            if new.contains(x) {
                let k = choose|k: int| 0 <= k < new.len() && new[k] == x;
                if k < m.len() {
                    assert(m.contains(x));
                    if rb.take(j).contains(x) {
                        let q = choose|q: int| 0 <= q < rb.take(j).len() && rb.take(j)[q] == x;
                        assert(grown[q] == x);
                    }
                } else {
                    assert(grown[j] == x);
                }
            }
            if grown.contains(x) {
                let q = choose|q: int| 0 <= q < grown.len() && grown[q] == x;
                if q < j {
                    assert(rb.take(j)[q] == x);
                    assert(m.contains(x));
                    let k = choose|k: int| 0 <= k < m.len() && m[k] == x;
                    assert(new[k] == x);
                } else {
                    assert(new[m.len() as int] == x);
                }
            }
            if ra.take(i).contains(x) {
                assert(m.contains(x));
                let k = choose|k: int| 0 <= k < m.len() && m[k] == x;
                assert(new[k] == x);
            }
        }
    }
}

/// Changing successors changes no order.
proof fn lemma_order_kept<V, E, F: Fn(&(usize, &V), &(usize, &V)) -> bool>(
    f: &F,
    nodes: Seq<V>,
    a: Seq<(usize, usize, E)>,
    b: Seq<(usize, usize, E)>,
    changed: Seq<int>,
    idxs: Seq<int>,
)
    requires
        relinked(a, b, changed),
        in_range(a, idxs),
        in_order(f, nodes, a, idxs),
    ensures
        in_order(f, nodes, b, idxs),
{
    assert forall|k: int| 0 <= k < idxs.len() - 1 implies #[trigger] ordered_at(
        f,
        nodes,
        b,
        idxs,
        k,
    ) by {
        assert(ordered_at(f, nodes, a, idxs, k));
        assert(0 < idxs[k] < a.len() && 0 < idxs[k + 1] < a.len());
        assert(b[idxs[k + 1]].1 == a[idxs[k + 1]].1);
        assert(b[idxs[k]].1 == a[idxs[k]].1);
    }
}

/// Changes of successors add up.
proof fn lemma_relinked_twice<E>(
    a: Seq<(usize, usize, E)>,
    b: Seq<(usize, usize, E)>,
    c: Seq<(usize, usize, E)>,
    first: Seq<int>,
    second: Seq<int>,
    all: Seq<int>,
)
    requires
        relinked(a, b, first),
        relinked(b, c, second),
        forall|x: int| first.contains(x) ==> all.contains(x),
        forall|x: int| second.contains(x) ==> all.contains(x),
    ensures
        relinked(a, c, all),
{
    assert forall|e: int| 0 <= e < a.len() implies (#[trigger] c[e]).1 == a[e].1 && c[e].2
        == a[e].2 by {
        assert(b[e].1 == a[e].1);
    }
    assert forall|e: int| 0 <= e < a.len() && !all.contains(e) implies (#[trigger] c[e]).0
        == a[e].0 by {
        assert(b[e].0 == a[e].0);
    }
}

/// Every edge leads to a node.
pub open spec fn leads_to_nodes<E>(edges: Seq<(usize, usize, E)>, nodes: int) -> bool {
    forall|e: int| 0 <= e < edges.len() ==> (#[trigger] edges[e]).1 < nodes
}

impl<V, E> Graph<V, E> where V: Default + Clone, E: Default + Clone {
    /// Makes `next` the successor of the edge with index `idx`.
    fn set_next(&mut self, idx: usize, next: usize)
        requires
            idx < old(self).edges@.len(),
        ensures
            final(self).edges@ == old(self).edges@.update(
                idx as int,
                (next, old(self).edges@[idx as int].1, old(self).edges@[idx as int].2),
            ),
            final(self).nodes@ == old(self).nodes@,
            final(self).head@ == old(self).head@,
            final(self).erased@ == old(self).erased@,
    {
        let edge = &mut self.edges[idx];
        edge.0 = next;
    }

    /// Asks `is_less` whether the edge with index `a` goes before the edge
    /// with index `b`.
    fn goes_first<F: Fn(&(usize, &V), &(usize, &V)) -> bool>(
        &self,
        a: usize,
        b: usize,
        is_less: &F,
    ) -> (out: bool)
        requires
            a < self.edges@.len(),
            b < self.edges@.len(),
            leads_to_nodes(self.edges@, self.nodes@.len() as int),
            askable(is_less, self.nodes@),
        ensures
            says(is_less, self.nodes@, self.edges@[a as int].1, self.edges@[b as int].1, out),
    {
        let to_a = self.edges[a].1;
        let to_b = self.edges[b].1;
        proof {
            assert(node_at(self.nodes@, to_a) == self.nodes@[to_a as int]);
            assert(node_at(self.nodes@, to_b) == self.nodes@[to_b as int]);
        }
        is_less(&(to_a, &self.nodes[to_a]), &(to_b, &self.nodes[to_b]))
    }

    /// Sorts the list of `len` edges that starts at the edge with index
    /// `edge` and returns the index of the edge that is then the first:
    /// sorts each half and merges the two. Where `is_less` puts neither of
    /// two edges before the other, the one from the second half goes first.
    #[verifier::rlimit(60)]
    #[verifier::spinoff_prover]
    fn sort_edges_inner<F: Fn(&(usize, &V), &(usize, &V)) -> bool>(
        &mut self,
        edge: usize,
        len: usize,
        is_less: &F,
        Ghost(idxs): Ghost<Seq<int>>,
    ) -> (out: (usize, Ghost<Seq<int>>))
        requires
            is_list(old(self).edges@, edge as int, idxs),
            idxs.len() == len,
            leads_to_nodes(old(self).edges@, old(self).nodes@.len() as int),
            askable(is_less, old(self).nodes@),
        ensures
            is_list(final(self).edges@, out.0 as int, out.1@),
            out.1@.len() == len,
            same_members(out.1@, idxs),
            relinked(old(self).edges@, final(self).edges@, idxs),
            final(self).nodes@ == old(self).nodes@,
            final(self).head@ == old(self).head@,
            final(self).erased@ == old(self).erased@,
            in_order(is_less, final(self).nodes@, final(self).edges@, out.1@),
        decreases len,
    {
        let ghost e0 = self.edges@;
        if len <= 1 {
            return (edge, Ghost(idxs));
        }
        let half = len / 2;
        proof {
            lemma_chain(e0, edge as int, idxs);
        }
        let mut at = edge;
        let mut k: usize = 0;
        while k < half - 1
            invariant
                self.edges@ == e0,
                1 <= half < len,
                idxs.len() == len,
                k <= half - 1,
                at == idxs[k as int],
                in_range(e0, idxs),
                linked(e0, idxs),
            decreases half - 1 - k,
        {
            proof {
                assert(follows(e0, idxs, k as int));
            }
            at = self.edges[at].0;
            k += 1;
        }
        let second = self.edges[at].0;
        self.set_next(at, 0);
        let ghost e1 = self.edges@;
        let ghost front = idxs.take(half as int);
        let ghost back = idxs.skip(half as int);
        proof {
            lemma_cut(e0, e1, edge as int, idxs, half as int);
            assert forall|e: int| 0 <= e < e1.len() implies (#[trigger] e1[e]).1 < self.nodes@.len() by {
                assert(e1[e].1 == e0[e].1);
            }
        }
        let (first_head, Ghost(ra)) = self.sort_edges_inner(edge, half, is_less, Ghost(front));
        let ghost e2 = self.edges@;
        proof {
            assert forall|k: int| 0 <= k < back.len() implies !front.contains(#[trigger] back[k]) by {
                if front.contains(back[k]) {
                    let q = choose|q: int| 0 <= q < front.len() && front[q] == back[k];
                    assert(idxs[q] == idxs[half + k]);
                }
            }
            lemma_other_list_kept(e1, e2, front, second as int, back);
            assert forall|e: int| 0 <= e < e2.len() implies (#[trigger] e2[e]).1 < self.nodes@.len() by {
                assert(e2[e].1 == e1[e].1);
            }
        }
        let (second_head, Ghost(rb)) = self.sort_edges_inner(
            second,
            len - half,
            is_less,
            Ghost(back),
        );
        let ghost e3 = self.edges@;
        proof {
            assert forall|k: int| 0 <= k < ra.len() implies !back.contains(#[trigger] ra[k]) by {
                assert(ra.contains(ra[k]));
                assert(front.contains(ra[k]));
                if back.contains(ra[k]) {
                    let q = choose|q: int| 0 <= q < front.len() && front[q] == ra[k];
                    let r = choose|r: int| 0 <= r < back.len() && back[r] == ra[k];
                    assert(idxs[q] == idxs[half + r]);
                }
            }
            lemma_other_list_kept(e2, e3, back, first_head as int, ra);
            assert forall|e: int| 0 <= e < e3.len() implies (#[trigger] e3[e]).1 < self.nodes@.len() by {
                assert(e3[e].1 == e2[e].1);
            }
            lemma_chain(e3, first_head as int, ra);
            lemma_chain(e3, second_head as int, rb);
            // the two sorted halves share no edge
            let both = ra + rb;
            assert forall|a: int, b: int| 0 <= a < b < both.len() implies both[a] != both[b] by {
                if a < ra.len() && b >= ra.len() {
                    assert(rb.contains(rb[b - ra.len()]));
                    assert(back.contains(rb[b - ra.len()]));
                    assert(!back.contains(ra[a]));
                }
            }
            assert(front + back =~= idxs);
            lemma_relinked_halves(e0, e1, e2, e3, idxs, front, back);
            lemma_chain(e2, first_head as int, ra);
            lemma_order_kept(is_less, self.nodes@, e2, e3, back, ra);
        }
        let mut rest_a = first_head;
        let mut rest_b = second_head;
        let mut lst;
        let ghost mut i: int;
        let ghost mut j: int;
        let ghost mut from_a: bool;
        let first_goes = self.goes_first(rest_a, rest_b, is_less);
        proof {
            assert(0 < ra[0] < e3.len() && 0 < rb[0] < e3.len());
            if ra.len() > 1 {
                assert(ordered_at(is_less, self.nodes@, e3, ra, 0));
            }
            if rb.len() > 1 {
                assert(ordered_at(is_less, self.nodes@, e3, rb, 0));
            }
        }
        if first_goes {
            lst = rest_a;
            rest_a = self.edges[rest_a].0;
            proof {
                lemma_merge_first(e3, ra, rb, true);
                i = 1;
                j = 0;
                from_a = true;
            }
        } else {
            lst = rest_b;
            rest_b = self.edges[rest_b].0;
            proof {
                lemma_merge_first(e3, ra, rb, false);
                i = 0;
                j = 1;
                from_a = false;
            }
        }
        let head = lst;
        let ghost mut m: Seq<int> = seq![lst as int];
        while rest_a != 0 || rest_b != 0
            invariant
                self.nodes@ == old(self).nodes@,
                self.head@ == old(self).head@,
                self.erased@ == old(self).erased@,
                ra.len() == half,
                rb.len() == len - half,
                leads_to_nodes(self.edges@, self.nodes@.len() as int),
                askable(is_less, self.nodes@),
                relinked(e3, self.edges@, ra + rb),
                merging(self.edges@, ra, rb, i, j, m, rest_a as int, rest_b as int, lst as int, from_a),
                m[0] == head,
                in_range(e3, ra),
                in_range(e3, rb),
                in_order(is_less, self.nodes@, e3, ra),
                in_order(is_less, self.nodes@, e3, rb),
                in_order(is_less, self.nodes@, e3, m),
                i < ra.len() ==> put_first(is_less, self.nodes@, e3[lst as int].1, e3[ra[i]].1),
                j < rb.len() ==> put_first(is_less, self.nodes@, e3[lst as int].1, e3[rb[j]].1),
            decreases ra.len() - i + rb.len() - j,
        {
            let ghost before = self.edges@;
            proof {
                lemma_chain(before, rest_a as int, ra.skip(i));
                lemma_chain(before, rest_b as int, rb.skip(j));
                if rest_a != 0 {
                    assert(ra.skip(i)[0] == ra[i]);
                }
                if rest_b != 0 {
                    assert(rb.skip(j)[0] == rb[j]);
                }
                assert(m.contains(m.last()));
            }
            let take_first = if rest_a == 0 {
                false
            } else if rest_b == 0 {
                true
            } else {
                self.goes_first(rest_a, rest_b, is_less)
            };
            proof {
                assert((ra + rb).contains(lst as int)) by {
                    if from_a {
                        assert((ra + rb)[i - 1] == lst);
                    } else {
                        assert((ra + rb)[ra.len() + j - 1] == lst);
                    }
                }
                if rest_a != 0 && rest_b != 0 {
                    assert(0 < ra[i] < e3.len() && 0 < rb[j] < e3.len());
                    assert(before[rest_a as int].1 == e3[rest_a as int].1);
                    assert(before[rest_b as int].1 == e3[rest_b as int].1);
                }
            }
            if take_first {
                self.set_next(lst, rest_a);
                proof {
                    lemma_merge_step(
                        before,
                        self.edges@,
                        ra,
                        rb,
                        i,
                        j,
                        m,
                        rest_a,
                        rest_b,
                        lst,
                        from_a,
                        true,
                    );
                    lemma_relinked_more(e3, before, self.edges@, ra + rb, lst as int);
                    lemma_order_grows(is_less, self.nodes@, e3, m, ra, i, rest_a as int);
                    m = m.push(rest_a as int);
                    i = i + 1;
                    from_a = true;
                }
                rest_a = self.edges[rest_a].0;
            } else {
                self.set_next(lst, rest_b);
                proof {
                    lemma_merge_step(
                        before,
                        self.edges@,
                        ra,
                        rb,
                        i,
                        j,
                        m,
                        rest_a,
                        rest_b,
                        lst,
                        from_a,
                        false,
                    );
                    lemma_relinked_more(e3, before, self.edges@, ra + rb, lst as int);
                    lemma_order_grows(is_less, self.nodes@, e3, m, rb, j, rest_b as int);
                    m = m.push(rest_b as int);
                    j = j + 1;
                    from_a = false;
                }
                rest_b = self.edges[rest_b].0;
            }
            lst = self.edges[lst].0;
        }
        proof {
            let e4 = self.edges@;
            lemma_chain(e4, rest_a as int, ra.skip(i));
            lemma_chain(e4, rest_b as int, rb.skip(j));
            assert(ra.take(i) =~= ra && rb.take(j) =~= rb);
            lemma_from_chain(e4, m);
            assert forall|x: int| m.contains(x) <==> idxs.contains(x) by {
                if ra.contains(x) {
                    assert(front.contains(x));
                    let q = choose|q: int| 0 <= q < front.len() && front[q] == x;
                    assert(idxs[q] == x);
                }
                if rb.contains(x) {
                    assert(back.contains(x));
                    let q = choose|q: int| 0 <= q < back.len() && back[q] == x;
                    assert(idxs[half + q] == x);
                }
                if idxs.contains(x) {
                    let q = choose|q: int| 0 <= q < idxs.len() && idxs[q] == x;
                    if q < half {
                        assert(front[q] == x);
                        assert(ra.contains(x));
                    } else {
                        assert(back[q - half] == x);
                        assert(rb.contains(x));
                    }
                }
            }
            lemma_relinked_twice(e0, e3, e4, idxs, ra + rb, idxs);
            assert forall|k: int| 0 <= k < m.len() implies 0 < #[trigger] m[k] < e3.len() by {
                assert(0 < m[k] < e4.len());
            }
            lemma_order_kept(is_less, self.nodes@, e3, e4, ra + rb, m);
        }
        (head, Ghost(m))
    }
}

/// The cut and the sorting of the two halves change the successors of
/// edges of the list only.
proof fn lemma_relinked_halves<E>(
    e0: Seq<(usize, usize, E)>,
    e1: Seq<(usize, usize, E)>,
    e2: Seq<(usize, usize, E)>,
    e3: Seq<(usize, usize, E)>,
    idxs: Seq<int>,
    front: Seq<int>,
    back: Seq<int>,
)
    requires
        relinked(e0, e1, idxs),
        relinked(e1, e2, front),
        relinked(e2, e3, back),
        front + back == idxs,
    ensures
        relinked(e0, e3, idxs),
{
    assert forall|x: int| front.contains(x) implies idxs.contains(x) by {
        let q = choose|q: int| 0 <= q < front.len() && front[q] == x;
        assert((front + back)[q] == x);
    }
    assert forall|x: int| back.contains(x) implies idxs.contains(x) by {
        let q = choose|q: int| 0 <= q < back.len() && back[q] == x;
        assert((front + back)[front.len() + q] == x);
    }
    lemma_relinked_twice(e0, e1, e2, idxs, front, idxs);
    lemma_relinked_twice(e0, e2, e3, idxs, back, idxs);
}

/// One more change of the successor of an edge of the list.
proof fn lemma_relinked_more<E>(
    a: Seq<(usize, usize, E)>,
    b: Seq<(usize, usize, E)>,
    c: Seq<(usize, usize, E)>,
    all: Seq<int>,
    lst: int,
)
    requires
        relinked(a, b, all),
        relinked(b, c, seq![lst]),
        all.contains(lst),
    ensures
        relinked(a, c, all),
{
    assert forall|x: int| seq![lst].contains(x) implies all.contains(x) by {
        assert(x == lst);
    }
    lemma_relinked_twice(a, b, c, all, seq![lst], all);
}

/// Linking the next edge of a sorted list behind a chain in order, whose
/// last edge has been put in front of that edge, keeps the chain in
/// order.
proof fn lemma_order_grows<V, E, F: Fn(&(usize, &V), &(usize, &V)) -> bool>(
    f: &F,
    nodes: Seq<V>,
    edges: Seq<(usize, usize, E)>,
    m: Seq<int>,
    from: Seq<int>,
    i: int,
    next: int,
)
    requires
        m.len() >= 1,
        0 <= i < from.len(),
        next == from[i],
        in_order(f, nodes, edges, m),
        in_order(f, nodes, edges, from),
        put_first(f, nodes, edges[m.last()].1, edges[next].1),
    ensures
        in_order(f, nodes, edges, m.push(next)),
        i + 1 < from.len() ==> put_first(f, nodes, edges[next].1, edges[from[i + 1]].1),
{
    let new = m.push(next);
    assert forall|k: int| 0 <= k < new.len() - 1 implies #[trigger] ordered_at(
        f,
        nodes,
        edges,
        new,
        k,
    ) by {
        if k < m.len() - 1 {
            assert(ordered_at(f, nodes, edges, m, k));
            assert(new[k + 1] == m[k + 1] && new[k] == m[k]);
        }
    }
    if i + 1 < from.len() {
        assert(ordered_at(f, nodes, edges, from, i));
    }
}

/// `f` can give the answer `o` when it compares the edge to `a` with the
/// edge to `b`.
pub open spec fn said<V, F: Fn(&(usize, &V), &(usize, &V)) -> Ordering>(
    f: &F,
    nodes: Seq<V>,
    a: usize,
    b: usize,
    o: Ordering,
) -> bool {
    call_ensures(f, (&(a, &node_at(nodes, a)), &(b, &node_at(nodes, b))), o)
}

/// `f` can be asked about every two nodes.
pub open spec fn askable_by<V, F: Fn(&(usize, &V), &(usize, &V)) -> Ordering>(
    f: &F,
    nodes: Seq<V>,
) -> bool {
    forall|a: usize, b: usize|
        a < nodes.len() && b < nodes.len() ==> call_requires(
            f,
            (&(a, &node_at(nodes, a)), &(b, &node_at(nodes, b))),
        )
}

/// `f` has placed the edge to `a` in front of the edge to `b`: it has
/// found the first less than the second, or it has not found the second
/// less than the first.
pub open spec fn placed_first<V, F: Fn(&(usize, &V), &(usize, &V)) -> Ordering>(
    f: &F,
    nodes: Seq<V>,
    a: usize,
    b: usize,
) -> bool {
    said(f, nodes, a, b, Ordering::Less) || exists|o: Ordering|
        o != Ordering::Less && #[trigger] said(f, nodes, b, a, o)
}

/// `f` has placed the edge at place `k` in front of the edge at place
/// `k + 1`.
pub open spec fn ordered_by_at<V, E, F: Fn(&(usize, &V), &(usize, &V)) -> Ordering>(
    f: &F,
    nodes: Seq<V>,
    edges: Seq<(usize, usize, E)>,
    idxs: Seq<int>,
    k: int,
) -> bool {
    placed_first(f, nodes, edges[idxs[k]].1, edges[idxs[k + 1]].1)
}

/// Along `idxs`, `f` has placed every edge in front of the next.
pub open spec fn in_order_by<V, E, F: Fn(&(usize, &V), &(usize, &V)) -> Ordering>(
    f: &F,
    nodes: Seq<V>,
    edges: Seq<(usize, usize, E)>,
    idxs: Seq<int>,
) -> bool {
    forall|k: int| 0 <= k < idxs.len() - 1 ==> #[trigger] ordered_by_at(f, nodes, edges, idxs, k)
}

/// Along `idxs`, no edge leads to a node with a smaller index than an edge
/// in front of it.
pub open spec fn ascending<E>(edges: Seq<(usize, usize, E)>, idxs: Seq<int>) -> bool {
    forall|i: int, j: int|
        0 <= i <= j < idxs.len() ==> edges[#[trigger] idxs[i]].1 <= edges[#[trigger] idxs[j]].1
}

/// The edge at place `k` leads to a node with an index no larger than the
/// edge at place `k + 1`.
pub open spec fn step_up<E>(edges: Seq<(usize, usize, E)>, idxs: Seq<int>, k: int) -> bool {
    edges[idxs[k]].1 <= edges[idxs[k + 1]].1
}

/// A list that goes up at every step is ascending.
pub proof fn lemma_ascending<E>(edges: Seq<(usize, usize, E)>, idxs: Seq<int>)
    requires
        forall|k: int| 0 <= k < idxs.len() - 1 ==> #[trigger] step_up(edges, idxs, k),
    ensures
        ascending(edges, idxs),
{
    assert forall|i: int, j: int| 0 <= i <= j < idxs.len() implies edges[#[trigger] idxs[i]].1
        <= edges[#[trigger] idxs[j]].1 by {
        lemma_climbs(edges, idxs, i, j);
    }
}

/// A list that goes up at every step goes up between any two places.
proof fn lemma_climbs<E>(edges: Seq<(usize, usize, E)>, idxs: Seq<int>, i: int, j: int)
    requires
        forall|k: int| 0 <= k < idxs.len() - 1 ==> #[trigger] step_up(edges, idxs, k),
        0 <= i <= j < idxs.len(),
    ensures
        edges[idxs[i]].1 <= edges[idxs[j]].1,
    decreases j - i,
{
    if i < j {
        lemma_climbs(edges, idxs, i, j - 1);
        assert(step_up(edges, idxs, j - 1));
    }
}

/// The graph `new` is the graph `old` with the edges of `node` in another
/// order: it is well formed; it has the same nodes, the same erased
/// slots, and the same edges but for the successors of the edges of
/// `node`; `node` has the same edges; and every other node has the same
/// list.
pub open spec fn resorted<V, E>(old: &Graph<V, E>, new: &Graph<V, E>, node: usize) -> bool where
    V: Default + Clone,
    E: Default + Clone,
 {
    &&& new.wf()
    &&& new.nodes@ == old.nodes@
    &&& new.erased@ == old.erased@
    &&& new.head@.len() == old.head@.len()
    &&& relinked(old.edges@, new.edges@, old.adj(node as int))
    &&& same_members(new.adj(node as int), old.adj(node as int))
    &&& new.adj(node as int).len() == old.adj(node as int).len()
    &&& forall|v: int|
        0 <= v < old.head@.len() && v != node ==> new.head@[v] == old.head@[v] && #[trigger] new.adj(
            v,
        ) == old.adj(v)
}

/// Relinking the list of one node, with the same edges, keeps a graph
/// well formed and every other list as it was.
proof fn lemma_resorted<V, E>(
    old: &Graph<V, E>,
    new: &Graph<V, E>,
    node: usize,
    first: usize,
    res: Seq<int>,
) where V: Default + Clone, E: Default + Clone
    requires
        old.wf(),
        node < old.head@.len(),
        is_list(new.edges@, first as int, res),
        same_members(res, old.adj(node as int)),
        res.len() == old.adj(node as int).len(),
        relinked(old.edges@, new.edges@, old.adj(node as int)),
        new.nodes@ == old.nodes@,
        new.erased@ == old.erased@,
        new.head@ == old.head@.update(node as int, first),
    ensures
        resorted(old, new, node),
        new.adj(node as int) == res,
{
    let idxs = old.adj(node as int);
    lemma_list_of(new.edges@, first as int, res);
    assert forall|v: int| 0 <= v < old.head@.len() && v != node implies new.head@[v]
        == old.head@[v] && #[trigger] new.adj(v) == old.adj(v) by {
        lemma_list_step(old.edges@, old.head@[v] as int);
        assert forall|k: int| 0 <= k < old.adj(v).len() implies !idxs.contains(
            #[trigger] old.adj(v)[k],
        ) by {
            assert(old.adj(v).contains(old.adj(v)[k]));
        }
        lemma_other_list_kept(old.edges@, new.edges@, idxs, old.head@[v] as int, old.adj(v));
        lemma_list_of(new.edges@, old.head@[v] as int, old.adj(v));
    }
    assert forall|v: int| 0 <= v < new.head@.len() implies has_list(
        new.edges@,
        #[trigger] new.head@[v] as int,
    ) by {
        if v != node {
            assert(new.adj(v) == old.adj(v));
            lemma_list_step(old.edges@, old.head@[v] as int);
            assert forall|k: int| 0 <= k < old.adj(v).len() implies !idxs.contains(
                #[trigger] old.adj(v)[k],
            ) by {
                assert(old.adj(v).contains(old.adj(v)[k]));
            }
            lemma_other_list_kept(old.edges@, new.edges@, idxs, old.head@[v] as int, old.adj(v));
            lemma_list_of(new.edges@, old.head@[v] as int, old.adj(v));
        }
    }
    assert forall|e: int| 0 <= e < new.edges@.len() implies (#[trigger] new.edges@[e]).1
        < new.nodes@.len() by {
        assert(old.edges@[e].1 < old.nodes@.len());
    }
    assert forall|v: int, k: int|
        0 <= v < new.head@.len() && 0 <= k < new.erased@.len() implies !(#[trigger] new.adj(
        v,
    )).contains(#[trigger] new.erased@[k] as int) by {
        assert(!old.adj(v).contains(old.erased@[k] as int));
        if v != node {
            assert(new.adj(v) == old.adj(v));
        }
    }
    assert forall|u: int, v: int, x: int|
        0 <= u < new.head@.len() && 0 <= v < new.head@.len() && u != v && #[trigger] new.adj(
            u,
        ).contains(x) implies !#[trigger] new.adj(v).contains(x) by {
        if u != node {
            assert(new.adj(u) == old.adj(u));
        }
        if v != node {
            assert(new.adj(v) == old.adj(v));
        }
        assert(old.adj(u).contains(x));
        assert(!old.adj(v).contains(x));
    }
}

impl<V, E> Graph<V, E> where V: Default + Clone, E: Default + Clone {
    /// Sorts the edges of `node` with `is_less`.
    fn sort_list<F: Fn(&(usize, &V), &(usize, &V)) -> bool>(&mut self, node: usize, is_less: &F)
        requires
            old(self).wf(),
            node < old(self).head@.len(),
            askable(is_less, old(self).nodes@),
        ensures
            resorted(old(self), final(self), node),
            in_order(is_less, final(self).nodes@, final(self).edges@, final(self).adj_of(node)),
    {
        let len = self.get_edges(node).len();
        let ghost idxs = self.adj(node as int);
        proof {
            lemma_list_step(self.edges@, self.head@[node as int] as int);
        }
        let start = self.head[node];
        let (first, Ghost(res)) = self.sort_edges_inner(start, len, is_less, Ghost(idxs));
        self.head.set(node, first);
        proof {
            lemma_resorted(old(self), self, node, first, res);
        }
    }

    /// Sort the edges of a node by the given comparator, which compares
    /// two edges by the nodes they lead to: the index of the node and the
    /// information stored in it.
    ///
    /// Afterwards the comparator has placed every edge of the node in
    /// front of the next; among edges that it finds equal, the order is
    /// not the one before. No edge moves in the edge array.
    pub fn sort_edges_by<F: Fn(&(usize, &V), &(usize, &V)) -> Ordering>(
        &mut self,
        node: usize,
        compare: F,
    )
        requires
            old(self).wf(),
            node < old(self).head@.len(),
            askable_by(&compare, old(self).nodes@),
        ensures
            resorted(old(self), final(self), node),
            in_order_by(&compare, final(self).nodes@, final(self).edges@, final(self).adj_of(node)),
    {
        let asked = &compare;
        let is_less = |a: &(usize, &V), b: &(usize, &V)| -> (r: bool)
            requires
                call_requires(asked, (a, b)),
            ensures
                r ==> call_ensures(asked, (a, b), Ordering::Less),
                !r ==> exists|o: Ordering| o != Ordering::Less && call_ensures(asked, (a, b), o),
            {
                let o = asked(a, b);
                matches!(o, Ordering::Less)
            };
        proof {
            assert forall|a: usize, b: usize|
                a < self.nodes@.len() && b < self.nodes@.len() implies call_requires(
                is_less,
                (&(a, &node_at(self.nodes@, a)), &(b, &node_at(self.nodes@, b))),
            ) by {
                assert(call_requires(
                    asked,
                    (&(a, &node_at(self.nodes@, a)), &(b, &node_at(self.nodes@, b))),
                ));
            }
        }
        self.sort_list(node, &is_less);
        proof {
            let list = self.adj_of(node);
            assert forall|k: int| 0 <= k < list.len() - 1 implies #[trigger] ordered_by_at(
                &compare,
                self.nodes@,
                self.edges@,
                list,
                k,
            ) by {
                assert(ordered_at(&is_less, self.nodes@, self.edges@, list, k));
                let x = self.edges@[list[k]].1;
                let y = self.edges@[list[k + 1]].1;
                if !says(&is_less, self.nodes@, x, y, true) {
                    let o = choose|o: Ordering|
                        o != Ordering::Less && call_ensures(
                            asked,
                            (&(y, &node_at(self.nodes@, y)), &(x, &node_at(self.nodes@, x))),
                            o,
                        );
                    assert(said(&compare, self.nodes@, y, x, o));
                }
            }
        }
    }

    /// Sort the edges of a node by the node id: afterwards the edges of
    /// the node lead to nodes of ascending index.
    pub fn sort_edges(&mut self, node: usize)
        requires
            old(self).wf(),
            node < old(self).head@.len(),
        ensures
            resorted(old(self), final(self), node),
            ascending(final(self).edges@, final(self).adj_of(node)),
    {
        let by_id = |a: &(usize, &V), b: &(usize, &V)| -> (o: Ordering)
            ensures
                (o == Ordering::Less) == (a.0 < b.0),
            {
                if a.0 < b.0 {
                    Ordering::Less
                } else if a.0 == b.0 {
                    Ordering::Equal
                } else {
                    Ordering::Greater
                }
            };
        self.sort_edges_by(node, by_id);
        proof {
            let list = self.adj_of(node);
            assert forall|k: int| 0 <= k < list.len() - 1 implies #[trigger] step_up(
                self.edges@,
                list,
                k,
            ) by {
                assert(ordered_by_at(&by_id, self.nodes@, self.edges@, list, k));
            }
            lemma_ascending(self.edges@, list);
        }
    }
}

} // verus!
