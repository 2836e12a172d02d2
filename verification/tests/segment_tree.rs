use cplit::data_structure::segment_tree::{AddSum, Operation, OperationPair};
use cplit::data_structure::SegmentTree;

fn numbers(input: &str) -> Vec<isize> {
    input.split_whitespace().map(|x| x.parse().unwrap()).collect()
}

/// The values at positions `1..=n`, behind the buffer slot 0.
fn padded(values: &[isize]) -> Vec<isize> {
    std::iter::once(0).chain(values.iter().copied()).collect()
}

#[test]
fn luogu_p3372() {
    let input = numbers(
        r#"
5 5
1 5 4 2 3
2 2 4
1 2 3 2
2 3 4
1 1 5 1
2 1 4
"#,
    );
    let (n, m) = (input[0] as usize, input[1] as usize);
    let v = padded(&input[2..2 + n]);
    let mut rest = input[2 + n..].iter().copied();
    let mut st = SegmentTree::<isize, isize, AddSum>::from(v);
    let mut ans = String::new();
    for _ in 0..m {
        let op = rest.next().unwrap();
        let x = rest.next().unwrap() as usize;
        let y = rest.next().unwrap() as usize;
        match op {
            1 => {
                let k = rest.next().unwrap();
                st.modify(1, 1, n, x, y, k)
            }
            2 => ans.push_str(&format!("{}\n", st.query(1, 1, n, x, y))),
            _ => unreachable!(),
        }
    }
    assert_eq!(ans, "11\n8\n20\n".to_string());
}

#[derive(Debug)]
struct AddMulSum {}

impl AddMulSum {
    const MOD_BASE: isize = 571373;
}

impl Operation<isize, (isize, isize)> for AddMulSum {
    fn combine(left_val: isize, right_val: isize) -> isize {
        (left_val + right_val) % Self::MOD_BASE
    }

    fn push_val(val: isize, (add, mul): (isize, isize), len: usize) -> isize {
        (val * mul % Self::MOD_BASE + add * len as isize % Self::MOD_BASE) % Self::MOD_BASE
    }

    fn push_tag((child_add, child_mul): (isize, isize), (add, mul): (isize, isize)) -> (isize, isize) {
        (
            (child_add * mul % Self::MOD_BASE + add) % Self::MOD_BASE,
            child_mul * mul % Self::MOD_BASE,
        )
    }

    fn val_identity() -> isize {
        0
    }

    fn tag_identity() -> (isize, isize) {
        (0, 1)
    }

    // What the algebra works on: sums and tags reduced modulo the base.

    fn val_ok(v: isize) -> bool {
        0 <= v && v < Self::MOD_BASE
    }

    fn tag_ok((add, mul): (isize, isize)) -> bool {
        0 <= add && add < Self::MOD_BASE && 0 <= mul && mul < Self::MOD_BASE
    }

    // What the algebra is: here, what it computes.

    fn combine_spec(left_val: isize, right_val: isize) -> isize {
        Self::combine(left_val, right_val)
    }

    fn push_val_spec(val: isize, tag: (isize, isize), len: usize) -> isize {
        Self::push_val(val, tag, len)
    }

    fn push_tag_spec(child_tag: (isize, isize), tag: (isize, isize)) -> (isize, isize) {
        Self::push_tag(child_tag, tag)
    }

    fn val_identity_spec() -> isize {
        Self::val_identity()
    }

    fn tag_identity_spec() -> (isize, isize) {
        Self::tag_identity()
    }

    // The laws, which hold of sums and tags reduced modulo the base; nothing
    // checks them here but the test below.

    fn lemma_identities_ok() {}

    fn lemma_combine_ok(_a: isize, _b: isize) {}

    fn lemma_push_val_ok(_v: isize, _t: (isize, isize), _len: usize) {}

    fn lemma_push_tag_ok(_t1: (isize, isize), _t2: (isize, isize)) {}

    fn lemma_combine_associative(_a: isize, _b: isize, _c: isize) {}

    fn lemma_combine_identity(_x: isize) {}

    fn lemma_push_tag_identity(_t: (isize, isize)) {}

    fn lemma_push_val_identity(_v: isize, _len: usize) {}

    fn lemma_push_val_composes(_v: isize, _t1: (isize, isize), _t2: (isize, isize), _len: usize) {}

    fn lemma_push_val_distributes(
        _a: isize,
        _b: isize,
        _t: (isize, isize),
        _left_len: usize,
        _right_len: usize,
    ) {
    }
}

#[test]
fn luogu_p3373() {
    let input = numbers(
        r#"
5 5
1 5 4 2 3
2 1 4 1
3 2 5
1 2 4 2
2 3 5 5
3 1 4
"#,
    );
    let (n, m) = (input[0] as usize, input[1] as usize);
    let v = padded(&input[2..2 + n]);
    let mut rest = input[2 + n..].iter().copied();
    let mut st = SegmentTree::<_, _, AddMulSum>::from(v);
    let mut ans = String::new();
    for _ in 0..m {
        let op = rest.next().unwrap();
        let x = rest.next().unwrap() as usize;
        let y = rest.next().unwrap() as usize;
        match op {
            1 => {
                let k = rest.next().unwrap();
                st.modify(1, 1, n, x, y, (0, k)) // mul
            }
            2 => {
                let k = rest.next().unwrap();
                st.modify(1, 1, n, x, y, (k, 1)) // add
            }
            3 => ans.push_str(&format!("{}\n", st.query(1, 1, n, x, y))),
            _ => unreachable!(),
        }
    }
    assert_eq!(ans, "17\n40\n".to_string());
}

#[test]
fn range_add_range_sum_scenario() {
    let mut st = SegmentTree::<i64, i64, AddSum>::from(vec![0, 5, 4, 2, 3]);
    assert_eq!(st.len(), 4);
    assert!(!st.is_empty());
    assert_eq!(st.query(1, 1, 4, 2, 4), 9);
    st.modify(1, 1, 4, 2, 3, 2);
    assert_eq!(st.query(1, 1, 4, 3, 4), 7);
    assert_eq!(st.query(1, 1, 4, 1, 4), 18);
}

#[test]
fn pair_components_evolve_independently() {
    type Both = OperationPair<i64, i64, i64, i64, AddSum, AddSum>;
    let values: Vec<i64> = vec![0, 7, -3, 12, 5, 9, -8];
    let n = values.len() - 1;
    let mut sums = SegmentTree::<i64, i64, AddSum>::from(values.clone());
    let mut counts = SegmentTree::<i64, i64, AddSum>::from(vec![0; n + 1]);
    let mut both = SegmentTree::<(i64, i64), (i64, i64), Both>::from(
        values.iter().map(|&v| (v, 0)).collect::<Vec<_>>(),
    );
    let updates = [(2, 5, 4, 1), (1, 6, -2, 1), (3, 3, 10, 1), (4, 6, 0, 1)];
    for &(l, r, by, touched) in updates.iter() {
        sums.modify(1, 1, n, l, r, by);
        counts.modify(1, 1, n, l, r, touched);
        both.modify(1, 1, n, l, r, (by, touched));
        for ql in 1..=n {
            for qr in ql..=n {
                let alone = (sums.query(1, 1, n, ql, qr), counts.query(1, 1, n, ql, qr));
                assert_eq!(both.query(1, 1, n, ql, qr), alone);
            }
        }
    }
    assert_eq!(both.query(1, 1, n, 1, n), (22 + 16 - 12 + 10, 4 + 6 + 1 + 3));
}

#[test]
fn combine_is_associative() {
    let samples: [i64; 7] = [0, 1, -1, 42, i64::MAX, i64::MIN, -7_000_000_000];
    for &a in samples.iter() {
        for &b in samples.iter() {
            for &c in samples.iter() {
                assert_eq!(
                    AddSum::combine(AddSum::combine(a, b), c),
                    AddSum::combine(a, AddSum::combine(b, c))
                );
                type Both = OperationPair<i64, isize, i64, isize, AddSum, AddSum>;
                let (x, y, z) = ((a, b as isize), (b, c as isize), (c, a as isize));
                assert_eq!(
                    Both::combine(Both::combine(x, y), z),
                    Both::combine(x, Both::combine(y, z))
                );
            }
        }
    }
}

#[test]
fn two_tags_in_sequence_are_their_composition() {
    let samples: [i64; 6] = [0, 3, -5, i64::MAX, i64::MIN, 1 << 40];
    for &v in samples.iter() {
        for &t1 in samples.iter() {
            for &t2 in samples.iter() {
                for len in [0usize, 1, 2, 17, 1 << 20] {
                    assert_eq!(
                        AddSum::push_val(AddSum::push_val(v, t1, len), t2, len),
                        AddSum::push_val(v, AddSum::push_tag(t1, t2), len)
                    );
                }
            }
        }
    }
}

#[test]
fn a_tag_on_a_combination_acts_on_both_parts() {
    let samples: [isize; 5] = [0, 9, -4, isize::MAX, isize::MIN];
    for &a in samples.iter() {
        for &b in samples.iter() {
            for &t in samples.iter() {
                for (left, right) in [(1usize, 1usize), (3, 2), (1, 1000)] {
                    assert_eq!(
                        AddSum::push_val(AddSum::combine(a, b), t, left + right),
                        AddSum::combine(AddSum::push_val(a, t, left), AddSum::push_val(b, t, right))
                    );
                }
            }
        }
    }
}

#[test]
fn identities_are_neutral() {
    let zero: i64 = AddSum::val_identity();
    let none: i64 = AddSum::tag_identity();
    for x in [0i64, 5, -9, i64::MAX, i64::MIN] {
        assert_eq!(AddSum::combine(x, zero), x);
        assert_eq!(AddSum::combine(zero, x), x);
        assert_eq!(AddSum::push_tag(x, none), x);
        for len in [0usize, 1, 8, usize::MAX] {
            assert_eq!(AddSum::push_val(x, none, len), x);
        }
    }
    type Both = OperationPair<i64, i64, i64, i64, AddSum, AddSum>;
    assert_eq!(Both::val_identity(), (0, 0));
    assert_eq!(Both::tag_identity(), (0, 0));
    assert_eq!(Both::combine((3, 4), Both::val_identity()), (3, 4));
    assert_eq!(Both::push_val((3, 4), Both::tag_identity(), 5), (3, 4));
    assert_eq!(Both::push_tag((3, 4), Both::tag_identity()), (3, 4));
}

#[test]
fn push_val_adds_the_amount_once_for_every_element() {
    assert_eq!(<AddSum as Operation<i64, i64>>::push_val(10, 3, 4), 22);
    assert_eq!(<AddSum as Operation<i64, i64>>::push_val(10, -3, 4), -2);
    assert_eq!(<AddSum as Operation<isize, isize>>::push_val(-1, 2, 0), -1);
    assert_eq!(<AddSum as Operation<i64, i64>>::combine(4, 5), 9);
    assert_eq!(<AddSum as Operation<i64, i64>>::push_tag(4, -5), -1);
    // sums wrap around
    assert_eq!(<AddSum as Operation<i64, i64>>::combine(i64::MAX, 1), i64::MIN);
    assert_eq!(<AddSum as Operation<i64, i64>>::push_val(0, i64::MAX, 2), -2);
}

#[test]
fn tree_matches_the_naive_sequence() {
    let start: Vec<i64> = vec![0, 3, -1, 4, 1, -5, 9, 2, -6, 5, 3, 5, -8, 9];
    let n = start.len() - 1;
    let mut naive = start.clone();
    let mut st = SegmentTree::<i64, i64, AddSum>::from(start);
    // a fixed interleaving of updates and queries over every shape of range
    let mut step: i64 = 1;
    for left in 1..=n {
        for right in left..=n {
            if (left * 7 + right * 3) % 4 != 0 {
                let delta = step * 37 % 23 - 11;
                st.modify(1, 1, n, left, right, delta);
                for p in left..=right {
                    naive[p] += delta;
                }
            }
            let ql = 1 + (left * 5 + right) % n;
            let qr = ql + (right * 11 + left) % (n - ql + 1);
            let want: i64 = naive[ql..=qr].iter().sum();
            assert_eq!(st.query(1, 1, n, ql, qr), want);
            step += 1;
        }
    }
    for p in 1..=n {
        assert_eq!(st.query(1, 1, n, p, p), naive[p]);
    }
}

#[test]
fn a_fresh_tree_aggregates_the_whole_sequence() {
    for n in 1..=40usize {
        let values: Vec<isize> = (0..=n as isize).map(|i| i * i - 7 * i).collect();
        let want: isize = values[1..].iter().sum();
        let mut st = SegmentTree::<isize, isize, AddSum>::from(values);
        assert_eq!(st.len(), n);
        assert_eq!(st.query(1, 1, n, 1, n), want);
    }
}

#[test]
fn the_buffer_slot_is_never_read() {
    let mut with_zero = SegmentTree::<i64, i64, AddSum>::from(vec![0, 8, 6, 7]);
    let mut with_junk = SegmentTree::<i64, i64, AddSum>::from(vec![i64::MIN, 8, 6, 7]);
    for l in 1..=3 {
        for r in l..=3 {
            assert_eq!(with_zero.query(1, 1, 3, l, r), with_junk.query(1, 1, 3, l, r));
        }
    }
}

#[test]
fn trees_without_positions_and_with_one() {
    let empty = SegmentTree::<i64, i64, AddSum>::from(vec![0]);
    assert_eq!(empty.len(), 0);
    assert!(empty.is_empty());
    let none = SegmentTree::<i64, i64, AddSum>::from(vec![]);
    assert_eq!(none.len(), 0);
    let blank = SegmentTree::<i64, i64, AddSum>::new(0);
    assert!(blank.is_empty());
    let mut one = SegmentTree::<i64, i64, AddSum>::from(vec![0, 11]);
    assert_eq!(one.len(), 1);
    assert_eq!(one.query(1, 1, 1, 1, 1), 11);
    one.modify(1, 1, 1, 1, 1, -4);
    assert_eq!(one.query(1, 1, 1, 1, 1), 7);
}

#[test]
fn new_holds_neutral_values_and_build_fills_them() {
    let mut st = SegmentTree::<i64, i64, AddSum>::new(5);
    assert_eq!(st.len(), 5);
    assert_eq!(st.query(1, 1, 5, 1, 5), 0);
    // the first element of the vector is the value of position 1
    st.build(1, 1, 5, &vec![1, 5, 4, 2, 3]);
    assert_eq!(st.query(1, 1, 5, 2, 4), 11);
    st.modify(1, 1, 5, 2, 3, 2);
    assert_eq!(st.query(1, 1, 5, 3, 4), 8);
    st.modify(1, 1, 5, 1, 5, 1);
    assert_eq!(st.query(1, 1, 5, 1, 4), 20);
}
