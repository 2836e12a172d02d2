use cplit::data_structure::BinaryIndexedTree;

#[test]
fn luogu_p3374() {
    let input: Vec<isize> = r#"
5 5
1 5 4 2 3
1 1 3
2 2 5
1 3 -1
1 4 2
2 1 4
"#
    .split_whitespace()
    .map(|x| x.parse().unwrap())
    .collect();
    let (n, m) = (input[0] as usize, input[1] as usize);
    let v: Vec<isize> = std::iter::once(0).chain(input[2..2 + n].iter().copied()).collect();
    let mut rest = input[2 + n..].iter().copied();
    let mut bit = BinaryIndexedTree::from(v);
    println!("{:?}", bit);
    let mut ans: Vec<isize> = vec![];
    for _ in 0..m {
        let op = rest.next().unwrap();
        let x = rest.next().unwrap() as usize;
        let y = rest.next().unwrap();
        match op {
            1 => {
                bit.add(x, y);
            }
            2 => {
                ans.push(bit.sum(x, y as usize + 1));
            }
            _ => unreachable!(),
        }
    }
    assert_eq!(ans, vec![14, 16]);
}

#[test]
fn bit_matches_naive_sums() {
    let values: Vec<isize> = vec![0, 3, -1, 4, 1, -5, 9, 2, -6, 5, 3, 5];
    let n = values.len() - 1;
    let mut naive = values.clone();
    let mut bit = BinaryIndexedTree::from(values);
    assert_eq!(bit.len(), n);
    let updates: [(usize, isize); 5] = [(1, 10), (11, -4), (6, 7), (6, -7), (8, 100)];
    for &(index, delta) in updates.iter() {
        bit.add(index, delta);
        naive[index] += delta;
        for start in 1..=n + 1 {
            for end in 1..=n + 1 {
                let want: isize = if start < end { naive[start..end].iter().sum() } else { 0 };
                assert_eq!(bit.sum(start, end), want);
            }
        }
    }
}

#[test]
fn bit_push_and_pop() {
    let mut bit = BinaryIndexedTree::new();
    assert!(bit.is_empty());
    assert_eq!(bit.pop(), None);
    for v in 1..=8 {
        bit.push(v);
    }
    assert_eq!(bit.len(), 8);
    assert_eq!(bit.sum(1, 9), 36);
    assert_eq!(bit.sum(3, 6), 3 + 4 + 5);
    // node 8 covers all eight positions
    assert_eq!(bit.pop(), Some(36));
    // node 7 covers position 7 alone
    assert_eq!(bit.pop(), Some(7));
    // node 6 covers positions 5 and 6
    assert_eq!(bit.pop(), Some(11));
    assert_eq!(bit.len(), 5);
    assert_eq!(bit.sum(1, 6), 15);
}

#[test]
fn bit_constructors_start_empty_or_zero() {
    let bit = BinaryIndexedTree::with_capacity(16);
    assert_eq!(bit.len(), 0);
    let bit = BinaryIndexedTree::default();
    assert_eq!(bit.len(), 0);
    let mut bit = BinaryIndexedTree::with_len(5);
    assert_eq!(bit.len(), 5);
    assert_eq!(bit.sum(1, 6), 0);
    bit.add(2, 9);
    assert_eq!(bit.sum(2, 3), 9);
    assert_eq!(bit.sum(3, 6), 0);
}

#[test]
fn bit_sums_wrap() {
    let mut bit = BinaryIndexedTree::from(vec![0, isize::MAX, 1]);
    assert_eq!(bit.sum(1, 3), isize::MIN);
    bit.add(1, 1);
    assert_eq!(bit.sum(1, 2), isize::MIN);
}
