use cplit::data_structure::disjoint_set_union::links_form_forest;
use cplit::data_structure::DisjointSetUnion;

#[test]
fn luogu_p3367() {
    let input: Vec<usize> = r#"
4 7
2 1 2
1 1 2
2 1 2
1 3 4
2 1 4
1 2 3
2 1 4
"#
    .split_whitespace()
    .map(|x| x.parse().unwrap())
    .collect();
    let (n, m) = (input[0], input[1]);
    let mut rest = input[2..].iter().copied();
    let mut dsu = DisjointSetUnion::with_len(n);
    let mut ans = String::new();
    for _ in 0..m {
        let op = rest.next().unwrap();
        let x = rest.next().unwrap();
        let y = rest.next().unwrap();
        match op {
            1 => {
                dsu.union(x, y);
            }
            2 => {
                ans.push(if dsu.find(x) == dsu.find(y) { 'Y' } else { 'N' });
            }
            _ => unreachable!(),
        }
    }
    assert_eq!(ans, "NYNY");
}

#[test]
fn dsu_union_joins_into_second_root() {
    let mut dsu = DisjointSetUnion::new(5);
    assert_eq!(dsu.len(), 5);
    assert!(!dsu.is_empty());
    for x in 0..=5 {
        assert_eq!(dsu.find(x), x);
    }
    dsu.union(1, 2);
    assert_eq!(dsu.find(1), 2);
    dsu.join(2, 3);
    assert_eq!(dsu.find(1), 3);
    assert_eq!(dsu.find(2), 3);
    dsu.union(3, 1);
    assert_eq!(dsu.find(3), 3);
    assert_eq!(dsu.find(4), 4);
    assert_eq!(dsu.find(0), 0);
}

#[test]
fn dsu_from_parent_links() {
    let mut dsu = DisjointSetUnion::from(vec![0, 2, 3, 3, 4]);
    assert_eq!(dsu.len(), 4);
    assert_eq!(dsu.find(1), 3);
    assert_eq!(dsu.find(2), 3);
    assert_eq!(dsu.find(4), 4);
}

#[test]
fn forests_of_parent_links() {
    assert!(links_form_forest(&vec![0]));
    assert!(links_form_forest(&vec![0, 2, 3, 3, 4]));
    assert!(links_form_forest(&vec![1, 2, 3, 4, 4]));
    // no element at all
    assert!(!links_form_forest(&vec![]));
    // a link that points outside the elements
    assert!(!links_form_forest(&vec![0, 5]));
    // a cycle
    assert!(!links_form_forest(&vec![0, 2, 1]));
    assert!(!links_form_forest(&vec![1, 2, 3, 0]));
}
