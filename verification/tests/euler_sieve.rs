use cplit::number_theory::{euler_sieve, EulerPhi};

#[test]
fn luogu_p3383() {
    let input: Vec<usize> = r#"
100 5
1
2
3
4
5
"#
    .split_whitespace()
    .map(|x| x.parse().unwrap())
    .collect();
    let (n, q) = (input[0], input[1]);
    let mut rest = input[2..].iter().copied();
    let (p, _) = euler_sieve::<(), ()>(n);
    let mut ans = vec![];
    for _ in 0..q {
        let x = rest.next().unwrap();
        ans.push(p[x - 1]);
    }
    assert_eq!(ans, vec![2, 3, 5, 7, 11]);
}

#[test]
fn sieve_finds_exactly_the_primes() {
    let (primes, _) = euler_sieve::<(), ()>(60);
    assert_eq!(primes, vec![2, 3, 5, 7, 11, 13, 17, 19, 23, 29, 31, 37, 41, 43, 47, 53, 59]);
    let (primes, _) = euler_sieve::<(), ()>(1);
    assert!(primes.is_empty());
    let (primes, _) = euler_sieve::<(), ()>(2);
    assert_eq!(primes, vec![2]);
}

#[test]
fn sieve_derives_the_totient() {
    let (_, phi) = euler_sieve::<usize, EulerPhi>(20);
    assert_eq!(
        phi[1..],
        [1, 1, 2, 2, 4, 2, 6, 4, 6, 4, 10, 4, 12, 6, 8, 8, 16, 6, 18, 8]
    );
}

#[test]
fn sieve_derives_pairs_componentwise() {
    let (primes, both) = euler_sieve::<(usize, ()), (EulerPhi, ())>(30);
    let (_, phi) = euler_sieve::<usize, EulerPhi>(30);
    assert_eq!(primes.len(), 10);
    for i in 1..=30 {
        assert_eq!(both[i], (phi[i], ()));
    }
}

#[test]
fn sieve_leaves_the_default_in_slot_zero() {
    let (primes, phi) = euler_sieve::<usize, EulerPhi>(10);
    assert_eq!(primes, vec![2, 3, 5, 7]);
    assert_eq!(phi, vec![0, 1, 1, 2, 2, 4, 2, 6, 4, 6, 4]);
    let (primes, phi) = euler_sieve::<usize, EulerPhi>(1);
    assert!(primes.is_empty());
    assert_eq!(phi, vec![0, 1]);
}
