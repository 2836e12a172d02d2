//! The linear sieve: the primes up to `n`, and a table of a function that
//! is derived from prime to multiple along the way.
use vstd::prelude::*;
use vstd::arithmetic::div_mod::{
    lemma_fundamental_div_mod,
    lemma_mod_multiples_basic,
    lemma_mod_self_0,
};
use vstd::arithmetic::mul::{lemma_mul_is_associative, lemma_mul_is_commutative};
use crate::num::modular::{
    congruent,
    lemma_congruent_mul,
    lemma_congruent_refl,
    lemma_congruent_sub,
    lemma_congruent_trans,
};

verus! {

/// `p` is a prime number.
pub open spec fn is_prime(p: nat) -> bool {
    &&& p >= 2
    &&& forall|d: nat| 2 <= d < p ==> #[trigger] (p % d) != 0
}

/// No prime below `p` divides `a`.
pub open spec fn no_prime_below(a: nat, p: nat) -> bool {
    forall|q: nat| q < p && is_prime(q) ==> #[trigger] (a % q) != 0
}

/// The least divisor of `c` that is at least `d`.
pub open spec fn least_divisor(c: nat, d: nat) -> nat
    decreases c - d,
{
    if d >= c || d == 0 || c % d == 0 {
        d
    } else {
        least_divisor(c, d + 1)
    }
}

/// The least divisor of `c` from `d` on divides `c`, and nothing between
/// `d` and it does.
pub proof fn lemma_least_divisor(c: nat, d: nat)
    requires
        1 <= d <= c,
    ensures
        d <= least_divisor(c, d) <= c,
        c % least_divisor(c, d) == 0,
        forall|e: nat| d <= e < least_divisor(c, d) ==> #[trigger] (c % e) != 0,
    decreases c - d,
{
    if d < c && c % d != 0 {
        lemma_least_divisor(c, d + 1);
    } else if d == c {
        lemma_mod_self_0(c as int);
    }
}

/// A multiple of a multiple of `q` is a multiple of `q`.
pub proof fn lemma_divides_product(q: nat, a: nat, b: nat)
    requires
        q > 0,
        a % q == 0,
    ensures
        (a * b) % q == 0,
{
    lemma_fundamental_div_mod(a as int, q as int);
    let k = a as int / q as int;
    lemma_mul_is_associative(q as int, k, b as int);
    lemma_mul_is_commutative(q as int, k * b);
    lemma_mod_multiples_basic(k * b, q as int);
}

/// The least divisor above 1 of a number above 1 is its least prime
/// factor.
pub proof fn lemma_least_prime_factor(c: nat)
    requires
        c >= 2,
    ensures
        is_prime(least_divisor(c, 2)),
        c % least_divisor(c, 2) == 0,
        2 <= least_divisor(c, 2) <= c,
        no_prime_below(c, least_divisor(c, 2)),
{
    let p = least_divisor(c, 2);
    lemma_least_divisor(c, 2);
    assert forall|d: nat| 2 <= d < p implies #[trigger] (p % d) != 0 by {
        if p % d == 0 {
            lemma_fundamental_div_mod(c as int, p as int);
            let k = (c / p) as nat;
            lemma_mul_is_commutative(p as int, k as int);
            assert(c == p * k);
            lemma_divides_product(d, p, k);
        }
    }
}

/// A number above 1 that is not prime is a least prime factor `p` times a
/// cofactor `a` with `2 <= a < c` that no prime below `p` divides.
pub proof fn lemma_composite(c: nat) -> (pair: (nat, nat))
    requires
        c >= 2,
        !is_prime(c),
    ensures
        c == pair.0 * pair.1,
        2 <= pair.0 < c,
        is_prime(pair.1),
        pair.1 <= pair.0,
        no_prime_below(pair.0, pair.1),
{
    let p = least_divisor(c, 2);
    lemma_least_prime_factor(c);
    lemma_least_divisor(c, 2);
    lemma_fundamental_div_mod(c as int, p as int);
    let a = (c / p) as nat;
    lemma_mul_is_commutative(p as int, a as int);
    assert(c == a * p);
    assert(p < c);
    assert(a >= 2 && a < c) by (nonlinear_arith)
        requires
            c == a * p,
            2 <= p < c,
    ;
    lemma_mod_multiples_basic(p as int, a as int);
    lemma_mul_is_commutative(p as int, a as int);
    assert(c % a == 0);
    assert forall|q: nat| q < p && is_prime(q) implies #[trigger] (a % q) != 0 by {
        if a % q == 0 {
            lemma_divides_product(q, a, p);
        }
    }
    (a, p)
}

/// A number is congruent to its remainder.
proof fn lemma_remainder(a: int, m: int)
    requires
        m > 0,
    ensures
        congruent(a, a % m, m),
        congruent(a % m, a, m),
        0 <= a % m < m,
{
    lemma_fundamental_div_mod(a, m);
    lemma_mod_multiples_basic(a / m, m);
    lemma_mul_is_commutative(a / m, m);
    assert(a - a % m == m * (a / m));
    assert((a % m) - a == m * (-(a / m))) by (nonlinear_arith)
        requires
            a - a % m == m * (a / m),
    ;
    lemma_mod_multiples_basic(-(a / m), m);
    lemma_mul_is_commutative(-(a / m), m);
}

/// Euclid's lemma: a prime that divides a product divides one of the
/// factors.
pub proof fn lemma_euclid(m: nat, a: nat, b: nat)
    requires
        is_prime(m),
        (a * b) % m == 0,
        a % m != 0,
    ensures
        b % m == 0,
    decreases a,
{
    let mi = m as int;
    let ai = a as int;
    let bi = b as int;
    let r = a % m;
    let ri = r as int;
    lemma_remainder(ai, mi);
    lemma_remainder(ai * bi, mi);
    lemma_congruent_refl(bi, mi);
    // the remainder of `a` times `b` is a multiple of `m` too
    lemma_congruent_mul(ri, ai, bi, bi, mi);
    lemma_congruent_trans(ri * bi, ai * bi, 0, mi);
    assert((r * b) % m == 0);
    if a >= m {
        vstd::arithmetic::div_mod::lemma_small_mod(r, m);
        lemma_euclid(m, r, b);
    } else if a == 1 {
        assert(a * b == b);
    } else {
        // `m` is no multiple of `a`, so it leaves a smaller remainder
        let s = m % a;
        let si = s as int;
        assert(s != 0);
        lemma_remainder(mi, ai);
        lemma_fundamental_div_mod(mi, ai);
        let q = mi / ai;
        assert(si * bi == mi * bi - q * (ai * bi)) by (nonlinear_arith)
            requires
                mi == ai * q + si,
        ;
        lemma_mod_multiples_basic(bi, mi);
        lemma_mul_is_commutative(bi, mi);
        assert(congruent(mi * bi, 0, mi));
        lemma_congruent_refl(q, mi);
        lemma_congruent_mul(q, q, ai * bi, 0, mi);
        assert(q * 0 == 0);
        lemma_congruent_sub(mi * bi, 0, q * (ai * bi), 0, mi);
        assert((s * b) % m == 0);
        vstd::arithmetic::div_mod::lemma_small_mod(s, m);
        lemma_euclid(m, s, b);
    }
}

/// A prime that no smaller prime divides its cofactor is the least prime
/// factor of the product.
pub proof fn lemma_least_factor_of_product(p: nat, x: nat)
    requires
        is_prime(p),
        x >= 1,
        no_prime_below(x, p),
    ensures
        least_divisor(p * x, 2) == p,
        (p * x) / p == x,
        p * x >= 2,
{
    let c = p * x;
    assert(c >= p && c >= 2) by (nonlinear_arith)
        requires
            c == p * x,
            p >= 2,
            x >= 1,
    ;
    lemma_least_prime_factor(c);
    lemma_least_divisor(c, 2);
    let m = least_divisor(c, 2);
    lemma_mod_multiples_basic(x as int, p as int);
    lemma_mul_is_commutative(x as int, p as int);
    assert(c % p == 0);
    assert(m <= p);
    if m < p {
        assert(x % m != 0);
        lemma_mul_is_commutative(x as int, p as int);
        assert((x * p) % m == 0);
        lemma_euclid(m, x, p);
        assert(false);
    }
    vstd::arithmetic::div_mod::lemma_div_multiples_vanish(x as int, p as int);
}

/// Euler's totient function, by the rule that makes it multiplicative:
/// it is 1 at 1, and for the least prime factor `p` of `n` it is `p` times
/// its value at `n / p` if `p` divides `n / p`, and `p - 1` times that
/// value if not.
pub open spec fn totient(n: nat) -> nat
    decreases n,
{
    if n <= 1 {
        1
    } else {
        let p = least_divisor(n, 2);
        if 2 <= p <= n && n / p < n {
            if (n / p) % p == 0 {
                p * totient(n / p)
            } else {
                ((p - 1) * totient(n / p)) as nat
            }
        } else {
            1
        }
    }
}

/// The totient of a product of a prime and a cofactor that no smaller
/// prime divides.
pub proof fn lemma_totient_step(p: nat, x: nat)
    requires
        is_prime(p),
        x >= 1,
        no_prime_below(x, p),
    ensures
        totient(p * x) == if x % p == 0 {
            p * totient(x)
        } else {
            ((p - 1) * totient(x)) as nat
        },
{
    lemma_least_factor_of_product(p, x);
    let c = p * x;
    assert(x < c && p <= c) by (nonlinear_arith)
        requires
            c == p * x,
            p >= 2,
            x >= 1,
    ;
    assert(least_divisor(c, 2) == p);
    assert(c / p == x);
}

/// The totient of a prime is one less than the prime.
pub proof fn lemma_totient_prime(p: nat)
    requires
        is_prime(p),
    ensures
        totient(p) == p - 1,
{
    assert(no_prime_below(1, p)) by {
        assert forall|q: nat| q < p && is_prime(q) implies #[trigger] (1nat % q) != 0 by {
            vstd::arithmetic::div_mod::lemma_small_mod(1, q);
        }
    }
    lemma_totient_step(p, 1);
    assert(p * 1 == p);
    vstd::arithmetic::div_mod::lemma_small_mod(1, p);
    assert(totient(1) == 1);
    assert((p - 1) * totient(1) == p - 1) by (nonlinear_arith)
        requires
            totient(1) == 1,
    ;
}

/// The totient of a positive number is positive and no more than the
/// number.
pub proof fn lemma_totient_bounds(n: nat)
    requires
        n >= 1,
    ensures
        1 <= totient(n) <= n,
    decreases n,
{
    if n > 1 {
        let p = least_divisor(n, 2);
        lemma_least_prime_factor(n);
        lemma_fundamental_div_mod(n as int, p as int);
        let x = n / p;
        assert(x >= 1 && x < n && p * x == n) by (nonlinear_arith)
            requires
                n == p * x + n % p,
                n % p == 0,
                2 <= p <= n,
        ;
        lemma_totient_bounds(x);
        assert(p * totient(x) <= n && (p - 1) * totient(x) <= n && (p - 1) * totient(x) >= 1
            && p * totient(x) >= 1) by (nonlinear_arith)
            requires
                1 <= totient(x) <= x,
                p * x == n,
                p >= 2,
        ;
    }
}

/// The number of primes up to `n`: for a prime `p`, its place among the
/// primes, counted from 1.
pub open spec fn prime_count(n: nat) -> nat
    decreases n,
{
    if n == 0 {
        0
    } else if is_prime(n) {
        prime_count((n - 1) as nat) + 1
    } else {
        prime_count((n - 1) as nat)
    }
}

/// A rule that derives the values of a function on the positive integers
/// from prime to multiple, as the sieve meets them: the value at 1, the
/// value at a prime, and the value at `p * x` for a prime `p`, from the
/// values at smaller arguments. For a multiplicative function `f`, which
/// satisfies `f(1) = 1` and `f(x * y) = f(x) * f(y)` for coprime `x` and
/// `y`, this covers every argument.
///
/// `sound(i, v)` says what the rule maintains of the value `v` it derives
/// at `i`; each step may rely on it for the values it reads.
pub trait MulFunc<T = usize>: Sized {
    /// What holds of the value derived at `i`.
    spec fn sound(i: nat, v: T) -> bool;

    /// The value at 1.
    fn one() -> (out: T)
        ensures
            Self::sound(1, out),
    ;

    /// The value at the prime `p`, which is the `index`-th prime.
    fn at_prime(p: usize, index: usize) -> (out: T)
        requires
            is_prime(p as nat),
            index == prime_count(p as nat),
        ensures
            Self::sound(p as nat, out),
    ;

    /// The value at `p * x` for a prime `p` that divides `x` and is its
    /// least prime factor, from the values `f` gives at the arguments up to
    /// `x`.
    fn derive_divides<F: Fn(usize) -> T>(p: usize, x: usize, f: &F) -> (out: T)
        requires
            is_prime(p as nat),
            no_prime_below(x as nat, p as nat),
            x >= 2,
            x % p == 0,
            p * x <= usize::MAX,
            forall|i: usize| 1 <= i <= x ==> call_requires(f, (i,)),
            forall|i: usize, v: T|
                1 <= i <= x && #[trigger] call_ensures(f, (i,), v) ==> Self::sound(i as nat, v),
        ensures
            Self::sound((p * x) as nat, out),
    ;

    /// The value at `p * x` for a prime `p` that is less than every prime
    /// factor of `x`, from the values `f` gives at the arguments up to `x`.
    fn derive_coprime<F: Fn(usize) -> T>(p: usize, x: usize, f: &F) -> (out: T)
        requires
            is_prime(p as nat),
            no_prime_below(x as nat, p as nat),
            x >= 2,
            p < x,
            x % p != 0,
            p * x <= usize::MAX,
            forall|i: usize| 1 <= i <= x ==> call_requires(f, (i,)),
            forall|i: usize, v: T|
                1 <= i <= x && #[trigger] call_ensures(f, (i,), v) ==> Self::sound(i as nat, v),
        ensures
            Self::sound((p * x) as nat, out),
    ;
}

/// Euler's totient function: the value derived at `i` is `totient(i)`.
pub struct EulerPhi;

impl MulFunc for EulerPhi {
    open spec fn sound(i: nat, v: usize) -> bool {
        v == totient(i)
    }

    fn one() -> (out: usize) {
        1
    }

    fn at_prime(p: usize, index: usize) -> (out: usize) {
        proof {
            lemma_totient_prime(p as nat);
        }
        p - 1
    }

    fn derive_divides<F: Fn(usize) -> usize>(p: usize, x: usize, f: &F) -> (out: usize) {
        let at_x = f(x);
        proof {
            lemma_totient_bounds(x as nat);
            lemma_totient_step(p as nat, x as nat);
            assert(at_x * p <= p * x && at_x * p == p * at_x) by (nonlinear_arith)
                requires
                    1 <= at_x <= x,
                    p >= 2,
            ;
        }
        at_x * p
    }

    fn derive_coprime<F: Fn(usize) -> usize>(p: usize, x: usize, f: &F) -> (out: usize) {
        let at_x = f(x);
        let at_p = f(p);
        proof {
            lemma_totient_bounds(x as nat);
            lemma_totient_prime(p as nat);
            lemma_totient_step(p as nat, x as nat);
            assert(at_x * at_p <= p * x && at_x * at_p == (p - 1) * at_x) by (nonlinear_arith)
                requires
                    1 <= at_x <= x,
                    at_p == p - 1,
                    p >= 2,
            ;
        }
        at_x * at_p
    }
}

/// The rule that derives nothing: for a caller who wants the primes only.
impl MulFunc<()> for () {
    open spec fn sound(i: nat, v: ()) -> bool {
        true
    }

    fn one() -> (out: ()) {
        ()
    }

    fn at_prime(p: usize, index: usize) -> (out: ()) {
        ()
    }

    fn derive_divides<F: Fn(usize) -> ()>(p: usize, x: usize, f: &F) -> (out: ()) {
        ()
    }

    fn derive_coprime<F: Fn(usize) -> ()>(p: usize, x: usize, f: &F) -> (out: ()) {
        ()
    }
}

/// Two rules side by side: the values are pairs, and each component is
/// derived by its own rule from the same component of the values read.
impl<T1, T2, F1, F2> MulFunc<(T1, T2)> for (F1, F2) where
    T1: Copy,
    T2: Copy,
    F1: MulFunc<T1>,
    F2: MulFunc<T2>,
 {
    open spec fn sound(i: nat, v: (T1, T2)) -> bool {
        F1::sound(i, v.0) && F2::sound(i, v.1)
    }

    fn one() -> (out: (T1, T2)) {
        (F1::one(), F2::one())
    }

    fn at_prime(p: usize, index: usize) -> (out: (T1, T2)) {
        (F1::at_prime(p, index), F2::at_prime(p, index))
    }

    fn derive_divides<F: Fn(usize) -> (T1, T2)>(p: usize, x: usize, f: &F) -> (out: (T1, T2)) {
        let first = |idx: usize| -> (v: T1)
            requires
                call_requires(f, (idx,)),
            ensures
                exists|w: T2| call_ensures(f, (idx,), (v, w)),
            {
                let both = f(idx);
                assert(call_ensures(f, (idx,), (both.0, both.1)));
                both.0
            };
        let second = |idx: usize| -> (w: T2)
            requires
                call_requires(f, (idx,)),
            ensures
                exists|v: T1| call_ensures(f, (idx,), (v, w)),
            {
                let both = f(idx);
                assert(call_ensures(f, (idx,), (both.0, both.1)));
                both.1
            };
        (F1::derive_divides(p, x, &first), F2::derive_divides(p, x, &second))
    }

    fn derive_coprime<F: Fn(usize) -> (T1, T2)>(p: usize, x: usize, f: &F) -> (out: (T1, T2)) {
        let first = |idx: usize| -> (v: T1)
            requires
                call_requires(f, (idx,)),
            ensures
                exists|w: T2| call_ensures(f, (idx,), (v, w)),
            {
                let both = f(idx);
                assert(call_ensures(f, (idx,), (both.0, both.1)));
                both.0
            };
        let second = |idx: usize| -> (w: T2)
            requires
                call_requires(f, (idx,)),
            ensures
                exists|v: T1| call_ensures(f, (idx,), (v, w)),
            {
                let both = f(idx);
                assert(call_ensures(f, (idx,), (both.0, both.1)));
                both.1
            };
        (F1::derive_coprime(p, x, &first), F2::derive_coprime(p, x, &second))
    }
}

/// Given a positive integer `n`, calculates the prime numbers less than or
/// equal to `n`, in increasing order, and the table of the function that
/// `M` derives, in `O(n)` time.
///
/// Slot 0 of the table holds the default value, slot 1 what the rule gives
/// at 1, and the slot of the `k`-th prime what the rule gives for that
/// prime and `k`.
pub fn euler_sieve<T, M>(n: usize) -> (out: (Vec<usize>, Vec<T>)) where
    T: Default + Copy,
    M: MulFunc<T>,

    requires
        1 <= n < usize::MAX,
    ensures
        forall|k: int| 0 <= k < out.0@.len() ==> is_prime(#[trigger] out.0@[k] as nat) && out.0@[k]
            <= n,
        forall|j: int, k: int| 0 <= j < k < out.0@.len() ==> out.0@[j] < out.0@[k],
        forall|q: usize| 2 <= q <= n && is_prime(q as nat) ==> out.0@.contains(q),
        out.0@.len() == prime_count(n as nat),
        out.1@.len() == n + 1,
        forall|i: int| 1 <= i <= n ==> M::sound(i as nat, #[trigger] out.1@[i]),
        call_ensures(T::default, (), out.1@[0]),
        call_ensures(M::one, (), out.1@[1]),
        forall|k: int|
            0 <= k < out.0@.len() ==> call_ensures(
                M::at_prime,
                (#[trigger] out.0@[k], (k + 1) as usize),
                out.1@[out.0@[k] as int],
            ),
{
    let mut flags: Vec<bool> = Vec::new();
    let mut f: Vec<T> = Vec::new();
    let mut k: usize = 0;
    while k <= n
        invariant
            n < usize::MAX,
            k <= n + 1,
            flags@.len() == k,
            f@.len() == k,
            forall|j: int| 0 <= j < k ==> flags@[j],
            forall|j: int| 0 <= j < k ==> call_ensures(T::default, (), #[trigger] f@[j]),
        decreases n + 1 - k,
    {
        flags.push(true);
        f.push(T::default());
        k += 1;
    }
    let mut primes: Vec<usize> = Vec::new();
    flags.set(0, false);
    flags.set(1, false);
    f.set(1, M::one());
    proof {
        reveal_with_fuel(prime_count, 2);
    }
    let mut i: usize = 2;
    while i <= n
        invariant
            1 <= n < usize::MAX,
            2 <= i <= n + 1,
            flags@.len() == n + 1,
            f@.len() == n + 1,
            primes@.len() == prime_count((i - 1) as nat),
            call_ensures(T::default, (), f@[0]),
            call_ensures(M::one, (), f@[1]),
            forall|k: int|
                0 <= k < primes@.len() ==> call_ensures(
                    M::at_prime,
                    (#[trigger] primes@[k], (k + 1) as usize),
                    f@[primes@[k] as int],
                ),
            !flags@[0],
            !flags@[1],
            forall|k: int| 0 <= k < primes@.len() ==> is_prime(#[trigger] primes@[k] as nat)
                && primes@[k] < i,
            forall|j: int, k: int| 0 <= j < k < primes@.len() ==> primes@[j] < primes@[k],
            forall|q: usize| 2 <= q < i && is_prime(q as nat) ==> primes@.contains(q),
            forall|c: int| 2 <= c <= n && !#[trigger] flags@[c] ==> !is_prime(c as nat),
            marked(flags@, n as nat, i as nat),
            forall|j: int| 1 <= j < i ==> M::sound(j as nat, #[trigger] f@[j]),
            forall|c: int| 2 <= c <= n && !flags@[c] ==> M::sound(c as nat, #[trigger] f@[c]),
        decreases n + 1 - i,
    {
        proof {
            if !is_prime(i as nat) {
                let pair = lemma_composite(i as nat);
                assert(flags@[(pair.0 * pair.1) as int] == false);
            }
        }
        if flags[i] {
            let ghost before = primes@;
            primes.push(i);
            let value = M::at_prime(i, primes.len());
            f.set(i, value);
            proof {
                assert forall|q: usize| 2 <= q < i + 1 && is_prime(q as nat) implies primes@.contains(
                    q,
                ) by {
                    if q < i {
                        let k = choose|k: int| 0 <= k < before.len() && before[k] == q;
                        assert(primes@[k] == q);
                    } else {
                        assert(primes@[before.len() as int] == q);
                    }
                }
            }
        } else {
            proof {
                assert forall|q: usize| 2 <= q < i + 1 && is_prime(q as nat) implies primes@.contains(
                    q,
                ) by {
                    assert(q < i);
                }
            }
        }
        let mut j: usize = 0;
        let mut done = false;
        while j < primes.len() && !done
            invariant
                1 <= n < usize::MAX,
                2 <= i <= n,
                flags@.len() == n + 1,
                f@.len() == n + 1,
                !flags@[0],
                !flags@[1],
                j <= primes@.len(),
                primes@.len() == prime_count(i as nat),
                call_ensures(T::default, (), f@[0]),
                call_ensures(M::one, (), f@[1]),
                forall|k: int|
                    0 <= k < primes@.len() ==> call_ensures(
                        M::at_prime,
                        (#[trigger] primes@[k], (k + 1) as usize),
                        f@[primes@[k] as int],
                    ),
                forall|k: int| 0 <= k < primes@.len() ==> is_prime(#[trigger] primes@[k] as nat)
                    && primes@[k] <= i,
                forall|j: int, k: int| 0 <= j < k < primes@.len() ==> primes@[j] < primes@[k],
                forall|q: usize| 2 <= q <= i && is_prime(q as nat) ==> primes@.contains(q),
                forall|c: int| 2 <= c <= n && !#[trigger] flags@[c] ==> !is_prime(c as nat),
                marked(flags@, n as nat, i as nat),
                forall|j: int| 1 <= j <= i ==> M::sound(j as nat, #[trigger] f@[j]),
                forall|c: int| 2 <= c <= n && !flags@[c] ==> M::sound(c as nat, #[trigger] f@[c]),
                !done ==> forall|k: int|
                    0 <= k < j ==> i % (#[trigger] primes@[k]) != 0 && i * primes@[k] <= n
                        && !flags@[i * primes@[k]],
                done ==> marked(flags@, n as nat, (i + 1) as nat),
            decreases primes@.len() - j + if done {
                    0int
                } else {
                    1int
                },
        {
            let p = primes[j];
            if p > n / i {
                proof {
                    lemma_product_exceeds(i as nat, p as nat, n as nat);
                    lemma_round(flags@, primes@, n as nat, i as nat, j as int);
                }
                done = true;
            } else {
                proof {
                    lemma_product_fits(i as nat, p as nat, n as nat);
                    lemma_not_prime_product(i as nat, p as nat);
                }
                proof {
                    lemma_none_below(primes@, i as nat, j as int);
                }
                flags.set(i * p, false);
                if i % p == 0 {
                    let table = &f;
                    let read = |idx: usize| -> (v: T)
                        requires
                            idx < table@.len(),
                        ensures
                            v == table@[idx as int],
                        { table[idx] };
                    let value = M::derive_divides(p, i, &read);
                    f.set(i * p, value);
                    proof {
                        lemma_round(flags@, primes@, n as nat, i as nat, j + 1);
                    }
                    done = true;
                } else {
                    let table = &f;
                    let read = |idx: usize| -> (v: T)
                        requires
                            idx < table@.len(),
                        ensures
                            v == table@[idx as int],
                        { table[idx] };
                    proof {
                        lemma_mod_self_0(i as int);
                    }
                    let value = M::derive_coprime(p, i, &read);
                    f.set(i * p, value);
                    j += 1;
                }
            }
        }
        proof {
            if !done {
                lemma_round(flags@, primes@, n as nat, i as nat, primes@.len() as int);
            }
        }
        i += 1;
    }
    (primes, f)
}

/// Every product `a * p <= n` of a cofactor `a` below `upto` and a prime
/// `p` that no smaller prime divides `a` has been marked.
pub open spec fn marked(flags: Seq<bool>, n: nat, upto: nat) -> bool {
    forall|a: nat, p: nat|
        2 <= a < upto && is_prime(p) && p <= a && no_prime_below(a, p) && a * p <= n
            ==> !#[trigger] flags[(a * p) as int]
}

/// A product of two numbers above 1 is not prime.
proof fn lemma_not_prime_product(a: nat, p: nat)
    requires
        a >= 2,
        p >= 2,
    ensures
        !is_prime(a * p),
        a * p >= 2,
{
    assert(a * p > a && a * p >= 4) by (nonlinear_arith)
        requires
            a >= 2,
            p >= 2,
    ;
    lemma_mod_multiples_basic(p as int, a as int);
    lemma_mul_is_commutative(p as int, a as int);
    assert((a * p) % a == 0);
}

/// `p <= n / i` means that `i * p` does not exceed `n`.
proof fn lemma_product_fits(i: nat, p: nat, n: nat)
    requires
        i >= 1,
        p <= n / i,
    ensures
        i * p <= n,
{
    lemma_fundamental_div_mod(n as int, i as int);
    assert(i * p <= i * (n / i)) by (nonlinear_arith)
        requires
            p <= n / i,
            i >= 1,
    ;
}

/// `p > n / i` means that `i * p` exceeds `n`.
proof fn lemma_product_exceeds(i: nat, p: nat, n: nat)
    requires
        i >= 1,
        p > n / i,
    ensures
        i * p > n,
{
    lemma_fundamental_div_mod(n as int, i as int);
    assert(i * p >= i * (n / i + 1)) by (nonlinear_arith)
        requires
            p >= n / i + 1,
            i >= 1,
    ;
    assert(i * (n / i + 1) == i * (n / i) + i) by (nonlinear_arith);
}

/// The round of the cofactor `i` is complete once the first `m` primes
/// have been tried, if the primes are exhausted, or the next product
/// exceeds `n`, or the last prime tried divides `i`.
proof fn lemma_round(flags: Seq<bool>, primes: Seq<usize>, n: nat, i: nat, m: int)
    requires
        2 <= i <= n <= usize::MAX,
        flags.len() == n + 1,
        forall|k: int| 0 <= k < primes.len() ==> is_prime(#[trigger] primes[k] as nat) && primes[k]
            <= i,
        forall|j: int, k: int| 0 <= j < k < primes.len() ==> primes[j] < primes[k],
        forall|q: usize| 2 <= q <= i && is_prime(q as nat) ==> primes.contains(q),
        marked(flags, n, i),
        0 <= m <= primes.len(),
        forall|k: int| 0 <= k < m ==> !flags[i * (#[trigger] primes[k])],
        m == primes.len() || i * primes[m] > n || (m >= 1 && i % (primes[m - 1] as nat) == 0),
    ensures
        marked(flags, n, i + 1),
{
    assert forall|a: nat, p: nat|
        2 <= a < i + 1 && is_prime(p) && p <= a && no_prime_below(a, p) && a * p
            <= n implies !#[trigger] flags[(a * p) as int] by {
        if a == i {
            let q = p as usize;
            assert(primes.contains(q));
            let k = choose|k: int| 0 <= k < primes.len() && primes[k] == q;
            if k >= m {
                if i * primes[m] > n {
                    assert(i * primes[k] >= i * primes[m]) by (nonlinear_arith)
                        requires
                            primes[k] >= primes[m],
                    ;
                } else {
                    assert(is_prime(primes[m - 1] as nat));
                    assert(primes[m - 1] < p);
                }
            }
        }
    }
}

/// In a round of the cofactor `i`, no prime below the prime at place `j`
/// divides `i`, when none of the primes before that place does.
proof fn lemma_none_below(primes: Seq<usize>, i: nat, j: int)
    requires
        0 <= j < primes.len(),
        forall|k: int| 0 <= k < primes.len() ==> is_prime(#[trigger] primes[k] as nat) && primes[k]
            <= i,
        forall|a: int, b: int| 0 <= a < b < primes.len() ==> primes[a] < primes[b],
        forall|q: usize| 2 <= q <= i && is_prime(q as nat) ==> primes.contains(q),
        forall|k: int| 0 <= k < j ==> i % (#[trigger] primes[k] as nat) != 0,
        i <= usize::MAX,
    ensures
        no_prime_below(i, primes[j] as nat),
{
    assert forall|q: nat| q < primes[j] && is_prime(q) implies #[trigger] (i % q) != 0 by {
        let small = q as usize;
        assert(primes.contains(small));
        let k = choose|k: int| 0 <= k < primes.len() && primes[k] == small;
        if k >= j {
            if k > j {
                assert(primes[j] < primes[k]);
            }
        }
        assert(i % (primes[k] as nat) != 0);
    }
}

} // verus!
