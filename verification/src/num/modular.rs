//! Two's-complement arithmetic as arithmetic modulo a power of two.
//!
//! The wrapping operations of the machine integers compute in the ring of
//! integers modulo `2^bits`. The lemmas here let callers reason in that ring:
//! two integers that differ by a multiple of the modulus wrap to the same
//! machine value.
use vstd::prelude::*;
use vstd::arithmetic::div_mod::{
    lemma_fundamental_div_mod,
    lemma_fundamental_div_mod_converse,
    lemma_mod_bound,
    lemma_mod_equivalence,
    lemma_mod_multiples_vanish,
    lemma_small_mod,
};

verus! {

/// The representative of `x` modulo `m` in the half-open window
/// `[-m/2, m/2)`.
pub open spec fn centered(x: int, m: int) -> int {
    let r = x % m;
    if 2 * r >= m {
        r - m
    } else {
        r
    }
}

/// `x` and `y` differ by a multiple of `m`.
pub open spec fn congruent(x: int, y: int, m: int) -> bool {
    (x - y) % m == 0
}

/// Congruent integers have the same centered representative.
pub proof fn lemma_centered_congruent(x: int, y: int, m: int)
    requires
        m > 0,
        congruent(x, y, m),
    ensures
        centered(x, m) == centered(y, m),
{
    lemma_mod_equivalence(x, y, m);
}

/// The centered representative is congruent to the number it represents and
/// lies in the window.
pub proof fn lemma_centered_is_representative(x: int, m: int)
    requires
        m > 0,
    ensures
        congruent(centered(x, m), x, m),
        -m <= 2 * centered(x, m) < m,
{
    lemma_mod_bound(x, m);
    lemma_fundamental_div_mod(x, m);
    let r = x % m;
    let q = x / m;
    if 2 * r >= m {
        assert(r - m - x == m * (-q - 1)) by (nonlinear_arith)
            requires
                x == m * q + r,
        ;
        lemma_mod_multiples_vanish(-q - 1, 0, m);
        assert((m * (-q - 1)) % m == 0) by {
            assert(m * (-q - 1) == m * (-q - 1) + 0);
            lemma_small_mod(0, m as nat);
        }
    } else {
        assert(r - x == m * (-q)) by (nonlinear_arith)
            requires
                x == m * q + r,
        ;
        lemma_mod_multiples_vanish(-q, 0, m);
        assert((m * (-q)) % m == 0) by {
            assert(m * (-q) == m * (-q) + 0);
            lemma_small_mod(0, m as nat);
        }
    }
}

/// A number already in the window is its own representative.
pub proof fn lemma_centered_fixed(x: int, m: int)
    requires
        m > 0,
        -m <= 2 * x < m,
    ensures
        centered(x, m) == x,
{
    if x >= 0 {
        lemma_small_mod(x as nat, m as nat);
    } else {
        lemma_fundamental_div_mod_converse(x, m, -1, x + m);
    }
}

/// Congruence is preserved by adding congruent numbers.
pub proof fn lemma_congruent_add(a: int, b: int, c: int, d: int, m: int)
    requires
        m > 0,
        congruent(a, b, m),
        congruent(c, d, m),
    ensures
        congruent(a + c, b + d, m),
{
    lemma_multiple(a - b, m);
    lemma_multiple(c - d, m);
    let k1 = (a - b) / m;
    let k2 = (c - d) / m;
    assert((a + c) - (b + d) == m * (k1 + k2)) by (nonlinear_arith)
        requires
            a - b == m * k1,
            c - d == m * k2,
    ;
    lemma_is_multiple(k1 + k2, m);
}

/// Congruence is preserved by multiplying congruent numbers.
pub proof fn lemma_congruent_mul(a: int, b: int, c: int, d: int, m: int)
    requires
        m > 0,
        congruent(a, b, m),
        congruent(c, d, m),
    ensures
        congruent(a * c, b * d, m),
{
    lemma_multiple(a - b, m);
    lemma_multiple(c - d, m);
    let k1 = (a - b) / m;
    let k2 = (c - d) / m;
    assert(a * c - b * d == m * (k1 * c + b * k2)) by (nonlinear_arith)
        requires
            a - b == m * k1,
            c - d == m * k2,
    ;
    lemma_is_multiple(k1 * c + b * k2, m);
}

/// Congruence is symmetric.
pub proof fn lemma_congruent_sym(a: int, b: int, m: int)
    requires
        m > 0,
        congruent(a, b, m),
    ensures
        congruent(b, a, m),
{
    lemma_multiple(a - b, m);
    let k = (a - b) / m;
    assert(b - a == m * (-k)) by (nonlinear_arith)
        requires
            a - b == m * k,
    ;
    lemma_is_multiple(-k, m);
}

/// Congruence is transitive.
pub proof fn lemma_congruent_trans(a: int, b: int, c: int, m: int)
    requires
        m > 0,
        congruent(a, b, m),
        congruent(b, c, m),
    ensures
        congruent(a, c, m),
{
    lemma_congruent_add(a, b, b, c, m);
    lemma_congruent_refl(-b, m);
    lemma_congruent_add(a + b, b + c, -b, -b, m);
}

/// Congruence is preserved by subtracting congruent numbers.
pub proof fn lemma_congruent_sub(a: int, b: int, c: int, d: int, m: int)
    requires
        m > 0,
        congruent(a, b, m),
        congruent(c, d, m),
    ensures
        congruent(a - c, b - d, m),
{
    lemma_congruent_sym(c, d, m);
    assert((-c) - (-d) == d - c);
    lemma_congruent_add(a, b, -c, -d, m);
}

/// Every number is congruent to itself.
pub proof fn lemma_congruent_refl(a: int, m: int)
    requires
        m > 0,
    ensures
        congruent(a, a, m),
{
    lemma_small_mod(0, m as nat);
}

/// A number whose remainder is zero is the modulus times its quotient.
proof fn lemma_multiple(d: int, m: int)
    requires
        m > 0,
        d % m == 0,
    ensures
        d == m * (d / m),
{
    lemma_fundamental_div_mod(d, m);
}

/// A multiple of the modulus has remainder zero.
proof fn lemma_is_multiple(k: int, m: int)
    requires
        m > 0,
    ensures
        (m * k) % m == 0,
{
    lemma_mod_multiples_vanish(k, 0, m);
    lemma_small_mod(0, m as nat);
    assert(m * k + 0 == m * k);
}

/// The number of values of `i64`: the modulus of its wrapping arithmetic.
pub open spec fn modulus_i64() -> int {
    0x1_0000_0000_0000_0000
}

/// The `i64` that is congruent to `x` modulo the number of `i64` values.
/// For an `x` in the range of `i64` this is `x` itself.
pub open spec fn wrap_i64(x: int) -> i64 {
    centered(x, modulus_i64()) as i64
}

/// `wrap_i64(x)` is congruent to `x`, and a `i64` wraps to itself.
pub proof fn lemma_wrap_i64(x: int)
    ensures
        congruent(wrap_i64(x) as int, x, modulus_i64()),
        i64::MIN <= x <= i64::MAX ==> wrap_i64(x) == x,
{
    lemma_centered_is_representative(x, modulus_i64());
    if i64::MIN <= x <= i64::MAX {
        lemma_centered_fixed(x, modulus_i64());
    }
}

/// Congruent integers wrap to the same `i64`.
pub proof fn lemma_wrap_i64_congruent(x: int, y: int)
    requires
        congruent(x, y, modulus_i64()),
    ensures
        wrap_i64(x) == wrap_i64(y),
{
    lemma_centered_congruent(x, y, modulus_i64());
}

/// Addition modulo the number of `i64` values.
pub fn wrapping_add_i64(a: i64, b: i64) -> (out: i64)
    ensures
        out == wrap_i64(a + b),
{
    proof {
        let m = modulus_i64();
        if a + b > i64::MAX {
            lemma_fundamental_div_mod_converse(a + b, m, 0, a + b);
        } else if a + b < i64::MIN {
            lemma_fundamental_div_mod_converse(a + b, m, -1, a + b + m);
        } else {
            lemma_centered_fixed(a + b, m);
        }
    }
    a.wrapping_add(b)
}

/// Subtraction modulo the number of `i64` values.
pub fn wrapping_sub_i64(a: i64, b: i64) -> (out: i64)
    ensures
        out == wrap_i64(a - b),
{
    proof {
        let m = modulus_i64();
        if a - b > i64::MAX {
            lemma_fundamental_div_mod_converse(a - b, m, 0, a - b);
        } else if a - b < i64::MIN {
            lemma_fundamental_div_mod_converse(a - b, m, -1, a - b + m);
        } else {
            lemma_centered_fixed(a - b, m);
        }
    }
    a.wrapping_sub(b)
}

/// Multiplication modulo the number of `i64` values.
pub fn wrapping_mul_i64(a: i64, b: i64) -> (out: i64)
    ensures
        out == wrap_i64(a * b),
{
    a.wrapping_mul(b)
}

/// The `i64` congruent to a length.
pub fn wrapped_len_i64(len: usize) -> (out: i64)
    ensures
        out == wrap_i64(len as int),
{
    let wide: u64 = len as u64;
    let half: u64 = 0x7fff_ffff_ffff_ffff;
    if wide <= half {
        proof {
            lemma_centered_fixed(len as int, modulus_i64());
        }
        wide as i64
    } else {
        let low: i64 = (wide - half - 1) as i64;
        proof {
            lemma_centered_fixed(len - modulus_i64(), modulus_i64());
            lemma_is_multiple(1, modulus_i64());
            lemma_centered_congruent(len as int, len - modulus_i64(), modulus_i64());
        }
        low + i64::MIN
    }
}

/// The number of values of `isize`: the modulus of its wrapping arithmetic.
pub open spec fn modulus_isize() -> int {
    usize::MAX + 1
}

/// The `isize` that is congruent to `x` modulo the number of `isize` values.
/// For an `x` in the range of `isize` this is `x` itself.
pub open spec fn wrap_isize(x: int) -> isize {
    centered(x, modulus_isize()) as isize
}

/// `wrap_isize(x)` is congruent to `x`, and a `isize` wraps to itself.
pub proof fn lemma_wrap_isize(x: int)
    ensures
        congruent(wrap_isize(x) as int, x, modulus_isize()),
        isize::MIN <= x <= isize::MAX ==> wrap_isize(x) == x,
{
    lemma_centered_is_representative(x, modulus_isize());
    if isize::MIN <= x <= isize::MAX {
        lemma_centered_fixed(x, modulus_isize());
    }
}

/// Congruent integers wrap to the same `isize`.
pub proof fn lemma_wrap_isize_congruent(x: int, y: int)
    requires
        congruent(x, y, modulus_isize()),
    ensures
        wrap_isize(x) == wrap_isize(y),
{
    lemma_centered_congruent(x, y, modulus_isize());
}

/// Addition modulo the number of `isize` values.
pub fn wrapping_add_isize(a: isize, b: isize) -> (out: isize)
    ensures
        out == wrap_isize(a + b),
{
    proof {
        let m = modulus_isize();
        if a + b > isize::MAX {
            lemma_fundamental_div_mod_converse(a + b, m, 0, a + b);
        } else if a + b < isize::MIN {
            lemma_fundamental_div_mod_converse(a + b, m, -1, a + b + m);
        } else {
            lemma_centered_fixed(a + b, m);
        }
    }
    a.wrapping_add(b)
}

/// Subtraction modulo the number of `isize` values.
pub fn wrapping_sub_isize(a: isize, b: isize) -> (out: isize)
    ensures
        out == wrap_isize(a - b),
{
    proof {
        let m = modulus_isize();
        if a - b > isize::MAX {
            lemma_fundamental_div_mod_converse(a - b, m, 0, a - b);
        } else if a - b < isize::MIN {
            lemma_fundamental_div_mod_converse(a - b, m, -1, a - b + m);
        } else {
            lemma_centered_fixed(a - b, m);
        }
    }
    a.wrapping_sub(b)
}

/// Multiplication modulo the number of `isize` values.
pub fn wrapping_mul_isize(a: isize, b: isize) -> (out: isize)
    ensures
        out == wrap_isize(a * b),
{
    a.wrapping_mul(b)
}

/// The `isize` congruent to a length.
pub fn wrapped_len_isize(len: usize) -> (out: isize)
    ensures
        out == wrap_isize(len as int),
{
    let wide: usize = len as usize;
    let half: usize = usize::MAX / 2;
    if wide <= half {
        proof {
            lemma_centered_fixed(len as int, modulus_isize());
        }
        wide as isize
    } else {
        let low: isize = (wide - half - 1) as isize;
        proof {
            lemma_centered_fixed(len - modulus_isize(), modulus_isize());
            lemma_is_multiple(1, modulus_isize());
            lemma_centered_congruent(len as int, len - modulus_isize(), modulus_isize());
        }
        low + isize::MIN
    }
}

} // verus!
