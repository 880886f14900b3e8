//! Integer layout arithmetic: rounding division, alignment and mixed-radix
//! digits.
use vstd::arithmetic::div_mod::{
    lemma_div_is_ordered, lemma_fundamental_div_mod, lemma_fundamental_div_mod_converse,
};
use vstd::arithmetic::mul::lemma_mul_inequality;
use vstd::prelude::*;

verus! {

/// `a / b` rounded up.
pub open spec fn spec_div_round_up(a: int, b: int) -> int {
    (a + b - 1) / b
}

/// `a` rounded up to a multiple of `b`.
pub open spec fn spec_align_up(a: int, b: int) -> int {
    spec_div_round_up(a, b) * b
}

/// `x / d` rounded up, without overflow for any `x`.
pub fn div_round_up(x: usize, d: usize) -> (r: usize)
    requires
        d > 0,
    ensures
        r == spec_div_round_up(x as int, d as int),
{
    let q = x / d;
    let r = x % d;
    proof {
        lemma_fundamental_div_mod(x as int, d as int);
        assert(q * d == d * q) by (nonlinear_arith);
        if r != 0 {
            assert(q < usize::MAX) by (nonlinear_arith)
                requires
                    x == d * q + r,
                    0 < r < d,
                    x <= usize::MAX,
            ;
        }
        if r == 0 {
            lemma_fundamental_div_mod_converse(x + d - 1, d as int, q as int, d - 1);
        } else {
            assert((q + 1) * d == q * d + d) by (nonlinear_arith);
            lemma_fundamental_div_mod_converse(x + d - 1, d as int, q + 1, r - 1);
        }
    }
    if r == 0 {
        q
    } else {
        q + 1
    }
}

/// Basic facts on rounded-up division by a positive number.
pub proof fn lemma_div_round_up(a: int, b: int)
    requires
        a >= 0,
        b > 0,
    ensures
        spec_div_round_up(a, b) >= 0,
        spec_div_round_up(a, b) * b >= a,
        spec_div_round_up(a, b) * b < a + b,
        a > 0 ==> spec_div_round_up(a, b) >= 1,
        a == 0 ==> spec_div_round_up(a, b) == 0,
        spec_div_round_up(a, b) <= a || b == 1 || a == 0,
{
    let q = spec_div_round_up(a, b);
    lemma_fundamental_div_mod(a + b - 1, b);
    assert(b * q == q * b) by (nonlinear_arith);
    lemma_div_is_ordered(0, a + b - 1, b);
    if a == 0 {
        lemma_fundamental_div_mod_converse(b - 1, b, 0, b - 1);
    }
    if a > 0 {
        lemma_div_is_ordered(b, a + b - 1, b);
        lemma_fundamental_div_mod_converse(b, b, 1, 0);
    }
    assert(q <= a || b == 1 || a == 0) by (nonlinear_arith)
        requires
            b > 0,
            a >= 0,
            q * b + (a + b - 1) % b == a + b - 1,
            0 <= (a + b - 1) % b < b,
    ;
}

/// Rounding a multiple of `b` plus `c` up to a multiple of `b`
/// keeps the multiple.
pub proof fn lemma_align_up_shift(k: int, b: int, c: int)
    requires
        k >= 0,
        b > 0,
        c >= 0,
    ensures
        spec_align_up(k * b + c, b) == k * b + spec_align_up(c, b),
        spec_align_up(k * b, b) == k * b,
{
    let q = spec_div_round_up(c, b);
    lemma_fundamental_div_mod(c + b - 1, b);
    assert(b * q == q * b) by (nonlinear_arith);
    assert(k * b + c + b - 1 == (k + q) * b + (c + b - 1) % b) by (nonlinear_arith)
        requires
            c + b - 1 == q * b + (c + b - 1) % b,
    ;
    lemma_fundamental_div_mod_converse(k * b + c + b - 1, b, k + q, (c + b - 1) % b);
    assert((k + q) * b == k * b + q * b) by (nonlinear_arith);
    lemma_fundamental_div_mod_converse(k * b + b - 1, b, k, b - 1);
}

/// A digit `a` below `m` appended to `q`: the quotient and remainder give
/// them back, and the number stays below `n * m` when `q < n`.
pub proof fn lemma_digit(q: int, m: int, a: int, n: int)
    requires
        m > 0,
        0 <= a < m,
        0 <= q < n,
    ensures
        (q * m + a) / m == q,
        (q * m + a) % m == a,
        0 <= q * m + a < n * m,
{
    lemma_fundamental_div_mod_converse(q * m + a, m, q, a);
    lemma_mul_inequality(q + 1, n, m);
    assert((q + 1) * m == q * m + m) by (nonlinear_arith);
    assert(q * m >= 0) by (nonlinear_arith)
        requires
            q >= 0,
            m > 0,
    ;
}

/// Splitting a number below `n * m` into its last digit in base `m` and the
/// rest: the rest is below `n`.
pub proof fn lemma_split(p: int, m: int, n: int)
    requires
        m > 0,
        0 <= p < n * m,
    ensures
        p == (p / m) * m + p % m,
        0 <= p % m < m,
        0 <= p / m < n,
{
    lemma_fundamental_div_mod(p, m);
    assert(m * (p / m) == (p / m) * m) by (nonlinear_arith);
    assert(0 <= p / m < n) by (nonlinear_arith)
        requires
            m > 0,
            0 <= p < n * m,
            p == (p / m) * m + p % m,
            0 <= p % m < m,
    ;
}

} // verus!
