//! Alignment arithmetic: rounding an address up to a boundary, the
//! power-of-two predicate for alignments, and divisibility facts.

use vstd::prelude::*;

verus! {

use vstd::arithmetic::div_mod::{
    lemma_fundamental_div_mod, lemma_fundamental_div_mod_converse,
    lemma_mod_division_less_than_divisor, lemma_mod_multiples_basic,
    lemma_div_is_ordered_by_denominator,
};

/// `x` rounded up to the next multiple of `a`.
#[verifier::opaque]
pub open spec fn round_up(x: int, a: int) -> int {
    ((x + a - 1) / a) * a
}

/// `n` is a power of two.
pub open spec fn is_pow2(n: int) -> bool
    decreases n,
{
    if n <= 0 {
        false
    } else if n == 1 {
        true
    } else {
        n % 2 == 0 && is_pow2(n / 2)
    }
}

/// The basic facts about rounding up: the result is a multiple of `a` and
/// lies in `[x, x + a)`.
pub proof fn lemma_round_up(x: int, a: int)
    requires
        x >= 0,
        a >= 1,
    ensures
        round_up(x, a) % a == 0,
        x <= round_up(x, a) < x + a,
{
    reveal(round_up);
    lemma_fundamental_div_mod(x + a - 1, a);
    lemma_mod_division_less_than_divisor(x + a - 1, a);
    let q = (x + a - 1) / a;
    let r = (x + a - 1) % a;
    assert(q * a == a * q) by (nonlinear_arith);
    assert(q * a == x + a - 1 - r);
    lemma_mod_multiples_basic(q, a);
}

/// Rounding up a multiple of `a` leaves it unchanged.
pub proof fn lemma_round_up_exact(x: int, a: int)
    requires
        x >= 0,
        a >= 1,
        x % a == 0,
    ensures
        round_up(x, a) == x,
{
    reveal(round_up);
    lemma_fundamental_div_mod(x, a);
    let q = x / a;
    assert(q * a == a * q) by (nonlinear_arith);
    assert(x + a - 1 == q * a + (a - 1));
    lemma_fundamental_div_mod_converse(x + a - 1, a, q, a - 1);
    assert(round_up(x, a) == q * a);
}

/// When `x` is not a multiple of `a`, rounding up lands on the next
/// quotient step.
pub proof fn lemma_round_up_step(x: int, a: int)
    requires
        x >= 0,
        a >= 1,
        x % a != 0,
    ensures
        round_up(x, a) == (x / a + 1) * a,
{
    reveal(round_up);
    lemma_fundamental_div_mod(x, a);
    lemma_mod_division_less_than_divisor(x, a);
    let q = x / a;
    let r = x % a;
    assert(x + a - 1 == (q + 1) * a + (r - 1)) by {
        assert((q + 1) * a == a * q + a) by (nonlinear_arith);
    }
    lemma_fundamental_div_mod_converse(x + a - 1, a, q + 1, r - 1);
}

/// Divisibility is transitive: a multiple of `a` is a multiple of every
/// divisor of `a`.
pub proof fn lemma_divides_transitive(p: int, a: int, b: int)
    requires
        a >= 1,
        b >= 1,
        p % a == 0,
        a % b == 0,
    ensures
        p % b == 0,
{
    lemma_fundamental_div_mod(p, a);
    lemma_fundamental_div_mod(a, b);
    let k = p / a;
    let m = a / b;
    assert(p == (m * k) * b) by (nonlinear_arith)
        requires p == a * k && a == b * m;
    lemma_mod_multiples_basic(m * k, b);
}

/// The sum and difference of two multiples of `m` are multiples of `m`.
pub proof fn lemma_multiple_diff(x: int, y: int, m: int)
    requires
        m >= 1,
        x % m == 0,
        y % m == 0,
    ensures
        (x - y) % m == 0,
        (x + y) % m == 0,
{
    lemma_fundamental_div_mod(x, m);
    lemma_fundamental_div_mod(y, m);
    let i = x / m;
    let j = y / m;
    assert(x - y == (i - j) * m && x + y == (i + j) * m) by (nonlinear_arith)
        requires x == m * i && y == m * j;
    lemma_mod_multiples_basic(i - j, m);
    lemma_mod_multiples_basic(i + j, m);
}

/// A positive multiple of `m` is at least `m`.
pub proof fn lemma_multiple_ge(x: int, m: int)
    requires
        m >= 1,
        x > 0,
        x % m == 0,
    ensures
        x >= m,
{
    lemma_fundamental_div_mod(x, m);
    let q = x / m;
    assert(x >= m) by (nonlinear_arith)
        requires x == m * q && x > 0 && m >= 1;
}

/// A power of two no greater than 8 is 1, 2, 4 or 8.
pub proof fn lemma_pow2_small(n: int)
    requires
        is_pow2(n),
        n <= 8,
    ensures
        n == 1 || n == 2 || n == 4 || n == 8,
    decreases n,
{
    if n > 1 {
        lemma_fundamental_div_mod(n, 2);
        lemma_pow2_small(n / 2);
    }
}

/// A multiple of 8 that fits in `usize` is at most `usize::MAX - 7`.
pub proof fn lemma_multiple_of_8_below_max(x: int)
    requires
        0 <= x <= usize::MAX,
        x % 8 == 0,
    ensures
        x <= usize::MAX - 7,
{
    lemma_fundamental_div_mod(x, 8);
    let q = x / 8;
    assert(x <= usize::MAX - 7) by (nonlinear_arith)
        requires x == 8 * q && x <= usize::MAX;
}

/// A power of two that is at least 8 is a multiple of 8.
pub proof fn lemma_pow2_large_divisible(n: int)
    requires
        is_pow2(n),
        n >= 8,
    ensures
        n % 8 == 0,
    decreases n,
{
    if n <= 8 {
        lemma_pow2_small(n);
    } else {
        lemma_fundamental_div_mod(n, 2);
        if is_pow2(n / 2) && n / 2 <= 8 {
            lemma_pow2_small(n / 2);
        }
        lemma_pow2_large_divisible(n / 2);
        lemma_fundamental_div_mod(n / 2, 8);
        let m = (n / 2) / 8;
        assert(n == (2 * m) * 8) by (nonlinear_arith)
            requires n == 2 * (n / 2) && n / 2 == 8 * m;
        lemma_mod_multiples_basic(2 * m, 8);
    }
}

/// A power of two divides 8 or is divided by 8.
pub proof fn lemma_pow2_vs_8(n: int)
    requires
        is_pow2(n),
    ensures
        n < 8 ==> 8int % n == 0,
        n >= 8 ==> n % 8 == 0,
{
    if n < 8 {
        lemma_pow2_small(n);
    } else {
        lemma_pow2_large_divisible(n);
    }
}

/// Rounds `x` up to a multiple of `a`, reporting `None` when the result
/// would not fit in `usize`.
pub fn try_round_up(x: usize, a: usize) -> (r: Option<usize>)
    requires
        a >= 1,
    ensures
        match r {
            Some(v) => v == round_up(x as int, a as int),
            None => round_up(x as int, a as int) > usize::MAX,
        },
{
    if x % a == 0 {
        proof {
            lemma_round_up_exact(x as int, a as int);
        }
        Some(x)
    } else {
        let q = x / a;
        proof {
            lemma_round_up_step(x as int, a as int);
            assert(a >= 2) by {
                if a == 1 {
                    lemma_fundamental_div_mod(x as int, 1);
                    lemma_mod_multiples_basic(x as int, 1);
                }
            }
            lemma_div_is_ordered_by_denominator(x as int, 2, a as int);
            lemma_fundamental_div_mod(x as int, 2);
            lemma_mod_division_less_than_divisor(x as int, 2);
            assert(q < usize::MAX);
        }
        match (q + 1).checked_mul(a) {
            Some(v) => Some(v),
            None => None,
        }
    }
}

} // verus!
