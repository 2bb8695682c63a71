//! Round-to-nearest integer division (half rounds up), used for
//! percentages and for partition-normalised counts. All operands are
//! non-negative, so half-up coincides with round-half-away-from-zero.

use vstd::prelude::*;
use vstd::arithmetic::div_mod::{lemma_fundamental_div_mod, lemma_fundamental_div_mod_converse,
    lemma_div_is_ordered};
use vstd::arithmetic::mul::lemma_mul_inequality;

verus! {

/// round(n / d) with ties away from zero, for n >= 0, d > 0.
pub open spec fn round_div(n: int, d: int) -> int
    recommends
        n >= 0,
        d > 0,
{
    (2 * n + d) / (2 * d)
}

/// Splitting the numerator at a multiple of the divisor: the quotient
/// contributes exactly, the remainder decides the rounding.
pub proof fn lemma_round_div_decompose(q: int, r: int, d: int)
    requires
        d > 0,
        0 <= q,
        0 <= r < d,
    ensures
        round_div(q * d + r, d) == q + if 2 * r >= d {
            1int
        } else {
            0int
        },
{
    let x = 2 * (q * d + r) + d;
    if 2 * r < d {
        assert(2 * (q * d + r) + d == q * (2 * d) + (2 * r + d)) by (nonlinear_arith);
        lemma_fundamental_div_mod_converse(x, 2 * d, q, 2 * r + d);
    } else {
        assert(2 * (q * d + r) + d == (q + 1) * (2 * d) + (2 * r - d)) by (nonlinear_arith);
        lemma_fundamental_div_mod_converse(x, 2 * d, q + 1, 2 * r - d);
    }
}

/// Whole multiples round to themselves.
pub proof fn lemma_round_div_exact(a: int, d: int)
    requires
        d > 0,
        0 <= a,
    ensures
        round_div(a * d, d) == a,
{
    lemma_round_div_decompose(a, 0, d);
    assert(a * d + 0 == a * d);
}

/// Rounding can never exceed a bound that the exact quotient meets.
pub proof fn lemma_round_div_le(n: int, d: int, a: int)
    requires
        d > 0,
        0 <= n,
        0 <= a,
        n <= a * d,
    ensures
        round_div(n, d) <= a,
{
    lemma_round_div_exact(a, d);
    lemma_div_is_ordered(2 * n + d, 2 * (a * d) + d, 2 * d);
}

pub proof fn lemma_round_div_nonneg(n: int, d: int)
    requires
        d > 0,
        0 <= n,
    ensures
        round_div(n, d) >= 0,
{
    lemma_fundamental_div_mod(2 * n + d, 2 * d);
    lemma_div_is_ordered(0, 2 * n + d, 2 * d);
    assert(0int / (2 * d) == 0) by {
        lemma_fundamental_div_mod_converse(0, 2 * d, 0, 0);
    }
}

/// A prevalence percentage lies in [0, 100] whenever the hit count does
/// not exceed the row count.
pub proof fn lemma_percentage_bounds(hits: int, out_of: int)
    requires
        0 <= hits <= out_of,
        out_of > 0,
    ensures
        0 <= round_div(100 * hits, out_of) <= 100,
{
    lemma_round_div_nonneg(100 * hits, out_of);
    lemma_mul_inequality(hits, out_of, 100);
    assert(100 * hits <= 100 * out_of) by (nonlinear_arith)
        requires
            hits <= out_of,
    ;
    lemma_round_div_le(100 * hits, out_of, 100);
}

/// Executable rounded percentage: round(100 * hits / out_of).
pub fn percent_of(hits: u64, out_of: u64) -> (r: u64)
    requires
        out_of > 0,
        hits <= out_of,
    ensures
        r as int == round_div(100 * hits as int, out_of as int),
        r <= 100,
{
    let n: u128 = 100u128 * (hits as u128);
    let d: u128 = out_of as u128;
    let q = n / d;
    let rem = n % d;
    proof {
        lemma_fundamental_div_mod(n as int, d as int);
        lemma_round_div_decompose(q as int, rem as int, d as int);
        lemma_percentage_bounds(hits as int, out_of as int);
        assert(q as int * d as int + rem as int == 100 * hits as int);
    }
    if 2 * rem >= d {
        (q + 1) as u64
    } else {
        q as u64
    }
}

} // verus!
