//! Constant-product swap pricing.
use vstd::prelude::*;
use vstd::arithmetic::div_mod::{lemma_div_is_ordered, lemma_fundamental_div_mod};

verus! {

/// A fee is expressed in millionths of the input amount.
pub const FEE_SCALE: u32 = 1_000_000;

/// The input that reaches the curve once the fee is taken off, rounded down.
pub open spec fn effective_input(input: int, fee: int) -> int {
    input * (FEE_SCALE - fee) / (FEE_SCALE as int)
}

/// Output of a constant-product swap: `eff * reserve_out / (reserve_in + eff)`,
/// rounded down, with `eff` the effective input. `None` when the divisor is
/// zero: there is no usable price then.
pub open spec fn swap_output(input: int, reserve_in: int, reserve_out: int, fee: int) -> Option<int> {
    let eff = effective_input(input, fee);
    if reserve_in + eff == 0 {
        None
    } else {
        Some(eff * reserve_out / (reserve_in + eff))
    }
}

/// An optional machine amount, seen as an optional integer.
pub open spec fn opt_amount(r: Option<u64>) -> Option<int> {
    match r {
        Some(v) => Some(v as int),
        None => None,
    }
}

proof fn lemma_effective_input_bounds(input: int, fee: int)
    requires
        0 <= input,
        0 <= fee < FEE_SCALE,
    ensures
        0 <= effective_input(input, fee) <= input,
{
    assert(0 <= input * (FEE_SCALE - fee) <= input * (FEE_SCALE as int)) by (nonlinear_arith)
        requires 0 <= input, 0 <= fee < FEE_SCALE;
    lemma_div_is_ordered(0, input * (FEE_SCALE - fee), FEE_SCALE as int);
    lemma_div_is_ordered(input * (FEE_SCALE - fee), input * (FEE_SCALE as int), FEE_SCALE as int);
    assert(input * (FEE_SCALE as int) / (FEE_SCALE as int) == input) by (nonlinear_arith);
}

proof fn lemma_effective_input_monotone(x: int, y: int, fee: int)
    requires
        0 <= x <= y,
        0 <= fee < FEE_SCALE,
    ensures
        effective_input(x, fee) <= effective_input(y, fee),
{
    assert(x * (FEE_SCALE - fee) <= y * (FEE_SCALE - fee)) by (nonlinear_arith)
        requires 0 <= x <= y, 0 <= fee < FEE_SCALE;
    lemma_div_is_ordered(x * (FEE_SCALE - fee), y * (FEE_SCALE - fee), FEE_SCALE as int);
}

/// A quotient rounded down is at least any `q` with `q * d <= n`.
proof fn lemma_below_quotient(q: int, n: int, d: int)
    requires
        0 < d,
        0 <= q,
        q * d <= n,
    ensures
        q <= n / d,
{
    lemma_fundamental_div_mod(n, d);
    if q > n / d {
        assert(q * d >= (n / d + 1) * d) by (nonlinear_arith)
            requires q > n / d, 0 < d;
        assert((n / d + 1) * d == d * (n / d) + d) by (nonlinear_arith);
    }
}

proof fn lemma_quotient_below(n: int, d: int, m: int)
    requires
        0 < d,
        0 <= n < m * d,
    ensures
        n / d < m,
{
    lemma_fundamental_div_mod(n, d);
    if n / d >= m {
        assert(d * (n / d) >= d * m) by (nonlinear_arith)
            requires n / d >= m, 0 < d;
        assert(d * m == m * d) by (nonlinear_arith);
    }
}

/// The effective input stays below the divisor's bound, so the product
/// `eff * reserve_out` fits in 128 bits and the result is at most `reserve_out`.
proof fn lemma_output_at_most_reserve(eff: int, reserve_in: int, reserve_out: int)
    requires
        0 <= eff,
        0 <= reserve_in,
        0 <= reserve_out,
        0 < reserve_in + eff,
    ensures
        eff * reserve_out / (reserve_in + eff) <= reserve_out,
{
    assert(eff * reserve_out < (reserve_out + 1) * (reserve_in + eff)) by (nonlinear_arith)
        requires 0 <= eff, 0 <= reserve_in, 0 <= reserve_out, 0 < reserve_in + eff;
    assert(eff * reserve_out >= 0) by (nonlinear_arith)
        requires 0 <= eff, 0 <= reserve_out;
    lemma_quotient_below(eff * reserve_out, reserve_in + eff, reserve_out + 1);
}

/// With positive reserves the output always exists and stays strictly below
/// `reserve_out`.
pub proof fn lemma_output_below_reserve(input: int, reserve_in: int, reserve_out: int, fee: int)
    requires
        0 <= input,
        0 < reserve_in,
        0 < reserve_out,
        0 <= fee < FEE_SCALE,
    ensures
        swap_output(input, reserve_in, reserve_out, fee) is Some,
        swap_output(input, reserve_in, reserve_out, fee).unwrap() < reserve_out,
{
    lemma_effective_input_bounds(input, fee);
    let eff = effective_input(input, fee);
    assert(0 <= eff * reserve_out < reserve_out * (reserve_in + eff)) by (nonlinear_arith)
        requires 0 <= eff, 0 < reserve_in, 0 < reserve_out;
    lemma_quotient_below(eff * reserve_out, reserve_in + eff, reserve_out);
}

/// Swapping nothing gives nothing.
pub proof fn lemma_output_of_zero(reserve_in: int, reserve_out: int, fee: int)
    requires
        0 < reserve_in,
        0 <= reserve_out,
        0 <= fee < FEE_SCALE,
    ensures
        swap_output(0, reserve_in, reserve_out, fee) == Some(0int),
{
    assert(0 * (FEE_SCALE - fee) == 0);
    assert(effective_input(0, fee) == 0);
}

/// The unrounded curve `eff * reserve_out / (reserve_in + eff)` is strictly
/// increasing in the effective input: for `e1 < e2` the first fraction is
/// strictly smaller than the second (compared by cross-multiplying).
pub proof fn lemma_curve_strictly_increasing(e1: int, e2: int, reserve_in: int, reserve_out: int)
    requires
        0 <= e1 < e2,
        0 < reserve_in,
        0 < reserve_out,
    ensures
        e1 * reserve_out * (reserve_in + e2) < e2 * reserve_out * (reserve_in + e1),
{
    assert(e1 * reserve_out * (reserve_in + e2) < e2 * reserve_out * (reserve_in + e1))
        by (nonlinear_arith)
        requires 0 <= e1 < e2, 0 < reserve_in, 0 < reserve_out;
}

/// A larger input never gives a smaller (rounded) output.
pub proof fn lemma_output_monotone(x: int, y: int, reserve_in: int, reserve_out: int, fee: int)
    requires
        0 <= x <= y,
        0 < reserve_in,
        0 <= reserve_out,
        0 <= fee < FEE_SCALE,
    ensures
        swap_output(x, reserve_in, reserve_out, fee) is Some,
        swap_output(y, reserve_in, reserve_out, fee) is Some,
        swap_output(x, reserve_in, reserve_out, fee).unwrap()
            <= swap_output(y, reserve_in, reserve_out, fee).unwrap(),
{
    lemma_effective_input_bounds(x, fee);
    lemma_effective_input_bounds(y, fee);
    lemma_effective_input_monotone(x, y, fee);
    let e1 = effective_input(x, fee);
    let e2 = effective_input(y, fee);
    let d1 = reserve_in + e1;
    let d2 = reserve_in + e2;
    let n1 = e1 * reserve_out;
    let n2 = e2 * reserve_out;
    let q1 = n1 / d1;
    assert(n1 >= 0) by (nonlinear_arith)
        requires e1 >= 0, reserve_out >= 0, n1 == e1 * reserve_out;
    lemma_fundamental_div_mod(n1, d1);
    lemma_div_is_ordered(0, n1, d1);
    assert(q1 * d1 <= n1) by (nonlinear_arith)
        requires n1 == d1 * q1 + n1 % d1, 0 <= n1 % d1;
    assert(n1 * d2 <= n2 * d1) by (nonlinear_arith)
        requires 0 <= e1 <= e2, 0 < reserve_in, 0 <= reserve_out,
            n1 == e1 * reserve_out, n2 == e2 * reserve_out,
            d1 == reserve_in + e1, d2 == reserve_in + e2;
    assert(q1 * d2 <= n2) by (nonlinear_arith)
        requires q1 * d1 <= n1, n1 * d2 <= n2 * d1, 0 < d1, 0 < d2, 0 <= q1;
    lemma_below_quotient(q1, n2, d2);
}

/// Constant-product swap of `input` against reserves `reserve_in` and
/// `reserve_out`, with `fee` millionths of the input kept by the pool.
pub fn compute_output(input: u64, reserve_in: u64, reserve_out: u64, fee: u32) -> (r: Option<u64>)
    requires
        fee < FEE_SCALE,
    ensures
        opt_amount(r) == swap_output(input as int, reserve_in as int, reserve_out as int, fee as int),
{
    proof {
        lemma_effective_input_bounds(input as int, fee as int);
        assert((input as int) * ((FEE_SCALE - fee) as int) <= u64::MAX * (FEE_SCALE as int))
            by (nonlinear_arith)
            requires input <= u64::MAX, fee < FEE_SCALE;
    }
    let scaled: u128 = (input as u128) * ((FEE_SCALE - fee) as u128);
    let eff: u128 = scaled / (FEE_SCALE as u128);
    let den: u128 = (reserve_in as u128) + eff;
    if den == 0 {
        return None;
    }
    proof {
        assert(eff * (reserve_out as int) <= u64::MAX * u64::MAX) by (nonlinear_arith)
            requires eff <= u64::MAX, reserve_out <= u64::MAX;
        lemma_output_at_most_reserve(eff as int, reserve_in as int, reserve_out as int);
    }
    let num: u128 = eff * (reserve_out as u128);
    Some((num / den) as u64)
}

} // verus!
