//! The mathematical model of the StableSwap curve.
//!
//! Everything here is specification: functions over unbounded integers that
//! say what each solver step and each solver run yields, and on which inputs
//! it fails. A quantity that a step hands on is a 128-bit number; whatever is
//! formed on the way to it (products, sums, the divisor) is exact.

use vstd::prelude::*;
use crate::error::SwapError;

verus! {

/// Target prices carry 18 decimals.
pub const PRICE_SCALE: u128 = 1_000_000_000_000_000_000;

/// Fees carry 10 decimals.
pub const FEE_SCALE: u128 = 10_000_000_000;

/// A Newton iteration gives up after this many rounds and keeps its last value.
pub const MAX_ROUNDS: u32 = 1000;

/// Added to the fee of a single-asset withdrawal.
pub const WITHDRAW_FEE_OFFSET: u128 = 500_000;

/// `v` as a 128-bit result; a negative or too large value is an overflow.
pub open spec fn narrow(v: int) -> Result<u128, SwapError> {
    if 0 <= v <= u128::MAX {
        Ok(v as u128)
    } else {
        Err(SwapError::Overflow)
    }
}

/// The floored quotient `num / den` as a 128-bit result.
pub open spec fn quotient(num: int, den: int) -> Result<u128, SwapError> {
    if den == 0 {
        Err(SwapError::DivideByZero)
    } else {
        narrow(num / den)
    }
}

/// Two successive iterates are close enough to stop: they differ by at most one.
pub open spec fn close(a: int, b: int) -> bool {
    a - b <= 1 && b - a <= 1
}

/// The sum of a sequence of reserves.
pub open spec fn total(xs: Seq<u128>) -> int
    decreases xs.len(),
{
    if xs.len() == 0 {
        0
    } else {
        total(xs.drop_last()) + xs.last()
    }
}

/// A raw balance in price-adjusted units, before narrowing.
pub open spec fn scaled(balance: u128, price: u128) -> int {
    balance * price / (PRICE_SCALE as int)
}

/// Every price-adjusted balance fits in 128 bits.
pub open spec fn scaled_fits(balances: Seq<u128>, prices: Seq<u128>) -> bool {
    forall|k: int| 0 <= k < balances.len() ==> #[trigger] scaled(balances[k], prices[k]) <= u128::MAX
}

/// The price-adjusted balance vector.
pub open spec fn normalized(balances: Seq<u128>, prices: Seq<u128>) -> Result<Seq<u128>, SwapError>
    recommends
        balances.len() == prices.len(),
{
    if scaled_fits(balances, prices) {
        Ok(Seq::new(balances.len(), |k: int| scaled(balances[k], prices[k]) as u128))
    } else {
        Err(SwapError::Overflow)
    }
}

/// The running product term: starting from `d`, each reserve `x` in turn
/// replaces the term `t` by `t * d / (n * x)`.
pub open spec fn product_term(d: u128, xs: Seq<u128>, n: int) -> Result<u128, SwapError>
    decreases xs.len(),
{
    if xs.len() == 0 {
        Ok(d)
    } else {
        match product_term(d, xs.drop_last(), n) {
            Err(e) => Err(e),
            Ok(t) => quotient(t * d, n * xs.last()),
        }
    }
}

/// One Newton round for the invariant, from the iterate `d`.
pub open spec fn invariant_step(d: u128, xp: Seq<u128>, amp: int, n: int) -> Result<u128, SwapError> {
    let ann = amp * n;
    let s = total(xp);
    match product_term(d, xp, n) {
        Err(e) => Err(e),
        Ok(t) => quotient(d * (ann * s + t * n), (ann - 1) * d + (n + 1) * t),
    }
}

/// At most `rounds` Newton rounds from `d`: the first iterate that differs
/// from its predecessor by at most one, or the last one computed.
pub open spec fn invariant_rounds(d: u128, rounds: nat, xp: Seq<u128>, amp: int, n: int) -> Result<
    u128,
    SwapError,
>
    decreases rounds,
{
    if rounds == 0 {
        Ok(d)
    } else {
        match invariant_step(d, xp, amp, n) {
            Err(e) => Err(e),
            Ok(next) => if close(next as int, d as int) {
                Ok(next)
            } else {
                invariant_rounds(next, (rounds - 1) as nat, xp, amp, n)
            },
        }
    }
}

/// The invariant `D` of price-adjusted reserves `xp`: Newton iteration from
/// their sum.
pub open spec fn invariant_of(xp: Seq<u128>, amp: int, n: int) -> Result<u128, SwapError> {
    match narrow(total(xp)) {
        Err(e) => Err(e),
        Ok(s) => invariant_rounds(s, MAX_ROUNDS as nat, xp, amp, n),
    }
}

/// The constant `c` of the single-reserve equation, from the reserves that
/// are known.
pub open spec fn curve_constant(d: u128, others: Seq<u128>, amp: int, n: int) -> Result<u128, SwapError> {
    match product_term(d, others, n) {
        Err(e) => Err(e),
        Ok(t) => quotient(t * d, n * (amp * n)),
    }
}

/// One Newton round for the unknown reserve, from the iterate `y`. The
/// divisor `2y + b - d`, with `b = sum + d / ann`, must not be negative.
pub open spec fn reserve_step(y: u128, c: u128, sum: int, d: u128, ann: int) -> Result<u128, SwapError> {
    let den = 2 * y + sum + (d as int) / ann - d;
    if den < 0 {
        Err(SwapError::Overflow)
    } else {
        quotient(y * y + c, den)
    }
}

/// At most `rounds` Newton rounds for the unknown reserve from `y`.
pub open spec fn reserve_rounds(y: u128, rounds: nat, c: u128, sum: int, d: u128, ann: int) -> Result<
    u128,
    SwapError,
>
    decreases rounds,
{
    if rounds == 0 {
        Ok(y)
    } else {
        match reserve_step(y, c, sum, d, ann) {
            Err(e) => Err(e),
            Ok(next) => if close(next as int, y as int) {
                Ok(next)
            } else {
                reserve_rounds(next, (rounds - 1) as nat, c, sum, d, ann)
            },
        }
    }
}

/// The reserve that, together with `others`, keeps the invariant at `d`:
/// Newton iteration from `d`.
pub open spec fn reserve_of(d: u128, others: Seq<u128>, amp: int, n: int) -> Result<u128, SwapError> {
    match curve_constant(d, others, amp, n) {
        Err(e) => Err(e),
        Ok(c) => reserve_rounds(d, MAX_ROUNDS as nat, c, total(others), d, amp * n),
    }
}

/// A sum of reserves is no smaller than any one of them.
pub proof fn lemma_total_covers(xs: Seq<u128>, i: int)
    requires
        0 <= i < xs.len(),
    ensures
        0 <= xs[i] <= total(xs),
    decreases xs.len(),
{
    lemma_total_nonnegative(xs.drop_last());
    if i < xs.len() - 1 {
        lemma_total_covers(xs.drop_last(), i);
    }
}

/// A sum of reserves is not negative.
pub proof fn lemma_total_nonnegative(xs: Seq<u128>)
    ensures
        0 <= total(xs),
    decreases xs.len(),
{
    if xs.len() > 0 {
        lemma_total_nonnegative(xs.drop_last());
    }
}

} // verus!
