//! The solvers, computed in 512-bit arithmetic and proved against the model
//! of module [`crate::curve`].

use vstd::prelude::*;
use crate::curve::{
    close, curve_constant, invariant_of, invariant_rounds, invariant_step, normalized,
    product_term, quotient, reserve_of, reserve_rounds, reserve_step, scaled, scaled_fits, total,
    MAX_ROUNDS, PRICE_SCALE,
};
use crate::error::SwapError;
use crate::wide::{
    narrow_limit, wide_add, wide_checked_div, wide_checked_sub, wide_div, wide_from, wide_mul,
    wide_narrow, wide_sub, Wide,
};

verus! {

/// A product of two bounded non-negative factors stays under the product of
/// the bounds.
pub proof fn lemma_product_bound(a: int, b: int, la: int, lb: int)
    by (nonlinear_arith)
    requires
        0 <= a < la,
        0 <= b < lb,
    ensures
        0 <= a * b < la * lb,
{
}

/// The floored quotient of two wide numbers, narrowed.
pub(crate) fn ratio(num: Wide, den: Wide) -> (r: Result<u128, SwapError>)
    ensures
        r == quotient(num@ as int, den@ as int),
{
    match wide_checked_div(num, den) {
        None => Err(SwapError::DivideByZero),
        Some(q) => match wide_narrow(q) {
            None => Err(SwapError::Overflow),
            Some(v) => Ok(v),
        },
    }
}

/// The exact product of two narrow numbers.
pub(crate) fn product(a: u128, b: u128) -> (w: Wide)
    ensures
        w@ == a * b,
        w@ < narrow_limit() * narrow_limit(),
{
    proof {
        lemma_product_bound(a as int, b as int, narrow_limit(), narrow_limit());
    }
    wide_mul(wide_from(a), wide_from(b))
}

/// `a * b / c`, floored, with the product formed exactly.
pub(crate) fn mul_div(a: u128, b: u128, c: u128) -> (r: Result<u128, SwapError>)
    ensures
        r == quotient(a * b, c as int),
{
    ratio(product(a, b), wide_from(c))
}

/// The exact sum of a vector of reserves.
pub(crate) fn wide_total(xs: &Vec<u128>) -> (w: Wide)
    ensures
        w@ == total(xs@),
        w@ <= xs.len() * u128::MAX,
{
    let mut acc = wide_from(0);
    let mut k: usize = 0;
    while k < xs.len()
        invariant
            k <= xs.len(),
            acc@ == total(xs@.take(k as int)),
            acc@ <= k * u128::MAX,
        decreases xs.len() - k,
    {
        proof {
            assert(xs@.take(k + 1).drop_last() =~= xs@.take(k as int));
        }
        acc = wide_add(acc, wide_from(xs[k]));
        k += 1;
    }
    proof {
        assert(xs@.take(xs.len() as int) =~= xs@);
    }
    acc
}

/// The price-adjusted balances, each `balance * price / 10^18`.
pub(crate) fn normalize(balances: &Vec<u128>, prices: &Vec<u128>) -> (r: Result<Vec<u128>, SwapError>)
    requires
        balances.len() == prices.len(),
    ensures
        match r {
            Ok(v) => normalized(balances@, prices@) == Ok::<Seq<u128>, SwapError>(v@),
            Err(e) => normalized(balances@, prices@) == Err::<Seq<u128>, SwapError>(e),
        },
{
    let mut out: Vec<u128> = Vec::new();
    let mut k: usize = 0;
    while k < balances.len()
        invariant
            k <= balances.len(),
            balances.len() == prices.len(),
            out.len() == k,
            forall|j: int|
                0 <= j < k ==> #[trigger] scaled(balances@[j], prices@[j]) == out@[j] as int,
        decreases balances.len() - k,
    {
        match mul_div(balances[k], prices[k], PRICE_SCALE) {
            Err(e) => {
                proof {
                    assert(scaled(balances@[k as int], prices@[k as int]) > u128::MAX);
                }
                return Err(e);
            },
            Ok(v) => {
                out.push(v);
            },
        }
        k += 1;
    }
    proof {
        assert(scaled_fits(balances@, prices@));
        assert(out@ =~= Seq::new(
            balances@.len(),
            |k: int| scaled(balances@[k], prices@[k]) as u128,
        ));
    }
    Ok(out)
}

/// Once a prefix of the reserves has made the product term fail, the whole
/// fold fails in the same way.
pub proof fn lemma_product_term_fails(d: u128, xs: Seq<u128>, n: int, k: int, e: SwapError)
    requires
        0 <= k <= xs.len(),
        product_term(d, xs.take(k), n) == Err::<u128, SwapError>(e),
    ensures
        product_term(d, xs, n) == Err::<u128, SwapError>(e),
    decreases xs.len() - k,
{
    if k < xs.len() {
        assert(xs.take(k + 1).drop_last() =~= xs.take(k));
        lemma_product_term_fails(d, xs, n, k + 1, e);
    } else {
        assert(xs.take(k) =~= xs);
    }
}

/// The product term of `d` over the reserves `xs`.
pub(crate) fn fold_product_term(d: u128, xs: &Vec<u128>, n: u8) -> (r: Result<u128, SwapError>)
    ensures
        r == product_term(d, xs@, n as int),
{
    let mut t = d;
    let mut k: usize = 0;
    while k < xs.len()
        invariant
            k <= xs.len(),
            product_term(d, xs@.take(k as int), n as int) == Ok::<u128, SwapError>(t),
        decreases xs.len() - k,
    {
        let step = ratio(product(t, d), product(n as u128, xs[k]));
        proof {
            assert(xs@.take(k + 1).drop_last() =~= xs@.take(k as int));
            assert(xs@.take(k + 1).last() == xs@[k as int]);
        }
        match step {
            Err(e) => {
                proof {
                    lemma_product_term_fails(d, xs@, n as int, k + 1, e);
                }
                return Err(e);
            },
            Ok(v) => {
                t = v;
            },
        }
        k += 1;
    }
    proof {
        assert(xs@.take(xs.len() as int) =~= xs@);
    }
    Ok(t)
}

/// One Newton round for the invariant.
pub(crate) fn step_invariant(d: u128, xp: &Vec<u128>, s: u128, amp: u128, n: u8) -> (r: Result<
    u128,
    SwapError,
>)
    requires
        s == total(xp@),
        amp >= 1,
        n >= 1,
    ensures
        r == invariant_step(d, xp@, amp as int, n as int),
{
    let t = match fold_product_term(d, xp, n) {
        Ok(t) => t,
        Err(e) => {
            return Err(e);
        },
    };
    let ann = product(amp, n as u128);
    proof {
        lemma_product_bound(amp as int, n as int, narrow_limit(), 256);
        assert(amp * n >= 1) by (nonlinear_arith)
            requires
                amp >= 1,
                n >= 1,
        ;
        lemma_product_bound(ann@ as int, s as int, narrow_limit() * 256, narrow_limit());
    }
    let inner = wide_add(wide_mul(ann, wide_from(s)), product(t, n as u128));
    proof {
        lemma_product_bound(
            d as int,
            inner@ as int,
            narrow_limit(),
            narrow_limit() * 256 * narrow_limit() + narrow_limit() * narrow_limit(),
        );
    }
    let num = wide_mul(wide_from(d), inner);
    let ann_less = wide_sub(ann, wide_from(1));
    proof {
        lemma_product_bound(ann_less@ as int, d as int, narrow_limit() * 256, narrow_limit());
    }
    let den = wide_add(wide_mul(ann_less, wide_from(d)), product(n as u128 + 1, t));
    ratio(num, den)
}

/// Whether two iterates differ by at most one.
pub(crate) fn is_close(a: u128, b: u128) -> (r: bool)
    ensures
        r == close(a as int, b as int),
{
    if a >= b {
        a - b <= 1
    } else {
        b - a <= 1
    }
}

/// The invariant `D` of the price-adjusted reserves `xp`.
pub(crate) fn solve_invariant(xp: &Vec<u128>, amp: u128, n: u8) -> (r: Result<u128, SwapError>)
    requires
        amp >= 1,
        n >= 1,
    ensures
        r == invariant_of(xp@, amp as int, n as int),
{
    let s = match wide_narrow(wide_total(xp)) {
        Some(s) => s,
        None => {
            return Err(SwapError::Overflow);
        },
    };
    let mut d = s;
    let mut round: u32 = 0;
    while round < MAX_ROUNDS
        invariant
            round <= MAX_ROUNDS,
            s == total(xp@),
            amp >= 1,
            n >= 1,
            invariant_of(xp@, amp as int, n as int) == invariant_rounds(
                d,
                (MAX_ROUNDS - round) as nat,
                xp@,
                amp as int,
                n as int,
            ),
        decreases MAX_ROUNDS - round,
    {
        let next = match step_invariant(d, xp, s, amp, n) {
            Ok(v) => v,
            Err(e) => {
                return Err(e);
            },
        };
        let near = is_close(next, d);
        d = next;
        round += 1;
        if near {
            return Ok(d);
        }
    }
    Ok(d)
}

/// One Newton round for the unknown reserve.
pub(crate) fn step_reserve(y: u128, c: u128, sum: Wide, d: u128, ann: Wide) -> (r: Result<
    u128,
    SwapError,
>)
    requires
        ann@ != 0,
        sum@ <= narrow_limit() * narrow_limit(),
    ensures
        r == reserve_step(y, c, sum@ as int, d, ann@ as int),
{
    let num = wide_add(product(y, y), wide_from(c));
    let share = wide_div(wide_from(d), ann);
    proof {
        assert(d as int / ann@ as int <= d) by (nonlinear_arith)
            requires
                ann@ >= 1,
        ;
    }
    let grown = wide_add(wide_add(product(2, y), sum), share);
    match wide_checked_sub(grown, wide_from(d)) {
        None => Err(SwapError::Overflow),
        Some(den) => ratio(num, den),
    }
}

/// The reserve that keeps the invariant at `d` beside the reserves `others`.
pub(crate) fn solve_reserve(d: u128, others: &Vec<u128>, amp: u128, n: u8) -> (r: Result<
    u128,
    SwapError,
>)
    requires
        amp >= 1,
        n >= 1,
    ensures
        r == reserve_of(d, others@, amp as int, n as int),
{
    let t = match fold_product_term(d, others, n) {
        Ok(t) => t,
        Err(e) => {
            return Err(e);
        },
    };
    let ann = product(amp, n as u128);
    proof {
        lemma_product_bound(amp as int, n as int, narrow_limit(), 256);
        lemma_product_bound(n as int, ann@ as int, 256, narrow_limit() * 256);
        assert(amp * n >= 1) by (nonlinear_arith)
            requires
                amp >= 1,
                n >= 1,
        ;
    }
    let c = match ratio(product(t, d), wide_mul(wide_from(n as u128), ann)) {
        Ok(c) => c,
        Err(e) => {
            return Err(e);
        },
    };
    let sum = wide_total(others);
    let mut y = d;
    let mut round: u32 = 0;
    while round < MAX_ROUNDS
        invariant
            round <= MAX_ROUNDS,
            ann@ == amp * n,
            ann@ != 0,
            sum@ == total(others@),
            sum@ <= narrow_limit() * narrow_limit(),
            curve_constant(d, others@, amp as int, n as int) == Ok::<u128, SwapError>(c),
            reserve_of(d, others@, amp as int, n as int) == reserve_rounds(
                y,
                (MAX_ROUNDS - round) as nat,
                c,
                total(others@),
                d,
                amp * n,
            ),
        decreases MAX_ROUNDS - round,
    {
        let next = match step_reserve(y, c, sum, d, ann) {
            Ok(v) => v,
            Err(e) => {
                return Err(e);
            },
        };
        let near = is_close(next, y);
        y = next;
        round += 1;
        if near {
            return Ok(y);
        }
    }
    Ok(y)
}

} // verus!
