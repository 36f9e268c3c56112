//! What holds of the engine on every pool.

use vstd::prelude::*;
use crate::curve::{
    invariant_of, invariant_rounds, invariant_step, narrow, normalized, product_term, quotient,
    scaled, scaled_fits, total, FEE_SCALE, MAX_ROUNDS, PRICE_SCALE,
};
use crate::error::SwapError;
use crate::pool::{charged, charged_balance, covered, gap, reduced, settle, Pool};

verus! {

/// The two pools are the same but for their fees.
pub open spec fn same_but_fee(a: Pool, b: Pool) -> bool {
    b == (Pool { fee: b.fee, ..a })
}

/// A larger share of a larger amount is no smaller: `a * f / s` grows with
/// `a` and with `f`.
pub proof fn lemma_share_grows(a: int, b: int, f: int, g: int, s: int)
    requires
        0 <= a <= b,
        0 <= f <= g,
        0 < s,
    ensures
        0 <= a * f / s <= b * g / s,
{
    vstd::arithmetic::mul::lemma_mul_nonnegative(a, f);
    vstd::arithmetic::mul::lemma_mul_inequality(a, b, f);
    vstd::arithmetic::mul::lemma_mul_inequality(f, g, b);
    vstd::arithmetic::mul::lemma_mul_is_commutative(f, b);
    vstd::arithmetic::mul::lemma_mul_is_commutative(g, b);
    vstd::arithmetic::div_mod::lemma_div_is_ordered(a * f, b * g, s);
    vstd::arithmetic::div_mod::lemma_div_pos_is_pos(a * f, s);
}

/// The invariant is a function of the reserves, the prices, the
/// amplification and the number of assets alone: pools that agree on these
/// have the same invariant, and fail to have one in the same way, whatever
/// their fees and token supplies. Computing it again gives it again.
pub proof fn lemma_invariant_is_determined(a: Pool, b: Pool)
    requires
        a.amplification == b.amplification,
        a.asset_count == b.asset_count,
        a.balances == b.balances,
        a.target_prices == b.target_prices,
    ensures
        a.invariant_d() == b.invariant_d(),
{
}

/// Settling the same swap under a lower fee succeeds whenever it does under
/// the higher one, pays out no less, and leaves no more in any reserve.
pub proof fn lemma_settle_by_fee(
    balances: Seq<u128>,
    prices: Seq<u128>,
    low: u128,
    high: u128,
    i: int,
    j: int,
    x: u128,
    y: u128,
    dy: u128,
)
    requires
        low <= high,
        0 <= i < balances.len(),
        0 <= j < balances.len(),
        balances.len() == prices.len(),
        settle(balances, prices, high, i, j, x, y, dy) is Ok,
    ensures
        settle(balances, prices, low, i, j, x, y, dy) is Ok,
        settle(balances, prices, high, i, j, x, y, dy)->Ok_0.0 <= settle(
            balances,
            prices,
            low,
            i,
            j,
            x,
            y,
            dy,
        )->Ok_0.0,
        settle(balances, prices, low, i, j, x, y, dy)->Ok_0.1.len() == balances.len(),
        settle(balances, prices, high, i, j, x, y, dy)->Ok_0.1.len() == balances.len(),
        forall|k: int|
            0 <= k < balances.len() ==> settle(balances, prices, low, i, j, x, y, dy)->Ok_0.1[k]
                <= settle(balances, prices, high, i, j, x, y, dy)->Ok_0.1[k],
{
    if dy != 0 {
        lemma_share_grows(dy as int, dy as int, low as int, high as int, FEE_SCALE as int);
        let cut_low = quotient(dy * low, FEE_SCALE as int)->Ok_0;
        let cut_high = quotient(dy * high, FEE_SCALE as int)->Ok_0;
        assert(cut_low <= cut_high);
        lemma_share_grows(
            y + cut_low,
            y + cut_high,
            PRICE_SCALE as int,
            PRICE_SCALE as int,
            prices[j] as int,
        );
    }
}

/// Raising the fee never raises what a swap pays: of two pools that differ
/// in their fee alone, the one with the lower fee completes every swap that
/// the other completes, and its net output is at least as large.
pub proof fn lemma_fee_lowers_output(low: Pool, high: Pool, i: int, j: int, dx: u128)
    requires
        same_but_fee(low, high),
        low.fee <= high.fee,
    ensures
        high.apply_swap(i, j, dx) is Ok ==> low.apply_swap(i, j, dx) is Ok && high.apply_swap(
            i,
            j,
            dx,
        )->Ok_0.0 <= low.apply_swap(i, j, dx)->Ok_0.0,
{
    if high.apply_swap(i, j, dx) is Ok {
        let xp = high.xp()->Ok_0;
        let x = narrow(xp[i] + dx)->Ok_0;
        let y = high.reserve_after(i, j, x)->Ok_0;
        let dy = narrow(xp[j] - y)->Ok_0;
        assert(low.xp() == high.xp());
        assert(low.reserve_after(i, j, x) == high.reserve_after(i, j, x));
        lemma_settle_by_fee(high.balances, high.target_prices, low.fee, high.fee, i, j, x, y, dy);
    }
}

/// The fee stays in the pool: of two pools that differ in their fee alone,
/// the one with the higher fee is left by the same swap with at least as
/// much in every reserve.
pub proof fn lemma_fee_stays_in_pool(low: Pool, high: Pool, i: int, j: int, dx: u128)
    requires
        same_but_fee(low, high),
        low.fee <= high.fee,
    ensures
        high.apply_swap(i, j, dx) is Ok ==> {
            let kept = high.apply_swap(i, j, dx)->Ok_0.1.balances;
            let left = low.apply_swap(i, j, dx)->Ok_0.1.balances;
            &&& low.apply_swap(i, j, dx) is Ok
            &&& kept.len() == high.balances.len()
            &&& left.len() == high.balances.len()
            &&& forall|k: int| 0 <= k < kept.len() ==> left[k] <= kept[k]
        },
{
    if high.apply_swap(i, j, dx) is Ok {
        let xp = high.xp()->Ok_0;
        let x = narrow(xp[i] + dx)->Ok_0;
        let y = high.reserve_after(i, j, x)->Ok_0;
        let dy = narrow(xp[j] - y)->Ok_0;
        assert(low.xp() == high.xp());
        assert(low.reserve_after(i, j, x) == high.reserve_after(i, j, x));
        lemma_settle_by_fee(high.balances, high.target_prices, low.fee, high.fee, i, j, x, y, dy);
    }
}

/// Every entry of `xs` is `x`.
pub open spec fn all_equal(xs: Seq<u128>, x: u128) -> bool {
    forall|k: int| 0 <= k < xs.len() ==> xs[k] == x
}

/// The sum of `len` reserves that are all `x` is `len * x`.
pub proof fn lemma_total_of_equal(xs: Seq<u128>, x: u128)
    requires
        all_equal(xs, x),
    ensures
        total(xs) == xs.len() * x,
    decreases xs.len(),
{
    if xs.len() > 0 {
        lemma_total_of_equal(xs.drop_last(), x);
        assert((xs.len() - 1) * x + x == xs.len() * x) by (nonlinear_arith);
    }
}

/// Over reserves that are all `x`, the product term of `d = n * x` is `d`.
pub proof fn lemma_product_term_of_equal(d: u128, xs: Seq<u128>, n: int, x: u128)
    requires
        all_equal(xs, x),
        d == n * x,
        d > 0,
    ensures
        product_term(d, xs, n) == Ok::<u128, SwapError>(d),
    decreases xs.len(),
{
    if xs.len() > 0 {
        lemma_product_term_of_equal(d, xs.drop_last(), n, x);
        vstd::arithmetic::div_mod::lemma_div_multiples_vanish(d as int, d as int);
    }
}

/// The invariant of a balanced pool is the sum of its reserves: where all
/// `n >= 1` price-adjusted reserves are `x > 0` and their sum fits in 128 bits,
/// the solver stops after one round at `n * x`.
pub proof fn lemma_invariant_of_balanced(xp: Seq<u128>, amp: int, n: int, x: u128)
    requires
        all_equal(xp, x),
        xp.len() == n,
        n >= 1,
        amp >= 1,
        x > 0,
        n * x <= u128::MAX,
    ensures
        invariant_of(xp, amp, n) == Ok::<u128, SwapError>((n * x) as u128),
{
    lemma_total_of_equal(xp, x);
    let s = (n * x) as u128;
    assert(s > 0) by (nonlinear_arith)
        requires
            s == n * x,
            n >= 1,
            x > 0,
    ;
    lemma_product_term_of_equal(s, xp, n, x);
    let ann = amp * n;
    let num = s * (ann * s + s * n);
    let den = (ann - 1) * s + (n + 1) * s;
    assert(num == den * s && den > 0) by (nonlinear_arith)
        requires
            num == s * (ann * s + s * n),
            den == (ann - 1) * s + (n + 1) * s,
            ann == amp * n,
            amp >= 1,
            n >= 1,
            s > 0,
    ;
    vstd::arithmetic::div_mod::lemma_div_multiples_vanish(s as int, den);
    assert(invariant_step(s, xp, amp, n) == Ok::<u128, SwapError>(s));
    assert(invariant_rounds(s, MAX_ROUNDS as nat, xp, amp, n) == Ok::<u128, SwapError>(s));
}

/// Without a fee the imbalance adjustment changes nothing, provided every
/// ideal balance `d1 * before / d0` can be formed.
pub proof fn lemma_charged_without_fee(before: Seq<u128>, after: Seq<u128>, d0: u128, d1: u128)
    requires
        before.len() == after.len(),
        d0 > 0,
        forall|k: int| 0 <= k < before.len() ==> d1 * before[k] / (d0 as int) <= u128::MAX,
    ensures
        charged(before, after, 0, d0, d1) == Ok::<Seq<u128>, SwapError>(after),
    decreases before.len(),
{
    if before.len() > 0 {
        lemma_charged_without_fee(before.drop_last(), after.drop_last(), d0, d1);
        let last = before.len() - 1;
        vstd::arithmetic::mul::lemma_mul_nonnegative(d1 as int, before[last] as int);
        vstd::arithmetic::div_mod::lemma_div_pos_is_pos(d1 * before[last], d0 as int);
        let ideal = quotient(d1 * before[last], d0 as int)->Ok_0;
        assert(0 * gap(ideal as int, after[last] as int) == 0);
        assert(charged_balance(before.last(), after.last(), 0, d0, d1) == Ok::<u128, SwapError>(
            after.last(),
        ));
        assert(after.drop_last().push(after.last()) =~= after);
    } else {
        assert(after =~= Seq::<u128>::empty());
    }
}

/// A balanced pool of `n` assets, each with balance `b` and price `p`, has
/// the invariant `n * scaled(b, p)`.
pub proof fn lemma_invariant_of_balanced_pool(pool: Pool, b: u128, p: u128)
    requires
        pool.wf(),
        all_equal(pool.balances, b),
        all_equal(pool.target_prices, p),
        scaled(b, p) > 0,
        pool.asset_count * scaled(b, p) <= u128::MAX,
    ensures
        pool.invariant_d() == Ok::<u128, SwapError>((pool.asset_count * scaled(b, p)) as u128),
{
    let n = pool.asset_count as int;
    let x = scaled(b, p);
    assert(x <= n * x) by (nonlinear_arith)
        requires
            n >= 1,
            x >= 0,
    ;
    assert(scaled_fits(pool.balances, pool.target_prices));
    let xp = normalized(pool.balances, pool.target_prices)->Ok_0;
    assert(all_equal(xp, x as u128));
    lemma_invariant_of_balanced(xp, pool.amplification as int, n, x as u128);
}

/// A balanced withdrawal burns the proportional share. In a pool without
/// fee whose assets all have the balance `b` and the price `p`, taking `a`
/// of every asset burns `(x - x') * supply / x` pool tokens, where `x` and
/// `x'` are the price-adjusted reserve before and after: no imbalance
/// penalty. This holds whenever the sum of the reserves fits in 128 bits and
/// something is left in the pool.
pub proof fn lemma_balanced_withdrawal(pool: Pool, amounts: Seq<u128>, b: u128, p: u128, a: u128)
    requires
        pool.wf(),
        pool.fee == 0,
        all_equal(pool.balances, b),
        all_equal(pool.target_prices, p),
        amounts.len() == pool.asset_count,
        all_equal(amounts, a),
        a <= b,
    ensures
        ({
            let x = scaled(b, p);
            let x_after = scaled((b - a) as u128, p);
            pool.asset_count * x <= u128::MAX && x_after > 0 ==> pool.withdraw_imbalanced(amounts)
                == Ok::<u128, SwapError>(((x - x_after) * pool.pool_token_supply / x) as u128)
        }),
{
    let n = pool.asset_count as int;
    let x = scaled(b, p);
    let rest = (b - a) as u128;
    let x_after = scaled(rest, p);
    let supply = pool.pool_token_supply as int;
    if n * x <= u128::MAX && x_after > 0 {
        lemma_share_grows(rest as int, b as int, p as int, p as int, PRICE_SCALE as int);
        assert(n * x_after <= n * x) by (nonlinear_arith)
            requires
                n >= 1,
                x_after <= x,
        ;
        vstd::arithmetic::div_mod::lemma_div_of0(4 * (n - 1));
        assert(pool.fee * n == 0);
        assert(quotient(pool.fee * n, 4 * (n - 1)) == Ok::<u128, SwapError>(0));
        lemma_invariant_of_balanced_pool(pool, b, p);
        let d0 = (n * x) as u128;
        assert(covered(pool.balances, amounts));
        let after = reduced(pool.balances, amounts);
        assert(all_equal(after, rest));
        let left = pool.with_balances(after);
        lemma_invariant_of_balanced_pool(left, rest, p);
        let d1 = (n * x_after) as u128;
        assert(d0 > 0) by (nonlinear_arith)
            requires
                d0 == n * x,
                n >= 1,
                x > 0,
        ;
        assert forall|k: int| 0 <= k < pool.balances.len() implies d1 * pool.balances[k] / (
        d0 as int) <= u128::MAX by {
            lemma_share_grows(d1 as int, d0 as int, b as int, b as int, d0 as int);
            vstd::arithmetic::div_mod::lemma_div_multiples_vanish(b as int, d0 as int);
        }
        lemma_charged_without_fee(pool.balances, after, d0, d1);
        assert(narrow(d0 - d1) == Ok::<u128, SwapError>((d0 - d1) as u128));
        let burnt = d0 - d1;
        assert(burnt * supply == n * ((x - x_after) * supply)) by (nonlinear_arith)
            requires
                burnt == n * x - n * x_after,
        ;
        vstd::arithmetic::mul::lemma_mul_nonnegative(x - x_after, supply);
        vstd::arithmetic::div_mod::lemma_div_multiples_vanish_quotient(
            n,
            (x - x_after) * supply,
            x,
        );
        lemma_share_grows(x - x_after, x, supply, supply, x);
        vstd::arithmetic::div_mod::lemma_div_multiples_vanish(supply, x);
    }
}

/// A balanced withdrawal from a pool at par burns `a * supply / b` pool
/// tokens: the share of the reserves that is taken out.
pub proof fn lemma_balanced_withdrawal_at_par(pool: Pool, amounts: Seq<u128>, b: u128, a: u128)
    requires
        pool.wf(),
        pool.fee == 0,
        all_equal(pool.balances, b),
        all_equal(pool.target_prices, PRICE_SCALE),
        amounts.len() == pool.asset_count,
        all_equal(amounts, a),
        a < b,
        pool.asset_count * b <= u128::MAX,
    ensures
        pool.withdraw_imbalanced(amounts) == Ok::<u128, SwapError>(
            (a * pool.pool_token_supply / (b as int)) as u128,
        ),
{
    vstd::arithmetic::div_mod::lemma_div_multiples_vanish(b as int, PRICE_SCALE as int);
    vstd::arithmetic::div_mod::lemma_div_multiples_vanish(b - a, PRICE_SCALE as int);
    vstd::arithmetic::mul::lemma_mul_is_commutative(b as int, PRICE_SCALE as int);
    vstd::arithmetic::mul::lemma_mul_is_commutative(b - a, PRICE_SCALE as int);
    lemma_balanced_withdrawal(pool, amounts, b, PRICE_SCALE, a);
}

/// At par the price adjustment changes nothing.
pub proof fn lemma_normalized_at_par(balances: Seq<u128>, prices: Seq<u128>)
    requires
        balances.len() == prices.len(),
        all_equal(prices, PRICE_SCALE),
    ensures
        normalized(balances, prices) == Ok::<Seq<u128>, SwapError>(balances),
{
    assert forall|k: int| 0 <= k < balances.len() implies #[trigger] scaled(
        balances[k],
        prices[k],
    ) == balances[k] by {
        vstd::arithmetic::div_mod::lemma_div_multiples_vanish(
            balances[k] as int,
            PRICE_SCALE as int,
        );
        vstd::arithmetic::mul::lemma_mul_is_commutative(balances[k] as int, PRICE_SCALE as int);
    }
    assert(scaled_fits(balances, prices));
    assert(normalized(balances, prices)->Ok_0 =~= balances);
}

/// A swap pays out what it was quoted less the fee: whenever a swap
/// completes, the quote for it exists, the net output is the quote less
/// `quote * fee / 10^10`, and so is the quote itself in a pool without fee.
pub proof fn lemma_swap_pays_quote_less_fee(pool: Pool, i: int, j: int, dx: u128)
    ensures
        pool.apply_swap(i, j, dx) is Ok ==> {
            let out = pool.apply_swap(i, j, dx)->Ok_0.0;
            let gross = pool.swap_quote(i, j, dx)->Ok_0;
            &&& pool.swap_quote(i, j, dx) is Ok
            &&& out == gross - gross * pool.fee / (FEE_SCALE as int)
            &&& pool.fee == 0 ==> out == gross
        },
{
}

/// Swap conservation at par. In a pool whose prices are all at par, a swap
/// between two different assets that has a gross output adds exactly the
/// input to the reserve it is paid into and takes exactly the net output out
/// of the other; the fee stays in that reserve, and no other balance moves.
/// A swap without gross output leaves the pool as it was.
pub proof fn lemma_swap_conserves_at_par(pool: Pool, i: int, j: int, dx: u128)
    requires
        all_equal(pool.target_prices, PRICE_SCALE),
        i != j,
    ensures
        pool.apply_swap(i, j, dx) is Ok ==> {
            let out = pool.apply_swap(i, j, dx)->Ok_0.0;
            let after = pool.apply_swap(i, j, dx)->Ok_0.1;
            let gross = pool.swap_quote(i, j, dx)->Ok_0;
            &&& gross == 0 ==> after == pool && out == 0
            &&& gross > 0 ==> out <= pool.balances[j] && after == pool.with_balances(
                pool.balances.update(i, (pool.balances[i] + dx) as u128).update(
                    j,
                    (pool.balances[j] - out) as u128,
                ),
            )
        },
{
    if pool.apply_swap(i, j, dx) is Ok {
        lemma_normalized_at_par(pool.balances, pool.target_prices);
        let x = narrow(pool.balances[i] + dx)->Ok_0;
        let y = pool.reserve_after(i, j, x)->Ok_0;
        let gross = narrow(pool.balances[j] - y)->Ok_0;
        if gross > 0 {
            let cut = quotient(gross * pool.fee, FEE_SCALE as int)->Ok_0;
            vstd::arithmetic::div_mod::lemma_div_multiples_vanish(x as int, PRICE_SCALE as int);
            vstd::arithmetic::div_mod::lemma_div_multiples_vanish(y + cut, PRICE_SCALE as int);
            vstd::arithmetic::mul::lemma_mul_is_commutative(x as int, PRICE_SCALE as int);
            vstd::arithmetic::mul::lemma_mul_is_commutative(y + cut, PRICE_SCALE as int);
        } else {
            assert(pool.with_balances(pool.balances) == pool);
        }
    }
}

} // verus!
