//! The pool record and the engine's operations on it.

use vstd::prelude::*;
use crate::curve::{lemma_total_covers, FEE_SCALE, PRICE_SCALE, WITHDRAW_FEE_OFFSET};
use crate::error::SwapError;
use crate::pool::{charged, charged_balance, exit_fee, reduced, Pool};
use crate::solver::{mul_div, normalize, solve_invariant, solve_reserve, wide_total};
use crate::wide::wide_narrow;

verus! {

/// Numerator of the customary pool fee of one in a thousand.
pub const MODEL_FEE_NUMERATOR: u128 = 1;

/// Denominator of the customary pool fee of one in a thousand.
pub const MODEL_FEE_DENOMINATOR: u128 = 1000;

/// A StableSwap pool: a plain value, built afresh for each computation.
pub struct StableSwapModel {
    /// Amplification coefficient.
    pub amp_factor: u128,
    /// Raw reserves, one per asset.
    pub balances: Vec<u128>,
    /// Number of assets.
    pub n_coins: u8,
    /// Swap fee, scaled by 10^10.
    pub fee: u128,
    /// Fixed relative prices, one per asset, scaled by 10^18.
    pub target_prices: Vec<u128>,
    /// Liquidity shares in existence.
    pub pool_tokens: u128,
}

impl View for StableSwapModel {
    type V = Pool;

    open spec fn view(&self) -> Pool {
        Pool {
            amplification: self.amp_factor,
            balances: self.balances@,
            asset_count: self.n_coins,
            fee: self.fee,
            target_prices: self.target_prices@,
            pool_token_supply: self.pool_tokens,
        }
    }
}

/// A computed vector is what the model says, or fails as the model says.
pub open spec fn vec_matches(r: Result<Vec<u128>, SwapError>, m: Result<Seq<u128>, SwapError>) -> bool {
    match r {
        Ok(v) => m == Ok::<Seq<u128>, SwapError>(v@),
        Err(e) => m == Err::<Seq<u128>, SwapError>(e),
    }
}

/// The pool that `new` builds: no fee, no pool tokens, every price at par.
pub open spec fn fresh_pool(amp_factor: u128, balances: Seq<u128>, n_coins: u8, pool_tokens: u128) -> Pool {
    Pool {
        amplification: amp_factor,
        balances,
        asset_count: n_coins,
        fee: 0,
        target_prices: Seq::new(n_coins as nat, |k: int| PRICE_SCALE),
        pool_token_supply: pool_tokens,
    }
}

/// `n` prices at par.
fn par_prices(n: u8) -> (v: Vec<u128>)
    ensures
        v@ == Seq::new(n as nat, |k: int| PRICE_SCALE),
{
    let mut v: Vec<u128> = Vec::new();
    let mut k: u8 = 0;
    while k < n
        invariant
            k <= n,
            v@ == Seq::new(k as nat, |k: int| PRICE_SCALE),
        decreases n - k,
    {
        v.push(PRICE_SCALE);
        k += 1;
    }
    v
}

/// An asset index as a position in a vector. An index beyond every position
/// becomes the last position, which no pool has an asset at.
fn position(i: u128) -> (r: usize)
    ensures
        i <= usize::MAX ==> r == i,
        i > usize::MAX ==> r == usize::MAX,
{
    if i > usize::MAX as u128 {
        usize::MAX
    } else {
        i as usize
    }
}

impl StableSwapModel {
    /// A pool without fee and without pool tokens, every target price at par.
    pub fn new(amp_factor: u128, balances: Vec<u128>, n_coins: u8) -> (m: StableSwapModel)
        ensures
            m@ == fresh_pool(amp_factor, balances@, n_coins, 0),
    {
        StableSwapModel {
            amp_factor,
            balances,
            n_coins,
            fee: 0u128,
            target_prices: par_prices(n_coins),
            pool_tokens: 0u128,
        }
    }

    /// A pool without fee, every target price at par, with `pool_token_amount`
    /// pool tokens in existence.
    pub fn new_with_pool_tokens(
        amp_factor: u128,
        balances: Vec<u128>,
        n_coins: u8,
        pool_token_amount: u128,
    ) -> (m: StableSwapModel)
        ensures
            m@ == fresh_pool(amp_factor, balances@, n_coins, pool_token_amount),
    {
        StableSwapModel {
            amp_factor,
            balances,
            n_coins,
            fee: 0u128,
            target_prices: par_prices(n_coins),
            pool_tokens: pool_token_amount,
        }
    }

    /// Whether the record has the shape of a pool.
    pub fn is_well_formed(&self) -> (r: bool)
        ensures
            r == self@.wf(),
    {
        self.n_coins >= 2 && self.amp_factor >= 1 && self.balances.len() == self.n_coins as usize
            && self.target_prices.len() == self.n_coins as usize
    }

    fn xp(&self) -> (r: Result<Vec<u128>, SwapError>)
        ensures
            vec_matches(r, self@.xp()),
    {
        if !self.is_well_formed() {
            return Err(SwapError::InvalidPool);
        }
        normalize(&self.balances, &self.target_prices)
    }

    /// The invariant of this pool with `balances` in place of its own.
    fn d_with(&self, balances: &Vec<u128>) -> (r: Result<u128, SwapError>)
        requires
            self@.wf(),
            balances.len() == self.n_coins,
        ensures
            r == self@.with_balances(balances@).invariant_d(),
    {
        let xp = match normalize(balances, &self.target_prices) {
            Ok(v) => v,
            Err(e) => {
                return Err(e);
            },
        };
        solve_invariant(&xp, self.amp_factor, self.n_coins)
    }

    fn d(&self) -> (r: Result<u128, SwapError>)
        ensures
            r == self@.invariant_d(),
    {
        if !self.is_well_formed() {
            return Err(SwapError::InvalidPool);
        }
        proof {
            assert(self@.with_balances(self.balances@) == self@);
        }
        self.d_with(&self.balances)
    }

    fn y(&self, i: usize, j: usize, x: u128) -> (r: Result<u128, SwapError>)
        ensures
            r == self@.reserve_after(i as int, j as int, x),
    {
        if !self.is_well_formed() {
            return Err(SwapError::InvalidPool);
        }
        let n = self.n_coins as usize;
        if i >= n || j >= n {
            return Err(SwapError::InvalidInput);
        }
        let mut xx = match normalize(&self.balances, &self.target_prices) {
            Ok(v) => v,
            Err(e) => {
                return Err(e);
            },
        };
        let d = match solve_invariant(&xx, self.amp_factor, self.n_coins) {
            Ok(d) => d,
            Err(e) => {
                return Err(e);
            },
        };
        xx.set(i, x);
        xx.remove(j);
        solve_reserve(d, &xx, self.amp_factor, self.n_coins)
    }

    fn y_d(&self, i: usize, d: u128) -> (r: Result<u128, SwapError>)
        ensures
            r == self@.reserve_at(i as int, d),
    {
        if !self.is_well_formed() {
            return Err(SwapError::InvalidPool);
        }
        if i >= self.n_coins as usize {
            return Err(SwapError::InvalidInput);
        }
        let mut xx = match normalize(&self.balances, &self.target_prices) {
            Ok(v) => v,
            Err(e) => {
                return Err(e);
            },
        };
        xx.remove(i);
        solve_reserve(d, &xx, self.amp_factor, self.n_coins)
    }

    fn dy(&self, i: usize, j: usize, dx: u128) -> (r: Result<u128, SwapError>)
        ensures
            r == self@.swap_quote(i as int, j as int, dx),
    {
        if !self.is_well_formed() {
            return Err(SwapError::InvalidPool);
        }
        let n = self.n_coins as usize;
        if i >= n || j >= n {
            return Err(SwapError::InvalidInput);
        }
        let xp = match normalize(&self.balances, &self.target_prices) {
            Ok(v) => v,
            Err(e) => {
                return Err(e);
            },
        };
        let x = match xp[i].checked_add(dx) {
            Some(x) => x,
            None => {
                return Err(SwapError::Overflow);
            },
        };
        let y = match self.y(i, j, x) {
            Ok(y) => y,
            Err(e) => {
                return Err(e);
            },
        };
        if y > xp[j] {
            Err(SwapError::Overflow)
        } else {
            Ok(xp[j] - y)
        }
    }

    fn exchange(&mut self, i: usize, j: usize, dx: u128) -> (r: Result<u128, SwapError>)
        ensures
            match old(self)@.apply_swap(i as int, j as int, dx) {
                Ok((out, pool)) => r == Ok::<u128, SwapError>(out) && final(self)@ == pool,
                Err(e) => r == Err::<u128, SwapError>(e) && final(self)@ == old(self)@,
            },
    {
        if !self.is_well_formed() {
            return Err(SwapError::InvalidPool);
        }
        let n = self.n_coins as usize;
        if i >= n || j >= n {
            return Err(SwapError::InvalidInput);
        }
        let xp = match normalize(&self.balances, &self.target_prices) {
            Ok(v) => v,
            Err(e) => {
                return Err(e);
            },
        };
        let x = match xp[i].checked_add(dx) {
            Some(x) => x,
            None => {
                return Err(SwapError::Overflow);
            },
        };
        let y = match self.y(i, j, x) {
            Ok(y) => y,
            Err(e) => {
                return Err(e);
            },
        };
        if y > xp[j] {
            return Err(SwapError::Overflow);
        }
        let dy = xp[j] - y;
        if dy == 0 {
            proof {
                assert(self@.with_balances(self.balances@) == self@);
            }
            return Ok(0);
        }
        let cut = match mul_div(dy, self.fee, FEE_SCALE) {
            Ok(v) => v,
            Err(e) => {
                return Err(e);
            },
        };
        if cut > dy {
            return Err(SwapError::Overflow);
        }
        let bi = match mul_div(x, PRICE_SCALE, self.target_prices[i]) {
            Ok(v) => v,
            Err(e) => {
                return Err(e);
            },
        };
        let bj = match mul_div(y + cut, PRICE_SCALE, self.target_prices[j]) {
            Ok(v) => v,
            Err(e) => {
                return Err(e);
            },
        };
        self.balances.set(i, bi);
        self.balances.set(j, bj);
        Ok(dy - cut)
    }

    #[verifier::loop_isolation(false)]
    fn remove_liquidity_imbalance(&mut self, amounts: Vec<u128>) -> (r: Result<u128, SwapError>)
        ensures
            r == old(self)@.withdraw_imbalanced(amounts@),
            *final(self) == *old(self),
    {
        if !self.is_well_formed() {
            return Err(SwapError::InvalidPool);
        }
        let n = self.n_coins as usize;
        if amounts.len() != n {
            return Err(SwapError::InvalidInput);
        }
        let rate = match mul_div(self.fee, self.n_coins as u128, 4 * (self.n_coins as u128 - 1)) {
            Ok(v) => v,
            Err(e) => {
                return Err(e);
            },
        };
        let d0 = match self.d() {
            Ok(v) => v,
            Err(e) => {
                return Err(e);
            },
        };
        let mut after: Vec<u128> = Vec::new();
        let mut k: usize = 0;
        while k < n
            invariant
                k <= n,
                n == self.balances.len(),
                n == amounts.len(),
                after.len() == k,
                forall|m: int|
                    0 <= m < k ==> #[trigger] amounts@[m] <= self.balances@[m] && after@[m]
                        == self.balances@[m] - amounts@[m],
            decreases n - k,
        {
            if amounts[k] > self.balances[k] {
                return Err(SwapError::Overflow);
            }
            after.push(self.balances[k] - amounts[k]);
            k += 1;
        }
        proof {
            assert(after@ =~= reduced(self.balances@, amounts@));
        }
        let d1 = match self.d_with(&after) {
            Ok(v) => v,
            Err(e) => {
                return Err(e);
            },
        };
        let adjusted = match charge(&self.balances, &after, rate, d0, d1) {
            Ok(v) => v,
            Err(e) => {
                return Err(e);
            },
        };
        let d2 = match self.d_with(&adjusted) {
            Ok(v) => v,
            Err(e) => {
                return Err(e);
            },
        };
        if d2 > d0 {
            return Err(SwapError::Overflow);
        }
        mul_div(d0 - d2, self.pool_tokens, d0)
    }

    fn calc_withdraw_one_coin(&self, token_amount: u128, i: usize) -> (r: Result<u128, SwapError>)
        ensures
            r == self@.withdraw_one_coin(token_amount, i as int),
    {
        if !self.is_well_formed() {
            return Err(SwapError::InvalidPool);
        }
        if i >= self.n_coins as usize {
            return Err(SwapError::InvalidInput);
        }
        let xp = match normalize(&self.balances, &self.target_prices) {
            Ok(v) => v,
            Err(e) => {
                return Err(e);
            },
        };
        let fee = match exit_fee_of(self.fee, &xp, i) {
            Ok(v) => v,
            Err(e) => {
                return Err(e);
            },
        };
        let d0 = match self.d() {
            Ok(v) => v,
            Err(e) => {
                return Err(e);
            },
        };
        let part = match mul_div(token_amount, d0, self.pool_tokens) {
            Ok(v) => v,
            Err(e) => {
                return Err(e);
            },
        };
        if part > d0 {
            return Err(SwapError::Overflow);
        }
        let y = match self.y_d(i, d0 - part) {
            Ok(v) => v,
            Err(e) => {
                return Err(e);
            },
        };
        if y > xp[i] {
            return Err(SwapError::Overflow);
        }
        let dy = xp[i] - y;
        let cut = match mul_div(dy, fee, FEE_SCALE) {
            Ok(v) => v,
            Err(e) => {
                return Err(e);
            },
        };
        if cut > dy {
            Err(SwapError::Overflow)
        } else {
            Ok(dy - cut)
        }
    }

    /// The invariant `D` of the pool.
    pub fn sim_d(&self) -> (r: Result<u128, SwapError>)
        ensures
            r == self@.invariant_d(),
    {
        self.d()
    }

    /// The gross output of asset `j` for `dx` of asset `i`.
    pub fn sim_dy(&self, i: u128, j: u128, dx: u128) -> (r: Result<u128, SwapError>)
        ensures
            r == self@.swap_quote(i as int, j as int, dx),
    {
        self.dy(position(i), position(j), dx)
    }

    /// Swaps `dx` of asset `i` for asset `j`: returns the net output and
    /// moves the two balances. A failed swap and a swap without output leave
    /// the pool as it was.
    pub fn sim_exchange(&mut self, i: u128, j: u128, dx: u128) -> (r: Result<u128, SwapError>)
        ensures
            match old(self)@.apply_swap(i as int, j as int, dx) {
                Ok((out, pool)) => r == Ok::<u128, SwapError>(out) && final(self)@ == pool,
                Err(e) => r == Err::<u128, SwapError>(e) && final(self)@ == old(self)@,
            },
    {
        self.exchange(position(i), position(j), dx)
    }

    /// The price-adjusted balances.
    pub fn sim_xp(&self) -> (r: Result<Vec<u128>, SwapError>)
        ensures
            vec_matches(r, self@.xp()),
    {
        self.xp()
    }

    /// The reserve of asset `j` that keeps the invariant once the reserve of
    /// asset `i` is `x`.
    pub fn sim_y(&self, i: u128, j: u128, x: u128) -> (r: Result<u128, SwapError>)
        ensures
            r == self@.reserve_after(i as int, j as int, x),
    {
        self.y(position(i), position(j), x)
    }

    /// The reserve of asset `i` that makes the invariant `d`.
    pub fn sim_y_d(&self, i: u128, d: u128) -> (r: Result<u128, SwapError>)
        ensures
            r == self@.reserve_at(i as int, d),
    {
        self.y_d(position(i), d)
    }

    /// The pool tokens to burn for taking `amounts` out; the pool itself is
    /// not changed.
    pub fn sim_remove_liquidity_imbalance(&mut self, amounts: Vec<u128>) -> (r: Result<
        u128,
        SwapError,
    >)
        ensures
            r == old(self)@.withdraw_imbalanced(amounts@),
            *final(self) == *old(self),
    {
        self.remove_liquidity_imbalance(amounts)
    }

    /// The payout of asset `i` for burning `token_amount` pool tokens.
    pub fn sim_calc_withdraw_one_coin(&self, token_amount: u128, i: u128) -> (r: Result<
        u128,
        SwapError,
    >)
        ensures
            r == self@.withdraw_one_coin(token_amount, i as int),
    {
        self.calc_withdraw_one_coin(token_amount, position(i))
    }
}

/// Once a prefix of the assets has made the fee adjustment fail, the whole
/// adjustment fails in the same way.
pub proof fn lemma_charged_fails(
    before: Seq<u128>,
    after: Seq<u128>,
    rate: u128,
    d0: u128,
    d1: u128,
    k: int,
    e: SwapError,
)
    requires
        before.len() == after.len(),
        0 <= k <= before.len(),
        charged(before.take(k), after.take(k), rate, d0, d1) == Err::<Seq<u128>, SwapError>(e),
    ensures
        charged(before, after, rate, d0, d1) == Err::<Seq<u128>, SwapError>(e),
    decreases before.len() - k,
{
    if k < before.len() {
        assert(before.take(k + 1).drop_last() =~= before.take(k));
        assert(after.take(k + 1).drop_last() =~= after.take(k));
        lemma_charged_fails(before, after, rate, d0, d1, k + 1, e);
    } else {
        assert(before.take(k) =~= before);
        assert(after.take(k) =~= after);
    }
}

/// One reduced balance after the imbalance fee.
fn charge_one(before: u128, after: u128, rate: u128, d0: u128, d1: u128) -> (r: Result<
    u128,
    SwapError,
>)
    ensures
        r == charged_balance(before, after, rate, d0, d1),
{
    let ideal = match mul_div(d1, before, d0) {
        Ok(v) => v,
        Err(e) => {
            return Err(e);
        },
    };
    let diff = if ideal >= after {
        ideal - after
    } else {
        after - ideal
    };
    let cut = match mul_div(rate, diff, FEE_SCALE) {
        Ok(v) => v,
        Err(e) => {
            return Err(e);
        },
    };
    if cut > after {
        Err(SwapError::Overflow)
    } else {
        Ok(after - cut)
    }
}

/// All reduced balances after the imbalance fee.
fn charge(before: &Vec<u128>, after: &Vec<u128>, rate: u128, d0: u128, d1: u128) -> (r: Result<
    Vec<u128>,
    SwapError,
>)
    requires
        before.len() == after.len(),
    ensures
        vec_matches(r, charged(before@, after@, rate, d0, d1)),
        r is Ok ==> r->Ok_0.len() == before.len(),
{
    let mut out: Vec<u128> = Vec::new();
    let mut k: usize = 0;
    while k < before.len()
        invariant
            k <= before.len(),
            before.len() == after.len(),
            out.len() == k,
            charged(before@.take(k as int), after@.take(k as int), rate, d0, d1) == Ok::<
                Seq<u128>,
                SwapError,
            >(out@),
        decreases before.len() - k,
    {
        proof {
            assert(before@.take(k + 1).drop_last() =~= before@.take(k as int));
            assert(after@.take(k + 1).drop_last() =~= after@.take(k as int));
        }
        match charge_one(before[k], after[k], rate, d0, d1) {
            Err(e) => {
                proof {
                    lemma_charged_fails(before@, after@, rate, d0, d1, k + 1, e);
                }
                return Err(e);
            },
            Ok(v) => {
                out.push(v);
            },
        }
        k += 1;
    }
    proof {
        assert(before@.take(before.len() as int) =~= before@);
        assert(after@.take(after.len() as int) =~= after@);
    }
    Ok(out)
}

/// The fee of a single-asset withdrawal of asset `i`.
fn exit_fee_of(fee: u128, xp: &Vec<u128>, i: usize) -> (r: Result<u128, SwapError>)
    requires
        i < xp.len(),
    ensures
        r == exit_fee(fee, xp@, i as int),
{
    if fee == 0 {
        return Ok(0);
    }
    let s = match wide_narrow(wide_total(xp)) {
        Some(s) => s,
        None => {
            return Err(SwapError::Overflow);
        },
    };
    let part = match mul_div(fee, xp[i], s) {
        Ok(v) => v,
        Err(e) => {
            return Err(e);
        },
    };
    proof {
        lemma_total_covers(xp@, i as int);
        assert(fee * xp@[i as int] / (s as int) <= fee) by (nonlinear_arith)
            requires
                0 <= xp@[i as int] <= s,
                s > 0,
                fee >= 0,
        ;
    }
    match (fee - part).checked_add(WITHDRAW_FEE_OFFSET) {
        Some(v) => Ok(v),
        None => Err(SwapError::Overflow),
    }
}

} // verus!
