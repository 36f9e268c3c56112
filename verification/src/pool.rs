//! The pool as a mathematical value, and what each engine operation yields on
//! it.

use vstd::prelude::*;
use crate::curve::{
    invariant_of, narrow, normalized, quotient, reserve_of, total, FEE_SCALE, PRICE_SCALE,
    WITHDRAW_FEE_OFFSET,
};
use crate::error::SwapError;

verus! {

/// A pool snapshot: the value that every operation is a function of.
pub ghost struct Pool {
    /// Amplification coefficient; positive in a well-formed pool.
    pub amplification: u128,
    /// Raw reserves, one per asset.
    pub balances: Seq<u128>,
    /// Number of assets; at least two in a well-formed pool.
    pub asset_count: u8,
    /// Swap fee, scaled by 10^10.
    pub fee: u128,
    /// Fixed relative prices, one per asset, scaled by 10^18.
    pub target_prices: Seq<u128>,
    /// Liquidity shares in existence.
    pub pool_token_supply: u128,
}

/// The distance between two numbers.
pub open spec fn gap(a: int, b: int) -> int {
    if a >= b {
        a - b
    } else {
        b - a
    }
}

/// Every amount can be taken out of its balance.
pub open spec fn covered(balances: Seq<u128>, amounts: Seq<u128>) -> bool {
    forall|k: int| 0 <= k < balances.len() ==> #[trigger] amounts[k] <= balances[k]
}

/// The balances that are left once `amounts` are taken out.
pub open spec fn reduced(balances: Seq<u128>, amounts: Seq<u128>) -> Seq<u128> {
    Seq::new(balances.len(), |k: int| (balances[k] - amounts[k]) as u128)
}

/// One reduced balance after the imbalance fee: the fee is `rate / 10^10` of
/// its distance from the ideal balance `d1 * before / d0`.
pub open spec fn charged_balance(before: u128, after: u128, rate: u128, d0: u128, d1: u128) -> Result<
    u128,
    SwapError,
> {
    match quotient(d1 * before, d0 as int) {
        Err(e) => Err(e),
        Ok(ideal) => match quotient(rate * gap(ideal as int, after as int), FEE_SCALE as int) {
            Err(e) => Err(e),
            Ok(cut) => narrow(after - cut),
        },
    }
}

/// All reduced balances after the imbalance fee, failing as the first asset
/// that fails.
pub open spec fn charged(before: Seq<u128>, after: Seq<u128>, rate: u128, d0: u128, d1: u128) -> Result<
    Seq<u128>,
    SwapError,
>
    recommends
        before.len() == after.len(),
    decreases before.len(),
{
    if before.len() == 0 {
        Ok(Seq::empty())
    } else {
        match charged(before.drop_last(), after.drop_last(), rate, d0, d1) {
            Err(e) => Err(e),
            Ok(front) => match charged_balance(before.last(), after.last(), rate, d0, d1) {
                Err(e) => Err(e),
                Ok(v) => Ok(front.push(v)),
            },
        }
    }
}

/// The fee of a single-asset withdrawal: nothing for a pool without a fee,
/// else `fee - fee * xp[i] / sum(xp) + 5 * 10^5`.
pub open spec fn exit_fee(fee: u128, xp: Seq<u128>, i: int) -> Result<u128, SwapError> {
    if fee > 0 {
        match narrow(total(xp)) {
            Err(e) => Err(e),
            Ok(s) => match quotient(fee * xp[i], s as int) {
                Err(e) => Err(e),
                Ok(part) => narrow(fee - part + WITHDRAW_FEE_OFFSET),
            },
        }
    } else {
        Ok(0)
    }
}

/// What a swap leaves behind, given the input reserve `x`, the solved output
/// reserve `y` and the gross output `dy`, all price-adjusted: the net output
/// and the new raw balances. The fee stays in the output reserve.
pub open spec fn settle(
    balances: Seq<u128>,
    prices: Seq<u128>,
    fee: u128,
    i: int,
    j: int,
    x: u128,
    y: u128,
    dy: u128,
) -> Result<(u128, Seq<u128>), SwapError> {
    if dy == 0 {
        Ok((0u128, balances))
    } else {
        match quotient(dy * fee, FEE_SCALE as int) {
            Err(e) => Err(e),
            Ok(cut) => match narrow(dy - cut) {
                Err(e) => Err(e),
                Ok(out) => match quotient(x * PRICE_SCALE, prices[i] as int) {
                    Err(e) => Err(e),
                    Ok(bi) => match quotient((y + cut) * PRICE_SCALE, prices[j] as int) {
                        Err(e) => Err(e),
                        Ok(bj) => Ok((out, balances.update(i, bi).update(j, bj))),
                    },
                },
            },
        }
    }
}

impl Pool {
    /// At least two assets, a positive amplification, and one balance and
    /// one price per asset.
    pub open spec fn wf(self) -> bool {
        &&& self.asset_count >= 2
        &&& self.amplification >= 1
        &&& self.balances.len() == self.asset_count
        &&& self.target_prices.len() == self.asset_count
    }

    /// `i` names an asset of the pool.
    pub open spec fn has_asset(self, i: int) -> bool {
        0 <= i < self.asset_count
    }

    /// The same pool with other balances.
    pub open spec fn with_balances(self, balances: Seq<u128>) -> Pool {
        Pool { balances, ..self }
    }

    /// The price-adjusted balances.
    pub open spec fn xp(self) -> Result<Seq<u128>, SwapError> {
        if !self.wf() {
            Err(SwapError::InvalidPool)
        } else {
            normalized(self.balances, self.target_prices)
        }
    }

    /// The invariant `D` of the pool.
    pub open spec fn invariant_d(self) -> Result<u128, SwapError> {
        match self.xp() {
            Err(e) => Err(e),
            Ok(xp) => invariant_of(xp, self.amplification as int, self.asset_count as int),
        }
    }

    /// The price-adjusted reserve of asset `j` that keeps the pool's
    /// invariant once the reserve of asset `i` is `x`.
    pub open spec fn reserve_after(self, i: int, j: int, x: u128) -> Result<u128, SwapError> {
        if !self.wf() {
            Err(SwapError::InvalidPool)
        } else if !(self.has_asset(i) && self.has_asset(j)) {
            Err(SwapError::InvalidInput)
        } else {
            match self.xp() {
                Err(e) => Err(e),
                Ok(xp) => match invariant_of(
                    xp,
                    self.amplification as int,
                    self.asset_count as int,
                ) {
                    Err(e) => Err(e),
                    Ok(d) => reserve_of(
                        d,
                        xp.update(i, x).remove(j),
                        self.amplification as int,
                        self.asset_count as int,
                    ),
                },
            }
        }
    }

    /// The price-adjusted reserve of asset `i` that, beside the other
    /// reserves as they are, makes the invariant `d`.
    pub open spec fn reserve_at(self, i: int, d: u128) -> Result<u128, SwapError> {
        if !self.wf() {
            Err(SwapError::InvalidPool)
        } else if !self.has_asset(i) {
            Err(SwapError::InvalidInput)
        } else {
            match self.xp() {
                Err(e) => Err(e),
                Ok(xp) => reserve_of(
                    d,
                    xp.remove(i),
                    self.amplification as int,
                    self.asset_count as int,
                ),
            }
        }
    }

    /// The gross output of asset `j` for `dx` of asset `i`, price-adjusted
    /// and before any fee.
    pub open spec fn swap_quote(self, i: int, j: int, dx: u128) -> Result<u128, SwapError> {
        if !self.wf() {
            Err(SwapError::InvalidPool)
        } else if !(self.has_asset(i) && self.has_asset(j)) {
            Err(SwapError::InvalidInput)
        } else {
            match self.xp() {
                Err(e) => Err(e),
                Ok(xp) => match narrow(xp[i] + dx) {
                    Err(e) => Err(e),
                    Ok(x) => match self.reserve_after(i, j, x) {
                        Err(e) => Err(e),
                        Ok(y) => narrow(xp[j] - y),
                    },
                },
            }
        }
    }

    /// The net output of a swap of `dx` of asset `i` for asset `j`, and the
    /// pool that it leaves.
    pub open spec fn apply_swap(self, i: int, j: int, dx: u128) -> Result<(u128, Pool), SwapError> {
        if !self.wf() {
            Err(SwapError::InvalidPool)
        } else if !(self.has_asset(i) && self.has_asset(j)) {
            Err(SwapError::InvalidInput)
        } else {
            match self.xp() {
                Err(e) => Err(e),
                Ok(xp) => match narrow(xp[i] + dx) {
                    Err(e) => Err(e),
                    Ok(x) => match self.reserve_after(i, j, x) {
                        Err(e) => Err(e),
                        Ok(y) => match narrow(xp[j] - y) {
                            Err(e) => Err(e),
                            Ok(dy) => match settle(
                                self.balances,
                                self.target_prices,
                                self.fee,
                                i,
                                j,
                                x,
                                y,
                                dy,
                            ) {
                                Err(e) => Err(e),
                                Ok((out, balances)) => Ok((out, self.with_balances(balances))),
                            },
                        },
                    },
                },
            }
        }
    }

    /// The pool tokens to burn for taking `amounts` out of the pool.
    pub open spec fn withdraw_imbalanced(self, amounts: Seq<u128>) -> Result<u128, SwapError> {
        let n = self.asset_count as int;
        if !self.wf() {
            Err(SwapError::InvalidPool)
        } else if amounts.len() != n {
            Err(SwapError::InvalidInput)
        } else {
            match quotient(self.fee * n, 4 * (n - 1)) {
                Err(e) => Err(e),
                Ok(rate) => match self.invariant_d() {
                    Err(e) => Err(e),
                    Ok(d0) => if !covered(self.balances, amounts) {
                        Err(SwapError::Overflow)
                    } else {
                        let after = reduced(self.balances, amounts);
                        match self.with_balances(after).invariant_d() {
                            Err(e) => Err(e),
                            Ok(d1) => match charged(self.balances, after, rate, d0, d1) {
                                Err(e) => Err(e),
                                Ok(adjusted) => match self.with_balances(adjusted).invariant_d() {
                                    Err(e) => Err(e),
                                    Ok(d2) => match narrow(d0 - d2) {
                                        Err(e) => Err(e),
                                        Ok(burnt) => quotient(
                                            burnt * self.pool_token_supply,
                                            d0 as int,
                                        ),
                                    },
                                },
                            },
                        }
                    },
                },
            }
        }
    }

    /// The raw payout of asset `i` for burning `token_amount` pool tokens.
    pub open spec fn withdraw_one_coin(self, token_amount: u128, i: int) -> Result<u128, SwapError> {
        if !self.wf() {
            Err(SwapError::InvalidPool)
        } else if !self.has_asset(i) {
            Err(SwapError::InvalidInput)
        } else {
            match self.xp() {
                Err(e) => Err(e),
                Ok(xp) => match exit_fee(self.fee, xp, i) {
                    Err(e) => Err(e),
                    Ok(fee) => match self.invariant_d() {
                        Err(e) => Err(e),
                        Ok(d0) => match quotient(
                            token_amount * d0,
                            self.pool_token_supply as int,
                        ) {
                            Err(e) => Err(e),
                            Ok(part) => match narrow(d0 - part) {
                                Err(e) => Err(e),
                                Ok(d1) => match self.reserve_at(i, d1) {
                                    Err(e) => Err(e),
                                    Ok(y) => match narrow(xp[i] - y) {
                                        Err(e) => Err(e),
                                        Ok(dy) => match quotient(dy * fee, FEE_SCALE as int) {
                                            Err(e) => Err(e),
                                            Ok(cut) => narrow(dy - cut),
                                        },
                                    },
                                },
                            },
                        },
                    },
                },
            }
        }
    }
}

} // verus!
