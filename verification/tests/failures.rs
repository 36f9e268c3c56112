use basic_stableswap_sim::{StableSwapModel, SwapError};

const PAR: u128 = 1_000_000_000_000_000_000;

#[test]
fn a_single_asset_is_no_pool() {
    let mut pool = StableSwapModel::new(100, vec![5], 1);
    assert!(!pool.is_well_formed());
    assert_eq!(pool.sim_d(), Err(SwapError::InvalidPool));
    assert_eq!(pool.sim_xp(), Err(SwapError::InvalidPool));
    assert_eq!(pool.sim_dy(0, 0, 1), Err(SwapError::InvalidPool));
    assert_eq!(pool.sim_y(0, 0, 1), Err(SwapError::InvalidPool));
    assert_eq!(pool.sim_y_d(0, 1), Err(SwapError::InvalidPool));
    assert_eq!(pool.sim_exchange(0, 0, 1), Err(SwapError::InvalidPool));
    assert_eq!(pool.sim_remove_liquidity_imbalance(vec![1]), Err(SwapError::InvalidPool));
    assert_eq!(pool.sim_calc_withdraw_one_coin(1, 0), Err(SwapError::InvalidPool));
}

#[test]
fn zero_amplification_is_no_pool() {
    let pool = StableSwapModel::new(0, vec![5, 5], 2);
    assert_eq!(pool.sim_d(), Err(SwapError::InvalidPool));
}

#[test]
fn a_balance_vector_of_the_wrong_length_is_no_pool() {
    let pool = StableSwapModel::new(100, vec![5, 5, 5], 2);
    assert_eq!(pool.sim_d(), Err(SwapError::InvalidPool));
    let mut pool = StableSwapModel::new(100, vec![5, 5], 2);
    pool.target_prices = vec![PAR];
    assert_eq!(pool.sim_xp(), Err(SwapError::InvalidPool));
}

#[test]
fn an_unknown_asset_is_rejected() {
    let mut pool = StableSwapModel::new_with_pool_tokens(100, vec![1000, 1000], 2, 10);
    assert_eq!(pool.sim_dy(0, 2, 1), Err(SwapError::InvalidInput));
    assert_eq!(pool.sim_dy(2, 0, 1), Err(SwapError::InvalidInput));
    assert_eq!(pool.sim_dy(u128::MAX, 0, 1), Err(SwapError::InvalidInput));
    assert_eq!(pool.sim_dy(1 << 64, 1, 1), Err(SwapError::InvalidInput));
    assert_eq!(pool.sim_y(0, 1 << 32, 1), Err(SwapError::InvalidInput));
    assert_eq!(pool.sim_y_d(2, 1), Err(SwapError::InvalidInput));
    assert_eq!(pool.sim_exchange(5, 1, 1), Err(SwapError::InvalidInput));
    assert_eq!(pool.sim_calc_withdraw_one_coin(1, 2), Err(SwapError::InvalidInput));
    assert_eq!(pool.balances, vec![1000, 1000]);
}

#[test]
fn amounts_need_one_entry_per_asset() {
    let mut pool = StableSwapModel::new_with_pool_tokens(100, vec![1000, 1000], 2, 10);
    assert_eq!(pool.sim_remove_liquidity_imbalance(vec![1, 1, 1]), Err(SwapError::InvalidInput));
    assert_eq!(pool.sim_remove_liquidity_imbalance(vec![1]), Err(SwapError::InvalidInput));
}

#[test]
fn an_empty_reserve_divides_by_zero() {
    assert_eq!(StableSwapModel::new(100, vec![0, 1000], 2).sim_d(), Err(SwapError::DivideByZero));
    assert_eq!(StableSwapModel::new(100, vec![0, 0], 2).sim_d(), Err(SwapError::DivideByZero));
    let pool = StableSwapModel::new(100, vec![0, 1000], 2);
    assert_eq!(pool.sim_dy(0, 1, 10), Err(SwapError::DivideByZero));
}

#[test]
fn a_zero_price_empties_the_reserve() {
    let mut pool = StableSwapModel::new(100, vec![1000, 1000], 2);
    pool.target_prices = vec![PAR, 0];
    assert_eq!(pool.sim_xp(), Ok(vec![1000, 0]));
    assert_eq!(pool.sim_d(), Err(SwapError::DivideByZero));
}

#[test]
fn no_pool_tokens_divide_by_zero() {
    let mut pool = StableSwapModel::new(100, vec![1000, 1000], 2);
    assert_eq!(pool.sim_calc_withdraw_one_coin(1, 0), Err(SwapError::DivideByZero));
    assert_eq!(pool.sim_remove_liquidity_imbalance(vec![1, 1]), Ok(0));
}

#[test]
fn withdrawing_more_than_a_reserve_overflows() {
    let mut pool = StableSwapModel::new_with_pool_tokens(100, vec![1000, 1000], 2, 10);
    assert_eq!(pool.sim_remove_liquidity_imbalance(vec![1001, 1]), Err(SwapError::Overflow));
    assert_eq!(pool.balances, vec![1000, 1000]);
}

#[test]
fn a_sum_beyond_128_bits_overflows() {
    let pool = StableSwapModel::new(100, vec![u128::MAX, u128::MAX], 2);
    assert_eq!(pool.sim_d(), Err(SwapError::Overflow));
    let pool = StableSwapModel::new(100, vec![1000, 1000], 2);
    assert_eq!(pool.sim_dy(0, 1, u128::MAX), Err(SwapError::Overflow));
}

#[test]
fn a_scaled_balance_beyond_128_bits_overflows() {
    let mut pool = StableSwapModel::new(100, vec![u128::MAX, 1000], 2);
    pool.target_prices = vec![2 * PAR, PAR];
    assert_eq!(pool.sim_xp(), Err(SwapError::Overflow));
    assert_eq!(pool.sim_d(), Err(SwapError::Overflow));
}

#[test]
fn a_quote_beyond_the_curve_overflows() {
    let big: u128 = 1 << 100;
    let pool = StableSwapModel::new_with_pool_tokens(100, vec![big, big + 12345, big - 999], 3, 1 << 90);
    assert_eq!(pool.sim_dy(0, 2, 1 << 80), Err(SwapError::Overflow));
    assert_eq!(pool.sim_calc_withdraw_one_coin(1 << 70, 1), Err(SwapError::Overflow));
    let pool = StableSwapModel::new(100, vec![1 << 126, 1 << 126, 1 << 126], 3);
    assert_eq!(pool.sim_dy(0, 1, 1 << 100), Err(SwapError::Overflow));
}

#[test]
fn a_fee_above_one_fails_and_leaves_the_pool() {
    let mut pool = StableSwapModel::new(100, vec![1_000_000, 1_000_000], 2);
    pool.fee = 20_000_000_000;
    assert_eq!(pool.sim_exchange(0, 1, 1000), Err(SwapError::Overflow));
    assert_eq!(pool.balances, vec![1_000_000, 1_000_000]);
}
