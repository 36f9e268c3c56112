use basic_stableswap_sim::{StableSwapModel, SwapError};

const PAR: u128 = 1_000_000_000_000_000_000;

fn uneven_pool() -> StableSwapModel {
    StableSwapModel::new_with_pool_tokens(100, vec![300_000000, 200_000000, 100_000000], 3, 600_000000)
}

#[test]
fn new_builds_a_pool_at_par_without_fee_or_tokens() {
    let pool = StableSwapModel::new(85, vec![1, 2, 3], 3);
    assert_eq!(pool.amp_factor, 85);
    assert_eq!(pool.balances, vec![1, 2, 3]);
    assert_eq!(pool.n_coins, 3);
    assert_eq!(pool.fee, 0);
    assert_eq!(pool.target_prices, vec![PAR, PAR, PAR]);
    assert_eq!(pool.pool_tokens, 0);
}

#[test]
fn new_with_pool_tokens_records_the_supply() {
    let pool = StableSwapModel::new_with_pool_tokens(7, vec![10, 20], 2, 12345);
    assert_eq!(pool.amp_factor, 7);
    assert_eq!(pool.balances, vec![10, 20]);
    assert_eq!(pool.n_coins, 2);
    assert_eq!(pool.fee, 0);
    assert_eq!(pool.target_prices, vec![PAR, PAR]);
    assert_eq!(pool.pool_tokens, 12345);
    assert!(pool.is_well_formed());
}

#[test]
fn xp_scales_by_price_and_truncates() {
    let mut pool = StableSwapModel::new(50, vec![7, 1_000_000_007, 123456789], 3);
    pool.target_prices = vec![PAR / 3, 2 * PAR + 1, PAR];
    assert_eq!(pool.sim_xp(), Ok(vec![2, 2000000014, 123456789]));
    assert_eq!(pool.sim_d(), Ok(45154434));
}

#[test]
fn xp_at_par_is_the_balances() {
    assert_eq!(uneven_pool().sim_xp(), Ok(vec![300_000000, 200_000000, 100_000000]));
}

#[test]
fn invariant_of_a_balanced_pool_is_the_sum() {
    let pool = StableSwapModel::new(100, vec![100_000000, 100_000000, 100_000000], 3);
    assert_eq!(pool.sim_d(), Ok(300_000000));
}

#[test]
fn invariant_of_an_uneven_pool() {
    assert_eq!(uneven_pool().sim_d(), Ok(599342806));
}

#[test]
fn invariant_of_large_reserves_needs_wide_products() {
    let big: u128 = 1 << 100;
    let pool = StableSwapModel::new(100, vec![big, big + 12345, big - 999], 3);
    assert_eq!(pool.sim_d(), Ok(3802951800684688204490109627474));
    let pool = StableSwapModel::new(100, vec![u128::MAX / 2, u128::MAX / 2 - 1000], 2);
    assert_eq!(pool.sim_d(), Ok(340282366920938463463374607431768210454));
    let pool = StableSwapModel::new(100, vec![1 << 126, 1 << 126, 1 << 126], 3);
    assert_eq!(pool.sim_d(), Ok(255211775190703847597530955573826158592));
}

#[test]
fn invariant_that_does_not_settle_is_the_thousandth_iterate() {
    // The iterates of these pools end up alternating between two values that
    // are more than one apart.
    let pool = StableSwapModel::new(100, vec![9232079, 10], 2);
    assert_eq!(pool.sim_d(), Ok(852343));
    let pool = StableSwapModel::new(3, vec![422156, 7, 1], 3);
    assert_eq!(pool.sim_d(), Ok(4169));
}

#[test]
fn reserve_after_a_deposit() {
    let pool = uneven_pool();
    assert_eq!(pool.sim_y(0, 1, 301_000000), Ok(199004417));
    assert_eq!(pool.sim_y(1, 1, 250_000000), Ok(199999999));
}

#[test]
fn reserve_for_a_given_invariant() {
    assert_eq!(uneven_pool().sim_y_d(0, 500_000000), Ok(200259843));
}

#[test]
fn quote_is_the_reserve_difference() {
    let pool = uneven_pool();
    assert_eq!(pool.sim_dy(0, 1, 1_000000), Ok(995583));
    assert_eq!(pool.sim_dy(2, 0, 5_000000), Ok(5082850));
    assert_eq!(pool.sim_dy(0, 1, 0), Ok(1));
}

#[test]
fn quote_of_an_asset_for_itself_is_nothing() {
    let mut pool = StableSwapModel::new(100, vec![1_000_000, 1_000_000], 2);
    assert_eq!(pool.sim_dy(0, 0, 1000), Ok(0));
    assert_eq!(pool.sim_exchange(0, 0, 1000), Ok(0));
    assert_eq!(pool.balances, vec![1_000_000, 1_000_000]);
}

#[test]
fn exchange_keeps_the_fee_in_the_output_reserve() {
    let mut pool = uneven_pool();
    pool.fee = 4_000_000;
    assert_eq!(pool.sim_exchange(0, 1, 1_000000), Ok(995185));
    assert_eq!(pool.balances, vec![301_000000, 199004815, 100_000000]);
    assert_eq!(pool.fee, 4_000_000);
    assert_eq!(pool.pool_tokens, 600_000000);
    assert_eq!(pool.sim_d(), Ok(599343203));
}

#[test]
fn exchange_without_output_changes_nothing() {
    let mut pool = StableSwapModel::new(100, vec![1_000_000, 1_000_000], 2);
    assert_eq!(pool.sim_exchange(0, 1, 0), Ok(0));
    assert_eq!(pool.balances, vec![1_000_000, 1_000_000]);
}

#[test]
fn exchange_with_a_full_fee_pays_nothing_and_keeps_everything() {
    let mut pool = StableSwapModel::new(100, vec![1_000_000, 1_000_000], 2);
    pool.fee = 10_000_000_000;
    assert_eq!(pool.sim_exchange(0, 1, 1000), Ok(0));
    assert_eq!(pool.balances, vec![1_001_000, 1_000_000]);
}

#[test]
fn swap_different_precisions() {
    // 100_000 FOO with four decimals beside 100_000 BAR with five, at one
    // FOO for one BAR; the offer is 100 FOO.
    let mut pool = StableSwapModel::new(100, vec![100_000_0000, 100_000_00000], 2);
    pool.target_prices = vec![10 * PAR, PAR];
    pool.fee = 5_000_000;
    assert_eq!(pool.sim_xp(), Ok(vec![10_000_000_000, 10_000_000_000]));
    assert_eq!(pool.sim_d(), Ok(20_000_000_000));
    let offer: u128 = 100_0000 * 10;
    let gross = pool.sim_dy(0, 1, offer).unwrap();
    assert_eq!(gross, 9999901);
    // The reverse quote: the reserve of FOO that goes with BAR less the
    // gross output gives the offer back.
    assert_eq!(pool.sim_y(1, 0, 10_000_000_000 - gross), Ok(10_000_000_000 + offer));
    // 99.94902 BAR
    assert_eq!(pool.sim_exchange(0, 1, offer), Ok(99_94902));
    assert_eq!(pool.balances, vec![100_100_0000, 9_990_005_098]);
    assert_eq!(pool.sim_d(), Ok(20_000_004_999));
}

#[test]
fn check_swaps() {
    let mut pool = StableSwapModel::new(100, vec![100_000_000000; 3], 3);
    pool.fee = 5_000_000;
    assert_eq!(pool.sim_dy(0, 1, 100_000000), Ok(99999010));
    assert_eq!(pool.sim_y(1, 0, 100_000_000000 - 99999010), Ok(100_100_000000));
    assert_eq!(pool.sim_exchange(0, 1, 100_000000), Ok(99_949011));
    assert_eq!(pool.balances, vec![100_100_000000, 99_900_050989, 100_000_000000]);
}

#[test]
fn imbalanced_withdrawal_without_fee() {
    let mut pool = uneven_pool();
    assert_eq!(pool.sim_remove_liquidity_imbalance(vec![1_000000, 2_000000, 3_000000]), Ok(6035767));
    assert_eq!(pool.balances, vec![300_000000, 200_000000, 100_000000]);
}

#[test]
fn imbalanced_withdrawal_with_fee_burns_more() {
    let mut pool = uneven_pool();
    pool.fee = 4_000_000;
    assert_eq!(pool.sim_remove_liquidity_imbalance(vec![1_000000, 2_000000, 3_000000]), Ok(6036371));
    assert_eq!(pool.sim_remove_liquidity_imbalance(vec![30_000000, 0, 0]), Ok(29886510));
    assert_eq!(pool.balances, vec![300_000000, 200_000000, 100_000000]);
    assert_eq!(pool.pool_tokens, 600_000000);
}

#[test]
fn imbalanced_withdrawal_of_large_reserves() {
    let big: u128 = 1 << 100;
    let mut pool = StableSwapModel::new_with_pool_tokens(100, vec![big, big + 12345, big - 999], 3, 1 << 90);
    assert_eq!(pool.sim_remove_liquidity_imbalance(vec![1 << 80, 0, 1 << 70]), Ok(393914848644745395711));
}

#[test]
fn single_coin_withdrawal_without_fee() {
    let pool = uneven_pool();
    assert_eq!(pool.sim_calc_withdraw_one_coin(10_000000, 0), Ok(10042399));
    assert_eq!(pool.sim_calc_withdraw_one_coin(10_000000, 2), Ok(9856932));
}

#[test]
fn single_coin_withdrawal_with_fee() {
    let mut pool = uneven_pool();
    pool.fee = 4_000_000;
    assert_eq!(pool.sim_calc_withdraw_one_coin(10_000000, 0), Ok(10039889));
    assert_eq!(pool.sim_calc_withdraw_one_coin(10_000000, 2), Ok(9853154));
}

#[test]
fn single_coin_withdrawal_of_the_whole_supply() {
    let pool = StableSwapModel::new_with_pool_tokens(100, vec![1_000_000, 1_000_000], 2, 2_000_000);
    assert_eq!(pool.sim_calc_withdraw_one_coin(2_000_000, 0), Ok(1_000_000));
    assert_eq!(pool.sim_calc_withdraw_one_coin(1_000_000, 0), Ok(967057));
    assert_eq!(pool.sim_calc_withdraw_one_coin(2_000_001, 0), Err(SwapError::Overflow));
}
