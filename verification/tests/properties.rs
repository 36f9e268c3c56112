use basic_stableswap_sim::StableSwapModel;

fn uneven(fee: u128) -> StableSwapModel {
    let mut pool = StableSwapModel::new_with_pool_tokens(100, vec![300_000000, 200_000000, 100_000000], 3, 600_000000);
    pool.fee = fee;
    pool
}

#[test]
fn the_invariant_is_the_same_each_time() {
    let pool = uneven(0);
    let first = pool.sim_d();
    let second = pool.sim_d();
    assert_eq!(first, second);
    assert_eq!(first, Ok(599342806));
    let mut other = uneven(123);
    other.pool_tokens = 1;
    assert_eq!(other.sim_d(), first);
}

#[test]
fn a_swap_with_fee_raises_the_invariant() {
    let mut pool = uneven(4_000_000);
    let before = pool.sim_d().unwrap();
    pool.sim_exchange(0, 1, 1_000000).unwrap();
    let after = pool.sim_d().unwrap();
    assert_eq!(before, 599342806);
    assert_eq!(after, 599343203);
    assert!(after >= before);
}

#[test]
fn a_swap_at_par_moves_exactly_what_is_paid_and_received() {
    let mut pool = uneven(4_000_000);
    let out = pool.sim_exchange(2, 0, 5_000000).unwrap();
    assert_eq!(out, 5080817);
    assert_eq!(pool.balances, vec![300_000000 - out, 200_000000, 100_000000 + 5_000000]);
}

#[test]
fn the_net_output_is_the_quote_less_the_fee() {
    let mut pool = uneven(4_000_000);
    let gross = pool.sim_dy(2, 0, 5_000000).unwrap();
    assert_eq!(gross, 5082850);
    assert_eq!(pool.sim_exchange(2, 0, 5_000000), Ok(gross - gross * 4_000_000 / 10_000_000_000));
    let mut free = uneven(0);
    assert_eq!(free.sim_exchange(2, 0, 5_000000), Ok(gross));
}

#[test]
fn a_swap_without_fee_keeps_the_invariant_within_one() {
    let mut pool = uneven(0);
    assert_eq!(pool.sim_exchange(0, 1, 7_000000), Ok(6966900));
    assert_eq!(pool.sim_d(), Ok(599342805));
}

#[test]
fn a_reverse_quote_recovers_the_input() {
    let pool = uneven(0);
    let out = pool.sim_dy(0, 1, 7_000000).unwrap();
    assert_eq!(out, 6966900);
    let needed = pool.sim_y(1, 0, 200_000000 - out).unwrap() - 300_000000;
    assert_eq!(needed, 7_000000);
}

#[test]
fn swapping_there_and_back_returns_nearly_the_input() {
    let mut pool = uneven(0);
    let out = pool.sim_exchange(0, 1, 7_000000).unwrap();
    assert_eq!(out, 6966900);
    assert_eq!(pool.sim_dy(1, 0, out), Ok(7000002));
    let back = pool.sim_exchange(1, 0, out).unwrap();
    assert_eq!(back, 7000002);
    assert_eq!(pool.balances, vec![299999998, 200_000000, 100_000000]);
}

#[test]
fn a_balanced_withdrawal_burns_the_proportional_share() {
    let mut pool = StableSwapModel::new_with_pool_tokens(100, vec![500_000000; 3], 3, 1_500_000000);
    assert_eq!(pool.sim_remove_liquidity_imbalance(vec![50_000000; 3]), Ok(150_000000));
    let mut pool = StableSwapModel::new_with_pool_tokens(100, vec![500_000000; 3], 3, 1_234_567);
    assert_eq!(pool.sim_remove_liquidity_imbalance(vec![7; 3]), Ok(0));
    let mut pool = StableSwapModel::new_with_pool_tokens(3, vec![1000, 1000], 2, 999);
    assert_eq!(pool.sim_remove_liquidity_imbalance(vec![334, 334]), Ok(333));
}

#[test]
fn a_higher_fee_never_pays_more() {
    let fees: [u128; 5] = [0, 1, 5_000_000, 1_000_000_000, 10_000_000_000];
    let outputs: [u128; 5] = [6966900, 6966900, 6963417, 6270210, 0];
    let kept: [u128; 5] = [193033100, 193033100, 193036583, 193729790, 200_000000];
    let mut last = u128::MAX;
    for k in 0..5 {
        let mut pool = uneven(fees[k]);
        let out = pool.sim_exchange(0, 1, 7_000000).unwrap();
        assert_eq!(out, outputs[k]);
        assert_eq!(pool.balances, vec![307_000000, kept[k], 100_000000]);
        assert!(out <= last);
        last = out;
    }
}
