use quantum_pi_forge::error::ForgeError;
use quantum_pi_forge::fixed_point::{amount_add, amount_div, amount_mul, amount_sub, mul_div_floor, SCALE};
use quantum_pi_forge::forge::QuantumPiForge;
use quantum_pi_forge::pool::{canonical_pair_id, geometric_mean, get_amount_out, PairId};
use quantum_pi_forge::staking::{accrued_rewards, split_rewards};

const E: i128 = 1_000_000_000_000_000_000;

fn ready() -> QuantumPiForge {
    let mut forge = QuantumPiForge::new();
    forge.initialize(100, 200);
    forge
}

fn pool(forge: &mut QuantumPiForge, a: u64, b: u64, ra: i128, rb: i128) {
    forge.add_liquidity(a, b, ra, rb, 0, 0, 10, 0).unwrap();
}

#[test]
fn test_bigint_precision() {
    let amount_in = 1000000000000000000i128;
    let reserve_in = 1000000000000000000000i128;
    let reserve_out = 1000000000000000000000i128;
    let amount_out = get_amount_out(amount_in, reserve_in, reserve_out).unwrap();
    assert!(amount_out > 0);
    assert_eq!(amount_out, 999000999000999000);
}

#[test]
fn checked_primitives() {
    assert_eq!(SCALE, E);
    assert_eq!(amount_add(2, 3), Ok(5));
    assert_eq!(amount_add(i128::MAX, 1), Err(ForgeError::Overflow));
    assert_eq!(amount_sub(2, 3), Ok(-1));
    assert_eq!(amount_sub(i128::MIN, 1), Err(ForgeError::Overflow));
    assert_eq!(amount_mul(E, 7), Ok(7 * E));
    assert_eq!(amount_mul(i128::MAX, 2), Err(ForgeError::Overflow));
    assert_eq!(amount_div(7, 2), Ok(3));
    assert_eq!(amount_div(-7, 2), Ok(-3));
    assert_eq!(amount_div(7, 0), Err(ForgeError::DivisionByZero));
    assert_eq!(amount_div(i128::MIN, -1), Err(ForgeError::Overflow));
}

#[test]
fn wide_product_division() {
    let e: u128 = E as u128;
    assert_eq!(mul_div_floor(e, 1_000_000 * e, 1_000_000 * e + e), 999999000000999999);
    assert_eq!(mul_div_floor(5, 7, 5), 7);
    assert_eq!(mul_div_floor(0, 7, 5), 0);
    let big: u128 = (i128::MAX as u128) - 1;
    assert_eq!(mul_div_floor(big, big, big + 1), big - 1);
}

#[test]
fn geometric_mean_rounds_down() {
    assert_eq!(geometric_mean(1, 1), 1);
    assert_eq!(geometric_mean(3, 5), 3);
    assert_eq!(geometric_mean(4, 4), 4);
    assert_eq!(geometric_mean(4 * E, 9 * E), 6 * E);
    assert_eq!(geometric_mean(1_000_000 * E, 1_000_000 * E), 1_000_000 * E);
    assert_eq!(geometric_mean(1, i128::MAX), 13043817825332782212);
    assert_eq!(geometric_mean(i128::MAX, i128::MAX), i128::MAX);
}

#[test]
fn swap_output_stays_inside_pool() {
    for &(amount_in, reserve_in, reserve_out) in
        &[(1i128, 1i128, 2i128), (1000, 5000, 5000), (E, 7 * E, 3 * E), (i128::MAX / 2, 1, 2)]
    {
        let out = get_amount_out(amount_in, reserve_in, reserve_out).unwrap();
        assert!(out < reserve_out);
        assert!(out > 0);
        let before = reserve_in.checked_mul(reserve_out).unwrap();
        let after = (reserve_in + amount_in).checked_mul(reserve_out - out).unwrap();
        assert!(after >= before);
    }
    assert_eq!(get_amount_out(1000, 5000, 5000), Ok(833));
    assert_eq!(get_amount_out(1, 1_000_000, 1), Ok(0));
    assert_eq!(get_amount_out(1, 1, 1), Ok(0));
}

#[test]
fn swap_formula_overflow_boundary() {
    assert_eq!(get_amount_out(i128::MAX, 1, 2), Err(ForgeError::Overflow));
    assert_eq!(get_amount_out(0, 0, 2), Err(ForgeError::DivisionByZero));
}

#[test]
fn create_pair_is_idempotent() {
    let mut forge = ready();
    let first = forge.create_pair(7, 3).unwrap();
    assert_eq!(first, PairId { token0: 3, token1: 7 });
    pool(&mut forge, 3, 7, 5 * E, 9 * E);
    let before = forge.get_reserves(3, 7).unwrap();
    let second = forge.create_pair(7, 3).unwrap();
    assert_eq!(first, second);
    assert_eq!(forge.get_reserves(3, 7).unwrap(), before);
    assert_eq!(forge.pairs.len(), 1);
}

#[test]
fn create_pair_ignores_order() {
    let mut forge = ready();
    let ab = forge.create_pair(1, 2).unwrap();
    let ba = forge.create_pair(2, 1).unwrap();
    assert_eq!(ab, ba);
    assert_eq!(canonical_pair_id(9, 4), canonical_pair_id(4, 9));
    assert_eq!(forge.pairs.len(), 1);
}

#[test]
fn create_pair_errors() {
    let mut fresh = QuantumPiForge::new();
    assert_eq!(fresh.create_pair(1, 2), Err(ForgeError::NotInitialized));
    let mut forge = ready();
    assert_eq!(forge.create_pair(4, 4), Err(ForgeError::IdenticalTokens));
    assert!(forge.pairs.is_empty());
}

#[test]
fn first_deposit_mints_geometric_mean() {
    let mut forge = ready();
    let minted = forge.add_liquidity(1, 2, 4 * E, 9 * E, 0, 0, 10, 5).unwrap();
    assert_eq!(minted, (4 * E, 9 * E, 6 * E));
    assert_eq!(forge.get_reserves(1, 2), Ok((4 * E, 9 * E)));
    assert_eq!(forge.get_reserves(2, 1), Ok((9 * E, 4 * E)));
    assert_eq!(forge.pairs[0].total_supply, 6 * E);
}

#[test]
fn later_deposit_keeps_ratio() {
    let mut forge = ready();
    pool(&mut forge, 1, 2, 4 * E, 9 * E);
    let added = forge.add_liquidity(1, 2, 2 * E, 10 * E, 0, 0, 10, 0).unwrap();
    assert_eq!(added, (2 * E, 4_500_000_000_000_000_000, 3 * E));
    let added = forge.add_liquidity(2, 1, 27 * E, E, 0, 0, 10, 0).unwrap();
    assert_eq!(added, (2_250_000_000_000_000_000, E, 1_500_000_000_000_000_000));
    assert_eq!(
        forge.get_reserves(1, 2),
        Ok((7 * E, 15_750_000_000_000_000_000))
    );
}

#[test]
fn add_liquidity_errors() {
    let mut forge = ready();
    assert_eq!(forge.add_liquidity(1, 2, E, E, 0, 0, 10, 11), Err(ForgeError::Expired));
    assert_eq!(forge.add_liquidity(1, 2, 0, E, 0, 0, 10, 0), Err(ForgeError::InvalidAmount));
    assert_eq!(forge.add_liquidity(1, 1, E, E, 0, 0, 10, 0), Err(ForgeError::IdenticalTokens));
    assert_eq!(forge.add_liquidity(1, 2, E, E, 2 * E, 0, 10, 0), Err(ForgeError::InsufficientLiquidity));
    assert!(forge.pairs.is_empty());
    pool(&mut forge, 1, 2, 4 * E, 9 * E);
    assert_eq!(forge.add_liquidity(1, 2, i128::MAX, 1, 0, 0, 10, 0), Err(ForgeError::Overflow));
    assert_eq!(
        forge.add_liquidity(1, 2, 2 * E, 10 * E, 0, 5 * E, 10, 0),
        Err(ForgeError::InsufficientLiquidity)
    );
    assert_eq!(forge.get_reserves(1, 2), Ok((4 * E, 9 * E)));
    let mut fresh = QuantumPiForge::new();
    assert_eq!(fresh.add_liquidity(1, 2, E, E, 0, 0, 10, 0), Err(ForgeError::NotInitialized));
}

#[test]
fn add_then_remove_returns_no_more_than_deposited() {
    let mut forge = ready();
    pool(&mut forge, 1, 2, 1000, 3000);
    assert_eq!(forge.pairs[0].total_supply, 1732);
    let (a, b, shares) = forge.add_liquidity(1, 2, 10, 100, 0, 0, 10, 0).unwrap();
    assert_eq!((a, b, shares), (10, 30, 17));
    let (a_back, b_back) = forge.remove_liquidity(1, 2, shares, 0, 0, 10, 0).unwrap();
    assert_eq!((a_back, b_back), (9, 29));
    assert!(a_back <= a && b_back <= b);
    assert!(a - a_back <= (1000 + a) / (1732 + shares) + 1);
}

#[test]
fn add_then_remove_from_empty_pool_is_exact() {
    let mut forge = ready();
    let (a, b, shares) = forge.add_liquidity(1, 2, 4 * E, 9 * E, 0, 0, 10, 0).unwrap();
    let back = forge.remove_liquidity(2, 1, shares, 0, 0, 10, 0).unwrap();
    assert_eq!(back, (b, a));
    assert_eq!(forge.get_reserves(1, 2), Ok((0, 0)));
    assert_eq!(forge.pairs[0].total_supply, 0);
}

#[test]
fn remove_liquidity_errors() {
    let mut forge = ready();
    assert_eq!(forge.remove_liquidity(1, 2, 5, 0, 0, 10, 0), Err(ForgeError::PairNotFound));
    pool(&mut forge, 1, 2, 1000, 3000);
    assert_eq!(forge.remove_liquidity(1, 2, 0, 0, 0, 10, 0), Err(ForgeError::InvalidAmount));
    assert_eq!(forge.remove_liquidity(1, 2, 1733, 0, 0, 10, 0), Err(ForgeError::InsufficientLiquidity));
    assert_eq!(forge.remove_liquidity(1, 2, 1, 1, 0, 10, 0), Err(ForgeError::InsufficientLiquidity));
    assert_eq!(forge.remove_liquidity(1, 2, 100, 100, 0, 10, 0), Err(ForgeError::InsufficientLiquidity));
    assert_eq!(forge.remove_liquidity(1, 2, 100, 0, 0, 10, 11), Err(ForgeError::Expired));
    assert_eq!(forge.remove_liquidity(1, 1, 100, 0, 0, 10, 0), Err(ForgeError::IdenticalTokens));
    assert_eq!(forge.get_reserves(1, 2), Ok((1000, 3000)));
}

#[test]
fn single_hop_swap_scenario() {
    let mut forge = ready();
    pool(&mut forge, 1, 2, 1_000_000 * E, 1_000_000 * E);
    assert_eq!(
        forge.swap_exact_tokens_for_tokens(E, 999999000000999999 + 1, vec![1, 2], 10, 0),
        Err(ForgeError::InsufficientOutputAmount)
    );
    assert_eq!(forge.get_reserves(1, 2), Ok((1_000_000 * E, 1_000_000 * E)));
    let amounts = forge.swap_exact_tokens_for_tokens(E, 0, vec![1, 2], 10, 0).unwrap();
    assert_eq!(amounts, vec![E, 999999000000999999]);
    assert_eq!(
        forge.get_reserves(1, 2),
        Ok((1_000_001 * E, 1_000_000 * E - 999999000000999999))
    );
}

#[test]
fn multi_hop_swap_chains_outputs() {
    let mut forge = ready();
    pool(&mut forge, 1, 2, 1000 * E, 1000 * E);
    pool(&mut forge, 2, 3, 2000 * E, 1000 * E);
    let amounts = forge.swap_exact_tokens_for_tokens(E, 0, vec![1, 2, 3], 10, 0).unwrap();
    assert_eq!(amounts, vec![E, 999000999000999000, 499251123315027458]);
}

#[test]
fn swap_through_same_pool_twice_sees_new_reserves() {
    let mut forge = ready();
    pool(&mut forge, 1, 2, 1000 * E, 1000 * E);
    let amounts = forge.swap_exact_tokens_for_tokens(E, 0, vec![1, 2, 1], 10, 0).unwrap();
    assert_eq!(amounts, vec![E, 999000999000999000, 999999999999999999]);
    assert_eq!(forge.get_reserves(1, 2), Ok((1000 * E + 1, 1000 * E)));
}

#[test]
fn swap_errors_leave_pools_unchanged() {
    let mut forge = ready();
    pool(&mut forge, 1, 2, 1000 * E, 2);
    assert_eq!(forge.swap_exact_tokens_for_tokens(E, 0, vec![1, 2], 10, 11), Err(ForgeError::Expired));
    assert_eq!(forge.swap_exact_tokens_for_tokens(-1, 0, vec![1, 2], 10, 0), Err(ForgeError::InvalidAmount));
    assert_eq!(forge.swap_exact_tokens_for_tokens(E, 0, vec![1], 10, 0), Err(ForgeError::InvalidPath));
    assert_eq!(forge.swap_exact_tokens_for_tokens(E, 0, vec![1, 1], 10, 0), Err(ForgeError::InvalidPath));
    assert_eq!(forge.swap_exact_tokens_for_tokens(E, 0, vec![1, 2, 9], 10, 0), Err(ForgeError::PairNotFound));
    assert_eq!(
        forge.swap_exact_tokens_for_tokens(i128::MAX, 0, vec![1, 2], 10, 0),
        Err(ForgeError::Overflow)
    );
    forge.create_pair(5, 6).unwrap();
    assert_eq!(
        forge.swap_exact_tokens_for_tokens(E, 0, vec![5, 6], 10, 0),
        Err(ForgeError::InsufficientLiquidity)
    );
    assert_eq!(forge.get_reserves(1, 2), Ok((1000 * E, 2)));
    let mut fresh = QuantumPiForge::new();
    assert_eq!(fresh.swap_exact_tokens_for_tokens(E, 0, vec![1, 2], 10, 0), Err(ForgeError::NotInitialized));
}

#[test]
fn rewards_accrue_linearly() {
    let mut forge = ready();
    forge.stake(9, 3 * E, 1000).unwrap();
    let once = forge.calculate_rewards(9, 1000 + 50).unwrap();
    let twice = forge.calculate_rewards(9, 1000 + 100).unwrap();
    assert_eq!(twice, 2 * once);
    assert_eq!(once, 3 * E * 100 * 50);
    assert_eq!(accrued_rewards(E, 0), Ok(0));
    assert_eq!(accrued_rewards(i128::MAX, 1), Err(ForgeError::Overflow));
}

#[test]
fn fee_split_is_exact() {
    assert_eq!(split_rewards(0), (0, 0));
    assert_eq!(split_rewards(99), (0, 99));
    assert_eq!(split_rewards(12345), (123, 12222));
    let mut forge = ready();
    forge.stake(9, 7, 0).unwrap();
    let rewards = forge.calculate_rewards(9, 3).unwrap();
    assert_eq!(rewards, 2100);
    let user_reward = forge.claim_rewards(9, 3).unwrap();
    assert_eq!(rewards / 100 + user_reward, rewards);
    assert_eq!(user_reward, 2079);
}

#[test]
fn stake_and_claim_scenario() {
    let mut forge = ready();
    forge.stake(42, 1000 * E, 500).unwrap();
    assert_eq!(forge.get_total_staked(), 1000 * E);
    let rewards = forge.calculate_rewards(42, 600).unwrap();
    assert_eq!(rewards, 1000 * E * 100 * 100);
    let user_reward = forge.claim_rewards(42, 600).unwrap();
    assert_eq!(user_reward, rewards / 100 * 99);
    let stake = forge.get_user_stake(42).unwrap();
    assert_eq!(stake.rewards, user_reward);
    assert_eq!(stake.timestamp, 600);
    assert_eq!(stake.amount, 1000 * E);
    assert_eq!(forge.calculate_rewards(42, 600), Ok(0));
}

#[test]
fn stake_accumulates_and_resets_baseline() {
    let mut forge = ready();
    forge.stake(1, 10, 5).unwrap();
    forge.stake(1, 15, 8).unwrap();
    forge.stake(2, 4, 8).unwrap();
    let stake = forge.get_user_stake(1).unwrap();
    assert_eq!((stake.amount, stake.timestamp, stake.rewards), (25, 8, 0));
    assert_eq!(forge.get_total_staked(), 29);
    forge.stake(1, 1, 3).unwrap();
    assert_eq!(forge.get_user_stake(1).unwrap().timestamp, 8);
}

#[test]
fn staking_errors() {
    let mut forge = ready();
    assert_eq!(forge.stake(1, 0, 0), Err(ForgeError::InvalidAmount));
    assert_eq!(forge.stake(1, -5, 0), Err(ForgeError::InvalidAmount));
    assert_eq!(forge.calculate_rewards(1, 0), Err(ForgeError::NoStakeFound));
    assert_eq!(forge.claim_rewards(1, 0), Err(ForgeError::NoStakeFound));
    assert_eq!(forge.get_user_stake(1), Err(ForgeError::NoStakeFound));
    forge.stake(1, i128::MAX, 0).unwrap();
    assert_eq!(forge.stake(2, 1, 0), Err(ForgeError::Overflow));
    assert_eq!(forge.calculate_rewards(1, 1), Err(ForgeError::Overflow));
    assert_eq!(forge.claim_rewards(1, 1), Err(ForgeError::Overflow));
    assert_eq!(forge.get_total_staked(), i128::MAX);
}

#[test]
fn deposit_checks_both_minimums() {
    let mut forge = ready();
    pool(&mut forge, 1, 2, 1000, 1000);
    assert_eq!(forge.pairs[0].total_supply, 1000);
    assert_eq!(
        forge.add_liquidity(1, 2, 10, 10, 20, 0, 10, 0),
        Err(ForgeError::InsufficientLiquidity)
    );
    assert_eq!(
        forge.add_liquidity(1, 2, 100, 10, 0, 20, 10, 0),
        Err(ForgeError::InsufficientLiquidity)
    );
    assert_eq!(
        forge.add_liquidity(1, 2, 100, 10, 11, 0, 10, 0),
        Err(ForgeError::InsufficientLiquidity)
    );
    assert_eq!(forge.get_reserves(1, 2), Ok((1000, 1000)));
    assert_eq!(forge.add_liquidity(1, 2, 10, 10, 10, 10, 10, 0), Ok((10, 10, 10)));
    assert_eq!(forge.add_liquidity(1, 2, 100, 10, 10, 10, 10, 0), Ok((10, 10, 10)));
}

#[test]
fn zero_input_swap_moves_nothing() {
    let mut forge = ready();
    pool(&mut forge, 1, 2, 1000 * E, 1000 * E);
    assert_eq!(forge.swap_exact_tokens_for_tokens(0, 0, vec![1, 2], 10, 0), Ok(vec![0, 0]));
    assert_eq!(
        forge.swap_exact_tokens_for_tokens(0, 1, vec![1, 2], 10, 0),
        Err(ForgeError::InsufficientOutputAmount)
    );
    assert_eq!(forge.get_reserves(1, 2), Ok((1000 * E, 1000 * E)));
}

#[test]
fn remove_all_then_refill_is_exact() {
    let mut forge = ready();
    let (_, _, shares) = forge.add_liquidity(1, 2, 1000, 3000, 0, 0, 10, 0).unwrap();
    forge.remove_liquidity(1, 2, shares, 0, 0, 10, 0).unwrap();
    let (a, b, s) = forge.add_liquidity(1, 2, 8, 2, 0, 0, 10, 0).unwrap();
    assert_eq!((a, b, s), (8, 2, 4));
    assert_eq!(forge.remove_liquidity(1, 2, s, 0, 0, 10, 0), Ok((8, 2)));
}

#[test]
fn well_formedness_check() {
    let mut forge = ready();
    assert!(forge.is_well_formed());
    pool(&mut forge, 1, 2, 1000, 3000);
    forge.stake(4, 10, 0).unwrap();
    assert!(forge.is_well_formed());
    forge.pairs[0].reserve0 = 0;
    assert!(!forge.is_well_formed());
    forge.pairs[0].reserve0 = 1000;
    forge.stakes[0].stake.rewards = -1;
    assert!(!forge.is_well_formed());
    forge.stakes[0].stake.rewards = 0;
    forge.total_staked = -1;
    assert!(!forge.is_well_formed());
}

#[test]
fn claim_pays_all_but_one_percent() {
    let mut forge = ready();
    forge.stake(5, 199, 0).unwrap();
    assert_eq!(forge.calculate_rewards(5, 1), Ok(19900));
    assert_eq!(forge.claim_rewards(5, 1), Ok(19701));
    assert_eq!(forge.get_user_stake(5).unwrap().rewards, 19701);
    assert_eq!(forge.claim_rewards(5, 1), Ok(0));
}

#[test]
fn deposit_too_small_for_a_share_mints_none() {
    let mut forge = ready();
    assert_eq!(forge.add_liquidity(1, 2, 1, 4, 0, 0, 10, 0), Ok((1, 4, 2)));
    assert_eq!(forge.add_liquidity(1, 2, 1, 1, 0, 0, 10, 0), Ok((0, 1, 0)));
    assert_eq!(forge.get_reserves(1, 2), Ok((1, 5)));
    assert_eq!(forge.get_pair(2, 1).unwrap().total_supply, 2);
    assert!(forge.is_well_formed());
}

#[test]
fn burn_may_pay_nothing_on_one_side() {
    let mut forge = ready();
    pool(&mut forge, 1, 2, 1000, 3000);
    assert_eq!(forge.remove_liquidity(1, 2, 1, 0, 0, 10, 0), Ok((0, 1)));
    assert_eq!(forge.get_reserves(1, 2), Ok((1000, 2999)));
    assert_eq!(forge.get_pair(1, 2).unwrap().total_supply, 1731);
}

#[test]
fn pair_lookup() {
    let mut forge = ready();
    assert_eq!(forge.get_pair(1, 1), Err(ForgeError::IdenticalTokens));
    assert_eq!(forge.get_pair(1, 2), Err(ForgeError::PairNotFound));
    pool(&mut forge, 2, 1, 9, 4);
    let p = forge.get_pair(2, 1).unwrap();
    assert_eq!((p.token0, p.token1, p.reserve0, p.reserve1, p.total_supply), (1, 2, 4, 9, 6));
}

#[test]
fn duplicate_records_are_not_well_formed() {
    let mut forge = ready();
    pool(&mut forge, 1, 2, 1000, 3000);
    forge.stake(4, 10, 0).unwrap();
    let p = forge.pairs[0];
    forge.pairs.push(p);
    assert!(!forge.is_well_formed());
    forge.pairs.pop();
    let st = forge.stakes[0];
    forge.stakes.push(st);
    assert!(!forge.is_well_formed());
    forge.stakes.pop();
    assert!(forge.is_well_formed());
}
