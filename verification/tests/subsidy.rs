use balances::subsidy::{block_reward, HALVING_INTERVAL, INITIAL_SUBSIDY};

#[test]
fn genesis_reward_is_initial_subsidy() {
    assert_eq!(block_reward(0), INITIAL_SUBSIDY);
    assert_eq!(block_reward(0), 5_000_000_000);
}

#[test]
fn first_halving_halves_the_reward() {
    assert_eq!(block_reward(HALVING_INTERVAL), INITIAL_SUBSIDY / 2);
    assert_eq!(block_reward(210_000), 2_500_000_000);
}

#[test]
fn reward_within_an_interval_is_constant() {
    assert_eq!(block_reward(1), 5_000_000_000);
    assert_eq!(block_reward(209_999), 5_000_000_000);
    assert_eq!(block_reward(419_999), 2_500_000_000);
    assert_eq!(block_reward(420_000), 1_250_000_000);
}

#[test]
fn reward_saturates_to_zero() {
    // 33 halvings already clear the initial subsidy's bit width.
    assert_eq!(block_reward(33 * 210_000), 0);
    // Shifts past the word width must saturate, not panic.
    assert_eq!(block_reward(64 * 210_000), 0);
    assert_eq!(block_reward(u64::MAX), 0);
}
