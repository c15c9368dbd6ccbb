use sc_delegation::rewards::{load_updated_user_rewards, mul_div, service_fee_reward, UserRewardData};

#[test]
fn mul_div_without_intermediate_overflow() {
    assert_eq!(mul_div(u128::MAX, u128::MAX - 1, u128::MAX), u128::MAX - 1);
    assert_eq!(mul_div(10, 3, 4), 7);
    assert_eq!(mul_div(0, 5, 7), 0);
    assert_eq!(mul_div(12345, 0, 7), 0);
    assert_eq!(mul_div(1u128 << 100, 1u128 << 100, 1u128 << 101), 1u128 << 99);
}

#[test]
fn service_fee_of_large_rewards() {
    // 10% of 10^36
    assert_eq!(service_fee_reward(1_000_000_000_000_000_000_000_000_000_000_000_000, 1000), 100_000_000_000_000_000_000_000_000_000_000_000);
    assert_eq!(service_fee_reward(9999, 1), 0);
}

#[test]
fn rewards_of_realistic_amounts() {
    // 1,000,000 units of new rewards (10^24 in 10^-18 units) against 10 million units staked
    let tot: u128 = 1_000_000_000_000_000_000_000_000;
    let total_active: u128 = 10_000_000_000_000_000_000_000_000;
    let user_active: u128 = 2_500_000_000_000_000_000_000_000;
    let data = UserRewardData { reward_checkpoint: 0, unclaimed_rewards: 7 };
    let r = load_updated_user_rewards(data, 2, tot, 1000, total_active, 0, user_active);
    assert_eq!(r.reward_checkpoint, tot);
    // 90% of the rewards, a quarter of it
    assert_eq!(r.unclaimed_rewards, 7 + 225_000_000_000_000_000_000_000);
    // the owner gets the fee and the share of the stake for sale
    let owner = load_updated_user_rewards(
        UserRewardData { reward_checkpoint: 0, unclaimed_rewards: 0 },
        1,
        tot,
        1000,
        total_active - user_active,
        user_active,
        0,
    );
    assert_eq!(owner.unclaimed_rewards, 100_000_000_000_000_000_000_000 + 225_000_000_000_000_000_000_000);
    // nothing new: nothing changes
    assert_eq!(load_updated_user_rewards(r, 2, tot, 1000, total_active, 0, user_active), r);
}
