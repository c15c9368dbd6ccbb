use sc_delegation::pool::stake_ledger::{StakeLedger, UnbondQueueItem};
use sc_delegation::pool::states::UserStakeState;

fn ledger_with_users(n: usize) -> StakeLedger {
    let mut l = StakeLedger::new();
    for _ in 0..n {
        l.add_user();
    }
    l
}

fn total_of_state(l: &StakeLedger, s: UserStakeState, n: usize) -> u128 {
    let mut sum = 0u128;
    for u in 1..(n + 1) {
        sum += l.get_user_stake_of_type(u, s);
    }
    sum
}

#[test]
fn ledger_add_user_gives_next_id() {
    let mut l = StakeLedger::new();
    assert_eq!(l.add_user(), 1);
    assert_eq!(l.add_user(), 2);
    assert_eq!(l.get_user_total_stake(2), 0);
    assert_eq!(l.get_user_stake_of_type(7, UserStakeState::Active), 0);
}

#[test]
fn ledger_increase_and_decrease() {
    let mut l = ledger_with_users(2);
    l.increase_user_stake_of_type(1, UserStakeState::Inactive, 100);
    l.increase_user_stake_of_type(2, UserStakeState::Inactive, 50);
    l.increase_user_stake_of_type(2, UserStakeState::Active, 30);
    assert_eq!(l.get_user_stake_of_type(0, UserStakeState::Inactive), 150);
    assert_eq!(l.get_user_total_stake(2), 80);
    assert!(!l.decrease_user_stake_of_type(1, UserStakeState::Inactive, 101));
    assert_eq!(l.get_user_stake_of_type(1, UserStakeState::Inactive), 100);
    assert!(l.decrease_user_stake_of_type(1, UserStakeState::Inactive, 40));
    assert_eq!(l.get_user_stake_of_type(1, UserStakeState::Inactive), 60);
    assert_eq!(l.get_user_stake_of_type(0, UserStakeState::Inactive), 110);
    assert_eq!(l.get_user_total_stake(1), 60);
    // an unknown user has nothing, and taking nothing from it succeeds
    assert!(!l.decrease_user_stake_of_type(9, UserStakeState::Inactive, 1));
    assert!(l.decrease_user_stake_of_type(9, UserStakeState::Inactive, 0));
}

#[test]
fn ledger_totals_are_sums_of_users() {
    let mut l = ledger_with_users(3);
    l.increase_user_stake_of_type(1, UserStakeState::Inactive, 10);
    l.increase_user_stake_of_type(2, UserStakeState::Inactive, 20);
    l.increase_user_stake_of_type(3, UserStakeState::Inactive, 30);
    let mut supply = 25u128;
    l.convert_user_stake_asc(UserStakeState::Inactive, UserStakeState::Active, &mut supply);
    let mut supply2 = 5u128;
    l.convert_user_stake_desc(UserStakeState::Active, UserStakeState::PendingDeactivation, &mut supply2);
    for s in [UserStakeState::Inactive, UserStakeState::Active, UserStakeState::PendingDeactivation] {
        assert_eq!(l.get_user_stake_of_type(0, s), total_of_state(&l, s, 3));
    }
    for u in 1..4 {
        let by = l.get_user_stake_by_type(u);
        assert_eq!(l.get_user_total_stake(u), by.0 + by.1 + by.2 + by.3 + by.4 + by.5 + by.6 + by.7 + by.8 + by.9);
    }
}

#[test]
fn ledger_convert_one_user() {
    let mut l = ledger_with_users(1);
    l.increase_user_stake_of_type(1, UserStakeState::Active, 70);
    let mut supply = 100u128;
    l.convert_user_stake(1, UserStakeState::Active, UserStakeState::UnBondPeriod, &mut supply);
    assert_eq!(supply, 30);
    assert_eq!(l.get_user_stake_of_type(1, UserStakeState::Active), 0);
    assert_eq!(l.get_user_stake_of_type(1, UserStakeState::UnBondPeriod), 70);
    assert_eq!(l.get_user_total_stake(1), 70);
    let mut supply = 5u128;
    l.convert_user_stake(1, UserStakeState::UnBondPeriod, UserStakeState::WithdrawOnly, &mut supply);
    assert_eq!(supply, 0);
    assert_eq!(l.get_user_stake_of_type(1, UserStakeState::WithdrawOnly), 5);
    assert_eq!(l.get_user_stake_of_type(0, UserStakeState::UnBondPeriod), 65);
}

#[test]
fn ledger_asc_takes_older_users_first() {
    let mut l = ledger_with_users(3);
    for u in 1..4 {
        l.increase_user_stake_of_type(u, UserStakeState::Inactive, 10);
    }
    let mut supply = 15u128;
    l.convert_user_stake_asc(UserStakeState::Inactive, UserStakeState::PendingActivation, &mut supply);
    assert_eq!(supply, 0);
    assert_eq!(l.get_user_stake_of_type(1, UserStakeState::PendingActivation), 10);
    assert_eq!(l.get_user_stake_of_type(2, UserStakeState::PendingActivation), 5);
    assert_eq!(l.get_user_stake_of_type(3, UserStakeState::PendingActivation), 0);
    assert_eq!(l.get_user_stake_of_type(2, UserStakeState::Inactive), 5);
}

#[test]
fn ledger_desc_takes_newer_users_first() {
    let mut l = ledger_with_users(3);
    for u in 1..4 {
        l.increase_user_stake_of_type(u, UserStakeState::Active, 10);
    }
    let mut supply = 15u128;
    l.convert_user_stake_desc(UserStakeState::Active, UserStakeState::PendingDeactivation, &mut supply);
    assert_eq!(supply, 0);
    assert_eq!(l.get_user_stake_of_type(3, UserStakeState::PendingDeactivation), 10);
    assert_eq!(l.get_user_stake_of_type(2, UserStakeState::PendingDeactivation), 5);
    assert_eq!(l.get_user_stake_of_type(1, UserStakeState::PendingDeactivation), 0);
    // asking more than there is leaves the rest of the supply
    let mut supply = 100u128;
    l.convert_user_stake_desc(UserStakeState::Active, UserStakeState::PendingDeactivation, &mut supply);
    assert_eq!(supply, 85);
    assert_eq!(l.get_total_active_stake(), 0);
}

#[test]
fn ledger_queue_conversions() {
    let mut l = ledger_with_users(3);
    for u in 1..4 {
        l.increase_user_stake_of_type(u, UserStakeState::PendingUnBond, 10);
    }
    let queue = vec![UnbondQueueItem { user_id: 2, amount: 4 }, UnbondQueueItem { user_id: 1, amount: 20 }];
    let mut supply = 12u128;
    l.convert_for_queue(&queue, UserStakeState::PendingUnBond, UserStakeState::WithdrawOnly, &mut supply);
    // user 2 gives its entry's 4, user 1 the remaining 8
    assert_eq!(supply, 0);
    assert_eq!(l.get_user_stake_of_type(2, UserStakeState::WithdrawOnly), 4);
    assert_eq!(l.get_user_stake_of_type(1, UserStakeState::WithdrawOnly), 8);

    l.set_unbond_queue(queue.clone());
    let mut supply = 6u128;
    l.convert_and_pop_queue(UserStakeState::PendingUnBond, UserStakeState::WithdrawOnly, &mut supply);
    // user 2 has 6 left and gives its entry's 4; user 1 then gives 2 of its entry's 20
    assert_eq!(supply, 0);
    assert_eq!(l.get_unbond_queue(), vec![UnbondQueueItem { user_id: 1, amount: 18 }]);
    assert_eq!(l.get_user_stake_of_type(2, UserStakeState::WithdrawOnly), 8);
    assert_eq!(l.get_user_stake_of_type(1, UserStakeState::WithdrawOnly), 10);
}

#[test]
fn ledger_validate_minimum() {
    let mut l = ledger_with_users(2);
    l.increase_user_stake_of_type(1, UserStakeState::Inactive, 5);
    assert_eq!(l.validate_total_user_stake(1, 10), Err("cannot have less stake than minimum stake"));
    assert_eq!(l.validate_total_user_stake(1, 5), Ok(()));
    assert_eq!(l.validate_total_user_stake(2, 10), Ok(()));
    l.increase_user_stake_of_type(2, UserStakeState::WithdrawOnly, 3);
    assert_eq!(l.get_total_inactive_stake(), 8);
}
