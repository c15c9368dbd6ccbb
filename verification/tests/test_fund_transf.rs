use sc_delegation::pool::fund::{
    FundInfo, FundItem, FundType, DISCR_ACTIVE, DISCR_ACTIVE_FAILED, DISCR_ACTIVE_FOR_SALE, DISCR_DEF_PAYMENT, DISCR_FREE,
    DISCR_PENDING_ACT, DISCR_PENDING_DEACT, DISCR_PENDING_UNBOND, DISCR_UNBOND,
};
use sc_delegation::pool::fund_store::FundStore;
use sc_delegation::pool::states::{StakeState, UserStakeState};
use sc_delegation::user_data::UserDataModule;

fn item(user_id: usize, fund_type: FundType, balance: u128) -> FundItem {
    FundItem { info: FundInfo { user_id, fund_type }, balance }
}

fn list(s: &FundStore, d: u8) -> Vec<FundItem> {
    s.get_fund_list(d).0
}

const FREE: FundType = FundType::Free { requested_unstake: false };

/// Users 1 and 2 with 100 and 20 of active stake, and 30 free for user 2.
fn active_store() -> FundStore {
    let mut s = FundStore::new();
    s.create_free_stake(1, 100);
    s.create_free_stake(2, 50);
    let mut amount = 120u128;
    assert_eq!(s.activate_start_transf(&mut amount), Ok(()));
    assert_eq!(amount, 0);
    let mut amount = 120u128;
    assert_eq!(s.activate_finish_ok_transf(&mut amount), Ok(()));
    s
}

#[test]
fn activation_moves_oldest_free_stake_first() {
    let mut s = FundStore::new();
    s.create_free_stake(1, 100);
    s.create_free_stake(2, 50);
    let mut amount = 120u128;
    assert_eq!(s.activate_start_transf(&mut amount), Ok(()));
    assert_eq!(list(&s, DISCR_PENDING_ACT), vec![item(1, FundType::PendingActivation, 100), item(2, FundType::PendingActivation, 20)]);
    assert_eq!(list(&s, DISCR_FREE), vec![item(2, FREE, 30)]);
    // only 30 more is free: it all moves, and 10 could not be found
    let mut amount = 40u128;
    assert_eq!(s.activate_start_transf(&mut amount), Err("not enough inactive stake"));
    assert_eq!(amount, 10);
    assert_eq!(list(&s, DISCR_FREE), Vec::<FundItem>::new());
    // the same user's funds pushed one after the other merge
    assert_eq!(list(&s, DISCR_PENDING_ACT), vec![item(1, FundType::PendingActivation, 100), item(2, FundType::PendingActivation, 50)]);
    assert_eq!(s.get_user_stake_of_type(1, UserStakeState::PendingActivation), 100);
    assert_eq!(s.get_user_stake_of_type(1, UserStakeState::PendingUnBond), 0);
}

#[test]
fn failed_activation_can_be_claimed_back() {
    let mut s = FundStore::new();
    s.create_free_stake(1, 100);
    let mut amount = 100u128;
    s.activate_start_transf(&mut amount).unwrap();
    let mut amount = 60u128;
    assert_eq!(s.activate_finish_fail_transf(&mut amount), Ok(()));
    assert_eq!(list(&s, DISCR_ACTIVE_FAILED), vec![item(1, FundType::ActivationFailed, 60)]);
    let mut amount = 70u128;
    assert_eq!(s.activate_finish_fail_transf(&mut amount), Err("cannot offer more than the user active stake"));
    assert_eq!(amount, 30);
    let mut amount = 1000u128;
    assert_eq!(s.claim_activation_failed_transf(&mut amount), Ok(()));
    assert_eq!(amount, 900);
    assert_eq!(list(&s, DISCR_FREE), vec![item(1, FREE, 100)]);
}

#[test]
fn stake_offered_then_sold() {
    let mut s = active_store();
    s.create_free_stake(2, 15);
    assert_eq!(s.announce_unstake_transf(1, 30, 10), Ok(()));
    assert_eq!(list(&s, DISCR_ACTIVE), vec![item(1, FundType::Active, 70), item(2, FundType::Active, 20)]);
    assert_eq!(list(&s, DISCR_ACTIVE_FOR_SALE), vec![item(1, FundType::ActiveForSale { created: 10 }, 30)]);
    assert_eq!(s.announce_unstake_transf(2, 21, 10), Err("cannot offer more than the user active stake"));

    let mut s = active_store();
    s.create_free_stake(2, 15);
    s.announce_unstake_transf(1, 30, 10).unwrap();
    assert_eq!(s.stake_sale_transf(2, 1, 10, 12), Ok(()));
    assert_eq!(list(&s, DISCR_ACTIVE_FOR_SALE), vec![item(1, FundType::ActiveForSale { created: 10 }, 20)]);
    assert_eq!(list(&s, DISCR_ACTIVE), vec![item(1, FundType::Active, 70), item(2, FundType::Active, 30)]);
    // user 2's free funds had merged into one: 30 + 15, less the payment
    assert_eq!(list(&s, DISCR_FREE), vec![item(2, FREE, 35)]);
    assert_eq!(list(&s, DISCR_DEF_PAYMENT), vec![item(1, FundType::DeferredPayment { created: 12 }, 10)]);
    assert_eq!(s.stake_sale_transf(2, 1, 21, 12), Err("not enough stake for sale"));

    // the payment is due only strictly after 5 blocks
    assert_eq!(s.eligible_deferred_payment(1, 5, 17), 0);
    assert_eq!(s.eligible_deferred_payment(1, 5, 18), 10);
    assert_eq!(s.claim_all_eligible_deferred_payment(1, 5, 17), Ok(0));
    assert_eq!(s.claim_all_eligible_deferred_payment(1, 5, 18), Ok(10));
    assert_eq!(list(&s, DISCR_FREE), vec![item(2, FREE, 35), item(1, FundType::Free { requested_unstake: true }, 10)]);
    assert_eq!(s.get_user_stake_of_type(1, UserStakeState::WithdrawOnly), 10);
}

#[test]
fn sale_without_enough_payment_fails() {
    let mut s = active_store();
    s.announce_unstake_transf(1, 30, 10).unwrap();
    // user 3 has no free funds
    assert_eq!(s.stake_sale_transf(3, 1, 10, 12), Err("not enough funds for payment"));
}

#[test]
fn unstake_unbond_cycle() {
    let mut s = active_store();
    s.announce_unstake_transf(1, 20, 10).unwrap();
    // the requester's stake offered long enough ago goes first, then the oldest active stake
    assert_eq!(s.eligible_for_unstake(1, 3, 13), 0);
    assert_eq!(s.eligible_for_unstake(1, 3, 14), 20);
    let mut amount = 25u128;
    assert_eq!(s.unstake_start_transf(Some(1), 3, &mut amount, 20), Ok(()));
    assert_eq!(amount, 25);
    assert_eq!(list(&s, DISCR_ACTIVE_FOR_SALE), Vec::<FundItem>::new());
    assert_eq!(
        list(&s, DISCR_PENDING_DEACT),
        vec![
            item(1, FundType::PendingDeactivation { requested_unstake: true }, 20),
            item(1, FundType::PendingDeactivation { requested_unstake: false }, 5),
        ]
    );
    assert_eq!(list(&s, DISCR_ACTIVE), vec![item(1, FundType::Active, 75), item(2, FundType::Active, 20)]);
    let mut too_much = 1000u128;
    assert_eq!(s.unstake_start_transf(None, 3, &mut too_much, 20), Err("insufficient stake to unstake"));

    let mut s = active_store();
    let mut amount = 25u128;
    s.unstake_start_transf(None, 3, &mut amount, 20).unwrap();
    let mut amount = 25u128;
    assert_eq!(s.unstake_finish_ok_transf(&mut amount, 21), Ok(()));
    assert_eq!(list(&s, DISCR_UNBOND), vec![item(1, FundType::UnBondPeriod { created: 21, requested_unstake: false }, 25)]);
    // the unbond period of 5 blocks is over at block 26
    let mut amount = 25u128;
    assert_eq!(s.unbond_start_transf(5, &mut amount, 25), Err("cannot offer more than the user active stake"));
    assert_eq!(amount, 25);
    let mut amount = 25u128;
    assert_eq!(s.unbond_start_transf(5, &mut amount, 26), Ok(()));
    assert_eq!(
        list(&s, DISCR_PENDING_UNBOND),
        vec![item(1, FundType::PendingUnBond { unbond_created: 21, requested_unstake: false }, 25)]
    );
    // pending unbond stake is read from its own list, not from the pending activation one
    assert_eq!(s.get_user_stake_of_type(1, UserStakeState::PendingUnBond), 25);
    assert_eq!(s.get_user_stake_of_type(0, UserStakeState::PendingUnBond), 25);
    assert_eq!(s.get_user_stake_of_type(2, UserStakeState::PendingUnBond), 0);
    assert_eq!(s.get_user_stake_of_type(1, UserStakeState::PendingActivation), 0);
    let mut amount = 10u128;
    assert_eq!(s.unbond_finish_fail_transf(&mut amount), Ok(()));
    assert_eq!(list(&s, DISCR_UNBOND), vec![item(1, FundType::UnBondPeriod { created: 21, requested_unstake: false }, 10)]);
    let mut amount = 15u128;
    assert_eq!(s.unbond_finish_ok_transf(&mut amount), Ok(()));
    assert_eq!(list(&s, DISCR_FREE), vec![item(2, FREE, 30), item(1, FREE, 15)]);
}

#[test]
fn failed_unstake_returns_stake_to_active() {
    let mut s = active_store();
    let mut amount = 30u128;
    s.unstake_start_transf(None, 3, &mut amount, 20).unwrap();
    let mut amount = 40u128;
    assert_eq!(s.unstake_finish_fail_transf(&mut amount), Err("cannot offer more than the user active stake"));
    assert_eq!(amount, 10);
    assert_eq!(list(&s, DISCR_PENDING_DEACT), Vec::<FundItem>::new());
    assert_eq!(list(&s, DISCR_ACTIVE), vec![item(1, FundType::Active, 70), item(2, FundType::Active, 20), item(1, FundType::Active, 30)]);
}

#[test]
fn store_views() {
    let mut s = active_store();
    s.announce_unstake_transf(1, 30, 7).unwrap();
    s.announce_unstake_transf(1, 10, 9).unwrap();
    let mut users = UserDataModule::new();
    assert_eq!(users.get_or_create_user(&vec![1u8; 32]), 1);
    assert_eq!(s.get_stake_for_sale_creation_nonces(&users, &vec![1u8; 32]), vec![7, 9]);
    assert_eq!(s.get_stake_for_sale_creation_nonces(&users, &vec![5u8; 32]), Vec::<u64>::new());
    // only the 30 free funds of user 2 are held by the contract itself
    assert_eq!(s.all_funds_in_contract(), 30);
    assert_eq!(s.get_total_stake(), 150);
    // user 1 (the owner) holds 100 of 150: 66.66%
    assert_eq!(s.validate_owner_stake_share(6666), Ok(()));
    assert_eq!(s.validate_owner_stake_share(6667), Err("owner doesn't have enough stake in the contract"));
    assert!(FundType::ActiveForSale { created: 7 }.is_active_stake());
    assert!(!FundType::PendingActivation.is_active_stake());
    assert!(StakeState::OpenForStaking.is_open());
    assert!(!StakeState::Active.is_open());
}
