use std::cell::RefCell;

use sc_delegation::fund_module::{FundModule, SwapDirection};
use sc_delegation::fund_type::{FundDescription, FundType};

fn waiting() -> FundDescription {
    FundDescription::Waiting { created: 0 }
}

fn check_consistency_for_type(module: &FundModule, fund_type: FundType) {
    let mut sum: u128 = 0;
    let type_list = module.get_fund_list_by_type(fund_type);
    let mut id = type_list.first;
    let mut prev_id = 0;
    while id > 0 {
        let fund_item = module.fund_by_id(id);
        assert_eq!(fund_item.type_list_prev, prev_id, "type list inconsistency: bad prev");
        if fund_item.type_list_next == 0 {
            assert_eq!(type_list.last, id, "type list inconsistency: bad last");
        }
        sum += fund_item.balance;
        prev_id = id;
        id = fund_item.type_list_next;
    }
    assert!(sum == type_list.total_balance, "type list inconsistency: bad sum");
}

fn check_consistency_for_user_type(module: &FundModule, user_id: usize, fund_type: FundType) {
    let mut sum: u128 = 0;
    let user_type_list = module.fund_list_by_user(user_id, fund_type);
    let mut id = user_type_list.first;
    let mut prev_id = 0;
    while id > 0 {
        let fund_item = module.fund_by_id(id);
        assert_eq!(fund_item.user_id, user_id, "user-type list inconsistency: bad user_id");
        assert_eq!(fund_item.user_list_prev, prev_id, "user-type list inconsistency: bad prev");
        if fund_item.user_list_next == 0 {
            assert_eq!(user_type_list.last, id, "user-type list inconsistency: bad list last");
        }
        sum += fund_item.balance;
        prev_id = id;
        id = fund_item.user_list_next;
    }
    assert!(sum == user_type_list.total_balance, "user-type list inconsistency: bad sum");
}

fn check_consistency(module: &FundModule, num_users: usize) {
    for fund_type in FundType::all_types() {
        check_consistency_for_type(module, fund_type);
        for user_id in 1..(num_users + 1) {
            check_consistency_for_user_type(module, user_id, fund_type);
        }
    }
}

#[test]
fn test_fund_inc_dec_1() {
    let mut fund_module = FundModule::new();
    let user_id = 2;

    fund_module.increase_fund_balance(user_id, waiting(), 1234);

    check_consistency(&fund_module, 3);
    assert_eq!(1234, fund_module.query_sum_funds_by_type(FundType::Waiting, |_, _| true));
    assert_eq!(1, fund_module.count_fund_items_by_type(FundType::Waiting, |_, _| true));
    assert_eq!(1234, fund_module.query_sum_funds_by_user_type(user_id, FundType::Waiting, |_| true));
    assert_eq!(1, fund_module.count_fund_items_by_user_type(user_id, FundType::Waiting, |_| true));

    let destroyed = fund_module.destroy_all_for_user(user_id, FundType::Waiting);
    assert_eq!(destroyed, 1234);

    check_consistency(&fund_module, 3);
    assert_eq!(0, fund_module.query_sum_funds_by_type(FundType::Waiting, |_, _| true));
    assert_eq!(0, fund_module.count_fund_items_by_type(FundType::Waiting, |_, _| true));
    assert_eq!(0, fund_module.query_sum_funds_by_user_type(user_id, FundType::Waiting, |_| true));
    assert_eq!(0, fund_module.count_fund_items_by_user_type(user_id, FundType::Waiting, |_| true));
}

#[test]
fn test_fund_inc_dec_2() {
    let mut fund_module = FundModule::new();
    let user_id = 1;

    fund_module.increase_fund_balance(user_id, waiting(), 1200);
    fund_module.increase_fund_balance(user_id, waiting(), 34);

    check_consistency(&fund_module, 3);
    assert_eq!(1234, fund_module.query_sum_funds_by_type(FundType::Waiting, |_, _| true));
    assert_eq!(2, fund_module.count_fund_items_by_type(FundType::Waiting, |_, _| true));
    assert_eq!(1234, fund_module.query_sum_funds_by_user_type(user_id, FundType::Waiting, |_| true));
    assert_eq!(2, fund_module.count_fund_items_by_user_type(user_id, FundType::Waiting, |_| true));

    let destroyed = fund_module.destroy_all_for_user(user_id, FundType::Waiting);
    assert_eq!(destroyed, 1234);

    check_consistency(&fund_module, 3);
    assert_eq!(0, fund_module.query_sum_funds_by_type(FundType::Waiting, |_, _| true));
    assert_eq!(0, fund_module.count_fund_items_by_type(FundType::Waiting, |_, _| true));
    assert_eq!(0, fund_module.query_sum_funds_by_user_type(user_id, FundType::Waiting, |_| true));
    assert_eq!(0, fund_module.count_fund_items_by_user_type(user_id, FundType::Waiting, |_| true));

    let destroyed = fund_module.destroy_all_for_user(user_id, FundType::Waiting);
    assert_eq!(destroyed, 0);

    check_consistency(&fund_module, 3);
    assert_eq!(0, fund_module.query_sum_funds_by_type(FundType::Waiting, |_, _| true));
    assert_eq!(0, fund_module.count_fund_items_by_type(FundType::Waiting, |_, _| true));
    assert_eq!(0, fund_module.query_sum_funds_by_user_type(user_id, FundType::Waiting, |_| true));
    assert_eq!(0, fund_module.count_fund_items_by_user_type(user_id, FundType::Waiting, |_| true));
}

#[test]
fn test_fund_inc_dec_3() {
    let mut fund_module = FundModule::new();
    let user_id = 3;

    fund_module.increase_fund_balance(user_id, waiting(), 1200);
    fund_module.increase_fund_balance(user_id, waiting(), 34);

    check_consistency(&fund_module, 3);
    assert_eq!(1234, fund_module.query_sum_funds_by_type(FundType::Waiting, |_, _| true));
    assert_eq!(2, fund_module.count_fund_items_by_type(FundType::Waiting, |_, _| true));
    assert_eq!(1234, fund_module.query_sum_funds_by_user_type(user_id, FundType::Waiting, |_| true));
    assert_eq!(2, fund_module.count_fund_items_by_user_type(user_id, FundType::Waiting, |_| true));

    let destroyed = fund_module.destroy_all_for_user(user_id, FundType::Waiting);
    assert_eq!(destroyed, 1234);

    check_consistency(&fund_module, 3);
    assert_eq!(0, fund_module.query_sum_funds_by_type(FundType::Waiting, |_, _| true));
    assert_eq!(0, fund_module.count_fund_items_by_type(FundType::Waiting, |_, _| true));
    assert_eq!(0, fund_module.query_sum_funds_by_user_type(user_id, FundType::Waiting, |_| true));
    assert_eq!(0, fund_module.count_fund_items_by_user_type(user_id, FundType::Waiting, |_| true));
}

#[test]
fn test_transfer_funds_1() {
    let mut fund_module = FundModule::new();
    let user_1 = 2;
    let user_2 = 3;

    fund_module.increase_fund_balance(user_1, waiting(), 1200);
    fund_module.increase_fund_balance(user_2, waiting(), 34);

    check_consistency(&fund_module, 4);
    assert_eq!(
        1234,
        fund_module.query_sum_all_funds_brute_force(|_, fund_desc| matches!(fund_desc, FundDescription::Waiting { .. }))
    );

    let _ = fund_module.split_convert_max_by_type(
        None,
        FundType::Waiting,
        SwapDirection::Forwards,
        |_, _| Some(FundDescription::Active),
        || false,
        false,
    );

    check_consistency(&fund_module, 4);
    assert_eq!(
        1234,
        fund_module.query_sum_all_funds_brute_force(|_, fund_desc| fund_desc == FundDescription::Active)
    );
    assert_eq!(1234, fund_module.query_sum_funds_by_type(FundType::Active, |_, _| true));
    assert_eq!(2, fund_module.count_fund_items_by_type(FundType::Active, |_, _| true));
    assert_eq!(1200, fund_module.query_sum_funds_by_user_type(user_1, FundType::Active, |_| true));
    assert_eq!(1, fund_module.count_fund_items_by_user_type(user_1, FundType::Active, |_| true));
    assert_eq!(34, fund_module.query_sum_funds_by_user_type(user_2, FundType::Active, |_| true));
    assert_eq!(1, fund_module.count_fund_items_by_user_type(user_2, FundType::Active, |_| true));
}

#[test]
fn test_transfer_funds_2() {
    let mut fund_module = FundModule::new();
    let user_1 = 2;
    let user_2 = 3;
    let user_3 = 5;

    fund_module.increase_fund_balance(user_1, waiting(), 1200);
    fund_module.increase_fund_balance(user_2, waiting(), 34);
    fund_module.increase_fund_balance(user_3, waiting(), 11);

    let mut amount: u128 = 1000;
    let affected_users = fund_module.split_convert_max_by_type(
        Some(&mut amount),
        FundType::Waiting,
        SwapDirection::Forwards,
        |_, _| Some(FundDescription::Active),
        || false,
        false,
    );

    assert_eq!(affected_users, vec![user_1]);
    assert_eq!(amount, 0);

    check_consistency(&fund_module, 5);
    assert_eq!(
        1000,
        fund_module.query_sum_all_funds_brute_force(|_, fund_desc| fund_desc == FundDescription::Active)
    );
    assert_eq!(
        245,
        fund_module.query_sum_all_funds_brute_force(|_, fund_desc| matches!(fund_desc, FundDescription::Waiting { .. }))
    );
}

#[test]
fn test_transfer_funds_3_backwards() {
    let mut fund_module = FundModule::new();
    let user_1 = 2;
    let user_2 = 3;
    let user_3 = 5;

    fund_module.increase_fund_balance(user_1, waiting(), 1200);
    fund_module.increase_fund_balance(user_2, waiting(), 34);
    fund_module.increase_fund_balance(user_3, waiting(), 11);

    let affected_users: RefCell<Vec<usize>> = RefCell::new(Vec::new());
    let mut amount: u128 = 40;
    let returned_affected_users = fund_module.split_convert_max_by_type(
        Some(&mut amount),
        FundType::Waiting,
        SwapDirection::Backwards,
        |user_id, _| {
            affected_users.borrow_mut().push(user_id);
            Some(FundDescription::Active)
        },
        || false,
        false,
    );

    assert_eq!(returned_affected_users, vec![user_2, user_3]);
    let mut affected_users = affected_users.into_inner();
    affected_users.sort();
    assert_eq!(returned_affected_users, affected_users);
    assert_eq!(amount, 0);

    check_consistency(&fund_module, 5);
    assert_eq!(
        40,
        fund_module.query_sum_all_funds_brute_force(|_, fund_desc| fund_desc == FundDescription::Active)
    );
    assert_eq!(
        1205,
        fund_module.query_sum_all_funds_brute_force(|_, fund_desc| matches!(fund_desc, FundDescription::Waiting { .. }))
    );
}

#[test]
fn test_transfer_funds_4_dry_run() {
    let mut fund_module = FundModule::new();
    let user_1 = 5;
    let user_2 = 7;
    let user_3 = 9;

    fund_module.increase_fund_balance(user_1, waiting(), 1200);
    fund_module.increase_fund_balance(user_2, waiting(), 34);
    fund_module.increase_fund_balance(user_3, waiting(), 11);

    let affected_users: RefCell<Vec<usize>> = RefCell::new(Vec::new());
    let mut amount: u128 = 40;
    let returned_affected_users = fund_module.split_convert_max_by_type(
        Some(&mut amount),
        FundType::Waiting,
        SwapDirection::Backwards,
        |user_id, _| {
            affected_users.borrow_mut().push(user_id);
            Some(FundDescription::Active)
        },
        || false,
        true,
    );

    let mut affected_users = affected_users.into_inner();
    assert_eq!(affected_users, vec![user_3, user_2]);
    affected_users.sort();
    assert_eq!(returned_affected_users, affected_users);
    assert_eq!(amount, 0);

    assert_eq!(
        0,
        fund_module.query_sum_all_funds_brute_force(|_, fund_desc| fund_desc == FundDescription::Active)
    );
    assert_eq!(
        1245,
        fund_module.query_sum_all_funds_brute_force(|_, fund_desc| matches!(fund_desc, FundDescription::Waiting { .. }))
    );
}

#[test]
fn test_transfer_funds_5_coalesce() {
    let mut fund_module = FundModule::new();
    let user_1 = 2;

    fund_module.increase_fund_balance(user_1, waiting(), 1000);
    fund_module.increase_fund_balance(user_1, waiting(), 1000);

    let mut amount: u128 = 2000;
    let affected_users = fund_module.split_convert_max_by_type(
        Some(&mut amount),
        FundType::Waiting,
        SwapDirection::Forwards,
        |_, _| Some(FundDescription::WithdrawOnly),
        || false,
        false,
    );

    assert_eq!(affected_users, vec![user_1]);
    assert_eq!(amount, 0);

    check_consistency(&fund_module, 5);
    assert_eq!(
        2000,
        fund_module.query_sum_all_funds_brute_force(|_, fund_desc| fund_desc == FundDescription::WithdrawOnly)
    );
    assert_eq!(
        0,
        fund_module.query_sum_all_funds_brute_force(|_, fund_desc| matches!(fund_desc, FundDescription::Waiting { .. }))
    );
}

#[test]
fn test_user_walk_converts_the_maximum_when_more_is_eligible() {
    let mut fund_module = FundModule::new();
    let user = 4;
    let other = 6;
    fund_module.increase_fund_balance(user, FundDescription::Waiting { created: 1 }, 30);
    fund_module.increase_fund_balance(other, FundDescription::Waiting { created: 1 }, 500);
    fund_module.increase_fund_balance(user, FundDescription::Waiting { created: 2 }, 50);

    let mut amount: u128 = 60;
    let converted = fund_module.split_convert_max_by_user(
        Some(&mut amount),
        user,
        FundType::Waiting,
        SwapDirection::Forwards,
        |_| Some(FundDescription::Active),
    );
    assert_eq!(converted, 60);
    assert_eq!(amount, 0);
    assert_eq!(fund_module.fund_list_by_user(user, FundType::Active).total_balance, 60);
    assert_eq!(fund_module.fund_list_by_user(user, FundType::Waiting).total_balance, 20);
    assert_eq!(fund_module.fund_list_by_user(other, FundType::Waiting).total_balance, 500);
    check_consistency(&fund_module, 10);
}

#[test]
fn test_user_walk_converts_all_eligible_when_the_maximum_is_larger() {
    let mut fund_module = FundModule::new();
    let user = 4;
    fund_module.increase_fund_balance(user, FundDescription::Waiting { created: 1 }, 30);
    fund_module.increase_fund_balance(user, FundDescription::Waiting { created: 7 }, 40);
    fund_module.increase_fund_balance(user, FundDescription::Waiting { created: 2 }, 50);

    let mut amount: u128 = 100;
    let converted = fund_module.split_convert_max_by_user(
        Some(&mut amount),
        user,
        FundType::Waiting,
        SwapDirection::Backwards,
        |d| match d {
            FundDescription::Waiting { created } if created < 5 => Some(FundDescription::Active),
            _ => None,
        },
    );
    assert_eq!(converted, 80);
    assert_eq!(amount, 20);
    assert_eq!(fund_module.fund_list_by_user(user, FundType::Active).total_balance, 80);
    assert_eq!(fund_module.fund_list_by_user(user, FundType::Waiting).total_balance, 40);
    check_consistency(&fund_module, 10);
}
