use sc_delegation::fund_module::FundModule;
use sc_delegation::fund_type::FundType;

fn check_consistency_for_type(module: &FundModule, fund_type: FundType) {
    let mut sum: u128 = 0;
    let type_list = module.get_fund_list_by_type(fund_type);
    let mut id = type_list.first;
    let mut prev_id = 0;
    while id > 0 {
        let fund_item = module.fund_by_id(id);
        assert_eq!(fund_item.type_list_prev, prev_id, "type list inconsistency: bad prev");
        if fund_item.type_list_next == 0 {
            assert_eq!(type_list.last, id, "type list inconsistency: bad last");
        }
        sum += fund_item.balance;
        prev_id = id;
        id = fund_item.type_list_next;
    }
    assert!(sum == type_list.total_balance, "type list inconsistency: bad sum");
}

fn check_consistency_for_user_type(module: &FundModule, user_id: usize, fund_type: FundType) {
    let mut sum: u128 = 0;
    let user_type_list = module.fund_list_by_user(user_id, fund_type);
    let mut id = user_type_list.first;
    let mut prev_id = 0;
    while id > 0 {
        let fund_item = module.fund_by_id(id);
        assert_eq!(fund_item.user_id, user_id, "user-type list inconsistency: bad user_id");
        assert_eq!(fund_item.user_list_prev, prev_id, "user-type list inconsistency: bad prev");
        if fund_item.user_list_next == 0 {
            assert_eq!(user_type_list.last, id, "user-type list inconsistency: bad list last");
        }
        sum += fund_item.balance;
        prev_id = id;
        id = fund_item.user_list_next;
    }
    assert!(sum == user_type_list.total_balance, "user-type list inconsistency: bad sum");
}

fn check_consistency(module: &FundModule, num_users: usize) {
    for fund_type in FundType::all_types() {
        check_consistency_for_type(module, fund_type);
        for user_id in 1..(num_users + 1) {
            check_consistency_for_user_type(module, user_id, fund_type);
        }
    }
}

#[test]
fn test_create_destroy() {
    let mut module = FundModule::new();
    let user_id = 2;

    module.create_waiting(user_id, 5000, 0);

    check_consistency(&module, 3);
    assert_eq!(5000, module.query_sum_funds_by_type(FundType::Waiting, |_, _| true));
    assert_eq!(1, module.count_fund_items_by_type(FundType::Waiting, |_, _| true));
    assert_eq!(5000, module.query_sum_funds_by_user_type(user_id, FundType::Waiting, |_| true));
    assert_eq!(1, module.count_fund_items_by_user_type(user_id, FundType::Waiting, |_| true));

    let mut amount: u128 = 5000;
    module.swap_user_waiting_to_withdraw_only(user_id, &mut amount);
    assert_eq!(amount, 0);

    let liquidated = module.liquidate_all_withdraw_only(user_id);
    assert_eq!(liquidated, 5000);

    check_consistency(&module, 3);

    assert_eq!(0, module.query_sum_funds_by_type(FundType::Waiting, |_, _| true));
    assert_eq!(0, module.count_fund_items_by_type(FundType::Waiting, |_, _| true));
    assert_eq!(0, module.query_sum_funds_by_user_type(user_id, FundType::Waiting, |_| true));
    assert_eq!(0, module.count_fund_items_by_user_type(user_id, FundType::Waiting, |_| true));
}

#[test]
fn test_full_cycle_1() {
    let mut module = FundModule::new();
    let user_id = 2;

    // create -> Waiting
    module.create_waiting(user_id, 5000, 0);

    check_consistency(&module, 3);
    assert_eq!(5000, module.query_sum_funds_by_type(FundType::Waiting, |_, _| true));
    assert_eq!(1, module.count_fund_items_by_type(FundType::Waiting, |_, _| true));
    assert_eq!(5000, module.query_sum_funds_by_user_type(user_id, FundType::Waiting, |_| true));
    assert_eq!(1, module.count_fund_items_by_user_type(user_id, FundType::Waiting, |_| true));

    // Waiting -> Active
    let mut amount: u128 = 5000;
    let affected_users = module.swap_waiting_to_active(&mut amount, || false);
    assert_eq!(affected_users, vec![user_id]);
    assert_eq!(amount, 0);

    check_consistency(&module, 3);
    assert_eq!(0, module.query_sum_funds_by_type(FundType::Waiting, |_, _| true));
    assert_eq!(0, module.count_fund_items_by_type(FundType::Waiting, |_, _| true));
    assert_eq!(0, module.query_sum_funds_by_user_type(user_id, FundType::Waiting, |_| true));
    assert_eq!(0, module.count_fund_items_by_user_type(user_id, FundType::Waiting, |_| true));

    assert_eq!(5000, module.query_sum_funds_by_type(FundType::Active, |_, _| true));
    assert_eq!(1, module.count_fund_items_by_type(FundType::Active, |_, _| true));
    assert_eq!(5000, module.query_sum_funds_by_user_type(user_id, FundType::Active, |_| true));
    assert_eq!(1, module.count_fund_items_by_user_type(user_id, FundType::Active, |_| true));

    // Active -> Unstaked
    let mut amount: u128 = 5000;
    module.swap_user_active_to_unstaked(user_id, &mut amount, 0);
    assert_eq!(amount, 0);

    check_consistency(&module, 3);
    assert_eq!(5000, module.query_sum_funds_by_type(FundType::UnStaked, |_, _| true));
    assert_eq!(1, module.count_fund_items_by_type(FundType::UnStaked, |_, _| true));
    assert_eq!(5000, module.query_sum_funds_by_user_type(user_id, FundType::UnStaked, |_| true));
    assert_eq!(1, module.count_fund_items_by_user_type(user_id, FundType::UnStaked, |_| true));

    // Unstaked -> DeferredPayment
    let mut amount: u128 = 5000;
    module.swap_unstaked_to_deferred_payment(&mut amount, || false);
    assert_eq!(amount, 0);

    check_consistency(&module, 3);
    assert_eq!(5000, module.query_sum_funds_by_type(FundType::DeferredPayment, |_, _| true));
    assert_eq!(1, module.count_fund_items_by_type(FundType::DeferredPayment, |_, _| true));
    assert_eq!(5000, module.query_sum_funds_by_user_type(user_id, FundType::DeferredPayment, |_| true));
    assert_eq!(1, module.count_fund_items_by_user_type(user_id, FundType::DeferredPayment, |_| true));

    // DeferredPayment -> WithdrawOnly
    let claimed_amount = module.swap_eligible_deferred_to_withdraw(user_id, 0, 0);
    assert_eq!(claimed_amount, 5000);

    check_consistency(&module, 3);
    assert_eq!(5000, module.query_sum_funds_by_type(FundType::WithdrawOnly, |_, _| true));
    assert_eq!(1, module.count_fund_items_by_type(FundType::WithdrawOnly, |_, _| true));
    assert_eq!(5000, module.query_sum_funds_by_user_type(user_id, FundType::WithdrawOnly, |_| true));
    assert_eq!(1, module.count_fund_items_by_user_type(user_id, FundType::WithdrawOnly, |_| true));

    // WithdrawOnly -> liquidate
    let liquidated = module.liquidate_all_withdraw_only(user_id);
    assert_eq!(liquidated, 5000);

    check_consistency(&module, 3);

    assert_eq!(0, module.query_sum_funds_by_type(FundType::WithdrawOnly, |_, _| true));
    assert_eq!(0, module.count_fund_items_by_type(FundType::WithdrawOnly, |_, _| true));
    assert_eq!(0, module.query_sum_funds_by_user_type(user_id, FundType::WithdrawOnly, |_| true));
    assert_eq!(0, module.count_fund_items_by_user_type(user_id, FundType::WithdrawOnly, |_| true));
}
