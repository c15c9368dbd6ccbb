use sc_delegation::fund_module::FundModule;
use sc_delegation::fund_type::{FundDescription, FundType};
use sc_delegation::user_data::UserDataModule;

fn addr(b: u8) -> Vec<u8> {
    vec![b; 32]
}

/// Users 1 and 2 known by address, user 3 known without one.
fn users() -> UserDataModule {
    let mut users = UserDataModule::new();
    assert_eq!(users.get_or_create_user(&addr(1)), 1);
    assert_eq!(users.get_or_create_user(&addr(2)), 2);
    assert_eq!(users.get_or_create_user(&addr(1)), 1);
    let id3 = users.new_user();
    users.set_user_id(&addr(3), id3);
    users
}

#[test]
fn user_addresses_filled_in_later() {
    let mut users = users();
    assert_eq!(users.get_num_users(), 3);
    assert_eq!(users.user_ids_without_address(), vec![3]);
    // one updated, one already had an address, one unknown
    assert_eq!(users.update_user_address(&vec![addr(3), addr(1), addr(9)]), (1, 1, 1));
    assert_eq!(users.user_ids_without_address(), Vec::<usize>::new());
    assert_eq!(users.get_user_address(3), addr(3));
    // get_or_create_user also fills in a missing address
    let mut users2 = UserDataModule::new();
    let id = users2.new_user();
    users2.set_user_id(&addr(7), id);
    assert!(users2.is_empty_user_address(id));
    assert_eq!(users2.get_or_create_user(&addr(7)), id);
    assert_eq!(users2.get_user_address(id), addr(7));
}

#[test]
fn stake_views_follow_the_funds() {
    let users = users();
    let mut m = FundModule::new();
    m.increase_fund_balance(1, FundDescription::Waiting { created: 5 }, 100);
    m.increase_fund_balance(2, FundDescription::Waiting { created: 6 }, 50);
    // user 4 has no address
    m.increase_fund_balance(4, FundDescription::Active, 70);

    let (affected, left) = m.get_affected_users_of_swap_waiting_to_active(120, || false);
    assert_eq!(affected, vec![1, 2]);
    assert_eq!(left, 0);
    assert_eq!(m.get_total_waiting_stake(), 150);

    let mut remaining = 120u128;
    assert_eq!(m.swap_waiting_to_active(&mut remaining, || false), vec![1, 2]);
    assert_eq!(remaining, 0);
    assert_eq!(m.get_user_waiting_stake(&users, &addr(2)), 30);
    assert_eq!(m.get_user_active_stake(&users, &addr(1)), 100);
    assert_eq!(m.get_total_active_stake(), 190);
    assert_eq!(m.get_full_waiting_list(&users), vec![(addr(2), 30, 6)]);
    assert_eq!(m.get_full_active_list(&users), vec![(vec![0u8; 32], 70), (addr(1), 100), (addr(2), 20)]);

    // the newest active funds go first
    let mut remaining = 30u128;
    m.swap_active_to_deferred_payment(&mut remaining, || false, 40);
    assert_eq!(remaining, 0);
    assert_eq!(m.get_full_active_list(&users), vec![(vec![0u8; 32], 70), (addr(1), 90)]);
    assert_eq!(m.get_user_deferred_payment_list(&users, &addr(1)), vec![(10, 40)]);
    assert_eq!(m.get_user_deferred_payment_list(&users, &addr(9)), Vec::<(u128, u64)>::new());
    assert_eq!(m.get_user_deferred_payment_stake(&users, &addr(2)), 20);
    assert_eq!(m.get_total_deferred_payment_stake(), 30);
    assert_eq!(m.eligible_deferred_payment(1, 5, 44), 0);
    assert_eq!(m.eligible_deferred_payment(1, 5, 45), 10);

    assert_eq!(m.get_user_stake_by_type_endpoint(&users, &addr(1)), (0, 0, 90, 0, 10));
    assert_eq!(m.get_total_stake_by_type_endpoint(), (0, 30, 160, 0, 30));
    assert_eq!(
        m.get_all_user_stake_by_type(&users),
        vec![(addr(1), (0, 0, 90, 0, 10)), (addr(2), (0, 30, 0, 0, 20)), (Vec::new(), (0, 0, 0, 0, 0))]
    );
    assert_eq!(m.get_user_total_stake_endpoint(&users, &addr(1)), 100);
    assert_eq!(m.get_user_total_stake_endpoint(&users, &addr(9)), 0);
    assert_eq!(m.get_total_stake(), 220);
    assert_eq!(m.get_user_withdraw_only_stake(&users, &addr(1)), 0);
    assert_eq!(m.get_total_withdraw_only_stake(), 0);

    // fund 3 is the active fund of user 4: 20 of it is unstaked
    let mut max = 20u128;
    m.split_convert_individual_fund(Some(&mut max), FundDescription::UnStaked { created: 50 }, 3);
    assert_eq!(max, 0);
    assert_eq!(m.get_user_stake_of_type(4, FundType::UnStaked), 20);
    assert_eq!(m.get_user_stake_of_type(4, FundType::Active), 50);
    assert_eq!(m.get_total_unstaked_stake(), 20);
    assert_eq!(m.get_user_unstaked_stake(&users, &addr(1)), 0);
    assert_eq!(m.get_total_stake(), 220);
}
