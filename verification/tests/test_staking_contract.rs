use sc_delegation::pool::bls_key::{BLSKey, BLS_KEY_BYTE_LENGTH};
use sc_delegation::pool::fund::{FundInfo, FundType};
use sc_delegation::pool::fund_store::FundStore;
use sc_delegation::pool::contract::{AuctionCall, StakingContract};
use sc_delegation::pool::stake_ledger::UnbondQueueItem;
use sc_delegation::pool::states::{NodeState, UserStakeState};

fn owner() -> Vec<u8> {
    vec![1u8; 32]
}

fn alice() -> Vec<u8> {
    vec![2u8; 32]
}

fn bob() -> Vec<u8> {
    vec![3u8; 32]
}

fn key_bytes(b: u8) -> Vec<u8> {
    vec![b; BLS_KEY_BYTE_LENGTH]
}

fn key(b: u8) -> BLSKey {
    BLSKey::from_bytes(&key_bytes(b)).unwrap()
}

/// A contract with an owner, `n` registered nodes of 100 stake each, and no stake yet.
fn contract_with_nodes(n: u8) -> StakingContract {
    let mut c = StakingContract::new();
    c.init(&owner(), &vec![9u8; 32], 10, 20);
    let mut args = Vec::new();
    for b in 1..(n + 1) {
        args.push(key_bytes(b));
        args.push(vec![b; 32]);
    }
    c.nodes.add_nodes(&c.settings, &owner(), &args).unwrap();
    c.nodes.set_stake_per_node(&c.settings, &owner(), 100).unwrap();
    c
}

fn stake_of(c: &StakingContract, address: &Vec<u8>, s: UserStakeState) -> u128 {
    let id = c.users.get_user_id(address);
    c.ledger.get_user_stake_of_type(id, s)
}

#[test]
fn stake_registers_users_in_order() {
    let mut c = contract_with_nodes(1);
    c.stake_endpoint(&alice(), 150).unwrap();
    c.stake_endpoint(&bob(), 50).unwrap();
    c.stake_endpoint(&alice(), 10).unwrap();
    assert_eq!(c.users.get_user_id(&owner()), 1);
    assert_eq!(c.users.get_user_id(&alice()), 2);
    assert_eq!(c.users.get_user_id(&bob()), 3);
    assert_eq!(stake_of(&c, &alice(), UserStakeState::Inactive), 160);
    assert_eq!(c.ledger.get_user_stake_of_type(0, UserStakeState::Inactive), 210);
    assert_eq!(c.stake_endpoint(&alice(), 0), Ok(()));
    c.pause.staking_paused = true;
    assert_eq!(c.stake_endpoint(&alice(), 5), Err("staking paused"));
    assert_eq!(stake_of(&c, &alice(), UserStakeState::Inactive), 160);
}

#[test]
fn unstake_returns_inactive_stake() {
    let mut c = contract_with_nodes(1);
    c.stake_endpoint(&alice(), 150).unwrap();
    assert_eq!(c.unstake(&alice(), 200), Err("cannot unstake more than was staked"));
    assert_eq!(c.unstake(&bob(), 10), Err("only delegators can unstake"));
    assert_eq!(c.unstake(&alice(), 0), Ok(0));
    assert_eq!(c.unstake(&alice(), 40), Ok(40));
    assert_eq!(stake_of(&c, &alice(), UserStakeState::Inactive), 110);
    assert_eq!(c.ledger.get_user_total_stake(2), 110);
}

#[test]
fn activation_cycle_with_auction_replies() {
    let mut c = contract_with_nodes(3);
    c.stake_endpoint(&alice(), 150).unwrap();
    c.stake_endpoint(&bob(), 100).unwrap();
    assert!(matches!(c.stake_all_available(&alice()), Err("auto activation disabled")));
    let call = c.stake_all_available(&owner()).unwrap().unwrap();
    match call {
        AuctionCall::Stake { node_ids, num_nodes, bls_keys_signatures, amount } => {
            assert_eq!(node_ids, vec![1, 2]);
            assert_eq!(num_nodes, 2);
            assert_eq!(amount, 200);
            assert_eq!(bls_keys_signatures, vec![key_bytes(1), vec![1u8; 32], key_bytes(2), vec![2u8; 32]]);
        },
        _ => panic!("expected a stake call"),
    }
    assert_eq!(c.nodes.get_node_state(&key(1)), NodeState::PendingActivation);
    // oldest users first: alice's 150, then 50 of bob's
    assert_eq!(stake_of(&c, &alice(), UserStakeState::PendingActivation), 150);
    assert_eq!(stake_of(&c, &bob(), UserStakeState::PendingActivation), 50);
    // node 2 failed, node 1 succeeded
    let reply = vec![key_bytes(2), vec![1u8]];
    c.auction_stake_callback(vec![1, 2], Ok(reply), 0).unwrap();
    assert_eq!(c.nodes.get_node_state(&key(1)), NodeState::Active);
    assert_eq!(c.nodes.get_node_state(&key(2)), NodeState::ActivationFailed);
    assert_eq!(stake_of(&c, &alice(), UserStakeState::Active), 100);
    assert_eq!(stake_of(&c, &alice(), UserStakeState::ActivationFailed), 50);
    assert_eq!(stake_of(&c, &bob(), UserStakeState::ActivationFailed), 50);
    // the owner claims the failed stake back
    let call = c.claim_failed_stake(&owner()).unwrap().unwrap();
    match call {
        AuctionCall::Claim { node_ids } => assert_eq!(node_ids, vec![2]),
        _ => panic!("expected a claim call"),
    }
    assert!(matches!(c.claim_failed_stake(&alice()), Err("only owner can activate nodes individually")));
    c.auction_claim_callback(&vec![2], Ok(()));
    assert_eq!(c.nodes.get_node_state(&key(2)), NodeState::Inactive);
    assert_eq!(c.ledger.get_user_stake_of_type(0, UserStakeState::ActivationFailed), 0);
    assert_eq!(c.ledger.get_user_stake_of_type(0, UserStakeState::Inactive), 150);
}

#[test]
fn stake_nodes_checks_states_and_stake() {
    let mut c = contract_with_nodes(2);
    c.stake_endpoint(&alice(), 150).unwrap();
    assert!(matches!(c.stake_nodes(&alice(), vec![key(1)]), Err("only owner can activate nodes individually")));
    assert!(matches!(c.stake_nodes(&owner(), vec![key(1), key(1)]), Err("node not inactive")));
    assert!(matches!(c.stake_nodes(&owner(), vec![key(1), key(2)]), Err("not enough inactive stake")));
    assert_eq!(c.nodes.get_node_state(&key(1)), NodeState::Inactive);
    let call = c.stake_nodes(&owner(), vec![key(2)]).unwrap();
    match call {
        AuctionCall::Stake { node_ids, amount, .. } => {
            assert_eq!(node_ids, vec![2]);
            assert_eq!(amount, 100);
        },
        _ => panic!("expected a stake call"),
    }
    assert_eq!(stake_of(&c, &alice(), UserStakeState::PendingActivation), 100);
    // an error reply fails every node of the call
    c.auction_stake_callback(vec![2], Err(b"out of funds".to_vec()), 0).unwrap();
    assert_eq!(c.nodes.get_node_state(&key(2)), NodeState::ActivationFailed);
}

/// Alice and bob each have 100 active stake on nodes 1 and 2.
fn active_contract() -> StakingContract {
    let mut c = contract_with_nodes(2);
    c.stake_endpoint(&alice(), 100).unwrap();
    c.stake_endpoint(&bob(), 100).unwrap();
    c.stake_all_available(&owner()).unwrap();
    c.auction_stake_callback(vec![1, 2], Ok(Vec::new()), 0).unwrap();
    c
}

#[test]
fn unstake_and_unbond_cycle() {
    let mut c = active_contract();
    assert!(matches!(c.unstake_nodes(&alice(), vec![key(2)], 0), Err("only owner can deactivate nodes individually")));
    let call = c.unstake_nodes(&owner(), vec![key(2)], 0).unwrap();
    match call {
        AuctionCall::UnStake { unbond_queue_entry, node_ids, .. } => {
            assert_eq!(unbond_queue_entry, None);
            assert_eq!(node_ids, vec![2]);
        },
        _ => panic!("expected an unstake call"),
    }
    // newest users first
    assert_eq!(stake_of(&c, &bob(), UserStakeState::PendingDeactivation), 100);
    assert!(matches!(c.unstake_nodes(&owner(), vec![key(2)], 0), Err("node not active")));
    c.auction_unstake_callback(None, vec![2], Ok(Vec::new()), 50).unwrap();
    assert_eq!(c.nodes.get_node_state(&key(2)), NodeState::UnBondPeriod);
    assert_eq!(c.nodes.get_node_block_nonce_of_unstake(&key(2)), 50);
    assert_eq!(stake_of(&c, &bob(), UserStakeState::UnBondPeriod), 100);
    // the unbond period is 20 blocks
    assert!(matches!(c.unbond_nodes(vec![key(2)], 70), Err("too soon to unbond node")));
    assert!(matches!(c.unbond_nodes(vec![key(1)], 71), Err("node not in unbond period")));
    assert!(matches!(c.unbond_all_available(69), Ok(None)));
    let call = c.unbond_nodes(vec![key(2)], 71).unwrap();
    match call {
        AuctionCall::UnBond { node_ids, .. } => assert_eq!(node_ids, vec![2]),
        _ => panic!("expected an unbond call"),
    }
    assert_eq!(stake_of(&c, &bob(), UserStakeState::PendingUnBond), 100);
    c.auction_unbond_callback(vec![2], Ok(Vec::new())).unwrap();
    assert_eq!(c.nodes.get_node_state(&key(2)), NodeState::Inactive);
    assert_eq!(c.nodes.get_node_block_nonce_of_unstake(&key(2)), 0);
    assert_eq!(stake_of(&c, &bob(), UserStakeState::Inactive), 100);
    assert_eq!(c.ledger.get_user_stake_of_type(0, UserStakeState::PendingUnBond), 0);
}

#[test]
fn unbond_serves_the_queue_first() {
    let mut c = active_contract();
    // alice asked for the unstake of node 1
    let entry = UnbondQueueItem { user_id: 2, amount: 100 };
    c.perform_unstake_nodes(Some(entry), vec![1], vec![key(1)], 0).unwrap();
    assert_eq!(stake_of(&c, &alice(), UserStakeState::PendingDeactivation), 100);
    assert_eq!(stake_of(&c, &bob(), UserStakeState::Active), 100);
    c.auction_unstake_callback(Some(entry), vec![1], Ok(Vec::new()), 5).unwrap();
    assert_eq!(c.ledger.get_unbond_queue(), vec![entry]);
    let call = c.unbond_all_available(25).unwrap().unwrap();
    match call {
        AuctionCall::UnBond { node_ids, .. } => assert_eq!(node_ids, vec![1]),
        _ => panic!("expected an unbond call"),
    }
    c.auction_unbond_callback(vec![1], Ok(Vec::new())).unwrap();
    // the queue entry is served: alice's stake can be withdrawn, the queue is empty
    assert_eq!(stake_of(&c, &alice(), UserStakeState::WithdrawOnly), 100);
    assert_eq!(c.ledger.get_unbond_queue().len(), 0);
}

#[test]
fn failed_unbond_goes_back_to_unbond_period() {
    let mut c = active_contract();
    c.unstake_nodes(&owner(), vec![key(1)], 0).unwrap();
    c.auction_unstake_callback(None, vec![1], Err(b"no".to_vec()), 5).unwrap();
    assert_eq!(c.nodes.get_node_state(&key(1)), NodeState::Active);
    assert_eq!(stake_of(&c, &bob(), UserStakeState::Active), 100);
    c.unstake_nodes(&owner(), vec![key(1)], 0).unwrap();
    c.auction_unstake_callback(None, vec![1], Ok(Vec::new()), 5).unwrap();
    c.unbond_nodes(vec![key(1)], 100).unwrap();
    c.auction_unbond_callback(vec![1], Err(b"no".to_vec())).unwrap();
    assert_eq!(c.nodes.get_node_state(&key(1)), NodeState::UnBondPeriod);
    assert_eq!(stake_of(&c, &bob(), UserStakeState::UnBondPeriod), 100);
}

#[test]
fn purchase_stake_moves_active_stake() {
    let mut c = active_contract();
    let carol = vec![4u8; 32];
    assert_eq!(c.purchase_stake(&carol, &alice(), 30, 0, 0), Err("payment exceeds stake offered"));
    assert!(matches!(c.announce_unstake(&carol, 10, 7), Err("only delegators can offer stake for sale")));
    assert!(matches!(c.announce_unstake(&alice(), 200, 7), Err("cannot offer more than the user active stake")));
    c.announce_unstake(&alice(), 40, 7).unwrap();
    assert_eq!(c.get_stake_for_sale(&alice()), 40);
    assert_eq!(c.get_time_of_stake_offer(&alice()), 7);
    assert_eq!(c.purchase_stake(&carol, &vec![8u8; 32], 30, 0, 0), Err("unknown seller"));
    assert_eq!(c.purchase_stake(&carol, &alice(), 30, 0, 50), Err("cannot have less stake than minimum stake"));
    assert_eq!(c.users.get_user_id(&carol), 0);
    assert_eq!(c.purchase_stake(&carol, &alice(), 30, 0, 0), Ok(()));
    assert_eq!(c.users.get_user_id(&carol), 4);
    assert_eq!(stake_of(&c, &alice(), UserStakeState::Active), 70);
    assert_eq!(stake_of(&c, &carol, UserStakeState::Active), 30);
    assert_eq!(c.get_stake_for_sale(&alice()), 10);
    assert_eq!(c.ledger.get_total_active_stake(), 200);
    assert_eq!(c.purchase_stake(&carol, &alice(), 0, 0, 0), Ok(()));
    c.pause.stake_sale_paused = true;
    assert_eq!(c.purchase_stake(&carol, &alice(), 5, 0, 0), Err("stake sale paused"));
}

#[test]
fn rewards_are_shared_by_active_stake() {
    let mut c = active_contract();
    // no node is idle now, so the fee stays 0; rewards of 1000 arrive
    assert!(c.nodes.set_service_fee(&c.settings, &owner(), 1000).is_err());
    assert_eq!(c.get_claimable_rewards(&alice(), 1000), 500);
    assert_eq!(c.get_claimable_rewards(&bob(), 1000), 500);
    assert_eq!(c.get_claimable_rewards(&owner(), 1000), 0);
    assert_eq!(c.get_claimable_rewards(&vec![7u8; 32], 1000), 0);
    assert_eq!(c.get_total_unclaimed_rewards(1000), 1000);
    assert_eq!(c.claim_rewards(&alice(), 1000), Ok(500));
    assert_eq!(c.sent_rewards, 500);
    assert_eq!(c.get_claimable_rewards(&alice(), 1000), 0);
    assert_eq!(c.claim_rewards(&vec![7u8; 32], 1000), Err("unknown caller"));
    // 300 more arrive: bob has 500 + 150 unclaimed, alice 150
    c.compute_all_rewards(1300);
    assert_eq!(c.rewards[3].unclaimed_rewards, 650);
    assert_eq!(c.rewards[2].unclaimed_rewards, 150);
    assert_eq!(c.rewards[1].unclaimed_rewards, 0);
}

#[test]
fn compute_all_rewards_gives_the_remainder_to_the_owner() {
    let mut c = contract_with_nodes(3);
    c.stake_endpoint(&alice(), 100).unwrap();
    c.stake_endpoint(&bob(), 100).unwrap();
    c.stake_endpoint(&vec![5u8; 32], 100).unwrap();
    c.stake_all_available(&owner()).unwrap();
    c.auction_stake_callback(vec![1, 2, 3], Ok(Vec::new()), 0).unwrap();
    c.compute_all_rewards(100);
    // each of the three delegators gets 33; the owner the 1 left
    assert_eq!(c.rewards[2].unclaimed_rewards, 33);
    assert_eq!(c.rewards[3].unclaimed_rewards, 33);
    assert_eq!(c.rewards[4].unclaimed_rewards, 33);
    assert_eq!(c.rewards[1].unclaimed_rewards, 1);
}

#[test]
fn genesis_activation() {
    let mut c = contract_with_nodes(2);
    assert_eq!(c.stake_genesis(&alice(), 100, 1), Err("genesis block only"));
    c.stake_genesis(&alice(), 150, 0).unwrap();
    assert_eq!(c.activate_genesis(0), Err("stake required by nodes must match total user stake at genesis"));
    c.stake_genesis(&bob(), 50, 0).unwrap();
    assert_eq!(c.activate_genesis(1), Err("genesis block only"));
    assert_eq!(c.activate_genesis(0), Ok(()));
    assert_eq!(c.nodes.get_node_state(&key(1)), NodeState::Active);
    assert_eq!(c.nodes.get_node_state(&key(2)), NodeState::Active);
    assert_eq!(stake_of(&c, &alice(), UserStakeState::Active), 150);
    assert_eq!(stake_of(&c, &bob(), UserStakeState::Active), 50);
    assert_eq!(c.activate_genesis(0), Err("cannot activate twice during genesis"));
}

#[test]
fn unexpected_balance_is_what_is_not_owed() {
    let mut c = contract_with_nodes(1);
    c.stake_endpoint(&alice(), 100).unwrap();
    // 100 staked, 30 rewards arrived and none sent: 20 more is unexpected
    assert_eq!(c.get_unexpected_balance(150, 30), 20);
    assert_eq!(c.withdraw_unexpected_balance(&owner(), 150, 30), Ok(20));
    assert_eq!(c.withdraw_unexpected_balance(&alice(), 150, 30), Err("only owner can withdraw unexpected balance"));
}

#[test]
fn stake_and_try_activate_activates_when_enough() {
    let mut c = contract_with_nodes(2);
    c.settings.auto_activation_enabled = true;
    assert!(matches!(c.stake_and_try_activate(&alice(), 50), Ok(None)));
    let call = c.stake_and_try_activate(&bob(), 60).unwrap().unwrap();
    match call {
        AuctionCall::Stake { node_ids, amount, .. } => {
            assert_eq!(node_ids, vec![1]);
            assert_eq!(amount, 100);
        },
        _ => panic!("expected a stake call"),
    }
    assert_eq!(stake_of(&c, &alice(), UserStakeState::PendingActivation), 50);
    assert_eq!(stake_of(&c, &bob(), UserStakeState::PendingActivation), 50);
    assert_eq!(stake_of(&c, &bob(), UserStakeState::Inactive), 10);
    assert_eq!(c.nodes.get_stake_per_node(), 100);
    assert_eq!(c.nodes.get_service_fee(), 0);
}

#[test]
fn forced_unstake_from_stake_offered_for_sale() {
    let mut c = active_contract();
    let mut funds = FundStore::new();
    // carol is unknown: refused
    assert!(matches!(c.unstake_endpoint(&funds, &vec![4u8; 32], 100, 0), Err("only delegators can call unStake")));
    assert!(matches!(c.unstake_endpoint(&funds, &alice(), 100, 0), Err("no stake eligible for unStake")));
    // alice (user 2) offered 60 for sale at block 5; the force-unstake delay is 10 blocks
    funds.create_fund(FundInfo { fund_type: FundType::ActiveForSale { created: 5 }, user_id: 2 }, 60);
    assert!(matches!(c.unstake_endpoint(&funds, &alice(), 15, 0), Err("no stake eligible for unStake")));
    let call = c.unstake_endpoint(&funds, &alice(), 16, 0).unwrap();
    match call {
        AuctionCall::UnStake { unbond_queue_entry, node_ids, .. } => {
            assert_eq!(unbond_queue_entry, Some(UnbondQueueItem { user_id: 2, amount: 60 }));
            assert_eq!(node_ids, vec![2]);
        },
        _ => panic!("expected an unstake call"),
    }
    // alice's own active stake goes first
    assert_eq!(stake_of(&c, &alice(), UserStakeState::PendingDeactivation), 100);
    assert_eq!(c.nodes.get_node_state(&key(2)), NodeState::PendingDeactivation);
}

#[test]
fn update_user_rewards_stores_one_user() {
    let mut c = active_contract();
    c.update_user_rewards(2, 200);
    assert_eq!(c.rewards[2].unclaimed_rewards, 100);
    assert_eq!(c.rewards[2].reward_checkpoint, 200);
    assert_eq!(c.rewards[3].unclaimed_rewards, 0);
    // up to date already: nothing changes
    c.update_user_rewards(2, 200);
    assert_eq!(c.rewards[2].unclaimed_rewards, 100);
}

#[test]
fn split_keeps_every_node_once() {
    let mut c = contract_with_nodes(3);
    let reply = vec![key_bytes(1), vec![1u8], key_bytes(3), vec![1u8]];
    let (ok, failed) = c.nodes.split_node_ids_by_err(vec![1, 2, 3], &reply).unwrap();
    assert_eq!(ok.len() + failed.len(), 3);
    assert_eq!(ok, vec![2]);
    assert_eq!(failed, vec![1, 3]);
    c.nodes.set_node_state(1, NodeState::Active);
}

#[test]
fn withdraw_inactive_stake_takes_free_stake_back() {
    let c = active_contract();
    let mut funds = FundStore::new();
    // alice (user 2) holds 30 free stake and 100 active
    funds.create_fund(FundInfo { fund_type: FundType::Free { requested_unstake: false }, user_id: 2 }, 30);
    funds.create_fund(FundInfo { fund_type: FundType::Active, user_id: 2 }, 100);
    assert_eq!(funds.withdraw_inactive_stake(&c.users, &alice(), 0, 50), Ok(0));
    assert_eq!(
        funds.withdraw_inactive_stake(&c.users, &vec![9u8; 32], 10, 50),
        Err("only delegators can withdraw inactive stake")
    );
    assert_eq!(funds.withdraw_inactive_stake(&c.users, &alice(), 31, 50), Err("cannot withdraw more than inactive stake"));
    assert_eq!(funds.get_user_total_stake(2), 130);
    // 120 would remain, above the minimum of 50
    assert_eq!(funds.withdraw_inactive_stake(&c.users, &alice(), 10, 50), Ok(10));
    assert_eq!(funds.get_user_total_stake(2), 120);
    // leaving 100 is refused under a minimum of 110, and nothing changes
    assert_eq!(funds.withdraw_inactive_stake(&c.users, &alice(), 20, 110), Err("cannot have less stake than minimum stake"));
    assert_eq!(funds.get_user_total_stake(2), 120);
    assert_eq!(funds.withdraw_inactive_stake(&c.users, &alice(), 20, 50), Ok(20));
    assert_eq!(funds.get_user_stake_of_type(2, UserStakeState::Inactive), 0);
    assert_eq!(funds.get_user_total_stake(2), 100);
}
