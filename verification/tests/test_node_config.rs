use sc_delegation::pool::bls_key::{BLSKey, BLS_KEY_BYTE_LENGTH};
use sc_delegation::pool::node_config::NodeRegistry;
use sc_delegation::pool::states::NodeState;
use sc_delegation::settings::Settings;
use sc_delegation::user_data::UserDataModule;

fn owner() -> Vec<u8> {
    vec![1u8; 32]
}

fn settings() -> Settings {
    let mut s = Settings::new();
    let mut users = UserDataModule::new();
    s.init(&mut users, &owner(), &vec![9u8; 32], 10, 20).unwrap();
    s
}

fn key_bytes(b: u8) -> Vec<u8> {
    vec![b; BLS_KEY_BYTE_LENGTH]
}

fn sig_bytes(b: u8) -> Vec<u8> {
    vec![b; 32]
}

fn key(b: u8) -> BLSKey {
    BLSKey::from_bytes(&key_bytes(b)).unwrap()
}

fn registry_with(n: u8) -> NodeRegistry {
    let mut reg = NodeRegistry::new();
    let mut args = Vec::new();
    for b in 1..(n + 1) {
        args.push(key_bytes(b));
        args.push(sig_bytes(b));
    }
    reg.add_nodes(&settings(), &owner(), &args).unwrap();
    reg
}

#[test]
fn add_nodes_registers_in_order() {
    let reg = registry_with(3);
    assert_eq!(reg.get_num_nodes(), 3);
    assert_eq!(reg.get_node_id(&key(1)), 1);
    assert_eq!(reg.get_node_id(&key(3)), 3);
    assert_eq!(reg.get_node_id(&key(7)), 0);
    assert_eq!(reg.get_node_state(&key(2)), NodeState::Inactive);
    assert_eq!(reg.get_node_state(&key(7)), NodeState::Removed);
    assert_eq!(reg.get_node_signature(&key(2)), Some(sig_bytes(2)));
    assert_eq!(reg.get_node_signature(&key(7)), None);
    assert_eq!(reg.get_node_block_nonce_of_unstake(&key(2)), 0);
    assert!(reg.all_nodes_idle());
}

#[test]
fn add_nodes_errors_change_nothing() {
    let s = settings();
    let mut reg = registry_with(1);
    assert_eq!(reg.add_nodes(&s, &vec![2u8; 32], &vec![key_bytes(5), sig_bytes(5)]), Err("only owner can add nodes"));
    assert_eq!(reg.add_nodes(&s, &owner(), &vec![key_bytes(5)]), Err("even number of arguments expected"));
    assert_eq!(reg.add_nodes(&s, &owner(), &vec![vec![5u8; 10], sig_bytes(5)]), Err("bad BLS key length"));
    assert_eq!(reg.add_nodes(&s, &owner(), &vec![key_bytes(5), vec![5u8; 31]]), Err("wrong size BLS signature"));
    // the second pair fails: the first is not kept either
    assert_eq!(
        reg.add_nodes(&s, &owner(), &vec![key_bytes(5), sig_bytes(5), key_bytes(1), sig_bytes(1)]),
        Err("node already registered")
    );
    assert_eq!(reg.get_num_nodes(), 1);
    assert_eq!(reg.get_node_id(&key(5)), 0);
}

#[test]
fn remove_and_add_again() {
    let s = settings();
    let mut reg = registry_with(2);
    assert_eq!(reg.remove_nodes(&s, &owner(), &vec![key(2)]), Ok(()));
    assert_eq!(reg.get_node_state(&key(2)), NodeState::Removed);
    assert_eq!(reg.remove_nodes(&s, &owner(), &vec![key(2)]), Err("only inactive nodes can be removed"));
    assert_eq!(reg.remove_nodes(&s, &owner(), &vec![key(9)]), Err("node not registered"));
    assert_eq!(reg.remove_nodes(&s, &vec![3u8; 32], &vec![key(1)]), Err("only owner can remove nodes"));
    // a removed node comes back with its old id and a new signature
    assert_eq!(reg.add_nodes(&s, &owner(), &vec![key_bytes(2), sig_bytes(42)]), Ok(()));
    assert_eq!(reg.get_node_id(&key(2)), 2);
    assert_eq!(reg.get_node_state(&key(2)), NodeState::Inactive);
    assert_eq!(reg.get_node_signature(&key(2)), Some(sig_bytes(42)));
    assert_eq!(reg.get_num_nodes(), 2);
}

#[test]
fn all_node_states_lists_keys_and_codes() {
    let mut reg = registry_with(2);
    reg.set_node_state(2, NodeState::Active);
    let all = reg.get_all_node_states();
    assert_eq!(all, vec![key_bytes(1), vec![0u8], key_bytes(2), vec![2u8]]);
    assert!(!reg.all_nodes_idle());
}

#[test]
fn service_fee_and_stake_per_node() {
    let s = settings();
    let mut reg = registry_with(1);
    assert_eq!(reg.set_service_fee(&s, &owner(), 10001), Err("node share out of range"));
    assert_eq!(reg.set_service_fee(&s, &vec![2u8; 32], 100), Err("only owner can change service fee"));
    assert_eq!(reg.set_service_fee(&s, &owner(), 2500), Ok(()));
    assert_eq!(reg.service_fee, 2500);
    assert_eq!(reg.set_stake_per_node(&s, &owner(), 1000), Ok(()));
    assert_eq!(reg.stake_per_node, 1000);
    reg.set_node_state(1, NodeState::Active);
    assert_eq!(
        reg.set_service_fee(&s, &owner(), 100),
        Err("cannot change service fee while at least one node is active")
    );
    assert_eq!(
        reg.set_stake_per_node(&s, &owner(), 5),
        Err("cannot change stake per node while at least one node is active")
    );
    assert_eq!(reg.service_fee, 2500);
}

#[test]
fn find_nodes_for_unstake_takes_highest_active_first() {
    let s = settings();
    let mut reg = registry_with(4);
    reg.set_stake_per_node(&s, &owner(), 100).unwrap();
    reg.set_node_state(1, NodeState::Active);
    reg.set_node_state(2, NodeState::Active);
    reg.set_node_state(4, NodeState::Active);
    let (ids, keys) = reg.find_nodes_for_unstake(150);
    assert_eq!(ids, vec![4, 2]);
    assert_eq!(keys[0].to_vec(), key_bytes(4));
    assert_eq!(keys[1].to_vec(), key_bytes(2));
    let (ids, _) = reg.find_nodes_for_unstake(1000);
    assert_eq!(ids, vec![4, 2, 1]);
    let (ids, _) = reg.find_nodes_for_unstake(0);
    assert_eq!(ids.len(), 0);
}

#[test]
fn split_node_ids_by_err_moves_failed_nodes() {
    let reg = registry_with(3);
    let (ok, failed) = reg.split_node_ids_by_err(vec![1, 2, 3], &Vec::new()).unwrap();
    assert_eq!((ok, failed), (vec![1, 2, 3], vec![]));
    let reply = vec![key_bytes(1), vec![1u8], key_bytes(2), vec![0u8]];
    let (ok, failed) = reg.split_node_ids_by_err(vec![1, 2, 3], &reply).unwrap();
    // node 1 is replaced by the last id
    assert_eq!(ok, vec![3, 2]);
    assert_eq!(failed, vec![1]);
    assert_eq!(
        reg.split_node_ids_by_err(vec![1], &vec![key_bytes(1)]),
        Err("even number of arguments expected in auction callback")
    );
    assert_eq!(reg.split_node_ids_by_err(vec![1], &vec![key_bytes(1), vec![1u8, 1u8]]), Err("node status expected as one byte"));
    assert_eq!(reg.split_node_ids_by_err(vec![1], &vec![vec![1u8; 3], vec![1u8]]), Err("bad BLS key length"));
}
