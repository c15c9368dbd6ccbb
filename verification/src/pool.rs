pub mod fund;
pub mod fund_store;
pub mod fund_transf;
pub mod states;
pub mod fund_view;
pub mod bls_key;
pub mod stake_ledger;
pub mod node_config;
pub mod contract;
pub mod node_activation;
pub mod contract_rewards;
pub mod node_staking;
pub mod node_unstaking;
pub mod stake_sale;
pub mod genesis;
pub mod user_stake;
pub mod unexpected;
pub mod encoding;
