use vstd::prelude::*;
use crate::pool::bls_key::BLSKey;
use crate::pool::node_config::NodeRegistry;
use crate::pool::stake_ledger::{StakeLedger, UnbondQueueItem, queue_users_valid};
use crate::pause::PauseFlags;
use crate::rewards::UserRewardData;
use crate::settings::Settings;
use crate::user_data::{UserDataModule, UserView};
use crate::settings::OWNER_USER_ID;

verus! {

/// Stake that a delegator offered for sale, and the block of the offer.
#[derive(PartialEq, Eq, Structural, Clone, Copy, Debug)]
pub struct StakeOffer {
    pub amount: u128,
    pub bl_nonce: u64,
}

/// A call that the contract makes to the auction contract; its reply comes back through the
/// matching callback.
pub enum AuctionCall {
    /// Stake `amount` for the nodes, which are listed as key and signature pairs.
    Stake { node_ids: Vec<usize>, num_nodes: usize, bls_keys_signatures: Vec<Vec<u8>>, amount: u128 },
    /// Unstake the nodes; the queue entry, if any, is that of the user who asked for it.
    UnStake { unbond_queue_entry: Option<UnbondQueueItem>, node_ids: Vec<usize>, bls_keys: Vec<BLSKey> },
    /// Unbond the nodes.
    UnBond { node_ids: Vec<usize>, bls_keys: Vec<BLSKey> },
    /// Claim back the stake of the nodes whose activation failed.
    Claim { node_ids: Vec<usize> },
}

/// The storage of the staking contract: settings, delegators and their stake, nodes,
/// rewards and stake offers per user id, the rewards sent so far and the pause flags.
pub struct StakingContract {
    pub settings: Settings,
    pub users: UserDataModule,
    pub ledger: StakeLedger,
    pub nodes: NodeRegistry,
    pub rewards: Vec<UserRewardData>,
    pub offers: Vec<StakeOffer>,
    pub sent_rewards: u128,
    pub pause: PauseFlags,
}

impl StakingContract {
    /// Every part is well formed, every user id has its stake row, reward data and offer, and
    /// every registered address has such an id.
    pub open spec fn wf(&self) -> bool {
        &&& self.users.wf()
        &&& self.ledger.wf()
        &&& self.nodes.wf()
        &&& self.users.view().num_users == self.ledger.num_users()
        &&& self.rewards@.len() == self.ledger.rows@.len()
        &&& self.offers@.len() == self.ledger.rows@.len()
        &&& queue_users_valid(self.ledger.unbond_queue@)
        &&& forall|a: Seq<u8>| #[trigger] self.users.view().ids.contains_key(a) ==> 1 <= self.users.view().ids[a]
            <= self.users.view().num_users
    }

    /// A contract with no users, no nodes and no stake.
    pub fn new() -> (r: StakingContract)
        ensures
            r.wf(),
            r.ledger.num_users() == 0,
            r.nodes.view().num_nodes() == 0,
            r.sent_rewards == 0,
    {
        let mut rewards: Vec<UserRewardData> = Vec::new();
        rewards.push(UserRewardData { reward_checkpoint: 0, unclaimed_rewards: 0 });
        let mut offers: Vec<StakeOffer> = Vec::new();
        offers.push(StakeOffer { amount: 0, bl_nonce: 0 });
        StakingContract {
            settings: Settings::new(),
            users: UserDataModule::new(),
            ledger: StakeLedger::new(),
            nodes: NodeRegistry::new(),
            rewards,
            offers,
            sent_rewards: 0,
            pause: PauseFlags::new(),
        }
    }
}

impl StakingContract {
    /// Initializes a fresh contract for the deployer `caller`, who becomes the owner and
    /// user 1.
    pub fn init(&mut self, caller: &Vec<u8>, auction_contract_addr: &Vec<u8>, n_blocks_before_force_unstake: u64, n_blocks_before_unbond: u64)
        requires
            old(self).wf(),
            old(self).ledger.num_users() == 0,
        ensures
            final(self).wf(),
            final(self).settings.owner@ == caller@,
            final(self).settings.auction_addr@ == auction_contract_addr@,
            final(self).settings.n_blocks_before_force_unstake == n_blocks_before_force_unstake,
            final(self).settings.n_blocks_before_unbond == n_blocks_before_unbond,
            final(self).users.view().num_users == 1,
            final(self).users.view().ids == old(self).users.view().ids.insert(caller@, OWNER_USER_ID),
            final(self).ledger.num_users() == 1,
            forall|u: int, s: crate::pool::states::UserStakeState| #[trigger] final(self).ledger.stake_of(u, s) == old(self).ledger.stake_of(u, s),
            final(self).nodes == old(self).nodes,
    {
        let _ = self.settings.init(&mut self.users, caller, auction_contract_addr, n_blocks_before_force_unstake, n_blocks_before_unbond);
        let _ = self.ledger.add_user();
        self.rewards.push(UserRewardData { reward_checkpoint: 0, unclaimed_rewards: 0 });
        self.offers.push(StakeOffer { amount: 0, bl_nonce: 0 });
    }
}

} // verus!
