use vstd::prelude::*;
use crate::user_data::{UserDataModule, UserView, bytes_eq, copy_bytes};

verus! {

/// The user id of the contract owner, who receives the node rewards. It also counts as a
/// delegator when the owner adds stake.
pub const OWNER_USER_ID: usize = 1;

/// Contract-wide settings: the owner, where node rewards go, the auction contract, the
/// waiting periods in blocks, and whether nodes are activated automatically.
pub struct Settings {
    pub owner: Vec<u8>,
    pub node_rewards_addr: Vec<u8>,
    pub auction_addr: Vec<u8>,
    pub n_blocks_before_force_unstake: u64,
    pub n_blocks_before_unbond: u64,
    pub auto_activation_enabled: bool,
}

impl Settings {
    /// Settings before the contract is initialized: everything empty or zero.
    pub fn new() -> (r: Settings)
        ensures
            r.owner@.len() == 0,
            r.node_rewards_addr@.len() == 0,
            r.auction_addr@.len() == 0,
            r.n_blocks_before_force_unstake == 0,
            r.n_blocks_before_unbond == 0,
            !r.auto_activation_enabled,
    {
        Settings {
            owner: Vec::new(),
            node_rewards_addr: Vec::new(),
            auction_addr: Vec::new(),
            n_blocks_before_force_unstake: 0,
            n_blocks_before_unbond: 0,
            auto_activation_enabled: false,
        }
    }

    /// Initializes the contract for the deployer `caller`: the caller becomes the owner and
    /// the destination of node rewards, and is registered as user 1, the only user so far.
    pub fn init(
        &mut self,
        users: &mut UserDataModule,
        caller: &Vec<u8>,
        auction_contract_addr: &Vec<u8>,
        n_blocks_before_force_unstake: u64,
        n_blocks_before_unbond: u64,
    ) -> (r: Result<(), &'static str>)
        requires
            old(users).wf(),
        ensures
            r is Ok,
            final(users).wf(),
            final(self).owner@ == caller@,
            final(self).node_rewards_addr@ == caller@,
            final(self).auction_addr@ == auction_contract_addr@,
            final(self).n_blocks_before_force_unstake == n_blocks_before_force_unstake,
            final(self).n_blocks_before_unbond == n_blocks_before_unbond,
            final(self).auto_activation_enabled == old(self).auto_activation_enabled,
            final(users).view() == (UserView {
                num_users: 1,
                ids: old(users).view().ids.insert(caller@, OWNER_USER_ID),
                addresses: old(users).view().addresses,
            }),
    {
        self.owner = copy_bytes(caller);
        self.node_rewards_addr = copy_bytes(caller);
        users.set_user_id(caller, OWNER_USER_ID);
        users.set_num_users(1);
        self.auction_addr = copy_bytes(auction_contract_addr);
        self.n_blocks_before_force_unstake = n_blocks_before_force_unstake;
        self.n_blocks_before_unbond = n_blocks_before_unbond;
        Ok(())
    }

    /// Whether `caller` is the owner.
    pub fn owner_called(&self, caller: &Vec<u8>) -> (r: bool)
        ensures
            r == (caller@ == self.owner@),
    {
        bytes_eq(caller, &self.owner)
    }

    /// Lets the owner turn on automatic activation.
    pub fn enable_auto_activation(&mut self, caller: &Vec<u8>) -> (r: Result<(), &'static str>)
        ensures
            r is Ok <==> caller@ == old(self).owner@,
            r matches Err(e) ==> e@ == "only owner can enable auto activation"@,
            final(self).auto_activation_enabled == (if r is Ok {
                true
            } else {
                old(self).auto_activation_enabled
            }),
            final(self).owner == old(self).owner,
            final(self).node_rewards_addr == old(self).node_rewards_addr,
            final(self).auction_addr == old(self).auction_addr,
            final(self).n_blocks_before_force_unstake == old(self).n_blocks_before_force_unstake,
            final(self).n_blocks_before_unbond == old(self).n_blocks_before_unbond,
    {
        if !self.owner_called(caller) {
            return Err("only owner can enable auto activation");
        }
        self.auto_activation_enabled = true;
        Ok(())
    }

    /// Lets the owner turn off automatic activation.
    pub fn disable_auto_activation(&mut self, caller: &Vec<u8>) -> (r: Result<(), &'static str>)
        ensures
            r is Ok <==> caller@ == old(self).owner@,
            r matches Err(e) ==> e@ == "only owner can disable auto activation"@,
            final(self).auto_activation_enabled == (if r is Ok {
                false
            } else {
                old(self).auto_activation_enabled
            }),
            final(self).owner == old(self).owner,
            final(self).node_rewards_addr == old(self).node_rewards_addr,
            final(self).auction_addr == old(self).auction_addr,
            final(self).n_blocks_before_force_unstake == old(self).n_blocks_before_force_unstake,
            final(self).n_blocks_before_unbond == old(self).n_blocks_before_unbond,
    {
        if !self.owner_called(caller) {
            return Err("only owner can disable auto activation");
        }
        self.auto_activation_enabled = false;
        Ok(())
    }
}

/// What the settings hold.
pub struct SettingsView {
    pub owner: Seq<u8>,
    pub node_rewards_addr: Seq<u8>,
    pub auction_addr: Seq<u8>,
    pub n_blocks_before_force_unstake: u64,
    pub n_blocks_before_unbond: u64,
    pub auto_activation_enabled: bool,
}

impl Settings {
    pub open spec fn view(&self) -> SettingsView {
        SettingsView {
            owner: self.owner@,
            node_rewards_addr: self.node_rewards_addr@,
            auction_addr: self.auction_addr@,
            n_blocks_before_force_unstake: self.n_blocks_before_force_unstake,
            n_blocks_before_unbond: self.n_blocks_before_unbond,
            auto_activation_enabled: self.auto_activation_enabled,
        }
    }
}

/// `v` with automatic activation set to `on` when `allowed`, unchanged otherwise.
pub open spec fn with_auto_activation(v: SettingsView, allowed: bool, on: bool) -> SettingsView {
    if allowed {
        SettingsView { auto_activation_enabled: on, ..v }
    } else {
        v
    }
}

/// Initialization and the contract-wide settings, as the contract offers them.
pub trait SettingsModule {
    spec fn settings_view(&self) -> SettingsView;

    spec fn user_view(&self) -> UserView;

    /// The invariant of the contract's storage.
    spec fn valid(&self) -> bool;

    /// Initializes the contract for the deployer `caller`: the caller becomes the owner and
    /// the destination of node rewards, and is registered as user 1, the only user so far.
    fn init(
        &mut self,
        caller: &Vec<u8>,
        auction_contract_addr: &Vec<u8>,
        n_blocks_before_force_unstake: u64,
        n_blocks_before_unbond: u64,
    ) -> (r: Result<(), &'static str>)
        requires
            old(self).valid(),
        ensures
            r is Ok,
            final(self).valid(),
            final(self).settings_view() == (SettingsView {
                owner: caller@,
                node_rewards_addr: caller@,
                auction_addr: auction_contract_addr@,
                n_blocks_before_force_unstake,
                n_blocks_before_unbond,
                auto_activation_enabled: old(self).settings_view().auto_activation_enabled,
            }),
            final(self).user_view() == (UserView {
                num_users: 1,
                ids: old(self).user_view().ids.insert(caller@, OWNER_USER_ID),
                addresses: old(self).user_view().addresses,
            }),
    ;

    /// Whether `caller` is the owner.
    fn owner_called(&self, caller: &Vec<u8>) -> (r: bool)
        ensures
            r == (caller@ == self.settings_view().owner),
    ;

    /// Lets the owner turn on automatic activation.
    fn enable_auto_activation(&mut self, caller: &Vec<u8>) -> (r: Result<(), &'static str>)
        requires
            old(self).valid(),
        ensures
            final(self).valid(),
            r is Ok <==> caller@ == old(self).settings_view().owner,
            r matches Err(e) ==> e@ == "only owner can enable auto activation"@,
            final(self).settings_view() == with_auto_activation(old(self).settings_view(), r is Ok, true),
            final(self).user_view() == old(self).user_view(),
    ;

    /// Lets the owner turn off automatic activation.
    fn disable_auto_activation(&mut self, caller: &Vec<u8>) -> (r: Result<(), &'static str>)
        requires
            old(self).valid(),
        ensures
            final(self).valid(),
            r is Ok <==> caller@ == old(self).settings_view().owner,
            r matches Err(e) ==> e@ == "only owner can disable auto activation"@,
            final(self).settings_view() == with_auto_activation(old(self).settings_view(), r is Ok, false),
            final(self).user_view() == old(self).user_view(),
    ;

    fn get_contract_owner(&self) -> (r: Vec<u8>)
        ensures
            r@ == self.settings_view().owner,
    ;

    fn get_node_reward_destination(&self) -> (r: Vec<u8>)
        ensures
            r@ == self.settings_view().node_rewards_addr,
    ;

    fn get_auction_contract_address(&self) -> (r: Vec<u8>)
        ensures
            r@ == self.settings_view().auction_addr,
    ;

    fn get_num_blocks_before_force_unstake(&self) -> (r: u64)
        ensures
            r == self.settings_view().n_blocks_before_force_unstake,
    ;

    fn get_num_blocks_before_unbond(&self) -> (r: u64)
        ensures
            r == self.settings_view().n_blocks_before_unbond,
    ;

    fn is_auto_activation_enabled(&self) -> (r: bool)
        ensures
            r == self.settings_view().auto_activation_enabled,
    ;
}

} // verus!
