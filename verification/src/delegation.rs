use vstd::prelude::*;
use crate::fund_module::FundModule;
use crate::user_data::{UserDataModule, UserView};
use crate::settings::{Settings, SettingsModule, SettingsView, OWNER_USER_ID, with_auto_activation};
use crate::pause::{PauseFlags, PauseModule, paused_after};

verus! {

/// The storage of the delegation contract: funds, users, settings and pause flags.
pub struct DelegationContract {
    pub funds: FundModule,
    pub users: UserDataModule,
    pub settings: Settings,
    pub pause: PauseFlags,
}

/// The delegation contract as a whole.
pub trait Delegation: SettingsModule + PauseModule {
    /// The invariant of the whole storage.
    spec fn storage_valid(&self) -> bool;
}

impl DelegationContract {
    /// A freshly deployed contract, before initialization.
    pub fn new() -> (r: DelegationContract)
        ensures
            r.storage_valid(),
            r.funds.max_id() == 0,
            r.users.view().num_users == 0,
            r.users.view().ids == Map::<Seq<u8>, usize>::empty(),
            r.users.view().addresses == Map::<usize, Seq<u8>>::empty(),
            forall|t: crate::fund_type::FundType| r.funds.type_list(t) == Seq::<usize>::empty(),
            forall|u: usize, t: crate::fund_type::FundType| r.funds.user_list(u, t) == Seq::<usize>::empty(),
            r.settings.owner@.len() == 0,
            r.settings.node_rewards_addr@.len() == 0,
            r.settings.auction_addr@.len() == 0,
            r.settings.n_blocks_before_force_unstake == 0,
            r.settings.n_blocks_before_unbond == 0,
            !r.settings.auto_activation_enabled,
            !r.pause.staking_paused,
            !r.pause.stake_sale_paused,
    {
        DelegationContract {
            funds: FundModule::new(),
            users: UserDataModule::new(),
            settings: Settings::new(),
            pause: PauseFlags::new(),
        }
    }
}

impl Delegation for DelegationContract {
    open spec fn storage_valid(&self) -> bool {
        self.funds.wf() && self.users.wf()
    }
}

impl SettingsModule for DelegationContract {
    open spec fn settings_view(&self) -> SettingsView {
        self.settings.view()
    }

    open spec fn user_view(&self) -> UserView {
        self.users.view()
    }

    open spec fn valid(&self) -> bool {
        self.funds.wf() && self.users.wf()
    }

    fn init(
        &mut self,
        caller: &Vec<u8>,
        auction_contract_addr: &Vec<u8>,
        n_blocks_before_force_unstake: u64,
        n_blocks_before_unbond: u64,
    ) -> (r: Result<(), &'static str>) {
        self.settings.init(&mut self.users, caller, auction_contract_addr, n_blocks_before_force_unstake, n_blocks_before_unbond)
    }

    fn owner_called(&self, caller: &Vec<u8>) -> (r: bool) {
        self.settings.owner_called(caller)
    }

    fn enable_auto_activation(&mut self, caller: &Vec<u8>) -> (r: Result<(), &'static str>) {
        self.settings.enable_auto_activation(caller)
    }

    fn disable_auto_activation(&mut self, caller: &Vec<u8>) -> (r: Result<(), &'static str>) {
        self.settings.disable_auto_activation(caller)
    }

    fn get_contract_owner(&self) -> (r: Vec<u8>) {
        crate::user_data::copy_bytes(&self.settings.owner)
    }

    fn get_node_reward_destination(&self) -> (r: Vec<u8>) {
        crate::user_data::copy_bytes(&self.settings.node_rewards_addr)
    }

    fn get_auction_contract_address(&self) -> (r: Vec<u8>) {
        crate::user_data::copy_bytes(&self.settings.auction_addr)
    }

    fn get_num_blocks_before_force_unstake(&self) -> (r: u64) {
        self.settings.n_blocks_before_force_unstake
    }

    fn get_num_blocks_before_unbond(&self) -> (r: u64) {
        self.settings.n_blocks_before_unbond
    }

    fn is_auto_activation_enabled(&self) -> (r: bool) {
        self.settings.auto_activation_enabled
    }
}

impl PauseModule for DelegationContract {
    open spec fn pause_flags(&self) -> PauseFlags {
        self.pause
    }

    open spec fn owner(&self) -> Seq<u8> {
        self.settings.owner@
    }

    open spec fn pause_valid(&self) -> bool {
        self.funds.wf() && self.users.wf()
    }

    fn is_staking_paused(&self) -> (r: bool) {
        self.pause.is_staking_paused()
    }

    fn is_stake_sale_paused(&self) -> (r: bool) {
        self.pause.is_stake_sale_paused()
    }

    fn pause_staking(&mut self, caller: &Vec<u8>) -> (r: Result<(), &'static str>) {
        self.pause.pause_staking(&self.settings, caller)
    }

    fn unpause_staking(&mut self, caller: &Vec<u8>) -> (r: Result<(), &'static str>) {
        self.pause.unpause_staking(&self.settings, caller)
    }

    fn pause_stake_sale(&mut self, caller: &Vec<u8>) -> (r: Result<(), &'static str>) {
        self.pause.pause_stake_sale(&self.settings, caller)
    }

    fn unpause_stake_sale(&mut self, caller: &Vec<u8>) -> (r: Result<(), &'static str>) {
        self.pause.unpause_stake_sale(&self.settings, caller)
    }
}

} // verus!
