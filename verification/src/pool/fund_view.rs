use vstd::prelude::*;
use crate::pool::fund::{
    FundType, FundInfo, DISCR_FREE, DISCR_PENDING_ACT, DISCR_ACTIVE_FAILED, DISCR_ACTIVE, DISCR_ACTIVE_FOR_SALE,
    DISCR_PENDING_DEACT, DISCR_UNBOND, DISCR_PENDING_UNBOND, NUM_DISCRIMINANTS, spec_is_stake, spec_funds_in_contract,
};
use crate::pool::fund_store::{FundStore, filtered_items_sum};
use crate::pool::states::UserStakeState;
use crate::user_data::{UserDataModule, id_of};

verus! {

/// The user id under which the totals of all users are reported.
pub const USER_STAKE_TOTALS_ID: usize = 0;

/// Funds of `user_id`, or of anyone for the totals id.
pub open spec fn owned_by(info: FundInfo, user_id: usize) -> bool {
    user_id == USER_STAKE_TOTALS_ID || info.user_id == user_id
}

/// The list that holds stake in state `state`, and which of its funds count for `user_id`.
pub open spec fn state_list(state: UserStakeState) -> u8 {
    match state {
        UserStakeState::Inactive => DISCR_FREE,
        UserStakeState::PendingActivation => DISCR_PENDING_ACT,
        UserStakeState::Active => DISCR_ACTIVE,
        UserStakeState::PendingDeactivation => DISCR_PENDING_DEACT,
        UserStakeState::UnBondPeriod => DISCR_UNBOND,
        UserStakeState::PendingUnBond => DISCR_PENDING_UNBOND,
        UserStakeState::WithdrawOnly => DISCR_FREE,
        UserStakeState::ActivationFailed => DISCR_ACTIVE_FAILED,
        UserStakeState::ActiveForSale => DISCR_ACTIVE_FOR_SALE,
        UserStakeState::PendingDeactivationFromSale => DISCR_PENDING_DEACT,
    }
}

pub open spec fn state_filter(info: FundInfo, user_id: usize, state: UserStakeState) -> bool {
    owned_by(info, user_id) && match state {
        UserStakeState::Inactive => info.fund_type == (FundType::Free { requested_unstake: false }),
        UserStakeState::PendingDeactivation => info.fund_type == (FundType::PendingDeactivation { requested_unstake: false }),
        UserStakeState::WithdrawOnly => info.fund_type == (FundType::Free { requested_unstake: true }),
        UserStakeState::PendingDeactivationFromSale => info.fund_type == (FundType::PendingDeactivation {
            requested_unstake: true,
        }),
        _ => true,
    }
}

pub open spec fn state_filter_rel(user_id: usize, state: UserStakeState) -> spec_fn(FundInfo) -> bool {
    |info: FundInfo| state_filter(info, user_id, state)
}

pub open spec fn stake_of_user_rel(user_id: usize) -> spec_fn(FundInfo) -> bool {
    |info: FundInfo| spec_is_stake(info.fund_type) && info.user_id == user_id
}

pub open spec fn is_stake_rel() -> spec_fn(FundInfo) -> bool {
    |info: FundInfo| spec_is_stake(info.fund_type)
}

pub open spec fn in_contract_rel() -> spec_fn(FundInfo) -> bool {
    |info: FundInfo| spec_funds_in_contract(info.fund_type)
}

impl FundStore {
    /// Stake of `user_id` (of all users for the totals id) in state `state`.
    pub open spec fn stake_of_state(&self, user_id: usize, state: UserStakeState) -> int {
        filtered_items_sum(self.list(state_list(state) as int), state_filter_rel(user_id, state))
    }

    /// Sum of all stake.
    pub fn get_total_stake(&self) -> (r: u128)
        requires
            self.wf(),
        ensures
            r == self.filtered_total(is_stake_rel(), NUM_DISCRIMINANTS as int),
    {
        let f = |info: FundInfo| -> (b: bool)
            ensures
                b == spec_is_stake(info.fund_type),
            { info.fund_type.is_stake() };
        self.query_all(f, Ghost(is_stake_rel()))
    }

    /// Stake of `user_id` (of all users for the totals id) in state `stake_type`.
    pub fn get_user_stake_of_type(&self, user_id: usize, stake_type: UserStakeState) -> (r: u128)
        requires
            self.wf(),
        ensures
            r == self.stake_of_state(user_id, stake_type),
    {
        let f = |info: FundInfo| -> (b: bool)
            ensures
                b == state_filter(info, user_id, stake_type),
            {
                (user_id == USER_STAKE_TOTALS_ID || info.user_id == user_id) && match stake_type {
                    UserStakeState::Inactive => match info.fund_type {
                        FundType::Free { requested_unstake } => !requested_unstake,
                        _ => false,
                    },
                    UserStakeState::PendingDeactivation => match info.fund_type {
                        FundType::PendingDeactivation { requested_unstake } => !requested_unstake,
                        _ => false,
                    },
                    UserStakeState::WithdrawOnly => match info.fund_type {
                        FundType::Free { requested_unstake } => requested_unstake,
                        _ => false,
                    },
                    UserStakeState::PendingDeactivationFromSale => match info.fund_type {
                        FundType::PendingDeactivation { requested_unstake } => requested_unstake,
                        _ => false,
                    },
                    _ => true,
                }
            };
        let d = match stake_type {
            UserStakeState::Inactive => DISCR_FREE,
            UserStakeState::PendingActivation => DISCR_PENDING_ACT,
            UserStakeState::Active => DISCR_ACTIVE,
            UserStakeState::PendingDeactivation => DISCR_PENDING_DEACT,
            UserStakeState::UnBondPeriod => DISCR_UNBOND,
            UserStakeState::PendingUnBond => DISCR_PENDING_UNBOND,
            UserStakeState::WithdrawOnly => DISCR_FREE,
            UserStakeState::ActivationFailed => DISCR_ACTIVE_FAILED,
            UserStakeState::ActiveForSale => DISCR_ACTIVE_FOR_SALE,
            UserStakeState::PendingDeactivationFromSale => DISCR_PENDING_DEACT,
        };
        self.query_list(d, f, Ghost(state_filter_rel(user_id, stake_type)))
    }

    /// Sum of the stake of `user_id` in all states.
    pub fn get_user_total_stake(&self, user_id: usize) -> (r: u128)
        requires
            self.wf(),
        ensures
            r == self.filtered_total(stake_of_user_rel(user_id), NUM_DISCRIMINANTS as int),
    {
        let f = |info: FundInfo| -> (b: bool)
            ensures
                b == (spec_is_stake(info.fund_type) && info.user_id == user_id),
            { info.fund_type.is_stake() && info.user_id == user_id };
        self.query_all(f, Ghost(stake_of_user_rel(user_id)))
    }

    /// Stake of the user registered for `user_address` in all states; 0 for an unknown address.
    pub fn get_user_total_stake_endpoint(&self, users: &UserDataModule, user_address: &Vec<u8>) -> (r: u128)
        requires
            self.wf(),
            users.wf(),
        ensures
            r == (if id_of(users.view(), user_address@) == 0 {
                0
            } else {
                self.filtered_total(stake_of_user_rel(id_of(users.view(), user_address@)), NUM_DISCRIMINANTS as int)
            }),
    {
        let user_id = users.get_user_id(user_address);
        if user_id == 0 {
            0
        } else {
            self.get_user_total_stake(user_id)
        }
    }

    /// Active stake of the user registered for `user_address`; 0 for an unknown address.
    pub fn get_user_active_stake_endpoint(&self, users: &UserDataModule, user_address: &Vec<u8>) -> (r: u128)
        requires
            self.wf(),
            users.wf(),
        ensures
            r == (if id_of(users.view(), user_address@) == 0 {
                0
            } else {
                self.stake_of_state(id_of(users.view(), user_address@), UserStakeState::Active)
            }),
    {
        let user_id = users.get_user_id(user_address);
        if user_id == 0 {
            0
        } else {
            self.get_user_stake_of_type(user_id, UserStakeState::Active)
        }
    }

    proof fn lemma_free_parts(&self, user_id: usize)
        requires
            self.wf(),
        ensures
            self.stake_of_state(user_id, UserStakeState::Inactive) + self.stake_of_state(user_id, UserStakeState::WithdrawOnly)
                <= u128::MAX,
    {
        let s = self.list(DISCR_FREE as int);
        lemma_disjoint_filters_le(
            s,
            state_filter_rel(user_id, UserStakeState::Inactive),
            state_filter_rel(user_id, UserStakeState::WithdrawOnly),
        );
        self.lemma_list_fits(DISCR_FREE as int);
    }

    /// Inactive and withdraw-only stake of the user registered for `user_address`; 0 for an
    /// unknown address.
    pub fn get_user_inactive_stake_endpoint(&self, users: &UserDataModule, user_address: &Vec<u8>) -> (r: u128)
        requires
            self.wf(),
            users.wf(),
        ensures
            r == (if id_of(users.view(), user_address@) == 0 {
                0
            } else {
                self.stake_of_state(id_of(users.view(), user_address@), UserStakeState::Inactive) + self.stake_of_state(
                    id_of(users.view(), user_address@),
                    UserStakeState::WithdrawOnly,
                )
            }),
    {
        let user_id = users.get_user_id(user_address);
        if user_id == 0 {
            0
        } else {
            proof {
                self.lemma_free_parts(user_id);
            }
            self.get_user_stake_of_type(user_id, UserStakeState::Inactive) + self.get_user_stake_of_type(
                user_id,
                UserStakeState::WithdrawOnly,
            )
        }
    }

    /// Active stake of all users.
    pub fn get_total_active_stake(&self) -> (r: u128)
        requires
            self.wf(),
        ensures
            r == self.stake_of_state(USER_STAKE_TOTALS_ID, UserStakeState::Active),
    {
        self.get_user_stake_of_type(USER_STAKE_TOTALS_ID, UserStakeState::Active)
    }

    /// Inactive and withdraw-only stake of all users.
    pub fn get_total_inactive_stake(&self) -> (r: u128)
        requires
            self.wf(),
        ensures
            r == self.stake_of_state(USER_STAKE_TOTALS_ID, UserStakeState::Inactive) + self.stake_of_state(
                USER_STAKE_TOTALS_ID,
                UserStakeState::WithdrawOnly,
            ),
    {
        proof {
            self.lemma_free_parts(USER_STAKE_TOTALS_ID);
        }
        self.get_user_stake_of_type(USER_STAKE_TOTALS_ID, UserStakeState::Inactive) + self.get_user_stake_of_type(
            USER_STAKE_TOTALS_ID,
            UserStakeState::WithdrawOnly,
        )
    }

    /// Sum of the funds held by the contract itself: free funds and deferred payments.
    pub fn all_funds_in_contract(&self) -> (r: u128)
        requires
            self.wf(),
        ensures
            r == self.filtered_total(in_contract_rel(), NUM_DISCRIMINANTS as int),
    {
        let f = |info: FundInfo| -> (b: bool)
            ensures
                b == spec_funds_in_contract(info.fund_type),
            { info.fund_type.funds_in_contract() };
        self.query_all(f, Ghost(in_contract_rel()))
    }

    /// Fails when `user_id` has some stake, but less than `minimum_stake`.
    pub fn validate_total_user_stake(&self, user_id: usize, minimum_stake: u128) -> (r: Result<(), &'static str>)
        requires
            self.wf(),
        ensures
            ({
                let total = self.filtered_total(stake_of_user_rel(user_id), NUM_DISCRIMINANTS as int);
                r is Err <==> (total > 0 && total < minimum_stake)
            }),
            r matches Err(e) ==> e@ == "cannot have less stake than minimum stake"@,
    {
        let user_total = self.get_user_total_stake(user_id);
        if user_total > 0 && user_total < minimum_stake {
            return Err("cannot have less stake than minimum stake");
        }
        Ok(())
    }

    /// The creation blocks of the stake that the user registered for `user` offered for sale,
    /// oldest first; none for an unknown address.
    pub fn get_stake_for_sale_creation_nonces(&self, users: &UserDataModule, user: &Vec<u8>) -> (r: Vec<u64>)
        requires
            self.wf(),
            users.wf(),
        ensures
            id_of(users.view(), user@) == 0 ==> r@.len() == 0,
            id_of(users.view(), user@) != 0 ==> r@ == creation_nonces(
                self.list(DISCR_ACTIVE_FOR_SALE as int),
                id_of(users.view(), user@),
            ),
    {
        let user_id = users.get_user_id(user);
        let mut result: Vec<u64> = Vec::new();
        if user_id == 0 {
            return result;
        }
        let list = self.get_fund_list(DISCR_ACTIVE_FOR_SALE);
        let mut i: usize = 0;
        while i < list.0.len()
            invariant
                i <= list.0@.len(),
                result@ == creation_nonces(list.0@.take(i as int), user_id),
            decreases list.0@.len() - i,
        {
            let it = list.0[i];
            proof {
                assert(list.0@.take(i + 1).drop_last() =~= list.0@.take(i as int));
            }
            if it.info.user_id == user_id {
                match it.info.fund_type {
                    FundType::ActiveForSale { created } => {
                        result.push(created);
                    },
                    _ => {},
                }
            }
            i = i + 1;
        }
        proof {
            assert(list.0@.take(list.0@.len() as int) =~= list.0@);
        }
        result
    }
}

/// The creation blocks of the funds of `user_id` offered for sale in `s`, in order.
pub open spec fn creation_nonces(s: Seq<crate::pool::fund::FundItem>, user_id: usize) -> Seq<u64>
    decreases s.len(),
{
    if s.len() == 0 {
        Seq::empty()
    } else {
        let rest = creation_nonces(s.drop_last(), user_id);
        let it = s.last();
        if it.info.user_id == user_id {
            match it.info.fund_type {
                FundType::ActiveForSale { created } => rest.push(created),
                _ => rest,
            }
        } else {
            rest
        }
    }
}

/// Two filters that never both hold select parts that add up to at most the whole.
pub proof fn lemma_disjoint_filters_le(
    s: Seq<crate::pool::fund::FundItem>,
    p: spec_fn(FundInfo) -> bool,
    q: spec_fn(FundInfo) -> bool,
)
    requires
        forall|info: FundInfo| !(#[trigger] p(info) && q(info)),
    ensures
        filtered_items_sum(s, p) + filtered_items_sum(s, q) <= crate::pool::fund::items_sum(s),
    decreases s.len(),
{
    if s.len() > 0 {
        lemma_disjoint_filters_le(s.drop_last(), p, q);
    }
}

/// Stake in each state: inactive, pending activation, active, pending deactivation, unbond
/// period, pending unbond, withdraw only, activation failed, active for sale, pending
/// deactivation from sale.
pub type StakeByState = (u128, u128, u128, u128, u128, u128, u128, u128, u128, u128);

impl FundStore {
    pub open spec fn stake_by_state(&self, user_id: usize) -> StakeByState {
        (
            self.stake_of_state(user_id, UserStakeState::Inactive) as u128,
            self.stake_of_state(user_id, UserStakeState::PendingActivation) as u128,
            self.stake_of_state(user_id, UserStakeState::Active) as u128,
            self.stake_of_state(user_id, UserStakeState::PendingDeactivation) as u128,
            self.stake_of_state(user_id, UserStakeState::UnBondPeriod) as u128,
            self.stake_of_state(user_id, UserStakeState::PendingUnBond) as u128,
            self.stake_of_state(user_id, UserStakeState::WithdrawOnly) as u128,
            self.stake_of_state(user_id, UserStakeState::ActivationFailed) as u128,
            self.stake_of_state(user_id, UserStakeState::ActiveForSale) as u128,
            self.stake_of_state(user_id, UserStakeState::PendingDeactivationFromSale) as u128,
        )
    }

    /// Stake of `user_id` (of all users for the totals id) in each state.
    pub fn get_user_stake_by_type(&self, user_id: usize) -> (r: StakeByState)
        requires
            self.wf(),
        ensures
            r == self.stake_by_state(user_id),
    {
        (
            self.get_user_stake_of_type(user_id, UserStakeState::Inactive),
            self.get_user_stake_of_type(user_id, UserStakeState::PendingActivation),
            self.get_user_stake_of_type(user_id, UserStakeState::Active),
            self.get_user_stake_of_type(user_id, UserStakeState::PendingDeactivation),
            self.get_user_stake_of_type(user_id, UserStakeState::UnBondPeriod),
            self.get_user_stake_of_type(user_id, UserStakeState::PendingUnBond),
            self.get_user_stake_of_type(user_id, UserStakeState::WithdrawOnly),
            self.get_user_stake_of_type(user_id, UserStakeState::ActivationFailed),
            self.get_user_stake_of_type(user_id, UserStakeState::ActiveForSale),
            self.get_user_stake_of_type(user_id, UserStakeState::PendingDeactivationFromSale),
        )
    }

    /// Stake in each state of the user registered for `user_address`; zeros for an unknown address.
    pub fn get_user_stake_by_type_endpoint(&self, users: &UserDataModule, user_address: &Vec<u8>) -> (r: StakeByState)
        requires
            self.wf(),
            users.wf(),
        ensures
            r == (if id_of(users.view(), user_address@) == 0 {
                (0u128, 0u128, 0u128, 0u128, 0u128, 0u128, 0u128, 0u128, 0u128, 0u128)
            } else {
                self.stake_by_state(id_of(users.view(), user_address@))
            }),
    {
        let user_id = users.get_user_id(user_address);
        if user_id == 0 {
            (0, 0, 0, 0, 0, 0, 0, 0, 0, 0)
        } else {
            self.get_user_stake_by_type(user_id)
        }
    }

    /// Stake of all users in each state.
    pub fn get_total_stake_by_type_endpoint(&self) -> (r: StakeByState)
        requires
            self.wf(),
        ensures
            r == self.stake_by_state(USER_STAKE_TOTALS_ID),
    {
        self.get_user_stake_by_type(USER_STAKE_TOTALS_ID)
    }

    /// Fails when the owner's stake is less than `owner_min_stake_share` per 10000 of all stake.
    pub fn validate_owner_stake_share(&self, owner_min_stake_share: u128) -> (r: Result<(), &'static str>)
        requires
            self.wf(),
            self.filtered_total(is_stake_rel(), NUM_DISCRIMINANTS as int) * owner_min_stake_share <= u128::MAX,
            self.filtered_total(stake_of_user_rel(crate::settings::OWNER_USER_ID), NUM_DISCRIMINANTS as int) * 10000
                <= u128::MAX,
        ensures
            r is Err <==> self.filtered_total(stake_of_user_rel(crate::settings::OWNER_USER_ID), NUM_DISCRIMINANTS as int)
                * 10000 < self.filtered_total(is_stake_rel(), NUM_DISCRIMINANTS as int) * owner_min_stake_share,
            r matches Err(e) ==> e@ == "owner doesn't have enough stake in the contract"@,
    {
        let owner_total = self.get_user_total_stake(crate::settings::OWNER_USER_ID);
        let total = self.get_total_stake();
        if owner_total * 10000 < total * owner_min_stake_share {
            return Err("owner doesn't have enough stake in the contract");
        }
        Ok(())
    }
}
} // verus!
