use vstd::prelude::*;
use crate::pool::contract::StakingContract;
use crate::pool::stake_ledger::row_sum;
use crate::pool::states::UserStakeState;
use crate::user_data::id_of;
use crate::pool::contract::AuctionCall;
use crate::pool::fund::{DISCR_ACTIVE_FOR_SALE, DISCR_FREE};
use crate::pool::fund_store::{walked, keep_if};
use crate::pool::fund_transf::free_of_rel;
use crate::pool::fund::NUM_DISCRIMINANTS;
use crate::pool::fund_store::{FundStore, filtered_items_sum, lemma_walked_same_lists};
use crate::pool::fund_transf::liquidated;
use crate::pool::fund_view::stake_of_user_rel;
use crate::pool::stake_sale::below_minimum;
use crate::user_data::UserDataModule;
use crate::pool::fund_transf::for_sale_due_rel;
use crate::pool::node_config::unstake_pick;
use crate::pool::stake_ledger::UnbondQueueItem;
use crate::pool::node_activation::with_states;
use crate::pool::node_unstaking::{all_active_once, unstake_rows};
use crate::pool::states::NodeState;
use crate::pool::node_staking::stake_pick;
use crate::pool::node_activation::col;
use crate::pool::stake_ledger::asc_rows;

verus! {

impl StakingContract {
    /// Adds `payment` to the inactive stake of the caller, registering it if needed.
    pub fn process_stake(&mut self, caller: &Vec<u8>, payment: u128)
        requires
            old(self).wf(),
            id_of(old(self).users.view(), caller@) == 0 ==> old(self).ledger.rows@.len() < usize::MAX,
            row_sum(old(self).ledger.rows_view()[0]) + payment <= u128::MAX,
        ensures
            final(self).wf(),
            exists|reg: StakingContract|
                #[trigger] old(self).registered(caller@, reg) && {
                    let id = old(self).buyer_id(caller@);
                    &&& final(self).users == reg.users
                    &&& forall|u: int, s: UserStakeState| #[trigger] final(self).ledger.stake_of(u, s) == reg.ledger.stake_of(u, s)
                        + if (u == id || u == 0) && s == UserStakeState::Inactive {
                        payment as int
                    } else {
                        0
                    }
                    &&& forall|u: int| #[trigger] final(self).ledger.total_of(u) == reg.ledger.total_of(u) + if u == id {
                        payment as int
                    } else {
                        0
                    }
                    &&& final(self).ledger.unbond_queue@ == reg.ledger.unbond_queue@
                    &&& final(self).rewards@ == reg.rewards@
                    &&& final(self).offers@ == reg.offers@
                    &&& final(self).nodes == reg.nodes
                    &&& final(self).settings == reg.settings
                    &&& final(self).sent_rewards == reg.sent_rewards
                    &&& final(self).pause == reg.pause
                },
    {
        let user_id = self.register_user(caller);
        let ghost reg = *self;
        proof {
            assert(self.ledger.rows_view()[0] == old(self).ledger.rows_view()[0]) by {
                if id_of(old(self).users.view(), caller@) == 0 {
                    assert(self.ledger.rows@.len() == old(self).ledger.rows@.len() + 1);
                    assert forall|c: int| 0 <= c < 10 implies self.ledger.rows_view()[0][c] == old(self).ledger.rows_view()[0][c] by {
                        crate::pool::stake_ledger::lemma_state_of_code(c);
                        let s = crate::pool::stake_ledger::state_of_code(c);
                        assert(self.ledger.stake_of(0, s) == old(self).ledger.stake_of(0, s));
                    }
                    assert(self.ledger.rows_view()[0] =~= old(self).ledger.rows_view()[0]);
                }
            }
        }
        self.ledger.increase_user_stake_of_type(user_id, UserStakeState::Inactive, payment);
    }

    /// A delegator stakes `payment`: it becomes inactive stake of the caller. Refused while
    /// staking is paused; nothing to do for no payment.
    pub fn stake_endpoint(&mut self, caller: &Vec<u8>, payment: u128) -> (r: Result<(), &'static str>)
        requires
            old(self).wf(),
            id_of(old(self).users.view(), caller@) == 0 ==> old(self).ledger.rows@.len() < usize::MAX,
            row_sum(old(self).ledger.rows_view()[0]) + payment <= u128::MAX,
        ensures
            final(self).wf(),
            old(self).pause.staking_paused ==> (r matches Err(e) && e@ == "staking paused"@) && *final(self) == *old(self),
            !old(self).pause.staking_paused && payment == 0 ==> r is Ok && *final(self) == *old(self),
            !old(self).pause.staking_paused && payment != 0 ==> r is Ok && exists|reg: StakingContract|
                #[trigger] old(self).registered(caller@, reg) && final(self).users == reg.users && forall|u: int, s: UserStakeState|
                    #[trigger] final(self).ledger.stake_of(u, s) == reg.ledger.stake_of(u, s) + if (u == old(self).buyer_id(caller@) || u
                        == 0) && s == UserStakeState::Inactive {
                        payment as int
                    } else {
                        0
                    },
    {
        if self.pause.staking_paused {
            return Err("staking paused");
        }
        if payment == 0 {
            return Ok(());
        }
        self.process_stake(caller, payment);
        Ok(())
    }

    /// During the genesis block only, stakes `stake` for the caller without a payment.
    pub fn stake_genesis(&mut self, caller: &Vec<u8>, stake: u128, bl_nonce: u64) -> (r: Result<(), &'static str>)
        requires
            old(self).wf(),
            id_of(old(self).users.view(), caller@) == 0 ==> old(self).ledger.rows@.len() < usize::MAX,
            row_sum(old(self).ledger.rows_view()[0]) + stake <= u128::MAX,
        ensures
            final(self).wf(),
            bl_nonce > 0 ==> (r matches Err(e) && e@ == "genesis block only"@) && *final(self) == *old(self),
            bl_nonce == 0 ==> r is Ok && exists|reg: StakingContract|
                #[trigger] old(self).registered(caller@, reg) && final(self).users == reg.users && forall|u: int, s: UserStakeState|
                    #[trigger] final(self).ledger.stake_of(u, s) == reg.ledger.stake_of(u, s) + if (u == old(self).buyer_id(caller@) || u
                        == 0) && s == UserStakeState::Inactive {
                        stake as int
                    } else {
                        0
                    },
    {
        if bl_nonce > 0 {
            return Err("genesis block only");
        }
        self.process_stake(caller, stake);
        Ok(())
    }

    /// A delegator takes back `amount` of its inactive stake; yields what is to be sent back.
    /// Nothing to do for no amount.
    pub fn unstake(&mut self, caller: &Vec<u8>, amount: u128) -> (r: Result<u128, &'static str>)
        requires
            old(self).wf(),
        ensures
            final(self).wf(),
            ({
                let id = id_of(old(self).users.view(), caller@);
                if amount == 0 {
                    r == Ok::<u128, &'static str>(0) && *final(self) == *old(self)
                } else if id == 0 {
                    (r matches Err(e) && e@ == "only delegators can unstake"@) && *final(self) == *old(self)
                } else if amount > old(self).ledger.stake_of(id as int, UserStakeState::Inactive) {
                    (r matches Err(e) && e@ == "cannot unstake more than was staked"@) && *final(self) == *old(self)
                } else {
                    &&& r == Ok::<u128, &'static str>(amount)
                    &&& forall|u: int, s: UserStakeState| #[trigger] final(self).ledger.stake_of(u, s) == old(self).ledger.stake_of(u, s)
                        - if (u == id || u == 0) && s == UserStakeState::Inactive {
                        amount as int
                    } else {
                        0
                    }
                    &&& forall|u: int| #[trigger] final(self).ledger.total_of(u) == old(self).ledger.total_of(u) - if u == id {
                        amount as int
                    } else {
                        0
                    }
                    &&& final(self).ledger.unbond_queue@ == old(self).ledger.unbond_queue@
                    &&& final(self).same_but_ledger(&*old(self))
                }
            }),
    {
        if amount == 0 {
            return Ok(0);
        }
        let user_id = self.users.get_user_id(caller);
        if user_id == 0 {
            return Err("only delegators can unstake");
        }
        let inactive = self.ledger.get_user_stake_of_type(user_id, UserStakeState::Inactive);
        if amount > inactive {
            return Err("cannot unstake more than was staked");
        }
        self.ledger.decrease_user_stake_of_type(user_id, UserStakeState::Inactive, amount);
        Ok(amount)
    }
}

impl StakingContract {
    /// `after` is `before` once `stake_endpoint` accepted `payment` from `caller`.
    pub open spec fn staked(before: StakingContract, caller: Seq<u8>, payment: u128, after: StakingContract) -> bool {
        &&& payment == 0 ==> after == before
        &&& payment != 0 ==> exists|reg: StakingContract|
            #[trigger] before.registered(caller, reg) && after.users == reg.users && forall|u: int, s: UserStakeState|
                #[trigger] after.ledger.stake_of(u, s) == reg.ledger.stake_of(u, s) + if (u == before.buyer_id(caller) || u == 0) && s
                    == UserStakeState::Inactive {
                    payment as int
                } else {
                    0
                }
    }

    /// `after` and `r` are what `stake_all_available`, called by `caller`, makes of `before`.
    pub open spec fn activation_done(
        before: StakingContract,
        caller: Seq<u8>,
        r: Result<Option<AuctionCall>, &'static str>,
        after: StakingContract,
    ) -> bool {
        &&& !before.settings.auto_activation_enabled && caller != before.settings.owner@ ==> (r matches Err(e) && e@
            == "auto activation disabled"@) && after == before
        &&& before.settings.auto_activation_enabled || caller == before.settings.owner@ ==> {
            let v = before.nodes.view();
            let ids = stake_pick(v, before.ledger.stake_of(0, UserStakeState::Inactive), 1);
            &&& ids.len() == 0 ==> (r matches Ok(None) && after == before)
            &&& ids.len() != 0 ==> (r matches Ok(Some(AuctionCall::Stake { node_ids: got, .. })) && got@ == ids
                && after.nodes.view() == with_states(v, ids, NodeState::PendingActivation) && after.ledger.rows_view()
                == asc_rows(
                before.ledger.rows_view(),
                col(UserStakeState::Inactive),
                col(UserStakeState::PendingActivation),
                ids.len() * v.stake_per_node,
            ) && after.same_but_nodes_ledger(&before))
        }
    }

    /// Stakes `payment` as `stake_endpoint` does, then activates what can be activated as
    /// `stake_all_available` does.
    pub fn stake_and_try_activate(&mut self, caller: &Vec<u8>, payment: u128) -> (r: Result<Option<AuctionCall>, &'static str>)
        requires
            old(self).wf(),
            id_of(old(self).users.view(), caller@) == 0 ==> old(self).ledger.rows@.len() < usize::MAX,
            row_sum(old(self).ledger.rows_view()[0]) + payment <= u128::MAX,
        ensures
            final(self).wf(),
            old(self).pause.staking_paused ==> (r matches Err(e) && e@ == "staking paused"@) && *final(self) == *old(self),
            !old(self).pause.staking_paused ==> exists|mid: StakingContract|
                #[trigger] Self::staked(*old(self), caller@, payment, mid) && Self::activation_done(mid, caller@, r, *final(self)),
    {
        match self.stake_endpoint(caller, payment) {
            Ok(()) => {},
            Err(e) => {
                return Err(e);
            },
        }
        let ghost mid = *self;
        proof {
            assert(Self::staked(*old(self), caller@, payment, mid));
        }
        let r = self.stake_all_available(caller);
        proof {
            assert(Self::activation_done(mid, caller@, r, *self));
        }
        r
    }

    /// A delegator whose stake was offered for sale long enough forces the unstake of as many
    /// active nodes as that stake needs, highest ids first; it joins the unbond queue for that
    /// amount once the auction contract confirms. `funds` holds the offers for sale.
    pub fn unstake_endpoint(&mut self, funds: &FundStore, caller: &Vec<u8>, bl_nonce: u64, tot: u128) -> (r: Result<
        AuctionCall,
        &'static str,
    >)
        requires
            old(self).wf(),
            old(self).rewards_computable(tot),
            funds.wf(),
        ensures
            final(self).wf(),
            ({
                let id = id_of(old(self).users.view(), caller@);
                let eligible = filtered_items_sum(
                    funds.list(DISCR_ACTIVE_FOR_SALE as int),
                    for_sale_due_rel(id, bl_nonce, old(self).settings.n_blocks_before_force_unstake),
                );
                if id == 0 {
                    (r matches Err(e) && e@ == "only delegators can call unStake"@) && *final(self) == *old(self)
                } else if eligible == 0 {
                    (r matches Err(e) && e@ == "no stake eligible for unStake"@) && *final(self) == *old(self)
                } else {
                    let ids = unstake_pick(old(self).nodes.view(), eligible, old(self).nodes.view().num_nodes(), 0);
                    let stake = ids.len() * old(self).nodes.view().stake_per_node;
                    if stake > old(self).ledger.stake_of(0, UserStakeState::Active) {
                        (r matches Err(e) && e@ == "not enough active stake"@) && *final(self) == *old(self)
                    } else {
                        &&& r matches Ok(AuctionCall::UnStake { unbond_queue_entry: Some(e), node_ids: got, .. }) && e == (
                        UnbondQueueItem { user_id: id, amount: eligible as u128 }) && got@ == ids
                        &&& final(self).rewards@ == old(self).rewards_after_compute(tot)
                        &&& final(self).nodes.view() == with_states(old(self).nodes.view(), ids, NodeState::PendingDeactivation)
                        &&& final(self).ledger.rows_view() == unstake_rows(
                            old(self).ledger.rows_view(),
                            Some(UnbondQueueItem { user_id: id, amount: eligible as u128 }),
                            stake,
                        )
                    }
                }
            }),
    {
        let user_id = self.users.get_user_id(caller);
        if user_id == 0 {
            return Err("only delegators can call unStake");
        }
        let n_blocks = self.settings.n_blocks_before_force_unstake;
        let eligible = funds.eligible_for_unstake(user_id, n_blocks, bl_nonce);
        if eligible == 0 {
            return Err("no stake eligible for unStake");
        }
        let (node_ids, bls_keys) = self.nodes.find_nodes_for_unstake(eligible);
        let num_nodes = self.nodes.get_num_nodes();
        proof {
            crate::pool::node_config::lemma_unstake_pick_active(self.nodes.view(), eligible as int, self.nodes.view().num_nodes(), 0);
            assert(all_active_once(self.nodes.view(), node_ids@));
        }
        let entry = UnbondQueueItem { user_id, amount: eligible };
        self.perform_unstake_nodes(Some(entry), node_ids, bls_keys, tot)
    }
}

impl FundStore {
    /// Total stake of user `user_id`, over all lists.
    pub open spec fn user_stake_total(&self, user_id: usize) -> int {
        self.filtered_total(stake_of_user_rel(user_id), NUM_DISCRIMINANTS as int)
    }

    /// The delegator `caller` takes back `amount` of its free stake (what it asked to unstake
    /// first); yields what is to be sent back. It may not be left with some stake but less than
    /// `minimum_stake`. Nothing to do for no amount; on any error nothing changes.
    pub fn withdraw_inactive_stake(&mut self, users: &UserDataModule, caller: &Vec<u8>, amount: u128, minimum_stake: u128) -> (r: Result<
        u128,
        &'static str,
    >)
        requires
            old(self).wf(),
            users.wf(),
        ensures
            final(self).wf(),
            ({
                let id = id_of(users.view(), caller@);
                if amount == 0 {
                    r == Ok::<u128, &'static str>(0) && *final(self) == *old(self)
                } else if id == 0 {
                    (r matches Err(e) && e@ == "only delegators can withdraw inactive stake"@) && *final(self) == *old(self)
                } else {
                    exists|cand: FundStore, left: u128|
                        #[trigger] liquidated(*old(self), cand, id, amount, left) && {
                            let short = below_minimum(cand.user_stake_total(id), minimum_stake);
                            &&& left > 0 ==> (r matches Err(e) && e@ == "cannot withdraw more than inactive stake"@) && *final(self)
                                == *old(self)
                            &&& left == 0 && short ==> (r matches Err(e) && e@ == "cannot have less stake than minimum stake"@)
                                && *final(self) == *old(self)
                            &&& left == 0 && !short ==> r == Ok::<u128, &'static str>(amount) && *final(self) == cand
                        }
                }
            }),
    {
        if amount == 0 {
            return Ok(0);
        }
        let user_id = users.get_user_id(caller);
        if user_id == 0 {
            return Err("only delegators can withdraw inactive stake");
        }
        let mut work = self.duplicate();
        let ghost w0 = work;
        let mut left = amount;
        work.liquidate_free_stake(user_id, &mut left);
        proof {
            let (mid, a1, m1) = choose|mid: FundStore, a1: u128, m1: int|
                #[trigger] walked(w0, mid, DISCR_FREE as int, None, Some(amount), keep_if(free_of_rel(user_id, true)), Some(a1), m1)
                    && (a1 == 0 ==> work == mid && left == 0) && (a1 > 0 ==> exists|m2: int|
                    walked(mid, work, DISCR_FREE as int, None, Some(a1), keep_if(free_of_rel(user_id, false)), Some(left), m2));
            lemma_walked_same_lists(w0, *self, mid, DISCR_FREE as int, None, Some(amount), keep_if(free_of_rel(user_id, true)), Some(a1), m1);
            assert(liquidated(*self, work, user_id, amount, left));
        }
        if left > 0 {
            proof {
                reveal_strlit("cannot withdraw more than inactive stake");
                reveal_strlit("cannot have less stake than minimum stake");
                assert("cannot withdraw more than inactive stake"@[7] != "cannot have less stake than minimum stake"@[7]);
                assert(liquidated(*old(self), work, user_id, amount, left) && left > 0);
            }
            return Err("cannot withdraw more than inactive stake");
        }
        match work.validate_total_user_stake(user_id, minimum_stake) {
            Ok(()) => {},
            Err(e) => {
                proof {
                    reveal_strlit("cannot withdraw more than inactive stake");
                    reveal_strlit("cannot have less stake than minimum stake");
                    assert(liquidated(*old(self), work, user_id, amount, 0));
                    assert(below_minimum(work.user_stake_total(user_id), minimum_stake));
                    assert("cannot withdraw more than inactive stake"@[7] != "cannot have less stake than minimum stake"@[7]);
                }
                return Err(e);
            },
        }
        *self = work;
        Ok(amount)
    }
}

} // verus!
