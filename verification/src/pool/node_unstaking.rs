use vstd::prelude::*;
use crate::pool::bls_key::BLSKey;
use crate::pool::contract::{AuctionCall, StakeOffer, StakingContract};
use crate::pool::node_activation::{col, with_states, with_nonces, split_result, contains_id, nodes_stake_capped};
use crate::pool::node_config::{NodeView, node_id_of, lemma_node_id_bounded, in_ids};
use crate::pool::node_staking::capped;
use crate::pool::stake_ledger::{conv_rows, desc_rows, entry, min_of, UnbondQueueItem};
use crate::pool::states::{NodeState, UserStakeState};

verus! {

/// Whether the nodes `ids` are all active, registered, and listed once each.
pub open spec fn all_active_once(v: NodeView, ids: Seq<usize>) -> bool {
    &&& forall|j: int| 0 <= j < ids.len() ==> #[trigger] ids[j] <= v.num_nodes() && v.state(ids[j] as int) == NodeState::Active
    &&& forall|j: int, k: int| 0 <= j < k < ids.len() ==> ids[j] != ids[k]
}

/// Ledger rows once `stake` is sent to deactivation: the requesting user of `entry`, if any,
/// first, then the newest users.
pub open spec fn unstake_rows(rows: Seq<Seq<u128>>, entry_opt: Option<UnbondQueueItem>, stake: int) -> Seq<Seq<u128>> {
    let act = col(UserStakeState::Active);
    let pd = col(UserStakeState::PendingDeactivation);
    let first = match entry_opt {
        Some(e) => min_of(stake, entry(rows, e.user_id as int, act)),
        None => 0,
    };
    let r1 = match entry_opt {
        Some(e) => conv_rows(rows, e.user_id as int, act, pd, first),
        None => rows,
    };
    desc_rows(r1, act, pd, stake - first)
}

impl StakingContract {
    /// Sends the nodes `node_ids` (with keys `bls_keys`) to deactivation: the rewards are
    /// brought up to date with `tot`, the nodes become pending deactivation, and the stake of
    /// `bls_keys.len()` nodes moves from active to pending deactivation as `unstake_rows`
    /// says. Fails, changing nothing, when a node is not active or listed twice, or when there
    /// is less active stake than that.
    pub fn perform_unstake_nodes(
        &mut self,
        unbond_queue_entry: Option<UnbondQueueItem>,
        node_ids: Vec<usize>,
        bls_keys: Vec<BLSKey>,
        tot: u128,
    ) -> (r: Result<AuctionCall, &'static str>)
        requires
            old(self).wf(),
            old(self).rewards_computable(tot),
            forall|j: int| 0 <= j < node_ids@.len() ==> #[trigger] node_ids@[j] <= old(self).nodes.view().num_nodes(),
            unbond_queue_entry matches Some(e) ==> e.user_id >= 1,
        ensures
            final(self).wf(),
            ({
                let v = old(self).nodes.view();
                let stake = bls_keys@.len() * v.stake_per_node;
                if !all_active_once(v, node_ids@) {
                    (r matches Err(e) && e@ == "node not active"@) && *final(self) == *old(self)
                } else if stake > old(self).ledger.stake_of(0, UserStakeState::Active) {
                    (r matches Err(e) && e@ == "not enough active stake"@) && *final(self) == *old(self)
                } else {
                    &&& r matches Ok(AuctionCall::UnStake { unbond_queue_entry: got_entry, node_ids: got_ids, bls_keys: got_keys })
                        && got_entry == unbond_queue_entry && got_ids@ == node_ids@ && got_keys@ == bls_keys@
                    &&& final(self).rewards@ == old(self).rewards_after_compute(tot)
                    &&& final(self).nodes.view() == with_states(v, node_ids@, NodeState::PendingDeactivation)
                    &&& final(self).ledger.rows_view() == unstake_rows(old(self).ledger.rows_view(), unbond_queue_entry, stake)
                    &&& final(self).ledger.unbond_queue@ == old(self).ledger.unbond_queue@
                    &&& final(self).ledger.user_totals@ == old(self).ledger.user_totals@
                    &&& final(self).settings == old(self).settings
                    &&& final(self).users == old(self).users
                    &&& final(self).offers@ == old(self).offers@
                    &&& final(self).sent_rewards == old(self).sent_rewards
                    &&& final(self).pause == old(self).pause
                }
            }),
    {
        let ghost v = self.nodes.view();
        let mut j: usize = 0;
        while j < node_ids.len()
            invariant
                self.wf(),
                *self == *old(self),
                v == self.nodes.view(),
                j <= node_ids@.len(),
                forall|k: int| 0 <= k < node_ids@.len() ==> #[trigger] node_ids@[k] <= v.num_nodes(),
                forall|k: int| 0 <= k < j ==> v.state(#[trigger] node_ids@[k] as int) == NodeState::Active,
                forall|k: int, l: int| 0 <= k < l < j ==> node_ids@[k] != node_ids@[l],
            decreases node_ids@.len() - j,
        {
            let id = node_ids[j];
            if self.nodes.node_state(id) != NodeState::Active {
                return Err("node not active");
            }
            let mut k: usize = 0;
            while k < j
                invariant
                    self.wf(),
                    *self == *old(self),
                    v == self.nodes.view(),
                    id == node_ids@[j as int],
                    k <= j < node_ids@.len(),
                    forall|l: int| 0 <= l < k ==> node_ids@[l] != node_ids@[j as int],
                decreases j - k,
            {
                if node_ids[k] == id {
                    assert(!all_active_once(v, node_ids@)) by {
                        assert(node_ids@[k as int] == node_ids@[j as int]);
                    }
                    return Err("node not active");
                }
                k = k + 1;
            }
            j = j + 1;
        }
        let total = self.ledger.get_user_stake_of_type(0, UserStakeState::Active);
        let stake = match (bls_keys.len() as u128).checked_mul(self.nodes.stake_per_node) {
            Some(s) => s,
            None => {
                return Err("not enough active stake");
            },
        };
        if stake > total {
            return Err("not enough active stake");
        }
        self.compute_all_rewards(tot);
        self.set_nodes_state(&node_ids, NodeState::PendingDeactivation);
        let mut supply = stake;
        let ghost rv0 = self.ledger.rows_view();
        match unbond_queue_entry {
            Some(e) => {
                self.ledger.convert_user_stake(e.user_id, UserStakeState::Active, UserStakeState::PendingDeactivation, &mut supply);
            },
            None => {},
        }
        self.ledger.convert_user_stake_desc(UserStakeState::Active, UserStakeState::PendingDeactivation, &mut supply);
        Ok(AuctionCall::UnStake { unbond_queue_entry, node_ids, bls_keys })
    }

    /// Lets the owner deactivate the nodes with keys `bls_keys`, as `perform_unstake_nodes`
    /// does with no requesting user.
    pub fn unstake_nodes(&mut self, caller: &Vec<u8>, bls_keys: Vec<BLSKey>, tot: u128) -> (r: Result<AuctionCall, &'static str>)
        requires
            old(self).wf(),
            old(self).rewards_computable(tot),
        ensures
            final(self).wf(),
            caller@ != old(self).settings.owner@ ==> (r matches Err(e) && e@ == "only owner can deactivate nodes individually"@)
                && *final(self) == *old(self),
            caller@ == old(self).settings.owner@ ==> {
                let v = old(self).nodes.view();
                let ids = bls_keys@.map_values(|k: BLSKey| node_id_of(v.keys, k.view()) as usize);
                let stake = bls_keys@.len() * v.stake_per_node;
                if !all_active_once(v, ids) {
                    (r matches Err(e) && e@ == "node not active"@) && *final(self) == *old(self)
                } else if stake > old(self).ledger.stake_of(0, UserStakeState::Active) {
                    (r matches Err(e) && e@ == "not enough active stake"@) && *final(self) == *old(self)
                } else {
                    &&& r matches Ok(AuctionCall::UnStake { unbond_queue_entry: None, node_ids: got_ids, .. }) && got_ids@ == ids
                    &&& final(self).rewards@ == old(self).rewards_after_compute(tot)
                    &&& final(self).nodes.view() == with_states(v, ids, NodeState::PendingDeactivation)
                    &&& final(self).ledger.rows_view() == unstake_rows(old(self).ledger.rows_view(), None, stake)
                }
            },
    {
        if !self.settings.owner_called(caller) {
            return Err("only owner can deactivate nodes individually");
        }
        let ghost v = self.nodes.view();
        let mut node_ids: Vec<usize> = Vec::new();
        let mut k: usize = 0;
        while k < bls_keys.len()
            invariant
                self.wf(),
                v == self.nodes.view(),
                k <= bls_keys@.len(),
                node_ids@ == bls_keys@.subrange(0, k as int).map_values(|b: BLSKey| node_id_of(v.keys, b.view()) as usize),
                forall|j: int| 0 <= j < node_ids@.len() ==> #[trigger] node_ids@[j] <= v.num_nodes(),
            decreases bls_keys@.len() - k,
        {
            let id = self.nodes.get_node_id(&bls_keys[k]);
            proof {
                lemma_node_id_bounded(v.keys, bls_keys@[k as int].view());
            }
            node_ids.push(id);
            k = k + 1;
            assert(node_ids@ =~= bls_keys@.subrange(0, k as int).map_values(|b: BLSKey| node_id_of(v.keys, b.view()) as usize));
        }
        assert(bls_keys@.subrange(0, bls_keys@.len() as int) =~= bls_keys@);
        self.perform_unstake_nodes(None, node_ids, bls_keys, tot)
    }
}

impl StakingContract {
    /// How `auction_unstake_callback_ok` for `ids` at block `bl_nonce` leaves `before` as `after`.
    pub open spec fn unstake_ok_done(
        before: StakingContract,
        entry_opt: Option<UnbondQueueItem>,
        ids: Seq<usize>,
        bl_nonce: u64,
        after: StakingContract,
    ) -> bool {
        if ids.len() == 0 {
            after == before
        } else {
            let stake = capped(ids.len() * before.nodes.view().stake_per_node);
            &&& after.nodes.view() == with_nonces(
                with_states(before.nodes.view(), ids, NodeState::UnBondPeriod),
                ids,
                bl_nonce,
            )
            &&& after.ledger.rows_view() == desc_rows(
                before.ledger.rows_view(),
                col(UserStakeState::PendingDeactivation),
                col(UserStakeState::UnBondPeriod),
                stake,
            )
            &&& after.ledger.user_totals@ == before.ledger.user_totals@
            &&& match entry_opt {
                Some(e) => {
                    &&& after.ledger.unbond_queue@ == before.ledger.unbond_queue@.push(e)
                    &&& after.offers@ == before.offers@.update(e.user_id as int, StakeOffer { amount: 0, bl_nonce: 0 })
                },
                None => after.ledger.unbond_queue@ == before.ledger.unbond_queue@ && after.offers@ == before.offers@,
            }
            &&& after.settings == before.settings
            &&& after.users == before.users
            &&& after.rewards@ == before.rewards@
            &&& after.sent_rewards == before.sent_rewards
            &&& after.pause == before.pause
        }
    }

    /// How `auction_unstake_callback_fail` for `ids` leaves `before` as `after`.
    pub open spec fn unstake_fail_done(before: StakingContract, ids: Seq<usize>, after: StakingContract) -> bool {
        if ids.len() == 0 {
            after == before
        } else {
            let stake = capped(ids.len() * before.nodes.view().stake_per_node);
            &&& after.nodes.view() == with_states(before.nodes.view(), ids, NodeState::Active)
            &&& after.ledger.rows_view() == desc_rows(
                before.ledger.rows_view(),
                col(UserStakeState::PendingDeactivation),
                col(UserStakeState::Active),
                stake,
            )
            &&& after.ledger.unbond_queue@ == before.ledger.unbond_queue@
            &&& after.ledger.user_totals@ == before.ledger.user_totals@
            &&& after.same_but_nodes_ledger(&before)
        }
    }

    /// The auction contract unstaked the nodes `node_ids` at block `bl_nonce`: they enter the
    /// unbond period, from that block, and so does their stake, newest users first. A user
    /// who asked for the unstake loses its stake offer and joins the unbond queue.
    pub fn auction_unstake_callback_ok(&mut self, unbond_queue_entry: Option<UnbondQueueItem>, node_ids: &Vec<usize>, bl_nonce: u64)
        requires
            old(self).wf(),
            forall|j: int| 0 <= j < node_ids@.len() ==> #[trigger] node_ids@[j] <= old(self).nodes.view().num_nodes(),
            unbond_queue_entry matches Some(e) ==> 1 <= e.user_id <= old(self).ledger.num_users(),
        ensures
            final(self).wf(),
            Self::unstake_ok_done(*old(self), unbond_queue_entry, node_ids@, bl_nonce, *final(self)),
    {
        if node_ids.len() == 0 {
            return;
        }
        let mut stake = nodes_stake_capped(node_ids.len(), self.nodes.stake_per_node);
        self.ledger.convert_user_stake_desc(UserStakeState::PendingDeactivation, UserStakeState::UnBondPeriod, &mut stake);
        match unbond_queue_entry {
            Some(e) => {
                self.offers.set(e.user_id, StakeOffer { amount: 0, bl_nonce: 0 });
                self.ledger.unbond_queue.push(e);
            },
            None => {},
        }
        self.set_nodes_state(node_ids, NodeState::UnBondPeriod);
        self.set_nodes_nonce(node_ids, bl_nonce);
    }

    /// The auction contract did not unstake the nodes `node_ids`: they and their stake go back
    /// to active, newest users first.
    pub fn auction_unstake_callback_fail(&mut self, node_ids: &Vec<usize>)
        requires
            old(self).wf(),
            forall|j: int| 0 <= j < node_ids@.len() ==> #[trigger] node_ids@[j] <= old(self).nodes.view().num_nodes(),
        ensures
            final(self).wf(),
            Self::unstake_fail_done(*old(self), node_ids@, *final(self)),
    {
        if node_ids.len() == 0 {
            return;
        }
        let mut stake = nodes_stake_capped(node_ids.len(), self.nodes.stake_per_node);
        self.ledger.convert_user_stake_desc(UserStakeState::PendingDeactivation, UserStakeState::Active, &mut stake);
        self.set_nodes_state(node_ids, NodeState::Active);
    }

    /// Reply of the auction contract to an unstake call for `node_ids`: the nodes that
    /// succeeded are finished as `auction_unstake_callback_ok` does, the others as
    /// `auction_unstake_callback_fail` does; an error message fails all of them.
    pub fn auction_unstake_callback(
        &mut self,
        unbond_queue_entry: Option<UnbondQueueItem>,
        node_ids: Vec<usize>,
        reply: Result<Vec<Vec<u8>>, Vec<u8>>,
        bl_nonce: u64,
    ) -> (r: Result<(), &'static str>)
        requires
            old(self).wf(),
            forall|j: int| 0 <= j < node_ids@.len() ==> #[trigger] node_ids@[j] <= old(self).nodes.view().num_nodes(),
            unbond_queue_entry matches Some(e) ==> 1 <= e.user_id <= old(self).ledger.num_users(),
        ensures
            final(self).wf(),
            reply is Err ==> r is Ok && Self::unstake_fail_done(*old(self), node_ids@, *final(self)),
            reply matches Ok(args) ==> match split_result(old(self).nodes.view().keys, node_ids@, args@.map_values(|b: Vec<u8>| b@)) {
                Err(m) => (r matches Err(e) && e@ == m) && *final(self) == *old(self),
                Ok(st) => r is Ok && exists|mid: StakingContract|
                    #[trigger] Self::unstake_ok_done(*old(self), unbond_queue_entry, st.0, bl_nonce, mid) && Self::unstake_fail_done(
                        mid,
                        st.1,
                        *final(self),
                    ),
            },
    {
        match reply {
            Ok(args) => {
                let (ok_ids, failed_ids) = match self.nodes.split_node_ids_by_err(node_ids, &args) {
                    Ok(split) => split,
                    Err(e) => {
                        return Err(e);
                    },
                };
                proof {
                    assert forall|j: int| 0 <= j < ok_ids@.len() implies #[trigger] ok_ids@[j] <= self.nodes.view().num_nodes() by {
                        let q = choose|q: int| 0 <= q < node_ids@.len() && #[trigger] node_ids@[q] as int == ok_ids@[j] as int;
                    }
                }
                self.auction_unstake_callback_ok(unbond_queue_entry, &ok_ids, bl_nonce);
                let ghost mid = *self;
                proof {
                    assert forall|j: int| 0 <= j < failed_ids@.len() implies #[trigger] failed_ids@[j] <= self.nodes.view().num_nodes() by {
                        let q = choose|q: int| 0 <= q < node_ids@.len() && #[trigger] node_ids@[q] as int == failed_ids@[j] as int;
                    }
                }
                self.auction_unstake_callback_fail(&failed_ids);
                proof {
                    let st = split_result(old(self).nodes.view().keys, node_ids@, args@.map_values(|b: Vec<u8>| b@))->Ok_0;
                    assert(st.0 == ok_ids@ && st.1 == failed_ids@);
                    assert(Self::unstake_ok_done(*old(self), unbond_queue_entry, st.0, bl_nonce, mid));
                    assert(Self::unstake_fail_done(mid, st.1, *self));
                }
                Ok(())
            },
            Err(_) => {
                self.auction_unstake_callback_fail(&node_ids);
                Ok(())
            },
        }
    }
}

/// The nodes from id `i` down whose activation failed.
pub open spec fn failed_nodes(v: NodeView, i: int) -> Seq<usize>
    decreases i,
{
    if i <= 0 {
        Seq::empty()
    } else if v.state(i) == NodeState::ActivationFailed {
        seq![i as usize] + failed_nodes(v, i - 1)
    } else {
        failed_nodes(v, i - 1)
    }
}

impl StakingContract {
    /// Lets the owner claim back from the auction contract the stake of every node whose
    /// activation failed, highest ids first; nothing to do when there is none. Changes nothing.
    pub fn claim_failed_stake(&self, caller: &Vec<u8>) -> (r: Result<Option<AuctionCall>, &'static str>)
        requires
            self.wf(),
        ensures
            caller@ != self.settings.owner@ ==> (r matches Err(e) && e@ == "only owner can activate nodes individually"@),
            caller@ == self.settings.owner@ ==> {
                let ids = failed_nodes(self.nodes.view(), self.nodes.view().num_nodes());
                &&& ids.len() == 0 ==> (r matches Ok(None))
                &&& ids.len() != 0 ==> (r matches Ok(Some(AuctionCall::Claim { node_ids: got })) && got@ == ids)
            },
    {
        if !self.settings.owner_called(caller) {
            return Err("only owner can activate nodes individually");
        }
        let ghost v = self.nodes.view();
        let mut node_id = self.nodes.get_num_nodes();
        let mut node_ids: Vec<usize> = Vec::new();
        while node_id >= 1
            invariant
                self.wf(),
                v == self.nodes.view(),
                node_id <= v.num_nodes(),
                node_ids@ + failed_nodes(v, node_id as int) == failed_nodes(v, v.num_nodes()),
            decreases node_id,
        {
            let ghost prev = node_ids@;
            let ghost rest = failed_nodes(v, node_id - 1);
            if self.nodes.node_state(node_id) == NodeState::ActivationFailed {
                node_ids.push(node_id);
                assert(node_ids@ + rest =~= prev + (seq![node_id] + rest));
            }
            node_id = node_id - 1;
        }
        assert(node_ids@ + Seq::<usize>::empty() =~= node_ids@);
        if node_ids.len() == 0 {
            return Ok(None);
        }
        Ok(Some(AuctionCall::Claim { node_ids }))
    }

    /// Reply of the auction contract to a claim for `node_ids`: on success the nodes become
    /// inactive and their failed stake inactive again, newest users first; on an error
    /// nothing changes.
    pub fn auction_claim_callback(&mut self, node_ids: &Vec<usize>, reply: Result<(), Vec<u8>>)
        requires
            old(self).wf(),
            forall|j: int| 0 <= j < node_ids@.len() ==> #[trigger] node_ids@[j] <= old(self).nodes.view().num_nodes(),
        ensures
            final(self).wf(),
            reply is Err ==> *final(self) == *old(self),
            reply is Ok ==> {
                &&& final(self).nodes.view() == with_states(old(self).nodes.view(), node_ids@, NodeState::Inactive)
                &&& final(self).ledger.rows_view() == desc_rows(
                    old(self).ledger.rows_view(),
                    col(UserStakeState::ActivationFailed),
                    col(UserStakeState::Inactive),
                    capped(node_ids@.len() * old(self).nodes.view().stake_per_node),
                )
                &&& final(self).ledger.unbond_queue@ == old(self).ledger.unbond_queue@
                &&& final(self).ledger.user_totals@ == old(self).ledger.user_totals@
                &&& final(self).same_but_nodes_ledger(&*old(self))
            },
    {
        match reply {
            Ok(()) => {
                self.set_nodes_state(node_ids, NodeState::Inactive);
                let mut failed_stake = nodes_stake_capped(node_ids.len(), self.nodes.stake_per_node);
                self.ledger.convert_user_stake_desc(UserStakeState::ActivationFailed, UserStakeState::Inactive, &mut failed_stake);
            },
            Err(_) => {},
        }
    }
}

} // verus!
