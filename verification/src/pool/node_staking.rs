use vstd::prelude::*;
use crate::pool::bls_key::BLSKey;
use crate::pool::contract::{AuctionCall, StakingContract};
use crate::pool::node_activation::{col, with_states, split_result};
use crate::pool::node_config::{NodeView, node_id_of, lemma_node_id_bounded, in_ids};
use crate::pool::stake_ledger::asc_rows;
use crate::pool::states::{NodeState, UserStakeState};

verus! {

/// The nodes of the first `k` keys, checked in turn: each must be inactive and not listed already.
pub open spec fn stake_ids(v: NodeView, keys: Seq<Seq<u8>>, k: nat) -> Result<Seq<usize>, Seq<char>>
    decreases k,
{
    if k == 0 {
        Ok(Seq::empty())
    } else {
        match stake_ids(v, keys, (k - 1) as nat) {
            Err(e) => Err(e),
            Ok(ids) => {
                let id = node_id_of(v.keys, keys[k - 1]);
                if v.state(id) != NodeState::Inactive || in_ids(ids, id) {
                    Err("node not inactive"@)
                } else {
                    Ok(ids.push(id as usize))
                }
            },
        }
    }
}

/// Once the check fails, it fails with the same error whatever follows.
pub proof fn lemma_stake_ids_err(v: NodeView, keys: Seq<Seq<u8>>, j: nat, k: nat)
    requires
        j <= k,
        stake_ids(v, keys, j) is Err,
    ensures
        stake_ids(v, keys, k) == stake_ids(v, keys, j),
    decreases k - j,
{
    if j < k {
        lemma_stake_ids_err(v, keys, j, (k - 1) as nat);
    }
}

/// Keys and signatures of the nodes `ids`, alternating: the key is `keys[j]`, the signature
/// that of node `ids[j]`.
pub open spec fn keys_and_signatures(v: NodeView, keys: Seq<Seq<u8>>, ids: Seq<usize>) -> Seq<Seq<u8>> {
    Seq::new((2 * ids.len()) as nat, |i: int| if i % 2 == 0 { keys[i / 2] } else { v.sig(ids[i / 2] as int) })
}

/// The inactive nodes from id `i` up, taken while the inactive stake left, `avail`, covers
/// one more node.
pub open spec fn stake_pick(v: NodeView, avail: int, i: int) -> Seq<usize>
    decreases v.num_nodes() + 1 - i,
{
    if i < 1 || i > v.num_nodes() || avail < v.stake_per_node {
        Seq::empty()
    } else if v.state(i) == NodeState::Inactive {
        seq![i as usize] + stake_pick(v, avail - v.stake_per_node, i + 1)
    } else {
        stake_pick(v, avail, i + 1)
    }
}

/// The nodes picked can all be paid from the stake available.
pub proof fn lemma_stake_pick_fits(v: NodeView, avail: int, i: int)
    requires
        avail >= 0,
    ensures
        stake_pick(v, avail, i).len() * v.stake_per_node <= avail,
    decreases v.num_nodes() + 1 - i,
{
    if i < 1 || i > v.num_nodes() || avail < v.stake_per_node {
    } else if v.state(i) == NodeState::Inactive {
        lemma_stake_pick_fits(v, avail - v.stake_per_node, i + 1);
        let l = stake_pick(v, avail - v.stake_per_node, i + 1).len();
        let spn = v.stake_per_node as int;
        assert((l + 1) * spn == l * spn + spn) by (nonlinear_arith);
    } else {
        lemma_stake_pick_fits(v, avail, i + 1);
    }
}

/// From node `i` up, the nodes picked are inactive, in increasing order, and paid for by
/// `avail`; an inactive node that is not picked comes after every picked node, and by then the
/// stake left cannot pay for one more node.
pub proof fn lemma_stake_pick_shape(v: NodeView, avail: int, i: int)
    requires
        1 <= i,
        avail >= 0,
        v.num_nodes() <= usize::MAX,
    ensures
        forall|k: int|
            0 <= k < stake_pick(v, avail, i).len() ==> i <= #[trigger] stake_pick(v, avail, i)[k] <= v.num_nodes()
                && v.state(stake_pick(v, avail, i)[k] as int) == NodeState::Inactive,
        forall|a: int, b: int|
            0 <= a < b < stake_pick(v, avail, i).len() ==> #[trigger] stake_pick(v, avail, i)[a]
                < #[trigger] stake_pick(v, avail, i)[b],
        forall|j: int|
            i <= j <= v.num_nodes() && #[trigger] v.state(j) == NodeState::Inactive && !stake_pick(v, avail, i).contains(
                j as usize,
            ) ==> (forall|k: int| 0 <= k < stake_pick(v, avail, i).len() ==> stake_pick(v, avail, i)[k] < j) && avail
                < (stake_pick(v, avail, i).len() + 1) * v.stake_per_node,
    decreases v.num_nodes() + 1 - i,
{
    let p = stake_pick(v, avail, i);
    let spn = v.stake_per_node as int;
    if i > v.num_nodes() || avail < v.stake_per_node {
        assert(p.len() == 0);
        assert((p.len() + 1) * spn == spn) by (nonlinear_arith)
            requires
                p.len() == 0,
        ;
    } else if v.state(i) == NodeState::Inactive {
        let q = stake_pick(v, avail - spn, i + 1);
        lemma_stake_pick_shape(v, avail - spn, i + 1);
        assert(p == seq![i as usize] + q);
        assert forall|k: int| 0 <= k < p.len() implies i <= #[trigger] p[k] <= v.num_nodes() && v.state(p[k] as int)
            == NodeState::Inactive by {
            if k > 0 {
                assert(p[k] == q[k - 1]);
            }
        }
        assert forall|a: int, b: int| 0 <= a < b < p.len() implies #[trigger] p[a] < #[trigger] p[b] by {
            assert(p[b] == q[b - 1]);
            if a > 0 {
                assert(p[a] == q[a - 1]);
            } else {
                assert(i + 1 <= q[b - 1]);
            }
        }
        assert forall|j: int|
            i <= j <= v.num_nodes() && #[trigger] v.state(j) == NodeState::Inactive && !p.contains(j as usize) implies (
            forall|k: int| 0 <= k < p.len() ==> p[k] < j) && avail < (p.len() + 1) * spn by {
            assert(p[0] == i as usize);
            if j == i {
                assert(p.contains(j as usize));
            } else {
                assert forall|k: int| 0 <= k < q.len() implies q.contains(#[trigger] q[k]) by {}
                if q.contains(j as usize) {
                    let k = choose|k: int| 0 <= k < q.len() && q[k] == j as usize;
                    assert(p[k + 1] == j as usize);
                }
                assert forall|k: int| 0 <= k < p.len() implies p[k] < j by {
                    if k > 0 {
                        assert(p[k] == q[k - 1]);
                    }
                }
                assert((q.len() + 1) * spn + spn == (p.len() + 1) * spn) by (nonlinear_arith)
                    requires
                        p.len() == q.len() + 1,
                ;
            }
        }
    } else {
        lemma_stake_pick_shape(v, avail, i + 1);
    }
}

/// Which nodes `perform_stake_all_available` activates (see its contract): inactive nodes
/// only, each once, lowest ids first, no more than the inactive stake `avail` pays for, and
/// as many as it pays for. Every inactive node left out has a higher id than all those
/// picked, and then the stake cannot pay for one more; so when some node is inactive and
/// `avail` covers one node, at least one node is picked.
pub proof fn law_stake_pick_lowest_inactive(v: NodeView, avail: int)
    requires
        avail >= 0,
        v.num_nodes() <= usize::MAX,
    ensures
        forall|k: int|
            0 <= k < stake_pick(v, avail, 1).len() ==> 1 <= #[trigger] stake_pick(v, avail, 1)[k] <= v.num_nodes()
                && v.state(stake_pick(v, avail, 1)[k] as int) == NodeState::Inactive,
        forall|a: int, b: int|
            0 <= a < b < stake_pick(v, avail, 1).len() ==> #[trigger] stake_pick(v, avail, 1)[a]
                < #[trigger] stake_pick(v, avail, 1)[b],
        stake_pick(v, avail, 1).len() * v.stake_per_node <= avail,
        forall|j: int|
            1 <= j <= v.num_nodes() && #[trigger] v.state(j) == NodeState::Inactive && !stake_pick(v, avail, 1).contains(
                j as usize,
            ) ==> (forall|k: int| 0 <= k < stake_pick(v, avail, 1).len() ==> stake_pick(v, avail, 1)[k] < j) && avail
                < (stake_pick(v, avail, 1).len() + 1) * v.stake_per_node,
        (exists|j: int| 1 <= j <= v.num_nodes() && #[trigger] v.state(j) == NodeState::Inactive) && avail
            >= v.stake_per_node ==> stake_pick(v, avail, 1).len() > 0,
{
    lemma_stake_pick_shape(v, avail, 1);
    lemma_stake_pick_fits(v, avail, 1);
    let p = stake_pick(v, avail, 1);
    if (exists|j: int| 1 <= j <= v.num_nodes() && #[trigger] v.state(j) == NodeState::Inactive) && avail >= v.stake_per_node {
        let j = choose|j: int| 1 <= j <= v.num_nodes() && #[trigger] v.state(j) == NodeState::Inactive;
        if p.len() == 0 {
            assert(!p.contains(j as usize));
            assert((p.len() + 1) * v.stake_per_node == v.stake_per_node) by (nonlinear_arith)
                requires
                    p.len() == 0,
            ;
        }
    }
}

impl StakingContract {
    /// Sends the stake of the nodes `node_ids` to the auction contract: it moves from inactive
    /// to pending activation, oldest users first. Fails, changing nothing, when there is less
    /// inactive stake than that.
    pub fn perform_stake_nodes(&mut self, node_ids: Vec<usize>, bls_keys_signatures: Vec<Vec<u8>>) -> (r: Result<AuctionCall, &'static str>)
        requires
            old(self).wf(),
        ensures
            final(self).wf(),
            ({
                let stake = node_ids@.len() * old(self).nodes.view().stake_per_node;
                if stake > old(self).ledger.stake_of(0, UserStakeState::Inactive) {
                    (r matches Err(e) && e@ == "not enough inactive stake"@) && *final(self) == *old(self)
                } else {
                    &&& r matches Ok(AuctionCall::Stake { node_ids: ids, num_nodes, bls_keys_signatures: ks, amount })
                        && ids@ == node_ids@ && num_nodes == node_ids@.len() && ks@ == bls_keys_signatures@ && amount == stake
                    &&& final(self).ledger.rows_view() == asc_rows(
                        old(self).ledger.rows_view(),
                        col(UserStakeState::Inactive),
                        col(UserStakeState::PendingActivation),
                        stake,
                    )
                    &&& final(self).ledger.unbond_queue@ == old(self).ledger.unbond_queue@
                    &&& final(self).ledger.user_totals@ == old(self).ledger.user_totals@
                    &&& final(self).same_but_ledger(&*old(self))
                }
            }),
    {
        let total = self.ledger.get_user_stake_of_type(0, UserStakeState::Inactive);
        let stake = match (node_ids.len() as u128).checked_mul(self.nodes.stake_per_node) {
            Some(s) => s,
            None => {
                return Err("not enough inactive stake");
            },
        };
        if stake > total {
            return Err("not enough inactive stake");
        }
        let mut supply = stake;
        self.ledger.convert_user_stake_asc(UserStakeState::Inactive, UserStakeState::PendingActivation, &mut supply);
        let num_nodes = node_ids.len();
        Ok(AuctionCall::Stake { node_ids, num_nodes, bls_keys_signatures, amount: stake })
    }

    /// Lets the owner activate the nodes with keys `bls_keys`: they must all be inactive; they
    /// become pending activation and their stake goes to the auction contract as
    /// `perform_stake_nodes` does. On any error nothing changes.
    pub fn stake_nodes(&mut self, caller: &Vec<u8>, bls_keys: Vec<BLSKey>) -> (r: Result<AuctionCall, &'static str>)
        requires
            old(self).wf(),
        ensures
            final(self).wf(),
            ({
                let keys = bls_keys@.map_values(|k: BLSKey| k.view());
                let v = old(self).nodes.view();
                if caller@ != old(self).settings.owner@ {
                    (r matches Err(e) && e@ == "only owner can activate nodes individually"@) && *final(self) == *old(self)
                } else {
                    match stake_ids(v, keys, keys.len()) {
                        Err(m) => (r matches Err(e) && e@ == m) && *final(self) == *old(self),
                        Ok(ids) => {
                            let stake = ids.len() * v.stake_per_node;
                            if stake > old(self).ledger.stake_of(0, UserStakeState::Inactive) {
                                (r matches Err(e) && e@ == "not enough inactive stake"@) && *final(self) == *old(self)
                            } else {
                                &&& r matches Ok(AuctionCall::Stake { node_ids: got, num_nodes, bls_keys_signatures: ks, amount }) && got@
                                    == ids && num_nodes == ids.len() && ks@.map_values(|b: Vec<u8>| b@) == keys_and_signatures(
                                    v,
                                    keys,
                                    ids,
                                ) && amount == stake
                                &&& final(self).nodes.view() == with_states(v, ids, NodeState::PendingActivation)
                                &&& final(self).ledger.rows_view() == asc_rows(
                                    old(self).ledger.rows_view(),
                                    col(UserStakeState::Inactive),
                                    col(UserStakeState::PendingActivation),
                                    stake,
                                )
                                &&& final(self).ledger.unbond_queue@ == old(self).ledger.unbond_queue@
                                &&& final(self).ledger.user_totals@ == old(self).ledger.user_totals@
                                &&& final(self).same_but_nodes_ledger(&*old(self))
                            }
                        },
                    }
                }
            }),
    {
        let ghost keys = bls_keys@.map_values(|k: BLSKey| k.view());
        let ghost v = self.nodes.view();
        if !self.settings.owner_called(caller) {
            return Err("only owner can activate nodes individually");
        }
        let mut node_ids: Vec<usize> = Vec::new();
        let mut bls_keys_signatures: Vec<Vec<u8>> = Vec::new();
        let mut k: usize = 0;
        while k < bls_keys.len()
            invariant
                self.wf(),
                v == self.nodes.view(),
                *self == *old(self),
                caller@ == self.settings.owner@,
                keys == bls_keys@.map_values(|k: BLSKey| k.view()),
                k <= bls_keys@.len(),
                stake_ids(v, keys, k as nat) == Ok::<Seq<usize>, Seq<char>>(node_ids@),
                node_ids@.len() == k,
                forall|j: int| 0 <= j < node_ids@.len() ==> #[trigger] node_ids@[j] <= v.num_nodes(),
                bls_keys_signatures@.len() == 2 * k,
                forall|i: int|
                    0 <= i < bls_keys_signatures@.len() ==> (#[trigger] bls_keys_signatures@[i])@ == keys_and_signatures(
                        v,
                        keys,
                        node_ids@,
                    )[i],
            decreases bls_keys@.len() - k,
        {
            let node_id = self.nodes.get_node_id(&bls_keys[k]);
            proof {
                lemma_node_id_bounded(v.keys, keys[k as int]);
            }
            let ghost prev = node_ids@;
            if self.nodes.node_state(node_id) != NodeState::Inactive || crate::pool::node_activation::contains_id(&node_ids, node_id) {
                proof {
                    lemma_stake_ids_err(v, keys, (k + 1) as nat, keys.len());
                }
                return Err("node not inactive");
            }
            node_ids.push(node_id);
            bls_keys_signatures.push(bls_keys[k].to_vec());
            bls_keys_signatures.push(self.nodes.node_signature(node_id));
            proof {
                assert forall|i: int| 0 <= i < bls_keys_signatures@.len() implies (#[trigger] bls_keys_signatures@[i])@
                    == keys_and_signatures(v, keys, node_ids@)[i] by {
                    if i < 2 * k {
                        assert(node_ids@[i / 2] == prev[i / 2]);
                    }
                }
            }
            k = k + 1;
        }
        let total = self.ledger.get_user_stake_of_type(0, UserStakeState::Inactive);
        match (node_ids.len() as u128).checked_mul(self.nodes.stake_per_node) {
            Some(s) => {
                if s > total {
                    return Err("not enough inactive stake");
                }
            },
            None => {
                return Err("not enough inactive stake");
            },
        }
        self.set_nodes_state(&node_ids, NodeState::PendingActivation);
        let r = self.perform_stake_nodes(node_ids, bls_keys_signatures);
        let ghost rg = r;
        proof {
            match rg {
                Ok(AuctionCall::Stake { node_ids: got, bls_keys_signatures: ks, .. }) => {
                    assert(ks@.map_values(|b: Vec<u8>| b@) =~= keys_and_signatures(v, keys, got@));
                },
                _ => {},
            }
        }
        r
    }
}

/// Keys and signatures of the registered nodes `ids`, alternating.
pub open spec fn registered_keys_and_signatures(v: NodeView, ids: Seq<usize>) -> Seq<Seq<u8>> {
    Seq::new((2 * ids.len()) as nat, |i: int| if i % 2 == 0 { v.keys[ids[i / 2] - 1] } else { v.sig(ids[i / 2] as int) })
}

impl StakingContract {
    /// Activates as many inactive nodes as the inactive stake pays for, lowest ids first: they
    /// become pending activation and their stake goes to the auction contract. Nothing to do
    /// when no node can be paid for.
    pub fn perform_stake_all_available(&mut self) -> (r: Result<Option<AuctionCall>, &'static str>)
        requires
            old(self).wf(),
        ensures
            final(self).wf(),
            ({
                let v = old(self).nodes.view();
                let ids = stake_pick(v, old(self).ledger.stake_of(0, UserStakeState::Inactive), 1);
                let stake = ids.len() * v.stake_per_node;
                if ids.len() == 0 {
                    r matches Ok(None) && *final(self) == *old(self)
                } else {
                    &&& r matches Ok(Some(AuctionCall::Stake { node_ids: got, num_nodes, bls_keys_signatures: ks, amount }))
                        && got@ == ids && num_nodes == ids.len() && ks@.map_values(|b: Vec<u8>| b@)
                        == registered_keys_and_signatures(v, ids) && amount == stake
                    &&& final(self).nodes.view() == with_states(v, ids, NodeState::PendingActivation)
                    &&& final(self).ledger.rows_view() == asc_rows(
                        old(self).ledger.rows_view(),
                        col(UserStakeState::Inactive),
                        col(UserStakeState::PendingActivation),
                        stake,
                    )
                    &&& final(self).ledger.unbond_queue@ == old(self).ledger.unbond_queue@
                    &&& final(self).ledger.user_totals@ == old(self).ledger.user_totals@
                    &&& final(self).same_but_nodes_ledger(&*old(self))
                }
            }),
    {
        let ghost v = self.nodes.view();
        let ghost avail0 = self.ledger.stake_of(0, UserStakeState::Inactive);
        let mut inactive_stake = self.ledger.get_user_stake_of_type(0, UserStakeState::Inactive);
        let stake_per_node = self.nodes.stake_per_node;
        let num_nodes = self.nodes.get_num_nodes();
        let num_slots = self.nodes.states.len();
        assert(num_slots == num_nodes + 1);
        let mut node_id: usize = 1;
        let mut node_ids: Vec<usize> = Vec::new();
        let mut bls_keys_signatures: Vec<Vec<u8>> = Vec::new();
        while node_id <= num_nodes && inactive_stake >= stake_per_node
            invariant
                self.wf(),
                *self == *old(self),
                v == self.nodes.view(),
                num_nodes == v.num_nodes(),
                stake_per_node == v.stake_per_node,
                1 <= node_id <= num_nodes + 1,
                num_nodes < usize::MAX,
                node_ids@ + stake_pick(v, inactive_stake as int, node_id as int) == stake_pick(v, avail0, 1),
                forall|j: int| 0 <= j < node_ids@.len() ==> 1 <= #[trigger] node_ids@[j] < node_id,
                bls_keys_signatures@.len() == 2 * node_ids@.len(),
                forall|i: int|
                    0 <= i < bls_keys_signatures@.len() ==> (#[trigger] bls_keys_signatures@[i])@
                        == registered_keys_and_signatures(v, node_ids@)[i],
            decreases num_nodes + 1 - node_id,
        {
            let ghost prev = node_ids@;
            let ghost rest_before = stake_pick(v, inactive_stake as int, node_id as int);
            if self.nodes.node_state(node_id) == NodeState::Inactive {
                inactive_stake = inactive_stake - stake_per_node;
                node_ids.push(node_id);
                bls_keys_signatures.push(self.nodes.node_bls(node_id).to_vec());
                bls_keys_signatures.push(self.nodes.node_signature(node_id));
                proof {
                    let rest = stake_pick(v, inactive_stake as int, node_id + 1);
                    assert(rest_before == seq![node_id] + rest);
                    assert(node_ids@ + rest =~= prev + (seq![node_id] + rest));
                    assert forall|i: int| 0 <= i < bls_keys_signatures@.len() implies (#[trigger] bls_keys_signatures@[i])@
                        == registered_keys_and_signatures(v, node_ids@)[i] by {
                        if i < 2 * prev.len() {
                            assert(node_ids@[i / 2] == prev[i / 2]);
                        }
                    }
                }
            }
            node_id = node_id + 1;
        }
        proof {
            assert(stake_pick(v, inactive_stake as int, node_id as int) =~= Seq::<usize>::empty());
            assert(node_ids@ + Seq::<usize>::empty() =~= node_ids@);
            lemma_stake_pick_fits(v, avail0, 1);
        }
        if node_ids.len() == 0 {
            return Ok(None);
        }
        let ghost ids = node_ids@;
        self.set_nodes_state(&node_ids, NodeState::PendingActivation);
        let r = self.perform_stake_nodes(node_ids, bls_keys_signatures);
        let ghost rg = r;
        proof {
            match rg {
                Ok(AuctionCall::Stake { node_ids: got, bls_keys_signatures: ks, .. }) => {
                    assert(ks@.map_values(|b: Vec<u8>| b@) =~= registered_keys_and_signatures(v, got@));
                },
                _ => {},
            }
        }
        match r {
            Ok(call) => Ok(Some(call)),
            Err(e) => Err(e),
        }
    }

    /// Activates as many nodes as the inactive stake pays for, as
    /// `perform_stake_all_available` does; anyone may ask while automatic activation is on,
    /// the owner always.
    pub fn stake_all_available(&mut self, caller: &Vec<u8>) -> (r: Result<Option<AuctionCall>, &'static str>)
        requires
            old(self).wf(),
        ensures
            final(self).wf(),
            !old(self).settings.auto_activation_enabled && caller@ != old(self).settings.owner@ ==> (r matches Err(e) && e@
                == "auto activation disabled"@) && *final(self) == *old(self),
            old(self).settings.auto_activation_enabled || caller@ == old(self).settings.owner@ ==> {
                let v = old(self).nodes.view();
                let ids = stake_pick(v, old(self).ledger.stake_of(0, UserStakeState::Inactive), 1);
                &&& ids.len() == 0 ==> (r matches Ok(None) && *final(self) == *old(self))
                &&& ids.len() != 0 ==> (r matches Ok(Some(AuctionCall::Stake { node_ids: got, .. })) && got@ == ids
                    && final(self).nodes.view() == with_states(v, ids, NodeState::PendingActivation)
                    && final(self).ledger.rows_view() == asc_rows(
                    old(self).ledger.rows_view(),
                    col(UserStakeState::Inactive),
                    col(UserStakeState::PendingActivation),
                    ids.len() * v.stake_per_node,
                ) && final(self).same_but_nodes_ledger(&*old(self)))
            },
    {
        if !self.settings.auto_activation_enabled && !self.settings.owner_called(caller) {
            return Err("auto activation disabled");
        }
        self.perform_stake_all_available()
    }
}

/// `stake` as a `u128`, stopping at its largest value.
pub open spec fn capped(stake: int) -> int {
    if stake > u128::MAX {
        u128::MAX as int
    } else {
        stake
    }
}

impl StakingContract {
    /// How `auction_stake_callback_ok` for `ids` leaves `before` as `after`, with the total
    /// cumulated rewards `tot`.
    pub open spec fn stake_ok_done(before: StakingContract, ids: Seq<usize>, tot: u128, after: StakingContract) -> bool {
        if ids.len() == 0 {
            after == before
        } else {
            let stake = capped(ids.len() * before.nodes.view().stake_per_node);
            &&& after.rewards@ == before.rewards_after_compute(tot)
            &&& after.nodes.view() == with_states(before.nodes.view(), ids, NodeState::Active)
            &&& after.ledger.rows_view() == asc_rows(
                before.ledger.rows_view(),
                col(UserStakeState::PendingActivation),
                col(UserStakeState::Active),
                stake,
            )
            &&& after.ledger.unbond_queue@ == before.ledger.unbond_queue@
            &&& after.ledger.user_totals@ == before.ledger.user_totals@
            &&& after.settings == before.settings
            &&& after.users == before.users
            &&& after.offers@ == before.offers@
            &&& after.sent_rewards == before.sent_rewards
            &&& after.pause == before.pause
        }
    }

    /// How `auction_stake_callback_fail` for `ids` leaves `before` as `after`.
    pub open spec fn stake_fail_done(before: StakingContract, ids: Seq<usize>, after: StakingContract) -> bool {
        if ids.len() == 0 {
            after == before
        } else {
            let stake = capped(ids.len() * before.nodes.view().stake_per_node);
            &&& after.nodes.view() == with_states(before.nodes.view(), ids, NodeState::ActivationFailed)
            &&& after.ledger.rows_view() == asc_rows(
                before.ledger.rows_view(),
                col(UserStakeState::PendingActivation),
                col(UserStakeState::ActivationFailed),
                stake,
            )
            &&& after.ledger.unbond_queue@ == before.ledger.unbond_queue@
            &&& after.ledger.user_totals@ == before.ledger.user_totals@
            &&& after.same_but_nodes_ledger(&before)
        }
    }

    /// The auction contract activated the nodes `node_ids`: the rewards are brought up to date
    /// with the total cumulated rewards `tot` (the rewarded stake is about to change), then the
    /// nodes and their stake become active, oldest users first.
    pub fn auction_stake_callback_ok(&mut self, node_ids: &Vec<usize>, tot: u128)
        requires
            old(self).wf(),
            old(self).rewards_computable(tot),
            forall|j: int| 0 <= j < node_ids@.len() ==> #[trigger] node_ids@[j] <= old(self).nodes.view().num_nodes(),
        ensures
            final(self).wf(),
            Self::stake_ok_done(*old(self), node_ids@, tot, *final(self)),
    {
        if node_ids.len() == 0 {
            return;
        }
        self.compute_all_rewards(tot);
        let mut stake = crate::pool::node_activation::nodes_stake_capped(node_ids.len(), self.nodes.stake_per_node);
        self.ledger.convert_user_stake_asc(UserStakeState::PendingActivation, UserStakeState::Active, &mut stake);
        self.set_nodes_state(node_ids, NodeState::Active);
    }

    /// The auction contract did not activate the nodes `node_ids`: they and their stake are
    /// marked as failed, oldest users first.
    pub fn auction_stake_callback_fail(&mut self, node_ids: &Vec<usize>)
        requires
            old(self).wf(),
            forall|j: int| 0 <= j < node_ids@.len() ==> #[trigger] node_ids@[j] <= old(self).nodes.view().num_nodes(),
        ensures
            final(self).wf(),
            Self::stake_fail_done(*old(self), node_ids@, *final(self)),
    {
        if node_ids.len() == 0 {
            return;
        }
        let mut stake = crate::pool::node_activation::nodes_stake_capped(node_ids.len(), self.nodes.stake_per_node);
        self.ledger.convert_user_stake_asc(UserStakeState::PendingActivation, UserStakeState::ActivationFailed, &mut stake);
        self.set_nodes_state(node_ids, NodeState::ActivationFailed);
    }

    /// Reply of the auction contract to a stake call for `node_ids`: either pairs of a node key
    /// and a one-byte status, or an error message. The nodes that succeeded are finished as
    /// `auction_stake_callback_ok` does, the others as `auction_stake_callback_fail` does; an
    /// error message fails all of them.
    pub fn auction_stake_callback(&mut self, node_ids: Vec<usize>, reply: Result<Vec<Vec<u8>>, Vec<u8>>, tot: u128) -> (r: Result<(), &'static str>)
        requires
            old(self).wf(),
            old(self).rewards_computable(tot),
            forall|j: int| 0 <= j < node_ids@.len() ==> #[trigger] node_ids@[j] <= old(self).nodes.view().num_nodes(),
        ensures
            final(self).wf(),
            reply is Err ==> r is Ok && Self::stake_fail_done(*old(self), node_ids@, *final(self)),
            reply matches Ok(args) ==> match split_result(old(self).nodes.view().keys, node_ids@, args@.map_values(|b: Vec<u8>| b@)) {
                Err(m) => (r matches Err(e) && e@ == m) && *final(self) == *old(self),
                Ok(st) => r is Ok && exists|mid: StakingContract|
                    #[trigger] Self::stake_ok_done(*old(self), st.0, tot, mid) && Self::stake_fail_done(mid, st.1, *final(self)),
            },
    {
        match reply {
            Ok(args) => {
                let (ok_ids, failed_ids) = match self.nodes.split_node_ids_by_err(node_ids, &args) {
                    Ok(split) => split,
                    Err(e) => {
                        return Err(e);
                    },
                };
                proof {
                    assert forall|j: int| 0 <= j < ok_ids@.len() implies #[trigger] ok_ids@[j] <= self.nodes.view().num_nodes() by {
                        let q = choose|q: int| 0 <= q < node_ids@.len() && #[trigger] node_ids@[q] as int == ok_ids@[j] as int;
                    }
                }
                self.auction_stake_callback_ok(&ok_ids, tot);
                let ghost mid = *self;
                proof {
                    assert forall|j: int| 0 <= j < failed_ids@.len() implies #[trigger] failed_ids@[j] <= self.nodes.view().num_nodes() by {
                        let q = choose|q: int| 0 <= q < node_ids@.len() && #[trigger] node_ids@[q] as int == failed_ids@[j] as int;
                    }
                }
                self.auction_stake_callback_fail(&failed_ids);
                proof {
                    let st = split_result(old(self).nodes.view().keys, node_ids@, args@.map_values(|b: Vec<u8>| b@))->Ok_0;
                    assert(st.0 == ok_ids@ && st.1 == failed_ids@);
                    assert(Self::stake_ok_done(*old(self), st.0, tot, mid));
                    assert(Self::stake_fail_done(mid, st.1, *self));
                }
                Ok(())
            },
            Err(_) => {
                self.auction_stake_callback_fail(&node_ids);
                Ok(())
            },
        }
    }
}

} // verus!
