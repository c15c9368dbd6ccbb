use vstd::prelude::*;
use crate::pool::bls_key::BLSKey;
use crate::pool::contract::{AuctionCall, StakingContract};
use crate::pool::node_config::{NodeView, node_id_of, lemma_node_id_bounded, split_pairs, in_ids};
use crate::pool::stake_ledger::{queue_take, queue_pop, desc_rows, queue_users_valid, min_of, UnbondQueueItem};
use crate::pool::states::{NodeState, UserStakeState, user_stake_state_code};

verus! {

/// Column of state `s` in a stake row.
pub open spec fn col(s: UserStakeState) -> int {
    user_stake_state_code(s) as int
}

/// Stake needed by `n` nodes of `stake_per_node` each; none when it does not fit.
fn nodes_stake(n: usize, stake_per_node: u128) -> (r: Option<u128>)
    ensures
        r matches Some(v) ==> v == n * stake_per_node,
        r is None ==> n * stake_per_node > u128::MAX,
{
    (n as u128).checked_mul(stake_per_node)
}

/// Stake needed by `n` nodes of `stake_per_node` each, stopping at the largest amount.
pub(crate) fn nodes_stake_capped(n: usize, stake_per_node: u128) -> (r: u128)
    ensures
        r == if n * stake_per_node > u128::MAX { u128::MAX as int } else { n * stake_per_node },
{
    match (n as u128).checked_mul(stake_per_node) {
        Some(v) => v,
        None => u128::MAX,
    }
}

/// The node data with every node of `ids` in `state`.
pub open spec fn with_states(v: NodeView, ids: Seq<usize>, state: NodeState) -> NodeView {
    NodeView { states: Seq::new(v.states.len(), |i: int| if in_ids(ids, i) { state } else { v.states[i] }), ..v }
}

impl StakingContract {
    /// Everything but the stake ledger is as in `other`.
    pub open spec fn same_but_ledger(&self, other: &StakingContract) -> bool {
        &&& self.settings == other.settings
        &&& self.users == other.users
        &&& self.nodes.view() == other.nodes.view()
        &&& self.rewards@ == other.rewards@
        &&& self.offers@ == other.offers@
        &&& self.sent_rewards == other.sent_rewards
        &&& self.pause == other.pause
    }

    /// Sets every node of `node_ids` to `state`.
    pub(crate) fn set_nodes_state(&mut self, node_ids: &Vec<usize>, state: NodeState)
        requires
            old(self).wf(),
            forall|j: int| 0 <= j < node_ids@.len() ==> #[trigger] node_ids@[j] <= old(self).nodes.view().num_nodes(),
        ensures
            final(self).wf(),
            final(self).nodes.view() == with_states(old(self).nodes.view(), node_ids@, state),
            final(self).ledger == old(self).ledger,
            final(self).settings == old(self).settings,
            final(self).users == old(self).users,
            final(self).rewards@ == old(self).rewards@,
            final(self).offers@ == old(self).offers@,
            final(self).sent_rewards == old(self).sent_rewards,
            final(self).pause == old(self).pause,
    {
        let ghost v0 = self.nodes.view();
        let mut j: usize = 0;
        while j < node_ids.len()
            invariant
                self.wf(),
                j <= node_ids@.len(),
                self.nodes.view().num_nodes() == v0.num_nodes(),
                self.nodes.view().states.len() == v0.states.len(),
                forall|k: int| 0 <= k < node_ids@.len() ==> #[trigger] node_ids@[k] <= v0.num_nodes(),
                self.nodes.view() == (NodeView { states: self.nodes.view().states, ..v0 }),
                forall|i: int|
                    0 <= i < v0.states.len() ==> #[trigger] self.nodes.view().states[i] == if in_ids(
                        node_ids@.subrange(0, j as int),
                        i,
                    ) {
                        state
                    } else {
                        v0.states[i]
                    },
                self.ledger == old(self).ledger,
                self.settings == old(self).settings,
                self.users == old(self).users,
                self.rewards@ == old(self).rewards@,
                self.offers@ == old(self).offers@,
                self.sent_rewards == old(self).sent_rewards,
                self.pause == old(self).pause,
            decreases node_ids@.len() - j,
        {
            let ghost before = self.nodes.view();
            self.nodes.set_node_state(node_ids[j], state);
            proof {
                let sub = node_ids@.subrange(0, j + 1);
                let prev = node_ids@.subrange(0, j as int);
                assert forall|i: int| 0 <= i < v0.states.len() implies #[trigger] self.nodes.view().states[i] == if in_ids(sub, i) {
                    state
                } else {
                    v0.states[i]
                } by {
                    if i == node_ids@[j as int] as int {
                        assert(sub[j as int] as int == i);
                    } else {
                        if in_ids(sub, i) {
                            let k = choose|k: int| 0 <= k < sub.len() && #[trigger] sub[k] as int == i;
                            assert(prev[k] as int == i);
                        }
                        if in_ids(prev, i) {
                            let k = choose|k: int| 0 <= k < prev.len() && #[trigger] prev[k] as int == i;
                            assert(sub[k] as int == i);
                        }
                    }
                }
            }
            j = j + 1;
        }
        proof {
            assert(node_ids@.subrange(0, node_ids@.len() as int) =~= node_ids@);
            assert(self.nodes.view().states =~= with_states(v0, node_ids@, state).states);
        }
    }
}

impl StakingContract {
    /// Sends the stake of `bls_keys.len()` nodes to unbonding: the users in the unbond queue
    /// go first, each up to the amount of its entry, then the newest users. Fails, changing
    /// nothing, when less than that is in the unbond period.
    pub fn perform_unbond(&mut self, node_ids: Vec<usize>, bls_keys: Vec<BLSKey>) -> (r: Result<AuctionCall, &'static str>)
        requires
            old(self).wf(),
        ensures
            final(self).wf(),
            ({
                let stake = bls_keys@.len() * old(self).nodes.view().stake_per_node;
                let ub = col(UserStakeState::UnBondPeriod);
                let pu = col(UserStakeState::PendingUnBond);
                if stake > old(self).ledger.stake_of(0, UserStakeState::UnBondPeriod) {
                    &&& r matches Err(e) && e@ == "not enough stake in unbond period"@
                    &&& *final(self) == *old(self)
                } else {
                    let (qrows, left) = queue_take(old(self).ledger.rows_view(), old(self).ledger.unbond_queue@, ub, pu, stake, 0);
                    &&& r matches Ok(AuctionCall::UnBond { node_ids: ids, bls_keys: keys }) && ids@ == node_ids@ && keys@
                        == bls_keys@
                    &&& final(self).ledger.rows_view() == desc_rows(qrows, ub, pu, left)
                    &&& final(self).ledger.user_totals@ == old(self).ledger.user_totals@
                    &&& final(self).ledger.unbond_queue@ == old(self).ledger.unbond_queue@
                    &&& final(self).same_but_ledger(&*old(self))
                }
            }),
    {
        let total = self.ledger.get_user_stake_of_type(0, UserStakeState::UnBondPeriod);
        let mut stake = match nodes_stake(bls_keys.len(), self.nodes.stake_per_node) {
            Some(s) => s,
            None => {
                return Err("not enough stake in unbond period");
            },
        };
        if stake > total {
            return Err("not enough stake in unbond period");
        }
        let queue = self.ledger.get_unbond_queue();
        self.ledger.convert_for_queue(&queue, UserStakeState::UnBondPeriod, UserStakeState::PendingUnBond, &mut stake);
        self.ledger.convert_user_stake_desc(UserStakeState::UnBondPeriod, UserStakeState::PendingUnBond, &mut stake);
        Ok(AuctionCall::UnBond { node_ids, bls_keys })
    }
}

/// The nodes of the first `k` keys, checked in turn: each must be in the unbond period (and not
/// listed already) and its unbond period over at block `bl_nonce`.
pub open spec fn unbond_ids(v: NodeView, keys: Seq<Seq<u8>>, bl_nonce: u64, n_blocks: u64, k: nat) -> Result<Seq<usize>, Seq<char>>
    decreases k,
{
    if k == 0 {
        Ok(Seq::empty())
    } else {
        match unbond_ids(v, keys, bl_nonce, n_blocks, (k - 1) as nat) {
            Err(e) => Err(e),
            Ok(ids) => {
                let id = node_id_of(v.keys, keys[k - 1]);
                if v.state(id) != NodeState::UnBondPeriod || in_ids(ids, id) {
                    Err("node not in unbond period"@)
                } else if bl_nonce <= v.unstake_nonces[id] + n_blocks {
                    Err("too soon to unbond node"@)
                } else {
                    Ok(ids.push(id as usize))
                }
            },
        }
    }
}

/// Once the check fails, it fails with the same error whatever follows.
pub proof fn lemma_unbond_ids_err(v: NodeView, keys: Seq<Seq<u8>>, bl_nonce: u64, n_blocks: u64, j: nat, k: nat)
    requires
        j <= k,
        unbond_ids(v, keys, bl_nonce, n_blocks, j) is Err,
    ensures
        unbond_ids(v, keys, bl_nonce, n_blocks, k) == unbond_ids(v, keys, bl_nonce, n_blocks, j),
    decreases k - j,
{
    if j < k {
        lemma_unbond_ids_err(v, keys, bl_nonce, n_blocks, j, (k - 1) as nat);
    }
}

/// Whether `x` is among `ids`.
pub(crate) fn contains_id(ids: &Vec<usize>, x: usize) -> (r: bool)
    ensures
        r == in_ids(ids@, x as int),
{
    let mut k: usize = 0;
    while k < ids.len()
        invariant
            k <= ids@.len(),
            forall|j: int| 0 <= j < k ==> ids@[j] != x,
        decreases ids@.len() - k,
    {
        if ids[k] == x {
            assert(ids@[k as int] as int == x as int);
            return true;
        }
        k = k + 1;
    }
    false
}

impl StakingContract {
    /// Unbonds the nodes with keys `bls_keys` whose unbond period is over at block `bl_nonce`:
    /// they become pending unbond, and their stake is sent to unbonding as `perform_unbond`
    /// does. On any error nothing changes.
    pub fn unbond_nodes(&mut self, bls_keys: Vec<BLSKey>, bl_nonce: u64) -> (r: Result<AuctionCall, &'static str>)
        requires
            old(self).wf(),
        ensures
            final(self).wf(),
            ({
                let keys = bls_keys@.map_values(|k: BLSKey| k.view());
                let v = old(self).nodes.view();
                match unbond_ids(v, keys, bl_nonce, old(self).settings.n_blocks_before_unbond, keys.len()) {
                    Err(m) => r matches Err(e) && e@ == m && *final(self) == *old(self),
                    Ok(ids) => {
                        let stake = ids.len() * v.stake_per_node;
                        let ub = col(UserStakeState::UnBondPeriod);
                        let pu = col(UserStakeState::PendingUnBond);
                        if stake > old(self).ledger.stake_of(0, UserStakeState::UnBondPeriod) {
                            r matches Err(e) && e@ == "not enough stake in unbond period"@ && *final(self) == *old(self)
                        } else {
                            let (qrows, left) = queue_take(old(self).ledger.rows_view(), old(self).ledger.unbond_queue@, ub, pu, stake, 0);
                            &&& r matches Ok(AuctionCall::UnBond { node_ids: got_ids, bls_keys: got_keys }) && got_ids@ == ids
                                && got_keys@ == bls_keys@
                            &&& final(self).nodes.view() == with_states(v, ids, NodeState::PendingUnBond)
                            &&& final(self).ledger.rows_view() == desc_rows(qrows, ub, pu, left)
                            &&& final(self).ledger.user_totals@ == old(self).ledger.user_totals@
                            &&& final(self).ledger.unbond_queue@ == old(self).ledger.unbond_queue@
                            &&& final(self).settings == old(self).settings
                            &&& final(self).users == old(self).users
                            &&& final(self).rewards@ == old(self).rewards@
                            &&& final(self).offers@ == old(self).offers@
                        }
                    },
                }
            }),
    {
        let ghost keys = bls_keys@.map_values(|k: BLSKey| k.view());
        let ghost v = self.nodes.view();
        let n_blocks = self.settings.n_blocks_before_unbond;
        let mut node_ids: Vec<usize> = Vec::new();
        let mut k: usize = 0;
        while k < bls_keys.len()
            invariant
                self.wf(),
                v == self.nodes.view(),
                *self == *old(self),
                n_blocks == self.settings.n_blocks_before_unbond,
                keys == bls_keys@.map_values(|k: BLSKey| k.view()),
                k <= bls_keys@.len(),
                unbond_ids(v, keys, bl_nonce, n_blocks, k as nat) == Ok::<Seq<usize>, Seq<char>>(node_ids@),
                node_ids@.len() == k,
                forall|j: int| 0 <= j < node_ids@.len() ==> #[trigger] node_ids@[j] <= v.num_nodes(),
            decreases bls_keys@.len() - k,
        {
            let node_id = self.nodes.get_node_id(&bls_keys[k]);
            proof {
                lemma_node_id_bounded(v.keys, keys[k as int]);
            }
            if self.nodes.node_state(node_id) != NodeState::UnBondPeriod || contains_id(&node_ids, node_id) {
                proof {
                    lemma_unbond_ids_err(v, keys, bl_nonce, n_blocks, (k + 1) as nat, keys.len());
                }
                return Err("node not in unbond period");
            }
            let unstake_nonce = self.nodes.node_unstake_nonce(node_id);
            if (bl_nonce as u128) <= (unstake_nonce as u128) + (n_blocks as u128) {
                proof {
                    lemma_unbond_ids_err(v, keys, bl_nonce, n_blocks, (k + 1) as nat, keys.len());
                }
                return Err("too soon to unbond node");
            }
            node_ids.push(node_id);
            k = k + 1;
        }
        let total = self.ledger.get_user_stake_of_type(0, UserStakeState::UnBondPeriod);
        match nodes_stake(node_ids.len(), self.nodes.stake_per_node) {
            Some(s) => {
                if s > total {
                    return Err("not enough stake in unbond period");
                }
            },
            None => {
                return Err("not enough stake in unbond period");
            },
        }
        self.set_nodes_state(&node_ids, NodeState::PendingUnBond);
        self.perform_unbond(node_ids, bls_keys)
    }
}

/// The node data with the unstake block of every node of `ids` set to `nonce`.
pub open spec fn with_nonces(v: NodeView, ids: Seq<usize>, nonce: u64) -> NodeView {
    NodeView {
        unstake_nonces: Seq::new(v.unstake_nonces.len(), |i: int| if in_ids(ids, i) { nonce } else { v.unstake_nonces[i] }),
        ..v
    }
}

/// Ledger rows and unbond queue once the auction contract confirmed the unbonding of `stake`:
/// the queue is served first, from pending unbond to withdraw only; what remains of pending
/// unbond goes back to inactive, newest users first; what is still missing is taken from the
/// unbond period into pending unbond.
pub open spec fn unbond_ok_ledger(rows: Seq<Seq<u128>>, q: Seq<UnbondQueueItem>, stake: int) -> (
    Seq<Seq<u128>>,
    Seq<UnbondQueueItem>,
) {
    let pu = col(UserStakeState::PendingUnBond);
    let (r1, st1, q1) = queue_pop(rows, q, pu, col(UserStakeState::WithdrawOnly), stake, 0);
    let r2 = if st1 > 0 { desc_rows(r1, pu, col(UserStakeState::Inactive), st1) } else { r1 };
    let st2 = if st1 > 0 { st1 - min_of(st1, r1[0][pu] as int) } else { st1 };
    (desc_rows(r2, col(UserStakeState::UnBondPeriod), pu, st2), q1)
}


impl StakingContract {
    /// How `auction_unbond_callback_ok` for `ids` leaves `before` as `after`, with result `r`.
    pub open spec fn unbond_ok_done(before: StakingContract, ids: Seq<usize>, after: StakingContract, r: Result<(), &'static str>) -> bool {
        let stake = ids.len() * before.nodes.view().stake_per_node;
        let l0 = before.ledger;
        if ids.len() == 0 {
            r is Ok && after == before
        } else if stake > l0.stake_of(0, UserStakeState::PendingUnBond) + l0.stake_of(0, UserStakeState::UnBondPeriod) {
            (r matches Err(e) && e@ == "not enough stake in unbond period"@) && after == before
        } else {
            let (rows, queue) = unbond_ok_ledger(l0.rows_view(), l0.unbond_queue@, stake);
            &&& r is Ok
            &&& after.nodes.view() == with_nonces(with_states(before.nodes.view(), ids, NodeState::Inactive), ids, 0)
            &&& after.ledger.rows_view() == rows
            &&& after.ledger.unbond_queue@ == queue
            &&& after.ledger.user_totals@ == l0.user_totals@
            &&& after.same_but_nodes_ledger(&before)
        }
    }

    /// How `auction_unbond_callback_fail` for `ids` leaves `before` as `after`.
    pub open spec fn unbond_fail_done(before: StakingContract, ids: Seq<usize>, after: StakingContract) -> bool {
        if ids.len() == 0 {
            after == before
        } else {
            let stake = ids.len() * before.nodes.view().stake_per_node;
            &&& after.nodes.view() == with_states(before.nodes.view(), ids, NodeState::UnBondPeriod)
            &&& after.ledger.rows_view() == desc_rows(
                before.ledger.rows_view(),
                col(UserStakeState::PendingUnBond),
                col(UserStakeState::UnBondPeriod),
                if stake > u128::MAX { u128::MAX as int } else { stake },
            )
            &&& after.ledger.unbond_queue@ == before.ledger.unbond_queue@
            &&& after.ledger.user_totals@ == before.ledger.user_totals@
            &&& after.same_but_nodes_ledger(&before)
        }
    }
}

/// How node ids split by an auction reply: all succeed with no reply.
pub open spec fn split_result(keys: Seq<Seq<u8>>, ids: Seq<usize>, args: Seq<Seq<u8>>) -> Result<(Seq<usize>, Seq<usize>), Seq<char>> {
    if args.len() == 0 {
        Ok((ids, Seq::empty()))
    } else if args.len() % 2 != 0 {
        Err("even number of arguments expected in auction callback"@)
    } else {
        split_pairs(keys, ids, args, (args.len() / 2) as nat)
    }
}

impl StakingContract {
    /// Sets the unstake block of every node of `node_ids` to `nonce`.
    pub(crate) fn set_nodes_nonce(&mut self, node_ids: &Vec<usize>, nonce: u64)
        requires
            old(self).wf(),
            forall|j: int| 0 <= j < node_ids@.len() ==> #[trigger] node_ids@[j] <= old(self).nodes.view().num_nodes(),
        ensures
            final(self).wf(),
            final(self).nodes.view() == with_nonces(old(self).nodes.view(), node_ids@, nonce),
            final(self).ledger == old(self).ledger,
            final(self).settings == old(self).settings,
            final(self).users == old(self).users,
            final(self).rewards@ == old(self).rewards@,
            final(self).offers@ == old(self).offers@,
            final(self).sent_rewards == old(self).sent_rewards,
            final(self).pause == old(self).pause,
    {
        let ghost v0 = self.nodes.view();
        let mut j: usize = 0;
        while j < node_ids.len()
            invariant
                self.wf(),
                j <= node_ids@.len(),
                self.nodes.view().num_nodes() == v0.num_nodes(),
                self.nodes.view().unstake_nonces.len() == v0.unstake_nonces.len(),
                forall|k: int| 0 <= k < node_ids@.len() ==> #[trigger] node_ids@[k] <= v0.num_nodes(),
                self.nodes.view() == (NodeView { unstake_nonces: self.nodes.view().unstake_nonces, ..v0 }),
                forall|i: int|
                    0 <= i < v0.unstake_nonces.len() ==> #[trigger] self.nodes.view().unstake_nonces[i] == if in_ids(
                        node_ids@.subrange(0, j as int),
                        i,
                    ) {
                        nonce
                    } else {
                        v0.unstake_nonces[i]
                    },
                self.ledger == old(self).ledger,
                self.settings == old(self).settings,
                self.users == old(self).users,
                self.rewards@ == old(self).rewards@,
                self.offers@ == old(self).offers@,
                self.sent_rewards == old(self).sent_rewards,
                self.pause == old(self).pause,
            decreases node_ids@.len() - j,
        {
            self.nodes.set_node_unstake_nonce(node_ids[j], nonce);
            proof {
                let sub = node_ids@.subrange(0, j + 1);
                let prev = node_ids@.subrange(0, j as int);
                assert forall|i: int| 0 <= i < v0.unstake_nonces.len() implies #[trigger] self.nodes.view().unstake_nonces[i] == if in_ids(
                    sub,
                    i,
                ) {
                    nonce
                } else {
                    v0.unstake_nonces[i]
                } by {
                    if i == node_ids@[j as int] as int {
                        assert(sub[j as int] as int == i);
                    } else {
                        if in_ids(sub, i) {
                            let k = choose|k: int| 0 <= k < sub.len() && #[trigger] sub[k] as int == i;
                            assert(prev[k] as int == i);
                        }
                        if in_ids(prev, i) {
                            let k = choose|k: int| 0 <= k < prev.len() && #[trigger] prev[k] as int == i;
                            assert(sub[k] as int == i);
                        }
                    }
                }
            }
            j = j + 1;
        }
        proof {
            assert(node_ids@.subrange(0, node_ids@.len() as int) =~= node_ids@);
            assert(self.nodes.view().unstake_nonces =~= with_nonces(v0, node_ids@, nonce).unstake_nonces);
        }
    }

    /// The auction contract confirmed the unbonding of the nodes `node_ids`: they become
    /// inactive with no unstake block, and their stake moves as `unbond_ok_ledger` says. Fails,
    /// changing nothing, when the stake in pending unbond and in the unbond period together is
    /// less than that of the nodes.
    pub fn auction_unbond_callback_ok(&mut self, node_ids: &Vec<usize>) -> (r: Result<(), &'static str>)
        requires
            old(self).wf(),
            forall|j: int| 0 <= j < node_ids@.len() ==> #[trigger] node_ids@[j] <= old(self).nodes.view().num_nodes(),
        ensures
            final(self).wf(),
            Self::unbond_ok_done(*old(self), node_ids@, *final(self), r),
    {
        if node_ids.len() == 0 {
            return Ok(());
        }
        let pending = self.ledger.get_user_stake_of_type(0, UserStakeState::PendingUnBond);
        let in_period = self.ledger.get_user_stake_of_type(0, UserStakeState::UnBondPeriod);
        proof {
            self.ledger.lemma_row_fits_two(UserStakeState::PendingUnBond, UserStakeState::UnBondPeriod);
        }
        let mut stake = match nodes_stake(node_ids.len(), self.nodes.stake_per_node) {
            Some(s) => s,
            None => {
                return Err("not enough stake in unbond period");
            },
        };
        if stake > pending + in_period {
            return Err("not enough stake in unbond period");
        }
        self.set_nodes_state(node_ids, NodeState::Inactive);
        self.set_nodes_nonce(node_ids, 0);
        let ghost l0 = self.ledger;
        self.ledger.convert_and_pop_queue(UserStakeState::PendingUnBond, UserStakeState::WithdrawOnly, &mut stake);
        let ghost l1 = self.ledger;
        if stake > 0 {
            self.ledger.convert_user_stake_desc(UserStakeState::PendingUnBond, UserStakeState::Inactive, &mut stake);
        }
        proof {
            assert(self.ledger.stake_of(0, UserStakeState::UnBondPeriod) == l0.stake_of(0, UserStakeState::UnBondPeriod));
        }
        self.ledger.convert_user_stake_desc(UserStakeState::UnBondPeriod, UserStakeState::PendingUnBond, &mut stake);
        Ok(())
    }

    /// The auction contract refused to unbond the nodes `node_ids`: they go back to the unbond
    /// period, and so does their stake, newest users first.
    pub fn auction_unbond_callback_fail(&mut self, node_ids: &Vec<usize>)
        requires
            old(self).wf(),
            forall|j: int| 0 <= j < node_ids@.len() ==> #[trigger] node_ids@[j] <= old(self).nodes.view().num_nodes(),
        ensures
            final(self).wf(),
            Self::unbond_fail_done(*old(self), node_ids@, *final(self)),
    {
        if node_ids.len() == 0 {
            return;
        }
        let mut stake = nodes_stake_capped(node_ids.len(), self.nodes.stake_per_node);
        self.ledger.convert_user_stake_desc(UserStakeState::PendingUnBond, UserStakeState::UnBondPeriod, &mut stake);
        self.set_nodes_state(node_ids, NodeState::UnBondPeriod);
    }

    /// Everything but the stake ledger and the nodes is as in `other`.
    pub open spec fn same_but_nodes_ledger(&self, other: &StakingContract) -> bool {
        &&& self.settings == other.settings
        &&& self.users == other.users
        &&& self.rewards@ == other.rewards@
        &&& self.offers@ == other.offers@
        &&& self.sent_rewards == other.sent_rewards
        &&& self.pause == other.pause
    }
}

/// The nodes from id `i` down that are in the unbond period and due at block `bl_nonce`.
pub open spec fn due_for_unbond(v: NodeView, bl_nonce: u64, n_blocks: u64, i: int) -> Seq<usize>
    decreases i,
{
    if i <= 0 {
        Seq::empty()
    } else if v.state(i) == NodeState::UnBondPeriod && bl_nonce >= v.unstake_nonces[i] + n_blocks {
        seq![i as usize] + due_for_unbond(v, bl_nonce, n_blocks, i - 1)
    } else {
        due_for_unbond(v, bl_nonce, n_blocks, i - 1)
    }
}

impl StakingContract {
    /// Unbonds every node whose unbond period is over at block `bl_nonce`, from the highest id
    /// down, as `unbond_nodes` does; nothing to do when there is none. On error nothing changes.
    pub fn unbond_all_available(&mut self, bl_nonce: u64) -> (r: Result<Option<AuctionCall>, &'static str>)
        requires
            old(self).wf(),
        ensures
            final(self).wf(),
            ({
                let v = old(self).nodes.view();
                let ids = due_for_unbond(v, bl_nonce, old(self).settings.n_blocks_before_unbond, v.num_nodes());
                let stake = ids.len() * v.stake_per_node;
                let ub = col(UserStakeState::UnBondPeriod);
                let pu = col(UserStakeState::PendingUnBond);
                if ids.len() == 0 {
                    r matches Ok(None) && *final(self) == *old(self)
                } else if stake > old(self).ledger.stake_of(0, UserStakeState::UnBondPeriod) {
                    r matches Err(e) && e@ == "not enough stake in unbond period"@ && *final(self) == *old(self)
                } else {
                    let (qrows, left) = queue_take(old(self).ledger.rows_view(), old(self).ledger.unbond_queue@, ub, pu, stake, 0);
                    &&& r matches Ok(Some(AuctionCall::UnBond { node_ids: got_ids, bls_keys: got_keys })) && got_ids@ == ids
                        && got_keys@.len() == ids.len() && forall|j: int|
                        0 <= j < ids.len() ==> (#[trigger] got_keys@[j]).view() == v.keys[ids[j] - 1]
                    &&& final(self).nodes.view() == with_states(v, ids, NodeState::PendingUnBond)
                    &&& final(self).ledger.rows_view() == desc_rows(qrows, ub, pu, left)
                    &&& final(self).ledger.unbond_queue@ == old(self).ledger.unbond_queue@
                    &&& final(self).ledger.user_totals@ == old(self).ledger.user_totals@
                    &&& final(self).same_but_nodes_ledger(&*old(self))
                }
            }),
    {
        let ghost v = self.nodes.view();
        let n_blocks = self.settings.n_blocks_before_unbond;
        let mut node_ids: Vec<usize> = Vec::new();
        let mut bls_keys: Vec<BLSKey> = Vec::new();
        let mut node_id = self.nodes.get_num_nodes();
        while node_id >= 1
            invariant
                self.wf(),
                *self == *old(self),
                v == self.nodes.view(),
                n_blocks == self.settings.n_blocks_before_unbond,
                node_id <= v.num_nodes(),
                node_ids@ + due_for_unbond(v, bl_nonce, n_blocks, node_id as int) == due_for_unbond(
                    v,
                    bl_nonce,
                    n_blocks,
                    v.num_nodes(),
                ),
                bls_keys@.len() == node_ids@.len(),
                forall|j: int|
                    #![trigger node_ids@[j]]
                    0 <= j < node_ids@.len() ==> node_id < node_ids@[j] <= v.num_nodes() && bls_keys@[j].view() == v.keys[node_ids@[j] - 1],
            decreases node_id,
        {
            let ghost prev = node_ids@;
            let ghost rest = due_for_unbond(v, bl_nonce, n_blocks, node_id - 1);
            if self.nodes.node_state(node_id) == NodeState::UnBondPeriod && (bl_nonce as u128) >= (self.nodes.node_unstake_nonce(
                node_id,
            ) as u128) + (n_blocks as u128) {
                node_ids.push(node_id);
                bls_keys.push(self.nodes.node_bls(node_id));
                assert(node_ids@ + rest =~= prev + (seq![node_id] + rest));
            }
            node_id = node_id - 1;
        }
        proof {
            assert(node_ids@ + Seq::<usize>::empty() =~= node_ids@);
        }
        if node_ids.len() == 0 {
            return Ok(None);
        }
        let total = self.ledger.get_user_stake_of_type(0, UserStakeState::UnBondPeriod);
        match nodes_stake(node_ids.len(), self.nodes.stake_per_node) {
            Some(s) => {
                if s > total {
                    return Err("not enough stake in unbond period");
                }
            },
            None => {
                return Err("not enough stake in unbond period");
            },
        }
        self.set_nodes_state(&node_ids, NodeState::PendingUnBond);
        match self.perform_unbond(node_ids, bls_keys) {
            Ok(call) => Ok(Some(call)),
            Err(e) => Err(e),
        }
    }

    /// Reply of the auction contract to an unbond call for `node_ids`: either pairs of a node
    /// key and a one-byte status, or an error message. The nodes that succeeded are finished
    /// as `auction_unbond_callback_ok` does, the others as `auction_unbond_callback_fail`
    /// does; an error message fails all of them.
    pub fn auction_unbond_callback(&mut self, node_ids: Vec<usize>, reply: Result<Vec<Vec<u8>>, Vec<u8>>) -> (r: Result<(), &'static str>)
        requires
            old(self).wf(),
            forall|j: int| 0 <= j < node_ids@.len() ==> #[trigger] node_ids@[j] <= old(self).nodes.view().num_nodes(),
        ensures
            final(self).wf(),
            reply is Err ==> r is Ok && Self::unbond_fail_done(*old(self), node_ids@, *final(self)),
            reply matches Ok(args) ==> match split_result(old(self).nodes.view().keys, node_ids@, args@.map_values(|b: Vec<u8>| b@)) {
                Err(m) => (r matches Err(e) && e@ == m) && *final(self) == *old(self),
                Ok(st) => exists|mid: StakingContract, r1: Result<(), &'static str>|
                    #[trigger] Self::unbond_ok_done(*old(self), st.0, mid, r1) && (r1 is Err ==> r == r1 && *final(self) == mid) && (
                    r1 is Ok ==> r is Ok && Self::unbond_fail_done(mid, st.1, *final(self))),
            },
    {
        match reply {
            Ok(args) => {
                let (ok_ids, failed_ids) = match self.nodes.split_node_ids_by_err(node_ids, &args) {
                    Ok(split) => split,
                    Err(e) => {
                        return Err(e);
                    },
                };
                proof {
                    assert forall|j: int| 0 <= j < ok_ids@.len() implies #[trigger] ok_ids@[j] <= self.nodes.view().num_nodes() by {
                        let q = choose|q: int| 0 <= q < node_ids@.len() && #[trigger] node_ids@[q] as int == ok_ids@[j] as int;
                    }
                }
                let ghost before = *self;
                assert(split_result(before.nodes.view().keys, node_ids@, args@.map_values(|b: Vec<u8>| b@)) == Ok::<
                    (Seq<usize>, Seq<usize>),
                    Seq<char>,
                >((ok_ids@, failed_ids@)));
                let r1 = self.auction_unbond_callback_ok(&ok_ids);
                let ghost mid = *self;
                match r1 {
                    Ok(()) => {},
                    Err(e) => {
                        assert(Self::unbond_ok_done(before, ok_ids@, mid, r1));
                        assert(before == *old(self));
                        let ghost st = split_result(old(self).nodes.view().keys, node_ids@, args@.map_values(|b: Vec<u8>| b@))->Ok_0;
                        assert(st.0 == ok_ids@);
                        assert(exists|mid2: StakingContract, r2: Result<(), &'static str>|
                            #[trigger] Self::unbond_ok_done(*old(self), st.0, mid2, r2) && (r2 is Err ==> Err::<(), &'static str>(e) == r2 && *self == mid2));
                        return Err(e);
                    },
                }
                proof {
                    assert forall|j: int| 0 <= j < failed_ids@.len() implies #[trigger] failed_ids@[j] <= self.nodes.view().num_nodes() by {
                        let q = choose|q: int| 0 <= q < node_ids@.len() && #[trigger] node_ids@[q] as int == failed_ids@[j] as int;
                    }
                }
                self.auction_unbond_callback_fail(&failed_ids);
                proof {
                    let st = split_result(old(self).nodes.view().keys, node_ids@, args@.map_values(|b: Vec<u8>| b@))->Ok_0;
                    assert(st.0 == ok_ids@ && st.1 == failed_ids@);
                    assert(Self::unbond_ok_done(*old(self), st.0, mid, r1));
                    assert(Self::unbond_fail_done(mid, st.1, *self));
                }
                Ok(())
            },
            Err(_) => {
                self.auction_unbond_callback_fail(&node_ids);
                Ok(())
            },
        }
    }
}

} // verus!
