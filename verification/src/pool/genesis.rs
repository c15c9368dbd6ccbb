use vstd::prelude::*;
use crate::pool::contract::StakingContract;
use crate::pool::node_activation::col;
use crate::pool::node_config::NodeView;
use crate::pool::stake_ledger::asc_rows;
use crate::pool::states::{NodeState, UserStakeState};

verus! {

/// Number of inactive nodes among nodes `1 .. i`.
pub open spec fn inactive_count(v: NodeView, i: int) -> int
    decreases i,
{
    if i <= 1 {
        0
    } else {
        inactive_count(v, i - 1) + if v.state(i - 1) == NodeState::Inactive { 1int } else { 0 }
    }
}

/// Whether every node is inactive or removed.
pub open spec fn genesis_ready(v: NodeView) -> bool {
    forall|i: int| 1 <= i <= v.num_nodes() ==> (#[trigger] v.state(i) == NodeState::Inactive || v.state(i) == NodeState::Removed)
}

/// The node data with every inactive node active.
pub open spec fn genesis_activated(v: NodeView) -> NodeView {
    NodeView {
        states: Seq::new(
            v.states.len(),
            |i: int| if 1 <= i && v.states[i] == NodeState::Inactive { NodeState::Active } else { v.states[i] },
        ),
        ..v
    }
}

impl StakingContract {
    /// During the genesis block only: activates every inactive node, and all inactive stake,
    /// oldest users first. The stake the nodes need must match the inactive stake exactly.
    /// On any error nothing changes.
    pub fn activate_genesis(&mut self, bl_nonce: u64) -> (r: Result<(), &'static str>)
        requires
            old(self).wf(),
        ensures
            final(self).wf(),
            ({
                let v = old(self).nodes.view();
                let total = old(self).ledger.stake_of(0, UserStakeState::Inactive);
                if bl_nonce > 0 {
                    (r matches Err(e) && e@ == "genesis block only"@) && *final(self) == *old(self)
                } else if !genesis_ready(v) {
                    (r matches Err(e) && e@ == "cannot activate twice during genesis"@) && *final(self) == *old(self)
                } else if inactive_count(v, v.num_nodes() + 1) * v.stake_per_node != total {
                    (r matches Err(e) && e@ == "stake required by nodes must match total user stake at genesis"@) && *final(self)
                        == *old(self)
                } else {
                    &&& r is Ok
                    &&& final(self).nodes.view() == genesis_activated(v)
                    &&& final(self).ledger.rows_view() == asc_rows(
                        old(self).ledger.rows_view(),
                        col(UserStakeState::Inactive),
                        col(UserStakeState::Active),
                        total,
                    )
                    &&& final(self).ledger.unbond_queue@ == old(self).ledger.unbond_queue@
                    &&& final(self).ledger.user_totals@ == old(self).ledger.user_totals@
                    &&& final(self).same_but_nodes_ledger(&*old(self))
                }
            }),
    {
        if bl_nonce > 0 {
            return Err("genesis block only");
        }
        let ghost v = self.nodes.view();
        let num_nodes = self.nodes.get_num_nodes();
        let num_slots = self.nodes.states.len();
        assert(num_slots == num_nodes + 1);
        let mut count: u128 = 0;
        let mut node_id: usize = 1;
        while node_id <= num_nodes
            invariant
                self.wf(),
                *self == *old(self),
                bl_nonce == 0,
                v == self.nodes.view(),
                num_nodes == v.num_nodes(),
                num_nodes < usize::MAX,
                1 <= node_id <= num_nodes + 1,
                count == inactive_count(v, node_id as int),
                count < node_id,
                forall|i: int| 1 <= i < node_id ==> (#[trigger] v.state(i) == NodeState::Inactive || v.state(i) == NodeState::Removed),
            decreases num_nodes + 1 - node_id,
        {
            let state = self.nodes.node_state(node_id);
            if state == NodeState::Inactive {
                count = count + 1;
            } else if state != NodeState::Removed {
                assert(!genesis_ready(v)) by {
                    assert(!(v.state(node_id as int) == NodeState::Inactive || v.state(node_id as int) == NodeState::Removed));
                }
                return Err("cannot activate twice during genesis");
            }
            node_id = node_id + 1;
        }
        let total = self.ledger.get_user_stake_of_type(0, UserStakeState::Inactive);
        match count.checked_mul(self.nodes.stake_per_node) {
            Some(required) => {
                if required != total {
                    return Err("stake required by nodes must match total user stake at genesis");
                }
            },
            None => {
                return Err("stake required by nodes must match total user stake at genesis");
            },
        }
        let mut node_id: usize = 1;
        while node_id <= num_nodes
            invariant
                self.wf(),
                self.ledger == old(self).ledger,
                self.same_but_nodes_ledger(&*old(self)),
                num_nodes == v.num_nodes(),
                num_nodes < usize::MAX,
                1 <= node_id <= num_nodes + 1,
                self.nodes.view() == (NodeView { states: self.nodes.view().states, ..v }),
                self.nodes.view().states.len() == v.states.len(),
                forall|i: int|
                    0 <= i < v.states.len() ==> #[trigger] self.nodes.view().states[i] == if 1 <= i < node_id && v.states[i]
                        == NodeState::Inactive {
                        NodeState::Active
                    } else {
                        v.states[i]
                    },
            decreases num_nodes + 1 - node_id,
        {
            if self.nodes.node_state(node_id) == NodeState::Inactive {
                self.nodes.set_node_state(node_id, NodeState::Active);
            }
            node_id = node_id + 1;
        }
        assert(self.nodes.view().states =~= genesis_activated(v).states);
        let mut supply = total;
        self.ledger.convert_user_stake_asc(UserStakeState::Inactive, UserStakeState::Active, &mut supply);
        Ok(())
    }
}

} // verus!
