use vstd::prelude::*;
use crate::pool::bls_key::{BLSKey, BLS_KEY_BYTE_LENGTH, BLS_SIGNATURE_BYTE_LENGTH};
use crate::pool::states::{NodeState, node_state_code};
use crate::settings::Settings;
use crate::user_data::copy_bytes;

verus! {

/// Fixed-point denominator of the service fee: 10000 is 100%.
pub const SERVICE_FEE_DENOMINATOR: u128 = 10000;

/// What the contract knows of its validator nodes. Node `i + 1` has the key and signature at
/// position `i`, and its state and unstake block at position `i + 1`. Id 0 stands for no node:
/// what is kept under it is what a lookup of an unknown key reads and writes.
pub struct NodeRegistry {
    pub bls_keys: Vec<BLSKey>,
    pub signatures: Vec<Vec<u8>>,
    pub states: Vec<NodeState>,
    pub unstake_nonces: Vec<u64>,
    pub stake_per_node: u128,
    pub service_fee: u128,
}

/// The node data as plain values.
pub struct NodeView {
    pub keys: Seq<Seq<u8>>,
    pub sigs: Seq<Seq<u8>>,
    pub states: Seq<NodeState>,
    pub unstake_nonces: Seq<u64>,
    pub stake_per_node: u128,
    pub service_fee: u128,
}

/// Whether no two nodes have the same key.
pub open spec fn keys_distinct(keys: Seq<Seq<u8>>) -> bool {
    forall|i: int, j: int| 0 <= i < keys.len() && 0 <= j < keys.len() && i != j ==> keys[i] != keys[j]
}

/// Whether key `k` is registered.
pub open spec fn has_key(keys: Seq<Seq<u8>>, k: Seq<u8>) -> bool {
    exists|i: int| 0 <= i < keys.len() && #[trigger] keys[i] == k
}

/// Id of the node with key `k`, 0 when there is none.
pub open spec fn node_id_of(keys: Seq<Seq<u8>>, k: Seq<u8>) -> int {
    if has_key(keys, k) {
        (choose|i: int| 0 <= i < keys.len() && #[trigger] keys[i] == k) + 1
    } else {
        0
    }
}

/// With distinct keys, the node at position `i` has id `i + 1`.
pub proof fn lemma_node_id_at(keys: Seq<Seq<u8>>, i: int)
    requires
        keys_distinct(keys),
        0 <= i < keys.len(),
    ensures
        node_id_of(keys, keys[i]) == i + 1,
{
    assert(has_key(keys, keys[i]));
}

impl NodeView {
    pub open spec fn num_nodes(self) -> int {
        self.keys.len() as int
    }

    /// Every node has all its data, and keys are distinct.
    pub open spec fn valid(self) -> bool {
        &&& self.sigs.len() == self.keys.len()
        &&& self.states.len() == self.keys.len() + 1
        &&& self.unstake_nonces.len() == self.keys.len() + 1
        &&& keys_distinct(self.keys)
        &&& self.service_fee <= SERVICE_FEE_DENOMINATOR
    }

    /// State of node `id`.
    pub open spec fn state(self, id: int) -> NodeState {
        self.states[id]
    }

    /// Signature of node `id`; 32 zero bytes under id 0.
    pub open spec fn sig(self, id: int) -> Seq<u8> {
        if id == 0 {
            Seq::new(BLS_SIGNATURE_BYTE_LENGTH as nat, |i: int| 0u8)
        } else {
            self.sigs[id - 1]
        }
    }
}

impl NodeRegistry {
    pub open spec fn view(&self) -> NodeView {
        NodeView {
            keys: self.bls_keys@.map_values(|k: BLSKey| k.view()),
            sigs: self.signatures@.map_values(|s: Vec<u8>| s@),
            states: self.states@,
            unstake_nonces: self.unstake_nonces@,
            stake_per_node: self.stake_per_node,
            service_fee: self.service_fee,
        }
    }

    pub open spec fn wf(&self) -> bool {
        self.view().valid()
    }

    /// No nodes, no stake per node, no service fee.
    pub fn new() -> (r: NodeRegistry)
        ensures
            r.wf(),
            r.view().num_nodes() == 0,
            r.view().state(0) == NodeState::Inactive,
            r.view().unstake_nonces[0] == 0,
            r.view().stake_per_node == 0,
            r.view().service_fee == 0,
    {
        let mut states: Vec<NodeState> = Vec::new();
        states.push(NodeState::Inactive);
        let mut unstake_nonces: Vec<u64> = Vec::new();
        unstake_nonces.push(0);
        NodeRegistry { bls_keys: Vec::new(), signatures: Vec::new(), states, unstake_nonces, stake_per_node: 0, service_fee: 0 }
    }

    /// A copy of the registry.
    pub fn duplicate(&self) -> (r: NodeRegistry)
        ensures
            r.view() == self.view(),
    {
        let mut bls_keys: Vec<BLSKey> = Vec::new();
        let mut signatures: Vec<Vec<u8>> = Vec::new();
        let mut i: usize = 0;
        while i < self.bls_keys.len()
            invariant
                i <= self.bls_keys@.len(),
                bls_keys@.len() == i,
                forall|j: int| 0 <= j < i ==> (#[trigger] bls_keys@[j]).view() == self.bls_keys@[j].view(),
            decreases self.bls_keys@.len() - i,
        {
            bls_keys.push(self.bls_keys[i].duplicate());
            i = i + 1;
        }
        let mut i: usize = 0;
        while i < self.signatures.len()
            invariant
                i <= self.signatures@.len(),
                signatures@.len() == i,
                forall|j: int| 0 <= j < i ==> (#[trigger] signatures@[j])@ == self.signatures@[j]@,
            decreases self.signatures@.len() - i,
        {
            signatures.push(copy_bytes(&self.signatures[i]));
            i = i + 1;
        }
        let states = self.states.clone();
        let unstake_nonces = self.unstake_nonces.clone();
        assert(states@ =~= self.states@);
        assert(unstake_nonces@ =~= self.unstake_nonces@);
        let r = NodeRegistry {
            bls_keys,
            signatures,
            states,
            unstake_nonces,
            stake_per_node: self.stake_per_node,
            service_fee: self.service_fee,
        };
        assert(r.view().keys =~= self.view().keys);
        assert(r.view().sigs =~= self.view().sigs);
        r
    }

    /// Number of nodes, removed ones included.
    pub fn get_num_nodes(&self) -> (r: usize)
        ensures
            r == self.view().num_nodes(),
    {
        self.bls_keys.len()
    }

    /// Id of the node with key `bls_key`, 0 when it is not registered.
    pub fn get_node_id(&self, bls_key: &BLSKey) -> (r: usize)
        requires
            self.wf(),
        ensures
            r == node_id_of(self.view().keys, bls_key.view()),
    {
        let ghost keys = self.view().keys;
        let mut i: usize = 0;
        while i < self.bls_keys.len()
            invariant
                i <= self.bls_keys@.len(),
                keys == self.view().keys,
                keys_distinct(keys),
                keys.len() == self.bls_keys@.len(),
                forall|j: int| 0 <= j < i ==> keys[j] != bls_key.view(),
            decreases self.bls_keys@.len() - i,
        {
            if self.bls_keys[i].same_key(bls_key) {
                proof {
                    lemma_node_id_at(keys, i as int);
                }
                return i + 1;
            }
            i = i + 1;
        }
        0
    }
}

/// Whether every node is inactive or removed.
pub open spec fn all_idle(v: NodeView) -> bool {
    forall|id: int| 1 <= id <= v.num_nodes() ==> (#[trigger] v.state(id) == NodeState::Inactive || v.state(id) == NodeState::Removed)
}

/// The key and the one-byte state code of every node, in id order.
pub open spec fn all_node_states(v: NodeView) -> Seq<Seq<u8>> {
    Seq::new((2 * v.num_nodes()) as nat, |i: int| if i % 2 == 0 { v.keys[i / 2] } else { seq![node_state_code(v.state(i / 2 + 1))] })
}

impl NodeRegistry {
    /// State of node `node_id`.
    pub fn node_state(&self, node_id: usize) -> (r: NodeState)
        requires
            self.wf(),
            node_id <= self.view().num_nodes(),
        ensures
            r == self.view().state(node_id as int),
    {
        self.states[node_id]
    }

    /// Sets the state of node `node_id`.
    pub fn set_node_state(&mut self, node_id: usize, state: NodeState)
        requires
            old(self).wf(),
            node_id <= old(self).view().num_nodes(),
        ensures
            final(self).wf(),
            final(self).view() == (NodeView { states: old(self).view().states.update(node_id as int, state), ..old(self).view() }),
    {
        self.states.set(node_id, state);
        assert(self.view().keys =~= old(self).view().keys);
        assert(self.view().sigs =~= old(self).view().sigs);
    }

    /// Block of the unstake of node `node_id`.
    pub fn node_unstake_nonce(&self, node_id: usize) -> (r: u64)
        requires
            self.wf(),
            node_id <= self.view().num_nodes(),
        ensures
            r == self.view().unstake_nonces[node_id as int],
    {
        self.unstake_nonces[node_id]
    }

    /// Sets the block of the unstake of node `node_id`.
    pub fn set_node_unstake_nonce(&mut self, node_id: usize, nonce: u64)
        requires
            old(self).wf(),
            node_id <= old(self).view().num_nodes(),
        ensures
            final(self).wf(),
            final(self).view() == (NodeView {
                unstake_nonces: old(self).view().unstake_nonces.update(node_id as int, nonce),
                ..old(self).view()
            }),
    {
        self.unstake_nonces.set(node_id, nonce);
        assert(self.view().keys =~= old(self).view().keys);
        assert(self.view().sigs =~= old(self).view().sigs);
    }

    /// Signature of node `node_id`: 32 zero bytes for id 0.
    pub fn node_signature(&self, node_id: usize) -> (r: Vec<u8>)
        requires
            self.wf(),
            node_id <= self.view().num_nodes(),
        ensures
            r@ == self.view().sig(node_id as int),
    {
        if node_id == 0 {
            let mut r: Vec<u8> = Vec::new();
            while r.len() < BLS_SIGNATURE_BYTE_LENGTH
                invariant
                    r@.len() <= BLS_SIGNATURE_BYTE_LENGTH,
                    forall|j: int| 0 <= j < r@.len() ==> r@[j] == 0,
                decreases BLS_SIGNATURE_BYTE_LENGTH - r@.len(),
            {
                r.push(0);
            }
            assert(r@ =~= self.view().sig(0));
            r
        } else {
            copy_bytes(&self.signatures[node_id - 1])
        }
    }

    /// Key of node `node_id`.
    pub fn node_bls(&self, node_id: usize) -> (r: BLSKey)
        requires
            self.wf(),
            1 <= node_id <= self.view().num_nodes(),
        ensures
            r.view() == self.view().keys[node_id - 1],
    {
        self.bls_keys[node_id - 1].duplicate()
    }

    /// Signature of the node with key `bls_key`; none when it is not registered.
    pub fn get_node_signature(&self, bls_key: &BLSKey) -> (r: Option<Vec<u8>>)
        requires
            self.wf(),
        ensures
            ({
                let id = node_id_of(self.view().keys, bls_key.view());
                &&& id == 0 ==> r is None
                &&& id != 0 ==> (r matches Some(sig) && sig@ == self.view().sig(id))
            }),
    {
        let node_id = self.get_node_id(bls_key);
        if node_id == 0 {
            None
        } else {
            proof {
                lemma_node_id_bounded(self.view().keys, bls_key.view());
            }
            Some(self.node_signature(node_id))
        }
    }

    /// State of the node with key `bls_key`; removed when it is not registered.
    pub fn get_node_state(&self, bls_key: &BLSKey) -> (r: NodeState)
        requires
            self.wf(),
        ensures
            ({
                let id = node_id_of(self.view().keys, bls_key.view());
                r == if id == 0 { NodeState::Removed } else { self.view().state(id) }
            }),
    {
        let node_id = self.get_node_id(bls_key);
        if node_id == 0 {
            NodeState::Removed
        } else {
            proof {
                lemma_node_id_bounded(self.view().keys, bls_key.view());
            }
            self.node_state(node_id)
        }
    }

    /// Block of the unstake of the node with key `bls_key`; 0 when it is not registered.
    pub fn get_node_block_nonce_of_unstake(&self, bls_key: &BLSKey) -> (r: u64)
        requires
            self.wf(),
        ensures
            ({
                let id = node_id_of(self.view().keys, bls_key.view());
                r == if id == 0 { 0 } else { self.view().unstake_nonces[id] }
            }),
    {
        let node_id = self.get_node_id(bls_key);
        if node_id == 0 {
            0
        } else {
            proof {
                lemma_node_id_bounded(self.view().keys, bls_key.view());
            }
            self.node_unstake_nonce(node_id)
        }
    }

    /// Whether all nodes are inactive or removed.
    pub fn all_nodes_idle(&self) -> (r: bool)
        requires
            self.wf(),
        ensures
            r == all_idle(self.view()),
    {
        let mut i = self.bls_keys.len();
        while i > 0
            invariant
                self.wf(),
                i <= self.view().num_nodes(),
                forall|id: int| i < id <= self.view().num_nodes() ==> (#[trigger] self.view().state(id) == NodeState::Inactive
                    || self.view().state(id) == NodeState::Removed),
            decreases i,
        {
            let node_state = self.states[i];
            if node_state != NodeState::Inactive && node_state != NodeState::Removed {
                assert(!(self.view().state(i as int) == NodeState::Inactive || self.view().state(i as int) == NodeState::Removed));
                return false;
            }
            i = i - 1;
        }
        true
    }

    /// For every node, in id order, its key and then its state code as one byte.
    pub fn get_all_node_states(&self) -> (r: Vec<Vec<u8>>)
        requires
            self.wf(),
        ensures
            r@.map_values(|b: Vec<u8>| b@) == all_node_states(self.view()),
    {
        let n = self.bls_keys.len();
        let mut result: Vec<Vec<u8>> = Vec::new();
        let mut i: usize = 0;
        while i < n
            invariant
                self.wf(),
                n == self.view().num_nodes(),
                0 <= i <= n,
                result@.len() == 2 * i,
                forall|j: int| 0 <= j < result@.len() ==> (#[trigger] result@[j])@ == all_node_states(self.view())[j],
            decreases n - i,
        {
            result.push(self.bls_keys[i].to_vec());
            let mut code: Vec<u8> = Vec::new();
            code.push(self.states[i + 1].to_u8());
            result.push(code);
            proof {
                assert(code@ =~= seq![node_state_code(self.view().state(i + 1))]);
            }
            i = i + 1;
        }
        assert(result@.map_values(|b: Vec<u8>| b@) =~= all_node_states(self.view()));
        result
    }

    /// Lets the owner set the service fee, per 10000, while all nodes are idle.
    pub fn set_service_fee(&mut self, settings: &Settings, caller: &Vec<u8>, service_fee_per_10000: usize) -> (r: Result<(), &'static str>)
        requires
            old(self).wf(),
        ensures
            final(self).wf(),
            caller@ != settings.owner@ ==> r == Err::<(), &'static str>("only owner can change service fee"),
            caller@ == settings.owner@ && service_fee_per_10000 > SERVICE_FEE_DENOMINATOR ==> r == Err::<(), &'static str>(
                "node share out of range",
            ),
            caller@ == settings.owner@ && service_fee_per_10000 <= SERVICE_FEE_DENOMINATOR && !all_idle(old(self).view())
                ==> r == Err::<(), &'static str>("cannot change service fee while at least one node is active"),
            r is Ok <==> (caller@ == settings.owner@ && service_fee_per_10000 <= SERVICE_FEE_DENOMINATOR && all_idle(
                old(self).view(),
            )),
            final(self).view() == if r is Ok {
                NodeView { service_fee: service_fee_per_10000 as u128, ..old(self).view() }
            } else {
                old(self).view()
            },
    {
        if !settings.owner_called(caller) {
            return Err("only owner can change service fee");
        }
        if service_fee_per_10000 as u128 > SERVICE_FEE_DENOMINATOR {
            return Err("node share out of range");
        }
        if !self.all_nodes_idle() {
            return Err("cannot change service fee while at least one node is active");
        }
        self.service_fee = service_fee_per_10000 as u128;
        Ok(())
    }

    /// Lets the owner set the stake of one node, while all nodes are idle.
    pub fn set_stake_per_node(&mut self, settings: &Settings, caller: &Vec<u8>, stake_per_node: u128) -> (r: Result<(), &'static str>)
        requires
            old(self).wf(),
        ensures
            final(self).wf(),
            caller@ != settings.owner@ ==> r == Err::<(), &'static str>("only owner can change stake per node"),
            caller@ == settings.owner@ && !all_idle(old(self).view()) ==> r == Err::<(), &'static str>(
                "cannot change stake per node while at least one node is active",
            ),
            r is Ok <==> (caller@ == settings.owner@ && all_idle(old(self).view())),
            final(self).view() == if r is Ok {
                NodeView { stake_per_node, ..old(self).view() }
            } else {
                old(self).view()
            },
    {
        if !settings.owner_called(caller) {
            return Err("only owner can change stake per node");
        }
        if !self.all_nodes_idle() {
            return Err("cannot change stake per node while at least one node is active");
        }
        self.stake_per_node = stake_per_node;
        Ok(())
    }
}

/// A registered key has an id among the nodes.
pub proof fn lemma_node_id_bounded(keys: Seq<Seq<u8>>, k: Seq<u8>)
    ensures
        0 <= node_id_of(keys, k) <= keys.len(),
        node_id_of(keys, k) != 0 ==> keys[node_id_of(keys, k) - 1] == k,
{
}

/// Registers one key with its signature: a new key becomes a new inactive node, a removed
/// node becomes inactive again; the signature is then stored for the node.
pub open spec fn add_pair(v: NodeView, key: Seq<u8>, sig: Seq<u8>) -> Result<NodeView, Seq<char>> {
    if key.len() != BLS_KEY_BYTE_LENGTH {
        Err("bad BLS key length"@)
    } else {
        let id = node_id_of(v.keys, key);
        let registered = if id == 0 {
            Ok(
                NodeView {
                    keys: v.keys.push(key),
                    sigs: v.sigs.push(Seq::empty()),
                    states: v.states.push(NodeState::Inactive),
                    unstake_nonces: v.unstake_nonces.push(0),
                    ..v
                },
            )
        } else if v.state(id) == NodeState::Removed {
            Ok(NodeView { states: v.states.update(id, NodeState::Inactive), ..v })
        } else {
            Err("node already registered"@)
        };
        let new_id: int = if id == 0 { v.keys.len() as int + 1 } else { id };
        match registered {
            Err(e) => Err(e),
            Ok(w) => if sig.len() != BLS_SIGNATURE_BYTE_LENGTH {
                Err("wrong size BLS signature"@)
            } else {
                Ok(NodeView { sigs: w.sigs.update(new_id - 1, sig), ..w })
            },
        }
    }
}

/// The first `k` key and signature pairs of `args` registered in turn; the first error stops.
pub open spec fn add_pairs(v: NodeView, args: Seq<Seq<u8>>, k: nat) -> Result<NodeView, Seq<char>>
    decreases k,
{
    if k == 0 {
        Ok(v)
    } else {
        match add_pairs(v, args, (k - 1) as nat) {
            Err(e) => Err(e),
            Ok(w) => add_pair(w, args[2 * k - 2], args[2 * k - 1]),
        }
    }
}

/// Once registering fails, it fails with the same error whatever follows.
pub proof fn lemma_add_pairs_err(v: NodeView, args: Seq<Seq<u8>>, j: nat, k: nat)
    requires
        j <= k,
        add_pairs(v, args, j) is Err,
    ensures
        add_pairs(v, args, k) == add_pairs(v, args, j),
    decreases k - j,
{
    if j < k {
        lemma_add_pairs_err(v, args, j, (k - 1) as nat);
    }
}

impl NodeRegistry {
    /// Registers one key with its signature, as `add_pair` says. On error the registry is
    /// left in some state that the caller discards.
    fn add_one(&mut self, key_bytes: &Vec<u8>, sig_bytes: &Vec<u8>) -> (r: Result<(), &'static str>)
        requires
            old(self).wf(),
        ensures
            final(self).wf(),
            match r {
                Ok(()) => add_pair(old(self).view(), key_bytes@, sig_bytes@) == Ok::<NodeView, Seq<char>>(final(self).view()),
                Err(e) => add_pair(old(self).view(), key_bytes@, sig_bytes@) == Err::<NodeView, Seq<char>>(e@),
            },
    {
        let ghost v = self.view();
        let key = match BLSKey::from_bytes(key_bytes) {
            Ok(k) => k,
            Err(e) => {
                return Err(e);
            },
        };
        let mut node_id = self.get_node_id(&key);
        proof {
            lemma_node_id_bounded(v.keys, key.view());
        }
        if node_id == 0 {
            self.bls_keys.push(key);
            self.signatures.push(Vec::new());
            self.states.push(NodeState::Inactive);
            self.unstake_nonces.push(0);
            node_id = self.bls_keys.len();
            proof {
                let w = self.view();
                assert(w.keys =~= v.keys.push(key_bytes@));
                assert(w.sigs =~= v.sigs.push(Seq::empty()));
                assert(keys_distinct(w.keys)) by {
                    assert forall|i: int, j: int| 0 <= i < w.keys.len() && 0 <= j < w.keys.len() && i != j implies w.keys[i]
                        != w.keys[j] by {
                        if i < v.keys.len() && j < v.keys.len() {
                        } else if i < v.keys.len() {
                            assert(has_key(v.keys, w.keys[i]));
                        } else {
                            assert(has_key(v.keys, w.keys[j]));
                        }
                    }
                }
            }
        } else if self.states[node_id] == NodeState::Removed {
            self.states.set(node_id, NodeState::Inactive);
            assert(self.view().keys =~= v.keys);
            assert(self.view().sigs =~= v.sigs);
        } else {
            return Err("node already registered");
        }
        let ghost w = self.view();
        if sig_bytes.len() != BLS_SIGNATURE_BYTE_LENGTH {
            return Err("wrong size BLS signature");
        }
        self.signatures.set(node_id - 1, copy_bytes(sig_bytes));
        proof {
            assert(self.view().keys =~= w.keys);
            assert(self.view().sigs =~= w.sigs.update(node_id - 1, sig_bytes@));
        }
        Ok(())
    }

    /// Lets the owner register nodes: `bls_keys_signatures` alternates keys and their
    /// signatures. A new key gets the next id, inactive; a removed node becomes inactive
    /// again. On any error nothing changes.
    pub fn add_nodes(&mut self, settings: &Settings, caller: &Vec<u8>, bls_keys_signatures: &Vec<Vec<u8>>) -> (r: Result<(), &'static str>)
        requires
            old(self).wf(),
        ensures
            final(self).wf(),
            ({
                let args = bls_keys_signatures@.map_values(|b: Vec<u8>| b@);
                let outcome = add_pairs(old(self).view(), args, (args.len() / 2) as nat);
                if caller@ != settings.owner@ {
                    r matches Err(e) && e@ == "only owner can add nodes"@ && final(self).view() == old(self).view()
                } else if args.len() % 2 != 0 {
                    r matches Err(e) && e@ == "even number of arguments expected"@ && final(self).view() == old(self).view()
                } else {
                    match outcome {
                        Ok(w) => r is Ok && final(self).view() == w,
                        Err(m) => r matches Err(e) && e@ == m && final(self).view() == old(self).view(),
                    }
                }
            }),
    {
        let ghost args = bls_keys_signatures@.map_values(|b: Vec<u8>| b@);
        if !settings.owner_called(caller) {
            return Err("only owner can add nodes");
        }
        if bls_keys_signatures.len() % 2 != 0 {
            return Err("even number of arguments expected");
        }
        let mut work = self.duplicate();
        let n_pairs = bls_keys_signatures.len() / 2;
        let mut k: usize = 0;
        while k < n_pairs
            invariant
                work.wf(),
                self.wf(),
                self.view() == old(self).view(),
                caller@ == settings.owner@,
                args.len() % 2 == 0,
                n_pairs == args.len() / 2,
                args.len() == bls_keys_signatures@.len(),
                args == bls_keys_signatures@.map_values(|b: Vec<u8>| b@),
                k <= n_pairs,
                add_pairs(self.view(), args, k as nat) == Ok::<NodeView, Seq<char>>(work.view()),
            decreases n_pairs - k,
        {
            assert(2 * k + 1 < bls_keys_signatures.len()) by (nonlinear_arith)
                requires
                    k < n_pairs,
                    n_pairs == bls_keys_signatures.len() / 2,
            ;
            let res = work.add_one(&bls_keys_signatures[2 * k], &bls_keys_signatures[2 * k + 1]);
            assert(args[2 * k as int] == bls_keys_signatures@[2 * k as int]@);
            assert(args[2 * k + 1] == bls_keys_signatures@[2 * k + 1]@);
            assert(add_pairs(self.view(), args, (k + 1) as nat) == add_pair(
                add_pairs(self.view(), args, k as nat)->Ok_0,
                args[2 * k as int],
                args[2 * k + 1],
            ));
            match res {
                Ok(()) => {},
                Err(e) => {
                    proof {
                        lemma_add_pairs_err(self.view(), args, (k + 1) as nat, n_pairs as nat);
                    }
                    return Err(e);
                },
            }
            k = k + 1;
        }
        *self = work;
        Ok(())
    }
}

/// Removes one node: it must be registered and inactive.
pub open spec fn remove_one(v: NodeView, key: Seq<u8>) -> Result<NodeView, Seq<char>> {
    let id = node_id_of(v.keys, key);
    if id == 0 {
        Err("node not registered"@)
    } else if v.state(id) != NodeState::Inactive {
        Err("only inactive nodes can be removed"@)
    } else {
        Ok(NodeView { states: v.states.update(id, NodeState::Removed), ..v })
    }
}

/// The first `k` keys removed in turn; the first error stops.
pub open spec fn remove_keys(v: NodeView, keys: Seq<Seq<u8>>, k: nat) -> Result<NodeView, Seq<char>>
    decreases k,
{
    if k == 0 {
        Ok(v)
    } else {
        match remove_keys(v, keys, (k - 1) as nat) {
            Err(e) => Err(e),
            Ok(w) => remove_one(w, keys[k - 1]),
        }
    }
}

/// Once removing fails, it fails with the same error whatever follows.
pub proof fn lemma_remove_keys_err(v: NodeView, keys: Seq<Seq<u8>>, j: nat, k: nat)
    requires
        j <= k,
        remove_keys(v, keys, j) is Err,
    ensures
        remove_keys(v, keys, k) == remove_keys(v, keys, j),
    decreases k - j,
{
    if j < k {
        lemma_remove_keys_err(v, keys, j, (k - 1) as nat);
    }
}

/// The active nodes, from id `i` down, taken until their stake, added to `acc`, covers `requested`.
pub open spec fn unstake_pick(v: NodeView, requested: int, i: int, acc: int) -> Seq<usize>
    decreases i,
{
    if i <= 0 || acc >= requested {
        Seq::empty()
    } else if v.state(i) == NodeState::Active {
        seq![i as usize] + unstake_pick(v, requested, i - 1, acc + v.stake_per_node)
    } else {
        unstake_pick(v, requested, i - 1, acc)
    }
}

impl NodeRegistry {
    /// Lets the owner remove inactive nodes. On any error nothing changes.
    pub fn remove_nodes(&mut self, settings: &Settings, caller: &Vec<u8>, bls_keys: &Vec<BLSKey>) -> (r: Result<(), &'static str>)
        requires
            old(self).wf(),
        ensures
            final(self).wf(),
            ({
                let keys = bls_keys@.map_values(|k: BLSKey| k.view());
                if caller@ != settings.owner@ {
                    r matches Err(e) && e@ == "only owner can remove nodes"@ && final(self).view() == old(self).view()
                } else {
                    match remove_keys(old(self).view(), keys, keys.len()) {
                        Ok(w) => r is Ok && final(self).view() == w,
                        Err(m) => r matches Err(e) && e@ == m && final(self).view() == old(self).view(),
                    }
                }
            }),
    {
        let ghost keys = bls_keys@.map_values(|k: BLSKey| k.view());
        if !settings.owner_called(caller) {
            return Err("only owner can remove nodes");
        }
        let mut work = self.duplicate();
        let mut k: usize = 0;
        while k < bls_keys.len()
            invariant
                work.wf(),
                self.wf(),
                self.view() == old(self).view(),
                caller@ == settings.owner@,
                keys == bls_keys@.map_values(|k: BLSKey| k.view()),
                k <= bls_keys@.len(),
                remove_keys(self.view(), keys, k as nat) == Ok::<NodeView, Seq<char>>(work.view()),
            decreases bls_keys@.len() - k,
        {
            let ghost w = work.view();
            let node_id = work.get_node_id(&bls_keys[k]);
            proof {
                lemma_node_id_bounded(w.keys, keys[k as int]);
            }
            if node_id == 0 {
                proof {
                    lemma_remove_keys_err(self.view(), keys, (k + 1) as nat, keys.len());
                }
                return Err("node not registered");
            }
            if work.node_state(node_id) != NodeState::Inactive {
                proof {
                    lemma_remove_keys_err(self.view(), keys, (k + 1) as nat, keys.len());
                }
                return Err("only inactive nodes can be removed");
            }
            work.set_node_state(node_id, NodeState::Removed);
            k = k + 1;
        }
        *self = work;
        Ok(())
    }

    /// Active nodes, from the highest id down, enough of them for their stake to cover
    /// `requested_stake` (all active nodes when they do not); with their keys.
    pub fn find_nodes_for_unstake(&self, requested_stake: u128) -> (r: (Vec<usize>, Vec<BLSKey>))
        requires
            self.wf(),
        ensures
            r.0@ == unstake_pick(self.view(), requested_stake as int, self.view().num_nodes(), 0),
            r.1@.len() == r.0@.len(),
            forall|j: int|
                #![trigger r.0@[j]]
                0 <= j < r.0@.len() ==> 1 <= r.0@[j] <= self.view().num_nodes() && r.1@[j].view() == self.view().keys[r.0@[j] - 1],
    {
        let ghost v = self.view();
        let mut node_ids: Vec<usize> = Vec::new();
        let mut bls_keys: Vec<BLSKey> = Vec::new();
        let mut i = self.bls_keys.len();
        let mut node_stake: u128 = 0;
        let ghost mut acc: int = 0;
        let stake_per_node = self.stake_per_node;
        while i > 0 && node_stake < requested_stake
            invariant
                self.wf(),
                v == self.view(),
                i <= v.num_nodes(),
                stake_per_node == v.stake_per_node,
                acc >= 0,
                node_stake == min_u128(acc),
                node_ids@ + unstake_pick(v, requested_stake as int, i as int, acc) == unstake_pick(
                    v,
                    requested_stake as int,
                    v.num_nodes(),
                    0,
                ),
                bls_keys@.len() == node_ids@.len(),
                forall|j: int|
                    #![trigger node_ids@[j]]
                    0 <= j < node_ids@.len() ==> i < node_ids@[j] <= v.num_nodes() && bls_keys@[j].view() == v.keys[node_ids@[j] - 1],
            decreases i,
        {
            let ghost prev = node_ids@;
            if self.states[i] == NodeState::Active {
                node_stake = node_stake.saturating_add(stake_per_node);
                node_ids.push(i);
                bls_keys.push(self.node_bls(i));
                proof {
                    let rest = unstake_pick(v, requested_stake as int, i - 1, acc + stake_per_node);
                    assert(seq![i as usize] + rest == unstake_pick(v, requested_stake as int, i as int, acc));
                    assert(node_ids@ + rest =~= prev + (seq![i as usize] + rest));
                    acc = acc + stake_per_node;
                }
            } else {
                assert(unstake_pick(v, requested_stake as int, i - 1, acc) == unstake_pick(v, requested_stake as int, i as int, acc));
            }
            i = i - 1;
        }
        proof {
            assert(unstake_pick(v, requested_stake as int, i as int, acc) =~= Seq::<usize>::empty());
            assert(node_ids@ + Seq::<usize>::empty() =~= node_ids@);
        }
        (node_ids, bls_keys)
    }
}

/// `acc` as a `u128`, stopping at its maximum.
pub open spec fn min_u128(acc: int) -> int {
    if acc > u128::MAX {
        u128::MAX as int
    } else {
        acc
    }
}

/// Whether id `i` is among `ids`.
pub open spec fn in_ids(ids: Seq<usize>, i: int) -> bool {
    exists|k: int| 0 <= k < ids.len() && #[trigger] ids[k] as int == i
}

/// Whether `p` is the first position of `x` in `s`.
pub open spec fn is_first_pos(s: Seq<usize>, x: usize, p: int) -> bool {
    0 <= p < s.len() && s[p] == x && forall|q: int| 0 <= q < p ==> s[q] != x
}

/// Marks node `id` as failed: if it is among the ids still counted as successful, its first
/// occurrence is replaced by the last id, and it joins the failed ones.
pub open spec fn fail_node(st: (Seq<usize>, Seq<usize>), id: usize) -> (Seq<usize>, Seq<usize>) {
    if st.0.contains(id) {
        let pos = choose|p: int| is_first_pos(st.0, id, p);
        (st.0.update(pos, st.0.last()).drop_last(), st.1.push(id))
    } else {
        st
    }
}

/// The first `k` key and status pairs of an auction reply applied in turn to the split of
/// node ids into successful and failed ones; a nonzero status marks the node as failed.
pub open spec fn split_pairs(keys: Seq<Seq<u8>>, ids: Seq<usize>, args: Seq<Seq<u8>>, k: nat) -> Result<
    (Seq<usize>, Seq<usize>),
    Seq<char>,
>
    decreases k,
{
    if k == 0 {
        Ok((ids, Seq::empty()))
    } else {
        match split_pairs(keys, ids, args, (k - 1) as nat) {
            Err(e) => Err(e),
            Ok(st) => {
                let key = args[2 * k - 2];
                let status = args[2 * k - 1];
                if key.len() != BLS_KEY_BYTE_LENGTH {
                    Err("bad BLS key length"@)
                } else if status.len() != 1 {
                    Err("node status expected as one byte"@)
                } else if status[0] > 0 {
                    Ok(fail_node(st, node_id_of(keys, key) as usize))
                } else {
                    Ok(st)
                }
            },
        }
    }
}

/// Once the split fails, it fails with the same error whatever follows.
pub proof fn lemma_split_pairs_err(keys: Seq<Seq<u8>>, ids: Seq<usize>, args: Seq<Seq<u8>>, j: nat, k: nat)
    requires
        j <= k,
        split_pairs(keys, ids, args, j) is Err,
    ensures
        split_pairs(keys, ids, args, k) == split_pairs(keys, ids, args, j),
    decreases k - j,
{
    if j < k {
        lemma_split_pairs_err(keys, ids, args, j, (k - 1) as nat);
    }
}

/// Moves node `id` from `ok` to `failed`, as `fail_node` says.
fn fail_node_exec(ok: &mut Vec<usize>, failed: &mut Vec<usize>, id: usize)
    ensures
        (final(ok)@, final(failed)@) == fail_node((old(ok)@, old(failed)@), id),
        forall|j: int| 0 <= j < final(ok)@.len() ==> in_ids(old(ok)@, #[trigger] final(ok)@[j] as int),
        forall|j: int|
            0 <= j < final(failed)@.len() ==> (j < old(failed)@.len() && #[trigger] final(failed)@[j] == old(failed)@[j]) || in_ids(
                old(ok)@,
                final(failed)@[j] as int,
            ),
{
    let mut p: usize = 0;
    while p < ok.len()
        invariant
            p <= ok@.len(),
            ok@ == old(ok)@,
            failed@ == old(failed)@,
            forall|q: int| 0 <= q < p ==> ok@[q] != id,
        decreases ok@.len() - p,
    {
        if ok[p] == id {
            proof {
                assert(is_first_pos(ok@, id, p as int));
                assert(ok@.contains(id));
                let c = choose|q: int| is_first_pos(ok@, id, q);
                assert(c == p) by {
                    if c < p {
                    } else if c > p {
                    }
                }
            }
            let ghost ok0 = ok@;
            let ghost f0 = failed@;
            ok.swap_remove(p);
            failed.push(id);
            proof {
                assert forall|j: int| 0 <= j < ok@.len() implies in_ids(ok0, #[trigger] ok@[j] as int) by {
                    if j == p {
                        assert(ok0[ok0.len() - 1] == ok@[j]);
                    } else {
                        assert(ok0[j] == ok@[j]);
                    }
                }
                assert forall|j: int| 0 <= j < failed@.len() implies (j < f0.len() && #[trigger] failed@[j] == f0[j]) || in_ids(
                    ok0,
                    failed@[j] as int,
                ) by {
                    if j == f0.len() {
                        assert(ok0[p as int] == failed@[j]);
                    }
                }
            }
            return;
        }
        p = p + 1;
    }
}

impl NodeRegistry {
    /// Splits `node_ids` by the statuses that the auction contract replied: pairs of a node key
    /// and a one-byte status, nonzero for a failure. Yields the ids that succeeded and those
    /// that failed; with no reply, all succeeded.
    pub fn split_node_ids_by_err(&self, node_ids: Vec<usize>, node_fail_map_raw: &Vec<Vec<u8>>) -> (r: Result<
        (Vec<usize>, Vec<usize>),
        &'static str,
    >)
        requires
            self.wf(),
        ensures
            ({
                let args = node_fail_map_raw@.map_values(|b: Vec<u8>| b@);
                if args.len() == 0 {
                    r matches Ok((ok, failed)) && ok@ == node_ids@ && failed@ == Seq::<usize>::empty()
                } else if args.len() % 2 != 0 {
                    r matches Err(e) && e@ == "even number of arguments expected in auction callback"@
                } else {
                    match split_pairs(self.view().keys, node_ids@, args, (args.len() / 2) as nat) {
                        Ok(st) => r matches Ok((ok, failed)) && ok@ == st.0 && failed@ == st.1,
                        Err(m) => r matches Err(e) && e@ == m,
                    }
                }
            }),
            r matches Ok((ok, failed)) ==> (forall|j: int| 0 <= j < ok@.len() ==> in_ids(node_ids@, #[trigger] ok@[j] as int)) && (
            forall|j: int| 0 <= j < failed@.len() ==> in_ids(node_ids@, #[trigger] failed@[j] as int)),
    {
        let ghost args = node_fail_map_raw@.map_values(|b: Vec<u8>| b@);
        let ghost ids0 = node_ids@;
        if node_fail_map_raw.len() == 0 {
            let none: Vec<usize> = Vec::new();
            assert(none@ =~= Seq::<usize>::empty());
            return Ok((node_ids, none));
        }
        if node_fail_map_raw.len() % 2 != 0 {
            return Err("even number of arguments expected in auction callback");
        }
        let mut ok = node_ids;
        let mut failed: Vec<usize> = Vec::new();
        let n_pairs = node_fail_map_raw.len() / 2;
        let mut k: usize = 0;
        while k < n_pairs
            invariant
                self.wf(),
                args == node_fail_map_raw@.map_values(|b: Vec<u8>| b@),
                args.len() % 2 == 0,
                args.len() > 0,
                ids0 == node_ids@,
                n_pairs == args.len() / 2,
                k <= n_pairs,
                split_pairs(self.view().keys, ids0, args, k as nat) == Ok::<(Seq<usize>, Seq<usize>), Seq<char>>((ok@, failed@)),
                forall|j: int| 0 <= j < ok@.len() ==> in_ids(ids0, #[trigger] ok@[j] as int),
                forall|j: int| 0 <= j < failed@.len() ==> in_ids(ids0, #[trigger] failed@[j] as int),
            decreases n_pairs - k,
        {
            assert(2 * k + 1 < node_fail_map_raw.len()) by (nonlinear_arith)
                requires
                    k < n_pairs,
                    n_pairs == node_fail_map_raw.len() / 2,
            ;
            assert(args[2 * k as int] == node_fail_map_raw@[2 * k as int]@);
            assert(args[2 * k + 1] == node_fail_map_raw@[2 * k + 1]@);
            let key = match BLSKey::from_bytes(&node_fail_map_raw[2 * k]) {
                Ok(key) => key,
                Err(e) => {
                    proof {
                        lemma_split_pairs_err(self.view().keys, ids0, args, (k + 1) as nat, n_pairs as nat);
                    }
                    return Err(e);
                },
            };
            let node_id = self.get_node_id(&key);
            let status = &node_fail_map_raw[2 * k + 1];
            if status.len() != 1 {
                proof {
                    lemma_split_pairs_err(self.view().keys, ids0, args, (k + 1) as nat, n_pairs as nat);
                }
                return Err("node status expected as one byte");
            }
            if status[0] > 0 {
                proof {
                    lemma_node_id_bounded(self.view().keys, key.view());
                }
                let ghost ok_before = ok@;
                let ghost failed_before = failed@;
                fail_node_exec(&mut ok, &mut failed, node_id);
                proof {
                    assert forall|j: int| 0 <= j < ok@.len() implies in_ids(ids0, #[trigger] ok@[j] as int) by {
                        let q = choose|q: int| 0 <= q < ok_before.len() && #[trigger] ok_before[q] as int == ok@[j] as int;
                        assert(in_ids(ids0, ok_before[q] as int));
                    }
                    assert forall|j: int| 0 <= j < failed@.len() implies in_ids(ids0, #[trigger] failed@[j] as int) by {
                        if j < failed_before.len() && failed@[j] == failed_before[j] {
                            assert(in_ids(ids0, failed_before[j] as int));
                        } else {
                            let q = choose|q: int| 0 <= q < ok_before.len() && #[trigger] ok_before[q] as int == failed@[j] as int;
                            assert(in_ids(ids0, ok_before[q] as int));
                        }
                    }
                }
            }
            k = k + 1;
        }
        Ok((ok, failed))
    }
}

/// An element found at `i` has a first position.
pub proof fn lemma_first_pos_exists(s: Seq<usize>, x: usize, i: int)
    requires
        0 <= i < s.len(),
        s[i] == x,
    ensures
        exists|p: int| is_first_pos(s, x, p),
    decreases i,
{
    if exists|q: int| 0 <= q < i && s[q] == x {
        let q = choose|q: int| 0 <= q < i && s[q] == x;
        lemma_first_pos_exists(s, x, q);
    } else {
        assert(is_first_pos(s, x, i));
    }
}

/// Splitting node ids by an auction reply loses and adds none: the successful and the failed
/// ones together are as many as the ids given.
pub proof fn law_split_keeps_count(keys: Seq<Seq<u8>>, ids: Seq<usize>, args: Seq<Seq<u8>>, k: nat)
    requires
        split_pairs(keys, ids, args, k) is Ok,
    ensures
        split_pairs(keys, ids, args, k)->Ok_0.0.len() + split_pairs(keys, ids, args, k)->Ok_0.1.len() == ids.len(),
    decreases k,
{
    if k > 0 {
        law_split_keeps_count(keys, ids, args, (k - 1) as nat);
        let st = split_pairs(keys, ids, args, (k - 1) as nat)->Ok_0;
        let key = args[2 * k - 2];
        let id = node_id_of(keys, key) as usize;
        if st.0.contains(id) {
            let i = choose|i: int| 0 <= i < st.0.len() && st.0[i] == id;
            lemma_first_pos_exists(st.0, id, i);
            let pos = choose|p: int| is_first_pos(st.0, id, p);
            assert(is_first_pos(st.0, id, pos));
        }
    }
}

/// Whether `key` is registered, inactive, with signature `sig`.
pub open spec fn registered_with(w: NodeView, key: Seq<u8>, sig: Seq<u8>) -> bool {
    let id = node_id_of(w.keys, key);
    &&& id != 0
    &&& w.state(id) == NodeState::Inactive
    &&& w.sig(id) == sig
}

/// A successful registration leaves every key it was given registered, inactive, with the
/// signature given with it.
pub proof fn law_added_nodes_registered(v: NodeView, args: Seq<Seq<u8>>, k: nat)
    requires
        v.valid(),
        add_pairs(v, args, k) is Ok,
    ensures
        add_pairs(v, args, k)->Ok_0.valid(),
        forall|j: int| 0 <= j < k ==> #[trigger] registered_with(add_pairs(v, args, k)->Ok_0, args[2 * j], args[2 * j + 1]),
    decreases k,
{
    if k > 0 {
        let k1 = (k - 1) as nat;
        law_added_nodes_registered(v, args, k1);
        let w0 = add_pairs(v, args, k1)->Ok_0;
        let w = add_pairs(v, args, k)->Ok_0;
        let key = args[2 * k - 2];
        let id0 = node_id_of(w0.keys, key);
        lemma_node_id_bounded(w0.keys, key);
        let new_id: int = if id0 == 0 { w0.keys.len() as int + 1 } else { id0 };
        assert(w.keys == (if id0 == 0 { w0.keys.push(key) } else { w0.keys }));
        assert(keys_distinct(w.keys)) by {
            if id0 == 0 {
                assert forall|i: int, j: int| 0 <= i < w.keys.len() && 0 <= j < w.keys.len() && i != j implies w.keys[i] != w.keys[j] by {
                    if i < w0.keys.len() && j < w0.keys.len() {
                    } else if i < w0.keys.len() {
                        assert(has_key(w0.keys, w.keys[i]));
                    } else {
                        assert(has_key(w0.keys, w.keys[j]));
                    }
                }
            }
        }
        assert(node_id_of(w.keys, key) == new_id) by {
            lemma_node_id_at(w.keys, new_id - 1);
        }
        assert forall|j: int| 0 <= j < k implies #[trigger] registered_with(w, args[2 * j], args[2 * j + 1]) by {
            if j < k - 1 {
                let kj = args[2 * j];
                let idj = node_id_of(w0.keys, kj);
                assert(registered_with(w0, args[2 * j], args[2 * j + 1]));
                assert(idj != 0 && w0.state(idj) == NodeState::Inactive);
                lemma_node_id_bounded(w0.keys, kj);
                lemma_node_id_at(w0.keys, idj - 1);
                assert(w.keys[idj - 1] == kj);
                lemma_node_id_at(w.keys, idj - 1);
                if idj == new_id {
                    assert(id0 != 0);
                    assert(w0.state(id0) == NodeState::Inactive);
                }
            }
        }
    }
}

impl NodeRegistry {
    /// The service fee, per 10000.
    pub fn get_service_fee(&self) -> (r: u128)
        ensures
            r == self.service_fee,
    {
        self.service_fee
    }

    /// The stake each node needs.
    pub fn get_stake_per_node(&self) -> (r: u128)
        ensures
            r == self.stake_per_node,
    {
        self.stake_per_node
    }
}

/// The nodes picked for an unstake are active, at most `i`, and in strictly decreasing order.
pub proof fn lemma_unstake_pick_active(v: NodeView, requested: int, i: int, acc: int)
    requires
        v.valid(),
        i <= v.num_nodes(),
        i <= usize::MAX,
    ensures
        forall|j: int|
            0 <= j < unstake_pick(v, requested, i, acc).len() ==> 1 <= #[trigger] unstake_pick(v, requested, i, acc)[j] <= i
                && v.state(unstake_pick(v, requested, i, acc)[j] as int) == NodeState::Active,
        forall|j: int, k: int|
            0 <= j < k < unstake_pick(v, requested, i, acc).len() ==> unstake_pick(v, requested, i, acc)[j] > unstake_pick(
                v,
                requested,
                i,
                acc,
            )[k],
    decreases i,
{
    if i <= 0 || acc >= requested {
    } else if v.state(i) == NodeState::Active {
        lemma_unstake_pick_active(v, requested, i - 1, acc + v.stake_per_node);
        let rest = unstake_pick(v, requested, i - 1, acc + v.stake_per_node);
        let all = unstake_pick(v, requested, i, acc);
        assert(all == seq![i as usize] + rest);
        assert forall|j: int, k: int| 0 <= j < k < all.len() implies all[j] > all[k] by {
            if j == 0 {
                assert(all[k] == rest[k - 1]);
            } else {
                assert(all[j] == rest[j - 1] && all[k] == rest[k - 1]);
            }
        }
        assert forall|j: int| 0 <= j < all.len() implies 1 <= #[trigger] all[j] <= i && v.state(all[j] as int) == NodeState::Active by {
            if j > 0 {
                assert(all[j] == rest[j - 1]);
            }
        }
    } else {
        lemma_unstake_pick_active(v, requested, i - 1, acc);
    }
}

} // verus!
