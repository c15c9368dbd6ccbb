use vstd::prelude::*;
use crate::codec::{DecodeError, read_byte};

verus! {

/// Status of a validator node.
#[derive(PartialEq, Eq, Structural, Clone, Copy, Debug)]
pub enum NodeState {
    /// Registered in delegation, but not in the auction contract.
    Inactive,
    /// Stake call to the auction contract sent, callback not received yet.
    PendingActivation,
    /// Registered in the auction contract, active and producing rewards.
    Active,
    /// Unstake call to the auction contract sent, callback not received yet.
    PendingDeactivation,
    /// No rewards any more; waiting before the stake can be retrieved.
    UnBondPeriod,
    /// Unbond call to the auction contract sent, callback not received yet.
    PendingUnBond,
    /// Removed from the delegation contract.
    Removed,
    /// Stake sent to the auction contract, but the transaction failed for the node.
    ActivationFailed,
}

pub open spec fn node_state_code(s: NodeState) -> u8 {
    match s {
        NodeState::Inactive => 0,
        NodeState::PendingActivation => 1,
        NodeState::Active => 2,
        NodeState::PendingDeactivation => 3,
        NodeState::UnBondPeriod => 4,
        NodeState::PendingUnBond => 5,
        NodeState::Removed => 6,
        NodeState::ActivationFailed => 7,
    }
}

impl NodeState {
    pub fn to_u8(&self) -> (r: u8)
        ensures
            r == node_state_code(*self),
    {
        match self {
            NodeState::Inactive => 0,
            NodeState::PendingActivation => 1,
            NodeState::Active => 2,
            NodeState::PendingDeactivation => 3,
            NodeState::UnBondPeriod => 4,
            NodeState::PendingUnBond => 5,
            NodeState::Removed => 6,
            NodeState::ActivationFailed => 7,
        }
    }

    /// The state with code `v`; codes above 7 are invalid.
    pub fn from_u8(v: u8) -> (r: Result<NodeState, DecodeError>)
        ensures
            v <= 7 ==> (r matches Ok(s) && node_state_code(s) == v),
            v > 7 ==> r == Err::<NodeState, DecodeError>(DecodeError::InvalidValue),
    {
        match v {
            0 => Ok(NodeState::Inactive),
            1 => Ok(NodeState::PendingActivation),
            2 => Ok(NodeState::Active),
            3 => Ok(NodeState::PendingDeactivation),
            4 => Ok(NodeState::UnBondPeriod),
            5 => Ok(NodeState::PendingUnBond),
            6 => Ok(NodeState::Removed),
            7 => Ok(NodeState::ActivationFailed),
            _ => Err(DecodeError::InvalidValue),
        }
    }
}

impl NodeState {
    /// Appends the one byte of this state: its code.
    pub fn dep_encode_to(&self, dest: &mut Vec<u8>)
        ensures
            final(dest)@ == old(dest)@.push(node_state_code(*self)),
    {
        dest.push(self.to_u8());
    }

    /// Reads a state at `pos`: one byte, which must be a valid code.
    pub fn dep_decode(input: &Vec<u8>, pos: usize) -> (r: Result<(NodeState, usize), DecodeError>)
        ensures
            pos >= input@.len() ==> r == Err::<(NodeState, usize), DecodeError>(DecodeError::InputTooShort),
            pos < input@.len() && input@[pos as int] > 7 ==> r == Err::<(NodeState, usize), DecodeError>(
                DecodeError::InvalidValue,
            ),
            pos < input@.len() && input@[pos as int] <= 7 ==> (r matches Ok((s, p)) && node_state_code(s) == input@[pos as int]
                && p == pos + 1),
    {
        let n = input.len();
        let (b, p) = match read_byte(input, pos) {
            Ok(x) => x,
            Err(e) => {
                return Err(e);
            },
        };
        match NodeState::from_u8(b) {
            Ok(s) => Ok((s, p)),
            Err(e) => Err(e),
        }
    }
}

/// Reading back the code of a node state gives the state back: codes are distinct.
pub proof fn lemma_node_state_code_injective(a: NodeState, b: NodeState)
    ensures
        node_state_code(a) == node_state_code(b) ==> a == b,
{
}

/// Status of stake, per user and in total.
#[derive(PartialEq, Eq, Structural, Clone, Copy, Debug)]
pub enum UserStakeState {
    /// Not staked.
    Inactive,
    /// Sent to the auction contract.
    PendingActivation,
    /// Locked in the protocol, producing rewards.
    Active,
    /// Unstake call sent.
    PendingDeactivation,
    /// Waiting before the stake can be retrieved.
    UnBondPeriod,
    /// Unbond call sent.
    PendingUnBond,
    /// Can only be withdrawn by the delegator.
    WithdrawOnly,
    /// Sent to the auction contract, but the transaction failed.
    ActivationFailed,
    /// Active, but offered for sale; its rewards go to the owner.
    ActiveForSale,
    /// Pending deactivation, coming from stake offered for sale.
    PendingDeactivationFromSale,
}

pub open spec fn user_stake_state_code(s: UserStakeState) -> u8 {
    match s {
        UserStakeState::Inactive => 0,
        UserStakeState::PendingActivation => 1,
        UserStakeState::Active => 2,
        UserStakeState::PendingDeactivation => 3,
        UserStakeState::UnBondPeriod => 4,
        UserStakeState::PendingUnBond => 5,
        UserStakeState::WithdrawOnly => 6,
        UserStakeState::ActivationFailed => 7,
        UserStakeState::ActiveForSale => 8,
        UserStakeState::PendingDeactivationFromSale => 9,
    }
}

impl UserStakeState {
    pub fn to_u8(&self) -> (r: u8)
        ensures
            r == user_stake_state_code(*self),
    {
        match self {
            UserStakeState::Inactive => 0,
            UserStakeState::PendingActivation => 1,
            UserStakeState::Active => 2,
            UserStakeState::PendingDeactivation => 3,
            UserStakeState::UnBondPeriod => 4,
            UserStakeState::PendingUnBond => 5,
            UserStakeState::WithdrawOnly => 6,
            UserStakeState::ActivationFailed => 7,
            UserStakeState::ActiveForSale => 8,
            UserStakeState::PendingDeactivationFromSale => 9,
        }
    }

    /// The state with code `v`; codes above 9 are invalid.
    pub fn from_u8(v: u8) -> (r: Result<UserStakeState, DecodeError>)
        ensures
            v <= 9 ==> (r matches Ok(s) && user_stake_state_code(s) == v),
            v > 9 ==> r == Err::<UserStakeState, DecodeError>(DecodeError::InvalidValue),
    {
        match v {
            0 => Ok(UserStakeState::Inactive),
            1 => Ok(UserStakeState::PendingActivation),
            2 => Ok(UserStakeState::Active),
            3 => Ok(UserStakeState::PendingDeactivation),
            4 => Ok(UserStakeState::UnBondPeriod),
            5 => Ok(UserStakeState::PendingUnBond),
            6 => Ok(UserStakeState::WithdrawOnly),
            7 => Ok(UserStakeState::ActivationFailed),
            8 => Ok(UserStakeState::ActiveForSale),
            9 => Ok(UserStakeState::PendingDeactivationFromSale),
            _ => Err(DecodeError::InvalidValue),
        }
    }
}

impl UserStakeState {
    /// Appends the one byte of this state: its code.
    pub fn dep_encode_to(&self, dest: &mut Vec<u8>)
        ensures
            final(dest)@ == old(dest)@.push(user_stake_state_code(*self)),
    {
        dest.push(self.to_u8());
    }

    /// Reads a state at `pos`: one byte, which must be a valid code.
    pub fn dep_decode(input: &Vec<u8>, pos: usize) -> (r: Result<(UserStakeState, usize), DecodeError>)
        ensures
            pos >= input@.len() ==> r == Err::<(UserStakeState, usize), DecodeError>(DecodeError::InputTooShort),
            pos < input@.len() && input@[pos as int] > 9 ==> r == Err::<(UserStakeState, usize), DecodeError>(
                DecodeError::InvalidValue,
            ),
            pos < input@.len() && input@[pos as int] <= 9 ==> (r matches Ok((s, p)) && user_stake_state_code(s) == input@[pos as int]
                && p == pos + 1),
    {
        let n = input.len();
        let (b, p) = match read_byte(input, pos) {
            Ok(x) => x,
            Err(e) => {
                return Err(e);
            },
        };
        match UserStakeState::from_u8(b) {
            Ok(s) => Ok((s, p)),
            Err(e) => Err(e),
        }
    }
}

/// Codes of user stake states are distinct.
pub proof fn lemma_user_stake_state_code_injective(a: UserStakeState, b: UserStakeState)
    ensures
        user_stake_state_code(a) == user_stake_state_code(b) ==> a == b,
{
}

/// Status of all the stake of the contract.
#[derive(PartialEq, Eq, Structural, Clone, Copy, Debug)]
pub enum StakeState {
    /// Users can add or withdraw stake; the owner can change the nodes.
    OpenForStaking,
    /// Stake locked, rewards coming in.
    Active,
    /// No rewards any more; waiting before the stake can be retrieved.
    UnBondPeriod,
}

pub open spec fn stake_state_code(s: StakeState) -> u8 {
    match s {
        StakeState::OpenForStaking => 0,
        StakeState::Active => 1,
        StakeState::UnBondPeriod => 2,
    }
}

impl StakeState {
    /// Whether users can still add or withdraw stake.
    pub fn is_open(&self) -> (r: bool)
        ensures
            r == (*self == StakeState::OpenForStaking),
    {
        match self {
            StakeState::OpenForStaking => true,
            _ => false,
        }
    }

    pub fn to_u8(&self) -> (r: u8)
        ensures
            r == stake_state_code(*self),
    {
        match self {
            StakeState::OpenForStaking => 0,
            StakeState::Active => 1,
            StakeState::UnBondPeriod => 2,
        }
    }

    /// The state with code `v`; codes above 2 are invalid.
    pub fn from_u8(v: u8) -> (r: Result<StakeState, DecodeError>)
        ensures
            v <= 2 ==> (r matches Ok(s) && stake_state_code(s) == v),
            v > 2 ==> r == Err::<StakeState, DecodeError>(DecodeError::InvalidValue),
    {
        match v {
            0 => Ok(StakeState::OpenForStaking),
            1 => Ok(StakeState::Active),
            2 => Ok(StakeState::UnBondPeriod),
            _ => Err(DecodeError::InvalidValue),
        }
    }
}

impl StakeState {
    /// Appends the one byte of this state: its code.
    pub fn dep_encode_to(&self, dest: &mut Vec<u8>)
        ensures
            final(dest)@ == old(dest)@.push(stake_state_code(*self)),
    {
        dest.push(self.to_u8());
    }

    /// Reads a state at `pos`: one byte, which must be a valid code.
    pub fn dep_decode(input: &Vec<u8>, pos: usize) -> (r: Result<(StakeState, usize), DecodeError>)
        ensures
            pos >= input@.len() ==> r == Err::<(StakeState, usize), DecodeError>(DecodeError::InputTooShort),
            pos < input@.len() && input@[pos as int] > 2 ==> r == Err::<(StakeState, usize), DecodeError>(
                DecodeError::InvalidValue,
            ),
            pos < input@.len() && input@[pos as int] <= 2 ==> (r matches Ok((s, p)) && stake_state_code(s) == input@[pos as int]
                && p == pos + 1),
    {
        let n = input.len();
        let (b, p) = match read_byte(input, pos) {
            Ok(x) => x,
            Err(e) => {
                return Err(e);
            },
        };
        match StakeState::from_u8(b) {
            Ok(s) => Ok((s, p)),
            Err(e) => Err(e),
        }
    }
}

/// Codes of stake states are distinct.
pub proof fn lemma_stake_state_code_injective(a: StakeState, b: StakeState)
    ensures
        stake_state_code(a) == stake_state_code(b) ==> a == b,
{
}

} // verus!
