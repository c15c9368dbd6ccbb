use vstd::prelude::*;

verus! {

/// Describes the source or intent of a unit of balance, together with the data
/// that the description carries.
#[derive(PartialEq, Eq, Structural, Clone, Copy, Debug)]
pub enum FundDescription {
    /// Funds that can only be extracted from the contract. Never used as stake.
    WithdrawOnly,
    /// Inactive stake, waiting in the queue to be activated.
    Waiting { created: u64 },
    /// Unused. Kept for serialization.
    _PendingAct,
    /// Unused. Kept for serialization.
    _ActiveFailed,
    /// Stake locked in the protocol; rewards are coming in.
    Active,
    /// Same as Active, but no rewards are coming in.
    UnStaked { created: u64 },
    /// Payment that can be claimed after a number of blocks.
    DeferredPayment { created: u64 },
}

/// Same as `FundDescription`, but only the variant, without the data.
#[derive(PartialEq, Eq, Structural, Clone, Copy, Debug)]
pub enum FundType {
    WithdrawOnly,
    Waiting,
    _PendingAct,
    _ActiveFailed,
    Active,
    UnStaked,
    DeferredPayment,
}

/// Number of fund types, including the two unused ones.
pub const NUM_FUND_TYPES: usize = 7;

/// Position of a fund type in the declaration order; also its serialized discriminant.
pub open spec fn type_index(t: FundType) -> int {
    match t {
        FundType::WithdrawOnly => 0,
        FundType::Waiting => 1,
        FundType::_PendingAct => 2,
        FundType::_ActiveFailed => 3,
        FundType::Active => 4,
        FundType::UnStaked => 5,
        FundType::DeferredPayment => 6,
    }
}

/// The fund type at a given position of the declaration order.
pub open spec fn type_at(i: int) -> FundType {
    if i == 0 {
        FundType::WithdrawOnly
    } else if i == 1 {
        FundType::Waiting
    } else if i == 2 {
        FundType::_PendingAct
    } else if i == 3 {
        FundType::_ActiveFailed
    } else if i == 4 {
        FundType::Active
    } else if i == 5 {
        FundType::UnStaked
    } else {
        FundType::DeferredPayment
    }
}

pub open spec fn spec_fund_type(d: FundDescription) -> FundType {
    match d {
        FundDescription::WithdrawOnly => FundType::WithdrawOnly,
        FundDescription::Waiting { .. } => FundType::Waiting,
        FundDescription::_PendingAct => FundType::_PendingAct,
        FundDescription::_ActiveFailed => FundType::_ActiveFailed,
        FundDescription::Active => FundType::Active,
        FundDescription::UnStaked { .. } => FundType::UnStaked,
        FundDescription::DeferredPayment { .. } => FundType::DeferredPayment,
    }
}

pub open spec fn spec_allow_coalesce(t: FundType) -> bool {
    t == FundType::WithdrawOnly || t == FundType::DeferredPayment
}

pub open spec fn spec_is_stake(t: FundType) -> bool {
    t == FundType::Waiting || t == FundType::Active || t == FundType::UnStaked
}

pub open spec fn spec_funds_in_contract(t: FundType) -> bool {
    t == FundType::WithdrawOnly || t == FundType::Waiting || t == FundType::DeferredPayment
}

/// The index of a type and the type at that index are inverse to each other.
pub proof fn lemma_type_index_inverse(t: FundType)
    ensures
        0 <= type_index(t) < NUM_FUND_TYPES,
        type_at(type_index(t)) == t,
{
}

/// The five fund types that are in use, in declaration order.
pub open spec fn types_in_use() -> Seq<FundType> {
    seq![FundType::WithdrawOnly, FundType::Waiting, FundType::Active, FundType::UnStaked, FundType::DeferredPayment]
}

impl FundType {
    /// The five fund types that are in use, in declaration order.
    pub fn all_types() -> (r: Vec<FundType>)
        ensures
            r@ == seq![
                FundType::WithdrawOnly,
                FundType::Waiting,
                FundType::Active,
                FundType::UnStaked,
                FundType::DeferredPayment,
            ],
            r@ == types_in_use(),
    {
        vec![
            FundType::WithdrawOnly,
            FundType::Waiting,
            FundType::Active,
            FundType::UnStaked,
            FundType::DeferredPayment,
        ]
    }

    /// Only withdraw-only funds and deferred payments get merged with an equal last item.
    pub fn allow_coalesce(&self) -> (r: bool)
        ensures
            r == spec_allow_coalesce(*self),
    {
        matches!(self, FundType::WithdrawOnly | FundType::DeferredPayment)
    }

    pub fn is_stake(&self) -> (r: bool)
        ensures
            r == spec_is_stake(*self),
    {
        matches!(self, FundType::Waiting | FundType::Active | FundType::UnStaked)
    }

    pub fn funds_in_contract(&self) -> (r: bool)
        ensures
            r == spec_funds_in_contract(*self),
    {
        matches!(self, FundType::WithdrawOnly | FundType::Waiting | FundType::DeferredPayment)
    }

    /// Position of the type in the declaration order, which is also its discriminant.
    pub fn discriminant(&self) -> (r: u8)
        ensures
            r == type_index(*self),
    {
        match self {
            FundType::WithdrawOnly => 0,
            FundType::Waiting => 1,
            FundType::_PendingAct => 2,
            FundType::_ActiveFailed => 3,
            FundType::Active => 4,
            FundType::UnStaked => 5,
            FundType::DeferredPayment => 6,
        }
    }
}

impl FundDescription {
    pub fn fund_type(&self) -> (r: FundType)
        ensures
            r == spec_fund_type(*self),
    {
        match self {
            FundDescription::WithdrawOnly => FundType::WithdrawOnly,
            FundDescription::Waiting { .. } => FundType::Waiting,
            FundDescription::_PendingAct => FundType::_PendingAct,
            FundDescription::_ActiveFailed => FundType::_ActiveFailed,
            FundDescription::Active => FundType::Active,
            FundDescription::UnStaked { .. } => FundType::UnStaked,
            FundDescription::DeferredPayment { .. } => FundType::DeferredPayment,
        }
    }

    pub fn discriminant(&self) -> (r: u8)
        ensures
            r == type_index(spec_fund_type(*self)),
    {
        self.fund_type().discriminant()
    }
}

} // verus!
