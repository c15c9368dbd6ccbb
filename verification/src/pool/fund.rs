use vstd::prelude::*;
use crate::codec::{DecodeError, u64_bytes, u64_of, bool_bytes, push_u64, push_bool, read_u64, read_bool, read_byte};

verus! {

/// What a unit of balance is, in the first layout of the contract's storage.
#[derive(PartialEq, Eq, Structural, Clone, Copy, Debug)]
pub enum FundType {
    /// Funds not staked, free to extract from the contract.
    Free { requested_unstake: bool },
    /// Stake sent to the auction contract.
    PendingActivation,
    /// Stake locked in the protocol; rewards are coming in.
    Active,
    /// Same as Active, but offered for sale since block `created`.
    ActiveForSale { created: u64 },
    /// Unstake call to the auction contract sent.
    PendingDeactivation { requested_unstake: bool },
    /// Waiting, since block `created`, before the stake can be retrieved.
    UnBondPeriod { created: u64, requested_unstake: bool },
    /// Unbond call to the auction contract sent.
    PendingUnBond { unbond_created: u64, requested_unstake: bool },
    /// Node stake sent to the auction contract, but the transaction failed for the node.
    ActivationFailed,
    /// Payment that can be claimed some blocks after block `created`.
    DeferredPayment { created: u64 },
}

pub const DISCR_FREE: u8 = 0;
pub const DISCR_PENDING_ACT: u8 = 1;
pub const DISCR_ACTIVE_FAILED: u8 = 2;
pub const DISCR_ACTIVE: u8 = 3;
pub const DISCR_ACTIVE_FOR_SALE: u8 = 4;
pub const DISCR_PENDING_DEACT: u8 = 5;
pub const DISCR_UNBOND: u8 = 6;
pub const DISCR_PENDING_UNBOND: u8 = 7;
pub const DISCR_DEF_PAYMENT: u8 = 8;
pub const DISCR_REWARD: u8 = 9;

/// Number of discriminants, the reserved one for rewards included.
pub const NUM_DISCRIMINANTS: usize = 10;

pub open spec fn spec_discriminant(t: FundType) -> u8 {
    match t {
        FundType::Free { .. } => DISCR_FREE,
        FundType::PendingActivation => DISCR_PENDING_ACT,
        FundType::ActivationFailed => DISCR_ACTIVE_FAILED,
        FundType::Active => DISCR_ACTIVE,
        FundType::ActiveForSale { .. } => DISCR_ACTIVE_FOR_SALE,
        FundType::PendingDeactivation { .. } => DISCR_PENDING_DEACT,
        FundType::UnBondPeriod { .. } => DISCR_UNBOND,
        FundType::PendingUnBond { .. } => DISCR_PENDING_UNBOND,
        FundType::DeferredPayment { .. } => DISCR_DEF_PAYMENT,
    }
}

pub open spec fn spec_is_stake(t: FundType) -> bool {
    !(t is DeferredPayment)
}

pub open spec fn spec_is_active_stake(t: FundType) -> bool {
    t is Active || t is ActiveForSale
}

pub open spec fn spec_funds_in_contract(t: FundType) -> bool {
    t is Free || t is DeferredPayment
}

/// The bytes of a fund type: its discriminant, then its fields in order.
pub open spec fn type_bytes(t: FundType) -> Seq<u8> {
    match t {
        FundType::Free { requested_unstake } => seq![0u8] + bool_bytes(requested_unstake),
        FundType::PendingActivation => seq![1u8],
        FundType::ActivationFailed => seq![2u8],
        FundType::Active => seq![3u8],
        FundType::ActiveForSale { created } => seq![4u8] + u64_bytes(created),
        FundType::PendingDeactivation { requested_unstake } => seq![5u8] + bool_bytes(requested_unstake),
        FundType::UnBondPeriod { created, requested_unstake } => seq![6u8] + u64_bytes(created) + bool_bytes(
            requested_unstake,
        ),
        FundType::PendingUnBond { unbond_created, requested_unstake } => seq![7u8] + u64_bytes(unbond_created)
            + bool_bytes(requested_unstake),
        FundType::DeferredPayment { created } => seq![8u8] + u64_bytes(created),
    }
}

/// The bytes of `t` start at `pos` in `s`.
pub open spec fn type_at(s: Seq<u8>, pos: int, t: FundType) -> bool {
    0 <= pos && pos + type_bytes(t).len() <= s.len() && s.subrange(pos, pos + type_bytes(t).len()) == type_bytes(t)
}

impl FundType {
    pub fn discriminant(&self) -> (r: u8)
        ensures
            r == spec_discriminant(*self),
    {
        match self {
            FundType::Free { .. } => DISCR_FREE,
            FundType::PendingActivation => DISCR_PENDING_ACT,
            FundType::ActivationFailed => DISCR_ACTIVE_FAILED,
            FundType::Active => DISCR_ACTIVE,
            FundType::ActiveForSale { .. } => DISCR_ACTIVE_FOR_SALE,
            FundType::PendingDeactivation { .. } => DISCR_PENDING_DEACT,
            FundType::UnBondPeriod { .. } => DISCR_UNBOND,
            FundType::PendingUnBond { .. } => DISCR_PENDING_UNBOND,
            FundType::DeferredPayment { .. } => DISCR_DEF_PAYMENT,
        }
    }

    /// Whether the funds count as stake (all but deferred payments).
    pub fn is_stake(&self) -> (r: bool)
        ensures
            r == spec_is_stake(*self),
    {
        match self {
            FundType::Free { .. } | FundType::PendingActivation | FundType::ActivationFailed | FundType::Active
            | FundType::ActiveForSale { .. } | FundType::PendingDeactivation { .. } | FundType::UnBondPeriod { .. }
            | FundType::PendingUnBond { .. } => true,
            _ => false,
        }
    }

    /// Whether the funds are active stake, offered for sale or not.
    pub fn is_active_stake(&self) -> (r: bool)
        ensures
            r == spec_is_active_stake(*self),
    {
        match self {
            FundType::Active | FundType::ActiveForSale { .. } => true,
            _ => false,
        }
    }

    /// Whether the funds are held by the contract itself.
    pub fn funds_in_contract(&self) -> (r: bool)
        ensures
            r == spec_funds_in_contract(*self),
    {
        match self {
            FundType::Free { .. } | FundType::DeferredPayment { .. } => true,
            _ => false,
        }
    }

    /// Appends the bytes of this type.
    pub fn dep_encode_to(&self, dest: &mut Vec<u8>)
        ensures
            final(dest)@ == old(dest)@ + type_bytes(*self),
    {
        match self {
            FundType::Free { requested_unstake } => {
                dest.push(0u8);
                push_bool(dest, *requested_unstake);
            },
            FundType::PendingActivation => {
                dest.push(1u8);
            },
            FundType::ActivationFailed => {
                dest.push(2u8);
            },
            FundType::Active => {
                dest.push(3u8);
            },
            FundType::ActiveForSale { created } => {
                dest.push(4u8);
                push_u64(dest, *created);
            },
            FundType::PendingDeactivation { requested_unstake } => {
                dest.push(5u8);
                push_bool(dest, *requested_unstake);
            },
            FundType::UnBondPeriod { created, requested_unstake } => {
                dest.push(6u8);
                push_u64(dest, *created);
                push_bool(dest, *requested_unstake);
            },
            FundType::PendingUnBond { unbond_created, requested_unstake } => {
                dest.push(7u8);
                push_u64(dest, *unbond_created);
                push_bool(dest, *requested_unstake);
            },
            FundType::DeferredPayment { created } => {
                dest.push(8u8);
                push_u64(dest, *created);
            },
        }
        assert(final(dest)@ =~= old(dest)@ + type_bytes(*self));
    }

    /// Reads a fund type at `pos`; returns it and the position after it.
    #[verifier::spinoff_prover]
    #[verifier::rlimit(30)]
    pub fn dep_decode(input: &Vec<u8>, pos: usize) -> (r: Result<(FundType, usize), DecodeError>)
        ensures
            r matches Ok((t, p)) ==> p == pos + type_bytes(t).len() && type_at(input@, pos as int, t),
            (exists|t: FundType| #[trigger] type_at(input@, pos as int, t)) ==> r is Ok,
            pos < input@.len() && input@[pos as int] > 8 ==> r == Err::<(FundType, usize), DecodeError>(
                DecodeError::InvalidValue,
            ),
    {
        let n = input.len();
        if pos >= n {
            proof {
                assert forall|t: FundType| !#[trigger] type_at(input@, pos as int, t) by {}
            }
            return Err(DecodeError::InputTooShort);
        }
        let b = input[pos];
        let p = pos + 1;
        proof {
            assert forall|t: FundType| #[trigger] type_at(input@, pos as int, t) implies input@[pos as int]
                == type_bytes(t)[0] by {
                assert(input@[pos as int] == input@.subrange(pos as int, pos + type_bytes(t).len())[0]);
            }
        }
        let r: Result<(FundType, usize), DecodeError> = if b == 1 || b == 2 || b == 3 {
            let t = if b == 1 {
                FundType::PendingActivation
            } else if b == 2 {
                FundType::ActivationFailed
            } else {
                FundType::Active
            };
            assert(input@.subrange(pos as int, p as int) =~= type_bytes(t));
            Ok((t, p))
        } else if b == 0 || b == 5 {
            match read_bool(input, p) {
                Ok((flag, p2)) => {
                    let t = if b == 0 {
                        FundType::Free { requested_unstake: flag }
                    } else {
                        FundType::PendingDeactivation { requested_unstake: flag }
                    };
                    assert(input@.subrange(pos as int, p2 as int) =~= type_bytes(t));
                    Ok((t, p2))
                },
                Err(e) => {
                    proof {
                        assert forall|t: FundType| !#[trigger] type_at(input@, pos as int, t) by {
                            if type_at(input@, pos as int, t) {
                                assert(input@[pos + 1] == input@.subrange(pos as int, pos + type_bytes(t).len())[1]);
                            }
                        }
                    }
                    Err(e)
                },
            }
        } else if b == 4 || b == 8 {
            match read_u64(input, p) {
                Ok((created, p2)) => {
                    let t = if b == 4 {
                        FundType::ActiveForSale { created }
                    } else {
                        FundType::DeferredPayment { created }
                    };
                    proof {
                        lemma_u64_at(input@, p as int, created);
                    }
                    assert(input@.subrange(pos as int, p2 as int) =~= type_bytes(t));
                    Ok((t, p2))
                },
                Err(e) => {
                    proof {
                        assert forall|t: FundType| !#[trigger] type_at(input@, pos as int, t) by {}
                    }
                    Err(e)
                },
            }
        } else if b == 6 || b == 7 {
            match read_u64(input, p) {
                Ok((created, p2)) => {
                    match read_bool(input, p2) {
                        Ok((flag, p3)) => {
                            let t = if b == 6 {
                                FundType::UnBondPeriod { created, requested_unstake: flag }
                            } else {
                                FundType::PendingUnBond { unbond_created: created, requested_unstake: flag }
                            };
                            proof {
                                lemma_u64_at(input@, p as int, created);
                            }
                            assert(input@.subrange(pos as int, p3 as int) =~= type_bytes(t));
                            Ok((t, p3))
                        },
                        Err(e) => {
                            proof {
                                assert forall|t: FundType| !#[trigger] type_at(input@, pos as int, t) by {
                                    if type_at(input@, pos as int, t) {
                                        assert(input@[pos + 9] == input@.subrange(pos as int, pos + type_bytes(t).len())[9]);
                                    }
                                }
                            }
                            Err(e)
                        },
                    }
                },
                Err(e) => {
                    proof {
                        assert forall|t: FundType| !#[trigger] type_at(input@, pos as int, t) by {}
                    }
                    Err(e)
                },
            }
        } else {
            proof {
                assert forall|t: FundType| !#[trigger] type_at(input@, pos as int, t) by {}
            }
            Err(DecodeError::InvalidValue)
        };
        r
    }
}

/// The 8 bytes at `p` are those of the number read from them.
proof fn lemma_u64_at(s: Seq<u8>, p: int, v: u64)
    requires
        0 <= p,
        p + 8 <= s.len(),
        v == u64_of(s[p], s[p + 1], s[p + 2], s[p + 3], s[p + 4], s[p + 5], s[p + 6], s[p + 7]),
    ensures
        s.subrange(p, p + 8) == u64_bytes(v),
{
    crate::codec::lemma_u64_of_roundtrip(s[p], s[p + 1], s[p + 2], s[p + 3], s[p + 4], s[p + 5], s[p + 6], s[p + 7]);
    assert(s.subrange(p, p + 8) =~= seq![s[p], s[p + 1], s[p + 2], s[p + 3], s[p + 4], s[p + 5], s[p + 6], s[p + 7]]);
}

/// Who owns a unit of balance, and what it is.
#[derive(PartialEq, Eq, Structural, Clone, Copy, Debug)]
pub struct FundInfo {
    pub user_id: usize,
    pub fund_type: FundType,
}

impl FundInfo {
    /// Items pushed one after the other are merged when they have the same owner and type.
    pub fn can_coalesce(f1: &FundInfo, f2: &FundInfo) -> (r: bool)
        ensures
            r == (f1.user_id == f2.user_id && f1.fund_type == f2.fund_type),
    {
        f1.user_id == f2.user_id && f1.fund_type == f2.fund_type
    }
}

/// A unit of balance with its owner and type.
#[derive(PartialEq, Eq, Structural, Clone, Copy, Debug)]
pub struct FundItem {
    pub info: FundInfo,
    pub balance: u128,
}

/// `list` after pushing `item`: merged into the last item when they have the same owner
/// and type.
pub open spec fn pushed(list: Seq<FundItem>, item: FundItem) -> Seq<FundItem> {
    if list.len() > 0 && list.last().info == item.info {
        list.update(list.len() - 1, FundItem { balance: (list.last().balance + item.balance) as u128, ..list.last() })
    } else {
        list.push(item)
    }
}

/// Sum of the balances in `s`.
pub open spec fn items_sum(s: Seq<FundItem>) -> int
    decreases s.len(),
{
    if s.len() == 0 {
        0
    } else {
        items_sum(s.drop_last()) + s.last().balance
    }
}

pub proof fn lemma_pushed_sum(list: Seq<FundItem>, item: FundItem)
    requires
        list.len() > 0 && list.last().info == item.info ==> list.last().balance + item.balance <= u128::MAX,
    ensures
        items_sum(pushed(list, item)) == items_sum(list) + item.balance,
        pushed(list, item).len() > 0,
        pushed(list, item).last().info == item.info,
{
    let p = pushed(list, item);
    if list.len() > 0 && list.last().info == item.info {
        assert(p.drop_last() =~= list.drop_last());
    } else {
        assert(p.drop_last() =~= list);
    }
}

/// A list of fund items in which consecutive pushes of the same owner and type are merged.
pub struct FundList(pub Vec<FundItem>);

impl FundList {
    /// Pushes `item`, merging it into the last item when they have the same owner and type.
    pub fn push(&mut self, item: FundItem)
        requires
            old(self).0@.len() > 0 && old(self).0@.last().info == item.info ==> old(self).0@.last().balance + item.balance
                <= u128::MAX,
        ensures
            final(self).0@ == pushed(old(self).0@, item),
    {
        if self.0.len() > 0 {
            let last_index = self.0.len() - 1;
            let last = self.0[last_index];
            if FundInfo::can_coalesce(&last.info, &item.info) {
                self.0.set(last_index, FundItem { info: last.info, balance: last.balance + item.balance });
                return;
            }
        }
        self.0.push(item);
    }
}

} // verus!
