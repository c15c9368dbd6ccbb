use vstd::prelude::*;
use crate::pool::fund::{
    FundType, FundInfo, DISCR_FREE, DISCR_PENDING_ACT, DISCR_ACTIVE_FAILED, DISCR_ACTIVE, DISCR_ACTIVE_FOR_SALE,
    DISCR_PENDING_DEACT, DISCR_UNBOND, DISCR_PENDING_UNBOND, DISCR_DEF_PAYMENT,
};
use crate::pool::fund_store::{FundStore, walked, keep_if, filtered_items_sum, law_walk_moves_selected};

verus! {

pub open spec fn activate_start(info: FundInfo) -> Option<FundInfo> {
    match info.fund_type {
        FundType::Free { requested_unstake: false } => Some(FundInfo { fund_type: FundType::PendingActivation, user_id: info.user_id }),
        _ => None,
    }
}

pub open spec fn activate_start_rel() -> spec_fn(FundInfo) -> Option<FundInfo> {
    |info: FundInfo| activate_start(info)
}

pub open spec fn activate_ok(info: FundInfo) -> Option<FundInfo> {
    match info.fund_type {
        FundType::PendingActivation => Some(FundInfo { fund_type: FundType::Active, user_id: info.user_id }),
        _ => None,
    }
}

pub open spec fn activate_ok_rel() -> spec_fn(FundInfo) -> Option<FundInfo> {
    |info: FundInfo| activate_ok(info)
}

pub open spec fn activate_fail(info: FundInfo) -> Option<FundInfo> {
    match info.fund_type {
        FundType::PendingActivation => Some(FundInfo { fund_type: FundType::ActivationFailed, user_id: info.user_id }),
        _ => None,
    }
}

pub open spec fn activate_fail_rel() -> spec_fn(FundInfo) -> Option<FundInfo> {
    |info: FundInfo| activate_fail(info)
}

pub open spec fn unstake_fail(info: FundInfo) -> Option<FundInfo> {
    match info.fund_type {
        FundType::PendingDeactivation { .. } => Some(FundInfo { fund_type: FundType::Active, user_id: info.user_id }),
        _ => None,
    }
}

pub open spec fn unstake_fail_rel() -> spec_fn(FundInfo) -> Option<FundInfo> {
    |info: FundInfo| unstake_fail(info)
}

pub open spec fn unbond_ok(info: FundInfo) -> Option<FundInfo> {
    match info.fund_type {
        FundType::PendingUnBond { unbond_created: _, requested_unstake } => Some(FundInfo { fund_type: FundType::Free { requested_unstake }, user_id: info.user_id }),
        _ => None,
    }
}

pub open spec fn unbond_ok_rel() -> spec_fn(FundInfo) -> Option<FundInfo> {
    |info: FundInfo| unbond_ok(info)
}

/// Stake of user `user_id` pending unbond that the user asked to unstake (`requested` true)
/// or not.
pub open spec fn pending_unbond_with(user_id: usize, requested: bool) -> spec_fn(FundInfo) -> bool {
    |info: FundInfo|
        info.user_id == user_id && (info.fund_type matches FundType::PendingUnBond { requested_unstake, .. }
            && requested_unstake == requested)
}

/// Free stake of user `user_id` with the given unstake request: withdraw-only when
/// `requested` is true, inactive (ready to be staked again) when false.
pub open spec fn free_with(user_id: usize, requested: bool) -> spec_fn(FundInfo) -> bool {
    |info: FundInfo| info.user_id == user_id && info.fund_type == FundType::Free { requested_unstake: requested }
}

/// Unbonding keeps each fund's owner and unstake request. After the walk of
/// `unbond_finish_ok_transf` (any maximum), the free stake of each user with request
/// `requested` grew by exactly that user's stake pending unbond with that request that left
/// its list: what was asked to be unstaked becomes withdraw-only, the rest becomes inactive
/// again, and no stake changes hands.
pub proof fn law_unbond_keeps_request(
    old: FundStore,
    new: FundStore,
    max: Option<u128>,
    left: Option<u128>,
    moved: int,
    user_id: usize,
    requested: bool,
)
    requires
        old.wf(),
        walked(old, new, DISCR_PENDING_UNBOND as int, Some(DISCR_FREE as int), max, unbond_ok_rel(), left, moved),
    ensures
        filtered_items_sum(new.list(DISCR_FREE as int), free_with(user_id, requested)) - filtered_items_sum(
            old.list(DISCR_FREE as int),
            free_with(user_id, requested),
        ) == filtered_items_sum(old.list(DISCR_PENDING_UNBOND as int), pending_unbond_with(user_id, requested))
            - filtered_items_sum(new.list(DISCR_PENDING_UNBOND as int), pending_unbond_with(user_id, requested)),
{
    let p = pending_unbond_with(user_id, requested);
    let q = free_with(user_id, requested);
    let g = unbond_ok_rel();
    assert forall|i: FundInfo| #[trigger] g(i) is Some implies (p(i) <==> q(g(i).unwrap())) by {}
    law_walk_moves_selected(old, new, DISCR_PENDING_UNBOND as int, DISCR_FREE as int, max, g, left, moved, p, q);
}

pub open spec fn unbond_fail(info: FundInfo) -> Option<FundInfo> {
    match info.fund_type {
        FundType::PendingUnBond { unbond_created, requested_unstake } => Some(FundInfo { fund_type: FundType::UnBondPeriod { created: unbond_created, requested_unstake }, user_id: info.user_id }),
        _ => None,
    }
}

pub open spec fn unbond_fail_rel() -> spec_fn(FundInfo) -> Option<FundInfo> {
    |info: FundInfo| unbond_fail(info)
}


/// Stake of user `user_id` in its unbond period, asked to be unstaked (`requested`) or not.
pub open spec fn unbond_period_with(user_id: usize, requested: bool) -> spec_fn(FundInfo) -> bool {
    |info: FundInfo|
        info.user_id == user_id && (info.fund_type matches FundType::UnBondPeriod { requested_unstake, .. }
            && requested_unstake == requested)
}

/// Stake of user `user_id` pending deactivation, asked to be unstaked (`requested`) or not.
pub open spec fn pending_deactivation_with(user_id: usize, requested: bool) -> spec_fn(FundInfo) -> bool {
    |info: FundInfo| info.user_id == user_id && info.fund_type == FundType::PendingDeactivation { requested_unstake: requested }
}

/// When the auction contract confirms an unstake, the stake pending deactivation enters its
/// unbond period with the same owner and the same unstake request.
pub proof fn law_unstake_keeps_request(
    old: FundStore,
    new: FundStore,
    nonce: u64,
    max: Option<u128>,
    left: Option<u128>,
    moved: int,
    user_id: usize,
    requested: bool,
)
    requires
        old.wf(),
        walked(old, new, DISCR_PENDING_DEACT as int, Some(DISCR_UNBOND as int), max, unstake_ok_rel(nonce), left, moved),
    ensures
        filtered_items_sum(new.list(DISCR_UNBOND as int), unbond_period_with(user_id, requested)) - filtered_items_sum(
            old.list(DISCR_UNBOND as int),
            unbond_period_with(user_id, requested),
        ) == filtered_items_sum(old.list(DISCR_PENDING_DEACT as int), pending_deactivation_with(user_id, requested))
            - filtered_items_sum(new.list(DISCR_PENDING_DEACT as int), pending_deactivation_with(user_id, requested)),
{
    let p = pending_deactivation_with(user_id, requested);
    let q = unbond_period_with(user_id, requested);
    let g = unstake_ok_rel(nonce);
    assert forall|i: FundInfo| #[trigger] g(i) is Some implies (p(i) <==> q(g(i).unwrap())) by {}
    law_walk_moves_selected(old, new, DISCR_PENDING_DEACT as int, DISCR_UNBOND as int, max, g, left, moved, p, q);
}

/// Starting the unbond of the stake whose unbond period is over keeps its owner and its
/// unstake request.
pub proof fn law_unbond_start_keeps_request(
    old: FundStore,
    new: FundStore,
    nonce: u64,
    n_blocks: u64,
    max: Option<u128>,
    left: Option<u128>,
    moved: int,
    user_id: usize,
    requested: bool,
)
    requires
        old.wf(),
        walked(old, new, DISCR_UNBOND as int, Some(DISCR_PENDING_UNBOND as int), max, unbond_start_rel(nonce, n_blocks), left, moved),
    ensures
        filtered_items_sum(new.list(DISCR_PENDING_UNBOND as int), pending_unbond_with(user_id, requested))
            - filtered_items_sum(old.list(DISCR_PENDING_UNBOND as int), pending_unbond_with(user_id, requested))
            == filtered_items_sum(old.list(DISCR_UNBOND as int), unbond_period_with(user_id, requested))
            - filtered_items_sum(new.list(DISCR_UNBOND as int), unbond_period_with(user_id, requested)),
{
    let p = unbond_period_with(user_id, requested);
    let q = pending_unbond_with(user_id, requested);
    let g = unbond_start_rel(nonce, n_blocks);
    assert forall|i: FundInfo| #[trigger] g(i) is Some implies (p(i) <==> q(g(i).unwrap())) by {}
    law_walk_moves_selected(old, new, DISCR_UNBOND as int, DISCR_PENDING_UNBOND as int, max, g, left, moved, p, q);
}

/// A failed unbond puts the stake pending unbond back into its unbond period, with the same
/// owner and unstake request.
pub proof fn law_unbond_fail_keeps_request(
    old: FundStore,
    new: FundStore,
    max: Option<u128>,
    left: Option<u128>,
    moved: int,
    user_id: usize,
    requested: bool,
)
    requires
        old.wf(),
        walked(old, new, DISCR_PENDING_UNBOND as int, Some(DISCR_UNBOND as int), max, unbond_fail_rel(), left, moved),
    ensures
        filtered_items_sum(new.list(DISCR_UNBOND as int), unbond_period_with(user_id, requested)) - filtered_items_sum(
            old.list(DISCR_UNBOND as int),
            unbond_period_with(user_id, requested),
        ) == filtered_items_sum(old.list(DISCR_PENDING_UNBOND as int), pending_unbond_with(user_id, requested))
            - filtered_items_sum(new.list(DISCR_PENDING_UNBOND as int), pending_unbond_with(user_id, requested)),
{
    let p = pending_unbond_with(user_id, requested);
    let q = unbond_period_with(user_id, requested);
    let g = unbond_fail_rel();
    assert forall|i: FundInfo| #[trigger] g(i) is Some implies (p(i) <==> q(g(i).unwrap())) by {}
    law_walk_moves_selected(old, new, DISCR_PENDING_UNBOND as int, DISCR_UNBOND as int, max, g, left, moved, p, q);
}

pub open spec fn unstake_ok(info: FundInfo, nonce: u64) -> Option<FundInfo> {
    match info.fund_type {
        FundType::PendingDeactivation { requested_unstake } => Some(
            FundInfo { fund_type: FundType::UnBondPeriod { created: nonce, requested_unstake }, user_id: info.user_id },
        ),
        _ => None,
    }
}

pub open spec fn unstake_ok_rel(nonce: u64) -> spec_fn(FundInfo) -> Option<FundInfo> {
    |info: FundInfo| unstake_ok(info, nonce)
}

pub open spec fn unbond_start(info: FundInfo, nonce: u64, n_blocks: u64) -> Option<FundInfo> {
    match info.fund_type {
        FundType::UnBondPeriod { created, requested_unstake } => if nonce >= created + n_blocks {
            Some(FundInfo { fund_type: FundType::PendingUnBond { unbond_created: created, requested_unstake }, user_id: info.user_id })
        } else {
            None
        },
        _ => None,
    }
}

pub open spec fn unbond_start_rel(nonce: u64, n_blocks: u64) -> spec_fn(FundInfo) -> Option<FundInfo> {
    |info: FundInfo| unbond_start(info, nonce, n_blocks)
}

pub open spec fn activation_failed_claim(info: FundInfo) -> Option<FundInfo> {
    match info.fund_type {
        FundType::ActivationFailed => Some(FundInfo { fund_type: FundType::Free { requested_unstake: false }, user_id: info.user_id }),
        _ => None,
    }
}

pub open spec fn activation_failed_claim_rel() -> spec_fn(FundInfo) -> Option<FundInfo> {
    |info: FundInfo| activation_failed_claim(info)
}

pub open spec fn announce_unstake(info: FundInfo, seller_id: usize, nonce: u64) -> Option<FundInfo> {
    if info.fund_type == FundType::Active && info.user_id == seller_id {
        Some(FundInfo { fund_type: FundType::ActiveForSale { created: nonce }, user_id: seller_id })
    } else {
        None
    }
}

pub open spec fn announce_unstake_rel(seller_id: usize, nonce: u64) -> spec_fn(FundInfo) -> Option<FundInfo> {
    |info: FundInfo| announce_unstake(info, seller_id, nonce)
}

pub open spec fn sale_stake(info: FundInfo, buyer_id: usize, seller_id: usize) -> Option<FundInfo> {
    if info.fund_type is ActiveForSale && info.user_id == seller_id {
        Some(FundInfo { fund_type: FundType::Active, user_id: buyer_id })
    } else {
        None
    }
}

pub open spec fn sale_stake_rel(buyer_id: usize, seller_id: usize) -> spec_fn(FundInfo) -> Option<FundInfo> {
    |info: FundInfo| sale_stake(info, buyer_id, seller_id)
}

pub open spec fn sale_payment(info: FundInfo, buyer_id: usize, seller_id: usize, nonce: u64) -> Option<FundInfo> {
    if info.fund_type is Free && info.user_id == buyer_id {
        Some(FundInfo { fund_type: FundType::DeferredPayment { created: nonce }, user_id: seller_id })
    } else {
        None
    }
}

pub open spec fn sale_payment_rel(buyer_id: usize, seller_id: usize, nonce: u64) -> spec_fn(FundInfo) -> Option<FundInfo> {
    |info: FundInfo| sale_payment(info, buyer_id, seller_id, nonce)
}

/// A deferred payment of `user_id` that is due at block `nonce`: created more than `n_blocks` blocks before.
pub open spec fn deferred_due(info: FundInfo, user_id: usize, nonce: u64, n_blocks: u64) -> bool {
    match info.fund_type {
        FundType::DeferredPayment { created } => info.user_id == user_id && nonce > created + n_blocks,
        _ => false,
    }
}

pub open spec fn deferred_due_rel(user_id: usize, nonce: u64, n_blocks: u64) -> spec_fn(FundInfo) -> bool {
    |info: FundInfo| deferred_due(info, user_id, nonce, n_blocks)
}

pub open spec fn claim_deferred(info: FundInfo, user_id: usize, nonce: u64, n_blocks: u64) -> Option<FundInfo> {
    if deferred_due(info, user_id, nonce, n_blocks) {
        Some(FundInfo { fund_type: FundType::Free { requested_unstake: true }, user_id: info.user_id })
    } else {
        None
    }
}

pub open spec fn claim_deferred_rel(user_id: usize, nonce: u64, n_blocks: u64) -> spec_fn(FundInfo) -> Option<FundInfo> {
    |info: FundInfo| claim_deferred(info, user_id, nonce, n_blocks)
}

/// Stake of `user_id` offered for sale more than `n_blocks` blocks before block `nonce`.
pub open spec fn for_sale_due(info: FundInfo, user_id: usize, nonce: u64, n_blocks: u64) -> bool {
    match info.fund_type {
        FundType::ActiveForSale { created } => info.user_id == user_id && nonce > created + n_blocks,
        _ => false,
    }
}

pub open spec fn for_sale_due_rel(user_id: usize, nonce: u64, n_blocks: u64) -> spec_fn(FundInfo) -> bool {
    |info: FundInfo| for_sale_due(info, user_id, nonce, n_blocks)
}

pub open spec fn free_of(info: FundInfo, user_id: usize, requested: bool) -> bool {
    info.user_id == user_id && info.fund_type == (FundType::Free { requested_unstake: requested })
}

pub open spec fn free_of_rel(user_id: usize, requested: bool) -> spec_fn(FundInfo) -> bool {
    |info: FundInfo| free_of(info, user_id, requested)
}

pub open spec fn force_unstake(info: FundInfo, requester_id: usize, nonce: u64, n_blocks: u64) -> Option<FundInfo> {
    if for_sale_due(info, requester_id, nonce, n_blocks) {
        Some(FundInfo { fund_type: FundType::PendingDeactivation { requested_unstake: true }, user_id: info.user_id })
    } else {
        None
    }
}

pub open spec fn force_unstake_rel(requester_id: usize, nonce: u64, n_blocks: u64) -> spec_fn(FundInfo) -> Option<FundInfo> {
    |info: FundInfo| force_unstake(info, requester_id, nonce, n_blocks)
}

pub open spec fn unstake_for_sale(info: FundInfo) -> Option<FundInfo> {
    if info.fund_type is ActiveForSale {
        Some(FundInfo { fund_type: FundType::PendingDeactivation { requested_unstake: true }, user_id: info.user_id })
    } else {
        None
    }
}

pub open spec fn unstake_for_sale_rel() -> spec_fn(FundInfo) -> Option<FundInfo> {
    |info: FundInfo| unstake_for_sale(info)
}

pub open spec fn unstake_active(info: FundInfo) -> Option<FundInfo> {
    if info.fund_type == FundType::Active {
        Some(FundInfo { fund_type: FundType::PendingDeactivation { requested_unstake: false }, user_id: info.user_id })
    } else {
        None
    }
}

pub open spec fn unstake_active_rel() -> spec_fn(FundInfo) -> Option<FundInfo> {
    |info: FundInfo| unstake_active(info)
}

/// Whether `nonce` is past `created + n_blocks`, or at it when `or_equal`.
pub fn is_past(created: u64, n_blocks: u64, nonce: u64, or_equal: bool) -> (r: bool)
    ensures
        r == (if or_equal {
            nonce >= created + n_blocks
        } else {
            nonce > created + n_blocks
        }),
{
    if or_equal {
        (nonce as u128) >= (created as u128) + (n_blocks as u128)
    } else {
        (nonce as u128) > (created as u128) + (n_blocks as u128)
    }
}

impl FundStore {
    /// Sends up to `amount` of inactive stake, oldest first, to activation; fails when not enough was found.
    pub fn activate_start_transf(&mut self, amount: &mut u128) -> (r: Result<(), &'static str>)
        requires
            old(self).wf(),
        ensures
            final(self).wf(),
            exists|moved: int|
                walked(
                    *old(self),
                    *final(self),
                    DISCR_FREE as int,
                    Some(DISCR_PENDING_ACT as int),
                    Some(*old(amount)),
                    activate_start_rel(),
                    Some(*final(amount)),
                    moved,
                ),
            r is Ok <==> *final(amount) == 0,
            r matches Err(e) ==> e@ == "not enough inactive stake"@,
    {
        let f = |info: FundInfo| -> (o: Option<FundInfo>)
            ensures
                o == activate_start(info),
            {
                match info.fund_type {
                FundType::Free { requested_unstake: false } => Some(FundInfo { fund_type: FundType::PendingActivation, user_id: info.user_id }),
                _ => None,
            }
            };
        self.split_convert_max(amount, DISCR_FREE, DISCR_PENDING_ACT, f, Ghost(activate_start_rel()));
        if *amount > 0 {
            return Err("not enough inactive stake");
        }
        Ok(())
    }

    /// Marks up to `amount` of stake pending activation as active; fails when not enough was found.
    pub fn activate_finish_ok_transf(&mut self, amount: &mut u128) -> (r: Result<(), &'static str>)
        requires
            old(self).wf(),
        ensures
            final(self).wf(),
            exists|moved: int|
                walked(
                    *old(self),
                    *final(self),
                    DISCR_PENDING_ACT as int,
                    Some(DISCR_ACTIVE as int),
                    Some(*old(amount)),
                    activate_ok_rel(),
                    Some(*final(amount)),
                    moved,
                ),
            r is Ok <==> *final(amount) == 0,
            r matches Err(e) ==> e@ == "cannot offer more than the user active stake"@,
    {
        let f = |info: FundInfo| -> (o: Option<FundInfo>)
            ensures
                o == activate_ok(info),
            {
                match info.fund_type {
                FundType::PendingActivation => Some(FundInfo { fund_type: FundType::Active, user_id: info.user_id }),
                _ => None,
            }
            };
        self.split_convert_max(amount, DISCR_PENDING_ACT, DISCR_ACTIVE, f, Ghost(activate_ok_rel()));
        if *amount > 0 {
            return Err("cannot offer more than the user active stake");
        }
        Ok(())
    }

    /// Marks up to `amount` of stake pending activation as failed; fails when not enough was found.
    pub fn activate_finish_fail_transf(&mut self, amount: &mut u128) -> (r: Result<(), &'static str>)
        requires
            old(self).wf(),
        ensures
            final(self).wf(),
            exists|moved: int|
                walked(
                    *old(self),
                    *final(self),
                    DISCR_PENDING_ACT as int,
                    Some(DISCR_ACTIVE_FAILED as int),
                    Some(*old(amount)),
                    activate_fail_rel(),
                    Some(*final(amount)),
                    moved,
                ),
            r is Ok <==> *final(amount) == 0,
            r matches Err(e) ==> e@ == "cannot offer more than the user active stake"@,
    {
        let f = |info: FundInfo| -> (o: Option<FundInfo>)
            ensures
                o == activate_fail(info),
            {
                match info.fund_type {
                FundType::PendingActivation => Some(FundInfo { fund_type: FundType::ActivationFailed, user_id: info.user_id }),
                _ => None,
            }
            };
        self.split_convert_max(amount, DISCR_PENDING_ACT, DISCR_ACTIVE_FAILED, f, Ghost(activate_fail_rel()));
        if *amount > 0 {
            return Err("cannot offer more than the user active stake");
        }
        Ok(())
    }

    /// Turns up to `amount` of stake pending deactivation back into active stake; fails when not enough was found.
    pub fn unstake_finish_fail_transf(&mut self, amount: &mut u128) -> (r: Result<(), &'static str>)
        requires
            old(self).wf(),
        ensures
            final(self).wf(),
            exists|moved: int|
                walked(
                    *old(self),
                    *final(self),
                    DISCR_PENDING_DEACT as int,
                    Some(DISCR_ACTIVE as int),
                    Some(*old(amount)),
                    unstake_fail_rel(),
                    Some(*final(amount)),
                    moved,
                ),
            r is Ok <==> *final(amount) == 0,
            r matches Err(e) ==> e@ == "cannot offer more than the user active stake"@,
    {
        let f = |info: FundInfo| -> (o: Option<FundInfo>)
            ensures
                o == unstake_fail(info),
            {
                match info.fund_type {
                FundType::PendingDeactivation { .. } => Some(FundInfo { fund_type: FundType::Active, user_id: info.user_id }),
                _ => None,
            }
            };
        self.split_convert_max(amount, DISCR_PENDING_DEACT, DISCR_ACTIVE, f, Ghost(unstake_fail_rel()));
        if *amount > 0 {
            return Err("cannot offer more than the user active stake");
        }
        Ok(())
    }

    /// Frees up to `amount` of stake pending unbond; fails when not enough was found.
    pub fn unbond_finish_ok_transf(&mut self, amount: &mut u128) -> (r: Result<(), &'static str>)
        requires
            old(self).wf(),
        ensures
            final(self).wf(),
            exists|moved: int|
                walked(
                    *old(self),
                    *final(self),
                    DISCR_PENDING_UNBOND as int,
                    Some(DISCR_FREE as int),
                    Some(*old(amount)),
                    unbond_ok_rel(),
                    Some(*final(amount)),
                    moved,
                ),
            r is Ok <==> *final(amount) == 0,
            r matches Err(e) ==> e@ == "cannot offer more than the user active stake"@,
    {
        let f = |info: FundInfo| -> (o: Option<FundInfo>)
            ensures
                o == unbond_ok(info),
            {
                match info.fund_type {
                FundType::PendingUnBond { unbond_created: _, requested_unstake } => Some(FundInfo { fund_type: FundType::Free { requested_unstake }, user_id: info.user_id }),
                _ => None,
            }
            };
        self.split_convert_max(amount, DISCR_PENDING_UNBOND, DISCR_FREE, f, Ghost(unbond_ok_rel()));
        if *amount > 0 {
            return Err("cannot offer more than the user active stake");
        }
        Ok(())
    }

    /// Puts up to `amount` of stake pending unbond back into its unbond period; fails when not enough was found.
    pub fn unbond_finish_fail_transf(&mut self, amount: &mut u128) -> (r: Result<(), &'static str>)
        requires
            old(self).wf(),
        ensures
            final(self).wf(),
            exists|moved: int|
                walked(
                    *old(self),
                    *final(self),
                    DISCR_PENDING_UNBOND as int,
                    Some(DISCR_UNBOND as int),
                    Some(*old(amount)),
                    unbond_fail_rel(),
                    Some(*final(amount)),
                    moved,
                ),
            r is Ok <==> *final(amount) == 0,
            r matches Err(e) ==> e@ == "cannot offer more than the user active stake"@,
    {
        let f = |info: FundInfo| -> (o: Option<FundInfo>)
            ensures
                o == unbond_fail(info),
            {
                match info.fund_type {
                FundType::PendingUnBond { unbond_created, requested_unstake } => Some(FundInfo { fund_type: FundType::UnBondPeriod { created: unbond_created, requested_unstake }, user_id: info.user_id }),
                _ => None,
            }
            };
        self.split_convert_max(amount, DISCR_PENDING_UNBOND, DISCR_UNBOND, f, Ghost(unbond_fail_rel()));
        if *amount > 0 {
            return Err("cannot offer more than the user active stake");
        }
        Ok(())
    }

}

/// `new` is `old` after taking up to `amount` out of the free funds of `user_id`: first those
/// whose unstake was requested, then the others; `left` is what could not be taken.
pub open spec fn liquidated(old: FundStore, new: FundStore, user_id: usize, amount: u128, left: u128) -> bool {
    exists|mid: FundStore, a1: u128, m1: int|
        {
            &&& #[trigger] walked(old, mid, DISCR_FREE as int, None, Some(amount), keep_if(free_of_rel(user_id, true)), Some(a1), m1)
            &&& a1 == 0 ==> new == mid && left == 0
            &&& a1 > 0 ==> exists|m2: int|
                walked(mid, new, DISCR_FREE as int, None, Some(a1), keep_if(free_of_rel(user_id, false)), Some(left), m2)
        }
}


impl FundStore {
    /// Adds `balance` of inactive stake for `user_id`.
    pub fn create_free_stake(&mut self, user_id: usize, balance: u128)
        requires
            old(self).wf(),
            old(self).total() + balance <= u128::MAX,
        ensures
            final(self).wf(),
            balance > 0 ==> final(self).list(DISCR_FREE as int) == crate::pool::fund::pushed(
                old(self).list(DISCR_FREE as int),
                crate::pool::fund::FundItem {
                    info: FundInfo { fund_type: FundType::Free { requested_unstake: false }, user_id },
                    balance,
                },
            ),
            balance == 0 ==> *final(self) == *old(self),
            forall|d: int|
                0 <= d < crate::pool::fund::NUM_DISCRIMINANTS && d != DISCR_FREE as int ==> #[trigger] final(self).list(d)
                    == old(self).list(d),
            final(self).total() == old(self).total() + balance,
    {
        self.create_fund(FundInfo { fund_type: FundType::Free { requested_unstake: false }, user_id }, balance);
    }

    /// Takes up to `amount` out of the free funds of `user_id`: first those whose unstake was
    /// requested, then the others; `amount` is lowered by what was taken.
    pub fn liquidate_free_stake(&mut self, user_id: usize, amount: &mut u128)
        requires
            old(self).wf(),
        ensures
            final(self).wf(),
            liquidated(*old(self), *final(self), user_id, *old(amount), *final(amount)),
    {
        let f1 = |info: FundInfo| -> (b: bool)
            ensures
                b == free_of(info, user_id, true),
            {
                info.user_id == user_id && match info.fund_type {
                    FundType::Free { requested_unstake } => requested_unstake,
                    _ => false,
                }
            };
        let ghost a0 = *amount;
        let ghost s0 = *self;
        self.destroy_max(amount, DISCR_FREE, f1, Ghost(free_of_rel(user_id, true)));
        let ghost mid = *self;
        let ghost a1 = *amount;
        if *amount > 0 {
            let f2 = |info: FundInfo| -> (b: bool)
                ensures
                    b == free_of(info, user_id, false),
                {
                    info.user_id == user_id && match info.fund_type {
                        FundType::Free { requested_unstake } => !requested_unstake,
                        _ => false,
                    }
                };
            self.destroy_max(amount, DISCR_FREE, f2, Ghost(free_of_rel(user_id, false)));
        }
        proof {
            let m1 = choose|m1: int| walked(s0, mid, DISCR_FREE as int, None, Some(a0), keep_if(free_of_rel(user_id, true)), Some(a1), m1);
            assert(walked(s0, mid, DISCR_FREE as int, None, Some(a0), keep_if(free_of_rel(user_id, true)), Some(a1), m1));
        }
    }

    /// Offers up to `amount` of the active stake of `seller_id` for sale from block
    /// `current_bl_nonce`; fails when the seller has less active stake.
    pub fn announce_unstake_transf(&mut self, seller_id: usize, amount: u128, current_bl_nonce: u64) -> (r: Result<(), &'static str>)
        requires
            old(self).wf(),
        ensures
            final(self).wf(),
            exists|left: u128, moved: int|
                walked(
                    *old(self),
                    *final(self),
                    DISCR_ACTIVE as int,
                    Some(DISCR_ACTIVE_FOR_SALE as int),
                    Some(amount),
                    announce_unstake_rel(seller_id, current_bl_nonce),
                    Some(left),
                    moved,
                ) && (r is Ok <==> left == 0),
            r matches Err(e) ==> e@ == "cannot offer more than the user active stake"@,
    {
        let mut amount_to_unstake = amount;
        let f = |info: FundInfo| -> (o: Option<FundInfo>)
            ensures
                o == announce_unstake(info, seller_id, current_bl_nonce),
            {
                match info.fund_type {
                    FundType::Active => if info.user_id == seller_id {
                        Some(FundInfo { fund_type: FundType::ActiveForSale { created: current_bl_nonce }, user_id: seller_id })
                    } else {
                        None
                    },
                    _ => None,
                }
            };
        self.split_convert_max(
            &mut amount_to_unstake,
            DISCR_ACTIVE,
            DISCR_ACTIVE_FOR_SALE,
            f,
            Ghost(announce_unstake_rel(seller_id, current_bl_nonce)),
        );
        if amount_to_unstake > 0 {
            return Err("cannot offer more than the user active stake");
        }
        Ok(())
    }

    /// Sells `amount` of the stake that `seller_id` offered to `buyer_id`, who pays with as
    /// much of its free funds, turned into a deferred payment for the seller created at block
    /// `current_bl_nonce`. Fails when the seller offered less, or the buyer has less free funds.
    pub fn stake_sale_transf(&mut self, buyer_id: usize, seller_id: usize, amount: u128, current_bl_nonce: u64) -> (r: Result<(), &'static str>)
        requires
            old(self).wf(),
        ensures
            final(self).wf(),
            exists|mid: FundStore, left1: u128, m1: int|
                {
                    &&& walked(*old(self), mid, DISCR_ACTIVE_FOR_SALE as int, Some(DISCR_ACTIVE as int), Some(amount), sale_stake_rel(buyer_id, seller_id), Some(left1), m1)
                    &&& left1 > 0 ==> *final(self) == mid && r == Err::<(), &'static str>("not enough stake for sale")
                    &&& left1 == 0 ==> exists|left2: u128, m2: int|
                        walked(mid, *final(self), DISCR_FREE as int, Some(DISCR_DEF_PAYMENT as int), Some(amount), sale_payment_rel(buyer_id, seller_id, current_bl_nonce), Some(left2), m2)
                        && (left2 > 0 ==> r == Err::<(), &'static str>("not enough funds for payment"))
                        && (left2 == 0 ==> r is Ok)
                },
    {
        let ghost s0 = *self;
        let mut stake_to_convert = amount;
        let f1 = |info: FundInfo| -> (o: Option<FundInfo>)
            ensures
                o == sale_stake(info, buyer_id, seller_id),
            {
                match info.fund_type {
                    FundType::ActiveForSale { .. } => if info.user_id == seller_id {
                        Some(FundInfo { fund_type: FundType::Active, user_id: buyer_id })
                    } else {
                        None
                    },
                    _ => None,
                }
            };
        self.split_convert_max(&mut stake_to_convert, DISCR_ACTIVE_FOR_SALE, DISCR_ACTIVE, f1, Ghost(sale_stake_rel(buyer_id, seller_id)));
        let ghost mid = *self;
        let ghost left1 = stake_to_convert;
        proof {
            let m1 = choose|m1: int| walked(s0, mid, DISCR_ACTIVE_FOR_SALE as int, Some(DISCR_ACTIVE as int), Some(amount), sale_stake_rel(buyer_id, seller_id), Some(left1), m1);
            assert(walked(s0, mid, DISCR_ACTIVE_FOR_SALE as int, Some(DISCR_ACTIVE as int), Some(amount), sale_stake_rel(buyer_id, seller_id), Some(left1), m1));
        }
        if stake_to_convert > 0 {
            return Err("not enough stake for sale");
        }
        let mut payment_to_convert = amount;
        let f2 = |info: FundInfo| -> (o: Option<FundInfo>)
            ensures
                o == sale_payment(info, buyer_id, seller_id, current_bl_nonce),
            {
                match info.fund_type {
                    FundType::Free { .. } => if info.user_id == buyer_id {
                        Some(FundInfo { fund_type: FundType::DeferredPayment { created: current_bl_nonce }, user_id: seller_id })
                    } else {
                        None
                    },
                    _ => None,
                }
            };
        self.split_convert_max(&mut payment_to_convert, DISCR_FREE, DISCR_DEF_PAYMENT, f2, Ghost(sale_payment_rel(buyer_id, seller_id, current_bl_nonce)));
        if payment_to_convert > 0 {
            return Err("not enough funds for payment");
        }
        Ok(())
    }

    /// Sum of the deferred payments of `user_id` that are due at block `current_bl_nonce`.
    pub fn eligible_deferred_payment(&self, user_id: usize, n_blocks_before_claim: u64, current_bl_nonce: u64) -> (r: u128)
        requires
            self.wf(),
        ensures
            r == filtered_items_sum(self.list(DISCR_DEF_PAYMENT as int), deferred_due_rel(user_id, current_bl_nonce, n_blocks_before_claim)),
    {
        let f = |info: FundInfo| -> (b: bool)
            ensures
                b == deferred_due(info, user_id, current_bl_nonce, n_blocks_before_claim),
            {
                match info.fund_type {
                    FundType::DeferredPayment { created } => info.user_id == user_id && is_past(
                        created,
                        n_blocks_before_claim,
                        current_bl_nonce,
                        false,
                    ),
                    _ => false,
                }
            };
        self.query_list(DISCR_DEF_PAYMENT, f, Ghost(deferred_due_rel(user_id, current_bl_nonce, n_blocks_before_claim)))
    }

    /// Frees every deferred payment of `user_id` that is due at block `current_bl_nonce`;
    /// returns their sum.
    pub fn claim_all_eligible_deferred_payment(&mut self, user_id: usize, n_blocks_before_claim: u64, current_bl_nonce: u64) -> (r: Result<u128, &'static str>)
        requires
            old(self).wf(),
        ensures
            final(self).wf(),
            r matches Ok(moved) && walked(
                *old(self),
                *final(self),
                DISCR_DEF_PAYMENT as int,
                Some(DISCR_FREE as int),
                None,
                claim_deferred_rel(user_id, current_bl_nonce, n_blocks_before_claim),
                None,
                moved as int,
            ),
    {
        let f = |info: FundInfo| -> (o: Option<FundInfo>)
            ensures
                o == claim_deferred(info, user_id, current_bl_nonce, n_blocks_before_claim),
            {
                match info.fund_type {
                    FundType::DeferredPayment { created } => if info.user_id == user_id && is_past(
                        created,
                        n_blocks_before_claim,
                        current_bl_nonce,
                        false,
                    ) {
                        Some(FundInfo { fund_type: FundType::Free { requested_unstake: true }, user_id: info.user_id })
                    } else {
                        None
                    },
                    _ => None,
                }
            };
        self.split_convert_all(DISCR_DEF_PAYMENT, DISCR_FREE, f, Ghost(claim_deferred_rel(user_id, current_bl_nonce, n_blocks_before_claim)))
    }

    /// Sum of the stake of `user_id` offered for sale more than `n_blocks_before_force_unstake`
    /// blocks before block `current_bl_nonce`.
    pub fn eligible_for_unstake(&self, user_id: usize, n_blocks_before_force_unstake: u64, current_bl_nonce: u64) -> (r: u128)
        requires
            self.wf(),
        ensures
            r == filtered_items_sum(self.list(DISCR_ACTIVE_FOR_SALE as int), for_sale_due_rel(user_id, current_bl_nonce, n_blocks_before_force_unstake)),
    {
        let f = |info: FundInfo| -> (b: bool)
            ensures
                b == for_sale_due(info, user_id, current_bl_nonce, n_blocks_before_force_unstake),
            {
                match info.fund_type {
                    FundType::ActiveForSale { created } => info.user_id == user_id && is_past(
                        created,
                        n_blocks_before_force_unstake,
                        current_bl_nonce,
                        false,
                    ),
                    _ => false,
                }
            };
        self.query_list(DISCR_ACTIVE_FOR_SALE, f, Ghost(for_sale_due_rel(user_id, current_bl_nonce, n_blocks_before_force_unstake)))
    }

    /// Moves up to `amount` of stake pending deactivation into its unbond period, starting
    /// at block `current_bl_nonce`; fails when not enough was found.
    pub fn unstake_finish_ok_transf(&mut self, amount: &mut u128, current_bl_nonce: u64) -> (r: Result<(), &'static str>)
        requires
            old(self).wf(),
        ensures
            final(self).wf(),
            exists|moved: int|
                walked(
                    *old(self),
                    *final(self),
                    DISCR_PENDING_DEACT as int,
                    Some(DISCR_UNBOND as int),
                    Some(*old(amount)),
                    unstake_ok_rel(current_bl_nonce),
                    Some(*final(amount)),
                    moved,
                ),
            r is Ok <==> *final(amount) == 0,
            r matches Err(e) ==> e@ == "cannot offer more than the user active stake"@,
    {
        let f = |info: FundInfo| -> (o: Option<FundInfo>)
            ensures
                o == unstake_ok(info, current_bl_nonce),
            {
                match info.fund_type {
                    FundType::PendingDeactivation { requested_unstake } => Some(
                        FundInfo { fund_type: FundType::UnBondPeriod { created: current_bl_nonce, requested_unstake }, user_id: info.user_id },
                    ),
                    _ => None,
                }
            };
        self.split_convert_max(amount, DISCR_PENDING_DEACT, DISCR_UNBOND, f, Ghost(unstake_ok_rel(current_bl_nonce)));
        if *amount > 0 {
            return Err("cannot offer more than the user active stake");
        }
        Ok(())
    }

    /// Sends up to `amount` of the stake whose unbond period of `n_blocks_before_unbond`
    /// blocks is over at block `current_bl_nonce` to unbonding; fails when not enough was found.
    pub fn unbond_start_transf(&mut self, n_blocks_before_unbond: u64, amount: &mut u128, current_bl_nonce: u64) -> (r: Result<(), &'static str>)
        requires
            old(self).wf(),
        ensures
            final(self).wf(),
            exists|moved: int|
                walked(
                    *old(self),
                    *final(self),
                    DISCR_UNBOND as int,
                    Some(DISCR_PENDING_UNBOND as int),
                    Some(*old(amount)),
                    unbond_start_rel(current_bl_nonce, n_blocks_before_unbond),
                    Some(*final(amount)),
                    moved,
                ),
            r is Ok <==> *final(amount) == 0,
            r matches Err(e) ==> e@ == "cannot offer more than the user active stake"@,
    {
        let f = |info: FundInfo| -> (o: Option<FundInfo>)
            ensures
                o == unbond_start(info, current_bl_nonce, n_blocks_before_unbond),
            {
                match info.fund_type {
                    FundType::UnBondPeriod { created, requested_unstake } => if is_past(
                        created,
                        n_blocks_before_unbond,
                        current_bl_nonce,
                        true,
                    ) {
                        Some(
                            FundInfo {
                                fund_type: FundType::PendingUnBond { unbond_created: created, requested_unstake },
                                user_id: info.user_id,
                            },
                        )
                    } else {
                        None
                    },
                    _ => None,
                }
            };
        self.split_convert_max(amount, DISCR_UNBOND, DISCR_PENDING_UNBOND, f, Ghost(unbond_start_rel(current_bl_nonce, n_blocks_before_unbond)));
        if *amount > 0 {
            return Err("cannot offer more than the user active stake");
        }
        Ok(())
    }

    /// Frees up to `amount` of stake whose activation failed.
    pub fn claim_activation_failed_transf(&mut self, amount: &mut u128) -> (r: Result<(), &'static str>)
        requires
            old(self).wf(),
        ensures
            final(self).wf(),
            r is Ok,
            exists|moved: int|
                walked(
                    *old(self),
                    *final(self),
                    DISCR_ACTIVE_FAILED as int,
                    Some(DISCR_FREE as int),
                    Some(*old(amount)),
                    activation_failed_claim_rel(),
                    Some(*final(amount)),
                    moved,
                ),
    {
        let f = |info: FundInfo| -> (o: Option<FundInfo>)
            ensures
                o == activation_failed_claim(info),
            {
                match info.fund_type {
                    FundType::ActivationFailed => Some(FundInfo { fund_type: FundType::Free { requested_unstake: false }, user_id: info.user_id }),
                    _ => None,
                }
            };
        self.split_convert_max(amount, DISCR_ACTIVE_FAILED, DISCR_FREE, f, Ghost(activation_failed_claim_rel()));
        Ok(())
    }
}

/// The first step of starting an unstake: only with a requester, its stake offered for sale
/// long enough ago is sent to deactivation.
pub open spec fn first_unstake_step(
    old: FundStore,
    s1: FundStore,
    opt_requester: Option<usize>,
    n_blocks: u64,
    nonce: u64,
    amount: u128,
    a1: u128,
    m1: int,
) -> bool {
    &&& (opt_requester matches Some(req) ==> walked(
        old,
        s1,
        DISCR_ACTIVE_FOR_SALE as int,
        Some(DISCR_PENDING_DEACT as int),
        Some(amount),
        force_unstake_rel(req, nonce, n_blocks),
        Some(a1),
        m1,
    ))
    &&& (opt_requester is None ==> s1 == old && a1 == amount)
}

/// What starting an unstake of `amount` does: first the stake of the requester offered for
/// sale long enough ago, then any stake offered for sale, then active stake, each oldest
/// first, is sent to deactivation, stopping as soon as `amount` is covered. `ok` says whether
/// it was.
pub open spec fn unstake_started(
    old: FundStore,
    new: FundStore,
    opt_requester: Option<usize>,
    n_blocks: u64,
    nonce: u64,
    amount: u128,
    ok: bool,
) -> bool {
    exists|s1: FundStore, a1: u128, m1: int|
        {
            &&& #[trigger] first_unstake_step(old, s1, opt_requester, n_blocks, nonce, amount, a1, m1)
            &&& (opt_requester is Some && a1 == 0 ==> new == s1 && ok)
            &&& (!(opt_requester is Some && a1 == 0) ==> exists|s2: FundStore, a2: u128, m2: int|
                {
                    &&& walked(
                        s1,
                        s2,
                        DISCR_ACTIVE_FOR_SALE as int,
                        Some(DISCR_PENDING_DEACT as int),
                        Some(a1),
                        unstake_for_sale_rel(),
                        Some(a2),
                        m2,
                    )
                    &&& (a2 == 0 ==> new == s2 && ok)
                    &&& (a2 > 0 ==> exists|a3: u128, m3: int|
                        walked(
                            s2,
                            new,
                            DISCR_ACTIVE as int,
                            Some(DISCR_PENDING_DEACT as int),
                            Some(a2),
                            unstake_active_rel(),
                            Some(a3),
                            m3,
                        ) && (ok <==> a3 == 0))
                })
        }
}

impl FundStore {
    /// Starts unstaking `amount`: see `unstake_started`. The amount itself is left as it is.
    pub fn unstake_start_transf(
        &mut self,
        opt_requester: Option<usize>,
        n_blocks_before_force_unstake: u64,
        amount: &mut u128,
        current_bl_nonce: u64,
    ) -> (r: Result<(), &'static str>)
        requires
            old(self).wf(),
        ensures
            final(self).wf(),
            *final(amount) == *old(amount),
            unstake_started(*old(self), *final(self), opt_requester, n_blocks_before_force_unstake, current_bl_nonce, *old(amount), r is Ok),
            r matches Err(e) ==> e@ == "insufficient stake to unstake"@,
    {
        let mut amount_to_unstake = *amount;
        let ghost s0 = *self;
        let mut done = false;
        match opt_requester {
            Some(requester_id) => {
                let f1 = |info: FundInfo| -> (o: Option<FundInfo>)
                    ensures
                        o == force_unstake(info, requester_id, current_bl_nonce, n_blocks_before_force_unstake),
                    {
                        match info.fund_type {
                            FundType::ActiveForSale { created } => if info.user_id == requester_id && is_past(
                                created,
                                n_blocks_before_force_unstake,
                                current_bl_nonce,
                                false,
                            ) {
                                Some(FundInfo { fund_type: FundType::PendingDeactivation { requested_unstake: true }, user_id: info.user_id })
                            } else {
                                None
                            },
                            _ => None,
                        }
                    };
                self.split_convert_max(
                    &mut amount_to_unstake,
                    DISCR_ACTIVE_FOR_SALE,
                    DISCR_PENDING_DEACT,
                    f1,
                    Ghost(force_unstake_rel(requester_id, current_bl_nonce, n_blocks_before_force_unstake)),
                );
                if amount_to_unstake == 0 {
                    done = true;
                }
            },
            None => {},
        }
        let ghost s1 = *self;
        let ghost a1 = amount_to_unstake;
        if !done {
            let f2 = |info: FundInfo| -> (o: Option<FundInfo>)
                ensures
                    o == unstake_for_sale(info),
                {
                    match info.fund_type {
                        FundType::ActiveForSale { .. } => Some(
                            FundInfo { fund_type: FundType::PendingDeactivation { requested_unstake: true }, user_id: info.user_id },
                        ),
                        _ => None,
                    }
                };
            self.split_convert_max(&mut amount_to_unstake, DISCR_ACTIVE_FOR_SALE, DISCR_PENDING_DEACT, f2, Ghost(unstake_for_sale_rel()));
            if amount_to_unstake == 0 {
                done = true;
            }
        }
        let ghost s2 = *self;
        let ghost a2 = amount_to_unstake;
        let ghost done2 = done;
        if !done {
            let f3 = |info: FundInfo| -> (o: Option<FundInfo>)
                ensures
                    o == unstake_active(info),
                {
                    match info.fund_type {
                        FundType::Active => Some(
                            FundInfo { fund_type: FundType::PendingDeactivation { requested_unstake: false }, user_id: info.user_id },
                        ),
                        _ => None,
                    }
                };
            self.split_convert_max(&mut amount_to_unstake, DISCR_ACTIVE, DISCR_PENDING_DEACT, f3, Ghost(unstake_active_rel()));
            if amount_to_unstake == 0 {
                done = true;
            }
        }
        let r = if done {
            Ok(())
        } else {
            Err("insufficient stake to unstake")
        };
        proof {
            let a0 = *amount;
            let m1 = match opt_requester {
                Some(req) => choose|m1: int| walked(
                    s0,
                    s1,
                    DISCR_ACTIVE_FOR_SALE as int,
                    Some(DISCR_PENDING_DEACT as int),
                    Some(a0),
                    force_unstake_rel(req, current_bl_nonce, n_blocks_before_force_unstake),
                    Some(a1),
                    m1,
                ),
                None => 0int,
            };
            if !(opt_requester is Some && a1 == 0) {
                let m2 = choose|m2: int| walked(
                    s1,
                    s2,
                    DISCR_ACTIVE_FOR_SALE as int,
                    Some(DISCR_PENDING_DEACT as int),
                    Some(a1),
                    unstake_for_sale_rel(),
                    Some(a2),
                    m2,
                );
                if a2 > 0 {
                    let m3 = choose|m3: int| walked(
                        s2,
                        *self,
                        DISCR_ACTIVE as int,
                        Some(DISCR_PENDING_DEACT as int),
                        Some(a2),
                        unstake_active_rel(),
                        Some(amount_to_unstake),
                        m3,
                    );
                    assert(walked(
                        s2,
                        *self,
                        DISCR_ACTIVE as int,
                        Some(DISCR_PENDING_DEACT as int),
                        Some(a2),
                        unstake_active_rel(),
                        Some(amount_to_unstake),
                        m3,
                    ));
                }
                assert(walked(
                    s1,
                    s2,
                    DISCR_ACTIVE_FOR_SALE as int,
                    Some(DISCR_PENDING_DEACT as int),
                    Some(a1),
                    unstake_for_sale_rel(),
                    Some(a2),
                    m2,
                ));
            }
            assert(first_unstake_step(s0, s1, opt_requester, n_blocks_before_force_unstake, current_bl_nonce, a0, a1, m1));
        }
        r
    }
}

} // verus!
