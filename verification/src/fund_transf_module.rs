use vstd::prelude::*;
use crate::fund_type::{FundDescription, FundType};
use crate::fund_module::{
    ConvertTrace, FundModule, SwapDirection, user_results, type_results, strictly_increasing, seq_sum, lemma_sorted_same_elements,
};

verus! {

/// Any description is turned into `d`.
pub open spec fn always(d: FundDescription) -> spec_fn(FundDescription, Option<FundDescription>) -> bool {
    |x: FundDescription, o: Option<FundDescription>| o == Some(d)
}

/// Any fund, whoever owns it, is turned into `d`.
pub open spec fn always_any_owner(d: FundDescription) -> spec_fn(usize, FundDescription, Option<FundDescription>) -> bool {
    |u: usize, x: FundDescription, o: Option<FundDescription>| o == Some(d)
}

/// Unstaked funds become deferred payments created at the same block; others are left alone.
pub open spec fn unstaked_to_deferred(d: FundDescription) -> Option<FundDescription> {
    match d {
        FundDescription::UnStaked { created } => Some(FundDescription::DeferredPayment { created }),
        _ => None,
    }
}

/// Deferred payments created at least `n_blocks` blocks before `current` become withdraw-only.
pub open spec fn eligible_deferred(d: FundDescription, current: u64, n_blocks: u64) -> Option<FundDescription> {
    match d {
        FundDescription::DeferredPayment { created } => if current >= created + n_blocks {
            Some(FundDescription::WithdrawOnly)
        } else {
            None
        },
        _ => None,
    }
}

/// Whether a deferred payment created at block `created` can be claimed at block `current`.
pub fn deferred_is_due(created: u64, current: u64, n_blocks: u64) -> (r: bool)
    ensures
        r == (current >= created + n_blocks),
{
    (current as u128) >= (created as u128) + (n_blocks as u128)
}

/// A finished walk over a user list, as the callers see it: it follows `g`, ends in `new`,
/// starts and ends with the given maxima, and stopped at the end of the list or an exhausted maximum.
pub open spec fn user_walk_done(
    old: FundModule,
    new: FundModule,
    u: usize,
    src: FundType,
    dir: SwapDirection,
    g: spec_fn(FundDescription, Option<FundDescription>) -> bool,
    max0: Option<u128>,
    max1: Option<u128>,
    tr: ConvertTrace,
) -> bool {
    &&& FundModule::user_walk(old, u, src, dir, g, tr)
    &&& tr.states.last() == new
    &&& tr.maxes[0] == max0
    &&& tr.maxes.last() == max1
    &&& (FundModule::user_walk_next(old, u, src, dir, tr) == 0 || tr.maxes.last() == Some(0u128))
}

proof fn lemma_user_walk_exists_weaken(
    old: FundModule,
    new: FundModule,
    u: usize,
    src: FundType,
    dir: SwapDirection,
    g1: spec_fn(FundDescription, Option<FundDescription>) -> bool,
    g2: spec_fn(FundDescription, Option<FundDescription>) -> bool,
    max0: Option<u128>,
    max1: Option<u128>,
    sum: int,
)
    requires
        exists|tr: ConvertTrace|
            #![trigger FundModule::user_walk(old, u, src, dir, g1, tr)]
            FundModule::user_walk(old, u, src, dir, g1, tr) && tr.states.last() == new && tr.maxes[0] == max0
                && tr.maxes.last() == max1 && (FundModule::user_walk_next(old, u, src, dir, tr) == 0
                || tr.maxes.last() == Some(0u128)) && sum == seq_sum(tr.extracted),
        forall|d: FundDescription, o: Option<FundDescription>| #[trigger] g1(d, o) ==> g2(d, o),
    ensures
        exists|tr: ConvertTrace| user_walk_done(old, new, u, src, dir, g2, max0, max1, tr) && sum == seq_sum(tr.extracted),
{
    let tr = choose|tr: ConvertTrace|
        #![trigger FundModule::user_walk(old, u, src, dir, g1, tr)]
        FundModule::user_walk(old, u, src, dir, g1, tr) && tr.states.last() == new && tr.maxes[0] == max0
            && tr.maxes.last() == max1 && (FundModule::user_walk_next(old, u, src, dir, tr) == 0
            || tr.maxes.last() == Some(0u128)) && sum == seq_sum(tr.extracted);
    FundModule::lemma_user_walk_weaken(old, u, src, dir, g1, g2, tr);
    assert(user_walk_done(old, new, u, src, dir, g2, max0, max1, tr));
}

/// A finished walk over a type list, as the callers see it: it follows `g`, ends in `new`,
/// starts and ends with the given maxima, stopped at the end of the list, at an exhausted
/// maximum or where `stopped` holds, and visited the owners in `users`.
pub open spec fn type_walk_done(
    old: FundModule,
    new: FundModule,
    src: FundType,
    dir: SwapDirection,
    g: spec_fn(usize, FundDescription, Option<FundDescription>) -> bool,
    dry: bool,
    max0: Option<u128>,
    max1: Option<u128>,
    stopped: bool,
    users: Seq<usize>,
    tr: ConvertTrace,
) -> bool {
    &&& FundModule::type_walk(old, src, dir, g, dry, tr)
    &&& tr.states.last() == new
    &&& tr.maxes[0] == max0
    &&& tr.maxes.last() == max1
    &&& (FundModule::type_walk_next(old, src, dir, tr) == 0 || tr.maxes.last() == Some(0u128) || stopped)
    &&& forall|x: usize| users.contains(x) <==> FundModule::visited_users(tr).contains(x)
}

proof fn lemma_type_walk_exists_weaken(
    old: FundModule,
    new: FundModule,
    src: FundType,
    dir: SwapDirection,
    g1: spec_fn(usize, FundDescription, Option<FundDescription>) -> bool,
    g2: spec_fn(usize, FundDescription, Option<FundDescription>) -> bool,
    dry: bool,
    max0: Option<u128>,
    max1: Option<u128>,
    stopped: bool,
    users: Seq<usize>,
)
    requires
        exists|tr: ConvertTrace|
            #![trigger FundModule::type_walk(old, src, dir, g1, dry, tr)]
            FundModule::type_walk(old, src, dir, g1, dry, tr) && tr.states.last() == new && tr.maxes[0] == max0
                && tr.maxes.last() == max1 && (FundModule::type_walk_next(old, src, dir, tr) == 0
                || tr.maxes.last() == Some(0u128) || stopped) && (forall|x: usize|
                users.contains(x) <==> FundModule::visited_users(tr).contains(x)),
        forall|u: usize, d: FundDescription, o: Option<FundDescription>| #[trigger] g1(u, d, o) ==> g2(u, d, o),
    ensures
        exists|tr: ConvertTrace| type_walk_done(old, new, src, dir, g2, dry, max0, max1, stopped, users, tr),
{
    let tr = choose|tr: ConvertTrace|
        #![trigger FundModule::type_walk(old, src, dir, g1, dry, tr)]
        FundModule::type_walk(old, src, dir, g1, dry, tr) && tr.states.last() == new && tr.maxes[0] == max0
            && tr.maxes.last() == max1 && (FundModule::type_walk_next(old, src, dir, tr) == 0
            || tr.maxes.last() == Some(0u128) || stopped) && (forall|x: usize|
            users.contains(x) <==> FundModule::visited_users(tr).contains(x));
    FundModule::lemma_type_walk_weaken(old, src, dir, g1, g2, dry, tr);
    assert(type_walk_done(old, new, src, dir, g2, dry, max0, max1, stopped, users, tr));
}

/// Unstaked funds of any owner become deferred payments created at the same block.
pub open spec fn unstaked_to_deferred_any_owner() -> spec_fn(usize, FundDescription, Option<FundDescription>) -> bool {
    |u: usize, x: FundDescription, o: Option<FundDescription>| o == unstaked_to_deferred(x)
}

/// Deferred payments due at block `current` become withdraw-only.
pub open spec fn eligible_deferred_rel(current: u64, n_blocks: u64) -> spec_fn(FundDescription, Option<FundDescription>) -> bool {
    |x: FundDescription, o: Option<FundDescription>| o == eligible_deferred(x, current, n_blocks)
}

impl FundModule {
    /// Adds `balance` of waiting stake, created at block `current_bl_nonce`, for `user_id`.
    pub fn create_waiting(&mut self, user_id: usize, balance: u128, current_bl_nonce: u64)
        requires
            old(self).wf(),
            old(self).total_all() + balance <= u128::MAX,
        ensures
            final(self).wf(),
            Self::increased(
                *old(self),
                *final(self),
                user_id,
                FundDescription::Waiting { created: current_bl_nonce },
                balance,
            ),
            final(self).total_all() == old(self).total_all() + balance,
    {
        self.increase_fund_balance(user_id, FundDescription::Waiting { created: current_bl_nonce }, balance);
    }

    /// Deletes all withdraw-only funds of `user_id`; returns their sum.
    pub fn liquidate_all_withdraw_only(&mut self, user_id: usize) -> (r: u128)
        requires
            old(self).wf(),
        ensures
            final(self).wf(),
            r == old(self).user_total(user_id, FundType::WithdrawOnly),
            final(self).user_list(user_id, FundType::WithdrawOnly).len() == 0,
            Self::wiped(*old(self), *final(self), old(self).user_list(user_id, FundType::WithdrawOnly)),
            forall|t2: FundType|
                t2 != FundType::WithdrawOnly ==> #[trigger] final(self).type_list(t2) == old(self).type_list(t2),
            forall|u2: usize, t2: FundType|
                (u2, t2) != (user_id, FundType::WithdrawOnly) ==> #[trigger] final(self).user_list(u2, t2)
                    == old(self).user_list(u2, t2),
            final(self).total_all() == old(self).total_all() - r,
    {
        self.destroy_all_for_user(user_id, FundType::WithdrawOnly)
    }

    /// Turns up to `amount` of the active stake of `unstake_user_id`, oldest first, into
    /// unstaked stake created at block `current_bl_nonce`; `amount` is lowered by what was turned.
    pub fn swap_user_active_to_unstaked(&mut self, unstake_user_id: usize, amount: &mut u128, current_bl_nonce: u64)
        requires
            old(self).wf(),
        ensures
            final(self).wf(),
            final(self).total_all() == old(self).total_all(),
            exists|tr: ConvertTrace|
                user_walk_done(
                    *old(self),
                    *final(self),
                    unstake_user_id,
                    FundType::Active,
                    SwapDirection::Forwards,
                    always(FundDescription::UnStaked { created: current_bl_nonce }),
                    Some(*old(amount)),
                    Some(*final(amount)),
                    tr,
                ),
    {
        let target = FundDescription::UnStaked { created: current_bl_nonce };
        let f = |d: FundDescription| -> (o: Option<FundDescription>)
            ensures
                o == Some(target),
            { Some(target) };
        let ghost old_self = *self;
        let ghost a0 = *amount;
        let sum = self.split_convert_max_by_user(Some(amount), unstake_user_id, FundType::Active, SwapDirection::Forwards, f);
        proof {
            assert forall|d: FundDescription, o: Option<FundDescription>| #[trigger] user_results(f)(d, o) implies always(target)(d, o) by {
                assert(f.ensures((d,), o));
            }
            lemma_user_walk_exists_weaken(old_self, *self, unstake_user_id, FundType::Active, SwapDirection::Forwards,
                user_results(f), always(target), Some(a0), Some(*amount), sum as int);
        }
    }

    /// Turns up to `remaining` of the waiting stake of `user_id`, newest first, into
    /// withdraw-only funds; `remaining` is lowered by what was turned.
    pub fn swap_user_waiting_to_withdraw_only(&mut self, user_id: usize, remaining: &mut u128)
        requires
            old(self).wf(),
        ensures
            final(self).wf(),
            final(self).total_all() == old(self).total_all(),
            exists|tr: ConvertTrace|
                user_walk_done(
                    *old(self),
                    *final(self),
                    user_id,
                    FundType::Waiting,
                    SwapDirection::Backwards,
                    always(FundDescription::WithdrawOnly),
                    Some(*old(remaining)),
                    Some(*final(remaining)),
                    tr,
                ),
    {
        let f = |d: FundDescription| -> (o: Option<FundDescription>)
            ensures
                o == Some(FundDescription::WithdrawOnly),
            { Some(FundDescription::WithdrawOnly) };
        let ghost old_self = *self;
        let ghost a0 = *remaining;
        let sum = self.split_convert_max_by_user(Some(remaining), user_id, FundType::Waiting, SwapDirection::Backwards, f);
        proof {
            assert forall|d: FundDescription, o: Option<FundDescription>| #[trigger] user_results(f)(d, o) implies always(
                FundDescription::WithdrawOnly,
            )(d, o) by {
                assert(f.ensures((d,), o));
            }
            lemma_user_walk_exists_weaken(old_self, *self, user_id, FundType::Waiting, SwapDirection::Backwards,
                user_results(f), always(FundDescription::WithdrawOnly), Some(a0), Some(*remaining), sum as int);
        }
    }

    /// Turns every deferred payment of `user_id` that is due at block `current_bl_nonce`
    /// (created at least `n_blocks_before_claim` blocks before) into withdraw-only funds;
    /// returns the sum turned.
    pub fn swap_eligible_deferred_to_withdraw(&mut self, user_id: usize, n_blocks_before_claim: u64, current_bl_nonce: u64) -> (r: u128)
        requires
            old(self).wf(),
        ensures
            final(self).wf(),
            final(self).total_all() == old(self).total_all(),
            exists|tr: ConvertTrace|
                user_walk_done(
                    *old(self),
                    *final(self),
                    user_id,
                    FundType::DeferredPayment,
                    SwapDirection::Forwards,
                    eligible_deferred_rel(current_bl_nonce, n_blocks_before_claim),
                    None,
                    None,
                    tr,
                ) && r == seq_sum(tr.extracted),
    {
        let f = |d: FundDescription| -> (o: Option<FundDescription>)
            ensures
                o == eligible_deferred(d, current_bl_nonce, n_blocks_before_claim),
            {
                match d {
                    FundDescription::DeferredPayment { created } => {
                        if deferred_is_due(created, current_bl_nonce, n_blocks_before_claim) {
                            Some(FundDescription::WithdrawOnly)
                        } else {
                            None
                        }
                    },
                    _ => None,
                }
            };
        let ghost old_self = *self;
        let sum = self.split_convert_max_by_user(None, user_id, FundType::DeferredPayment, SwapDirection::Forwards, f);
        proof {
            assert forall|d: FundDescription, o: Option<FundDescription>| #[trigger] user_results(f)(d, o) implies eligible_deferred_rel(
                current_bl_nonce,
                n_blocks_before_claim,
            )(d, o) by {
                assert(f.ensures((d,), o));
            }
            lemma_user_walk_exists_weaken(old_self, *self, user_id, FundType::DeferredPayment, SwapDirection::Forwards,
                user_results(f), eligible_deferred_rel(current_bl_nonce, n_blocks_before_claim), None, None, sum as int);
        }
        sum
    }

    /// Activates up to `remaining` of the waiting stake, oldest first, until `interrupt` says
    /// to stop; `remaining` is lowered by what was activated. Returns the owners of the
    /// visited funds, sorted, each once.
    pub fn swap_waiting_to_active<I: Fn() -> bool>(&mut self, remaining: &mut u128, interrupt: I) -> (r: Vec<usize>)
        requires
            old(self).wf(),
            interrupt.requires(()),
        ensures
            final(self).wf(),
            final(self).total_all() == old(self).total_all(),
            strictly_increasing(r@),
            exists|tr: ConvertTrace|
                type_walk_done(
                    *old(self),
                    *final(self),
                    FundType::Waiting,
                    SwapDirection::Forwards,
                    always_any_owner(FundDescription::Active),
                    false,
                    Some(*old(remaining)),
                    Some(*final(remaining)),
                    interrupt.ensures((), true),
                    r@,
                    tr,
                ),
    {
        let f = |u: usize, d: FundDescription| -> (o: Option<FundDescription>)
            ensures
                o == Some(FundDescription::Active),
            { Some(FundDescription::Active) };
        let ghost old_self = *self;
        let ghost a0 = *remaining;
        let r = self.split_convert_max_by_type(Some(remaining), FundType::Waiting, SwapDirection::Forwards, f, interrupt, false);
        proof {
            assert forall|u: usize, d: FundDescription, o: Option<FundDescription>| #[trigger] type_results(f)(u, d, o) implies always_any_owner(
                FundDescription::Active,
            )(u, d, o) by {
                assert(f.ensures((u, d), o));
            }
            lemma_type_walk_exists_weaken(old_self, *self, FundType::Waiting, SwapDirection::Forwards, type_results(f),
                always_any_owner(FundDescription::Active), false, Some(a0), Some(*remaining), interrupt.ensures((), true), r@);
        }
        r
    }

    /// What `swap_waiting_to_active` would do with `amount`, without doing it: the owners of
    /// the funds it would visit, sorted, each once, and what would remain of `amount`.
    pub fn get_affected_users_of_swap_waiting_to_active<I: Fn() -> bool>(&mut self, amount: u128, interrupt: I) -> (r: (
        Vec<usize>,
        u128,
    ))
        requires
            old(self).wf(),
            interrupt.requires(()),
        ensures
            *final(self) == *old(self),
            strictly_increasing(r.0@),
            exists|tr: ConvertTrace|
                type_walk_done(
                    *old(self),
                    *old(self),
                    FundType::Waiting,
                    SwapDirection::Forwards,
                    always_any_owner(FundDescription::Active),
                    true,
                    Some(amount),
                    Some(r.1),
                    interrupt.ensures((), true),
                    r.0@,
                    tr,
                ),
    {
        let f = |u: usize, d: FundDescription| -> (o: Option<FundDescription>)
            ensures
                o == Some(FundDescription::Active),
            { Some(FundDescription::Active) };
        let ghost old_self = *self;
        let mut stake_to_activate = amount;
        let affected_users = self.split_convert_max_by_type(
            Some(&mut stake_to_activate),
            FundType::Waiting,
            SwapDirection::Forwards,
            f,
            interrupt,
            true,
        );
        proof {
            assert forall|u: usize, d: FundDescription, o: Option<FundDescription>| #[trigger] type_results(f)(u, d, o) implies always_any_owner(
                FundDescription::Active,
            )(u, d, o) by {
                assert(f.ensures((u, d), o));
            }
            lemma_type_walk_exists_weaken(old_self, *self, FundType::Waiting, SwapDirection::Forwards, type_results(f),
                always_any_owner(FundDescription::Active), true, Some(amount), Some(stake_to_activate),
                interrupt.ensures((), true), affected_users@);
            assert(*self == old_self);
        }
        let ghost au = affected_users@;
        let ghost rest = stake_to_activate;
        let r = (affected_users, stake_to_activate);
        proof {
            assert(r.0@ == au && r.1 == rest);
        }
        r
    }

    /// Turns up to `remaining` of the unstaked stake, oldest first, into deferred payments
    /// created at the same block, until `interrupt` says to stop; `remaining` is lowered by
    /// what was turned.
    pub fn swap_unstaked_to_deferred_payment<I: Fn() -> bool>(&mut self, remaining: &mut u128, interrupt: I)
        requires
            old(self).wf(),
            interrupt.requires(()),
        ensures
            final(self).wf(),
            final(self).total_all() == old(self).total_all(),
            exists|tr: ConvertTrace, users: Seq<usize>|
                type_walk_done(
                    *old(self),
                    *final(self),
                    FundType::UnStaked,
                    SwapDirection::Forwards,
                    unstaked_to_deferred_any_owner(),
                    false,
                    Some(*old(remaining)),
                    Some(*final(remaining)),
                    interrupt.ensures((), true),
                    users,
                    tr,
                ),
    {
        let f = |u: usize, d: FundDescription| -> (o: Option<FundDescription>)
            ensures
                o == unstaked_to_deferred(d),
            {
                match d {
                    FundDescription::UnStaked { created } => Some(FundDescription::DeferredPayment { created }),
                    _ => None,
                }
            };
        let ghost old_self = *self;
        let ghost a0 = *remaining;
        let r = self.split_convert_max_by_type(Some(remaining), FundType::UnStaked, SwapDirection::Forwards, f, interrupt, false);
        proof {
            assert forall|u: usize, d: FundDescription, o: Option<FundDescription>| #[trigger] type_results(f)(u, d, o) implies unstaked_to_deferred_any_owner()(
                u,
                d,
                o,
            ) by {
                assert(f.ensures((u, d), o));
            }
            lemma_type_walk_exists_weaken(old_self, *self, FundType::UnStaked, SwapDirection::Forwards, type_results(f),
                unstaked_to_deferred_any_owner(), false, Some(a0), Some(*remaining), interrupt.ensures((), true), r@);
        }
    }

    /// Turns up to `remaining` of the active stake, newest first, into deferred payments
    /// created at block `current_bl_nonce`, until `interrupt` says to stop; `remaining` is
    /// lowered by what was turned.
    pub fn swap_active_to_deferred_payment<I: Fn() -> bool>(&mut self, remaining: &mut u128, interrupt: I, current_bl_nonce: u64)
        requires
            old(self).wf(),
            interrupt.requires(()),
        ensures
            final(self).wf(),
            final(self).total_all() == old(self).total_all(),
            exists|tr: ConvertTrace, users: Seq<usize>|
                type_walk_done(
                    *old(self),
                    *final(self),
                    FundType::Active,
                    SwapDirection::Backwards,
                    always_any_owner(FundDescription::DeferredPayment { created: current_bl_nonce }),
                    false,
                    Some(*old(remaining)),
                    Some(*final(remaining)),
                    interrupt.ensures((), true),
                    users,
                    tr,
                ),
    {
        let target = FundDescription::DeferredPayment { created: current_bl_nonce };
        let f = |u: usize, d: FundDescription| -> (o: Option<FundDescription>)
            ensures
                o == Some(target),
            { Some(target) };
        let ghost old_self = *self;
        let ghost a0 = *remaining;
        let r = self.split_convert_max_by_type(Some(remaining), FundType::Active, SwapDirection::Backwards, f, interrupt, false);
        proof {
            assert forall|u: usize, d: FundDescription, o: Option<FundDescription>| #[trigger] type_results(f)(u, d, o) implies always_any_owner(
                target,
            )(u, d, o) by {
                assert(f.ensures((u, d), o));
            }
            lemma_type_walk_exists_weaken(old_self, *self, FundType::Active, SwapDirection::Backwards, type_results(f),
                always_any_owner(target), false, Some(a0), Some(*remaining), interrupt.ensures((), true), r@);
        }
    }
}


/// The dry run of the swap of waiting funds to active stake reports what the swap does: from
/// the same storage and the same amount, when neither run was interrupted, the users reported
/// by `get_affected_users_of_swap_waiting_to_active` and the amount it leaves are those of
/// `swap_waiting_to_active`.
pub proof fn law_dry_run_matches_swap(
    old: FundModule,
    amount: u128,
    new: FundModule,
    users_dry: Seq<usize>,
    left_dry: u128,
    users_real: Seq<usize>,
    left_real: u128,
)
    requires
        old.wf(),
        exists|tr: ConvertTrace|
            type_walk_done(
                old,
                old,
                FundType::Waiting,
                SwapDirection::Forwards,
                always_any_owner(FundDescription::Active),
                true,
                Some(amount),
                Some(left_dry),
                false,
                users_dry,
                tr,
            ),
        exists|tr: ConvertTrace|
            type_walk_done(
                old,
                new,
                FundType::Waiting,
                SwapDirection::Forwards,
                always_any_owner(FundDescription::Active),
                false,
                Some(amount),
                Some(left_real),
                false,
                users_real,
                tr,
            ),
        strictly_increasing(users_dry),
        strictly_increasing(users_real),
    ensures
        left_dry == left_real,
        users_dry == users_real,
{
    let g = always_any_owner(FundDescription::Active);
    let trd = choose|tr: ConvertTrace|
        type_walk_done(old, old, FundType::Waiting, SwapDirection::Forwards, g, true, Some(amount), Some(left_dry), false, users_dry, tr);
    let trr = choose|tr: ConvertTrace|
        type_walk_done(old, new, FundType::Waiting, SwapDirection::Forwards, g, false, Some(amount), Some(left_real), false, users_real, tr);
    FundModule::lemma_dry_walk_predicts(old, FundType::Waiting, FundDescription::Active, g, trd, trr);
    lemma_sorted_same_elements(users_dry, users_real);
}

} // verus!
