use vstd::prelude::*;
use crate::fund_type::{FundDescription, FundType, types_in_use};
use crate::fund_item::{FundItem, lemma_sum_nonneg};
use crate::fund_module::{FundModule, SwapDirection, walk_order, filtered_sum};
use crate::fund_transf_module::{deferred_is_due, eligible_deferred};
use crate::user_data::{UserDataModule, UserView, id_of, address_of};

verus! {

/// The user id under which the totals of all users are reported. No user has id 0.
pub const USER_STAKE_TOTALS_ID: usize = 0;

/// Stake of one user, or of all users, by type: withdraw-only, waiting, active, unstaked,
/// deferred payment.
pub type StakeByType = (u128, u128, u128, u128, u128);

/// Stake of user `u` (or of all users, for the totals id) summed over the types `ts`.
pub open spec fn stake_over(m: FundModule, u: usize, ts: Seq<FundType>) -> int
    decreases ts.len(),
{
    if ts.len() == 0 {
        0
    } else {
        stake_over(m, u, ts.drop_last()) + if u == USER_STAKE_TOTALS_ID {
            m.type_total(ts.last())
        } else {
            m.user_total(u, ts.last())
        }
    }
}

impl FundModule {
    /// Stake of type `t` of user `u`; for the totals id, that of all users.
    pub open spec fn stake_of_type(&self, u: usize, t: FundType) -> int {
        if u == USER_STAKE_TOTALS_ID {
            self.type_total(t)
        } else {
            self.user_total(u, t)
        }
    }

    /// Sum of the stake of user `u` (or of all users) over the five types in use.
    pub open spec fn total_stake(&self, u: usize) -> int {
        self.stake_of_type(u, FundType::WithdrawOnly) + self.stake_of_type(u, FundType::Waiting) + self.stake_of_type(
            u,
            FundType::Active,
        ) + self.stake_of_type(u, FundType::UnStaked) + self.stake_of_type(u, FundType::DeferredPayment)
    }

    pub open spec fn stake_by_type(&self, u: usize) -> StakeByType {
        (
            self.stake_of_type(u, FundType::WithdrawOnly) as u128,
            self.stake_of_type(u, FundType::Waiting) as u128,
            self.stake_of_type(u, FundType::Active) as u128,
            self.stake_of_type(u, FundType::UnStaked) as u128,
            self.stake_of_type(u, FundType::DeferredPayment) as u128,
        )
    }

    proof fn lemma_stake_bounds(&self, u: usize)
        requires
            self.wf(),
        ensures
            0 <= self.stake_of_type(u, FundType::WithdrawOnly),
            0 <= self.stake_of_type(u, FundType::Waiting),
            0 <= self.stake_of_type(u, FundType::Active),
            0 <= self.stake_of_type(u, FundType::UnStaked),
            0 <= self.stake_of_type(u, FundType::DeferredPayment),
            self.total_stake(u) <= self.total_all() <= u128::MAX,
    {
        self.lemma_totals_bounded(u);
        assert(0 <= self.type_total(FundType::_PendingAct));
        assert(0 <= self.type_total(FundType::_ActiveFailed));
        assert(0 <= self.stake_of_type(u, FundType::WithdrawOnly) <= self.type_total(FundType::WithdrawOnly));
        assert(0 <= self.stake_of_type(u, FundType::Waiting) <= self.type_total(FundType::Waiting));
        assert(0 <= self.stake_of_type(u, FundType::Active) <= self.type_total(FundType::Active));
        assert(0 <= self.stake_of_type(u, FundType::UnStaked) <= self.type_total(FundType::UnStaked));
        assert(0 <= self.stake_of_type(u, FundType::DeferredPayment) <= self.type_total(FundType::DeferredPayment));
    }

    /// The total stake of a user (or of all users) is its stake summed over every fund type in
    /// use, withdraw-only included, so it is at least the stake of any one of those types.
    pub proof fn law_total_stake_sums_types_in_use(&self, u: usize)
        requires
            self.wf(),
        ensures
            self.total_stake(u) == stake_over(*self, u, types_in_use()),
            forall|i: int|
                0 <= i < types_in_use().len() ==> self.total_stake(u) >= if u == USER_STAKE_TOTALS_ID {
                    self.type_total(#[trigger] types_in_use()[i])
                } else {
                    self.user_total(u, types_in_use()[i])
                },
    {
        reveal_with_fuel(stake_over, 6);
        self.lemma_stake_bounds(u);
        let ts = types_in_use();
        assert(ts.drop_last() =~= seq![FundType::WithdrawOnly, FundType::Waiting, FundType::Active, FundType::UnStaked]);
        assert(ts.drop_last().drop_last() =~= seq![FundType::WithdrawOnly, FundType::Waiting, FundType::Active]);
        assert(ts.drop_last().drop_last().drop_last() =~= seq![FundType::WithdrawOnly, FundType::Waiting]);
        assert(ts.drop_last().drop_last().drop_last().drop_last() =~= seq![FundType::WithdrawOnly]);
        assert(ts.drop_last().drop_last().drop_last().drop_last().drop_last() =~= Seq::<FundType>::empty());
    }

    /// Stake of type `fund_type` of `user_id`; for the totals id, that of all users.
    pub fn get_user_stake_of_type(&self, user_id: usize, fund_type: FundType) -> (r: u128)
        requires
            self.wf(),
        ensures
            r == self.stake_of_type(user_id, fund_type),
    {
        if user_id == USER_STAKE_TOTALS_ID {
            self.get_fund_list_by_type(fund_type).total_balance
        } else {
            self.fund_list_by_user(user_id, fund_type).total_balance
        }
    }

    /// Stake of `user_id` (or of all users, for the totals id) summed over the types in use.
    pub fn get_user_total_stake(&self, user_id: usize) -> (r: u128)
        requires
            self.wf(),
        ensures
            r == self.total_stake(user_id),
    {
        proof {
            self.lemma_stake_bounds(user_id);
        }
        let mut sum: u128 = 0;
        sum = sum + self.get_user_stake_of_type(user_id, FundType::WithdrawOnly);
        sum = sum + self.get_user_stake_of_type(user_id, FundType::Waiting);
        sum = sum + self.get_user_stake_of_type(user_id, FundType::Active);
        sum = sum + self.get_user_stake_of_type(user_id, FundType::UnStaked);
        sum = sum + self.get_user_stake_of_type(user_id, FundType::DeferredPayment);
        sum
    }

    /// Stake of all users summed over the types in use.
    pub fn get_total_stake(&self) -> (r: u128)
        requires
            self.wf(),
        ensures
            r == self.total_stake(USER_STAKE_TOTALS_ID),
    {
        self.get_user_total_stake(USER_STAKE_TOTALS_ID)
    }

    /// Stake of the user registered for `user_address`, summed over the types in use; 0 for an
    /// unknown address.
    pub fn get_user_total_stake_endpoint(&self, users: &UserDataModule, user_address: &Vec<u8>) -> (r: u128)
        requires
            self.wf(),
            users.wf(),
        ensures
            r == (if id_of(users.view(), user_address@) == 0 {
                0
            } else {
                self.total_stake(id_of(users.view(), user_address@))
            }),
    {
        let user_id = users.get_user_id(user_address);
        if user_id == 0 {
            0
        } else {
            self.get_user_total_stake(user_id)
        }
    }

    /// Stake of type `fund_type` of the user registered for `user_address`; 0 for an unknown address.
    pub fn get_user_stake_of_type_by_address(&self, users: &UserDataModule, user_address: &Vec<u8>, fund_type: FundType) -> (r: u128)
        requires
            self.wf(),
            users.wf(),
        ensures
            r == (if id_of(users.view(), user_address@) == 0 {
                0
            } else {
                self.stake_of_type(id_of(users.view(), user_address@), fund_type)
            }),
    {
        let user_id = users.get_user_id(user_address);
        if user_id == 0 {
            0
        } else {
            self.get_user_stake_of_type(user_id, fund_type)
        }
    }

    pub fn get_user_withdraw_only_stake(&self, users: &UserDataModule, user_address: &Vec<u8>) -> (r: u128)
        requires
            self.wf(),
            users.wf(),
        ensures
            r == (if id_of(users.view(), user_address@) == 0 {
                0
            } else {
                self.stake_of_type(id_of(users.view(), user_address@), FundType::WithdrawOnly)
            }),
    {
        self.get_user_stake_of_type_by_address(users, user_address, FundType::WithdrawOnly)
    }

    pub fn get_user_waiting_stake(&self, users: &UserDataModule, user_address: &Vec<u8>) -> (r: u128)
        requires
            self.wf(),
            users.wf(),
        ensures
            r == (if id_of(users.view(), user_address@) == 0 {
                0
            } else {
                self.stake_of_type(id_of(users.view(), user_address@), FundType::Waiting)
            }),
    {
        self.get_user_stake_of_type_by_address(users, user_address, FundType::Waiting)
    }

    pub fn get_user_active_stake(&self, users: &UserDataModule, user_address: &Vec<u8>) -> (r: u128)
        requires
            self.wf(),
            users.wf(),
        ensures
            r == (if id_of(users.view(), user_address@) == 0 {
                0
            } else {
                self.stake_of_type(id_of(users.view(), user_address@), FundType::Active)
            }),
    {
        self.get_user_stake_of_type_by_address(users, user_address, FundType::Active)
    }

    pub fn get_user_unstaked_stake(&self, users: &UserDataModule, user_address: &Vec<u8>) -> (r: u128)
        requires
            self.wf(),
            users.wf(),
        ensures
            r == (if id_of(users.view(), user_address@) == 0 {
                0
            } else {
                self.stake_of_type(id_of(users.view(), user_address@), FundType::UnStaked)
            }),
    {
        self.get_user_stake_of_type_by_address(users, user_address, FundType::UnStaked)
    }

    pub fn get_user_deferred_payment_stake(&self, users: &UserDataModule, user_address: &Vec<u8>) -> (r: u128)
        requires
            self.wf(),
            users.wf(),
        ensures
            r == (if id_of(users.view(), user_address@) == 0 {
                0
            } else {
                self.stake_of_type(id_of(users.view(), user_address@), FundType::DeferredPayment)
            }),
    {
        self.get_user_stake_of_type_by_address(users, user_address, FundType::DeferredPayment)
    }

    pub fn get_total_withdraw_only_stake(&self) -> (r: u128)
        requires
            self.wf(),
        ensures
            r == self.type_total(FundType::WithdrawOnly),
    {
        self.get_user_stake_of_type(USER_STAKE_TOTALS_ID, FundType::WithdrawOnly)
    }

    pub fn get_total_waiting_stake(&self) -> (r: u128)
        requires
            self.wf(),
        ensures
            r == self.type_total(FundType::Waiting),
    {
        self.get_user_stake_of_type(USER_STAKE_TOTALS_ID, FundType::Waiting)
    }

    pub fn get_total_active_stake(&self) -> (r: u128)
        requires
            self.wf(),
        ensures
            r == self.type_total(FundType::Active),
    {
        self.get_user_stake_of_type(USER_STAKE_TOTALS_ID, FundType::Active)
    }

    pub fn get_total_unstaked_stake(&self) -> (r: u128)
        requires
            self.wf(),
        ensures
            r == self.type_total(FundType::UnStaked),
    {
        self.get_user_stake_of_type(USER_STAKE_TOTALS_ID, FundType::UnStaked)
    }

    pub fn get_total_deferred_payment_stake(&self) -> (r: u128)
        requires
            self.wf(),
        ensures
            r == self.type_total(FundType::DeferredPayment),
    {
        self.get_user_stake_of_type(USER_STAKE_TOTALS_ID, FundType::DeferredPayment)
    }

    /// Stake of `user_id` (or of all users) in each of the types in use.
    pub fn get_user_stake_by_type(&self, user_id: usize) -> (r: StakeByType)
        requires
            self.wf(),
        ensures
            r == self.stake_by_type(user_id),
    {
        (
            self.get_user_stake_of_type(user_id, FundType::WithdrawOnly),
            self.get_user_stake_of_type(user_id, FundType::Waiting),
            self.get_user_stake_of_type(user_id, FundType::Active),
            self.get_user_stake_of_type(user_id, FundType::UnStaked),
            self.get_user_stake_of_type(user_id, FundType::DeferredPayment),
        )
    }

    /// Stake by type of the user registered for `user_address`; zeros for an unknown address.
    pub fn get_user_stake_by_type_endpoint(&self, users: &UserDataModule, user_address: &Vec<u8>) -> (r: StakeByType)
        requires
            self.wf(),
            users.wf(),
        ensures
            r == (if id_of(users.view(), user_address@) == 0 {
                (0u128, 0u128, 0u128, 0u128, 0u128)
            } else {
                self.stake_by_type(id_of(users.view(), user_address@))
            }),
    {
        let user_id = users.get_user_id(user_address);
        if user_id == 0 {
            (0, 0, 0, 0, 0)
        } else {
            self.get_user_stake_by_type(user_id)
        }
    }

    /// Stake of all users in each of the types in use.
    pub fn get_total_stake_by_type_endpoint(&self) -> (r: StakeByType)
        requires
            self.wf(),
        ensures
            r == self.stake_by_type(USER_STAKE_TOTALS_ID),
    {
        self.get_user_stake_by_type(USER_STAKE_TOTALS_ID)
    }

    /// For every user id from 1 to the number of users: its stored address (empty when none)
    /// and its stake by type.
    pub fn get_all_user_stake_by_type(&self, users: &UserDataModule) -> (r: Vec<(Vec<u8>, StakeByType)>)
        requires
            self.wf(),
            users.wf(),
        ensures
            r@.len() == users.view().num_users,
            forall|i: int|
                0 <= i < r@.len() ==> (#[trigger] r@[i]).0@ == address_of(users.view(), (i + 1) as usize) && r@[i].1
                    == self.stake_by_type((i + 1) as usize),
    {
        let mut result: Vec<(Vec<u8>, StakeByType)> = Vec::new();
        let num_users = users.get_num_users();
        let mut i: usize = 0;
        while i < num_users
            invariant
                self.wf(),
                num_users == users.view().num_users,
                i <= num_users,
                result@.len() == i,
                forall|j: int|
                    0 <= j < i ==> (#[trigger] result@[j]).0@ == address_of(users.view(), (j + 1) as usize)
                        && result@[j].1 == self.stake_by_type((j + 1) as usize),
            decreases num_users - i,
        {
            let user_id = i + 1;
            let address = users.get_user_address(user_id);
            let stake = self.get_user_stake_by_type(user_id);
            result.push((address, stake));
            i = i + 1;
        }
        result
    }

    /// Deferred payments of the user registered for `user_address`, oldest first: amount and
    /// creation block. Empty for an unknown address.
    pub fn get_user_deferred_payment_list(&self, users: &UserDataModule, user_address: &Vec<u8>) -> (r: Vec<(u128, u64)>)
        requires
            self.wf(),
            users.wf(),
        ensures
            r@ == (if id_of(users.view(), user_address@) == 0 {
                Seq::<(u128, u64)>::empty()
            } else {
                deferred_rows(
                    walk_order(
                        self.user_list(id_of(users.view(), user_address@), FundType::DeferredPayment),
                        SwapDirection::Forwards,
                    ).map_values(|id: usize| self.fund(id as int)),
                )
            }),
    {
        let mut result: Vec<(u128, u64)> = Vec::new();
        let user_id = users.get_user_id(user_address);
        if user_id > 0 {
            let items = self.foreach_fund_by_user_type(user_id, FundType::DeferredPayment, SwapDirection::Forwards);
            let mut i: usize = 0;
            while i < items.len()
                invariant
                    i <= items@.len(),
                    result@ == deferred_rows(items@.take(i as int)),
                decreases items@.len() - i,
            {
                let it = items[i];
                proof {
                    assert(items@.take(i + 1).drop_last() =~= items@.take(i as int));
                }
                match it.fund_desc {
                    FundDescription::DeferredPayment { created } => {
                        result.push((it.balance, created));
                    },
                    _ => {},
                }
                i = i + 1;
            }
            proof {
                assert(items@.take(items@.len() as int) =~= items@);
            }
        }
        result
    }

    /// Sum of the deferred payments of `user_id` that are due at block `current_bl_nonce`.
    pub fn eligible_deferred_payment(&self, user_id: usize, n_blocks_before_claim: u64, current_bl_nonce: u64) -> (r: u128)
        requires
            self.wf(),
        ensures
            exists|keep: Seq<bool>|
                {
                    &&& keep.len() == self.user_list(user_id, FundType::DeferredPayment).len()
                    &&& forall|k: int|
                        0 <= k < keep.len() ==> #[trigger] keep[k] == (eligible_deferred(
                            self.fund(self.user_list(user_id, FundType::DeferredPayment)[k] as int).fund_desc,
                            current_bl_nonce,
                            n_blocks_before_claim,
                        ) is Some)
                    &&& r == filtered_sum(self.items_seq(), self.user_list(user_id, FundType::DeferredPayment), keep)
                },
    {
        let f = |d: FundDescription| -> (b: bool)
            ensures
                b == (eligible_deferred(d, current_bl_nonce, n_blocks_before_claim) is Some),
            {
                match d {
                    FundDescription::DeferredPayment { created } => deferred_is_due(
                        created,
                        current_bl_nonce,
                        n_blocks_before_claim,
                    ),
                    _ => false,
                }
            };
        self.query_sum_funds_by_user_type(user_id, FundType::DeferredPayment, f)
    }

    /// All waiting funds, oldest first: owner's address (empty when none), amount, creation block.
    pub fn get_full_waiting_list(&self, users: &UserDataModule) -> (r: Vec<(Vec<u8>, u128, u64)>)
        requires
            self.wf(),
            users.wf(),
        ensures
            rows_match(
                r@,
                waiting_rows(
                    users.view(),
                    walk_order(self.type_list(FundType::Waiting), SwapDirection::Forwards).map_values(
                        |id: usize| self.fund(id as int),
                    ),
                ),
            ),
    {
        let items = self.foreach_fund_by_type(FundType::Waiting, SwapDirection::Forwards);
        let mut result: Vec<(Vec<u8>, u128, u64)> = Vec::new();
        let mut i: usize = 0;
        while i < items.len()
            invariant
                i <= items@.len(),
                rows_match(result@, waiting_rows(users.view(), items@.take(i as int))),
            decreases items@.len() - i,
        {
            let it = items[i];
            proof {
                assert(items@.take(i + 1).drop_last() =~= items@.take(i as int));
            }
            match it.fund_desc {
                FundDescription::Waiting { created } => {
                    let address = users.get_user_address(it.user_id);
                    result.push((address, it.balance, created));
                },
                _ => {},
            }
            i = i + 1;
        }
        proof {
            assert(items@.take(items@.len() as int) =~= items@);
        }
        result
    }

    /// All active funds, oldest first: owner's address (32 zero bytes when none) and amount.
    pub fn get_full_active_list(&self, users: &UserDataModule) -> (r: Vec<(Vec<u8>, u128)>)
        requires
            self.wf(),
            users.wf(),
        ensures
            pairs_match(
                r@,
                active_rows(
                    users.view(),
                    walk_order(self.type_list(FundType::Active), SwapDirection::Forwards).map_values(
                        |id: usize| self.fund(id as int),
                    ),
                ),
            ),
    {
        let items = self.foreach_fund_by_type(FundType::Active, SwapDirection::Forwards);
        let mut result: Vec<(Vec<u8>, u128)> = Vec::new();
        let mut i: usize = 0;
        while i < items.len()
            invariant
                i <= items@.len(),
                pairs_match(result@, active_rows(users.view(), items@.take(i as int))),
            decreases items@.len() - i,
        {
            let it = items[i];
            proof {
                assert(items@.take(i + 1).drop_last() =~= items@.take(i as int));
            }
            match it.fund_desc {
                FundDescription::Active => {
                    if users.is_empty_user_address(it.user_id) {
                        result.push((zero_address(), it.balance));
                    } else {
                        let address = users.get_user_address(it.user_id);
                        result.push((address, it.balance));
                    }
                },
                _ => {},
            }
            i = i + 1;
        }
        proof {
            assert(items@.take(items@.len() as int) =~= items@);
        }
        result
    }
}

/// Amount and creation block of each deferred payment among `items`, in order.
pub open spec fn deferred_rows(items: Seq<FundItem>) -> Seq<(u128, u64)>
    decreases items.len(),
{
    if items.len() == 0 {
        Seq::empty()
    } else {
        let rest = deferred_rows(items.drop_last());
        match items.last().fund_desc {
            FundDescription::DeferredPayment { created } => rest.push((items.last().balance, created)),
            _ => rest,
        }
    }
}

/// Owner's address, amount and creation block of each waiting fund among `items`, in order.
pub open spec fn waiting_rows(v: UserView, items: Seq<FundItem>) -> Seq<(Seq<u8>, u128, u64)>
    decreases items.len(),
{
    if items.len() == 0 {
        Seq::empty()
    } else {
        let rest = waiting_rows(v, items.drop_last());
        let it = items.last();
        match it.fund_desc {
            FundDescription::Waiting { created } => rest.push((address_of(v, it.user_id), it.balance, created)),
            _ => rest,
        }
    }
}

/// The address reported for an owner without a stored address.
pub open spec fn spec_zero_address() -> Seq<u8> {
    Seq::new(32, |i: int| 0u8)
}

/// Owner's address (the zero address when none) and amount of each active fund among `items`.
pub open spec fn active_rows(v: UserView, items: Seq<FundItem>) -> Seq<(Seq<u8>, u128)>
    decreases items.len(),
{
    if items.len() == 0 {
        Seq::empty()
    } else {
        let rest = active_rows(v, items.drop_last());
        let it = items.last();
        match it.fund_desc {
            FundDescription::Active => rest.push(
                (
                    if v.addresses.contains_key(it.user_id) {
                        address_of(v, it.user_id)
                    } else {
                        spec_zero_address()
                    },
                    it.balance,
                ),
            ),
            _ => rest,
        }
    }
}

/// The rows of `r` hold the bytes and numbers of `rows`.
pub open spec fn rows_match(r: Seq<(Vec<u8>, u128, u64)>, rows: Seq<(Seq<u8>, u128, u64)>) -> bool {
    &&& r.len() == rows.len()
    &&& forall|i: int|
        0 <= i < r.len() ==> (#[trigger] r[i]).0@ == rows[i].0 && r[i].1 == rows[i].1 && r[i].2 == rows[i].2
}

/// The pairs of `r` hold the bytes and numbers of `rows`.
pub open spec fn pairs_match(r: Seq<(Vec<u8>, u128)>, rows: Seq<(Seq<u8>, u128)>) -> bool {
    &&& r.len() == rows.len()
    &&& forall|i: int| 0 <= i < r.len() ==> (#[trigger] r[i]).0@ == rows[i].0 && r[i].1 == rows[i].1
}

/// Thirty-two zero bytes.
pub fn zero_address() -> (r: Vec<u8>)
    ensures
        r@ == spec_zero_address(),
{
    let mut r: Vec<u8> = Vec::new();
    let mut i: usize = 0;
    while i < 32
        invariant
            i <= 32,
            r@ == Seq::new(i as nat, |j: int| 0u8),
        decreases 32 - i,
    {
        r.push(0u8);
        i = i + 1;
        assert(r@ =~= Seq::new(i as nat, |j: int| 0u8));
    }
    r
}

} // verus!
