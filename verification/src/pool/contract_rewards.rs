use vstd::prelude::*;
use crate::pool::contract::StakingContract;
use crate::pool::states::UserStakeState;
use crate::rewards::{UserRewardData, updated_rewards, load_updated_user_rewards};
use crate::settings::OWNER_USER_ID;
use crate::user_data::id_of;

verus! {

impl StakingContract {
    /// Reward data of user `u` brought up to date with the total cumulated rewards `tot`.
    pub open spec fn updated_user_rewards(&self, tot: u128, u: int) -> UserRewardData {
        updated_rewards(
            self.rewards@[u],
            u as usize,
            tot,
            self.nodes.service_fee,
            self.ledger.stake_of(0, UserStakeState::Active) as u128,
            self.ledger.stake_of(0, UserStakeState::ActiveForSale) as u128,
            self.ledger.stake_of(u, UserStakeState::Active) as u128,
        )
    }

    /// Unclaimed rewards of users `1 .. k`, once brought up to date.
    pub open spec fn sum_updated_unclaimed(&self, tot: u128, k: int) -> int
        decreases k,
    {
        if k <= 1 {
            0
        } else {
            self.sum_updated_unclaimed(tot, k - 1) + self.updated_user_rewards(tot, k - 1).unclaimed_rewards
        }
    }

    /// Bringing user `u` up to date with `tot` fits the machine integers.
    pub open spec fn user_rewards_fit(&self, tot: u128, u: int) -> bool {
        let d = self.rewards@[u];
        &&& d.reward_checkpoint <= tot
        &&& d.unclaimed_rewards + (tot - d.reward_checkpoint) <= u128::MAX
    }

    /// Rewards can be computed for all users with the total cumulated rewards `tot`: the owner
    /// is registered, every user's rewards fit, and what the users are owed together with what
    /// was sent does not exceed what arrived.
    pub open spec fn rewards_computable(&self, tot: u128) -> bool {
        &&& self.ledger.num_users() >= 1
        &&& forall|u: int| 1 <= u <= self.ledger.num_users() ==> #[trigger] self.user_rewards_fit(tot, u)
        &&& self.sum_updated_unclaimed(tot, self.ledger.num_users() + 1) + self.sent_rewards <= tot
    }
}

/// The sums of updated unclaimed rewards grow with the number of users counted.
pub proof fn lemma_sum_updated_mono(c: &StakingContract, tot: u128, j: int, k: int)
    requires
        j <= k,
    ensures
        c.sum_updated_unclaimed(tot, j) <= c.sum_updated_unclaimed(tot, k),
    decreases k - j,
{
    if j < k {
        lemma_sum_updated_mono(c, tot, j, k - 1);
    }
}

impl StakingContract {
    /// The reward data of all users once brought up to date with `tot`, the owner also getting
    /// the remainder of the inexact divisions.
    pub open spec fn rewards_after_compute(&self, tot: u128) -> Seq<UserRewardData> {
        let n = self.ledger.num_users();
        let remainder = tot - self.sum_updated_unclaimed(tot, n + 1) - self.sent_rewards;
        Seq::new(
            self.rewards@.len(),
            |u: int|
                if u == 0 {
                    self.rewards@[0]
                } else if u == OWNER_USER_ID {
                    UserRewardData {
                        unclaimed_rewards: (self.updated_user_rewards(tot, u).unclaimed_rewards + remainder) as u128,
                        ..self.updated_user_rewards(tot, u)
                    }
                } else {
                    self.updated_user_rewards(tot, u)
                },
        )
    }

    /// Brings the rewards of every user up to date with the total cumulated rewards `tot`, and
    /// gives the remainder of the inexact divisions (what arrived, less what the users are
    /// owed and what was sent) to the owner.
    pub fn compute_all_rewards(&mut self, tot: u128)
        requires
            old(self).wf(),
            old(self).rewards_computable(tot),
        ensures
            final(self).wf(),
            final(self).rewards@ == old(self).rewards_after_compute(tot),
            final(self).ledger == old(self).ledger,
            final(self).nodes == old(self).nodes,
            final(self).users == old(self).users,
            final(self).settings == old(self).settings,
            final(self).offers@ == old(self).offers@,
            final(self).sent_rewards == old(self).sent_rewards,
            final(self).pause == old(self).pause,
    {
        let ghost c0 = *self;
        let n = self.ledger.rows.len() - 1;
        let total_active = self.ledger.get_user_stake_of_type(0, UserStakeState::Active);
        let total_for_sale = self.ledger.get_user_stake_of_type(0, UserStakeState::ActiveForSale);
        let service_fee = self.nodes.service_fee;
        proof {
            self.ledger.lemma_row_fits_two(UserStakeState::Active, UserStakeState::ActiveForSale);
            lemma_sum_updated_mono(&c0, tot, n + 1, n + 1);
        }
        let mut sum: u128 = 0;
        let mut user_id: usize = 1;
        while user_id <= n
            invariant
                self.wf(),
                1 <= user_id <= n + 1,
                n < usize::MAX,
                n == c0.ledger.num_users(),
                c0.rewards_computable(tot),
                c0.wf(),
                self.ledger == c0.ledger,
                self.nodes == c0.nodes,
                self.users == c0.users,
                self.settings == c0.settings,
                self.offers@ == c0.offers@,
                self.sent_rewards == c0.sent_rewards,
                self.pause == c0.pause,
                total_active == c0.ledger.stake_of(0, UserStakeState::Active),
                total_for_sale == c0.ledger.stake_of(0, UserStakeState::ActiveForSale),
                service_fee == c0.nodes.service_fee,
                total_active + total_for_sale <= u128::MAX,
                self.rewards@.len() == c0.rewards@.len(),
                sum == c0.sum_updated_unclaimed(tot, user_id as int),
                forall|u: int| 1 <= u < user_id ==> #[trigger] self.rewards@[u] == c0.updated_user_rewards(tot, u),
                forall|u: int| (u == 0 || user_id <= u < self.rewards@.len()) ==> #[trigger] self.rewards@[u] == c0.rewards@[u],
            decreases n + 1 - user_id,
        {
            assert(c0.user_rewards_fit(tot, user_id as int));
            let user_active = self.ledger.get_user_stake_of_type(user_id, UserStakeState::Active);
            proof {
                c0.ledger.lemma_user_active_le_total(user_id as int);
            }
            let d = load_updated_user_rewards(
                self.rewards[user_id],
                user_id,
                tot,
                service_fee,
                total_active,
                total_for_sale,
                user_active,
            );
            proof {
                lemma_sum_updated_mono(&c0, tot, user_id + 1, n + 1);
            }
            self.rewards.set(user_id, d);
            sum = sum + d.unclaimed_rewards;
            user_id = user_id + 1;
        }
        proof {
            lemma_sum_updated_mono(&c0, tot, 2, n + 1);
            assert(c0.sum_updated_unclaimed(tot, 1) == 0);
            assert(c0.sum_updated_unclaimed(tot, 2) == c0.updated_user_rewards(tot, 1).unclaimed_rewards);
        }
        let remainder = tot - sum - self.sent_rewards;
        if remainder > 0 {
            let owner = self.rewards[OWNER_USER_ID];
            self.rewards.set(
                OWNER_USER_ID,
                UserRewardData { reward_checkpoint: owner.reward_checkpoint, unclaimed_rewards: owner.unclaimed_rewards + remainder },
            );
        }
        assert(self.rewards@ =~= c0.rewards_after_compute(tot));
    }
}

impl StakingContract {
    /// Rewards the user registered for `user` could claim now, with the total cumulated
    /// rewards `tot`; nothing for an unknown address.
    pub fn get_claimable_rewards(&self, user: &Vec<u8>, tot: u128) -> (r: u128)
        requires
            self.wf(),
            forall|u: int| 1 <= u <= self.ledger.num_users() ==> #[trigger] self.user_rewards_fit(tot, u),
        ensures
            ({
                let id = id_of(self.users.view(), user@);
                r == if id == 0 { 0 } else { self.updated_user_rewards(tot, id as int).unclaimed_rewards }
            }),
    {
        let user_id = self.users.get_user_id(user);
        if user_id == 0 {
            return 0;
        }
        self.load_user_rewards(user_id, tot).unclaimed_rewards
    }

    /// Reward data of user `user_id` brought up to date with `tot`, without storing it.
    pub fn load_user_rewards(&self, user_id: usize, tot: u128) -> (r: UserRewardData)
        requires
            self.wf(),
            1 <= user_id <= self.ledger.num_users(),
            self.user_rewards_fit(tot, user_id as int),
        ensures
            r == self.updated_user_rewards(tot, user_id as int),
    {
        let total_active = self.ledger.get_user_stake_of_type(0, UserStakeState::Active);
        let total_for_sale = self.ledger.get_user_stake_of_type(0, UserStakeState::ActiveForSale);
        let user_active = self.ledger.get_user_stake_of_type(user_id, UserStakeState::Active);
        proof {
            self.ledger.lemma_row_fits_two(UserStakeState::Active, UserStakeState::ActiveForSale);
            self.ledger.lemma_user_active_le_total(user_id as int);
        }
        load_updated_user_rewards(
            self.rewards[user_id],
            user_id,
            tot,
            self.nodes.service_fee,
            total_active,
            total_for_sale,
            user_active,
        )
    }

    /// Rewards that all users could claim now, with the total cumulated rewards `tot`.
    pub fn get_total_unclaimed_rewards(&self, tot: u128) -> (r: u128)
        requires
            self.wf(),
            self.rewards_computable(tot),
        ensures
            r == self.sum_updated_unclaimed(tot, self.ledger.num_users() + 1),
    {
        let n = self.ledger.rows.len() - 1;
        let mut sum: u128 = 0;
        let mut user_id: usize = 1;
        while user_id <= n
            invariant
                self.wf(),
                self.rewards_computable(tot),
                n == self.ledger.num_users(),
                n < usize::MAX,
                1 <= user_id <= n + 1,
                sum == self.sum_updated_unclaimed(tot, user_id as int),
            decreases n + 1 - user_id,
        {
            assert(self.user_rewards_fit(tot, user_id as int));
            let d = self.load_user_rewards(user_id, tot);
            proof {
                lemma_sum_updated_mono(self, tot, user_id + 1, n + 1);
            }
            sum = sum + d.unclaimed_rewards;
            user_id = user_id + 1;
        }
        sum
    }

    /// The caller claims its rewards, brought up to date with `tot`: they are counted as sent
    /// and the amount to send is returned.
    pub fn claim_rewards(&mut self, caller: &Vec<u8>, tot: u128) -> (r: Result<u128, &'static str>)
        requires
            old(self).wf(),
            old(self).rewards_computable(tot),
        ensures
            final(self).wf(),
            ({
                let id = id_of(old(self).users.view(), caller@);
                if id == 0 {
                    (r matches Err(e) && e@ == "unknown caller"@) && *final(self) == *old(self)
                } else {
                    let d = old(self).updated_user_rewards(tot, id as int);
                    &&& r == Ok::<u128, &'static str>(d.unclaimed_rewards)
                    &&& final(self).rewards@ == old(self).rewards@.update(id as int, UserRewardData { unclaimed_rewards: 0, ..d })
                    &&& final(self).sent_rewards == old(self).sent_rewards + d.unclaimed_rewards
                    &&& final(self).ledger == old(self).ledger
                    &&& final(self).nodes == old(self).nodes
                    &&& final(self).users == old(self).users
                    &&& final(self).offers@ == old(self).offers@
                    &&& final(self).settings == old(self).settings
                }
            }),
    {
        let user_id = self.users.get_user_id(caller);
        if user_id == 0 {
            return Err("unknown caller");
        }
        assert(self.user_rewards_fit(tot, user_id as int));
        let mut d = self.load_user_rewards(user_id, tot);
        let amount = d.unclaimed_rewards;
        proof {
            lemma_sum_updated_mono(self, tot, user_id + 1, self.ledger.num_users() + 1);
            lemma_sum_updated_mono(self, tot, 0, user_id as int);
            assert(self.sum_updated_unclaimed(tot, user_id + 1) == self.sum_updated_unclaimed(tot, user_id as int) + amount);
        }
        if amount > 0 {
            self.sent_rewards = self.sent_rewards + amount;
            d.unclaimed_rewards = 0;
        }
        self.rewards.set(user_id, d);
        Ok(amount)
    }
}

/// Unclaimed rewards of users `1 .. k` in `rewards`.
pub open spec fn sum_unclaimed(rewards: Seq<UserRewardData>, k: int) -> int
    decreases k,
{
    if k <= 1 {
        0
    } else {
        sum_unclaimed(rewards, k - 1) + rewards[k - 1].unclaimed_rewards
    }
}

proof fn lemma_sum_after_compute(c: &StakingContract, tot: u128, k: int)
    requires
        c.wf(),
        c.rewards_computable(tot),
        1 <= k <= c.ledger.num_users() + 1,
    ensures
        sum_unclaimed(c.rewards_after_compute(tot), k) == c.sum_updated_unclaimed(tot, k) + if k >= 2 {
            tot - c.sum_updated_unclaimed(tot, c.ledger.num_users() + 1) - c.sent_rewards
        } else {
            0
        },
    decreases k,
{
    if k > 1 {
        lemma_sum_after_compute(c, tot, k - 1);
        lemma_sum_updated_mono(c, tot, k, c.ledger.num_users() + 1);
        lemma_sum_updated_mono(c, tot, 2, k);
        assert(c.sum_updated_unclaimed(tot, 1) == 0);
        assert(c.sum_updated_unclaimed(tot, 2) == c.updated_user_rewards(tot, 1).unclaimed_rewards);
    }
}

/// Once the rewards of all users are computed, what the users may claim and what was sent
/// add up to all the rewards that arrived: nothing is lost to the inexact divisions.
pub proof fn law_rewards_fully_distributed(c: &StakingContract, tot: u128)
    requires
        c.wf(),
        c.rewards_computable(tot),
    ensures
        sum_unclaimed(c.rewards_after_compute(tot), c.ledger.num_users() + 1) + c.sent_rewards == tot,
{
    lemma_sum_after_compute(c, tot, c.ledger.num_users() + 1);
}

impl StakingContract {
    /// Brings the rewards of user `user_id` up to date with `tot` and stores them.
    pub fn update_user_rewards(&mut self, user_id: usize, tot: u128)
        requires
            old(self).wf(),
            1 <= user_id <= old(self).ledger.num_users(),
            old(self).user_rewards_fit(tot, user_id as int),
        ensures
            final(self).wf(),
            final(self).rewards@ == old(self).rewards@.update(user_id as int, old(self).updated_user_rewards(tot, user_id as int)),
            final(self).ledger == old(self).ledger,
            final(self).nodes == old(self).nodes,
            final(self).users == old(self).users,
            final(self).offers@ == old(self).offers@,
            final(self).sent_rewards == old(self).sent_rewards,
    {
        let d = self.load_user_rewards(user_id, tot);
        self.rewards.set(user_id, d);
    }
}


/// Once a user claimed its rewards up to the total cumulated rewards `tot`, nothing more is
/// claimable for it with that same total: `c2` is `c` as `claim_rewards` leaves it for user `id`.
pub proof fn law_nothing_left_after_claim(c: &StakingContract, c2: &StakingContract, tot: u128, id: int)
    requires
        1 <= id < c.rewards@.len(),
        c.rewards@[id].reward_checkpoint <= tot,
        c2.rewards@ == c.rewards@.update(id, UserRewardData { unclaimed_rewards: 0, ..c.updated_user_rewards(tot, id) }),
        c2.ledger == c.ledger,
        c2.nodes == c.nodes,
    ensures
        c2.updated_user_rewards(tot, id).unclaimed_rewards == 0,
{
    let d = c.updated_user_rewards(tot, id);
    assert(d.reward_checkpoint == tot);
}

} // verus!
