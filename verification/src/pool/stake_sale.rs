use vstd::prelude::*;
use crate::pool::contract::{StakeOffer, StakingContract};
use crate::pool::states::UserStakeState;
use crate::rewards::{UserRewardData, load_updated_user_rewards, updated_rewards};
use crate::user_data::{UserView, id_of};

verus! {

/// Payment owed to the seller of stake. It is queued each time someone buys stake, and can
/// be claimed only once enough blocks have passed.
#[derive(PartialEq, Eq, Structural, Clone, Copy, Debug)]
pub struct StakeSalePayment {
    pub user_id: usize,
    pub amount: u128,
    pub claim_after_nonce: u64,
}

impl StakingContract {
    /// The contract once `address` is registered: an unknown address gets the next user id,
    /// with no stake, no rewards and no offer.
    pub open spec fn registered(&self, address: Seq<u8>, after: StakingContract) -> bool {
        let id = id_of(self.users.view(), address);
        if id != 0 {
            after == *self
        } else {
            let new_id = self.users.view().num_users + 1;
            &&& after.users.view() == (UserView {
                num_users: new_id as nat,
                ids: self.users.view().ids.insert(address, new_id as usize),
                ..self.users.view()
            })
            &&& after.ledger.num_users() == new_id
            &&& forall|u: int, s: UserStakeState| #[trigger] after.ledger.stake_of(u, s) == if u == new_id {
                0
            } else {
                self.ledger.stake_of(u, s)
            }
            &&& forall|u: int| #[trigger] after.ledger.total_of(u) == if u == new_id { 0 } else { self.ledger.total_of(u) }
            &&& after.ledger.unbond_queue@ == self.ledger.unbond_queue@
            &&& after.rewards@ == self.rewards@.push(UserRewardData { reward_checkpoint: 0, unclaimed_rewards: 0 })
            &&& after.offers@ == self.offers@.push(StakeOffer { amount: 0, bl_nonce: 0 })
            &&& after.nodes == self.nodes
            &&& after.settings == self.settings
            &&& after.sent_rewards == self.sent_rewards
            &&& after.pause == self.pause
        }
    }

    /// The id of `address`, registering it first when it is unknown.
    pub(crate) fn register_user(&mut self, address: &Vec<u8>) -> (r: usize)
        requires
            old(self).wf(),
            id_of(old(self).users.view(), address@) == 0 ==> old(self).ledger.rows@.len() < usize::MAX,
        ensures
            final(self).wf(),
            old(self).registered(address@, *final(self)),
            r == if id_of(old(self).users.view(), address@) != 0 {
                id_of(old(self).users.view(), address@) as int
            } else {
                old(self).users.view().num_users as int + 1
            },
            1 <= r <= final(self).ledger.num_users(),
    {
        let id = self.users.get_user_id(address);
        if id != 0 {
            return id;
        }
        let new_id = self.users.new_user();
        self.users.set_user_id(address, new_id);
        let lid = self.ledger.add_user();
        assert(self.users.view().ids =~= old(self).users.view().ids.insert(address@, new_id));
        self.rewards.push(UserRewardData { reward_checkpoint: 0, unclaimed_rewards: 0 });
        self.offers.push(StakeOffer { amount: 0, bl_nonce: 0 });
        new_id
    }
}

/// Whether a user total of `t` is refused: some stake, but less than the minimum.
pub open spec fn below_minimum(t: int, minimum_stake: u128) -> bool {
    t > 0 && t < minimum_stake
}

impl StakingContract {
    /// Rewards of every user, and of a new one, can be brought up to date with `tot`.
    pub open spec fn all_rewards_fit(&self, tot: u128) -> bool {
        &&& forall|u: int| 1 <= u <= self.ledger.num_users() ==> #[trigger] self.user_rewards_fit(tot, u)
    }

    /// Lets a delegator offer `amount` of its active stake for sale at block `bl_nonce`,
    /// replacing any earlier offer.
    pub fn announce_unstake(&mut self, caller: &Vec<u8>, amount: u128, bl_nonce: u64) -> (r: Result<(), &'static str>)
        requires
            old(self).wf(),
        ensures
            final(self).wf(),
            ({
                let id = id_of(old(self).users.view(), caller@);
                if id == 0 {
                    (r matches Err(e) && e@ == "only delegators can offer stake for sale"@) && *final(self) == *old(self)
                } else if amount > old(self).ledger.stake_of(id as int, UserStakeState::Active) {
                    (r matches Err(e) && e@ == "cannot offer more than the user active stake"@) && *final(self) == *old(self)
                } else {
                    &&& r is Ok
                    &&& final(self).offers@ == old(self).offers@.update(id as int, StakeOffer { amount, bl_nonce })
                    &&& final(self).ledger == old(self).ledger
                    &&& final(self).nodes == old(self).nodes
                    &&& final(self).users == old(self).users
                    &&& final(self).rewards@ == old(self).rewards@
                    &&& final(self).settings == old(self).settings
                }
            }),
    {
        let user_id = self.users.get_user_id(caller);
        if user_id == 0 {
            return Err("only delegators can offer stake for sale");
        }
        let stake = self.ledger.get_user_stake_of_type(user_id, UserStakeState::Active);
        if amount > stake {
            return Err("cannot offer more than the user active stake");
        }
        self.offers.set(user_id, StakeOffer { amount, bl_nonce });
        Ok(())
    }

    /// Stake that the user registered for `user` offers for sale; nothing for an unknown address.
    pub fn get_stake_for_sale(&self, user: &Vec<u8>) -> (r: u128)
        requires
            self.wf(),
        ensures
            ({
                let id = id_of(self.users.view(), user@);
                r == if id == 0 { 0 } else { self.offers@[id as int].amount }
            }),
    {
        let user_id = self.users.get_user_id(user);
        if user_id == 0 {
            return 0;
        }
        self.offers[user_id].amount
    }

    /// Block of the stake offer of the user registered for `user`; 0 for an unknown address.
    pub fn get_time_of_stake_offer(&self, user: &Vec<u8>) -> (r: u64)
        requires
            self.wf(),
        ensures
            ({
                let id = id_of(self.users.view(), user@);
                r == if id == 0 { 0 } else { self.offers@[id as int].bl_nonce }
            }),
    {
        let user_id = self.users.get_user_id(user);
        if user_id == 0 {
            return 0;
        }
        self.offers[user_id].bl_nonce
    }
}

impl StakingContract {
    /// The ids that a purchase of stake involves: the seller's, and the buyer's once
    /// registered.
    pub open spec fn buyer_id(&self, caller: Seq<u8>) -> int {
        let id = id_of(self.users.view(), caller);
        if id != 0 {
            id as int
        } else {
            self.users.view().num_users as int + 1
        }
    }

    /// The buyer's total stake once the purchase of `payment` from `seller_id` is done.
    pub open spec fn buyer_total_after(&self, caller: Seq<u8>, seller_id: int, payment: u128) -> int {
        let bid = self.buyer_id(caller);
        (if bid == seller_id { self.ledger.total_of(seller_id) - payment } else { self.ledger.total_of(bid) }) + payment
    }

    /// A delegator buys `payment` of active stake that `seller` offered for sale. The buyer is
    /// registered if needed; the rewards of both are brought up to date with `tot` before the
    /// stake changes hands; neither may be left with some stake but less than `minimum_stake`.
    /// On any error nothing changes. Moving the paid tokens to the seller is a transfer between
    /// accounts, which this ledger does not hold: on `Ok` the host that runs the contract sends
    /// `payment` to `seller`.
    pub fn purchase_stake(
        &mut self,
        caller: &Vec<u8>,
        seller: &Vec<u8>,
        payment: u128,
        tot: u128,
        minimum_stake: u128,
    ) -> (r: Result<(), &'static str>)
        requires
            old(self).wf(),
            old(self).all_rewards_fit(tot),
            id_of(old(self).users.view(), caller@) == 0 ==> old(self).ledger.rows@.len() + 1 < usize::MAX,
        ensures
            final(self).wf(),
            ({
                let sid = id_of(old(self).users.view(), seller@) as int;
                let bid = old(self).buyer_id(caller@);
                if old(self).pause.stake_sale_paused {
                    (r matches Err(e) && e@ == "stake sale paused"@) && *final(self) == *old(self)
                } else if payment == 0 {
                    r is Ok && *final(self) == *old(self)
                } else if sid == 0 {
                    (r matches Err(e) && e@ == "unknown seller"@) && *final(self) == *old(self)
                } else if payment > old(self).offers@[sid].amount {
                    (r matches Err(e) && e@ == "payment exceeds stake offered"@) && *final(self) == *old(self)
                } else if payment > old(self).ledger.stake_of(sid, UserStakeState::Active) {
                    (r matches Err(e) && e@ == "payment exceeds seller active stake"@) && *final(self) == *old(self)
                } else if below_minimum(old(self).ledger.total_of(sid) - payment, minimum_stake) || below_minimum(
                    old(self).buyer_total_after(caller@, sid, payment),
                    minimum_stake,
                ) {
                    (r matches Err(e) && e@ == "cannot have less stake than minimum stake"@) && *final(self) == *old(self)
                } else {
                    &&& r is Ok
                    &&& exists|reg: StakingContract| #[trigger] old(self).registered(caller@, reg) && {
                        let fee = reg.nodes.service_fee;
                        let a = reg.ledger.stake_of(0, UserStakeState::Active) as u128;
                        let f = reg.ledger.stake_of(0, UserStakeState::ActiveForSale) as u128;
                        let r1 = reg.rewards@.update(sid, reg.updated_user_rewards(tot, sid));
                        let r2 = r1.update(
                            bid,
                            updated_rewards(r1[bid], bid as usize, tot, fee, a, f, reg.ledger.stake_of(bid, UserStakeState::Active) as u128),
                        );
                        &&& final(self).users == reg.users
                        &&& final(self).offers@ == reg.offers@.update(
                            sid,
                            StakeOffer { amount: (reg.offers@[sid].amount - payment) as u128, ..reg.offers@[sid] },
                        )
                        &&& final(self).rewards@ == r2
                        &&& forall|u: int, s: UserStakeState| #[trigger] final(self).ledger.stake_of(u, s) == reg.ledger.stake_of(u, s)
                            + if s == UserStakeState::Active {
                            (if u == bid { payment as int } else { 0 }) - (if u == sid { payment as int } else { 0 })
                        } else {
                            0
                        }
                        &&& forall|u: int| #[trigger] final(self).ledger.total_of(u) == reg.ledger.total_of(u) + (if u == bid {
                            payment as int
                        } else {
                            0
                        }) - (if u == sid { payment as int } else { 0 })
                        &&& final(self).ledger.unbond_queue@ == reg.ledger.unbond_queue@
                        &&& final(self).nodes == reg.nodes
                        &&& final(self).settings == reg.settings
                        &&& final(self).sent_rewards == reg.sent_rewards
                        &&& final(self).pause == reg.pause
                    }
                }
            }),
    {
        if self.pause.stake_sale_paused {
            return Err("stake sale paused");
        }
        if payment == 0 {
            return Ok(());
        }
        let seller_id = self.users.get_user_id(seller);
        if seller_id == 0 {
            return Err("unknown seller");
        }
        let offer = self.offers[seller_id];
        if payment > offer.amount {
            return Err("payment exceeds stake offered");
        }
        let seller_active = self.ledger.get_user_stake_of_type(seller_id, UserStakeState::Active);
        if payment > seller_active {
            return Err("payment exceeds seller active stake");
        }
        proof {
            self.ledger.lemma_stake_le_total(seller_id as int, UserStakeState::Active);
        }
        let seller_total = self.ledger.get_user_total_stake(seller_id);
        let seller_after = seller_total - payment;
        if seller_after > 0 && seller_after < minimum_stake {
            return Err("cannot have less stake than minimum stake");
        }
        let known_buyer = self.users.get_user_id(caller);
        let buyer_before = if known_buyer == seller_id {
            seller_after
        } else {
            proof {
                if known_buyer != 0 {
                    self.ledger.lemma_two_users_fit(known_buyer as int, seller_id as int);
                }
            }
            self.ledger.get_user_total_stake(known_buyer)
        };
        let buyer_after = buyer_before + payment;
        if buyer_after > 0 && buyer_after < minimum_stake {
            return Err("cannot have less stake than minimum stake");
        }
        let ghost before = *self;
        let buyer_id = self.register_user(caller);
        let ghost reg = *self;
        self.offers.set(seller_id, StakeOffer { amount: offer.amount - payment, bl_nonce: offer.bl_nonce });
        let total_active = self.ledger.get_user_stake_of_type(0, UserStakeState::Active);
        let total_for_sale = self.ledger.get_user_stake_of_type(0, UserStakeState::ActiveForSale);
        let service_fee = self.nodes.service_fee;
        proof {
            self.ledger.lemma_row_fits_two(UserStakeState::Active, UserStakeState::ActiveForSale);
            assert(before.user_rewards_fit(tot, seller_id as int));
            reg.ledger.lemma_user_active_le_total(seller_id as int);
            reg.ledger.lemma_user_active_le_total(buyer_id as int);
        }
        let seller_data = load_updated_user_rewards(
            self.rewards[seller_id],
            seller_id,
            tot,
            service_fee,
            total_active,
            total_for_sale,
            seller_active,
        );
        self.rewards.set(seller_id, seller_data);
        let buyer_active = self.ledger.get_user_stake_of_type(buyer_id, UserStakeState::Active);
        proof {
            assert(reg.ledger.stake_of(0, UserStakeState::Active) == before.ledger.stake_of(0, UserStakeState::Active));
            assert(reg.ledger.stake_of(0, UserStakeState::ActiveForSale) == before.ledger.stake_of(0, UserStakeState::ActiveForSale));
            if buyer_id == seller_id {
                assert(self.rewards@[buyer_id as int].reward_checkpoint == tot);
            } else if known_buyer != 0 {
                assert(before.user_rewards_fit(tot, buyer_id as int));
                assert(self.rewards@[buyer_id as int] == before.rewards@[buyer_id as int]);
            } else {
                assert(self.rewards@[buyer_id as int] == UserRewardData { reward_checkpoint: 0, unclaimed_rewards: 0 });
            }
        }
        let buyer_data = load_updated_user_rewards(
            self.rewards[buyer_id],
            buyer_id,
            tot,
            service_fee,
            total_active,
            total_for_sale,
            buyer_active,
        );
        self.rewards.set(buyer_id, buyer_data);
        let enough = self.ledger.decrease_user_stake_of_type(seller_id, UserStakeState::Active, payment);
        self.ledger.increase_user_stake_of_type(buyer_id, UserStakeState::Active, payment);
        proof {
            assert(old(self).registered(caller@, reg));
        }
        Ok(())
    }
}

} // verus!
