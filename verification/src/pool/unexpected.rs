use vstd::prelude::*;
use crate::pool::contract::StakingContract;
use crate::pool::states::UserStakeState;

verus! {

impl StakingContract {
    /// What the contract's balance should hold: the inactive and withdraw-only stake, and the
    /// rewards that arrived (`tot` in all) but were not sent yet.
    pub open spec fn expected_balance(&self, tot: u128) -> int {
        self.ledger.stake_of(0, UserStakeState::Inactive) + self.ledger.stake_of(0, UserStakeState::WithdrawOnly) + tot
            - self.sent_rewards
    }

    /// The unexpected balance is what the contract's balance holds once all the stake it keeps
    /// (inactive, and withdraw-only until its owner withdraws it) and every reward not yet sent
    /// are set aside: the owner can never take delegators' stake or rewards this way.
    pub proof fn law_unexpected_spares_stake_and_rewards(&self, sc_balance: u128, tot: u128)
        requires
            self.wf(),
            self.sent_rewards <= tot,
            self.expected_balance(tot) <= sc_balance,
        ensures
            sc_balance - self.expected_balance(tot) + self.ledger.stake_of(0, UserStakeState::Inactive)
                + self.ledger.stake_of(0, UserStakeState::WithdrawOnly) + (tot - self.sent_rewards) == sc_balance,
            sc_balance - self.expected_balance(tot) <= sc_balance - self.ledger.stake_of(0, UserStakeState::WithdrawOnly)
                - self.ledger.stake_of(0, UserStakeState::Inactive),
    {
    }

    /// What the contract's balance `sc_balance` holds beyond what is expected, such as funds
    /// sent to it by mistake.
    pub fn get_unexpected_balance(&self, sc_balance: u128, tot: u128) -> (r: u128)
        requires
            self.wf(),
            self.sent_rewards <= tot,
            self.expected_balance(tot) <= sc_balance,
        ensures
            r == sc_balance - self.expected_balance(tot),
            r == sc_balance - self.ledger.stake_of(0, UserStakeState::Inactive) - self.ledger.stake_of(
                0,
                UserStakeState::WithdrawOnly,
            ) - (tot - self.sent_rewards),
    {
        let inactive = self.ledger.get_total_inactive_stake();
        let expected = inactive + (tot - self.sent_rewards);
        sc_balance - expected
    }

    /// Lets the owner take the unexpected balance; yields the amount to send.
    pub fn withdraw_unexpected_balance(&self, caller: &Vec<u8>, sc_balance: u128, tot: u128) -> (r: Result<u128, &'static str>)
        requires
            self.wf(),
            self.sent_rewards <= tot,
            self.expected_balance(tot) <= sc_balance,
        ensures
            caller@ != self.settings.owner@ ==> (r matches Err(e) && e@ == "only owner can withdraw unexpected balance"@),
            caller@ == self.settings.owner@ ==> r == Ok::<u128, &'static str>((sc_balance - self.expected_balance(tot)) as u128),
            r matches Ok(a) ==> a + self.ledger.stake_of(0, UserStakeState::Inactive) + self.ledger.stake_of(
                0,
                UserStakeState::WithdrawOnly,
            ) + (tot - self.sent_rewards) == sc_balance,
    {
        if !self.settings.owner_called(caller) {
            return Err("only owner can withdraw unexpected balance");
        }
        Ok(self.get_unexpected_balance(sc_balance, tot))
    }
}

} // verus!
