use vstd::prelude::*;
use crate::settings::Settings;

verus! {

/// Flags that temporarily pause staking and the sale of stake.
pub struct PauseFlags {
    pub staking_paused: bool,
    pub stake_sale_paused: bool,
}

/// Which flag an owner-only change sets, and to what.
pub open spec fn paused_after(old: PauseFlags, new: PauseFlags, allowed: bool, staking: bool, value: bool) -> bool {
    if allowed {
        if staking {
            new.staking_paused == value && new.stake_sale_paused == old.stake_sale_paused
        } else {
            new.stake_sale_paused == value && new.staking_paused == old.staking_paused
        }
    } else {
        new == old
    }
}

impl PauseFlags {
    /// Nothing paused.
    pub fn new() -> (r: PauseFlags)
        ensures
            !r.staking_paused,
            !r.stake_sale_paused,
    {
        PauseFlags { staking_paused: false, stake_sale_paused: false }
    }

    pub fn is_staking_paused(&self) -> (r: bool)
        ensures
            r == self.staking_paused,
    {
        self.staking_paused
    }

    pub fn is_stake_sale_paused(&self) -> (r: bool)
        ensures
            r == self.stake_sale_paused,
    {
        self.stake_sale_paused
    }

    /// Lets the owner pause staking.
    pub fn pause_staking(&mut self, settings: &Settings, caller: &Vec<u8>) -> (r: Result<(), &'static str>)
        ensures
            r is Ok <==> caller@ == settings.owner@,
            r matches Err(e) ==> e@ == "only owner can pause staking"@,
            paused_after(*old(self), *final(self), r is Ok, true, true),
    {
        if !settings.owner_called(caller) {
            return Err("only owner can pause staking");
        }
        self.staking_paused = true;
        Ok(())
    }

    /// Lets the owner resume staking.
    pub fn unpause_staking(&mut self, settings: &Settings, caller: &Vec<u8>) -> (r: Result<(), &'static str>)
        ensures
            r is Ok <==> caller@ == settings.owner@,
            r matches Err(e) ==> e@ == "only owner can unpause staking"@,
            paused_after(*old(self), *final(self), r is Ok, true, false),
    {
        if !settings.owner_called(caller) {
            return Err("only owner can unpause staking");
        }
        self.staking_paused = false;
        Ok(())
    }

    /// Lets the owner pause the sale of stake.
    pub fn pause_stake_sale(&mut self, settings: &Settings, caller: &Vec<u8>) -> (r: Result<(), &'static str>)
        ensures
            r is Ok <==> caller@ == settings.owner@,
            r matches Err(e) ==> e@ == "only owner can pause stake sale"@,
            paused_after(*old(self), *final(self), r is Ok, false, true),
    {
        if !settings.owner_called(caller) {
            return Err("only owner can pause stake sale");
        }
        self.stake_sale_paused = true;
        Ok(())
    }

    /// Lets the owner resume the sale of stake.
    pub fn unpause_stake_sale(&mut self, settings: &Settings, caller: &Vec<u8>) -> (r: Result<(), &'static str>)
        ensures
            r is Ok <==> caller@ == settings.owner@,
            r matches Err(e) ==> e@ == "only owner can unpause stake sale"@,
            paused_after(*old(self), *final(self), r is Ok, false, false),
    {
        if !settings.owner_called(caller) {
            return Err("only owner can unpause stake sale");
        }
        self.stake_sale_paused = false;
        Ok(())
    }
}

/// Pausing of staking and of the sale of stake, as the contract offers it.
pub trait PauseModule {
    spec fn pause_flags(&self) -> PauseFlags;

    spec fn owner(&self) -> Seq<u8>;

    /// The invariant of the contract's storage.
    spec fn pause_valid(&self) -> bool;

    fn is_staking_paused(&self) -> (r: bool)
        ensures
            r == self.pause_flags().staking_paused,
    ;

    fn is_stake_sale_paused(&self) -> (r: bool)
        ensures
            r == self.pause_flags().stake_sale_paused,
    ;

    /// Lets the owner pause staking.
    fn pause_staking(&mut self, caller: &Vec<u8>) -> (r: Result<(), &'static str>)
        requires
            old(self).pause_valid(),
        ensures
            final(self).pause_valid(),
            r is Ok <==> caller@ == old(self).owner(),
            r matches Err(e) ==> e@ == "only owner can pause staking"@,
            paused_after(old(self).pause_flags(), final(self).pause_flags(), r is Ok, true, true),
            final(self).owner() == old(self).owner(),
    ;

    /// Lets the owner resume staking.
    fn unpause_staking(&mut self, caller: &Vec<u8>) -> (r: Result<(), &'static str>)
        requires
            old(self).pause_valid(),
        ensures
            final(self).pause_valid(),
            r is Ok <==> caller@ == old(self).owner(),
            r matches Err(e) ==> e@ == "only owner can unpause staking"@,
            paused_after(old(self).pause_flags(), final(self).pause_flags(), r is Ok, true, false),
            final(self).owner() == old(self).owner(),
    ;

    /// Lets the owner pause the sale of stake.
    fn pause_stake_sale(&mut self, caller: &Vec<u8>) -> (r: Result<(), &'static str>)
        requires
            old(self).pause_valid(),
        ensures
            final(self).pause_valid(),
            r is Ok <==> caller@ == old(self).owner(),
            r matches Err(e) ==> e@ == "only owner can pause stake sale"@,
            paused_after(old(self).pause_flags(), final(self).pause_flags(), r is Ok, false, true),
            final(self).owner() == old(self).owner(),
    ;

    /// Lets the owner resume the sale of stake.
    fn unpause_stake_sale(&mut self, caller: &Vec<u8>) -> (r: Result<(), &'static str>)
        requires
            old(self).pause_valid(),
        ensures
            final(self).pause_valid(),
            r is Ok <==> caller@ == old(self).owner(),
            r matches Err(e) ==> e@ == "only owner can unpause stake sale"@,
            paused_after(old(self).pause_flags(), final(self).pause_flags(), r is Ok, false, false),
            final(self).owner() == old(self).owner(),
    ;
}

} // verus!
