use vstd::prelude::*;
use crate::account::amount_or_zero;
use crate::curve::Config;
use crate::errors::VeError;
use crate::ledger::Contract;
use crate::strmap::StrMap;
use crate::utils::{Balance, DurationSec};

verus! {

/// `after` holds the names of `before` and those of `names`.
pub open spec fn extended(before: Map<Seq<char>, ()>, after: Map<Seq<char>, ()>, names: Seq<String>) -> bool {
    forall|k: Seq<char>| #[trigger] after.contains_key(k) <==> before.contains_key(k) || exists|i: int| 0 <= i < names.len() && names[i]@ == k
}

/// `after` holds the names of `before` but those of `names`.
pub open spec fn reduced(before: Map<Seq<char>, ()>, after: Map<Seq<char>, ()>, names: Seq<String>) -> bool {
    forall|k: Seq<char>| #[trigger] after.contains_key(k) <==> before.contains_key(k) && !exists|i: int| 0 <= i < names.len() && names[i]@ == k
}

fn add_names(set: &mut StrMap<()>, names: &Vec<String>)
    requires
        old(set).wf(),
    ensures
        final(set).wf(),
        extended(old(set)@, final(set)@, names@),
{
    let mut i: usize = 0;
    while i < names.len()
        invariant
            i <= names@.len(),
            set.wf(),
            extended(old(set)@, set@, names@.subrange(0, i as int)),
        decreases names@.len() - i,
    {
        let ghost before = set@;
        set.insert(names[i].clone(), ());
        proof {
            let sub = names@.subrange(0, i as int + 1);
            assert forall|k: Seq<char>| #[trigger] set@.contains_key(k) <==> old(set)@.contains_key(k)
                || exists|j: int| 0 <= j < sub.len() && sub[j]@ == k by {
                if exists|j: int| 0 <= j < sub.len() && sub[j]@ == k {
                    let j = choose|j: int| 0 <= j < sub.len() && sub[j]@ == k;
                    if j < i {
                        assert(names@.subrange(0, i as int)[j]@ == k);
                    }
                }
                if before.contains_key(k) && !old(set)@.contains_key(k) {
                    let j = choose|j: int| 0 <= j < names@.subrange(0, i as int).len() && names@.subrange(0, i as int)[j]@ == k;
                    assert(sub[j]@ == k);
                }
                if k == names@[i as int]@ {
                    assert(sub[i as int]@ == k);
                }
            }
        }
        i = i + 1;
    }
    proof {
        assert(names@.subrange(0, i as int) =~= names@);
    }
}

fn remove_names(set: &mut StrMap<()>, names: &Vec<String>)
    requires
        old(set).wf(),
    ensures
        final(set).wf(),
        reduced(old(set)@, final(set)@, names@),
{
    let mut i: usize = 0;
    while i < names.len()
        invariant
            i <= names@.len(),
            set.wf(),
            reduced(old(set)@, set@, names@.subrange(0, i as int)),
        decreases names@.len() - i,
    {
        let ghost before = set@;
        set.remove(&names[i]);
        proof {
            let sub = names@.subrange(0, i as int + 1);
            assert forall|k: Seq<char>| #[trigger] set@.contains_key(k) <==> old(set)@.contains_key(k)
                && !exists|j: int| 0 <= j < sub.len() && sub[j]@ == k by {
                if exists|j: int| 0 <= j < sub.len() && sub[j]@ == k {
                    let j = choose|j: int| 0 <= j < sub.len() && sub[j]@ == k;
                    if j < i {
                        assert(names@.subrange(0, i as int)[j]@ == k);
                    }
                }
                if exists|j: int| 0 <= j < names@.subrange(0, i as int).len() && names@.subrange(0, i as int)[j]@ == k {
                    let j = choose|j: int| 0 <= j < names@.subrange(0, i as int).len() && names@.subrange(0, i as int)[j]@ == k;
                    assert(sub[j]@ == k);
                }
                if k == names@[i as int]@ {
                    assert(sub[i as int]@ == k);
                }
            }
        }
        i = i + 1;
    }
    proof {
        assert(names@.subrange(0, i as int) =~= names@);
    }
}

impl Contract {
    pub open spec fn is_admin(&self, caller: Seq<char>) -> bool {
        caller == self.owner_id@ || self.operators@.contains_key(caller)
    }

    pub fn is_owner_or_operators(&self, caller: &String) -> (r: bool)
        requires
            self.wf(),
        ensures
            r == self.is_admin(caller@),
    {
        *caller == self.owner_id || self.operators.contains_key(caller)
    }

    pub fn assert_owner(&self, caller: &String) -> (r: Result<(), VeError>)
        ensures
            r is Ok <==> caller@ == self.owner_id@,
            r is Err ==> r == Err::<(), VeError>(VeError::NotAllowed),
    {
        if *caller == self.owner_id {
            Ok(())
        } else {
            Err(VeError::NotAllowed)
        }
    }

    pub fn set_owner(&mut self, caller: &String, owner_id: String) -> (r: Result<(), VeError>)
        requires
            old(self).wf(),
        ensures
            *final(self) == (Contract { owner_id: final(self).owner_id, ..*old(self) }),
            final(self).wf(),
            r is Ok <==> caller@ == old(self).owner_id@,
            r is Ok ==> final(self).owner_id == owner_id,
            r is Err ==> final(self).owner_id == old(self).owner_id,
    {
        self.assert_owner(caller)?;
        self.owner_id = owner_id;
        Ok(())
    }

    /// Adds operators. Only the owner may.
    pub fn extend_operators(&mut self, caller: &String, operators: &Vec<String>) -> (r: Result<(), VeError>)
        requires
            old(self).wf(),
        ensures
            *final(self) == (Contract { operators: final(self).operators, ..*old(self) }),
            final(self).wf(),
            r is Ok <==> caller@ == old(self).owner_id@,
            r is Ok ==> extended(old(self).operators@, final(self).operators@, operators@),
            r is Err ==> final(self).operators@ == old(self).operators@,
    {
        self.assert_owner(caller)?;
        add_names(&mut self.operators, operators);
        Ok(())
    }

    /// Removes operators. Only the owner may.
    pub fn remove_operators(&mut self, caller: &String, operators: &Vec<String>) -> (r: Result<(), VeError>)
        requires
            old(self).wf(),
        ensures
            *final(self) == (Contract { operators: final(self).operators, ..*old(self) }),
            final(self).wf(),
            r is Ok <==> caller@ == old(self).owner_id@,
            r is Ok ==> reduced(old(self).operators@, final(self).operators@, operators@),
            r is Err ==> final(self).operators@ == old(self).operators@,
    {
        self.assert_owner(caller)?;
        remove_names(&mut self.operators, operators);
        Ok(())
    }

    /// Allows `accounts` to open proposals. Only the owner or an operator may.
    pub fn extend_whitelisted_accounts(&mut self, caller: &String, accounts: &Vec<String>) -> (r: Result<(), VeError>)
        requires
            old(self).wf(),
        ensures
            *final(self) == (Contract { whitelisted_accounts: final(self).whitelisted_accounts, ..*old(self) }),
            final(self).wf(),
            r is Ok <==> old(self).is_admin(caller@),
            r is Ok ==> extended(old(self).whitelisted_accounts@, final(self).whitelisted_accounts@, accounts@),
            r is Err ==> r == Err::<(), VeError>(VeError::NotAllowed) && final(self).whitelisted_accounts@ == old(self).whitelisted_accounts@,
    {
        if !self.is_owner_or_operators(caller) {
            return Err(VeError::NotAllowed);
        }
        add_names(&mut self.whitelisted_accounts, accounts);
        Ok(())
    }

    pub fn remove_whitelisted_accounts(&mut self, caller: &String, accounts: &Vec<String>) -> (r: Result<(), VeError>)
        requires
            old(self).wf(),
        ensures
            *final(self) == (Contract { whitelisted_accounts: final(self).whitelisted_accounts, ..*old(self) }),
            final(self).wf(),
            r is Ok <==> old(self).is_admin(caller@),
            r is Ok ==> reduced(old(self).whitelisted_accounts@, final(self).whitelisted_accounts@, accounts@),
            r is Err ==> r == Err::<(), VeError>(VeError::NotAllowed) && final(self).whitelisted_accounts@ == old(self).whitelisted_accounts@,
    {
        if !self.is_owner_or_operators(caller) {
            return Err(VeError::NotAllowed);
        }
        remove_names(&mut self.whitelisted_accounts, accounts);
        Ok(())
    }

    /// Allows `tokens` as incentives. Only the owner or an operator may.
    pub fn extend_whitelisted_incentive_tokens(&mut self, caller: &String, tokens: &Vec<String>) -> (r: Result<(), VeError>)
        requires
            old(self).wf(),
        ensures
            *final(self) == (Contract { whitelisted_incentive_tokens: final(self).whitelisted_incentive_tokens, ..*old(self) }),
            final(self).wf(),
            r is Ok <==> old(self).is_admin(caller@),
            r is Ok ==> extended(old(self).whitelisted_incentive_tokens@, final(self).whitelisted_incentive_tokens@, tokens@),
            r is Err ==> r == Err::<(), VeError>(VeError::NotAllowed)
                && final(self).whitelisted_incentive_tokens@ == old(self).whitelisted_incentive_tokens@,
    {
        if !self.is_owner_or_operators(caller) {
            return Err(VeError::NotAllowed);
        }
        add_names(&mut self.whitelisted_incentive_tokens, tokens);
        Ok(())
    }

    pub fn remove_whitelisted_incentive_tokens(&mut self, caller: &String, tokens: &Vec<String>) -> (r: Result<(), VeError>)
        requires
            old(self).wf(),
        ensures
            *final(self) == (Contract { whitelisted_incentive_tokens: final(self).whitelisted_incentive_tokens, ..*old(self) }),
            final(self).wf(),
            r is Ok <==> old(self).is_admin(caller@),
            r is Ok ==> reduced(old(self).whitelisted_incentive_tokens@, final(self).whitelisted_incentive_tokens@, tokens@),
            r is Err ==> r == Err::<(), VeError>(VeError::NotAllowed)
                && final(self).whitelisted_incentive_tokens@ == old(self).whitelisted_incentive_tokens@,
    {
        if !self.is_owner_or_operators(caller) {
            return Err(VeError::NotAllowed);
        }
        remove_names(&mut self.whitelisted_incentive_tokens, tokens);
        Ok(())
    }

    pub fn modify_min_start_vote_offset_sec(&mut self, caller: &String, min_start_vote_offset_sec: u32) -> (r: Result<(), VeError>)
        requires
            old(self).wf(),
        ensures
            *final(self) == (Contract { config: final(self).config, ..*old(self) }),
            final(self).wf(),
            r is Ok <==> old(self).is_admin(caller@),
            r is Ok ==> final(self).config == (Config { min_proposal_start_vote_offset_sec: min_start_vote_offset_sec, ..old(self).config }),
            r is Err ==> final(self).config == old(self).config,
    {
        if !self.is_owner_or_operators(caller) {
            return Err(VeError::NotAllowed);
        }
        self.config.min_proposal_start_vote_offset_sec = min_start_vote_offset_sec;
        Ok(())
    }

    /// Sets the locking policy; the multiplier must exceed 1x and the
    /// maximum duration must be positive.
    pub fn modify_locking_policy(&mut self, caller: &String, min_duration: DurationSec, max_duration: DurationSec, max_ratio: u32) -> (r: Result<(), VeError>)
        requires
            old(self).wf(),
        ensures
            *final(self) == (Contract { config: final(self).config, ..*old(self) }),
            final(self).wf(),
            !old(self).is_admin(caller@) ==> r == Err::<(), VeError>(VeError::NotAllowed) && final(self).config == old(self).config,
            old(self).is_admin(caller@) ==> {
                let c = Config {
                    min_locking_duration_sec: min_duration,
                    max_locking_duration_sec: max_duration,
                    max_locking_multiplier: max_ratio,
                    ..old(self).config
                };
                if c.valid() {
                    r == Ok::<(), VeError>(()) && final(self).config == c
                } else {
                    r == Err::<(), VeError>(VeError::InvalidRatio) && final(self).config == old(self).config
                }
            },
    {
        if !self.is_owner_or_operators(caller) {
            return Err(VeError::NotAllowed);
        }
        let mut config = self.config;
        config.min_locking_duration_sec = min_duration;
        config.max_locking_duration_sec = max_duration;
        config.max_locking_multiplier = max_ratio;
        if !config.assert_valid() {
            return Err(VeError::InvalidRatio);
        }
        self.config = config;
        Ok(())
    }

    /// Takes `amount` out of the lost-and-found pool of locked tokens to send
    /// it to its owner. Only the owner may.
    pub fn return_lpt_lostfound(&mut self, caller: &String, amount: Balance) -> (r: Result<Balance, VeError>)
        requires
            old(self).wf(),
        ensures
            *final(self) == (Contract { lostfound: final(self).lostfound, ..*old(self) }),
            final(self).wf(),
            caller@ != old(self).owner_id@ ==> r == Err::<Balance, VeError>(VeError::NotAllowed) && final(self).lostfound == old(self).lostfound,
            caller@ == old(self).owner_id@ && amount > old(self).lostfound ==>
                r == Err::<Balance, VeError>(VeError::InsufficientBalance) && final(self).lostfound == old(self).lostfound,
            caller@ == old(self).owner_id@ && amount <= old(self).lostfound ==>
                r == Ok::<Balance, VeError>(amount) && final(self).lostfound == old(self).lostfound - amount,
    {
        self.assert_owner(caller)?;
        if amount > self.lostfound {
            return Err(VeError::InsufficientBalance);
        }
        self.lostfound = self.lostfound - amount;
        Ok(amount)
    }

    /// Continuation of a transfer out of the lost-and-found pool: where it
    /// failed, the amount goes back to the pool.
    pub fn callback_withdraw_lpt_lostfound(&mut self, amount: Balance, success: bool) -> (r: Result<(), VeError>)
        requires
            old(self).wf(),
        ensures
            final(self).wf(),
            *final(self) == (Contract { lostfound: final(self).lostfound, ..*old(self) }),
            success ==> r == Ok::<(), VeError>(()) && final(self).lostfound == old(self).lostfound,
            !success && old(self).lostfound + amount <= u128::MAX ==> r == Ok::<(), VeError>(())
                && final(self).lostfound == old(self).lostfound + amount,
            !success && old(self).lostfound + amount > u128::MAX ==> r == Err::<(), VeError>(VeError::Overflow)
                && final(self).lostfound == old(self).lostfound,
    {
        if success {
            return Ok(());
        }
        match self.lostfound.checked_add(amount) {
            Some(v) => {
                self.lostfound = v;
                Ok(())
            },
            None => Err(VeError::Overflow),
        }
    }

    /// Takes `amount` of `token_id` out of the pool of removed proposals'
    /// assets to send it on. Only the owner may.
    pub fn return_removed_proposal_assets(&mut self, caller: &String, token_id: &String, amount: Balance) -> (r: Result<Balance, VeError>)
        requires
            old(self).wf(),
        ensures
            *final(self) == (Contract { removed_proposal_assets: final(self).removed_proposal_assets, ..*old(self) }),
            final(self).wf(),
            caller@ != old(self).owner_id@ ==> r == Err::<Balance, VeError>(VeError::NotAllowed)
                && final(self).removed_proposal_assets@ == old(self).removed_proposal_assets@,
            caller@ == old(self).owner_id@ ==> {
                let held = amount_or_zero(old(self).removed_proposal_assets@, token_id@);
                if amount > held {
                    r == Err::<Balance, VeError>(VeError::InsufficientBalance)
                        && final(self).removed_proposal_assets@ == old(self).removed_proposal_assets@
                } else {
                    r == Ok::<Balance, VeError>(amount)
                        && final(self).removed_proposal_assets@ == old(self).removed_proposal_assets@.insert(token_id@, (held - amount) as u128)
                }
            },
    {
        self.assert_owner(caller)?;
        let held: u128 = match self.removed_proposal_assets.get(token_id) {
            Some(h) => *h,
            None => 0,
        };
        if amount > held {
            return Err(VeError::InsufficientBalance);
        }
        self.removed_proposal_assets.insert(token_id.clone(), held - amount);
        Ok(amount)
    }

    /// Continuation of a transfer out of the pool of removed assets: where
    /// it failed, the amount goes back to the pool.
    pub fn callback_removed_proposal_assets(&mut self, token_id: &String, amount: Balance, success: bool) -> (r: Result<(), VeError>)
        requires
            old(self).wf(),
        ensures
            *final(self) == (Contract { removed_proposal_assets: final(self).removed_proposal_assets, ..*old(self) }),
            final(self).wf(),
            final(self).accounts == old(self).accounts,
            final(self).proposals == old(self).proposals,
            final(self).lostfound == old(self).lostfound,
            final(self).lostfound_rewards == old(self).lostfound_rewards,
            final(self).cur_total_ve_lpt == old(self).cur_total_ve_lpt,
            final(self).cur_lock_lpt == old(self).cur_lock_lpt,
            final(self).clock == old(self).clock,
            final(self).config == old(self).config,
            final(self).owner_id == old(self).owner_id,
            success ==> r == Ok::<(), VeError>(()) && final(self).removed_proposal_assets@ == old(self).removed_proposal_assets@,
            !success ==> {
                let held = amount_or_zero(old(self).removed_proposal_assets@, token_id@);
                if held + amount <= u128::MAX {
                    r == Ok::<(), VeError>(())
                        && final(self).removed_proposal_assets@ == old(self).removed_proposal_assets@.insert(token_id@, (held + amount) as u128)
                } else {
                    r == Err::<(), VeError>(VeError::Overflow)
                        && final(self).removed_proposal_assets@ == old(self).removed_proposal_assets@
                }
            },
    {
        if success {
            return Ok(());
        }
        let held: u128 = match self.removed_proposal_assets.get(token_id) {
            Some(h) => *h,
            None => 0,
        };
        if held > u128::MAX - amount {
            return Err(VeError::Overflow);
        }
        self.removed_proposal_assets.insert(token_id.clone(), held + amount);
        Ok(())
    }
}

} // verus!
