use vstd::prelude::*;
use vstd::arithmetic::div_mod::{lemma_div_is_ordered, lemma_div_by_multiple, lemma_div_pos_is_pos};
use vstd::arithmetic::mul::lemma_mul_inequality;
use crate::curve::{compute_ve_lpt_amount, ve_amount, Config};
use crate::errors::VeError;
use crate::idmap::IdMap;
use crate::proposal::Action;
use crate::strmap::StrMap;
use crate::utils::{nano_to_sec, ratio, to_nano, u128_ratio, Balance, NANOS_PER_SEC, Timestamp};

verus! {

/// The weight an account committed to one bucket of a proposal.
#[derive(Clone, Copy, Debug, PartialEq, Eq, Structural)]
pub struct VoteDetail {
    pub action: Action,
    pub amount: u128,
}

pub struct Account {
    /// Who paid the account's storage bond.
    pub sponsor_id: String,
    /// The amount of LPT locked
    pub lpt_amount: Balance,
    /// The amount of veLPT the account holds
    pub ve_lpt_amount: Balance,
    /// When the locked tokens can be withdrawn, in nanoseconds; zero when
    /// nothing is locked.
    pub unlock_timestamp: u64,
    /// The duration of the current lock in seconds.
    pub duration_sec: u32,
    /// Open votes, by proposal id.
    pub proposals: IdMap<VoteDetail>,
    /// Votes on expired proposals that were settled.
    pub proposals_history: IdMap<VoteDetail>,
    /// Claimable rewards, by token id.
    pub rewards: StrMap<u128>,
}

pub enum VAccount {
    Current(Account),
}

impl VAccount {
    pub fn into_current(self) -> (r: Account)
        ensures
            self == VAccount::Current(r),
    {
        match self {
            VAccount::Current(a) => a,
        }
    }
}

pub open spec fn amount_or_zero(m: Map<Seq<char>, u128>, k: Seq<char>) -> int {
    if m.contains_key(k) { m[k] as int } else { 0 }
}

/// Every amount of `b` can be added to the amount that `a` holds for its key.
pub open spec fn rewards_fit(a: Map<Seq<char>, u128>, b: Map<Seq<char>, u128>) -> bool {
    forall|k: Seq<char>| b.contains_key(k) ==> amount_or_zero(a, k) + b[k] <= u128::MAX
}

/// `a` with the amounts of `b` added, key by key.
pub open spec fn merged_rewards(a: Map<Seq<char>, u128>, b: Map<Seq<char>, u128>) -> Map<Seq<char>, u128> {
    Map::new(
        |k: Seq<char>| a.contains_key(k) || b.contains_key(k),
        |k: Seq<char>| (amount_or_zero(a, k) + amount_or_zero(b, k)) as u128,
    )
}

pub open spec fn max_int(a: int, b: int) -> int {
    if a >= b { a } else { b }
}

/// A lock that ends at `unlock` is still running at `now`.
pub open spec fn lock_running(unlock: int, now: Timestamp) -> bool {
    unlock > 0 && unlock > now
}

/// Voting power after locking `amount` more for `duration_sec` seconds at
/// `now`, for an account holding `lpt` locked tokens and `ve` voting power
/// until `unlock`. A running lock keeps the larger of its power and the
/// re-priced locked amount and adds the power of the new amount; otherwise
/// the whole amount is priced afresh.
pub open spec fn ve_after_lock_of(lpt: int, ve: int, unlock: int, amount: int, duration_sec: int, config: Config, decimals: int, now: Timestamp) -> int {
    if lock_running(unlock, now) {
        max_int(ve, ve_amount(config, lpt, duration_sec, decimals)) + ve_amount(config, amount, duration_sec, decimals)
    } else {
        ve_amount(config, lpt + amount, duration_sec, decimals)
    }
}

/// Why that lock is refused, if it is: an unlock time out of range, an
/// unlock earlier (in whole seconds) than the running one, an amount out of
/// range, or a loss of voting power (a lock that has run out, priced
/// afresh for a shorter time).
pub open spec fn lock_error_of(lpt: int, ve: int, unlock: int, amount: int, duration_sec: int, config: Config, decimals: int, now: Timestamp) -> Option<VeError> {
    let new_unlock: int = now + duration_sec * NANOS_PER_SEC;
    if new_unlock > u64::MAX {
        Some(VeError::Overflow)
    } else if lock_running(unlock, now) && (unlock / NANOS_PER_SEC as int) as u32 > (new_unlock / NANOS_PER_SEC as int) as u32 {
        Some(VeError::InvalidDuration)
    } else if lpt + amount > u128::MAX
        || (lock_running(unlock, now) && ve_amount(config, lpt, duration_sec, decimals) > u128::MAX)
        || (lock_running(unlock, now) && ve_amount(config, amount, duration_sec, decimals) > u128::MAX)
        || ve_after_lock_of(lpt, ve, unlock, amount, duration_sec, config, decimals, now) > u128::MAX {
        Some(VeError::Overflow)
    } else if ve_after_lock_of(lpt, ve, unlock, amount, duration_sec, config, decimals, now) < ve {
        Some(VeError::InsufficientBalance)
    } else {
        None
    }
}

/// Locking `amount` into an account that holds nothing and then, once the
/// lock has ended, withdrawing all of it: the withdrawal burns exactly the
/// power the lock minted and leaves the lock fields as they were before.
pub proof fn lemma_account_lock_withdraw_round_trip(a0: Account, a1: Account, a2: Account, amount: int, duration_sec: int,
    config: Config, decimals: int, lock_at: Timestamp, withdraw_at: Timestamp, minted: int, burned: int)
    requires
        a0.lpt_amount == 0,
        a0.ve_lpt_amount == 0,
        a0.unlock_timestamp == 0,
        a0.lock_error(amount, duration_sec, config, decimals, lock_at) is None,
        a1.ve_lpt_amount == a0.ve_after_lock(amount, duration_sec, config, decimals, lock_at),
        a1.lpt_amount == a0.lpt_amount + amount,
        minted == a1.ve_lpt_amount - a0.ve_lpt_amount,
        amount > 0,
        withdraw_at >= a1.unlock_timestamp,
        a2.ve_lpt_amount == a1.ve_after_withdraw(amount),
        a2.lpt_amount == a1.lpt_amount - amount,
        a2.unlock_timestamp == 0,
        a2.duration_sec == 0,
        burned == a1.ve_lpt_amount - a2.ve_lpt_amount,
    ensures
        a1.withdraw_error(amount, withdraw_at) is None,
        a2.lpt_amount == a0.lpt_amount,
        a2.ve_lpt_amount == a0.ve_lpt_amount,
        a2.unlock_timestamp == a0.unlock_timestamp,
        burned == minted,
{
}

impl Account {
    pub open spec fn wf(&self) -> bool {
        &&& self.proposals.wf()
        &&& self.proposals_history.wf()
        &&& self.rewards.wf()
    }

    /// The lock fields of the two accounts agree.
    pub open spec fn same_lock(&self, other: &Account) -> bool {
        &&& self.sponsor_id == other.sponsor_id
        &&& self.lpt_amount == other.lpt_amount
        &&& self.ve_lpt_amount == other.ve_lpt_amount
        &&& self.unlock_timestamp == other.unlock_timestamp
        &&& self.duration_sec == other.duration_sec
    }

    pub fn new(account_id: &String, sponsor_id: &String) -> (r: Account)
        ensures
            r.wf(),
            r.sponsor_id@ == sponsor_id@,
            r.lpt_amount == 0,
            r.ve_lpt_amount == 0,
            r.unlock_timestamp == 0,
            r.duration_sec == 0,
            r.proposals@ == Map::<u32, VoteDetail>::empty(),
            r.proposals_history@ == Map::<u32, VoteDetail>::empty(),
            r.rewards@ == Map::<Seq<char>, u128>::empty(),
    {
        Account {
            sponsor_id: sponsor_id.clone(),
            lpt_amount: 0,
            ve_lpt_amount: 0,
            unlock_timestamp: 0,
            duration_sec: 0,
            proposals: IdMap::new(),
            proposals_history: IdMap::new(),
            rewards: StrMap::new(),
        }
    }

    /// Whether each amount of `rewards` can be added to the balance of its
    /// token.
    pub fn rewards_fit_check(&self, rewards: &StrMap<u128>) -> (r: bool)
        requires
            self.wf(),
            rewards.wf(),
        ensures
            r == rewards_fit(self.rewards@, rewards@),
    {
        let n = rewards.len();
        let mut i: usize = 0;
        while i < n
            invariant
                n == rewards.len_spec(),
                i <= n,
                rewards.wf(),
                self.wf(),
                forall|j: int| 0 <= j < i ==> amount_or_zero(self.rewards@, #[trigger] rewards.key_at(j))
                    + rewards@[rewards.key_at(j)] <= u128::MAX,
            decreases n - i,
        {
            let (k, v) = rewards.entry_at(i);
            let cur: u128 = match self.rewards.get(k) {
                Some(c) => *c,
                None => 0,
            };
            if cur > u128::MAX - *v {
                return false;
            }
            i = i + 1;
        }
        proof {
            rewards.lemma_keys();
            assert forall|k: Seq<char>| rewards@.contains_key(k) implies amount_or_zero(self.rewards@, k) + rewards@[k] <= u128::MAX by {
                let j = choose|j: int| 0 <= j < rewards.len_spec() && rewards.key_at(j) == k;
            }
        }
        true
    }

    /// Credits each amount of `rewards` to the reward balance of its token.
    /// Where some sum would exceed u128::MAX nothing is credited.
    pub fn add_rewards(&mut self, rewards: &StrMap<u128>) -> (r: Result<(), VeError>)
        requires
            old(self).wf(),
            rewards.wf(),
        ensures
            final(self).wf(),
            final(self).same_lock(old(self)),
            final(self).proposals@ == old(self).proposals@,
            final(self).proposals_history@ == old(self).proposals_history@,
            rewards_fit(old(self).rewards@, rewards@) ==> r == Ok::<(), VeError>(())
                && final(self).rewards@ == merged_rewards(old(self).rewards@, rewards@),
            !rewards_fit(old(self).rewards@, rewards@) ==> r == Err::<(), VeError>(VeError::Overflow)
                && final(self).rewards@ == old(self).rewards@,
    {
        let n = rewards.len();
        let mut i: usize = 0;
        while i < n
            invariant
                n == rewards.len_spec(),
                i <= n,
                rewards.wf(),
                self.wf(),
                self.same_lock(old(self)),
                self.proposals@ == old(self).proposals@,
                self.proposals_history@ == old(self).proposals_history@,
                self.rewards@ == old(self).rewards@,
                forall|j: int| 0 <= j < i ==> amount_or_zero(self.rewards@, #[trigger] rewards.key_at(j))
                    + rewards@[rewards.key_at(j)] <= u128::MAX,
            decreases n - i,
        {
            let (k, v) = rewards.entry_at(i);
            let cur: u128 = match self.rewards.get(k) {
                Some(c) => *c,
                None => 0,
            };
            if cur > u128::MAX - *v {
                return Err(VeError::Overflow);
            }
            i = i + 1;
        }
        proof {
            rewards.lemma_keys();
            assert forall|k: Seq<char>| rewards@.contains_key(k) implies amount_or_zero(self.rewards@, k) + rewards@[k] <= u128::MAX by {
                let j = choose|j: int| 0 <= j < rewards.len_spec() && rewards.key_at(j) == k;
            }
            rewards.lemma_prefix_ends();
            assert(merged_rewards(self.rewards@, rewards.prefix_view(0)) =~= self.rewards@);
        }
        let ghost before = self.rewards@;
        let mut i: usize = 0;
        while i < n
            invariant
                n == rewards.len_spec(),
                i <= n,
                rewards.wf(),
                self.wf(),
                self.same_lock(old(self)),
                self.proposals@ == old(self).proposals@,
                self.proposals_history@ == old(self).proposals_history@,
                self.rewards.wf(),
                rewards_fit(before, rewards@),
                self.rewards@ == merged_rewards(before, rewards.prefix_view(i as int)),
                before == old(self).rewards@,
            decreases n - i,
        {
            let (k, v) = rewards.entry_at(i);
            proof {
                rewards.lemma_prefix(i as int);
            }
            let cur: u128 = match self.rewards.get(k) {
                Some(c) => *c,
                None => 0,
            };
            self.rewards.insert(k.clone(), cur + *v);
            proof {
                assert(self.rewards@ =~= merged_rewards(before, rewards.prefix_view(i as int + 1)));
            }
            i = i + 1;
        }
        proof {
            rewards.lemma_prefix_ends();
        }
        Ok(())
    }

    /// Records settled votes in the vote history.
    pub fn add_history(&mut self, history: &IdMap<VoteDetail>)
        requires
            old(self).wf(),
            history.wf(),
        ensures
            final(self).wf(),
            final(self).same_lock(old(self)),
            final(self).proposals@ == old(self).proposals@,
            final(self).rewards@ == old(self).rewards@,
            final(self).proposals_history@ == old(self).proposals_history@.union_prefer_right(history@),
    {
        let ghost before = self.proposals_history@;
        proof {
            history.lemma_prefix_ends();
            assert(before.union_prefer_right(history.prefix_view(0)) =~= before);
        }
        let n = history.len();
        let mut i: usize = 0;
        while i < n
            invariant
                n == history.len_spec(),
                i <= n,
                history.wf(),
                self.wf(),
                self.same_lock(old(self)),
                self.proposals@ == old(self).proposals@,
                self.rewards@ == old(self).rewards@,
                self.proposals_history.wf(),
                self.proposals_history@ == before.union_prefer_right(history.prefix_view(i as int)),
                before == old(self).proposals_history@,
            decreases n - i,
        {
            let (k, v) = history.entry_at(i);
            proof {
                history.lemma_prefix(i as int);
            }
            self.proposals_history.insert(k, *v);
            proof {
                assert(self.proposals_history@ =~= before.union_prefer_right(history.prefix_view(i as int + 1)));
            }
            i = i + 1;
        }
        proof {
            history.lemma_prefix_ends();
        }
    }

    /// Debits `amount` of `token_id` from the rewards; a balance that reaches
    /// zero is removed. A token without balance has a balance of zero.
    pub fn sub_reward(&mut self, token_id: &String, amount: Balance) -> (r: Result<(), VeError>)
        requires
            old(self).wf(),
        ensures
            final(self).wf(),
            final(self).same_lock(old(self)),
            final(self).proposals@ == old(self).proposals@,
            final(self).proposals_history@ == old(self).proposals_history@,
            !old(self).rewards@.contains_key(token_id@) && amount == 0 ==> r == Ok::<(), VeError>(())
                && *final(self) == *old(self),
            !old(self).rewards@.contains_key(token_id@) && amount > 0 ==>
                r == Err::<(), VeError>(VeError::InsufficientBalance) && *final(self) == *old(self),
            old(self).rewards@.contains_key(token_id@) && amount > old(self).rewards@[token_id@] ==>
                r == Err::<(), VeError>(VeError::InsufficientBalance) && *final(self) == *old(self),
            old(self).rewards@.contains_key(token_id@) && amount <= old(self).rewards@[token_id@] ==> {
                let remain = (old(self).rewards@[token_id@] - amount) as u128;
                &&& r == Ok::<(), VeError>(())
                &&& final(self).rewards@ == if remain > 0 {
                    old(self).rewards@.insert(token_id@, remain)
                } else {
                    old(self).rewards@.remove(token_id@)
                }
            },
    {
        let prev: u128 = match self.rewards.get(token_id) {
            Some(p) => *p,
            None => {
                if amount > 0 {
                    return Err(VeError::InsufficientBalance);
                }
                return Ok(());
            },
        };
        if amount > prev {
            return Err(VeError::InsufficientBalance);
        }
        let remain = prev - amount;
        self.rewards.remove(token_id);
        if remain > 0 {
            self.rewards.insert(token_id.clone(), remain);
            proof {
                assert(self.rewards@ =~= old(self).rewards@.insert(token_id@, remain));
            }
        }
        Ok(())
    }

    pub open spec fn ve_after_lock(&self, amount: int, duration_sec: int, config: Config, decimals: int, now: Timestamp) -> int {
        ve_after_lock_of(self.lpt_amount as int, self.ve_lpt_amount as int, self.unlock_timestamp as int, amount, duration_sec, config, decimals, now)
    }

    pub open spec fn lock_error(&self, amount: int, duration_sec: int, config: Config, decimals: int, now: Timestamp) -> Option<VeError> {
        lock_error_of(self.lpt_amount as int, self.ve_lpt_amount as int, self.unlock_timestamp as int, amount, duration_sec, config, decimals, now)
    }

    /// The voting power that locking `amount` more for `duration_sec` seconds
    /// from `now` would leave, or why that lock is refused; nothing changes.
    pub fn lock_preview(&self, amount: Balance, duration_sec: u32, config: &Config, lptoken_decimals: u8, now: Timestamp) -> (r: Result<Balance, VeError>)
        requires
            config.valid(),
        ensures
            r == match self.lock_error(amount as int, duration_sec as int, *config, lptoken_decimals as int, now) {
                Some(e) => Err::<Balance, VeError>(e),
                None => Ok::<Balance, VeError>(self.ve_after_lock(amount as int, duration_sec as int, *config, lptoken_decimals as int, now) as u128),
            },
            self.lock_error(amount as int, duration_sec as int, *config, lptoken_decimals as int, now) is None ==>
                self.ve_after_lock(amount as int, duration_sec as int, *config, lptoken_decimals as int, now) <= u128::MAX,
    {
        let prev = self.ve_lpt_amount;
        let new_unlock_timestamp = match now.checked_add(to_nano(duration_sec)) {
            Some(t) => t,
            None => return Err(VeError::Overflow),
        };
        let new_ve: u128;
        if self.unlock_timestamp > 0 && self.unlock_timestamp > now {
            if nano_to_sec(self.unlock_timestamp) > nano_to_sec(new_unlock_timestamp) {
                return Err(VeError::InvalidDuration);
            }
            if self.lpt_amount.checked_add(amount).is_none() {
                return Err(VeError::Overflow);
            }
            let relocked_ve = match compute_ve_lpt_amount(config, self.lpt_amount, duration_sec, lptoken_decimals) {
                Some(v) => v,
                None => return Err(VeError::Overflow),
            };
            let extra_x = match compute_ve_lpt_amount(config, amount, duration_sec, lptoken_decimals) {
                Some(v) => v,
                None => return Err(VeError::Overflow),
            };
            let base = if self.ve_lpt_amount >= relocked_ve { self.ve_lpt_amount } else { relocked_ve };
            new_ve = match base.checked_add(extra_x) {
                Some(v) => v,
                None => return Err(VeError::Overflow),
            };
        } else {
            let total = match self.lpt_amount.checked_add(amount) {
                Some(t) => t,
                None => return Err(VeError::Overflow),
            };
            new_ve = match compute_ve_lpt_amount(config, total, duration_sec, lptoken_decimals) {
                Some(v) => v,
                None => return Err(VeError::Overflow),
            };
        }
        if new_ve < prev {
            return Err(VeError::InsufficientBalance);
        }
        Ok(new_ve)
    }

    /// Locks `amount` more for `duration_sec` seconds from `now`, returning
    /// the increase of voting power (possibly zero).
    pub fn lock_lpt(&mut self, amount: Balance, duration_sec: u32, config: &Config, lptoken_decimals: u8, now: Timestamp) -> (r: Result<Balance, VeError>)
        requires
            old(self).wf(),
            config.valid(),
        ensures
            final(self).wf(),
            final(self).sponsor_id == old(self).sponsor_id,
            final(self).proposals == old(self).proposals,
            final(self).rewards == old(self).rewards,
            final(self).proposals@ == old(self).proposals@,
            final(self).proposals_history@ == old(self).proposals_history@,
            final(self).rewards@ == old(self).rewards@,
            match old(self).lock_error(amount as int, duration_sec as int, *config, lptoken_decimals as int, now) {
                Some(e) => r == Err::<Balance, VeError>(e) && *final(self) == *old(self),
                None => {
                    let v = old(self).ve_after_lock(amount as int, duration_sec as int, *config, lptoken_decimals as int, now);
                    &&& r == Ok::<Balance, VeError>((v - old(self).ve_lpt_amount) as u128)
                    &&& final(self).ve_lpt_amount == v
                    &&& final(self).lpt_amount == old(self).lpt_amount + amount
                    &&& final(self).unlock_timestamp == now + duration_sec * NANOS_PER_SEC
                    &&& final(self).duration_sec == duration_sec
                },
            },
    {
        let prev = self.ve_lpt_amount;
        let new_ve = match self.lock_preview(amount, duration_sec, config, lptoken_decimals, now) {
            Ok(v) => v,
            Err(e) => return Err(e),
        };
        self.ve_lpt_amount = new_ve;
        self.unlock_timestamp = now + to_nano(duration_sec);
        self.lpt_amount = self.lpt_amount + amount;
        self.duration_sec = duration_sec;
        Ok(new_ve - prev)
    }

    /// Why withdrawing `amount` at `now` is refused, if it is.
    pub open spec fn withdraw_error(&self, amount: int, now: Timestamp) -> Option<VeError> {
        if now < self.unlock_timestamp {
            Some(VeError::StillInLock)
        } else if amount > self.lpt_amount || amount == 0 {
            Some(VeError::InsufficientBalance)
        } else {
            None
        }
    }

    /// Voting power left after withdrawing `amount`: proportional to what
    /// stays locked, zero once everything is withdrawn.
    pub open spec fn ve_after_withdraw(&self, amount: int) -> int {
        if amount < self.lpt_amount {
            ratio(self.ve_lpt_amount as int, self.lpt_amount - amount, self.lpt_amount as int)
        } else {
            0
        }
    }

    /// Withdraws `amount` of the locked tokens at `now`, returning the
    /// decrease of voting power.
    pub fn withdraw_lpt(&mut self, amount: u128, now: Timestamp) -> (r: Result<Balance, VeError>)
        requires
            old(self).wf(),
        ensures
            final(self).wf(),
            final(self).sponsor_id == old(self).sponsor_id,
            final(self).proposals == old(self).proposals,
            final(self).rewards == old(self).rewards,
            final(self).proposals@ == old(self).proposals@,
            final(self).proposals_history@ == old(self).proposals_history@,
            final(self).rewards@ == old(self).rewards@,
            match old(self).withdraw_error(amount as int, now) {
                Some(e) => r == Err::<Balance, VeError>(e) && *final(self) == *old(self),
                None => {
                    let v = old(self).ve_after_withdraw(amount as int);
                    &&& 0 <= v <= old(self).ve_lpt_amount
                    &&& r == Ok::<Balance, VeError>((old(self).ve_lpt_amount - v) as u128)
                    &&& final(self).ve_lpt_amount == v
                    &&& final(self).lpt_amount == old(self).lpt_amount - amount
                    &&& amount < old(self).lpt_amount ==> final(self).unlock_timestamp == old(self).unlock_timestamp
                        && final(self).duration_sec == old(self).duration_sec
                    &&& amount == old(self).lpt_amount ==> final(self).unlock_timestamp == 0
                        && final(self).duration_sec == 0
                },
            },
    {
        let prev = self.ve_lpt_amount;
        if now < self.unlock_timestamp {
            return Err(VeError::StillInLock);
        }
        if amount > self.lpt_amount || amount == 0 {
            return Err(VeError::InsufficientBalance);
        }
        if amount < self.lpt_amount {
            let lpt = self.lpt_amount;
            proof {
                let ve = prev as int;
                let rest = lpt - amount;
                lemma_mul_inequality(rest, lpt as int, ve);
                lemma_div_is_ordered(rest * ve, lpt * ve, lpt as int);
                lemma_div_by_multiple(ve, lpt as int);
                assert(ve * rest == rest * ve) by (nonlinear_arith);
                assert(lpt * ve == ve * lpt) by (nonlinear_arith);
                lemma_mul_inequality(0, rest, ve);
                lemma_div_pos_is_pos(rest * ve, lpt as int);
            }
            let new_ve = u128_ratio(prev, lpt - amount, lpt).unwrap();
            self.ve_lpt_amount = new_ve;
        } else {
            self.ve_lpt_amount = 0;
            self.unlock_timestamp = 0;
            self.duration_sec = 0;
        }
        self.lpt_amount = self.lpt_amount - amount;
        Ok(prev - self.ve_lpt_amount)
    }
}

} // verus!
