use vstd::prelude::*;
use crate::account::{Account, VoteDetail};
use crate::curve::{checked_pow10, pow10};
use crate::errors::VeError;
use crate::ledger::{accumulate_rewards, claim_credit, expired_credit, lemma_claim_list_amount, lemma_expired_credit_mono,
    lemma_list_map_contains, lemma_list_map_value, list_map, Contract, bucket_votes, total_lpt, total_ve, ve_of, lpt_of, vote_weight};
use crate::strmap::StrMap;
use crate::incentive::IncentiveType;
use crate::proposal::{Proposal, ProposalKind, ProposalStatus};
use crate::utils::{Balance, Timestamp, LOVE_DECIMAL};

verus! {

/// What the ledger shows of an account.
#[derive(Clone, Debug, PartialEq, Eq)]
pub struct AccountInfo {
    pub sponsor_id: String,
    /// The amount of LPT locked
    pub lpt_amount: Balance,
    /// The amount of veLPT the account holds
    pub ve_lpt_amount: Balance,
    /// When the locked tokens can be withdrawn, in nanoseconds.
    pub unlock_timestamp: u64,
    /// The duration of the current lock in seconds.
    pub duration_sec: u32,
    /// Claimable rewards, by token.
    pub rewards: Vec<(String, Balance)>,
}

impl Contract {
    /// The status of proposal `pid` at `now`.
    pub open spec fn status_of(&self, pid: u32, now: Timestamp) -> Option<ProposalStatus> {
        match self.proposal(pid) {
            Some(p) => Some(p.status_at(now)),
            None => None,
        }
    }

    pub fn get_proposal(&self, proposal_id: u32) -> (r: Option<&Proposal>)
        ensures
            r == match self.proposal(proposal_id) {
                Some(p) => Some(&p),
                None => None::<&Proposal>,
            },
    {
        if (proposal_id as usize) < self.proposals.len() {
            match &self.proposals[proposal_id as usize] {
                Some(p) => Some(p),
                None => None,
            }
        } else {
            None
        }
    }

    /// Number of proposal ids handed out.
    pub fn proposal_count(&self) -> (r: usize)
        ensures
            r == self.proposals@.len(),
    {
        self.proposals.len()
    }

    /// The status of proposal `proposal_id` derived at `now`.
    pub fn get_proposal_status(&self, proposal_id: u32, now: Timestamp) -> (r: Option<ProposalStatus>)
        ensures
            r == self.status_of(proposal_id, now),
    {
        match self.get_proposal(proposal_id) {
            Some(p) => {
                if now < p.start_at {
                    Some(ProposalStatus::WarmUp)
                } else if now < p.end_at {
                    Some(ProposalStatus::InProgress)
                } else {
                    Some(ProposalStatus::Expired)
                }
            },
            None => None,
        }
    }

    pub fn get_account_info(&self, account_id: &String) -> (r: Option<AccountInfo>)
        requires
            self.wf(),
        ensures
            !self.accounts@.contains_key(account_id@) ==> r is None,
            self.accounts@.contains_key(account_id@) ==> {
                let a = self.accounts@[account_id@];
                &&& r is Some
                &&& r->Some_0.sponsor_id == a.sponsor_id
                &&& r->Some_0.lpt_amount == a.lpt_amount
                &&& r->Some_0.ve_lpt_amount == a.ve_lpt_amount
                &&& r->Some_0.unlock_timestamp == a.unlock_timestamp
                &&& r->Some_0.duration_sec == a.duration_sec
                &&& r->Some_0.rewards@.len() == a.rewards.len_spec()
                &&& forall|i: int| 0 <= i < r->Some_0.rewards@.len() ==>
                    a.rewards@.contains_key((#[trigger] r->Some_0.rewards@[i]).0@)
                    && a.rewards@[r->Some_0.rewards@[i].0@] == r->Some_0.rewards@[i].1
            },
    {
        match self.accounts.get(account_id) {
            Some(a) => {
                assert(a.wf());
                Some(AccountInfo {
                    sponsor_id: a.sponsor_id.clone(),
                    lpt_amount: a.lpt_amount,
                    ve_lpt_amount: a.ve_lpt_amount,
                    unlock_timestamp: a.unlock_timestamp,
                    duration_sec: a.duration_sec,
                    rewards: a.rewards.to_vec(),
                })
            },
            None => None,
        }
    }

    /// The open votes of `a` whose proposal exists and is (where `expired`)
    /// or is not expired at `now`.
    fn select_votes(&self, a: &Account, now: Timestamp, expired: bool) -> (r: Vec<(u32, VoteDetail)>)
        requires
            a.wf(),
        ensures
            forall|i: int| 0 <= i < r@.len() ==> {
                let pid = (#[trigger] r@[i]).0;
                &&& a.proposals@.contains_key(pid) && a.proposals@[pid] == r@[i].1
                &&& self.proposal(pid) is Some
                &&& (self.proposal(pid)->Some_0.status_at(now) == ProposalStatus::Expired) == expired
            },
            forall|pid: u32| #[trigger] a.proposals@.contains_key(pid) && self.proposal(pid) is Some
                && (self.proposal(pid)->Some_0.status_at(now) == ProposalStatus::Expired) == expired ==>
                exists|i: int| 0 <= i < r@.len() && r@[i].0 == pid,
    {
        let mut r: Vec<(u32, VoteDetail)> = Vec::new();
        let n = a.proposals.len();
        let mut i: usize = 0;
        while i < n
            invariant
                a.wf(),
                n == a.proposals.len_spec(),
                i <= n,
                forall|j: int| 0 <= j < r@.len() ==> {
                    let pid = (#[trigger] r@[j]).0;
                    &&& a.proposals@.contains_key(pid) && a.proposals@[pid] == r@[j].1
                    &&& self.proposal(pid) is Some
                    &&& (self.proposal(pid)->Some_0.status_at(now) == ProposalStatus::Expired) == expired
                },
                forall|j: int| 0 <= j < i && #[trigger] self.proposal(a.proposals.key_at(j)) is Some
                    && (self.proposal(a.proposals.key_at(j))->Some_0.status_at(now) == ProposalStatus::Expired) == expired ==>
                    exists|l: int| 0 <= l < r@.len() && r@[l].0 == a.proposals.key_at(j),
            decreases n - i,
        {
            let (pid, vd) = a.proposals.entry_at(i);
            let ghost old_r = r@;
            match self.get_proposal_status(pid, now) {
                Some(st) => {
                    let is_expired = match st {
                        ProposalStatus::Expired => true,
                        _ => false,
                    };
                    if is_expired == expired {
                        r.push((pid, *vd));
                        assert(r@[r@.len() - 1].0 == pid);
                    }
                },
                None => {},
            }
            proof {
                assert forall|j: int| 0 <= j < i + 1 && #[trigger] self.proposal(a.proposals.key_at(j)) is Some
                    && (self.proposal(a.proposals.key_at(j))->Some_0.status_at(now) == ProposalStatus::Expired) == expired implies
                    exists|l: int| 0 <= l < r@.len() && r@[l].0 == a.proposals.key_at(j) by {
                    if j < i {
                        let l = choose|l: int| 0 <= l < old_r.len() && old_r[l].0 == a.proposals.key_at(j);
                        assert(r@[l] == old_r[l]);
                    } else {
                        assert(r@[r@.len() - 1].0 == pid);
                    }
                }
            }
            i = i + 1;
        }
        proof {
            a.proposals.lemma_keys();
            assert forall|pid: u32| #[trigger] a.proposals@.contains_key(pid) && self.proposal(pid) is Some
                && (self.proposal(pid)->Some_0.status_at(now) == ProposalStatus::Expired) == expired implies
                exists|l: int| 0 <= l < r@.len() && r@[l].0 == pid by {
                let j = choose|j: int| 0 <= j < a.proposals.len_spec() && a.proposals.key_at(j) == pid;
                assert(self.proposal(a.proposals.key_at(j)) is Some);
            }
        }
        r
    }

    /// The account's open votes on proposals that have not expired at `now`.
    pub fn get_vote_detail(&self, account_id: &String, now: Timestamp) -> (r: Vec<(u32, VoteDetail)>)
        requires
            self.wf(),
        ensures
            !self.accounts@.contains_key(account_id@) ==> r@.len() == 0,
            self.accounts@.contains_key(account_id@) ==> {
                let a = self.accounts@[account_id@];
                &&& forall|i: int| 0 <= i < r@.len() ==> {
                    let pid = (#[trigger] r@[i]).0;
                    &&& a.proposals@.contains_key(pid) && a.proposals@[pid] == r@[i].1
                    &&& self.proposal(pid) is Some
                    &&& self.proposal(pid)->Some_0.status_at(now) != ProposalStatus::Expired
                }
                &&& forall|pid: u32| #[trigger] a.proposals@.contains_key(pid) && self.proposal(pid) is Some
                    && self.proposal(pid)->Some_0.status_at(now) != ProposalStatus::Expired ==>
                    exists|i: int| 0 <= i < r@.len() && r@[i].0 == pid
            },
    {
        match self.accounts.get(account_id) {
            Some(a) => {
                assert(a.wf());
                self.select_votes(a, now, false)
            },
            None => Vec::new(),
        }
    }

    /// The account's votes on expired proposals: those still open, then the
    /// settled ones of its history.
    pub fn get_vote_detail_history(&self, account_id: &String, now: Timestamp) -> (r: Vec<(u32, VoteDetail)>)
        requires
            self.wf(),
        ensures
            !self.accounts@.contains_key(account_id@) ==> r@.len() == 0,
            self.accounts@.contains_key(account_id@) ==> {
                let a = self.accounts@[account_id@];
                &&& forall|i: int| 0 <= i < r@.len() ==> {
                    let pid = (#[trigger] r@[i]).0;
                    (a.proposals@.contains_key(pid) && a.proposals@[pid] == r@[i].1
                        && self.proposal(pid) is Some
                        && self.proposal(pid)->Some_0.status_at(now) == ProposalStatus::Expired)
                    || (a.proposals_history@.contains_key(pid) && a.proposals_history@[pid] == r@[i].1)
                }
                &&& forall|pid: u32| #[trigger] a.proposals_history@.contains_key(pid) ==>
                    exists|i: int| 0 <= i < r@.len() && r@[i].0 == pid
            },
    {
        match self.accounts.get(account_id) {
            Some(a) => {
                assert(a.wf());
                let mut r = self.select_votes(a, now, true);
                let ghost open_part = r@;
                let past = a.proposals_history.to_vec();
                let mut j: usize = 0;
                while j < past.len()
                    invariant
                        j <= past@.len(),
                        r@.len() == open_part.len() + j,
                        forall|i: int| 0 <= i < open_part.len() ==> r@[i] == open_part[i],
                        forall|i: int| 0 <= i < j ==> r@[open_part.len() + i] == past@[i],
                    decreases past@.len() - j,
                {
                    r.push(past[j]);
                    j = j + 1;
                }
                proof {
                    a.proposals_history.lemma_keys();
                    assert forall|pid: u32| #[trigger] a.proposals_history@.contains_key(pid) implies
                        exists|i: int| 0 <= i < r@.len() && r@[i].0 == pid by {
                        let l = choose|l: int| 0 <= l < a.proposals_history.len_spec() && a.proposals_history.key_at(l) == pid;
                        assert(r@[open_part.len() + l] == past@[l]);
                    }
                    assert forall|i: int| 0 <= i < r@.len() implies {
                        let pid = (#[trigger] r@[i]).0;
                        (a.proposals@.contains_key(pid) && a.proposals@[pid] == r@[i].1
                            && self.proposal(pid) is Some
                            && self.proposal(pid)->Some_0.status_at(now) == ProposalStatus::Expired)
                        || (a.proposals_history@.contains_key(pid) && a.proposals_history@[pid] == r@[i].1)
                    } by {
                        if i < open_part.len() {
                            assert(r@[i] == open_part[i]);
                        } else {
                            assert(r@[i] == past@[i - open_part.len()]);
                        }
                    }
                }
                r
            },
            None => Vec::new(),
        }
    }

    /// Locked tokens the ledger takes from a transfer of `amount`, and the
    /// rest it refunds: a token with more than 18 decimals is taken in whole
    /// units of the voting token's precision.
    pub fn real_amount_and_refund(&self, amount: Balance) -> (r: (Balance, Balance))
        ensures
            r.0 + r.1 == amount,
            self.lptoken_decimals <= LOVE_DECIMAL ==> r == (amount, 0u128),
            self.lptoken_decimals > LOVE_DECIMAL ==> {
                let p = pow10((self.lptoken_decimals - LOVE_DECIMAL) as nat) as int;
                &&& r.1 == amount as int % p
                &&& r.0 == amount - amount as int % p
            },
    {
        if self.lptoken_decimals > LOVE_DECIMAL {
            match checked_pow10((self.lptoken_decimals - LOVE_DECIMAL) as u32) {
                Some(diff) => {
                    proof {
                        crate::curve::lemma_pow10_positive((self.lptoken_decimals - LOVE_DECIMAL) as nat);
                        vstd::arithmetic::div_mod::lemma_fundamental_div_mod(amount as int, diff as int);
                        vstd::arithmetic::div_mod::lemma_mod_bound(amount as int, diff as int);
                    }
                    let refund = amount % diff;
                    (amount - refund, refund)
                },
                None => {
                    proof {
                        crate::curve::lemma_pow10_positive((self.lptoken_decimals - LOVE_DECIMAL) as nat);
                        vstd::arithmetic::div_mod::lemma_small_mod(amount as nat, pow10((self.lptoken_decimals - LOVE_DECIMAL) as nat));
                    }
                    (0, amount)
                },
            }
        } else {
            (amount, 0)
        }
    }

    /// Opens an account for `account_id` paid for by `sponsor_id`; returns
    /// false where it is open already (and changes nothing).
    pub fn register_account(&mut self, account_id: &String, sponsor_id: &String) -> (r: Result<bool, VeError>)
        requires
            old(self).wf(),
        ensures
            final(self).wf(),
            final(self).cur_total_ve_lpt == old(self).cur_total_ve_lpt,
            final(self).proposals@ == old(self).proposals@,
            old(self).accounts@.contains_key(account_id@) ==> r == Ok::<bool, VeError>(false)
                && final(self).accounts@ == old(self).accounts@,
            !old(self).accounts@.contains_key(account_id@) && old(self).account_count < u64::MAX ==> {
                let a = final(self).accounts@[account_id@];
                &&& r == Ok::<bool, VeError>(true)
                &&& final(self).accounts@.dom() == old(self).accounts@.dom().insert(account_id@)
                &&& forall|k: Seq<char>| k != account_id@ && #[trigger] old(self).accounts@.contains_key(k) ==>
                    final(self).accounts@[k] == old(self).accounts@[k]
                &&& a.sponsor_id@ == sponsor_id@
                &&& a.lpt_amount == 0 && a.ve_lpt_amount == 0 && a.unlock_timestamp == 0
                &&& a.proposals@ == Map::<u32, VoteDetail>::empty()
                &&& a.rewards@ == Map::<Seq<char>, u128>::empty()
                &&& final(self).account_count == old(self).account_count + 1
            },
            !old(self).accounts@.contains_key(account_id@) && old(self).account_count == u64::MAX ==>
                r == Err::<bool, VeError>(VeError::Overflow) && final(self).accounts@ == old(self).accounts@,
    {
        if self.accounts.contains_key(account_id) {
            return Ok(false);
        }
        if self.account_count == u64::MAX {
            return Err(VeError::Overflow);
        }
        let a = Account::new(account_id, sponsor_id);
        let ghost before = self.accounts;
        self.accounts.insert(account_id.clone(), a);
        self.account_count = self.account_count + 1;
        proof {
            assert(total_ve(self.accounts) == total_ve(before) + ve_of(a));
            assert(total_lpt(self.accounts) == total_lpt(before) + lpt_of(a));
            assert forall|k: Seq<char>| #[trigger] self.accounts@.contains_key(k) implies self.accounts@[k].wf() by {
                if k != account_id@ {
                    assert(old(self).accounts@.contains_key(k));
                }
            }
            assert forall|k: Seq<char>, pid: u32| #[trigger] self.accounts@.contains_key(k)
                && #[trigger] self.accounts@[k].proposals@.contains_key(pid) implies
                self.accounts@[k].proposals@[pid].amount == self.accounts@[k].ve_lpt_amount by {
                if k != account_id@ {
                    assert(old(self).accounts@.contains_key(k));
                }
            }
            assert(self.accounts@.dom() =~= old(self).accounts@.dom().insert(account_id@));
            assert forall|k: Seq<char>| k != account_id@ && #[trigger] old(self).accounts@.contains_key(k) implies
                self.accounts@[k] == old(self).accounts@[k] by {
            }
            assert forall|k: Seq<char>, pid: u32| #[trigger] self.accounts@.contains_key(k)
                && #[trigger] self.accounts@[k].proposals@.contains_key(pid) implies
                self.proposal(pid) is Some && self.proposal(pid)->Some_0.start_at <= self.clock by {
                assert(k != account_id@);
                assert(old(self).accounts@.contains_key(k));
            }
            assert forall|pid: u32, b: int| #![trigger bucket_votes(self.accounts, pid, b)]
                self.proposal(pid) is Some && self.clock < self.proposal(pid)->Some_0.end_at
                && 0 <= b < self.proposal(pid)->Some_0.votes@.len() implies
                self.proposal(pid)->Some_0.votes@[b].total_ballots == bucket_votes(self.accounts, pid, b) by {
                assert(vote_weight(a, pid, b) == 0);
                assert(bucket_votes(self.accounts, pid, b) == bucket_votes(before, pid, b) + vote_weight(a, pid, b));
                assert(bucket_votes(before, pid, b) == bucket_votes(before, pid, b));
            }
        }
        Ok(true)
    }

    /// Closes the account of `account_id` and returns its sponsor; refused
    /// while it holds rewards, locked tokens or voting power. None where no
    /// such account is open.
    pub fn unregister_account(&mut self, account_id: &String) -> (r: Result<Option<String>, VeError>)
        requires
            old(self).wf(),
        ensures
            final(self).wf(),
            final(self).cur_total_ve_lpt == old(self).cur_total_ve_lpt,
            final(self).cur_lock_lpt == old(self).cur_lock_lpt,
            final(self).proposals@ == old(self).proposals@,
            !old(self).accounts@.contains_key(account_id@) ==> r == Ok::<Option<String>, VeError>(None)
                && final(self).accounts@ == old(self).accounts@,
            old(self).accounts@.contains_key(account_id@) ==> {
                let a = old(self).accounts@[account_id@];
                if a.rewards@ != Map::<Seq<char>, u128>::empty() {
                    r == Err::<Option<String>, VeError>(VeError::StillHasReward) && final(self).accounts@ == old(self).accounts@
                } else if a.lpt_amount != 0 {
                    r == Err::<Option<String>, VeError>(VeError::StillHasLpt) && final(self).accounts@ == old(self).accounts@
                } else if a.ve_lpt_amount != 0 {
                    r == Err::<Option<String>, VeError>(VeError::StillHasLoveToken) && final(self).accounts@ == old(self).accounts@
                } else {
                    &&& r is Ok && r->Ok_0 is Some && r->Ok_0->Some_0 == a.sponsor_id
                    &&& final(self).accounts@ == old(self).accounts@.remove(account_id@)
                }
            },
    {
        match self.accounts.get(account_id) {
            None => return Ok(None),
            Some(a) => {
                assert(a.wf());
                if !a.rewards.is_empty() {
                    return Err(VeError::StillHasReward);
                }
                if a.lpt_amount != 0 {
                    return Err(VeError::StillHasLpt);
                }
                if a.ve_lpt_amount != 0 {
                    return Err(VeError::StillHasLoveToken);
                }
            },
        }
        let ghost before = self.accounts;
        let a = self.accounts.remove(account_id).unwrap();
        if self.account_count > 0 {
            self.account_count = self.account_count - 1;
        }
        proof {
            assert(total_ve(self.accounts) == total_ve(before) - ve_of(a));
            assert(total_lpt(self.accounts) == total_lpt(before) - lpt_of(a));
            assert forall|k: Seq<char>| #[trigger] self.accounts@.contains_key(k) implies self.accounts@[k].wf() by {
                assert(old(self).accounts@.contains_key(k));
            }
            assert forall|k: Seq<char>, pid: u32| #[trigger] self.accounts@.contains_key(k)
                && #[trigger] self.accounts@[k].proposals@.contains_key(pid) implies
                self.accounts@[k].proposals@[pid].amount == self.accounts@[k].ve_lpt_amount by {
                assert(old(self).accounts@.contains_key(k));
            }
            assert forall|k: Seq<char>, pid: u32| #[trigger] self.accounts@.contains_key(k)
                && #[trigger] self.accounts@[k].proposals@.contains_key(pid) implies
                self.proposal(pid) is Some && self.proposal(pid)->Some_0.start_at <= self.clock by {
                assert(old(self).accounts@.contains_key(k));
            }
            assert forall|pid: u32, b: int| #![trigger bucket_votes(self.accounts, pid, b)]
                self.proposal(pid) is Some && self.clock < self.proposal(pid)->Some_0.end_at
                && 0 <= b < self.proposal(pid)->Some_0.votes@.len() implies
                self.proposal(pid)->Some_0.votes@[b].total_ballots == bucket_votes(self.accounts, pid, b) by {
                assert(old(self).accounts@.contains_key(account_id@));
                if a.proposals@.contains_key(pid) {
                    assert(a.proposals@[pid].amount == a.ve_lpt_amount);
                }
                assert(vote_weight(a, pid, b) == 0);
                assert(bucket_votes(self.accounts, pid, b) == bucket_votes(before, pid, b) - vote_weight(a, pid, b));
                assert(bucket_votes(before, pid, b) == bucket_votes(before, pid, b));
            }
        }
        Ok(Some(a.sponsor_id))
    }
    /// All of the pool of removed proposals' assets, by token.
    pub fn list_removed_proposal_assets(&self) -> (r: Vec<(String, Balance)>)
        requires
            self.wf(),
        ensures
            r@.len() == self.removed_proposal_assets.len_spec(),
            forall|i: int| 0 <= i < r@.len() ==> self.removed_proposal_assets@.contains_key((#[trigger] r@[i]).0@)
                && self.removed_proposal_assets@[r@[i].0@] == r@[i].1,
    {
        self.removed_proposal_assets.to_vec()
    }

    /// The account's open votes on expired proposals that carry incentive
    /// pools (polls and farming rewards), i.e. still to be claimed.
    pub fn get_unclaimed_proposal(&self, account_id: &String, now: Timestamp) -> (r: Vec<(u32, VoteDetail)>)
        requires
            self.wf(),
        ensures
            !self.accounts@.contains_key(account_id@) ==> r@.len() == 0,
            self.accounts@.contains_key(account_id@) ==> {
                let a = self.accounts@[account_id@];
                &&& forall|i: int| 0 <= i < r@.len() ==> {
                    let pid = (#[trigger] r@[i]).0;
                    let p = self.proposal(pid)->Some_0;
                    &&& a.proposals@.contains_key(pid) && a.proposals@[pid] == r@[i].1
                    &&& self.proposal(pid) is Some
                    &&& p.status_at(now) == ProposalStatus::Expired
                    &&& !(p.kind is Common)
                    &&& p.incentive@.len() > 0
                }
            },
    {
        match self.accounts.get(account_id) {
            Some(a) => {
                assert(a.wf());
                let expired = self.select_votes(a, now, true);
                let mut r: Vec<(u32, VoteDetail)> = Vec::new();
                let mut i: usize = 0;
                while i < expired.len()
                    invariant
                        i <= expired@.len(),
                        self.accounts@.contains_key(account_id@),
                        *a == self.accounts@[account_id@],
                        forall|j: int| 0 <= j < expired@.len() ==> {
                            let pid = (#[trigger] expired@[j]).0;
                            &&& a.proposals@.contains_key(pid) && a.proposals@[pid] == expired@[j].1
                            &&& self.proposal(pid) is Some
                            &&& self.proposal(pid)->Some_0.status_at(now) == ProposalStatus::Expired
                        },
                        forall|j: int| 0 <= j < r@.len() ==> {
                            let pid = (#[trigger] r@[j]).0;
                            let p = self.proposal(pid)->Some_0;
                            &&& a.proposals@.contains_key(pid) && a.proposals@[pid] == r@[j].1
                            &&& self.proposal(pid) is Some
                            &&& p.status_at(now) == ProposalStatus::Expired
                            &&& !(p.kind is Common)
                            &&& p.incentive@.len() > 0
                        },
                    decreases expired@.len() - i,
                {
                    let (pid, vd) = expired[i];
                    assert(expired@[i as int].0 == pid);
                    match self.get_proposal(pid) {
                        Some(p) => {
                            let wanted = match p.kind {
                                ProposalKind::Common => false,
                                _ => p.incentive.len() > 0,
                            };
                            if wanted {
                                r.push((pid, vd));
                            }
                        },
                        None => {},
                    }
                    i = i + 1;
                }
                r
            },
            None => Vec::new(),
        }
    }

    /// What the account would receive, token by token, by claiming all its
    /// open votes on proposals expired at `now`; nothing changes. None where
    /// some token's total exceeds u128::MAX.
    pub fn get_unclaimed_rewards(&self, account_id: &String, now: Timestamp) -> (r: Option<Vec<(String, Balance)>>)
        requires
            self.wf(),
        ensures
            !self.accounts@.contains_key(account_id@) ==> (r matches Some(v) && v@.len() == 0),
            self.accounts@.contains_key(account_id@) ==> {
                let a = self.accounts@[account_id@];
                match r {
                    Some(v) => {
                        &&& forall|x: int, y: int| 0 <= x < v@.len() && 0 <= y < v@.len() && x != y ==> v@[x].0@ != v@[y].0@
                        &&& forall|t: Seq<char>| #[trigger] crate::account::amount_or_zero(list_map(v@), t)
                            == expired_credit(self.proposals@, a.proposals, a.proposals.len_spec() as int, t, now)
                    },
                    None => exists|t: Seq<char>|
                        #[trigger] expired_credit(self.proposals@, a.proposals, a.proposals.len_spec() as int, t, now) > u128::MAX,
                }
            },
    {
        let a = match self.accounts.get(account_id) {
            Some(a) => a,
            None => return Some(Vec::new()),
        };
        assert(a.wf());
        let n = a.proposals.len();
        let mut totals: StrMap<u128> = StrMap::new();
        let mut i: usize = 0;
        while i < n
            invariant
                i <= n,
                n == a.proposals.len_spec(),
                a.wf(),
                self.wf(),
                self.accounts@.contains_key(account_id@),
                *a == self.accounts@[account_id@],
                totals.wf(),
                forall|t: Seq<char>| #[trigger] crate::account::amount_or_zero(totals@, t)
                    == expired_credit(self.proposals@, a.proposals, i as int, t, now),
            decreases n - i,
        {
            let (pid, vd_ref) = a.proposals.entry_at(i);
            let vd = *vd_ref;
            let ghost local = totals@;
            match self.get_proposal(pid) {
                None => {},
                Some(p) => {
                    assert(self.proposals@[pid as int] == Some(*p));
                    assert(p.wf());
                    if now >= p.start_at && now >= p.end_at {
                        let key = p.reward_key_of(&vd.action);
                        let total = p.get_votes_total_amount_for_reward_calc(key);
                        let voters = p.get_voters_for_reward_calc(key);
                        match crate::incentive::find_pool(&p.incentive, key) {
                            None => {},
                            Some(pi) => {
                                let inc = &p.incentive[pi].1;
                                assert(inc.wf());
                                match inc.calc_claim(vd.amount, total, voters) {
                                    None => {
                                        proof {
                                            let j = choose|j: int| 0 <= j < inc.incentive_token_ids@.len()
                                                && #[trigger] crate::incentive::token_share(*inc, j, vd.amount as int, total as int, voters as int) > u128::MAX;
                                            let t = inc.incentive_token_ids@[j]@;
                                            let c = choose|c: int| 0 <= c < inc.incentive_token_ids@.len() && inc.incentive_token_ids@[c]@ == t;
                                            if c != j {
                                                assert(inc.incentive_token_ids@[c]@ != inc.incentive_token_ids@[j]@);
                                            }
                                            assert(crate::incentive::token_index(*inc, t) == Some(j));
                                            assert(claim_credit(self.proposals@, pid, vd, t, now) > u128::MAX);
                                            lemma_expired_credit_mono(self.proposals@, a.proposals, i as int + 1, n as int, t, now);
                                            lemma_expired_credit_mono(self.proposals@, a.proposals, i as int, i as int, t, now);
                                            assert(expired_credit(self.proposals@, a.proposals, a.proposals.len_spec() as int, t, now) > u128::MAX);
                                        }
                                        return None;
                                    },
                                    Some(list) => {
                                        proof {
                                            assert forall|x: int, y: int| 0 <= x < list@.len() && 0 <= y < list@.len() && x != y
                                                implies list@[x].0@ != list@[y].0@ by {
                                                match inc.incentive_type {
                                                    IncentiveType::Evenly => {},
                                                    IncentiveType::Proportional => {},
                                                }
                                            }
                                            assert forall|t: Seq<char>| #[trigger] crate::account::amount_or_zero(list_map(list@), t)
                                                == claim_credit(self.proposals@, pid, vd, t, now) by {
                                                lemma_claim_list_amount(*inc, vd.amount as int, total as int, voters as int, list@, t);
                                            }
                                        }
                                        match accumulate_rewards(&mut totals, &list) {
                                            Ok(()) => {},
                                            Err(_) => {
                                                proof {
                                                    let t = choose|t: Seq<char>| crate::account::amount_or_zero(local, t)
                                                        + #[trigger] crate::account::amount_or_zero(list_map(list@), t) > u128::MAX;
                                                    assert(crate::account::amount_or_zero(list_map(list@), t) == claim_credit(self.proposals@, pid, vd, t, now));
                                                    assert(crate::account::amount_or_zero(local, t) == expired_credit(self.proposals@, a.proposals, i as int, t, now));
                                                    lemma_expired_credit_mono(self.proposals@, a.proposals, i as int + 1, n as int, t, now);
                                                    assert(expired_credit(self.proposals@, a.proposals, a.proposals.len_spec() as int, t, now) > u128::MAX);
                                                }
                                                return None;
                                            },
                                        }
                                        proof {
                                            assert forall|t: Seq<char>| #[trigger] crate::account::amount_or_zero(totals@, t)
                                                == expired_credit(self.proposals@, a.proposals, i as int + 1, t, now) by {
                                                assert(crate::account::amount_or_zero(local, t) == expired_credit(self.proposals@, a.proposals, i as int, t, now));
                                                assert(crate::account::amount_or_zero(list_map(list@), t) == claim_credit(self.proposals@, pid, vd, t, now));
                                            }
                                        }
                                    },
                                }
                            },
                        }
                    }
                },
            }
            proof {
                assert forall|t: Seq<char>| #[trigger] crate::account::amount_or_zero(totals@, t)
                    == expired_credit(self.proposals@, a.proposals, i as int + 1, t, now) by {
                    assert(crate::account::amount_or_zero(local, t) == expired_credit(self.proposals@, a.proposals, i as int, t, now));
                }
            }
            i = i + 1;
        }
        let v = totals.to_vec();
        proof {
            totals.lemma_keys();
            assert forall|x: int, y: int| 0 <= x < v@.len() && 0 <= y < v@.len() && x != y implies v@[x].0@ != v@[y].0@ by {
                totals.lemma_keys_distinct(x, y);
            }
            assert forall|t: Seq<char>| #[trigger] crate::account::amount_or_zero(list_map(v@), t)
                == crate::account::amount_or_zero(totals@, t) by {
                lemma_list_map_contains(v@, t);
                if totals@.contains_key(t) {
                    let k = choose|k: int| 0 <= k < totals.len_spec() && totals.key_at(k) == t;
                    lemma_list_map_value(v@, k);
                } else if list_map(v@).contains_key(t) {
                    let k = choose|k: int| 0 <= k < v@.len() && v@[k].0@ == t;
                }
            }
        }
        Some(v)
    }

    /// Derives the status of proposal `proposal_id` at `now` and, once it
    /// has expired, its result; nothing else changes.
    pub fn refresh_proposal(&mut self, proposal_id: u32, now: Timestamp) -> (r: Option<ProposalStatus>)
        requires
            old(self).wf(),
        ensures
            final(self).wf(),
            r == old(self).status_of(proposal_id, now),
            final(self).accounts == old(self).accounts,
            final(self).proposals@.len() == old(self).proposals@.len(),
            forall|pid: u32| pid != proposal_id ==> #[trigger] final(self).proposal(pid) == old(self).proposal(pid),
            old(self).proposal(proposal_id) is None ==> final(self).proposals@ == old(self).proposals@,
            old(self).proposal(proposal_id) is Some ==> {
                let op = old(self).proposal(proposal_id)->Some_0;
                let np = final(self).proposal(proposal_id)->Some_0;
                &&& final(self).proposal(proposal_id) is Some
                &&& np.same_record(&op)
                &&& np.status == Some(op.status_at(now))
                &&& op.status_at(now) == ProposalStatus::Expired ==> np.has_result()
            },
    {
        if (proposal_id as usize) >= self.proposals.len() {
            return None;
        }
        let ghost before = *self;
        match self.take_proposal(proposal_id) {
            None => {
                proof {
                    assert(self.proposals@ =~= old(self).proposals@);
                }
                None
            },
            Some(mut p) => {
                let ghost op = p;
                p.update_status(now);
                let status = p.status;
                self.put_proposal(proposal_id, p);
                proof {
                    assert(old(self).proposals@[proposal_id as int] == Some(op));
                    assert forall|pid: u32| pid != proposal_id implies #[trigger] self.proposal(pid) == old(self).proposal(pid) by {
                        if pid < self.proposals@.len() {
                            assert(self.proposals@[pid as int] == old(self).proposals@[pid as int]);
                        }
                    }
                    assert forall|j: int| 0 <= j < self.proposals@.len() && #[trigger] self.proposals@[j] is Some implies
                        self.proposals@[j]->Some_0.wf() && self.proposals@[j]->Some_0.id == j by {
                        if j != proposal_id {
                            assert(self.proposals@[j] == old(self).proposals@[j]);
                        }
                    }
                    assert forall|k: Seq<char>, pid: u32| #[trigger] self.accounts@.contains_key(k)
                        && #[trigger] self.accounts@[k].proposals@.contains_key(pid) implies
                        self.proposal(pid) is Some && self.proposal(pid)->Some_0.start_at <= self.clock by {
                        assert(old(self).proposal(pid) is Some);
                    }
                    assert forall|pid: u32, b: int| #![trigger bucket_votes(self.accounts, pid, b)]
                        self.proposal(pid) is Some && self.clock < self.proposal(pid)->Some_0.end_at
                        && 0 <= b < self.proposal(pid)->Some_0.votes@.len() implies
                        self.proposal(pid)->Some_0.votes@[b].total_ballots == bucket_votes(self.accounts, pid, b) by {
                        assert(bucket_votes(old(self).accounts, pid, b) == bucket_votes(old(self).accounts, pid, b));
                    }
                }
                status
            },
        }
    }
    /// Ids of the proposals (removed ones left out) among the ids from
    /// `from_index` (0 where None) on, at most `limit` of them (all where
    /// None), in order.
    pub fn list_proposals(&self, from_index: Option<u64>, limit: Option<u64>) -> (r: Vec<u32>)
        requires
            self.wf(),
        ensures
            ({
                let from = match from_index { Some(f) => f as int, None => 0 };
                let lim = match limit { Some(l) => l as int, None => self.proposals@.len() as int };
                let end = if from + lim < self.proposals@.len() { from + lim } else { self.proposals@.len() as int };
                &&& forall|k: int| 0 <= k < r@.len() ==> from <= #[trigger] r@[k] < end && self.proposal(r@[k]) is Some
                &&& forall|k: int, l: int| 0 <= k < l < r@.len() ==> r@[k] < r@[l]
                &&& forall|id: u32| from <= id < end && #[trigger] self.proposal(id) is Some ==>
                    exists|k: int| 0 <= k < r@.len() && r@[k] == id
            }),
    {
        let len = self.proposals.len();
        let from: usize = match from_index {
            Some(f) => if f as u128 >= len as u128 { len } else { f as usize },
            None => 0,
        };
        let end: usize = match limit {
            Some(l) => if l as u128 >= (len - from) as u128 { len } else { from + l as usize },
            None => len,
        };
        let mut r: Vec<u32> = Vec::new();
        let mut i = from;
        while i < end
            invariant
                from <= i <= end,
                end <= len,
                len == self.proposals@.len(),
                self.wf(),
                forall|k: int| 0 <= k < r@.len() ==> from <= #[trigger] r@[k] < i && self.proposal(r@[k]) is Some,
                forall|k: int, l: int| 0 <= k < l < r@.len() ==> r@[k] < r@[l],
                forall|id: u32| from <= id < i && #[trigger] self.proposal(id) is Some ==>
                    exists|k: int| 0 <= k < r@.len() && r@[k] == id,
            decreases end - i,
        {
            let ghost before = r@;
            if self.proposals[i].is_some() {
                r.push(i as u32);
                proof {
                    assert forall|id: u32| from <= id < i + 1 && #[trigger] self.proposal(id) is Some implies
                        exists|k: int| 0 <= k < r@.len() && r@[k] == id by {
                        if id < i {
                            let k = choose|k: int| 0 <= k < before.len() && before[k] == id;
                            assert(r@[k] == id);
                        } else {
                            assert(r@[r@.len() - 1] == id);
                        }
                    }
                }
            }
            i = i + 1;
        }
        r
    }
}

} // verus!
