use vstd::prelude::*;
use crate::account::VoteDetail;
use crate::errors::VeError;
use crate::proposal::{Action, Proposal, ProposalKind, VoteInfo};
use crate::utils::{ratio, u128_ratio, Balance};

verus! {

/// How a pool is shared among the voters of its bucket.
#[derive(Clone, Copy, Debug, PartialEq, Eq, Structural)]
pub enum IncentiveType {
    /// The same share for each distinct voter.
    Evenly,
    /// A share in proportion to the voter's weight.
    Proportional,
}

/// Incentive pool of one vote bucket: how it is shared and, for each token,
/// the deposited and the claimed amounts.
#[derive(Clone, Debug, PartialEq, Eq)]
pub struct ProposalIncentive {
    pub incentive_type: IncentiveType,
    pub incentive_token_ids: Vec<String>,
    pub incentive_amounts: Vec<u128>,
    pub claimed_amounts: Vec<u128>,
}

/// A voter's share of a pool of `pool` tokens: proportional to its weight
/// `votes` among the `total` weight of the bucket; nothing where the bucket
/// holds no weight.
pub open spec fn reward_share(pool: int, votes: int, total: int) -> int {
    if total == 0 { 0 } else { ratio(pool, votes, total) }
}

/// Share of token `j` of `inc` that a vote of weight `votes` draws, in a
/// bucket of weight `total` and `voters` distinct voters.
pub open spec fn token_share(inc: ProposalIncentive, j: int, votes: int, total: int, voters: int) -> int {
    match inc.incentive_type {
        IncentiveType::Evenly => even_share(inc.incentive_amounts@[j] as int, voters),
        IncentiveType::Proportional => reward_share(inc.incentive_amounts@[j] as int, votes, total),
    }
}

/// Some share, or some claimed amount raised by its share, exceeds
/// u128::MAX.
pub open spec fn claim_overflows(inc: ProposalIncentive, votes: int, total: int, voters: int) -> bool {
    exists|j: int| 0 <= j < inc.incentive_token_ids@.len() && (#[trigger] token_share(inc, j, votes, total, voters) > u128::MAX
        || inc.claimed_amounts@[j] + token_share(inc, j, votes, total, voters) > u128::MAX)
}

/// `rewards` gives, token by token, the share of `inc` that `votes` earns
/// among `total`.
pub open spec fn is_reward_list(inc: ProposalIncentive, votes: int, total: int, rewards: Seq<(String, u128)>) -> bool {
    &&& rewards.len() == inc.incentive_token_ids@.len()
    &&& forall|j: int| 0 <= j < rewards.len() ==> {
        &&& (#[trigger] rewards[j]).0@ == inc.incentive_token_ids@[j]@
        &&& rewards[j].1 == reward_share(inc.incentive_amounts@[j] as int, votes, total)
    }
}

/// A voter's share of a pool of `pool` tokens split evenly among `voters`.
pub open spec fn even_share(pool: int, voters: int) -> int {
    if voters <= 0 { 0 } else { pool / voters }
}

/// `rewards` gives, token by token, one voter's even share of `inc` among
/// `voters`.
pub open spec fn is_even_list(inc: ProposalIncentive, voters: int, rewards: Seq<(String, u128)>) -> bool {
    &&& rewards.len() == inc.incentive_token_ids@.len()
    &&& forall|j: int| 0 <= j < rewards.len() ==> {
        &&& (#[trigger] rewards[j]).0@ == inc.incentive_token_ids@[j]@
        &&& rewards[j].1 == even_share(inc.incentive_amounts@[j] as int, voters)
    }
}

/// `rewards` is what a vote of weight `votes` draws from `inc`, in a bucket
/// of weight `total` and `voters` distinct voters, as the pool's type says.
pub open spec fn is_claim_list(inc: ProposalIncentive, votes: int, total: int, voters: int, rewards: Seq<(String, u128)>) -> bool {
    match inc.incentive_type {
        IncentiveType::Evenly => is_even_list(inc, voters, rewards),
        IncentiveType::Proportional => is_reward_list(inc, votes, total, rewards),
    }
}

/// Distinct voters that the pool of bucket `key` is split among: the farm's
/// voters for a farming-reward proposal, all of the proposal's otherwise.
pub open spec fn bucket_voters(kind: ProposalKind, votes: Seq<VoteInfo>, participants: u64, key: u32) -> int {
    match kind {
        ProposalKind::FarmingReward { .. } => if key < votes.len() { votes[key as int].participants as int } else { 0 },
        _ => participants as int,
    }
}

pub open spec fn sum_ballots(votes: Seq<VoteInfo>) -> int
    decreases votes.len(),
{
    if votes.len() == 0 { 0 } else { sum_ballots(votes.drop_last()) + votes.last().total_ballots }
}

/// Position of the pool of bucket `key`, if there is one.
pub open spec fn pool_index(s: Seq<(u32, ProposalIncentive)>, key: u32) -> Option<int> {
    if exists|i: int| 0 <= i < s.len() && s[i].0 == key {
        Some(choose|i: int| 0 <= i < s.len() && s[i].0 == key)
    } else {
        None
    }
}

/// Position of `token` in the pool, if it is there.
pub open spec fn token_index(inc: ProposalIncentive, token: Seq<char>) -> Option<int> {
    if exists|j: int| 0 <= j < inc.incentive_token_ids@.len() && inc.incentive_token_ids@[j]@ == token {
        Some(choose|j: int| 0 <= j < inc.incentive_token_ids@.len() && inc.incentive_token_ids@[j]@ == token)
    } else {
        None
    }
}

/// The bucket whose pool a vote draws on: its farm for a farming-reward
/// proposal, the single pool of key zero otherwise.
pub open spec fn reward_key(kind: ProposalKind, action: Action) -> u32 {
    match kind {
        ProposalKind::FarmingReward { .. } => action.index() as u32,
        _ => 0,
    }
}

/// The weight a pool of bucket `key` is shared among: the bucket's weight
/// for a farming-reward proposal (zero for a key with no bucket), all the
/// proposal's weight otherwise (at most u128::MAX).
pub open spec fn votes_total(kind: ProposalKind, votes: Seq<VoteInfo>, key: u32) -> int {
    match kind {
        ProposalKind::FarmingReward { .. } => if key < votes.len() { votes[key as int].total_ballots as int } else { 0 },
        _ => if sum_ballots(votes) <= u128::MAX { sum_ballots(votes) } else { u128::MAX as int },
    }
}

impl ProposalIncentive {
    pub open spec fn wf(&self) -> bool {
        &&& self.incentive_amounts@.len() == self.incentive_token_ids@.len()
        &&& self.claimed_amounts@.len() == self.incentive_token_ids@.len()
        &&& forall|i: int, j: int| 0 <= i < self.incentive_token_ids@.len() && 0 <= j < self.incentive_token_ids@.len() && i != j
            ==> self.incentive_token_ids@[i]@ != self.incentive_token_ids@[j]@
    }

    /// Each token's share for a voter of weight `account_votes_amount` in a
    /// bucket of weight `votes_total_amount`; None where a share exceeds
    /// u128::MAX.
    pub fn calc_reward(&self, account_votes_amount: u128, votes_total_amount: Balance) -> (r: Option<Vec<(String, Balance)>>)
        requires
            self.wf(),
        ensures
            match r {
                Some(list) => is_reward_list(*self, account_votes_amount as int, votes_total_amount as int, list@),
                None => exists|j: int| 0 <= j < self.incentive_token_ids@.len()
                    && #[trigger] reward_share(self.incentive_amounts@[j] as int, account_votes_amount as int, votes_total_amount as int) > u128::MAX,
            },
    {
        let mut claimed_list: Vec<(String, Balance)> = Vec::new();
        let mut index: usize = 0;
        while index < self.incentive_token_ids.len()
            invariant
                self.wf(),
                index <= self.incentive_token_ids@.len(),
                claimed_list@.len() == index,
                forall|j: int| 0 <= j < index ==> {
                    &&& (#[trigger] claimed_list@[j]).0@ == self.incentive_token_ids@[j]@
                    &&& claimed_list@[j].1 == reward_share(self.incentive_amounts@[j] as int, account_votes_amount as int, votes_total_amount as int)
                },
            decreases self.incentive_token_ids@.len() - index,
        {
            let pool = self.incentive_amounts[index];
            let reward = if votes_total_amount == 0 {
                0
            } else {
                match u128_ratio(pool, account_votes_amount, votes_total_amount) {
                    Some(x) => x,
                    None => {
                        assert(reward_share(self.incentive_amounts@[index as int] as int, account_votes_amount as int, votes_total_amount as int) > u128::MAX);
                        return None;
                    },
                }
            };
            claimed_list.push((self.incentive_token_ids[index].clone(), reward));
            index = index + 1;
        }
        Some(claimed_list)
    }
}

impl ProposalIncentive {
    /// Each token's share for one of `participants` voters splitting the
    /// pool evenly; the remainder stays in the pool.
    pub fn calc_even_reward(&self, participants: u64) -> (r: Vec<(String, Balance)>)
        requires
            self.wf(),
        ensures
            is_even_list(*self, participants as int, r@),
    {
        let mut claimed_list: Vec<(String, Balance)> = Vec::new();
        let mut index: usize = 0;
        while index < self.incentive_token_ids.len()
            invariant
                self.wf(),
                index <= self.incentive_token_ids@.len(),
                claimed_list@.len() == index,
                forall|j: int| 0 <= j < index ==> {
                    &&& (#[trigger] claimed_list@[j]).0@ == self.incentive_token_ids@[j]@
                    &&& claimed_list@[j].1 == even_share(self.incentive_amounts@[j] as int, participants as int)
                },
            decreases self.incentive_token_ids@.len() - index,
        {
            let pool = self.incentive_amounts[index];
            let reward = if participants == 0 { 0 } else { pool / (participants as u128) };
            claimed_list.push((self.incentive_token_ids[index].clone(), reward));
            index = index + 1;
        }
        claimed_list
    }

    /// What a vote of weight `account_votes_amount` draws from the pool, in
    /// a bucket of weight `votes_total_amount` and `participants` voters;
    /// None where a share exceeds u128::MAX.
    pub fn calc_claim(&self, account_votes_amount: u128, votes_total_amount: Balance, participants: u64) -> (r: Option<Vec<(String, Balance)>>)
        requires
            self.wf(),
        ensures
            match r {
                Some(list) => is_claim_list(*self, account_votes_amount as int, votes_total_amount as int, participants as int, list@),
                None => exists|j: int| 0 <= j < self.incentive_token_ids@.len()
                    && #[trigger] token_share(*self, j, account_votes_amount as int, votes_total_amount as int, participants as int) > u128::MAX,
            },
    {
        match self.incentive_type {
            IncentiveType::Evenly => Some(self.calc_even_reward(participants)),
            IncentiveType::Proportional => {
                let r = self.calc_reward(account_votes_amount, votes_total_amount);
                proof {
                    if r is None {
                        let j = choose|j: int| 0 <= j < self.incentive_token_ids@.len()
                            && #[trigger] reward_share(self.incentive_amounts@[j] as int, account_votes_amount as int, votes_total_amount as int) > u128::MAX;
                        assert(token_share(*self, j, account_votes_amount as int, votes_total_amount as int, participants as int) > u128::MAX);
                    }
                }
                r
            },
        }
    }
}

pub(crate) fn find_pool(s: &Vec<(u32, ProposalIncentive)>, key: u32) -> (r: Option<usize>)
    requires
        crate::proposal::incentive_keys_distinct(s@),
    ensures
        r == match pool_index(s@, key) {
            Some(i) => Some(i as usize),
            None => None::<usize>,
        },
        r matches Some(i) ==> i < s@.len() && s@[i as int].0 == key,
{
    let mut i: usize = 0;
    while i < s.len()
        invariant
            i <= s@.len(),
            crate::proposal::incentive_keys_distinct(s@),
            forall|j: int| 0 <= j < i ==> s@[j].0 != key,
        decreases s@.len() - i,
    {
        if s[i].0 == key {
            proof {
                assert(s@[i as int].0 == key);
                let c = choose|c: int| 0 <= c < s@.len() && s@[c].0 == key;
                if c != i {
                    assert(s@[c].0 != s@[i as int].0);
                }
            }
            return Some(i);
        }
        i = i + 1;
    }
    None
}

fn find_token(inc: &ProposalIncentive, token: &String) -> (r: Option<usize>)
    requires
        inc.wf(),
    ensures
        r == match token_index(*inc, token@) {
            Some(j) => Some(j as usize),
            None => None::<usize>,
        },
        r matches Some(j) ==> j < inc.incentive_token_ids@.len() && inc.incentive_token_ids@[j as int]@ == token@,
{
    let mut j: usize = 0;
    while j < inc.incentive_token_ids.len()
        invariant
            j <= inc.incentive_token_ids@.len(),
            inc.wf(),
            forall|k: int| 0 <= k < j ==> inc.incentive_token_ids@[k]@ != token@,
        decreases inc.incentive_token_ids@.len() - j,
    {
        if inc.incentive_token_ids[j] == *token {
            proof {
                assert(inc.incentive_token_ids@[j as int]@ == token@);
                let c = choose|c: int| 0 <= c < inc.incentive_token_ids@.len() && inc.incentive_token_ids@[c]@ == token@;
                if c != j {
                    assert(inc.incentive_token_ids@[c]@ != inc.incentive_token_ids@[j as int]@);
                }
            }
            return Some(j);
        }
        j = j + 1;
    }
    None
}

/// `after` is `before` with each claimed amount raised by the reward of the
/// same token.
pub open spec fn claimed_after(before: ProposalIncentive, rewards: Seq<(String, u128)>, after: ProposalIncentive) -> bool {
    &&& after.incentive_type == before.incentive_type
    &&& after.incentive_token_ids@ == before.incentive_token_ids@
    &&& after.incentive_amounts@ == before.incentive_amounts@
    &&& after.claimed_amounts@.len() == before.claimed_amounts@.len()
    &&& forall|j: int| 0 <= j < before.claimed_amounts@.len() ==>
        #[trigger] after.claimed_amounts@[j] == before.claimed_amounts@[j] + rewards[j].1
}

impl Proposal {
    /// The weight that the pool of bucket `incentive_key` is shared among.
    pub fn get_votes_total_amount_for_reward_calc(&self, incentive_key: u32) -> (r: u128)
        ensures
            r == votes_total(self.kind, self.votes@, incentive_key),
    {
        match self.kind {
            ProposalKind::FarmingReward { .. } => {
                if (incentive_key as usize) < self.votes.len() {
                    self.votes[incentive_key as usize].total_ballots
                } else {
                    0
                }
            },
            _ => {
                let mut sum: u128 = 0;
                let mut i: usize = 0;
                let mut saturated = false;
                while i < self.votes.len()
                    invariant
                        i <= self.votes@.len(),
                        !saturated ==> sum == sum_ballots(self.votes@.subrange(0, i as int)),
                        saturated ==> sum == u128::MAX && sum_ballots(self.votes@) > u128::MAX,
                    decreases self.votes@.len() - i,
                {
                    proof {
                        assert(self.votes@.subrange(0, i as int + 1).drop_last() =~= self.votes@.subrange(0, i as int));
                        lemma_sum_ballots_prefix(self.votes@, i as int + 1);
                    }
                    if !saturated {
                        match sum.checked_add(self.votes[i].total_ballots) {
                            Some(t) => sum = t,
                            None => {
                                sum = u128::MAX;
                                saturated = true;
                            },
                        }
                    }
                    i = i + 1;
                }
                proof {
                    assert(self.votes@.subrange(0, i as int) =~= self.votes@);
                }
                sum
            },
        }
    }

    /// The distinct voters that the pool of bucket `incentive_key` is split
    /// among when it is shared evenly.
    pub fn get_voters_for_reward_calc(&self, incentive_key: u32) -> (r: u64)
        ensures
            r == bucket_voters(self.kind, self.votes@, self.participants, incentive_key),
    {
        match self.kind {
            ProposalKind::FarmingReward { .. } => {
                if (incentive_key as usize) < self.votes.len() {
                    self.votes[incentive_key as usize].participants
                } else {
                    0
                }
            },
            _ => self.participants,
        }
    }

    /// The key of the pool that a vote of `action` draws on.
    pub fn reward_key_of(&self, action: &Action) -> (r: u32)
        ensures
            r == reward_key(self.kind, *action),
    {
        match self.kind {
            ProposalKind::FarmingReward { .. } => action.get_index() as u32,
            _ => 0,
        }
    }

    /// What settling `vote_detail` would pay, token by token; None where
    /// its bucket has no pool; an error where a share or a claimed amount
    /// would exceed u128::MAX. Nothing changes.
    pub fn claim_preview(&self, vote_detail: &VoteDetail) -> (r: Result<Option<Vec<(String, Balance)>>, VeError>)
        requires
            self.wf(),
        ensures
            ({
                let key = reward_key(self.kind, vote_detail.action);
                let total = votes_total(self.kind, self.votes@, key);
                let voters = bucket_voters(self.kind, self.votes@, self.participants, key);
                match pool_index(self.incentive@, key) {
                    None => r == Ok::<Option<Vec<(String, Balance)>>, VeError>(None),
                    Some(i) => if claim_overflows(self.incentive@[i].1, vote_detail.amount as int, total, voters) {
                        r == Err::<Option<Vec<(String, Balance)>>, VeError>(VeError::Overflow)
                    } else {
                        match r {
                            Ok(Some(rewards)) => is_claim_list(self.incentive@[i].1, vote_detail.amount as int, total, voters, rewards@),
                            _ => false,
                        }
                    },
                }
            }),
    {
        let incentive_key = self.reward_key_of(&vote_detail.action);
        let votes_total_amount = self.get_votes_total_amount_for_reward_calc(incentive_key);
        let voters = self.get_voters_for_reward_calc(incentive_key);
        match find_pool(&self.incentive, incentive_key) {
            None => Ok(None),
            Some(i) => {
                let ghost before = self.incentive@;
                let ghost tot = votes_total_amount as int;
                let ghost vs = voters as int;
                let ghost amt = vote_detail.amount as int;
                assert(before[i as int].1.wf());
                let res = match self.incentive[i].1.calc_claim(vote_detail.amount, votes_total_amount, voters) {
                    Some(list) => list,
                    None => {
                        proof {
                            let inc = before[i as int].1;
                            let j = choose|j: int| 0 <= j < inc.incentive_token_ids@.len()
                                && #[trigger] token_share(inc, j, amt, tot, vs) > u128::MAX;
                            assert(token_share(inc, j, amt, tot, vs) > u128::MAX);
                        }
                        return Err(VeError::Overflow);
                    },
                };
                let mut j: usize = 0;
                while j < res.len()
                    invariant
                        j <= res@.len(),
                        i < self.incentive@.len(),
                        self.wf(),
                        pool_index(self.incentive@, incentive_key) == Some(i as int),
                        incentive_key == reward_key(self.kind, vote_detail.action),
                        tot == votes_total(self.kind, self.votes@, incentive_key),
                        vs == bucket_voters(self.kind, self.votes@, self.participants, incentive_key),
                        amt == vote_detail.amount,
                        self.incentive@ == before,
                        before[i as int].1.wf(),
                        is_claim_list(before[i as int].1, amt, tot, vs, res@),
                        forall|k: int| 0 <= k < j ==> #[trigger] before[i as int].1.claimed_amounts@[k] + res@[k].1 <= u128::MAX,
                    decreases res@.len() - j,
                {
                    let c = self.incentive[i].1.claimed_amounts[j];
                    if c > u128::MAX - res[j].1 {
                        proof {
                            let inc = before[i as int].1;
                            assert(res@[j as int].1 == token_share(inc, j as int, amt, tot, vs));
                            assert(inc.claimed_amounts@[j as int] + token_share(inc, j as int, amt, tot, vs) > u128::MAX);
                        }
                        return Err(VeError::Overflow);
                    }
                    j = j + 1;
                }
                proof {
                    let inc = before[i as int].1;
                    assert forall|k: int| 0 <= k < inc.incentive_token_ids@.len() implies
                        !(#[trigger] token_share(inc, k, amt, tot, vs) > u128::MAX
                        || inc.claimed_amounts@[k] + token_share(inc, k, amt, tot, vs) > u128::MAX) by {
                        assert(res@[k].1 == token_share(inc, k, amt, tot, vs));
                    }
                }
                Ok(Some(res))
            },
        }
    }

    /// Settles `vote_detail` against the pool it draws on: returns each
    /// token's reward and records it as claimed. None where that bucket has
    /// no pool; an error, with nothing changed, where a share or a claimed
    /// amount would exceed u128::MAX.
    pub fn claim_reward(&mut self, vote_detail: &VoteDetail) -> (r: Result<Option<Vec<(String, Balance)>>, VeError>)
        requires
            old(self).wf(),
        ensures
            final(self).wf(),
            final(self).same_record_but_incentive(old(self)),
            ({
                let key = reward_key(old(self).kind, vote_detail.action);
                let total = votes_total(old(self).kind, old(self).votes@, key);
                let voters = bucket_voters(old(self).kind, old(self).votes@, old(self).participants, key);
                match pool_index(old(self).incentive@, key) {
                    None => r == Ok::<Option<Vec<(String, Balance)>>, VeError>(None) && final(self).incentive@ == old(self).incentive@,
                    Some(i) => if claim_overflows(old(self).incentive@[i].1, vote_detail.amount as int, total, voters) {
                        r == Err::<Option<Vec<(String, Balance)>>, VeError>(VeError::Overflow)
                            && final(self).incentive@ == old(self).incentive@
                    } else {
                        match r {
                            Ok(Some(rewards)) => {
                                &&& is_claim_list(old(self).incentive@[i].1, vote_detail.amount as int, total, voters, rewards@)
                                &&& final(self).incentive@.len() == old(self).incentive@.len()
                                &&& final(self).incentive@[i].0 == key
                                &&& claimed_after(old(self).incentive@[i].1, rewards@, final(self).incentive@[i].1)
                                &&& forall|k: int| 0 <= k < old(self).incentive@.len() && k != i ==>
                                    #[trigger] final(self).incentive@[k] == old(self).incentive@[k]
                            },
                            _ => false,
                        }
                    },
                }
            }),
    {
        let res = match self.claim_preview(vote_detail) {
            Ok(Some(list)) => list,
            Ok(None) => return Ok(None),
            Err(e) => return Err(e),
        };
        let incentive_key = self.reward_key_of(&vote_detail.action);
        let i = find_pool(&self.incentive, incentive_key).unwrap();
        let ghost before = self.incentive@;
        proof {
            let inc = before[i as int].1;
            let key = incentive_key;
            let tot = votes_total(self.kind, self.votes@, key);
            let vs = bucket_voters(self.kind, self.votes@, self.participants, key);
            assert forall|k: int| 0 <= k < inc.claimed_amounts@.len() implies #[trigger] inc.claimed_amounts@[k] + res@[k].1 <= u128::MAX by {
                assert(res@[k].1 == token_share(inc, k, vote_detail.amount as int, tot, vs));
                assert(!(token_share(inc, k, vote_detail.amount as int, tot, vs) > u128::MAX
                    || inc.claimed_amounts@[k] + token_share(inc, k, vote_detail.amount as int, tot, vs) > u128::MAX));
            }
        }
                let (key, mut incentive) = self.incentive.remove(i);
                assert(incentive == before[i as int].1);
                let ghost inc0 = incentive;
                let mut j: usize = 0;
                while j < incentive.claimed_amounts.len()
                    invariant
                        inc0.wf(),
                        incentive.incentive_token_ids@ == inc0.incentive_token_ids@,
                        incentive.incentive_amounts@ == inc0.incentive_amounts@,
                        incentive.claimed_amounts@.len() == inc0.claimed_amounts@.len(),
                        res@.len() == inc0.incentive_token_ids@.len(),
                        incentive.incentive_type == inc0.incentive_type,
                        j <= incentive.claimed_amounts@.len(),
                        forall|k: int| 0 <= k < inc0.claimed_amounts@.len() ==> #[trigger] inc0.claimed_amounts@[k] + res@[k].1 <= u128::MAX,
                        forall|k: int| j <= k < inc0.claimed_amounts@.len() ==> #[trigger] incentive.claimed_amounts@[k] == inc0.claimed_amounts@[k],
                        forall|k: int| 0 <= k < j ==> #[trigger] incentive.claimed_amounts@[k] == inc0.claimed_amounts@[k] + res@[k].1,
                    decreases inc0.claimed_amounts@.len() - j,
                {
                    let c = incentive.claimed_amounts[j] + res[j].1;
                    incentive.claimed_amounts.set(j, c);
                    j = j + 1;
                }
                self.incentive.insert(i, (key, incentive));
                proof {
                    assert forall|a: int, b: int| 0 <= a < self.incentive@.len() && 0 <= b < self.incentive@.len() && a != b
                        implies self.incentive@[a].0 != self.incentive@[b].0 by {
                        assert(self.incentive@[a].0 == before[a].0);
                        assert(self.incentive@[b].0 == before[b].0);
                    }
                    assert forall|k: int| 0 <= k < self.incentive@.len() implies (#[trigger] self.incentive@[k]).1.wf() by {
                        if k != i {
                            assert(self.incentive@[k] == before[k]);
                        }
                    }
                    assert forall|k: int| 0 <= k < before.len() && k != i implies #[trigger] self.incentive@[k] == before[k] by {
                    }
                }
                Ok(Some(res))
    }
}

/// `after` is the pool `before` (None: no pool yet, to be shared as `kind`
/// says) after `amount` of `token` is deposited, and `total` is what it then
/// holds of `token`.
pub open spec fn is_deposit(before: Option<ProposalIncentive>, kind: IncentiveType, token: String, amount: int, after: ProposalIncentive, total: int) -> bool {
    match before {
        None => {
            &&& after.incentive_type == kind
            &&& after.incentive_token_ids@ == seq![token]
            &&& after.incentive_amounts@ == seq![amount as u128]
            &&& after.claimed_amounts@ == seq![0u128]
            &&& total == amount
        },
        Some(inc) => after.incentive_type == inc.incentive_type && match token_index(inc, token@) {
            Some(j) => {
                &&& after.incentive_token_ids@ == inc.incentive_token_ids@
                &&& after.claimed_amounts@ == inc.claimed_amounts@
                &&& after.incentive_amounts@ == inc.incentive_amounts@.update(j, (inc.incentive_amounts@[j] + amount) as u128)
                &&& total == inc.incentive_amounts@[j] + amount
            },
            None => {
                &&& after.incentive_token_ids@ == inc.incentive_token_ids@.push(token)
                &&& after.incentive_amounts@ == inc.incentive_amounts@.push(amount as u128)
                &&& after.claimed_amounts@ == inc.claimed_amounts@.push(0u128)
                &&& total == amount
            },
        },
    }
}

/// The pools `after` are the pools `before` once `amount` of `token` went
/// into the pool of bucket `key`, which then holds `total` of it.
pub open spec fn deposit_applied(before: Seq<(u32, ProposalIncentive)>, after: Seq<(u32, ProposalIncentive)>, key: u32, kind: IncentiveType, token: String, amount: int, total: int) -> bool {
    match pool_index(before, key) {
        None => {
            &&& after.len() == before.len() + 1
            &&& after.drop_last() == before
            &&& after.last().0 == key
            &&& is_deposit(None, kind, token, amount, after.last().1, total)
        },
        Some(i) => {
            &&& after.len() == before.len()
            &&& after[i].0 == key
            &&& is_deposit(Some(before[i].1), kind, token, amount, after[i].1, total)
            &&& forall|k: int| 0 <= k < before.len() && k != i ==> #[trigger] after[k] == before[k]
        },
    }
}

/// Why a deposit of `amount` of `token` into the pool of bucket `key`,
/// shared as `kind` says, cannot be taken, if it cannot: the pool shares
/// otherwise, or the token's total would exceed u128::MAX.
pub open spec fn deposit_problem(s: Seq<(u32, ProposalIncentive)>, key: u32, kind: IncentiveType, token: Seq<char>, amount: int) -> Option<VeError> {
    match pool_index(s, key) {
        None => None,
        Some(i) => if s[i].1.incentive_type != kind {
            Some(VeError::InvalidIncentive)
        } else {
            match token_index(s[i].1, token) {
                Some(j) => if s[i].1.incentive_amounts@[j] + amount > u128::MAX { Some(VeError::Overflow) } else { None },
                None => None,
            }
        },
    }
}

impl Proposal {
    /// Why a deposit into the pool of bucket `incentive_key` cannot be
    /// taken, if it cannot; nothing changes.
    pub fn deposit_check(&self, incentive_key: u32, incentive_type: IncentiveType, token_id: &String, amount: Balance) -> (r: Option<VeError>)
        requires
            self.wf(),
        ensures
            r == deposit_problem(self.incentive@, incentive_key, incentive_type, token_id@, amount as int),
    {
        match find_pool(&self.incentive, incentive_key) {
            None => None,
            Some(i) => {
                let inc = &self.incentive[i].1;
                if inc.incentive_type != incentive_type {
                    return Some(VeError::InvalidIncentive);
                }
                assert(inc.wf());
                match find_token(inc, token_id) {
                    Some(j) => {
                        if inc.incentive_amounts[j] > u128::MAX - amount {
                            Some(VeError::Overflow)
                        } else {
                            None
                        }
                    },
                    None => None,
                }
            },
        }
    }

    /// Deposits `amount` of `token_id` into the pool of bucket
    /// `incentive_key`, creating the pool (shared as `incentive_type` says)
    /// or the token's entry where needed, and returns what the pool then
    /// holds of that token. An existing pool keeps its type; a deposit asking
    /// for another is refused.
    pub fn deposit_reward(&mut self, incentive_key: u32, incentive_type: IncentiveType, token_id: &String, amount: Balance) -> (r: Result<Balance, VeError>)
        requires
            old(self).wf(),
        ensures
            final(self).wf(),
            final(self).same_record_but_incentive(old(self)),
            r is Ok ==> deposit_applied(old(self).incentive@, final(self).incentive@, incentive_key, incentive_type, *token_id, amount as int, r->Ok_0 as int),
            r is Err ==> final(self).incentive@ == old(self).incentive@
                && (r == Err::<Balance, VeError>(VeError::InvalidIncentive) || r == Err::<Balance, VeError>(VeError::Overflow)),
            ({
                match pool_index(old(self).incentive@, incentive_key) {
                    Some(i) => old(self).incentive@[i].1.incentive_type != incentive_type,
                    None => false,
                }
            }) <==> r == Err::<Balance, VeError>(VeError::InvalidIncentive),
            ({
                match pool_index(old(self).incentive@, incentive_key) {
                    Some(i) => old(self).incentive@[i].1.incentive_type == incentive_type && match token_index(old(self).incentive@[i].1, token_id@) {
                        Some(j) => old(self).incentive@[i].1.incentive_amounts@[j] + amount > u128::MAX,
                        None => false,
                    },
                    None => false,
                }
            }) <==> r == Err::<Balance, VeError>(VeError::Overflow),
    {
        match find_pool(&self.incentive, incentive_key) {
            None => {
                let ghost before = self.incentive@;
                let mut ids: Vec<String> = Vec::new();
                ids.push(token_id.clone());
                let mut amounts: Vec<u128> = Vec::new();
                amounts.push(amount);
                let mut claimed: Vec<u128> = Vec::new();
                claimed.push(0);
                let inc = ProposalIncentive {
                    incentive_type,
                    incentive_token_ids: ids,
                    incentive_amounts: amounts,
                    claimed_amounts: claimed,
                };
                assert(inc.incentive_token_ids@ =~= seq![*token_id]);
                assert(inc.incentive_amounts@ =~= seq![amount]);
                assert(inc.claimed_amounts@ =~= seq![0u128]);
                self.incentive.push((incentive_key, inc));
                proof {
                    assert(self.incentive@.drop_last() =~= before);
                    assert forall|a: int, b: int| 0 <= a < self.incentive@.len() && 0 <= b < self.incentive@.len() && a != b
                        implies self.incentive@[a].0 != self.incentive@[b].0 by {
                        if a < before.len() && b < before.len() {
                            assert(self.incentive@[a] == before[a] && self.incentive@[b] == before[b]);
                        } else if a < before.len() {
                            assert(self.incentive@[a] == before[a]);
                        } else if b < before.len() {
                            assert(self.incentive@[b] == before[b]);
                        }
                    }
                    assert forall|k: int| 0 <= k < self.incentive@.len() implies (#[trigger] self.incentive@[k]).1.wf() by {
                        if k < before.len() {
                            assert(self.incentive@[k] == before[k]);
                        }
                    }
                }
                Ok(amount)
            },
            Some(i) => {
                let ghost before = self.incentive@;
                if self.incentive[i].1.incentive_type != incentive_type {
                    return Err(VeError::InvalidIncentive);
                }
                let (key, mut inc) = self.incentive.remove(i);
                assert(inc == before[i as int].1);
                let total = match find_token(&inc, token_id) {
                    Some(j) => {
                        let cur = inc.incentive_amounts[j];
                        if cur > u128::MAX - amount {
                            self.incentive.insert(i, (key, inc));
                            assert(self.incentive@ =~= before);
                            return Err(VeError::Overflow);
                        }
                        inc.incentive_amounts.set(j, cur + amount);
                        cur + amount
                    },
                    None => {
                        proof {
                            assert forall|a: int| 0 <= a < inc.incentive_token_ids@.len() implies inc.incentive_token_ids@[a]@ != token_id@ by {
                                if inc.incentive_token_ids@[a]@ == token_id@ {
                                    assert(exists|j: int| 0 <= j < inc.incentive_token_ids@.len() && inc.incentive_token_ids@[j]@ == token_id@);
                                }
                            }
                        }
                        inc.incentive_token_ids.push(token_id.clone());
                        inc.incentive_amounts.push(amount);
                        inc.claimed_amounts.push(0);
                        amount
                    },
                };
                self.incentive.insert(i, (key, inc));
                proof {
                    assert forall|a: int, b: int| 0 <= a < self.incentive@.len() && 0 <= b < self.incentive@.len() && a != b
                        implies self.incentive@[a].0 != self.incentive@[b].0 by {
                        assert(self.incentive@[a].0 == before[a].0);
                        assert(self.incentive@[b].0 == before[b].0);
                    }
                    assert forall|k: int| 0 <= k < self.incentive@.len() implies (#[trigger] self.incentive@[k]).1.wf() by {
                        if k != i {
                            assert(self.incentive@[k] == before[k]);
                        } else {
                            let t = self.incentive@[k].1.incentive_token_ids@;
                            assert forall|a: int, b: int| 0 <= a < t.len() && 0 <= b < t.len() && a != b implies t[a]@ != t[b]@ by {
                                if a < before[k].1.incentive_token_ids@.len() && b < before[k].1.incentive_token_ids@.len() {
                                    assert(t[a] == before[k].1.incentive_token_ids@[a]);
                                    assert(t[b] == before[k].1.incentive_token_ids@[b]);
                                }
                            }
                        }
                    }
                    assert forall|k: int| 0 <= k < before.len() && k != i implies #[trigger] self.incentive@[k] == before[k] by {
                    }
                }
                Ok(total)
            },
        }
    }
}

proof fn lemma_sum_ballots_prefix(votes: Seq<VoteInfo>, n: int)
    requires
        0 <= n <= votes.len(),
    ensures
        sum_ballots(votes.subrange(0, n)) <= sum_ballots(votes),
        sum_ballots(votes.subrange(0, n)) >= 0,
    decreases votes.len(),
{
    if n == votes.len() {
        assert(votes.subrange(0, n) =~= votes);
        lemma_sum_ballots_nonneg(votes);
    } else {
        lemma_sum_ballots_prefix(votes.drop_last(), n);
        assert(votes.drop_last().subrange(0, n) =~= votes.subrange(0, n));
    }
}

pub(crate) proof fn lemma_sum_ballots_nonneg(votes: Seq<VoteInfo>)
    ensures
        sum_ballots(votes) >= 0,
    decreases votes.len(),
{
    if votes.len() > 0 {
        lemma_sum_ballots_nonneg(votes.drop_last());
    }
}

} // verus!
