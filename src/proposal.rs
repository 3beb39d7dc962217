use vstd::prelude::*;
use crate::auction::{award_portions, portion_price, is_award_list, is_portion_price};
use crate::errors::VeError;
use crate::incentive::ProposalIncentive;
use crate::utils::Timestamp;

verus! {

/// A vote cast on a proposal.
#[derive(Clone, Copy, Debug, PartialEq, Eq, Structural)]
pub enum Action {
    /// Vote to approve given proposal
    VoteApprove,
    /// Vote to reject given proposal
    VoteReject,
    /// Vote to nonsense given proposal (because it's spam).
    VoteNonsense,
    /// Vote for a farm of a farming-reward proposal
    VoteFarm { farm_id: usize },
    /// Vote for an option of a poll
    VotePoll { poll_id: usize },
}

impl Action {
    /// The vote bucket this action adds weight to.
    pub open spec fn index(&self) -> int {
        match *self {
            Action::VoteApprove => 0,
            Action::VoteReject => 1,
            Action::VoteNonsense => 2,
            Action::VoteFarm { farm_id } => farm_id as int,
            Action::VotePoll { poll_id } => poll_id as int,
        }
    }

    pub fn get_index(&self) -> (r: usize)
        ensures
            r == self.index(),
    {
        match self {
            Action::VoteFarm { farm_id } => *farm_id,
            Action::VotePoll { poll_id } => *poll_id,
            Action::VoteApprove => Vote::Approve.index(),
            Action::VoteReject => Vote::Reject.index(),
            Action::VoteNonsense => Vote::Nonsense.index(),
        }
    }
}

/// The buckets of a common proposal.
#[derive(Clone, Copy, Debug, PartialEq, Eq, Structural)]
pub enum Vote {
    Approve,
    Reject,
    Nonsense,
}

impl Vote {
    pub fn index(&self) -> (r: usize)
        ensures
            r == match *self {
                Vote::Approve => 0int,
                Vote::Reject => 1int,
                Vote::Nonsense => 2int,
            },
    {
        match self {
            Vote::Approve => 0,
            Vote::Reject => 1,
            Vote::Nonsense => 2,
        }
    }

    /// The bucket of a common-proposal action; None for farm and poll votes.
    pub fn from_action(action: &Action) -> (r: Option<Vote>)
        ensures
            r == match *action {
                Action::VoteApprove => Some(Vote::Approve),
                Action::VoteReject => Some(Vote::Reject),
                Action::VoteNonsense => Some(Vote::Nonsense),
                _ => None::<Vote>,
            },
    {
        match action {
            Action::VoteApprove => Some(Vote::Approve),
            Action::VoteReject => Some(Vote::Reject),
            Action::VoteNonsense => Some(Vote::Nonsense),
            _ => None,
        }
    }
}

/// Weight and distinct voters of one bucket.
#[derive(Clone, Copy, Debug, PartialEq, Eq, Structural)]
pub struct VoteInfo {
    pub total_ballots: u128,
    pub participants: u64,
}

#[derive(Clone, Debug, PartialEq, Eq)]
pub enum ProposalKind {
    FarmingReward { farm_list: Vec<String>, total_reward: u32 },
    Poll { options: Vec<String> },
    Common,
}

impl ProposalKind {
    /// Number of vote buckets: one per farm or option, three for a common
    /// proposal (approve, reject, nonsense).
    pub open spec fn bucket_count(&self) -> int {
        match *self {
            ProposalKind::FarmingReward { farm_list, .. } => farm_list@.len() as int,
            ProposalKind::Poll { options } => options@.len() as int,
            ProposalKind::Common => 3,
        }
    }

    /// `action` is a vote that this kind of proposal takes.
    pub open spec fn accepts(&self, action: Action) -> bool {
        match *self {
            ProposalKind::FarmingReward { farm_list, .. } => match action {
                Action::VoteFarm { farm_id } => farm_id < farm_list@.len(),
                _ => false,
            },
            ProposalKind::Poll { options } => match action {
                Action::VotePoll { poll_id } => poll_id < options@.len(),
                _ => false,
            },
            ProposalKind::Common => match action {
                Action::VoteApprove | Action::VoteReject | Action::VoteNonsense => true,
                _ => false,
            },
        }
    }

    pub fn accepts_action(&self, action: &Action) -> (r: bool)
        ensures
            r == self.accepts(*action),
    {
        match self {
            ProposalKind::FarmingReward { farm_list, .. } => match action {
                Action::VoteFarm { farm_id } => *farm_id < farm_list.len(),
                _ => false,
            },
            ProposalKind::Poll { options } => match action {
                Action::VotePoll { poll_id } => *poll_id < options.len(),
                _ => false,
            },
            ProposalKind::Common => match action {
                Action::VoteApprove | Action::VoteReject | Action::VoteNonsense => true,
                _ => false,
            },
        }
    }

    pub fn bucket_len(&self) -> (r: usize)
        ensures
            r == self.bucket_count(),
    {
        match self {
            ProposalKind::FarmingReward { farm_list, .. } => farm_list.len(),
            ProposalKind::Poll { options } => options.len(),
            ProposalKind::Common => 3,
        }
    }
}

#[derive(Clone, Copy, Debug, PartialEq, Eq, Structural)]
pub enum ProposalStatus {
    WarmUp,
    InProgress,
    /// Expired after period of time.
    Expired,
}

/// Outcome of a farming-reward proposal: the auction price and the portions
/// each winning farm receives, in rank order.
#[derive(Clone, Debug, PartialEq, Eq)]
pub struct FarmingReward {
    pub price: u128,
    pub portion_list: Vec<(String, u128)>,
}

pub struct Proposal {
    pub id: u32,
    pub description: String,
    /// Who opened the proposal.
    pub proposer: String,
    /// Kind of proposal with relevant information.
    pub kind: ProposalKind,
    /// One bucket per option of the kind.
    pub votes: Vec<VoteInfo>,
    /// Total voting power at the last vote change.
    pub ve_amount_at_last_action: u128,
    /// Voting begins (nanoseconds); before it the proposer may remove it.
    pub start_at: Timestamp,
    /// Voting ends (nanoseconds); the proposal is expired from then on.
    pub end_at: Timestamp,
    /// Distinct voters over all buckets.
    pub participants: u64,
    /// Incentive pools, keyed by bucket (key zero for a poll).
    pub incentive: Vec<(u32, ProposalIncentive)>,
    pub status: Option<ProposalStatus>,
    pub is_nonsense: Option<bool>,
    pub farming_reward: Option<FarmingReward>,
}

pub enum VProposal {
    Current(Proposal),
}

impl VProposal {
    pub fn into_current(self) -> (r: Proposal)
        ensures
            self == VProposal::Current(r),
    {
        match self {
            VProposal::Current(p) => p,
        }
    }
}

pub open spec fn ballots_of(votes: Seq<VoteInfo>) -> Seq<u128> {
    votes.map_values(|v: VoteInfo| v.total_ballots)
}

pub open spec fn incentive_keys_distinct(s: Seq<(u32, ProposalIncentive)>) -> bool {
    forall|i: int, j: int| 0 <= i < s.len() && 0 <= j < s.len() && i != j ==> s[i].0 != s[j].0
}

/// `fr` is the farming result for farms `farm_list` with final weights
/// `ballots` and `total_reward` portions on offer.
pub open spec fn is_farming_result(farm_list: Seq<String>, ballots: Seq<u128>, total_reward: int, fr: FarmingReward) -> bool {
    &&& is_portion_price(ballots, total_reward, fr.price as int)
    &&& fr.price == 0 ==> fr.portion_list@.len() == 0
    &&& fr.price > 0 ==> exists|awards: Seq<(usize, u128)>| {
        &&& is_award_list(ballots, fr.price as int, awards)
        &&& awards.len() == fr.portion_list@.len()
        &&& forall|k: int| 0 <= k < awards.len() ==>
            (#[trigger] fr.portion_list@[k]).0@ == farm_list[awards[k].0 as int]@
            && fr.portion_list@[k].1 == awards[k].1
    }
}

impl Proposal {
    pub open spec fn wf(&self) -> bool {
        &&& self.start_at <= self.end_at
        &&& self.votes@.len() == self.kind.bucket_count()
        &&& incentive_keys_distinct(self.incentive@)
        &&& forall|i: int| 0 <= i < self.incentive@.len() ==> (#[trigger] self.incentive@[i]).1.wf()
    }

    /// The status at time `now`: warm-up before the start, in progress until
    /// the end, expired from the end on.
    pub open spec fn status_at(&self, now: Timestamp) -> ProposalStatus {
        if now < self.start_at {
            ProposalStatus::WarmUp
        } else if now < self.end_at {
            ProposalStatus::InProgress
        } else {
            ProposalStatus::Expired
        }
    }

    /// The same proposal but for its derived fields (status and result).
    pub open spec fn same_record(&self, other: &Proposal) -> bool {
        &&& self.id == other.id
        &&& self.description == other.description
        &&& self.proposer == other.proposer
        &&& self.kind == other.kind
        &&& self.votes@ == other.votes@
        &&& self.ve_amount_at_last_action == other.ve_amount_at_last_action
        &&& self.start_at == other.start_at
        &&& self.end_at == other.end_at
        &&& self.participants == other.participants
        &&& self.incentive@ == other.incentive@
    }

    /// The same proposal but for its incentive pools and derived fields.
    pub open spec fn same_record_but_incentive(&self, other: &Proposal) -> bool {
        &&& self.id == other.id
        &&& self.description == other.description
        &&& self.proposer == other.proposer
        &&& self.kind == other.kind
        &&& self.votes@ == other.votes@
        &&& self.ve_amount_at_last_action == other.ve_amount_at_last_action
        &&& self.start_at == other.start_at
        &&& self.end_at == other.end_at
        &&& self.participants == other.participants
        &&& self.status == other.status
        &&& self.is_nonsense == other.is_nonsense
        &&& self.farming_reward == other.farming_reward
    }

    /// The result derived from the final votes: for a common proposal whether
    /// it is nonsense (nonsense outweighs approve and reject together), for a
    /// farming-reward proposal the portion auction.
    pub open spec fn has_result(&self) -> bool {
        match self.kind {
            ProposalKind::Common => self.is_nonsense == Some(
                self.votes@[0].total_ballots + self.votes@[1].total_ballots < self.votes@[2].total_ballots,
            ),
            ProposalKind::FarmingReward { farm_list, total_reward } => match self.farming_reward {
                Some(fr) => is_farming_result(farm_list@, ballots_of(self.votes@), total_reward as int, fr),
                None => false,
            },
            ProposalKind::Poll { .. } => true,
        }
    }

    pub fn update_result(&mut self)
        requires
            old(self).wf(),
        ensures
            final(self).same_record(old(self)),
            final(self).status == old(self).status,
            final(self).has_result(),
            final(self).wf(),
    {
        match &self.kind {
            ProposalKind::Common => {
                let approve = self.votes[0].total_ballots;
                let reject = self.votes[1].total_ballots;
                let nonsense = self.votes[2].total_ballots;
                self.is_nonsense = Some(approve <= nonsense && reject < nonsense - approve);
            },
            ProposalKind::FarmingReward { farm_list, total_reward } => {
                let ballots = ballots_vec(&self.votes);
                let price = portion_price(&ballots, *total_reward);
                let mut portion_list: Vec<(String, u128)> = Vec::new();
                if price > 0 {
                    let awards = award_portions(&ballots, price);
                    let mut k: usize = 0;
                    while k < awards.len()
                        invariant
                            k <= awards@.len(),
                            is_award_list(ballots@, price as int, awards@),
                            ballots@.len() == farm_list@.len(),
                            portion_list@.len() == k,
                            forall|j: int| 0 <= j < k ==>
                                (#[trigger] portion_list@[j]).0@ == farm_list@[awards@[j].0 as int]@
                                && portion_list@[j].1 == awards@[j].1,
                        decreases awards@.len() - k,
                    {
                        let (idx, portions) = awards[k];
                        assert(awards@[k as int].0 < ballots@.len());
                        portion_list.push((farm_list[idx].clone(), portions));
                        k = k + 1;
                    }
                    assert(awards@.len() == portion_list@.len());
                }
                let fr = FarmingReward { price, portion_list };
                self.farming_reward = Some(fr);
            },
            ProposalKind::Poll { .. } => {},
        }
    }

    /// Recomputes the status at `now`; on expiry also derives the result.
    pub fn update_status(&mut self, now: Timestamp)
        requires
            old(self).wf(),
        ensures
            final(self).same_record(old(self)),
            final(self).wf(),
            final(self).status == Some(old(self).status_at(now)),
            (old(self).status_at(now) == ProposalStatus::Expired) == (now >= old(self).end_at),
            old(self).status_at(now) == ProposalStatus::Expired ==> final(self).has_result(),
            old(self).status_at(now) != ProposalStatus::Expired ==> final(self).is_nonsense == old(self).is_nonsense
                && final(self).farming_reward == old(self).farming_reward,
    {
        if now < self.start_at {
            self.status = Some(ProposalStatus::WarmUp);
        } else if now < self.end_at {
            self.status = Some(ProposalStatus::InProgress);
        } else {
            self.status = Some(ProposalStatus::Expired);
            self.update_result();
        }
    }

    /// Adds `amount` to (or, where `is_increased` is false, takes it from) the
    /// weight of the bucket that `action` votes for.
    pub fn update_votes(&mut self, action: &Action, amount: u128, is_increased: bool) -> (r: Result<(), VeError>)
        requires
            old(self).wf(),
        ensures
            final(self).wf(),
            final(self).kind == old(self).kind,
            final(self).participants == old(self).participants,
            final(self).incentive@ == old(self).incentive@,
            final(self).start_at == old(self).start_at,
            final(self).end_at == old(self).end_at,
            final(self).ve_amount_at_last_action == old(self).ve_amount_at_last_action,
            final(self).status == old(self).status,
            final(self).id == old(self).id,
            final(self).proposer == old(self).proposer,
            final(self).description == old(self).description,
            final(self).is_nonsense == old(self).is_nonsense,
            final(self).farming_reward == old(self).farming_reward,
            !old(self).kind.accepts(*action) ==> r == Err::<(), VeError>(VeError::InvalidVote),
            old(self).kind.accepts(*action) ==> {
                let b = old(self).votes@[action.index()];
                let total = if is_increased { b.total_ballots + amount } else { b.total_ballots - amount };
                if 0 <= total <= u128::MAX {
                    &&& r == Ok::<(), VeError>(())
                    &&& final(self).votes@ == old(self).votes@.update(
                        action.index(),
                        VoteInfo { total_ballots: total as u128, participants: b.participants },
                    )
                } else {
                    r == Err::<(), VeError>(VeError::Overflow)
                }
            },
            r.is_err() ==> final(self).votes@ == old(self).votes@,
    {
        if !self.kind.accepts_action(action) {
            return Err(VeError::InvalidVote);
        }
        let index = action.get_index();
        let b = self.votes[index];
        let total = if is_increased {
            match b.total_ballots.checked_add(amount) {
                Some(t) => t,
                None => return Err(VeError::Overflow),
            }
        } else {
            match b.total_ballots.checked_sub(amount) {
                Some(t) => t,
                None => return Err(VeError::Overflow),
            }
        };
        self.votes.set(index, VoteInfo { total_ballots: total, participants: b.participants });
        Ok(())
    }

    /// Counts one more (`is_added`) or one fewer distinct voter on the bucket
    /// of `action` and on the proposal.
    pub fn update_participants(&mut self, action: &Action, is_added: bool) -> (r: Result<(), VeError>)
        requires
            old(self).wf(),
            old(self).kind.accepts(*action),
        ensures
            final(self).wf(),
            final(self).kind == old(self).kind,
            final(self).incentive@ == old(self).incentive@,
            final(self).start_at == old(self).start_at,
            final(self).end_at == old(self).end_at,
            final(self).ve_amount_at_last_action == old(self).ve_amount_at_last_action,
            final(self).status == old(self).status,
            final(self).id == old(self).id,
            final(self).proposer == old(self).proposer,
            final(self).description == old(self).description,
            final(self).is_nonsense == old(self).is_nonsense,
            final(self).farming_reward == old(self).farming_reward,
            ({
                let b = old(self).votes@[action.index()];
                let d: int = if is_added { 1 } else { -1 };
                if 0 <= b.participants + d <= u64::MAX && 0 <= old(self).participants + d <= u64::MAX {
                    &&& r == Ok::<(), VeError>(())
                    &&& final(self).participants == old(self).participants + d
                    &&& final(self).votes@ == old(self).votes@.update(
                        action.index(),
                        VoteInfo { total_ballots: b.total_ballots, participants: (b.participants + d) as u64 },
                    )
                } else {
                    &&& r == Err::<(), VeError>(VeError::Overflow)
                    &&& final(self).participants == old(self).participants
                    &&& final(self).votes@ == old(self).votes@
                }
            }),
    {
        let index = action.get_index();
        let b = self.votes[index];
        if is_added {
            if b.participants == u64::MAX || self.participants == u64::MAX {
                return Err(VeError::Overflow);
            }
            self.votes.set(index, VoteInfo { total_ballots: b.total_ballots, participants: b.participants + 1 });
            self.participants = self.participants + 1;
        } else {
            if b.participants == 0 || self.participants == 0 {
                return Err(VeError::Overflow);
            }
            self.votes.set(index, VoteInfo { total_ballots: b.total_ballots, participants: b.participants - 1 });
            self.participants = self.participants - 1;
        }
        Ok(())
    }
}

/// The weights of the buckets, in order.
pub fn ballots_vec(votes: &Vec<VoteInfo>) -> (r: Vec<u128>)
    ensures
        r@ == ballots_of(votes@),
{
    let mut r: Vec<u128> = Vec::new();
    let mut i: usize = 0;
    while i < votes.len()
        invariant
            i <= votes@.len(),
            r@ == ballots_of(votes@.subrange(0, i as int)),
        decreases votes@.len() - i,
    {
        r.push(votes[i].total_ballots);
        i = i + 1;
        assert(r@ =~= ballots_of(votes@.subrange(0, i as int)));
    }
    assert(votes@.subrange(0, i as int) =~= votes@);
    r
}

} // verus!
