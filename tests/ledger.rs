use ref_ve::errors::VeError;
use ref_ve::incentive::IncentiveType;
use ref_ve::ledger::Contract;
use ref_ve::proposal::{Action, ProposalKind, ProposalStatus, VoteInfo};

const E18: u128 = 1_000_000_000_000_000_000;
const E24: u128 = 1_000_000_000_000_000_000_000_000;
const DAY: u32 = 86400;
const NANOS: u64 = 1_000_000_000;
/// A start time comfortably after zero, in seconds.
const T0_SEC: u32 = 1_000_000;

fn s(x: &str) -> String {
    x.to_string()
}

fn at(sec: u32) -> u64 {
    sec as u64 * NANOS
}

/// A ledger of a 24-decimal token where locks may last 1 second to 10 days.
fn setup() -> Contract {
    let mut c = Contract::new(s("ve.near"), s("owner.near"), s("LOVE"), s("lpt.near"), s(":0"), 24);
    c.modify_locking_policy(&s("owner.near"), 1, 10 * DAY, 20000).unwrap();
    c.extend_whitelisted_accounts(&s("owner.near"), &vec![s("bob")]).unwrap();
    c.extend_whitelisted_incentive_tokens(&s("owner.near"), &vec![s("nref.near"), s("wnear.near")]).unwrap();
    c.register_account(&s("bob"), &s("bob")).unwrap();
    c
}

fn poll() -> ProposalKind {
    ProposalKind::Poll { options: vec![s("topic1"), s("topic2")] }
}

#[test]
fn lock_mints_voting_power_and_counts_it() {
    let mut c = setup();
    // Two of ten days: a 1.2x multiplier.
    assert_eq!(c.lock_lpt(&s("alice"), 100 * E24, 2 * DAY, at(T0_SEC)), Ok(120 * E18));
    assert_eq!(c.cur_total_ve_lpt, 120 * E18);
    assert_eq!(c.cur_lock_lpt, 100 * E24);
    assert_eq!(c.account_count, 2);
    let info = c.get_account_info(&s("alice")).unwrap();
    assert_eq!(info.lpt_amount, 100 * E24);
    assert_eq!(info.ve_lpt_amount, 120 * E18);
    assert_eq!(info.unlock_timestamp, at(T0_SEC + 2 * DAY));
    assert_eq!(info.duration_sec, 2 * DAY);
    assert_eq!(info.sponsor_id, s("ve.near"));
}

#[test]
fn lock_refusals() {
    let mut c = setup();
    assert_eq!(c.lock_lpt(&s("alice"), 100 * E24, 10 * DAY + 1, at(T0_SEC)), Err(VeError::InvalidDuration));
    assert_eq!(c.lock_lpt(&s("alice"), 100 * E24, 0, at(T0_SEC)), Err(VeError::InvalidDuration));
    assert_eq!(c.lock_lpt(&s("alice"), 0, 10 * DAY, at(T0_SEC)), Err(VeError::InsufficientBalance));
    // Below the precision of voting power once normalized.
    assert_eq!(c.lock_lpt(&s("alice"), 999999, 10 * DAY, at(T0_SEC)), Err(VeError::InsufficientBalance));
    assert!(c.get_account_info(&s("alice")).is_none());
    assert_eq!(c.cur_total_ve_lpt, 0);
    c.lock_lpt(&s("alice"), 100 * E24, 5 * DAY, at(T0_SEC)).unwrap();
    // A running lock cannot be shortened.
    assert_eq!(c.lock_lpt(&s("alice"), E24, 2 * DAY, at(T0_SEC)), Err(VeError::InvalidDuration));
}

#[test]
fn relock_keeps_the_larger_power_and_adds() {
    let mut c = setup();
    assert_eq!(c.lock_lpt(&s("alice"), 100 * E24, 10 * DAY, at(T0_SEC)), Ok(200 * E18));
    assert_eq!(c.lock_lpt(&s("alice"), 100 * E24, 10 * DAY, at(T0_SEC)), Ok(200 * E18));
    assert_eq!(c.cur_total_ve_lpt, 400 * E18);
    assert_eq!(c.cur_lock_lpt, 200 * E24);
}

#[test]
fn append_extends_the_running_lock() {
    let mut c = setup();
    c.lock_lpt(&s("alice"), 100 * E24, 2 * DAY, at(T0_SEC)).unwrap();
    // One day later one day is left; append three: four days in all.
    let minted = c.append_lpt(&s("alice"), 100 * E24, 3 * DAY, at(T0_SEC + DAY)).unwrap();
    let info = c.get_account_info(&s("alice")).unwrap();
    assert_eq!(info.duration_sec, 4 * DAY);
    assert_eq!(info.unlock_timestamp, at(T0_SEC + 5 * DAY));
    // Re-priced 200 tokens at 1.4x.
    assert_eq!(info.ve_lpt_amount, 140 * E18 + 140 * E18);
    assert_eq!(minted, 280 * E18 - 120 * E18);
    assert_eq!(c.append_lpt(&s("bob"), E24, DAY, at(T0_SEC + DAY)), Err(VeError::AccountNotLocked));
    assert_eq!(c.append_lpt(&s("carol"), E24, DAY, at(T0_SEC + DAY)), Err(VeError::AccountNotLocked));
}

#[test]
fn withdraw_requires_the_end_of_the_lock() {
    let mut c = setup();
    c.lock_lpt(&s("alice"), 100 * E24, 2 * DAY, at(T0_SEC)).unwrap();
    assert_eq!(c.withdraw_lpt(&s("alice"), None, at(T0_SEC + DAY)), Err(VeError::StillInLock));
    assert_eq!(c.withdraw_lpt(&s("alice"), Some(101 * E24), at(T0_SEC + 2 * DAY)), Err(VeError::InsufficientBalance));
    assert_eq!(c.withdraw_lpt(&s("alice"), Some(0), at(T0_SEC + 2 * DAY)), Err(VeError::InsufficientBalance));
    assert_eq!(c.withdraw_lpt(&s("carol"), None, at(T0_SEC + 2 * DAY)), Err(VeError::AccountNotRegistered));
    // A quarter leaves: a quarter of the power goes.
    assert_eq!(c.withdraw_lpt(&s("alice"), Some(25 * E24), at(T0_SEC + 2 * DAY)), Ok((25 * E24, 30 * E18)));
    let info = c.get_account_info(&s("alice")).unwrap();
    assert_eq!(info.lpt_amount, 75 * E24);
    assert_eq!(info.ve_lpt_amount, 90 * E18);
    assert_eq!(c.cur_total_ve_lpt, 90 * E18);
    assert_eq!(c.cur_lock_lpt, 75 * E24);
}

#[test]
fn lock_then_withdraw_restores_zero_and_drops_votes() {
    let mut c = setup();
    c.lock_lpt(&s("alice"), 100 * E24, 2 * DAY, at(T0_SEC)).unwrap();
    c.lock_lpt(&s("bob"), 50 * E24, 10 * DAY, at(T0_SEC)).unwrap();
    let pid = c.create_proposal(&s("bob"), poll(), s("Poll"), T0_SEC + DAY, 3 * DAY, at(T0_SEC)).unwrap();
    assert_eq!(pid, 0);
    let mid = T0_SEC + DAY + DAY / 2;
    assert_eq!(c.action_proposal(&s("alice"), pid, Action::VotePoll { poll_id: 0 }, at(mid)), Ok(120 * E18));
    assert_eq!(c.action_proposal(&s("bob"), pid, Action::VotePoll { poll_id: 0 }, at(mid)), Ok(100 * E18));
    assert_eq!(c.get_proposal(pid).unwrap().votes[0], VoteInfo { total_ballots: 220 * E18, participants: 2 });
    // After alice's lock ends, the proposal still in progress.
    let later = T0_SEC + 2 * DAY + DAY / 2;
    assert_eq!(c.get_proposal_status(pid, at(later)), Some(ProposalStatus::InProgress));
    assert_eq!(c.withdraw_lpt(&s("alice"), None, at(later)), Ok((100 * E24, 120 * E18)));
    let info = c.get_account_info(&s("alice")).unwrap();
    assert_eq!(info.lpt_amount, 0);
    assert_eq!(info.ve_lpt_amount, 0);
    assert_eq!(info.unlock_timestamp, 0);
    let p = c.get_proposal(pid).unwrap();
    assert_eq!(p.votes[0], VoteInfo { total_ballots: 100 * E18, participants: 1 });
    assert_eq!(p.participants, 1);
    assert!(c.get_vote_detail(&s("alice"), at(later)).is_empty());
    assert_eq!(c.cur_total_ve_lpt, 100 * E18);
}

#[test]
fn clock_follows_the_calls() {
    let mut c = setup();
    assert_eq!(c.clock, 0);
    c.lock_lpt(&s("alice"), 100 * E24, 2 * DAY, at(T0_SEC)).unwrap();
    assert_eq!(c.clock, at(T0_SEC));
    c.withdraw_lpt(&s("alice"), Some(E24), at(T0_SEC + 3 * DAY)).unwrap();
    assert_eq!(c.clock, at(T0_SEC + 3 * DAY));
}

#[test]
fn bucket_weights_match_the_open_votes() {
    let mut c = setup();
    c.lock_lpt(&s("alice"), 100 * E24, 10 * DAY, at(T0_SEC)).unwrap();
    c.lock_lpt(&s("bob"), 30 * E24, 5 * DAY, at(T0_SEC)).unwrap();
    let pid = c.create_proposal(&s("bob"), poll(), s("Poll"), T0_SEC + DAY, 3 * DAY, at(T0_SEC)).unwrap();
    let t = T0_SEC + DAY + 1;
    c.action_proposal(&s("alice"), pid, Action::VotePoll { poll_id: 1 }, at(t)).unwrap();
    c.action_proposal(&s("bob"), pid, Action::VotePoll { poll_id: 1 }, at(t)).unwrap();
    c.lock_lpt(&s("bob"), 10 * E24, 5 * DAY, at(t + 1)).unwrap();
    let open: u128 = [s("alice"), s("bob")]
        .iter()
        .map(|a| c.get_vote_detail(a, at(t + 2)).iter().map(|v| v.1.amount).sum::<u128>())
        .sum();
    assert_eq!(c.get_proposal(pid).unwrap().votes[1].total_ballots, open);
    assert_eq!(c.get_proposal(pid).unwrap().votes[0].total_ballots, 0);
}

#[test]
fn topping_up_moves_open_votes() {
    let mut c = setup();
    c.lock_lpt(&s("bob"), 100 * E24, 2 * DAY, at(T0_SEC)).unwrap();
    let pid = c.create_proposal(&s("bob"), ProposalKind::Common, s("Common"), T0_SEC + DAY, 3 * DAY, at(T0_SEC)).unwrap();
    let mid = T0_SEC + DAY + 10;
    c.action_proposal(&s("bob"), pid, Action::VoteApprove, at(mid)).unwrap();
    let extra = c.lock_lpt(&s("bob"), 100 * E24, 2 * DAY, at(mid)).unwrap();
    let info = c.get_account_info(&s("bob")).unwrap();
    assert_eq!(c.get_proposal(pid).unwrap().votes[0].total_ballots, info.ve_lpt_amount);
    assert_eq!(c.get_vote_detail(&s("bob"), at(mid))[0].1.amount, info.ve_lpt_amount);
    assert_eq!(info.ve_lpt_amount, 120 * E18 + extra);
}

#[test]
fn vote_refusals() {
    let mut c = setup();
    c.lock_lpt(&s("alice"), 100 * E24, 10 * DAY, at(T0_SEC)).unwrap();
    let pid = c.create_proposal(&s("bob"), poll(), s("Poll"), T0_SEC + DAY, 3 * DAY, at(T0_SEC)).unwrap();
    let mid = T0_SEC + 2 * DAY;
    assert_eq!(c.action_proposal(&s("carol"), pid, Action::VotePoll { poll_id: 0 }, at(mid)), Err(VeError::AccountNotRegistered));
    assert_eq!(c.action_proposal(&s("bob"), pid, Action::VotePoll { poll_id: 0 }, at(mid)), Err(VeError::InsufficientVeLpt));
    assert_eq!(c.action_proposal(&s("alice"), 7, Action::VotePoll { poll_id: 0 }, at(mid)), Err(VeError::ProposalNotExist));
    assert_eq!(c.action_proposal(&s("alice"), pid, Action::VotePoll { poll_id: 0 }, at(T0_SEC)), Err(VeError::NotVotable));
    assert_eq!(c.action_proposal(&s("alice"), pid, Action::VotePoll { poll_id: 2 }, at(mid)), Err(VeError::InvalidVote));
    assert_eq!(c.action_proposal(&s("alice"), pid, Action::VoteApprove, at(mid)), Err(VeError::InvalidVote));
    c.action_proposal(&s("alice"), pid, Action::VotePoll { poll_id: 1 }, at(mid)).unwrap();
    assert_eq!(c.action_proposal(&s("alice"), pid, Action::VotePoll { poll_id: 0 }, at(mid)), Err(VeError::AlreadyVoted));
    assert_eq!(c.action_proposal(&s("alice"), pid, Action::VotePoll { poll_id: 0 }, at(T0_SEC + 5 * DAY)), Err(VeError::AlreadyVoted));
}

#[test]
fn cancel_takes_the_vote_back() {
    let mut c = setup();
    c.lock_lpt(&s("alice"), 100 * E24, 10 * DAY, at(T0_SEC)).unwrap();
    let pid = c.create_proposal(&s("bob"), ProposalKind::Common, s("Common"), T0_SEC + DAY, 3 * DAY, at(T0_SEC)).unwrap();
    let mid = T0_SEC + 2 * DAY;
    assert_eq!(c.action_cancel(&s("alice"), pid, at(mid)), Err(VeError::NoVoted));
    c.action_proposal(&s("alice"), pid, Action::VoteReject, at(mid)).unwrap();
    assert_eq!(c.get_proposal(pid).unwrap().votes[1], VoteInfo { total_ballots: 200 * E18, participants: 1 });
    assert_eq!(c.action_cancel(&s("alice"), pid, at(T0_SEC + 5 * DAY)), Err(VeError::VoteCanNotCancel));
    assert_eq!(c.action_cancel(&s("alice"), pid, at(mid)), Ok(200 * E18));
    assert_eq!(c.get_proposal(pid).unwrap().votes[1], VoteInfo { total_ballots: 0, participants: 0 });
    assert_eq!(c.get_proposal(pid).unwrap().participants, 0);
    assert_eq!(c.action_cancel(&s("carol"), pid, at(mid)), Err(VeError::AccountNotRegistered));
}

#[test]
fn create_proposal_checks() {
    let mut c = setup();
    let now = at(T0_SEC);
    assert_eq!(c.create_proposal(&s("alice"), poll(), s("Poll"), T0_SEC + DAY, 3 * DAY, now), Err(VeError::NotAllowed));
    assert_eq!(c.create_proposal(&s("bob"), poll(), "x".repeat(2049), T0_SEC + DAY, 3 * DAY, now), Err(VeError::DescriptionTooLong));
    assert_eq!(c.create_proposal(&s("bob"), poll(), s("Poll"), T0_SEC + DAY, 2 * DAY, now), Err(VeError::InvalidDuration));
    assert_eq!(c.create_proposal(&s("bob"), poll(), s("Poll"), T0_SEC + DAY, 31 * DAY, now), Err(VeError::InvalidDuration));
    assert_eq!(c.create_proposal(&s("bob"), poll(), s("Poll"), T0_SEC + DAY - 1, 3 * DAY, now), Err(VeError::InvalidStartTime));
    assert_eq!(c.create_proposal(&s("bob"), poll(), s("Poll"), T0_SEC - 1, 3 * DAY, now), Err(VeError::InvalidStartTime));
    assert_eq!(c.create_proposal(&s("bob"), poll(), "x".repeat(2048), T0_SEC + DAY, 3 * DAY, now), Ok(0));
    let farms = ProposalKind::FarmingReward { farm_list: vec![s("a"), s("b"), s("c")], total_reward: 3 };
    assert_eq!(c.create_proposal(&s("bob"), farms, s("Farms"), T0_SEC + DAY, 3 * DAY, now), Ok(1));
    assert_eq!(c.create_proposal(&s("bob"), ProposalKind::Common, s("Common"), T0_SEC + DAY, 3 * DAY, now), Ok(2));
    assert_eq!(c.get_proposal(0).unwrap().votes.len(), 2);
    assert_eq!(c.get_proposal(1).unwrap().votes.len(), 3);
    assert_eq!(c.get_proposal(2).unwrap().votes.len(), 3);
    let p = c.get_proposal(2).unwrap();
    assert_eq!(p.start_at, at(T0_SEC + DAY));
    assert_eq!(p.end_at, at(T0_SEC + 4 * DAY));
    assert_eq!(p.proposer, s("bob"));
    assert_eq!(c.get_proposal_status(2, at(T0_SEC)), Some(ProposalStatus::WarmUp));
    assert_eq!(c.get_proposal_status(2, at(T0_SEC + 4 * DAY)), Some(ProposalStatus::Expired));
    assert_eq!(c.proposal_count(), 3);
}

#[test]
fn remove_proposal_only_in_warm_up() {
    let mut c = setup();
    let now = at(T0_SEC);
    let pid = c.create_proposal(&s("bob"), poll(), s("Poll"), T0_SEC + DAY, 3 * DAY, now).unwrap();
    c.internal_deposit_reward(pid, 0, IncentiveType::Proportional, &s("nref.near"), 300, now).unwrap();
    c.internal_deposit_reward(pid, 0, IncentiveType::Proportional, &s("wnear.near"), 500, now).unwrap();
    c.internal_deposit_reward(pid, 0, IncentiveType::Proportional, &s("nref.near"), 200, now).unwrap();
    assert_eq!(c.remove_proposal(&s("alice"), pid, now), Err(VeError::NotAllowed));
    assert_eq!(c.remove_proposal(&s("bob"), 9, now), Err(VeError::ProposalNotExist));
    assert_eq!(c.remove_proposal(&s("bob"), pid, at(T0_SEC + DAY)), Ok(false));
    assert_eq!(c.remove_proposal(&s("bob"), pid, now), Ok(true));
    assert!(c.get_proposal(pid).is_none());
    let mut assets = c.list_removed_proposal_assets();
    assets.sort();
    assert_eq!(assets, vec![(s("nref.near"), 500), (s("wnear.near"), 500)]);
    // The owner hands them back.
    assert_eq!(c.return_removed_proposal_assets(&s("bob"), &s("nref.near"), 100), Err(VeError::NotAllowed));
    assert_eq!(c.return_removed_proposal_assets(&s("owner.near"), &s("nref.near"), 501), Err(VeError::InsufficientBalance));
    assert_eq!(c.return_removed_proposal_assets(&s("owner.near"), &s("nref.near"), 300), Ok(300));
    c.callback_removed_proposal_assets(&s("nref.near"), 300, false).unwrap();
    let mut assets = c.list_removed_proposal_assets();
    assets.sort();
    assert_eq!(assets, vec![(s("nref.near"), 500), (s("wnear.near"), 500)]);
}

#[test]
fn test_deposit_reward() {
    let mut c = setup();
    c.lock_lpt(&s("alice"), 100 * E24, 10 * DAY, at(T0_SEC)).unwrap();
    let farms = ProposalKind::FarmingReward {
        farm_list: vec![s("noct.near|nref.near&2657"), s("nusdt.near|nusdc.near|ndai.near&1910")],
        total_reward: 20000,
    };
    let now = at(T0_SEC);
    c.create_proposal(&s("bob"), farms, s("FarmingReward"), T0_SEC + DAY, 3 * DAY, now).unwrap();
    c.create_proposal(&s("bob"), ProposalKind::Common, s("Common"), T0_SEC + DAY, 3 * DAY, now).unwrap();
    c.create_proposal(&s("bob"), poll(), s("Poll"), T0_SEC + DAY, 3 * DAY, now).unwrap();
    let now = at(T0_SEC + DAY);
    c.action_proposal(&s("alice"), 2, Action::VotePoll { poll_id: 0 }, now).unwrap();
    assert_eq!(c.internal_deposit_reward(0, 5, IncentiveType::Proportional, &s("nref.near"), 100, now), Err(VeError::InvalidIncentiveKey));
    assert_eq!(c.internal_deposit_reward(1, 1, IncentiveType::Proportional, &s("nref.near"), 100, now), Err(VeError::ProposalNotSupportIncentive));
    assert_eq!(c.internal_deposit_reward(2, 1, IncentiveType::Proportional, &s("nref.near"), 100, now), Err(VeError::InvalidIncentiveKey));
    assert_eq!(c.internal_deposit_reward(0, 0, IncentiveType::Proportional, &s("nref.near"), 100, now), Ok((100, at(T0_SEC + DAY))));
    assert_eq!(c.internal_deposit_reward(0, 1, IncentiveType::Proportional, &s("nref.near"), 100, now), Ok((100, at(T0_SEC + DAY))));
    assert_eq!(c.internal_deposit_reward(2, 0, IncentiveType::Proportional, &s("nref.near"), 100, now), Ok((100, at(T0_SEC + DAY))));
    assert_eq!(c.internal_deposit_reward(2, 0, IncentiveType::Proportional, &s("nref.near"), 50, now), Ok((150, at(T0_SEC + DAY))));
    assert_eq!(c.get_proposal(2).unwrap().incentive[0].1.incentive_amounts[0], 150);
    assert_eq!(c.internal_deposit_reward(0, 0, IncentiveType::Proportional, &s("nusdc.near"), 100, now), Err(VeError::InvalidIncentiveToken));
    // A farm's own token is taken though not whitelisted.
    assert_eq!(c.internal_deposit_reward(0, 0, IncentiveType::Proportional, &s("noct.near"), 100, now), Ok((100, at(T0_SEC + DAY))));
    assert_eq!(c.internal_deposit_reward(0, 1, IncentiveType::Proportional, &s("ndai.near"), 7, now), Ok((7, at(T0_SEC + DAY))));
    assert_eq!(c.internal_deposit_reward(0, 1, IncentiveType::Evenly, &s("ndai.near"), 7, now), Err(VeError::InvalidIncentive));
    assert_eq!(c.internal_deposit_reward(2, 0, IncentiveType::Proportional, &s("nusdc.near"), 100, now), Err(VeError::InvalidIncentiveToken));
    let end = at(T0_SEC + 4 * DAY);
    assert_eq!(c.internal_deposit_reward(0, 0, IncentiveType::Proportional, &s("nref.near"), 100, end), Err(VeError::ExpiredProposal));
    assert_eq!(c.internal_deposit_reward(2, 0, IncentiveType::Proportional, &s("nref.near"), 100, end), Err(VeError::ExpiredProposal));
    assert_eq!(c.internal_deposit_reward(9, 0, IncentiveType::Proportional, &s("nref.near"), 100, now), Err(VeError::ProposalNotExist));
}

/// Alice and bob vote 3:1 on a poll that carries 1000 of a reward token.
fn voted_poll() -> (Contract, u32) {
    let mut c = setup();
    c.lock_lpt(&s("alice"), 150 * E24, 10 * DAY, at(T0_SEC)).unwrap();
    c.lock_lpt(&s("bob"), 50 * E24, 10 * DAY, at(T0_SEC)).unwrap();
    let pid = c.create_proposal(&s("bob"), poll(), s("Poll"), T0_SEC + DAY, 3 * DAY, at(T0_SEC)).unwrap();
    c.internal_deposit_reward(pid, 0, IncentiveType::Proportional, &s("nref.near"), 1000, at(T0_SEC)).unwrap();
    let mid = at(T0_SEC + 2 * DAY);
    c.action_proposal(&s("alice"), pid, Action::VotePoll { poll_id: 0 }, mid).unwrap();
    c.action_proposal(&s("bob"), pid, Action::VotePoll { poll_id: 1 }, mid).unwrap();
    (c, pid)
}

#[test]
fn claim_pays_the_proportional_share_once() {
    let (mut c, pid) = voted_poll();
    // Before expiry a claim does nothing.
    assert_eq!(c.claim_reward(&s("alice"), pid, at(T0_SEC + 2 * DAY)), Ok(()));
    assert!(c.get_account_info(&s("alice")).unwrap().rewards.is_empty());
    let end = at(T0_SEC + 4 * DAY);
    assert_eq!(c.get_unclaimed_rewards(&s("alice"), end), Some(vec![(s("nref.near"), 750)]));
    assert_eq!(c.get_unclaimed_proposal(&s("alice"), end).len(), 1);
    assert_eq!(c.claim_reward(&s("alice"), pid, end), Ok(()));
    assert_eq!(c.get_account_info(&s("alice")).unwrap().rewards, vec![(s("nref.near"), 750)]);
    assert_eq!(c.get_proposal(pid).unwrap().incentive[0].1.claimed_amounts[0], 750);
    let history = c.get_vote_detail_history(&s("alice"), end);
    assert_eq!(history.len(), 1);
    assert_eq!(history[0].0, pid);
    // A second claim is a no-op, not an error.
    assert_eq!(c.claim_reward(&s("alice"), pid, end + 5), Ok(()));
    assert_eq!(c.get_account_info(&s("alice")).unwrap().rewards, vec![(s("nref.near"), 750)]);
    assert_eq!(c.get_proposal(pid).unwrap().incentive[0].1.claimed_amounts[0], 750);
    assert!(c.get_unclaimed_rewards(&s("alice"), end).unwrap().is_empty());
    assert_eq!(c.claim_reward(&s("carol"), pid, end + 5), Err(VeError::AccountNotRegistered));
    assert_eq!(c.claim_reward(&s("alice"), 9, end + 5), Err(VeError::ProposalNotExist));
}

#[test]
fn evenly_shared_pool_pays_each_voter_the_same() {
    let mut c = setup();
    c.lock_lpt(&s("alice"), 150 * E24, 10 * DAY, at(T0_SEC)).unwrap();
    c.lock_lpt(&s("bob"), 50 * E24, 10 * DAY, at(T0_SEC)).unwrap();
    c.lock_lpt(&s("carol"), 10 * E24, 10 * DAY, at(T0_SEC)).unwrap();
    let pid = c.create_proposal(&s("bob"), poll(), s("Poll"), T0_SEC + DAY, 3 * DAY, at(T0_SEC)).unwrap();
    c.internal_deposit_reward(pid, 0, IncentiveType::Evenly, &s("nref.near"), 1000, at(T0_SEC)).unwrap();
    assert_eq!(
        c.internal_deposit_reward(pid, 0, IncentiveType::Proportional, &s("nref.near"), 1, at(T0_SEC)),
        Err(VeError::InvalidIncentive)
    );
    let mid = at(T0_SEC + 2 * DAY);
    c.action_proposal(&s("alice"), pid, Action::VotePoll { poll_id: 0 }, mid).unwrap();
    c.action_proposal(&s("bob"), pid, Action::VotePoll { poll_id: 1 }, mid).unwrap();
    c.action_proposal(&s("carol"), pid, Action::VotePoll { poll_id: 1 }, mid).unwrap();
    let end = at(T0_SEC + 4 * DAY);
    c.claim_reward(&s("alice"), pid, end).unwrap();
    c.claim_reward(&s("carol"), pid, end).unwrap();
    assert_eq!(c.get_account_info(&s("alice")).unwrap().rewards, vec![(s("nref.near"), 333)]);
    assert_eq!(c.get_account_info(&s("carol")).unwrap().rewards, vec![(s("nref.near"), 333)]);
    assert_eq!(c.get_unclaimed_rewards(&s("bob"), end), Some(vec![(s("nref.near"), 333)]));
}

#[test]
fn test_claim_and_withdraw_all() {
    let (mut c, _pid) = voted_poll();
    let end = at(T0_SEC + 4 * DAY);
    assert_eq!(c.claim_and_withdraw_all(&s("bob"), end), Ok(vec![(s("nref.near"), 250)]));
    assert!(c.get_account_info(&s("bob")).unwrap().rewards.is_empty());
    assert!(c.get_vote_detail(&s("bob"), end).is_empty());
    assert_eq!(c.get_vote_detail_history(&s("bob"), end).len(), 1);
    assert_eq!(c.claim_and_withdraw_all(&s("carol"), end), Err(VeError::AccountNotRegistered));
}

#[test]
fn test_withdraw_reward() {
    let (mut c, pid) = voted_poll();
    let end = at(T0_SEC + 4 * DAY);
    c.claim_reward(&s("alice"), pid, end).unwrap();
    assert_eq!(c.withdraw_reward(&s("alice"), &s("nref.near"), Some(751)), Err(VeError::InsufficientBalance));
    assert_eq!(c.withdraw_reward(&s("alice"), &s("wnear.near"), Some(1)), Err(VeError::InsufficientBalance));
    assert_eq!(c.withdraw_reward(&s("carol"), &s("nref.near"), None), Err(VeError::AccountNotRegistered));
    assert_eq!(c.withdraw_reward(&s("alice"), &s("nref.near"), Some(50)), Ok(50));
    assert_eq!(c.get_account_info(&s("alice")).unwrap().rewards, vec![(s("nref.near"), 700)]);
    assert_eq!(c.withdraw_reward(&s("alice"), &s("nref.near"), None), Ok(700));
    assert!(c.get_account_info(&s("alice")).unwrap().rewards.is_empty());
    assert_eq!(c.withdraw_reward(&s("alice"), &s("nref.near"), None), Ok(0));
}

#[test]
fn failed_reward_transfer_is_credited_back() {
    let (mut c, pid) = voted_poll();
    let end = at(T0_SEC + 4 * DAY);
    c.claim_reward(&s("alice"), pid, end).unwrap();
    let sent = c.withdraw_reward(&s("alice"), &s("nref.near"), None).unwrap();
    assert_eq!(sent, 750);
    // Success: nothing moves.
    c.callback_post_withdraw_reward(&s("nref.near"), &s("alice"), sent, true).unwrap();
    assert!(c.get_account_info(&s("alice")).unwrap().rewards.is_empty());
    // Failure: the attempted amount comes back.
    c.callback_post_withdraw_reward(&s("nref.near"), &s("alice"), sent, false).unwrap();
    assert_eq!(c.get_account_info(&s("alice")).unwrap().rewards, vec![(s("nref.near"), 750)]);
}

#[test]
fn failed_reward_transfer_to_a_closed_account_goes_to_lostfound() {
    let (mut c, _pid) = voted_poll();
    let end = at(T0_SEC + 4 * DAY);
    let sent = c.claim_and_withdraw_all(&s("bob"), end).unwrap();
    c.withdraw_lpt(&s("bob"), None, at(T0_SEC + 10 * DAY)).unwrap();
    assert_eq!(c.unregister_account(&s("bob")), Ok(Some(s("bob"))));
    c.callback_post_withdraw_reward(&sent[0].0, &s("bob"), sent[0].1, false).unwrap();
    assert_eq!(c.lostfound_rewards.to_vec(), vec![(s("nref.near"), 250)]);
}

#[test]
fn failed_lpt_transfer_goes_to_lostfound() {
    let mut c = setup();
    c.lock_lpt(&s("alice"), 100 * E24, DAY, at(T0_SEC)).unwrap();
    let (amount, _) = c.withdraw_lpt(&s("alice"), None, at(T0_SEC + DAY)).unwrap();
    c.callback_withdraw_lpt(&s("alice"), amount, true).unwrap();
    assert_eq!(c.lostfound, 0);
    c.callback_withdraw_lpt(&s("alice"), amount, false).unwrap();
    assert_eq!(c.lostfound, 100 * E24);
    assert_eq!(c.cur_lock_lpt + c.lostfound, 100 * E24);
}

#[test]
fn test_return_lpt_lostfound() {
    let mut c = setup();
    c.callback_withdraw_lpt(&s("alice"), 100, false).unwrap();
    assert_eq!(c.return_lpt_lostfound(&s("bob"), 100), Err(VeError::NotAllowed));
    assert_eq!(c.return_lpt_lostfound(&s("owner.near"), 101), Err(VeError::InsufficientBalance));
    assert_eq!(c.return_lpt_lostfound(&s("owner.near"), 100), Ok(100));
    assert_eq!(c.lostfound, 0);
    c.callback_withdraw_lpt_lostfound(100, false).unwrap();
    assert_eq!(c.lostfound, 100);
    c.callback_withdraw_lpt_lostfound(100, true).unwrap();
    assert_eq!(c.lostfound, 100);
}

#[test]
fn common_proposal_result_on_expiry() {
    let mut c = setup();
    c.lock_lpt(&s("alice"), 100 * E24, 10 * DAY, at(T0_SEC)).unwrap();
    c.lock_lpt(&s("bob"), 50 * E24, 10 * DAY, at(T0_SEC)).unwrap();
    let pid = c.create_proposal(&s("bob"), ProposalKind::Common, s("Common"), T0_SEC + DAY, 3 * DAY, at(T0_SEC)).unwrap();
    let mid = at(T0_SEC + 2 * DAY);
    c.action_proposal(&s("alice"), pid, Action::VoteNonsense, mid).unwrap();
    c.action_proposal(&s("bob"), pid, Action::VoteApprove, mid).unwrap();
    let end = at(T0_SEC + 4 * DAY);
    c.claim_reward(&s("alice"), pid, end).unwrap();
    let p = c.get_proposal(pid).unwrap();
    assert_eq!(p.status, Some(ProposalStatus::Expired));
    assert_eq!(p.is_nonsense, Some(true));
}

#[test]
fn test_action_proposal_farming_reward_04() {
    let mut c = setup();
    // Voting power 400, 100 and 200 (twice the locked amounts at full duration).
    c.lock_lpt(&s("alice"), 200 * E24, 10 * DAY, at(T0_SEC)).unwrap();
    c.lock_lpt(&s("bob"), 50 * E24, 10 * DAY, at(T0_SEC)).unwrap();
    c.lock_lpt(&s("carol"), 100 * E24, 10 * DAY, at(T0_SEC)).unwrap();
    let farms = ProposalKind::FarmingReward { farm_list: vec![s("f0"), s("f1"), s("f2")], total_reward: 3 };
    let pid = c.create_proposal(&s("bob"), farms, s("FarmingReward"), T0_SEC + DAY, 3 * DAY, at(T0_SEC)).unwrap();
    let mid = at(T0_SEC + 2 * DAY);
    c.action_proposal(&s("alice"), pid, Action::VoteFarm { farm_id: 0 }, mid).unwrap();
    c.action_proposal(&s("bob"), pid, Action::VoteFarm { farm_id: 1 }, mid).unwrap();
    c.action_proposal(&s("carol"), pid, Action::VoteFarm { farm_id: 2 }, mid).unwrap();
    let p = c.get_proposal(pid).unwrap();
    assert_eq!(p.votes, vec![
        VoteInfo { total_ballots: 400 * E18, participants: 1 },
        VoteInfo { total_ballots: 100 * E18, participants: 1 },
        VoteInfo { total_ballots: 200 * E18, participants: 1 },
    ]);
    assert_eq!(p.participants, 3);
    assert_eq!(p.ve_amount_at_last_action, 700 * E18);
    c.claim_reward(&s("carol"), pid, at(T0_SEC + 4 * DAY)).unwrap();
    let fr = c.get_proposal(pid).unwrap().farming_reward.clone().unwrap();
    assert_eq!(fr.price, 200 * E18);
    assert_eq!(fr.portion_list, vec![(s("f0"), 2u128), (s("f2"), 1)]);
}

#[test]
fn refresh_derives_status_and_result() {
    let mut c = setup();
    c.lock_lpt(&s("alice"), 100 * E24, 10 * DAY, at(T0_SEC)).unwrap();
    c.lock_lpt(&s("bob"), 150 * E24, 10 * DAY, at(T0_SEC)).unwrap();
    let pid = c.create_proposal(&s("bob"), ProposalKind::Common, s("Common"), T0_SEC + DAY, 3 * DAY, at(T0_SEC)).unwrap();
    assert_eq!(c.refresh_proposal(pid, at(T0_SEC)), Some(ProposalStatus::WarmUp));
    let mid = at(T0_SEC + 2 * DAY);
    c.action_proposal(&s("alice"), pid, Action::VoteNonsense, mid).unwrap();
    c.action_proposal(&s("bob"), pid, Action::VoteReject, mid).unwrap();
    assert_eq!(c.refresh_proposal(pid, mid), Some(ProposalStatus::InProgress));
    assert_eq!(c.get_proposal(pid).unwrap().is_nonsense, None);
    assert_eq!(c.refresh_proposal(pid, at(T0_SEC + 4 * DAY)), Some(ProposalStatus::Expired));
    // Reject (300) outweighs nonsense (200).
    assert_eq!(c.get_proposal(pid).unwrap().is_nonsense, Some(false));
    assert_eq!(c.refresh_proposal(9, mid), None);
}

/// Locks `amounts` (in whole tokens) at full duration for alice, bob and
/// charlie, opens a farming proposal over `farms` farms with
/// `total_reward` portions, and has the i-th of them vote for farm i.
fn farm_votes(amounts: &[u128], farms: usize, total_reward: u32) -> Contract {
    let mut c = setup();
    let voters = [s("alice"), s("bob"), s("charlie")];
    for (v, a) in voters.iter().zip(amounts) {
        c.lock_lpt(v, a * E24, 10 * DAY, at(T0_SEC)).unwrap();
    }
    let farm_list = vec![
        s("noct.near|nref.near&2657"),
        s("nusdt.near|nusdc.near|ndai.near&1910"),
        s("usn.near|nusdt.near&3020"),
    ];
    let kind = ProposalKind::FarmingReward { farm_list: farm_list[..farms].to_vec(), total_reward };
    let pid = c.create_proposal(&s("bob"), kind, s("FarmingReward"), T0_SEC + DAY, 3 * DAY, at(T0_SEC)).unwrap();
    for (i, v) in voters.iter().take(amounts.len()).enumerate() {
        c.action_proposal(v, pid, Action::VoteFarm { farm_id: i }, at(T0_SEC + DAY)).unwrap();
    }
    c
}

#[test]
fn test_action_proposal_farming_reward_01() {
    let c = farm_votes(&[100, 100], 2, 2);
    let p = c.get_proposal(0).unwrap();
    assert_eq!(p.votes, vec![
        VoteInfo { total_ballots: 200 * E18, participants: 1 },
        VoteInfo { total_ballots: 200 * E18, participants: 1 },
    ]);
    assert_eq!(p.participants, 2);
    assert_eq!(p.ve_amount_at_last_action, 400 * E18);
}

#[test]
fn test_action_proposal_farming_reward_02() {
    let c = farm_votes(&[200, 100], 2, 2);
    let p = c.get_proposal(0).unwrap();
    assert_eq!(p.votes, vec![
        VoteInfo { total_ballots: 400 * E18, participants: 1 },
        VoteInfo { total_ballots: 200 * E18, participants: 1 },
    ]);
    assert_eq!(p.participants, 2);
    assert_eq!(p.ve_amount_at_last_action, 600 * E18);
}

#[test]
fn test_action_proposal_farming_reward_03() {
    let c = farm_votes(&[200, 100, 100], 3, 3);
    let p = c.get_proposal(0).unwrap();
    assert_eq!(p.votes, vec![
        VoteInfo { total_ballots: 400 * E18, participants: 1 },
        VoteInfo { total_ballots: 200 * E18, participants: 1 },
        VoteInfo { total_ballots: 200 * E18, participants: 1 },
    ]);
    assert_eq!(p.participants, 3);
    assert_eq!(p.ve_amount_at_last_action, 800 * E18);
}

#[test]
fn test_action_proposal_farming_reward_05() {
    let mut c = farm_votes(&[200, 50, 100], 3, 10);
    let p = c.get_proposal(0).unwrap();
    assert_eq!(p.votes, vec![
        VoteInfo { total_ballots: 400 * E18, participants: 1 },
        VoteInfo { total_ballots: 100 * E18, participants: 1 },
        VoteInfo { total_ballots: 200 * E18, participants: 1 },
    ]);
    assert_eq!(p.participants, 3);
    assert_eq!(p.ve_amount_at_last_action, 700 * E18);
    // Ten portions: the largest price with at least ten is a third of 200;
    // it awards 6 + 3 + 1.
    c.refresh_proposal(0, at(T0_SEC + 4 * DAY));
    let fr = c.get_proposal(0).unwrap().farming_reward.clone().unwrap();
    assert_eq!(fr.price, 200 * E18 / 3);
    assert_eq!(fr.portion_list, vec![
        (s("noct.near|nref.near&2657"), 6u128),
        (s("usn.near|nusdt.near&3020"), 3),
        (s("nusdt.near|nusdc.near|ndai.near&1910"), 1),
    ]);
}

#[test]
fn test_modify_config() {
    let mut c = setup();
    assert_eq!(c.modify_min_start_vote_offset_sec(&s("bob"), 500), Err(VeError::NotAllowed));
    c.modify_min_start_vote_offset_sec(&s("owner.near"), 500).unwrap();
    assert_eq!(c.internal_config().min_proposal_start_vote_offset_sec, 500);
    assert_eq!(c.modify_locking_policy(&s("owner.near"), 1000, 3000, 10000), Err(VeError::InvalidRatio));
    c.modify_locking_policy(&s("owner.near"), 1000, 3000, 30000).unwrap();
    let config = c.internal_config();
    assert_eq!(config.min_locking_duration_sec, 1000);
    assert_eq!(config.max_locking_duration_sec, 3000);
    assert_eq!(config.max_locking_multiplier, 30000);
}

#[test]
fn test_set_owner() {
    let mut c = setup();
    assert_eq!(c.set_owner(&s("bob"), s("bob")), Err(VeError::NotAllowed));
    c.set_owner(&s("owner.near"), s("new.near")).unwrap();
    assert_eq!(c.owner_id, s("new.near"));
    assert_eq!(c.assert_owner(&s("owner.near")), Err(VeError::NotAllowed));
    assert_eq!(c.assert_owner(&s("new.near")), Ok(()));
}

#[test]
fn test_operators() {
    let mut c = setup();
    assert_eq!(c.extend_operators(&s("bob"), &vec![s("op.near")]), Err(VeError::NotAllowed));
    c.extend_operators(&s("owner.near"), &vec![s("op.near"), s("op2.near")]).unwrap();
    assert!(c.is_owner_or_operators(&s("op.near")));
    c.extend_whitelisted_accounts(&s("op.near"), &vec![s("carol")]).unwrap();
    assert!(c.whitelisted_accounts.contains_key(&s("carol")));
    c.remove_whitelisted_accounts(&s("op2.near"), &vec![s("carol")]).unwrap();
    assert!(!c.whitelisted_accounts.contains_key(&s("carol")));
    c.remove_operators(&s("owner.near"), &vec![s("op.near")]).unwrap();
    assert!(!c.is_owner_or_operators(&s("op.near")));
    assert!(c.is_owner_or_operators(&s("op2.near")));
    assert_eq!(c.remove_whitelisted_incentive_tokens(&s("op.near"), &vec![s("nref.near")]), Err(VeError::NotAllowed));
    c.remove_whitelisted_incentive_tokens(&s("owner.near"), &vec![s("nref.near")]).unwrap();
    assert!(!c.whitelisted_incentive_tokens.contains_key(&s("nref.near")));
}

#[test]
fn test_storage_impl() {
    let mut c = setup();
    assert_eq!(c.register_account(&s("carol"), &s("dave")), Ok(true));
    assert_eq!(c.register_account(&s("carol"), &s("dave")), Ok(false));
    assert_eq!(c.account_count, 2);
    assert_eq!(c.get_account_info(&s("carol")).unwrap().sponsor_id, s("dave"));
    c.lock_lpt(&s("carol"), 100 * E24, DAY, at(T0_SEC)).unwrap();
    assert_eq!(c.unregister_account(&s("carol")), Err(VeError::StillHasLpt));
    c.withdraw_lpt(&s("carol"), None, at(T0_SEC + DAY)).unwrap();
    assert_eq!(c.unregister_account(&s("carol")), Ok(Some(s("dave"))));
    assert_eq!(c.unregister_account(&s("carol")), Ok(None));
    assert_eq!(c.account_count, 1);
}

#[test]
fn refund_of_extra_precision() {
    let c = setup();
    assert_eq!(c.real_amount_and_refund(100 * E24 + 10), (100 * E24, 10));
    assert_eq!(c.real_amount_and_refund(999_999), (0, 999_999));
    let c18 = Contract::new(s("ve.near"), s("owner.near"), s("LOVE"), s("lpt.near"), s(":0"), 18);
    assert_eq!(c18.real_amount_and_refund(123), (123, 0));
}

#[test]
fn test_extra_incentive_tokens() {
    let mut a = ref_ve::farm::extra_incentive_tokens(&s("noct.near|nref.near&2657"));
    a.sort();
    assert_eq!(a, vec![s("noct.near"), s("nref.near")]);
    let mut b = ref_ve::farm::extra_incentive_tokens(&s("nusdt.near|nusdc.near|ndai.near&1910"));
    b.sort();
    assert_eq!(b, vec![s("ndai.near"), s("nusdc.near"), s("nusdt.near")]);
    assert!(ref_ve::farm::farm_has_token(&s("usn.near|nusdt.near&3020"), &s("nusdt.near")));
    assert!(!ref_ve::farm::farm_has_token(&s("usn.near|nusdt.near&3020"), &s("3020")));
}

#[test]
fn claim_share_above_the_bucket_total_follows_the_formula() {
    let mut c = setup();
    c.lock_lpt(&s("alice"), 100 * E24, 10 * DAY, at(T0_SEC)).unwrap();
    let pid = c.create_proposal(&s("bob"), poll(), s("Poll"), T0_SEC + DAY, 3 * DAY, at(T0_SEC)).unwrap();
    c.internal_deposit_reward(pid, 0, IncentiveType::Proportional, &s("nref.near"), 90, at(T0_SEC)).unwrap();
    c.action_proposal(&s("alice"), pid, Action::VotePoll { poll_id: 0 }, at(T0_SEC + 2 * DAY)).unwrap();
    c.claim_reward(&s("alice"), pid, at(T0_SEC + 4 * DAY)).unwrap();
    assert_eq!(c.get_account_info(&s("alice")).unwrap().rewards, vec![(s("nref.near"), 90)]);
    let inc = &c.get_proposal(pid).unwrap().incentive[0].1;
    let over = inc.calc_reward(3, 2).unwrap();
    assert_eq!(over, vec![(s("nref.near"), 135)]);
    assert_eq!(inc.calc_reward(3, 0).unwrap(), vec![(s("nref.near"), 0)]);
}

#[test]
fn test_withdraw_lpt() {
    let mut c = setup();
    c.lock_lpt(&s("alice"), 100 * E24, 10 * DAY, at(T0_SEC)).unwrap();
    assert_eq!(c.get_account_info(&s("alice")).unwrap().ve_lpt_amount, 200 * E18);
    let pid = c.create_proposal(&s("bob"), ProposalKind::Common, s("Common"), T0_SEC + DAY, 20 * DAY, at(T0_SEC)).unwrap();
    c.action_proposal(&s("alice"), pid, Action::VoteApprove, at(T0_SEC + DAY)).unwrap();
    let later = at(T0_SEC + 11 * DAY);
    assert_eq!(c.withdraw_lpt(&s("alice"), Some(50 * E24), later), Ok((50 * E24, 100 * E18)));
    let votes = c.get_vote_detail(&s("alice"), later);
    assert_eq!(votes.len(), 1);
    assert_eq!(votes[0].0, pid);
    assert_eq!(votes[0].1.action, Action::VoteApprove);
    assert_eq!(votes[0].1.amount, 100 * E18);
    let p = c.get_proposal(pid).unwrap();
    assert_eq!(p.votes, vec![
        VoteInfo { total_ballots: 100 * E18, participants: 1 },
        VoteInfo { total_ballots: 0, participants: 0 },
        VoteInfo { total_ballots: 0, participants: 0 },
    ]);
    assert_eq!(p.ve_amount_at_last_action, 100 * E18);
    assert_eq!(c.withdraw_lpt(&s("alice"), None, later), Ok((50 * E24, 100 * E18)));
    let p = c.get_proposal(pid).unwrap();
    assert!(p.votes.iter().all(|v| *v == VoteInfo { total_ballots: 0, participants: 0 }));
    assert_eq!(p.ve_amount_at_last_action, 0);
    assert!(c.get_vote_detail(&s("alice"), later).is_empty());
    assert!(c.get_vote_detail_history(&s("alice"), later).is_empty());
}

#[test]
fn account_lock_may_add_no_power() {
    let config = ref_ve::curve::Config::default_config();
    let mut a = ref_ve::account::Account::new(&s("alice"), &s("ve.near"));
    // Nothing locked yet: a lock of zero adds nothing but still sets the lock.
    assert_eq!(a.lock_lpt(0, 30 * DAY, &config, 24, at(T0_SEC)), Ok(0));
    assert_eq!(a.unlock_timestamp, at(T0_SEC + 30 * DAY));
    assert_eq!(a.duration_sec, 30 * DAY);
    a.lock_lpt(100 * E24, 30 * DAY, &config, 24, at(T0_SEC)).unwrap();
    let before = a.ve_lpt_amount;
    // A top-up below the voting token's precision adds no power.
    assert_eq!(a.lock_lpt(999_999, 30 * DAY, &config, 24, at(T0_SEC)), Ok(0));
    assert_eq!(a.ve_lpt_amount, before);
    assert_eq!(a.lpt_amount, 100 * E24 + 999_999);
}

#[test]
fn list_proposals_pages() {
    let mut c = setup();
    for _ in 0..4 {
        c.create_proposal(&s("bob"), poll(), s("Poll"), T0_SEC + DAY, 3 * DAY, at(T0_SEC)).unwrap();
    }
    c.remove_proposal(&s("bob"), 1, at(T0_SEC)).unwrap();
    assert_eq!(c.list_proposals(None, None), vec![0u32, 2, 3]);
    assert_eq!(c.list_proposals(Some(1), Some(2)), vec![2u32]);
    assert_eq!(c.list_proposals(Some(3), Some(10)), vec![3u32]);
    assert_eq!(c.list_proposals(Some(9), None), Vec::<u32>::new());
}

#[test]
fn error_messages() {
    assert_eq!(VeError::InvalidDuration.message(), "E302: invalid duration");
    assert_eq!(VeError::NotVotable.message(), "E205: not votable");
    assert_eq!(VeError::AccountNotRegistered.message(), "E100: account not registered");
}
