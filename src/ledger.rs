use vstd::prelude::*;
use crate::account::{Account, VoteDetail, lock_error_of, ve_after_lock_of, merged_rewards, rewards_fit};
use crate::incentive::{claim_overflows, token_index, token_share, deposit_problem, IncentiveType, bucket_voters, is_claim_list, pool_index, reward_key, votes_total};
use crate::curve::Config;
use crate::errors::VeError;
use crate::idmap::IdMap;
use crate::proposal::{Action, Proposal, ProposalKind, ProposalStatus, VoteInfo};
use crate::strmap::StrMap;
use crate::farm::{farm_has_token, farm_lists_token};
use crate::utils::{Balance, Timestamp, DESCRIPTION_LIMIT, NANOS_PER_SEC, nano_to_sec, to_nano};

verus! {

/// Voting power held by an account.
pub open spec fn ve_of(a: Account) -> int {
    a.ve_lpt_amount as int
}

/// Tokens locked by an account.
pub open spec fn lpt_of(a: Account) -> int {
    a.lpt_amount as int
}

/// The amount a withdrawal request takes out: all that is locked where
/// none is named.
pub open spec fn withdraw_amount(a: Account, amount: Option<u128>) -> u128 {
    match amount {
        Some(x) => x,
        None => a.lpt_amount,
    }
}

/// An error that a call which passed its checks can meet only where the
/// ledger's records disagree (a vote on a missing proposal or bucket, or a
/// sum out of range); the host then abandons the call.
pub open spec fn inconsistency(e: VeError) -> bool {
    e == VeError::ProposalNotExist || e == VeError::InvalidVote || e == VeError::Overflow
}

/// Length in bytes of the UTF-8 encoding of `s`, as `str::len` gives it.
pub open spec fn utf8_len(s: Seq<char>) -> int {
    vstd::utf8::encode_utf8(s).len() as usize as int
}

/// Reward balance of `token` held by account `a`.
pub open spec fn reward_of(a: Account, token: Seq<char>) -> int {
    crate::account::amount_or_zero(a.rewards@, token)
}

/// All of `token` that the ledger owes: the accounts' reward balances plus
/// what sits in the lost-and-found of rewards.
pub open spec fn reward_holdings(c: Contract, token: Seq<char>) -> int {
    c.accounts.sum(|a: Account| reward_of(a, token)) + crate::account::amount_or_zero(c.lostfound_rewards@, token)
}

/// Weight that account `a` has on bucket `b` of proposal `pid`.
pub open spec fn vote_weight(a: Account, pid: u32, b: int) -> int {
    if a.proposals@.contains_key(pid) && a.proposals@[pid].action.index() == b {
        a.proposals@[pid].amount as int
    } else {
        0
    }
}

/// Total weight of the open votes on bucket `b` of proposal `pid`.
pub open spec fn bucket_votes(accounts: StrMap<Account>, pid: u32, b: int) -> int {
    accounts.sum(|a: Account| vote_weight(a, pid, b))
}

/// Sum of all accounts' voting power.
pub open spec fn total_ve(accounts: StrMap<Account>) -> int {
    accounts.sum(|a: Account| ve_of(a))
}

/// Sum of all accounts' locked tokens.
pub open spec fn total_lpt(accounts: StrMap<Account>) -> int {
    accounts.sum(|a: Account| lpt_of(a))
}

/// The whole ledger: configuration, accounts, proposals and the pools of
/// funds that no account owns.
pub struct Contract {
    /// The ledger's own account, sponsor of accounts opened by a lock.
    pub account_id: String,
    pub owner_id: String,
    pub operators: StrMap<()>,
    pub whitelisted_accounts: StrMap<()>,
    pub whitelisted_incentive_tokens: StrMap<()>,
    pub config: Config,
    /// Symbol of the voting-power token.
    pub symbol: String,
    /// Where the locked token comes from.
    pub lptoken_contract_id: String,
    /// Which token of that contract is locked.
    pub lptoken_id: String,
    pub lptoken_decimals: u8,
    /// Proposals by id; a removed proposal leaves None.
    pub proposals: Vec<Option<Proposal>>,
    pub accounts: StrMap<Account>,
    pub account_count: u64,
    /// Sum of all accounts' voting power.
    pub cur_total_ve_lpt: Balance,
    /// Sum of all accounts' locked tokens.
    pub cur_lock_lpt: Balance,
    /// Locked tokens whose return transfer failed.
    pub lostfound: Balance,
    /// Incentives of removed proposals, by token.
    pub removed_proposal_assets: StrMap<u128>,
    /// Rewards whose return transfer failed after their account was closed,
    /// by token.
    pub lostfound_rewards: StrMap<u128>,
    /// The latest time a call that changed the ledger was made at.
    pub clock: Timestamp,
}

/// What settling or re-weighting the open vote `vd` on proposal `pid` leaves
/// behind, where the voter's power changed by `diff` (up where `inc`) at
/// `now`: a vote on an expired proposal moves to the history and leaves the
/// weights alone; any other vote and its bucket move by `diff` together, and
/// a vote brought to zero is dropped along with its voter count, and the
/// proposal records `cur_total` as the voting power at its last change.
/// The pools of `np` are those of `op` after settling vote `vd`: the pool
/// the vote draws on records the shares paid as claimed, and nothing else
/// changes.
pub open spec fn settled_pools(op: Proposal, np: Proposal, vd: VoteDetail) -> bool {
    let key = reward_key(op.kind, vd.action);
    let total = votes_total(op.kind, op.votes@, key);
    let voters = bucket_voters(op.kind, op.votes@, op.participants, key);
    match pool_index(op.incentive@, key) {
        None => np.incentive@ == op.incentive@,
        Some(i) => exists|rewards: Seq<(String, u128)>| {
            &&& #[trigger] is_claim_list(op.incentive@[i].1, vd.amount as int, total, voters, rewards)
            &&& np.incentive@.len() == op.incentive@.len()
            &&& np.incentive@[i].0 == key
            &&& crate::incentive::claimed_after(op.incentive@[i].1, rewards, np.incentive@[i].1)
            &&& forall|k: int| 0 <= k < op.incentive@.len() && k != i ==> #[trigger] np.incentive@[k] == op.incentive@[k]
        },
    }
}

pub open spec fn impacted(
    old_p: Option<Proposal>,
    new_p: Option<Proposal>,
    pid: u32,
    vd: VoteDetail,
    votes: Map<u32, VoteDetail>,
    history: Map<u32, VoteDetail>,
    diff: int,
    inc: bool,
    now: Timestamp,
    cur_total: u128,
) -> bool {
    match (old_p, new_p) {
        (Some(op), Some(np)) => {
            let b = vd.action.index();
            let ob = op.votes@[b];
            &&& np.wf()
            &&& np.id == op.id
            &&& np.kind == op.kind
            &&& np.start_at == op.start_at
            &&& np.end_at == op.end_at
            &&& np.status == Some(op.status_at(now))
            &&& if op.status_at(now) == ProposalStatus::Expired {
                &&& !votes.contains_key(pid)
                &&& history.contains_key(pid) && history[pid] == vd
                &&& np.votes@ == op.votes@
                &&& np.participants == op.participants
                &&& settled_pools(op, np, vd)
            } else if diff == 0 {
                &&& votes.contains_key(pid) && votes[pid] == vd
                &&& np.votes@ == op.votes@
                &&& np.participants == op.participants
                &&& np.incentive@ == op.incentive@
            } else if inc {
                &&& 0 <= b < op.votes@.len()
                &&& ob.total_ballots + diff <= u128::MAX
                &&& votes.contains_key(pid) && votes[pid] == (VoteDetail { action: vd.action, amount: (vd.amount + diff) as u128 })
                &&& np.votes@ == op.votes@.update(b, VoteInfo { total_ballots: (ob.total_ballots + diff) as u128, participants: ob.participants })
                &&& np.participants == op.participants
                &&& np.incentive@ == op.incentive@
                &&& np.ve_amount_at_last_action == cur_total
            } else if vd.amount == diff {
                &&& 0 <= b < op.votes@.len()
                &&& ob.total_ballots >= diff
                &&& !votes.contains_key(pid)
                &&& ob.participants >= 1
                &&& op.participants >= 1
                &&& np.votes@ == op.votes@.update(b, VoteInfo { total_ballots: (ob.total_ballots - diff) as u128, participants: (ob.participants - 1) as u64 })
                &&& np.participants == op.participants - 1
                &&& np.incentive@ == op.incentive@
                &&& np.ve_amount_at_last_action == cur_total
            } else {
                &&& 0 <= b < op.votes@.len()
                &&& ob.total_ballots >= diff
                &&& votes.contains_key(pid) && votes[pid] == (VoteDetail { action: vd.action, amount: (vd.amount - diff) as u128 })
                &&& np.votes@ == op.votes@.update(b, VoteInfo { total_ballots: (ob.total_ballots - diff) as u128, participants: ob.participants })
                &&& np.participants == op.participants
                &&& np.incentive@ == op.incentive@
                &&& np.ve_amount_at_last_action == cur_total
            }
        },
        _ => false,
    }
}

/// The token balances listed in `s` (a later entry of a token replaces an
/// earlier one).
pub open spec fn list_map(s: Seq<(String, u128)>) -> Map<Seq<char>, u128>
    decreases s.len(),
{
    if s.len() == 0 {
        Map::empty()
    } else {
        list_map(s.drop_last()).insert(s.last().0@, s.last().1)
    }
}

/// Two lists that both give a vote's claim on a pool give the same balances.
proof fn lemma_claim_lists_agree(inc: crate::incentive::ProposalIncentive, votes: int, total: int, voters: int,
    a: Seq<(String, u128)>, b: Seq<(String, u128)>)
    requires
        is_claim_list(inc, votes, total, voters, a),
        is_claim_list(inc, votes, total, voters, b),
    ensures
        list_map(a) == list_map(b),
{
    assert(a.len() == b.len());
    assert forall|k: int| 0 <= k < a.len() implies a[k].0@ == b[k].0@ && a[k].1 == b[k].1 by {
        match inc.incentive_type {
            IncentiveType::Evenly => {
                assert(a[k].0@ == inc.incentive_token_ids@[k]@);
                assert(b[k].0@ == inc.incentive_token_ids@[k]@);
            },
            IncentiveType::Proportional => {
                assert(a[k].0@ == inc.incentive_token_ids@[k]@);
                assert(b[k].0@ == inc.incentive_token_ids@[k]@);
            },
        }
    }
    lemma_list_map_same(a, b);
}

proof fn lemma_list_map_same(a: Seq<(String, u128)>, b: Seq<(String, u128)>)
    requires
        a.len() == b.len(),
        forall|k: int| 0 <= k < a.len() ==> a[k].0@ == b[k].0@ && a[k].1 == b[k].1,
    ensures
        list_map(a) == list_map(b),
    decreases a.len(),
{
    if a.len() > 0 {
        lemma_list_map_same(a.drop_last(), b.drop_last());
        assert(a.last().0@ == b.last().0@);
    }
}

pub(crate) proof fn lemma_list_map_contains(s: Seq<(String, u128)>, t: Seq<char>)
    ensures
        list_map(s).contains_key(t) <==> exists|k: int| 0 <= k < s.len() && s[k].0@ == t,
    decreases s.len(),
{
    if s.len() > 0 {
        lemma_list_map_contains(s.drop_last(), t);
        if list_map(s.drop_last()).contains_key(t) {
            let k = choose|k: int| 0 <= k < s.drop_last().len() && s.drop_last()[k].0@ == t;
            assert(s[k].0@ == t);
        }
        if exists|k: int| 0 <= k < s.len() && s[k].0@ == t {
            let k = choose|k: int| 0 <= k < s.len() && s[k].0@ == t;
            if k < s.len() - 1 {
                assert(s.drop_last()[k].0@ == t);
            }
        }
    }
}

pub(crate) proof fn lemma_list_map_value(s: Seq<(String, u128)>, k: int)
    requires
        0 <= k < s.len(),
        forall|a: int, b: int| 0 <= a < s.len() && 0 <= b < s.len() && a != b ==> s[a].0@ != s[b].0@,
    ensures
        list_map(s).contains_key(s[k].0@),
        list_map(s)[s[k].0@] == s[k].1,
    decreases s.len(),
{
    if k < s.len() - 1 {
        lemma_list_map_value(s.drop_last(), k);
    }
}

/// What a claim list pays of token `t`: the token's share, or nothing for a
/// token the pool does not hold.
pub(crate) proof fn lemma_claim_list_amount(inc: crate::incentive::ProposalIncentive, votes: int, total: int, voters: int,
    list: Seq<(String, u128)>, t: Seq<char>)
    requires
        inc.wf(),
        is_claim_list(inc, votes, total, voters, list),
    ensures
        crate::account::amount_or_zero(list_map(list), t) == match token_index(inc, t) {
            Some(j) => token_share(inc, j, votes, total, voters),
            None => 0,
        },
{
    assert(list.len() == inc.incentive_token_ids@.len());
    assert forall|k: int| 0 <= k < list.len() implies list[k].0@ == inc.incentive_token_ids@[k]@
        && list[k].1 == token_share(inc, k, votes, total, voters) by {
        match inc.incentive_type {
            IncentiveType::Evenly => {},
            IncentiveType::Proportional => {},
        }
    }
    lemma_list_map_contains(list, t);
    match token_index(inc, t) {
        Some(j) => {
            lemma_list_map_value(list, j);
        },
        None => {
            if list_map(list).contains_key(t) {
                let k = choose|k: int| 0 <= k < list.len() && list[k].0@ == t;
                assert(inc.incentive_token_ids@[k]@ == t);
            }
        },
    }
}

/// What claiming vote `vd` on proposal `pid` of `c` pays of token `t`
/// where that proposal has expired at `now`; nothing otherwise.
pub open spec fn claim_credit(props: Seq<Option<Proposal>>, pid: u32, vd: VoteDetail, t: Seq<char>, now: Timestamp) -> int {
    match (if pid < props.len() { props[pid as int] } else { None }) {
        None => 0,
        Some(p) => if p.status_at(now) != ProposalStatus::Expired {
            0
        } else {
            let key = reward_key(p.kind, vd.action);
            match pool_index(p.incentive@, key) {
                None => 0,
                Some(i) => match token_index(p.incentive@[i].1, t) {
                    Some(j) => token_share(p.incentive@[i].1, j, vd.amount as int,
                        votes_total(p.kind, p.votes@, key), bucket_voters(p.kind, p.votes@, p.participants, key)),
                    None => 0,
                },
            }
        },
    }
}

/// What settling the first `n` open votes of `votes` pays of token `t`.
pub open spec fn expired_credit(c: Seq<Option<Proposal>>, votes: IdMap<VoteDetail>, n: int, t: Seq<char>, now: Timestamp) -> int
    decreases n,
{
    if n <= 0 {
        0
    } else {
        expired_credit(c, votes, n - 1, t, now) + claim_credit(c, votes.key_at(n - 1), votes.value_at(n - 1), t, now)
    }
}

pub(crate) proof fn lemma_claim_credit_nonneg(c: Seq<Option<Proposal>>, pid: u32, vd: VoteDetail, t: Seq<char>, now: Timestamp)
    ensures
        claim_credit(c, pid, vd, t, now) >= 0,
{
    match (if pid < c.len() { c[pid as int] } else { None }) {
        None => {},
        Some(p) => {
            let key = reward_key(p.kind, vd.action);
            match pool_index(p.incentive@, key) {
                None => {},
                Some(i) => match token_index(p.incentive@[i].1, t) {
                    Some(j) => {
                        let inc = p.incentive@[i].1;
                        let total = votes_total(p.kind, p.votes@, key);
                        let voters = bucket_voters(p.kind, p.votes@, p.participants, key);
                        let pool = inc.incentive_amounts@[j] as int;
                        crate::incentive::lemma_sum_ballots_nonneg(p.votes@);
                        assert(total >= 0);
                        if voters > 0 {
                            vstd::arithmetic::div_mod::lemma_div_pos_is_pos(pool, voters);
                        }
                        if total > 0 {
                            vstd::arithmetic::mul::lemma_mul_inequality(0, pool, vd.amount as int);
                            vstd::arithmetic::div_mod::lemma_div_pos_is_pos(pool * vd.amount, total);
                        }
                    },
                    None => {},
                },
            }
        },
    }
}

pub(crate) proof fn lemma_expired_credit_mono(c: Seq<Option<Proposal>>, votes: IdMap<VoteDetail>, m: int, n: int, t: Seq<char>, now: Timestamp)
    requires
        0 <= m <= n,
    ensures
        0 <= expired_credit(c, votes, m, t, now) <= expired_credit(c, votes, n, t, now),
    decreases n,
{
    if n > m {
        lemma_expired_credit_mono(c, votes, m, n - 1, t, now);
        lemma_claim_credit_nonneg(c, votes.key_at(n - 1), votes.value_at(n - 1), t, now);
    } else if m > 0 {
        lemma_expired_credit_mono(c, votes, m - 1, m - 1, t, now);
        lemma_claim_credit_nonneg(c, votes.key_at(m - 1), votes.value_at(m - 1), t, now);
    }
}

/// The rewards of `list`, as a map from token to amount.
fn rewards_to_map(list: &Vec<(String, u128)>) -> (r: StrMap<u128>)
    ensures
        r.wf(),
        r@ == list_map(list@),
{
    let mut m: StrMap<u128> = StrMap::new();
    let mut j: usize = 0;
    while j < list.len()
        invariant
            j <= list@.len(),
            m.wf(),
            m@ == list_map(list@.subrange(0, j as int)),
        decreases list@.len() - j,
    {
        m.insert(list[j].0.clone(), list[j].1);
        proof {
            assert(list@.subrange(0, j as int + 1).drop_last() =~= list@.subrange(0, j as int));
        }
        j = j + 1;
    }
    proof {
        assert(list@.subrange(0, j as int) =~= list@);
    }
    m
}

/// Amount of token `t` among the first `n` entries of a pool.
pub open spec fn token_total(ids: Seq<String>, amounts: Seq<u128>, t: Seq<char>, n: int) -> int
    decreases n,
{
    if n <= 0 {
        0
    } else {
        token_total(ids, amounts, t, n - 1) + if ids[n - 1]@ == t { amounts[n - 1] as int } else { 0 }
    }
}

/// Amount of token `t` in the first `n` pools.
pub open spec fn pools_total(s: Seq<(u32, crate::incentive::ProposalIncentive)>, t: Seq<char>, n: int) -> int
    decreases n,
{
    if n <= 0 {
        0
    } else {
        pools_total(s, t, n - 1) + token_total(s[n - 1].1.incentive_token_ids@, s[n - 1].1.incentive_amounts@, t,
            s[n - 1].1.incentive_token_ids@.len() as int)
    }
}

/// Adds `amount` of `token` to a holding pool.
fn add_to_pool(pool: &mut StrMap<u128>, token: &String, amount: u128) -> (r: Result<(), VeError>)
    requires
        old(pool).wf(),
    ensures
        final(pool).wf(),
        r is Ok <==> crate::account::amount_or_zero(old(pool)@, token@) + amount <= u128::MAX,
        r is Ok ==> forall|t: Seq<char>| #[trigger] crate::account::amount_or_zero(final(pool)@, t)
            == crate::account::amount_or_zero(old(pool)@, t) + if t == token@ { amount as int } else { 0 },
        r is Ok ==> final(pool)@ == old(pool)@.insert(token@, (crate::account::amount_or_zero(old(pool)@, token@) + amount) as u128),
        r is Err ==> final(pool)@ == old(pool)@,
{
    let cur: u128 = match pool.get(token) {
        Some(c) => *c,
        None => 0,
    };
    if cur > u128::MAX - amount {
        return Err(VeError::Overflow);
    }
    pool.insert(token.clone(), cur + amount);
    Ok(())
}

proof fn lemma_token_total_mono(ids: Seq<String>, amounts: Seq<u128>, t: Seq<char>, m: int, n: int)
    requires
        0 <= m <= n,
    ensures
        0 <= token_total(ids, amounts, t, m) <= token_total(ids, amounts, t, n),
    decreases n,
{
    if n > m {
        lemma_token_total_mono(ids, amounts, t, m, n - 1);
    } else if m > 0 {
        lemma_token_total_mono(ids, amounts, t, m - 1, m - 1);
    }
}

proof fn lemma_pools_total_mono(s: Seq<(u32, crate::incentive::ProposalIncentive)>, t: Seq<char>, m: int, n: int)
    requires
        0 <= m <= n,
    ensures
        0 <= pools_total(s, t, m) <= pools_total(s, t, n),
    decreases n,
{
    if n > m {
        lemma_pools_total_mono(s, t, m, n - 1);
        lemma_token_total_mono(s[n - 1].1.incentive_token_ids@, s[n - 1].1.incentive_amounts@, t, 0,
            s[n - 1].1.incentive_token_ids@.len() as int);
    } else if m > 0 {
        lemma_pools_total_mono(s, t, m - 1, m - 1);
        lemma_token_total_mono(s[m - 1].1.incentive_token_ids@, s[m - 1].1.incentive_amounts@, t, 0,
            s[m - 1].1.incentive_token_ids@.len() as int);
    }
}

/// Each token's total over the pools `pools`; None where one exceeds
/// u128::MAX.
fn pools_sum(pools: &Vec<(u32, crate::incentive::ProposalIncentive)>) -> (r: Option<StrMap<u128>>)
    requires
        forall|i: int| 0 <= i < pools@.len() ==> (#[trigger] pools@[i]).1.wf(),
    ensures
        match r {
            Some(m) => m.wf() && forall|t: Seq<char>| #[trigger] crate::account::amount_or_zero(m@, t)
                == pools_total(pools@, t, pools@.len() as int),
            None => exists|t: Seq<char>| #[trigger] pools_total(pools@, t, pools@.len() as int) > u128::MAX,
        },
{
    let mut m: StrMap<u128> = StrMap::new();
    let mut i: usize = 0;
    while i < pools.len()
        invariant
            i <= pools@.len(),
            m.wf(),
            forall|q: int| 0 <= q < pools@.len() ==> (#[trigger] pools@[q]).1.wf(),
            forall|t: Seq<char>| #[trigger] crate::account::amount_or_zero(m@, t) == pools_total(pools@, t, i as int),
        decreases pools@.len() - i,
    {
        let item = &pools[i].1;
        assert(item.wf());
        let ghost mid = m@;
        let mut j: usize = 0;
        while j < item.incentive_token_ids.len()
            invariant
                j <= item.incentive_token_ids@.len(),
                item.wf(),
                m.wf(),
                i < pools@.len(),
                *item == pools@[i as int].1,
                forall|t: Seq<char>| #[trigger] crate::account::amount_or_zero(m@, t)
                    == crate::account::amount_or_zero(mid, t)
                    + token_total(item.incentive_token_ids@, item.incentive_amounts@, t, j as int),
                forall|t: Seq<char>| #[trigger] crate::account::amount_or_zero(mid, t) == pools_total(pools@, t, i as int),
            decreases item.incentive_token_ids@.len() - j,
        {
            match add_to_pool(&mut m, &item.incentive_token_ids[j], item.incentive_amounts[j]) {
                Ok(()) => {},
                Err(_) => {
                    proof {
                        let t = item.incentive_token_ids@[j as int]@;
                        lemma_token_total_mono(item.incentive_token_ids@, item.incentive_amounts@, t, j as int + 1,
                            item.incentive_token_ids@.len() as int);
                        lemma_pools_total_mono(pools@, t, i as int + 1, pools@.len() as int);
                        assert(pools_total(pools@, t, i as int + 1) == pools_total(pools@, t, i as int)
                            + token_total(item.incentive_token_ids@, item.incentive_amounts@, t, item.incentive_token_ids@.len() as int));
                        assert(pools_total(pools@, t, pools@.len() as int) > u128::MAX);
                    }
                    return None;
                },
            }
            j = j + 1;
        }
        i = i + 1;
    }
    Some(m)
}

/// Adds each reward of `list` (one entry per token) to the balance of its
/// token in `rewards`; an error where some balance would exceed u128::MAX.
pub(crate) fn accumulate_rewards(rewards: &mut StrMap<u128>, list: &Vec<(String, u128)>) -> (r: Result<(), VeError>)
    requires
        old(rewards).wf(),
        forall|a: int, b: int| 0 <= a < list@.len() && 0 <= b < list@.len() && a != b ==> list@[a].0@ != list@[b].0@,
    ensures
        final(rewards).wf(),
        r is Ok ==> forall|t: Seq<char>| #[trigger] crate::account::amount_or_zero(final(rewards)@, t)
            == crate::account::amount_or_zero(old(rewards)@, t) + crate::account::amount_or_zero(list_map(list@), t),
        r is Err ==> r == Err::<(), VeError>(VeError::Overflow) && exists|t: Seq<char>|
            crate::account::amount_or_zero(old(rewards)@, t) + #[trigger] crate::account::amount_or_zero(list_map(list@), t) > u128::MAX,
{
    let mut j: usize = 0;
    while j < list.len()
        invariant
            rewards.wf(),
            j <= list@.len(),
            forall|a: int, b: int| 0 <= a < list@.len() && 0 <= b < list@.len() && a != b ==> list@[a].0@ != list@[b].0@,
            forall|t: Seq<char>| #[trigger] crate::account::amount_or_zero(rewards@, t)
                == crate::account::amount_or_zero(old(rewards)@, t) + crate::account::amount_or_zero(list_map(list@.subrange(0, j as int)), t),
        decreases list@.len() - j,
    {
        let (token, amount) = &list[j];
        let ghost sub = list@.subrange(0, j as int);
        proof {
            lemma_list_map_contains(sub, token@);
            if list_map(sub).contains_key(token@) {
                let k = choose|k: int| 0 <= k < sub.len() && sub[k].0@ == token@;
                assert(list@[k].0@ == list@[j as int].0@);
            }
            assert(list@.subrange(0, j as int + 1).drop_last() =~= sub);
        }
        let ghost before = rewards@;
        let cur: u128 = match rewards.get(token) {
            Some(c) => *c,
            None => 0,
        };
        assert(cur == crate::account::amount_or_zero(rewards@, token@));
        assert(crate::account::amount_or_zero(rewards@, token@)
            == crate::account::amount_or_zero(old(rewards)@, token@) + crate::account::amount_or_zero(list_map(sub), token@));
        let total = match cur.checked_add(*amount) {
            Some(t) => t,
            None => {
                proof {
                    lemma_list_map_value(list@, j as int);
                    assert(crate::account::amount_or_zero(list_map(sub), token@) == 0);
                    assert(crate::account::amount_or_zero(old(rewards)@, token@)
                        + crate::account::amount_or_zero(list_map(list@), token@) > u128::MAX);
                }
                return Err(VeError::Overflow);
            },
        };
        rewards.insert(token.clone(), total);
        proof {
            let nxt = list@.subrange(0, j as int + 1);
            assert forall|t: Seq<char>| #[trigger] crate::account::amount_or_zero(rewards@, t)
                == crate::account::amount_or_zero(old(rewards)@, t) + crate::account::amount_or_zero(list_map(nxt), t) by {
                assert(list_map(nxt) == list_map(sub).insert(token@, *amount));
                if t != token@ {
                    assert(crate::account::amount_or_zero(before, t)
                        == crate::account::amount_or_zero(old(rewards)@, t) + crate::account::amount_or_zero(list_map(sub), t));
                }
            }
        }
        j = j + 1;
    }
    proof {
        assert(list@.subrange(0, j as int) =~= list@);
    }
    Ok(())
}

/// Why the open vote `vd` on proposal `p` cannot follow a change `diff` of
/// its voter's power (up where `inc`) at `now`, if it cannot: on an expired
/// proposal its claim would overflow; otherwise the proposal does not take
/// the vote, or the bucket, the vote or a voter count would leave its range.
pub open spec fn vote_blocked(p: Proposal, vd: VoteDetail, diff: int, inc: bool, now: Timestamp) -> bool {
    if p.status_at(now) == ProposalStatus::Expired {
        let key = reward_key(p.kind, vd.action);
        match pool_index(p.incentive@, key) {
            None => false,
            Some(i) => claim_overflows(p.incentive@[i].1, vd.amount as int, votes_total(p.kind, p.votes@, key),
                bucket_voters(p.kind, p.votes@, p.participants, key)),
        }
    } else if diff == 0 {
        false
    } else if !p.kind.accepts(vd.action) {
        true
    } else {
        let b = p.votes@[vd.action.index()];
        if inc {
            b.total_ballots + diff > u128::MAX || vd.amount + diff > u128::MAX
        } else {
            b.total_ballots < diff || vd.amount < diff || (vd.amount == diff && (b.participants == 0 || p.participants == 0))
        }
    }
}

impl Contract {
    /// Why the open votes of `account` cannot follow a change `diff` of its
    /// power at `now`, if they cannot: a vote on a missing proposal, a vote
    /// that cannot follow, or a reward balance that the settled votes would
    /// raise beyond u128::MAX.
    pub open spec fn propagation_blocked(&self, account: Account, diff: int, inc: bool, now: Timestamp) -> bool {
        ||| exists|pid: u32| #[trigger] account.proposals@.contains_key(pid) && (self.proposal(pid) is None
            || vote_blocked(self.proposal(pid)->Some_0, account.proposals@[pid], diff, inc, now))
        ||| exists|t: Seq<char>| crate::account::amount_or_zero(account.rewards@, t)
            + #[trigger] expired_credit(self.proposals@, account.proposals, account.proposals.len_spec() as int, t, now) > u128::MAX
    }

    /// All but the proposals agree.
    pub open spec fn frame_eq(&self, other: &Contract) -> bool {
        &&& self.account_id == other.account_id
        &&& self.owner_id == other.owner_id
        &&& self.operators == other.operators
        &&& self.whitelisted_accounts == other.whitelisted_accounts
        &&& self.whitelisted_incentive_tokens == other.whitelisted_incentive_tokens
        &&& self.config == other.config
        &&& self.symbol == other.symbol
        &&& self.lptoken_contract_id == other.lptoken_contract_id
        &&& self.lptoken_id == other.lptoken_id
        &&& self.lptoken_decimals == other.lptoken_decimals
        &&& self.accounts == other.accounts
        &&& self.account_count == other.account_count
        &&& self.cur_total_ve_lpt == other.cur_total_ve_lpt
        &&& self.cur_lock_lpt == other.cur_lock_lpt
        &&& self.lostfound == other.lostfound
        &&& self.removed_proposal_assets == other.removed_proposal_assets
        &&& self.lostfound_rewards == other.lostfound_rewards
        &&& self.clock == other.clock
    }

    /// All but the proposals and the pool of removed assets agree.
    pub open spec fn frame_eq_but_removed(&self, other: &Contract) -> bool {
        &&& self.account_id == other.account_id
        &&& self.owner_id == other.owner_id
        &&& self.operators == other.operators
        &&& self.whitelisted_accounts == other.whitelisted_accounts
        &&& self.whitelisted_incentive_tokens == other.whitelisted_incentive_tokens
        &&& self.config == other.config
        &&& self.lptoken_decimals == other.lptoken_decimals
        &&& self.accounts == other.accounts
        &&& self.account_count == other.account_count
        &&& self.cur_total_ve_lpt == other.cur_total_ve_lpt
        &&& self.cur_lock_lpt == other.cur_lock_lpt
        &&& self.lostfound == other.lostfound
        &&& self.lostfound_rewards == other.lostfound_rewards
        &&& self.clock == other.clock
    }

    /// Every open vote is on an existing proposal whose voting had begun by
    /// the ledger's clock.
    pub open spec fn votes_started(&self) -> bool {
        forall|k: Seq<char>, pid: u32| #[trigger] self.accounts@.contains_key(k)
            && #[trigger] self.accounts@[k].proposals@.contains_key(pid) ==>
            self.proposal(pid) is Some && self.proposal(pid)->Some_0.start_at <= self.clock
    }

    /// Each bucket of a proposal that had not ended by the ledger's clock
    /// weighs exactly the open votes cast on it.
    pub open spec fn weights_match(&self) -> bool {
        forall|pid: u32, b: int| #![trigger bucket_votes(self.accounts, pid, b)]
            self.proposal(pid) is Some && self.clock < self.proposal(pid)->Some_0.end_at
            && 0 <= b < self.proposal(pid)->Some_0.votes@.len() ==>
            self.proposal(pid)->Some_0.votes@[b].total_ballots == bucket_votes(self.accounts, pid, b)
    }

    /// Every proposal is well formed and sits in the slot of its id.
    pub open spec fn props_wf(&self) -> bool {
        &&& self.proposals@.len() <= u32::MAX
        &&& forall|i: int| 0 <= i < self.proposals@.len() && #[trigger] self.proposals@[i] is Some ==>
            self.proposals@[i]->Some_0.wf() && self.proposals@[i]->Some_0.id == i
    }

    pub open spec fn wf(&self) -> bool {
        &&& self.operators.wf()
        &&& self.whitelisted_accounts.wf()
        &&& self.whitelisted_incentive_tokens.wf()
        &&& self.accounts.wf()
        &&& self.removed_proposal_assets.wf()
        &&& self.lostfound_rewards.wf()
        &&& self.config.valid()
        &&& self.props_wf()
        &&& forall|k: Seq<char>| #[trigger] self.accounts@.contains_key(k) ==> self.accounts@[k].wf()
        &&& self.cur_total_ve_lpt == total_ve(self.accounts)
        &&& self.cur_lock_lpt == total_lpt(self.accounts)
        &&& forall|k: Seq<char>, pid: u32| #[trigger] self.accounts@.contains_key(k)
            && #[trigger] self.accounts@[k].proposals@.contains_key(pid) ==>
            self.accounts@[k].proposals@[pid].amount == self.accounts@[k].ve_lpt_amount
        &&& self.votes_started()
        &&& self.weights_match()
    }

    /// The proposal of id `id`, if it exists.
    pub open spec fn proposal(&self, id: u32) -> Option<Proposal> {
        if id < self.proposals@.len() { self.proposals@[id as int] } else { None }
    }

    pub fn new(
        account_id: String,
        owner_id: String,
        symbol: String,
        lptoken_contract_id: String,
        lptoken_id: String,
        lptoken_decimals: u8,
    ) -> (r: Contract)
        ensures
            r.wf(),
            r.owner_id == owner_id,
            r.account_id == account_id,
            r.symbol == symbol,
            r.lptoken_contract_id == lptoken_contract_id,
            r.lptoken_id == lptoken_id,
            r.lptoken_decimals == lptoken_decimals,
            r.operators@ == Map::<Seq<char>, ()>::empty(),
            r.whitelisted_accounts@ == Map::<Seq<char>, ()>::empty(),
            r.whitelisted_incentive_tokens@ == Map::<Seq<char>, ()>::empty(),
            r.removed_proposal_assets@ == Map::<Seq<char>, u128>::empty(),
            r.lostfound_rewards@ == Map::<Seq<char>, u128>::empty(),
            r.account_count == 0,
            r.clock == 0,
            r.config == Config::default_config_spec(),
            r.accounts@ == Map::<Seq<char>, Account>::empty(),
            r.proposals@.len() == 0,
            r.cur_total_ve_lpt == 0,
            r.cur_lock_lpt == 0,
            r.lostfound == 0,
    {
        Contract {
            account_id,
            owner_id,
            operators: StrMap::new(),
            whitelisted_accounts: StrMap::new(),
            whitelisted_incentive_tokens: StrMap::new(),
            config: Config::default_config(),
            symbol,
            lptoken_contract_id,
            lptoken_id,
            lptoken_decimals,
            proposals: Vec::new(),
            accounts: StrMap::new(),
            account_count: 0,
            cur_total_ve_lpt: 0,
            cur_lock_lpt: 0,
            lostfound: 0,
            removed_proposal_assets: StrMap::new(),
            lostfound_rewards: StrMap::new(),
            clock: 0,
        }
    }

    pub fn internal_config(&self) -> (r: Config)
        ensures
            r == self.config,
    {
        self.config
    }

    pub fn internal_get_account(&self, account_id: &String) -> (r: Option<&Account>)
        requires
            self.wf(),
        ensures
            match r {
                Some(a) => self.accounts@.contains_key(account_id@) && self.accounts@[account_id@] == *a,
                None => !self.accounts@.contains_key(account_id@),
            },
    {
        self.accounts.get(account_id)
    }
    /// Takes proposal `id` out of the registry, leaving its slot empty.
    pub(crate) fn take_proposal(&mut self, id: u32) -> (r: Option<Proposal>)
        ensures
            r == old(self).proposal(id),
            final(self).proposals@ == if id < old(self).proposals@.len() {
                old(self).proposals@.update(id as int, None)
            } else {
                old(self).proposals@
            },
            final(self).frame_eq(old(self)),
    {
        if (id as usize) < self.proposals.len() {
            let slot = self.proposals.remove(id as usize);
            self.proposals.insert(id as usize, None);
            proof {
                assert(self.proposals@ =~= old(self).proposals@.update(id as int, None));
            }
            slot
        } else {
            None
        }
    }

    /// Puts `p` back into slot `id`.
    pub(crate) fn put_proposal(&mut self, id: u32, p: Proposal)
        requires
            id < old(self).proposals@.len(),
        ensures
            final(self).proposals@ == old(self).proposals@.update(id as int, Some(p)),
            final(self).frame_eq(old(self)),
    {
        self.proposals.set(id as usize, Some(p));
    }
    /// Settles each open vote of `account` on an expired proposal (crediting
    /// its reward and moving it to the history) and moves every other open
    /// vote, with its bucket, by the change `diff` of the account's voting
    /// power. `account` is out of the registry meanwhile. An error is met
    /// only where the registry is inconsistent; the call is then abandoned.
    pub fn update_impacted_proposals(&mut self, account: &mut Account, diff: Balance, is_increased: bool, now: Timestamp) -> (r: Result<(), VeError>)
        requires
            old(self).props_wf(),
            old(account).wf(),
        ensures
            final(self).frame_eq(old(self)),
            final(self).lptoken_decimals == old(self).lptoken_decimals,
            final(self).proposals@.len() == old(self).proposals@.len(),
            final(account).same_lock(old(account)),
            r is Err ==> inconsistency(r->Err_0) && old(self).propagation_blocked(*old(account), diff as int, is_increased, now),
            r is Ok ==> {
                &&& final(self).props_wf()
                &&& final(account).wf()
                &&& forall|t: Seq<char>| #[trigger] crate::account::amount_or_zero(final(account).rewards@, t)
                    == crate::account::amount_or_zero(old(account).rewards@, t)
                    + expired_credit(old(self).proposals@, old(account).proposals, old(account).proposals.len_spec() as int, t, now)
                &&& forall|pid: u32| #[trigger] old(account).proposals@.contains_key(pid) ==> impacted(
                    old(self).proposal(pid),
                    final(self).proposal(pid),
                    pid,
                    old(account).proposals@[pid],
                    final(account).proposals@,
                    final(account).proposals_history@,
                    diff as int,
                    is_increased,
                    now, final(self).cur_total_ve_lpt,
                )
                &&& forall|pid: u32| !old(account).proposals@.contains_key(pid) ==>
                    #[trigger] final(self).proposal(pid) == old(self).proposal(pid)
                &&& forall|pid: u32| #[trigger] final(account).proposals@.contains_key(pid) ==>
                    old(account).proposals@.contains_key(pid)
                &&& forall|pid: u32| #[trigger] old(account).proposals_history@.contains_key(pid) ==>
                    final(account).proposals_history@.contains_key(pid)
                &&& forall|k: Seq<char>| #[trigger] old(account).rewards@.contains_key(k) ==>
                    final(account).rewards@.contains_key(k) && final(account).rewards@[k] >= old(account).rewards@[k]
            },
    {
        let mut open: IdMap<VoteDetail> = IdMap::new();
        std::mem::swap(&mut account.proposals, &mut open);
        assert(open == old(account).proposals);
        let ghost old_votes = open@;
        assert(old_votes == old(account).proposals@);
        let mut rewards: StrMap<u128> = StrMap::new();
        let mut history: IdMap<VoteDetail> = IdMap::new();
        proof {
            open.lemma_prefix_ends();
        }
        let n = open.len();
        let mut i: usize = 0;
        while i < n
            invariant
                n == open.len_spec(),
                i <= n,
                open.wf(),
                open == old(account).proposals,
                forall|t: Seq<char>| #[trigger] crate::account::amount_or_zero(rewards@, t)
                    == expired_credit(old(self).proposals@, open, i as int, t, now),
                open@ == old_votes,
                old_votes == old(account).proposals@,
                account.proposals.wf(),
                history.wf(),
                rewards.wf(),
                account.wf(),
                account.same_lock(old(account)),
                account.rewards@ == old(account).rewards@,
                account.proposals_history@ == old(account).proposals_history@,
                self.frame_eq(old(self)),
                self.proposals@.len() == old(self).proposals@.len(),
                old(self).props_wf(),
                forall|j: int| 0 <= j < self.proposals@.len() && #[trigger] self.proposals@[j] is Some ==>
                    self.proposals@[j]->Some_0.wf() && self.proposals@[j]->Some_0.id == j,
                forall|pid: u32| #[trigger] open.prefix_view(i as int).contains_key(pid) ==> impacted(
                    old(self).proposal(pid),
                    self.proposal(pid),
                    pid,
                    old_votes[pid],
                    account.proposals@,
                    history@,
                    diff as int,
                    is_increased,
                    now, self.cur_total_ve_lpt,
                ),
                forall|pid: u32| !open.prefix_view(i as int).contains_key(pid) ==>
                    #[trigger] self.proposal(pid) == old(self).proposal(pid),
                forall|pid: u32| #[trigger] account.proposals@.contains_key(pid) ==> open.prefix_view(i as int).contains_key(pid),
                forall|pid: u32| #[trigger] history@.contains_key(pid) ==> open.prefix_view(i as int).contains_key(pid),
            decreases n - i,
        {
            let (pid, vd_ref) = open.entry_at(i);
            let vd = *vd_ref;
            proof {
                open.lemma_prefix(i as int);
            }
            let ghost before_votes = account.proposals@;
            let ghost before_history = history@;
            let ghost before_props = self.proposals@;
            assert(self.proposal(pid) == old(self).proposal(pid));
            let ghost ovd = old(account).proposals@;
            assert(old(account).proposals@.contains_key(pid) && ovd[pid] == vd);
            assert(pid == open.key_at(i as int) && vd == open.value_at(i as int));
            let mut proposal = match self.take_proposal(pid) {
                Some(p) => p,
                None => {
                    proof {
                        assert(old(self).propagation_blocked(*old(account), diff as int, is_increased, now));
                    }
                    return Err(VeError::ProposalNotExist);
                },
            };
            let ghost blocked_here = vote_blocked(proposal, vd, diff as int, is_increased, now);
            assert(old(self).proposal(pid) == Some(proposal));
            proof {
                if blocked_here {
                    assert(old(self).propagation_blocked(*old(account), diff as int, is_increased, now));
                }
            }
            let ghost op = proposal;
            assert(pid < self.proposals@.len());
            proposal.update_status(now);
            let expired = match proposal.status {
                Some(ProposalStatus::Expired) => true,
                _ => false,
            };
            let ghost local = rewards@;
            if expired {
                let ghost pre = proposal;
                let ghost key = reward_key(op.kind, vd.action);
                let ghost tot = votes_total(op.kind, op.votes@, key);
                let ghost vs = bucket_voters(op.kind, op.votes@, op.participants, key);
                match proposal.claim_reward(&vd) {
                    Ok(Some(reward_details)) => {
                        let ghost pi = pool_index(op.incentive@, key)->Some_0;
                        let ghost inc = op.incentive@[pi].1;
                        proof {
                            assert(op.wf());
                            assert(inc.wf());
                            assert forall|x: int, y: int| 0 <= x < reward_details@.len() && 0 <= y < reward_details@.len() && x != y
                                implies reward_details@[x].0@ != reward_details@[y].0@ by {
                                match inc.incentive_type {
                                    IncentiveType::Evenly => {},
                                    IncentiveType::Proportional => {},
                                }
                            }
                            assert forall|t: Seq<char>| #[trigger] crate::account::amount_or_zero(list_map(reward_details@), t)
                                == claim_credit(old(self).proposals@, pid, vd, t, now) by {
                                lemma_claim_list_amount(inc, vd.amount as int, tot, vs, reward_details@, t);
                            }
                        }
                        match accumulate_rewards(&mut rewards, &reward_details) {
                            Ok(()) => {},
                            Err(e) => {
                                proof {
                                    let t = choose|t: Seq<char>| crate::account::amount_or_zero(local, t)
                                        + #[trigger] crate::account::amount_or_zero(list_map(reward_details@), t) > u128::MAX;
                                    assert(crate::account::amount_or_zero(list_map(reward_details@), t) == claim_credit(old(self).proposals@, pid, vd, t, now));
                                    assert(crate::account::amount_or_zero(local, t) == expired_credit(old(self).proposals@, open, i as int, t, now));
                                    lemma_expired_credit_mono(old(self).proposals@, open, i as int + 1, n as int, t, now);
                                    assert(crate::account::amount_or_zero(old(account).rewards@, t)
                                        + expired_credit(old(self).proposals@, old(account).proposals, old(account).proposals.len_spec() as int, t, now) > u128::MAX);
                                    assert(old(self).propagation_blocked(*old(account), diff as int, is_increased, now));
                                }
                                return Err(e);
                            },
                        }
                        proof {
                            assert forall|t: Seq<char>| #[trigger] crate::account::amount_or_zero(rewards@, t)
                                == expired_credit(old(self).proposals@, open, i as int + 1, t, now) by {
                                assert(crate::account::amount_or_zero(local, t) == expired_credit(old(self).proposals@, open, i as int, t, now));
                                assert(crate::account::amount_or_zero(list_map(reward_details@), t) == claim_credit(old(self).proposals@, pid, vd, t, now));
                            }
                        }
                    },
                    Ok(None) => {
                        proof {
                            assert forall|t: Seq<char>| #[trigger] crate::account::amount_or_zero(rewards@, t)
                                == expired_credit(old(self).proposals@, open, i as int + 1, t, now) by {
                                assert(crate::account::amount_or_zero(local, t) == expired_credit(old(self).proposals@, open, i as int, t, now));
                                assert(claim_credit(old(self).proposals@, pid, vd, t, now) == 0);
                            }
                        }
                    },
                    Err(e) => {
                        proof {
                            assert(blocked_here);
                        }
                        return Err(e);
                    },
                }
                self.put_proposal(pid, proposal);
                history.insert(pid, vd);
            } else {
                proof {
                    assert forall|t: Seq<char>| #[trigger] crate::account::amount_or_zero(rewards@, t)
                        == expired_credit(old(self).proposals@, open, i as int + 1, t, now) by {
                        assert(crate::account::amount_or_zero(local, t) == expired_credit(old(self).proposals@, open, i as int, t, now));
                        assert(claim_credit(old(self).proposals@, pid, vd, t, now) == 0);
                    }
                }
                if diff > 0 {
                    match proposal.update_votes(&vd.action, diff, is_increased) {
                        Ok(()) => {},
                        Err(e) => {
                            proof {
                                assert(blocked_here);
                            }
                            return Err(e);
                        },
                    }
                    if is_increased {
                        let amount = match vd.amount.checked_add(diff) {
                            Some(a) => a,
                            None => {
                                proof {
                                    assert(blocked_here);
                                }
                                return Err(VeError::Overflow);
                            },
                        };
                        account.proposals.insert(pid, VoteDetail { action: vd.action, amount });
                    } else if vd.amount == diff {
                        let ghost mid = proposal.votes@;
                        match proposal.update_participants(&vd.action, false) {
                            Ok(()) => {},
                            Err(e) => {
                                proof {
                                    assert(blocked_here);
                                }
                                return Err(e);
                            },
                        }
                        proof {
                            let bi = vd.action.index();
                            let ob = op.votes@[bi];
                            assert(proposal.votes@ =~= op.votes@.update(bi, VoteInfo {
                                total_ballots: (ob.total_ballots - diff) as u128,
                                participants: (ob.participants - 1) as u64,
                            }));
                        }
                    } else {
                        let amount = match vd.amount.checked_sub(diff) {
                            Some(a) => a,
                            None => {
                                proof {
                                    assert(blocked_here);
                                }
                                return Err(VeError::Overflow);
                            },
                        };
                        account.proposals.insert(pid, VoteDetail { action: vd.action, amount });
                    }
                    proposal.ve_amount_at_last_action = self.cur_total_ve_lpt;
                } else {
                    account.proposals.insert(pid, vd);
                }
                self.put_proposal(pid, proposal);
            }
            proof {
                assert(old_votes[pid] == vd);
                assert(self.proposal(pid) == Some(proposal));
                assert(impacted(old(self).proposal(pid), self.proposal(pid), pid, old_votes[pid],
                    account.proposals@, history@, diff as int, is_increased, now, self.cur_total_ve_lpt));
                assert forall|q: u32| #[trigger] open.prefix_view(i as int + 1).contains_key(q) implies impacted(
                    old(self).proposal(q),
                    self.proposal(q),
                    q,
                    old_votes[q],
                    account.proposals@,
                    history@,
                    diff as int,
                    is_increased,
                    now, self.cur_total_ve_lpt,
                ) by {
                    if q != pid {
                        assert(open.prefix_view(i as int).contains_key(q));
                        assert(self.proposal(q) == before_props[q as int]);
                        assert(account.proposals@.contains_key(q) == before_votes.contains_key(q));
                        if before_votes.contains_key(q) {
                            assert(account.proposals@[q] == before_votes[q]);
                        }
                        assert(history@.contains_key(q) == before_history.contains_key(q));
                        if before_history.contains_key(q) {
                            assert(history@[q] == before_history[q]);
                        }
                    }
                }
                assert forall|q: u32| !open.prefix_view(i as int + 1).contains_key(q) implies
                    #[trigger] self.proposal(q) == old(self).proposal(q) by {
                    assert(!open.prefix_view(i as int).contains_key(q));
                    if q < self.proposals@.len() {
                        assert(self.proposals@[q as int] == before_props[q as int]);
                    }
                }
                assert forall|j: int| 0 <= j < self.proposals@.len() && #[trigger] self.proposals@[j] is Some implies
                    self.proposals@[j]->Some_0.wf() && self.proposals@[j]->Some_0.id == j by {
                    if j != pid {
                        assert(self.proposals@[j] == before_props[j]);
                    } else {
                        assert(op.id == pid) by {
                            assert(old(self).proposals@[pid as int] == Some(op));
                        }
                    }
                }
            }
            i = i + 1;
        }
        proof {
            open.lemma_prefix_ends();
        }
        proof {
            assert forall|t: Seq<char>| #[trigger] crate::account::amount_or_zero(rewards@, t)
                == expired_credit(old(self).proposals@, old(account).proposals, old(account).proposals.len_spec() as int, t, now) by {
            }
        }
        let ghost acct_before = account.rewards@;
        match account.add_rewards(&rewards) {
            Ok(()) => {},
            Err(e) => {
                proof {
                    let t = choose|t: Seq<char>| rewards@.contains_key(t)
                        && !(crate::account::amount_or_zero(acct_before, t) + rewards@[t] <= u128::MAX);
                    assert(crate::account::amount_or_zero(rewards@, t) == rewards@[t]);
                    assert(crate::account::amount_or_zero(old(account).rewards@, t)
                        + expired_credit(old(self).proposals@, old(account).proposals, old(account).proposals.len_spec() as int, t, now) > u128::MAX);
                }
                return Err(e);
            },
        }
        proof {
            assert forall|t: Seq<char>| #[trigger] crate::account::amount_or_zero(account.rewards@, t)
                == crate::account::amount_or_zero(old(account).rewards@, t)
                + expired_credit(old(self).proposals@, old(account).proposals, old(account).proposals.len_spec() as int, t, now) by {
                assert(crate::account::amount_or_zero(rewards@, t)
                    == expired_credit(old(self).proposals@, old(account).proposals, old(account).proposals.len_spec() as int, t, now));
                if rewards@.contains_key(t) {
                    assert(crate::account::amount_or_zero(acct_before, t) + rewards@[t] <= u128::MAX);
                }
            }
        }
        account.add_history(&history);
        proof {
            assert forall|k: Seq<char>| #[trigger] old(account).rewards@.contains_key(k) implies
                account.rewards@.contains_key(k) && account.rewards@[k] >= old(account).rewards@[k] by {
            }
        }
        Ok(())
    }
    /// Locked tokens, voting power and unlock time of `k` before a call
    /// (zero for an account not yet opened).
    pub open spec fn prior_lpt(&self, k: Seq<char>) -> int {
        if self.accounts@.contains_key(k) { self.accounts@[k].lpt_amount as int } else { 0 }
    }

    pub open spec fn prior_ve(&self, k: Seq<char>) -> int {
        if self.accounts@.contains_key(k) { self.accounts@[k].ve_lpt_amount as int } else { 0 }
    }

    pub open spec fn prior_unlock(&self, k: Seq<char>) -> int {
        if self.accounts@.contains_key(k) { self.accounts@[k].unlock_timestamp as int } else { 0 }
    }

    /// Why locking `amount` for `duration_sec` at `now` into account `k` is
    /// refused, if it is: a duration outside the policy's bounds, what the
    /// account's own lock rules refuse, or a lock that adds no voting power.
    pub open spec fn lock_refusal(&self, k: Seq<char>, amount: int, duration_sec: int, now: Timestamp) -> Option<VeError> {
        if duration_sec < self.config.min_locking_duration_sec || duration_sec > self.config.max_locking_duration_sec {
            Some(VeError::InvalidDuration)
        } else {
            match lock_error_of(self.prior_lpt(k), self.prior_ve(k), self.prior_unlock(k), amount, duration_sec,
                self.config, self.lptoken_decimals as int, now) {
                Some(e) => Some(e),
                None => if ve_after_lock_of(self.prior_lpt(k), self.prior_ve(k), self.prior_unlock(k), amount, duration_sec,
                    self.config, self.lptoken_decimals as int, now) == self.prior_ve(k) {
                    Some(VeError::InsufficientBalance)
                } else {
                    None
                },
            }
        }
    }

    /// What a successful lock or withdrawal leaves in account `k` and in the
    /// proposals it voted on, where its voting power moved by `diff` (up
    /// where `inc`).
    pub open spec fn relocked(&self, old: &Contract, k: Seq<char>, diff: int, inc: bool, now: Timestamp) -> bool {
        &&& self.accounts@.contains_key(k)
        &&& self.accounts@.dom() == old.accounts@.dom().insert(k)
        &&& forall|k2: Seq<char>| k2 != k && #[trigger] old.accounts@.contains_key(k2) ==> self.accounts@[k2] == old.accounts@[k2]
        &&& self.proposals@.len() == old.proposals@.len()
        &&& old.accounts@.contains_key(k) ==> {
            let oa = old.accounts@[k];
            let na = self.accounts@[k];
            &&& forall|pid: u32| #[trigger] oa.proposals@.contains_key(pid) ==> impacted(
                old.proposal(pid), self.proposal(pid), pid, oa.proposals@[pid],
                na.proposals@, na.proposals_history@, diff, inc, now, self.cur_total_ve_lpt)
            &&& forall|pid: u32| !oa.proposals@.contains_key(pid) ==> #[trigger] self.proposal(pid) == old.proposal(pid)
            &&& forall|pid: u32| #[trigger] na.proposals@.contains_key(pid) ==> oa.proposals@.contains_key(pid)
        }
        &&& !old.accounts@.contains_key(k) ==> self.proposals@ == old.proposals@
            && self.accounts@[k].proposals@ == Map::<u32, VoteDetail>::empty()
    }

    /// The counters can take a lock of `amount` into account `k` that passed
    /// the account's own rules: total voting power, total locked tokens and
    /// the number of accounts stay within range.
    pub open spec fn lock_totals_fit(&self, k: Seq<char>, amount: int, duration_sec: int, now: Timestamp) -> bool {
        let v = ve_after_lock_of(self.prior_lpt(k), self.prior_ve(k), self.prior_unlock(k),
            amount, duration_sec, self.config, self.lptoken_decimals as int, now);
        &&& self.cur_total_ve_lpt + (v - self.prior_ve(k)) <= u128::MAX
        &&& self.cur_lock_lpt + amount <= u128::MAX
        &&& self.accounts@.contains_key(k) || self.account_count < u64::MAX
    }

    /// Voting power a lock into account `k` mints.
    pub open spec fn lock_minted(&self, k: Seq<char>, amount: int, duration_sec: int, now: Timestamp) -> int {
        ve_after_lock_of(self.prior_lpt(k), self.prior_ve(k), self.prior_unlock(k),
            amount, duration_sec, self.config, self.lptoken_decimals as int, now) - self.prior_ve(k)
    }

    /// The effect of a successful lock of `amount` for `duration_sec` seconds
    /// into account `k` at `now`, which minted `minted` voting power.
    pub open spec fn lock_outcome(&self, old: &Contract, k: Seq<char>, amount: int, duration_sec: int, now: Timestamp, minted: int) -> bool {
        let v = ve_after_lock_of(old.prior_lpt(k), old.prior_ve(k), old.prior_unlock(k),
            amount, duration_sec, old.config, old.lptoken_decimals as int, now);
        let na = self.accounts@[k];
        &&& self.wf()
        &&& minted == v - old.prior_ve(k)
        &&& minted > 0
        &&& self.relocked(old, k, minted, true, now)
        &&& na.ve_lpt_amount == v
        &&& na.lpt_amount == old.prior_lpt(k) + amount
        &&& na.unlock_timestamp == now + duration_sec * crate::utils::NANOS_PER_SEC
        &&& na.duration_sec == duration_sec
        &&& self.cur_total_ve_lpt == old.cur_total_ve_lpt + minted
        &&& self.cur_lock_lpt == old.cur_lock_lpt + amount
        &&& self.lostfound == old.lostfound
        &&& !old.accounts@.contains_key(k) ==> na.sponsor_id@ == old.account_id@
            && self.account_count == old.account_count + 1
    }

    /// Locks `amount` for `account_id` for `duration_sec` seconds from `now`,
    /// opening the account where needed (sponsored by the ledger itself),
    /// and returns the voting power minted. The account's open votes follow
    /// its power; those on expired proposals are settled.
    pub fn lock_lpt(&mut self, account_id: &String, amount: Balance, duration_sec: u32, now: Timestamp) -> (r: Result<Balance, VeError>)
        requires
            old(self).wf(),
            now >= old(self).clock,
        ensures
            match old(self).lock_refusal(account_id@, amount as int, duration_sec as int, now) {
                Some(e) => {
                    &&& r == Err::<Balance, VeError>(e)
                    &&& *final(self) == *old(self)
                    &&& final(self).wf()
                    &&& final(self).accounts@ == old(self).accounts@
                    &&& final(self).proposals@ == old(self).proposals@
                    &&& final(self).cur_total_ve_lpt == old(self).cur_total_ve_lpt
                    &&& final(self).cur_lock_lpt == old(self).cur_lock_lpt
                },
                None => if !old(self).lock_totals_fit(account_id@, amount as int, duration_sec as int, now) {
                    r == Err::<Balance, VeError>(VeError::Overflow) && *final(self) == *old(self)
                } else {
                    &&& r is Ok ==> final(self).lock_outcome(old(self), account_id@, amount as int, duration_sec as int, now, r->Ok_0 as int)
                    &&& r is Err ==> inconsistency(r->Err_0) && old(self).accounts@.contains_key(account_id@)
                        && old(self).propagation_blocked(old(self).accounts@[account_id@],
                            old(self).lock_minted(account_id@, amount as int, duration_sec as int, now), true, now)
                },
            },
    {
        let config = self.config;
        if duration_sec < config.min_locking_duration_sec || duration_sec > config.max_locking_duration_sec {
            return Err(VeError::InvalidDuration);
        }
        let existed = self.accounts.contains_key(account_id);
        let preview = match self.accounts.get(account_id) {
            Some(a) => {
                assert(a.wf());
                a.lock_preview(amount, duration_sec, &config, self.lptoken_decimals, now)
            },
            None => Account::new(account_id, &self.account_id).lock_preview(amount, duration_sec, &config, self.lptoken_decimals, now),
        };
        let new_ve = match preview {
            Ok(v) => v,
            Err(e) => return Err(e),
        };
        let prev_ve: u128 = match self.accounts.get(account_id) {
            Some(a) => a.ve_lpt_amount,
            None => 0,
        };
        if new_ve == prev_ve {
            return Err(VeError::InsufficientBalance);
        }
        let increased = new_ve - prev_ve;
        let new_total = match self.cur_total_ve_lpt.checked_add(increased) {
            Some(t) => t,
            None => return Err(VeError::Overflow),
        };
        let new_lock = match self.cur_lock_lpt.checked_add(amount) {
            Some(t) => t,
            None => return Err(VeError::Overflow),
        };
        let new_count = if existed {
            self.account_count
        } else {
            match self.account_count.checked_add(1) {
                Some(c) => c,
                None => return Err(VeError::Overflow),
            }
        };
        let ghost old_total = total_ve(self.accounts);
        assert(old_total == old(self).cur_total_ve_lpt);
        let mut account = match self.accounts.remove(account_id) {
            Some(a) => a,
            None => Account::new(account_id, &self.account_id),
        };
        let ghost taken = self.accounts;
        let ghost first = account;
        assert(existed ==> account == old(self).accounts@[account_id@]);
        assert(account.wf()) by {
            if existed {
                assert(old(self).accounts@.contains_key(account_id@));
            }
        }
        let minted = match account.lock_lpt(amount, duration_sec, &config, self.lptoken_decimals, now) {
            Ok(d) => d,
            Err(e) => return Err(e),
        };
        assert(minted == increased);
        self.cur_total_ve_lpt = new_total;
        self.cur_lock_lpt = new_lock;
        self.account_count = new_count;
        self.clock = now;
        let ghost oa = account;
        let ghost pre = self.proposals@;
        let ghost pre_self = *self;
        assert(existed ==> oa.proposals@ == old(self).accounts@[account_id@].proposals@);
        assert(!existed ==> oa.proposals@ == Map::<u32, VoteDetail>::empty());
        match self.update_impacted_proposals(&mut account, increased, true, now) {
            Ok(()) => {},
            Err(e) => {
                proof {
                    if existed {
                        lemma_blocked_transfer(pre_self, *old(self), oa, old(self).accounts@[account_id@], increased as int, true, now);
                    } else {
                        assert(oa.proposals@ == Map::<u32, VoteDetail>::empty());
                        assert(!pre_self.propagation_blocked(oa, increased as int, true, now)) by {
                            assert(oa.proposals.len_spec() == 0) by {
                                oa.proposals.lemma_keys();
                            }
                            assert(oa.rewards@ == Map::<Seq<char>, u128>::empty());
                        }
                    }
                }
                return Err(e);
            },
        }
        proof {
            if !existed {
                assert forall|i: int| 0 <= i < pre.len() implies self.proposals@[i] == pre[i] by {
                    assert(self.proposal(i as u32) == old(self).proposal(i as u32));
                }
                assert(self.proposals@ =~= pre);
            }
        }
        let ghost na = account;
        let ghost mid = *self;
        let ghost removed = self.accounts;
        self.accounts.insert(account_id.clone(), account);
        proof {
            let k = account_id@;
            assert(total_ve(self.accounts) == total_ve(removed) + ve_of(na));
            assert(total_lpt(self.accounts) == total_lpt(removed) + lpt_of(na));
            assert(total_ve(removed) == old_total - old(self).prior_ve(k));
            assert(total_lpt(removed) == total_lpt(old(self).accounts) - old(self).prior_lpt(k));
            assert forall|k2: Seq<char>| #[trigger] self.accounts@.contains_key(k2) implies self.accounts@[k2].wf() by {
                if k2 != k {
                    assert(old(self).accounts@.contains_key(k2));
                }
            }
            assert forall|k2: Seq<char>, pid: u32| #[trigger] self.accounts@.contains_key(k2)
                && #[trigger] self.accounts@[k2].proposals@.contains_key(pid) implies
                self.accounts@[k2].proposals@[pid].amount == self.accounts@[k2].ve_lpt_amount by {
                if k2 != k {
                    assert(old(self).accounts@.contains_key(k2));
                } else {
                    assert(existed);
                    let oa = old(self).accounts@[k];
                    assert(oa.proposals@.contains_key(pid));
                    assert(oa.proposals@[pid].amount == oa.ve_lpt_amount);
                }
            }
            assert(self.accounts@.dom() =~= old(self).accounts@.dom().insert(k));
            assert(self.props_wf());
            assert(self.cur_total_ve_lpt == total_ve(self.accounts));
            assert(self.cur_lock_lpt == total_lpt(self.accounts));
            assert forall|k2: Seq<char>| k2 != k && #[trigger] old(self).accounts@.contains_key(k2) implies
                self.accounts@[k2] == old(self).accounts@[k2] by {
            }
            assert(pre == old(self).proposals@);
            if existed {
                let oa2 = old(self).accounts@[k];
                assert(oa2.proposals@ == oa.proposals@);
                assert forall|pid: u32| #[trigger] oa2.proposals@.contains_key(pid) implies impacted(
                    old(self).proposal(pid), self.proposal(pid), pid, oa2.proposals@[pid],
                    na.proposals@, na.proposals_history@, increased as int, true, now, self.cur_total_ve_lpt) by {
                    assert(oa.proposals@.contains_key(pid));
                }
                assert forall|pid: u32| !oa2.proposals@.contains_key(pid) implies #[trigger] self.proposal(pid) == old(self).proposal(pid) by {
                    assert(!oa.proposals@.contains_key(pid));
                    assert(mid.proposal(pid) == pre_self.proposal(pid));
                    assert(self.proposals@ == mid.proposals@);
                }
                assert forall|pid: u32| #[trigger] na.proposals@.contains_key(pid) implies oa2.proposals@.contains_key(pid) by {
                    assert(oa.proposals@.contains_key(pid));
                }
            } else {
                assert(self.proposals@ == old(self).proposals@);
            }
            assert(self.proposals@.len() == old(self).proposals@.len());
            assert(self.accounts@.contains_key(k));
            assert(self.accounts@.dom() == old(self).accounts@.dom().insert(k));
            assert(!old(self).accounts@.contains_key(k) ==> self.proposals@ == old(self).proposals@);
            assert(!old(self).accounts@.contains_key(k) ==> self.accounts@[k].proposals@ == Map::<u32, VoteDetail>::empty());
            assert(self.relocked(old(self), k, increased as int, true, now));
            assert(self.accounts@[k] == na);
            assert forall|pid: u32, b: int| #[trigger] bucket_votes(self.accounts, pid, b) == bucket_votes(old(self).accounts, pid, b)
                - (if old(self).accounts@.contains_key(k) { vote_weight(old(self).accounts@[k], pid, b) } else { 0 })
                + vote_weight(self.accounts@[k], pid, b) by {
                assert(bucket_votes(self.accounts, pid, b) == bucket_votes(removed, pid, b) + vote_weight(na, pid, b));
            }
            lemma_relocked_weights(*old(self), *self, k, increased as int, true, now);
            assert(self.lock_outcome(old(self), k, amount as int, duration_sec as int, now, increased as int));
        }
        Ok(increased)
    }
    /// Why withdrawing `amount` (everything where None) from account `k` at
    /// `now` is refused, if it is.
    pub open spec fn withdraw_refusal(&self, k: Seq<char>, amount: Option<u128>, now: Timestamp) -> Option<VeError> {
        if !self.accounts@.contains_key(k) {
            Some(VeError::AccountNotRegistered)
        } else {
            let a = self.accounts@[k];
            a.withdraw_error(withdraw_amount(a, amount) as int, now)
        }
    }

    /// The effect of a successful withdrawal of `amount` locked tokens from
    /// account `k` at `now`, which burned `decreased` voting power.
    pub open spec fn withdraw_outcome(&self, old: &Contract, k: Seq<char>, amount: int, decreased: int, now: Timestamp) -> bool {
        let oa = old.accounts@[k];
        let na = self.accounts@[k];
        &&& self.wf()
        &&& decreased == oa.ve_lpt_amount - oa.ve_after_withdraw(amount)
        &&& self.relocked(old, k, decreased, false, now)
        &&& na.ve_lpt_amount == oa.ve_after_withdraw(amount)
        &&& na.lpt_amount == oa.lpt_amount - amount
        &&& amount < oa.lpt_amount ==> na.unlock_timestamp == oa.unlock_timestamp && na.duration_sec == oa.duration_sec
        &&& amount == oa.lpt_amount ==> na.unlock_timestamp == 0 && na.duration_sec == 0
        &&& self.cur_total_ve_lpt == old.cur_total_ve_lpt - decreased
        &&& self.cur_lock_lpt == old.cur_lock_lpt - amount
        &&& self.account_count == old.account_count
        &&& self.lostfound == old.lostfound
    }

    /// Withdraws `amount` of the locked tokens of `account_id` (all of them
    /// where None) at `now`. Returns the amount to send back and the voting
    /// power burned; the open votes follow the power down, and a vote brought
    /// to zero is dropped.
    pub fn withdraw_lpt(&mut self, account_id: &String, amount: Option<u128>, now: Timestamp) -> (r: Result<(Balance, Balance), VeError>)
        requires
            old(self).wf(),
            now >= old(self).clock,
        ensures
            match old(self).withdraw_refusal(account_id@, amount, now) {
                Some(e) => {
                    &&& r == Err::<(Balance, Balance), VeError>(e)
                    &&& *final(self) == *old(self)
                    &&& final(self).wf()
                    &&& final(self).accounts@ == old(self).accounts@
                    &&& final(self).proposals@ == old(self).proposals@
                    &&& final(self).cur_total_ve_lpt == old(self).cur_total_ve_lpt
                    &&& final(self).cur_lock_lpt == old(self).cur_lock_lpt
                },
                None => {
                    &&& r is Ok ==> r->Ok_0.0 == withdraw_amount(old(self).accounts@[account_id@], amount)
                        && final(self).withdraw_outcome(old(self), account_id@, r->Ok_0.0 as int, r->Ok_0.1 as int, now)
                    &&& r is Err ==> inconsistency(r->Err_0) && ({
                        let oa = old(self).accounts@[account_id@];
                        let x = withdraw_amount(oa, amount) as int;
                        old(self).propagation_blocked(oa, oa.ve_lpt_amount - oa.ve_after_withdraw(x), false, now)
                    })
                },
            },
    {
        let existed = self.accounts.contains_key(account_id);
        if !existed {
            return Err(VeError::AccountNotRegistered);
        }
        let ghost old_total = total_ve(self.accounts);
        let ghost old_lock = total_lpt(self.accounts);
        let requested = match amount {
            Some(x) => x,
            None => self.accounts.get(account_id).unwrap().lpt_amount,
        };
        match self.accounts.get(account_id) {
            Some(a) => {
                if now < a.unlock_timestamp {
                    return Err(VeError::StillInLock);
                }
                if requested > a.lpt_amount || requested == 0 {
                    return Err(VeError::InsufficientBalance);
                }
            },
            None => {},
        }
        let mut account = self.accounts.remove(account_id).unwrap();
        assert(account == old(self).accounts@[account_id@]);
        assert(account.wf());
        let amount = match amount {
            Some(a) => a,
            None => account.lpt_amount,
        };
        let decreased = match account.withdraw_lpt(amount, now) {
            Ok(d) => d,
            Err(e) => return Err(e),
        };
        proof {
            self.accounts.lemma_sum_nonneg(|a: Account| ve_of(a));
            self.accounts.lemma_sum_nonneg(|a: Account| lpt_of(a));
            assert(total_ve(self.accounts) >= 0);
            assert(total_lpt(self.accounts) >= 0);
        }
        self.cur_total_ve_lpt = self.cur_total_ve_lpt - decreased;
        self.cur_lock_lpt = self.cur_lock_lpt - amount;
        self.clock = now;
        let ghost oa = account;
        let ghost pre_self = *self;
        match self.update_impacted_proposals(&mut account, decreased, false, now) {
            Ok(()) => {},
            Err(e) => {
                proof {
                    lemma_blocked_transfer(pre_self, *old(self), oa, old(self).accounts@[account_id@], decreased as int, false, now);
                }
                return Err(e);
            },
        }
        let ghost na = account;
        let ghost mid = *self;
        let ghost removed = self.accounts;
        self.accounts.insert(account_id.clone(), account);
        proof {
            let k = account_id@;
            assert(total_ve(self.accounts) == total_ve(removed) + ve_of(na));
            assert(total_lpt(self.accounts) == total_lpt(removed) + lpt_of(na));
            assert forall|k2: Seq<char>| #[trigger] self.accounts@.contains_key(k2) implies self.accounts@[k2].wf() by {
                if k2 != k {
                    assert(old(self).accounts@.contains_key(k2));
                }
            }
            let oa2 = old(self).accounts@[k];
            assert forall|k2: Seq<char>, pid: u32| #[trigger] self.accounts@.contains_key(k2)
                && #[trigger] self.accounts@[k2].proposals@.contains_key(pid) implies
                self.accounts@[k2].proposals@[pid].amount == self.accounts@[k2].ve_lpt_amount by {
                if k2 != k {
                    assert(old(self).accounts@.contains_key(k2));
                } else {
                    assert(oa2.proposals@.contains_key(pid));
                    assert(oa2.proposals@[pid].amount == oa2.ve_lpt_amount);
                }
            }
            assert(self.accounts@.dom() =~= old(self).accounts@.dom().insert(k));
            assert forall|k2: Seq<char>| k2 != k && #[trigger] old(self).accounts@.contains_key(k2) implies
                self.accounts@[k2] == old(self).accounts@[k2] by {
            }
            assert forall|pid: u32| #[trigger] oa2.proposals@.contains_key(pid) implies impacted(
                old(self).proposal(pid), self.proposal(pid), pid, oa2.proposals@[pid],
                na.proposals@, na.proposals_history@, decreased as int, false, now, self.cur_total_ve_lpt) by {
                assert(oa.proposals@.contains_key(pid));
                assert(self.proposals@ == mid.proposals@);
            }
            assert forall|pid: u32| !oa2.proposals@.contains_key(pid) implies #[trigger] self.proposal(pid) == old(self).proposal(pid) by {
                assert(!oa.proposals@.contains_key(pid));
                assert(mid.proposal(pid) == pre_self.proposal(pid));
                assert(self.proposals@ == mid.proposals@);
            }
            assert(oa.proposals@ == old(self).accounts@[k].proposals@);
            assert(self.relocked(old(self), k, decreased as int, false, now));
            assert(self.accounts@[k] == na);
            assert forall|pid: u32, b: int| #[trigger] bucket_votes(self.accounts, pid, b) == bucket_votes(old(self).accounts, pid, b)
                - (if old(self).accounts@.contains_key(k) { vote_weight(old(self).accounts@[k], pid, b) } else { 0 })
                + vote_weight(self.accounts@[k], pid, b) by {
                assert(bucket_votes(self.accounts, pid, b) == bucket_votes(removed, pid, b) + vote_weight(na, pid, b));
            }
            lemma_relocked_weights(*old(self), *self, k, decreased as int, false, now);
        }
        Ok((amount, decreased))
    }
    /// The duration an append asks for: what is left of the running lock of
    /// account `k` at `now`, in whole seconds, plus `extra`. None where the
    /// account holds no lock or its lock has run out.
    pub open spec fn append_duration(&self, k: Seq<char>, extra: int, now: Timestamp) -> Option<int> {
        if !self.accounts@.contains_key(k) || self.accounts@[k].unlock_timestamp == 0 || self.accounts@[k].unlock_timestamp < now {
            None
        } else {
            Some(((self.accounts@[k].unlock_timestamp - now) / crate::utils::NANOS_PER_SEC as int) as u32 + extra)
        }
    }

    /// Adds `amount` to the running lock of `account_id` and extends it by
    /// `append_duration_sec` seconds beyond what is left of it at `now`;
    /// returns the voting power minted.
    pub fn append_lpt(&mut self, account_id: &String, amount: Balance, append_duration_sec: u32, now: Timestamp) -> (r: Result<Balance, VeError>)
        requires
            old(self).wf(),
            now >= old(self).clock,
        ensures
            match old(self).append_duration(account_id@, append_duration_sec as int, now) {
                None => r == Err::<Balance, VeError>(VeError::AccountNotLocked) && *final(self) == *old(self) && final(self).accounts@ == old(self).accounts@
                    && final(self).proposals@ == old(self).proposals@ && final(self).wf(),
                Some(d) => if d > u32::MAX {
                    r == Err::<Balance, VeError>(VeError::InvalidDuration) && *final(self) == *old(self) && final(self).accounts@ == old(self).accounts@
                        && final(self).proposals@ == old(self).proposals@ && final(self).wf()
                } else {
                    match old(self).lock_refusal(account_id@, amount as int, d, now) {
                        Some(e) => r == Err::<Balance, VeError>(e) && *final(self) == *old(self) && final(self).accounts@ == old(self).accounts@
                            && final(self).proposals@ == old(self).proposals@ && final(self).wf(),
                        None => if !old(self).lock_totals_fit(account_id@, amount as int, d, now) {
                            r == Err::<Balance, VeError>(VeError::Overflow) && *final(self) == *old(self)
                        } else {
                            &&& r is Ok ==> final(self).lock_outcome(old(self), account_id@, amount as int, d, now, r->Ok_0 as int)
                            &&& r is Err ==> inconsistency(r->Err_0) && old(self).accounts@.contains_key(account_id@)
                                && old(self).propagation_blocked(old(self).accounts@[account_id@],
                                    old(self).lock_minted(account_id@, amount as int, d, now), true, now)
                        },
                    }
                },
            },
    {
        let unlock = match self.accounts.get(account_id) {
            Some(a) => a.unlock_timestamp,
            None => return Err(VeError::AccountNotLocked),
        };
        if unlock == 0 || unlock < now {
            return Err(VeError::AccountNotLocked);
        }
        let left = crate::utils::nano_to_sec(unlock - now);
        let duration_sec = match left.checked_add(append_duration_sec) {
            Some(d) => d,
            None => return Err(VeError::InvalidDuration),
        };
        self.lock_lpt(account_id, amount, duration_sec, now)
    }

    /// Whether `proposal` is in progress at `now`, after deriving its status.
    fn is_in_progress(proposal: &Proposal) -> (r: bool)
        ensures
            r == (proposal.status == Some(ProposalStatus::InProgress)),
    {
        match proposal.status {
            Some(ProposalStatus::InProgress) => true,
            _ => false,
        }
    }
    /// Settles every open vote of `account` on an expired proposal: its
    /// reward is credited and it moves to the history. Other votes stay.
    pub fn internal_claim_all(&mut self, account: &mut Account, now: Timestamp) -> (r: Result<(), VeError>)
        requires
            old(self).props_wf(),
            old(account).wf(),
        ensures
            final(self).frame_eq(old(self)),
            final(self).proposals@.len() == old(self).proposals@.len(),
            final(account).same_lock(old(account)),
            r is Err ==> inconsistency(r->Err_0) && old(self).propagation_blocked(*old(account), 0, true, now),
            r is Ok ==> {
                &&& forall|t: Seq<char>| #[trigger] crate::account::amount_or_zero(final(account).rewards@, t)
                    == crate::account::amount_or_zero(old(account).rewards@, t)
                    + expired_credit(old(self).proposals@, old(account).proposals, old(account).proposals.len_spec() as int, t, now)
                &&& final(self).props_wf()
                &&& final(account).wf()
                &&& forall|pid: u32| #[trigger] old(account).proposals@.contains_key(pid) ==> impacted(
                    old(self).proposal(pid),
                    final(self).proposal(pid),
                    pid,
                    old(account).proposals@[pid],
                    final(account).proposals@,
                    final(account).proposals_history@,
                    0,
                    true,
                    now, final(self).cur_total_ve_lpt,
                )
                &&& forall|pid: u32| !old(account).proposals@.contains_key(pid) ==>
                    #[trigger] final(self).proposal(pid) == old(self).proposal(pid)
                &&& forall|pid: u32| #[trigger] final(account).proposals@.contains_key(pid) ==>
                    old(account).proposals@.contains_key(pid)
                &&& forall|k: Seq<char>| #[trigger] old(account).rewards@.contains_key(k) ==>
                    final(account).rewards@.contains_key(k) && final(account).rewards@[k] >= old(account).rewards@[k]
            },
    {
        self.update_impacted_proposals(account, 0, true, now)
    }

    /// Why `voter` may not cast `action` on proposal `proposal_id` at `now`,
    /// if it may not.
    pub open spec fn vote_refusal(&self, voter: Seq<char>, proposal_id: u32, action: Action, now: Timestamp) -> Option<VeError> {
        if !self.accounts@.contains_key(voter) {
            Some(VeError::AccountNotRegistered)
        } else if self.accounts@[voter].ve_lpt_amount == 0 {
            Some(VeError::InsufficientVeLpt)
        } else if self.accounts@[voter].proposals@.contains_key(proposal_id) {
            Some(VeError::AlreadyVoted)
        } else if self.proposal(proposal_id) is None {
            Some(VeError::ProposalNotExist)
        } else if self.proposal(proposal_id)->Some_0.status_at(now) != ProposalStatus::InProgress {
            Some(VeError::NotVotable)
        } else if !self.proposal(proposal_id)->Some_0.kind.accepts(action) {
            Some(VeError::InvalidVote)
        } else {
            let p = self.proposal(proposal_id)->Some_0;
            let b = p.votes@[action.index()];
            if b.total_ballots + self.accounts@[voter].ve_lpt_amount > u128::MAX
                || b.participants + 1 > u64::MAX || p.participants + 1 > u64::MAX {
                Some(VeError::Overflow)
            } else {
                None
            }
        }
    }

    /// Casts `voter`'s whole voting power on `proposal_id` for `action` at
    /// `now`, after settling the voter's votes on expired proposals; returns
    /// the weight cast.
    pub fn action_proposal(&mut self, voter: &String, proposal_id: u32, action: Action, now: Timestamp) -> (r: Result<Balance, VeError>)
        requires
            old(self).wf(),
            now >= old(self).clock,
        ensures
            match old(self).vote_refusal(voter@, proposal_id, action, now) {
                Some(e) => r == Err::<Balance, VeError>(e) && *final(self) == *old(self) && final(self).wf() && final(self).accounts@ == old(self).accounts@
                    && final(self).proposals@ == old(self).proposals@,
                None => (r is Err ==> inconsistency(r->Err_0)
                    && old(self).propagation_blocked(old(self).accounts@[voter@], 0, true, now)) && (r is Ok ==> {
                    let oa = old(self).accounts@[voter@];
                    let na = final(self).accounts@[voter@];
                    let op = old(self).proposal(proposal_id)->Some_0;
                    let np = final(self).proposal(proposal_id)->Some_0;
                    let bi = action.index();
                    &&& final(self).wf()
                    &&& r->Ok_0 == oa.ve_lpt_amount
                    &&& na.same_lock(&oa)
                    &&& na.proposals@.contains_key(proposal_id)
                    &&& na.proposals@[proposal_id] == (VoteDetail { action, amount: oa.ve_lpt_amount })
                    &&& np.votes@ == op.votes@.update(bi, VoteInfo {
                        total_ballots: (op.votes@[bi].total_ballots + oa.ve_lpt_amount) as u128,
                        participants: (op.votes@[bi].participants + 1) as u64,
                    })
                    &&& np.participants == op.participants + 1
                    &&& np.ve_amount_at_last_action == old(self).cur_total_ve_lpt
                    &&& final(self).cur_total_ve_lpt == old(self).cur_total_ve_lpt
                    &&& final(self).cur_lock_lpt == old(self).cur_lock_lpt
                    &&& final(self).accounts@.dom() == old(self).accounts@.dom()
                    &&& forall|k2: Seq<char>| k2 != voter@ && #[trigger] old(self).accounts@.contains_key(k2) ==>
                        final(self).accounts@[k2] == old(self).accounts@[k2]
                    &&& forall|pid: u32| pid != proposal_id && #[trigger] oa.proposals@.contains_key(pid) ==> impacted(
                        old(self).proposal(pid), final(self).proposal(pid), pid, oa.proposals@[pid],
                        na.proposals@, na.proposals_history@, 0, true, now, final(self).cur_total_ve_lpt)
                    &&& forall|pid: u32| pid != proposal_id && !oa.proposals@.contains_key(pid) ==>
                        #[trigger] final(self).proposal(pid) == old(self).proposal(pid)
                }),
            },
    {
        let ve = match self.accounts.get(voter) {
            Some(a) => {
                if a.ve_lpt_amount == 0 {
                    return Err(VeError::InsufficientVeLpt);
                }
                if a.proposals.contains_key(proposal_id) {
                    return Err(VeError::AlreadyVoted);
                }
                a.ve_lpt_amount
            },
            None => return Err(VeError::AccountNotRegistered),
        };
        if (proposal_id as usize) >= self.proposals.len() {
            return Err(VeError::ProposalNotExist);
        }
        match &self.proposals[proposal_id as usize] {
            None => return Err(VeError::ProposalNotExist),
            Some(p) => {
                if now < p.start_at || now >= p.end_at {
                    return Err(VeError::NotVotable);
                }
                if !p.kind.accepts_action(&action) {
                    return Err(VeError::InvalidVote);
                }
                let b = p.votes[action.get_index()];
                if b.total_ballots > u128::MAX - ve || b.participants == u64::MAX || p.participants == u64::MAX {
                    return Err(VeError::Overflow);
                }
            },
        }
        let ghost old_total = total_ve(self.accounts);
        let mut account = self.accounts.remove(voter).unwrap();
        let ghost oa = account;
        assert(account.wf());
        self.clock = now;
        let ghost pre_self = *self;
        match self.internal_claim_all(&mut account, now) {
            Ok(()) => {},
            Err(e) => {
                proof {
                    lemma_blocked_transfer(pre_self, *old(self), oa, old(self).accounts@[voter@], 0, true, now);
                }
                return Err(e);
            },
        }
        let ghost mid = *self;
        let ghost after_claim = account;
        assert(!account.proposals@.contains_key(proposal_id));
        assert(self.proposal(proposal_id) == old(self).proposal(proposal_id));
        account.proposals.insert(proposal_id, VoteDetail { action, amount: ve });
        let mut proposal = self.take_proposal(proposal_id).unwrap();
        let ghost op = proposal;
        proposal.update_status(now);
        match proposal.update_votes(&action, ve, true) {
            Ok(()) => {},
            Err(e) => return Err(e),
        }
        match proposal.update_participants(&action, true) {
            Ok(()) => {},
            Err(e) => return Err(e),
        }
        proposal.ve_amount_at_last_action = self.cur_total_ve_lpt;
        self.put_proposal(proposal_id, proposal);
        let ghost na = account;
        let ghost removed = self.accounts;
        let ghost after_put = *self;
        self.accounts.insert(voter.clone(), account);
        proof {
            let k = voter@;
            let bi = action.index();
            assert(proposal.votes@ =~= op.votes@.update(bi, VoteInfo {
                total_ballots: (op.votes@[bi].total_ballots + ve) as u128,
                participants: (op.votes@[bi].participants + 1) as u64,
            }));
            assert(total_ve(self.accounts) == total_ve(removed) + ve_of(na));
            assert(total_lpt(self.accounts) == total_lpt(removed) + lpt_of(na));
            assert forall|k2: Seq<char>| #[trigger] self.accounts@.contains_key(k2) implies self.accounts@[k2].wf() by {
                if k2 != k {
                    assert(old(self).accounts@.contains_key(k2));
                }
            }
            assert forall|k2: Seq<char>, pid: u32| #[trigger] self.accounts@.contains_key(k2)
                && #[trigger] self.accounts@[k2].proposals@.contains_key(pid) implies
                self.accounts@[k2].proposals@[pid].amount == self.accounts@[k2].ve_lpt_amount by {
                if k2 != k {
                    assert(old(self).accounts@.contains_key(k2));
                } else if pid != proposal_id {
                    assert(after_claim.proposals@.contains_key(pid));
                    assert(oa.proposals@.contains_key(pid));
                    assert(impacted(pre_self.proposal(pid), mid.proposal(pid), pid, oa.proposals@[pid],
                        after_claim.proposals@, after_claim.proposals_history@, 0, true, now, mid.cur_total_ve_lpt));
                }
            }
            assert(self.accounts@.dom() =~= old(self).accounts@.dom());
            assert forall|k2: Seq<char>| k2 != k && #[trigger] old(self).accounts@.contains_key(k2) implies
                self.accounts@[k2] == old(self).accounts@[k2] by {
            }
            assert forall|j: int| 0 <= j < self.proposals@.len() && #[trigger] self.proposals@[j] is Some implies
                self.proposals@[j]->Some_0.wf() && self.proposals@[j]->Some_0.id == j by {
                if j != proposal_id {
                    assert(self.proposals@[j] == mid.proposals@[j]);
                } else {
                    assert(mid.proposals@[j] == Some(op));
                }
            }
            assert forall|pid: u32| pid != proposal_id && #[trigger] oa.proposals@.contains_key(pid) implies impacted(
                old(self).proposal(pid), self.proposal(pid), pid, oa.proposals@[pid],
                na.proposals@, na.proposals_history@, 0, true, now, self.cur_total_ve_lpt) by {
                assert(impacted(pre_self.proposal(pid), mid.proposal(pid), pid, oa.proposals@[pid],
                    after_claim.proposals@, after_claim.proposals_history@, 0, true, now, mid.cur_total_ve_lpt));
                assert(self.proposal(pid) == mid.proposal(pid));
            }
            assert forall|pid: u32| pid != proposal_id && !oa.proposals@.contains_key(pid) implies
                #[trigger] self.proposal(pid) == old(self).proposal(pid) by {
                assert(mid.proposal(pid) == pre_self.proposal(pid));
                assert(self.proposal(pid) == mid.proposal(pid));
            }
        }
        proof {
            let k = voter@;
            let bi = action.index();
            assert(oa == old(self).accounts@[k]);
            assert(op == old(self).proposal(proposal_id)->Some_0);
            assert forall|pid: u32, b: int| #[trigger] bucket_votes(self.accounts, pid, b) == bucket_votes(old(self).accounts, pid, b)
                - vote_weight(old(self).accounts@[k], pid, b) + vote_weight(self.accounts@[k], pid, b) by {
                assert(bucket_votes(self.accounts, pid, b) == bucket_votes(removed, pid, b) + vote_weight(na, pid, b));
                assert(bucket_votes(removed, pid, b) == bucket_votes(old(self).accounts, pid, b) - vote_weight(oa, pid, b));
            }
            assert forall|pid: u32| pid != proposal_id implies {
                &&& (#[trigger] self.proposal(pid) is Some) == old(self).proposal(pid) is Some
                &&& self.proposal(pid) is Some ==> {
                    &&& old(self).proposal(pid)->Some_0.end_at == self.proposal(pid)->Some_0.end_at
                    &&& old(self).proposal(pid)->Some_0.start_at == self.proposal(pid)->Some_0.start_at
                    &&& now < self.proposal(pid)->Some_0.end_at ==> self.proposal(pid)->Some_0.votes@ == old(self).proposal(pid)->Some_0.votes@
                        && (na.proposals@.contains_key(pid) == oa.proposals@.contains_key(pid))
                        && (na.proposals@.contains_key(pid) ==> na.proposals@[pid] == oa.proposals@[pid])
                }
                &&& na.proposals@.contains_key(pid) ==> oa.proposals@.contains_key(pid)
            } by {
                assert(self.proposal(pid) == mid.proposal(pid));
                assert(pre_self.proposal(pid) == old(self).proposal(pid));
                assert(na.proposals@.contains_key(pid) == after_claim.proposals@.contains_key(pid));
                if after_claim.proposals@.contains_key(pid) {
                    assert(na.proposals@[pid] == after_claim.proposals@[pid]);
                }
                if oa.proposals@.contains_key(pid) {
                    assert(impacted(pre_self.proposal(pid), mid.proposal(pid), pid, oa.proposals@[pid],
                        after_claim.proposals@, after_claim.proposals_history@, 0, true, now, mid.cur_total_ve_lpt));
                } else {
                    assert(mid.proposal(pid) == pre_self.proposal(pid));
                }
            }
            assert forall|pid: u32| #[trigger] self.proposal(pid) is Some && now < self.proposal(pid)->Some_0.end_at implies {
                &&& old(self).proposal(pid) is Some
                &&& old(self).proposal(pid)->Some_0.end_at == self.proposal(pid)->Some_0.end_at
                &&& old(self).proposal(pid)->Some_0.votes@.len() == self.proposal(pid)->Some_0.votes@.len()
                &&& forall|b: int| 0 <= b < self.proposal(pid)->Some_0.votes@.len() ==>
                    #[trigger] self.proposal(pid)->Some_0.votes@[b].total_ballots - old(self).proposal(pid)->Some_0.votes@[b].total_ballots
                    == vote_weight(self.accounts@[k], pid, b) - vote_weight(old(self).accounts@[k], pid, b)
            } by {
                assert(self.accounts@[k] == na);
                if pid == proposal_id {
                    assert(!oa.proposals@.contains_key(pid));
                    assert(na.proposals@[pid] == (VoteDetail { action, amount: ve }));
                    assert(self.proposal(pid) == Some(proposal));
                }
            }
            assert forall|pid: u32| #[trigger] self.accounts@[k].proposals@.contains_key(pid) implies
                self.proposal(pid) is Some && self.proposal(pid)->Some_0.start_at <= now by {
                assert(self.accounts@[k] == na);
                if pid != proposal_id {
                    assert(oa.proposals@.contains_key(pid));
                    assert(old(self).accounts@.contains_key(k));
                } else {
                    assert(self.proposal(pid) == Some(proposal));
                }
            }
            assert forall|pid: u32| #[trigger] old(self).proposal(pid) is Some && !(self.proposal(pid) is Some) implies
                forall|k2: Seq<char>| #[trigger] old(self).accounts@.contains_key(k2) ==> !old(self).accounts@[k2].proposals@.contains_key(pid) by {
                assert(pid != proposal_id);
            }
            assert forall|pid: u32| #[trigger] self.proposal(pid) is Some && old(self).proposal(pid) is Some implies
                self.proposal(pid)->Some_0.start_at == old(self).proposal(pid)->Some_0.start_at by {
                if pid == proposal_id {
                    assert(self.proposal(pid) == Some(proposal));
                }
            }
            lemma_account_votes_weights(*old(self), *self, k, now);
        }
        Ok(ve)
    }
    /// Why `voter` may not withdraw its vote on `proposal_id` at `now`, if it
    /// may not.
    pub open spec fn cancel_refusal(&self, voter: Seq<char>, proposal_id: u32, now: Timestamp) -> Option<VeError> {
        if !self.accounts@.contains_key(voter) {
            Some(VeError::AccountNotRegistered)
        } else if !self.accounts@[voter].proposals@.contains_key(proposal_id) {
            Some(VeError::NoVoted)
        } else if self.proposal(proposal_id) is None {
            Some(VeError::ProposalNotExist)
        } else if self.proposal(proposal_id)->Some_0.status_at(now) != ProposalStatus::InProgress {
            Some(VeError::VoteCanNotCancel)
        } else {
            let p = self.proposal(proposal_id)->Some_0;
            let vd = self.accounts@[voter].proposals@[proposal_id];
            if !p.kind.accepts(vd.action) {
                Some(VeError::InvalidVote)
            } else {
                let b = p.votes@[vd.action.index()];
                if b.total_ballots < vd.amount || b.participants == 0 || p.participants == 0 {
                    Some(VeError::Overflow)
                } else {
                    None
                }
            }
        }
    }

    /// Withdraws `voter`'s vote on `proposal_id` at `now`, after settling the
    /// voter's votes on expired proposals; returns the weight withdrawn.
    pub fn action_cancel(&mut self, voter: &String, proposal_id: u32, now: Timestamp) -> (r: Result<Balance, VeError>)
        requires
            old(self).wf(),
            now >= old(self).clock,
        ensures
            match old(self).cancel_refusal(voter@, proposal_id, now) {
                Some(e) => r == Err::<Balance, VeError>(e) && *final(self) == *old(self) && final(self).wf() && final(self).accounts@ == old(self).accounts@
                    && final(self).proposals@ == old(self).proposals@,
                None => (r is Err ==> inconsistency(r->Err_0)
                    && old(self).propagation_blocked(old(self).accounts@[voter@], 0, true, now)) && (r is Ok ==> {
                    let oa = old(self).accounts@[voter@];
                    let na = final(self).accounts@[voter@];
                    let vd = oa.proposals@[proposal_id];
                    let op = old(self).proposal(proposal_id)->Some_0;
                    let np = final(self).proposal(proposal_id)->Some_0;
                    let bi = vd.action.index();
                    &&& final(self).wf()
                    &&& r->Ok_0 == vd.amount
                    &&& na.same_lock(&oa)
                    &&& !na.proposals@.contains_key(proposal_id)
                    &&& np.votes@ == op.votes@.update(bi, VoteInfo {
                        total_ballots: (op.votes@[bi].total_ballots - vd.amount) as u128,
                        participants: (op.votes@[bi].participants - 1) as u64,
                    })
                    &&& np.participants == op.participants - 1
                    &&& final(self).cur_total_ve_lpt == old(self).cur_total_ve_lpt
                    &&& final(self).cur_lock_lpt == old(self).cur_lock_lpt
                    &&& final(self).accounts@.dom() == old(self).accounts@.dom()
                    &&& forall|k2: Seq<char>| k2 != voter@ && #[trigger] old(self).accounts@.contains_key(k2) ==>
                        final(self).accounts@[k2] == old(self).accounts@[k2]
                    &&& forall|pid: u32| pid != proposal_id && #[trigger] oa.proposals@.contains_key(pid) ==> impacted(
                        old(self).proposal(pid), final(self).proposal(pid), pid, oa.proposals@[pid],
                        na.proposals@, na.proposals_history@, 0, true, now, final(self).cur_total_ve_lpt)
                    &&& forall|pid: u32| pid != proposal_id && !oa.proposals@.contains_key(pid) ==>
                        #[trigger] final(self).proposal(pid) == old(self).proposal(pid)
                }),
            },
    {
        let vd = match self.accounts.get(voter) {
            Some(a) => match a.proposals.get(proposal_id) {
                Some(v) => *v,
                None => return Err(VeError::NoVoted),
            },
            None => return Err(VeError::AccountNotRegistered),
        };
        if (proposal_id as usize) >= self.proposals.len() {
            return Err(VeError::ProposalNotExist);
        }
        match &self.proposals[proposal_id as usize] {
            None => return Err(VeError::ProposalNotExist),
            Some(p) => {
                if now < p.start_at || now >= p.end_at {
                    return Err(VeError::VoteCanNotCancel);
                }
                if !p.kind.accepts_action(&vd.action) {
                    return Err(VeError::InvalidVote);
                }
                let b = p.votes[vd.action.get_index()];
                if b.total_ballots < vd.amount || b.participants == 0 || p.participants == 0 {
                    return Err(VeError::Overflow);
                }
            },
        }
        let mut account = self.accounts.remove(voter).unwrap();
        let ghost oa = account;
        assert(account.wf());
        self.clock = now;
        let ghost pre_self = *self;
        match self.internal_claim_all(&mut account, now) {
            Ok(()) => {},
            Err(e) => {
                proof {
                    lemma_blocked_transfer(pre_self, *old(self), oa, old(self).accounts@[voter@], 0, true, now);
                }
                return Err(e);
            },
        }
        let ghost mid = *self;
        let ghost claimed = account;
        proof {
            assert(oa.proposals@.contains_key(proposal_id));
            assert(impacted(pre_self.proposal(proposal_id), mid.proposal(proposal_id), proposal_id, oa.proposals@[proposal_id],
                claimed.proposals@, claimed.proposals_history@, 0, true, now, mid.cur_total_ve_lpt));
        }
        account.proposals.remove(proposal_id);
        let ghost oa_rest = oa;
        let ghost after_claim = account;
        let ghost opo = old(self).proposal(proposal_id)->Some_0;
        assert(self.proposal(proposal_id) is Some);
        let mut proposal = self.take_proposal(proposal_id).unwrap();
        let ghost op = proposal;
        assert(op.votes@ == opo.votes@ && op.participants == opo.participants && op.kind == opo.kind
            && op.start_at == opo.start_at && op.end_at == opo.end_at && op.id == opo.id);
        proposal.update_status(now);
        match proposal.update_votes(&vd.action, vd.amount, false) {
            Ok(()) => {},
            Err(e) => return Err(e),
        }
        match proposal.update_participants(&vd.action, false) {
            Ok(()) => {},
            Err(e) => return Err(e),
        }
        proposal.ve_amount_at_last_action = self.cur_total_ve_lpt;
        self.put_proposal(proposal_id, proposal);
        let ghost na = account;
        let ghost removed = self.accounts;
        self.accounts.insert(voter.clone(), account);
        proof {
            let k = voter@;
            let bi = vd.action.index();
            assert(proposal.votes@ =~= op.votes@.update(bi, VoteInfo {
                total_ballots: (op.votes@[bi].total_ballots - vd.amount) as u128,
                participants: (op.votes@[bi].participants - 1) as u64,
            }));
            assert(total_ve(self.accounts) == total_ve(removed) + ve_of(na));
            assert(total_lpt(self.accounts) == total_lpt(removed) + lpt_of(na));
            assert forall|k2: Seq<char>| #[trigger] self.accounts@.contains_key(k2) implies self.accounts@[k2].wf() by {
                if k2 != k {
                    assert(old(self).accounts@.contains_key(k2));
                }
            }
            assert forall|k2: Seq<char>, pid: u32| #[trigger] self.accounts@.contains_key(k2)
                && #[trigger] self.accounts@[k2].proposals@.contains_key(pid) implies
                self.accounts@[k2].proposals@[pid].amount == self.accounts@[k2].ve_lpt_amount by {
                if k2 != k {
                    assert(old(self).accounts@.contains_key(k2));
                } else {
                    assert(oa_rest.proposals@.contains_key(pid));
                    assert(oa.proposals@.contains_key(pid));
                    assert(impacted(pre_self.proposal(pid), mid.proposal(pid), pid, oa_rest.proposals@[pid],
                        after_claim.proposals@, after_claim.proposals_history@, 0, true, now, mid.cur_total_ve_lpt));
                }
            }
            assert(self.accounts@.dom() =~= old(self).accounts@.dom());
            assert forall|k2: Seq<char>| k2 != k && #[trigger] old(self).accounts@.contains_key(k2) implies
                self.accounts@[k2] == old(self).accounts@[k2] by {
            }
            assert forall|j: int| 0 <= j < self.proposals@.len() && #[trigger] self.proposals@[j] is Some implies
                self.proposals@[j]->Some_0.wf() && self.proposals@[j]->Some_0.id == j by {
                if j != proposal_id {
                    assert(self.proposals@[j] == mid.proposals@[j]);
                } else {
                    assert(mid.proposals@[j] == Some(op));
                }
            }
            assert forall|pid: u32| pid != proposal_id && #[trigger] oa.proposals@.contains_key(pid) implies impacted(
                old(self).proposal(pid), self.proposal(pid), pid, oa.proposals@[pid],
                na.proposals@, na.proposals_history@, 0, true, now, self.cur_total_ve_lpt) by {
                assert(oa_rest.proposals@.contains_key(pid));
                assert(impacted(pre_self.proposal(pid), mid.proposal(pid), pid, oa_rest.proposals@[pid],
                    after_claim.proposals@, after_claim.proposals_history@, 0, true, now, mid.cur_total_ve_lpt));
                assert(self.proposal(pid) == mid.proposal(pid));
            }
            assert forall|pid: u32| pid != proposal_id && !oa.proposals@.contains_key(pid) implies
                #[trigger] self.proposal(pid) == old(self).proposal(pid) by {
                assert(!oa_rest.proposals@.contains_key(pid));
                assert(mid.proposal(pid) == pre_self.proposal(pid));
                assert(self.proposal(pid) == mid.proposal(pid));
            }
        }
        proof {
            let k = voter@;
            let bi = vd.action.index();
            assert(oa == old(self).accounts@[k]);
            assert(op.votes@ == opo.votes@);
            assert forall|pid: u32, b: int| #[trigger] bucket_votes(self.accounts, pid, b) == bucket_votes(old(self).accounts, pid, b)
                - vote_weight(old(self).accounts@[k], pid, b) + vote_weight(self.accounts@[k], pid, b) by {
                assert(bucket_votes(self.accounts, pid, b) == bucket_votes(removed, pid, b) + vote_weight(na, pid, b));
                assert(bucket_votes(removed, pid, b) == bucket_votes(old(self).accounts, pid, b) - vote_weight(oa, pid, b));
            }
            assert forall|pid: u32| pid != proposal_id implies {
                &&& (#[trigger] self.proposal(pid) is Some) == old(self).proposal(pid) is Some
                &&& self.proposal(pid) is Some ==> {
                    &&& old(self).proposal(pid)->Some_0.end_at == self.proposal(pid)->Some_0.end_at
                    &&& old(self).proposal(pid)->Some_0.start_at == self.proposal(pid)->Some_0.start_at
                    &&& now < self.proposal(pid)->Some_0.end_at ==> self.proposal(pid)->Some_0.votes@ == old(self).proposal(pid)->Some_0.votes@
                        && (na.proposals@.contains_key(pid) == oa.proposals@.contains_key(pid))
                        && (na.proposals@.contains_key(pid) ==> na.proposals@[pid] == oa.proposals@[pid])
                }
                &&& na.proposals@.contains_key(pid) ==> oa.proposals@.contains_key(pid)
            } by {
                assert(self.proposal(pid) == mid.proposal(pid));
                assert(pre_self.proposal(pid) == old(self).proposal(pid));
                assert(oa_rest.proposals@.contains_key(pid) == oa.proposals@.contains_key(pid));
                if oa_rest.proposals@.contains_key(pid) {
                    assert(oa_rest.proposals@[pid] == oa.proposals@[pid]);
                    assert(impacted(pre_self.proposal(pid), mid.proposal(pid), pid, oa_rest.proposals@[pid],
                        after_claim.proposals@, after_claim.proposals_history@, 0, true, now, mid.cur_total_ve_lpt));
                } else {
                    assert(mid.proposal(pid) == pre_self.proposal(pid));
                }
            }
            assert forall|pid: u32| #[trigger] self.proposal(pid) is Some && now < self.proposal(pid)->Some_0.end_at implies {
                &&& old(self).proposal(pid) is Some
                &&& old(self).proposal(pid)->Some_0.end_at == self.proposal(pid)->Some_0.end_at
                &&& old(self).proposal(pid)->Some_0.votes@.len() == self.proposal(pid)->Some_0.votes@.len()
                &&& forall|b: int| 0 <= b < self.proposal(pid)->Some_0.votes@.len() ==>
                    #[trigger] self.proposal(pid)->Some_0.votes@[b].total_ballots - old(self).proposal(pid)->Some_0.votes@[b].total_ballots
                    == vote_weight(self.accounts@[k], pid, b) - vote_weight(old(self).accounts@[k], pid, b)
            } by {
                assert(self.accounts@[k] == na);
                if pid == proposal_id {
                    assert(!na.proposals@.contains_key(pid));
                    assert(oa.proposals@[pid] == vd);
                    assert(self.proposal(pid) == Some(proposal));
                }
            }
            assert forall|pid: u32| #[trigger] self.accounts@[k].proposals@.contains_key(pid) implies
                self.proposal(pid) is Some && self.proposal(pid)->Some_0.start_at <= now by {
                assert(self.accounts@[k] == na);
                assert(pid != proposal_id);
                assert(oa.proposals@.contains_key(pid));
                assert(old(self).accounts@.contains_key(k));
            }
            assert forall|pid: u32| #[trigger] old(self).proposal(pid) is Some && !(self.proposal(pid) is Some) implies
                forall|k2: Seq<char>| #[trigger] old(self).accounts@.contains_key(k2) ==> !old(self).accounts@[k2].proposals@.contains_key(pid) by {
                assert(pid != proposal_id);
            }
            assert forall|pid: u32| #[trigger] self.proposal(pid) is Some && old(self).proposal(pid) is Some implies
                self.proposal(pid)->Some_0.start_at == old(self).proposal(pid)->Some_0.start_at by {
                if pid == proposal_id {
                    assert(self.proposal(pid) == Some(proposal));
                }
            }
            lemma_account_votes_weights(*old(self), *self, k, now);
        }
        Ok(vd.amount)
    }
    /// Why `caller` may not claim on `proposal_id`, if it may not.
    pub open spec fn claim_refusal(&self, caller: Seq<char>, proposal_id: u32) -> Option<VeError> {
        if !self.accounts@.contains_key(caller) {
            Some(VeError::AccountNotRegistered)
        } else if self.proposal(proposal_id) is None {
            Some(VeError::ProposalNotExist)
        } else {
            None
        }
    }

    /// A claim by `k` on `proposal_id` at `now` that passed its checks
    /// cannot be paid: a share or a claimed amount, or a reward balance
    /// raised by it, would exceed u128::MAX.
    pub open spec fn claim_blocked(&self, k: Seq<char>, proposal_id: u32, now: Timestamp) -> bool {
        let oa = self.accounts@[k];
        let op = self.proposal(proposal_id)->Some_0;
        let vd = oa.proposals@[proposal_id];
        let key = reward_key(op.kind, vd.action);
        let total = votes_total(op.kind, op.votes@, key);
        let voters = bucket_voters(op.kind, op.votes@, op.participants, key);
        &&& oa.proposals@.contains_key(proposal_id)
        &&& op.status_at(now) == ProposalStatus::Expired
        &&& match pool_index(op.incentive@, key) {
            None => false,
            Some(i) => claim_overflows(op.incentive@[i].1, vd.amount as int, total, voters)
                || exists|rewards: Seq<(String, u128)>| #[trigger] is_claim_list(op.incentive@[i].1, vd.amount as int, total, voters, rewards)
                    && !rewards_fit(oa.rewards@, list_map(rewards)),
        }
    }

    /// The effect of a successful claim by `k` on `proposal_id` at `now`.
    /// Where the account holds no open vote there, or the proposal has not
    /// expired, nothing changes. Otherwise the vote moves to the history, its
    /// share of the bucket's pool (even or proportional, as the pool says) is
    /// credited to the account's rewards and recorded as claimed in the pool.
    pub open spec fn claim_outcome(&self, old: &Contract, k: Seq<char>, proposal_id: u32, now: Timestamp) -> bool {
        let oa = old.accounts@[k];
        let na = self.accounts@[k];
        let op = old.proposal(proposal_id)->Some_0;
        let np = self.proposal(proposal_id)->Some_0;
        &&& self.wf()
        &&& self.cur_total_ve_lpt == old.cur_total_ve_lpt
        &&& self.cur_lock_lpt == old.cur_lock_lpt
        &&& if !oa.proposals@.contains_key(proposal_id) || op.status_at(now) != ProposalStatus::Expired {
            &&& self.accounts@ == old.accounts@
            &&& self.proposals@ == old.proposals@
            &&& self.clock == old.clock
        } else {
            let vd = oa.proposals@[proposal_id];
            let key = reward_key(op.kind, vd.action);
            let total = votes_total(op.kind, op.votes@, key);
            let voters = bucket_voters(op.kind, op.votes@, op.participants, key);
            &&& self.accounts@.dom() == old.accounts@.dom()
            &&& forall|k2: Seq<char>| k2 != k && #[trigger] old.accounts@.contains_key(k2) ==>
                self.accounts@[k2] == old.accounts@[k2]
            &&& forall|pid: u32| pid != proposal_id ==> #[trigger] self.proposal(pid) == old.proposal(pid)
            &&& self.proposal(proposal_id) is Some
            &&& self.clock == now
            &&& na.same_lock(&oa)
            &&& na.proposals@ == oa.proposals@.remove(proposal_id)
            &&& na.proposals_history@ == oa.proposals_history@.insert(proposal_id, vd)
            &&& np.votes@ == op.votes@
            &&& match pool_index(op.incentive@, key) {
                None => na.rewards@ == oa.rewards@,
                Some(i) => exists|rewards: Seq<(String, u128)>| {
                    &&& is_claim_list(op.incentive@[i].1, vd.amount as int, total, voters, rewards)
                    &&& na.rewards@ == merged_rewards(oa.rewards@, list_map(rewards))
                    &&& np.incentive@.len() == op.incentive@.len()
                    &&& crate::incentive::claimed_after(op.incentive@[i].1, rewards, np.incentive@[i].1)
                },
            }
        }
    }

    /// Claims `caller`'s reward for its vote on `proposal_id` once the
    /// proposal has expired. Claiming again, or before expiry, is a no-op.
    pub fn claim_reward(&mut self, caller: &String, proposal_id: u32, now: Timestamp) -> (r: Result<(), VeError>)
        requires
            old(self).wf(),
            now >= old(self).clock,
        ensures
            match old(self).claim_refusal(caller@, proposal_id) {
                Some(e) => r == Err::<(), VeError>(e) && *final(self) == *old(self) && final(self).accounts@ == old(self).accounts@
                    && final(self).proposals@ == old(self).proposals@ && final(self).wf(),
                None => if old(self).claim_blocked(caller@, proposal_id, now) {
                    r == Err::<(), VeError>(VeError::Overflow) && *final(self) == *old(self)
                } else {
                    r is Ok && final(self).claim_outcome(old(self), caller@, proposal_id, now)
                },
            },
            old(self).claim_refusal(caller@, proposal_id) is None && (
                !old(self).accounts@[caller@].proposals@.contains_key(proposal_id)
                || old(self).proposal(proposal_id)->Some_0.status_at(now) != ProposalStatus::Expired)
                ==> r == Ok::<(), VeError>(()),
    {
        let has_vote = match self.accounts.get(caller) {
            Some(a) => a.proposals.contains_key(proposal_id),
            None => return Err(VeError::AccountNotRegistered),
        };
        if (proposal_id as usize) >= self.proposals.len() {
            return Err(VeError::ProposalNotExist);
        }
        let expired = match &self.proposals[proposal_id as usize] {
            None => return Err(VeError::ProposalNotExist),
            Some(p) => now >= p.start_at && now >= p.end_at,
        };
        if !has_vote || !expired {
            return Ok(());
        }
        let vd0 = *self.accounts.get(caller).unwrap().proposals.get(proposal_id).unwrap();
        let ghost oacc = old(self).accounts@[caller@];
        assert(oacc.wf());
        assert(old(self).proposals@[proposal_id as int] is Some);
        let preview = match &self.proposals[proposal_id as usize] {
            Some(p) => p.claim_preview(&vd0),
            None => Ok(None),
        };
        let ghost op0 = old(self).proposal(proposal_id)->Some_0;
        assert(vd0 == oacc.proposals@[proposal_id]);
        assert(op0.status_at(now) == ProposalStatus::Expired);
        let ghost mut paid: Seq<(String, u128)> = Seq::empty();
        match preview {
            Err(e) => {
                assert(old(self).claim_blocked(caller@, proposal_id, now));
                return Err(e);
            },
            Ok(Some(list)) => {
                let m = rewards_to_map(&list);
                if !self.accounts.get(caller).unwrap().rewards_fit_check(&m) {
                    return Err(VeError::Overflow);
                }
                proof {
                    paid = list@;
                }
            },
            Ok(None) => {},
        }
        proof {
            if old(self).claim_blocked(caller@, proposal_id, now) {
                let key = reward_key(op0.kind, vd0.action);
                let total = votes_total(op0.kind, op0.votes@, key);
                let voters = bucket_voters(op0.kind, op0.votes@, op0.participants, key);
                let i = pool_index(op0.incentive@, key)->Some_0;
                let rw = choose|rw: Seq<(String, u128)>| #[trigger] is_claim_list(op0.incentive@[i].1, vd0.amount as int, total, voters, rw)
                    && !rewards_fit(oacc.rewards@, list_map(rw));
                lemma_claim_lists_agree(op0.incentive@[i].1, vd0.amount as int, total, voters, rw, paid);
            }
        }
        let mut account = self.accounts.remove(caller).unwrap();
        self.clock = now;
        let ghost oa = account;
        assert(account.wf());
        let vote_detail = account.proposals.remove(proposal_id).unwrap();
        let mut proposal = self.take_proposal(proposal_id).unwrap();
        let ghost op = proposal;
        proposal.update_status(now);
        let ghost key = reward_key(op.kind, vote_detail.action);
        let ghost pre_claim = proposal;
        match proposal.claim_reward(&vote_detail) {
            Ok(Some(reward_details)) => {
                let rewards = rewards_to_map(&reward_details);
                match account.add_rewards(&rewards) {
                    Ok(()) => {},
                    Err(e) => return Err(e),
                }
            },
            Ok(None) => {},
            Err(e) => return Err(e),
        }
        self.put_proposal(proposal_id, proposal);
        account.proposals_history.insert(proposal_id, vote_detail);
        let ghost na = account;
        let ghost removed = self.accounts;
        let ghost mid = *self;
        self.accounts.insert(caller.clone(), account);
        proof {
            let k = caller@;
            assert(pre_claim.incentive@ == op.incentive@);
            assert(total_ve(self.accounts) == total_ve(removed) + ve_of(na));
            assert(total_lpt(self.accounts) == total_lpt(removed) + lpt_of(na));
            assert forall|k2: Seq<char>| #[trigger] self.accounts@.contains_key(k2) implies self.accounts@[k2].wf() by {
                if k2 != k {
                    assert(old(self).accounts@.contains_key(k2));
                }
            }
            assert forall|k2: Seq<char>, pid: u32| #[trigger] self.accounts@.contains_key(k2)
                && #[trigger] self.accounts@[k2].proposals@.contains_key(pid) implies
                self.accounts@[k2].proposals@[pid].amount == self.accounts@[k2].ve_lpt_amount by {
                if k2 != k {
                    assert(old(self).accounts@.contains_key(k2));
                } else {
                    assert(oa.proposals@.contains_key(pid));
                }
            }
            assert(self.accounts@.dom() =~= old(self).accounts@.dom());
            assert forall|k2: Seq<char>| k2 != k && #[trigger] old(self).accounts@.contains_key(k2) implies
                self.accounts@[k2] == old(self).accounts@[k2] by {
            }
            assert forall|j: int| 0 <= j < self.proposals@.len() && #[trigger] self.proposals@[j] is Some implies
                self.proposals@[j]->Some_0.wf() && self.proposals@[j]->Some_0.id == j by {
                if j != proposal_id {
                    assert(self.proposals@[j] == old(self).proposals@[j]);
                } else {
                    assert(old(self).proposals@[j] == Some(op));
                }
            }
            assert forall|pid: u32| pid != proposal_id implies #[trigger] self.proposal(pid) == old(self).proposal(pid) by {
            }
            assert(op.status_at(now) == ProposalStatus::Expired);
            assert(self.proposal(proposal_id) == Some(proposal));
            assert(self.accounts@[k] == na);
        }
        proof {
            let k = caller@;
            assert(oa == old(self).accounts@[k]);
            assert(self.accounts@[k] == na);
            assert(na.proposals@ =~= oa.proposals@.remove(proposal_id));
            assert forall|pid: u32, b: int| #[trigger] bucket_votes(self.accounts, pid, b) == bucket_votes(old(self).accounts, pid, b)
                - vote_weight(old(self).accounts@[k], pid, b) + vote_weight(self.accounts@[k], pid, b) by {
                assert(bucket_votes(self.accounts, pid, b) == bucket_votes(removed, pid, b) + vote_weight(na, pid, b));
                assert(bucket_votes(removed, pid, b) == bucket_votes(old(self).accounts, pid, b) - vote_weight(oa, pid, b));
            }
            assert forall|pid: u32| #[trigger] self.proposal(pid) is Some && now < self.proposal(pid)->Some_0.end_at implies {
                &&& old(self).proposal(pid) is Some
                &&& old(self).proposal(pid)->Some_0.end_at == self.proposal(pid)->Some_0.end_at
                &&& old(self).proposal(pid)->Some_0.votes@.len() == self.proposal(pid)->Some_0.votes@.len()
                &&& forall|b: int| 0 <= b < self.proposal(pid)->Some_0.votes@.len() ==>
                    #[trigger] self.proposal(pid)->Some_0.votes@[b].total_ballots - old(self).proposal(pid)->Some_0.votes@[b].total_ballots
                    == vote_weight(self.accounts@[k], pid, b) - vote_weight(old(self).accounts@[k], pid, b)
            } by {
                if pid == proposal_id {
                    assert(self.proposal(pid) == Some(proposal));
                }
            }
            assert forall|pid: u32| #[trigger] self.accounts@[k].proposals@.contains_key(pid) implies
                self.proposal(pid) is Some && self.proposal(pid)->Some_0.start_at <= now by {
                assert(oa.proposals@.contains_key(pid));
                assert(old(self).accounts@.contains_key(k));
            }
            assert forall|pid: u32| #[trigger] self.proposal(pid) is Some && old(self).proposal(pid) is Some implies
                self.proposal(pid)->Some_0.start_at == old(self).proposal(pid)->Some_0.start_at by {
                if pid == proposal_id {
                    assert(self.proposal(pid) == Some(proposal));
                }
            }
            lemma_account_votes_weights(*old(self), *self, k, now);
        }
        Ok(())
    }
    /// Debits `amount` (the whole balance where None) of reward `token_id`
    /// from `caller` ahead of a transfer, and returns the amount to send. A
    /// balance that reaches zero is removed; nothing is debited for zero.
    pub fn withdraw_reward(&mut self, caller: &String, token_id: &String, amount: Option<u128>) -> (r: Result<Balance, VeError>)
        requires
            old(self).wf(),
        ensures
            *final(self) == (Contract { accounts: final(self).accounts, ..*old(self) }),
            final(self).wf(),
            !old(self).accounts@.contains_key(caller@) ==> r == Err::<Balance, VeError>(VeError::AccountNotRegistered) && *final(self) == *old(self)
                && final(self).accounts@ == old(self).accounts@,
            old(self).accounts@.contains_key(caller@) ==> {
                let oa = old(self).accounts@[caller@];
                let bal = crate::account::amount_or_zero(oa.rewards@, token_id@);
                let x: int = match amount { Some(v) => v as int, None => bal };
                if x > bal {
                    r == Err::<Balance, VeError>(VeError::InsufficientBalance) && *final(self) == *old(self) && final(self).accounts@ == old(self).accounts@
                } else {
                    let na = final(self).accounts@[caller@];
                    &&& r == Ok::<Balance, VeError>(x as u128)
                    &&& final(self).accounts@.dom() == old(self).accounts@.dom()
                    &&& forall|k2: Seq<char>| k2 != caller@ && #[trigger] old(self).accounts@.contains_key(k2) ==>
                        final(self).accounts@[k2] == old(self).accounts@[k2]
                    &&& na.same_lock(&oa)
                    &&& na.proposals@ == oa.proposals@
                    &&& na.proposals_history@ == oa.proposals_history@
                    &&& na.rewards@ == if x == 0 {
                        oa.rewards@
                    } else if bal - x > 0 {
                        oa.rewards@.insert(token_id@, (bal - x) as u128)
                    } else {
                        oa.rewards@.remove(token_id@)
                    }
                    &&& reward_holdings(*final(self), token_id@) == reward_holdings(*old(self), token_id@) - x
                }
            },
            final(self).proposals@ == old(self).proposals@,
            final(self).cur_total_ve_lpt == old(self).cur_total_ve_lpt,
            final(self).cur_lock_lpt == old(self).cur_lock_lpt,
            final(self).lostfound == old(self).lostfound,
            final(self).lostfound_rewards == old(self).lostfound_rewards,
    {
        let bal: u128 = match self.accounts.get(caller) {
            Some(a) => match a.rewards.get(token_id) {
                Some(b) => *b,
                None => 0,
            },
            None => return Err(VeError::AccountNotRegistered),
        };
        let x = match amount {
            Some(v) => v,
            None => bal,
        };
        if x > bal {
            return Err(VeError::InsufficientBalance);
        }
        if x == 0 {
            return Ok(0);
        }
        let mut account = self.accounts.remove(caller).unwrap();
        let ghost oa = account;
        let ghost removed = self.accounts;
        assert(account.wf());
        match account.sub_reward(token_id, x) {
            Ok(()) => {},
            Err(e) => return Err(e),
        }
        let ghost na = account;
        self.accounts.insert(caller.clone(), account);
        proof {
            let k = caller@;
            let t = token_id@;
            assert(total_ve(self.accounts) == total_ve(removed) + ve_of(na));
            assert(total_lpt(self.accounts) == total_lpt(removed) + lpt_of(na));
            assert(total_ve(removed) == total_ve(old(self).accounts) - ve_of(oa));
            assert(total_lpt(removed) == total_lpt(old(self).accounts) - lpt_of(oa));
            assert(self.accounts.sum(|a: Account| reward_of(a, t)) == removed.sum(|a: Account| reward_of(a, t)) + reward_of(na, t));
            assert(removed.sum(|a: Account| reward_of(a, t)) == old(self).accounts.sum(|a: Account| reward_of(a, t)) - reward_of(oa, t));
            assert(reward_of(na, t) == reward_of(oa, t) - x);
            assert forall|k2: Seq<char>| #[trigger] self.accounts@.contains_key(k2) implies self.accounts@[k2].wf() by {
                if k2 != k {
                    assert(old(self).accounts@.contains_key(k2));
                }
            }
            assert forall|k2: Seq<char>, pid: u32| #[trigger] self.accounts@.contains_key(k2)
                && #[trigger] self.accounts@[k2].proposals@.contains_key(pid) implies
                self.accounts@[k2].proposals@[pid].amount == self.accounts@[k2].ve_lpt_amount by {
                if k2 != k {
                    assert(old(self).accounts@.contains_key(k2));
                } else {
                    assert(oa.proposals@.contains_key(pid));
                }
            }
            assert(self.accounts@.dom() =~= old(self).accounts@.dom());
            assert forall|k2: Seq<char>| k2 != k && #[trigger] old(self).accounts@.contains_key(k2) implies
                self.accounts@[k2] == old(self).accounts@[k2] by {
            }
            assert(self.accounts@[k] == na);
            assert forall|kk: Seq<char>, pid: u32| #[trigger] self.accounts@.contains_key(kk)
                && #[trigger] self.accounts@[kk].proposals@.contains_key(pid) implies
                self.proposal(pid) is Some && self.proposal(pid)->Some_0.start_at <= self.clock by {
                if kk != k {
                    assert(old(self).accounts@.contains_key(kk));
                } else {
                    assert(oa.proposals@.contains_key(pid));
                }
            }
            assert forall|pid: u32, b: int| #![trigger bucket_votes(self.accounts, pid, b)]
                self.proposal(pid) is Some && self.clock < self.proposal(pid)->Some_0.end_at
                && 0 <= b < self.proposal(pid)->Some_0.votes@.len() implies
                self.proposal(pid)->Some_0.votes@[b].total_ballots == bucket_votes(self.accounts, pid, b) by {
                assert(bucket_votes(self.accounts, pid, b) == bucket_votes(removed, pid, b) + vote_weight(na, pid, b));
                assert(bucket_votes(removed, pid, b) == bucket_votes(old(self).accounts, pid, b) - vote_weight(oa, pid, b));
                assert(bucket_votes(old(self).accounts, pid, b) == bucket_votes(old(self).accounts, pid, b));
            }
        }
        Ok(x)
    }

    /// Continuation of a reward transfer of `amount` of `token_id` to
    /// `sender_id`. Where it failed, the amount goes back to the account's
    /// rewards, or to the lost-and-found of rewards where the account is
    /// gone. Where it succeeded nothing changes.
    pub fn callback_post_withdraw_reward(&mut self, token_id: &String, sender_id: &String, amount: Balance, success: bool) -> (r: Result<(), VeError>)
        requires
            old(self).wf(),
        ensures
            *final(self) == (Contract { accounts: final(self).accounts, lostfound_rewards: final(self).lostfound_rewards, ..*old(self) }),
            final(self).wf(),
            final(self).proposals@ == old(self).proposals@,
            final(self).cur_total_ve_lpt == old(self).cur_total_ve_lpt,
            final(self).cur_lock_lpt == old(self).cur_lock_lpt,
            final(self).lostfound == old(self).lostfound,
            success ==> r == Ok::<(), VeError>(()) && final(self).accounts@ == old(self).accounts@
                && final(self).lostfound_rewards@ == old(self).lostfound_rewards@,
            !success ==> {
                let fits = if old(self).accounts@.contains_key(sender_id@) {
                    reward_of(old(self).accounts@[sender_id@], token_id@) + amount <= u128::MAX
                } else {
                    crate::account::amount_or_zero(old(self).lostfound_rewards@, token_id@) + amount <= u128::MAX
                };
                if fits {
                    &&& r == Ok::<(), VeError>(())
                    &&& reward_holdings(*final(self), token_id@) == reward_holdings(*old(self), token_id@) + amount
                    &&& old(self).accounts@.contains_key(sender_id@) ==> {
                        let oa = old(self).accounts@[sender_id@];
                        let na = final(self).accounts@[sender_id@];
                        &&& final(self).lostfound_rewards@ == old(self).lostfound_rewards@
                        &&& final(self).accounts@.dom() == old(self).accounts@.dom()
                        &&& forall|k2: Seq<char>| k2 != sender_id@ && #[trigger] old(self).accounts@.contains_key(k2) ==>
                            final(self).accounts@[k2] == old(self).accounts@[k2]
                        &&& na.same_lock(&oa)
                        &&& na.proposals@ == oa.proposals@
                        &&& na.rewards@ == oa.rewards@.insert(token_id@, (reward_of(oa, token_id@) + amount) as u128)
                    }
                    &&& !old(self).accounts@.contains_key(sender_id@) ==> {
                        &&& final(self).accounts@ == old(self).accounts@
                        &&& final(self).lostfound_rewards@ == old(self).lostfound_rewards@.insert(token_id@,
                            (crate::account::amount_or_zero(old(self).lostfound_rewards@, token_id@) + amount) as u128)
                    }
                } else {
                    r == Err::<(), VeError>(VeError::Overflow) && final(self).accounts@ == old(self).accounts@
                        && final(self).lostfound_rewards@ == old(self).lostfound_rewards@
                }
            },
    {
        if success {
            return Ok(());
        }
        if !self.accounts.contains_key(sender_id) {
            let cur: u128 = match self.lostfound_rewards.get(token_id) {
                Some(c) => *c,
                None => 0,
            };
            if cur > u128::MAX - amount {
                return Err(VeError::Overflow);
            }
            let ghost before = self.lostfound_rewards;
            self.lostfound_rewards.insert(token_id.clone(), cur + amount);
            return Ok(());
        }
        let cur: u128 = match self.accounts.get(sender_id) {
            Some(a) => match a.rewards.get(token_id) {
                Some(c) => *c,
                None => 0,
            },
            None => 0,
        };
        if cur > u128::MAX - amount {
            return Err(VeError::Overflow);
        }
        let mut account = self.accounts.remove(sender_id).unwrap();
        let ghost oa = account;
        let ghost removed = self.accounts;
        assert(account.wf());
        account.rewards.insert(token_id.clone(), cur + amount);
        let ghost na = account;
        self.accounts.insert(sender_id.clone(), account);
        proof {
            let k = sender_id@;
            let t = token_id@;
            assert(total_ve(self.accounts) == total_ve(removed) + ve_of(na));
            assert(total_lpt(self.accounts) == total_lpt(removed) + lpt_of(na));
            assert(total_ve(removed) == total_ve(old(self).accounts) - ve_of(oa));
            assert(total_lpt(removed) == total_lpt(old(self).accounts) - lpt_of(oa));
            assert(self.accounts.sum(|a: Account| reward_of(a, t)) == removed.sum(|a: Account| reward_of(a, t)) + reward_of(na, t));
            assert(removed.sum(|a: Account| reward_of(a, t)) == old(self).accounts.sum(|a: Account| reward_of(a, t)) - reward_of(oa, t));
            assert forall|k2: Seq<char>| #[trigger] self.accounts@.contains_key(k2) implies self.accounts@[k2].wf() by {
                if k2 != k {
                    assert(old(self).accounts@.contains_key(k2));
                }
            }
            assert forall|k2: Seq<char>, pid: u32| #[trigger] self.accounts@.contains_key(k2)
                && #[trigger] self.accounts@[k2].proposals@.contains_key(pid) implies
                self.accounts@[k2].proposals@[pid].amount == self.accounts@[k2].ve_lpt_amount by {
                if k2 != k {
                    assert(old(self).accounts@.contains_key(k2));
                } else {
                    assert(oa.proposals@.contains_key(pid));
                }
            }
            assert(self.accounts@.dom() =~= old(self).accounts@.dom());
            assert forall|k2: Seq<char>| k2 != k && #[trigger] old(self).accounts@.contains_key(k2) implies
                self.accounts@[k2] == old(self).accounts@[k2] by {
            }
            assert(self.accounts@[k] == na);
            assert forall|kk: Seq<char>, pid: u32| #[trigger] self.accounts@.contains_key(kk)
                && #[trigger] self.accounts@[kk].proposals@.contains_key(pid) implies
                self.proposal(pid) is Some && self.proposal(pid)->Some_0.start_at <= self.clock by {
                if kk != k {
                    assert(old(self).accounts@.contains_key(kk));
                } else {
                    assert(oa.proposals@.contains_key(pid));
                }
            }
            assert forall|pid: u32, b: int| #![trigger bucket_votes(self.accounts, pid, b)]
                self.proposal(pid) is Some && self.clock < self.proposal(pid)->Some_0.end_at
                && 0 <= b < self.proposal(pid)->Some_0.votes@.len() implies
                self.proposal(pid)->Some_0.votes@[b].total_ballots == bucket_votes(self.accounts, pid, b) by {
                assert(bucket_votes(self.accounts, pid, b) == bucket_votes(removed, pid, b) + vote_weight(na, pid, b));
                assert(bucket_votes(removed, pid, b) == bucket_votes(old(self).accounts, pid, b) - vote_weight(oa, pid, b));
                assert(bucket_votes(old(self).accounts, pid, b) == bucket_votes(old(self).accounts, pid, b));
            }
        }
        Ok(())
    }

    /// Continuation of the transfer of `amount` withdrawn locked tokens.
    /// Where it failed, the amount goes to the lost-and-found pool.
    pub fn callback_withdraw_lpt(&mut self, sender_id: &String, amount: Balance, success: bool) -> (r: Result<(), VeError>)
        requires
            old(self).wf(),
        ensures
            *final(self) == (Contract { lostfound: final(self).lostfound, ..*old(self) }),
            final(self).wf(),
            final(self).accounts@ == old(self).accounts@,
            final(self).proposals@ == old(self).proposals@,
            final(self).cur_lock_lpt == old(self).cur_lock_lpt,
            final(self).cur_total_ve_lpt == old(self).cur_total_ve_lpt,
            success ==> r == Ok::<(), VeError>(()) && final(self).lostfound == old(self).lostfound,
            !success && old(self).lostfound + amount <= u128::MAX ==> r == Ok::<(), VeError>(())
                && final(self).lostfound == old(self).lostfound + amount,
            !success && old(self).lostfound + amount > u128::MAX ==> r == Err::<(), VeError>(VeError::Overflow)
                && final(self).lostfound == old(self).lostfound,
    {
        if success {
            return Ok(());
        }
        match self.lostfound.checked_add(amount) {
            Some(v) => {
                self.lostfound = v;
                Ok(())
            },
            None => Err(VeError::Overflow),
        }
    }
    /// Why `proposer` may not open a proposal with a description of
    /// `description_len` bytes, this start (in seconds) and duration at `now`,
    /// if it may not.
    pub open spec fn create_refusal(&self, proposer: Seq<char>, description_len: int, start_at: int, duration_sec: int, now: Timestamp) -> Option<VeError> {
        if !self.whitelisted_accounts@.contains_key(proposer) {
            Some(VeError::NotAllowed)
        } else if description_len > DESCRIPTION_LIMIT {
            Some(VeError::DescriptionTooLong)
        } else if !self.accounts@.contains_key(proposer) {
            Some(VeError::AccountNotRegistered)
        } else if duration_sec < self.config.min_voting_duration_sec || duration_sec > self.config.max_voting_duration_sec {
            Some(VeError::InvalidDuration)
        } else if start_at < ((now / NANOS_PER_SEC) as u32)
            || start_at - ((now / NANOS_PER_SEC) as u32) < self.config.min_proposal_start_vote_offset_sec {
            Some(VeError::InvalidStartTime)
        } else if start_at + duration_sec > u32::MAX || self.proposals@.len() >= u32::MAX {
            Some(VeError::Overflow)
        } else {
            None
        }
    }

    /// Opens a proposal of `kind` by `proposer`, voting from `start_at` (in
    /// seconds) for `duration_sec` seconds; returns its id, the next free one.
    pub fn create_proposal(
        &mut self,
        proposer: &String,
        kind: ProposalKind,
        description: String,
        start_at: u32,
        duration_sec: u32,
        now: Timestamp,
    ) -> (r: Result<u32, VeError>)
        requires
            old(self).wf(),
        ensures
            final(self).wf(),
            final(self).accounts@ == old(self).accounts@,
            final(self).cur_total_ve_lpt == old(self).cur_total_ve_lpt,
            match old(self).create_refusal(proposer@, utf8_len(description@), start_at as int, duration_sec as int, now) {
                Some(e) => r == Err::<u32, VeError>(e) && *final(self) == *old(self) && final(self).proposals@ == old(self).proposals@,
                None => {
                    let id = old(self).proposals@.len();
                    let p = final(self).proposals@[id as int]->Some_0;
                    &&& r == Ok::<u32, VeError>(id as u32)
                    &&& final(self).proposals@.len() == id + 1
                    &&& final(self).proposals@.drop_last() == old(self).proposals@
                    &&& final(self).proposals@[id as int] is Some
                    &&& p.id == id
                    &&& p.proposer@ == proposer@
                    &&& p.description == description
                    &&& p.kind == kind
                    &&& p.votes@.len() == kind.bucket_count()
                    &&& forall|b: int| 0 <= b < p.votes@.len() ==> #[trigger] p.votes@[b] == (VoteInfo { total_ballots: 0, participants: 0 })
                    &&& p.participants == 0
                    &&& p.incentive@.len() == 0
                    &&& p.start_at == start_at * NANOS_PER_SEC
                    &&& p.end_at == (start_at + duration_sec) * NANOS_PER_SEC
                    &&& p.ve_amount_at_last_action == old(self).cur_total_ve_lpt
                    &&& p.status is None
                },
            },
    {
        if !self.whitelisted_accounts.contains_key(proposer) {
            return Err(VeError::NotAllowed);
        }
        let text: &str = description.as_str();
        let description_len = text.len();
        assert(description_len == utf8_len(description@));
        if description_len > DESCRIPTION_LIMIT {
            return Err(VeError::DescriptionTooLong);
        }
        if !self.accounts.contains_key(proposer) {
            return Err(VeError::AccountNotRegistered);
        }
        let config = self.config;
        if duration_sec < config.min_voting_duration_sec || duration_sec > config.max_voting_duration_sec {
            return Err(VeError::InvalidDuration);
        }
        let now_sec = nano_to_sec(now);
        if start_at < now_sec || start_at - now_sec < config.min_proposal_start_vote_offset_sec {
            return Err(VeError::InvalidStartTime);
        }
        let end_sec = match start_at.checked_add(duration_sec) {
            Some(e) => e,
            None => return Err(VeError::Overflow),
        };
        if self.proposals.len() >= u32::MAX as usize {
            return Err(VeError::Overflow);
        }
        let id = self.proposals.len() as u32;
        let n = kind.bucket_len();
        let mut votes: Vec<VoteInfo> = Vec::new();
        let mut i: usize = 0;
        while i < n
            invariant
                i <= n,
                votes@.len() == i,
                forall|b: int| 0 <= b < i ==> #[trigger] votes@[b] == (VoteInfo { total_ballots: 0, participants: 0 }),
            decreases n - i,
        {
            votes.push(VoteInfo { total_ballots: 0, participants: 0 });
            i = i + 1;
        }
        let proposal = Proposal {
            id,
            description,
            proposer: proposer.clone(),
            kind,
            votes,
            ve_amount_at_last_action: self.cur_total_ve_lpt,
            start_at: to_nano(start_at),
            end_at: to_nano(end_sec),
            participants: 0,
            incentive: Vec::new(),
            status: None,
            is_nonsense: None,
            farming_reward: None,
        };
        let ghost before = self.proposals@;
        self.proposals.push(Some(proposal));
        proof {
            assert(self.proposals@.drop_last() =~= before);
            assert(proposal.wf());
            assert forall|j: int| 0 <= j < self.proposals@.len() && #[trigger] self.proposals@[j] is Some implies
                self.proposals@[j]->Some_0.wf() && self.proposals@[j]->Some_0.id == j by {
                if j < before.len() {
                    assert(self.proposals@[j] == before[j]);
                }
            }
            assert forall|pid: u32| pid != id implies #[trigger] self.proposal(pid) == old(self).proposal(pid) by {
                if pid < before.len() {
                    assert(self.proposals@[pid as int] == before[pid as int]);
                }
            }
            assert forall|k: Seq<char>, pid: u32| #[trigger] self.accounts@.contains_key(k)
                && #[trigger] self.accounts@[k].proposals@.contains_key(pid) implies
                self.proposal(pid) is Some && self.proposal(pid)->Some_0.start_at <= self.clock by {
                assert(old(self).proposal(pid) is Some);
                assert(pid != id);
            }
            assert forall|pid: u32, b: int| #![trigger bucket_votes(self.accounts, pid, b)]
                self.proposal(pid) is Some && self.clock < self.proposal(pid)->Some_0.end_at
                && 0 <= b < self.proposal(pid)->Some_0.votes@.len() implies
                self.proposal(pid)->Some_0.votes@[b].total_ballots == bucket_votes(self.accounts, pid, b) by {
                if pid == id {
                    assert forall|k: Seq<char>| #[trigger] self.accounts@.contains_key(k) implies
                        vote_weight(self.accounts@[k], pid, b) == 0 by {
                        if self.accounts@[k].proposals@.contains_key(pid) {
                            assert(old(self).proposal(pid) is Some);
                        }
                    }
                    self.accounts.lemma_sum_all_zero(|a: Account| vote_weight(a, pid, b));
                    assert(self.proposals@[id as int] == Some(proposal));
                } else {
                    assert(bucket_votes(old(self).accounts, pid, b) == bucket_votes(old(self).accounts, pid, b));
                }
            }
        }
        Ok(id)
    }

    /// Why an incentive of `token_id` may not be added for bucket
    /// `incentive_key` of `proposal_id` at `now`, if it may not: a
    /// farming-reward pool takes whitelisted tokens and the farm's own.
    pub open spec fn deposit_refusal(&self, proposal_id: u32, incentive_key: u32, token_id: Seq<char>, now: Timestamp) -> Option<VeError> {
        match self.proposal(proposal_id) {
            None => Some(VeError::ProposalNotExist),
            Some(p) => if p.status_at(now) == ProposalStatus::Expired {
                Some(VeError::ExpiredProposal)
            } else {
                match p.kind {
                    ProposalKind::Poll { .. } => if incentive_key != 0 {
                        Some(VeError::InvalidIncentiveKey)
                    } else if !self.whitelisted_incentive_tokens@.contains_key(token_id) {
                        Some(VeError::InvalidIncentiveToken)
                    } else {
                        None
                    },
                    ProposalKind::FarmingReward { farm_list, .. } => if incentive_key >= farm_list@.len() {
                        Some(VeError::InvalidIncentiveKey)
                    } else if !self.whitelisted_incentive_tokens@.contains_key(token_id)
                        && !farm_lists_token(farm_list@[incentive_key as int]@, token_id) {
                        Some(VeError::InvalidIncentiveToken)
                    } else {
                        None
                    },
                    ProposalKind::Common => Some(VeError::ProposalNotSupportIncentive),
                }
            },
        }
    }

    /// Adds `amount` of `token_id` to the pool of bucket `incentive_key` of
    /// `proposal_id` (a new pool is shared as `incentive_type` says), before
    /// the proposal expires; returns what the pool then holds of that token
    /// and when voting starts.
    pub fn internal_deposit_reward(
        &mut self,
        proposal_id: u32,
        incentive_key: u32,
        incentive_type: IncentiveType,
        token_id: &String,
        amount: Balance,
        now: Timestamp,
    ) -> (r: Result<(Balance, Timestamp), VeError>)
        requires
            old(self).wf(),
        ensures
            final(self).wf(),
            final(self).accounts@ == old(self).accounts@,
            final(self).cur_total_ve_lpt == old(self).cur_total_ve_lpt,
            final(self).proposals@.len() == old(self).proposals@.len(),
            forall|pid: u32| pid != proposal_id ==> #[trigger] final(self).proposal(pid) == old(self).proposal(pid),
            match old(self).deposit_refusal(proposal_id, incentive_key, token_id@, now) {
                Some(e) => r == Err::<(Balance, Timestamp), VeError>(e) && *final(self) == *old(self) && final(self).proposals@ == old(self).proposals@,
                None => {
                    let op = old(self).proposal(proposal_id)->Some_0;
                    let np = final(self).proposal(proposal_id)->Some_0;
                    match deposit_problem(op.incentive@, incentive_key, incentive_type, token_id@, amount as int) {
                        Some(e) => r == Err::<(Balance, Timestamp), VeError>(e) && *final(self) == *old(self),
                        None => {
                            &&& final(self).proposal(proposal_id) is Some
                            &&& np.votes@ == op.votes@
                            &&& r is Ok
                            &&& r->Ok_0.1 == op.start_at
                            &&& crate::incentive::deposit_applied(op.incentive@, np.incentive@, incentive_key, incentive_type,
                                *token_id, amount as int, r->Ok_0.0 as int)
                        },
                    }
                },
            },
    {
        if (proposal_id as usize) >= self.proposals.len() {
            return Err(VeError::ProposalNotExist);
        }
        match &self.proposals[proposal_id as usize] {
            None => return Err(VeError::ProposalNotExist),
            Some(p) => {
                if now >= p.start_at && now >= p.end_at {
                    return Err(VeError::ExpiredProposal);
                }
                match &p.kind {
                    ProposalKind::Poll { .. } => {
                        if incentive_key != 0 {
                            return Err(VeError::InvalidIncentiveKey);
                        }
                    },
                    ProposalKind::FarmingReward { farm_list, .. } => {
                        if incentive_key as usize >= farm_list.len() {
                            return Err(VeError::InvalidIncentiveKey);
                        }
                        if !self.whitelisted_incentive_tokens.contains_key(token_id)
                            && !farm_has_token(&farm_list[incentive_key as usize], token_id) {
                            return Err(VeError::InvalidIncentiveToken);
                        }
                    },
                    ProposalKind::Common => return Err(VeError::ProposalNotSupportIncentive),
                }
                if !self.whitelisted_incentive_tokens.contains_key(token_id) {
                    match &p.kind {
                        ProposalKind::Poll { .. } => return Err(VeError::InvalidIncentiveToken),
                        _ => {},
                    }
                }
                assert(old(self).proposals@[proposal_id as int] is Some);
                match p.deposit_check(incentive_key, incentive_type, token_id, amount) {
                    Some(e) => return Err(e),
                    None => {},
                }
            },
        }
        let mut proposal = self.take_proposal(proposal_id).unwrap();
        let ghost op = proposal;
        let ghost taken = self.proposals@;
        proposal.update_status(now);
        let start_at = proposal.start_at;
        let total = match proposal.deposit_reward(incentive_key, incentive_type, token_id, amount) {
            Ok(t) => t,
            Err(e) => {
                self.put_proposal(proposal_id, proposal);
                proof {
                    assert forall|j: int| 0 <= j < self.proposals@.len() && #[trigger] self.proposals@[j] is Some implies
                        self.proposals@[j]->Some_0.wf() && self.proposals@[j]->Some_0.id == j by {
                        if j != proposal_id {
                            assert(self.proposals@[j] == old(self).proposals@[j]);
                        } else {
                            assert(old(self).proposals@[j] == Some(op));
                        }
                    }
                    assert forall|pid: u32| pid != proposal_id implies #[trigger] self.proposal(pid) == old(self).proposal(pid) by {
                    }
                }
                return Err(e);
            },
        };
        self.put_proposal(proposal_id, proposal);
        proof {
            assert forall|j: int| 0 <= j < self.proposals@.len() && #[trigger] self.proposals@[j] is Some implies
                self.proposals@[j]->Some_0.wf() && self.proposals@[j]->Some_0.id == j by {
                if j != proposal_id {
                    assert(self.proposals@[j] == old(self).proposals@[j]);
                } else {
                    assert(old(self).proposals@[j] == Some(op));
                }
            }
            assert forall|pid: u32| pid != proposal_id implies #[trigger] self.proposal(pid) == old(self).proposal(pid) by {
            }
        }
        Ok((total, start_at))
    }
    /// Removes proposal `proposal_id` at `caller`'s request while it is
    /// still warming up, moving its incentives to the pool of removed
    /// assets; returns whether it was removed.
    pub fn remove_proposal(&mut self, caller: &String, proposal_id: u32, now: Timestamp) -> (r: Result<bool, VeError>)
        requires
            old(self).wf(),
            now >= old(self).clock,
        ensures
            final(self).wf(),
            final(self).accounts@ == old(self).accounts@,
            final(self).cur_total_ve_lpt == old(self).cur_total_ve_lpt,
            final(self).proposals@.len() == old(self).proposals@.len(),
            old(self).proposal(proposal_id) is None ==> r == Err::<bool, VeError>(VeError::ProposalNotExist)
                && *final(self) == *old(self),
            old(self).proposal(proposal_id) is Some ==> {
                let op = old(self).proposal(proposal_id)->Some_0;
                if op.proposer@ != caller@ {
                    r == Err::<bool, VeError>(VeError::NotAllowed) && *final(self) == *old(self) && final(self).proposals@ == old(self).proposals@
                } else if op.status_at(now) != ProposalStatus::WarmUp {
                    r == Ok::<bool, VeError>(false) && *final(self) == *old(self) && final(self).proposals@ == old(self).proposals@
                        && final(self).removed_proposal_assets@ == old(self).removed_proposal_assets@
                } else if exists|t: Seq<char>| crate::account::amount_or_zero(old(self).removed_proposal_assets@, t)
                    + #[trigger] pools_total(op.incentive@, t, op.incentive@.len() as int) > u128::MAX {
                    r == Err::<bool, VeError>(VeError::Overflow) && *final(self) == *old(self)
                } else {
                    {
                        &&& r == Ok::<bool, VeError>(true)
                        &&& final(self).proposals@ == old(self).proposals@.update(proposal_id as int, None)
                        &&& forall|t: Seq<char>| #[trigger] crate::account::amount_or_zero(final(self).removed_proposal_assets@, t)
                            == crate::account::amount_or_zero(old(self).removed_proposal_assets@, t)
                            + pools_total(op.incentive@, t, op.incentive@.len() as int)
                    }
                }
            },
    {
        if (proposal_id as usize) >= self.proposals.len() {
            return Err(VeError::ProposalNotExist);
        }
        match &self.proposals[proposal_id as usize] {
            None => return Err(VeError::ProposalNotExist),
            Some(p) => {
                if p.proposer != *caller {
                    return Err(VeError::NotAllowed);
                }
                if now >= p.start_at {
                    return Ok(false);
                }
            },
        }
        assert(old(self).proposals@[proposal_id as int] is Some);
        let sums = match &self.proposals[proposal_id as usize] {
            Some(p) => {
                assert(p.wf());
                pools_sum(&p.incentive)
            },
            None => None,
        };
        let ghost op0 = old(self).proposal(proposal_id)->Some_0;
        let sums = match sums {
            Some(m) => m,
            None => {
                proof {
                    let t = choose|t: Seq<char>| #[trigger] pools_total(op0.incentive@, t, op0.incentive@.len() as int) > u128::MAX;
                    assert(crate::account::amount_or_zero(old(self).removed_proposal_assets@, t)
                        + pools_total(op0.incentive@, t, op0.incentive@.len() as int) > u128::MAX);
                }
                return Err(VeError::Overflow);
            },
        };
        let n = sums.len();
        let mut q: usize = 0;
        while q < n
            invariant
                n == sums.len_spec(),
                q <= n,
                sums.wf(),
                *self == *old(self),
                old(self).wf(),
                old(self).proposal(proposal_id) is Some,
                op0 == old(self).proposal(proposal_id)->Some_0,
                op0.proposer@ == caller@,
                now < op0.start_at,
                forall|t: Seq<char>| #[trigger] crate::account::amount_or_zero(sums@, t)
                    == pools_total(op0.incentive@, t, op0.incentive@.len() as int),
                forall|j: int| 0 <= j < q ==> crate::account::amount_or_zero(self.removed_proposal_assets@, #[trigger] sums.key_at(j))
                    + sums@[sums.key_at(j)] <= u128::MAX,
            decreases n - q,
        {
            let (t, v) = sums.entry_at(q);
            let cur: u128 = match self.removed_proposal_assets.get(t) {
                Some(c) => *c,
                None => 0,
            };
            if cur > u128::MAX - *v {
                proof {
                    assert(crate::account::amount_or_zero(sums@, t@) == *v);
                    assert(crate::account::amount_or_zero(old(self).removed_proposal_assets@, t@)
                        + pools_total(op0.incentive@, t@, op0.incentive@.len() as int) > u128::MAX);
                }
                return Err(VeError::Overflow);
            }
            q = q + 1;
        }
        proof {
            sums.lemma_keys();
            assert forall|t: Seq<char>| crate::account::amount_or_zero(old(self).removed_proposal_assets@, t)
                + #[trigger] pools_total(op0.incentive@, t, op0.incentive@.len() as int) <= u128::MAX by {
                assert(crate::account::amount_or_zero(sums@, t) == pools_total(op0.incentive@, t, op0.incentive@.len() as int));
                if sums@.contains_key(t) {
                    let j = choose|j: int| 0 <= j < sums.len_spec() && sums.key_at(j) == t;
                }
            }
        }
        let proposal = self.take_proposal(proposal_id).unwrap();
        proof {
            assert forall|pid: u32| pid != proposal_id implies #[trigger] self.proposal(pid) == old(self).proposal(pid) by {
                if pid < self.proposals@.len() {
                    assert(self.proposals@[pid as int] == old(self).proposals@[pid as int]);
                }
            }
            assert forall|k: Seq<char>, pid: u32| #[trigger] self.accounts@.contains_key(k)
                && #[trigger] self.accounts@[k].proposals@.contains_key(pid) implies
                self.proposal(pid) is Some && self.proposal(pid)->Some_0.start_at <= self.clock by {
                assert(old(self).proposal(pid) is Some);
                if pid == proposal_id {
                    assert(old(self).proposal(pid)->Some_0.start_at <= old(self).clock);
                }
            }
            assert forall|pid: u32, b: int| #![trigger bucket_votes(self.accounts, pid, b)]
                self.proposal(pid) is Some && self.clock < self.proposal(pid)->Some_0.end_at
                && 0 <= b < self.proposal(pid)->Some_0.votes@.len() implies
                self.proposal(pid)->Some_0.votes@[b].total_ballots == bucket_votes(self.accounts, pid, b) by {
                assert(pid != proposal_id);
                assert(bucket_votes(old(self).accounts, pid, b) == bucket_votes(old(self).accounts, pid, b));
            }
            assert forall|jj: int| 0 <= jj < self.proposals@.len() && #[trigger] self.proposals@[jj] is Some implies
                self.proposals@[jj]->Some_0.wf() && self.proposals@[jj]->Some_0.id == jj by {
                assert(self.proposals@[jj] == old(self).proposals@[jj]);
            }
        }
        let ghost base = self.removed_proposal_assets@;
        let mut i: usize = 0;
        while i < proposal.incentive.len()
            invariant
                i <= proposal.incentive@.len(),
                self.removed_proposal_assets.wf(),
                proposal.wf(),
                self.frame_eq_but_removed(old(self)),
                self.votes_started(),
                self.weights_match(),
                proposal_id < old(self).proposals@.len(),
                self.props_wf(),
                old(self).wf(),
                old(self).proposal(proposal_id) == Some(proposal),
                proposal.proposer@ == caller@,
                now < proposal.start_at,
                forall|t: Seq<char>| crate::account::amount_or_zero(base, t)
                    + #[trigger] pools_total(proposal.incentive@, t, proposal.incentive@.len() as int) <= u128::MAX,
                self.proposals@ == old(self).proposals@.update(proposal_id as int, None),
                forall|t: Seq<char>| #[trigger] crate::account::amount_or_zero(self.removed_proposal_assets@, t)
                    == crate::account::amount_or_zero(base, t) + pools_total(proposal.incentive@, t, i as int),
                base == old(self).removed_proposal_assets@,
            decreases proposal.incentive@.len() - i,
        {
            let item = &proposal.incentive[i].1;
            assert(item.wf());
            let ghost mid = self.removed_proposal_assets@;
            let mut j: usize = 0;
            while j < item.incentive_token_ids.len()
                invariant
                    j <= item.incentive_token_ids@.len(),
                    item.wf(),
                    self.removed_proposal_assets.wf(),
                    self.frame_eq_but_removed(old(self)),
                    self.votes_started(),
                    self.weights_match(),
                    proposal_id < old(self).proposals@.len(),
                    self.props_wf(),
                    old(self).wf(),
                    old(self).proposal(proposal_id) == Some(proposal),
                    proposal.proposer@ == caller@,
                    now < proposal.start_at,
                    forall|t: Seq<char>| crate::account::amount_or_zero(base, t)
                        + #[trigger] pools_total(proposal.incentive@, t, proposal.incentive@.len() as int) <= u128::MAX,
                    i < proposal.incentive@.len(),
                    *item == proposal.incentive@[i as int].1,
                    base == old(self).removed_proposal_assets@,
                    forall|t: Seq<char>| #[trigger] crate::account::amount_or_zero(mid, t)
                        == crate::account::amount_or_zero(base, t) + pools_total(proposal.incentive@, t, i as int),
                    self.proposals@ == old(self).proposals@.update(proposal_id as int, None),
                    forall|t: Seq<char>| #[trigger] crate::account::amount_or_zero(self.removed_proposal_assets@, t)
                        == crate::account::amount_or_zero(mid, t)
                        + token_total(item.incentive_token_ids@, item.incentive_amounts@, t, j as int),
                decreases item.incentive_token_ids@.len() - j,
            {
                match add_to_pool(&mut self.removed_proposal_assets, &item.incentive_token_ids[j], item.incentive_amounts[j]) {
                    Ok(()) => {},
                    Err(e) => {
                        proof {
                            let t = item.incentive_token_ids@[j as int]@;
                            lemma_token_total_mono(item.incentive_token_ids@, item.incentive_amounts@, t, j as int + 1,
                                item.incentive_token_ids@.len() as int);
                            lemma_pools_total_mono(proposal.incentive@, t, i as int + 1, proposal.incentive@.len() as int);
                            assert(pools_total(proposal.incentive@, t, i as int + 1) == pools_total(proposal.incentive@, t, i as int)
                                + token_total(item.incentive_token_ids@, item.incentive_amounts@, t, item.incentive_token_ids@.len() as int));
                            assert(crate::account::amount_or_zero(base, t) + pools_total(proposal.incentive@, t, proposal.incentive@.len() as int) <= u128::MAX);
                        }
                        return Err(e);
                    },
                }
                j = j + 1;
            }
            i = i + 1;
        }
        Ok(true)
    }
    /// Settles all of `caller`'s votes on expired proposals and debits all
    /// of its reward balances ahead of their transfers; returns each token
    /// and amount to send.
    pub fn claim_and_withdraw_all(&mut self, caller: &String, now: Timestamp) -> (r: Result<Vec<(String, Balance)>, VeError>)
        requires
            old(self).wf(),
            now >= old(self).clock,
        ensures
            !old(self).accounts@.contains_key(caller@) ==> r == Err::<Vec<(String, Balance)>, VeError>(VeError::AccountNotRegistered) && *final(self) == *old(self)
                && final(self).accounts@ == old(self).accounts@ && final(self).wf(),
            old(self).accounts@.contains_key(caller@) && r is Err ==> inconsistency(r->Err_0)
                && old(self).propagation_blocked(old(self).accounts@[caller@], 0, true, now),
            r is Ok ==> final(self).wf(),
            r is Ok ==> final(self).accounts@.dom() == old(self).accounts@.dom(),
            r is Ok ==> final(self).accounts@[caller@].same_lock(&old(self).accounts@[caller@]),
            r is Ok ==> final(self).accounts@[caller@].rewards@ == Map::<Seq<char>, u128>::empty(),
            r is Ok ==> forall|k2: Seq<char>| k2 != caller@ && #[trigger] old(self).accounts@.contains_key(k2) ==>
                final(self).accounts@[k2] == old(self).accounts@[k2],
            r is Ok ==> forall|pid: u32| #[trigger] old(self).accounts@[caller@].proposals@.contains_key(pid) ==> impacted(
                old(self).proposal(pid), final(self).proposal(pid), pid, old(self).accounts@[caller@].proposals@[pid],
                final(self).accounts@[caller@].proposals@, final(self).accounts@[caller@].proposals_history@, 0, true, now, final(self).cur_total_ve_lpt),
            r is Ok ==> forall|i: int, j: int| 0 <= i < j < r->Ok_0@.len() ==> r->Ok_0@[i].0@ != r->Ok_0@[j].0@,
            r is Ok ==> forall|t: Seq<char>| #[trigger] crate::account::amount_or_zero(list_map(r->Ok_0@), t)
                == crate::account::amount_or_zero(old(self).accounts@[caller@].rewards@, t)
                + expired_credit(old(self).proposals@, old(self).accounts@[caller@].proposals,
                    old(self).accounts@[caller@].proposals.len_spec() as int, t, now),
    {
        if !self.accounts.contains_key(caller) {
            return Err(VeError::AccountNotRegistered);
        }
        let mut account = self.accounts.remove(caller).unwrap();
        let ghost oa = account;
        assert(account.wf());
        self.clock = now;
        let ghost pre_self = *self;
        match self.internal_claim_all(&mut account, now) {
            Ok(()) => {},
            Err(e) => {
                proof {
                    lemma_blocked_transfer(pre_self, *old(self), oa, old(self).accounts@[caller@], 0, true, now);
                }
                return Err(e);
            },
        }
        let ghost mid = *self;
        let ghost after_claim = account;
        let transfers = account.rewards.to_vec();
        account.rewards = StrMap::new();
        let ghost na = account;
        let ghost removed = self.accounts;
        self.accounts.insert(caller.clone(), account);
        proof {
            let k = caller@;
            assert(total_ve(self.accounts) == total_ve(removed) + ve_of(na));
            assert(total_lpt(self.accounts) == total_lpt(removed) + lpt_of(na));
            assert forall|k2: Seq<char>| #[trigger] self.accounts@.contains_key(k2) implies self.accounts@[k2].wf() by {
                if k2 != k {
                    assert(old(self).accounts@.contains_key(k2));
                }
            }
            assert forall|k2: Seq<char>, pid: u32| #[trigger] self.accounts@.contains_key(k2)
                && #[trigger] self.accounts@[k2].proposals@.contains_key(pid) implies
                self.accounts@[k2].proposals@[pid].amount == self.accounts@[k2].ve_lpt_amount by {
                if k2 != k {
                    assert(old(self).accounts@.contains_key(k2));
                } else {
                    assert(oa.proposals@.contains_key(pid));
                }
            }
            assert(self.accounts@.dom() =~= old(self).accounts@.dom());
            assert forall|k2: Seq<char>| k2 != k && #[trigger] old(self).accounts@.contains_key(k2) implies
                self.accounts@[k2] == old(self).accounts@[k2] by {
            }
            assert forall|pid: u32| #[trigger] oa.proposals@.contains_key(pid) implies impacted(
                old(self).proposal(pid), self.proposal(pid), pid, oa.proposals@[pid],
                na.proposals@, na.proposals_history@, 0, true, now, self.cur_total_ve_lpt) by {
                assert(impacted(pre_self.proposal(pid), mid.proposal(pid), pid, oa.proposals@[pid],
                    after_claim.proposals@, after_claim.proposals_history@, 0, true, now, mid.cur_total_ve_lpt));
                assert(self.proposal(pid) == mid.proposal(pid));
            }
            after_claim.rewards.lemma_keys();
            assert forall|i: int, j: int| 0 <= i < j < transfers@.len() implies transfers@[i].0@ != transfers@[j].0@ by {
                after_claim.rewards.lemma_keys_distinct(i, j);
            }
            assert(oa == old(self).accounts@[k]);
            assert(self.accounts@[k] == na);
            assert(na.rewards@ == Map::<Seq<char>, u128>::empty());
            assert(na.same_lock(&oa));
            assert(oa == old(self).accounts@[k]);
            assert forall|pid: u32, b: int| #[trigger] bucket_votes(self.accounts, pid, b) == bucket_votes(old(self).accounts, pid, b)
                - vote_weight(old(self).accounts@[k], pid, b) + vote_weight(self.accounts@[k], pid, b) by {
                assert(bucket_votes(self.accounts, pid, b) == bucket_votes(removed, pid, b) + vote_weight(na, pid, b));
                assert(bucket_votes(removed, pid, b) == bucket_votes(old(self).accounts, pid, b) - vote_weight(oa, pid, b));
            }
            assert forall|pid: u32| #[trigger] self.proposal(pid) is Some || old(self).proposal(pid) is Some implies {
                &&& (self.proposal(pid) is Some) == old(self).proposal(pid) is Some
                &&& self.proposal(pid) is Some ==> {
                    &&& old(self).proposal(pid)->Some_0.end_at == self.proposal(pid)->Some_0.end_at
                    &&& old(self).proposal(pid)->Some_0.start_at == self.proposal(pid)->Some_0.start_at
                    &&& old(self).proposal(pid)->Some_0.votes@ == self.proposal(pid)->Some_0.votes@
                    &&& now < self.proposal(pid)->Some_0.end_at ==>
                        (na.proposals@.contains_key(pid) == oa.proposals@.contains_key(pid))
                        && (na.proposals@.contains_key(pid) ==> na.proposals@[pid] == oa.proposals@[pid])
                }
            } by {
                assert(self.proposal(pid) == mid.proposal(pid));
                assert(pre_self.proposal(pid) == old(self).proposal(pid));
                if oa.proposals@.contains_key(pid) {
                    assert(impacted(pre_self.proposal(pid), mid.proposal(pid), pid, oa.proposals@[pid],
                        after_claim.proposals@, after_claim.proposals_history@, 0, true, now, mid.cur_total_ve_lpt));
                } else {
                    assert(mid.proposal(pid) == pre_self.proposal(pid));
                    assert(!na.proposals@.contains_key(pid));
                }
            }
            assert forall|pid: u32| #[trigger] self.accounts@[k].proposals@.contains_key(pid) implies
                self.proposal(pid) is Some && self.proposal(pid)->Some_0.start_at <= now by {
                assert(oa.proposals@.contains_key(pid));
                assert(old(self).accounts@.contains_key(k));
                assert(old(self).proposal(pid) is Some);
            }
            lemma_account_votes_weights(*old(self), *self, k, now);
            assert(self.wf());
            assert(oa == old(self).accounts@[k]);
            assert(forall|i: int, j: int| 0 <= i < j < transfers@.len() ==> transfers@[i].0@ != transfers@[j].0@);
        }
        let res: Result<Vec<(String, Balance)>, VeError> = Ok(transfers);
        proof {
            let k = caller@;
            let v = res->Ok_0;
            after_claim.rewards.lemma_keys();
            assert forall|t: Seq<char>| #[trigger] crate::account::amount_or_zero(list_map(v@), t)
                == crate::account::amount_or_zero(old(self).accounts@[k].rewards@, t)
                + expired_credit(old(self).proposals@, old(self).accounts@[k].proposals,
                    old(self).accounts@[k].proposals.len_spec() as int, t, now) by {
                lemma_list_map_contains(v@, t);
                if after_claim.rewards@.contains_key(t) {
                    let i = choose|i: int| 0 <= i < after_claim.rewards.len_spec() && after_claim.rewards.key_at(i) == t;
                    lemma_list_map_value(v@, i);
                } else if list_map(v@).contains_key(t) {
                    let i = choose|i: int| 0 <= i < v@.len() && v@[i].0@ == t;
                }
                assert(crate::account::amount_or_zero(after_claim.rewards@, t)
                    == crate::account::amount_or_zero(oa.rewards@, t)
                    + expired_credit(pre_self.proposals@, oa.proposals, oa.proposals.len_spec() as int, t, now));
            }
        }
        res
    }
}

/// A lock keeps the counters equal to the sums over the accounts: total
/// voting power grows by exactly what the lock minted, total locked tokens
/// by exactly the amount.
pub proof fn lemma_lock_conserves(s0: Contract, s1: Contract, k: Seq<char>, amount: int, duration_sec: int, now: Timestamp, minted: int)
    requires
        s0.wf(),
        s1.lock_outcome(&s0, k, amount, duration_sec, now, minted),
    ensures
        s1.cur_total_ve_lpt == total_ve(s1.accounts),
        s1.cur_lock_lpt == total_lpt(s1.accounts),
        s1.cur_total_ve_lpt == s0.cur_total_ve_lpt + minted,
        s1.cur_lock_lpt == s0.cur_lock_lpt + amount,
        s1.accounts@[k].ve_lpt_amount == s0.prior_ve(k) + minted,
{
}

/// A withdrawal keeps the counters equal to the sums over the accounts:
/// total voting power falls by exactly what it burned, total locked tokens
/// by exactly the amount withdrawn.
pub proof fn lemma_withdraw_conserves(s0: Contract, s1: Contract, k: Seq<char>, amount: int, burned: int, now: Timestamp)
    requires
        s0.wf(),
        s0.accounts@.contains_key(k),
        s1.withdraw_outcome(&s0, k, amount, burned, now),
    ensures
        s1.cur_total_ve_lpt == total_ve(s1.accounts),
        s1.cur_lock_lpt == total_lpt(s1.accounts),
        s1.cur_total_ve_lpt == s0.cur_total_ve_lpt - burned,
        s1.cur_lock_lpt == s0.cur_lock_lpt - amount,
        s1.accounts@[k].ve_lpt_amount == s0.accounts@[k].ve_lpt_amount - burned,
{
}

/// The ledger's counter of voting power is the sum of all accounts' voting
/// power, in every state the ledger's operations reach.
pub proof fn lemma_voting_power_conserved(c: Contract)
    requires
        c.wf(),
    ensures
        c.cur_total_ve_lpt == total_ve(c.accounts),
        c.cur_lock_lpt == total_lpt(c.accounts),
{
}

/// For a proposal in progress at a time no earlier than the ledger's clock,
/// the weight in each bucket equals the total amount of the open votes cast
/// on that bucket.
pub proof fn lemma_vote_weight_conservation(c: Contract, pid: u32, b: int, now: Timestamp)
    requires
        c.wf(),
        now >= c.clock,
        c.proposal(pid) is Some,
        c.proposal(pid)->Some_0.status_at(now) == ProposalStatus::InProgress,
        0 <= b < c.proposal(pid)->Some_0.votes@.len(),
    ensures
        c.proposal(pid)->Some_0.votes@[b].total_ballots == bucket_votes(c.accounts, pid, b),
{
    assert(bucket_votes(c.accounts, pid, b) == bucket_votes(c.accounts, pid, b));
}

/// A reward withdrawal of `amount` of `token` whose transfer then fails
/// leaves what the ledger owes of that token (the accounts' balances plus
/// the lost-and-found) where it was before the withdrawal.
pub proof fn lemma_failed_reward_transfer_restores(s0: Contract, s1: Contract, s2: Contract, token: Seq<char>, amount: int)
    requires
        reward_holdings(s1, token) == reward_holdings(s0, token) - amount,
        reward_holdings(s2, token) == reward_holdings(s1, token) + amount,
    ensures
        reward_holdings(s2, token) == reward_holdings(s0, token),
{
}

/// Claiming a second time on a vote that a first claim settled changes
/// nothing: no balance, no vote, no proposal.
pub proof fn lemma_claim_idempotent(
    s0: Contract,
    s1: Contract,
    s2: Contract,
    k: Seq<char>,
    proposal_id: u32,
    first_at: Timestamp,
    second_at: Timestamp,
)
    requires
        s0.wf(),
        s0.claim_refusal(k, proposal_id) is None,
        s1.claim_outcome(&s0, k, proposal_id, first_at),
        s0.accounts@[k].proposals@.contains_key(proposal_id),
        s0.proposal(proposal_id)->Some_0.status_at(first_at) == ProposalStatus::Expired,
        s2.claim_outcome(&s1, k, proposal_id, second_at),
    ensures
        s1.claim_refusal(k, proposal_id) is None,
        !s1.accounts@[k].proposals@.contains_key(proposal_id),
        s2.accounts@ == s1.accounts@,
        s2.proposals@ == s1.proposals@,
        s2.accounts@[k].rewards@ == s1.accounts@[k].rewards@,
{
    assert(s1.accounts@.contains_key(k));
}

/// After a lock or withdrawal that left account `k` as `relocked` says, at
/// `now` (the new clock), every open vote still sits on a begun proposal and
/// every bucket of a proposal not yet ended still weighs its votes.
proof fn lemma_relocked_weights(old: Contract, new: Contract, k: Seq<char>, diff: int, inc: bool, now: Timestamp)
    requires
        old.wf(),
        now >= old.clock,
        new.clock == now,
        new.relocked(&old, k, diff, inc, now),
        diff >= 0,
        forall|k2: Seq<char>, pid: u32| #[trigger] new.accounts@.contains_key(k2)
            && #[trigger] new.accounts@[k2].proposals@.contains_key(pid) ==>
            new.accounts@[k2].proposals@[pid].amount == new.accounts@[k2].ve_lpt_amount,
        old.accounts@.contains_key(k) ==> new.accounts@[k].ve_lpt_amount
            == if inc { old.accounts@[k].ve_lpt_amount + diff } else { old.accounts@[k].ve_lpt_amount - diff },
        forall|pid: u32, b: int| #[trigger] bucket_votes(new.accounts, pid, b) == bucket_votes(old.accounts, pid, b)
            - (if old.accounts@.contains_key(k) { vote_weight(old.accounts@[k], pid, b) } else { 0 })
            + vote_weight(new.accounts@[k], pid, b),
    ensures
        new.votes_started(),
        new.weights_match(),
{
    assert forall|k2: Seq<char>, pid: u32| #[trigger] new.accounts@.contains_key(k2)
        && #[trigger] new.accounts@[k2].proposals@.contains_key(pid) implies
        new.proposal(pid) is Some && new.proposal(pid)->Some_0.start_at <= new.clock by {
        if k2 != k {
            assert(old.accounts@.contains_key(k2));
            assert(old.proposal(pid) is Some);
            let oa2 = old.accounts@[k2];
            if old.accounts@.contains_key(k) {
                let oa = old.accounts@[k];
                if oa.proposals@.contains_key(pid) {
                    assert(impacted(old.proposal(pid), new.proposal(pid), pid, oa.proposals@[pid],
                        new.accounts@[k].proposals@, new.accounts@[k].proposals_history@, diff, inc, now, new.cur_total_ve_lpt));
                } else {
                    assert(new.proposal(pid) == old.proposal(pid));
                }
            }
        } else {
            let oa = old.accounts@[k];
            assert(oa.proposals@.contains_key(pid));
            assert(impacted(old.proposal(pid), new.proposal(pid), pid, oa.proposals@[pid],
                new.accounts@[k].proposals@, new.accounts@[k].proposals_history@, diff, inc, now, new.cur_total_ve_lpt));
        }
    }
    assert forall|pid: u32, b: int| #![trigger bucket_votes(new.accounts, pid, b)]
        new.proposal(pid) is Some && new.clock < new.proposal(pid)->Some_0.end_at
        && 0 <= b < new.proposal(pid)->Some_0.votes@.len() implies
        new.proposal(pid)->Some_0.votes@[b].total_ballots == bucket_votes(new.accounts, pid, b) by {
        let na = new.accounts@[k];
        assert(bucket_votes(new.accounts, pid, b) == bucket_votes(old.accounts, pid, b)
            - (if old.accounts@.contains_key(k) { vote_weight(old.accounts@[k], pid, b) } else { 0 })
            + vote_weight(na, pid, b));
        if old.accounts@.contains_key(k) && old.accounts@[k].proposals@.contains_key(pid) {
            let oa = old.accounts@[k];
            let vd = oa.proposals@[pid];
            assert(impacted(old.proposal(pid), new.proposal(pid), pid, vd,
                na.proposals@, na.proposals_history@, diff, inc, now, new.cur_total_ve_lpt));
            let op = old.proposal(pid)->Some_0;
            assert(op.status_at(now) != ProposalStatus::Expired);
            assert(bucket_votes(old.accounts, pid, b) == bucket_votes(old.accounts, pid, b));
            assert(op.votes@[b].total_ballots == bucket_votes(old.accounts, pid, b));
            assert(vd.amount == oa.ve_lpt_amount);
            if na.proposals@.contains_key(pid) {
                assert(na.proposals@[pid].amount == na.ve_lpt_amount);
            }
        } else {
            assert(new.proposal(pid) == old.proposal(pid));
            if old.accounts@.contains_key(k) {
                assert(!na.proposals@.contains_key(pid));
            }
            assert(vote_weight(na, pid, b) == 0);
            assert(bucket_votes(old.accounts, pid, b) == bucket_votes(old.accounts, pid, b));
        }
    }
}

/// After a call at `now` (the new clock) that changed only the votes of
/// account `k` and the proposals those votes are on, with each bucket of a
/// proposal not yet ended moving exactly as account `k`'s weight on it,
/// every open vote still sits on a begun proposal and every bucket of a
/// proposal not yet ended still weighs its votes.
proof fn lemma_account_votes_weights(old: Contract, new: Contract, k: Seq<char>, now: Timestamp)
    requires
        old.wf(),
        now >= old.clock,
        new.clock == now,
        old.accounts@.contains_key(k),
        new.accounts@.dom() == old.accounts@.dom(),
        forall|k2: Seq<char>| k2 != k && #[trigger] old.accounts@.contains_key(k2) ==> new.accounts@[k2] == old.accounts@[k2],
        forall|pid: u32, b: int| #[trigger] bucket_votes(new.accounts, pid, b) == bucket_votes(old.accounts, pid, b)
            - vote_weight(old.accounts@[k], pid, b) + vote_weight(new.accounts@[k], pid, b),
        forall|pid: u32| #[trigger] new.proposal(pid) is Some && now < new.proposal(pid)->Some_0.end_at ==> {
            &&& old.proposal(pid) is Some
            &&& old.proposal(pid)->Some_0.end_at == new.proposal(pid)->Some_0.end_at
            &&& old.proposal(pid)->Some_0.votes@.len() == new.proposal(pid)->Some_0.votes@.len()
            &&& forall|b: int| 0 <= b < new.proposal(pid)->Some_0.votes@.len() ==>
                #[trigger] new.proposal(pid)->Some_0.votes@[b].total_ballots - old.proposal(pid)->Some_0.votes@[b].total_ballots
                == vote_weight(new.accounts@[k], pid, b) - vote_weight(old.accounts@[k], pid, b)
        },
        forall|pid: u32| #[trigger] new.accounts@[k].proposals@.contains_key(pid) ==>
            new.proposal(pid) is Some && new.proposal(pid)->Some_0.start_at <= now,
        forall|pid: u32| #[trigger] old.proposal(pid) is Some && !(new.proposal(pid) is Some) ==>
            forall|k2: Seq<char>| #[trigger] old.accounts@.contains_key(k2) ==> !old.accounts@[k2].proposals@.contains_key(pid),
        forall|pid: u32| #[trigger] new.proposal(pid) is Some && old.proposal(pid) is Some ==>
            new.proposal(pid)->Some_0.start_at == old.proposal(pid)->Some_0.start_at,
    ensures
        new.votes_started(),
        new.weights_match(),
{
    assert forall|k2: Seq<char>, pid: u32| #[trigger] new.accounts@.contains_key(k2)
        && #[trigger] new.accounts@[k2].proposals@.contains_key(pid) implies
        new.proposal(pid) is Some && new.proposal(pid)->Some_0.start_at <= new.clock by {
        if k2 != k {
            assert(old.accounts@.contains_key(k2));
            assert(old.accounts@[k2].proposals@.contains_key(pid));
            assert(old.proposal(pid) is Some);
        }
    }
    assert forall|pid: u32, b: int| #![trigger bucket_votes(new.accounts, pid, b)]
        new.proposal(pid) is Some && new.clock < new.proposal(pid)->Some_0.end_at
        && 0 <= b < new.proposal(pid)->Some_0.votes@.len() implies
        new.proposal(pid)->Some_0.votes@[b].total_ballots == bucket_votes(new.accounts, pid, b) by {
        assert(bucket_votes(new.accounts, pid, b) == bucket_votes(old.accounts, pid, b)
            - vote_weight(old.accounts@[k], pid, b) + vote_weight(new.accounts@[k], pid, b));
        assert(old.proposal(pid) is Some);
        assert(bucket_votes(old.accounts, pid, b) == bucket_votes(old.accounts, pid, b));
        assert(new.proposal(pid)->Some_0.votes@[b].total_ballots - old.proposal(pid)->Some_0.votes@[b].total_ballots
            == vote_weight(new.accounts@[k], pid, b) - vote_weight(old.accounts@[k], pid, b));
    }
}

/// The failure condition of propagation depends only on the proposals and
/// on the account's votes and rewards.
proof fn lemma_blocked_transfer(c1: Contract, c2: Contract, a1: Account, a2: Account, diff: int, inc: bool, now: Timestamp)
    requires
        c1.proposals@ == c2.proposals@,
        a1.proposals == a2.proposals,
        a1.rewards == a2.rewards,
        c1.propagation_blocked(a1, diff, inc, now),
    ensures
        c2.propagation_blocked(a2, diff, inc, now),
{
    if exists|pid: u32| #[trigger] a1.proposals@.contains_key(pid) && (c1.proposal(pid) is None
        || vote_blocked(c1.proposal(pid)->Some_0, a1.proposals@[pid], diff, inc, now)) {
        let pid = choose|pid: u32| #[trigger] a1.proposals@.contains_key(pid) && (c1.proposal(pid) is None
            || vote_blocked(c1.proposal(pid)->Some_0, a1.proposals@[pid], diff, inc, now));
        assert(c1.proposal(pid) == c2.proposal(pid));
        assert(a2.proposals@.contains_key(pid));
    } else {
        let t = choose|t: Seq<char>| crate::account::amount_or_zero(a1.rewards@, t)
            + #[trigger] expired_credit(c1.proposals@, a1.proposals, a1.proposals.len_spec() as int, t, now) > u128::MAX;
        assert(crate::account::amount_or_zero(a2.rewards@, t)
            + expired_credit(c2.proposals@, a2.proposals, a2.proposals.len_spec() as int, t, now) > u128::MAX);
    }
}

/// Locking `amount` into an account that holds nothing locked and then, once
/// the lock has ended, withdrawing all of it brings the account's locked
/// amount and voting power back to zero; each vote it held on a proposal not
/// yet expired is dropped, that bucket loses exactly the power withdrawn and
/// one voter, the proposal one voter, and its other buckets stay.
pub proof fn lemma_lock_withdraw_round_trip(
    s0: Contract,
    s1: Contract,
    s2: Contract,
    k: Seq<char>,
    amount: int,
    duration_sec: int,
    lock_at: Timestamp,
    minted: int,
    withdraw_at: Timestamp,
    burned: int,
)
    requires
        s0.prior_lpt(k) == 0,
        s0.prior_ve(k) == 0,
        s1.lock_outcome(&s0, k, amount, duration_sec, lock_at, minted),
        withdraw_at >= s1.accounts@[k].unlock_timestamp,
        s2.withdraw_outcome(&s1, k, amount, burned, withdraw_at),
    ensures
        s2.accounts@[k].lpt_amount == 0,
        s2.accounts@[k].ve_lpt_amount == 0,
        burned == minted,
        forall|pid: u32| #[trigger] s1.accounts@[k].proposals@.contains_key(pid)
            && s1.proposal(pid) is Some
            && s1.proposal(pid)->Some_0.status_at(withdraw_at) != ProposalStatus::Expired ==> {
                let b = s1.accounts@[k].proposals@[pid].action.index();
                let before = s1.proposal(pid)->Some_0.votes@[b];
                &&& !s2.accounts@[k].proposals@.contains_key(pid)
                &&& s2.proposal(pid)->Some_0.votes@[b].total_ballots == before.total_ballots - burned
                &&& s2.proposal(pid)->Some_0.votes@[b].participants == before.participants - 1
                &&& s2.proposal(pid)->Some_0.participants == s1.proposal(pid)->Some_0.participants - 1
                &&& forall|c: int| 0 <= c < s1.proposal(pid)->Some_0.votes@.len() && c != b ==>
                    #[trigger] s2.proposal(pid)->Some_0.votes@[c] == s1.proposal(pid)->Some_0.votes@[c]
            },
{
    let a1 = s1.accounts@[k];
    assert(a1.lpt_amount == amount);
    assert(a1.ve_after_withdraw(amount) == 0);
    assert forall|pid: u32| #[trigger] a1.proposals@.contains_key(pid)
        && s1.proposal(pid) is Some
        && s1.proposal(pid)->Some_0.status_at(withdraw_at) != ProposalStatus::Expired implies {
            let b = a1.proposals@[pid].action.index();
            let before = s1.proposal(pid)->Some_0.votes@[b];
            &&& !s2.accounts@[k].proposals@.contains_key(pid)
            &&& s2.proposal(pid)->Some_0.votes@[b].total_ballots == before.total_ballots - burned
            &&& s2.proposal(pid)->Some_0.votes@[b].participants == before.participants - 1
            &&& s2.proposal(pid)->Some_0.participants == s1.proposal(pid)->Some_0.participants - 1
            &&& forall|c: int| 0 <= c < s1.proposal(pid)->Some_0.votes@.len() && c != b ==>
                #[trigger] s2.proposal(pid)->Some_0.votes@[c] == s1.proposal(pid)->Some_0.votes@[c]
        } by {
        assert(s1.accounts@.contains_key(k));
        assert(a1.proposals@[pid].amount == a1.ve_lpt_amount);
        assert(impacted(s1.proposal(pid), s2.proposal(pid), pid, a1.proposals@[pid],
            s2.accounts@[k].proposals@, s2.accounts@[k].proposals_history@, burned, false, withdraw_at, s2.cur_total_ve_lpt));
    }
}

} // verus!
