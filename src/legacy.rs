use vstd::prelude::*;
use crate::account::Account;
use crate::curve::Config;
use crate::ledger::Contract;
use crate::proposal::Proposal;
use crate::strmap::StrMap;
use crate::utils::{Balance, DurationSec, DEFAULT_MIN_VOTING_DURATION_SEC, DEFAULT_MAX_VOTING_DURATION_SEC};

verus! {

/// The policy record of the first schema version, which had no voting
/// duration bounds.
#[derive(Clone, Copy, Debug, PartialEq, Eq, Structural)]
pub struct ConfigV0100 {
    pub min_proposal_start_vote_offset_sec: u32,
    pub min_locking_duration_sec: DurationSec,
    pub max_locking_duration_sec: DurationSec,
    pub max_locking_multiplier: u32,
}

impl ConfigV0100 {
    /// The current policy record: the same fields, with the default voting
    /// duration bounds.
    pub fn upgrade(self) -> (r: Config)
        ensures
            r.min_proposal_start_vote_offset_sec == self.min_proposal_start_vote_offset_sec,
            r.min_locking_duration_sec == self.min_locking_duration_sec,
            r.max_locking_duration_sec == self.max_locking_duration_sec,
            r.max_locking_multiplier == self.max_locking_multiplier,
            r.min_voting_duration_sec == DEFAULT_MIN_VOTING_DURATION_SEC,
            r.max_voting_duration_sec == DEFAULT_MAX_VOTING_DURATION_SEC,
    {
        Config {
            min_proposal_start_vote_offset_sec: self.min_proposal_start_vote_offset_sec,
            min_locking_duration_sec: self.min_locking_duration_sec,
            max_locking_duration_sec: self.max_locking_duration_sec,
            max_locking_multiplier: self.max_locking_multiplier,
            min_voting_duration_sec: DEFAULT_MIN_VOTING_DURATION_SEC,
            max_voting_duration_sec: DEFAULT_MAX_VOTING_DURATION_SEC,
        }
    }
}

/// The ledger as the first schema version kept it: the policy without
/// voting duration bounds, and no lost-and-found of rewards.
pub struct ContractDataV0100 {
    pub account_id: String,
    pub owner_id: String,
    pub operators: StrMap<()>,
    pub whitelisted_accounts: StrMap<()>,
    pub whitelisted_incentive_tokens: StrMap<()>,
    pub config: ConfigV0100,
    pub symbol: String,
    pub lptoken_contract_id: String,
    pub lptoken_id: String,
    pub lptoken_decimals: u8,
    pub proposals: Vec<Option<Proposal>>,
    pub accounts: StrMap<Account>,
    pub account_count: u64,
    pub cur_total_ve_lpt: Balance,
    pub cur_lock_lpt: Balance,
    pub lostfound: Balance,
    pub removed_proposal_assets: StrMap<u128>,
}

impl ContractDataV0100 {
    /// The current ledger: every field carried over, the policy upgraded,
    /// and an empty lost-and-found of rewards.
    pub fn upgrade(self) -> (r: Contract)
        ensures
            r.account_id == self.account_id,
            r.owner_id == self.owner_id,
            r.operators == self.operators,
            r.whitelisted_accounts == self.whitelisted_accounts,
            r.whitelisted_incentive_tokens == self.whitelisted_incentive_tokens,
            r.config.min_proposal_start_vote_offset_sec == self.config.min_proposal_start_vote_offset_sec,
            r.config.min_locking_duration_sec == self.config.min_locking_duration_sec,
            r.config.max_locking_duration_sec == self.config.max_locking_duration_sec,
            r.config.max_locking_multiplier == self.config.max_locking_multiplier,
            r.config.min_voting_duration_sec == DEFAULT_MIN_VOTING_DURATION_SEC,
            r.config.max_voting_duration_sec == DEFAULT_MAX_VOTING_DURATION_SEC,
            r.symbol == self.symbol,
            r.lptoken_contract_id == self.lptoken_contract_id,
            r.lptoken_id == self.lptoken_id,
            r.lptoken_decimals == self.lptoken_decimals,
            r.proposals == self.proposals,
            r.accounts == self.accounts,
            r.account_count == self.account_count,
            r.cur_total_ve_lpt == self.cur_total_ve_lpt,
            r.cur_lock_lpt == self.cur_lock_lpt,
            r.lostfound == self.lostfound,
            r.removed_proposal_assets == self.removed_proposal_assets,
            r.lostfound_rewards@ == Map::<Seq<char>, u128>::empty(),
            r.clock == 0,
    {
        Contract {
            account_id: self.account_id,
            owner_id: self.owner_id,
            operators: self.operators,
            whitelisted_accounts: self.whitelisted_accounts,
            whitelisted_incentive_tokens: self.whitelisted_incentive_tokens,
            config: self.config.upgrade(),
            symbol: self.symbol,
            lptoken_contract_id: self.lptoken_contract_id,
            lptoken_id: self.lptoken_id,
            lptoken_decimals: self.lptoken_decimals,
            proposals: self.proposals,
            accounts: self.accounts,
            account_count: self.account_count,
            cur_total_ve_lpt: self.cur_total_ve_lpt,
            cur_lock_lpt: self.cur_lock_lpt,
            lostfound: self.lostfound,
            removed_proposal_assets: self.removed_proposal_assets,
            lostfound_rewards: StrMap::new(),
            clock: 0,
        }
    }
}

} // verus!
