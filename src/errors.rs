use vstd::prelude::*;

verus! {

/// Why a call was refused. A call refused by its checks changes nothing;
/// an error met after the checks (one that only disagreeing records can
/// cause) leaves the ledger for the host to discard.
#[derive(Clone, Copy, Debug, PartialEq, Eq, Structural)]
pub enum VeError {
    NotAllowed,
    AccountNotRegistered,
    InsufficientBalance,
    StillHasReward,
    StillHasLpt,
    StillHasLoveToken,
    AccountNotLocked,
    AlreadyVoted,
    InvalidVote,
    InvalidIncentive,
    InvalidIncentiveToken,
    VoteCanNotCancel,
    NotVotable,
    NoVoted,
    InvalidIncentiveKey,
    DescriptionTooLong,
    InvalidRatio,
    InvalidDuration,
    InsufficientVeLpt,
    CausePreUnlock,
    StillInLock,
    InvalidStartTime,
    ProposalNotExist,
    ProposalNotSupportIncentive,
    ExpiredProposal,
    Overflow,
}

impl VeError {
    pub fn message(&self) -> &'static str {
        match self {
            VeError::NotAllowed => "E002: not allowed for the caller",
            VeError::AccountNotRegistered => "E100: account not registered",
            VeError::InsufficientBalance => "E101: insufficient balance",
            VeError::StillHasReward => "E103: still has reward",
            VeError::StillHasLpt => "E104: still has lpt",
            VeError::StillHasLoveToken => "E106: still has love token",
            VeError::AccountNotLocked => "E105: account not locked",
            VeError::AlreadyVoted => "E200: already voted",
            VeError::InvalidVote => "E201: invalid vote",
            VeError::InvalidIncentive => "E202: invalid incentive",
            VeError::InvalidIncentiveToken => "E203: invalid incentive token",
            VeError::VoteCanNotCancel => "E204: vote can not cancel",
            VeError::NotVotable => "E205: not votable",
            VeError::NoVoted => "E206: no voted",
            VeError::InvalidIncentiveKey => "E207: invalid incentive key",
            VeError::DescriptionTooLong => "E208: description too long",
            VeError::InvalidRatio => "E301: invalid ratio",
            VeError::InvalidDuration => "E302: invalid duration",
            VeError::InsufficientVeLpt => "E303: Insufficient account ve lpt",
            VeError::CausePreUnlock => "E304: would cause pre unlock",
            VeError::StillInLock => "E305: still in locking",
            VeError::InvalidStartTime => "E402: invalid start time",
            VeError::ProposalNotExist => "E404: proposal not exist",
            VeError::ProposalNotSupportIncentive => "E405: proposal not support incentive",
            VeError::ExpiredProposal => "E406: expired proposal",
            VeError::Overflow => "E700: amount out of range",
        }
    }
}

} // verus!
