use vstd::prelude::*;

verus! {

/// Amount of a token, in its smallest unit.
pub type Balance = u128;

/// Absolute time in nanoseconds.
pub type Timestamp = u64;

/// A duration in whole seconds.
pub type DurationSec = u32;

/// Decimals of the voting-power token.
pub const LOVE_DECIMAL: u8 = 18;

pub const DAY_SEC: DurationSec = 86400;
pub const DEFAULT_MIN_VOTING_DURATION_SEC: DurationSec = 259200;
pub const DEFAULT_MAX_VOTING_DURATION_SEC: DurationSec = 2592000;
pub const DEFAULT_MIN_PROPOSAL_START_VOTE_OFFSET_SEC: u32 = 86400;
pub const DEFAULT_MIN_LOCKING_DURATION_SEC: DurationSec = 2592000;
pub const DEFAULT_MAX_LOCKING_DURATION_SEC: DurationSec = 31104000;
pub const DEFAULT_MAX_LOCKING_REWARD_RATIO: u32 = 20000;
pub const MIN_LOCKING_REWARD_RATIO: u32 = 10000;

pub const DESCRIPTION_LIMIT: usize = 2048;
pub const STORAGE_BALANCE_MIN_BOUND: u128 = 1_250_000_000_000_000_000_000;

pub const NANOS_PER_SEC: u64 = 1_000_000_000;

/// `sec` seconds expressed in nanoseconds.
pub fn to_nano(sec: u32) -> (r: Timestamp)
    ensures
        r == sec as int * NANOS_PER_SEC,
{
    assert(sec as int * 1_000_000_000 <= 4_294_967_295 * 1_000_000_000) by (nonlinear_arith)
        requires sec <= 4_294_967_295u32;
    sec as u64 * NANOS_PER_SEC
}

/// Whole seconds in `nano` nanoseconds, truncated to 32 bits.
pub fn nano_to_sec(nano: u64) -> (r: u32)
    ensures
        r == (nano / NANOS_PER_SEC) as u32,
{
    (nano / NANOS_PER_SEC) as u32
}

/// Floor of `a * num / denom`, computed without intermediate overflow.
pub open spec fn ratio(a: int, num: int, denom: int) -> int {
    a * num / denom
}

/// Relies on primitive_types::U256 (the 256-bit type of the uint crate): its
/// product of two u128 values never overflows, `/` is floor division, and
/// the conversion back to u128 fails exactly when the value exceeds u128::MAX.
#[verifier::external_body]
pub(crate) fn u128_ratio(a: u128, num: u128, denom: u128) -> (r: Option<u128>)
    requires
        denom > 0,
    ensures
        r == (if ratio(a as int, num as int, denom as int) <= u128::MAX {
            Some(ratio(a as int, num as int, denom as int) as u128)
        } else {
            None::<u128>
        }),
{
    let q = primitive_types::U256::from(a) * primitive_types::U256::from(num)
        / primitive_types::U256::from(denom);
    u128::try_from(q).ok()
}

} // verus!
