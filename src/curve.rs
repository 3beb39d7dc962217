use vstd::prelude::*;
use vstd::arithmetic::div_mod::{lemma_div_is_ordered, lemma_basic_div, lemma_div_pos_is_pos};
use vstd::arithmetic::mul::lemma_mul_inequality;
use crate::utils::{
    ratio, u128_ratio, to_nano, DurationSec, LOVE_DECIMAL, MIN_LOCKING_REWARD_RATIO,
    NANOS_PER_SEC, DEFAULT_MIN_PROPOSAL_START_VOTE_OFFSET_SEC, DEFAULT_MIN_LOCKING_DURATION_SEC,
    DEFAULT_MAX_LOCKING_DURATION_SEC, DEFAULT_MAX_LOCKING_REWARD_RATIO,
    DEFAULT_MIN_VOTING_DURATION_SEC, DEFAULT_MAX_VOTING_DURATION_SEC,
};

verus! {

/// Locking and voting policy.
#[derive(Clone, Copy, Debug, PartialEq, Eq, Structural)]
pub struct Config {
    pub min_proposal_start_vote_offset_sec: u32,
    /// The min duration to lock in seconds.
    pub min_locking_duration_sec: DurationSec,
    /// The max duration to lock in seconds.
    pub max_locking_duration_sec: DurationSec,
    /// Voting-power multiplier at the maximum duration, in units of 1/10000
    /// (20000 is 2x). The multiplier at duration zero is 10000.
    pub max_locking_multiplier: u32,
    pub min_voting_duration_sec: DurationSec,
    pub max_voting_duration_sec: DurationSec,
}

impl Config {
    /// The curve is defined: the multiplier grows with the duration and the
    /// maximum duration is positive.
    pub open spec fn valid(&self) -> bool {
        self.max_locking_multiplier > MIN_LOCKING_REWARD_RATIO && self.max_locking_duration_sec > 0
    }

    pub fn assert_valid(&self) -> (r: bool)
        ensures
            r == self.valid(),
    {
        self.max_locking_multiplier > MIN_LOCKING_REWARD_RATIO && self.max_locking_duration_sec > 0
    }

    pub open spec fn default_config_spec() -> Config {
        Config {
            min_proposal_start_vote_offset_sec: DEFAULT_MIN_PROPOSAL_START_VOTE_OFFSET_SEC,
            min_locking_duration_sec: DEFAULT_MIN_LOCKING_DURATION_SEC,
            max_locking_duration_sec: DEFAULT_MAX_LOCKING_DURATION_SEC,
            max_locking_multiplier: DEFAULT_MAX_LOCKING_REWARD_RATIO,
            min_voting_duration_sec: DEFAULT_MIN_VOTING_DURATION_SEC,
            max_voting_duration_sec: DEFAULT_MAX_VOTING_DURATION_SEC,
        }
    }

    pub fn default_config() -> (r: Config)
        ensures
            r == Config::default_config_spec(),
            r.valid(),
            r.min_proposal_start_vote_offset_sec == DEFAULT_MIN_PROPOSAL_START_VOTE_OFFSET_SEC,
            r.min_locking_duration_sec == DEFAULT_MIN_LOCKING_DURATION_SEC,
            r.max_locking_duration_sec == DEFAULT_MAX_LOCKING_DURATION_SEC,
            r.max_locking_multiplier == DEFAULT_MAX_LOCKING_REWARD_RATIO,
            r.min_voting_duration_sec == DEFAULT_MIN_VOTING_DURATION_SEC,
            r.max_voting_duration_sec == DEFAULT_MAX_VOTING_DURATION_SEC,
    {
        Config {
            min_proposal_start_vote_offset_sec: DEFAULT_MIN_PROPOSAL_START_VOTE_OFFSET_SEC,
            min_locking_duration_sec: DEFAULT_MIN_LOCKING_DURATION_SEC,
            max_locking_duration_sec: DEFAULT_MAX_LOCKING_DURATION_SEC,
            max_locking_multiplier: DEFAULT_MAX_LOCKING_REWARD_RATIO,
            min_voting_duration_sec: DEFAULT_MIN_VOTING_DURATION_SEC,
            max_voting_duration_sec: DEFAULT_MAX_VOTING_DURATION_SEC,
        }
    }
}

pub open spec fn pow10(e: nat) -> nat
    decreases e,
{
    if e == 0 { 1 } else { 10 * pow10((e - 1) as nat) }
}

/// `amount` rescaled from `decimals` to the 18 decimals of voting power.
pub open spec fn normalized_amount(amount: int, decimals: int) -> int {
    if decimals > LOVE_DECIMAL {
        amount / pow10((decimals - LOVE_DECIMAL) as nat) as int
    } else if decimals < LOVE_DECIMAL {
        amount * pow10((LOVE_DECIMAL - decimals) as nat)
    } else {
        amount
    }
}

/// Voting power minted for `amount` locked for `duration_sec` seconds:
/// the normalized amount plus a bonus linear in the duration.
pub open spec fn ve_amount(config: Config, amount: int, duration_sec: int, decimals: int) -> int {
    let n = normalized_amount(amount, decimals);
    n + ratio(n, bonus_numerator(config, duration_sec), bonus_denominator(config))
}

/// Extra multiplier (above 1x) earned by `duration_sec`, as a numerator over
/// `bonus_denominator`.
pub open spec fn bonus_numerator(config: Config, duration_sec: int) -> int {
    (config.max_locking_multiplier - MIN_LOCKING_REWARD_RATIO) * (duration_sec * NANOS_PER_SEC)
}

pub open spec fn bonus_denominator(config: Config) -> int {
    (config.max_locking_duration_sec * NANOS_PER_SEC) * MIN_LOCKING_REWARD_RATIO
}

proof fn lemma_bonus_terms(config: Config, d1: int, d2: int)
    requires
        config.valid(),
        0 <= d1 <= d2,
    ensures
        0 <= bonus_numerator(config, d1) <= bonus_numerator(config, d2),
        bonus_numerator(config, 0) == 0,
        bonus_denominator(config) > 0,
{
    let m: int = config.max_locking_multiplier - MIN_LOCKING_REWARD_RATIO;
    let md: int = config.max_locking_duration_sec as int;
    assert(m * (d1 * 1_000_000_000) <= m * (d2 * 1_000_000_000)) by (nonlinear_arith)
        requires m > 0, 0 <= d1 <= d2;
    assert(0 <= m * (d1 * 1_000_000_000)) by (nonlinear_arith)
        requires m > 0, 0 <= d1;
    assert(m * (0 * 1_000_000_000) == 0) by (nonlinear_arith);
    assert((md * 1_000_000_000) * 10000 > 0) by (nonlinear_arith)
        requires md > 0;
}

pub(crate) proof fn lemma_pow10_positive(e: nat)
    ensures
        pow10(e) >= 1,
    decreases e,
{
    if e > 0 {
        lemma_pow10_positive((e - 1) as nat);
    }
}

/// 10^e, or None where it exceeds u128::MAX.
pub(crate) fn checked_pow10(e: u32) -> (r: Option<u128>)
    ensures
        r == (if pow10(e as nat) <= u128::MAX { Some(pow10(e as nat) as u128) } else { None::<u128> }),
{
    let mut acc: u128 = 1;
    let mut i: u32 = 0;
    while i < e
        invariant
            i <= e,
            acc as nat == pow10(i as nat),
        decreases e - i,
    {
        match acc.checked_mul(10) {
            Some(next) => {
                acc = next;
                i = i + 1;
            },
            None => {
                proof {
                    lemma_pow10_grows(i as nat, e as nat);
                }
                return None;
            },
        }
    }
    Some(acc)
}

proof fn lemma_pow10_grows(i: nat, e: nat)
    requires
        i < e,
    ensures
        pow10(e) >= 10 * pow10(i),
    decreases e - i,
{
    lemma_pow10_positive(i);
    if i + 1 < e {
        lemma_pow10_grows(i + 1, e);
        lemma_pow10_positive((i + 1) as nat);
        assert(pow10((i + 1) as nat) == 10 * pow10(i));
    }
}

fn normalize(amount: u128, decimals: u8) -> (r: Option<u128>)
    ensures
        r == (if normalized_amount(amount as int, decimals as int) <= u128::MAX {
            Some(normalized_amount(amount as int, decimals as int) as u128)
        } else {
            None::<u128>
        }),
        normalized_amount(amount as int, decimals as int) >= 0,
{
    proof {
        lemma_pow10_positive((decimals - LOVE_DECIMAL) as nat);
        lemma_pow10_positive((LOVE_DECIMAL - decimals) as nat);
    }
    if decimals > LOVE_DECIMAL {
        match checked_pow10((decimals - LOVE_DECIMAL) as u32) {
            Some(p) => Some(amount / p),
            None => {
                proof {
                    lemma_basic_div(amount as int, pow10((decimals - LOVE_DECIMAL) as nat) as int);
                }
                Some(0)
            },
        }
    } else if decimals < LOVE_DECIMAL {
        let p = checked_pow10((LOVE_DECIMAL - decimals) as u32);
        proof {
            assert(pow10((LOVE_DECIMAL - decimals) as nat) <= u128::MAX) by {
                lemma_pow10_le18((LOVE_DECIMAL - decimals) as nat);
            }
            assert(amount as int * pow10((LOVE_DECIMAL - decimals) as nat) >= 0) by (nonlinear_arith)
                requires pow10((LOVE_DECIMAL - decimals) as nat) >= 1;
        }
        amount.checked_mul(p.unwrap())
    } else {
        Some(amount)
    }
}

proof fn lemma_pow10_le18(e: nat)
    requires
        e <= 18,
    ensures
        pow10(e) <= 1_000_000_000_000_000_000,
    decreases e,
{
    reveal_with_fuel(pow10, 19);
    if e > 0 {
        lemma_pow10_le18((e - 1) as nat);
    }
}

/// Voting power for locking `amount` (in a token of `lptoken_decimals`
/// decimals) for `duration_sec` seconds under `config`; None where it
/// exceeds u128::MAX.
pub fn compute_ve_lpt_amount(config: &Config, amount: u128, duration_sec: u32, lptoken_decimals: u8) -> (r: Option<u128>)
    requires
        config.valid(),
    ensures
        ve_amount(*config, amount as int, duration_sec as int, lptoken_decimals as int) >= 0,
        r == (if ve_amount(*config, amount as int, duration_sec as int, lptoken_decimals as int) <= u128::MAX {
            Some(ve_amount(*config, amount as int, duration_sec as int, lptoken_decimals as int) as u128)
        } else {
            None::<u128>
        }),
{
    proof {
        lemma_curve_parts(*config, amount as int, duration_sec as int, lptoken_decimals as int);
    }
    let n = match normalize(amount, lptoken_decimals) {
        Some(n) => n,
        None => {
            proof {
                lemma_curve_parts(*config, amount as int, duration_sec as int, lptoken_decimals as int);
            }
            return None;
        },
    };
    let mult = (config.max_locking_multiplier - MIN_LOCKING_REWARD_RATIO) as u128;
    let dur = to_nano(duration_sec) as u128;
    let max_dur = to_nano(config.max_locking_duration_sec) as u128;
    assert(mult * dur <= u128::MAX) by (nonlinear_arith)
        requires mult <= 4_294_967_295u128, dur <= 4_294_967_295_000_000_000u128;
    assert(max_dur * 10000 <= u128::MAX) by (nonlinear_arith)
        requires max_dur <= 4_294_967_295_000_000_000u128;
    assert(max_dur * 10000 > 0) by (nonlinear_arith)
        requires max_dur > 0;
    let num = mult * dur;
    let denom = max_dur * (MIN_LOCKING_REWARD_RATIO as u128);
    proof {
        lemma_curve_parts(*config, amount as int, duration_sec as int, lptoken_decimals as int);
    }
    match u128_ratio(n, num, denom) {
        Some(bonus) => n.checked_add(bonus),
        None => None,
    }
}

proof fn lemma_curve_parts(config: Config, amount: int, duration_sec: int, decimals: int)
    requires
        config.valid(),
        amount >= 0,
        duration_sec >= 0,
    ensures
        normalized_amount(amount, decimals) >= 0,
        ratio(normalized_amount(amount, decimals), bonus_numerator(config, duration_sec), bonus_denominator(config)) >= 0,
        ve_amount(config, amount, duration_sec, decimals) >= normalized_amount(amount, decimals),
{
    lemma_pow10_positive((decimals - LOVE_DECIMAL) as nat);
    lemma_pow10_positive((LOVE_DECIMAL - decimals) as nat);
    let n = normalized_amount(amount, decimals);
    if decimals > LOVE_DECIMAL {
        lemma_div_pos_is_pos(amount, pow10((decimals - LOVE_DECIMAL) as nat) as int);
    } else if decimals < LOVE_DECIMAL {
        lemma_mul_inequality(0, amount, pow10((LOVE_DECIMAL - decimals) as nat) as int);
    }
    let num = bonus_numerator(config, duration_sec);
    let den = bonus_denominator(config);
    lemma_bonus_terms(config, duration_sec, duration_sec);
    lemma_mul_inequality(0, n, num);
    lemma_div_pos_is_pos(n * num, den);
}

proof fn lemma_normalized_monotonic(a1: int, a2: int, decimals: int)
    requires
        0 <= a1 <= a2,
    ensures
        normalized_amount(a1, decimals) <= normalized_amount(a2, decimals),
{
    lemma_pow10_positive((decimals - LOVE_DECIMAL) as nat);
    lemma_pow10_positive((LOVE_DECIMAL - decimals) as nat);
    if decimals > LOVE_DECIMAL {
        lemma_div_is_ordered(a1, a2, pow10((decimals - LOVE_DECIMAL) as nat) as int);
    } else if decimals < LOVE_DECIMAL {
        lemma_mul_inequality(a1, a2, pow10((LOVE_DECIMAL - decimals) as nat) as int);
    }
}

/// For a fixed duration, voting power does not decrease as the locked
/// amount grows.
pub proof fn lemma_ve_amount_monotonic_in_amount(config: Config, a1: int, a2: int, duration_sec: int, decimals: int)
    requires
        config.valid(),
        0 <= a1 <= a2,
        duration_sec >= 0,
    ensures
        ve_amount(config, a1, duration_sec, decimals) <= ve_amount(config, a2, duration_sec, decimals),
{
    lemma_normalized_monotonic(a1, a2, decimals);
    lemma_curve_parts(config, a1, duration_sec, decimals);
    let n1 = normalized_amount(a1, decimals);
    let n2 = normalized_amount(a2, decimals);
    let num = bonus_numerator(config, duration_sec);
    let den = bonus_denominator(config);
    lemma_bonus_terms(config, duration_sec, duration_sec);
    lemma_mul_inequality(n1, n2, num);
    lemma_div_is_ordered(n1 * num, n2 * num, den);
}

/// For a fixed amount, voting power does not decrease as the duration grows.
pub proof fn lemma_ve_amount_monotonic_in_duration(config: Config, amount: int, d1: int, d2: int, decimals: int)
    requires
        config.valid(),
        amount >= 0,
        0 <= d1 <= d2,
    ensures
        ve_amount(config, amount, d1, decimals) <= ve_amount(config, amount, d2, decimals),
{
    lemma_curve_parts(config, amount, d1, decimals);
    let n = normalized_amount(amount, decimals);
    let num1 = bonus_numerator(config, d1);
    let num2 = bonus_numerator(config, d2);
    let den = bonus_denominator(config);
    lemma_bonus_terms(config, d1, d2);
    assert(n * num1 <= n * num2) by (nonlinear_arith)
        requires n >= 0, num1 <= num2;
    lemma_div_is_ordered(n * num1, n * num2, den);
}

/// At duration zero the voting power is the normalized amount; for a token
/// with the voting token's 18 decimals it is the amount itself.
pub proof fn lemma_ve_amount_at_zero_duration(config: Config, amount: int, decimals: int)
    requires
        config.valid(),
        amount >= 0,
    ensures
        ve_amount(config, amount, 0, decimals) == normalized_amount(amount, decimals),
        decimals == LOVE_DECIMAL ==> ve_amount(config, amount, 0, decimals) == amount,
{
    let den = bonus_denominator(config);
    lemma_bonus_terms(config, 0, 0);
    let n = normalized_amount(amount, decimals);
    assert(n * 0 == 0);
    lemma_basic_div(0, den);
}

} // verus!
