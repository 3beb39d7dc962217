use ref_ve::auction::{award_portions, portion_price};
use ref_ve::curve::{compute_ve_lpt_amount, Config};
use ref_ve::legacy::ConfigV0100;
use ref_ve::utils::{nano_to_sec, to_nano, DEFAULT_MAX_LOCKING_DURATION_SEC, DEFAULT_MIN_LOCKING_DURATION_SEC};

const E18: u128 = 1_000_000_000_000_000_000;
const E24: u128 = 1_000_000_000_000_000_000_000_000;

#[test]
fn default_config_is_two_x_over_a_year() {
    let c = Config::default_config();
    assert!(c.assert_valid());
    assert_eq!(c.max_locking_multiplier, 20000);
    assert_eq!(c.max_locking_duration_sec, 31104000);
    assert_eq!(c.min_locking_duration_sec, 2592000);
}

#[test]
fn full_duration_doubles_the_normalized_amount() {
    let c = Config::default_config();
    // 24-decimal token: 100 tokens normalize to 100 * 10^18.
    assert_eq!(compute_ve_lpt_amount(&c, 100 * E24, DEFAULT_MAX_LOCKING_DURATION_SEC, 24), Some(200 * E18));
    // 18 decimals: no scaling.
    assert_eq!(compute_ve_lpt_amount(&c, 100 * E18, DEFAULT_MAX_LOCKING_DURATION_SEC, 18), Some(200 * E18));
    // 12 decimals: scaled up by 10^6.
    assert_eq!(compute_ve_lpt_amount(&c, 100_000_000_000_000, DEFAULT_MAX_LOCKING_DURATION_SEC, 12), Some(200 * E18));
}

#[test]
fn partial_duration_earns_a_linear_bonus() {
    let c = Config::default_config();
    // One twelfth of the maximum duration: bonus of one twelfth.
    let d = DEFAULT_MAX_LOCKING_DURATION_SEC / 12;
    assert_eq!(d, DEFAULT_MIN_LOCKING_DURATION_SEC);
    assert_eq!(compute_ve_lpt_amount(&c, 120 * E18, d, 18), Some(130 * E18));
}

#[test]
fn zero_duration_gives_the_amount_itself() {
    let c = Config::default_config();
    assert_eq!(compute_ve_lpt_amount(&c, 12345, 0, 18), Some(12345));
    assert_eq!(compute_ve_lpt_amount(&c, 0, 0, 18), Some(0));
    // With more decimals the amount is normalized first.
    assert_eq!(compute_ve_lpt_amount(&c, 12_345_678, 0, 24), Some(12));
}

#[test]
fn curve_is_monotonic_on_examples() {
    let c = Config::default_config();
    let mut last = 0u128;
    for amount in [0u128, 1, 10, 1000, 5 * E18, 7 * E24] {
        let v = compute_ve_lpt_amount(&c, amount, DEFAULT_MIN_LOCKING_DURATION_SEC, 18).unwrap();
        assert!(v >= last);
        last = v;
    }
    let mut last = 0u128;
    for d in [0u32, 1, 86400, DEFAULT_MIN_LOCKING_DURATION_SEC, DEFAULT_MAX_LOCKING_DURATION_SEC] {
        let v = compute_ve_lpt_amount(&c, 3 * E18, d, 18).unwrap();
        assert!(v >= last);
        last = v;
    }
}

#[test]
fn curve_reports_overflow() {
    let c = Config::default_config();
    assert_eq!(compute_ve_lpt_amount(&c, u128::MAX, DEFAULT_MAX_LOCKING_DURATION_SEC, 18), None);
    assert_eq!(compute_ve_lpt_amount(&c, u128::MAX / 2, 0, 12), None);
    // Very many decimals normalize everything to zero.
    assert_eq!(compute_ve_lpt_amount(&c, u128::MAX, DEFAULT_MAX_LOCKING_DURATION_SEC, 255), Some(0));
}

#[test]
fn time_conversions() {
    assert_eq!(to_nano(3), 3_000_000_000);
    assert_eq!(to_nano(u32::MAX), 4_294_967_295_000_000_000);
    assert_eq!(nano_to_sec(3_999_999_999), 3);
    assert_eq!(nano_to_sec(0), 0);
}

#[test]
fn portion_auction_awards_by_rank() {
    let votes = vec![400u128, 100, 200];
    let price = portion_price(&votes, 3);
    assert_eq!(price, 200);
    assert_eq!(award_portions(&votes, price), vec![(0usize, 2u128), (2, 1)]);
}

#[test]
fn portion_auction_ties_go_to_the_lower_index() {
    let votes = vec![100u128, 300, 300, 50];
    let price = portion_price(&votes, 4);
    assert_eq!(price, 150);
    assert_eq!(award_portions(&votes, price), vec![(1usize, 2u128), (2, 2)]);
}

#[test]
fn portion_auction_without_enough_votes() {
    assert_eq!(portion_price(&vec![1u128, 1], 3), 0);
    assert_eq!(portion_price(&vec![], 1), 0);
    assert_eq!(portion_price(&vec![10u128, 20], 0), 0);
    // Exactly enough at price one.
    assert_eq!(portion_price(&vec![1u128, 2], 3), 1);
    assert_eq!(award_portions(&vec![1u128, 2], 1), vec![(1usize, 2u128), (0, 1)]);
}

#[test]
fn legacy_config_upgrade_adds_voting_bounds() {
    let old = ConfigV0100 {
        min_proposal_start_vote_offset_sec: 5,
        min_locking_duration_sec: 6,
        max_locking_duration_sec: 7,
        max_locking_multiplier: 30000,
    };
    let c = old.upgrade();
    assert_eq!(c.min_proposal_start_vote_offset_sec, 5);
    assert_eq!(c.min_locking_duration_sec, 6);
    assert_eq!(c.max_locking_duration_sec, 7);
    assert_eq!(c.max_locking_multiplier, 30000);
    assert_eq!(c.min_voting_duration_sec, 259200);
    assert_eq!(c.max_voting_duration_sec, 2592000);
}
