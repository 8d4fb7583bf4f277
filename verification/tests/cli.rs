use std::time::Duration;
use tick_tock_tau::cli::config::{parse_natural, Config};
use tick_tock_tau::cli::{fmt_seconds, fmt_time, BatchPlan};
use tick_tock_tau::numbers::BigNat;

fn nat_value(n: &BigNat) -> Option<u64> {
    let limbs = n.limbs();
    if limbs.iter().skip(1).all(|&l| l == 0) {
        Some(limbs.first().copied().unwrap_or(0))
    } else {
        None
    }
}

fn config(start: Option<u64>, num_bytes: Option<u64>) -> Config {
    Config {
        output_path: None,
        log_path: None,
        start_index: start.map(BigNat::from_u64),
        num_bytes: num_bytes.map(BigNat::from_u64),
        num_threads: None,
        min_batch_size: 1,
        max_batch_size: None,
        initial_precision: None,
        no_status: false,
        no_waterfall: false,
        is_quiet: false,
    }
}

#[test]
fn seconds_with_milliseconds() {
    assert_eq!(fmt_seconds(5, 6), "5.006 seconds");
    assert_eq!(fmt_seconds(0, 250), "0.250 seconds");
    assert_eq!(fmt_seconds(59, 999), "59.999 seconds");
    assert_eq!(fmt_seconds(1, 0), "1.000 seconds");
}

#[test]
fn whole_seconds_from_a_minute_on() {
    assert_eq!(fmt_seconds(60, 500), "1 minute, 0 seconds");
    assert_eq!(fmt_seconds(61, 0), "1 minute, 1 second");
    assert_eq!(fmt_seconds(125, 7), "2 minutes, 5 seconds");
    assert_eq!(fmt_seconds(3661, 0), "1 hour, 1 minute, 1 second");
    assert_eq!(fmt_seconds(7200, 0), "2 hours, 0 seconds");
}

#[test]
fn days_hours_minutes_seconds() {
    assert_eq!(fmt_seconds(93784, 5), "1 day, 2 hours, 3 minutes, 4 seconds");
    assert_eq!(fmt_seconds(172800, 0), "2 days, 0 seconds");
    assert_eq!(fmt_seconds(10 * 86400 + 59, 0), "10 days, 59 seconds");
    assert_eq!(
        fmt_seconds(u64::MAX, 0),
        "213503982334601 days, 7 hours, 15 seconds"
    );
}

#[test]
fn durations_as_text() {
    assert_eq!(fmt_time(Duration::from_millis(5006)), "5.006 seconds");
    assert_eq!(fmt_time(Duration::from_millis(250)), "0.250 seconds");
    assert_eq!(fmt_time(Duration::new(3661, 999_999_999)), "1 hour, 1 minute, 1 second");
    assert_eq!(fmt_time(Duration::from_secs(172800)), "2 days, 0 seconds");
}

#[test]
fn naturals_with_underscores() {
    assert_eq!(parse_natural("1_000").map(|n| nat_value(&n)), Ok(Some(1000)));
    assert_eq!(parse_natural("42").map(|n| nat_value(&n)), Ok(Some(42)));
    assert_eq!(parse_natural("_1__2_").map(|n| nat_value(&n)), Ok(Some(12)));
    assert_eq!(parse_natural("+5").map(|n| nat_value(&n)), Ok(Some(5)));
    let big = parse_natural("18_446_744_073_709_551_616").expect("digits");
    assert_eq!(nat_value(&big), None);
    assert_eq!(big.limbs()[..2], [0, 1]);
}

#[test]
fn naturals_that_are_refused() {
    let message = "input must consist only of digits and underscores".to_string();
    for bad in ["", "_", "abc", "1,000", "1.5", "-3", "1 000", "0x10"] {
        assert_eq!(parse_natural(bad).map(|n| nat_value(&n)), Err(message.clone()), "{bad:?}");
    }
}

#[test]
fn a_plan_from_a_start_index() {
    let plan = BatchPlan::new(&config(Some(16), Some(10)), 0);
    assert_eq!(nat_value(plan.current_index()), Some(16));
    assert_eq!(plan.output_position(), Some(16));
    // 16 has five significant bits: 5 / 4 + 1 = 2 bytes
    assert_eq!(plan.precision(), 16);
    assert_eq!(plan.min_batch_size(), 1);
    assert!(plan.has_next());
    // the bytes 16 to 25
    assert_eq!(plan.next_max_batch_size(), Some(10));
}

#[test]
fn a_plan_from_the_end_of_the_output() {
    let plan = BatchPlan::new(&config(None, None), 300);
    assert_eq!(nat_value(plan.current_index()), Some(300));
    // 300 has nine significant bits: 9 / 4 + 1 = 3 bytes
    assert_eq!(plan.precision(), 24);
    assert!(plan.has_next());
    assert_eq!(plan.next_max_batch_size(), None);
}

#[test]
fn a_plan_with_configured_sizes() {
    let mut c = config(Some(0), Some(100));
    c.max_batch_size = Some(7);
    c.min_batch_size = 4;
    c.initial_precision = Some(40);
    let plan = BatchPlan::new(&c, 12);
    assert_eq!(nat_value(plan.current_index()), Some(0));
    assert_eq!(plan.precision(), 40);
    assert_eq!(plan.min_batch_size(), 4);
    assert_eq!(plan.next_max_batch_size(), Some(7));
    let mut c = config(Some(0), Some(3));
    c.max_batch_size = Some(7);
    assert_eq!(BatchPlan::new(&c, 0).next_max_batch_size(), Some(3));
}

#[test]
fn a_plan_advances_and_ends() {
    let mut plan = BatchPlan::new(&config(Some(0), Some(10)), 0);
    assert_eq!(plan.precision(), 8);
    plan.finished(4);
    assert_eq!(nat_value(plan.current_index()), Some(4));
    assert!(plan.has_next());
    assert_eq!(plan.next_max_batch_size(), Some(6));
    plan.finished(6);
    assert_eq!(nat_value(plan.current_index()), Some(10));
    assert!(!plan.has_next());
    assert_eq!(plan.precision(), 8);
}

#[test]
fn too_few_bytes_raise_the_precision() {
    let mut c = config(Some(0), None);
    c.min_batch_size = 5;
    let mut plan = BatchPlan::new(&c, 0);
    assert_eq!(plan.precision(), 40);
    plan.insufficient_precision(2);
    assert_eq!(plan.precision(), 40 + 3 * 8);
    plan.insufficient_precision(0);
    assert_eq!(plan.precision(), 64 + 5 * 8);
    assert_eq!(nat_value(plan.current_index()), Some(0));
}

#[test]
fn a_start_beyond_a_file_position() {
    let start = parse_natural("100_000_000_000_000_000_000").expect("digits");
    let c = Config { start_index: Some(start), ..config(None, None) };
    let plan = BatchPlan::new(&c, 0);
    assert_eq!(plan.output_position(), None);
    // 10^20 has 67 significant bits: 67 / 4 + 1 = 17 bytes
    assert_eq!(plan.precision(), 136);
}

#[test]
fn a_single_requested_byte() {
    let plan = BatchPlan::new(&config(Some(0), Some(1)), 0);
    assert_eq!(plan.next_max_batch_size(), Some(1));
    let plan = BatchPlan::new(&config(Some(7), Some(5)), 0);
    assert_eq!(plan.next_max_batch_size(), Some(5));
}

#[test]
fn the_default_precision_grows_with_the_minimum_batch() {
    let mut c = config(Some(16), None);
    c.min_batch_size = 3;
    // 16 has five significant bits: 5 / 4 = 1 byte, and 3 more for the batch
    assert_eq!(BatchPlan::new(&c, 0).precision(), 32);
}
