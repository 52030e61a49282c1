use pong::{HostStats, HostStatus, PingOutcome, PingResult, Ratio};

/// A fraction whose numerator fits in 128 bits, as (numerator, denominator).
fn small(r: Ratio) -> (u128, u128) {
    assert_eq!(r.num.hi, 0);
    (r.num.lo, r.den)
}

/// A fraction as (numerator high half, numerator low half, denominator).
fn parts(r: Ratio) -> (u128, u128, u128) {
    (r.num.hi, r.num.lo, r.den)
}

/// Packet loss in percent, computed as the screen computes it.
fn loss_percent(s: &HostStats) -> f64 {
    let (lost, sent) = small(s.packet_loss_pct());
    lost as f64 / sent as f64 * 100.0
}

const MS: u64 = 1_000_000;

fn ok(seq: u16, rtt: u64) -> PingResult {
    PingResult { host_index: 0, seq, outcome: PingOutcome::Success { rtt } }
}

fn timeout(seq: u16) -> PingResult {
    PingResult { host_index: 0, seq, outcome: PingOutcome::Timeout }
}

fn error(seq: u16, msg: &str) -> PingResult {
    PingResult { host_index: 0, seq, outcome: PingOutcome::Error(msg.to_string()) }
}

#[test]
fn fresh_stats_are_empty() {
    let s = HostStats::new(10);
    assert_eq!(s.sent(), 0);
    assert_eq!(s.received(), 0);
    assert_eq!(s.status(), HostStatus::Unknown);
    assert_eq!(small(s.packet_loss_pct()), (0, 1));
    assert_eq!(s.min_ms(), None);
    assert_eq!(s.max_ms(), None);
    assert!(s.avg_ms().is_none());
    assert!(s.stddev_ms().is_none());
    assert_eq!(s.jitter_ms(), None);
    assert_eq!(s.last_rtt(), None);
    assert_eq!(s.prev_rtt(), None);
    assert!(s.last_error().is_none());
    assert!(s.history().is_empty());
    assert!(s.chart_data(20).is_empty());
    assert_eq!(s.chart_max_rtt(20), 0);
}

#[test]
fn min_avg_max_stddev_jitter() {
    let mut s = HostStats::new(10);
    s.record(&ok(0, 10 * MS));
    s.record(&ok(1, 20 * MS));
    s.record(&ok(2, 30 * MS));
    assert_eq!(s.sent(), 3);
    assert_eq!(s.received(), 3);
    assert_eq!(s.min_ms(), Some(10 * MS));
    assert_eq!(s.max_ms(), Some(30 * MS));
    assert_eq!(small(s.avg_ms().unwrap()), (60 * MS as u128, 3));
    // sample variance of 10, 20, 30 ms is 100 ms², so the deviation is 10 ms:
    // (3·1400 - 60²) ms² over 6
    let v = small(s.stddev_ms().unwrap());
    assert_eq!(v, (600 * (MS as u128) * (MS as u128), 6));
    assert_eq!(v.0 / v.1, 100 * (MS as u128) * (MS as u128));
    assert_eq!(s.jitter_ms(), Some(10 * MS));
    assert_eq!(s.last_rtt(), Some(30 * MS));
    assert_eq!(s.prev_rtt(), Some(20 * MS));
    assert_eq!(small(s.packet_loss_pct()), (0, 3));
    assert_eq!(s.status(), HostStatus::Up);
}

#[test]
fn mean_lies_between_min_and_max() {
    let mut s = HostStats::new(10);
    for (i, r) in [7u64, 3, 11, 5, 2].iter().enumerate() {
        s.record(&ok(i as u16, *r));
    }
    let (min, max) = (s.min_ms().unwrap(), s.max_ms().unwrap());
    let (sum, n) = small(s.avg_ms().unwrap());
    assert_eq!((min, sum, n, max), (2, 28, 5, 11));
    assert!(min as u128 * n <= sum && sum <= max as u128 * n);
}

#[test]
fn mean_and_variance_are_exact() {
    let mut s = HostStats::new(10);
    s.record(&ok(0, 100_050_000));
    s.record(&ok(1, 100_050_001));
    let (sum, n) = small(s.avg_ms().unwrap());
    assert_eq!((sum, n), (200_100_001, 2));
    // shown as the original shows its mean
    assert_eq!(format!("{:.1}", sum as f64 / n as f64 / 1_000_000.0), "100.1");
    // (2·(x² + (x+1)²) - (2x+1)²) / 2 = 1 / 2
    assert_eq!(small(s.stddev_ms().unwrap()), (1, 2));
    s.record(&ok(2, 10));
    assert_eq!(small(s.avg_ms().unwrap()), (200_100_011, 3));
}

#[test]
fn variance_needs_two_replies() {
    let mut s = HostStats::new(10);
    s.record(&ok(0, 5 * MS));
    s.record(&timeout(1));
    assert!(s.stddev_ms().is_none());
    s.record(&ok(2, 5 * MS));
    assert_eq!(small(s.stddev_ms().unwrap()).0, 0);
}

#[test]
fn variance_of_huge_round_trip_times() {
    let mut s = HostStats::new(10);
    s.record(&ok(0, u64::MAX));
    s.record(&ok(1, u64::MAX));
    assert_eq!(parts(s.stddev_ms().unwrap()), (0, 0, 2));
    assert_eq!(small(s.avg_ms().unwrap()), (2 * u64::MAX as u128, 2));
    assert_eq!(s.min_ms(), Some(u64::MAX));

    let mut t = HostStats::new(10);
    t.record(&ok(0, 0));
    t.record(&ok(1, u64::MAX));
    // numerator 2·M² - M² = M² with M = 2^64 - 1, over 2
    let m = u64::MAX as u128;
    assert_eq!(parts(t.stddev_ms().unwrap()), (0, m * m, 2));
    t.record(&ok(2, u64::MAX));
    t.record(&ok(3, 5));
    // numerator 4·(2M² + 25) - (2M + 5)² = 4M² - 20M + 75, above 2^128
    let (hi, lo, den) = parts(t.stddev_ms().unwrap());
    assert_eq!(den, 12);
    assert_eq!(hi, 3);
    assert_eq!(lo, (m * m).wrapping_mul(4).wrapping_sub(20 * m).wrapping_add(75));
}

#[test]
fn min_falls_and_max_rises_with_replies() {
    let mut s = HostStats::new(10);
    s.record(&ok(0, 20));
    assert_eq!((s.min_ms(), s.max_ms()), (Some(20), Some(20)));
    s.record(&ok(1, 30));
    assert_eq!((s.min_ms(), s.max_ms()), (Some(20), Some(30)));
    s.record(&timeout(2));
    assert_eq!((s.min_ms(), s.max_ms()), (Some(20), Some(30)));
    s.record(&ok(3, 10));
    assert_eq!((s.min_ms(), s.max_ms()), (Some(10), Some(30)));
}

#[test]
fn reset_then_same_results_as_fresh() {
    let mut s = HostStats::new(3);
    s.record(&ok(0, 50));
    s.record(&error(1, "x"));
    s.reset();
    let mut t = HostStats::new(3);
    for r in [ok(5, 7), timeout(6), ok(7, 9), ok(8, 11)] {
        s.record(&r);
        t.record(&r);
    }
    assert_eq!(s.sent(), t.sent());
    assert_eq!(s.status(), t.status());
    assert_eq!(small(s.packet_loss_pct()), small(t.packet_loss_pct()));
    assert_eq!(s.min_ms(), t.min_ms());
    assert_eq!(small(s.avg_ms().unwrap()), small(t.avg_ms().unwrap()));
    assert_eq!(parts(s.stddev_ms().unwrap()), parts(t.stddev_ms().unwrap()));
    assert_eq!(s.jitter_ms(), t.jitter_ms());
    assert_eq!(s.chart_data(2), t.chart_data(2));
    assert_eq!(s.chart_max_rtt(4), t.chart_max_rtt(4));
    assert_eq!(s.history().len(), 3);
}

#[test]
fn jitter_needs_two_replies_in_a_row() {
    let mut s = HostStats::new(10);
    s.record(&ok(0, 40 * MS));
    assert_eq!(s.jitter_ms(), None);
    s.record(&ok(1, 25 * MS));
    assert_eq!(s.jitter_ms(), Some(15 * MS));
    s.record(&timeout(2));
    assert_eq!(s.jitter_ms(), None);
    assert_eq!(s.prev_rtt(), Some(25 * MS));
}

#[test]
fn status_elevated_above_threshold() {
    let mut s = HostStats::new(10);
    s.record(&ok(0, 100 * MS));
    assert_eq!(s.status(), HostStatus::Up);
    s.record(&ok(1, 100 * MS + 1));
    assert_eq!(s.status(), HostStatus::Elevated);
}

#[test]
fn status_after_failures() {
    let mut s = HostStats::new(10);
    s.record(&timeout(0));
    // never a reply: down
    assert_eq!(s.status(), HostStatus::Down);
    s.record(&ok(1, MS));
    s.record(&timeout(2));
    // replied before, last one failed: elevated
    assert_eq!(s.status(), HostStatus::Elevated);
    for i in 3..6u16 {
        s.record(&timeout(i));
        assert_eq!(s.status(), HostStatus::Elevated);
    }
    s.record(&error(6, "unreachable"));
    // five failures in a row: down
    assert_eq!(s.status(), HostStatus::Down);
    s.record(&ok(7, MS));
    assert_eq!(s.status(), HostStatus::Up);
}

#[test]
fn packet_loss_is_lost_over_sent() {
    let mut s = HostStats::new(10);
    s.record(&ok(0, MS));
    s.record(&timeout(1));
    s.record(&ok(2, MS));
    assert_eq!(small(s.packet_loss_pct()), (1, 3));
    assert_eq!(format!("{:.2}", loss_percent(&s)), "33.33");
    s.record(&timeout(3));
    s.record(&timeout(4));
    s.record(&timeout(5));
    assert_eq!(small(s.packet_loss_pct()), (4, 6));
    assert_eq!(format!("{:.2}", loss_percent(&s)), "66.67");
}

#[test]
fn packet_loss_shown_as_the_float_percentage() {
    let mut s = HostStats::new(10);
    s.record(&timeout(0));
    for i in 1..20_000u32 {
        s.record(&ok(i as u16, 1));
    }
    assert_eq!(small(s.packet_loss_pct()), (1, 20_000));
    assert_eq!(format!("{:.2}", loss_percent(&s)), format!("{:.2}", 1.0 / 20_000.0 * 100.0));
    let mut t = HostStats::new(10);
    t.record(&timeout(0));
    for i in 1..32u16 {
        t.record(&ok(i, 1));
    }
    assert_eq!(small(t.packet_loss_pct()), (1, 32));
    assert_eq!(format!("{:.2}", loss_percent(&t)), "3.12");
}

#[test]
fn packet_loss_never_above_hundred_percent() {
    let mut s = HostStats::new(10);
    for i in 0..7u16 {
        s.record(&timeout(i));
    }
    assert_eq!(small(s.packet_loss_pct()), (7, 7));
    assert_eq!(loss_percent(&s), 100.0);
    let mut t = HostStats::new(10);
    for i in 0..7u16 {
        t.record(&ok(i, 1));
        t.record(&timeout(i));
        t.record(&timeout(i));
    }
    let (lost, sent) = small(t.packet_loss_pct());
    assert_eq!((lost, sent), (14, 21));
    assert!(lost <= sent);
    assert!(t.received() <= t.sent());
}

#[test]
fn last_error_kept_by_replies_cleared_by_timeouts() {
    let mut s = HostStats::new(10);
    s.record(&error(0, "no route"));
    assert_eq!(s.last_error().as_deref(), Some("no route"));
    s.record(&ok(1, MS));
    assert_eq!(s.last_error().as_deref(), Some("no route"));
    s.record(&timeout(2));
    assert!(s.last_error().is_none());
}

#[test]
fn history_keeps_latest_entries() {
    let mut s = HostStats::new(3);
    s.record(&ok(0, 1));
    s.record(&timeout(1));
    s.record(&ok(2, 3));
    s.record(&ok(3, 4));
    s.record(&timeout(4));
    let h: Vec<(u16, Option<u64>)> = s.history().iter().copied().collect();
    assert_eq!(h, vec![(2, Some(3)), (3, Some(4)), (4, None)]);
    assert_eq!(s.sent(), 5);
}

#[test]
fn history_with_zero_capacity_keeps_one() {
    let mut s = HostStats::new(0);
    s.record(&ok(0, 1));
    s.record(&ok(1, 2));
    let h: Vec<(u16, Option<u64>)> = s.history().iter().copied().collect();
    assert_eq!(h, vec![(1, Some(2))]);
}

#[test]
fn chart_data_skips_failures_and_windows() {
    let mut s = HostStats::new(10);
    s.record(&ok(0, 5));
    s.record(&timeout(1));
    s.record(&ok(2, 7));
    s.record(&ok(3, 9));
    assert_eq!(s.chart_data(10), vec![(0, 5), (2, 7), (3, 9)]);
    // only the latest three entries: timeout, 7, 9
    assert_eq!(s.chart_data(3), vec![(1, 7), (2, 9)]);
    assert_eq!(s.chart_data(0), vec![]);
    assert_eq!(s.chart_max_rtt(10), 9);
    assert_eq!(s.chart_max_rtt(1), 9);
    assert_eq!(s.chart_max_rtt(0), 0);
}

#[test]
fn chart_max_is_at_least_every_point() {
    let mut s = HostStats::new(10);
    for (i, r) in [4u64, 12, 8].iter().enumerate() {
        s.record(&ok(i as u16, *r));
    }
    let max = s.chart_max_rtt(10);
    assert_eq!(max, 12);
    for (_, r) in s.chart_data(10) {
        assert!(r <= max);
    }
}

#[test]
fn reset_returns_to_fresh_state() {
    let mut s = HostStats::new(2);
    s.record(&ok(0, 5));
    s.record(&error(1, "boom"));
    s.reset();
    assert_eq!(s.sent(), 0);
    assert_eq!(s.received(), 0);
    assert_eq!(s.status(), HostStatus::Unknown);
    assert_eq!(s.min_ms(), None);
    assert!(s.last_error().is_none());
    assert!(s.history().is_empty());
    // the capacity stays
    s.record(&ok(2, 1));
    s.record(&ok(3, 2));
    s.record(&ok(4, 3));
    assert_eq!(s.history().len(), 2);
}
