//! Counters, gauges and bucket counts.

use forst_rs::metrics::metric_names;
use forst_rs::metrics::{BucketCounts, Counter, Gauge};

#[test]
fn test_counter_new() {
    let c = Counter::new();
    assert_eq!(c.get(), 0);
}

#[test]
fn test_counter_inc() {
    let mut c = Counter::new();
    c.inc();
    c.inc();
    assert_eq!(c.get(), 2);
}

#[test]
fn test_counter_inc_by() {
    let mut c = Counter::new();
    c.inc_by(10);
    c.inc_by(20);
    assert_eq!(c.get(), 30);
}

#[test]
fn test_counter_reset() {
    let mut c = Counter::new();
    c.inc_by(100);
    c.reset();
    assert_eq!(c.get(), 0);
}

#[test]
fn test_gauge_new() {
    let g = Gauge::new();
    assert_eq!(g.get(), 0);
}

#[test]
fn test_gauge_set() {
    let mut g = Gauge::new();
    g.set(42);
    assert_eq!(g.get(), 42);
}

#[test]
fn test_gauge_inc_dec() {
    let mut g = Gauge::new();
    g.inc_by(10);
    g.dec_by(3);
    assert_eq!(g.get(), 7);
}

#[test]
fn test_gauge_negative() {
    let mut g = Gauge::new();
    g.dec_by(5);
    assert_eq!(g.get(), -5);
}










#[test]
fn test_metric_names_are_non_empty() {
    assert!(metric_names::WAL_BYTES_WRITTEN.len() > "forst.".len());
    assert!(metric_names::READ_LATENCY_US.len() > "forst.".len());
    assert!(metric_names::WAL_BYTES_WRITTEN.starts_with("forst."));
    assert!(metric_names::READ_LATENCY_US.starts_with("forst."));
}




#[test]
fn counter_and_gauge_wrap_around() {
    let mut c = Counter::new();
    c.inc_by(u64::MAX);
    c.inc_by(2);
    assert_eq!(c.get(), 1);
    let mut g = Gauge::new();
    g.set(i64::MAX);
    g.inc_by(1);
    assert_eq!(g.get(), i64::MIN);
    g.dec_by(1);
    assert_eq!(g.get(), i64::MAX);
}

#[test]
fn bucket_counts_follow_observations() {
    let mut b = BucketCounts::new(3);
    b.record(Some(0), 5_000_000);
    b.record(Some(1), 25_000_000);
    b.record(Some(2), 75_000_000);
    b.record(None, 200_000_000);
    assert_eq!(b.count(), 4);
    assert_eq!(b.sum_fixed, 305_000_000);
    assert_eq!(b.counts, vec![1, 1, 1]);
    assert_eq!(b.overflow, 1);
}

#[test]
fn rank_bucket_finds_the_first_that_reaches_the_rank() {
    let mut b = BucketCounts::new(3);
    for _ in 0..10 {
        b.record(Some(0), 0);
    }
    for _ in 0..40 {
        b.record(Some(1), 0);
    }
    for _ in 0..50 {
        b.record(Some(2), 0);
    }
    assert_eq!(b.rank_bucket(10), Some((0, 0, 10)));
    assert_eq!(b.rank_bucket(50), Some((1, 10, 40)));
    assert_eq!(b.rank_bucket(99), Some((2, 50, 50)));
    assert_eq!(b.rank_bucket(101), None);
}

#[test]
fn every_observation_is_counted_once() {
    let mut b = BucketCounts::new(4);
    for n in 0..1000usize {
        let bucket = if n % 5 == 4 { None } else { Some(n % 5) };
        b.record(bucket, n as i64);
        let sum: u64 = b.counts.iter().sum();
        assert_eq!(sum + b.overflow, b.count());
    }
    assert_eq!(b.count(), 1000);
    assert_eq!(b.overflow, 200);
}

#[test]
fn an_observation_goes_to_the_first_bucket_that_holds_it() {
    let bounds = [10.0, 50.0, 50.0, 100.0];
    let mut b = BucketCounts::new(4);
    for value in [5.0, 10.0, 10.5, 50.0, 99.0, 100.0, 100.5, f64::NAN, f64::INFINITY] {
        b.observe(&|i: usize| value <= bounds[i], (value * 10.0) as i64);
    }
    assert_eq!(b.counts, vec![2, 2, 0, 2]);
    assert_eq!(b.overflow, 3);
    assert_eq!(b.count(), 9);
}
