//! Filters that drop expired values.

use forst_rs::clock::{Clock, SystemMillis, SystemSeconds};
use forst_rs::compaction_filter::{
    decode_ttl_payload, encode_ttl_value, CompactionDecision, CompactionFilter,
    FlinkTtlCompactionFilter, TtlCompactionFilter, TtlStateType,
};
use forst_rs::types::OpType;

fn fixed_now_1000() -> u64 {
    1000
}

#[test]
fn test_ttl_filter_name() {
    let f = TtlCompactionFilter::new(60);
    assert_eq!(f.name(), "TtlCompactionFilter(ttl_seconds=60)");
    let g = TtlCompactionFilter::new(120);
    assert_ne!(f.name(), g.name());
}

#[test]
fn test_ttl_keep_recent_entry() {
    let f = TtlCompactionFilter::with_clock(200, fixed_now_1000);
    let value = encode_ttl_value(900, b"payload");
    let mut out = Vec::new();
    assert_eq!(
        f.filter(0, b"k", Some(&value), 1, OpType::Put, &mut out),
        CompactionDecision::Keep
    );
}

#[test]
fn test_ttl_discard_expired_entry() {
    let f = TtlCompactionFilter::with_clock(100, fixed_now_1000);
    let value = encode_ttl_value(500, b"payload");
    let mut out = Vec::new();
    assert_eq!(
        f.filter(0, b"k", Some(&value), 1, OpType::Put, &mut out),
        CompactionDecision::Discard
    );
}

#[test]
fn test_ttl_exactly_at_ttl_kept() {
    let f = TtlCompactionFilter::with_clock(100, fixed_now_1000);
    let value = encode_ttl_value(900, b"payload");
    let mut out = Vec::new();
    assert_eq!(
        f.filter(0, b"k", Some(&value), 1, OpType::Put, &mut out),
        CompactionDecision::Keep
    );
}

#[test]
fn test_ttl_delete_always_kept() {
    let f = TtlCompactionFilter::with_clock(0, fixed_now_1000);
    let mut out = Vec::new();
    assert_eq!(
        f.filter(0, b"k", None, 1, OpType::Delete, &mut out),
        CompactionDecision::Keep
    );
}

#[test]
fn test_ttl_single_delete_always_kept() {
    let f = TtlCompactionFilter::with_clock(0, fixed_now_1000);
    let mut out = Vec::new();
    assert_eq!(
        f.filter(0, b"k", None, 1, OpType::SingleDelete, &mut out),
        CompactionDecision::Keep
    );
}

#[test]
fn test_ttl_value_without_timestamp_kept() {
    let f = TtlCompactionFilter::with_clock(1, fixed_now_1000);
    let mut out = Vec::new();
    assert_eq!(
        f.filter(0, b"k", Some(b"short"), 1, OpType::Put, &mut out),
        CompactionDecision::Keep
    );
}

#[test]
fn test_ttl_future_timestamp_kept() {
    let f = TtlCompactionFilter::with_clock(100, fixed_now_1000);
    let value = encode_ttl_value(2000, b"payload");
    let mut out = Vec::new();
    assert_eq!(
        f.filter(0, b"k", Some(&value), 1, OpType::Put, &mut out),
        CompactionDecision::Keep
    );
}

#[test]
fn test_encode_decode_ttl_roundtrip() {
    let encoded = encode_ttl_value(42, b"hello");
    assert_eq!(&encoded[0..8], &42u64.to_le_bytes());
    assert_eq!(decode_ttl_payload(&encoded), b"hello");
}

#[test]
fn test_decode_ttl_short_returns_input() {
    assert_eq!(decode_ttl_payload(b"abc"), b"abc");
}

#[test]
fn test_ttl_filter_merge_expired_discarded() {
    let f = TtlCompactionFilter::with_clock(50, fixed_now_1000);
    let expired = encode_ttl_value(500, b"m");
    let mut out = Vec::new();
    assert_eq!(
        f.filter(0, b"k", Some(&expired), 1, OpType::Merge, &mut out),
        CompactionDecision::Discard
    );
}

#[test]
fn test_filter_is_send_sync() {
    fn assert_send_sync<T: Send + Sync>() {}
    assert_send_sync::<TtlCompactionFilter<SystemSeconds>>();
}

fn flink_value(prefix: &[u8], ts_ms: u64, payload: &[u8]) -> Vec<u8> {
    let mut buf = Vec::with_capacity(prefix.len() + 8 + payload.len());
    buf.extend_from_slice(prefix);
    buf.extend_from_slice(&ts_ms.to_be_bytes());
    buf.extend_from_slice(payload);
    buf
}

fn fixed_supplier(now_ms: u64) -> impl Fn() -> u64 {
    move || now_ms
}

#[test]
fn test_ttl_filter_value_expired() {
    let f = FlinkTtlCompactionFilter::with_supplier(
        1000,
        TtlStateType::Value,
        0,
        fixed_supplier(1100),
    );
    let v = flink_value(b"", 500, b"payload");
    let mut out = Vec::new();
    assert_eq!(
        f.filter(0, b"k", Some(&v), 1, OpType::Put, &mut out),
        CompactionDecision::Discard
    );
    assert_eq!(
        f.name(),
        "FlinkTtlCompactionFilter(ttl_ms=1000,state_type=1,timestamp_offset=0)"
    );
    let g = FlinkTtlCompactionFilter::with_supplier(
        500,
        TtlStateType::Value,
        0,
        fixed_supplier(1100),
    );
    assert_ne!(f.name(), g.name());
}

#[test]
fn test_ttl_filter_value_not_expired() {
    let f = FlinkTtlCompactionFilter::with_supplier(
        1000,
        TtlStateType::Value,
        0,
        fixed_supplier(1000),
    );
    let v = flink_value(b"", 2000, b"payload");
    let mut out = Vec::new();
    assert_eq!(
        f.filter(0, b"k", Some(&v), 1, OpType::Put, &mut out),
        CompactionDecision::Keep
    );
}

#[test]
fn test_ttl_filter_disabled_keeps() {
    let f = FlinkTtlCompactionFilter::with_supplier(
        1,
        TtlStateType::Disabled,
        0,
        fixed_supplier(u64::MAX),
    );
    let v = flink_value(b"", 0, b"payload");
    let mut out = Vec::new();
    assert_eq!(
        f.filter(0, b"k", Some(&v), 1, OpType::Put, &mut out),
        CompactionDecision::Keep
    );
}

#[test]
fn test_ttl_filter_value_with_offset() {
    let f = FlinkTtlCompactionFilter::with_supplier(
        500,
        TtlStateType::Value,
        1,
        fixed_supplier(2000),
    );
    let v = flink_value(b"\x01", 1000, b"value");
    let mut out = Vec::new();
    assert_eq!(
        f.filter(0, b"k", Some(&v), 1, OpType::Put, &mut out),
        CompactionDecision::Discard
    );
}

#[test]
fn test_ttl_filter_keeps_tombstones() {
    let f = FlinkTtlCompactionFilter::with_supplier(
        1,
        TtlStateType::Value,
        0,
        fixed_supplier(u64::MAX),
    );
    let mut out = Vec::new();
    assert_eq!(
        f.filter(0, b"k", None, 1, OpType::Delete, &mut out),
        CompactionDecision::Keep
    );
    assert_eq!(
        f.filter(0, b"k", None, 1, OpType::SingleDelete, &mut out),
        CompactionDecision::Keep
    );
}

#[test]
fn test_ttl_filter_short_value_kept() {
    let f = FlinkTtlCompactionFilter::with_supplier(
        1,
        TtlStateType::Value,
        0,
        fixed_supplier(u64::MAX),
    );
    let mut out = Vec::new();
    assert_eq!(
        f.filter(0, b"k", Some(b"abc"), 1, OpType::Put, &mut out),
        CompactionDecision::Keep
    );
}

#[test]
fn test_ttl_filter_zero_ttl_keeps() {
    let f = FlinkTtlCompactionFilter::with_supplier(
        0,
        TtlStateType::Value,
        0,
        fixed_supplier(1000),
    );
    let v = flink_value(b"", 0, b"payload");
    let mut out = Vec::new();
    assert_eq!(
        f.filter(0, b"k", Some(&v), 1, OpType::Put, &mut out),
        CompactionDecision::Keep
    );
}

#[test]
fn test_ttl_state_type_from_ordinal() {
    assert_eq!(TtlStateType::from_ordinal(0), TtlStateType::Disabled);
    assert_eq!(TtlStateType::from_ordinal(1), TtlStateType::Value);
    assert_eq!(TtlStateType::from_ordinal(2), TtlStateType::List);
    assert_eq!(TtlStateType::from_ordinal(99), TtlStateType::Disabled);
    assert_eq!(TtlStateType::from_ordinal(-1), TtlStateType::Disabled);
    assert_eq!(TtlStateType::Value.ordinal(), 1);
    assert_eq!(TtlStateType::List.ordinal(), 2);
}

#[test]
fn test_flink_filter_is_send_sync() {
    fn assert_send_sync<T: Send + Sync>() {}
    assert_send_sync::<FlinkTtlCompactionFilter<SystemMillis>>();
}

#[test]
fn system_clocks_move_forward() {
    let a = SystemMillis.read_time();
    let b = SystemMillis.read_time();
    assert!(a > 1_600_000_000_000);
    assert!(b >= a);
    assert!(SystemSeconds.read_time() > 1_600_000_000);
}

#[test]
fn filters_with_the_system_clock_keep_fresh_values() {
    let f = TtlCompactionFilter::new(3600);
    let fresh = encode_ttl_value(SystemSeconds.read_time(), b"p");
    let mut out = Vec::new();
    assert_eq!(
        f.filter(0, b"k", Some(&fresh), 1, OpType::Put, &mut out),
        CompactionDecision::Keep
    );
    let old = encode_ttl_value(1, b"p");
    assert_eq!(
        f.filter(0, b"k", Some(&old), 1, OpType::Put, &mut out),
        CompactionDecision::Discard
    );
    let g = FlinkTtlCompactionFilter::new(1000, TtlStateType::Value, 0);
    assert_eq!(g.ttl_ms(), 1000);
    assert_eq!(g.state_type(), TtlStateType::Value);
    assert_eq!(g.timestamp_offset(), 0);
    assert!(g.is_expired_at(&flink_value(b"", 5, b""), 6));
    assert!(!g.is_expired_at(&flink_value(b"", 5, b""), 5));
}
