//! Compaction filters: per-entry verdicts during compaction, and the built-in
//! time-to-live filters.

use crate::clock::{Clock, FnClock, SystemMillis, SystemSeconds};
use crate::coding::{get_be64, get_le, put_le};
use crate::coding;
use crate::text::push_decimal;
use crate::text;
use crate::types::OpType;
use vstd::prelude::*;
use vstd::string::*;

verus! {

/// Verdict of a [`CompactionFilter`] on one entry.
#[derive(Debug, Clone, Copy, PartialEq, Eq, Structural)]
pub enum CompactionDecision {
    /// Keep the entry unchanged.
    Keep,
    /// Drop the entry.
    Discard,
    /// Replace the value by the bytes that the filter wrote.
    Replace,
}

/// The view of an optional byte slice.
pub open spec fn opt_slice(v: Option<&[u8]>) -> Option<Seq<u8>> {
    match v {
        Some(b) => Some(b@),
        None => None,
    }
}

/// Inspects entries during compaction.
pub trait CompactionFilter {
    /// The verdicts that the filter may give on an entry, with the bytes that
    /// `value_out` may hold before and after. A filter that does not say
    /// otherwise may give any.
    open spec fn may_decide(
        &self,
        level: u32,
        key: Seq<u8>,
        value: Option<Seq<u8>>,
        sequence: u64,
        op_type: OpType,
        out_before: Seq<u8>,
        decision: CompactionDecision,
        out_after: Seq<u8>,
    ) -> bool {
        true
    }

    /// Examines one entry. For [`CompactionDecision::Replace`] the filter
    /// writes the new value to `value_out`.
    fn filter(
        &self,
        level: u32,
        key: &[u8],
        value: Option<&[u8]>,
        sequence: u64,
        op_type: OpType,
        value_out: &mut Vec<u8>,
    ) -> (decision: CompactionDecision)
        ensures
            self.may_decide(
                level,
                key@,
                opt_slice(value),
                sequence,
                op_type,
                old(value_out)@,
                decision,
                final(value_out)@,
            ),
    ;

    /// Identity of the filter. Two filters that differ in anything that
    /// changes a verdict have different names.
    fn name(&self) -> String;
}

/// An entry with a tombstone or without a value is never dropped by age.
pub open spec fn ages(value: Option<Seq<u8>>, op_type: OpType) -> bool {
    value is Some && !op_type.is_tombstone()
}

/// The value starts with a little-endian timestamp in seconds that lies more
/// than `ttl_seconds` before `now`.
pub open spec fn ttl_expired(value: Seq<u8>, ttl_seconds: u64, now: u64) -> bool {
    value.len() >= 8 && now - coding::le_value(value.take(8)) > ttl_seconds
}

/// The verdict of the time-to-live filter at time `now`.
pub open spec fn ttl_decision(
    value: Option<Seq<u8>>,
    op_type: OpType,
    ttl_seconds: u64,
    now: u64,
) -> CompactionDecision {
    if ages(value, op_type) && ttl_expired(value->0, ttl_seconds, now) {
        CompactionDecision::Discard
    } else {
        CompactionDecision::Keep
    }
}

/// Drops entries whose timestamp is older than the retention window.
///
/// A value is eight little-endian bytes of seconds since the Unix epoch,
/// followed by the payload. A shorter value has no timestamp and is kept.
#[derive(Debug)]
pub struct TtlCompactionFilter<C: Clock> {
    ttl_seconds: u64,
    clock: C,
}

impl TtlCompactionFilter<SystemSeconds> {
    /// A filter on the wall clock.
    pub fn new(ttl_seconds: u64) -> (r: Self)
        ensures
            r.ttl() == ttl_seconds,
    {
        TtlCompactionFilter { ttl_seconds, clock: SystemSeconds }
    }
}

impl<F: Fn() -> u64> TtlCompactionFilter<FnClock<F>> {
    /// A filter on a caller-supplied clock.
    pub fn with_clock(ttl_seconds: u64, now_fn: F) -> (r: Self)
        requires
            call_requires(now_fn, ()),
        ensures
            r.ttl() == ttl_seconds,
            r.time_source().source() == now_fn,
    {
        TtlCompactionFilter { ttl_seconds, clock: FnClock::new(now_fn) }
    }
}

impl<C: Clock> TtlCompactionFilter<C> {
    /// The retention window in seconds.
    pub closed spec fn ttl(self) -> u64 {
        self.ttl_seconds
    }

    /// The clock.
    pub closed spec fn time_source(self) -> C {
        self.clock
    }

    /// Whether `value` is expired at time `now`.
    pub fn is_expired_at(&self, value: &[u8], now: u64) -> (r: bool)
        ensures
            r == ttl_expired(value@, self.ttl(), now),
    {
        if value.len() < 8 {
            return false;
        }
        let ts: u64 = get_le(value, 0, 8);
        assert(value@.subrange(0, 8) =~= value@.take(8));
        now.saturating_sub(ts) > self.ttl_seconds
    }

    fn is_expired(&self, value: &[u8]) -> (r: bool)
        ensures
            value@.len() < 8 ==> !r,
            value@.len() >= 8 ==> exists|now: u64| #[trigger]
                self.time_source().may_read(now) && r == ttl_expired(value@, self.ttl(), now),
    {
        if value.len() < 8 {
            return false;
        }
        let now: u64 = self.clock.read_time();
        assert(self.time_source().may_read(now));
        self.is_expired_at(value, now)
    }

    /// The verdict at time `now`.
    pub fn decide_at(&self, value: Option<&[u8]>, op_type: OpType, now: u64) -> (r:
        CompactionDecision)
        ensures
            r == ttl_decision(opt_slice(value), op_type, self.ttl(), now),
    {
        match op_type {
            OpType::Delete | OpType::SingleDelete => CompactionDecision::Keep,
            OpType::Put | OpType::Merge => match value {
                Some(v) => if self.is_expired_at(v, now) {
                    CompactionDecision::Discard
                } else {
                    CompactionDecision::Keep
                },
                None => CompactionDecision::Keep,
            },
        }
    }

    /// The name with its retention window.
    pub open spec fn identity(self) -> Seq<char> {
        "TtlCompactionFilter(ttl_seconds="@ + text::decimal(self.ttl() as nat) + ")"@
    }
}

impl<C: Clock> CompactionFilter for TtlCompactionFilter<C> {
    open spec fn may_decide(
        &self,
        level: u32,
        key: Seq<u8>,
        value: Option<Seq<u8>>,
        sequence: u64,
        op_type: OpType,
        out_before: Seq<u8>,
        decision: CompactionDecision,
        out_after: Seq<u8>,
    ) -> bool {
        &&& out_after == out_before
        &&& if ages(value, op_type) && value->0.len() >= 8 {
            exists|now: u64| #[trigger]
                self.time_source().may_read(now) && decision == ttl_decision(
                    value,
                    op_type,
                    self.ttl(),
                    now,
                )
        } else {
            decision is Keep
        }
    }

    fn filter(
        &self,
        level: u32,
        key: &[u8],
        value: Option<&[u8]>,
        sequence: u64,
        op_type: OpType,
        value_out: &mut Vec<u8>,
    ) -> (decision: CompactionDecision) {
        match op_type {
            OpType::Delete | OpType::SingleDelete => CompactionDecision::Keep,
            OpType::Put | OpType::Merge => match value {
                Some(v) => if self.is_expired(v) {
                    CompactionDecision::Discard
                } else {
                    CompactionDecision::Keep
                },
                None => CompactionDecision::Keep,
            },
        }
    }

    fn name(&self) -> (r: String)
        ensures
            r@ == self.identity(),
    {
        let mut out = String::new();
        out.append("TtlCompactionFilter(ttl_seconds=");
        push_decimal(&mut out, self.ttl_seconds);
        out.append(")");
        assert(out@ =~= self.identity());
        out
    }
}

/// Which layout of state a [`FlinkTtlCompactionFilter`] expects.
#[derive(Debug, Clone, Copy, PartialEq, Eq, Structural)]
pub enum TtlStateType {
    /// Every entry is kept.
    Disabled,
    /// The timestamp lies at the configured offset of the value.
    Value,
    /// As `Value`; the whole list expires with its first timestamp.
    List,
}

impl TtlStateType {
    /// The ordinal of the state type.
    pub open spec fn code(self) -> int {
        match self {
            TtlStateType::Disabled => 0,
            TtlStateType::Value => 1,
            TtlStateType::List => 2,
        }
    }

    /// The state type with the given ordinal; unknown ordinals disable the filter.
    pub fn from_ordinal(ordinal: i32) -> (r: Self)
        ensures
            0 <= ordinal <= 2 ==> r.code() == ordinal,
            !(0 <= ordinal <= 2) ==> r == TtlStateType::Disabled,
    {
        match ordinal {
            1 => TtlStateType::Value,
            2 => TtlStateType::List,
            _ => TtlStateType::Disabled,
        }
    }

    /// The ordinal of this state type.
    pub fn ordinal(self) -> (r: i32)
        ensures
            r == self.code(),
    {
        match self {
            TtlStateType::Disabled => 0,
            TtlStateType::Value => 1,
            TtlStateType::List => 2,
        }
    }
}

/// The eight big-endian bytes at `offset` are an expiry time before `now`.
/// A zero `ttl_ms` switches expiry off; a value too short for a timestamp at
/// `offset` does not expire.
pub open spec fn flink_expired(value: Seq<u8>, ttl_ms: u64, offset: usize, now: u64) -> bool {
    &&& ttl_ms != 0
    &&& value.len() >= offset + 8
    &&& now > coding::be_value(value.subrange(offset as int, offset + 8))
}

/// The verdict of the Flink-shaped filter at time `now`.
pub open spec fn flink_decision(
    value: Option<Seq<u8>>,
    op_type: OpType,
    ttl_ms: u64,
    state_type: TtlStateType,
    offset: usize,
    now: u64,
) -> CompactionDecision {
    if state_type != TtlStateType::Disabled && ages(value, op_type) && flink_expired(
        value->0,
        ttl_ms,
        offset,
        now,
    ) {
        CompactionDecision::Discard
    } else {
        CompactionDecision::Keep
    }
}

/// Time-to-live filter for values that carry a big-endian expiry time in
/// milliseconds at a configurable offset.
pub struct FlinkTtlCompactionFilter<C: Clock> {
    ttl_ms: u64,
    state_type: TtlStateType,
    timestamp_offset: usize,
    clock: C,
}

impl FlinkTtlCompactionFilter<SystemMillis> {
    /// A filter on the wall clock.
    pub fn new(ttl_ms: u64, state_type: TtlStateType, timestamp_offset: usize) -> (r: Self)
        ensures
            r.config() == (ttl_ms, state_type, timestamp_offset),
    {
        FlinkTtlCompactionFilter { ttl_ms, state_type, timestamp_offset, clock: SystemMillis }
    }
}

impl<F: Fn() -> u64> FlinkTtlCompactionFilter<FnClock<F>> {
    /// A filter on a caller-supplied clock.
    pub fn with_supplier(
        ttl_ms: u64,
        state_type: TtlStateType,
        timestamp_offset: usize,
        current_time_supplier: F,
    ) -> (r: Self)
        requires
            call_requires(current_time_supplier, ()),
        ensures
            r.config() == (ttl_ms, state_type, timestamp_offset),
            r.time_source().source() == current_time_supplier,
    {
        FlinkTtlCompactionFilter {
            ttl_ms,
            state_type,
            timestamp_offset,
            clock: FnClock::new(current_time_supplier),
        }
    }
}

impl<C: Clock> FlinkTtlCompactionFilter<C> {
    /// Time to live, state type and timestamp offset.
    pub closed spec fn config(self) -> (u64, TtlStateType, usize) {
        (self.ttl_ms, self.state_type, self.timestamp_offset)
    }

    /// The clock.
    pub closed spec fn time_source(self) -> C {
        self.clock
    }

    /// The configured time to live in milliseconds.
    pub fn ttl_ms(&self) -> (r: u64)
        ensures
            r == self.config().0,
    {
        self.ttl_ms
    }

    /// The configured state type.
    pub fn state_type(&self) -> (r: TtlStateType)
        ensures
            r == self.config().1,
    {
        self.state_type
    }

    /// The configured timestamp offset inside the value.
    pub fn timestamp_offset(&self) -> (r: usize)
        ensures
            r == self.config().2,
    {
        self.timestamp_offset
    }

    /// Whether the value can expire: expiry is on and a timestamp is there.
    pub open spec fn has_timestamp(self, value: Seq<u8>) -> bool {
        self.config().0 != 0 && value.len() >= self.config().2 + 8
    }

    /// Whether `value` is expired at time `now`.
    pub fn is_expired_at(&self, value: &[u8], now: u64) -> (r: bool)
        ensures
            r == flink_expired(value@, self.config().0, self.config().2, now),
    {
        if self.ttl_ms == 0 {
            return false;
        }
        let total: usize = value.len();
        if total < 8 || total - 8 < self.timestamp_offset {
            return false;
        }
        now > get_be64(value, self.timestamp_offset)
    }

    fn is_expired(&self, value: &[u8]) -> (r: bool)
        ensures
            !self.has_timestamp(value@) ==> !r,
            self.has_timestamp(value@) ==> exists|now: u64| #[trigger]
                self.time_source().may_read(now) && r == flink_expired(
                    value@,
                    self.config().0,
                    self.config().2,
                    now,
                ),
    {
        let total: usize = value.len();
        if self.ttl_ms == 0 || total < 8 || total - 8 < self.timestamp_offset {
            return false;
        }
        let now: u64 = self.clock.read_time();
        assert(self.time_source().may_read(now));
        self.is_expired_at(value, now)
    }

    /// The verdict at time `now`.
    pub fn decide_at(&self, value: Option<&[u8]>, op_type: OpType, now: u64) -> (r:
        CompactionDecision)
        ensures
            r == flink_decision(
                opt_slice(value),
                op_type,
                self.config().0,
                self.config().1,
                self.config().2,
                now,
            ),
    {
        if self.state_type == TtlStateType::Disabled {
            return CompactionDecision::Keep;
        }
        match op_type {
            OpType::Delete | OpType::SingleDelete => CompactionDecision::Keep,
            OpType::Put | OpType::Merge => match value {
                Some(v) => if self.is_expired_at(v, now) {
                    CompactionDecision::Discard
                } else {
                    CompactionDecision::Keep
                },
                None => CompactionDecision::Keep,
            },
        }
    }

    /// The name with every setting that changes a verdict.
    pub open spec fn identity(self) -> Seq<char> {
        "FlinkTtlCompactionFilter(ttl_ms="@ + text::decimal(self.config().0 as nat) + ",state_type="@
            + text::decimal(self.config().1.code() as nat) + ",timestamp_offset="@ + text::decimal(
            self.config().2 as nat,
        ) + ")"@
    }
}

impl<C: Clock> CompactionFilter for FlinkTtlCompactionFilter<C> {
    open spec fn may_decide(
        &self,
        level: u32,
        key: Seq<u8>,
        value: Option<Seq<u8>>,
        sequence: u64,
        op_type: OpType,
        out_before: Seq<u8>,
        decision: CompactionDecision,
        out_after: Seq<u8>,
    ) -> bool {
        &&& out_after == out_before
        &&& if self.config().1 != TtlStateType::Disabled && ages(value, op_type)
            && self.has_timestamp(value->0) {
            exists|now: u64| #[trigger]
                self.time_source().may_read(now) && decision == flink_decision(
                    value,
                    op_type,
                    self.config().0,
                    self.config().1,
                    self.config().2,
                    now,
                )
        } else {
            decision is Keep
        }
    }

    fn filter(
        &self,
        level: u32,
        key: &[u8],
        value: Option<&[u8]>,
        sequence: u64,
        op_type: OpType,
        value_out: &mut Vec<u8>,
    ) -> (decision: CompactionDecision) {
        if self.state_type == TtlStateType::Disabled {
            return CompactionDecision::Keep;
        }
        match op_type {
            OpType::Delete | OpType::SingleDelete => CompactionDecision::Keep,
            OpType::Put | OpType::Merge => match value {
                Some(v) => if self.is_expired(v) {
                    CompactionDecision::Discard
                } else {
                    CompactionDecision::Keep
                },
                None => CompactionDecision::Keep,
            },
        }
    }

    fn name(&self) -> (r: String)
        ensures
            r@ == self.identity(),
    {
        let mut out = String::new();
        out.append("FlinkTtlCompactionFilter(ttl_ms=");
        push_decimal(&mut out, self.ttl_ms);
        out.append(",state_type=");
        match self.state_type {
            TtlStateType::Disabled => push_decimal(&mut out, 0),
            TtlStateType::Value => push_decimal(&mut out, 1),
            TtlStateType::List => push_decimal(&mut out, 2),
        }
        out.append(",timestamp_offset=");
        push_decimal(&mut out, self.timestamp_offset as u64);
        out.append(")");
        assert(out@ =~= self.identity());
        out
    }
}

/// A timestamp of eight little-endian bytes followed by the payload.
pub fn encode_ttl_value(timestamp_seconds: u64, payload: &[u8]) -> (r: Vec<u8>)
    ensures
        r@ == coding::le_bytes(timestamp_seconds as nat, 8) + payload@,
{
    let mut buf: Vec<u8> = Vec::new();
    put_le(&mut buf, timestamp_seconds, 8);
    crate::bytes::append_bytes(&mut buf, payload);
    assert(buf@ =~= coding::le_bytes(timestamp_seconds as nat, 8) + payload@);
    buf
}

/// The payload of a timestamped value: everything after the first eight bytes,
/// or the whole value if it is shorter.
pub open spec fn ttl_payload(value: Seq<u8>) -> Seq<u8> {
    if value.len() < 8 {
        value
    } else {
        value.skip(8)
    }
}

/// The payload of a timestamped value.
pub fn decode_ttl_payload(value: &[u8]) -> (r: &[u8])
    ensures
        r@ == ttl_payload(value@),
{
    if value.len() < 8 {
        value
    } else {
        let r = vstd::slice::slice_subrange(value, 8, value.len());
        assert(r@ =~= value@.skip(8));
        r
    }
}

/// Decoding an encoded value gives back its payload and its timestamp, and the
/// value is expired exactly when its timestamp lies too far back.
pub proof fn law_ttl_value_round_trip(
    timestamp: u64,
    payload: Seq<u8>,
    ttl_seconds: u64,
    now: u64,
)
    ensures
        ttl_payload(coding::le_bytes(timestamp as nat, 8) + payload) == payload,
        coding::le_value((coding::le_bytes(timestamp as nat, 8) + payload).take(8)) == timestamp,
        ttl_expired(coding::le_bytes(timestamp as nat, 8) + payload, ttl_seconds, now) == (now - timestamp
            > ttl_seconds),
{
    crate::coding::law_fixed_read_back(0, timestamp, payload);
    crate::coding::lemma_le_bytes_len(timestamp as nat, 8);
    assert((coding::le_bytes(timestamp as nat, 8) + payload).skip(8) =~= payload);
}

/// A tombstone is always kept, whatever the clock says.
pub proof fn law_tombstones_are_kept(
    value: Option<Seq<u8>>,
    op_type: OpType,
    ttl: u64,
    state_type: TtlStateType,
    offset: usize,
    now: u64,
)
    requires
        op_type.is_tombstone(),
    ensures
        ttl_decision(value, op_type, ttl, now) is Keep,
        flink_decision(value, op_type, ttl, state_type, offset, now) is Keep,
{
}

/// Once an entry is expired it stays expired as time goes on.
pub proof fn law_expiry_is_final(
    value: Option<Seq<u8>>,
    op_type: OpType,
    ttl: u64,
    state_type: TtlStateType,
    offset: usize,
    now: u64,
    later: u64,
)
    requires
        now <= later,
    ensures
        ttl_decision(value, op_type, ttl, now) is Discard ==> ttl_decision(
            value,
            op_type,
            ttl,
            later,
        ) is Discard,
        flink_decision(value, op_type, ttl, state_type, offset, now) is Discard ==> flink_decision(
            value,
            op_type,
            ttl,
            state_type,
            offset,
            later,
        ) is Discard,
{
}

/// The little-endian timestamp that a value starts with, byte by byte: an entry is
/// dropped exactly where it is a value or a merge operand of at least eight bytes
/// and its timestamp lies more than the retention window before the clock.
pub proof fn law_ttl_verdict_in_bytes(
    value: Option<Seq<u8>>,
    op_type: OpType,
    ttl_seconds: u64,
    now: u64,
)
    ensures
        ttl_decision(value, op_type, ttl_seconds, now) is Discard <==> {
            &&& op_type is Put || op_type is Merge
            &&& value matches Some(b) && {
                &&& b.len() >= 8
                &&& now - (b[0] + 0x100 * b[1] + 0x1_0000 * b[2] + 0x100_0000 * b[3]
                    + 0x1_0000_0000 * b[4] + 0x100_0000_0000 * b[5] + 0x1_0000_0000_0000 * b[6]
                    + 0x100_0000_0000_0000 * b[7]) > ttl_seconds
            }
        },
        ttl_decision(value, op_type, ttl_seconds, now) !is Replace,
{
    if value is Some && value->0.len() >= 8 {
        coding::law_eight_bytes_are_digits(value->0.take(8));
    }
}

/// The big-endian expiry time at the offset, byte by byte: an entry is dropped
/// exactly where the filter is not disabled, the time to live is not zero, the entry
/// is a value or a merge operand with eight bytes at the offset, and the expiry time
/// lies before the clock.
pub proof fn law_flink_verdict_in_bytes(
    value: Option<Seq<u8>>,
    op_type: OpType,
    ttl_ms: u64,
    state_type: TtlStateType,
    offset: usize,
    now: u64,
)
    ensures
        flink_decision(value, op_type, ttl_ms, state_type, offset, now) is Discard <==> {
            &&& state_type is Value || state_type is List
            &&& op_type is Put || op_type is Merge
            &&& ttl_ms != 0
            &&& value matches Some(b) && {
                &&& b.len() >= offset + 8
                &&& b[offset + 7] + 0x100 * b[offset + 6] + 0x1_0000 * b[offset + 5] + 0x100_0000
                    * b[offset + 4] + 0x1_0000_0000 * b[offset + 3] + 0x100_0000_0000 * b[offset
                    + 2] + 0x1_0000_0000_0000 * b[offset + 1] + 0x100_0000_0000_0000 * b[offset + 0]
                    < now
            }
        },
        flink_decision(value, op_type, ttl_ms, state_type, offset, now) !is Replace,
{
    if value is Some && value->0.len() >= offset + 8 {
        coding::law_eight_bytes_are_digits(value->0.subrange(offset as int, offset + 8));
    }
}

/// A list is judged as a value is: by the one expiry time at the offset.
pub proof fn law_lists_expire_like_values<C: Clock>(
    list: FlinkTtlCompactionFilter<C>,
    single: FlinkTtlCompactionFilter<C>,
    level: u32,
    key: Seq<u8>,
    value: Option<Seq<u8>>,
    sequence: u64,
    op_type: OpType,
    before: Seq<u8>,
    decision: CompactionDecision,
    after: Seq<u8>,
    now: u64,
)
    requires
        list.time_source() == single.time_source(),
        list.config().0 == single.config().0,
        list.config().2 == single.config().2,
        list.config().1 is List,
        single.config().1 is Value,
    ensures
        flink_decision(value, op_type, list.config().0, TtlStateType::List, list.config().2, now)
            == flink_decision(
            value,
            op_type,
            list.config().0,
            TtlStateType::Value,
            list.config().2,
            now,
        ),
        list.may_decide(level, key, value, sequence, op_type, before, decision, after)
            == single.may_decide(level, key, value, sequence, op_type, before, decision, after),
{
    let t = list.time_source();
    assert forall|n: u64| #[trigger] t.may_read(n) implies flink_decision(
        value,
        op_type,
        list.config().0,
        list.config().1,
        list.config().2,
        n,
    ) == flink_decision(
        value,
        op_type,
        single.config().0,
        single.config().1,
        single.config().2,
        n,
    ) by {
        law_flink_verdict_in_bytes(
            value,
            op_type,
            list.config().0,
            list.config().1,
            list.config().2,
            n,
        );
        law_flink_verdict_in_bytes(
            value,
            op_type,
            single.config().0,
            single.config().1,
            single.config().2,
            n,
        );
    }
}

/// The verdicts of the Flink-shaped filter: it writes nothing, a disabled one keeps
/// every entry, and else an entry with an expiry time is dropped where the clock can
/// read a time after it and kept where the clock can read another.
pub proof fn law_flink_filter_goes_by_its_clock<C: Clock>(
    f: FlinkTtlCompactionFilter<C>,
    level: u32,
    key: Seq<u8>,
    value: Option<Seq<u8>>,
    sequence: u64,
    op_type: OpType,
    before: Seq<u8>,
    decision: CompactionDecision,
    after: Seq<u8>,
    expiry: int,
)
    requires
        value matches Some(b) ==> b.len() >= f.config().2 + 8 ==> expiry == b[f.config().2 + 7]
            + 0x100 * b[f.config().2 + 6] + 0x1_0000 * b[f.config().2 + 5] + 0x100_0000 * b[f.config().2
            + 4] + 0x1_0000_0000 * b[f.config().2 + 3] + 0x100_0000_0000 * b[f.config().2 + 2]
            + 0x1_0000_0000_0000 * b[f.config().2 + 1] + 0x100_0000_0000_0000 * b[f.config().2 + 0],
    ensures
        f.may_decide(level, key, value, sequence, op_type, before, decision, after) <==> {
            &&& after == before
            &&& if (f.config().1 is Value || f.config().1 is List) && (op_type is Put
                || op_type is Merge) && f.config().0 != 0 && value is Some && value->0.len()
                >= f.config().2 + 8 {
                ||| decision is Discard && exists|now: u64| #[trigger]
                    f.time_source().may_read(now) && expiry < now
                ||| decision is Keep && exists|now: u64| #[trigger]
                    f.time_source().may_read(now) && expiry >= now
            } else {
                decision is Keep
            }
        },
{
    let (ttl, state, offset) = f.config();
    assert forall|now: u64| #[trigger] f.time_source().may_read(now) implies (flink_decision(
        value,
        op_type,
        ttl,
        state,
        offset,
        now,
    ) == if (state is Value || state is List) && (op_type is Put || op_type is Merge) && ttl != 0
        && value is Some && value->0.len() >= offset + 8 && expiry < now {
        CompactionDecision::Discard
    } else {
        CompactionDecision::Keep
    }) by {
        law_flink_verdict_in_bytes(value, op_type, ttl, state, offset, now);
    }
}

/// The verdicts of the time-to-live filter: it writes nothing, and an entry with a
/// timestamp is dropped where the clock can read a time more than the retention
/// window after it and kept where the clock can read another.
pub proof fn law_ttl_filter_goes_by_its_clock<C: Clock>(
    f: TtlCompactionFilter<C>,
    level: u32,
    key: Seq<u8>,
    value: Option<Seq<u8>>,
    sequence: u64,
    op_type: OpType,
    before: Seq<u8>,
    decision: CompactionDecision,
    after: Seq<u8>,
    stamp: int,
)
    requires
        value matches Some(b) ==> b.len() >= 8 ==> stamp == b[0] + 0x100 * b[1] + 0x1_0000 * b[2]
            + 0x100_0000 * b[3] + 0x1_0000_0000 * b[4] + 0x100_0000_0000 * b[5]
            + 0x1_0000_0000_0000 * b[6] + 0x100_0000_0000_0000 * b[7],
    ensures
        f.may_decide(level, key, value, sequence, op_type, before, decision, after) <==> {
            &&& after == before
            &&& if (op_type is Put || op_type is Merge) && value is Some && value->0.len() >= 8 {
                ||| decision is Discard && exists|now: u64| #[trigger]
                    f.time_source().may_read(now) && now - stamp > f.ttl()
                ||| decision is Keep && exists|now: u64| #[trigger]
                    f.time_source().may_read(now) && now - stamp <= f.ttl()
            } else {
                decision is Keep
            }
        },
{
    assert forall|now: u64| #[trigger] f.time_source().may_read(now) implies (ttl_decision(
        value,
        op_type,
        f.ttl(),
        now,
    ) == if (op_type is Put || op_type is Merge) && value is Some && value->0.len() >= 8 && now
        - stamp > f.ttl() {
        CompactionDecision::Discard
    } else {
        CompactionDecision::Keep
    }) by {
        law_ttl_verdict_in_bytes(value, op_type, f.ttl(), now);
    }
}

/// The payload of a timestamped value leaves off the eight bytes of the timestamp and
/// nothing else.
pub proof fn law_payload_follows_the_timestamp(value: Seq<u8>, i: int)
    ensures
        value.len() < 8 ==> ttl_payload(value) == value,
        value.len() >= 8 ==> ttl_payload(value).len() == value.len() - 8,
        8 <= i < value.len() ==> ttl_payload(value)[i - 8] == value[i],
{
}

proof fn lemma_digits_end(a: Seq<char>, rest: Seq<char>, b: Seq<char>, other: Seq<char>)
    requires
        forall|i: int| 0 <= i < a.len() ==> crate::flags::is_digit(#[trigger] a[i]),
        forall|i: int| 0 <= i < b.len() ==> crate::flags::is_digit(#[trigger] b[i]),
        rest.len() > 0,
        other.len() > 0,
        !crate::flags::is_digit(rest[0]),
        !crate::flags::is_digit(other[0]),
        a + rest == b + other,
    ensures
        a == b,
        rest == other,
{
    let s = a + rest;
    if a.len() < b.len() {
        assert(s[a.len() as int] == rest[0]);
        assert((b + other)[a.len() as int] == b[a.len() as int]);
        assert(crate::flags::is_digit(b[a.len() as int]));
    }
    if b.len() < a.len() {
        assert((b + other)[b.len() as int] == other[0]);
        assert(s[b.len() as int] == a[b.len() as int]);
        assert(crate::flags::is_digit(a[b.len() as int]));
    }
    assert(a =~= s.take(a.len() as int));
    assert(b =~= (b + other).take(b.len() as int));
    assert(rest =~= s.skip(a.len() as int));
    assert(other =~= (b + other).skip(b.len() as int));
}

/// Two time-to-live filters share a name only if they share their retention window.
pub proof fn law_ttl_name_tells_filters_apart<C: Clock, D: Clock>(
    f: TtlCompactionFilter<C>,
    g: TtlCompactionFilter<D>,
)
    requires
        f.identity() == g.identity(),
    ensures
        f.ttl() == g.ttl(),
{
    let head = "TtlCompactionFilter(ttl_seconds="@;
    reveal_strlit(")");
    let a = text::decimal(f.ttl() as nat);
    let b = text::decimal(g.ttl() as nat);
    text::law_decimal_reads_back(f.ttl() as nat);
    text::law_decimal_reads_back(g.ttl() as nat);
    assert(f.identity().skip(head.len() as int) =~= a + ")"@);
    assert(g.identity().skip(head.len() as int) =~= b + ")"@);
    lemma_digits_end(a, ")"@, b, ")"@);
}

proof fn lemma_three_numbers(
    h1: Seq<char>,
    h2: Seq<char>,
    h3: Seq<char>,
    h4: Seq<char>,
    a: (nat, nat, nat),
    b: (nat, nat, nat),
)
    requires
        h2.len() > 0,
        h3.len() > 0,
        h4.len() > 0,
        !crate::flags::is_digit(h2[0]),
        !crate::flags::is_digit(h3[0]),
        !crate::flags::is_digit(h4[0]),
        h1 + text::decimal(a.0) + h2 + text::decimal(a.1) + h3 + text::decimal(a.2) + h4 == h1
            + text::decimal(b.0) + h2 + text::decimal(b.1) + h3 + text::decimal(b.2) + h4,
    ensures
        a == b,
{
    let (a1, a2, a3) = (text::decimal(a.0), text::decimal(a.1), text::decimal(a.2));
    let (b1, b2, b3) = (text::decimal(b.0), text::decimal(b.1), text::decimal(b.2));
    text::law_decimal_reads_back(a.0);
    text::law_decimal_reads_back(a.1);
    text::law_decimal_reads_back(a.2);
    text::law_decimal_reads_back(b.0);
    text::law_decimal_reads_back(b.1);
    text::law_decimal_reads_back(b.2);
    let a5 = h3 + (a3 + h4);
    let b5 = h3 + (b3 + h4);
    let a7 = h2 + (a2 + a5);
    let b7 = h2 + (b2 + b5);
    lemma_grouped(h1, a1, h2, a2, h3, a3, h4);
    lemma_grouped(h1, b1, h2, b2, h3, b3, h4);
    lemma_after(h1, a1 + a7);
    lemma_after(h1, b1 + b7);
    assert(a7[0] == h2[0] && b7[0] == h2[0]);
    lemma_digits_end(a1, a7, b1, b7);
    lemma_after(h2, a2 + a5);
    lemma_after(h2, b2 + b5);
    assert(a5[0] == h3[0] && b5[0] == h3[0]);
    lemma_digits_end(a2, a5, b2, b5);
    lemma_after(h3, a3 + h4);
    lemma_after(h3, b3 + h4);
    lemma_digits_end(a3, h4, b3, h4);
}

proof fn lemma_after(h: Seq<char>, t: Seq<char>)
    ensures
        (h + t).skip(h.len() as int) == t,
{
    assert((h + t).skip(h.len() as int) =~= t);
}

proof fn lemma_grouped(
    h1: Seq<char>,
    a1: Seq<char>,
    h2: Seq<char>,
    a2: Seq<char>,
    h3: Seq<char>,
    a3: Seq<char>,
    h4: Seq<char>,
)
    ensures
        h1 + a1 + h2 + a2 + h3 + a3 + h4 == h1 + (a1 + (h2 + (a2 + (h3 + (a3 + h4))))),
{
    let t = a3 + h4;
    assert(h1 + a1 + h2 + a2 + h3 + a3 + h4 =~= h1 + a1 + h2 + a2 + (h3 + t));
    let u = a2 + (h3 + t);
    assert(h1 + a1 + h2 + a2 + (h3 + t) =~= h1 + a1 + (h2 + u));
    assert(h1 + a1 + (h2 + u) =~= h1 + (a1 + (h2 + u)));
}

/// Two Flink-shaped filters share a name only if they share every setting that changes
/// a verdict.
pub proof fn law_flink_name_tells_filters_apart<C: Clock, D: Clock>(
    f: FlinkTtlCompactionFilter<C>,
    g: FlinkTtlCompactionFilter<D>,
)
    requires
        f.identity() == g.identity(),
    ensures
        f.config() == g.config(),
{
    reveal_strlit(",state_type=");
    reveal_strlit(",timestamp_offset=");
    reveal_strlit(")");
    lemma_three_numbers(
        "FlinkTtlCompactionFilter(ttl_ms="@,
        ",state_type="@,
        ",timestamp_offset="@,
        ")"@,
        (f.config().0 as nat, f.config().1.code() as nat, f.config().2 as nat),
        (g.config().0 as nat, g.config().1.code() as nat, g.config().2 as nat),
    );
}

/// The ordinals of the state types.
pub proof fn law_state_type_ordinals(a: TtlStateType, b: TtlStateType)
    ensures
        a is Disabled <==> a.code() == 0,
        a is Value <==> a.code() == 1,
        a is List <==> a.code() == 2,
        a.code() == b.code() ==> a == b,
{
}

} // verus!
