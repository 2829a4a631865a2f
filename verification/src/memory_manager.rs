//! One memory budget for the whole engine, split among its consumers, and the
//! admission of compactions to their part of it.

use crate::flags;
use crate::flags::{is_off, is_on, parse_positive, saturating_product};
use crate::mem_pressure;
use crate::mem_pressure::parse_limit;
use crate::text;
use crate::text::push_decimal;
use vstd::prelude::*;
use vstd::string::*;

verus! {

/// The parts of the engine among which its memory is split.
#[derive(Clone, Copy, Debug, PartialEq, Eq, Structural)]
pub enum Consumer {
    /// Decoded blocks, for each database.
    BlockCache,
    /// Memtables.
    WriteBuffer,
    /// Flushed memtables kept for reading.
    ResidentShadow,
    /// Readers of the value log.
    VlogResident,
    /// The working set of compactions.
    CompactionTransient,
}

/// The part of the budget for a consumer, in hundredths.
pub open spec fn percent_of(consumer: Consumer) -> u64 {
    match consumer {
        Consumer::BlockCache => 28,
        Consumer::WriteBuffer => 30,
        Consumer::ResidentShadow => 18,
        Consumer::VlogResident => 10,
        Consumer::CompactionTransient => 14,
    }
}

impl Consumer {
    /// The part of the budget for the consumer, in hundredths.
    pub fn split_percent(self) -> (r: u64)
        ensures
            r == percent_of(self),
    {
        match self {
            Consumer::BlockCache => 28,
            Consumer::WriteBuffer => 30,
            Consumer::ResidentShadow => 18,
            Consumer::VlogResident => 10,
            Consumer::CompactionTransient => 14,
        }
    }
}

/// The parts make up the whole budget.
pub proof fn law_split_is_whole()
    ensures
        percent_of(Consumer::BlockCache) + percent_of(Consumer::WriteBuffer) + percent_of(
            Consumer::ResidentShadow,
        ) + percent_of(Consumer::VlogResident) + percent_of(Consumer::CompactionTransient) == 100,
{
}

/// Bytes in a mebibyte.
pub const MIB: u64 = 1_048_576;

/// The least budget.
pub const ENGINE_NATIVE_FLOOR: u64 = 1_610_612_736;

/// The part of the limit set aside for the virtual machine unless its size is
/// given, in hundredths.
pub const JVM_PERCENT: u64 = 64;

/// The part of the limit kept free, in hundredths.
pub const HEADROOM_PERCENT: u64 = 10;

/// The settings, as they are given.
#[derive(Clone, Copy)]
pub struct MemorySettings<'a> {
    /// Whether there is one budget at all.
    pub manager: Option<&'a str>,
    /// The limit in mebibytes, in place of the control group's.
    pub cgroup_mb: Option<&'a str>,
    /// The contents of the control group's limit file.
    pub group_limit: Option<&'a str>,
    pub jvm_reserved_mb: Option<&'a str>,
    pub ffm_reserved_mb: Option<&'a str>,
    pub headroom_mb: Option<&'a str>,
    /// The number of databases in the process.
    pub instances: Option<&'a str>,
    /// Whether compactions wait for admission.
    pub compact_admission: Option<&'a str>,
}

impl<'a> MemorySettings<'a> {
    /// No setting is given.
    pub fn unset() -> (r: Self)
        ensures
            r.manager is None,
            r.cgroup_mb is None,
            r.group_limit is None,
            r.jvm_reserved_mb is None,
            r.ffm_reserved_mb is None,
            r.headroom_mb is None,
            r.instances is None,
            r.compact_admission is None,
    {
        MemorySettings {
            manager: None,
            cgroup_mb: None,
            group_limit: None,
            jvm_reserved_mb: None,
            ffm_reserved_mb: None,
            headroom_mb: None,
            instances: None,
            compact_admission: None,
        }
    }
}

/// What is known and held in the process.
pub struct MemoryState {
    /// The budget is known to be on.
    pub armed: bool,
    /// The budget once it is known, else 0.
    pub budget: u64,
    /// Bytes admitted for compactions that run.
    pub inflight: u64,
    /// Number of compactions that had to wait.
    pub waits: u64,
}

impl MemoryState {
    /// Nothing known, nothing held.
    pub fn new() -> (r: Self)
        ensures
            r == (MemoryState { armed: false, budget: 0, inflight: 0, waits: 0 }),
    {
        MemoryState { armed: false, budget: 0, inflight: 0, waits: 0 }
    }
}

/// The number that is given, in mebibytes, as bytes.
pub open spec fn mb_bytes(raw: Option<&str>) -> Option<u64> {
    match flags::positive(raw) {
        Some(mb) => Some(flags::capped_product(mb, MIB)),
        None => None,
    }
}

/// Reads a number of mebibytes.
fn env_mb(raw: Option<&str>) -> (r: Option<u64>)
    ensures
        r == mb_bytes(raw),
{
    match parse_positive(raw) {
        Some(mb) => Some(saturating_product(mb, MIB)),
        None => None,
    }
}

/// The number of databases to reckon with.
pub open spec fn instances(s: MemorySettings<'_>) -> u64 {
    match flags::positive(s.instances) {
        Some(n) => n,
        None => 8,
    }
}

/// The number of databases to reckon with.
pub fn assumed_instances(s: &MemorySettings<'_>) -> (r: u64)
    ensures
        r == instances(*s),
        r > 0,
{
    match parse_positive(s.instances) {
        Some(n) => n,
        None => 8,
    }
}

/// The budget is on.
pub open spec fn enabled(state: MemoryState, s: MemorySettings<'_>) -> bool {
    state.armed || flags::on(s.manager)
}

/// Whether the budget is on. Once it is, it stays on.
pub fn manager_enabled(state: &mut MemoryState, s: &MemorySettings<'_>) -> (r: bool)
    ensures
        r == enabled(*old(state), *s),
        *final(state) == (MemoryState { armed: r, ..*old(state) }),
{
    if state.armed {
        return true;
    }
    let on: bool = is_on(s.manager);
    if on {
        state.armed = true;
    }
    on
}

/// The limit on the process's memory.
pub open spec fn group_budget(s: MemorySettings<'_>) -> Option<u64> {
    match mb_bytes(s.cgroup_mb) {
        Some(b) => Some(b),
        None => match s.group_limit {
            Some(t) => mem_pressure::limit_in(t@),
            None => None,
        },
    }
}

/// The limit on the process's memory.
pub fn cgroup_budget_bytes(s: &MemorySettings<'_>) -> (r: Option<u64>)
    ensures
        r == group_budget(*s),
{
    match env_mb(s.cgroup_mb) {
        Some(b) => Some(b),
        None => match s.group_limit {
            Some(t) => parse_limit(t),
            None => None,
        },
    }
}

/// `r` is what is set aside for the virtual machine of the limit `cgroup`.
pub open spec fn jvm_may<F: Fn(u64, u64) -> u64>(
    s: MemorySettings<'_>,
    share_of: F,
    cgroup: u64,
    r: u64,
) -> bool {
    match mb_bytes(s.jvm_reserved_mb) {
        Some(b) => r == b,
        None => call_ensures(share_of, (cgroup, JVM_PERCENT), r),
    }
}

/// What is set aside for the virtual machine: what is given, or else its part
/// of the limit. `share_of` takes some hundredths of an amount.
pub fn jvm_reserved_bytes<F: Fn(u64, u64) -> u64>(
    s: &MemorySettings<'_>,
    share_of: &F,
    cgroup: u64,
) -> (r: u64)
    requires
        call_requires(*share_of, (cgroup, JVM_PERCENT)),
    ensures
        jvm_may(*s, *share_of, cgroup, r),
{
    match env_mb(s.jvm_reserved_mb) {
        Some(b) => b,
        None => share_of(cgroup, JVM_PERCENT),
    }
}

/// What is set aside for buffers outside the engine.
pub open spec fn ffm_reserved(s: MemorySettings<'_>) -> u64 {
    match mb_bytes(s.ffm_reserved_mb) {
        Some(b) => b,
        None => (512 * MIB) as u64,
    }
}

/// What is set aside for buffers outside the engine.
pub fn ffm_reserved_bytes(s: &MemorySettings<'_>) -> (r: u64)
    ensures
        r == ffm_reserved(*s),
{
    match env_mb(s.ffm_reserved_mb) {
        Some(b) => b,
        None => 512 * MIB,
    }
}

/// The greater of two numbers.
pub open spec fn greater_of(a: u64, b: u64) -> u64 {
    if a >= b {
        a
    } else {
        b
    }
}

/// The least that is kept free.
pub open spec fn headroom_floor(s: MemorySettings<'_>) -> u64 {
    match mb_bytes(s.headroom_mb) {
        Some(b) => b,
        None => (1024 * MIB) as u64,
    }
}

/// `r` is what is kept free of the limit `cgroup`.
pub open spec fn headroom_may<F: Fn(u64, u64) -> u64>(
    s: MemorySettings<'_>,
    share_of: F,
    cgroup: u64,
    r: u64,
) -> bool {
    exists|part: u64| #[trigger]
        call_ensures(share_of, (cgroup, HEADROOM_PERCENT), part) && r == greater_of(
            part,
            headroom_floor(s),
        )
}

/// What is kept free: a part of the limit, but no less than is given or 1 GiB.
pub fn headroom_bytes<F: Fn(u64, u64) -> u64>(
    s: &MemorySettings<'_>,
    share_of: &F,
    cgroup: u64,
) -> (r: u64)
    requires
        call_requires(*share_of, (cgroup, HEADROOM_PERCENT)),
    ensures
        headroom_may(*s, *share_of, cgroup, r),
{
    let part: u64 = share_of(cgroup, HEADROOM_PERCENT);
    let floor: u64 = match env_mb(s.headroom_mb) {
        Some(b) => b,
        None => 1024 * MIB,
    };
    if part >= floor {
        part
    } else {
        floor
    }
}

/// What is left of the limit for the engine, at least the floor.
pub open spec fn native_of(cgroup: u64, jvm: u64, ffm: u64, head: u64) -> u64 {
    let left = cgroup - jvm - ffm - head;
    if left > ENGINE_NATIVE_FLOOR {
        left as u64
    } else {
        ENGINE_NATIVE_FLOOR
    }
}

/// `r` is the budget.
pub open spec fn budget_may<F: Fn(u64, u64) -> u64>(
    state: MemoryState,
    s: MemorySettings<'_>,
    share_of: F,
    r: Option<u64>,
) -> bool {
    if state.budget != 0 {
        r == Some(state.budget)
    } else {
        match group_budget(s) {
            None => r is None,
            Some(cgroup) => exists|jvm: u64, head: u64| #[trigger]
                jvm_may(s, share_of, cgroup, jvm) && #[trigger] headroom_may(
                    s,
                    share_of,
                    cgroup,
                    head,
                ) && r == Some(native_of(cgroup, jvm, ffm_reserved(s), head)),
        }
    }
}

/// The state once the budget `r` has been worked out.
pub open spec fn with_budget(state: MemoryState, r: Option<u64>) -> MemoryState {
    match r {
        Some(n) => MemoryState { budget: n, ..state },
        None => state,
    }
}

/// The budget: what the limit leaves after all that is set aside. It is worked
/// out once; without a limit there is none.
pub fn engine_native_budget_bytes<F: Fn(u64, u64) -> u64>(
    state: &mut MemoryState,
    s: &MemorySettings<'_>,
    share_of: &F,
) -> (r: Option<u64>)
    requires
        forall|a: u64, p: u64| call_requires(*share_of, (a, p)),
    ensures
        budget_may(*old(state), *s, *share_of, r),
        *final(state) == with_budget(*old(state), r),
        r matches Some(n) ==> n > 0,
{
    if state.budget != 0 {
        return Some(state.budget);
    }
    match cgroup_budget_bytes(s) {
        None => None,
        Some(cgroup) => {
            let jvm: u64 = jvm_reserved_bytes(s, share_of, cgroup);
            let ffm: u64 = ffm_reserved_bytes(s);
            let head: u64 = headroom_bytes(s, share_of, cgroup);
            let reserved: u64 = jvm.saturating_add(ffm).saturating_add(head);
            let left: u64 = cgroup.saturating_sub(reserved);
            let native: u64 = if left > ENGINE_NATIVE_FLOOR {
                left
            } else {
                ENGINE_NATIVE_FLOOR
            };
            assert(native == native_of(cgroup, jvm, ffm, head));
            state.budget = native;
            Some(native)
        },
    }
}

/// Above the floor, the budget and what is set aside make up the limit exactly.
pub proof fn law_budget_and_reservations_fill_the_limit(cgroup: u64, jvm: u64, ffm: u64, head: u64)
    requires
        cgroup - jvm - ffm - head > ENGINE_NATIVE_FLOOR,
    ensures
        native_of(cgroup, jvm, ffm, head) + jvm + ffm + head == cgroup,
{
}

/// `r` is the cap on `consumer` under the budget `native`.
pub open spec fn cap_may<F: Fn(u64, u64) -> u64>(
    s: MemorySettings<'_>,
    share_of: F,
    native: u64,
    consumer: Consumer,
    r: u64,
) -> bool {
    exists|slice: u64| #[trigger]
        call_ensures(share_of, (native, percent_of(consumer)), slice) && r == greater_of(
            MIB,
            if consumer == Consumer::BlockCache {
                slice / instances(s)
            } else {
                slice
            },
        )
}

/// The budget, if it is known.
pub open spec fn known_budget(state: MemoryState) -> Option<u64> {
    if state.budget == 0 {
        None
    } else {
        Some(state.budget)
    }
}

/// `after` is `before` once it has been asked for the budget: if the budget is
/// on, this and its size are kept; else nothing changes.
pub open spec fn settled<F: Fn(u64, u64) -> u64>(
    before: MemoryState,
    s: MemorySettings<'_>,
    share_of: F,
    after: MemoryState,
) -> bool {
    if enabled(before, s) {
        &&& after == (MemoryState { armed: true, budget: after.budget, ..before })
        &&& budget_may(before, s, share_of, known_budget(after))
    } else {
        after == before
    }
}

/// The cap on a consumer, or none if there is no budget. The databases of the
/// process share the block cache's part.
pub fn consumer_cap_bytes<F: Fn(u64, u64) -> u64>(
    state: &mut MemoryState,
    s: &MemorySettings<'_>,
    share_of: &F,
    consumer: Consumer,
) -> (r: Option<u64>)
    requires
        forall|a: u64, p: u64| call_requires(*share_of, (a, p)),
    ensures
        settled(*old(state), *s, *share_of, *final(state)),
        match r {
            None => !enabled(*old(state), *s) || final(state).budget == 0,
            Some(cap) => enabled(*old(state), *s) && final(state).budget != 0 && cap_may(
                *s,
                *share_of,
                final(state).budget,
                consumer,
                cap,
            ),
        },
{
    if !manager_enabled(state, s) {
        return None;
    }
    match engine_native_budget_bytes(state, s, share_of) {
        None => None,
        Some(native) => {
            let slice: u64 = share_of(native, consumer.split_percent());
            let part: u64 = match consumer {
                Consumer::BlockCache => slice / assumed_instances(s),
                Consumer::WriteBuffer => slice,
                Consumer::ResidentShadow => slice,
                Consumer::VlogResident => slice,
                Consumer::CompactionTransient => slice,
            };
            let cap: u64 = if MIB >= part {
                MIB
            } else {
                part
            };
            assert(cap_may(*s, *share_of, native, consumer, cap));
            Some(cap)
        },
    }
}

/// A budget that is worked out is never below the floor.
pub proof fn law_budget_has_a_floor<F: Fn(u64, u64) -> u64>(
    state: MemoryState,
    s: MemorySettings<'_>,
    share_of: F,
    native: u64,
)
    requires
        state.budget == 0 || state.budget >= ENGINE_NATIVE_FLOOR,
        budget_may(state, s, share_of, Some(native)),
    ensures
        native >= ENGINE_NATIVE_FLOOR,
{
}

/// The caps do not exceed the budget together, with the block cache's once for
/// each database, where its part has at least 1 MiB for each; and each cap is
/// at least 1 MiB. `share_of` never takes more than the given hundredths.
pub proof fn law_caps_fit_the_budget<F: Fn(u64, u64) -> u64>(
    s: MemorySettings<'_>,
    share_of: F,
    native: u64,
    cache: u64,
    wbm: u64,
    shadow: u64,
    vlog: u64,
    compact: u64,
)
    requires
        native >= ENGINE_NATIVE_FLOOR,
        100 * (instances(s) * MIB) <= percent_of(Consumer::BlockCache) * native,
        forall|a: u64, p: u64, r: u64| #[trigger]
            call_ensures(share_of, (a, p), r) ==> 100 * r <= p * a,
        cap_may(s, share_of, native, Consumer::BlockCache, cache),
        cap_may(s, share_of, native, Consumer::WriteBuffer, wbm),
        cap_may(s, share_of, native, Consumer::ResidentShadow, shadow),
        cap_may(s, share_of, native, Consumer::VlogResident, vlog),
        cap_may(s, share_of, native, Consumer::CompactionTransient, compact),
    ensures
        instances(s) * cache + wbm + shadow + vlog + compact <= native,
        cache >= MIB && wbm >= MIB && shadow >= MIB && vlog >= MIB && compact >= MIB,
{
    let k = instances(s);
    let slice = choose|slice: u64| #[trigger]
        call_ensures(share_of, (native, percent_of(Consumer::BlockCache)), slice) && cache
            == greater_of(MIB, slice / k);
    assert(100 * slice <= 28 * native);
    assert(k > 0);
    assert(k * (slice / k) <= slice) by (nonlinear_arith)
        requires
            k > 0,
    ;
    assert(100 * (k * cache) <= 28 * native);
}

/// A compaction's admission: the bytes that it holds of its consumer's part.
#[must_use]
pub struct CompactionAdmission {
    pub bytes: u64,
}

/// Compactions wait for admission.
pub open spec fn admission_enabled(state: MemoryState, s: MemorySettings<'_>) -> bool {
    !flags::off(s.compact_admission) && enabled(state, s)
}

/// What a compaction asks for: its estimate, but at least 1 MiB and at most the
/// whole part.
pub open spec fn wanted(estimate: u64, slice: u64) -> u64 {
    if estimate < MIB {
        MIB
    } else if estimate > slice {
        slice
    } else {
        estimate
    }
}

/// What is held together with what is wanted, at most the largest number of 64
/// bits.
pub open spec fn held_with(inflight: u64, want: u64) -> u64 {
    if inflight + want > u64::MAX {
        u64::MAX
    } else {
        (inflight + want) as u64
    }
}

/// There is room: nothing is held, or what is wanted fits.
pub open spec fn has_room(inflight: u64, want: u64, slice: u64) -> bool {
    inflight == 0 || held_with(inflight, want) <= slice
}

/// The bytes of an admission, if there is one.
pub open spec fn bytes_of(r: Option<CompactionAdmission>) -> Option<u64> {
    match r {
        Some(p) => Some(p.bytes),
        None => None,
    }
}

/// What a compaction of about `estimate` bytes gets of the part `slice`, and
/// the state after it has asked.
pub open spec fn asked(state: MemoryState, estimate: u64, waited: bool, slice: u64) -> (
    Option<u64>,
    MemoryState,
) {
    let want = wanted(estimate, slice);
    if has_room(state.inflight, want, slice) {
        (Some(want), MemoryState { inflight: held_with(state.inflight, want), ..state })
    } else if waited {
        (None, state)
    } else {
        (
            None,
            MemoryState {
                waits: ((state.waits + 1) % 0x1_0000_0000_0000_0000) as u64,
                ..state
            },
        )
    }
}

impl CompactionAdmission {
    /// Asks for admission of a compaction of about `estimate` bytes. `None`
    /// means to wait and ask again; `waited` says that it has done so before.
    pub fn try_admit<F: Fn(u64, u64) -> u64>(
        state: &mut MemoryState,
        s: &MemorySettings<'_>,
        share_of: &F,
        estimate: u64,
        waited: bool,
    ) -> (r: Option<CompactionAdmission>)
        requires
            forall|a: u64, p: u64| call_requires(*share_of, (a, p)),
        ensures
            !admission_enabled(*old(state), *s) ==> *final(state) == *old(state) && bytes_of(r)
                == Some(0u64),
            admission_enabled(*old(state), *s) ==> exists|mid: MemoryState| #[trigger]
                settled(*old(state), *s, *share_of, mid) && if mid.budget == 0 {
                    *final(state) == mid && bytes_of(r) == Some(0u64)
                } else {
                    exists|slice: u64| #[trigger]
                        cap_may(*s, *share_of, mid.budget, Consumer::CompactionTransient, slice)
                            && (bytes_of(r), *final(state)) == asked(mid, estimate, waited, slice)
                },
    {
        if is_off(s.compact_admission) || !manager_enabled(state, s) {
            return Some(CompactionAdmission { bytes: 0 });
        }
        let ghost before = *state;
        let cap: Option<u64> = consumer_cap_bytes(
            state,
            s,
            share_of,
            Consumer::CompactionTransient,
        );
        let ghost mid = *state;
        proof {
            lemma_arming_keeps(*old(state), before, *s, *share_of, mid);
        }
        match cap {
            None => Some(CompactionAdmission { bytes: 0 }),
            Some(slice) => {
                let want: u64 = if estimate < MIB {
                    MIB
                } else if estimate > slice {
                    slice
                } else {
                    estimate
                };
                let held: u64 = state.inflight.saturating_add(want);
                if state.inflight == 0 || held <= slice {
                    state.inflight = held;
                    Some(CompactionAdmission { bytes: want })
                } else {
                    if !waited {
                        state.waits = state.waits.wrapping_add(1);
                    }
                    None
                }
            },
        }
    }

    /// Gives back what the admission holds.
    pub fn release(self, state: &mut MemoryState)
        ensures
            *final(state) == (MemoryState {
                inflight: if old(state).inflight >= self.bytes {
                    (old(state).inflight - self.bytes) as u64
                } else {
                    0
                },
                ..*old(state)
            }),
    {
        state.inflight = state.inflight.saturating_sub(self.bytes);
    }
}

proof fn lemma_arming_keeps<F: Fn(u64, u64) -> u64>(
    a: MemoryState,
    b: MemoryState,
    s: MemorySettings<'_>,
    share_of: F,
    after: MemoryState,
)
    requires
        enabled(a, s),
        b == (MemoryState { armed: true, ..a }),
        settled(b, s, share_of, after),
    ensures
        settled(a, s, share_of, after),
{
    assert(budget_may(a, s, share_of, known_budget(after)) == budget_may(
        b,
        s,
        share_of,
        known_budget(after),
    ));
}

/// What is admitted never exceeds the part for compactions, however large the
/// estimates are.
pub proof fn law_admissions_are_bounded(inflight: u64, estimate: u64, slice: u64)
    requires
        slice >= MIB,
        inflight <= slice,
        has_room(inflight, wanted(estimate, slice), slice),
    ensures
        held_with(inflight, wanted(estimate, slice)) <= slice,
{
}

/// With nothing running, any compaction is admitted.
pub proof fn law_progress(estimate: u64, slice: u64)
    ensures
        has_room(0, wanted(estimate, slice), slice),
{
}

/// Bytes held by compactions that run.
pub fn compact_inflight_bytes(state: &MemoryState) -> (r: u64)
    ensures
        r == state.inflight,
{
    state.inflight
}

/// Number of compactions that had to wait.
pub fn compact_admission_waits(state: &MemoryState) -> (r: u64)
    ensures
        r == state.waits,
{
    state.waits
}

/// A label and a number.
pub open spec fn field(label: Seq<char>, n: nat) -> Seq<char> {
    label + text::decimal(n)
}

/// The line that describes the budget.
pub open spec fn diag_line(
    native: u64,
    cache: u64,
    wbm: u64,
    shadow: u64,
    vlog: u64,
    compact: u64,
    inflight: u64,
    waits: u64,
) -> Seq<char> {
    field(" mem_mgr_native_MB="@, (native / MIB) as nat) + field(
        " mm_blockcache_MB="@,
        (cache / MIB) as nat,
    ) + field(" mm_wbm_MB="@, (wbm / MIB) as nat) + field(
        " mm_shadow_MB="@,
        (shadow / MIB) as nat,
    ) + field(" mm_vlog_MB="@, (vlog / MIB) as nat) + field(
        " mm_compact_MB="@,
        (compact / MIB) as nat,
    ) + field(" mm_compact_inflight_MB="@, (inflight / MIB) as nat) + field(
        " mm_compact_waits="@,
        waits as nat,
    )
}

fn push_field(out: &mut String, label: &str, n: u64)
    ensures
        final(out)@ == old(out)@ + field(label@, n as nat),
{
    out.append(label);
    push_decimal(out, n);
    assert(out@ =~= old(out)@ + field(label@, n as nat));
}

/// The cap on a consumer under a budget that is known.
fn known_cap<F: Fn(u64, u64) -> u64>(
    state: &mut MemoryState,
    s: &MemorySettings<'_>,
    share_of: &F,
    consumer: Consumer,
) -> (r: u64)
    requires
        forall|a: u64, p: u64| call_requires(*share_of, (a, p)),
        old(state).armed,
        old(state).budget != 0,
    ensures
        *final(state) == *old(state),
        cap_may(*s, *share_of, old(state).budget, consumer, r),
{
    match consumer_cap_bytes(state, s, share_of, consumer) {
        Some(cap) => cap,
        None => 0,
    }
}

/// A line that describes the budget and the caps; empty if there is no budget.
pub fn diag_str<F: Fn(u64, u64) -> u64>(
    state: &mut MemoryState,
    s: &MemorySettings<'_>,
    share_of: &F,
) -> (r: String)
    requires
        forall|a: u64, p: u64| call_requires(*share_of, (a, p)),
    ensures
        settled(*old(state), *s, *share_of, *final(state)),
        !enabled(*old(state), *s) ==> r@ == Seq::<char>::empty(),
        enabled(*old(state), *s) && final(state).budget == 0 ==> r@ == " mem_mgr=armed(no-cgroup)"@,
        enabled(*old(state), *s) && final(state).budget != 0 ==> exists|
            cache: u64,
            wbm: u64,
            shadow: u64,
            vlog: u64,
            compact: u64,
        |
            cap_may(*s, *share_of, final(state).budget, Consumer::BlockCache, cache) && cap_may(
                *s,
                *share_of,
                final(state).budget,
                Consumer::WriteBuffer,
                wbm,
            ) && cap_may(
                *s,
                *share_of,
                final(state).budget,
                Consumer::ResidentShadow,
                shadow,
            ) && cap_may(*s, *share_of, final(state).budget, Consumer::VlogResident, vlog)
                && cap_may(
                *s,
                *share_of,
                final(state).budget,
                Consumer::CompactionTransient,
                compact,
            ) && r@ == #[trigger] diag_line(
                final(state).budget,
                cache,
                wbm,
                shadow,
                vlog,
                compact,
                old(state).inflight,
                old(state).waits,
            ),
{
    if !manager_enabled(state, s) {
        return String::new();
    }
    let native: u64 = match engine_native_budget_bytes(state, s, share_of) {
        None => {
            return text::text(" mem_mgr=armed(no-cgroup)");
        },
        Some(n) => n,
    };
    let cache: u64 = known_cap(state, s, share_of, Consumer::BlockCache);
    let wbm: u64 = known_cap(state, s, share_of, Consumer::WriteBuffer);
    let shadow: u64 = known_cap(state, s, share_of, Consumer::ResidentShadow);
    let vlog: u64 = known_cap(state, s, share_of, Consumer::VlogResident);
    let compact: u64 = known_cap(state, s, share_of, Consumer::CompactionTransient);
    let mut out: String = String::new();
    push_field(&mut out, " mem_mgr_native_MB=", native / MIB);
    push_field(&mut out, " mm_blockcache_MB=", cache / MIB);
    push_field(&mut out, " mm_wbm_MB=", wbm / MIB);
    push_field(&mut out, " mm_shadow_MB=", shadow / MIB);
    push_field(&mut out, " mm_vlog_MB=", vlog / MIB);
    push_field(&mut out, " mm_compact_MB=", compact / MIB);
    push_field(&mut out, " mm_compact_inflight_MB=", state.inflight / MIB);
    push_field(&mut out, " mm_compact_waits=", state.waits);
    proof {
        let none = Seq::<char>::empty();
        let first = field(" mem_mgr_native_MB="@, (native / MIB) as nat);
        assert(none + first =~= first);
        assert(out@ == diag_line(
            native,
            cache,
            wbm,
            shadow,
            vlog,
            compact,
            state.inflight,
            state.waits,
        ));
    }
    out
}

/// The parts of the budget in a hundred, consumer by consumer.
pub proof fn law_consumers_have_fixed_parts()
    ensures
        percent_of(Consumer::BlockCache) == 28,
        percent_of(Consumer::WriteBuffer) == 30,
        percent_of(Consumer::ResidentShadow) == 18,
        percent_of(Consumer::VlogResident) == 10,
        percent_of(Consumer::CompactionTransient) == 14,
{
}

/// The budget is what the limit leaves after the three reservations, but never less
/// than its floor of 3 * 2^29 bytes.
pub proof fn law_budget_is_what_is_left(cgroup: u64, jvm: u64, ffm: u64, head: u64)
    ensures
        native_of(cgroup, jvm, ffm, head) >= 3 * 0x2000_0000,
        native_of(cgroup, jvm, ffm, head) >= cgroup - jvm - ffm - head,
        native_of(cgroup, jvm, ffm, head) == 3 * 0x2000_0000 || native_of(cgroup, jvm, ffm, head)
            == cgroup - jvm - ffm - head,
{
}

/// The limit and the reservations: a setting in units of 2^20 bytes goes before what
/// is found or computed.
pub proof fn law_settings_go_first<F: Fn(u64, u64) -> u64>(
    s: MemorySettings<'_>,
    share_of: F,
    cgroup: u64,
    r: u64,
)
    ensures
        mb_bytes(s.cgroup_mb) is Some ==> group_budget(s) == mb_bytes(s.cgroup_mb),
        mb_bytes(s.cgroup_mb) is None ==> group_budget(s) == match s.group_limit {
            Some(t) => mem_pressure::limit_in(t@),
            None => None,
        },
        mb_bytes(s.jvm_reserved_mb) matches Some(b) ==> (jvm_may(s, share_of, cgroup, r) <==> r
            == b),
        mb_bytes(s.jvm_reserved_mb) is None ==> (jvm_may(s, share_of, cgroup, r) <==> call_ensures(
            share_of,
            (cgroup, 64u64),
            r,
        )),
        ffm_reserved(s) == match mb_bytes(s.ffm_reserved_mb) {
            Some(b) => b,
            None => 0x2000_0000,
        },
        headroom_floor(s) == match mb_bytes(s.headroom_mb) {
            Some(b) => b,
            None => 0x4000_0000,
        },
        headroom_may(s, share_of, cgroup, r) <==> exists|part: u64| #[trigger]
            call_ensures(share_of, (cgroup, 10u64), part) && r >= part && r >= headroom_floor(s)
                && (r == part || r == headroom_floor(s)),
        instances(s) == match flags::positive(s.instances) {
            Some(n) => n,
            None => 8,
        },
{
    if headroom_may(s, share_of, cgroup, r) {
        let part = choose|part: u64| #[trigger]
            call_ensures(share_of, (cgroup, HEADROOM_PERCENT), part) && r == greater_of(
                part,
                headroom_floor(s),
            );
        assert(call_ensures(share_of, (cgroup, 10u64), part));
    }
    if exists|part: u64| #[trigger]
        call_ensures(share_of, (cgroup, 10u64), part) && r >= part && r >= headroom_floor(s) && (r
            == part || r == headroom_floor(s)) {
        let part = choose|part: u64| #[trigger]
            call_ensures(share_of, (cgroup, 10u64), part) && r >= part && r >= headroom_floor(s)
                && (r == part || r == headroom_floor(s));
        assert(call_ensures(share_of, (cgroup, HEADROOM_PERCENT), part));
    }
}

/// A setting in units of 2^20 bytes.
pub proof fn law_settings_are_in_mebibytes(raw: Option<&str>)
    ensures
        mb_bytes(raw) is Some <==> flags::positive(raw) is Some,
        flags::positive(raw) matches Some(mb) ==> mb * 0x10_0000 <= u64::MAX ==> mb_bytes(raw)
            == Some((mb * 0x10_0000) as u64),
        flags::positive(raw) matches Some(mb) ==> mb * 0x10_0000 > u64::MAX ==> mb_bytes(raw)
            == Some(u64::MAX),
{
}

/// A budget that is known stays; else it is what the group's limit leaves, and none
/// without a limit. It is remembered, and nothing else changes.
pub proof fn law_budget_is_found_once<F: Fn(u64, u64) -> u64>(
    state: MemoryState,
    s: MemorySettings<'_>,
    share_of: F,
    r: Option<u64>,
    again: Option<u64>,
)
    requires
        budget_may(state, s, share_of, r),
    ensures
        state.budget != 0 ==> r == Some(state.budget),
        state.budget == 0 ==> (r is None <==> group_budget(s) is None),
        state.budget == 0 ==> (r matches Some(n) ==> exists|jvm: u64, head: u64| #[trigger]
            jvm_may(s, share_of, group_budget(s)->0, jvm) && #[trigger] headroom_may(
                s,
                share_of,
                group_budget(s)->0,
                head,
            ) && n == native_of(group_budget(s)->0, jvm, ffm_reserved(s), head)),
        r is None ==> with_budget(state, r) == state,
        r matches Some(n) ==> with_budget(state, r).budget == n && with_budget(state, r).armed
            == state.armed && with_budget(state, r).inflight == state.inflight && with_budget(
            state,
            r,
        ).waits == state.waits,
        r is Some && budget_may(with_budget(state, r), s, share_of, again) ==> again == r,
{
}

/// A consumer's cap is its part of the budget, at least 2^20 bytes; the block cache
/// shares its part among the databases.
pub proof fn law_cap_is_the_part_of_the_budget<F: Fn(u64, u64) -> u64>(
    s: MemorySettings<'_>,
    share_of: F,
    native: u64,
    consumer: Consumer,
    r: u64,
)
    requires
        cap_may(s, share_of, native, consumer, r),
    ensures
        exists|slice: u64| #[trigger]
            call_ensures(share_of, (native, percent_of(consumer)), slice) && r == ({
                let part = if consumer is BlockCache {
                    slice as int / instances(s) as int
                } else {
                    slice as int
                };
                if part < 0x10_0000 {
                    0x10_0000int
                } else {
                    part
                }
            }),
{
    let slice = choose|slice: u64| #[trigger]
        call_ensures(share_of, (native, percent_of(consumer)), slice) && r == greater_of(
            MIB,
            if consumer == Consumer::BlockCache {
                slice / instances(s)
            } else {
                slice
            },
        );
    assert(call_ensures(share_of, (native, percent_of(consumer)), slice));
}

/// The manager is on once it was armed or where the setting says so, and stays on;
/// admission can be switched off alone.
pub proof fn law_manager_stays_on<F: Fn(u64, u64) -> u64>(
    before: MemoryState,
    s: MemorySettings<'_>,
    later: MemorySettings<'_>,
    share_of: F,
    after: MemoryState,
)
    requires
        settled(before, s, share_of, after),
    ensures
        enabled(before, s) <==> before.armed || flags::on(s.manager),
        admission_enabled(before, s) <==> enabled(before, s) && !flags::off(s.compact_admission),
        enabled(before, s) ==> enabled(after, later),
        !enabled(before, s) ==> after == before,
        after.inflight == before.inflight,
        after.waits == before.waits,
        before.budget != 0 ==> after.budget == before.budget,
        enabled(before, s) && before.budget == 0 ==> (after.budget == 0 ==> group_budget(s) is None),
{
}

/// An admission asks for its estimate, at least 2^20 bytes and, beyond that, at most
/// the slice. It gets it where nothing is out or all that is out fits the slice with
/// it, and what is out grows by just that. Else it gets nothing, and a wait is
/// counted once.
pub proof fn law_admission_takes_what_fits(
    state: MemoryState,
    estimate: u64,
    waited: bool,
    slice: u64,
    want: u64,
)
    requires
        want == if estimate < 0x10_0000 {
            0x10_0000
        } else if estimate > slice {
            slice
        } else {
            estimate
        },
    ensures
        ({
            let (got, after) = asked(state, estimate, waited, slice);
            let room = state.inflight == 0 || state.inflight + want <= slice;
            &&& wanted(estimate, slice) == want
            &&& state.inflight + want <= u64::MAX ==> (has_room(state.inflight, want, slice) <==> room)
            &&& state.inflight + want <= u64::MAX ==> (got is Some <==> room)
            &&& got matches Some(n) ==> n == want && (state.inflight + want <= u64::MAX
                ==> after.inflight == state.inflight + want) && after.waits == state.waits
            &&& got is None ==> after.inflight == state.inflight
            &&& got is None && !waited && state.waits < u64::MAX ==> after.waits == state.waits + 1
            &&& got is None && !waited && state.waits == u64::MAX ==> after.waits == 0
            &&& got is None && waited ==> after.waits == state.waits
            &&& state.inflight + want > u64::MAX ==> (got is Some <==> slice == u64::MAX)
            &&& state.inflight + want > u64::MAX && got is Some ==> after.inflight == u64::MAX
            &&& after.armed == state.armed && after.budget == state.budget
        }),
{
}

} // verus!
