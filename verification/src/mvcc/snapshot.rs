//! Snapshots and the registry of live ones.

use crate::clock;
use crate::clock::keep_low_bits;
use crate::text::push_decimal;
use crate::types::SequenceNumber;
use std::collections::BTreeMap;
use vstd::prelude::*;
use vstd::string::*;

verus! {

broadcast use vstd::std_specs::btree::group_btree_axioms;

/// Default age in milliseconds from which a snapshot is reported: 5 minutes.
pub const DEFAULT_MAX_AGE_MS: u64 = 300_000;

/// The advice that an age warning carries.
pub const SNAPSHOT_AGE_HINT: &'static str =
    "long-lived snapshot is pinning versions — check the operator runbook for safe-release procedure; auto-release is intentionally disabled because dropping a live snapshot silently breaks the reader's correctness contract";

/// Identifier of a database instance.
#[derive(Debug, Clone, Copy, PartialEq, Eq, Hash, Structural)]
pub struct DbId(pub u64);

/// Report of a snapshot that has been alive for too long.
#[derive(Debug, Clone, PartialEq, Eq)]
pub struct SnapshotAgeWarning {
    /// Sequence number of the snapshot.
    pub seq: SequenceNumber,
    /// Database that the snapshot was taken of.
    pub db_id: DbId,
    /// Age in milliseconds, more than `max_age_ms`.
    pub age_ms: u64,
    /// The threshold that was exceeded.
    pub max_age_ms: u64,
    /// Advice for the operator.
    pub hint: &'static str,
}

impl SnapshotAgeWarning {
    /// The text of the warning.
    pub open spec fn rendered(self) -> Seq<char> {
        "snapshot age exceeds max_age_ms: seq="@ + crate::text::decimal(self.seq.0 as nat)
            + ", db_id="@ + crate::text::decimal(self.db_id.0 as nat) + ", age_ms="@
            + crate::text::decimal(self.age_ms as nat) + ", max_age_ms="@ + crate::text::decimal(
            self.max_age_ms as nat,
        ) + "; hint: "@ + self.hint@
    }

    /// The text of the warning.
    pub fn to_string(&self) -> (r: String)
        ensures
            r@ == self.rendered(),
    {
        let mut out = String::new();
        out.append("snapshot age exceeds max_age_ms: seq=");
        push_decimal(&mut out, self.seq.0);
        out.append(", db_id=");
        push_decimal(&mut out, self.db_id.0);
        out.append(", age_ms=");
        push_decimal(&mut out, self.age_ms);
        out.append(", max_age_ms=");
        push_decimal(&mut out, self.max_age_ms);
        out.append("; hint: ");
        out.append(self.hint);
        assert(out@ =~= self.rendered());
        out
    }
}

/// State of one pinned sequence number.
pub struct RegistryEntry {
    ref_count: usize,
    captured_at: std::time::Instant,
    db_id: DbId,
}

/// Handle of a snapshot. It counts as one pin of its sequence number until it
/// is handed back to [`SnapshotRegistry::release`].
pub struct Snapshot {
    seq: SequenceNumber,
    db_id: DbId,
    captured_at: std::time::Instant,
}

impl Snapshot {
    /// The sequence number and the database.
    pub closed spec fn pin(self) -> (SequenceNumber, DbId) {
        (self.seq, self.db_id)
    }

    /// The sequence number that the snapshot reads at.
    pub fn seq(&self) -> (r: SequenceNumber)
        ensures
            r == self.pin().0,
    {
        self.seq
    }

    /// The database that the snapshot was taken of.
    pub fn db_id(&self) -> (r: DbId)
        ensures
            r == self.pin().1,
    {
        self.db_id
    }

    /// When the snapshot was taken.
    pub closed spec fn taken_at(self) -> std::time::Instant {
        self.captured_at
    }

    /// Milliseconds since the capture, cut to 64 bits. The clock decides the
    /// value.
    pub fn age_ms(&self) -> (r: u64)
        ensures
            exists|ms: u128| #[trigger]
                millis_since(self.taken_at(), ms) && r == clock::low_bits(ms),
    {
        let ms: u128 = read_millis_since(&self.captured_at);
        assert(millis_since(self.taken_at(), ms));
        keep_low_bits(ms)
    }
}

/// `ms` may be the whole milliseconds, as `Duration::as_millis` gives them, of
/// what `Instant::elapsed` gives for `since`.
pub open spec fn millis_since(since: std::time::Instant, ms: u128) -> bool {
    exists|span: std::time::Duration|
        {
            &&& #[trigger] call_ensures(std::time::Instant::elapsed, (&since,), span)
            &&& #[trigger] call_ensures(std::time::Duration::as_millis, (&span,), ms)
        }
}

/// Milliseconds since an instant. The clock decides the value.
fn read_millis_since(since: &std::time::Instant) -> (r: u128)
    ensures
        millis_since(*since, r),
{
    let span = since.elapsed();
    let ms: u128 = span.as_millis();
    assert(call_ensures(std::time::Instant::elapsed, (since,), span));
    assert(call_ensures(std::time::Duration::as_millis, (&span,), ms));
    ms
}

/// `ms`, or the largest `u64` if it is larger.
pub open spec fn saturated(ms: u128) -> u64 {
    if ms <= u64::MAX {
        ms as u64
    } else {
        u64::MAX
    }
}

fn saturate_ms(ms: u128) -> (r: u64)
    ensures
        r == saturated(ms),
{
    if ms <= u64::MAX as u128 {
        ms as u64
    } else {
        u64::MAX
    }
}

/// `r` may be the age in milliseconds of what began at `since`.
pub open spec fn age_read(since: std::time::Instant, r: u64) -> bool {
    exists|ms: u128| #[trigger] millis_since(since, ms) && r == saturated(ms)
}

/// Milliseconds since an instant, or the largest `u64` if there are more. The
/// clock decides the value.
fn elapsed_ms(since: &std::time::Instant) -> (r: u64)
    ensures
        age_read(*since, r),
{
    let ms: u128 = read_millis_since(since);
    saturate_ms(ms)
}

/// Age of one pinned sequence number.
#[derive(Debug, Clone, Copy, PartialEq, Eq, Structural)]
pub struct SnapshotAge {
    pub seq: SequenceNumber,
    pub db_id: DbId,
    pub age_ms: u64,
}

/// `r` is the largest age, or 0 if there is none.
pub open spec fn is_oldest(ages: Seq<SnapshotAge>, r: u64) -> bool {
    &&& forall|i: int| 0 <= i < ages.len() ==> (#[trigger] ages[i]).age_ms <= r
    &&& ages.len() == 0 ==> r == 0
    &&& ages.len() > 0 ==> exists|i: int| 0 <= i < ages.len() && (#[trigger] ages[i]).age_ms == r
}

/// The largest age, or 0 if there is none.
pub fn oldest_of(ages: &[SnapshotAge]) -> (r: u64)
    ensures
        is_oldest(ages@, r),
{
    let mut best: u64 = 0;
    let mut i: usize = 0;
    while i < ages.len()
        invariant
            i <= ages@.len(),
            forall|k: int| 0 <= k < i ==> (#[trigger] ages@[k]).age_ms <= best,
            i == 0 ==> best == 0,
            i > 0 ==> exists|k: int| 0 <= k < i && (#[trigger] ages@[k]).age_ms == best,
        decreases ages@.len() - i,
    {
        let age: u64 = ages[i].age_ms;
        if age >= best {
            best = age;
            assert(ages@[i as int].age_ms == best);
        }
        i += 1;
    }
    best
}

/// `w` reports the smallest sequence number among those older than `max`;
/// there is no report if none is older.
pub open spec fn reports_long_lived(
    ages: Seq<SnapshotAge>,
    max: u64,
    w: Option<SnapshotAgeWarning>,
) -> bool {
    match w {
        None => forall|i: int| 0 <= i < ages.len() ==> (#[trigger] ages[i]).age_ms <= max,
        Some(w) => {
            &&& exists|i: int|
                0 <= i < ages.len() && #[trigger] ages[i] == (SnapshotAge {
                    seq: w.seq,
                    db_id: w.db_id,
                    age_ms: w.age_ms,
                })
            &&& w.age_ms > max
            &&& w.max_age_ms == max
            &&& w.hint@ == SNAPSHOT_AGE_HINT@
            &&& forall|i: int|
                0 <= i < ages.len() && (#[trigger] ages[i]).age_ms > max ==> w.seq.0
                    <= ages[i].seq.0
        },
    }
}

/// Reports the smallest sequence number among those older than `max`.
pub fn first_long_lived(ages: &[SnapshotAge], max: u64) -> (r: Option<SnapshotAgeWarning>)
    ensures
        reports_long_lived(ages@, max, r),
{
    let mut found: bool = false;
    let mut at: usize = 0;
    let mut i: usize = 0;
    while i < ages.len()
        invariant
            i <= ages@.len(),
            !found ==> forall|k: int| 0 <= k < i ==> (#[trigger] ages@[k]).age_ms <= max,
            found ==> {
                &&& at < i
                &&& ages@[at as int].age_ms > max
                &&& forall|k: int|
                    0 <= k < i && (#[trigger] ages@[k]).age_ms > max ==> ages@[at as int].seq.0
                        <= ages@[k].seq.0
            },
        decreases ages@.len() - i,
    {
        if ages[i].age_ms > max && (!found || ages[i].seq.0 < ages[at].seq.0) {
            found = true;
            at = i;
        }
        i += 1;
    }
    if found {
        let a: SnapshotAge = ages[at];
        assert(ages@[at as int] == a);
        Some(
            SnapshotAgeWarning {
                seq: a.seq,
                db_id: a.db_id,
                age_ms: a.age_ms,
                max_age_ms: max,
                hint: SNAPSHOT_AGE_HINT,
            },
        )
    } else {
        None
    }
}

/// The live snapshots, counted by sequence number.
pub struct SnapshotRegistry {
    active: BTreeMap<u64, RegistryEntry>,
    cached_min: u64,
    max_age_ms: u64,
}

/// The smallest member of `s`, or `u64::MAX` if there is none.
pub open spec fn is_min_or_max(s: Set<u64>, m: u64) -> bool {
    &&& forall|k: u64| s.contains(k) ==> m <= k
    &&& if s.is_empty() {
        m == u64::MAX
    } else {
        s.contains(m)
    }
}

impl SnapshotRegistry {
    /// The number of live pins of each pinned sequence number.
    pub closed spec fn pins(self) -> Map<u64, nat> {
        self.active@.map_values(|e: RegistryEntry| e.ref_count as nat)
    }

    /// The database of the first capture at a pinned sequence number.
    pub closed spec fn first_db(self, seq: u64) -> DbId {
        self.active@[seq].db_id
    }

    /// When a pinned sequence number was first captured.
    pub closed spec fn first_taken_at(self, seq: u64) -> std::time::Instant {
        self.active@[seq].captured_at
    }

    /// The reporting threshold.
    pub closed spec fn threshold(self) -> u64 {
        self.max_age_ms
    }

    /// Every pinned sequence number has at least one pin, and the cached
    /// minimum is the smallest of them.
    pub closed spec fn wf(self) -> bool {
        &&& forall|k: u64| #[trigger]
            self.active@.contains_key(k) ==> self.active@[k].ref_count > 0
        &&& self.active@.dom().finite()
        &&& is_min_or_max(self.active@.dom(), self.cached_min)
    }

    /// An empty registry with the default threshold.
    pub fn new() -> (r: Self)
        ensures
            r.wf(),
            r.pins() == Map::<u64, nat>::empty(),
            r.threshold() == DEFAULT_MAX_AGE_MS,
    {
        let r = SnapshotRegistry {
            active: BTreeMap::new(),
            cached_min: u64::MAX,
            max_age_ms: DEFAULT_MAX_AGE_MS,
        };
        assert(r.pins() =~= Map::<u64, nat>::empty());
        assert(r.active@.dom() =~= Set::<u64>::empty());
        r
    }

    fn recompute_cached_min(&mut self)
        ensures
            final(self).active@ == old(self).active@,
            final(self).max_age_ms == old(self).max_age_ms,
            is_min_or_max(final(self).active@.dom(), final(self).cached_min),
    {
        let mut min: u64 = u64::MAX;
        let mut seen: bool = false;
        let ghost keys = vstd::std_specs::btree::into_iter_keys(
            vstd::std_specs::btree::spec_keys_iter(&self.active),
        );
        for k in it: self.active.keys()
            invariant
                it.seq().unref() == keys,
                keys.to_set() == self.active@.dom(),
                seen == (it.index() > 0),
                !seen ==> min == u64::MAX,
                seen ==> exists|i: int| 0 <= i < it.index() && #[trigger] keys[i] == min,
                forall|i: int| 0 <= i < it.index() ==> min <= #[trigger] keys[i],
        {
            if !seen || *k < min {
                min = *k;
            }
            seen = true;
            assert(keys[it.index()] == *k);
        }
        proof {
            let dom = self.active@.dom();
            assert forall|k: u64| dom.contains(k) implies min <= k by {
                assert(keys.to_set().contains(k));
                assert(exists|i: int| 0 <= i < keys.len() && keys[i] == k);
            }
            if keys.len() > 0 {
                let i = choose|i: int| 0 <= i < keys.len() && keys[i] == min;
                assert(keys.to_set().contains(keys[i]));
            } else {
                assert(dom =~= Set::<u64>::empty());
            }
        }
        self.cached_min = min;
    }

    /// Pins `current_seq` for a new snapshot of `db_id`.
    pub fn capture(&mut self, db_id: DbId, current_seq: SequenceNumber) -> (r: Snapshot)
        requires
            old(self).wf(),
            old(self).pins().contains_key(current_seq.0) ==> old(self).pins()[current_seq.0]
                < usize::MAX,
        ensures
            final(self).wf(),
            r.pin() == (current_seq, db_id),
            call_ensures(std::time::Instant::now, (), r.taken_at()),
            final(self).pins() == pinned_once_more(old(self).pins(), current_seq.0),
            final(self).threshold() == old(self).threshold(),
            forall|k: u64|
                final(self).pins().contains_key(k) ==> final(self).first_db(k) == if old(
                    self,
                ).pins().contains_key(k) {
                    old(self).first_db(k)
                } else {
                    db_id
                },
            forall|k: u64| #[trigger]
                final(self).pins().contains_key(k) ==> final(self).first_taken_at(k) == if old(
                    self,
                ).pins().contains_key(k) {
                    old(self).first_taken_at(k)
                } else {
                    r.taken_at()
                },
    {
        let now = std::time::Instant::now();
        let entry: RegistryEntry = match self.active.get(&current_seq.0) {
            Some(e) => {
                assert(self.pins()[current_seq.0] == e.ref_count as nat);
                RegistryEntry {
                    ref_count: e.ref_count + 1,
                    captured_at: e.captured_at,
                    db_id: e.db_id,
                }
            },
            None => RegistryEntry { ref_count: 1, captured_at: now, db_id },
        };
        self.active.insert(current_seq.0, entry);
        self.recompute_cached_min();
        assert(self.pins() =~= pinned_once_more(old(self).pins(), current_seq.0));
        Snapshot { seq: current_seq, db_id, captured_at: now }
    }

    /// Takes back one pin of `seq`, if it has one.
    pub fn release_internal(&mut self, seq: SequenceNumber)
        requires
            old(self).wf(),
        ensures
            final(self).wf(),
            final(self).pins() == pinned_once_less(old(self).pins(), seq.0),
            final(self).threshold() == old(self).threshold(),
            forall|k: u64|
                final(self).pins().contains_key(k) ==> final(self).first_db(k) == old(
                    self,
                ).first_db(k),
            forall|k: u64| #[trigger]
                final(self).pins().contains_key(k) ==> final(self).first_taken_at(k) == old(
                    self,
                ).first_taken_at(k),
    {
        let entry: RegistryEntry = match self.active.get(&seq.0) {
            Some(e) => RegistryEntry {
                ref_count: e.ref_count - 1,
                captured_at: e.captured_at,
                db_id: e.db_id,
            },
            None => {
                return ;
            },
        };
        if entry.ref_count == 0 {
            self.active.remove(&seq.0);
            self.recompute_cached_min();
        } else {
            self.active.insert(seq.0, entry);
            assert(self.active@.dom() =~= old(self).active@.dom());
        }
        assert(self.pins() =~= pinned_once_less(old(self).pins(), seq.0));
    }

    /// Ends a snapshot: takes back its pin.
    pub fn release(&mut self, snapshot: Snapshot)
        requires
            old(self).wf(),
        ensures
            final(self).wf(),
            final(self).pins() == pinned_once_less(old(self).pins(), snapshot.pin().0.0),
            final(self).threshold() == old(self).threshold(),
            forall|k: u64| #[trigger]
                final(self).pins().contains_key(k) ==> final(self).first_db(k) == old(
                    self,
                ).first_db(k) && final(self).first_taken_at(k) == old(self).first_taken_at(k),
    {
        self.release_internal(snapshot.seq);
    }

    /// The smallest pinned sequence number, or `u64::MAX` if there is none.
    pub fn min_active(&self) -> (r: SequenceNumber)
        requires
            self.wf(),
        ensures
            is_min_or_max(self.pins().dom(), r.0),
    {
        assert(self.pins().dom() =~= self.active@.dom());
        SequenceNumber(self.cached_min)
    }

    /// The number of distinct pinned sequence numbers.
    pub fn active_count(&self) -> (r: usize)
        requires
            self.wf(),
        ensures
            r == self.pins().dom().len(),
    {
        assert(self.pins().dom() =~= self.active@.dom());
        self.active.len()
    }

    /// `ages` lists every pinned sequence number once, with its database and a
    /// reading of the time since its first capture.
    pub open spec fn listed(self, ages: Seq<SnapshotAge>) -> bool {
        &&& forall|i: int|
            0 <= i < ages.len() ==> self.pins().contains_key((#[trigger] ages[i]).seq.0)
                && ages[i].db_id == self.first_db(ages[i].seq.0) && age_read(
                self.first_taken_at(ages[i].seq.0),
                ages[i].age_ms,
            )
        &&& forall|k: u64| #[trigger]
            self.pins().contains_key(k) ==> exists|i: int|
                0 <= i < ages.len() && (#[trigger] ages[i]).seq.0 == k
        &&& forall|i: int, j: int|
            0 <= i < j < ages.len() ==> (#[trigger] ages[i]).seq.0 != (#[trigger] ages[j]).seq.0
    }

    /// The current age of every pinned sequence number.
    pub fn ages(&self) -> (r: Vec<SnapshotAge>)
        requires
            self.wf(),
        ensures
            self.listed(r@),
    {
        let mut out: Vec<SnapshotAge> = Vec::new();
        let ghost keys = vstd::std_specs::btree::into_iter_keys(
            vstd::std_specs::btree::spec_keys_iter(&self.active),
        );
        for k in it: self.active.keys()
            invariant
                it.seq().unref() == keys,
                keys.to_set() == self.active@.dom(),
                keys.no_duplicates(),
                out@.len() == it.index(),
                forall|i: int|
                    0 <= i < it.index() ==> (#[trigger] out@[i]).seq.0 == keys[i] && out@[i].db_id
                        == self.active@[keys[i]].db_id && age_read(
                        self.active@[keys[i]].captured_at,
                        out@[i].age_ms,
                    ),
        {
            assert(keys[it.index()] == *k);
            assert(keys.to_set().contains(keys[it.index()]));
            match self.active.get(k) {
                Some(e) => {
                    out.push(
                        SnapshotAge {
                            seq: SequenceNumber(*k),
                            db_id: e.db_id,
                            age_ms: elapsed_ms(&e.captured_at),
                        },
                    );
                },
                None => {},
            }
        }
        proof {
            assert(self.pins().dom() =~= self.active@.dom());
            assert forall|i: int| 0 <= i < out@.len() implies self.pins().contains_key(
                (#[trigger] out@[i]).seq.0,
            ) by {
                assert(keys.to_set().contains(keys[i]));
            }
            assert forall|k: u64| #[trigger] self.pins().contains_key(k) implies exists|i: int|
                0 <= i < out@.len() && (#[trigger] out@[i]).seq.0 == k by {
                assert(keys.to_set().contains(k));
                let i = choose|i: int| 0 <= i < keys.len() && keys[i] == k;
                assert(out@[i].seq.0 == k);
            }
        }
        out
    }

    /// The age of the oldest live snapshot in milliseconds, or 0 if there is
    /// none. The clock decides the ages.
    pub fn oldest_age_ms(&self) -> (r: u64)
        requires
            self.wf(),
        ensures
            exists|ages: Seq<SnapshotAge>| #[trigger] self.listed(ages) && is_oldest(ages, r),
            self.pins().dom().is_empty() ==> r == 0,
    {
        let ages: Vec<SnapshotAge> = self.ages();
        proof {
            if self.pins().dom().is_empty() && ages@.len() > 0 {
                assert(self.pins().contains_key(ages@[0].seq.0));
                assert(self.pins().dom().contains(ages@[0].seq.0));
            }
        }
        oldest_of(ages.as_slice())
    }

    /// An estimate of the bytes that snapshots retain: what `walker` gives for
    /// the smallest pinned sequence number, or 0 if none is pinned.
    pub fn pinned_bytes_estimate<F: FnOnce(SequenceNumber) -> u64>(&self, walker: F) -> (r: u64)
        requires
            self.wf(),
            forall|m: SequenceNumber| #[trigger] call_requires(walker, (m,)),
        ensures
            exists|m: SequenceNumber|
                {
                    &&& #[trigger] is_min_or_max(self.pins().dom(), m.0)
                    &&& m.0 == u64::MAX ==> r == 0
                    &&& m.0 != u64::MAX ==> call_ensures(walker, (m,), r)
                },
    {
        let min: SequenceNumber = self.min_active();
        assert(is_min_or_max(self.pins().dom(), min.0));
        if min.0 == u64::MAX {
            return 0;
        }
        walker(min)
    }

    /// Sets the reporting threshold.
    pub fn set_max_age_ms(&mut self, ms: u64)
        ensures
            final(self).threshold() == ms,
            final(self).pins() == old(self).pins(),
            old(self).wf() ==> final(self).wf(),
            forall|k: u64| final(self).first_db(k) == old(self).first_db(k),
            forall|k: u64| final(self).first_taken_at(k) == old(self).first_taken_at(k),
    {
        self.max_age_ms = ms;
    }

    /// The reporting threshold.
    pub fn max_age_ms(&self) -> (r: u64)
        ensures
            r == self.threshold(),
    {
        self.max_age_ms
    }

    /// Reports the smallest pinned sequence number whose first capture is
    /// older than the threshold. Nothing is ever released on this account.
    pub fn check_long_lived(&self) -> (r: Option<SnapshotAgeWarning>)
        requires
            self.wf(),
        ensures
            exists|ages: Seq<SnapshotAge>| #[trigger]
                self.listed(ages) && reports_long_lived(ages, self.threshold(), r),
            r matches Some(w) ==> self.pins().contains_key(w.seq.0) && w.db_id == self.first_db(
                w.seq.0,
            ) && w.age_ms > w.max_age_ms && w.max_age_ms == self.threshold(),
    {
        let ages: Vec<SnapshotAge> = self.ages();
        first_long_lived(ages.as_slice(), self.max_age_ms)
    }
}

/// The pins with one more at `seq`.
pub open spec fn pinned_once_more(pins: Map<u64, nat>, seq: u64) -> Map<u64, nat> {
    pins.insert(
        seq,
        if pins.contains_key(seq) {
            pins[seq] + 1
        } else {
            1
        },
    )
}

/// The pins with one less at `seq`; the last one removes it, and without one
/// nothing changes.
pub open spec fn pinned_once_less(pins: Map<u64, nat>, seq: u64) -> Map<u64, nat> {
    if !pins.contains_key(seq) {
        pins
    } else if pins[seq] <= 1 {
        pins.remove(seq)
    } else {
        pins.insert(seq, (pins[seq] - 1) as nat)
    }
}

/// What holds of the pins of every registry: there are finitely many, and each
/// pinned sequence number has at least one.
pub proof fn lemma_wf(registry: SnapshotRegistry)
    requires
        registry.wf(),
    ensures
        registry.pins().dom().finite(),
        forall|k: u64| #[trigger]
            registry.pins().contains_key(k) ==> registry.pins()[k] > 0,
{
    assert(registry.pins().dom() =~= registry.active@.dom());
}

/// Releasing a pin undoes its capture: the pins are as they were, and so are
/// the minimum and the count.
pub proof fn law_release_undoes_capture(registry: SnapshotRegistry, seq: u64)
    requires
        registry.wf(),
    ensures
        pinned_once_less(pinned_once_more(registry.pins(), seq), seq) == registry.pins(),
{
    lemma_wf(registry);
    let pins = registry.pins();
    assert(pinned_once_less(pinned_once_more(pins, seq), seq) =~= pins);
}

/// A capture lowers the minimum to its sequence number if that is smaller, and
/// adds it to the count if it was not pinned.
pub proof fn law_capture_moves_minimum_and_count(registry: SnapshotRegistry, seq: u64, min: u64)
    requires
        registry.wf(),
        is_min_or_max(registry.pins().dom(), min),
    ensures
        is_min_or_max(
            pinned_once_more(registry.pins(), seq).dom(),
            if seq < min {
                seq
            } else {
                min
            },
        ),
        pinned_once_more(registry.pins(), seq).dom().len() == registry.pins().dom().len()
            + if registry.pins().contains_key(seq) {
            0int
        } else {
            1
        },
{
    lemma_wf(registry);
    let dom = registry.pins().dom();
    assert(pinned_once_more(registry.pins(), seq).dom() =~= dom.insert(seq));
    assert(dom.insert(seq).contains(seq));
    if dom.is_empty() {
        assert(min == u64::MAX);
    }
    if dom.contains(seq) {
        assert(dom.insert(seq) =~= dom);
    }
}

/// A pinned sequence number keeps the minimum at or below it until its last
/// pin is released, whatever other pins come and go.
pub proof fn law_pin_bounds_minimum(pins: Map<u64, nat>, seq: u64, other: u64, min: u64)
    requires
        pins.contains_key(seq),
        pins[seq] > 0,
        other != seq || pins[seq] > 1,
        is_min_or_max(pinned_once_less(pins, other).dom(), min),
    ensures
        min <= seq,
{
    assert(pinned_once_less(pins, other).dom().contains(seq));
}

/// The minimum is the only value that [`is_min_or_max`] allows.
pub proof fn law_minimum_is_unique(s: Set<u64>, a: u64, b: u64)
    requires
        is_min_or_max(s, a),
        is_min_or_max(s, b),
    ensures
        a == b,
{
}

/// A capture adds one pin to its sequence number and touches no other; a release
/// takes one away, and the last one takes the sequence number off the registry.
pub proof fn law_pins_are_counted(pins: Map<u64, nat>, seq: u64, other: u64)
    requires
        other != seq,
    ensures
        pinned_once_more(pins, seq).contains_key(seq),
        pins.contains_key(seq) ==> pinned_once_more(pins, seq)[seq] == pins[seq] + 1,
        !pins.contains_key(seq) ==> pinned_once_more(pins, seq)[seq] == 1,
        pinned_once_more(pins, seq).contains_key(other) <==> pins.contains_key(other),
        pins.contains_key(other) ==> pinned_once_more(pins, seq)[other] == pins[other],
        pinned_once_less(pins, seq).contains_key(seq) <==> pins.contains_key(seq) && pins[seq] > 1,
        pins.contains_key(seq) && pins[seq] > 1 ==> pinned_once_less(pins, seq)[seq] == pins[seq]
            - 1,
        pinned_once_less(pins, seq).contains_key(other) <==> pins.contains_key(other),
        pins.contains_key(other) ==> pinned_once_less(pins, seq)[other] == pins[other],
{
}

/// The oldest active snapshot: none is older, it is one of them, and without any the
/// largest number stands for it.
pub proof fn law_minimum_is_the_oldest(s: Set<u64>, m: u64, k: u64)
    requires
        is_min_or_max(s, m),
    ensures
        s.contains(k) ==> m <= k && s.contains(m),
        !s.contains(m) ==> m == 0xffff_ffff_ffff_ffff && !s.contains(k),
{
}

/// The largest age grows with each further snapshot, is that of one of them, and
/// without any is 0.
pub proof fn law_oldest_age_is_the_largest(
    ages: Seq<SnapshotAge>,
    last: SnapshotAge,
    r: u64,
    other: u64,
)
    requires
        is_oldest(ages, r),
    ensures
        ages.len() == 0 ==> r == 0,
        is_oldest(
            ages.push(last),
            if last.age_ms > r {
                last.age_ms
            } else {
                r
            },
        ),
        is_oldest(ages, other) ==> other == r,
{
    let all = ages.push(last);
    let top = if last.age_ms > r {
        last.age_ms
    } else {
        r
    };
    assert(all[ages.len() as int] == last);
    assert forall|i: int| 0 <= i < all.len() implies (#[trigger] all[i]).age_ms <= top by {
        if i < ages.len() {
            assert(ages[i].age_ms <= r);
        }
    }
    if ages.len() > 0 {
        let i = choose|i: int| 0 <= i < ages.len() && (#[trigger] ages[i]).age_ms == r;
        assert(all[i].age_ms == r);
    }
}

/// There is a warning exactly where a snapshot is older than allowed. It is about
/// such a snapshot, the one with the lowest sequence number, with its own age.
pub proof fn law_warning_is_about_the_first_that_is_too_old(
    ages: Seq<SnapshotAge>,
    max: u64,
    w: Option<SnapshotAgeWarning>,
    i: int,
)
    requires
        reports_long_lived(ages, max, w),
    ensures
        0 <= i < ages.len() && ages[i].age_ms > max ==> w is Some,
        w matches Some(x) ==> {
            &&& exists|j: int|
                0 <= j < ages.len() && (#[trigger] ages[j]).seq == x.seq && ages[j].db_id == x.db_id
                    && ages[j].age_ms == x.age_ms
            &&& x.age_ms > max
            &&& x.max_age_ms == max
            &&& 0 <= i < ages.len() && ages[i].age_ms > max ==> x.seq.0 <= ages[i].seq.0
        },
{
    if let Some(x) = w {
        let j = choose|j: int|
            0 <= j < ages.len() && #[trigger] ages[j] == (SnapshotAge {
                seq: x.seq,
                db_id: x.db_id,
                age_ms: x.age_ms,
            });
        assert(ages[j].seq == x.seq);
    }
}

/// A registry lists each pinned sequence number once, with the database and the age
/// of its first snapshot, and no other.
pub proof fn law_every_pin_is_listed_once(
    registry: SnapshotRegistry,
    ages: Seq<SnapshotAge>,
    k: u64,
    i: int,
    j: int,
)
    requires
        registry.listed(ages),
        0 <= i < ages.len(),
        0 <= j < ages.len(),
    ensures
        registry.pins().contains_key(k) <==> exists|x: int|
            0 <= x < ages.len() && (#[trigger] ages[x]).seq.0 == k,
        ages[i].seq.0 == ages[j].seq.0 ==> i == j,
        ages[i].db_id == registry.first_db(ages[i].seq.0),
        exists|ms: u128| #[trigger]
            millis_since(registry.first_taken_at(ages[i].seq.0), ms) && ages[i].age_ms == if ms
                <= 0xffff_ffff_ffff_ffff {
                ms as int
            } else {
                0xffff_ffff_ffff_ffff
            },
{
    assert(age_read(registry.first_taken_at(ages[i].seq.0), ages[i].age_ms));
    if i < j {
        assert(ages[i].seq.0 != ages[j].seq.0);
    } else if j < i {
        assert(ages[j].seq.0 != ages[i].seq.0);
    }
}

/// The words of a warning: the snapshot, its database, its age and the limit.
pub proof fn law_warning_text(w: SnapshotAgeWarning)
    ensures
        w.rendered() == "snapshot age exceeds max_age_ms: seq="@ + crate::text::decimal(
            w.seq.0 as nat,
        ) + ", db_id="@ + crate::text::decimal(w.db_id.0 as nat) + ", age_ms="@
            + crate::text::decimal(w.age_ms as nat) + ", max_age_ms="@ + crate::text::decimal(
            w.max_age_ms as nat,
        ) + "; hint: "@ + w.hint@,
{
}

/// The age of a snapshot is the whole milliseconds that have passed since it was taken.
pub proof fn law_age_is_the_time_passed(since: std::time::Instant, ms: u128, age: u64)
    ensures
        millis_since(since, ms) <==> exists|span: std::time::Duration|
            {
                &&& #[trigger] call_ensures(std::time::Instant::elapsed, (&since,), span)
                &&& #[trigger] call_ensures(std::time::Duration::as_millis, (&span,), ms)
            },
        age_read(since, age) <==> exists|m: u128| #[trigger]
            millis_since(since, m) && age == if m <= 0xffff_ffff_ffff_ffff {
                m as int
            } else {
                0xffff_ffff_ffff_ffff
            },
{
    if exists|m: u128| #[trigger]
        millis_since(since, m) && age == if m <= 0xffff_ffff_ffff_ffff {
            m as int
        } else {
            0xffff_ffff_ffff_ffff
        } {
        let m = choose|m: u128| #[trigger]
            millis_since(since, m) && age == if m <= 0xffff_ffff_ffff_ffff {
                m as int
            } else {
                0xffff_ffff_ffff_ffff
            };
        assert(age == saturated(m));
    }
}

} // verus!
