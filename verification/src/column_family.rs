//! Column families: their handles, how they are set up, and what each holds in
//! memory.

use crate::bytes;
use crate::bytes::{bytes_less, copy_bytes};
use crate::compaction_filter::CompactionFilter;
use crate::config::CfOptions;
use crate::flags;
use crate::flags::parse_positive;
use crate::merge_operator::MergeOperator;
use crate::types::{ColumnFamilyId, FileNumber};
use std::collections::BTreeSet;
use vstd::prelude::*;

verus! {

broadcast use vstd::std_specs::btree::group_btree_axioms;

/// The bytes that flushed memtables may take up in memory unless another limit
/// is set.
pub const DEFAULT_RESIDENT_FLUSHED_CAP_BYTES: usize = 1_073_741_824;

/// The limit on flushed memtables kept in memory: what the setting gives in
/// mebibytes, or the default.
pub open spec fn resident_cap(setting: Option<&str>) -> int {
    match flags::positive(setting) {
        Some(mb) => if mb > usize::MAX {
            DEFAULT_RESIDENT_FLUSHED_CAP_BYTES as int
        } else if mb * 1_048_576 > usize::MAX {
            usize::MAX as int
        } else {
            mb * 1_048_576
        },
        None => DEFAULT_RESIDENT_FLUSHED_CAP_BYTES as int,
    }
}

/// The limit on flushed memtables kept in memory.
pub fn resident_flushed_cap_bytes(setting: Option<&str>) -> (r: usize)
    ensures
        r == resident_cap(setting),
{
    match parse_positive(setting) {
        Some(mb) => {
            if mb > usize::MAX as u64 {
                return DEFAULT_RESIDENT_FLUSHED_CAP_BYTES;
            }
            match (mb as usize).checked_mul(1_048_576) {
                Some(b) => b,
                None => usize::MAX,
            }
        },
        None => DEFAULT_RESIDENT_FLUSHED_CAP_BYTES,
    }
}

/// `Hash` for `u32` feeds the number to a hasher. What the hasher makes of it
/// is its own affair, so nothing is said of it.
#[verifier::external_body]
fn hash_number<H: std::hash::Hasher>(value: u32, state: &mut H) {
    std::hash::Hash::hash(&value, state);
}

/// The flags of handles that say whether their family has been dropped. A new
/// handle gets a flag of its own; its clones go by the same one.
pub struct DroppedFamilies {
    flags: Vec<bool>,
}

impl View for DroppedFamilies {
    type V = Seq<bool>;

    closed spec fn view(&self) -> Seq<bool> {
        self.flags@
    }
}

/// The flag is raised.
pub open spec fn raised(flags: Seq<bool>, flag: int) -> bool {
    0 <= flag < flags.len() && flags[flag]
}

/// The flags once `flag`, if it is one of them, is raised.
pub open spec fn with_raised(flags: Seq<bool>, flag: int) -> Seq<bool> {
    if 0 <= flag < flags.len() {
        flags.update(flag, true)
    } else {
        flags
    }
}

impl DroppedFamilies {
    /// No flag.
    pub fn new() -> (r: Self)
        ensures
            r@ == Seq::<bool>::empty(),
    {
        DroppedFamilies { flags: Vec::new() }
    }
}

/// Identifies a column family. Handles are equal if they have the same number.
#[derive(Debug)]
pub struct ColumnFamilyHandle {
    id: ColumnFamilyId,
    name: String,
    /// Which of the flags says whether the family has been dropped.
    flag: usize,
}

impl ColumnFamilyHandle {
    /// The number of the family.
    pub closed spec fn number(&self) -> ColumnFamilyId {
        self.id
    }

    /// The name of the family.
    pub closed spec fn label(&self) -> Seq<char> {
        self.name@
    }

    /// The flag of the handle.
    pub closed spec fn flag(&self) -> int {
        self.flag as int
    }

    /// A handle with a number and a name, and with a new flag, which is not
    /// raised.
    pub fn new<N: Into<String>>(
        id: ColumnFamilyId,
        name: N,
        families: &mut DroppedFamilies,
    ) -> (r: Self)
        ensures
            r.number() == id,
            exists|s: String| #[trigger]
                call_ensures(<N as Into<String>>::into, (name,), s) && r.label() == s@,
            r.flag() == old(families)@.len(),
            final(families)@ == old(families)@.push(false),
    {
        let name: String = name.into();
        let flag: usize = families.flags.len();
        families.flags.push(false);
        ColumnFamilyHandle { id, name, flag }
    }

    /// The number of the family.
    pub fn id(&self) -> (r: ColumnFamilyId)
        ensures
            r == self.number(),
    {
        self.id
    }

    /// The name of the family.
    pub fn name(&self) -> (r: &str)
        ensures
            r@ == self.label(),
    {
        self.name.as_str()
    }

    /// Whether the family has been dropped through this handle or a clone.
    pub fn is_dropped(&self, families: &DroppedFamilies) -> (r: bool)
        ensures
            r == raised(families@, self.flag()),
    {
        self.flag < families.flags.len() && families.flags[self.flag]
    }

    /// Marks the family as dropped, for this handle and its clones.
    pub fn mark_dropped(&self, families: &mut DroppedFamilies)
        ensures
            final(families)@ == with_raised(old(families)@, self.flag()),
    {
        if self.flag < families.flags.len() {
            families.flags.set(self.flag, true);
        }
    }
}

impl Clone for ColumnFamilyHandle {
    /// A handle of the same family with the same flag.
    fn clone(&self) -> (r: Self)
        ensures
            r.number() == self.number(),
            r.label() == self.label(),
            r.flag() == self.flag(),
    {
        ColumnFamilyHandle { id: self.id, name: self.name.clone(), flag: self.flag }
    }
}

/// A drop is seen through the handles that share the flag and through no other,
/// a handle made later among them.
pub proof fn law_drop_is_seen_by_clones(flags: Seq<bool>, dropped: int, other: int)
    requires
        0 <= dropped < flags.len(),
    ensures
        raised(with_raised(flags, dropped), dropped),
        other != dropped ==> raised(with_raised(flags, dropped), other) == raised(flags, other),
        !raised(with_raised(flags, dropped).push(false), flags.len() as int),
{
}

impl PartialEq for ColumnFamilyHandle {
    fn eq(&self, other: &Self) -> (r: bool) {
        self.id == other.id
    }
}

impl vstd::std_specs::cmp::PartialEqSpecImpl for ColumnFamilyHandle {
    open spec fn obeys_eq_spec() -> bool {
        true
    }

    open spec fn eq_spec(&self, other: &Self) -> bool {
        self.number() == other.number()
    }
}

impl Eq for ColumnFamilyHandle {

}

impl std::hash::Hash for ColumnFamilyHandle {
    fn hash<H: std::hash::Hasher>(&self, state: &mut H) {
        hash_number(self.id.0, state);
    }
}

/// How a column family is set up.
#[derive(Debug)]
pub struct ColumnFamilyDescriptor<F: CompactionFilter, M: MergeOperator> {
    name: String,
    options: CfOptions,
    merge_operator: Option<M>,
    compaction_filter: Option<F>,
}

impl<F: CompactionFilter, M: MergeOperator> ColumnFamilyDescriptor<F, M> {
    /// The name of the family.
    pub closed spec fn label(&self) -> Seq<char> {
        self.name@
    }

    /// The options.
    pub closed spec fn opts(&self) -> CfOptions {
        self.options
    }

    /// The merge operator.
    pub closed spec fn operator(&self) -> Option<M> {
        self.merge_operator
    }

    /// The compaction filter.
    pub closed spec fn filter(&self) -> Option<F> {
        self.compaction_filter
    }

    /// A family with default options, no merge operator and no filter.
    pub fn new<N: Into<String>>(name: N) -> (r: Self)
        ensures
            exists|s: String| #[trigger]
                call_ensures(<N as Into<String>>::into, (name,), s) && r.label() == s@,
            call_ensures(CfOptions::default, (), r.opts()),
            r.operator() is None,
            r.filter() is None,
    {
        let name: String = name.into();
        ColumnFamilyDescriptor {
            name,
            options: CfOptions::default(),
            merge_operator: None,
            compaction_filter: None,
        }
    }

    /// Sets the options.
    pub fn with_options(self, options: CfOptions) -> (r: Self)
        ensures
            r.opts() == options,
            r.label() == self.label(),
            r.operator() == self.operator(),
            r.filter() == self.filter(),
    {
        ColumnFamilyDescriptor {
            name: self.name,
            options,
            merge_operator: self.merge_operator,
            compaction_filter: self.compaction_filter,
        }
    }

    /// Sets the merge operator, and its name in the options.
    pub fn with_merge_operator(self, op: M) -> (r: Self)
        ensures
            r.operator() == Some(op),
            r.label() == self.label(),
            r.filter() == self.filter(),
            r.opts().merge_operator matches Some(n) && call_ensures(M::name, (&op,), n),
            r.opts() == (CfOptions { merge_operator: r.opts().merge_operator, ..self.opts() }),
    {
        let op_name: String = op.name();
        let mut options: CfOptions = self.options;
        options.merge_operator = Some(op_name);
        ColumnFamilyDescriptor {
            name: self.name,
            options,
            merge_operator: Some(op),
            compaction_filter: self.compaction_filter,
        }
    }

    /// Sets the compaction filter.
    pub fn with_compaction_filter(self, f: F) -> (r: Self)
        ensures
            r.filter() == Some(f),
            r.label() == self.label(),
            r.opts() == self.opts(),
            r.operator() == self.operator(),
    {
        ColumnFamilyDescriptor {
            name: self.name,
            options: self.options,
            merge_operator: self.merge_operator,
            compaction_filter: Some(f),
        }
    }

    /// The name of the family.
    pub fn name(&self) -> (r: &str)
        ensures
            r@ == self.label(),
    {
        self.name.as_str()
    }

    /// The options.
    pub fn options(&self) -> (r: &CfOptions)
        ensures
            *r == self.opts(),
    {
        &self.options
    }

    /// The merge operator, if there is one.
    pub fn merge_operator(&self) -> (r: Option<&M>)
        ensures
            match r {
                Some(m) => self.operator() == Some(*m),
                None => self.operator() is None,
            },
    {
        self.merge_operator.as_ref()
    }

    /// The compaction filter, if there is one.
    pub fn compaction_filter(&self) -> (r: Option<&F>)
        ensures
            match r {
                Some(f) => self.filter() == Some(*f),
                None => self.filter() is None,
            },
    {
        self.compaction_filter.as_ref()
    }
}

/// What a column family goes by of a memtable: which one it is, how much memory
/// it takes, and whether it is frozen.
#[derive(Clone, Copy, Debug, PartialEq, Eq, Structural)]
pub struct MemTable {
    pub id: u64,
    pub shard_count: usize,
    pub memory_usage: usize,
    pub frozen: bool,
}

impl MemTable {
    /// An empty memtable.
    pub fn new(id: u64, shard_count: usize) -> (r: Self)
        ensures
            r == (MemTable { id, shard_count, memory_usage: 0, frozen: false }),
    {
        MemTable { id, shard_count, memory_usage: 0, frozen: false }
    }

    /// Whether the memtable is frozen.
    pub fn is_frozen(&self) -> (r: bool)
        ensures
            r == self.frozen,
    {
        self.frozen
    }
}

/// The state at which a family is read.
#[derive(Clone, Copy, Debug, PartialEq, Eq, Structural)]
pub struct SnapshotView {
    pub seq: u64,
}

impl SnapshotView {
    /// The state before any write.
    pub fn empty() -> (r: Self)
        ensures
            r.seq == 0,
    {
        SnapshotView { seq: 0 }
    }

    /// The state after sequence number `seq`.
    pub fn with_sequence(self, seq: u64) -> (r: Self)
        ensures
            r.seq == seq,
    {
        SnapshotView { seq }
    }

    /// The sequence number.
    pub fn sequence(&self) -> (r: u64)
        ensures
            r == self.seq,
    {
        self.seq
    }
}

/// A flushed memtable kept for reading, with the file that it was flushed to
/// and the range of its keys; an empty range means that it is not known.
#[derive(Clone, Debug)]
pub struct ResidentEntry {
    pub file_number: FileNumber,
    pub memtable: MemTable,
    pub min_key: Vec<u8>,
    pub max_key: Vec<u8>,
}

/// The contents of a [`ResidentEntry`].
pub struct ResidentView {
    pub file_number: FileNumber,
    pub memtable: MemTable,
    pub min_key: Seq<u8>,
    pub max_key: Seq<u8>,
}

impl View for ResidentEntry {
    type V = ResidentView;

    open spec fn view(&self) -> ResidentView {
        ResidentView {
            file_number: self.file_number,
            memtable: self.memtable,
            min_key: self.min_key@,
            max_key: self.max_key@,
        }
    }
}

/// The key may lie in the entry.
pub open spec fn covers(e: ResidentView, key: Seq<u8>) -> bool {
    e.min_key.len() == 0 && e.max_key.len() == 0 || bytes::lex_le(e.min_key, key)
        && bytes::lex_le(key, e.max_key)
}

impl ResidentEntry {
    /// Whether `key` may lie in the entry: whether it is in the range, or the
    /// range is not known.
    pub fn may_contain(&self, key: &[u8]) -> (r: bool)
        ensures
            r == covers(self@, key@),
    {
        proof {
            bytes::lemma_lex_not_lt(key@, self.min_key@);
            bytes::lemma_lex_not_lt(self.max_key@, key@);
        }
        if self.min_key.len() == 0 && self.max_key.len() == 0 {
            return true;
        }
        !bytes_less(key, self.min_key.as_slice()) && !bytes_less(self.max_key.as_slice(), key)
    }

    /// An owned copy.
    pub fn duplicate(&self) -> (r: ResidentEntry)
        ensures
            r@ == self@,
    {
        ResidentEntry {
            file_number: self.file_number,
            memtable: self.memtable,
            min_key: copy_bytes(self.min_key.as_slice()),
            max_key: copy_bytes(self.max_key.as_slice()),
        }
    }
}

/// The contents of several entries.
pub open spec fn entries_view(v: Seq<ResidentEntry>) -> Seq<ResidentView> {
    Seq::new(v.len(), |i: int| v[i]@)
}

/// The memory that the entries take up.
pub open spec fn resident_bytes(v: Seq<ResidentView>) -> nat
    decreases v.len(),
{
    if v.len() == 0 {
        0
    } else {
        v[0].memtable.memory_usage as nat + resident_bytes(v.skip(1))
    }
}

/// `r` is what is left of `all` when the oldest entries go until the rest fits
/// in `cap` bytes.
pub open spec fn is_trimmed(all: Seq<ResidentView>, cap: nat, r: Seq<ResidentView>) -> bool {
    exists|k: int|
        0 <= k <= all.len() && r == #[trigger] all.skip(k) && resident_bytes(r) <= cap && (
        forall|j: int| 0 <= j < k ==> resident_bytes(#[trigger] all.skip(j)) > cap)
}

/// The entries whose file is live.
pub open spec fn live_entries(v: Seq<ResidentView>, live: Set<u64>) -> Seq<ResidentView> {
    v.filter(|e: ResidentView| live.contains(e.file_number.0))
}

/// The entries whose file is live and that may hold `key`.
pub open spec fn live_entries_for(
    v: Seq<ResidentView>,
    live: Set<u64>,
    key: Seq<u8>,
) -> Seq<ResidentView> {
    v.filter(|e: ResidentView| live.contains(e.file_number.0) && covers(e, key))
}

/// The memtables of entries.
pub open spec fn tables_of(v: Seq<ResidentView>) -> Seq<MemTable> {
    Seq::new(v.len(), |i: int| v[i].memtable)
}

/// The files of entries.
pub open spec fn files_of(v: Seq<ResidentView>) -> Set<u64> {
    Set::new(|n: u64| exists|i: int| 0 <= i < v.len() && (#[trigger] v[i]).file_number.0 == n)
}

proof fn lemma_files_push(v: Seq<ResidentView>, e: ResidentView)
    ensures
        files_of(v.push(e)) == files_of(v).insert(e.file_number.0),
{
    assert forall|n: u64| files_of(v.push(e)).contains(n) <==> files_of(v).insert(
        e.file_number.0,
    ).contains(n) by {
        if files_of(v.push(e)).contains(n) {
            let i = choose|i: int|
                0 <= i < v.push(e).len() && (#[trigger] v.push(e)[i]).file_number.0 == n;
            if i < v.len() {
                assert(v[i].file_number.0 == n);
            }
        }
        if files_of(v).contains(n) {
            let i = choose|i: int| 0 <= i < v.len() && (#[trigger] v[i]).file_number.0 == n;
            assert(v.push(e)[i].file_number.0 == n);
        }
        if n == e.file_number.0 {
            assert(v.push(e)[v.len() as int].file_number.0 == n);
        }
    }
    assert(files_of(v.push(e)) =~= files_of(v).insert(e.file_number.0));
}

proof fn lemma_filter_step(s: Seq<ResidentView>, p: spec_fn(ResidentView) -> bool, i: int)
    requires
        0 <= i < s.len(),
    ensures
        s.take(i + 1).filter(p) == if p(s[i]) {
            s.take(i).filter(p).push(s[i])
        } else {
            s.take(i).filter(p)
        },
{
    reveal(Seq::filter);
    assert(s.take(i + 1).drop_last() =~= s.take(i));
}

proof fn lemma_bytes_push(v: Seq<ResidentView>, e: ResidentView)
    ensures
        resident_bytes(v.push(e)) == resident_bytes(v) + e.memtable.memory_usage,
    decreases v.len(),
{
    if v.len() > 0 {
        lemma_bytes_push(v.skip(1), e);
        assert(v.push(e).skip(1) =~= v.skip(1).push(e));
    } else {
        assert(v.push(e).skip(1) =~= v);
    }
}

/// What a column family holds in memory.
pub struct ColumnFamilyData<F: CompactionFilter, M: MergeOperator> {
    handle: ColumnFamilyHandle,
    options: CfOptions,
    merge_operator: Option<M>,
    compaction_filter: Option<F>,
    active_memtable: MemTable,
    /// Frozen memtables that wait to be flushed, oldest first.
    imm_list: Vec<MemTable>,
    cached_snapshot_view: SnapshotView,
    shard_count: usize,
    /// Flushed memtables kept for reading, oldest first.
    resident_flushed: Vec<ResidentEntry>,
}

/// The contents of a [`ColumnFamilyData`].
pub struct FamilyView<F, M> {
    pub handle: ColumnFamilyHandle,
    pub options: CfOptions,
    pub merge_operator: Option<M>,
    pub compaction_filter: Option<F>,
    pub active: MemTable,
    pub frozen: Seq<MemTable>,
    pub snapshot: SnapshotView,
    pub shard_count: usize,
    pub resident: Seq<ResidentView>,
}

impl<F: CompactionFilter, M: MergeOperator> View for ColumnFamilyData<F, M> {
    type V = FamilyView<F, M>;

    closed spec fn view(&self) -> FamilyView<F, M> {
        FamilyView {
            handle: self.handle,
            options: self.options,
            merge_operator: self.merge_operator,
            compaction_filter: self.compaction_filter,
            active: self.active_memtable,
            frozen: self.imm_list@,
            snapshot: self.cached_snapshot_view,
            shard_count: self.shard_count,
            resident: entries_view(self.resident_flushed@),
        }
    }
}

/// A family with nothing in it but an empty memtable.
pub open spec fn fresh_family<F, M>(
    handle: ColumnFamilyHandle,
    options: CfOptions,
    merge_operator: Option<M>,
    compaction_filter: Option<F>,
    snapshot: SnapshotView,
    shard_count: usize,
) -> FamilyView<F, M> {
    FamilyView {
        handle,
        options,
        merge_operator,
        compaction_filter,
        active: MemTable { id: 0, shard_count, memory_usage: 0, frozen: false },
        frozen: Seq::empty(),
        snapshot,
        shard_count,
        resident: Seq::empty(),
    }
}

impl<F: CompactionFilter, M: MergeOperator> ColumnFamilyData<F, M> {
    /// A family with a fresh memtable and no filter.
    pub fn new(
        handle: ColumnFamilyHandle,
        options: CfOptions,
        merge_operator: Option<M>,
        initial_snapshot: SnapshotView,
    ) -> (r: Self)
        ensures
            r@ == fresh_family(handle, options, merge_operator, None::<F>, initial_snapshot, 0),
    {
        Self::new_with_filter(handle, options, merge_operator, None, initial_snapshot)
    }

    /// A family with a fresh memtable of the default number of shards.
    pub fn new_with_filter(
        handle: ColumnFamilyHandle,
        options: CfOptions,
        merge_operator: Option<M>,
        compaction_filter: Option<F>,
        initial_snapshot: SnapshotView,
    ) -> (r: Self)
        ensures
            r@ == fresh_family(
                handle,
                options,
                merge_operator,
                compaction_filter,
                initial_snapshot,
                0,
            ),
    {
        Self::new_with_filter_and_shards(
            handle,
            options,
            merge_operator,
            compaction_filter,
            initial_snapshot,
            0,
        )
    }

    /// A family with a fresh memtable of `shard_count` shards; 0 means the
    /// default number.
    pub fn new_with_filter_and_shards(
        handle: ColumnFamilyHandle,
        options: CfOptions,
        merge_operator: Option<M>,
        compaction_filter: Option<F>,
        initial_snapshot: SnapshotView,
        shard_count: usize,
    ) -> (r: Self)
        ensures
            r@ == fresh_family(
                handle,
                options,
                merge_operator,
                compaction_filter,
                initial_snapshot,
                shard_count,
            ),
    {
        let r = ColumnFamilyData {
            handle,
            options,
            merge_operator,
            compaction_filter,
            active_memtable: MemTable::new(0, shard_count),
            imm_list: Vec::new(),
            cached_snapshot_view: initial_snapshot,
            shard_count,
            resident_flushed: Vec::new(),
        };
        assert(entries_view(r.resident_flushed@) =~= Seq::<ResidentView>::empty());
        r
    }

    /// The handle of the family.
    pub fn handle(&self) -> (r: &ColumnFamilyHandle)
        ensures
            *r == self@.handle,
    {
        &self.handle
    }

    /// Whether the family has been dropped.
    pub fn is_dropped(&self, families: &DroppedFamilies) -> (r: bool)
        ensures
            r == raised(families@, self@.handle.flag()),
    {
        self.handle.is_dropped(families)
    }

    /// Marks the family as dropped.
    pub fn mark_dropped(&self, families: &mut DroppedFamilies)
        ensures
            final(families)@ == with_raised(old(families)@, self@.handle.flag()),
    {
        self.handle.mark_dropped(families);
    }

    /// The options.
    pub fn options(&self) -> (r: &CfOptions)
        ensures
            *r == self@.options,
    {
        &self.options
    }

    /// The merge operator, if there is one.
    pub fn merge_operator(&self) -> (r: Option<&M>)
        ensures
            match r {
                Some(m) => self@.merge_operator == Some(*m),
                None => self@.merge_operator is None,
            },
    {
        self.merge_operator.as_ref()
    }

    /// The compaction filter, if there is one.
    pub fn compaction_filter(&self) -> (r: Option<&F>)
        ensures
            match r {
                Some(f) => self@.compaction_filter == Some(*f),
                None => self@.compaction_filter is None,
            },
    {
        self.compaction_filter.as_ref()
    }

    /// Sets or removes the compaction filter.
    pub fn set_compaction_filter(&mut self, filter: Option<F>)
        ensures
            final(self)@ == (FamilyView { compaction_filter: filter, ..old(self)@ }),
    {
        self.compaction_filter = filter;
    }

    /// The memtable that is written to.
    pub fn active_memtable(&self) -> (r: MemTable)
        ensures
            r == self@.active,
    {
        self.active_memtable
    }

    /// The frozen memtables, oldest first.
    pub fn imm_memtables(&self) -> (r: Vec<MemTable>)
        ensures
            r@ == self@.frozen,
    {
        let mut out: Vec<MemTable> = Vec::new();
        let mut i: usize = 0;
        while i < self.imm_list.len()
            invariant
                i <= self.imm_list@.len(),
                out@ == self.imm_list@.take(i as int),
            decreases self.imm_list@.len() - i,
        {
            out.push(self.imm_list[i]);
            i += 1;
            assert(out@ =~= self.imm_list@.take(i as int));
        }
        assert(self.imm_list@.take(i as int) =~= self.imm_list@);
        out
    }

    /// The state at which the family is read.
    pub fn snapshot_view(&self) -> (r: SnapshotView)
        ensures
            r == self@.snapshot,
    {
        self.cached_snapshot_view
    }

    /// Sets the state at which the family is read.
    pub fn store_snapshot_view(&mut self, view: SnapshotView)
        ensures
            final(self)@ == (FamilyView { snapshot: view, ..old(self)@ }),
    {
        self.cached_snapshot_view = view;
    }

    /// Freezes the memtable that is written to, queues it for flushing and puts
    /// a fresh one, with the next number, in its place.
    pub fn swap_active_memtable(&mut self) -> (r: MemTable)
        requires
            old(self)@.active.id < u64::MAX,
        ensures
            r == (MemTable { frozen: true, ..old(self)@.active }),
            final(self)@ == (FamilyView {
                active: MemTable {
                    id: (old(self)@.active.id + 1) as u64,
                    shard_count: old(self)@.shard_count,
                    memory_usage: 0,
                    frozen: false,
                },
                frozen: old(self)@.frozen.push(r),
                ..old(self)@
            }),
    {
        let mut frozen: MemTable = self.active_memtable;
        frozen.frozen = true;
        self.active_memtable = MemTable::new(frozen.id + 1, self.shard_count);
        self.imm_list.push(frozen);
        frozen
    }

    /// The number of frozen memtables.
    pub fn imm_count(&self) -> (r: usize)
        ensures
            r == self@.frozen.len(),
    {
        self.imm_list.len()
    }

    /// Takes the oldest frozen memtable off the queue.
    pub fn pop_oldest_imm(&mut self) -> (r: Option<MemTable>)
        ensures
            match r {
                Some(m) => old(self)@.frozen.len() > 0 && m == old(self)@.frozen[0] && final(self)@
                    == (FamilyView { frozen: old(self)@.frozen.skip(1), ..old(self)@ }),
                None => old(self)@.frozen.len() == 0 && final(self)@ == old(self)@,
            },
    {
        if self.imm_list.len() == 0 {
            None
        } else {
            let m: MemTable = self.imm_list.remove(0);
            assert(self.imm_list@ =~= old(self)@.frozen.skip(1));
            Some(m)
        }
    }

    /// The flushed memtables whose file is live, oldest first, and their files.
    pub fn resident_flushed_visible(&self, live: &BTreeSet<u64>) -> (r: (
        Vec<MemTable>,
        BTreeSet<u64>,
    ))
        ensures
            r.0@ == tables_of(live_entries(self@.resident, live@)),
            r.1@ == files_of(live_entries(self@.resident, live@)),
    {
        let entries: Vec<ResidentEntry> = self.resident_flushed_visible_entries(live);
        tables_and_files(&entries)
    }

    /// The flushed memtables whose file is live and that may hold `key`, oldest
    /// first, and their files.
    pub fn resident_flushed_visible_for_key(&self, live: &BTreeSet<u64>, key: &[u8]) -> (r: (
        Vec<MemTable>,
        BTreeSet<u64>,
    ))
        ensures
            r.0@ == tables_of(live_entries_for(self@.resident, live@, key@)),
            r.1@ == files_of(live_entries_for(self@.resident, live@, key@)),
    {
        let ghost all = self@.resident;
        let ghost p = |e: ResidentView| live@.contains(e.file_number.0) && covers(e, key@);
        let mut out: Vec<ResidentEntry> = Vec::new();
        let mut i: usize = 0;
        proof {
            reveal(Seq::filter);
            assert(entries_view(out@) =~= all.take(0).filter(p));
        }
        while i < self.resident_flushed.len()
            invariant
                i <= all.len(),
                all == entries_view(self.resident_flushed@),
                p == (|e: ResidentView| live@.contains(e.file_number.0) && covers(e, key@)),
                entries_view(out@) == all.take(i as int).filter(p),
            decreases all.len() - i,
        {
            proof {
                lemma_filter_step(all, p, i as int);
            }
            let e: &ResidentEntry = &self.resident_flushed[i];
            if live.contains(&e.file_number.0) && e.may_contain(key) {
                let ghost before = out@;
                out.push(e.duplicate());
                assert(entries_view(out@) =~= entries_view(before).push(e@));
            }
            i += 1;
        }
        assert(all.take(i as int) =~= all);
        tables_and_files(&out)
    }

    /// The entries whose file is live, oldest first.
    pub fn resident_flushed_visible_entries(&self, live: &BTreeSet<u64>) -> (r: Vec<ResidentEntry>)
        ensures
            entries_view(r@) == live_entries(self@.resident, live@),
    {
        let ghost all = self@.resident;
        let ghost p = |e: ResidentView| live@.contains(e.file_number.0);
        let mut out: Vec<ResidentEntry> = Vec::new();
        let mut i: usize = 0;
        proof {
            reveal(Seq::filter);
            assert(entries_view(out@) =~= all.take(0).filter(p));
        }
        while i < self.resident_flushed.len()
            invariant
                i <= all.len(),
                all == entries_view(self.resident_flushed@),
                p == (|e: ResidentView| live@.contains(e.file_number.0)),
                entries_view(out@) == all.take(i as int).filter(p),
            decreases all.len() - i,
        {
            proof {
                lemma_filter_step(all, p, i as int);
            }
            let e: &ResidentEntry = &self.resident_flushed[i];
            if live.contains(&e.file_number.0) {
                let ghost before = out@;
                out.push(e.duplicate());
                assert(entries_view(out@) =~= entries_view(before).push(e@));
            }
            i += 1;
        }
        assert(all.take(i as int) =~= all);
        out
    }

    /// All flushed memtables, whether their file is live or not.
    pub fn resident_flushed_memtables(&self) -> (r: Vec<MemTable>)
        ensures
            r@ == tables_of(self@.resident),
    {
        let (tables, _files) = tables_and_files(&self.resident_flushed);
        tables
    }

    /// Whether any flushed memtable is kept.
    pub fn has_resident_flushed(&self) -> (r: bool)
        ensures
            r == (self@.resident.len() > 0),
    {
        self.resident_flushed.len() > 0
    }

    /// The files of all flushed memtables that are kept.
    pub fn resident_shadowed_file_numbers(&self) -> (r: BTreeSet<u64>)
        ensures
            r@ == files_of(self@.resident),
    {
        let (_tables, files) = tables_and_files(&self.resident_flushed);
        files
    }

    /// Keeps a flushed memtable of which the range of keys is not known.
    pub fn add_resident_flushed(
        &mut self,
        file_number: FileNumber,
        memtable: MemTable,
        cap_bytes: usize,
    )
        requires
            resident_bytes(old(self)@.resident) + memtable.memory_usage <= usize::MAX,
        ensures
            cap_bytes == 0 ==> final(self)@ == old(self)@,
            cap_bytes > 0 ==> is_trimmed(
                old(self)@.resident.push(
                    (ResidentView {
                        file_number,
                        memtable,
                        min_key: Seq::empty(),
                        max_key: Seq::empty(),
                    }),
                ),
                cap_bytes as nat,
                final(self)@.resident,
            ) && final(self)@ == (FamilyView { resident: final(self)@.resident, ..old(self)@ }),
    {
        let min_key: Vec<u8> = Vec::new();
        let max_key: Vec<u8> = Vec::new();
        assert(min_key@ =~= Seq::<u8>::empty());
        self.add_resident_flushed_with_bounds(file_number, memtable, min_key, max_key, cap_bytes);
    }

    /// Keeps a flushed memtable, and lets the oldest go until all fit in
    /// `cap_bytes`. With a limit of 0 none is kept.
    pub fn add_resident_flushed_with_bounds(
        &mut self,
        file_number: FileNumber,
        memtable: MemTable,
        min_key: Vec<u8>,
        max_key: Vec<u8>,
        cap_bytes: usize,
    )
        requires
            resident_bytes(old(self)@.resident) + memtable.memory_usage <= usize::MAX,
        ensures
            cap_bytes == 0 ==> final(self)@ == old(self)@,
            cap_bytes > 0 ==> is_trimmed(
                old(self)@.resident.push(
                    (ResidentView {
                        file_number,
                        memtable,
                        min_key: min_key@,
                        max_key: max_key@,
                    }),
                ),
                cap_bytes as nat,
                final(self)@.resident,
            ) && final(self)@ == (FamilyView { resident: final(self)@.resident, ..old(self)@ }),
    {
        if cap_bytes == 0 {
            return;
        }
        let ghost before = *self;
        let entry = ResidentEntry { file_number, memtable, min_key, max_key };
        let ghost ev = entry@;
        self.resident_flushed.push(entry);
        let ghost all = before@.resident.push(ev);
        proof {
            assert(entries_view(self.resident_flushed@) =~= all);
            lemma_bytes_push(before@.resident, ev);
            assert(all.skip(0) =~= all);
        }
        let mut total: usize = sum_usage(&self.resident_flushed);
        let ghost mut k: int = 0;
        while total > cap_bytes && self.resident_flushed.len() > 0
            invariant
                0 <= k <= all.len(),
                entries_view(self.resident_flushed@) == all.skip(k),
                total == resident_bytes(all.skip(k)),
                forall|j: int| 0 <= j < k ==> resident_bytes(#[trigger] all.skip(j)) > cap_bytes,
                self@ == (FamilyView { resident: all.skip(k), ..before@ }),
            decreases self.resident_flushed@.len(),
        {
            let evicted: ResidentEntry = self.resident_flushed.remove(0);
            total = total - evicted.memtable.memory_usage;
            proof {
                assert(evicted@ == all.skip(k)[0]);
                assert(all.skip(k).skip(1) =~= all.skip(k + 1));
                k = k + 1;
                assert(entries_view(self.resident_flushed@) =~= all.skip(k));
            }
        }
        proof {
            if self.resident_flushed@.len() == 0 {
                assert(all.skip(k).len() == 0);
            }
        }
    }

    /// Lets go of the memtables whose file is not live, and says how many.
    pub fn prune_resident_flushed(&mut self, live_files: &BTreeSet<u64>) -> (r: usize)
        ensures
            final(self)@ == (FamilyView {
                resident: live_entries(old(self)@.resident, live_files@),
                ..old(self)@
            }),
            r == old(self)@.resident.len() - final(self)@.resident.len(),
    {
        let before: usize = self.resident_flushed.len();
        let kept: Vec<ResidentEntry> = self.resident_flushed_visible_entries(live_files);
        proof {
            broadcast use vstd::seq_lib::group_filter_ensures;

            assert(live_entries(self@.resident, live_files@).len() <= self@.resident.len());
        }
        let left: usize = kept.len();
        self.resident_flushed = kept;
        before - left
    }
}

/// The memory that entries take up.
fn sum_usage(entries: &Vec<ResidentEntry>) -> (r: usize)
    requires
        resident_bytes(entries_view(entries@)) <= usize::MAX,
    ensures
        r == resident_bytes(entries_view(entries@)),
{
    let ghost all = entries_view(entries@);
    let mut sum: usize = 0;
    let mut i: usize = entries.len();
    assert(all.skip(all.len() as int) =~= Seq::<ResidentView>::empty());
    while i > 0
        invariant
            i <= all.len(),
            all == entries_view(entries@),
            resident_bytes(all) <= usize::MAX,
            sum == resident_bytes(all.skip(i as int)),
        decreases i,
    {
        proof {
            assert(all.skip(i - 1).skip(1) =~= all.skip(i as int));
            lemma_bytes_suffix(all, i - 1);
        }
        i -= 1;
        sum = sum + entries[i].memtable.memory_usage;
    }
    assert(all.skip(0) =~= all);
    sum
}

proof fn lemma_bytes_suffix(v: Seq<ResidentView>, k: int)
    requires
        0 <= k <= v.len(),
    ensures
        resident_bytes(v.skip(k)) <= resident_bytes(v),
    decreases k,
{
    if k > 0 {
        lemma_bytes_suffix(v, k - 1);
        assert(v.skip(k - 1).skip(1) =~= v.skip(k));
    } else {
        assert(v.skip(0) =~= v);
    }
}

/// The memtables and the files of entries.
fn tables_and_files(entries: &Vec<ResidentEntry>) -> (r: (Vec<MemTable>, BTreeSet<u64>))
    ensures
        r.0@ == tables_of(entries_view(entries@)),
        r.1@ == files_of(entries_view(entries@)),
{
    let ghost all = entries_view(entries@);
    let mut tables: Vec<MemTable> = Vec::new();
    let mut files: BTreeSet<u64> = BTreeSet::new();
    let mut i: usize = 0;
    assert(tables@ =~= tables_of(all.take(0)));
    assert(files@ =~= files_of(all.take(0)));
    while i < entries.len()
        invariant
            i <= all.len(),
            all == entries_view(entries@),
            tables@ == tables_of(all.take(i as int)),
            files@ == files_of(all.take(i as int)),
        decreases all.len() - i,
    {
        tables.push(entries[i].memtable);
        files.insert(entries[i].file_number.0);
        proof {
            let e = all[i as int];
            lemma_files_push(all.take(i as int), e);
            assert(all.take(i + 1) =~= all.take(i as int).push(e));
            assert(tables@ =~= tables_of(all.take(i + 1)));
        }
        i += 1;
    }
    assert(all.take(i as int) =~= all);
    (tables, files)
}

/// What is kept in memory never exceeds the limit once it has been applied, and
/// it is always the newest that stays.
pub proof fn law_trimming_keeps_the_newest(
    all: Seq<ResidentView>,
    cap: nat,
    r: Seq<ResidentView>,
)
    requires
        is_trimmed(all, cap, r),
    ensures
        resident_bytes(r) <= cap,
        exists|k: int| 0 <= k <= all.len() && r == #[trigger] all.skip(k),
        resident_bytes(all) <= cap ==> r == all,
{
    let k = choose|k: int|
        0 <= k <= all.len() && r == #[trigger] all.skip(k) && resident_bytes(r) <= cap && (forall|
            j: int,
        |
            0 <= j < k ==> resident_bytes(#[trigger] all.skip(j)) > cap);
    assert(all.skip(0) =~= all);
}

/// An entry without bounds may hold any key. An entry with bounds may hold the keys
/// from the one to the other, both included, and no other.
pub proof fn law_bounds_are_inclusive(e: ResidentView, key: Seq<u8>)
    ensures
        e.min_key.len() == 0 && e.max_key.len() == 0 ==> covers(e, key),
        e.min_key.len() > 0 || e.max_key.len() > 0 ==> (covers(e, key) <==> !bytes::lex_lt(
            key,
            e.min_key,
        ) && !bytes::lex_lt(e.max_key, key)),
{
    bytes::lemma_lex_not_lt(key, e.min_key);
    bytes::lemma_lex_not_lt(e.max_key, key);
}

/// The resident bytes are summed up table by table.
pub proof fn law_resident_bytes_add_up(v: Seq<ResidentView>, last: ResidentView)
    ensures
        resident_bytes(Seq::empty()) == 0,
        resident_bytes(v.push(last)) == resident_bytes(v) + last.memtable.memory_usage,
    decreases v.len(),
{
    let all = v.push(last);
    if v.len() == 0 {
        assert(all.skip(1) =~= v);
    } else {
        law_resident_bytes_add_up(v.skip(1), last);
        assert(all.skip(1) =~= v.skip(1).push(last));
    }
}

/// Trimming drops the oldest entries, and not one more than it must: any longer run
/// of the newest ones is over the limit. So there is one result.
pub proof fn law_trimming_drops_no_more_than_it_must(
    all: Seq<ResidentView>,
    cap: nat,
    r: Seq<ResidentView>,
    j: int,
    other: Seq<ResidentView>,
)
    requires
        is_trimmed(all, cap, r),
    ensures
        r.len() <= all.len(),
        r == all.skip(all.len() - r.len()),
        0 <= j < all.len() - r.len() ==> resident_bytes(all.skip(j)) > cap,
        resident_bytes(r) <= cap,
        is_trimmed(all, cap, other) ==> other == r,
{
    let k = choose|k: int|
        0 <= k <= all.len() && r == #[trigger] all.skip(k) && resident_bytes(r) <= cap && (forall|
            j: int,
        |
            0 <= j < k ==> resident_bytes(#[trigger] all.skip(j)) > cap);
    if is_trimmed(all, cap, other) {
        let o = choose|k: int|
            0 <= k <= all.len() && other == #[trigger] all.skip(k) && resident_bytes(other) <= cap
                && (forall|j: int| 0 <= j < k ==> resident_bytes(#[trigger] all.skip(j)) > cap);
        if o < k {
            assert(resident_bytes(all.skip(o)) > cap);
        } else if k < o {
            assert(resident_bytes(all.skip(k)) > cap);
        }
    }
}

/// The visible entries are those whose file is live, and for a key those that may
/// hold it, in the order in which they came.
pub proof fn law_visible_entries_are_live(
    v: Seq<ResidentView>,
    last: ResidentView,
    live: Set<u64>,
    key: Seq<u8>,
)
    ensures
        live_entries(Seq::empty(), live).len() == 0,
        live_entries(v.push(last), live) == if live.contains(last.file_number.0) {
            live_entries(v, live).push(last)
        } else {
            live_entries(v, live)
        },
        live_entries_for(Seq::empty(), live, key).len() == 0,
        live_entries_for(v.push(last), live, key) == if live.contains(last.file_number.0) && covers(
            last,
            key,
        ) {
            live_entries_for(v, live, key).push(last)
        } else {
            live_entries_for(v, live, key)
        },
{
    reveal(Seq::filter);
    assert(v.push(last).drop_last() =~= v);
    assert(v.push(last).last() == last);
}

/// What is read of entries: their tables one by one, and the numbers of their files.
pub proof fn law_tables_and_files_of_entries(v: Seq<ResidentView>, i: int)
    requires
        0 <= i < v.len(),
    ensures
        tables_of(v).len() == v.len(),
        tables_of(v)[i] == v[i].memtable,
        files_of(v).contains(v[i].file_number.0),
        forall|n: u64| #[trigger]
            files_of(v).contains(n) ==> exists|k: int|
                0 <= k < v.len() && (#[trigger] v[k]).file_number.0 == n,
{
}

/// A cap is given in units of 2^20 bytes; one that is too large to count is the
/// largest number, and without a usable setting it is 2^30.
pub proof fn law_cap_is_in_mebibytes(setting: Option<&str>)
    ensures
        flags::positive(setting) is None ==> resident_cap(setting) == 0x4000_0000,
        flags::positive(setting) matches Some(mb) ==> mb * 0x10_0000 <= usize::MAX ==> resident_cap(
            setting,
        ) == mb * 0x10_0000,
        flags::positive(setting) matches Some(mb) ==> mb <= usize::MAX && mb * 0x10_0000
            > usize::MAX ==> resident_cap(setting) == usize::MAX,
{
}

/// A new family has an empty active table, no frozen ones and no resident ones.
pub proof fn law_new_family_is_empty<F, M>(
    handle: ColumnFamilyHandle,
    options: CfOptions,
    merge_operator: Option<M>,
    compaction_filter: Option<F>,
    snapshot: SnapshotView,
    shard_count: usize,
)
    ensures
        ({
            let f = fresh_family(
                handle,
                options,
                merge_operator,
                compaction_filter,
                snapshot,
                shard_count,
            );
            &&& f.handle == handle && f.options == options && f.merge_operator == merge_operator
            &&& f.compaction_filter == compaction_filter && f.snapshot == snapshot
            &&& f.shard_count == shard_count && f.active.shard_count == shard_count
            &&& f.active.id == 0 && f.active.memory_usage == 0 && !f.active.frozen
            &&& f.frozen.len() == 0 && f.resident.len() == 0
        }),
{
}

/// Two handles are equal exactly where they have the same number.
pub proof fn law_handles_are_equal_by_number(a: ColumnFamilyHandle, b: ColumnFamilyHandle)
    ensures
        vstd::std_specs::cmp::PartialEqSpec::eq_spec(&a, &b) <==> a.number() == b.number(),
{
}

} // verus!
