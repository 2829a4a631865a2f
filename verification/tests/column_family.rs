//! Column families: handles, descriptors and what is held in memory.

use forst_rs::clock::SystemSeconds;
use forst_rs::column_family::{
    resident_flushed_cap_bytes, ColumnFamilyData, ColumnFamilyDescriptor, ColumnFamilyHandle,
    DroppedFamilies, MemTable, ResidentEntry, SnapshotView, DEFAULT_RESIDENT_FLUSHED_CAP_BYTES,
};
use forst_rs::compaction_filter::{CompactionFilter, TtlCompactionFilter};
use forst_rs::config::CfOptions;
use forst_rs::error::ForstResult;
use forst_rs::merge_operator::MergeOperator;
use forst_rs::types::{ColumnFamilyId, FileNumber};
use std::collections::{BTreeSet, HashMap};

#[derive(Debug)]
struct ListAppend;

impl MergeOperator for ListAppend {
    fn full_merge(
        &self,
        _key: &[u8],
        base: Option<&[u8]>,
        operands: &[Vec<u8>],
    ) -> ForstResult<Vec<u8>> {
        let mut out = base.map(|b| b.to_vec()).unwrap_or_default();
        for o in operands {
            out.extend_from_slice(o);
        }
        Ok(out)
    }

    fn partial_merge(&self, _key: &[u8], left: &[u8], right: &[u8]) -> ForstResult<Vec<u8>> {
        Ok([left, right].concat())
    }

    fn name(&self) -> String {
        "ListAppendMergeOperator(delim=44)".to_string()
    }
}

type Filter = TtlCompactionFilter<SystemSeconds>;
type Descriptor = ColumnFamilyDescriptor<Filter, ListAppend>;
type Data = ColumnFamilyData<Filter, ListAppend>;

fn handle(id: ColumnFamilyId, name: &str) -> ColumnFamilyHandle {
    ColumnFamilyHandle::new(id, name, &mut DroppedFamilies::new())
}

fn data() -> Data {
    let handle = handle(ColumnFamilyId(1), "default");
    Data::new(handle, CfOptions::default(), None, SnapshotView::empty())
}

fn table(id: u64, usage: usize) -> MemTable {
    let mut m = MemTable::new(id, 1);
    m.memory_usage = usage;
    m
}

#[test]
fn test_handle_exposes_id_and_name() {
    let h = handle(ColumnFamilyId(7), "orders");
    assert_eq!(h.id(), ColumnFamilyId(7));
    assert_eq!(h.name(), "orders");
}

#[test]
fn test_handle_clone_is_cheap_and_equal() {
    let h = handle(ColumnFamilyId(1), "default");
    let c = h.clone();
    assert_eq!(h, c);
}

#[test]
fn test_handle_equality_is_by_id_only() {
    let a = handle(ColumnFamilyId(1), "a");
    let b = handle(ColumnFamilyId(1), "b");
    let c = handle(ColumnFamilyId(2), "a");
    assert_eq!(a, b);
    assert_ne!(a, c);
}

#[test]
fn test_handle_hashable() {
    let h = handle(ColumnFamilyId(5), "x");
    let mut map = HashMap::new();
    map.insert(h.clone(), 42);
    assert_eq!(map.get(&h), Some(&42));
    let other_name = handle(ColumnFamilyId(5), "y");
    assert_eq!(map.get(&other_name), Some(&42));
    let other = handle(ColumnFamilyId(6), "x");
    assert_eq!(map.get(&other), None);
}

#[test]
fn dropping_is_seen_by_clones_and_by_no_other_handle() {
    let mut families = DroppedFamilies::new();
    let a = ColumnFamilyHandle::new(ColumnFamilyId(5), "x", &mut families);
    let same_number = ColumnFamilyHandle::new(ColumnFamilyId(5), "x", &mut families);
    let b = a.clone();
    let held = Data::new(a.clone(), CfOptions::default(), None, SnapshotView::empty());
    assert!(!b.is_dropped(&families));
    assert!(!held.is_dropped(&families));
    a.mark_dropped(&mut families);
    assert!(a.is_dropped(&families));
    assert!(b.is_dropped(&families));
    assert!(held.is_dropped(&families));
    assert!(held.handle().clone().is_dropped(&families));
    assert_eq!(a, same_number);
    assert!(!same_number.is_dropped(&families));
}

#[test]
fn a_new_handle_of_a_dropped_number_is_not_dropped() {
    let mut families = DroppedFamilies::new();
    let old = ColumnFamilyHandle::new(ColumnFamilyId(7), "orders", &mut families);
    let held = Data::new(old.clone(), CfOptions::default(), None, SnapshotView::empty());
    held.mark_dropped(&mut families);
    assert!(old.is_dropped(&families));
    let again = ColumnFamilyHandle::new(ColumnFamilyId(7), "orders", &mut families);
    assert!(!again.is_dropped(&families));
    again.mark_dropped(&mut families);
    assert!(again.is_dropped(&families));
    assert!(old.is_dropped(&families));
}

#[test]
fn test_descriptor_defaults() {
    let d = Descriptor::new("default");
    assert_eq!(d.name(), "default");
    assert!(d.options().merge_operator.is_none());
    assert!(d.merge_operator().is_none());
    assert!(d.compaction_filter().is_none());
}

#[test]
fn test_descriptor_with_merge_operator_sets_name_and_instance() {
    let d = Descriptor::new("lists").with_merge_operator(ListAppend);
    assert_eq!(
        d.options().merge_operator.as_deref(),
        Some("ListAppendMergeOperator(delim=44)")
    );
    assert!(d.merge_operator().is_some());
}

#[test]
fn test_descriptor_with_options() {
    let opts = CfOptions {
        ttl_seconds: Some(3600),
        ..CfOptions::default()
    };
    let d = Descriptor::new("ttl")
        .with_options(opts)
        .with_compaction_filter(TtlCompactionFilter::new(60));
    assert_eq!(d.options().ttl_seconds, Some(3600));
    assert_eq!(
        d.compaction_filter().unwrap().name(),
        "TtlCompactionFilter(ttl_seconds=60)"
    );
}

#[test]
fn test_descriptor_debug_includes_merge_op_name() {
    let d = Descriptor::new("lists").with_merge_operator(ListAppend);
    let dbg = format!("{:?}", d);
    assert!(dbg.contains("lists"));
    assert!(dbg.contains("ListAppendMergeOperator"));
}

#[test]
fn test_cf_data_basic_accessors() {
    let handle = handle(ColumnFamilyId(1), "default");
    let data = Data::new(
        handle.clone(),
        CfOptions::default(),
        None,
        SnapshotView::empty(),
    );
    assert_eq!(data.handle(), &handle);
    assert_eq!(data.imm_count(), 0);
    assert!(data.options().ttl_seconds.is_none());
}

#[test]
fn test_cf_data_stores_merge_operator() {
    let handle = handle(ColumnFamilyId(1), "default");
    let mut data = Data::new(
        handle,
        CfOptions::default(),
        Some(ListAppend),
        SnapshotView::empty(),
    );
    assert!(data.merge_operator().is_some());
    assert_eq!(
        data.merge_operator().unwrap().name(),
        "ListAppendMergeOperator(delim=44)"
    );
    assert!(data.compaction_filter().is_none());
    data.set_compaction_filter(Some(TtlCompactionFilter::new(1)));
    assert!(data.compaction_filter().is_some());
}

#[test]
fn test_cf_data_swap_active_memtable_moves_to_imm() {
    let mut data = data();
    assert_eq!(data.imm_count(), 0);
    let frozen = data.swap_active_memtable();
    assert!(frozen.is_frozen());
    assert_eq!(data.imm_count(), 1);
    assert_eq!(data.imm_memtables(), vec![frozen]);
    assert!(!data.active_memtable().is_frozen());
    assert_ne!(data.active_memtable().id, frozen.id);
}

#[test]
fn test_cf_data_pop_oldest_imm() {
    let mut data = data();
    let first = data.swap_active_memtable();
    data.swap_active_memtable();
    assert_eq!(data.imm_count(), 2);
    let popped = data.pop_oldest_imm();
    assert!(popped.is_some());
    assert_eq!(popped, Some(first));
    assert_eq!(data.imm_count(), 1);
}

#[test]
fn test_cf_data_resident_flushed_basic_accessors() {
    let mut data = data();
    assert!(data.resident_flushed_memtables().is_empty());
    assert!(data.resident_shadowed_file_numbers().is_empty());
    assert!(!data.has_resident_flushed());

    data.add_resident_flushed(FileNumber(42), table(1, 0), 1 << 30);
    data.add_resident_flushed(FileNumber(43), table(2, 0), 1 << 30);
    assert_eq!(data.resident_flushed_memtables().len(), 2);
    let shadow = data.resident_shadowed_file_numbers();
    assert!(shadow.contains(&42));
    assert!(shadow.contains(&43));
    assert!(data.has_resident_flushed());

    let live: BTreeSet<u64> = [43].into_iter().collect();
    let (tables, files) = data.resident_flushed_visible(&live);
    assert_eq!(tables, vec![table(2, 0)]);
    assert_eq!(files, live);
    let pruned = data.prune_resident_flushed(&live);
    assert_eq!(pruned, 1);
    assert_eq!(data.resident_flushed_memtables().len(), 1);
    let shadow_after = data.resident_shadowed_file_numbers();
    assert!(!shadow_after.contains(&42));
    assert!(shadow_after.contains(&43));

    data.add_resident_flushed(FileNumber(44), table(3, 0), 0);
    assert_eq!(data.resident_flushed_memtables().len(), 1);
}

#[test]
fn test_cf_data_resident_flushed_fifo_eviction() {
    let mut data = data();
    let one_usage = 96usize;
    let cap = one_usage * 2 + one_usage / 2;
    data.add_resident_flushed(FileNumber(10), table(1, one_usage), cap);
    data.add_resident_flushed(FileNumber(11), table(2, one_usage), cap);
    data.add_resident_flushed(FileNumber(12), table(3, one_usage), cap);

    let shadow = data.resident_shadowed_file_numbers();
    assert!(!shadow.contains(&10), "oldest must be evicted");
    assert!(shadow.contains(&11));
    assert!(shadow.contains(&12));

    data.add_resident_flushed(FileNumber(13), table(4, cap + 1), cap);
    assert!(!data.has_resident_flushed());
}

#[test]
fn test_cf_data_snapshot_store_and_load() {
    let mut data = data();
    let view = data.snapshot_view();
    assert_eq!(view.sequence(), 0);
    let new_view = SnapshotView::empty().with_sequence(42);
    data.store_snapshot_view(new_view);
    assert_eq!(data.snapshot_view().sequence(), 42);
}

#[test]
fn key_bounds_narrow_the_visible_memtables() {
    let mut data = data();
    let live: BTreeSet<u64> = [1, 2, 3].into_iter().collect();
    data.add_resident_flushed_with_bounds(
        FileNumber(1),
        table(1, 1),
        b"a".to_vec(),
        b"c".to_vec(),
        100,
    );
    data.add_resident_flushed_with_bounds(
        FileNumber(2),
        table(2, 1),
        b"m".to_vec(),
        b"p".to_vec(),
        100,
    );
    data.add_resident_flushed(FileNumber(3), table(3, 1), 100);
    data.add_resident_flushed(FileNumber(4), table(4, 1), 100);
    let (tables, files) = data.resident_flushed_visible_for_key(&live, b"n");
    assert_eq!(tables, vec![table(2, 1), table(3, 1)]);
    assert_eq!(files, [2, 3].into_iter().collect());
    let entries: Vec<ResidentEntry> = data.resident_flushed_visible_entries(&live);
    assert_eq!(entries.len(), 3);
    assert!(entries[0].may_contain(b"c"));
    assert!(!entries[0].may_contain(b"ca"));
    assert!(!entries[0].may_contain(b"A"));
    assert!(entries[2].may_contain(b"anything"));
}

#[test]
fn resident_cap_follows_the_setting() {
    assert_eq!(
        resident_flushed_cap_bytes(None),
        DEFAULT_RESIDENT_FLUSHED_CAP_BYTES
    );
    assert_eq!(resident_flushed_cap_bytes(Some("2")), 2 * 1024 * 1024);
    assert_eq!(
        resident_flushed_cap_bytes(Some("0")),
        DEFAULT_RESIDENT_FLUSHED_CAP_BYTES
    );
    assert_eq!(
        resident_flushed_cap_bytes(Some("18446744073709551615")),
        usize::MAX
    );
}
