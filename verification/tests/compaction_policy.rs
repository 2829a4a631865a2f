//! The choice of files to compact.

use forst_rs::compaction_policy::{
    compensated_file_size, compute_base_level, dynamic_level_target, overlap_scoped_clean_cut,
    sst_metas_mutually_disjoint,
    CompactionDecision, CompactionPolicy, CompactionPolicyKind, PolicyCtx, SortedRunPolicy,
};
use forst_rs::config::LevelMultiplier;
use forst_rs::types::{ColumnFamilyId, FileNumber, SequenceNumber};
use forst_rs::version::{LevelMeta, SstFileMeta, Version};

fn meta(fnum: u64, cf: u32, lo: &str, hi: &str, size: u64) -> SstFileMeta {
    SstFileMeta {
        file_number: FileNumber(fnum),
        cf_id: ColumnFamilyId(cf),
        file_size: size,
        smallest_key: lo.as_bytes().to_vec(),
        largest_key: hi.as_bytes().to_vec(),
        min_sequence: SequenceNumber(1),
        max_sequence: SequenceNumber(2),
        num_entries: 100,
        max_death: 0,
    }
}

fn no_tombstones(_: FileNumber) -> u64 {
    0
}

fn ctx(trivial_move: bool, dynamic: bool) -> PolicyCtx<fn(FileNumber) -> u64> {
    PolicyCtx {
        num_levels: 7,
        max_bytes_for_level_base: 256 * 1024 * 1024,
        max_bytes_for_level_multiplier: LevelMultiplier(10.0f64.to_bits()),
        dynamic_levels: dynamic,
        trivial_move,
        compaction_filter_active: false,
        tombstones: no_tombstones,
    }
}

fn version(levels: Vec<Vec<SstFileMeta>>) -> Version {
    let mut padded = levels;
    while padded.len() < 7 {
        padded.push(Vec::new());
    }
    Version {
        levels: padded
            .into_iter()
            .enumerate()
            .map(|(i, files)| LevelMeta {
                level: i as u32,
                files,
            })
            .collect(),
    }
}

#[test]
fn l0_rollup_picks_only_cf_files_and_overlap() {
    let cf = ColumnFamilyId(1);
    let v = version(vec![
        vec![meta(10, 1, "a", "c", 100)],
        vec![meta(20, 1, "b", "d", 200), meta(21, 1, "x", "z", 200)],
    ]);
    let dec = SortedRunPolicy
        .pick_l0_rollup(&v, cf, 1, &ctx(false, true))
        .expect("pick");
    match dec {
        CompactionDecision::Merge(plan) => {
            assert_eq!(plan.inputs.len(), 2);
            assert_eq!(plan.output_level, 1);
            assert!(plan
                .inputs
                .iter()
                .any(|(l, m)| *l == 0 && m.file_number.0 == 10));
            assert!(plan
                .inputs
                .iter()
                .any(|(l, m)| *l == 1 && m.file_number.0 == 20));
            assert!(!plan.inputs.iter().any(|(_, m)| m.file_number.0 == 21));
        }
        _ => panic!("expected Merge"),
    }
}

#[test]
fn l0_rollup_trivial_move_when_disjoint_and_enabled() {
    let cf = ColumnFamilyId(1);
    let v = version(vec![vec![meta(10, 1, "a", "c", 100)], vec![]]);
    match SortedRunPolicy.pick_l0_rollup(&v, cf, 1, &ctx(false, true)) {
        Some(CompactionDecision::Merge(_)) => {}
        other => panic!("trivial_move OFF must Merge, got {other:?}"),
    }
    match SortedRunPolicy.pick_l0_rollup(&v, cf, 1, &ctx(true, true)) {
        Some(CompactionDecision::TrivialMove {
            files,
            from_level,
            to_level,
        }) => {
            assert_eq!(files.len(), 1);
            assert_eq!(from_level, 0);
            assert_eq!(to_level, 1);
        }
        other => panic!("trivial_move ON must TrivialMove, got {other:?}"),
    }
}

#[test]
fn l0_rollup_none_when_empty() {
    let cf = ColumnFamilyId(1);
    let v = version(vec![vec![], vec![]]);
    assert!(SortedRunPolicy
        .pick_l0_rollup(&v, cf, 1, &ctx(true, true))
        .is_none());
}

#[test]
fn level_descent_min_overlap_ratio_pick() {
    let cf = ColumnFamilyId(1);
    let v = version(vec![
        vec![],
        vec![meta(30, 1, "a", "c", 100), meta(31, 1, "p", "r", 100)],
        vec![meta(40, 1, "a", "c", 9999)],
    ]);
    let dec = SortedRunPolicy
        .pick_level_descent(&v, cf, 1, &ctx(false, true))
        .expect("pick");
    match dec {
        CompactionDecision::Merge(plan) => {
            assert!(plan
                .inputs
                .iter()
                .any(|(l, m)| *l == 1 && m.file_number.0 == 31));
            assert_eq!(plan.inputs.len(), 1);
        }
        _ => panic!("expected Merge"),
    }
}

#[test]
fn level_descent_trivial_move_when_no_overlap() {
    let cf = ColumnFamilyId(1);
    let v = version(vec![
        vec![],
        vec![meta(30, 1, "a", "c", 100)],
        vec![meta(40, 1, "x", "z", 100)],
    ]);
    match SortedRunPolicy.pick_level_descent(&v, cf, 1, &ctx(true, true)) {
        Some(CompactionDecision::TrivialMove {
            from_level,
            to_level,
            files,
        }) => {
            assert_eq!(from_level, 1);
            assert_eq!(to_level, 2);
            assert_eq!(files[0].file_number.0, 30);
        }
        other => panic!("expected TrivialMove, got {other:?}"),
    }
}

#[test]
fn disjoint_and_compensation_pure_fns() {
    assert!(sst_metas_mutually_disjoint(&[
        meta(1, 1, "a", "c", 1),
        meta(2, 1, "d", "f", 1)
    ]));
    assert!(!sst_metas_mutually_disjoint(&[
        meta(1, 1, "a", "e", 1),
        meta(2, 1, "d", "f", 1)
    ]));
    assert_eq!(compensated_file_size(1000, 100, 0), 1000);
    assert!(compensated_file_size(1000, 100, 10) > 1000);
    assert_eq!(compute_base_level(0, 6, divided_above(0, 256, 10.0)), 6);
    let divided = |s: u64, k: u32| (s as f64 / 10f64.powi(k as i32)) as u64;
    assert!(dynamic_level_target(1_000_000, 6, 5, divided) >= 1);
}

fn divided_above(size: u64, base: u64, factor: f64) -> impl Fn(u32) -> bool {
    move |k| (0..k).fold(size as f64, |s, _| s / factor) > base as f64
}

#[test]
fn level_sizes_follow_the_last_level() {
    let base = |size: u64, bottom: u32| {
        compute_base_level(size, bottom, divided_above(size, 256, 10.0))
    };
    assert_eq!(base(200, 6), 6);
    assert_eq!(base(256, 6), 6);
    assert_eq!(base(257, 6), 5);
    assert_eq!(base(25_600, 6), 4);
    assert_eq!(base(u64::MAX, 6), 1);
    assert_eq!(base(5, 0), 1);
    assert_eq!(base(5, 1), 1);
    let target = |level: u32| {
        dynamic_level_target(1_000_000, 6, level, |s, k| {
            (s as f64 / 10f64.powi(k as i32)) as u64
        })
    };
    assert_eq!(target(6), 1_000_000);
    assert_eq!(target(7), 1_000_000);
    assert_eq!(target(4), 10_000);
    assert_eq!(dynamic_level_target(5, 6, 1, |_, _| 0), 1);
}

#[test]
fn clean_cut_grows_until_nothing_straddles_it() {
    let upper = [meta(1, 1, "d", "f", 1)];
    let level = vec![
        meta(2, 1, "a", "b", 1),
        meta(3, 1, "c", "d", 1),
        meta(4, 1, "f", "k", 1),
        meta(5, 1, "k", "m", 1),
        meta(6, 1, "n", "p", 1),
    ];
    let cut: Vec<u64> = overlap_scoped_clean_cut(&upper, level)
        .iter()
        .map(|m| m.file_number.0)
        .collect();
    assert_eq!(cut, vec![3, 4, 5]);
}

#[test]
fn compensation_counts_each_tombstone_as_two_entries() {
    assert_eq!(compensated_file_size(1000, 100, 10), 1200);
    assert_eq!(compensated_file_size(1000, 0, 10), 1000);
    assert_eq!(compensated_file_size(u64::MAX, 1, 2), u64::MAX);
}

#[test]
fn level_descent_weighs_tombstones() {
    fn tombs(n: FileNumber) -> u64 {
        if n.0 == 31 {
            1000
        } else {
            0
        }
    }
    let cf = ColumnFamilyId(1);
    let v = version(vec![
        vec![],
        vec![meta(30, 1, "a", "c", 100), meta(31, 1, "p", "r", 100)],
        vec![meta(40, 1, "a", "c", 500), meta(41, 1, "p", "r", 500)],
    ]);
    let mut c = ctx(false, true);
    c.tombstones = tombs;
    match SortedRunPolicy.pick_level_descent(&v, cf, 1, &c) {
        Some(CompactionDecision::Merge(plan)) => {
            assert_eq!(plan.inputs[0].1.file_number.0, 31);
            assert_eq!(plan.inputs.len(), 2);
            assert_eq!(plan.output_level, 2);
            assert!(plan.is_bottommost);
        }
        other => panic!("expected Merge, got {other:?}"),
    }
    match SortedRunPolicy.pick_level_descent(&v, cf, 1, &ctx(false, false)) {
        Some(CompactionDecision::Merge(plan)) => {
            assert_eq!(plan.inputs[0].1.file_number.0, 30);
        }
        other => panic!("expected Merge, got {other:?}"),
    }
    assert!(SortedRunPolicy.pick_level_descent(&v, cf, 6, &c).is_none());
    assert_eq!(SortedRunPolicy.kind(), CompactionPolicyKind::SortedRun);
}

#[test]
fn rollup_is_bottommost_only_over_empty_levels() {
    let cf = ColumnFamilyId(1);
    let v = version(vec![
        vec![meta(10, 1, "a", "c", 100)],
        vec![],
        vec![meta(20, 2, "x", "z", 1)],
    ]);
    match SortedRunPolicy.pick_l0_rollup(&v, cf, 1, &ctx(false, true)) {
        Some(CompactionDecision::Merge(plan)) => assert!(!plan.is_bottommost),
        other => panic!("expected Merge, got {other:?}"),
    }
}

#[test]
fn tombstones_are_asked_for_only_where_files_are_weighed() {
    fn never(n: FileNumber) -> u64 {
        panic!("asked for the tombstones of {n:?}");
    }
    let v = version(vec![
        vec![],
        vec![meta(30, 1, "a", "c", 100), meta(31, 1, "p", "r", 100)],
    ]);
    let mut c = ctx(false, false);
    c.tombstones = never;
    match SortedRunPolicy.pick_level_descent(&v, ColumnFamilyId(1), 1, &c) {
        Some(CompactionDecision::Merge(plan)) => {
            assert_eq!(plan.inputs[0].1.file_number.0, 30);
        }
        other => panic!("expected Merge, got {other:?}"),
    }
}
