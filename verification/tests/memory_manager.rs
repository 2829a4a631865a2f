//! The memory budget and the admission of compactions.

use forst_rs::memory_manager::{
    assumed_instances, cgroup_budget_bytes, compact_admission_waits, compact_inflight_bytes,
    consumer_cap_bytes, diag_str, engine_native_budget_bytes, ffm_reserved_bytes, headroom_bytes,
    jvm_reserved_bytes, manager_enabled, CompactionAdmission, Consumer, MemorySettings,
    MemoryState, ENGINE_NATIVE_FLOOR, MIB,
};

fn share_of(amount: u64, percent: u64) -> u64 {
    (amount as f64 * (percent as f64 / 100.0)) as u64
}

const CONSUMERS: [Consumer; 5] = [
    Consumer::BlockCache,
    Consumer::WriteBuffer,
    Consumer::ResidentShadow,
    Consumer::VlogResident,
    Consumer::CompactionTransient,
];

fn armed() -> MemorySettings<'static> {
    let mut s = MemorySettings::unset();
    s.manager = Some("1");
    s.cgroup_mb = Some("16384");
    s.jvm_reserved_mb = Some("10240");
    s
}

#[test]
fn fractions_sum_to_one() {
    let total: f64 = CONSUMERS
        .iter()
        .map(|c| c.split_percent() as f64 / 100.0)
        .sum();
    assert!((total - 1.0).abs() < 1e-9);
}

#[test]
fn budget_formula_subtracts_all_reservations() {
    let s = MemorySettings::unset();
    let cgroup = 16 * 1024 * MIB;
    let jvm = 10 * 1024 * MIB;
    let ffm = ffm_reserved_bytes(&s);
    let head = headroom_bytes(&s, &share_of, cgroup);
    let native = cgroup
        .saturating_sub(jvm)
        .saturating_sub(ffm)
        .saturating_sub(head);
    assert_eq!(native, cgroup - jvm - ffm - head);
    assert!((3800..4100).contains(&(native / MIB)));
    assert!(native > ENGINE_NATIVE_FLOOR);
    let mut st = MemoryState::new();
    assert_eq!(
        engine_native_budget_bytes(&mut st, &armed(), &share_of),
        Some(native)
    );
}

#[test]
fn budget_scales_down_with_smaller_cgroup() {
    let s = MemorySettings::unset();
    let native = |cgroup: u64| {
        cgroup
            .saturating_sub(jvm_reserved_bytes(&s, &share_of, cgroup))
            .saturating_sub(ffm_reserved_bytes(&s))
            .saturating_sub(headroom_bytes(&s, &share_of, cgroup))
    };
    let native16 = native(16 * 1024 * MIB);
    let native12 = native(12 * 1024 * MIB);
    assert!(native12 < native16);
}

#[test]
fn headroom_is_max_of_floor_and_fraction() {
    let s = MemorySettings::unset();
    assert_eq!(headroom_bytes(&s, &share_of, 40 * 1024 * MIB), 4 * 1024 * MIB);
    assert_eq!(headroom_bytes(&s, &share_of, 4 * 1024 * MIB), 1024 * MIB);
}

#[test]
fn off_by_default_returns_none() {
    let mut st = MemoryState::new();
    let s = MemorySettings::unset();
    assert!(!manager_enabled(&mut st, &s));
    for c in CONSUMERS {
        assert_eq!(consumer_cap_bytes(&mut st, &s, &share_of, c), None);
    }
    assert_eq!(diag_str(&mut st, &s, &share_of), "");
}

#[test]
fn jvm_reserved_defaults_to_064_fraction() {
    let cgroup = 16 * 1024 * MIB;
    let s = MemorySettings::unset();
    assert_eq!(
        jvm_reserved_bytes(&s, &share_of, cgroup),
        (cgroup as f64 * 0.64) as u64
    );
}

#[test]
fn admission_is_noop_permit_when_manager_off() {
    let mut st = MemoryState::new();
    let s = MemorySettings::unset();
    let before = compact_inflight_bytes(&st);
    let permit = CompactionAdmission::try_admit(&mut st, &s, &share_of, 64 * MIB, false).unwrap();
    assert_eq!(permit.bytes, 0);
    assert_eq!(compact_inflight_bytes(&st), before);
    permit.release(&mut st);
    assert_eq!(compact_inflight_bytes(&st), before);
}

#[test]
fn admission_drop_is_saturating_and_balanced() {
    let mut st = MemoryState::new();
    let base = compact_inflight_bytes(&st);
    let a = CompactionAdmission { bytes: 10 * MIB };
    st.inflight += 10 * MIB;
    let b = CompactionAdmission { bytes: 5 * MIB };
    st.inflight += 5 * MIB;
    assert_eq!(compact_inflight_bytes(&st), base + 15 * MIB);
    a.release(&mut st);
    assert_eq!(compact_inflight_bytes(&st), base + 5 * MIB);
    b.release(&mut st);
    assert_eq!(compact_inflight_bytes(&st), base);
    let over = CompactionAdmission {
        bytes: compact_inflight_bytes(&st) + 1_000 * MIB,
    };
    over.release(&mut st);
    assert!(compact_inflight_bytes(&st) <= base);
}

#[test]
fn admissions_wait_when_the_part_is_taken() {
    let mut st = MemoryState::new();
    let s = armed();
    let slice =
        consumer_cap_bytes(&mut st, &s, &share_of, Consumer::CompactionTransient).unwrap();
    let whole =
        CompactionAdmission::try_admit(&mut st, &s, &share_of, u64::MAX, false).unwrap();
    assert_eq!(whole.bytes, slice);
    assert!(CompactionAdmission::try_admit(&mut st, &s, &share_of, 1, false).is_none());
    assert!(CompactionAdmission::try_admit(&mut st, &s, &share_of, 1, true).is_none());
    assert_eq!(compact_admission_waits(&st), 1);
    whole.release(&mut st);
    let small = CompactionAdmission::try_admit(&mut st, &s, &share_of, 1, true).unwrap();
    assert_eq!(small.bytes, MIB);
    let mut off = s;
    off.compact_admission = Some("false");
    let free = CompactionAdmission::try_admit(&mut st, &off, &share_of, u64::MAX, false).unwrap();
    assert_eq!(free.bytes, 0);
    small.release(&mut st);
    assert_eq!(compact_inflight_bytes(&st), 0);
}

#[test]
fn caps_split_the_budget() {
    let mut st = MemoryState::new();
    let mut s = armed();
    s.instances = Some(" 4 ");
    assert_eq!(assumed_instances(&s), 4);
    let native = engine_native_budget_bytes(&mut st, &s, &share_of).unwrap();
    assert_eq!(
        consumer_cap_bytes(&mut st, &s, &share_of, Consumer::WriteBuffer),
        Some((native as f64 * 0.30) as u64)
    );
    assert_eq!(
        consumer_cap_bytes(&mut st, &s, &share_of, Consumer::BlockCache),
        Some((native as f64 * 0.28) as u64 / 4)
    );
}

#[test]
fn limits_come_from_the_override_or_the_group() {
    let mut s = MemorySettings::unset();
    assert_eq!(cgroup_budget_bytes(&s), None);
    s.group_limit = Some("max\n");
    assert_eq!(cgroup_budget_bytes(&s), None);
    s.group_limit = Some("17179869184\n");
    assert_eq!(cgroup_budget_bytes(&s), Some(16 * 1024 * MIB));
    s.cgroup_mb = Some("0");
    assert_eq!(cgroup_budget_bytes(&s), Some(16 * 1024 * MIB));
    s.cgroup_mb = Some("100");
    assert_eq!(cgroup_budget_bytes(&s), Some(100 * MIB));
    let mut st = MemoryState::new();
    assert_eq!(
        engine_native_budget_bytes(&mut st, &s, &share_of),
        Some(ENGINE_NATIVE_FLOOR)
    );
}

#[test]
fn the_diagnostic_line_names_every_part() {
    let mut st = MemoryState::new();
    let mut s = MemorySettings::unset();
    s.manager = Some("true");
    assert_eq!(diag_str(&mut st, &s, &share_of), " mem_mgr=armed(no-cgroup)");
    s.cgroup_mb = Some("100");
    assert_eq!(
        diag_str(&mut st, &s, &share_of),
        " mem_mgr_native_MB=1536 mm_blockcache_MB=53 mm_wbm_MB=460 mm_shadow_MB=276 mm_vlog_MB=153 \
         mm_compact_MB=215 mm_compact_inflight_MB=0 mm_compact_waits=0"
    );
}

#[test]
fn caps_fit_the_budget_together() {
    for (limit, instances) in [("4096", "1"), ("16384", "8"), ("16384", "256"), ("65536", "17")] {
        let mut s = MemorySettings::unset();
        s.manager = Some("1");
        s.cgroup_mb = Some(limit);
        s.instances = Some(instances);
        let mut st = MemoryState::new();
        let mut sum = 0;
        for c in CONSUMERS {
            let cap = consumer_cap_bytes(&mut st, &s, &|a: u64, p: u64| a / 100 * p, c).unwrap();
            assert!(cap >= MIB);
            sum += if c == Consumer::BlockCache {
                cap * assumed_instances(&s)
            } else {
                cap
            };
        }
        assert!(st.budget >= ENGINE_NATIVE_FLOOR);
        assert!(sum <= st.budget);
    }
}

#[test]
fn asking_for_a_cap_keeps_the_budget_and_nothing_else() {
    let mut off = MemoryState::new();
    let unset = MemorySettings::unset();
    assert!(consumer_cap_bytes(&mut off, &unset, &share_of, Consumer::WriteBuffer).is_none());
    assert!(!off.armed);
    assert_eq!(off.budget, 0);
    let mut no_limit = MemorySettings::unset();
    no_limit.manager = Some("1");
    let mut st = MemoryState::new();
    st.waits = 3;
    assert!(consumer_cap_bytes(&mut st, &no_limit, &share_of, Consumer::WriteBuffer).is_none());
    assert_eq!((st.armed, st.budget, st.inflight, st.waits), (true, 0, 0, 3));
    assert_eq!(
        diag_str(&mut st, &no_limit, &share_of),
        " mem_mgr=armed(no-cgroup)"
    );
    let native = engine_native_budget_bytes(&mut MemoryState::new(), &armed(), &share_of);
    assert!(consumer_cap_bytes(&mut st, &armed(), &share_of, Consumer::WriteBuffer).is_some());
    assert_eq!(Some(st.budget), native);
    assert_eq!((st.inflight, st.waits), (0, 3));
}
