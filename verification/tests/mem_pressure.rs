//! Shedding under memory pressure.

use forst_rs::mem_pressure::{
    current_pressure, dynamic_shed_enabled, level_from_bp, maybe_purge, publish_sampled, purge_count,
    purge_valve_enabled, register_purge_hook, sample_interval_ms, sample_pressure_once,
    sampled_pressure_for_diag, sampler_wanted, set_dynamic_shed_override, set_pressure_override,
    set_purge_valve_override, should_shed, PressureLevel, PressureState, ShedPriority,
};

type State = PressureState<fn() -> bool>;

#[test]
fn off_by_default_never_sheds() {
    let mut st = State::new();
    set_dynamic_shed_override(&mut st, Some(false));
    set_pressure_override(&mut st, Some(PressureLevel::Critical));
    for lever in [
        ShedPriority::PersistentProbeIter,
        ShedPriority::CoalesceBuffers,
        ShedPriority::S2Pinned,
        ShedPriority::LeveledHotCf,
        ShedPriority::VlogResident,
    ] {
        assert!(!should_shed(&mut st, None, lever), "OFF must never shed: {lever:?}");
    }
}

#[test]
fn priority_ladder_sheds_in_order() {
    let mut st = State::new();
    set_dynamic_shed_override(&mut st, Some(true));

    set_pressure_override(&mut st, Some(PressureLevel::Ample));
    assert!(!should_shed(&mut st, None, ShedPriority::PersistentProbeIter));
    assert!(!should_shed(&mut st, None, ShedPriority::VlogResident));

    set_pressure_override(&mut st, Some(PressureLevel::Elevated));
    assert!(should_shed(&mut st, None, ShedPriority::PersistentProbeIter));
    assert!(should_shed(&mut st, None, ShedPriority::CoalesceBuffers));
    assert!(!should_shed(&mut st, None, ShedPriority::S2Pinned));
    assert!(!should_shed(&mut st, None, ShedPriority::LeveledHotCf));
    assert!(!should_shed(&mut st, None, ShedPriority::VlogResident));

    set_pressure_override(&mut st, Some(PressureLevel::High));
    assert!(should_shed(&mut st, None, ShedPriority::PersistentProbeIter));
    assert!(should_shed(&mut st, None, ShedPriority::S2Pinned));
    assert!(should_shed(&mut st, None, ShedPriority::LeveledHotCf));
    assert!(!should_shed(&mut st, None, ShedPriority::VlogResident));

    set_pressure_override(&mut st, Some(PressureLevel::Critical));
    assert!(should_shed(&mut st, None, ShedPriority::VlogResident));
    assert!(should_shed(&mut st, None, ShedPriority::LeveledHotCf));

}

#[test]
fn sampler_published_level_drives_gate() {
    let mut st = State::new();
    set_dynamic_shed_override(&mut st, Some(true));
    set_pressure_override(&mut st, None);
    publish_sampled(&mut st, PressureLevel::High);
    assert_eq!(current_pressure(&st), PressureLevel::High);
    assert!(should_shed(&mut st, None, ShedPriority::S2Pinned));
    assert!(!should_shed(&mut st, None, ShedPriority::VlogResident));
}

#[test]
fn purge_valve_off_by_default() {
    let mut st = State::new();
    set_dynamic_shed_override(&mut st, Some(false));
    set_purge_valve_override(&mut st, Some(false));
    assert!(!purge_valve_enabled(&mut st, None, None));
}

#[test]
fn purge_valve_armed_by_sub_flag_or_master() {
    let mut st = State::new();
    set_dynamic_shed_override(&mut st, Some(false));
    set_purge_valve_override(&mut st, Some(true));
    assert!(purge_valve_enabled(&mut st, None, None));

    set_purge_valve_override(&mut st, None);
    set_dynamic_shed_override(&mut st, Some(true));
    assert!(purge_valve_enabled(&mut st, None, None));
}

#[test]
fn maybe_purge_only_fires_at_high_or_above() {
    let mut st = State::new();
    set_purge_valve_override(&mut st, Some(true));

    let before = purge_count(&st);
    maybe_purge(&mut st, None, None, PressureLevel::Ample);
    maybe_purge(&mut st, None, None, PressureLevel::Elevated);
    assert_eq!(purge_count(&st), before, "must not purge below High");

    set_purge_valve_override(&mut st, Some(false));
    set_dynamic_shed_override(&mut st, Some(false));
    let before = purge_count(&st);
    maybe_purge(&mut st, None, None, PressureLevel::Critical);
    assert_eq!(purge_count(&st), before, "unarmed must never purge");
}

#[test]
fn registered_hook_fires_at_high_not_below() {
    let mut st = State::new();
    register_purge_hook(&mut st, || true);
    set_purge_valve_override(&mut st, Some(true));

    let base = purge_count(&st);
    maybe_purge(&mut st, None, None, PressureLevel::Ample);
    maybe_purge(&mut st, None, None, PressureLevel::Elevated);
    assert_eq!(purge_count(&st), base, "no purge below High");

    maybe_purge(&mut st, None, None, PressureLevel::High);
    assert_eq!(purge_count(&st), base + 1, "High must purge once");
    maybe_purge(&mut st, None, None, PressureLevel::Critical);
    assert_eq!(purge_count(&st), base + 2, "Critical must purge once");
}

#[test]
fn level_from_bp_thresholds() {
    assert_eq!(level_from_bp(0), PressureLevel::Ample);
    assert_eq!(level_from_bp(7_499), PressureLevel::Ample);
    assert_eq!(level_from_bp(7_500), PressureLevel::Elevated);
    assert_eq!(level_from_bp(8_499), PressureLevel::Elevated);
    assert_eq!(level_from_bp(8_500), PressureLevel::High);
    assert_eq!(level_from_bp(9_199), PressureLevel::High);
    assert_eq!(level_from_bp(9_200), PressureLevel::Critical);
    assert_eq!(level_from_bp(10_000), PressureLevel::Critical);
}

#[test]
fn settings_are_read_once() {
    let mut st = State::new();
    assert!(dynamic_shed_enabled(&mut st, Some("1")));
    assert!(dynamic_shed_enabled(&mut st, Some("0")));
    let mut st = State::new();
    assert!(!dynamic_shed_enabled(&mut st, Some("yes")));
    assert!(!dynamic_shed_enabled(&mut st, Some("TRUE")));
    assert!(sampler_wanted(&mut st, None, Some("true")));
}

#[test]
fn a_hook_that_fails_is_not_counted_and_the_first_one_stays() {
    let mut st = State::new();
    register_purge_hook(&mut st, || false);
    register_purge_hook(&mut st, || true);
    set_purge_valve_override(&mut st, Some(true));
    maybe_purge(&mut st, None, None, PressureLevel::Critical);
    assert_eq!(purge_count(&st), 0);
}

#[test]
fn samples_prefer_the_control_group() {
    assert_eq!(
        sample_pressure_once(Some("76\n"), Some("100\n"), Some("9 1 2"), Some("1")),
        Some(PressureLevel::Elevated)
    );
    assert_eq!(
        sample_pressure_once(Some("76"), Some("max\n"), Some("999 256 12 0\n"), Some("1")),
        Some(PressureLevel::Critical)
    );
    assert_eq!(
        sample_pressure_once(None, Some("100"), Some(" 7\t128"), Some(" 1 ")),
        Some(PressureLevel::Ample)
    );
    assert_eq!(sample_pressure_once(None, None, Some("1 1"), None), None);
    assert_eq!(sample_pressure_once(None, None, Some("256"), Some("1")), None);
    assert_eq!(sample_pressure_once(Some("x"), Some("0"), None, Some("1")), None);
    assert_eq!(sampled_pressure_for_diag(&State::new()), PressureLevel::Ample);
    assert_eq!(sample_interval_ms(Some("250")), 250);
    assert_eq!(sample_interval_ms(Some("0")), 1000);
}

#[test]
fn only_what_decides_is_kept() {
    let mut st = State::new();
    assert!(purge_valve_enabled(&mut st, Some("1"), Some("0")));
    assert_eq!((st.armed, st.purge_armed), (None, Some(true)));
    let mut st = State::new();
    assert!(!purge_valve_enabled(&mut st, None, Some("0")));
    assert_eq!((st.armed, st.purge_armed), (Some(false), Some(false)));
    let mut st = State::new();
    assert!(sampler_wanted(&mut st, Some("1"), None));
    assert_eq!((st.armed, st.purge_armed), (Some(true), None));
    let mut st = State::new();
    assert!(!sampler_wanted(&mut st, None, None));
    assert_eq!((st.armed, st.purge_armed), (Some(false), Some(false)));
    let mut st = State::new();
    maybe_purge(&mut st, Some("1"), None, PressureLevel::Critical);
    assert_eq!((st.armed, st.purge_armed), (None, Some(true)));
    assert_eq!(purge_count(&st), 0);
}
