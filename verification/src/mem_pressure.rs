//! Shedding of memory-hungry features as memory runs short.

use crate::flags;
use crate::flags::{
    is_on, parse_number, parse_positive, parse_second_word, same_text, saturating_product, trim,
};
use vstd::prelude::*;

verus! {

/// How close memory use is to the budget.
#[derive(Clone, Copy, Debug, PartialEq, Eq, PartialOrd, Ord, Structural)]
pub enum PressureLevel {
    /// Nothing is shed.
    Ample,
    /// The heaviest features are shed.
    Elevated,
    /// The middle tier is shed as well.
    High,
    /// Everything that can be shed is.
    Critical,
}

impl PressureLevel {
    /// The place of the level from the lowest up.
    pub open spec fn rank(self) -> nat {
        match self {
            PressureLevel::Ample => 0,
            PressureLevel::Elevated => 1,
            PressureLevel::High => 2,
            PressureLevel::Critical => 3,
        }
    }

    /// Whether the level is at `other` or above.
    pub fn at_least(self, other: PressureLevel) -> (r: bool)
        ensures
            r == (self.rank() >= other.rank()),
    {
        match other {
            PressureLevel::Ample => true,
            PressureLevel::Elevated => self != PressureLevel::Ample,
            PressureLevel::High => self == PressureLevel::High || self == PressureLevel::Critical,
            PressureLevel::Critical => self == PressureLevel::Critical,
        }
    }
}

/// The features that can be shed, first to last.
#[derive(Clone, Copy, Debug, PartialEq, Eq, Structural)]
pub enum ShedPriority {
    /// Iterators held across probes.
    PersistentProbeIter,
    /// Side buffers of grouped reads.
    CoalesceBuffers,
    /// Blocks pinned across a scan.
    S2Pinned,
    /// The boost of hot column families.
    LeveledHotCf,
    /// The resident part of the value log.
    VlogResident,
}

/// The lowest level at which a feature is shed.
pub open spec fn shed_level(lever: ShedPriority) -> PressureLevel {
    match lever {
        ShedPriority::PersistentProbeIter | ShedPriority::CoalesceBuffers => {
            PressureLevel::Elevated
        },
        ShedPriority::S2Pinned | ShedPriority::LeveledHotCf => PressureLevel::High,
        ShedPriority::VlogResident => PressureLevel::Critical,
    }
}

impl ShedPriority {
    /// The lowest level at which the feature is shed.
    pub fn shed_at(self) -> (r: PressureLevel)
        ensures
            r == shed_level(self),
    {
        match self {
            ShedPriority::PersistentProbeIter | ShedPriority::CoalesceBuffers => {
                PressureLevel::Elevated
            },
            ShedPriority::S2Pinned | ShedPriority::LeveledHotCf => PressureLevel::High,
            ShedPriority::VlogResident => PressureLevel::Critical,
        }
    }
}

/// What is known of memory pressure. `hook` returns freed pages to the system
/// and says whether it did.
pub struct PressureState<H: Fn() -> bool> {
    /// Whether shedding is on, once known.
    pub armed: Option<bool>,
    /// Whether pages are returned under pressure, once known.
    pub purge_armed: Option<bool>,
    /// The level to go by in place of the sampled one.
    pub pressure_override: Option<PressureLevel>,
    /// The level sampled last.
    pub sampled: PressureLevel,
    /// How often pages were returned.
    pub purges: u64,
    pub hook: Option<H>,
}

impl<H: Fn() -> bool> PressureState<H> {
    /// Nothing known, nothing sampled.
    pub fn new() -> (r: Self)
        ensures
            r.armed is None,
            r.purge_armed is None,
            r.pressure_override is None,
            r.sampled == PressureLevel::Ample,
            r.purges == 0,
            r.hook is None,
    {
        PressureState {
            armed: None,
            purge_armed: None,
            pressure_override: None,
            sampled: PressureLevel::Ample,
            purges: 0,
            hook: None,
        }
    }

    /// Shedding is on: as known, or else as the setting says.
    pub open spec fn shedding(&self, setting: Option<&str>) -> bool {
        match self.armed {
            Some(b) => b,
            None => flags::on(setting),
        }
    }

    /// Pages are returned under pressure: as known, or else as the settings
    /// say.
    pub open spec fn purging(&self, purge_setting: Option<&str>, shed_setting: Option<&str>) -> bool {
        match self.purge_armed {
            Some(b) => b,
            None => flags::on(purge_setting) || self.shedding(shed_setting),
        }
    }

    /// The level to go by.
    pub open spec fn pressure(&self) -> PressureLevel {
        match self.pressure_override {
            Some(l) => l,
            None => self.sampled,
        }
    }

    /// The state once it is known whether shedding is on.
    pub open spec fn with_shedding_known(self, setting: Option<&str>) -> Self {
        PressureState { armed: Some(self.shedding(setting)), ..self }
    }

    /// The state once it is known whether pages are returned. Shedding is
    /// looked at only where nothing else decides.
    pub open spec fn with_purging_known(
        self,
        purge_setting: Option<&str>,
        shed_setting: Option<&str>,
    ) -> Self {
        if self.purge_armed is Some {
            self
        } else if flags::on(purge_setting) {
            PressureState { purge_armed: Some(true), ..self }
        } else {
            PressureState {
                purge_armed: Some(self.shedding(shed_setting)),
                ..self.with_shedding_known(shed_setting)
            }
        }
    }
}

/// Whether shedding is on. The setting is read once.
pub fn dynamic_shed_enabled<H: Fn() -> bool>(
    state: &mut PressureState<H>,
    setting: Option<&str>,
) -> (r: bool)
    ensures
        r == old(state).shedding(setting),
        *final(state) == old(state).with_shedding_known(setting),
{
    match state.armed {
        Some(b) => b,
        None => {
            let on: bool = is_on(setting);
            state.armed = Some(on);
            on
        },
    }
}

/// Turns shedding on or off; `None` goes back to the setting. What was known of
/// the return of pages is forgotten.
pub fn set_dynamic_shed_override<H: Fn() -> bool>(state: &mut PressureState<H>, v: Option<bool>)
    ensures
        *final(state) == (PressureState { armed: v, purge_armed: None, ..*old(state) }),
{
    state.armed = v;
    state.purge_armed = None;
}

/// Turns the return of pages on or off; `None` goes back to the settings.
pub fn set_purge_valve_override<H: Fn() -> bool>(state: &mut PressureState<H>, v: Option<bool>)
    ensures
        *final(state) == (PressureState { purge_armed: v, ..*old(state) }),
{
    state.purge_armed = v;
}

/// Sets the level to go by; `None` goes back to the sampled one.
pub fn set_pressure_override<H: Fn() -> bool>(
    state: &mut PressureState<H>,
    level: Option<PressureLevel>,
)
    ensures
        *final(state) == (PressureState { pressure_override: level, ..*old(state) }),
{
    state.pressure_override = level;
}

/// Publishes a sampled level.
pub fn publish_sampled<H: Fn() -> bool>(state: &mut PressureState<H>, level: PressureLevel)
    ensures
        *final(state) == (PressureState { sampled: level, ..*old(state) }),
{
    state.sampled = level;
}

/// The level to go by.
pub fn current_pressure<H: Fn() -> bool>(state: &PressureState<H>) -> (r: PressureLevel)
    ensures
        r == state.pressure(),
{
    match state.pressure_override {
        Some(l) => l,
        None => state.sampled,
    }
}

/// The level sampled last.
pub fn sampled_pressure_for_diag<H: Fn() -> bool>(state: &PressureState<H>) -> (r: PressureLevel)
    ensures
        r == state.sampled,
{
    state.sampled
}

/// Whether a feature is shed now.
pub fn should_shed<H: Fn() -> bool>(
    state: &mut PressureState<H>,
    setting: Option<&str>,
    lever: ShedPriority,
) -> (r: bool)
    ensures
        r == (old(state).shedding(setting) && old(state).pressure().rank() >= shed_level(
            lever,
        ).rank()),
        *final(state) == old(state).with_shedding_known(setting),
{
    if !dynamic_shed_enabled(state, setting) {
        return false;
    }
    current_pressure(state).at_least(lever.shed_at())
}

/// What is shed at some pressure is shed at any higher one.
pub proof fn law_shedding_is_monotone(lever: ShedPriority, low: PressureLevel, high: PressureLevel)
    requires
        low.rank() <= high.rank(),
        low.rank() >= shed_level(lever).rank(),
    ensures
        high.rank() >= shed_level(lever).rank(),
{
}

/// With shedding off, nothing is shed at any pressure.
pub proof fn law_off_never_sheds<H: Fn() -> bool>(
    state: PressureState<H>,
    setting: Option<&str>,
    lever: ShedPriority,
)
    requires
        state.armed == Some(false) || state.armed is None && !flags::on(setting),
    ensures
        !(state.shedding(setting) && state.pressure().rank() >= shed_level(lever).rank()),
{
}

/// The level for a share of the budget, in ten-thousandths.
pub open spec fn level_for(bp: int) -> PressureLevel {
    if bp >= 9200 {
        PressureLevel::Critical
    } else if bp >= 8500 {
        PressureLevel::High
    } else if bp >= 7500 {
        PressureLevel::Elevated
    } else {
        PressureLevel::Ample
    }
}

/// The level for a share of the budget, in ten-thousandths.
pub fn level_from_bp(bp: u64) -> (r: PressureLevel)
    ensures
        r == level_for(bp as int),
{
    if bp >= 9_200 {
        PressureLevel::Critical
    } else if bp >= 8_500 {
        PressureLevel::High
    } else if bp >= 7_500 {
        PressureLevel::Elevated
    } else {
        PressureLevel::Ample
    }
}

/// The limit that a control group's file gives, in bytes: none for `max` or 0.
pub open spec fn limit_in(text: Seq<char>) -> Option<u64> {
    let t = flags::trimmed(text);
    if t == "max"@ {
        None
    } else {
        match flags::number(t) {
            Some(n) => if n == 0 {
                None
            } else {
                Some(n)
            },
            None => None,
        }
    }
}

/// Reads the limit that a control group's file gives.
pub fn parse_limit(text: &str) -> (r: Option<u64>)
    ensures
        r == limit_in(text@),
{
    let t: &str = trim(text);
    if same_text(t, "max") {
        return None;
    }
    match parse_number(t) {
        Some(n) => if n == 0 {
            None
        } else {
            Some(n)
        },
        None => None,
    }
}

/// The use and the limit that a control group's files give.
pub open spec fn group_use(current: Option<&str>, limit: Option<&str>) -> Option<(u64, u64)> {
    match (current, limit) {
        (Some(c), Some(m)) => match (flags::number(flags::trimmed(c@)), limit_in(m@)) {
            (Some(used), Some(max)) => Some((used, max)),
            _ => None,
        },
        _ => None,
    }
}

/// Reads the use and the limit that a control group's files give.
pub fn parse_cgroup(current: Option<&str>, limit: Option<&str>) -> (r: Option<(u64, u64)>)
    ensures
        r == group_use(current, limit),
{
    match (current, limit) {
        (Some(c), Some(m)) => match (parse_number(trim(c)), parse_limit(m)) {
            (Some(used), Some(max)) => Some((used, max)),
            _ => None,
        },
        _ => None,
    }
}

/// The share of `budget` that `used` is, in ten-thousandths.
pub open spec fn share(used: u64, budget: u64) -> int {
    flags::capped_product(used, 10_000) as int / budget as int
}

/// The bytes of a number of pages.
pub open spec fn page_bytes(pages: u64) -> u64 {
    flags::capped_product(pages, 4096)
}

/// The resident pages of the process: the second number of `statm`.
pub open spec fn resident_pages(statm: Option<&str>) -> Option<u64> {
    match statm {
        Some(t) => flags::number(flags::second_word(t@)),
        None => None,
    }
}

/// The level that a sample gives: of the control group if it has a limit, else
/// of the process's resident pages and the budget set for them.
pub open spec fn sample(
    current: Option<&str>,
    limit: Option<&str>,
    statm: Option<&str>,
    budget_mb: Option<&str>,
) -> Option<PressureLevel> {
    match group_use(current, limit) {
        Some((used, max)) => Some(level_for(share(used, max))),
        None => match (resident_pages(statm), flags::positive(budget_mb)) {
            (Some(p), Some(mb)) => Some(
                level_for(share(page_bytes(p), flags::capped_product(mb, 1_048_576))),
            ),
            _ => None,
        },
    }
}

/// The level that a sample gives, if it gives one. `current` and `limit` are
/// the contents of the control group's files, `statm` the page counts of the
/// process.
pub fn sample_pressure_once(
    current: Option<&str>,
    limit: Option<&str>,
    statm: Option<&str>,
    budget_mb: Option<&str>,
) -> (r: Option<PressureLevel>)
    ensures
        r == sample(current, limit, statm, budget_mb),
{
    let pages: Option<u64> = match statm {
        Some(t) => parse_second_word(t),
        None => None,
    };
    match parse_cgroup(current, limit) {
        Some((used, max)) => {
            let bp: u64 = saturating_product(used, 10_000) / max;
            Some(level_from_bp(bp))
        },
        None => match (pages, parse_positive(budget_mb)) {
            (Some(p), Some(mb)) => {
                let budget: u64 = saturating_product(mb, 1_048_576);
                let bp: u64 = saturating_product(saturating_product(p, 4096), 10_000) / budget;
                Some(level_from_bp(bp))
            },
            _ => None,
        },
    }
}

/// The time between samples, in milliseconds.
pub fn sample_interval_ms(setting: Option<&str>) -> (r: u64)
    ensures
        r == match flags::positive(setting) {
            Some(ms) => ms,
            None => 1000,
        },
{
    match parse_positive(setting) {
        Some(ms) => ms,
        None => 1000,
    }
}

/// Whether samples are taken: if features are shed, or pages returned.
pub fn sampler_wanted<H: Fn() -> bool>(
    state: &mut PressureState<H>,
    shed_setting: Option<&str>,
    purge_setting: Option<&str>,
) -> (r: bool)
    ensures
        r == (old(state).shedding(shed_setting) || old(state).purging(purge_setting, shed_setting)),
        *final(state) == if old(state).shedding(shed_setting) {
            old(state).with_shedding_known(shed_setting)
        } else {
            old(state).with_shedding_known(shed_setting).with_purging_known(
                purge_setting,
                shed_setting,
            )
        },
{
    if dynamic_shed_enabled(state, shed_setting) {
        return true;
    }
    purge_valve_enabled(state, purge_setting, shed_setting)
}

/// Whether pages are returned under pressure. The settings are read once.
pub fn purge_valve_enabled<H: Fn() -> bool>(
    state: &mut PressureState<H>,
    purge_setting: Option<&str>,
    shed_setting: Option<&str>,
) -> (r: bool)
    ensures
        r == old(state).purging(purge_setting, shed_setting),
        *final(state) == old(state).with_purging_known(purge_setting, shed_setting),
{
    match state.purge_armed {
        Some(b) => b,
        None => {
            let on: bool = is_on(purge_setting) || dynamic_shed_enabled(state, shed_setting);
            state.purge_armed = Some(on);
            on
        },
    }
}

/// How often pages were returned.
pub fn purge_count<H: Fn() -> bool>(state: &PressureState<H>) -> (r: u64)
    ensures
        r == state.purges,
{
    state.purges
}

/// Installs the hook that returns pages. The first one stays.
pub fn register_purge_hook<H: Fn() -> bool>(state: &mut PressureState<H>, hook: H)
    ensures
        *final(state) == (PressureState {
            hook: match old(state).hook {
                Some(h) => Some(h),
                None => Some(hook),
            },
            ..*old(state)
        }),
{
    if state.hook.is_none() {
        state.hook = Some(hook);
    }
}

/// Returns pages if that is on, the level is high, and there is a hook.
pub fn maybe_purge<H: Fn() -> bool>(
    state: &mut PressureState<H>,
    purge_setting: Option<&str>,
    shed_setting: Option<&str>,
    level: PressureLevel,
)
    requires
        old(state).hook matches Some(h) ==> call_requires(h, ()),
    ensures
        ({
            let known = old(state).with_purging_known(purge_setting, shed_setting);
            if old(state).purging(purge_setting, shed_setting) && level.rank()
                >= PressureLevel::High.rank() {
                match old(state).hook {
                    Some(h) => exists|done: bool| #[trigger]
                        call_ensures(h, (), done) && *final(state) == if done {
                            PressureState {
                                purges: ((known.purges + 1) % 0x1_0000_0000_0000_0000) as u64,
                                ..known
                            }
                        } else {
                            known
                        },
                    None => *final(state) == known,
                }
            } else {
                *final(state) == known
            }
        }),
{
    if !purge_valve_enabled(state, purge_setting, shed_setting) {
        return;
    }
    if !level.at_least(PressureLevel::High) {
        return;
    }
    let done: bool = match &state.hook {
        Some(h) => h(),
        None => false,
    };
    if done {
        state.purges = state.purges.wrapping_add(1);
    }
}

/// The level goes by parts in ten thousand: elevated from three quarters on, high
/// from 85 in a hundred, critical from 92.
pub proof fn law_levels_begin_at_their_shares(bp: int, more: int)
    requires
        bp <= more,
    ensures
        level_for(bp) is Ample <==> bp < 7500,
        level_for(bp) is Elevated <==> 7500 <= bp < 8500,
        level_for(bp) is High <==> 8500 <= bp < 9200,
        level_for(bp) is Critical <==> 9200 <= bp,
        level_for(bp).rank() <= level_for(more).rank(),
{
}

/// The levels rise in the order in which they are declared, and each feature is shed
/// at its own: side structures first, pinned blocks next, the value log last.
pub proof fn law_features_are_shed_in_order()
    ensures
        PressureLevel::Ample.rank() < PressureLevel::Elevated.rank(),
        PressureLevel::Elevated.rank() < PressureLevel::High.rank(),
        PressureLevel::High.rank() < PressureLevel::Critical.rank(),
        shed_level(ShedPriority::PersistentProbeIter) is Elevated,
        shed_level(ShedPriority::CoalesceBuffers) is Elevated,
        shed_level(ShedPriority::S2Pinned) is High,
        shed_level(ShedPriority::LeveledHotCf) is High,
        shed_level(ShedPriority::VlogResident) is Critical,
{
}

/// The share is what is used in ten thousandths of the budget, rounded down: it grows
/// with what is used, and what uses up the budget has ten thousand of them.
pub proof fn law_share_is_in_ten_thousandths(used: u64, budget: u64, more: u64)
    requires
        budget > 0,
        used <= more,
        more * 10_000 <= u64::MAX,
    ensures
        share(used, budget) * budget <= used * 10_000,
        used * 10_000 < (share(used, budget) + 1) * budget,
        share(used, budget) <= share(more, budget),
        used == budget ==> share(used, budget) == 10_000,
{
    let n = used * 10_000;
    let b = budget as int;
    assert(share(used, budget) == n / b);
    vstd::arithmetic::div_mod::lemma_fundamental_div_mod(n, b);
    vstd::arithmetic::div_mod::lemma_mod_bound(n, b);
    assert(b * (n / b) == (n / b) * b) by (nonlinear_arith);
    assert((n / b + 1) * b == (n / b) * b + b) by (nonlinear_arith);
    vstd::arithmetic::div_mod::lemma_div_is_ordered(n, more * 10_000, b);
    if used == budget {
        assert(n / b == 10_000) by (nonlinear_arith)
            requires
                n == b * 10_000,
                b > 0,
        ;
    }
}

/// A usage that is too large to multiply out counts as the largest number of 64
/// bits.
pub proof fn law_share_saturates(used: u64, budget: u64)
    requires
        budget > 0,
        used * 10_000 > u64::MAX,
    ensures
        share(used, budget) == 0xffff_ffff_ffff_ffffint / budget as int,
{
}

/// A limit of zero, of `max` or of anything that is not a number is none; any other
/// number is itself.
pub proof fn law_limit_is_a_positive_number(text: Seq<char>)
    ensures
        flags::trimmed(text) == "max"@ ==> limit_in(text) is None,
        limit_in(text) matches Some(n) ==> n > 0 && flags::number(flags::trimmed(text)) == Some(n),
        flags::number(flags::trimmed(text)) is None ==> limit_in(text) is None,
        flags::trimmed(text) != "max"@ ==> (flags::number(flags::trimmed(text)) matches Some(n)
            ==> n > 0 ==> limit_in(text) == Some(n)),
{
}

/// The group's own figures decide where both are there. Else the resident pages of
/// the process, 4096 bytes each, against a budget in units of 2^20 bytes. Without
/// either nothing is sampled.
pub proof fn law_sample_goes_by_the_group_first(
    current: Option<&str>,
    limit: Option<&str>,
    statm: Option<&str>,
    budget_mb: Option<&str>,
)
    ensures
        group_use(current, limit) is Some <==> current is Some && limit is Some && flags::number(
            flags::trimmed(current->0@),
        ) is Some && limit_in(limit->0@) is Some,
        group_use(current, limit) matches Some(u) ==> flags::number(flags::trimmed(current->0@))
            == Some(u.0) && limit_in(limit->0@) == Some(u.1) && sample(
            current,
            limit,
            statm,
            budget_mb,
        ) == Some(level_for(share(u.0, u.1))),
        group_use(current, limit) is None ==> (sample(current, limit, statm, budget_mb) is Some
            <==> resident_pages(statm) is Some && flags::positive(budget_mb) is Some),
        group_use(current, limit) is None && resident_pages(statm) is Some && flags::positive(
            budget_mb,
        ) is Some && resident_pages(statm)->0 * 4096 <= u64::MAX && flags::positive(budget_mb)->0
            * 1_048_576 <= u64::MAX ==> sample(current, limit, statm, budget_mb) == Some(
            level_for(
                share(
                    (resident_pages(statm)->0 * 4096) as u64,
                    (flags::positive(budget_mb)->0 * 1_048_576) as u64,
                ),
            ),
        ),
        resident_pages(statm) == match statm {
            Some(t) => flags::number(flags::second_word(t@)),
            None => None,
        },
{
}

/// What was set or found out first stands; else the setting decides, and pages are
/// returned also where features are shed.
pub proof fn law_overrides_win<H: Fn() -> bool>(
    state: PressureState<H>,
    purge: Option<&str>,
    shed: Option<&str>,
)
    ensures
        state.armed matches Some(b) ==> state.shedding(shed) == b,
        state.armed is None ==> state.shedding(shed) == flags::on(shed),
        state.purge_armed matches Some(b) ==> state.purging(purge, shed) == b,
        state.purge_armed is None ==> state.purging(purge, shed) == (flags::on(purge)
            || state.shedding(shed)),
        state.pressure_override matches Some(l) ==> state.pressure() == l,
        state.pressure_override is None ==> state.pressure() == state.sampled,
{
}

/// Finding out is final and changes nothing else: asked again, under whatever
/// setting, the answer is the same.
pub proof fn law_answers_are_remembered<H: Fn() -> bool>(
    state: PressureState<H>,
    purge: Option<&str>,
    shed: Option<&str>,
    purge_later: Option<&str>,
    shed_later: Option<&str>,
)
    ensures
        ({
            let s = state.with_shedding_known(shed);
            let p = state.with_purging_known(purge, shed);
            &&& s.armed == Some(state.shedding(shed))
            &&& s.shedding(shed_later) == state.shedding(shed)
            &&& s.purge_armed == state.purge_armed
            &&& p.purge_armed == Some(state.purging(purge, shed))
            &&& p.purging(purge_later, shed_later) == state.purging(purge, shed)
            &&& p.armed == state.armed || p.armed == Some(state.shedding(shed))
            &&& state.purge_armed is Some || flags::on(purge) ==> p.armed == state.armed
            &&& state.purge_armed is None && !flags::on(purge) ==> p.armed == Some(
                state.shedding(shed),
            )
            &&& s.pressure_override == state.pressure_override && p.pressure_override
                == state.pressure_override
            &&& s.sampled == state.sampled && p.sampled == state.sampled
            &&& s.purges == state.purges && p.purges == state.purges
            &&& s.hook == state.hook && p.hook == state.hook
        }),
{
}

} // verus!
