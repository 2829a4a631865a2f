//! Which files to merge next: the choice of the inputs of a compaction.

use crate::bytes;
use crate::bytes::bytes_less;
use crate::config::LevelMultiplier;
use crate::types::{ColumnFamilyId, FileNumber};
use crate::version;
use crate::version::{SstFileMeta, SstFileMetaView, Version};
use vstd::prelude::*;

verus! {

/// What a choice depends on besides the files. `tombstones` gives the number
/// of tombstones in a file.
pub struct PolicyCtx<F: Fn(FileNumber) -> u64> {
    pub num_levels: usize,
    pub max_bytes_for_level_base: u64,
    pub max_bytes_for_level_multiplier: LevelMultiplier,
    pub dynamic_levels: bool,
    pub trivial_move: bool,
    pub compaction_filter_active: bool,
    pub tombstones: F,
}

/// The inputs of a merge, with their levels, and where the output goes.
#[derive(Debug, Clone, PartialEq, Eq)]
pub struct CompactionPlan {
    pub inputs: Vec<(u32, SstFileMeta)>,
    pub output_level: u32,
    pub is_bottommost: bool,
}

/// What to do: move files to another level as they are, or merge files.
#[derive(Debug, Clone, PartialEq, Eq)]
pub enum CompactionDecision {
    TrivialMove { files: Vec<SstFileMeta>, from_level: u32, to_level: u32 },
    Merge(CompactionPlan),
}

/// The contents of a [`CompactionDecision`].
pub enum DecisionView {
    TrivialMove { files: Seq<SstFileMetaView>, from_level: u32, to_level: u32 },
    Merge { inputs: Seq<(u32, SstFileMetaView)>, output_level: u32, is_bottommost: bool },
}

impl View for CompactionDecision {
    type V = DecisionView;

    open spec fn view(&self) -> DecisionView {
        match self {
            CompactionDecision::TrivialMove { files, from_level, to_level } => {
                DecisionView::TrivialMove {
                    files: version::metas_view(files@),
                    from_level: *from_level,
                    to_level: *to_level,
                }
            },
            CompactionDecision::Merge(plan) => DecisionView::Merge {
                inputs: version::leveled_metas(plan.inputs@),
                output_level: plan.output_level,
                is_bottommost: plan.is_bottommost,
            },
        }
    }
}

/// The kind of a policy.
#[derive(Debug, Clone, Copy, PartialEq, Eq, Structural)]
pub enum CompactionPolicyKind {
    SortedRun,
}

/// The files of a column family at a level.
pub open spec fn family_files(v: Version, level: int, cf: ColumnFamilyId) -> Seq<SstFileMetaView> {
    version::level_files(v, level).filter(|m: SstFileMetaView| m.cf_id == cf)
}

/// The key range of `m` meets the range from `lo` to `hi`.
pub open spec fn overlaps(m: SstFileMetaView, lo: Seq<u8>, hi: Seq<u8>) -> bool {
    bytes::lex_le(lo, m.largest_key) && bytes::lex_le(m.smallest_key, hi)
}

/// The key range of `m` lies between `lo` and `hi`.
pub open spec fn within(m: SstFileMetaView, lo: Seq<u8>, hi: Seq<u8>) -> bool {
    bytes::lex_le(lo, m.smallest_key) && bytes::lex_le(m.largest_key, hi)
}

/// The range from `lo` to `hi` holds all of `upper`, and all of each file of
/// `level` that it meets.
pub open spec fn is_cut(
    upper: Seq<SstFileMetaView>,
    level: Seq<SstFileMetaView>,
    lo: Seq<u8>,
    hi: Seq<u8>,
) -> bool {
    &&& forall|i: int| 0 <= i < upper.len() ==> within(#[trigger] upper[i], lo, hi)
    &&& forall|i: int|
        0 <= i < level.len() && overlaps(#[trigger] level[i], lo, hi) ==> within(level[i], lo, hi)
}

/// The smallest such range.
pub open spec fn is_least_cut(
    upper: Seq<SstFileMetaView>,
    level: Seq<SstFileMetaView>,
    lo: Seq<u8>,
    hi: Seq<u8>,
) -> bool {
    &&& is_cut(upper, level, lo, hi)
    &&& forall|a: Seq<u8>, b: Seq<u8>| #[trigger]
        is_cut(upper, level, a, b) ==> bytes::lex_le(a, lo) && bytes::lex_le(hi, b)
}

/// The files of `level` that the smallest such range meets.
pub open spec fn cut_files(
    upper: Seq<SstFileMetaView>,
    level: Seq<SstFileMetaView>,
) -> Seq<SstFileMetaView> {
    let (lo, hi) = choose|lo: Seq<u8>, hi: Seq<u8>| is_least_cut(upper, level, lo, hi);
    level.filter(|m: SstFileMetaView| overlaps(m, lo, hi))
}

/// There is at most one smallest range.
pub proof fn law_least_cut_is_unique(
    upper: Seq<SstFileMetaView>,
    level: Seq<SstFileMetaView>,
    lo: Seq<u8>,
    hi: Seq<u8>,
    lo2: Seq<u8>,
    hi2: Seq<u8>,
)
    requires
        is_least_cut(upper, level, lo, hi),
        is_least_cut(upper, level, lo2, hi2),
    ensures
        lo == lo2,
        hi == hi2,
{
    bytes::lemma_lex_not_lt(lo, lo2);
    bytes::lemma_lex_not_lt(lo2, lo);
    bytes::lemma_lex_not_lt(hi, hi2);
    bytes::lemma_lex_not_lt(hi2, hi);
}

/// A cut is clean: no file of the level that is left out shares a key with a
/// file above or with one that is taken.
pub proof fn law_cut_is_clean(
    upper: Seq<SstFileMetaView>,
    level: Seq<SstFileMetaView>,
    lo: Seq<u8>,
    hi: Seq<u8>,
    out: int,
    taken: SstFileMetaView,
)
    requires
        is_cut(upper, level, lo, hi),
        0 <= out < level.len(),
        !overlaps(level[out], lo, hi),
        upper.contains(taken) || level.contains(taken) && overlaps(taken, lo, hi),
    ensures
        !overlaps(level[out], taken.smallest_key, taken.largest_key),
{
    let f = level[out];
    assert(within(taken, lo, hi));
    bytes::lemma_lex_not_lt(f.largest_key, lo);
    bytes::lemma_lex_not_lt(hi, f.smallest_key);
    if bytes::lex_lt(f.largest_key, lo) {
        bytes::lemma_lex_lt_le(f.largest_key, lo, taken.smallest_key);
        bytes::lemma_lex_not_lt(f.largest_key, taken.smallest_key);
    } else {
        bytes::lemma_lex_le_lt(taken.largest_key, hi, f.smallest_key);
        bytes::lemma_lex_not_lt(taken.largest_key, f.smallest_key);
    }
}

/// Number of files not yet taken.
spec fn untaken(s: Seq<bool>) -> nat
    decreases s.len(),
{
    if s.len() == 0 {
        0
    } else {
        untaken(s.drop_last()) + if s.last() {
            0nat
        } else {
            1nat
        }
    }
}

proof fn lemma_untaken(s: Seq<bool>, i: int)
    requires
        0 <= i < s.len(),
        !s[i],
    ensures
        untaken(s.update(i, true)) + 1 == untaken(s),
    decreases s.len(),
{
    let t = s.update(i, true);
    if i == s.len() - 1 {
        assert(t.drop_last() =~= s.drop_last());
    } else {
        lemma_untaken(s.drop_last(), i);
        assert(t.drop_last() =~= s.drop_last().update(i, true));
    }
}

proof fn lemma_filter_next<A>(s: Seq<A>, p: spec_fn(A) -> bool, i: int)
    requires
        0 <= i < s.len(),
    ensures
        s.take(i + 1).filter(p) == if p(s[i]) {
            s.take(i).filter(p).push(s[i])
        } else {
            s.take(i).filter(p)
        },
{
    reveal(Seq::filter);
    assert(s.take(i + 1).drop_last() =~= s.take(i));
}

/// The files of `files` that belong to `cf`.
fn files_of(files: &Vec<SstFileMeta>, cf: ColumnFamilyId) -> (r: Vec<SstFileMeta>)
    ensures
        version::metas_view(r@) == version::metas_view(files@).filter(
            |m: SstFileMetaView| m.cf_id == cf,
        ),
{
    let mut out: Vec<SstFileMeta> = Vec::new();
    let ghost p = |m: SstFileMetaView| m.cf_id == cf;
    let ghost all = version::metas_view(files@);
    let mut i: usize = 0;
    proof {
        reveal(Seq::filter);
        assert(version::metas_view(out@) =~= all.take(0).filter(p));
    }
    while i < files.len()
        invariant
            i <= files@.len(),
            p == (|m: SstFileMetaView| m.cf_id == cf),
            all == version::metas_view(files@),
            version::metas_view(out@) == all.take(i as int).filter(p),
        decreases files@.len() - i,
    {
        let ghost before = out@;
        proof {
            lemma_filter_next(all, p, i as int);
        }
        if files[i].cf_id == cf {
            let m: SstFileMeta = files[i].duplicate();
            proof {
                version::lemma_metas_push(before, m);
            }
            out.push(m);
        }
        i += 1;
    }
    assert(all.take(i as int) =~= all);
    out
}

/// Whether the key range of `m` meets the range from `lo` to `hi`.
fn meets(m: &SstFileMeta, lo: &Vec<u8>, hi: &Vec<u8>) -> (r: bool)
    ensures
        r == overlaps(m@, lo@, hi@),
{
    proof {
        bytes::lemma_lex_not_lt(m.largest_key@, lo@);
        bytes::lemma_lex_not_lt(hi@, m.smallest_key@);
    }
    !bytes_less(m.largest_key.as_slice(), lo.as_slice()) && !bytes_less(
        hi.as_slice(),
        m.smallest_key.as_slice(),
    )
}

/// The files of `files` that meet the range from `lo` to `hi`.
fn files_meeting(files: &Vec<SstFileMeta>, lo: &Vec<u8>, hi: &Vec<u8>) -> (r: Vec<SstFileMeta>)
    ensures
        version::metas_view(r@) == version::metas_view(files@).filter(
            |m: SstFileMetaView| overlaps(m, lo@, hi@),
        ),
{
    let mut out: Vec<SstFileMeta> = Vec::new();
    let ghost p = |m: SstFileMetaView| overlaps(m, lo@, hi@);
    let ghost all = version::metas_view(files@);
    let mut i: usize = 0;
    proof {
        reveal(Seq::filter);
        assert(version::metas_view(out@) =~= all.take(0).filter(p));
    }
    while i < files.len()
        invariant
            i <= files@.len(),
            p == (|m: SstFileMetaView| overlaps(m, lo@, hi@)),
            all == version::metas_view(files@),
            version::metas_view(out@) == all.take(i as int).filter(p),
        decreases files@.len() - i,
    {
        let ghost before = out@;
        proof {
            lemma_filter_next(all, p, i as int);
        }
        if meets(&files[i], lo, hi) {
            let m: SstFileMeta = files[i].duplicate();
            proof {
                version::lemma_metas_push(before, m);
            }
            out.push(m);
        }
        i += 1;
    }
    assert(all.take(i as int) =~= all);
    out
}

/// `lo` and `hi` bound every range that is a cut from inside.
spec fn inner(
    upper: Seq<SstFileMetaView>,
    level: Seq<SstFileMetaView>,
    lo: Seq<u8>,
    hi: Seq<u8>,
) -> bool {
    forall|a: Seq<u8>, b: Seq<u8>| #[trigger]
        is_cut(upper, level, a, b) ==> bytes::lex_le(a, lo) && bytes::lex_le(hi, b)
}

/// What has been taken so far meets the range and lies within it.
spec fn absorbed(
    upper: Seq<SstFileMetaView>,
    level: Seq<SstFileMetaView>,
    taken: Seq<bool>,
    lo: Seq<u8>,
    hi: Seq<u8>,
) -> bool {
    &&& taken.len() == level.len()
    &&& forall|i: int| 0 <= i < upper.len() ==> within(#[trigger] upper[i], lo, hi)
    &&& forall|i: int| 0 <= i < level.len() && #[trigger] taken[i] ==> within(level[i], lo, hi)
    &&& inner(upper, level, lo, hi)
}

/// The lesser of two keys.
spec fn lesser(a: Seq<u8>, b: Seq<u8>) -> Seq<u8> {
    if bytes::lex_lt(b, a) {
        b
    } else {
        a
    }
}

/// The greater of two keys.
spec fn greater(a: Seq<u8>, b: Seq<u8>) -> Seq<u8> {
    if bytes::lex_lt(a, b) {
        b
    } else {
        a
    }
}

proof fn lemma_within_wider(m: SstFileMetaView, lo: Seq<u8>, hi: Seq<u8>, a: Seq<u8>, b: Seq<u8>)
    requires
        within(m, lo, hi),
        bytes::lex_le(a, lo),
        bytes::lex_le(hi, b),
    ensures
        within(m, a, b),
{
    bytes::lemma_lex_le_transitive(a, lo, m.smallest_key);
    bytes::lemma_lex_le_transitive(m.largest_key, hi, b);
}

proof fn lemma_bounds(m: SstFileMetaView, lo: Seq<u8>, hi: Seq<u8>)
    ensures
        within(m, lesser(lo, m.smallest_key), greater(hi, m.largest_key)),
        bytes::lex_le(lesser(lo, m.smallest_key), lo),
        bytes::lex_le(hi, greater(hi, m.largest_key)),
{
    bytes::lemma_lex_not_lt(m.smallest_key, lo);
    bytes::lemma_lex_not_lt(hi, m.largest_key);
}

proof fn lemma_absorb(
    upper: Seq<SstFileMetaView>,
    level: Seq<SstFileMetaView>,
    taken: Seq<bool>,
    lo: Seq<u8>,
    hi: Seq<u8>,
    i: int,
)
    requires
        absorbed(upper, level, taken, lo, hi),
        0 <= i < level.len(),
        overlaps(level[i], lo, hi),
    ensures
        absorbed(
            upper,
            level,
            taken.update(i, true),
            lesser(lo, level[i].smallest_key),
            greater(hi, level[i].largest_key),
        ),
{
    let m = level[i];
    let lo2 = lesser(lo, m.smallest_key);
    let hi2 = greater(hi, m.largest_key);
    lemma_bounds(m, lo, hi);
    assert forall|k: int| 0 <= k < upper.len() implies within(#[trigger] upper[k], lo2, hi2) by {
        lemma_within_wider(upper[k], lo, hi, lo2, hi2);
    }
    let t2 = taken.update(i, true);
    assert forall|k: int| 0 <= k < level.len() && #[trigger] t2[k] implies within(
        level[k],
        lo2,
        hi2,
    ) by {
        if k != i {
            assert(taken[k]);
            lemma_within_wider(level[k], lo, hi, lo2, hi2);
        }
    }
    assert forall|a: Seq<u8>, b: Seq<u8>| #[trigger]
        is_cut(upper, level, a, b) implies bytes::lex_le(a, lo2) && bytes::lex_le(hi2, b) by {
        bytes::lemma_lex_le_transitive(a, lo, m.largest_key);
        bytes::lemma_lex_le_transitive(m.smallest_key, hi, b);
        assert(overlaps(level[i], a, b));
    }
}

proof fn lemma_cut_found(
    upper: Seq<SstFileMetaView>,
    level: Seq<SstFileMetaView>,
    lo: Seq<u8>,
    hi: Seq<u8>,
)
    requires
        is_least_cut(upper, level, lo, hi),
    ensures
        cut_files(upper, level) == level.filter(|m: SstFileMetaView| overlaps(m, lo, hi)),
{
    let (a, b) = choose|a: Seq<u8>, b: Seq<u8>| is_least_cut(upper, level, a, b);
    assert(is_least_cut(upper, level, a, b));
    law_least_cut_is_unique(upper, level, lo, hi, a, b);
}

/// The files of a level that must be merged along with `upper_files`: those
/// that their key range meets, and then those that the range so widened meets.
pub fn overlap_scoped_clean_cut(upper_files: &[SstFileMeta], level_files: Vec<SstFileMeta>) -> (r:
    Vec<SstFileMeta>)
    requires
        upper_files@.len() > 0,
    ensures
        version::metas_view(r@) == cut_files(
            version::metas_view(upper_files@),
            version::metas_view(level_files@),
        ),
        exists|lo: Seq<u8>, hi: Seq<u8>| #[trigger]
            is_least_cut(
                version::metas_view(upper_files@),
                version::metas_view(level_files@),
                lo,
                hi,
            ) && version::metas_view(r@) == version::metas_view(level_files@).filter(
                |m: SstFileMetaView| overlaps(m, lo, hi),
            ),
{
    let ghost upper = version::metas_view(upper_files@);
    let ghost level = version::metas_view(level_files@);
    let mut lo: &Vec<u8> = &upper_files[0].smallest_key;
    let mut hi: &Vec<u8> = &upper_files[0].largest_key;
    let mut i: usize = 0;
    assert(inner(upper, level, lo@, hi@)) by {
        assert forall|a: Seq<u8>, b: Seq<u8>| #[trigger]
            is_cut(upper, level, a, b) implies bytes::lex_le(a, lo@) && bytes::lex_le(hi@, b) by {
            assert(within(upper[0], a, b));
        }
    }
    while i < upper_files.len()
        invariant
            i <= upper_files@.len(),
            upper == version::metas_view(upper_files@),
            inner(upper, level, lo@, hi@),
            forall|k: int| 0 <= k < i ==> within(#[trigger] upper[k], lo@, hi@),
        decreases upper_files@.len() - i,
    {
        let f: &SstFileMeta = &upper_files[i];
        let ghost old_lo = lo@;
        let ghost old_hi = hi@;
        if bytes_less(f.smallest_key.as_slice(), lo.as_slice()) {
            lo = &f.smallest_key;
        }
        if bytes_less(hi.as_slice(), f.largest_key.as_slice()) {
            hi = &f.largest_key;
        }
        proof {
            let m = upper[i as int];
            assert(lo@ == lesser(old_lo, m.smallest_key));
            assert(hi@ == greater(old_hi, m.largest_key));
            lemma_bounds(m, old_lo, old_hi);
            assert forall|k: int| 0 <= k < i + 1 implies within(#[trigger] upper[k], lo@, hi@) by {
                if k < i {
                    lemma_within_wider(upper[k], old_lo, old_hi, lo@, hi@);
                }
            }
            assert forall|a: Seq<u8>, b: Seq<u8>| #[trigger]
                is_cut(upper, level, a, b) implies bytes::lex_le(a, lo@) && bytes::lex_le(
                hi@,
                b,
            ) by {
                assert(within(upper[i as int], a, b));
            }
        }
        i += 1;
    }
    let mut selected: Vec<bool> = Vec::new();
    let mut k: usize = 0;
    while k < level_files.len()
        invariant
            k <= level_files@.len(),
            selected@.len() == k,
            forall|q: int| 0 <= q < k ==> !#[trigger] selected@[q],
        decreases level_files@.len() - k,
    {
        selected.push(false);
        k += 1;
    }
    let mut grew: bool = true;
    while grew
        invariant
            level == version::metas_view(level_files@),
            absorbed(upper, level, selected@, lo@, hi@),
            !grew ==> forall|q: int|
                0 <= q < level.len() && !#[trigger] selected@[q] ==> !overlaps(level[q], lo@, hi@),
        decreases untaken(selected@), (if grew { 1int } else { 0int }),
    {
        grew = false;
        let ghost start = selected@;
        let mut j: usize = 0;
        while j < level_files.len()
            invariant
                j <= level_files@.len(),
                level == version::metas_view(level_files@),
                absorbed(upper, level, selected@, lo@, hi@),
                grew ==> untaken(selected@) < untaken(start),
                !grew ==> selected@ == start,
                !grew ==> forall|q: int|
                    0 <= q < j && !#[trigger] selected@[q] ==> !overlaps(level[q], lo@, hi@),
            decreases level_files@.len() - j,
        {
            if !selected[j] {
                let f: &SstFileMeta = &level_files[j];
                if meets(f, lo, hi) {
                    proof {
                        lemma_absorb(upper, level, selected@, lo@, hi@, j as int);
                        lemma_untaken(selected@, j as int);
                    }
                    selected.set(j, true);
                    if bytes_less(f.smallest_key.as_slice(), lo.as_slice()) {
                        lo = &f.smallest_key;
                    }
                    if bytes_less(hi.as_slice(), f.largest_key.as_slice()) {
                        hi = &f.largest_key;
                    }
                    grew = true;
                }
            }
            j += 1;
        }
    }
    proof {
        assert forall|q: int|
            0 <= q < level.len() && overlaps(#[trigger] level[q], lo@, hi@) implies within(
            level[q],
            lo@,
            hi@,
        ) by {
            assert(selected@[q]);
        }
        assert(is_least_cut(upper, level, lo@, hi@));
        lemma_cut_found(upper, level, lo@, hi@);
    }
    files_meeting(&level_files, lo, hi)
}

/// The level that level 0 compacts into when the sizes of the levels follow
/// that of the last level, `bottom`: the lowest number of divisions by the
/// growth factor that takes the last level's size to that of level 1 or below
/// gives the distance. `above` says of a number of divisions whether the
/// quotient is still above the size of level 1.
pub fn compute_base_level<F: Fn(u32) -> bool>(s_bottom: u64, bottom: u32, above: F) -> (r: u32)
    requires
        forall|k: u32| call_requires(above, (k,)),
    ensures
        bottom <= 1 ==> r == 1,
        bottom > 1 && s_bottom == 0 ==> r == bottom,
        bottom > 1 && s_bottom > 0 ==> {
            &&& 1 <= r <= bottom
            &&& forall|k: u32| k < bottom - r ==> #[trigger] call_ensures(above, (k,), true)
            &&& r > 1 ==> call_ensures(above, ((bottom - r) as u32,), false)
        },
{
    if bottom <= 1 {
        return 1;
    }
    if s_bottom == 0 {
        return bottom;
    }
    let mut level: u32 = bottom;
    while level > 1
        invariant
            1 <= level <= bottom,
            bottom > 1,
            s_bottom > 0,
            forall|k: u32| call_requires(above, (k,)),
            forall|k: u32| k < bottom - level ==> #[trigger] call_ensures(above, (k,), true),
        decreases level,
    {
        let divisions: u32 = bottom - level;
        if !above(divisions) {
            return level;
        }
        level -= 1;
    }
    level
}

/// The number of levels from `level` to `bottom`.
pub open spec fn levels_between(level: u32, bottom: u32) -> u32 {
    if level < bottom {
        (bottom - level) as u32
    } else {
        0
    }
}

/// The size at which `level` is due when the sizes of the levels follow that of
/// the last level, `bottom`: the last level's size divided by the growth factor
/// once for each level between, but at least 1. `divided` gives the quotient.
pub fn dynamic_level_target<F: Fn(u64, u32) -> u64>(
    s_bottom: u64,
    bottom: u32,
    level: u32,
    divided: F,
) -> (r: u64)
    requires
        forall|size: u64, k: u32| call_requires(divided, (size, k)),
    ensures
        exists|t: u64| #[trigger]
            call_ensures(divided, (s_bottom, levels_between(level, bottom)), t) && r == if t == 0 {
                1
            } else {
                t
            },
{
    let t: u64 = divided(s_bottom, bottom.saturating_sub(level));
    if t == 0 {
        1
    } else {
        t
    }
}

/// The size of a file with its tombstones weighed in: each counts as two
/// average entries.
pub fn compensated_file_size(file_size: u64, num_entries: u64, tombstone_count: u64) -> (r: u64)
    ensures
        r == compensated(file_size, num_entries, tombstone_count),
{
    if num_entries == 0 || tombstone_count == 0 {
        return file_size;
    }
    let avg: u64 = file_size / num_entries;
    let twice: u128 = 2 * (avg as u128);
    let max: u128 = u64::MAX as u128;
    proof {
        assert(tombstone_count * twice <= 0xffff_ffff_ffff_ffff * (2 * 0xffff_ffff_ffff_ffff))
            by (nonlinear_arith)
            requires
                tombstone_count <= 0xffff_ffff_ffff_ffff,
                twice <= 2 * 0xffff_ffff_ffff_ffff,
        ;
        assert(tombstone_count * (2 * avg) == tombstone_count * twice);
        assert(twice > max ==> tombstone_count * twice > max) by (nonlinear_arith)
            requires
                tombstone_count >= 1,
        ;
    }
    if twice > max {
        return u64::MAX;
    }
    assert(tombstone_count * twice <= 0xffff_ffff_ffff_ffff * 0xffff_ffff_ffff_ffff)
        by (nonlinear_arith)
        requires
            tombstone_count <= 0xffff_ffff_ffff_ffff,
            twice <= 0xffff_ffff_ffff_ffff,
    ;
    let extra: u128 = (tombstone_count as u128) * twice;
    if extra > max - file_size as u128 {
        u64::MAX
    } else {
        file_size + extra as u64
    }
}

/// The size of a file with its tombstones weighed in, at most the largest
/// number of 64 bits.
pub open spec fn compensated(file_size: u64, num_entries: u64, tombstones: u64) -> u64 {
    if num_entries == 0 || tombstones == 0 {
        file_size
    } else {
        let total = file_size + tombstones * (2 * (file_size / num_entries));
        if total > u64::MAX {
            u64::MAX
        } else {
            total as u64
        }
    }
}

/// `files[i]` is before `files[j]` by smallest key; equal ones stay in order.
pub open spec fn ranked_before(files: Seq<SstFileMetaView>, i: int, j: int) -> bool {
    bytes::lex_lt(files[i].smallest_key, files[j].smallest_key) || files[i].smallest_key
        == files[j].smallest_key && i < j
}

/// Taken by smallest key, each file ends before the next begins.
pub open spec fn disjoint(files: Seq<SstFileMetaView>) -> bool {
    forall|i: int, j: int|
        0 <= i < files.len() && 0 <= j < files.len() && i != j && #[trigger] ranked_before(
            files,
            i,
            j,
        ) ==> bytes::lex_lt(files[i].largest_key, files[j].smallest_key)
}

/// Of files that begin before they end, the disjoint ones are those of which
/// no two share a key range.
pub proof fn law_disjoint_means_no_overlap(files: Seq<SstFileMetaView>)
    requires
        forall|i: int|
            0 <= i < files.len() ==> bytes::lex_le(
                (#[trigger] files[i]).smallest_key,
                files[i].largest_key,
            ),
    ensures
        disjoint(files) <==> forall|i: int, j: int|
            0 <= i < files.len() && 0 <= j < files.len() && i != j ==> !#[trigger] overlaps(
                files[i],
                files[j].smallest_key,
                files[j].largest_key,
            ),
{
    assert forall|i: int, j: int|
        0 <= i < files.len() && 0 <= j < files.len() && i != j && disjoint(
            files,
        ) implies !#[trigger] overlaps(files[i], files[j].smallest_key, files[j].largest_key) by {
        bytes::lemma_lex_total(files[i].smallest_key, files[j].smallest_key);
        bytes::lemma_lex_not_lt(files[i].largest_key, files[j].smallest_key);
        bytes::lemma_lex_not_lt(files[j].largest_key, files[i].smallest_key);
        assert(ranked_before(files, i, j) || ranked_before(files, j, i));
    }
    if forall|i: int, j: int|
        0 <= i < files.len() && 0 <= j < files.len() && i != j ==> !#[trigger] overlaps(
            files[i],
            files[j].smallest_key,
            files[j].largest_key,
        ) {
        assert forall|i: int, j: int|
            0 <= i < files.len() && 0 <= j < files.len() && i != j && #[trigger] ranked_before(
                files,
                i,
                j,
            ) implies bytes::lex_lt(files[i].largest_key, files[j].smallest_key) by {
            assert(!overlaps(files[i], files[j].smallest_key, files[j].largest_key));
            bytes::lemma_lex_not_lt(files[i].largest_key, files[j].smallest_key);
            bytes::lemma_lex_le_transitive(
                files[i].smallest_key,
                files[j].smallest_key,
                files[j].largest_key,
            );
        }
    }
}

/// Whether each file, taken by smallest key, ends before the next begins.
pub fn sst_metas_mutually_disjoint(files: &[SstFileMeta]) -> (r: bool)
    ensures
        r == disjoint(version::metas_view(files@)),
{
    let ghost v = version::metas_view(files@);
    let mut i: usize = 0;
    while i < files.len()
        invariant
            i <= files@.len(),
            v == version::metas_view(files@),
            forall|a: int, b: int|
                0 <= a < i && 0 <= b < v.len() && a != b && #[trigger] ranked_before(v, a, b)
                    ==> bytes::lex_lt(v[a].largest_key, v[b].smallest_key),
        decreases files@.len() - i,
    {
        let mut j: usize = 0;
        while j < files.len()
            invariant
                i < files@.len(),
                j <= files@.len(),
                v == version::metas_view(files@),
                forall|b: int|
                    0 <= b < j && i != b && #[trigger] ranked_before(v, i as int, b)
                        ==> bytes::lex_lt(v[i as int].largest_key, v[b].smallest_key),
            decreases files@.len() - j,
        {
            if i != j {
                let first: bool = bytes_less(
                    files[i].smallest_key.as_slice(),
                    files[j].smallest_key.as_slice(),
                );
                let second: bool = bytes_less(
                    files[j].smallest_key.as_slice(),
                    files[i].smallest_key.as_slice(),
                );
                proof {
                    bytes::lemma_lex_total(v[i as int].smallest_key, v[j as int].smallest_key);
                    bytes::lemma_lex_irreflexive(v[i as int].smallest_key);
                    if second {
                        bytes::lemma_lex_asymmetric(
                            v[j as int].smallest_key,
                            v[i as int].smallest_key,
                        );
                    }
                    assert(ranked_before(v, i as int, j as int) == (first || !second && i < j));
                }
                if (first || !second && i < j) && !bytes_less(
                    files[i].largest_key.as_slice(),
                    files[j].smallest_key.as_slice(),
                ) {
                    return false;
                }
            }
            j += 1;
        }
        i += 1;
    }
    true
}

/// A way to choose what to compact.
pub trait CompactionPolicy {
    /// The compaction of the files of level 0 into `output_level`.
    fn pick_l0_rollup<F: Fn(FileNumber) -> u64>(
        &self,
        v: &Version,
        cf: ColumnFamilyId,
        output_level: u32,
        ctx: &PolicyCtx<F>,
    ) -> (r: Option<CompactionDecision>)
        requires
            family_files(*v, 0, cf).len() > 0 ==> output_level < v.levels@.len(),
    ;

    /// The compaction of some files of `level` into the next level.
    fn pick_level_descent<F: Fn(FileNumber) -> u64>(
        &self,
        v: &Version,
        cf: ColumnFamilyId,
        level: u32,
        ctx: &PolicyCtx<F>,
    ) -> (r: Option<CompactionDecision>)
        requires
            ctx.dynamic_levels ==> forall|n: FileNumber| call_requires(ctx.tombstones, (n,)),
            ctx.dynamic_levels ==> overlaps_fit(
                family_files(*v, level as int, cf),
                family_files(*v, level + 1, cf),
            ),
    ;

    fn kind(&self) -> CompactionPolicyKind;
}

/// The policy that keeps each level below the first a sorted run of disjoint
/// files.
#[derive(Debug, Default, Clone, Copy)]
pub struct SortedRunPolicy;

/// The files as inputs at `level`.
pub open spec fn at_level(files: Seq<SstFileMetaView>, level: u32) -> Seq<(u32, SstFileMetaView)> {
    Seq::new(files.len(), |i: int| (level, files[i]))
}

/// Every level from `from` on but `except` is empty.
pub open spec fn empty_from(v: Version, from: int, except: int) -> bool {
    forall|l: int|
        from <= l < v.levels@.len() && l != except ==> (#[trigger] v.levels@[l]).files@.len() == 0
}

/// What is decided about level 0.
pub open spec fn rollup(
    v: Version,
    cf: ColumnFamilyId,
    output_level: u32,
    trivial_move: bool,
    filter_active: bool,
) -> Option<DecisionView> {
    let files = family_files(v, 0, cf);
    let below = cut_files(files, family_files(v, output_level as int, cf));
    if files.len() == 0 {
        None
    } else if trivial_move && !filter_active && below.len() == 0 && disjoint(files) {
        Some(DecisionView::TrivialMove { files, from_level: 0, to_level: output_level })
    } else {
        Some(
            DecisionView::Merge {
                inputs: at_level(files, 0) + at_level(below, output_level),
                output_level,
                is_bottommost: empty_from(v, 1, output_level as int),
            },
        )
    }
}

/// The bytes of the files of `below` whose key range meets that of `m`.
pub open spec fn overlap_bytes(below: Seq<SstFileMetaView>, m: SstFileMetaView) -> nat {
    total_size(below.filter(|d: SstFileMetaView| overlaps(d, m.smallest_key, m.largest_key)))
}

/// The sum of the sizes.
pub open spec fn total_size(files: Seq<SstFileMetaView>) -> nat
    decreases files.len(),
{
    if files.len() == 0 {
        0
    } else {
        total_size(files.drop_last()) + files.last().file_size as nat
    }
}

/// Where there are files to choose from, the overlaps can be summed up.
pub open spec fn overlaps_fit(files: Seq<SstFileMetaView>, below: Seq<SstFileMetaView>) -> bool {
    files.len() > 1 ==> forall|i: int|
        0 <= i < files.len() ==> overlap_bytes(below, #[trigger] files[i]) <= u64::MAX
}

/// The weight of a file: its compensated size, at least 1.
pub open spec fn weight(m: SstFileMetaView, tombstones: u64) -> nat {
    let c = compensated(m.file_size, m.num_entries, tombstones);
    if c == 0 {
        1
    } else {
        c as nat
    }
}

/// `files[i]` has no more overlap for its weight than `files[j]`.
pub open spec fn no_heavier(overlap: Seq<nat>, weights: Seq<nat>, i: int, j: int) -> bool {
    overlap[i] * weights[j] <= overlap[j] * weights[i]
}

/// `i` is the first with the least overlap for its weight.
pub open spec fn is_first_least(overlap: Seq<nat>, weights: Seq<nat>, i: int) -> bool {
    &&& 0 <= i < overlap.len()
    &&& forall|j: int| 0 <= j < overlap.len() ==> #[trigger] no_heavier(overlap, weights, i, j)
    &&& forall|j: int| 0 <= j < i ==> !#[trigger] no_heavier(overlap, weights, j, i)
}

/// `i` is the file to take from `files`, whose numbers of tombstones are
/// `counts`, into a level with the files `below`.
pub open spec fn is_source(
    files: Seq<SstFileMetaView>,
    below: Seq<SstFileMetaView>,
    dynamic: bool,
    counts: Seq<u64>,
    i: int,
) -> bool {
    if dynamic {
        is_first_least(
            Seq::new(files.len(), |k: int| overlap_bytes(below, files[k])),
            Seq::new(files.len(), |k: int| weight(files[k], counts[k])),
            i,
        )
    } else {
        i == 0
    }
}

/// What is decided about a level below the first, of which `source` is taken.
pub open spec fn descent(
    v: Version,
    cf: ColumnFamilyId,
    level: u32,
    trivial_move: bool,
    filter_active: bool,
    source: SstFileMetaView,
) -> DecisionView {
    let below = family_files(v, level + 1, cf).filter(
        |d: SstFileMetaView| overlaps(d, source.smallest_key, source.largest_key),
    );
    let next = (level + 1) as u32;
    if trivial_move && !filter_active && below.len() == 0 {
        DecisionView::TrivialMove { files: seq![source], from_level: level, to_level: next }
    } else {
        DecisionView::Merge {
            inputs: seq![(level, source)] + at_level(below, next),
            output_level: next,
            is_bottommost: empty_from(v, level + 2, -1),
        }
    }
}

/// `counts` are numbers of tombstones that `tombstones` may give for `files`.
pub open spec fn counted<F: Fn(FileNumber) -> u64>(
    tombstones: F,
    files: Seq<SstFileMetaView>,
    counts: Seq<u64>,
) -> bool {
    &&& counts.len() == files.len()
    &&& forall|i: int|
        0 <= i < files.len() ==> call_ensures(
            tombstones,
            (files[i].file_number,),
            #[trigger] counts[i],
        )
}

/// `counts` are what the choice among `files` goes by; the first file is taken
/// without any.
pub open spec fn goes_by<F: Fn(FileNumber) -> u64>(
    dynamic: bool,
    tombstones: F,
    files: Seq<SstFileMetaView>,
    counts: Seq<u64>,
) -> bool {
    if dynamic {
        counted(tombstones, files, counts)
    } else {
        counts.len() == 0
    }
}

proof fn lemma_size_filter(files: Seq<SstFileMetaView>, p: spec_fn(SstFileMetaView) -> bool, i: int)
    requires
        0 <= i <= files.len(),
    ensures
        total_size(files.take(i).filter(p)) <= total_size(files.filter(p)),
    decreases files.len() - i,
{
    if i < files.len() {
        lemma_filter_next(files, p, i);
        lemma_size_filter(files, p, i + 1);
        let t = files.take(i).filter(p);
        assert(t.push(files[i]).drop_last() =~= t);
    } else {
        assert(files.take(i) =~= files);
    }
}

/// The sum of the sizes of the files whose key range meets that of `m`.
fn sum_overlap(below: &Vec<SstFileMeta>, m: &SstFileMeta) -> (r: u64)
    requires
        overlap_bytes(version::metas_view(below@), m@) <= u64::MAX,
    ensures
        r == overlap_bytes(version::metas_view(below@), m@),
{
    let ghost all = version::metas_view(below@);
    let ghost p = |d: SstFileMetaView| overlaps(d, m.smallest_key@, m.largest_key@);
    let mut sum: u64 = 0;
    let mut i: usize = 0;
    proof {
        reveal(Seq::filter);
        assert(all.take(0).filter(p) =~= Seq::<SstFileMetaView>::empty());
    }
    while i < below.len()
        invariant
            i <= below@.len(),
            all == version::metas_view(below@),
            p == (|d: SstFileMetaView| overlaps(d, m.smallest_key@, m.largest_key@)),
            total_size(all.filter(p)) <= u64::MAX,
            sum == total_size(all.take(i as int).filter(p)),
        decreases below@.len() - i,
    {
        proof {
            lemma_filter_next(all, p, i as int);
            lemma_size_filter(all, p, i + 1);
            let t = all.take(i as int).filter(p);
            assert(t.push(all[i as int]).drop_last() =~= t);
        }
        if meets(&below[i], &m.smallest_key, &m.largest_key) {
            sum += below[i].file_size;
        }
        i += 1;
    }
    assert(all.take(i as int) =~= all);
    sum
}

/// Less overlap for the weight than `b` and `b` no more than `c`: less than
/// `c`.
proof fn lemma_ratio_transitive(oa: nat, wa: nat, ob: nat, wb: nat, oc: nat, wc: nat)
    requires
        wa > 0,
        wb > 0,
        wc > 0,
        oa * wb <= ob * wa,
        ob * wc <= oc * wb,
    ensures
        oa * wc <= oc * wa,
        oa * wb < ob * wa ==> oa * wc < oc * wa,
{
    assert((oa * wb) * wc <= (ob * wa) * wc) by (nonlinear_arith)
        requires
            oa * wb <= ob * wa,
    ;
    assert((ob * wc) * wa <= (oc * wb) * wa) by (nonlinear_arith)
        requires
            ob * wc <= oc * wb,
    ;
    assert((ob * wa) * wc == (ob * wc) * wa) by (nonlinear_arith);
    assert((oa * wb) * wc == (oa * wc) * wb) by (nonlinear_arith);
    assert((oc * wb) * wa == (oc * wa) * wb) by (nonlinear_arith);
    assert(oa * wc <= oc * wa) by (nonlinear_arith)
        requires
            (oa * wc) * wb <= (oc * wa) * wb,
            wb > 0,
    ;
    if oa * wb < ob * wa {
        assert((oa * wb) * wc < (ob * wa) * wc) by (nonlinear_arith)
            requires
                oa * wb < ob * wa,
                wc > 0,
        ;
        assert(oa * wc < oc * wa) by (nonlinear_arith)
            requires
                (oa * wc) * wb < (oc * wa) * wb,
                wb > 0,
        ;
    }
}

/// The first of the files with the least overlap for its weight.
fn pick_source(files: &Vec<SstFileMeta>, below: &Vec<SstFileMeta>, counts: &Vec<u64>) -> (r: usize)
    requires
        files@.len() > 0,
        counts@.len() == files@.len(),
        overlaps_fit(version::metas_view(files@), version::metas_view(below@)),
    ensures
        is_source(
            version::metas_view(files@),
            version::metas_view(below@),
            true,
            counts@,
            r as int,
        ),
{
    let ghost fv = version::metas_view(files@);
    let ghost bv = version::metas_view(below@);
    let ghost os = Seq::new(fv.len(), |k: int| overlap_bytes(bv, fv[k]));
    let ghost ws = Seq::new(fv.len(), |k: int| weight(fv[k], counts@[k]));
    if files.len() == 1 {
        return 0;
    }
    assert(overlap_bytes(bv, fv[0]) <= u64::MAX);
    let mut best: usize = 0;
    let mut best_overlap: u64 = sum_overlap(below, &files[0]);
    let mut best_size: u64 = compensated_file_size(
        files[0].file_size,
        files[0].num_entries,
        counts[0],
    );
    if best_size == 0 {
        best_size = 1;
    }
    let mut i: usize = 1;
    while i < files.len()
        invariant
            files@.len() > 1,
            1 <= i <= files@.len(),
            best < i,
            counts@.len() == files@.len(),
            fv == version::metas_view(files@),
            bv == version::metas_view(below@),
            os == Seq::new(fv.len(), |k: int| overlap_bytes(bv, fv[k])),
            ws == Seq::new(fv.len(), |k: int| weight(fv[k], counts@[k])),
            overlaps_fit(fv, bv),
            best_overlap == os[best as int],
            best_size == ws[best as int],
            best_size > 0,
            forall|j: int| 0 <= j < i ==> #[trigger] no_heavier(os, ws, best as int, j),
            forall|j: int| 0 <= j < best ==> !#[trigger] no_heavier(os, ws, j, best as int),
        decreases files@.len() - i,
    {
        assert(overlap_bytes(bv, fv[i as int]) <= u64::MAX);
        let overlap: u64 = sum_overlap(below, &files[i]);
        let mut size: u64 = compensated_file_size(
            files[i].file_size,
            files[i].num_entries,
            counts[i],
        );
        if size == 0 {
            size = 1;
        }
        proof {
            assert(best_overlap * size <= u64::MAX * u64::MAX) by (nonlinear_arith)
                requires
                    best_overlap <= u64::MAX,
                    size <= u64::MAX,
            ;
            assert(overlap * best_size <= u64::MAX * u64::MAX) by (nonlinear_arith)
                requires
                    overlap <= u64::MAX,
                    best_size <= u64::MAX,
            ;
        }
        let ghost old_best = best as int;
        let ghost at = i as int;
        if (overlap as u128) * (best_size as u128) < (best_overlap as u128) * (size as u128) {
            best = i;
            best_overlap = overlap;
            best_size = size;
            proof {
                assert(!no_heavier(os, ws, old_best, at));
                assert forall|j: int| 0 <= j < at implies #[trigger] no_heavier(os, ws, at, j) by {
                    assert(no_heavier(os, ws, old_best, j));
                    lemma_ratio_transitive(
                        os[at],
                        ws[at],
                        os[old_best],
                        ws[old_best],
                        os[j],
                        ws[j],
                    );
                }
                assert forall|j: int| 0 <= j < at implies !#[trigger] no_heavier(os, ws, j, at) by {
                    assert(no_heavier(os, ws, old_best, j));
                    lemma_ratio_transitive(
                        os[at],
                        ws[at],
                        os[old_best],
                        ws[old_best],
                        os[j],
                        ws[j],
                    );
                }
            }
        } else {
            assert(no_heavier(os, ws, best as int, at));
        }
        i += 1;
    }
    best
}

/// Whether every level from `from` on but `except` is empty.
fn is_empty_from(v: &Version, from: usize, except: Option<usize>) -> (r: bool)
    requires
        from <= v.levels@.len(),
    ensures
        r == empty_from(
            *v,
            from as int,
            match except {
                Some(e) => e as int,
                None => -1,
            },
        ),
{
    let mut l: usize = from;
    while l < v.levels.len()
        invariant
            from <= l <= v.levels@.len(),
            forall|k: int|
                from <= k < l && (except matches Some(e) ==> k != e) ==> (
                #[trigger] v.levels@[k]).files@.len() == 0,
        decreases v.levels@.len() - l,
    {
        let skip: bool = match except {
            Some(e) => e == l,
            None => false,
        };
        if !skip && v.levels[l].files.len() > 0 {
            return false;
        }
        l += 1;
    }
    true
}

/// Appends files as inputs at `level`.
fn add_inputs(inputs: &mut Vec<(u32, SstFileMeta)>, level: u32, files: &Vec<SstFileMeta>)
    ensures
        version::leveled_metas(final(inputs)@) == version::leveled_metas(old(inputs)@) + at_level(
            version::metas_view(files@),
            level,
        ),
{
    let ghost start = version::leveled_metas(inputs@);
    let ghost all = at_level(version::metas_view(files@), level);
    let mut i: usize = 0;
    assert(start + all.take(0) =~= start);
    while i < files.len()
        invariant
            i <= files@.len(),
            all == at_level(version::metas_view(files@), level),
            version::leveled_metas(inputs@) == start + all.take(i as int),
        decreases files@.len() - i,
    {
        let ghost before = inputs@;
        let m: SstFileMeta = files[i].duplicate();
        let ghost mv = m@;
        inputs.push((level, m));
        i += 1;
        proof {
            assert(version::leveled_metas(inputs@) =~= version::leveled_metas(before).push(
                (level, mv),
            ));
            assert(version::leveled_metas(inputs@) =~= start + all.take(i as int));
        }
    }
    assert(all.take(i as int) =~= all);
}

impl CompactionPolicy for SortedRunPolicy {
    fn pick_l0_rollup<F: Fn(FileNumber) -> u64>(
        &self,
        v: &Version,
        cf: ColumnFamilyId,
        output_level: u32,
        ctx: &PolicyCtx<F>,
    ) -> (r: Option<CompactionDecision>)
        ensures
            match r {
                Some(d) => rollup(
                    *v,
                    cf,
                    output_level,
                    ctx.trivial_move,
                    ctx.compaction_filter_active,
                ) == Some(d@),
                None => rollup(
                    *v,
                    cf,
                    output_level,
                    ctx.trivial_move,
                    ctx.compaction_filter_active,
                ) is None,
            },
    {
        if v.levels.len() == 0 {
            proof {
                reveal(Seq::filter);
            }
            return None;
        }
        let l0_files: Vec<SstFileMeta> = files_of(&v.levels[0].files, cf);
        assert(version::metas_view(l0_files@) == family_files(*v, 0, cf));
        if l0_files.len() == 0 {
            return None;
        }
        let level: usize = output_level as usize;
        let cf_out: Vec<SstFileMeta> = files_of(&v.levels[level].files, cf);
        assert(version::metas_view(cf_out@) == family_files(*v, level as int, cf));
        let below: Vec<SstFileMeta> = overlap_scoped_clean_cut(l0_files.as_slice(), cf_out);
        if ctx.trivial_move && !ctx.compaction_filter_active && below.len() == 0
            && sst_metas_mutually_disjoint(l0_files.as_slice()) {
            return Some(
                CompactionDecision::TrivialMove {
                    files: l0_files,
                    from_level: 0,
                    to_level: output_level,
                },
            );
        }
        let is_bottommost: bool = is_empty_from(v, 1, Some(level));
        let mut inputs: Vec<(u32, SstFileMeta)> = Vec::new();
        assert(version::leveled_metas(inputs@) =~= Seq::<(u32, SstFileMetaView)>::empty());
        add_inputs(&mut inputs, 0, &l0_files);
        add_inputs(&mut inputs, output_level, &below);
        proof {
            let none = Seq::<(u32, SstFileMetaView)>::empty();
            let first = at_level(version::metas_view(l0_files@), 0);
            assert(none + first =~= first);
        }
        Some(CompactionDecision::Merge(CompactionPlan { inputs, output_level, is_bottommost }))
    }

    fn pick_level_descent<F: Fn(FileNumber) -> u64>(
        &self,
        v: &Version,
        cf: ColumnFamilyId,
        level: u32,
        ctx: &PolicyCtx<F>,
    ) -> (r: Option<CompactionDecision>)
        ensures
            r is None <==> family_files(*v, level as int, cf).len() == 0 || level + 1
                >= v.levels@.len(),
            r matches Some(d) ==> exists|counts: Seq<u64>, i: int|
                #![trigger goes_by(ctx.dynamic_levels, ctx.tombstones, family_files(*v, level as int, cf), counts), family_files(*v, level as int, cf)[i]]
                goes_by(
                    ctx.dynamic_levels,
                    ctx.tombstones,
                    family_files(*v, level as int, cf),
                    counts,
                ) && is_source(
                    family_files(*v, level as int, cf),
                    family_files(*v, level + 1, cf),
                    ctx.dynamic_levels,
                    counts,
                    i,
                ) && d@ == descent(
                    *v,
                    cf,
                    level,
                    ctx.trivial_move,
                    ctx.compaction_filter_active,
                    family_files(*v, level as int, cf)[i],
                ),
    {
        let level_idx: usize = level as usize;
        if level_idx >= v.levels.len() {
            return None;
        }
        let sources: Vec<SstFileMeta> = files_of(&v.levels[level_idx].files, cf);
        let ghost sv = family_files(*v, level as int, cf);
        assert(version::metas_view(sources@) == sv);
        if sources.len() == 0 {
            return None;
        }
        let next_level: usize = level_idx + 1;
        if next_level >= v.levels.len() {
            return None;
        }
        let candidates: Vec<SstFileMeta> = files_of(&v.levels[next_level].files, cf);
        assert(version::metas_view(candidates@) == family_files(*v, level + 1, cf));
        let mut pick: usize = 0;
        let ghost mut counted_by: Seq<u64> = Seq::empty();
        if ctx.dynamic_levels {
            let mut counts: Vec<u64> = Vec::new();
            let mut k: usize = 0;
            while k < sources.len()
                invariant
                    k <= sources@.len(),
                    sv == version::metas_view(sources@),
                    counts@.len() == k,
                    forall|n: FileNumber| call_requires(ctx.tombstones, (n,)),
                    forall|j: int|
                        0 <= j < k ==> call_ensures(
                            ctx.tombstones,
                            (sv[j].file_number,),
                            #[trigger] counts@[j],
                        ),
                decreases sources@.len() - k,
            {
                let n: u64 = (ctx.tombstones)(sources[k].file_number);
                counts.push(n);
                k += 1;
            }
            pick = pick_source(&sources, &candidates, &counts);
            proof {
                counted_by = counts@;
            }
        }
        let source: SstFileMeta = sources[pick].duplicate();
        assert(source@ == sv[pick as int]);
        assert(goes_by(ctx.dynamic_levels, ctx.tombstones, sv, counted_by));
        let below: Vec<SstFileMeta> = files_meeting(
            &candidates,
            &source.smallest_key,
            &source.largest_key,
        );
        let to_level: u32 = next_level as u32;
        if ctx.trivial_move && !ctx.compaction_filter_active && below.len() == 0 {
            let mut files: Vec<SstFileMeta> = Vec::new();
            files.push(source);
            assert(version::metas_view(files@) =~= seq![sv[pick as int]]);
            return Some(
                CompactionDecision::TrivialMove { files, from_level: level, to_level },
            );
        }
        let is_bottommost: bool = is_empty_from(v, next_level + 1, None);
        let mut inputs: Vec<(u32, SstFileMeta)> = Vec::new();
        inputs.push((level, source));
        assert(version::leveled_metas(inputs@) =~= seq![(level, sv[pick as int])]);
        add_inputs(&mut inputs, to_level, &below);
        Some(
            CompactionDecision::Merge(
                CompactionPlan { inputs, output_level: to_level, is_bottommost },
            ),
        )
    }

    fn kind(&self) -> (r: CompactionPolicyKind)
        ensures
            r == CompactionPolicyKind::SortedRun,
    {
        CompactionPolicyKind::SortedRun
    }
}

/// What a filter keeps: the elements of the sequence that satisfy it.
pub(crate) proof fn lemma_filter_members<A>(s: Seq<A>, p: spec_fn(A) -> bool, x: A)
    ensures
        s.filter(p).contains(x) <==> p(x) && s.contains(x),
    decreases s.len(),
{
    reveal(Seq::filter);
    if s.len() > 0 {
        let front = s.drop_last();
        let kept = front.filter(p);
        lemma_filter_members(front, p, x);
        if front.contains(x) {
            let i = front.index_of(x);
            assert(s[i] == x);
        }
        if s.contains(x) && x != s.last() {
            let i = s.index_of(x);
            assert(front[i] == x);
        }
        if p(s.last()) {
            let all = kept.push(s.last());
            assert(s.filter(p) == all);
            if kept.contains(x) {
                let i = kept.index_of(x);
                assert(all[i] == x);
            }
            if x == s.last() {
                assert(all[kept.len() as int] == x);
            }
            if all.contains(x) && x != s.last() {
                let i = all.index_of(x);
                assert(kept[i] == x);
            }
        }
        assert(s[s.len() - 1] == s.last());
    }
}

/// The files of a family at a level are those files of the level, in their order,
/// that belong to the family.
pub proof fn law_family_files_are_those_of_the_level(
    v: Version,
    level: int,
    cf: ColumnFamilyId,
    m: SstFileMetaView,
)
    requires
        0 <= level < v.levels@.len(),
    ensures
        family_files(v, level, cf).contains(m) <==> m.cf_id == cf && exists|i: int|
            0 <= i < v.levels@[level].files@.len() && (#[trigger] v.levels@[level].files@[i])@
                == m,
        v.levels@[level].files@.len() == 0 ==> family_files(v, level, cf).len() == 0,
        v.levels@[level].files@.len() > 0 ==> ({
            let files = v.levels@[level].files@;
            let front = version::metas_view(files.drop_last()).filter(
                |m: SstFileMetaView| m.cf_id == cf,
            );
            family_files(v, level, cf) == if files.last().cf_id == cf {
                front.push(files.last()@)
            } else {
                front
            }
        }),
{
    let files = v.levels@[level].files@;
    let all = version::metas_view(files);
    let p = |m: SstFileMetaView| m.cf_id == cf;
    lemma_filter_members(all, p, m);
    if all.contains(m) {
        let i = all.index_of(m);
        assert(files[i]@ == m);
    }
    if exists|i: int| 0 <= i < files.len() && (#[trigger] files[i])@ == m {
        let i = choose|i: int| 0 <= i < files.len() && (#[trigger] files[i])@ == m;
        assert(all[i] == m);
    }
    reveal(Seq::filter);
    if files.len() > 0 {
        assert(all.drop_last() =~= version::metas_view(files.drop_last()));
    }
}

/// Two key ranges overlap when they share a key.
pub proof fn law_overlap_is_a_shared_key(m: SstFileMetaView, lo: Seq<u8>, hi: Seq<u8>)
    requires
        bytes::lex_le(m.smallest_key, m.largest_key),
        bytes::lex_le(lo, hi),
    ensures
        overlaps(m, lo, hi) <==> exists|key: Seq<u8>|
            #![trigger bytes::lex_le(lo, key)]
            bytes::lex_le(lo, key) && bytes::lex_le(key, hi) && bytes::lex_le(m.smallest_key, key)
                && bytes::lex_le(key, m.largest_key),
{
    if overlaps(m, lo, hi) {
        bytes::lemma_lex_total(lo, m.smallest_key);
        let key = greater(lo, m.smallest_key);
        assert(bytes::lex_le(lo, key));
        assert(bytes::lex_le(key, hi) && bytes::lex_le(m.smallest_key, key) && bytes::lex_le(
            key,
            m.largest_key,
        ));
    }
    if exists|key: Seq<u8>|
        #![trigger bytes::lex_le(lo, key)]
        bytes::lex_le(lo, key) && bytes::lex_le(key, hi) && bytes::lex_le(m.smallest_key, key)
            && bytes::lex_le(key, m.largest_key) {
        let key = choose|key: Seq<u8>|
            #![trigger bytes::lex_le(lo, key)]
            bytes::lex_le(lo, key) && bytes::lex_le(key, hi) && bytes::lex_le(m.smallest_key, key)
                && bytes::lex_le(key, m.largest_key);
        bytes::lemma_lex_le_transitive(lo, key, m.largest_key);
        bytes::lemma_lex_le_transitive(m.smallest_key, key, hi);
    }
}

/// The range of the first `k` files.
proof fn lemma_hull(
    upper: Seq<SstFileMetaView>,
    level: Seq<SstFileMetaView>,
    k: int,
) -> (r: (Seq<u8>, Seq<u8>))
    requires
        0 < k <= upper.len(),
    ensures
        inner(upper, level, r.0, r.1),
        forall|i: int| 0 <= i < k ==> within(#[trigger] upper[i], r.0, r.1),
    decreases k,
{
    let m = upper[k - 1];
    if k == 1 {
        assert forall|a: Seq<u8>, b: Seq<u8>| #[trigger]
            is_cut(upper, level, a, b) implies bytes::lex_le(a, m.smallest_key) && bytes::lex_le(
            m.largest_key,
            b,
        ) by {
            assert(within(upper[0], a, b));
        }
        (m.smallest_key, m.largest_key)
    } else {
        let (lo, hi) = lemma_hull(upper, level, k - 1);
        let lo2 = lesser(lo, m.smallest_key);
        let hi2 = greater(hi, m.largest_key);
        lemma_bounds(m, lo, hi);
        assert forall|i: int| 0 <= i < k implies within(#[trigger] upper[i], lo2, hi2) by {
            if i < k - 1 {
                lemma_within_wider(upper[i], lo, hi, lo2, hi2);
            }
        }
        assert forall|a: Seq<u8>, b: Seq<u8>| #[trigger]
            is_cut(upper, level, a, b) implies bytes::lex_le(a, lo2) && bytes::lex_le(hi2, b) by {
            assert(within(upper[k - 1], a, b));
        }
        (lo2, hi2)
    }
}

/// Taking in what a range meets comes to an end.
proof fn lemma_grown(
    upper: Seq<SstFileMetaView>,
    level: Seq<SstFileMetaView>,
    taken: Seq<bool>,
    lo: Seq<u8>,
    hi: Seq<u8>,
) -> (r: (Seq<u8>, Seq<u8>))
    requires
        absorbed(upper, level, taken, lo, hi),
    ensures
        is_least_cut(upper, level, r.0, r.1),
    decreases untaken(taken),
{
    if exists|i: int| 0 <= i < level.len() && !#[trigger] taken[i] && overlaps(level[i], lo, hi) {
        let i = choose|i: int|
            0 <= i < level.len() && !#[trigger] taken[i] && overlaps(level[i], lo, hi);
        lemma_absorb(upper, level, taken, lo, hi, i);
        lemma_untaken(taken, i);
        lemma_grown(
            upper,
            level,
            taken.update(i, true),
            lesser(lo, level[i].smallest_key),
            greater(hi, level[i].largest_key),
        )
    } else {
        assert forall|q: int|
            0 <= q < level.len() && overlaps(#[trigger] level[q], lo, hi) implies within(
            level[q],
            lo,
            hi,
        ) by {
            assert(taken[q]);
        }
        (lo, hi)
    }
}

proof fn lemma_least_cut_exists(upper: Seq<SstFileMetaView>, level: Seq<SstFileMetaView>) -> (r: (
    Seq<u8>,
    Seq<u8>,
))
    requires
        upper.len() > 0,
    ensures
        is_least_cut(upper, level, r.0, r.1),
        cut_files(upper, level) == level.filter(|m: SstFileMetaView| overlaps(m, r.0, r.1)),
{
    let (lo, hi) = lemma_hull(upper, level, upper.len() as int);
    let none = Seq::new(level.len(), |i: int| false);
    assert(absorbed(upper, level, none, lo, hi));
    let (a, b) = lemma_grown(upper, level, none, lo, hi);
    lemma_cut_found(upper, level, a, b);
    (a, b)
}

/// A cut takes every file of the level whose range meets that of a file above or
/// that of another file that is taken, and no file that a range can do without:
/// what is taken lies in every range that holds the files above and, whole, each
/// file of the level that it meets. Where no file of the level meets the range of
/// the files above, nothing is taken, and else something is.
pub proof fn law_cut_takes_what_overlaps(
    upper: Seq<SstFileMetaView>,
    level: Seq<SstFileMetaView>,
    m: SstFileMetaView,
    other: SstFileMetaView,
    lo: Seq<u8>,
    hi: Seq<u8>,
)
    requires
        upper.len() > 0,
    ensures
        cut_files(upper, level).contains(m) ==> level.contains(m),
        level.contains(m) && (upper.contains(other) || cut_files(upper, level).contains(other))
            && bytes::lex_le(other.smallest_key, m.largest_key) && bytes::lex_le(
            m.smallest_key,
            other.largest_key,
        ) ==> cut_files(upper, level).contains(m),
        cut_files(upper, level).contains(m) && (forall|i: int|
            0 <= i < upper.len() ==> bytes::lex_le(lo, (#[trigger] upper[i]).smallest_key)
                && bytes::lex_le(upper[i].largest_key, hi)) && (forall|i: int|
            0 <= i < level.len() && bytes::lex_le(lo, (#[trigger] level[i]).largest_key)
                && bytes::lex_le(level[i].smallest_key, hi) ==> bytes::lex_le(
                lo,
                level[i].smallest_key,
            ) && bytes::lex_le(level[i].largest_key, hi)) ==> bytes::lex_le(lo, m.largest_key)
            && bytes::lex_le(m.smallest_key, hi),
        (forall|i: int|
            0 <= i < upper.len() ==> bytes::lex_le(lo, (#[trigger] upper[i]).smallest_key)
                && bytes::lex_le(upper[i].largest_key, hi)) && (exists|i: int|
            0 <= i < upper.len() && (#[trigger] upper[i]).smallest_key == lo) && (exists|i: int|
            0 <= i < upper.len() && (#[trigger] upper[i]).largest_key == hi) ==> (cut_files(
            upper,
            level,
        ).len() == 0 <==> forall|i: int|
            0 <= i < level.len() ==> !(bytes::lex_le(lo, (#[trigger] level[i]).largest_key)
                && bytes::lex_le(level[i].smallest_key, hi))),
{
    let (a, b) = lemma_least_cut_exists(upper, level);
    let p = |m: SstFileMetaView| overlaps(m, a, b);
    let cut = cut_files(upper, level);
    lemma_filter_members(level, p, m);
    lemma_filter_members(level, p, other);
    if level.contains(m) && (upper.contains(other) || cut.contains(other)) && bytes::lex_le(
        other.smallest_key,
        m.largest_key,
    ) && bytes::lex_le(m.smallest_key, other.largest_key) {
        if upper.contains(other) {
            let i = upper.index_of(other);
            assert(within(upper[i], a, b));
        } else {
            let i = level.index_of(other);
            assert(within(level[i], a, b));
        }
        bytes::lemma_lex_le_transitive(a, other.smallest_key, m.largest_key);
        bytes::lemma_lex_le_transitive(m.smallest_key, other.largest_key, b);
        assert(p(m));
    }
    if cut.contains(m) && is_cut(upper, level, lo, hi) {
        bytes::lemma_lex_le_transitive(lo, a, m.largest_key);
        bytes::lemma_lex_le_transitive(m.smallest_key, b, hi);
    }
    if cut.contains(m) && (forall|i: int|
        0 <= i < upper.len() ==> bytes::lex_le(lo, (#[trigger] upper[i]).smallest_key)
            && bytes::lex_le(upper[i].largest_key, hi)) && (forall|i: int|
        0 <= i < level.len() && bytes::lex_le(lo, (#[trigger] level[i]).largest_key)
            && bytes::lex_le(level[i].smallest_key, hi) ==> bytes::lex_le(
            lo,
            level[i].smallest_key,
        ) && bytes::lex_le(level[i].largest_key, hi)) {
        assert(is_cut(upper, level, lo, hi));
    }
    if (forall|i: int|
        0 <= i < upper.len() ==> bytes::lex_le(lo, (#[trigger] upper[i]).smallest_key)
            && bytes::lex_le(upper[i].largest_key, hi)) && (exists|i: int|
        0 <= i < upper.len() && (#[trigger] upper[i]).smallest_key == lo) && (exists|i: int|
        0 <= i < upper.len() && (#[trigger] upper[i]).largest_key == hi) {
        let x = choose|i: int| 0 <= i < upper.len() && (#[trigger] upper[i]).smallest_key == lo;
        let y = choose|i: int| 0 <= i < upper.len() && (#[trigger] upper[i]).largest_key == hi;
        assert(within(upper[x], a, b));
        assert(within(upper[y], a, b));
        if cut.len() == 0 {
            assert forall|i: int| 0 <= i < level.len() implies !(bytes::lex_le(
                lo,
                (#[trigger] level[i]).largest_key,
            ) && bytes::lex_le(level[i].smallest_key, hi)) by {
                lemma_filter_members(level, p, level[i]);
                if bytes::lex_le(lo, level[i].largest_key) && bytes::lex_le(
                    level[i].smallest_key,
                    hi,
                ) {
                    bytes::lemma_lex_le_transitive(a, lo, level[i].largest_key);
                    bytes::lemma_lex_le_transitive(level[i].smallest_key, hi, b);
                    assert(p(level[i]));
                    assert(cut.contains(level[i]));
                }
            }
        } else if forall|i: int|
            0 <= i < level.len() ==> !(bytes::lex_le(lo, (#[trigger] level[i]).largest_key)
                && bytes::lex_le(level[i].smallest_key, hi)) {
            assert(is_cut(upper, level, lo, hi));
            let f = cut[0];
            assert(cut.contains(f));
            lemma_filter_members(level, p, f);
            let i = level.index_of(f);
            bytes::lemma_lex_le_transitive(lo, a, f.largest_key);
            bytes::lemma_lex_le_transitive(f.smallest_key, b, hi);
            assert(bytes::lex_le(lo, level[i].largest_key));
        }
    }
}

/// A merge of level 0 drops deletions exactly where nothing older can lie: every
/// level below the first but the one that it writes to is without files, whoever
/// they belong to. It writes to the level that was asked for.
pub proof fn law_rollup_is_bottommost_above_empty_levels(
    v: Version,
    cf: ColumnFamilyId,
    output_level: u32,
    trivial_move: bool,
    filter_active: bool,
)
    ensures
        rollup(v, cf, output_level, trivial_move, filter_active) matches Some(
            DecisionView::Merge { inputs, output_level: to, is_bottommost },
        ) ==> to == output_level && (is_bottommost <==> forall|l: int|
            1 <= l < v.levels@.len() && l != output_level ==> (
            #[trigger] v.levels@[l]).files@.len() == 0),
{
}

/// Something is done about level 0 where the family has a file there. A merge
/// takes all of the family's files of level 0 first, in their order, each once,
/// then the files that a cut through the output level takes, and nothing else.
pub proof fn law_rollup_takes_all_of_level_zero(
    v: Version,
    cf: ColumnFamilyId,
    output_level: u32,
    trivial_move: bool,
    filter_active: bool,
    zero: Seq<SstFileMetaView>,
    below: Seq<SstFileMetaView>,
)
    requires
        zero == family_files(v, 0, cf),
        below == cut_files(zero, family_files(v, output_level as int, cf)),
    ensures
        rollup(v, cf, output_level, trivial_move, filter_active) is None <==> zero.len() == 0,
        rollup(v, cf, output_level, trivial_move, filter_active) matches Some(
            DecisionView::Merge { inputs, output_level: to, is_bottommost },
        ) ==> {
            &&& inputs.len() == zero.len() + below.len()
            &&& forall|i: int|
                0 <= i < zero.len() ==> (#[trigger] inputs[i]).0 == 0 && inputs[i].1 == zero[i]
            &&& forall|i: int|
                zero.len() <= i < inputs.len() ==> (#[trigger] inputs[i]).0 == output_level
                    && inputs[i].1 == below[i - zero.len()]
        },
        rollup(v, cf, output_level, trivial_move, filter_active) matches Some(
            DecisionView::TrivialMove { files, from_level, to_level },
        ) ==> files == zero && from_level == 0 && to_level == output_level,
{
}

/// The files of level 0 move as they are exactly where moves are allowed, no
/// filter has to see the entries, no file of the family at the output level meets
/// the range from `lo` to `hi` that they span, and of any two of them one ends
/// before the other begins.
pub proof fn law_rollup_moves_only_what_stays_sorted(
    v: Version,
    cf: ColumnFamilyId,
    output_level: u32,
    trivial_move: bool,
    filter_active: bool,
    zero: Seq<SstFileMetaView>,
    under: Seq<SstFileMetaView>,
    lo: Seq<u8>,
    hi: Seq<u8>,
)
    requires
        zero == family_files(v, 0, cf),
        under == family_files(v, output_level as int, cf),
        zero.len() > 0,
        forall|i: int|
            0 <= i < zero.len() ==> bytes::lex_le(
                (#[trigger] zero[i]).smallest_key,
                zero[i].largest_key,
            ),
        forall|i: int|
            0 <= i < zero.len() ==> bytes::lex_le(lo, (#[trigger] zero[i]).smallest_key)
                && bytes::lex_le(zero[i].largest_key, hi),
        exists|i: int| 0 <= i < zero.len() && (#[trigger] zero[i]).smallest_key == lo,
        exists|i: int| 0 <= i < zero.len() && (#[trigger] zero[i]).largest_key == hi,
    ensures
        rollup(v, cf, output_level, trivial_move, filter_active) matches Some(
            DecisionView::TrivialMove { files, from_level, to_level },
        ) <==> trivial_move && !filter_active && (forall|i: int|
            0 <= i < under.len() ==> bytes::lex_lt((#[trigger] under[i]).largest_key, lo)
                || bytes::lex_lt(hi, under[i].smallest_key)) && (forall|i: int, j: int|
            0 <= i < j < zero.len() ==> bytes::lex_lt(
                (#[trigger] zero[i]).largest_key,
                (#[trigger] zero[j]).smallest_key,
            ) || bytes::lex_lt(zero[j].largest_key, zero[i].smallest_key)),
{
    law_cut_takes_what_overlaps(zero, under, zero[0], zero[0], lo, hi);
    assert forall|i: int| 0 <= i < under.len() implies ((bytes::lex_le(
        lo,
        (#[trigger] under[i]).largest_key,
    ) && bytes::lex_le(under[i].smallest_key, hi)) <==> !(bytes::lex_lt(under[i].largest_key, lo)
        || bytes::lex_lt(hi, under[i].smallest_key))) by {
        bytes::lemma_lex_not_lt(under[i].largest_key, lo);
        bytes::lemma_lex_not_lt(hi, under[i].smallest_key);
    }
    law_disjoint_means_no_overlap(zero);
    assert forall|i: int, j: int| 0 <= i < zero.len() && 0 <= j < zero.len() implies (overlaps(
        #[trigger] zero[i],
        (#[trigger] zero[j]).smallest_key,
        zero[j].largest_key,
    ) <==> !(bytes::lex_lt(zero[i].largest_key, zero[j].smallest_key) || bytes::lex_lt(
        zero[j].largest_key,
        zero[i].smallest_key,
    ))) by {
        bytes::lemma_lex_not_lt(zero[i].largest_key, zero[j].smallest_key);
        bytes::lemma_lex_not_lt(zero[j].largest_key, zero[i].smallest_key);
    }
    if disjoint(zero) {
        assert forall|i: int, j: int| 0 <= i < j < zero.len() implies bytes::lex_lt(
            (#[trigger] zero[i]).largest_key,
            (#[trigger] zero[j]).smallest_key,
        ) || bytes::lex_lt(zero[j].largest_key, zero[i].smallest_key) by {
            assert(!overlaps(zero[i], zero[j].smallest_key, zero[j].largest_key));
        }
    }
    if forall|i: int, j: int|
        0 <= i < j < zero.len() ==> bytes::lex_lt(
            (#[trigger] zero[i]).largest_key,
            (#[trigger] zero[j]).smallest_key,
        ) || bytes::lex_lt(zero[j].largest_key, zero[i].smallest_key) {
        assert forall|i: int, j: int|
            0 <= i < zero.len() && 0 <= j < zero.len() && i != j implies !#[trigger] overlaps(
            zero[i],
            zero[j].smallest_key,
            zero[j].largest_key,
        ) by {
            if i < j {
                assert(bytes::lex_lt(zero[i].largest_key, zero[j].smallest_key) || bytes::lex_lt(
                    zero[j].largest_key,
                    zero[i].smallest_key,
                ));
            } else {
                assert(bytes::lex_lt(zero[j].largest_key, zero[i].smallest_key) || bytes::lex_lt(
                    zero[i].largest_key,
                    zero[j].smallest_key,
                ));
            }
        }
    }
}

/// A descent merges its source with the files of the next level that share a key
/// with it, all of them and in their order, into that level. It drops deletions
/// exactly where every deeper level is without files. The source moves as it is
/// exactly where moves are allowed, no filter has to see the entries and it shares
/// no key with a file of the next level.
pub proof fn law_descent_merges_what_overlaps(
    v: Version,
    cf: ColumnFamilyId,
    level: u32,
    trivial_move: bool,
    filter_active: bool,
    source: SstFileMetaView,
    m: SstFileMetaView,
)
    requires
        level + 1 < v.levels@.len(),
        level < u32::MAX,
    ensures
        ({
            let under = family_files(v, level + 1, cf);
            match descent(v, cf, level, trivial_move, filter_active, source) {
                DecisionView::TrivialMove { files, from_level, to_level } => {
                    &&& files == seq![source]
                    &&& from_level == level
                    &&& to_level == level + 1
                    &&& trivial_move && !filter_active
                    &&& under.contains(m) ==> bytes::lex_lt(m.largest_key, source.smallest_key)
                        || bytes::lex_lt(source.largest_key, m.smallest_key)
                },
                DecisionView::Merge { inputs, output_level, is_bottommost } => {
                    &&& output_level == level + 1
                    &&& is_bottommost <==> forall|l: int|
                        level + 1 < l < v.levels@.len() ==> (
                        #[trigger] v.levels@[l]).files@.len() == 0
                    &&& inputs.len() > 0
                    &&& inputs[0] == (level, source)
                    &&& forall|i: int|
                        1 <= i < inputs.len() ==> (#[trigger] inputs[i]).0 == level + 1
                    &&& (exists|i: int| 1 <= i < inputs.len() && (#[trigger] inputs[i]).1 == m)
                        <==> under.contains(m) && bytes::lex_le(source.smallest_key, m.largest_key)
                        && bytes::lex_le(m.smallest_key, source.largest_key)
                    &&& trivial_move && !filter_active ==> inputs.len() > 1
                    &&& inputs.skip(1) == Seq::new(
                        (inputs.len() - 1) as nat,
                        |i: int|
                            (
                                (level + 1) as u32,
                                under.filter(
                                    |d: SstFileMetaView|
                                        bytes::lex_le(source.smallest_key, d.largest_key)
                                            && bytes::lex_le(d.smallest_key, source.largest_key),
                                )[i],
                            ),
                    )
                },
            }
        }),
{
    let under = family_files(v, level + 1, cf);
    let p = |d: SstFileMetaView| overlaps(d, source.smallest_key, source.largest_key);
    let q = |d: SstFileMetaView|
        bytes::lex_le(source.smallest_key, d.largest_key) && bytes::lex_le(
            d.smallest_key,
            source.largest_key,
        );
    assert(p =~= q);
    let below = under.filter(p);
    lemma_filter_members(under, p, m);
    bytes::lemma_lex_not_lt(m.largest_key, source.smallest_key);
    bytes::lemma_lex_not_lt(source.largest_key, m.smallest_key);
    match descent(v, cf, level, trivial_move, filter_active, source) {
        DecisionView::TrivialMove { files, from_level, to_level } => {
            if under.contains(m) && p(m) {
                assert(below.contains(m));
            }
        },
        DecisionView::Merge { inputs, output_level, is_bottommost } => {
            let next = (level + 1) as u32;
            assert(inputs == seq![(level, source)] + at_level(below, next));
            assert forall|i: int| 1 <= i < inputs.len() implies #[trigger] inputs[i] == (
                next,
                below[i - 1],
            ) by {}
            if below.contains(m) {
                let i = below.index_of(m);
                assert(inputs[i + 1].1 == m);
            }
            if exists|i: int| 1 <= i < inputs.len() && (#[trigger] inputs[i]).1 == m {
                let i = choose|i: int| 1 <= i < inputs.len() && (#[trigger] inputs[i]).1 == m;
                assert(below[i - 1] == m);
                assert(below.contains(m));
            }
            assert(is_bottommost == empty_from(v, level + 2, -1));
        },
    }
}

/// Without dynamic levels the first file goes down. With them it is the one whose
/// overlap is the least for its weight, and of equal ones the first: the products
/// across compare the quotients.
pub proof fn law_least_overlap_for_its_weight_goes_down(
    files: Seq<SstFileMetaView>,
    below: Seq<SstFileMetaView>,
    counts: Seq<u64>,
    i: int,
    j: int,
)
    ensures
        is_source(files, below, false, counts, i) <==> i == 0,
        is_source(files, below, true, counts, i) ==> 0 <= i < files.len(),
        is_source(files, below, true, counts, i) && 0 <= j < files.len() ==> overlap_bytes(
            below,
            files[i],
        ) * weight(files[j], counts[j]) <= overlap_bytes(below, files[j]) * weight(
            files[i],
            counts[i],
        ),
        is_source(files, below, true, counts, i) && 0 <= j < i ==> overlap_bytes(below, files[i])
            * weight(files[j], counts[j]) < overlap_bytes(below, files[j]) * weight(
            files[i],
            counts[i],
        ),
{
    let os = Seq::new(files.len(), |k: int| overlap_bytes(below, files[k]));
    let ws = Seq::new(files.len(), |k: int| weight(files[k], counts[k]));
    if is_source(files, below, true, counts, i) && 0 <= j < files.len() {
        assert(no_heavier(os, ws, i, j));
        if j < i {
            assert(!no_heavier(os, ws, j, i));
        }
    }
}

/// The overlap of a file is summed up file by file: those of the level below that
/// share a key with it count with their size, the others not at all.
pub proof fn law_overlap_sums_what_shares_a_key(
    below: Seq<SstFileMetaView>,
    last: SstFileMetaView,
    m: SstFileMetaView,
)
    ensures
        overlap_bytes(Seq::empty(), m) == 0,
        overlap_bytes(below.push(last), m) == overlap_bytes(below, m) + if bytes::lex_le(
            m.smallest_key,
            last.largest_key,
        ) && bytes::lex_le(last.smallest_key, m.largest_key) {
            last.file_size as int
        } else {
            0
        },
{
    let p = |d: SstFileMetaView| overlaps(d, m.smallest_key, m.largest_key);
    reveal(Seq::filter);
    let all = below.push(last);
    assert(all.drop_last() =~= below);
    assert(all.last() == last);
    let kept = below.filter(p);
    assert(kept.push(last).drop_last() =~= kept);
}

/// A tombstone weighs twice the average entry of its file, rounded down; the sum
/// stops at the largest number of 64 bits. A file without tombstones or entries
/// weighs its size, and every file at least 1.
pub proof fn law_tombstones_weigh_double(m: SstFileMetaView, tombstones: u64)
    ensures
        m.num_entries == 0 || tombstones == 0 ==> compensated(
            m.file_size,
            m.num_entries,
            tombstones,
        ) == m.file_size,
        m.num_entries > 0 && m.file_size + tombstones * (2 * (m.file_size / m.num_entries))
            <= 0xffff_ffff_ffff_ffff ==> compensated(m.file_size, m.num_entries, tombstones)
            == m.file_size + tombstones * (2 * (m.file_size / m.num_entries)),
        m.num_entries > 0 && m.file_size + tombstones * (2 * (m.file_size / m.num_entries))
            > 0xffff_ffff_ffff_ffff ==> compensated(m.file_size, m.num_entries, tombstones)
            == 0xffff_ffff_ffff_ffff,
        weight(m, tombstones) == if compensated(m.file_size, m.num_entries, tombstones) == 0 {
            1
        } else {
            compensated(m.file_size, m.num_entries, tombstones) as int
        },
{
    assert(0 * (2 * (m.file_size / m.num_entries)) == 0);
}

/// The distance down to the last level; none from it or from below it.
pub proof fn law_levels_between_count_down(level: u32, bottom: u32)
    ensures
        level >= bottom ==> levels_between(level, bottom) == 0,
        level < bottom ==> levels_between(level, bottom) == levels_between(
            (level + 1) as u32,
            bottom,
        ) + 1,
{
}

/// The choice goes by the number of tombstones of each file, asked for by its own
/// number; without dynamic levels nothing is asked.
pub proof fn law_tombstones_are_asked_for_by_file<F: Fn(FileNumber) -> u64>(
    tombstones: F,
    files: Seq<SstFileMetaView>,
    counts: Seq<u64>,
    i: int,
)
    requires
        goes_by(true, tombstones, files, counts),
    ensures
        counts.len() == files.len(),
        0 <= i < files.len() ==> call_ensures(tombstones, (files[i].file_number,), counts[i]),
        goes_by(false, tombstones, files, Seq::empty()),
{
}

/// What a cut takes stays in the order of the level, each file once for each time that
/// it is there: it is what meets some range of keys.
pub proof fn law_cut_keeps_the_order(
    upper: Seq<SstFileMetaView>,
    level: Seq<SstFileMetaView>,
) -> (range: (Seq<u8>, Seq<u8>))
    requires
        upper.len() > 0,
    ensures
        cut_files(upper, level) == level.filter(
            |m: SstFileMetaView|
                bytes::lex_le(range.0, m.largest_key) && bytes::lex_le(m.smallest_key, range.1),
        ),
{
    let (lo, hi) = lemma_least_cut_exists(upper, level);
    let p = |m: SstFileMetaView| overlaps(m, lo, hi);
    let q = |m: SstFileMetaView|
        bytes::lex_le(lo, m.largest_key) && bytes::lex_le(m.smallest_key, hi);
    assert(p =~= q);
    (lo, hi)
}

} // verus!
