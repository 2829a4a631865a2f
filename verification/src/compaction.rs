//! Compaction: merging input files into new ones at the next level.
//!
//! A [`CompactionJob`] says what to merge and how. A [`CompactionRun`] takes
//! the job through its steps: it hands out the rows to write, says when to
//! roll to the next output file, and ends in a [`VersionEdit`].

use crate::bytes::{bytes_equal, copy_bytes};
use crate::compaction_filter;
use crate::compaction_filter::{CompactionDecision, CompactionFilter};
use crate::error::{invalid_argument_text, ErrorKind, ForstError, ForstResult};
use crate::flags;
use crate::flags::is_on;
use crate::key_versions;
use crate::key_versions::{
    count_pinned, plan_key_versions, KeyOutcome, KeyPlan, Verdict, VerdictView,
};
use crate::merge_operator;
use crate::merge_operator::{call_full_merge, MergeOperator};
use crate::merge_order;
use crate::merge_order::{sort_entries, CompactionEntry, EntryView};
use crate::merge_runs;
use crate::merge_runs::{InputRun, RunMerge};
use crate::coding;
use crate::row;
use crate::row::{Row, RowView};
use crate::types::{ColumnFamilyId, FileNumber, OpType, SequenceNumber};
use crate::version;
use crate::version::{
    info_to_meta, KvGcSpec, SstFileInfo, SstFileMeta, SstFileMetaView, SstWriterOptions, VersionEdit,
};
use vstd::prelude::*;

verus! {

/// One input file with its rows, keys ascending and versions newest first.
pub struct CompactionInput {
    pub level: u32,
    pub meta: SstFileMeta,
    pub rows: Vec<Row>,
}

/// What to merge and where to put the result.
pub struct CompactionJob<F: CompactionFilter, M: MergeOperator> {
    /// Column family of every input and output.
    pub cf_id: ColumnFamilyId,
    pub inputs: Vec<CompactionInput>,
    pub output_level: u32,
    pub output_file_number: FileNumber,
    pub output_path: String,
    /// Further output files to roll to. Unused ones leave no trace.
    pub additional_outputs: Vec<(FileNumber, String)>,
    /// Size from which the output rolls to the next file, at a key boundary.
    /// Zero puts everything into one file.
    pub target_file_size: u64,
    /// Settings of the table writer.
    pub writer_options: SstWriterOptions,
    pub merge_operator: Option<M>,
    pub compaction_filter: Option<F>,
    /// No older data for the keys lies below the output level.
    pub is_bottommost: bool,
    /// Smallest sequence number that a live snapshot holds, or `u64::MAX`.
    pub min_active_snapshot: SequenceNumber,
    /// Value-log segments to empty on the way.
    pub kv_gc: Option<KvGcSpec>,
}

/// The verdict that a decision and its replacement amount to.
pub open spec fn verdict_of(decision: CompactionDecision, replacement: Seq<u8>) -> VerdictView {
    match decision {
        CompactionDecision::Keep => VerdictView::Keep,
        CompactionDecision::Discard => VerdictView::Discard,
        CompactionDecision::Replace => VerdictView::Replace(replacement),
    }
}

/// `v` is a verdict that the filter may give on `newest`; without a filter
/// everything is kept.
pub open spec fn verdict_possible<F: CompactionFilter>(
    filter: Option<F>,
    level: u32,
    newest: RowView,
    v: VerdictView,
) -> bool {
    match filter {
        None => v is Keep,
        Some(f) => exists|d: CompactionDecision, out: Seq<u8>|
            #[trigger] f.may_decide(
                level,
                newest.key,
                newest.value,
                newest.sequence,
                newest.op_type,
                Seq::empty(),
                d,
                out,
            ) && v == verdict_of(d, out),
    }
}

/// `result` is what `outcome` comes to, with the operator's help where a chain
/// collapses.
pub open spec fn outcome_result<M: MergeOperator>(
    op: Option<M>,
    versions: Seq<RowView>,
    outcome: KeyOutcome,
    result: ForstResult<Vec<Row>>,
) -> bool {
    match outcome {
        KeyOutcome::Rows(rows) => result matches Ok(out) && row::rows_view(out@) == rows,
        KeyOutcome::Collapse { base, operands } => op is Some && exists|m: ForstResult<Vec<u8>>|
            #[trigger] merge_operator::may_merge(op->0, versions[0].key, base, operands, m) && (
            match m {
                Ok(merged) => result matches Ok(out) && row::rows_view(out@)
                    == seq![key_versions::collapsed_row(versions[0], merged@)],
                Err(e) => result == Err::<Vec<Row>, ForstError>(e),
            }),
        KeyOutcome::MissingOperand => result matches Err(e) && e.says(
            ErrorKind::Corruption,
            key_versions::missing_operand_message(),
        ),
        KeyOutcome::NoMergeOperator => result matches Err(e) && e.says(
            ErrorKind::InvalidArgument,
            key_versions::no_operator_message(versions[0].key, versions.len()),
        ),
    }
}

impl<F: CompactionFilter, M: MergeOperator> CompactionJob<F, M> {
    /// `result` may come of the versions of one key, newest first.
    pub open spec fn emission_possible(
        self,
        versions: Seq<RowView>,
        result: ForstResult<Vec<Row>>,
    ) -> bool {
        exists|v: VerdictView|
            {
                &&& key_versions::consults_filter(versions, self.min_active_snapshot.0)
                    ==> verdict_possible(
                    self.compaction_filter,
                    self.output_level,
                    versions[0],
                    v,
                )
                &&& outcome_result(
                    self.merge_operator,
                    versions,
                    #[trigger] key_versions::key_outcome(
                        versions,
                        self.min_active_snapshot.0,
                        self.is_bottommost,
                        self.merge_operator is Some,
                        v,
                    ),
                    result,
                )
            }
    }

    /// Asks the filter about the newest version of a key.
    fn ask_filter(&self, newest: &Row) -> (r: Verdict)
        ensures
            verdict_possible(self.compaction_filter, self.output_level, newest@, r@),
    {
        match &self.compaction_filter {
            None => Verdict::Keep,
            Some(f) => {
                let mut scratch: Vec<u8> = Vec::new();
                let value: Option<&[u8]> = match &newest.value {
                    Some(v) => Some(v.as_slice()),
                    None => None,
                };
                assert(scratch@ =~= Seq::<u8>::empty());
                let d = f.filter(
                    self.output_level,
                    newest.key.as_slice(),
                    value,
                    newest.sequence,
                    newest.op_type,
                    &mut scratch,
                );
                assert(compaction_filter::opt_slice(value) == newest@.value);
                assert(f.may_decide(
                    self.output_level,
                    newest@.key,
                    newest@.value,
                    newest@.sequence,
                    newest@.op_type,
                    Seq::empty(),
                    d,
                    scratch@,
                ));
                match d {
                    CompactionDecision::Keep => Verdict::Keep,
                    CompactionDecision::Discard => Verdict::Discard,
                    CompactionDecision::Replace => Verdict::Replace(scratch),
                }
            },
        }
    }

    /// The rows that the versions of one key, newest first, become.
    pub fn emit_key_versions(&self, versions: &[Row]) -> (r: ForstResult<Vec<Row>>)
        ensures
            self.emission_possible(row::rows_view(versions@), r),
    {
        let ghost rows = row::rows_view(versions@);
        let split: usize = count_pinned(versions, self.min_active_snapshot.0);
        let verdict: Verdict = if split == 0 && versions.len() > 0 {
            assert(rows[0] == versions@[0]@);
            self.ask_filter(&versions[0])
        } else {
            Verdict::Keep
        };
        let ghost v = verdict@;
        let plan = plan_key_versions(
            versions,
            self.min_active_snapshot.0,
            self.is_bottommost,
            self.merge_operator.is_some(),
            verdict,
        );
        let ghost outcome = key_versions::key_outcome(
            rows,
            self.min_active_snapshot.0,
            self.is_bottommost,
            self.merge_operator is Some,
            v,
        );
        match plan {
            Err(e) => {
                let r = Err::<Vec<Row>, ForstError>(e);
                assert(outcome_result(self.merge_operator, rows, outcome, r));
                r
            },
            Ok(KeyPlan::Rows(out)) => {
                let r = Ok::<Vec<Row>, ForstError>(out);
                assert(outcome_result(self.merge_operator, rows, outcome, r));
                r
            },
            Ok(KeyPlan::Collapse { base, operands }) => {
                let newest: &Row = &versions[0];
                assert(rows[0] == newest@);
                match &self.merge_operator {
                    Some(op) => {
                        let m = call_full_merge(op, newest.key.as_slice(), &base, &operands);
                        let ghost mm = m;
                        assert(merge_operator::may_merge(
                            self.merge_operator->0,
                            rows[0].key,
                            outcome->base,
                            outcome->operands,
                            mm,
                        ));
                        let r: ForstResult<Vec<Row>> = match m {
                            Ok(merged) => {
                                let row = Row {
                                    key: copy_bytes(newest.key.as_slice()),
                                    value: Some(merged),
                                    sequence: newest.sequence,
                                    op_type: OpType::Put,
                                };
                                let ghost view = row@;
                                let mut out: Vec<Row> = Vec::new();
                                out.push(row);
                                assert(row::rows_view(out@) =~= seq![view]);
                                Ok(out)
                            },
                            Err(e) => Err(e),
                        };
                        assert(outcome_result(self.merge_operator, rows, outcome, r));
                        r
                    },
                    None => {
                        assert(false);
                        Ok(Vec::new())
                    },
                }
            },
        }
    }
}

/// The rows of several entries.
pub open spec fn entry_rows(entries: Seq<EntryView>) -> Seq<RowView> {
    Seq::new(entries.len(), |i: int| entries[i].row)
}

/// Position `i` starts a new key.
pub open spec fn key_boundary(all: Seq<EntryView>, i: int) -> bool {
    0 < i < all.len() && all[i].row.key != all[i - 1].row.key
}

/// The encoded size that an entry counts for.
pub open spec fn entry_weight(e: EntryView) -> nat {
    let value_len: nat = match e.row.value {
        Some(v) => v.len(),
        None => 0,
    };
    e.row.key.len() + value_len + 16
}

/// The size of the entries from `a` up to `b`.
pub open spec fn span_weight(all: Seq<EntryView>, a: int, b: int) -> nat
    decreases b - a,
{
    if b <= a {
        0
    } else {
        span_weight(all, a, b - 1) + entry_weight(all[b - 1])
    }
}

/// No position inside the span from `a` to `b` could end a file: before each
/// key boundary the span is below `target`.
pub open spec fn no_earlier_cut(all: Seq<EntryView>, a: int, b: int, target: nat) -> bool {
    forall|j: int|
        a < j < b && #[trigger] key_boundary(all, j) ==> span_weight(all, a, j) < target
}

/// `cuts` starts at 0 and lists the starts of the parts that entries are split
/// into: every part but the last ends at the first key boundary at which it
/// has reached `target`, and the last takes what is left once there are `n`
/// parts or no further cut is possible.
pub open spec fn is_partition(all: Seq<EntryView>, n: nat, target: nat, cuts: Seq<usize>) -> bool {
    &&& 1 <= cuts.len() <= n
    &&& cuts[0] == 0
    &&& forall|k: int|
        1 <= k < cuts.len() ==> cut_at(all, target, cuts[k - 1] as int, #[trigger] cuts[k] as int)
    &&& cuts.len() < n ==> no_earlier_cut(all, cuts.last() as int, all.len() as int, target)
}

/// A part that starts at `a` ends at `b`.
pub open spec fn cut_at(all: Seq<EntryView>, target: nat, a: int, b: int) -> bool {
    &&& a < b
    &&& key_boundary(all, b)
    &&& span_weight(all, a, b) >= target
    &&& no_earlier_cut(all, a, b, target)
}

proof fn lemma_span_monotonic(all: Seq<EntryView>, a: int, b: int, c: int)
    requires
        a <= b <= c,
    ensures
        span_weight(all, a, b) <= span_weight(all, a, c),
    decreases c - b,
{
    if b < c {
        lemma_span_monotonic(all, a, b, c - 1);
    }
}

/// `w`, or the largest `u64` if it is larger.
pub open spec fn capped(w: nat) -> u64 {
    if w <= u64::MAX {
        w as u64
    } else {
        u64::MAX
    }
}

/// Splits sorted entries into at most `n` parts of about `target` bytes each,
/// at key boundaries. A zero `target` does not split.
pub fn partition_starts(all: &[CompactionEntry], n: usize, target: u64) -> (r: Vec<usize>)
    requires
        n > 0,
    ensures
        is_partition(
            merge_order::entries_view(all@),
            n as nat,
            if target > 0 {
                target as nat
            } else {
                u64::MAX as nat
            },
            r@,
        ),
{
    let ghost v = merge_order::entries_view(all@);
    let part_target: u64 = if target > 0 {
        target
    } else {
        u64::MAX
    };
    let mut cuts: Vec<usize> = Vec::new();
    cuts.push(0);
    let mut start: usize = 0;
    let mut acc: u64 = 0;
    let mut i: usize = 0;
    while i < all.len() && cuts.len() < n
        invariant
            v == merge_order::entries_view(all@),
            part_target == if target > 0 {
                target
            } else {
                u64::MAX
            },
            0 < n,
            1 <= cuts@.len() <= n,
            cuts@[0] == 0,
            cuts@.last() == start,
            start <= i <= all@.len(),
            acc == capped(span_weight(v, start as int, i as int)),
            acc < part_target || i == all@.len(),
            no_earlier_cut(v, start as int, i as int + 1, part_target as nat) || i == all@.len()
                && no_earlier_cut(v, start as int, i as int, part_target as nat),
            forall|k: int|
                1 <= k < cuts@.len() ==> cut_at(
                    v,
                    part_target as nat,
                    cuts@[k - 1] as int,
                    #[trigger] cuts@[k] as int,
                ),
        decreases all@.len() - i,
    {
        proof {
            assert(span_weight(v, start as int, i + 1) == span_weight(v, start as int, i as int)
                + entry_weight(v[i as int]));
            assert(v[i as int] == all@[i as int]@);
        }
        let value_len: u64 = match &all[i].row.value {
            Some(b) => b.len() as u64,
            None => 0,
        };
        let weight: u64 = (all[i].row.key.len() as u64).saturating_add(value_len).saturating_add(16);
        acc = acc.saturating_add(weight);
        i += 1;
        if acc >= part_target && i < all.len() {
            let ghost reached = i as int;
            while i < all.len() && bytes_equal(
                all[i].row.key.as_slice(),
                all[i - 1].row.key.as_slice(),
            )
                invariant
                    v == merge_order::entries_view(all@),
                    start < reached <= i <= all@.len(),
                    forall|j: int| reached <= j < i ==> !#[trigger] key_boundary(v, j),
                decreases all@.len() - i,
            {
                assert(v[i as int] == all@[i as int]@);
                assert(v[i - 1] == all@[i - 1]@);
                assert(!key_boundary(v, i as int));
                i += 1;
            }
            proof {
                assert forall|j: int|
                    start < j < i && #[trigger] key_boundary(v, j) implies span_weight(
                    v,
                    start as int,
                    j,
                ) < part_target by {
                    assert(j < reached);
                }
                lemma_span_monotonic(v, start as int, reached, i as int);
            }
            if i >= all.len() {
                return cuts;
            }
            proof {
                assert(v[i as int] == all@[i as int]@);
                assert(v[i - 1] == all@[i - 1]@);
                assert(key_boundary(v, i as int));
            }
            let ghost before = cuts@;
            cuts.push(i);
            proof {
                assert forall|k: int| 1 <= k < cuts@.len() implies cut_at(
                    v,
                    part_target as nat,
                    cuts@[k - 1] as int,
                    #[trigger] cuts@[k] as int,
                ) by {
                    if k < before.len() {
                        assert(cuts@[k] == before[k]);
                        assert(cuts@[k - 1] == before[k - 1]);
                    }
                }
            }
            start = i;
            acc = 0;
        }
    }
    cuts
}

/// Where a part that starts at `cuts[k]` ends.
pub open spec fn part_end(cuts: Seq<usize>, k: int, total: nat) -> int {
    if k + 1 < cuts.len() {
        cuts[k + 1] as int
    } else {
        total as int
    }
}

/// The parts as pairs of start and end, without empty ones.
pub fn partition_ranges(cuts: &Vec<usize>, total: usize) -> (r: Vec<(usize, usize)>)
    requires
        forall|k: int| 0 <= k < cuts@.len() ==> #[trigger] cuts@[k] < total || total == 0,
        forall|i: int, j: int| 0 <= i < j < cuts@.len() ==> cuts@[i] < cuts@[j],
    ensures
        total == 0 ==> r@.len() == 0,
        total > 0 ==> r@.len() == cuts@.len(),
        total > 0 ==> forall|k: int|
            0 <= k < cuts@.len() ==> (#[trigger] r@[k]).0 == cuts@[k] && r@[k].1 == part_end(
                cuts@,
                k,
                total as nat,
            ),
{
    let mut out: Vec<(usize, usize)> = Vec::new();
    if total == 0 {
        return out;
    }
    let mut i: usize = 0;
    while i < cuts.len()
        invariant
            i <= cuts@.len(),
            out@.len() == i,
            forall|k: int|
                0 <= k < i ==> (#[trigger] out@[k]).0 == cuts@[k] && out@[k].1 == part_end(
                    cuts@,
                    k,
                    total as nat,
                ),
        decreases cuts@.len() - i,
    {
        let end: usize = if i + 1 < cuts.len() {
            cuts[i + 1]
        } else {
            total
        };
        out.push((cuts[i], end));
        i += 1;
    }
    out
}

/// Whether the output is written in several parts at once: if that is switched
/// on, there is more than one output, and there are more entries than outputs.
pub fn writes_in_parallel(setting: Option<&str>, outputs: usize, entries: usize) -> (r: bool)
    ensures
        r == (flags::on(setting) && outputs > 1 && entries > outputs),
{
    outputs > 1 && entries > outputs && is_on(setting)
}

/// The outcome of writing one part: the file, unless the part emitted nothing.
pub type PartResult = ForstResult<Option<(FileNumber, SstFileInfo)>>;

/// The files of the parts that made one, in the order of the parts.
pub open spec fn part_files(results: Seq<PartResult>) -> Seq<(FileNumber, SstFileInfo)>
    decreases results.len(),
{
    if results.len() == 0 {
        Seq::empty()
    } else {
        let before = part_files(results.drop_last());
        match results.last() {
            Ok(Some(file)) => before.push(file),
            _ => before,
        }
    }
}

/// The files that the parts made, or the failure of the first part that failed.
pub fn collect_parts(results: Vec<PartResult>) -> (r: ForstResult<Vec<(FileNumber, SstFileInfo)>>)
    ensures
        match r {
            Ok(files) => (forall|i: int| 0 <= i < results@.len() ==> (#[trigger] results@[i]) is Ok)
                && files@ == part_files(results@),
            Err(e) => exists|k: int|
                0 <= k < results@.len() && #[trigger] results@[k] == Err::<
                    Option<(FileNumber, SstFileInfo)>,
                    ForstError,
                >(e) && forall|i: int| 0 <= i < k ==> (#[trigger] results@[i]) is Ok,
        },
{
    let ghost all = results@;
    let mut rest: Vec<PartResult> = results;
    let mut files: Vec<(FileNumber, SstFileInfo)> = Vec::new();
    let ghost mut k: int = 0;
    assert(all.skip(0) =~= all);
    while rest.len() > 0
        invariant
            all == results@,
            0 <= k <= all.len(),
            rest@ == all.skip(k),
            forall|i: int| 0 <= i < k ==> (#[trigger] all[i]) is Ok,
            files@ == part_files(all.take(k)),
        decreases rest@.len(),
    {
        let part: PartResult = rest.remove(0);
        proof {
            assert(part == all[k]);
            assert(rest@ =~= all.skip(k + 1));
            assert(all.take(k + 1).drop_last() =~= all.take(k));
        }
        match part {
            Ok(Some(file)) => {
                files.push(file);
            },
            Ok(None) => {},
            Err(e) => {
                assert(all[k] == Err::<Option<(FileNumber, SstFileInfo)>, ForstError>(e));
                return Err(e);
            },
        }
        proof {
            k = k + 1;
        }
    }
    assert(all.take(k) =~= all);
    Ok(files)
}

/// The entries of one input.
pub open spec fn input_entries(input: CompactionInput) -> Seq<EntryView> {
    Seq::new(
        input.rows@.len(),
        |i: int|
            EntryView { row: input.rows@[i]@, file_number: input.meta.file_number.0 },
    )
}

/// The entries of each input.
pub open spec fn input_runs(inputs: Seq<CompactionInput>) -> Seq<Seq<EntryView>> {
    Seq::new(inputs.len(), |i: int| input_entries(inputs[i]))
}

/// The entries split by key.
pub open spec fn key_groups(s: Seq<EntryView>) -> Seq<Seq<EntryView>>
    decreases s.len(),
{
    if s.len() == 0 {
        Seq::empty()
    } else {
        let n = merge_runs::head_len(s, s[0].row.key);
        if 0 < n <= s.len() {
            seq![s.take(n)] + key_groups(s.skip(n))
        } else {
            Seq::empty()
        }
    }
}

proof fn lemma_group_nonempty(s: Seq<EntryView>)
    requires
        s.len() > 0,
    ensures
        0 < merge_runs::head_len(s, s[0].row.key) <= s.len(),
{
    let p = merge_runs::other_key(s[0].row.key);
    coding::lemma_first_index_props(s, p);
    assert(!p(s[0]));
}

/// Several lists of rows, one after the other.
pub open spec fn all_rows(outs: Seq<Seq<RowView>>) -> Seq<RowView>
    decreases outs.len(),
{
    if outs.len() == 0 {
        Seq::empty()
    } else {
        all_rows(outs.drop_last()) + outs.last()
    }
}

/// The largest of several numbers, or 0 if there is none.
pub open spec fn max_of(s: Seq<u64>) -> u64
    decreases s.len(),
{
    if s.len() == 0 {
        0
    } else if s.last() > max_of(s.drop_last()) {
        s.last()
    } else {
        max_of(s.drop_last())
    }
}

/// A high-water mark: nothing is recorded for 0.
pub open spec fn high_water(m: u64) -> Option<SequenceNumber> {
    if m > 0 {
        Some(SequenceNumber(m))
    } else {
        None
    }
}

/// The edit of a finished compaction: every input goes, every output comes,
/// and the sequence high-water mark is kept up, by the inputs if nothing was
/// written.
pub open spec fn edit_of(
    cf_id: ColumnFamilyId,
    output_level: u32,
    inputs: Seq<CompactionInput>,
    produced: Seq<(FileNumber, SstFileInfo)>,
    edit: VersionEdit,
) -> bool {
    &&& edit.deleted_files@ == Seq::new(
        inputs.len(),
        |i: int| (inputs[i].level, inputs[i].meta.file_number),
    )
    &&& version::leveled_metas(edit.new_files@) == Seq::new(
        produced.len(),
        |i: int| (output_level, version::meta_of_info(produced[i].0, cf_id, produced[i].1)),
    )
    &&& edit.next_file_number is None
    &&& edit.last_sequence == high_water(
        if produced.len() == 0 {
            max_of(Seq::new(inputs.len(), |i: int| inputs[i].meta.max_sequence.0))
        } else {
            max_of(Seq::new(produced.len(), |i: int| produced[i].1.max_sequence))
        },
    )
}

/// Whether to roll to the next output file at a key boundary.
pub fn should_roll(
    last_slot: bool,
    target: u64,
    file_has_rows: bool,
    more_keys: bool,
    estimated_size: u64,
) -> (r: bool)
    ensures
        r == (!last_slot && target > 0 && file_has_rows && more_keys && estimated_size >= target),
{
    !last_slot && target > 0 && file_has_rows && more_keys && estimated_size >= target
}

/// The rows of a group of entries.
fn into_rows(group: Vec<CompactionEntry>) -> (r: Vec<Row>)
    ensures
        row::rows_view(r@) == entry_rows(merge_order::entries_view(group@)),
{
    let mut out: Vec<Row> = Vec::new();
    let mut i: usize = 0;
    let ghost rows = entry_rows(merge_order::entries_view(group@));
    while i < group.len()
        invariant
            i <= group@.len(),
            rows == entry_rows(merge_order::entries_view(group@)),
            row::rows_view(out@) == rows.take(i as int),
        decreases group@.len() - i,
    {
        let r = group[i].row.duplicate();
        proof {
            row::lemma_rows_push(out@, r);
            assert(rows[i as int] == r@);
        }
        out.push(r);
        i += 1;
        assert(row::rows_view(out@) =~= rows.take(i as int));
    }
    assert(rows.take(i as int) =~= rows);
    out
}

impl<F: CompactionFilter, M: MergeOperator> CompactionJob<F, M> {
    /// The groups `groups` may come out as `outs`.
    pub open spec fn groups_emitted(
        self,
        groups: Seq<Seq<EntryView>>,
        outs: Seq<Seq<RowView>>,
    ) -> bool {
        &&& groups.len() == outs.len()
        &&& forall|k: int|
            0 <= k < groups.len() ==> self.group_emitted(#[trigger] groups[k], outs[k])
    }

    /// The versions `group` of one key may come out as `out`.
    pub open spec fn group_emitted(self, group: Seq<EntryView>, out: Seq<RowView>) -> bool {
        exists|rows: Vec<Row>|
            row::rows_view(rows@) == out && #[trigger] self.emission_possible(
                entry_rows(group),
                Ok(rows),
            )
    }

    /// Every entry of every input, input after input.
    pub fn gather(&self) -> (r: Vec<CompactionEntry>)
        ensures
            merge_order::entries_view(r@) == merge_runs::flat(input_runs(self.inputs@)),
    {
        let ghost runs = input_runs(self.inputs@);
        let mut all: Vec<CompactionEntry> = Vec::new();
        let mut i: usize = 0;
        assert(runs.take(0) =~= Seq::<Seq<EntryView>>::empty());
        assert(merge_order::entries_view(all@) =~= merge_runs::flat(runs.take(0)));
        while i < self.inputs.len()
            invariant
                i <= self.inputs@.len(),
                runs == input_runs(self.inputs@),
                merge_order::entries_view(all@) == merge_runs::flat(runs.take(i as int)),
            decreases self.inputs@.len() - i,
        {
            let ghost start = merge_order::entries_view(all@);
            let file_number: u64 = self.inputs[i].meta.file_number.0;
            let mut j: usize = 0;
            while j < self.inputs[i].rows.len()
                invariant
                    i < self.inputs@.len(),
                    runs == input_runs(self.inputs@),
                    j <= self.inputs@[i as int].rows@.len(),
                    file_number == self.inputs@[i as int].meta.file_number.0,
                    merge_order::entries_view(all@) == start + runs[i as int].take(j as int),
                decreases self.inputs@[i as int].rows@.len() - j,
            {
                let e = CompactionEntry {
                    row: self.inputs[i].rows[j].duplicate(),
                    file_number,
                };
                proof {
                    merge_order::lemma_entries_push(all@, e);
                    assert(runs[i as int][j as int] == e@);
                }
                all.push(e);
                j += 1;
                assert(merge_order::entries_view(all@) =~= start + runs[i as int].take(j as int));
            }
            i += 1;
            proof {
                assert(runs.take(i as int).drop_last() =~= runs.take(i - 1));
                assert(runs[i - 1].take(j as int) =~= runs[i - 1]);
            }
        }
        assert(runs.take(i as int) =~= runs);
        all
    }

    /// Every entry of every input in the order of compaction.
    pub fn gather_sorted(&self) -> (r: Vec<CompactionEntry>)
        ensures
            merge_order::is_stable_sort(
                merge_runs::flat(input_runs(self.inputs@)),
                merge_order::entries_view(r@),
            ),
    {
        let all: Vec<CompactionEntry> = self.gather();
        sort_entries(all)
    }

    /// The rows of one output file: what the keys of the sorted entries from
    /// `from` up to `to` become, in order. The first error ends it.
    pub fn emit_range(&self, all: &[CompactionEntry], from: usize, to: usize) -> (r: ForstResult<
        Vec<Row>,
    >)
        requires
            from <= to <= all@.len(),
        ensures
            ({
                let groups = key_groups(
                    merge_order::entries_view(all@).subrange(from as int, to as int),
                );
                match r {
                    Ok(rows) => exists|outs: Seq<Seq<RowView>>| #[trigger]
                        self.groups_emitted(groups, outs) && row::rows_view(rows@) == all_rows(
                            outs,
                        ),
                    Err(e) => exists|k: int, outs: Seq<Seq<RowView>>|
                        0 <= k < groups.len() && #[trigger] self.groups_emitted(
                            groups.take(k),
                            outs,
                        ) && self.emission_possible(
                            entry_rows(groups[k]),
                            Err::<Vec<Row>, ForstError>(e),
                        ),
                }
            }),
    {
        let ghost v = merge_order::entries_view(all@);
        let ghost groups = key_groups(v.subrange(from as int, to as int));
        let ghost mut outs: Seq<Seq<RowView>> = Seq::empty();
        let mut out: Vec<Row> = Vec::new();
        let mut i: usize = from;
        proof {
            assert(row::rows_view(out@) =~= all_rows(outs));
            assert(groups.take(0) =~= Seq::<Seq<EntryView>>::empty());
            assert(groups.skip(0) =~= groups);
        }
        while i < to
            invariant
                from <= i <= to <= all@.len(),
                v == merge_order::entries_view(all@),
                groups == key_groups(v.subrange(from as int, to as int)),
                outs.len() <= groups.len(),
                groups.skip(outs.len() as int) == key_groups(v.subrange(i as int, to as int)),
                self.groups_emitted(groups.take(outs.len() as int), outs),
                row::rows_view(out@) == all_rows(outs),
            decreases to - i,
        {
            let ghost rest = v.subrange(i as int, to as int);
            let ghost key = rest[0].row.key;
            let ghost k = outs.len() as int;
            let mut versions: Vec<Row> = Vec::new();
            let mut j: usize = i;
            proof {
                assert(rest[0] == all@[i as int]@);
                assert(row::rows_view(versions@) =~= entry_rows(rest.take(0)));
            }
            while j < to && bytes_equal(all[j].row.key.as_slice(), all[i].row.key.as_slice())
                invariant
                    i <= j <= to <= all@.len(),
                    i < to,
                    v == merge_order::entries_view(all@),
                    rest == v.subrange(i as int, to as int),
                    key == all@[i as int].row.key@,
                    forall|m: int| 0 <= m < j - i ==> (#[trigger] rest[m]).row.key == key,
                    row::rows_view(versions@) == entry_rows(rest.take(j - i)),
                decreases to - j,
            {
                let r = all[j].row.duplicate();
                proof {
                    row::lemma_rows_push(versions@, r);
                    assert(rest[j - i] == all@[j as int]@);
                }
                versions.push(r);
                j += 1;
                assert(row::rows_view(versions@) =~= entry_rows(rest.take(j - i)));
            }
            proof {
                let p = merge_runs::other_key(key);
                assert forall|m: int| 0 <= m < j - i implies !p(#[trigger] rest[m]) by {}
                if j < to {
                    assert(rest[j - i] == all@[j as int]@);
                    assert(p(rest[j - i]));
                }
                coding::lemma_first_index(rest, p, j - i);
                lemma_group_nonempty(rest);
                assert(rest.skip(j - i) =~= v.subrange(j as int, to as int));
                assert(key_groups(rest) == seq![rest.take(j - i)] + key_groups(rest.skip(j - i)));
                assert(groups.skip(k) == key_groups(rest));
                assert(groups.skip(k).len() == groups.len() - k);
                assert(key_groups(rest).len() == 1 + key_groups(rest.skip(j - i)).len());
                assert(groups.skip(k)[0] == groups[k]);
                assert(key_groups(rest)[0] == rest.take(j - i));
                assert(groups[k] == rest.take(j - i));
                assert(groups.skip(k + 1) =~= groups.skip(k).skip(1));
                assert((seq![rest.take(j - i)] + key_groups(rest.skip(j - i))).skip(1)
                    =~= key_groups(rest.skip(j - i)));
            }
            match self.emit_key_versions(versions.as_slice()) {
                Err(e) => {
                    assert(self.groups_emitted(groups.take(k), outs));
                    return Err(e);
                },
                Ok(rows) => {
                    let ghost emitted = row::rows_view(rows@);
                    let ghost before_outs = outs;
                    let ghost start = row::rows_view(out@);
                    proof {
                        assert(self.emission_possible(entry_rows(groups[k]), Ok(rows)));
                        outs = outs.push(emitted);
                        assert(groups.take(k + 1) =~= groups.take(k).push(groups[k]));
                        assert forall|m: int| 0 <= m < k + 1 implies self.group_emitted(
                            #[trigger] groups.take(k + 1)[m],
                            outs[m],
                        ) by {
                            if m < k {
                                assert(groups.take(k)[m] == groups.take(k + 1)[m]);
                                assert(self.group_emitted(groups.take(k)[m], before_outs[m]));
                            }
                        }
                        assert(outs.drop_last() =~= before_outs);
                    }
                    let mut tail: Vec<Row> = rows;
                    let ghost out_before = out@;
                    let ghost tail_before = tail@;
                    out.append(&mut tail);
                    proof {
                        assert(row::rows_view(out@) =~= row::rows_view(out_before)
                            + row::rows_view(tail_before));
                    }
                },
            }
            i = j;
        }
        proof {
            assert(v.subrange(to as int, to as int) =~= Seq::<EntryView>::empty());
            assert(groups.skip(outs.len() as int).len() == 0);
            assert(groups.take(outs.len() as int) =~= groups);
        }
        Ok(out)
    }

    /// The edit that records the finished outputs.
    pub fn edit(&self, produced: Vec<(FileNumber, SstFileInfo)>) -> (r: VersionEdit)
        ensures
            edit_of(self.cf_id, self.output_level, self.inputs@, produced@, r),
    {
        let ghost inputs = self.inputs@;
        let mut deleted: Vec<(u32, FileNumber)> = Vec::new();
        let mut max_in: u64 = 0;
        let mut i: usize = 0;
        let ghost in_seqs = Seq::new(inputs.len(), |k: int| inputs[k].meta.max_sequence.0);
        while i < self.inputs.len()
            invariant
                i <= self.inputs@.len(),
                inputs == self.inputs@,
                in_seqs == Seq::new(inputs.len(), |k: int| inputs[k].meta.max_sequence.0),
                deleted@ == Seq::new(
                    i as nat,
                    |k: int| (inputs[k].level, inputs[k].meta.file_number),
                ),
                max_in == max_of(in_seqs.take(i as int)),
            decreases self.inputs@.len() - i,
        {
            deleted.push((self.inputs[i].level, self.inputs[i].meta.file_number));
            let seq: u64 = self.inputs[i].meta.max_sequence.0;
            if seq > max_in {
                max_in = seq;
            }
            i += 1;
            proof {
                assert(in_seqs.take(i as int).drop_last() =~= in_seqs.take(i - 1));
                assert(deleted@ =~= Seq::new(
                    i as nat,
                    |k: int| (inputs[k].level, inputs[k].meta.file_number),
                ));
            }
        }
        assert(in_seqs.take(i as int) =~= in_seqs);
        let ghost given = produced@;
        let ghost out_seqs = Seq::new(given.len(), |k: int| given[k].1.max_sequence);
        let empty: bool = produced.len() == 0;
        let mut new_files: Vec<(u32, SstFileMeta)> = Vec::new();
        let mut max_out: u64 = 0;
        let mut rest: Vec<(FileNumber, SstFileInfo)> = produced;
        let ghost mut k: int = 0;
        proof {
            assert(version::leveled_metas(new_files@) =~= Seq::<(u32, SstFileMetaView)>::empty());
            assert(out_seqs.take(0) =~= Seq::<u64>::empty());
        }
        while rest.len() > 0
            invariant
                0 <= k <= given.len(),
                rest@ == given.skip(k),
                out_seqs == Seq::new(given.len(), |m: int| given[m].1.max_sequence),
                version::leveled_metas(new_files@) == Seq::new(
                    k as nat,
                    |m: int|
                        (
                            self.output_level,
                            version::meta_of_info(given[m].0, self.cf_id, given[m].1),
                        ),
                ),
                max_out == max_of(out_seqs.take(k)),
            decreases rest@.len(),
        {
            let (fnum, info) = rest.remove(0);
            assert(given[k] == (fnum, info));
            let seq: u64 = info.max_sequence;
            if seq > max_out {
                max_out = seq;
            }
            let ghost before = new_files@;
            new_files.push((self.output_level, info_to_meta(fnum, self.cf_id, info)));
            proof {
                k = k + 1;
                assert(rest@ =~= given.skip(k));
                assert(out_seqs.take(k).drop_last() =~= out_seqs.take(k - 1));
                assert(version::leveled_metas(new_files@) =~= version::leveled_metas(before).push(
                    (
                        self.output_level,
                        version::meta_of_info(given[k - 1].0, self.cf_id, given[k - 1].1),
                    ),
                ));
                assert(version::leveled_metas(new_files@) =~= Seq::new(
                    k as nat,
                    |m: int|
                        (
                            self.output_level,
                            version::meta_of_info(given[m].0, self.cf_id, given[m].1),
                        ),
                ));
            }
        }
        assert(out_seqs.take(k) =~= out_seqs);
        let mark: u64 = if empty {
            max_in
        } else {
            max_out
        };
        VersionEdit {
            new_files,
            deleted_files: deleted,
            next_file_number: None,
            last_sequence: if mark > 0 {
                Some(SequenceNumber(mark))
            } else {
                None
            },
        }
    }
}

/// A compaction under way.
///
/// The caller loops: while there is [`more`](Self::more), open the file of
/// [`current_output`](Self::current_output); write what
/// [`next_rows`](Self::next_rows) gives, key after key, until nothing is left
/// or [`must_roll`](Self::must_roll) says so; then
/// [`close_file`](Self::close_file). At the end
/// [`finish`](Self::finish) gives the edit.
pub struct CompactionRun<F: CompactionFilter, M: MergeOperator> {
    job: CompactionJob<F, M>,
    merge: RunMerge,
    slot: usize,
    file_has_rows: bool,
    produced: Vec<(FileNumber, SstFileInfo)>,
}

/// The inputs have the same levels and metadata.
pub open spec fn same_files(a: Seq<CompactionInput>, b: Seq<CompactionInput>) -> bool {
    &&& a.len() == b.len()
    &&& forall|i: int|
        0 <= i < a.len() ==> (#[trigger] a[i]).level == b[i].level && a[i].meta == b[i].meta
}

/// The jobs agree in everything but the rows of their inputs.
pub open spec fn same_job<F: CompactionFilter, M: MergeOperator>(
    a: CompactionJob<F, M>,
    b: CompactionJob<F, M>,
) -> bool {
    &&& a.cf_id == b.cf_id
    &&& same_files(a.inputs@, b.inputs@)
    &&& a.output_level == b.output_level
    &&& a.output_file_number == b.output_file_number
    &&& a.output_path == b.output_path
    &&& a.additional_outputs == b.additional_outputs
    &&& a.target_file_size == b.target_file_size
    &&& a.writer_options == b.writer_options
    &&& a.merge_operator == b.merge_operator
    &&& a.compaction_filter == b.compaction_filter
    &&& a.is_bottommost == b.is_bottommost
    &&& a.min_active_snapshot == b.min_active_snapshot
    &&& a.kv_gc == b.kv_gc
}

impl<F: CompactionFilter, M: MergeOperator> CompactionJob<F, M> {
    /// The output files in the order of their use.
    pub open spec fn slots(self) -> Seq<(FileNumber, Seq<char>)> {
        seq![(self.output_file_number, self.output_path@)] + Seq::new(
            self.additional_outputs@.len(),
            |i: int| (self.additional_outputs@[i].0, self.additional_outputs@[i].1@),
        )
    }
}

impl<F: CompactionFilter, M: MergeOperator> CompactionRun<F, M> {
    /// The job, without the rows of its inputs.
    pub closed spec fn task(self) -> CompactionJob<F, M> {
        self.job
    }

    /// What is left of each input.
    pub closed spec fn left(self) -> Seq<Seq<EntryView>> {
        self.merge.left()
    }

    /// Position of the current output file.
    pub closed spec fn at(self) -> nat {
        self.slot as nat
    }

    /// The current output file holds rows.
    pub closed spec fn has_rows(self) -> bool {
        self.file_has_rows
    }

    /// The finished output files.
    pub closed spec fn done(self) -> Seq<(FileNumber, SstFileInfo)> {
        self.produced@
    }

    /// No output file is used twice, and none past the last one is used.
    pub closed spec fn wf(self) -> bool {
        &&& self.merge.wf()
        &&& self.slot <= self.job.additional_outputs@.len()
        &&& self.produced@.len() <= self.slot + 1
    }

    /// Begins a compaction.
    pub fn start(job: CompactionJob<F, M>) -> (r: Self)
        ensures
            r.wf(),
            same_job(r.task(), job),
            r.left() == input_runs(job.inputs@),
            r.at() == 0,
            !r.has_rows(),
            r.done() == Seq::<(FileNumber, SstFileInfo)>::empty(),
    {
        let ghost inputs = job.inputs@;
        let mut job: CompactionJob<F, M> = job;
        let ghost whole = job;
        let mut runs: Vec<InputRun> = Vec::new();
        let mut i: usize = 0;
        while i < job.inputs.len()
            invariant
                i <= job.inputs@.len(),
                job.inputs@.len() == inputs.len(),
                inputs == whole.inputs@,
                same_job(job, whole),
                forall|k: int| i <= k < inputs.len() ==> #[trigger] job.inputs@[k] == inputs[k],
                runs@.len() == i,
                forall|k: int|
                    0 <= k < i ==> (#[trigger] runs@[k]).wf() && runs@[k].left() == input_entries(
                        inputs[k],
                    ),
            decreases job.inputs@.len() - i,
        {
            let mut rows: Vec<Row> = Vec::new();
            let file_number: u64 = job.inputs[i].meta.file_number.0;
            let ghost before = job.inputs@;
            assert(before[i as int] == inputs[i as int]);
            core::mem::swap(&mut rows, &mut job.inputs[i].rows);
            let run = InputRun { file_number, rows, pos: 0 };
            proof {
                assert(run.left() =~= input_entries(inputs[i as int]));
                assert forall|k: int| 0 <= k < job.inputs@.len() implies (
                #[trigger] job.inputs@[k]).level == whole.inputs@[k].level && job.inputs@[k].meta
                    == whole.inputs@[k].meta by {
                    assert(before[k].level == whole.inputs@[k].level);
                }
            }
            runs.push(run);
            i += 1;
        }
        let merge = RunMerge { runs };
        proof {
            assert(merge.left() =~= input_runs(inputs));
        }
        CompactionRun { job, merge, slot: 0, file_has_rows: false, produced: Vec::new() }
    }

    /// Whether entries are left.
    pub fn more(&self) -> (r: bool)
        requires
            self.wf(),
        ensures
            r == !merge_runs::all_empty(self.left()),
    {
        !self.merge.is_empty()
    }

    /// Number and path of the output file in use.
    pub fn current_output(&self) -> (r: (FileNumber, &str))
        requires
            self.wf(),
        ensures
            self.at() < self.task().slots().len(),
            (r.0, r.1@) == self.task().slots()[self.at() as int],
    {
        if self.slot == 0 {
            (self.job.output_file_number, self.job.output_path.as_str())
        } else {
            (
                self.job.additional_outputs[self.slot - 1].0,
                self.job.additional_outputs[self.slot - 1].1.as_str(),
            )
        }
    }

    /// Takes every version of the next key and gives the rows that they
    /// become.
    pub fn next_rows(&mut self) -> (r: ForstResult<Vec<Row>>)
        requires
            old(self).wf(),
            !merge_runs::all_empty(old(self).left()),
        ensures
            final(self).wf(),
            final(self).task() == old(self).task(),
            final(self).at() == old(self).at(),
            final(self).done() == old(self).done(),
            exists|key: Seq<u8>, group: Seq<EntryView>|
                {
                    &&& #[trigger] merge_runs::smallest_head(old(self).left(), key)
                    &&& #[trigger] merge_order::is_stable_sort(
                        merge_runs::heads(old(self).left(), key),
                        group,
                    )
                    &&& final(self).left() == merge_runs::rests(old(self).left(), key)
                    &&& old(self).task().emission_possible(entry_rows(group), r)
                },
            final(self).has_rows() == (old(self).has_rows() || (r matches Ok(rows) && rows@.len()
                > 0)),
    {
        let ghost before = self.left();
        match self.merge.next_group() {
            None => {
                assert(false);
                Ok(Vec::new())
            },
            Some(group) => {
                let ghost entries = merge_order::entries_view(group@);
                let ghost key = choose|key: Seq<u8>|
                    {
                        &&& #[trigger] merge_runs::smallest_head(before, key)
                        &&& merge_order::is_stable_sort(merge_runs::heads(before, key), entries)
                        &&& self.left() == merge_runs::rests(before, key)
                    };
                let rows: Vec<Row> = into_rows(group);
                let r = self.job.emit_key_versions(rows.as_slice());
                match &r {
                    Ok(out) => {
                        if out.len() > 0 {
                            self.file_has_rows = true;
                        }
                    },
                    Err(_) => {},
                }
                proof {
                    assert(merge_runs::smallest_head(before, key));
                    assert(merge_order::is_stable_sort(merge_runs::heads(before, key), entries));
                }
                r
            },
        }
    }

    /// Whether the current file is full: splitting is on, it holds rows, it is
    /// not the last one, keys remain, and it has reached the target size.
    pub fn must_roll(&self, estimated_size: u64) -> (r: bool)
        requires
            self.wf(),
        ensures
            r == (self.at() + 1 < self.task().slots().len() && self.task().target_file_size > 0
                && self.has_rows() && !merge_runs::all_empty(self.left()) && estimated_size
                >= self.task().target_file_size),
    {
        should_roll(
            self.slot >= self.job.additional_outputs.len(),
            self.job.target_file_size,
            self.file_has_rows,
            self.more(),
            estimated_size,
        )
    }

    /// Ends the current output file. `info` is the report on a file with rows;
    /// a file without rows is dropped and has none. If keys remain, the next
    /// output file becomes the current one.
    pub fn close_file(&mut self, info: Option<SstFileInfo>)
        requires
            old(self).wf(),
            info is Some <==> old(self).has_rows(),
            merge_runs::all_empty(old(self).left()) || old(self).at() + 1 < old(
                self,
            ).task().slots().len(),
            old(self).done().len() <= old(self).at(),
        ensures
            final(self).wf(),
            final(self).task() == old(self).task(),
            final(self).left() == old(self).left(),
            !final(self).has_rows(),
            final(self).at() == if merge_runs::all_empty(old(self).left()) {
                old(self).at()
            } else {
                old(self).at() + 1
            },
            final(self).done() == match info {
                Some(i) => old(self).done().push(
                    (old(self).task().slots()[old(self).at() as int].0, i),
                ),
                None => old(self).done(),
            },
    {
        let number: FileNumber = self.current_output().0;
        match info {
            Some(i) => {
                self.produced.push((number, i));
            },
            None => {},
        }
        self.file_has_rows = false;
        let further: usize = self.job.additional_outputs.len();
        if !self.merge.is_empty() {
            assert(self.slot < further);
            self.slot = self.slot + 1;
        }
    }

    /// The edit that records the compaction.
    pub fn finish(self) -> (r: VersionEdit)
        requires
            self.wf(),
        ensures
            edit_of(
                self.task().cf_id,
                self.task().output_level,
                self.task().inputs@,
                self.done(),
                r,
            ),
    {
        self.job.edit(self.produced)
    }
}

/// Each key goes to one output file: after its versions were taken, no entry
/// of that key, and none of a smaller one, is left.
pub proof fn law_key_in_one_file(runs: Seq<Seq<EntryView>>, key: Seq<u8>, i: int, j: int)
    requires
        merge_runs::runs_in_order(runs),
        merge_runs::smallest_head(runs, key),
        0 <= i < runs.len(),
        0 <= j < merge_runs::rests(runs, key)[i].len(),
    ensures
        crate::bytes::lex_lt(key, merge_runs::rests(runs, key)[i][j].row.key),
{
    coding::lemma_first_index_props(runs[i], merge_runs::other_key(key));
    assert(runs[i].len() > 0);
    merge_runs::lemma_rest_above(runs[i], key, merge_runs::head_len(runs[i], key) + j);
}

proof fn lemma_first_group(group: Seq<EntryView>, tail: Seq<EntryView>, key: Seq<u8>)
    requires
        group.len() > 0,
        forall|i: int| 0 <= i < group.len() ==> (#[trigger] group[i]).row.key == key,
        forall|i: int|
            0 <= i < tail.len() ==> crate::bytes::lex_lt(key, (#[trigger] tail[i]).row.key),
    ensures
        key_groups(group + tail) == seq![group] + key_groups(tail),
{
    let s = group + tail;
    let p = merge_runs::other_key(key);
    assert(s[0].row.key == key) by {
        assert(group[0].row.key == key);
    }
    assert forall|i: int| 0 <= i < group.len() implies !p(#[trigger] s[i]) by {
        assert(group[i].row.key == key);
    }
    if tail.len() > 0 {
        assert(s[group.len() as int] == tail[0]);
        crate::bytes::lemma_lex_asymmetric(key, tail[0].row.key);
        assert(p(s[group.len() as int]));
    }
    coding::lemma_first_index(s, p, group.len() as int);
    assert(s.take(group.len() as int) =~= group);
    assert(s.skip(group.len() as int) =~= tail);
}

proof fn lemma_joined_groups(runs: Seq<Seq<EntryView>>, groups: Seq<Seq<EntryView>>)
    requires
        merge_runs::runs_in_order(runs),
        merge_runs::streamed(runs, groups),
    ensures
        key_groups(merge_runs::joined(groups)) == groups,
    decreases groups.len(),
{
    if groups.len() > 0 {
        let key = choose|key: Seq<u8>|
            {
                &&& #[trigger] merge_runs::smallest_head(runs, key)
                &&& merge_order::is_stable_sort(merge_runs::heads(runs, key), groups[0])
                &&& merge_runs::streamed(merge_runs::rests(runs, key), groups.skip(1))
            };
        merge_runs::lemma_rests_in_order(runs, key);
        lemma_joined_groups(merge_runs::rests(runs, key), groups.skip(1));
        merge_runs::law_streaming_sorts(merge_runs::rests(runs, key), groups.skip(1));
        let tail = merge_runs::joined(groups.skip(1));
        merge_runs::law_merge_step(runs, key, groups[0], tail);
        lemma_first_group(groups[0], tail, key);
        assert(seq![groups[0]] + groups.skip(1) =~= groups);
    } else {
        assert(key_groups(merge_runs::joined(groups)) =~= groups);
    }
}

/// The streaming merge and the gather-and-sort path see the same keys with the
/// same versions in the same order, so they write the same rows.
pub proof fn law_streaming_equals_sorting(
    runs: Seq<Seq<EntryView>>,
    groups: Seq<Seq<EntryView>>,
    sorted: Seq<EntryView>,
)
    requires
        merge_runs::runs_in_order(runs),
        merge_runs::streamed(runs, groups),
        merge_order::is_stable_sort(merge_runs::flat(runs), sorted),
    ensures
        merge_runs::joined(groups) == sorted,
        key_groups(sorted) == groups,
{
    merge_runs::law_streaming_sorts(runs, groups);
    let streamed = merge_runs::joined(groups);
    assert forall|c: EntryView| #[trigger]
        merge_order::of_rank(streamed, c) == merge_order::of_rank(sorted, c) by {
        assert(merge_order::of_rank(streamed, c) == merge_order::of_rank(
            merge_runs::flat(runs),
            c,
        ));
        assert(merge_order::of_rank(sorted, c) == merge_order::of_rank(merge_runs::flat(runs), c));
    }
    merge_order::lemma_stable_sort_unique(streamed, sorted);
    lemma_joined_groups(runs, groups);
}

/// A cut at a key boundary splits no key: the parts have the keys of the whole
/// with the same versions in the same order, so that parts written on their own
/// hold the rows that would have been written one after another.
pub proof fn law_cut_splits_no_key(all: Seq<EntryView>, cut: int)
    requires
        key_boundary(all, cut),
    ensures
        key_groups(all) == key_groups(all.take(cut)) + key_groups(all.skip(cut)),
    decreases all.len(),
{
    let key = all[0].row.key;
    let p = merge_runs::other_key(key);
    let n = merge_runs::head_len(all, key);
    lemma_group_nonempty(all);
    coding::lemma_first_index_props(all, p);
    assert(n <= cut) by {
        if cut < n {
            assert(!p(all[cut]));
            assert(!p(all[cut - 1]));
        }
    }
    let front = all.take(cut);
    assert forall|i: int| 0 <= i < n implies !p(#[trigger] front[i]) by {
        assert(!p(all[i]));
    }
    if n < cut {
        assert(p(all[n]));
        assert(front[n] == all[n]);
    }
    coding::lemma_first_index(front, p, n);
    assert(front.take(n) =~= all.take(n));
    assert(front.skip(n) =~= all.skip(n).take(cut - n));
    assert(all.skip(n).skip(cut - n) =~= all.skip(cut));
    if n < cut {
        assert(all.skip(n)[cut - n] == all[cut]);
        assert(all.skip(n)[cut - n - 1] == all[cut - 1]);
        law_cut_splits_no_key(all.skip(n), cut - n);
    } else {
        assert(key_groups(front.skip(n)) =~= Seq::<Seq<EntryView>>::empty());
    }
    assert(key_groups(all) =~= key_groups(front) + key_groups(all.skip(cut)));
}

/// Whether a level is over its target size.
pub fn level_needs_compaction(level_total_size: u64, target_size: u64) -> (r: bool)
    ensures
        r == (level_total_size > target_size),
{
    level_total_size > target_size
}

/// Refuses an empty list of inputs.
pub fn validate_inputs(inputs: &[(u32, SstFileMeta)]) -> (r: ForstResult<()>)
    ensures
        match r {
            Ok(_) => inputs@.len() > 0,
            Err(e) => inputs@.len() == 0 && e.says(
                ErrorKind::InvalidArgument,
                "CompactionJob: inputs must be non-empty"@,
            ),
        },
{
    if inputs.len() == 0 {
        return Err(invalid_argument_text("CompactionJob: inputs must be non-empty"));
    }
    Ok(())
}

/// Rows written for a key, without a filter, read as all its versions did, with
/// any older rows `lower` underneath: at every snapshot from the smallest live one
/// on there are the same base and operands; or the operands that were seen were
/// handed to the operator with the base that was seen, and its result is what is
/// now seen.
pub proof fn law_emitted_rows_read_like_all_versions<F: CompactionFilter, M: MergeOperator>(
    job: CompactionJob<F, M>,
    versions: Seq<RowView>,
    out: Vec<Row>,
    lower: Seq<RowView>,
    snapshot: u64,
)
    requires
        job.emission_possible(versions, Ok(out)),
        job.compaction_filter is None,
        crate::mvcc::reader::newest_first(versions + lower),
        snapshot >= job.min_active_snapshot.0,
        job.is_bottommost ==> lower.len() == 0,
    ensures
        ({
            let before = crate::mvcc::reader::read_parts(
                crate::mvcc::reader::seen_at(versions + lower, snapshot),
            );
            let after = crate::mvcc::reader::read_parts(
                crate::mvcc::reader::seen_at(row::rows_view(out@) + lower, snapshot),
            );
            ||| after == before
            ||| {
                &&& before.operands.len() > 0
                &&& after.operands.len() == 0
                &&& job.merge_operator is Some
                &&& exists|merged: Vec<u8>|
                    #[trigger] merge_operator::may_merge(
                        job.merge_operator->0,
                        versions[0].key,
                        before.base,
                        before.operands,
                        Ok::<Vec<u8>, ForstError>(merged),
                    ) && after.base == Some(merged@)
            }
        }),
{
    let v = choose|v: VerdictView|
        {
            &&& key_versions::consults_filter(versions, job.min_active_snapshot.0)
                ==> verdict_possible(job.compaction_filter, job.output_level, versions[0], v)
            &&& outcome_result(
                job.merge_operator,
                versions,
                #[trigger] key_versions::key_outcome(
                    versions,
                    job.min_active_snapshot.0,
                    job.is_bottommost,
                    job.merge_operator is Some,
                    v,
                ),
                Ok(out),
            )
        };
    let min = job.min_active_snapshot.0;
    let low = key_versions::below(min);
    coding::lemma_first_index_props(versions, low);
    let outcome = key_versions::key_outcome(
        versions,
        min,
        job.is_bottommost,
        job.merge_operator is Some,
        VerdictView::Keep,
    );
    assert(key_versions::key_outcome(
        versions,
        min,
        job.is_bottommost,
        job.merge_operator is Some,
        v,
    ) == outcome);
    crate::mvcc::reader::law_compaction_preserves_reads_over_older_rows(
        versions,
        lower,
        min,
        job.is_bottommost,
        job.merge_operator is Some,
        VerdictView::Keep,
        snapshot,
    );
    if let KeyOutcome::Collapse { base, operands } = outcome {
        let m = choose|m: ForstResult<Vec<u8>>|
            #[trigger] merge_operator::may_merge(
                job.merge_operator->0,
                versions[0].key,
                base,
                operands,
                m,
            ) && (match m {
                Ok(merged) => row::rows_view(out@) == seq![
                    key_versions::collapsed_row(versions[0], merged@),
                ],
                Err(e) => Ok::<Vec<Row>, ForstError>(out) == Err::<Vec<Row>, ForstError>(e),
            });
        let merged = m->Ok_0;
        assert(merge_operator::may_merge(
            job.merge_operator->0,
            versions[0].key,
            base,
            operands,
            Ok::<Vec<u8>, ForstError>(merged),
        ));
        assert(row::rows_view(out@) == seq![key_versions::collapsed_row(versions[0], merged@)]);
        assert(crate::mvcc::reader::read_parts(
            crate::mvcc::reader::seen_at(
                seq![key_versions::collapsed_row(versions[0], merged@)] + lower,
                snapshot,
            ),
        ).operands.len() == 0);
        assert(versions[0].op_type is Merge);
        coding::lemma_first_index_props(versions, key_versions::terminal());
        assert(operands.len() > 0) by {
            if coding::first_index(versions, key_versions::terminal()) == 0 {
                assert(key_versions::terminal()(versions[0]));
            }
        }
        assert(crate::mvcc::reader::read_parts(
            crate::mvcc::reader::seen_at(row::rows_view(out@) + lower, snapshot),
        ).base == Some(merged@));
    } else {
        assert(outcome is Rows);
        assert(outcome->Rows_0 == row::rows_view(out@));
        assert(crate::mvcc::reader::read_parts(
            crate::mvcc::reader::seen_at(row::rows_view(out@) + lower, snapshot),
        ) == crate::mvcc::reader::read_parts(
            crate::mvcc::reader::seen_at(versions + lower, snapshot),
        ));
    }
}

/// The filter is asked about the newest version of a key that no snapshot pins,
/// at the level that is written, and its verdict is carried out: a discarded key
/// is gone from the bottommost level, a replacement is the one row that is left,
/// and a key that stays is written as without a filter.
pub proof fn law_filter_verdict_is_carried_out<F: CompactionFilter, M: MergeOperator>(
    job: CompactionJob<F, M>,
    bare: CompactionJob<F, M>,
    versions: Seq<RowView>,
    result: ForstResult<Vec<Row>>,
)
    requires
        versions.len() > 0,
        job.emission_possible(versions, result),
        bare.compaction_filter is None,
        bare.min_active_snapshot == job.min_active_snapshot,
        bare.is_bottommost == job.is_bottommost,
        bare.merge_operator == job.merge_operator,
    ensures
        versions[0].sequence >= job.min_active_snapshot.0 || job.compaction_filter is None
            ==> bare.emission_possible(versions, result),
        versions[0].sequence < job.min_active_snapshot.0 && job.compaction_filter is Some
            ==> exists|d: CompactionDecision, o: Seq<u8>|
            {
                &&& #[trigger] (job.compaction_filter->0).may_decide(
                    job.output_level,
                    versions[0].key,
                    versions[0].value,
                    versions[0].sequence,
                    versions[0].op_type,
                    Seq::empty(),
                    d,
                    o,
                )
                &&& match d {
                    CompactionDecision::Keep => bare.emission_possible(versions, result),
                    CompactionDecision::Discard => if job.is_bottommost {
                        result matches Ok(out) && out@.len() == 0
                    } else {
                        bare.emission_possible(versions, result)
                    },
                    CompactionDecision::Replace => {
                        &&& result matches Ok(out)
                        &&& out@.len() == 1
                        &&& out@[0]@ == (RowView { value: Some(o), ..versions[0] })
                    },
                }
            },
{
    let min = job.min_active_snapshot.0;
    let v = choose|v: VerdictView|
        {
            &&& key_versions::consults_filter(versions, min) ==> verdict_possible(
                job.compaction_filter,
                job.output_level,
                versions[0],
                v,
            )
            &&& outcome_result(
                job.merge_operator,
                versions,
                #[trigger] key_versions::key_outcome(
                    versions,
                    min,
                    job.is_bottommost,
                    job.merge_operator is Some,
                    v,
                ),
                result,
            )
        };
    let low = key_versions::below(min);
    coding::lemma_first_index_props(versions, low);
    key_versions::law_verdict_counts_for_unpinned_keys(
        versions,
        min,
        job.is_bottommost,
        job.merge_operator is Some,
        v,
        VerdictView::Keep,
    );
    let kept = key_versions::key_outcome(
        versions,
        min,
        job.is_bottommost,
        job.merge_operator is Some,
        VerdictView::Keep,
    );
    assert(outcome_result(job.merge_operator, versions, kept, result)
        ==> bare.emission_possible(versions, result));
    if versions[0].sequence >= min {
        if key_versions::pinned_count(versions, min) == 0 {
            assert(low(versions[0]));
        }
    } else {
        assert(low(versions[0]));
        coding::lemma_first_index(versions, low, 0);
        assert(key_versions::consults_filter(versions, min));
        if job.compaction_filter is Some {
            let (d, o) = choose|d: CompactionDecision, o: Seq<u8>|
                #[trigger] (job.compaction_filter->0).may_decide(
                    job.output_level,
                    versions[0].key,
                    versions[0].value,
                    versions[0].sequence,
                    versions[0].op_type,
                    Seq::empty(),
                    d,
                    o,
                ) && v == verdict_of(d, o);
            if let Ok(out) = result {
                assert(row::rows_view(out@).len() == out@.len());
                if d is Replace {
                    assert(row::rows_view(out@)[0] == out@[0]@);
                }
            }
        }
    }
}

/// Rows written for a key are rows of that key, no more than it had versions, and
/// each with the sequence number of one of them; without a filter a key is never
/// left without a row above the bottommost level, and its newest row has the
/// newest sequence number.
pub proof fn law_rows_are_of_their_key<F: CompactionFilter, M: MergeOperator>(
    job: CompactionJob<F, M>,
    versions: Seq<RowView>,
    out: Vec<Row>,
    key: Seq<u8>,
)
    requires
        job.emission_possible(versions, Ok(out)),
        versions.len() > 0,
        forall|i: int| 0 <= i < versions.len() ==> (#[trigger] versions[i]).key == key,
    ensures
        out@.len() <= versions.len(),
        forall|j: int|
            0 <= j < out@.len() ==> (#[trigger] out@[j])@.key == key && out@[j]@.sequence
                == versions[j].sequence,
        job.compaction_filter is None && !job.is_bottommost ==> out@.len() > 0,
{
    let min = job.min_active_snapshot.0;
    let v = choose|v: VerdictView|
        {
            &&& key_versions::consults_filter(versions, min) ==> verdict_possible(
                job.compaction_filter,
                job.output_level,
                versions[0],
                v,
            )
            &&& outcome_result(
                job.merge_operator,
                versions,
                #[trigger] key_versions::key_outcome(
                    versions,
                    min,
                    job.is_bottommost,
                    job.merge_operator is Some,
                    v,
                ),
                Ok(out),
            )
        };
    let rows = row::rows_view(out@);
    let p = key_versions::below(min);
    coding::lemma_first_index_props(versions, p);
    coding::lemma_first_index_props(
        versions.skip(key_versions::pinned_count(versions, min)),
        key_versions::terminal(),
    );
    assert(rows.len() <= versions.len());
    assert(versions[0].key == key);
    assert forall|j: int| 0 <= j < out@.len() implies (#[trigger] out@[j])@.key == key
        && out@[j]@.sequence == versions[j].sequence by {
        assert(rows[j] == out@[j]@);
        assert(versions[j].key == key);
    }
}

/// Only a chain of merge operands on top of a key that no snapshot pins can fail
/// to be written.
pub proof fn law_only_merge_chains_fail<F: CompactionFilter, M: MergeOperator>(
    job: CompactionJob<F, M>,
    versions: Seq<RowView>,
    e: ForstError,
)
    requires
        job.emission_possible(versions, Err::<Vec<Row>, ForstError>(e)),
    ensures
        versions.len() > 0,
        versions[0].op_type is Merge,
        versions[0].sequence < job.min_active_snapshot.0,
{
    let p = key_versions::below(job.min_active_snapshot.0);
    coding::lemma_first_index_props(versions, p);
    assert(versions.len() > 0 && key_versions::pinned_count(versions, job.min_active_snapshot.0)
        == 0 ==> p(versions[0]));
}

/// The entries split by key: nothing is lost and nothing changes its place, each
/// group is of one key, and neighbours are of different keys.
pub proof fn law_groups_are_the_keys(s: Seq<EntryView>, k: int, i: int)
    requires
        0 <= k < key_groups(s).len(),
        0 <= i < key_groups(s)[k].len(),
    ensures
        merge_runs::flat(key_groups(s)) == s,
        key_groups(s)[k][i].row.key == key_groups(s)[k][0].row.key,
        k > 0 ==> key_groups(s)[k - 1].len() > 0 && key_groups(s)[k][0].row.key
            != key_groups(s)[k - 1][0].row.key,
    decreases s.len(),
{
    let key = s[0].row.key;
    let p = merge_runs::other_key(key);
    let n = merge_runs::head_len(s, key);
    lemma_group_nonempty(s);
    coding::lemma_first_index_props(s, p);
    let head = s.take(n);
    let tail = s.skip(n);
    let rest = key_groups(tail);
    assert(key_groups(s) == seq![head] + rest);
    lemma_groups_flat(s);
    if k == 0 {
        assert(!p(s[i]) && !p(s[0]));
    } else {
        law_groups_are_the_keys(tail, k - 1, i);
        if k == 1 {
            lemma_group_nonempty(tail);
            coding::lemma_first_index_props(tail, merge_runs::other_key(tail[0].row.key));
            assert(rest[0][0] == tail[0]);
            assert(tail[0] == s[n]);
            assert(p(s[n]));
            assert(!p(s[0]));
        }
    }
}

proof fn lemma_groups_flat(s: Seq<EntryView>)
    ensures
        merge_runs::flat(key_groups(s)) == s,
    decreases s.len(),
{
    if s.len() == 0 {
        assert(merge_runs::flat(key_groups(s)) =~= s);
    } else {
        let n = merge_runs::head_len(s, s[0].row.key);
        lemma_group_nonempty(s);
        coding::lemma_first_index_props(s, merge_runs::other_key(s[0].row.key));
        lemma_groups_flat(s.skip(n));
        lemma_flat_front(s.take(n), key_groups(s.skip(n)));
        assert(s.take(n) + s.skip(n) =~= s);
    }
}

proof fn lemma_flat_front(head: Seq<EntryView>, rest: Seq<Seq<EntryView>>)
    ensures
        merge_runs::flat(seq![head] + rest) == head + merge_runs::flat(rest),
    decreases rest.len(),
{
    let all = seq![head] + rest;
    if rest.len() == 0 {
        assert(all.drop_last() =~= Seq::<Seq<EntryView>>::empty());
        assert(all.last() == head);
        assert(merge_runs::flat(all.drop_last()) =~= Seq::<EntryView>::empty());
        assert(merge_runs::flat(all) =~= head);
        assert(head + merge_runs::flat(rest) =~= head);
    } else {
        lemma_flat_front(head, rest.drop_last());
        assert(all.drop_last() =~= seq![head] + rest.drop_last());
        assert(all.last() == rest.last());
        assert(merge_runs::flat(all) == (head + merge_runs::flat(rest.drop_last())) + rest.last());
        assert(merge_runs::flat(all) =~= head + (merge_runs::flat(rest.drop_last()) + rest.last()));
    }
}

/// An edit takes away every input and nothing else, and adds every finished
/// output at the output level under its own number, with what the writer reported
/// of it. The sequence number that it records is the highest of the outputs, or of
/// the inputs where there is no output; none if that is 0.
pub proof fn law_edit_swaps_inputs_for_outputs(
    cf_id: ColumnFamilyId,
    output_level: u32,
    inputs: Seq<CompactionInput>,
    produced: Seq<(FileNumber, SstFileInfo)>,
    edit: VersionEdit,
)
    requires
        edit_of(cf_id, output_level, inputs, produced, edit),
    ensures
        edit.deleted_files@.len() == inputs.len(),
        forall|i: int|
            0 <= i < inputs.len() ==> (#[trigger] edit.deleted_files@[i]).0 == inputs[i].level
                && edit.deleted_files@[i].1 == inputs[i].meta.file_number,
        edit.new_files@.len() == produced.len(),
        forall|i: int|
            0 <= i < produced.len() ==> {
                let f = (#[trigger] edit.new_files@[i]).1;
                let info = produced[i].1;
                &&& edit.new_files@[i].0 == output_level
                &&& f.file_number == produced[i].0
                &&& f.cf_id == cf_id
                &&& f.file_size == info.file_size
                &&& f.smallest_key@ == info.min_key@
                &&& f.largest_key@ == info.max_key@
                &&& f.min_sequence.0 == info.min_sequence
                &&& f.max_sequence.0 == info.max_sequence
                &&& f.num_entries == info.entry_count
                &&& f.max_death == 0
            },
        edit.next_file_number is None,
        ({
            let seqs = if produced.len() == 0 {
                Seq::new(inputs.len(), |i: int| inputs[i].meta.max_sequence.0)
            } else {
                Seq::new(produced.len(), |i: int| produced[i].1.max_sequence)
            };
            match edit.last_sequence {
                None => forall|i: int| 0 <= i < seqs.len() ==> #[trigger] seqs[i] == 0,
                Some(m) => m.0 > 0 && seqs.contains(m.0) && forall|i: int|
                    0 <= i < seqs.len() ==> #[trigger] seqs[i] <= m.0,
            }
        }),
{
    let metas = version::leveled_metas(edit.new_files@);
    assert(metas.len() == edit.new_files@.len());
    assert(metas.len() == produced.len());
    assert forall|i: int| 0 <= i < produced.len() implies ({
        let f = (#[trigger] edit.new_files@[i]).1;
        let info = produced[i].1;
        &&& edit.new_files@[i].0 == output_level
        &&& f.file_number == produced[i].0
        &&& f.cf_id == cf_id
        &&& f.file_size == info.file_size
        &&& f.smallest_key@ == info.min_key@
        &&& f.largest_key@ == info.max_key@
        &&& f.min_sequence.0 == info.min_sequence
        &&& f.max_sequence.0 == info.max_sequence
        &&& f.num_entries == info.entry_count
        &&& f.max_death == 0
    }) by {
        assert(metas[i] == (edit.new_files@[i].0, edit.new_files@[i].1@));
    }
    let seqs = if produced.len() == 0 {
        Seq::new(inputs.len(), |i: int| inputs[i].meta.max_sequence.0)
    } else {
        Seq::new(produced.len(), |i: int| produced[i].1.max_sequence)
    };
    lemma_max_of(seqs);
}

proof fn lemma_max_of(s: Seq<u64>)
    ensures
        forall|i: int| 0 <= i < s.len() ==> #[trigger] s[i] <= max_of(s),
        max_of(s) > 0 ==> s.contains(max_of(s)),
    decreases s.len(),
{
    if s.len() > 0 {
        let front = s.drop_last();
        lemma_max_of(front);
        assert forall|i: int| 0 <= i < s.len() implies #[trigger] s[i] <= max_of(s) by {
            if i < front.len() {
                assert(front[i] == s[i]);
            }
        }
        if max_of(s) > 0 {
            if s.last() > max_of(front) {
                assert(s[s.len() - 1] == max_of(s));
            } else {
                let i = choose|i: int| 0 <= i < front.len() && front[i] == max_of(front);
                assert(s[i] == max_of(s));
            }
        }
    }
}

/// The bytes that an entry counts for: those of its key and its value, and 16.
spec fn bytes_of_entry(e: EntryView) -> nat {
    e.row.key.len() + 16 + if e.row.value is Some {
        e.row.value->0.len()
    } else {
        0
    }
}

/// The bytes of the entries from `a` up to `b`.
spec fn bytes_between(all: Seq<EntryView>, a: int, b: int) -> nat
    decreases b - a,
{
    if a >= b {
        0
    } else {
        bytes_of_entry(all[a]) + bytes_between(all, a + 1, b)
    }
}

proof fn lemma_bytes_between(all: Seq<EntryView>, a: int, b: int)
    ensures
        bytes_between(all, a, b) == span_weight(all, a, b),
    decreases b - a,
{
    if a < b {
        lemma_bytes_between(all, a + 1, b);
        lemma_span_front(all, a, b);
    }
}

proof fn lemma_span_front(all: Seq<EntryView>, a: int, b: int)
    requires
        a < b,
    ensures
        span_weight(all, a, b) == entry_weight(all[a]) + span_weight(all, a + 1, b),
    decreases b - a,
{
    if a + 1 < b {
        lemma_span_front(all, a, b - 1);
    } else {
        assert(span_weight(all, a, b - 1) == 0);
        assert(span_weight(all, a + 1, b) == 0);
    }
}

/// A partition begins at the first entry and cuts where the key changes, as soon
/// as the part has `target` bytes: each part but the last has that many, and would
/// not have had them at an earlier change of the key. There are at most `n` parts;
/// with fewer, the last one could not have been cut either.
pub proof fn law_parts_fill_up_to_the_target(
    all: Seq<EntryView>,
    n: nat,
    target: nat,
    cuts: Seq<usize>,
    k: int,
)
    requires
        is_partition(all, n, target, cuts),
        0 <= k < cuts.len(),
    ensures
        cuts[0] == 0,
        cuts.len() <= n,
        k > 0 ==> {
            &&& cuts[k - 1] < cuts[k] < all.len()
            &&& all[cuts[k] as int].row.key != all[cuts[k] - 1].row.key
            &&& sum_between(all, cuts[k - 1] as int, cuts[k] as int) >= target
            &&& forall|j: int|
                cuts[k - 1] < j < cuts[k] && (#[trigger] all[j]).row.key != all[j - 1].row.key
                    ==> sum_between(all, cuts[k - 1] as int, j) < target
        },
        cuts.len() < n ==> forall|j: int|
            cuts.last() < j < all.len() && (#[trigger] all[j]).row.key != all[j - 1].row.key
                ==> sum_between(all, cuts.last() as int, j) < target,
{
    if k > 0 {
        let a = cuts[k - 1] as int;
        let b = cuts[k] as int;
        assert(cut_at(all, target, a, b));
        lemma_bytes_between(all, a, b);
        assert forall|j: int| a < j < b && (#[trigger] all[j]).row.key != all[j
            - 1].row.key implies sum_between(all, a, j) < target by {
            assert(key_boundary(all, j));
            lemma_bytes_between(all, a, j);
        }
    }
    if cuts.len() < n {
        let a = cuts.last() as int;
        assert forall|j: int| a < j < all.len() && (#[trigger] all[j]).row.key != all[j
            - 1].row.key implies sum_between(all, a, j) < target by {
            assert(key_boundary(all, j));
            lemma_bytes_between(all, a, j);
        }
    }
}

/// The bytes of keys and values of the entries from `a` up to `b`, with 16 more
/// for each.
pub closed spec fn sum_between(all: Seq<EntryView>, a: int, b: int) -> nat {
    bytes_between(all, a, b)
}

/// Parts that begin at the cuts and end at the next, the last one at the end,
/// hold every entry once.
pub proof fn law_parts_cover_all(cuts: Seq<usize>, k: int, total: nat)
    requires
        0 <= k < cuts.len(),
    ensures
        k + 1 < cuts.len() ==> part_end(cuts, k, total) == cuts[k + 1],
        k + 1 == cuts.len() ==> part_end(cuts, k, total) == total,
{
}

/// Of the parts that were written the files come in order; a part that wrote
/// nothing has none.
pub proof fn law_part_files_in_order(results: Seq<PartResult>, last: PartResult)
    ensures
        part_files(Seq::empty()).len() == 0,
        part_files(results.push(last)) == match last {
            Ok(Some(file)) => part_files(results).push(file),
            _ => part_files(results),
        },
{
    assert(results.push(last).drop_last() =~= results);
}

/// What a job merges: the rows of each input in their order, as rows of its file.
pub proof fn law_inputs_are_rows_of_their_files(inputs: Seq<CompactionInput>, i: int, j: int)
    ensures
        input_runs(inputs).len() == inputs.len(),
        0 <= i < inputs.len() ==> input_runs(inputs)[i].len() == inputs[i].rows@.len(),
        0 <= i < inputs.len() && 0 <= j < inputs[i].rows@.len() ==> {
            &&& input_runs(inputs)[i][j].row == inputs[i].rows@[j]@
            &&& input_runs(inputs)[i][j].file_number == inputs[i].meta.file_number.0
        },
{
}

/// The outputs of a job in the order in which they are filled: its own first.
pub proof fn law_own_output_is_filled_first<F: CompactionFilter, M: MergeOperator>(
    job: CompactionJob<F, M>,
    i: int,
)
    ensures
        job.slots().len() == job.additional_outputs@.len() + 1,
        job.slots()[0] == (job.output_file_number, job.output_path@),
        0 <= i < job.additional_outputs@.len() ==> job.slots()[i + 1] == (
            job.additional_outputs@[i].0,
            job.additional_outputs@[i].1@,
        ),
{
}

/// Every key is emitted by itself, in its place: from its own versions alone.
pub proof fn law_groups_are_emitted_one_by_one<F: CompactionFilter, M: MergeOperator>(
    job: CompactionJob<F, M>,
    groups: Seq<Seq<EntryView>>,
    outs: Seq<Seq<RowView>>,
    k: int,
    versions: Seq<RowView>,
)
    requires
        job.groups_emitted(groups, outs),
        0 <= k < groups.len() ==> versions.len() == groups[k].len() && forall|i: int|
            0 <= i < versions.len() ==> #[trigger] versions[i] == groups[k][i].row,
    ensures
        groups.len() == outs.len(),
        0 <= k < groups.len() ==> exists|rows: Vec<Row>| #[trigger]
            job.emission_possible(versions, Ok(rows)) && row::rows_view(rows@) == outs[k],
{
    if 0 <= k < groups.len() {
        assert(job.group_emitted(groups[k], outs[k]));
        assert(entry_rows(groups[k]) =~= versions);
    }
}

/// Grouping by key loses no entry and changes no order.
pub proof fn law_groups_hold_all_entries(s: Seq<EntryView>, k: int)
    ensures
        merge_runs::flat(key_groups(s)) == s,
        0 <= k < key_groups(s).len() ==> key_groups(s)[k].len() > 0,
    decreases s.len(),
{
    lemma_groups_flat(s);
    if s.len() > 0 {
        let n = merge_runs::head_len(s, s[0].row.key);
        let p = merge_runs::other_key(s[0].row.key);
        coding::lemma_first_index_props(s, p);
        assert(!p(s[0]));
        law_groups_hold_all_entries(s.skip(n), k - 1);
        assert(key_groups(s) == seq![s.take(n)] + key_groups(s.skip(n)));
    }
}

/// Rows of several keys are written one key after the other.
pub proof fn law_emitted_rows_are_in_order(outs: Seq<Seq<RowView>>, last: Seq<RowView>)
    ensures
        all_rows(Seq::empty()).len() == 0,
        all_rows(outs.push(last)) == all_rows(outs) + last,
{
    assert(outs.push(last).drop_last() =~= outs);
}

/// Sizes are added up to the largest number of 64 bits.
pub proof fn law_sizes_are_capped(w: nat)
    ensures
        w <= 0xffff_ffff_ffff_ffff ==> capped(w) == w,
        w > 0xffff_ffff_ffff_ffff ==> capped(w) == 0xffff_ffff_ffff_ffff,
{
}

/// A part of a job is the job but for its rows: the same files at the same levels and
/// the same settings.
pub proof fn law_parts_keep_the_job<F: CompactionFilter, M: MergeOperator>(
    a: CompactionJob<F, M>,
    b: CompactionJob<F, M>,
    versions: Seq<RowView>,
    result: ForstResult<Vec<Row>>,
    i: int,
)
    requires
        same_job(a, b),
    ensures
        a.emission_possible(versions, result) == b.emission_possible(versions, result),
        a.slots() == b.slots(),
        a.cf_id == b.cf_id,
        a.output_level == b.output_level,
        a.target_file_size == b.target_file_size,
        a.writer_options == b.writer_options,
        a.kv_gc == b.kv_gc,
        a.inputs@.len() == b.inputs@.len(),
        0 <= i < a.inputs@.len() ==> a.inputs@[i].level == b.inputs@[i].level && a.inputs@[i].meta
            == b.inputs@[i].meta,
{
}

/// The size of a part is counted entry by entry: the bytes of the key, those of the
/// value and 16 more.
pub proof fn law_part_sizes_are_counted(all: Seq<EntryView>, a: int, b: int)
    requires
        0 <= a <= b < all.len(),
    ensures
        span_weight(all, a, a) == 0,
        span_weight(all, a, b + 1) == span_weight(all, a, b) + 16 + all[b].row.key.len() + (
        match all[b].row.value {
            Some(v) => v.len() as int,
            None => 0,
        }),
        sum_between(all, a, b) == span_weight(all, a, b),
{
    lemma_bytes_between(all, a, b);
}

} // verus!
