//! Flush: from a frozen memtable to a table file.
//!
//! The logic works on rows. The caller reads them from the memtable, writes
//! what [`FlushJob::prepare`] gives, and hands the writer's report to
//! [`FlushJob::finish`].

use crate::bytes;
use crate::bytes::{bytes_equal, copy_bytes, copy_opt_bytes};
use crate::coding;
use crate::error::{corruption_text, invalid_argument_text, ErrorKind, ForstError, ForstResult};
use crate::merge_operator;
use crate::merge_operator::{call_full_merge, MergeOperator};
use crate::paths;
use crate::paths::{parent_dir, sst_temp_path};
use crate::row;
use crate::row::RowView;
use crate::types::{ColumnFamilyId, CompressionType, FileNumber, OpType};
use crate::version;
use crate::version::{
    info_to_meta, SstFileInfo, SstFileMeta, SstWriterOptions, VlogSegmentMeta,
};
use vstd::prelude::*;
use vstd::string::*;

verus! {

/// Rows that are read from the memtable at a time.
pub const FLUSH_BATCH_SIZE: usize = 8192;

/// Operation code of a `Put`.
pub const PUT_OP: u8 = 0;

/// Operation code of a `Delete`.
pub const DELETE_OP: u8 = 1;

/// Operation code of a `SingleDelete`.
pub const SINGLE_DELETE_OP: u8 = 2;

/// Operation code of a `Merge`.
pub const MERGE_OP: u8 = 3;

/// Operation code of a row whose value is a pointer into the value log.
pub const BLOB_REF_OP: u8 = 4;

/// The contents of a [`FlushRow`].
pub struct FlushRowView {
    pub key: Seq<u8>,
    pub value: Option<Seq<u8>>,
    pub sequence: u64,
    pub op: u8,
}

/// One memtable row. A row without a payload has no value.
#[derive(Debug, Clone, PartialEq, Eq)]
pub struct FlushRow {
    pub key: Vec<u8>,
    pub value: Option<Vec<u8>>,
    pub sequence: u64,
    pub op: u8,
}

impl View for FlushRow {
    type V = FlushRowView;

    open spec fn view(&self) -> FlushRowView {
        FlushRowView {
            key: self.key@,
            value: bytes::opt_bytes(self.value),
            sequence: self.sequence,
            op: self.op,
        }
    }
}

/// The contents of several rows.
pub open spec fn rows_view(rows: Seq<FlushRow>) -> Seq<FlushRowView> {
    Seq::new(rows.len(), |i: int| rows[i]@)
}

/// The contents of several batches, one after the other.
pub open spec fn batches_view(batches: Seq<Vec<FlushRow>>) -> Seq<FlushRowView>
    decreases batches.len(),
{
    if batches.len() == 0 {
        Seq::empty()
    } else {
        batches_view(batches.drop_last()) + rows_view(batches.last()@)
    }
}

proof fn lemma_rows_push(rows: Seq<FlushRow>, r: FlushRow)
    ensures
        rows_view(rows.push(r)) == rows_view(rows).push(r@),
{
    assert(rows_view(rows.push(r)) =~= rows_view(rows).push(r@));
}

/// Payload bytes of a row; a missing payload reads as empty.
pub open spec fn payload(r: FlushRowView) -> Seq<u8> {
    match r.value {
        Some(v) => v,
        None => Seq::empty(),
    }
}

/// The row with its payload made explicit.
pub open spec fn with_payload(r: FlushRowView) -> FlushRowView {
    FlushRowView { key: r.key, value: Some(payload(r)), sequence: r.sequence, op: r.op }
}

/// The rows with their payloads made explicit.
pub open spec fn with_payloads(rows: Seq<FlushRowView>) -> Seq<FlushRowView> {
    Seq::new(rows.len(), |i: int| with_payload(rows[i]))
}

/// Directive to move large values to a value-log segment.
#[derive(Debug, Clone, Copy, PartialEq, Eq, Structural)]
pub struct KvSepSpec {
    /// Id of the segment.
    pub segment_id: FileNumber,
    /// Values shorter than this stay inline.
    pub min_blob_size: usize,
    /// Compression of the payloads.
    pub vlog_compression: CompressionType,
}

/// Directive to fold merge chains at flush time. Only for a flush that no live
/// snapshot looks at.
pub struct FlushCollapseSpec<M: MergeOperator> {
    /// Folds the operands of a key.
    pub merge_operator: M,
}

/// The row does not belong to `key`.
pub open spec fn other_key(key: Seq<u8>) -> spec_fn(FlushRowView) -> bool {
    |r: FlushRowView| r.key != key
}

/// The row is not a merge operand.
pub open spec fn not_operand() -> spec_fn(FlushRowView) -> bool {
    |r: FlushRowView| r.op != MERGE_OP
}

/// The rows split by key.
pub open spec fn key_groups(rows: Seq<FlushRowView>) -> Seq<Seq<FlushRowView>>
    decreases rows.len(),
{
    if rows.len() == 0 {
        Seq::empty()
    } else {
        let n = coding::first_index(rows, other_key(rows[0].key));
        if 0 < n <= rows.len() {
            seq![rows.take(n)] + key_groups(rows.skip(n))
        } else {
            Seq::empty()
        }
    }
}

/// What becomes of the rows of one key.
pub enum GroupOutcome {
    /// These rows are written.
    Rows(Seq<FlushRowView>),
    /// One `Put` is written: the merge of the operands, oldest first, into the
    /// base.
    Fold { base: Option<Seq<u8>>, operands: Seq<Seq<u8>> },
}

/// What becomes of the rows of one key, newest first. Without a merge operand
/// on top the newest row stands alone. Operands over a `Put`, over a deletion
/// or over nothing are folded. Operands over anything else stay as they are.
pub open spec fn group_outcome(group: Seq<FlushRowView>) -> GroupOutcome {
    let n = coding::first_index(group, not_operand());
    if n == 0 {
        GroupOutcome::Rows(seq![with_payload(group[0])])
    } else if n < group.len() && group[n].op != PUT_OP && group[n].op != DELETE_OP && group[n].op
        != SINGLE_DELETE_OP {
        GroupOutcome::Rows(with_payloads(group))
    } else {
        GroupOutcome::Fold {
            base: if n < group.len() && group[n].op == PUT_OP {
                Some(payload(group[n]))
            } else {
                None
            },
            operands: Seq::new(n as nat, |i: int| payload(group[n - 1 - i])),
        }
    }
}

/// The row that a folded chain becomes.
pub open spec fn folded_row(newest: FlushRowView, merged: Seq<u8>) -> FlushRowView {
    FlushRowView {
        key: newest.key,
        value: Some(merged),
        sequence: newest.sequence,
        op: PUT_OP,
    }
}

/// `out` may come of the rows of one key.
pub open spec fn group_collapsed<M: MergeOperator>(
    op: M,
    group: Seq<FlushRowView>,
    out: Seq<FlushRowView>,
) -> bool {
    match group_outcome(group) {
        GroupOutcome::Rows(rows) => out == rows,
        GroupOutcome::Fold { base, operands } => exists|merged: Vec<u8>|
            #[trigger] merge_operator::may_merge(
                op,
                group[0].key,
                base,
                operands,
                Ok::<Vec<u8>, ForstError>(merged),
            ) && out == seq![folded_row(group[0], merged@)],
    }
}

/// `outs` may come of `groups`.
pub open spec fn groups_collapsed<M: MergeOperator>(
    op: M,
    groups: Seq<Seq<FlushRowView>>,
    outs: Seq<Seq<FlushRowView>>,
) -> bool {
    &&& groups.len() == outs.len()
    &&& forall|k: int| 0 <= k < groups.len() ==> group_collapsed(op, #[trigger] groups[k], outs[k])
}

/// The operator failed with `e` on one of the groups, after those before it
/// went through.
pub open spec fn collapse_failed<M: MergeOperator>(
    op: M,
    groups: Seq<Seq<FlushRowView>>,
    e: ForstError,
) -> bool {
    exists|k: int, outs: Seq<Seq<FlushRowView>>|
        {
            &&& 0 <= k < groups.len()
            &&& #[trigger] groups_collapsed(op, groups.take(k), outs)
            &&& fold_failed(op, groups[k], e)
        }
}

/// The group folds, and the operator may fail on it with `e`.
pub open spec fn fold_failed<M: MergeOperator>(
    op: M,
    group: Seq<FlushRowView>,
    e: ForstError,
) -> bool {
    match group_outcome(group) {
        GroupOutcome::Rows(_) => false,
        GroupOutcome::Fold { base, operands } => merge_operator::may_merge(
            op,
            group[0].key,
            base,
            operands,
            Err::<Vec<u8>, ForstError>(e),
        ),
    }
}

/// Several lists of rows, one after the other.
pub open spec fn all_rows(outs: Seq<Seq<FlushRowView>>) -> Seq<FlushRowView>
    decreases outs.len(),
{
    if outs.len() == 0 {
        Seq::empty()
    } else {
        all_rows(outs.drop_last()) + outs.last()
    }
}

fn payload_copy(r: &FlushRow) -> (v: Vec<u8>)
    ensures
        v@ == payload(r@),
{
    match &r.value {
        Some(b) => copy_bytes(b.as_slice()),
        None => {
            let v: Vec<u8> = Vec::new();
            assert(v@ =~= Seq::<u8>::empty());
            v
        },
    }
}

fn row_with_payload(r: &FlushRow) -> (out: FlushRow)
    ensures
        out@ == with_payload(r@),
{
    FlushRow {
        key: copy_bytes(r.key.as_slice()),
        value: Some(payload_copy(r)),
        sequence: r.sequence,
        op: r.op,
    }
}

fn row_copy(r: &FlushRow) -> (out: FlushRow)
    ensures
        out@ == r@,
{
    FlushRow {
        key: copy_bytes(r.key.as_slice()),
        value: copy_opt_bytes(&r.value),
        sequence: r.sequence,
        op: r.op,
    }
}

/// Folds the rows of one key.
fn collapse_group<M: MergeOperator>(rows: &[FlushRow], from: usize, to: usize, op: &M) -> (r:
    ForstResult<Vec<FlushRow>>)
    requires
        from < to <= rows@.len(),
    ensures
        ({
            let group = rows_view(rows@).subrange(from as int, to as int);
            match r {
                Ok(out) => group_collapsed(*op, group, rows_view(out@)),
                Err(e) => fold_failed(*op, group, e),
            }
        }),
{
    let ghost group = rows_view(rows@).subrange(from as int, to as int);
    let mut n: usize = 0;
    while from + n < to && rows[from + n].op == MERGE_OP
        invariant
            from + n <= to <= rows@.len(),
            group == rows_view(rows@).subrange(from as int, to as int),
            forall|k: int| 0 <= k < n ==> (#[trigger] group[k]).op == MERGE_OP,
        decreases to - from - n,
    {
        assert(group[n as int] == rows@[from + n]@);
        n += 1;
    }
    proof {
        let p = not_operand();
        assert forall|k: int| 0 <= k < n implies !p(#[trigger] group[k]) by {}
        if from + n < to {
            assert(group[n as int] == rows@[from + n]@);
            assert(p(group[n as int]));
        }
        coding::lemma_first_index(group, p, n as int);
        assert(group[0] == rows@[from as int]@);
    }
    let mut out: Vec<FlushRow> = Vec::new();
    if n == 0 {
        out.push(row_with_payload(&rows[from]));
        assert(rows_view(out@) =~= seq![with_payload(group[0])]);
        return Ok(out);
    }
    let has_base: bool = from + n < to;
    if has_base {
        let b: u8 = rows[from + n].op;
        if b != PUT_OP && b != DELETE_OP && b != SINGLE_DELETE_OP {
            let mut i: usize = from;
            while i < to
                invariant
                    from <= i <= to <= rows@.len(),
                    group == rows_view(rows@).subrange(from as int, to as int),
                    rows_view(out@) == with_payloads(group).take(i - from),
                decreases to - i,
            {
                let r = row_with_payload(&rows[i]);
                proof {
                    lemma_rows_push(out@, r);
                    assert(group[i - from] == rows@[i as int]@);
                }
                out.push(r);
                i += 1;
                assert(rows_view(out@) =~= with_payloads(group).take(i - from));
            }
            assert(rows_view(out@) =~= with_payloads(group));
            return Ok(out);
        }
    }
    let mut operands: Vec<Vec<u8>> = Vec::new();
    let mut i: usize = n;
    while i > 0
        invariant
            i <= n,
            from + n <= to <= rows@.len(),
            group == rows_view(rows@).subrange(from as int, to as int),
            row::byte_strings(operands@) == Seq::new(
                (n - i) as nat,
                |k: int| payload(group[n - 1 - k]),
            ),
        decreases i,
    {
        i = i - 1;
        let o: Vec<u8> = payload_copy(&rows[from + i]);
        proof {
            assert(group[i as int] == rows@[from + i]@);
            row::lemma_strings_push(operands@, o);
        }
        operands.push(o);
        assert(row::byte_strings(operands@) =~= Seq::new(
            (n - i) as nat,
            |k: int| payload(group[n - 1 - k]),
        ));
    }
    let base: Option<Vec<u8>> = if has_base && rows[from + n].op == PUT_OP {
        Some(payload_copy(&rows[from + n]))
    } else {
        None
    };
    let ghost outcome = group_outcome(group);
    proof {
        if from + n < to {
            assert(group[n as int] == rows@[from + n]@);
        }
        assert(outcome is Fold);
        assert(bytes::opt_bytes(base) == outcome->base);
        assert(row::byte_strings(operands@) =~= outcome->operands);
    }
    let merged = call_full_merge(op, rows[from].key.as_slice(), &base, &operands);
    match merged {
        Ok(v) => {
            let ghost vv = v;
            assert(merge_operator::may_merge(
                *op,
                group[0].key,
                outcome->base,
                outcome->operands,
                Ok::<Vec<u8>, ForstError>(vv),
            ));
            let r = FlushRow {
                key: copy_bytes(rows[from].key.as_slice()),
                value: Some(v),
                sequence: rows[from].sequence,
                op: PUT_OP,
            };
            let ghost view = r@;
            out.push(r);
            proof {
                assert(rows_view(out@) =~= seq![folded_row(group[0], vv@)]);
            }
            Ok(out)
        },
        Err(e) => Err(e),
    }
}

/// The rows of several batches in one.
fn flatten(batches: &[Vec<FlushRow>]) -> (r: Vec<FlushRow>)
    ensures
        rows_view(r@) == batches_view(batches@),
{
    let mut out: Vec<FlushRow> = Vec::new();
    let mut i: usize = 0;
    assert(batches@.take(0) =~= Seq::<Vec<FlushRow>>::empty());
    assert(rows_view(out@) =~= batches_view(batches@.take(0)));
    while i < batches.len()
        invariant
            i <= batches@.len(),
            rows_view(out@) == batches_view(batches@.take(i as int)),
        decreases batches@.len() - i,
    {
        let ghost start = rows_view(out@);
        let mut j: usize = 0;
        while j < batches[i].len()
            invariant
                i < batches@.len(),
                j <= batches@[i as int]@.len(),
                rows_view(out@) == start + rows_view(batches@[i as int]@).take(j as int),
            decreases batches@[i as int]@.len() - j,
        {
            let r = row_copy(&batches[i][j]);
            proof {
                lemma_rows_push(out@, r);
            }
            out.push(r);
            j += 1;
            assert(rows_view(out@) =~= start + rows_view(batches@[i as int]@).take(j as int));
        }
        i += 1;
        proof {
            assert(batches@.take(i as int).drop_last() =~= batches@.take(i - 1));
            assert(rows_view(batches@[i - 1]@).take(j as int) =~= rows_view(batches@[i - 1]@));
        }
    }
    assert(batches@.take(i as int) =~= batches@);
    out
}

/// Folds the merge chains of sorted batches (keys ascending, newest first)
/// into one batch. The first error of the operator ends it.
pub fn collapse_merge_runs<M: MergeOperator>(
    batches: &[Vec<FlushRow>],
    directive: &FlushCollapseSpec<M>,
) -> (r: ForstResult<Vec<FlushRow>>)
    ensures
        ({
            let groups = key_groups(batches_view(batches@));
            match r {
                Ok(out) => batches@.len() > 0 && exists|outs: Seq<Seq<FlushRowView>>| #[trigger]
                    groups_collapsed(directive.merge_operator, groups, outs) && rows_view(out@)
                        == all_rows(outs),
                Err(e) => {
                    ||| batches@.len() == 0 && e.says(
                        ErrorKind::Corruption,
                        "collapse: empty batch list"@,
                    )
                    ||| batches@.len() > 0 && collapse_failed(directive.merge_operator, groups, e)
                },
            }
        }),
        batches@.len() == 0 ==> r is Err,
{
    if batches.len() == 0 {
        return Err(corruption_text("collapse: empty batch list"));
    }
    let rows: Vec<FlushRow> = flatten(batches);
    let op: &M = &directive.merge_operator;
    let ghost v = rows_view(rows@);
    let ghost groups = key_groups(v);
    let ghost mut outs: Seq<Seq<FlushRowView>> = Seq::empty();
    let mut out: Vec<FlushRow> = Vec::new();
    let mut i: usize = 0;
    proof {
        assert(rows_view(out@) =~= all_rows(outs));
        assert(groups.take(0) =~= Seq::<Seq<FlushRowView>>::empty());
        assert(groups.skip(0) =~= groups);
        assert(v.skip(0) =~= v);
    }
    while i < rows.len()
        invariant
            i <= rows@.len(),
            batches@.len() > 0,
            v == rows_view(rows@),
            v == batches_view(batches@),
            groups == key_groups(v),
            *op == directive.merge_operator,
            outs.len() <= groups.len(),
            groups.skip(outs.len() as int) == key_groups(v.skip(i as int)),
            groups_collapsed(*op, groups.take(outs.len() as int), outs),
            rows_view(out@) == all_rows(outs),
        decreases rows@.len() - i,
    {
        let ghost rest = v.skip(i as int);
        let ghost key = rest[0].key;
        let ghost k = outs.len() as int;
        let mut end: usize = i + 1;
        assert(rest[0] == rows@[i as int]@);
        while end < rows.len() && bytes_equal(rows[end].key.as_slice(), rows[i].key.as_slice())
            invariant
                i < end <= rows@.len(),
                v == rows_view(rows@),
                rest == v.skip(i as int),
                key == rows@[i as int].key@,
                rest[0].key == key,
                forall|m: int| 0 <= m < end - i ==> (#[trigger] rest[m]).key == key,
            decreases rows@.len() - end,
        {
            assert(rest[end - i] == rows@[end as int]@);
            end += 1;
        }
        proof {
            let p = other_key(key);
            assert forall|m: int| 0 <= m < end - i implies !p(#[trigger] rest[m]) by {}
            if end < rows@.len() {
                assert(rest[end - i] == rows@[end as int]@);
                assert(p(rest[end - i]));
            }
            coding::lemma_first_index(rest, p, end - i);
            assert(rest.skip(end - i) =~= v.skip(end as int));
            assert(key_groups(rest) == seq![rest.take(end - i)] + key_groups(rest.skip(end - i)));
            assert(groups.skip(k).len() > 0);
            assert(groups[k] == groups.skip(k)[0]);
            assert(groups[k] == rest.take(end - i));
            assert(rest.take(end - i) =~= v.subrange(i as int, end as int));
            assert(groups.skip(k + 1) =~= groups.skip(k).skip(1));
            assert((seq![rest.take(end - i)] + key_groups(rest.skip(end - i))).skip(1)
                =~= key_groups(rest.skip(end - i)));
        }
        match collapse_group(rows.as_slice(), i, end, op) {
            Err(e) => {
                assert(groups_collapsed(*op, groups.take(k), outs));
                assert(collapse_failed(*op, groups, e));
                return Err(e);
            },
            Ok(part) => {
                let ghost emitted = rows_view(part@);
                let ghost before_outs = outs;
                proof {
                    outs = outs.push(emitted);
                    assert(groups.take(k + 1) =~= groups.take(k).push(groups[k]));
                    assert forall|m: int| 0 <= m < k + 1 implies group_collapsed(
                        *op,
                        #[trigger] groups.take(k + 1)[m],
                        outs[m],
                    ) by {
                        if m < k {
                            assert(groups.take(k)[m] == groups.take(k + 1)[m]);
                            assert(group_collapsed(*op, groups.take(k)[m], before_outs[m]));
                        }
                    }
                    assert(outs.drop_last() =~= before_outs);
                }
                let mut tail: Vec<FlushRow> = part;
                let ghost out_before = out@;
                let ghost tail_before = tail@;
                out.append(&mut tail);
                proof {
                    assert(rows_view(out@) =~= rows_view(out_before) + rows_view(tail_before));
                }
            },
        }
        i = end;
    }
    proof {
        assert(v.skip(rows@.len() as int) =~= Seq::<FlushRowView>::empty());
        assert(groups.skip(outs.len() as int).len() == 0);
        assert(groups.take(outs.len() as int) =~= groups);
    }
    Ok(out)
}

/// The row goes to the value log: a `Put` with a payload of at least
/// `min_blob_size` bytes.
pub open spec fn separates(r: FlushRowView, min_blob_size: usize) -> bool {
    r.op == PUT_OP && r.value is Some && r.value->0.len() >= min_blob_size
}

/// How many of the first `k` rows go to the value log.
pub open spec fn separated_before(rows: Seq<FlushRowView>, min_blob_size: usize, k: int) -> nat
    decreases k,
{
    if k <= 0 {
        0
    } else {
        separated_before(rows, min_blob_size, k - 1) + if separates(rows[k - 1], min_blob_size) {
            1nat
        } else {
            0nat
        }
    }
}

/// The rows with each separated payload replaced by its pointer.
pub open spec fn with_pointers(
    rows: Seq<FlushRowView>,
    min_blob_size: usize,
    pointers: Seq<Seq<u8>>,
) -> Seq<FlushRowView> {
    Seq::new(
        rows.len(),
        |i: int|
            if separates(rows[i], min_blob_size) {
                FlushRowView {
                    key: rows[i].key,
                    value: Some(pointers[separated_before(rows, min_blob_size, i) as int]),
                    sequence: rows[i].sequence,
                    op: BLOB_REF_OP,
                }
            } else {
                rows[i]
            },
    )
}

fn row_separates(r: &FlushRow, min_blob_size: usize) -> (b: bool)
    ensures
        b == separates(r@, min_blob_size),
{
    match &r.value {
        Some(v) => r.op == PUT_OP && v.len() >= min_blob_size,
        None => false,
    }
}

/// The payloads of a batch that go to the value log, in order; `None` if there
/// are none and the batch can be written as it is.
pub fn payloads_to_separate(batch: &[FlushRow], directive: &KvSepSpec) -> (r: Option<Vec<Vec<u8>>>)
    ensures
        ({
            let rows = rows_view(batch@);
            let n = separated_before(rows, directive.min_blob_size, rows.len() as int);
            match r {
                None => n == 0,
                Some(out) => {
                    &&& n > 0
                    &&& out@.len() == n
                    &&& forall|i: int|
                        0 <= i < rows.len() && separates(
                            #[trigger] rows[i],
                            directive.min_blob_size,
                        ) ==> separated_before(rows, directive.min_blob_size, i) < n
                            && out@[separated_before(rows, directive.min_blob_size, i) as int]@
                            == rows[i].value->0
                },
            }
        }),
{
    let ghost rows = rows_view(batch@);
    let m: usize = directive.min_blob_size;
    let mut out: Vec<Vec<u8>> = Vec::new();
    let mut i: usize = 0;
    while i < batch.len()
        invariant
            i <= batch@.len(),
            rows == rows_view(batch@),
            m == directive.min_blob_size,
            out@.len() == separated_before(rows, m, i as int),
            forall|k: int|
                0 <= k < i && separates(#[trigger] rows[k], m) ==> separated_before(rows, m, k)
                    < out@.len() && out@[separated_before(rows, m, k) as int]@ == rows[k].value->0,
        decreases batch@.len() - i,
    {
        assert(rows[i as int] == batch@[i as int]@);
        if row_separates(&batch[i], m) {
            match &batch[i].value {
                Some(v) => {
                    out.push(copy_bytes(v.as_slice()));
                },
                None => {},
            }
        }
        i += 1;
    }
    if out.len() == 0 {
        None
    } else {
        Some(out)
    }
}

/// Replaces each separated payload by its pointer into the value log.
pub fn substitute_pointers(batch: &[FlushRow], directive: &KvSepSpec, pointers: &[Vec<u8>]) -> (r:
    Vec<FlushRow>)
    requires
        pointers@.len() == separated_before(
            rows_view(batch@),
            directive.min_blob_size,
            batch@.len() as int,
        ),
    ensures
        rows_view(r@) == with_pointers(
            rows_view(batch@),
            directive.min_blob_size,
            row::byte_strings(pointers@),
        ),
{
    let ghost rows = rows_view(batch@);
    let m: usize = directive.min_blob_size;
    let ghost result = with_pointers(rows, m, row::byte_strings(pointers@));
    let mut out: Vec<FlushRow> = Vec::new();
    let mut used: usize = 0;
    let mut i: usize = 0;
    while i < batch.len()
        invariant
            i <= batch@.len(),
            rows == rows_view(batch@),
            m == directive.min_blob_size,
            result == with_pointers(rows, m, row::byte_strings(pointers@)),
            used == separated_before(rows, m, i as int),
            used <= pointers@.len(),
            pointers@.len() == separated_before(rows, m, batch@.len() as int),
            rows_view(out@) == result.take(i as int),
        decreases batch@.len() - i,
    {
        proof {
            assert(rows[i as int] == batch@[i as int]@);
            lemma_separated_monotonic(rows, m, i + 1, batch@.len() as int);
        }
        let r: FlushRow = if row_separates(&batch[i], m) {
            let p: Vec<u8> = copy_bytes(pointers[used].as_slice());
            used += 1;
            FlushRow {
                key: copy_bytes(batch[i].key.as_slice()),
                value: Some(p),
                sequence: batch[i].sequence,
                op: BLOB_REF_OP,
            }
        } else {
            row_copy(&batch[i])
        };
        proof {
            lemma_rows_push(out@, r);
            assert(result[i as int] == r@);
        }
        out.push(r);
        i += 1;
        assert(rows_view(out@) =~= result.take(i as int));
    }
    assert(result.take(i as int) =~= result);
    out
}

proof fn lemma_separated_monotonic(rows: Seq<FlushRowView>, m: usize, a: int, b: int)
    requires
        a <= b,
    ensures
        separated_before(rows, m, a) <= separated_before(rows, m, b),
    decreases b - a,
{
    if a < b {
        lemma_separated_monotonic(rows, m, a, b - 1);
    }
}

/// How many of the first `k` rows are deletions.
pub open spec fn tombstones_before(rows: Seq<FlushRowView>, k: int) -> nat
    decreases k,
{
    if k <= 0 {
        0
    } else {
        tombstones_before(rows, k - 1) + if rows[k - 1].op == DELETE_OP || rows[k - 1].op
            == SINGLE_DELETE_OP {
            1nat
        } else {
            0nat
        }
    }
}

/// The number of deletions in a batch.
pub fn count_tombstones(batch: &[FlushRow]) -> (r: usize)
    ensures
        r == tombstones_before(rows_view(batch@), batch@.len() as int),
{
    let ghost rows = rows_view(batch@);
    let mut n: usize = 0;
    let mut i: usize = 0;
    while i < batch.len()
        invariant
            i <= batch@.len(),
            rows == rows_view(batch@),
            n == tombstones_before(rows, i as int),
            n <= i,
        decreases batch@.len() - i,
    {
        assert(rows[i as int] == batch@[i as int]@);
        if batch[i].op == DELETE_OP || batch[i].op == SINGLE_DELETE_OP {
            n += 1;
        }
        i += 1;
    }
    n
}

/// How an output file is opened.
#[derive(Debug, Clone, Copy, PartialEq, Eq, Structural)]
pub enum WriteMode {
    /// The file must not exist.
    CreateNew,
    /// A file left over from an earlier attempt is overwritten.
    CreateOrTruncate,
}

/// Where an output is written and how: under a temporary name that is renamed
/// afterwards where renaming is atomic, else straight to its final path.
pub open spec fn write_target(path: Seq<char>, atomic_rename: bool) -> (Seq<char>, WriteMode) {
    if atomic_rename {
        (paths::temp_path(path), WriteMode::CreateNew)
    } else {
        (path, WriteMode::CreateOrTruncate)
    }
}

/// Where an output is written and how.
pub fn output_target(path: &str, atomic_rename: bool) -> (r: (String, WriteMode))
    ensures
        (r.0@, r.1) == write_target(path@, atomic_rename),
{
    if atomic_rename {
        (sst_temp_path(path), WriteMode::CreateNew)
    } else {
        (path.to_owned(), WriteMode::CreateOrTruncate)
    }
}

/// What a frozen memtable holds.
pub struct MemtableImage {
    pub frozen: bool,
    /// Rows in batches, keys ascending and newest first.
    pub batches: Vec<Vec<FlushRow>>,
}

/// One memtable to one table file.
pub struct FlushJob<M: MergeOperator> {
    memtable: MemtableImage,
    file_number: FileNumber,
    cf_id: ColumnFamilyId,
    file_path: String,
    options: SstWriterOptions,
    kv_sep: Option<KvSepSpec>,
    collapse: Option<FlushCollapseSpec<M>>,
}

/// What to write and where.
pub struct FlushPlan {
    /// The batches to write, in order.
    pub batches: Vec<Vec<FlushRow>>,
    /// Directory of the table file.
    pub parent: String,
    /// Path to write to.
    pub write_path: String,
    pub write_mode: WriteMode,
}

/// What a value-log writer reports: file size and payload bytes.
#[derive(Debug, Clone, Copy, PartialEq, Eq, Structural)]
pub struct VlogReport {
    pub size: u64,
    pub payload_bytes: u64,
}

/// The message when the target has no directory.
pub open spec fn no_parent_message(path: Seq<char>) -> Seq<char> {
    "flush target has no parent directory: "@ + path
}

impl<M: MergeOperator> FlushJob<M> {
    /// The memtable's contents.
    pub closed spec fn source(self) -> MemtableImage {
        self.memtable
    }

    /// File number, column family and path of the table file.
    pub closed spec fn target(self) -> (FileNumber, ColumnFamilyId, Seq<char>) {
        (self.file_number, self.cf_id, self.file_path@)
    }

    /// Settings of the table writer.
    pub closed spec fn writer_options(self) -> SstWriterOptions {
        self.options
    }

    /// The value-separation directive.
    pub closed spec fn separation(self) -> Option<KvSepSpec> {
        self.kv_sep
    }

    /// The folding directive.
    pub closed spec fn folding(self) -> Option<FlushCollapseSpec<M>> {
        self.collapse
    }

    /// A flush of `memtable`. The writer settings get the column family.
    pub fn new(
        memtable: MemtableImage,
        file_number: FileNumber,
        cf_id: ColumnFamilyId,
        file_path: String,
        options: SstWriterOptions,
    ) -> (r: Self)
        ensures
            r.source() == memtable,
            r.target() == (file_number, cf_id, file_path@),
            r.writer_options() == (SstWriterOptions {
                block_size: options.block_size,
                compression: options.compression,
                cf_id,
            }),
            r.separation() is None,
            r.folding() is None,
    {
        let options = SstWriterOptions {
            block_size: options.block_size,
            compression: options.compression,
            cf_id,
        };
        FlushJob {
            memtable,
            file_number,
            cf_id,
            file_path,
            options,
            kv_sep: None,
            collapse: None,
        }
    }

    /// Arms value separation.
    pub fn with_kv_separation(self, directive: KvSepSpec) -> (r: Self)
        ensures
            r.separation() == Some(directive),
            r.source() == self.source(),
            r.target() == self.target(),
            r.writer_options() == self.writer_options(),
            r.folding() == self.folding(),
    {
        FlushJob { kv_sep: Some(directive), ..self }
    }

    /// Arms folding of merge chains.
    pub fn with_collapse(self, directive: FlushCollapseSpec<M>) -> (r: Self)
        ensures
            r.folding() == Some(directive),
            r.source() == self.source(),
            r.target() == self.target(),
            r.writer_options() == self.writer_options(),
            r.separation() == self.separation(),
    {
        FlushJob { collapse: Some(directive), ..self }
    }

    /// Settings for the table writer.
    pub fn options(&self) -> (r: SstWriterOptions)
        ensures
            r == self.writer_options(),
    {
        self.options
    }

    /// The value-separation directive.
    pub fn kv_separation(&self) -> (r: Option<KvSepSpec>)
        ensures
            r == self.separation(),
    {
        self.kv_sep
    }

    /// Folding, if it is armed, may go through for every key.
    pub open spec fn folds_through(&self) -> bool {
        self.folding() matches Some(d) ==> exists|outs: Seq<Seq<FlushRowView>>| #[trigger]
            groups_collapsed(
                d.merge_operator,
                key_groups(batches_view(self.source().batches@)),
                outs,
            )
    }

    /// The batches as they are, or folded into one if folding is armed.
    fn batches_to_write(&self) -> (r: ForstResult<Vec<Vec<FlushRow>>>)
        requires
            self.source().batches@.len() > 0,
        ensures
            match r {
                Ok(out) => match self.folding() {
                    None => batches_view(out@) == batches_view(self.source().batches@)
                        && out@.len() == self.source().batches@.len(),
                    Some(d) => {
                        &&& out@.len() == 1
                        &&& exists|outs: Seq<Seq<FlushRowView>>| #[trigger]
                            groups_collapsed(
                                d.merge_operator,
                                key_groups(batches_view(self.source().batches@)),
                                outs,
                            ) && batches_view(out@) == all_rows(outs)
                    },
                },
                Err(e) => self.folding() matches Some(d) && collapse_failed(
                    d.merge_operator,
                    key_groups(batches_view(self.source().batches@)),
                    e,
                ),
            },
    {
        match &self.collapse {
            None => {
                let mut out: Vec<Vec<FlushRow>> = Vec::new();
                let mut i: usize = 0;
                let ghost src = self.memtable.batches@;
                assert(src.take(0) =~= Seq::<Vec<FlushRow>>::empty());
                while i < self.memtable.batches.len()
                    invariant
                        i <= self.memtable.batches@.len(),
                        src == self.memtable.batches@,
                        out@.len() == i,
                        batches_view(out@) == batches_view(src.take(i as int)),
                    decreases self.memtable.batches@.len() - i,
                {
                    let one = batch_copy(&self.memtable.batches[i]);
                    let ghost before = out@;
                    out.push(one);
                    i += 1;
                    proof {
                        assert(out@.drop_last() =~= before);
                        assert(src.take(i as int).drop_last() =~= src.take(i - 1));
                    }
                }
                assert(src.take(i as int) =~= src);
                Ok(out)
            },
            Some(d) => match collapse_merge_runs(self.memtable.batches.as_slice(), d) {
                Ok(one) => {
                    let ghost one_rows = one@;
                    let ghost rows = rows_view(one_rows);
                    let mut out: Vec<Vec<FlushRow>> = Vec::new();
                    out.push(one);
                    proof {
                        assert(out@.drop_last() =~= Seq::<Vec<FlushRow>>::empty());
                        assert(batches_view(Seq::<Vec<FlushRow>>::empty()) =~= Seq::empty());
                        assert(out@.last()@ == one_rows);
                        assert(batches_view(out@) =~= rows);
                    }
                    Ok(out)
                },
                Err(e) => Err(e),
            },
        }
    }

    /// What to write and where. The memtable must be frozen and must not be
    /// empty.
    pub fn prepare(&self, atomic_rename: bool) -> (r: ForstResult<FlushPlan>)
        ensures
            !self.source().frozen ==> (r matches Err(e) && e.says(
                ErrorKind::InvalidArgument,
                "FlushJob: memtable is not frozen; call freeze() first"@,
            )),
            self.source().frozen && batches_view(self.source().batches@).len() == 0 ==> (
            r matches Err(e) && e.says(
                ErrorKind::InvalidArgument,
                "FlushJob: memtable is empty; nothing to flush"@,
            )),
            self.source().frozen && batches_view(self.source().batches@).len() > 0 ==> (
            r matches Err(e) ==> {
                ||| self.folding() matches Some(d) && collapse_failed(
                    d.merge_operator,
                    key_groups(batches_view(self.source().batches@)),
                    e,
                )
                ||| paths::parent(self.target().2) is None && self.folds_through() && e.says(
                    ErrorKind::InvalidArgument,
                    no_parent_message(self.target().2),
                )
            }),
            r matches Ok(plan) ==> {
                &&& self.source().frozen
                &&& batches_view(self.source().batches@).len() > 0
                &&& paths::parent(self.target().2) == Some(plan.parent@)
                &&& (plan.write_path@, plan.write_mode) == write_target(
                    self.target().2,
                    atomic_rename,
                )
                &&& match self.folding() {
                    None => batches_view(plan.batches@) == batches_view(self.source().batches@),
                    Some(d) => exists|outs: Seq<Seq<FlushRowView>>| #[trigger]
                        groups_collapsed(
                            d.merge_operator,
                            key_groups(batches_view(self.source().batches@)),
                            outs,
                        ) && batches_view(plan.batches@) == all_rows(outs),
                }
            },
    {
        if !self.memtable.frozen {
            return Err(
                invalid_argument_text("FlushJob: memtable is not frozen; call freeze() first"),
            );
        }
        if !any_rows(self.memtable.batches.as_slice()) {
            return Err(invalid_argument_text("FlushJob: memtable is empty; nothing to flush"));
        }
        let batches: Vec<Vec<FlushRow>> = match self.batches_to_write() {
            Ok(b) => b,
            Err(e) => {
                return Err(e);
            },
        };
        let parent: String = match parent_dir(self.file_path.as_str()) {
            Some(p) => p,
            None => {
                let mut m = String::new();
                m.append("flush target has no parent directory: ");
                m.append(self.file_path.as_str());
                assert(m@ =~= no_parent_message(self.target().2));
                return Err(ForstError::InvalidArgument(m));
            },
        };
        let (write_path, write_mode) = output_target(self.file_path.as_str(), atomic_rename);
        Ok(FlushPlan { batches, parent, write_path, write_mode })
    }

    /// The value-log segment to remove when the flush fails after a segment
    /// was created.
    pub fn orphan_segment(&self, vlog_created: bool) -> (r: Option<FileNumber>)
        ensures
            r == match self.separation() {
                Some(d) => if vlog_created {
                    Some(d.segment_id)
                } else {
                    None
                },
                None => None,
            },
    {
        match &self.kv_sep {
            Some(d) => if vlog_created {
                Some(d.segment_id)
            } else {
                None
            },
            None => None,
        }
    }

    /// The records of a finished flush: the table file, and the value-log
    /// segment if one was written. Every appended payload byte starts live.
    pub fn finish(self, info: SstFileInfo, vlog: Option<VlogReport>) -> (r: (
        SstFileMeta,
        Option<VlogSegmentMeta>,
    ))
        ensures
            r.0@ == version::meta_of_info(self.target().0, self.target().1, info),
            r.1 == match (self.separation(), vlog) {
                (Some(d), Some(w)) => Some(
                    VlogSegmentMeta {
                        segment_id: d.segment_id.0,
                        cf_id: self.target().1,
                        file_size: w.size,
                        live_bytes: w.payload_bytes,
                    },
                ),
                _ => None,
            },
    {
        let segment: Option<VlogSegmentMeta> = match (self.kv_sep, vlog) {
            (Some(d), Some(w)) => Some(
                VlogSegmentMeta {
                    segment_id: d.segment_id.0,
                    cf_id: self.cf_id,
                    file_size: w.size,
                    live_bytes: w.payload_bytes,
                },
            ),
            _ => None,
        };
        (info_to_meta(self.file_number, self.cf_id, info), segment)
    }
}

fn batch_copy(batch: &Vec<FlushRow>) -> (r: Vec<FlushRow>)
    ensures
        rows_view(r@) == rows_view(batch@),
{
    let mut out: Vec<FlushRow> = Vec::new();
    let mut i: usize = 0;
    while i < batch.len()
        invariant
            i <= batch@.len(),
            rows_view(out@) == rows_view(batch@).take(i as int),
        decreases batch@.len() - i,
    {
        let r = row_copy(&batch[i]);
        proof {
            lemma_rows_push(out@, r);
        }
        out.push(r);
        i += 1;
        assert(rows_view(out@) =~= rows_view(batch@).take(i as int));
    }
    assert(rows_view(batch@).take(i as int) =~= rows_view(batch@));
    out
}

/// Whether some batch has a row.
fn any_rows(batches: &[Vec<FlushRow>]) -> (r: bool)
    ensures
        r == (batches_view(batches@).len() > 0),
{
    let mut i: usize = 0;
    let mut any: bool = false;
    assert(batches@.take(0) =~= Seq::<Vec<FlushRow>>::empty());
    while i < batches.len()
        invariant
            i <= batches@.len(),
            any == (batches_view(batches@.take(i as int)).len() > 0),
        decreases batches@.len() - i,
    {
        if batches[i].len() > 0 {
            any = true;
        }
        i += 1;
        assert(batches@.take(i as int).drop_last() =~= batches@.take(i - 1));
    }
    assert(batches@.take(i as int) =~= batches@);
    any
}

/// The operation with a code from 0 to 3.
pub open spec fn op_of(code: u8) -> OpType {
    if code == PUT_OP {
        OpType::Put
    } else if code == DELETE_OP {
        OpType::Delete
    } else if code == SINGLE_DELETE_OP {
        OpType::SingleDelete
    } else {
        OpType::Merge
    }
}

/// A memtable row as a stored version.
pub open spec fn as_version(r: FlushRowView) -> RowView {
    RowView { key: r.key, value: r.value, sequence: r.sequence, op_type: op_of(r.op) }
}

/// Memtable rows as stored versions.
pub open spec fn as_versions(rows: Seq<FlushRowView>) -> Seq<RowView> {
    Seq::new(rows.len(), |i: int| as_version(rows[i]))
}

/// Down to the base of the merge operands, the rows of a key are ordinary
/// versions: no pointers, and only deletions may lack a payload.
pub open spec fn ordinary(group: Seq<FlushRowView>) -> bool {
    forall|i: int|
        0 <= i < group.len() && i <= coding::first_index(group, not_operand()) ==> (
        #[trigger] group[i]).op <= MERGE_OP && (group[i].value is Some || group[i].op == DELETE_OP
            || group[i].op == SINGLE_DELETE_OP)
}

proof fn lemma_operand_count(group: Seq<FlushRowView>)
    requires
        ordinary(group),
    ensures
        coding::first_index(as_versions(group), crate::key_versions::terminal())
            == coding::first_index(group, not_operand()),
        0 <= coding::first_index(group, not_operand()) <= group.len(),
{
    let n = coding::first_index(group, not_operand());
    coding::lemma_first_index_props(group, not_operand());
    let p = crate::key_versions::terminal();
    let versions = as_versions(group);
    assert forall|i: int| 0 <= i < n implies !p(#[trigger] versions[i]) by {
        assert(!not_operand()(group[i]));
    }
    if n < group.len() {
        assert(not_operand()(group[n]));
        assert(group[n].op <= MERGE_OP);
        assert(p(versions[n]));
    }
    coding::lemma_first_index(versions, p, n);
}

/// Folding at flush time changes when a chain is resolved, never what a read
/// at the head gives: rows that are kept read as the whole group did, and a
/// fold gets exactly the base and the operands that the read sees.
pub proof fn law_collapse_preserves_reads(group: Seq<FlushRowView>)
    requires
        group.len() > 0,
        ordinary(group),
    ensures
        match group_outcome(group) {
            GroupOutcome::Rows(out) => crate::mvcc::reader::read_parts(as_versions(out))
                == crate::mvcc::reader::read_parts(as_versions(group)),
            GroupOutcome::Fold { base, operands } => {
                &&& crate::mvcc::reader::read_parts(as_versions(group)) == (
                crate::mvcc::reader::ReadParts { base, operands })
                &&& forall|merged: Seq<u8>| #[trigger]
                    crate::mvcc::reader::read_parts(
                        as_versions(seq![folded_row(group[0], merged)]),
                    ) == (crate::mvcc::reader::ReadParts {
                        base: Some(merged),
                        operands: Seq::empty(),
                    })
            },
        },
{
    lemma_operand_count(group);
    let n = coding::first_index(group, not_operand());
    coding::lemma_first_index_props(group, not_operand());
    let versions = as_versions(group);
    if n == 0 {
        assert(not_operand()(group[0]));
        assert(group[0].op <= MERGE_OP);
        let one = as_versions(seq![with_payload(group[0])]);
        assert(one[0].op_type == versions[0].op_type);
        assert(group[0].op == PUT_OP ==> one[0] == versions[0]);
        crate::mvcc::reader::lemma_parts_terminal_first(one);
        crate::mvcc::reader::lemma_parts_terminal_first(versions);
    } else {
        if n < group.len() {
            assert(not_operand()(group[n]));
            assert(group[n].op <= MERGE_OP);
        }
        let outcome = group_outcome(group);
        assert(outcome is Fold);
        assert forall|i: int| 0 <= i < n implies payload(#[trigger] group[i])
            == versions[i].value->0 by {
            assert(!not_operand()(group[i]));
            assert(group[i].value is Some);
        }
        assert(crate::key_versions::chain_operands(versions) =~= outcome->operands);
        assert forall|merged: Seq<u8>| #[trigger]
            crate::mvcc::reader::read_parts(as_versions(seq![folded_row(group[0], merged)])) == (
            crate::mvcc::reader::ReadParts { base: Some(merged), operands: Seq::empty() }) by {
            crate::mvcc::reader::lemma_parts_terminal_first(
                as_versions(seq![folded_row(group[0], merged)]),
            );
        }
    }
}

/// A fold at flush time hands the operator what the compaction of the same
/// versions would hand it later, with no snapshot alive at the bottommost
/// level.
pub proof fn law_fold_equals_compaction(group: Seq<FlushRowView>)
    requires
        group.len() > 0,
        ordinary(group),
        group_outcome(group) is Fold,
        group[0].sequence < u64::MAX,
    ensures
        crate::key_versions::key_outcome(
            as_versions(group),
            u64::MAX,
            true,
            true,
            crate::key_versions::VerdictView::Keep,
        ) == (crate::key_versions::KeyOutcome::Collapse {
            base: group_outcome(group)->base,
            operands: group_outcome(group)->operands,
        }),
{
    law_collapse_preserves_reads(group);
    lemma_operand_count(group);
    let versions = as_versions(group);
    let low = crate::key_versions::below(u64::MAX);
    assert(low(versions[0]));
    coding::lemma_first_index(versions, low, 0);
    coding::lemma_first_index_props(group, not_operand());
    assert(!not_operand()(group[0]));
    assert(!crate::key_versions::operand_missing(versions)) by {
        if crate::key_versions::operand_missing(versions) {
            let i = choose|i: int|
                0 <= i < coding::first_index(versions, crate::key_versions::terminal())
                    && #[trigger] versions[i].value is None;
            assert(group[i].value is Some);
        }
    }
}

/// Folding at flush time hides in older files just what the group hid: with any
/// older versions `lower` underneath, a read at the head finds the same base and
/// the same operands in the rows that are written as in the whole group, and a
/// deletion goes on hiding what it hid. A fold over a value or a deletion gets the
/// base and the operands of that read, and its result is read in their place.
pub proof fn law_collapse_preserves_reads_over_older_rows(
    group: Seq<FlushRowView>,
    lower: Seq<RowView>,
)
    requires
        group.len() > 0,
        ordinary(group),
    ensures
        match group_outcome(group) {
            GroupOutcome::Rows(out) => crate::mvcc::reader::read_parts(as_versions(out) + lower)
                == crate::mvcc::reader::read_parts(as_versions(group) + lower),
            GroupOutcome::Fold { base, operands } => {
                &&& crate::mvcc::reader::ends_chain(as_versions(group))
                    ==> crate::mvcc::reader::read_parts(as_versions(group) + lower) == (
                crate::mvcc::reader::ReadParts { base, operands })
                &&& forall|merged: Seq<u8>| #[trigger]
                    crate::mvcc::reader::read_parts(
                        as_versions(seq![folded_row(group[0], merged)]) + lower,
                    ) == (crate::mvcc::reader::ReadParts {
                        base: Some(merged),
                        operands: Seq::empty(),
                    })
            },
        },
{
    law_collapse_preserves_reads(group);
    let n = coding::first_index(group, not_operand());
    coding::lemma_first_index_props(group, not_operand());
    let versions = as_versions(group);
    match group_outcome(group) {
        GroupOutcome::Rows(out) => {
            if n == 0 {
                assert(not_operand()(group[0]));
                assert(group[0].op <= MERGE_OP);
                assert(versions[0].op_type != OpType::Merge);
                assert(as_versions(out)[0].op_type != OpType::Merge);
                crate::mvcc::reader::lemma_parts_covered(versions, lower);
                crate::mvcc::reader::lemma_parts_covered(as_versions(out), lower);
            } else {
                assert(not_operand()(group[n]));
                assert(group[n].op <= MERGE_OP);
            }
        },
        GroupOutcome::Fold { base, operands } => {
            if crate::mvcc::reader::ends_chain(versions) {
                crate::mvcc::reader::lemma_parts_covered(versions, lower);
            }
            assert forall|merged: Seq<u8>| #[trigger]
                crate::mvcc::reader::read_parts(
                    as_versions(seq![folded_row(group[0], merged)]) + lower,
                ) == (crate::mvcc::reader::ReadParts {
                    base: Some(merged),
                    operands: Seq::empty(),
                }) by {
                let one = as_versions(seq![folded_row(group[0], merged)]);
                assert(one[0].op_type != OpType::Merge);
                crate::mvcc::reader::lemma_parts_covered(one, lower);
                crate::mvcc::reader::lemma_parts_terminal_first(one);
            }
        },
    }
}

/// Every key of a batch is written under its newest sequence number. A value or a
/// deletion on top is written as it is and stands for all older rows. `n` merge
/// operands on top are folded, oldest first, into the value under them, or into
/// nothing where a deletion or nothing lies under them; over any other row the
/// whole group is written as it is. `payloads` are the payloads of the rows: an
/// empty one where a row has none.
pub proof fn law_newest_row_of_a_key_is_written<M: MergeOperator>(
    op: M,
    group: Seq<FlushRowView>,
    out: Seq<FlushRowView>,
    n: int,
    payloads: Seq<Seq<u8>>,
    base: Option<Seq<u8>>,
    operands: Seq<Seq<u8>>,
)
    requires
        group.len() > 0,
        group_collapsed(op, group, out),
        0 <= n <= group.len(),
        forall|i: int| 0 <= i < n ==> (#[trigger] group[i]).op == 3,
        n < group.len() ==> group[n].op != 3,
        payloads.len() == group.len(),
        forall|i: int|
            0 <= i < group.len() ==> #[trigger] payloads[i] == if group[i].value is Some {
                group[i].value->0
            } else {
                Seq::empty()
            },
        base == if n < group.len() && group[n].op == 0 {
            Some(payloads[n])
        } else {
            None
        },
        operands.len() == n,
        forall|i: int| 0 <= i < n ==> #[trigger] operands[i] == payloads[n - 1 - i],
    ensures
        out.len() > 0,
        out[0].key == group[0].key,
        out[0].sequence == group[0].sequence,
        n == 0 ==> out.len() == 1 && out[0].op == group[0].op && out[0].value == Some(payloads[0]),
        n > 0 && n < group.len() && group[n].op > 3 ==> out.len() == group.len() && forall|i: int|
            #![trigger out[i]]
            0 <= i < out.len() ==> out[i].key == group[i].key && out[i].sequence
                == group[i].sequence && out[i].op == group[i].op && out[i].value == Some(
                payloads[i],
            ),
        n > 0 && (n == group.len() || group[n].op < 3) ==> {
            &&& out.len() == 1
            &&& out[0].op == 0
            &&& exists|merged: Vec<u8>|
                #[trigger] merge_operator::may_merge(
                    op,
                    group[0].key,
                    base,
                    operands,
                    Ok::<Vec<u8>, ForstError>(merged),
                ) && out[0].value == Some(merged@)
        },
{
    let p = not_operand();
    assert forall|i: int| 0 <= i < n implies !p(#[trigger] group[i]) by {
        assert(group[i].op == 3);
    }
    if n < group.len() {
        assert(p(group[n]));
    }
    coding::lemma_first_index(group, p, n);
    assert forall|i: int| 0 <= i < group.len() implies #[trigger] payloads[i] == payload(
        group[i],
    ) by {}
    if n > 0 && n < group.len() && group[n].op > 3 {
        assert(group_outcome(group) is Rows);
        assert forall|i: int| 0 <= i < out.len() implies #[trigger] out[i] == with_payload(
            group[i],
        ) by {}
    }
    if n > 0 && (n == group.len() || group[n].op < 3) {
        let o = group_outcome(group);
        assert(o is Fold);
        assert(o->operands =~= operands);
        assert(o->base == base);
    }
    if n == 0 {
        assert(out[0] == with_payload(group[0]));
        assert(payloads[0] == payload(group[0]));
    }
}

/// The rows split by key: nothing is lost and nothing changes its place, each
/// group is of one key, and neighbours are of different keys.
pub proof fn law_groups_are_the_keys(rows: Seq<FlushRowView>, k: int, i: int)
    requires
        0 <= k < key_groups(rows).len(),
        0 <= i < key_groups(rows)[k].len(),
    ensures
        all_rows(key_groups(rows)) == rows,
        key_groups(rows)[k][i].key == key_groups(rows)[k][0].key,
        k > 0 ==> key_groups(rows)[k - 1].len() > 0 && key_groups(rows)[k][0].key
            != key_groups(rows)[k - 1][0].key,
    decreases rows.len(),
{
    let p = other_key(rows[0].key);
    let n = coding::first_index(rows, p);
    lemma_first_group(rows);
    let head = rows.take(n);
    let tail = rows.skip(n);
    let rest = key_groups(tail);
    assert(key_groups(rows) == seq![head] + rest);
    lemma_groups_whole(rows);
    if k == 0 {
        assert(!p(rows[i]) && !p(rows[0]));
    } else {
        law_groups_are_the_keys(tail, k - 1, i);
        if k == 1 {
            lemma_first_group(tail);
            assert(rest[0][0] == tail[0]);
            assert(tail[0] == rows[n]);
            assert(p(rows[n]));
            assert(!p(rows[0]));
        }
    }
}

/// Grouping by key loses no row and changes no order.
pub proof fn law_groups_hold_all_rows(rows: Seq<FlushRowView>, k: int)
    ensures
        all_rows(key_groups(rows)) == rows,
        0 <= k < key_groups(rows).len() ==> key_groups(rows)[k].len() > 0,
    decreases rows.len(),
{
    lemma_groups_whole(rows);
    if rows.len() > 0 {
        let n = coding::first_index(rows, other_key(rows[0].key));
        lemma_first_group(rows);
        law_groups_hold_all_rows(rows.skip(n), k - 1);
    }
}

proof fn lemma_first_group(rows: Seq<FlushRowView>)
    requires
        rows.len() > 0,
    ensures
        ({
            let p = other_key(rows[0].key);
            let n = coding::first_index(rows, p);
            &&& 0 < n <= rows.len()
            &&& forall|i: int| 0 <= i < n ==> !p(#[trigger] rows[i])
            &&& n < rows.len() ==> p(rows[n])
            &&& key_groups(rows) == seq![rows.take(n)] + key_groups(rows.skip(n))
        }),
{
    let p = other_key(rows[0].key);
    coding::lemma_first_index_props(rows, p);
    assert(!p(rows[0]));
}

proof fn lemma_groups_whole(rows: Seq<FlushRowView>)
    ensures
        all_rows(key_groups(rows)) == rows,
    decreases rows.len(),
{
    if rows.len() == 0 {
        assert(all_rows(key_groups(rows)) =~= rows);
    } else {
        let n = coding::first_index(rows, other_key(rows[0].key));
        lemma_first_group(rows);
        lemma_groups_whole(rows.skip(n));
        lemma_all_rows_front(rows.take(n), key_groups(rows.skip(n)));
        assert(rows.take(n) + rows.skip(n) =~= rows);
    }
}

proof fn lemma_all_rows_front(head: Seq<FlushRowView>, rest: Seq<Seq<FlushRowView>>)
    ensures
        all_rows(seq![head] + rest) == head + all_rows(rest),
    decreases rest.len(),
{
    let all = seq![head] + rest;
    if rest.len() == 0 {
        assert(all.drop_last() =~= Seq::<Seq<FlushRowView>>::empty());
        assert(all.last() == head);
        assert(all_rows(all.drop_last()) =~= Seq::<FlushRowView>::empty());
        assert(all_rows(all) =~= head);
        assert(head + all_rows(rest) =~= head);
    } else {
        lemma_all_rows_front(head, rest.drop_last());
        assert(all.drop_last() =~= seq![head] + rest.drop_last());
        assert(all.last() == rest.last());
        assert(all_rows(all) =~= head + (all_rows(rest.drop_last()) + rest.last()));
    }
}

/// A row of the whole is a row of one of the lists.
proof fn lemma_row_of_a_list(lists: Seq<Seq<FlushRowView>>, i: int) -> (r: (int, int))
    requires
        0 <= i < all_rows(lists).len(),
    ensures
        0 <= r.0 < lists.len(),
        0 <= r.1 < lists[r.0].len(),
        lists[r.0][r.1] == all_rows(lists)[i],
    decreases lists.len(),
{
    let front = lists.drop_last();
    let m = all_rows(front).len();
    if i < m {
        let r = lemma_row_of_a_list(front, i);
        assert(lists[r.0] == front[r.0]);
        r
    } else {
        (lists.len() - 1, i - m)
    }
}

/// A row of one of the lists is a row of the whole.
proof fn lemma_list_in_whole(lists: Seq<Seq<FlushRowView>>, k: int, m: int) -> (i: int)
    requires
        0 <= k < lists.len(),
        0 <= m < lists[k].len(),
    ensures
        0 <= i < all_rows(lists).len(),
        all_rows(lists)[i] == lists[k][m],
    decreases lists.len(),
{
    let front = lists.drop_last();
    if k < lists.len() - 1 {
        assert(front[k] == lists[k]);
        let i = lemma_list_in_whole(front, k, m);
        i
    } else {
        all_rows(front).len() + m
    }
}

/// Folding loses no key: every key of the memtable has a row in what is written.
pub proof fn law_every_key_is_written<M: MergeOperator>(
    op: M,
    rows: Seq<FlushRowView>,
    outs: Seq<Seq<FlushRowView>>,
    i: int,
)
    requires
        groups_collapsed(op, key_groups(rows), outs),
        0 <= i < rows.len(),
    ensures
        exists|j: int|
            0 <= j < all_rows(outs).len() && (#[trigger] all_rows(outs)[j]).key == rows[i].key,
{
    let groups = key_groups(rows);
    lemma_groups_whole(rows);
    let (k, m) = lemma_row_of_a_list(groups, i);
    law_groups_are_the_keys(rows, k, m);
    let group = groups[k];
    assert(group_collapsed(op, groups[k], outs[k]));
    let n = coding::first_index(group, not_operand());
    coding::lemma_first_index_props(group, not_operand());
    assert forall|x: int| 0 <= x < n implies (#[trigger] group[x]).op == 3 by {
        assert(!not_operand()(group[x]));
    }
    if n < group.len() {
        assert(not_operand()(group[n]));
    }
    let payloads = Seq::new(group.len(), |x: int| payload(group[x]));
    law_newest_row_of_a_key_is_written(
        op,
        group,
        outs[k],
        n,
        payloads,
        if n < group.len() && group[n].op == 0 {
            Some(payloads[n])
        } else {
            None
        },
        Seq::new(n as nat, |x: int| payloads[n - 1 - x]),
    );
    let j = lemma_list_in_whole(outs, k, 0);
    assert(all_rows(outs)[j].key == rows[i].key);
}

/// Separation goes row by row: a `Put` with at least `min_blob_size` bytes takes
/// the next pointer and becomes a pointer row, and every other row stays as it is
/// and takes none.
pub proof fn law_each_large_value_takes_the_next_pointer(
    first: FlushRowView,
    rest: Seq<FlushRowView>,
    min_blob_size: usize,
    pointers: Seq<Seq<u8>>,
)
    ensures
        ({
            let rows = seq![first] + rest;
            let large = first.op == 0 && first.value is Some && first.value->0.len()
                >= min_blob_size;
            let used: int = if large {
                1
            } else {
                0
            };
            &&& separated_before(rows, min_blob_size, rows.len() as int) == used
                + separated_before(rest, min_blob_size, rest.len() as int)
            &&& large && pointers.len() >= 1 + separated_before(
                rest,
                min_blob_size,
                rest.len() as int,
            ) ==> with_pointers(rows, min_blob_size, pointers) == seq![
                FlushRowView {
                    key: first.key,
                    value: Some(pointers[0]),
                    sequence: first.sequence,
                    op: 4,
                },
            ] + with_pointers(rest, min_blob_size, pointers.skip(1))
            &&& !large ==> with_pointers(rows, min_blob_size, pointers) == seq![first]
                + with_pointers(rest, min_blob_size, pointers)
        }),
        with_pointers(Seq::empty(), min_blob_size, pointers) == Seq::<FlushRowView>::empty(),
        separated_before(Seq::empty(), min_blob_size, 0) == 0,
{
    let rows = seq![first] + rest;
    let large = separates(first, min_blob_size);
    assert forall|i: int| 0 <= i <= rest.len() implies #[trigger] separated_before(
        rows,
        min_blob_size,
        i + 1,
    ) == separated_before(rest, min_blob_size, i) + if large {
        1nat
    } else {
        0
    } by {
        lemma_separated_shift(first, rest, min_blob_size, i);
    }
    assert(separated_before(rows, min_blob_size, rest.len() as int + 1) == separated_before(
        rows,
        min_blob_size,
        rows.len() as int,
    ));
    let all = with_pointers(rows, min_blob_size, pointers);
    assert(separated_before(rows, min_blob_size, 0) == 0);
    assert forall|i: int| 1 <= i < rows.len() implies #[trigger] rows[i] == rest[i - 1]
        && separated_before(rows, min_blob_size, i) == separated_before(rest, min_blob_size, i - 1)
        + if large {
        1nat
    } else {
        0
    } by {
        lemma_separated_shift(first, rest, min_blob_size, i - 1);
    }
    if large && pointers.len() >= 1 + separated_before(rest, min_blob_size, rest.len() as int) {
        let tail = with_pointers(rest, min_blob_size, pointers.skip(1));
        let one = seq![
            FlushRowView {
                key: first.key,
                value: Some(pointers[0]),
                sequence: first.sequence,
                op: 4,
            },
        ];
        assert forall|i: int| 0 <= i < rows.len() implies #[trigger] all[i] == (one + tail)[i] by {
            if i > 0 {
                assert(rows[i] == rest[i - 1]);
                if separates(rest[i - 1], min_blob_size) {
                    lemma_separated_monotonic(rest, min_blob_size, i, rest.len() as int);
                    assert(separated_before(rest, min_blob_size, i) == separated_before(
                        rest,
                        min_blob_size,
                        i - 1,
                    ) + 1);
                    assert(pointers.skip(1)[separated_before(rest, min_blob_size, i - 1) as int]
                        == pointers[separated_before(rest, min_blob_size, i - 1) as int + 1]);
                }
                assert((one + tail)[i] == tail[i - 1]);
            }
        }
        assert(all =~= one + tail);
    }
    if !large {
        let tail = with_pointers(rest, min_blob_size, pointers);
        assert forall|i: int| 0 <= i < rows.len() implies #[trigger] all[i] == (seq![first]
            + tail)[i] by {
            if i > 0 {
                assert(rows[i] == rest[i - 1]);
                assert((seq![first] + tail)[i] == tail[i - 1]);
            }
        }
        assert(all =~= seq![first] + tail);
    }
}

proof fn lemma_separated_shift(
    first: FlushRowView,
    rest: Seq<FlushRowView>,
    min_blob_size: usize,
    k: int,
)
    requires
        0 <= k <= rest.len(),
    ensures
        separated_before(seq![first] + rest, min_blob_size, k + 1) == separated_before(
            rest,
            min_blob_size,
            k,
        ) + if separates(first, min_blob_size) {
            1nat
        } else {
            0
        },
    decreases k,
{
    let rows = seq![first] + rest;
    if k > 0 {
        lemma_separated_shift(first, rest, min_blob_size, k - 1);
        assert(rows[k] == rest[k - 1]);
    } else {
        assert(separated_before(rows, min_blob_size, 0) == 0);
        assert(rows[0] == first);
    }
}

/// Separation can be undone: a pointer row points to the payload that its own row
/// had. With the payloads themselves in place of the pointers, every row keeps its
/// key, its value and its sequence number.
pub proof fn law_pointers_go_to_their_own_rows(
    rows: Seq<FlushRowView>,
    min_blob_size: usize,
    payloads: Seq<Seq<u8>>,
    pointers: Seq<Seq<u8>>,
    i: int,
)
    requires
        0 <= i < rows.len(),
        payloads.len() == separated_before(rows, min_blob_size, rows.len() as int),
        pointers.len() == payloads.len(),
        forall|j: int|
            0 <= j < rows.len() && separates(#[trigger] rows[j], min_blob_size)
                ==> payloads[separated_before(rows, min_blob_size, j) as int] == rows[j].value->0,
    ensures
        ({
            let back = with_pointers(rows, min_blob_size, payloads);
            &&& back.len() == rows.len()
            &&& back[i].key == rows[i].key
            &&& back[i].value == rows[i].value
            &&& back[i].sequence == rows[i].sequence
        }),
        ({
            let out = with_pointers(rows, min_blob_size, pointers);
            &&& out.len() == rows.len()
            &&& out[i] == rows[i] || exists|k: int|
                0 <= k < payloads.len() && Some(#[trigger] payloads[k]) == rows[i].value
                    && out[i].value == Some(pointers[k])
        }),
{
    lemma_separated_monotonic(rows, min_blob_size, i + 1, rows.len() as int);
    if separates(rows[i], min_blob_size) {
        let k = separated_before(rows, min_blob_size, i) as int;
        assert(payloads[k] == rows[i].value->0);
    }
}

/// Deletions are counted row by row, by their two codes.
pub proof fn law_tombstones_are_counted(rows: Seq<FlushRowView>, last: FlushRowView)
    ensures
        tombstones_before(rows.push(last), rows.len() as int + 1) == tombstones_before(
            rows,
            rows.len() as int,
        ) + if last.op == 1 || last.op == 2 {
            1int
        } else {
            0
        },
        tombstones_before(Seq::empty(), 0) == 0,
{
    lemma_tombstones_prefix(rows, last, rows.len() as int);
    assert(rows.push(last)[rows.len() as int] == last);
}

proof fn lemma_tombstones_prefix(rows: Seq<FlushRowView>, last: FlushRowView, k: int)
    requires
        0 <= k <= rows.len(),
    ensures
        tombstones_before(rows.push(last), k) == tombstones_before(rows, k),
    decreases k,
{
    if k > 0 {
        lemma_tombstones_prefix(rows, last, k - 1);
    }
}

/// Where a rename is atomic, an output is written under another name, which must
/// be new; elsewhere straight to its path, over what an earlier attempt left.
pub proof fn law_outputs_appear_whole(path: Seq<char>, atomic_rename: bool)
    ensures
        atomic_rename ==> write_target(path, atomic_rename).1 is CreateNew && write_target(
            path,
            atomic_rename,
        ).0 == paths::temp_path(path),
        !atomic_rename ==> write_target(path, atomic_rename).1 is CreateOrTruncate && write_target(
            path,
            atomic_rename,
        ).0 == path,
{
}

/// The rows of several batches are those of the one batch after those of the other.
pub proof fn law_batches_are_read_in_order(batches: Seq<Vec<FlushRow>>, last: Vec<FlushRow>, i: int)
    ensures
        batches_view(Seq::empty()).len() == 0,
        batches_view(batches.push(last)).len() == batches_view(batches).len() + last@.len(),
        batches_view(batches.push(last)).take(batches_view(batches).len() as int) == batches_view(
            batches,
        ),
        0 <= i < last@.len() ==> batches_view(batches.push(last))[batches_view(batches).len() + i]
            == last@[i]@,
{
    let all = batches.push(last);
    assert(all.drop_last() =~= batches);
    assert(all.last() == last);
    assert(batches_view(all).take(batches_view(batches).len() as int) =~= batches_view(batches));
}

/// The rows that are written are those of the one key after those of the other.
pub proof fn law_written_rows_are_in_order(outs: Seq<Seq<FlushRowView>>, last: Seq<FlushRowView>)
    ensures
        all_rows(Seq::empty()).len() == 0,
        all_rows(outs.push(last)) == all_rows(outs) + last,
{
    assert(outs.push(last).drop_last() =~= outs);
}

/// Folding fails only where a merge operator does: at the first key whose newest row
/// is a merge operand and for which the operator, asked for the fold, gives that error.
pub proof fn law_only_a_failing_operator_stops_a_fold<M: MergeOperator>(
    op: M,
    groups: Seq<Seq<FlushRowView>>,
    e: ForstError,
) -> (k: int)
    requires
        forall|i: int| 0 <= i < groups.len() ==> (#[trigger] groups[i]).len() > 0,
        collapse_failed(op, groups, e),
    ensures
        0 <= k < groups.len(),
        groups[k][0].op == 3,
        exists|base: Option<Seq<u8>>, operands: Seq<Seq<u8>>|
            #[trigger] merge_operator::may_merge(
                op,
                groups[k][0].key,
                base,
                operands,
                Err::<Vec<u8>, ForstError>(e),
            ) && operands.len() > 0,
        exists|outs: Seq<Seq<FlushRowView>>| #[trigger] groups_collapsed(op, groups.take(k), outs),
{
    let (k, outs) = choose|k: int, outs: Seq<Seq<FlushRowView>>|
        {
            &&& 0 <= k < groups.len()
            &&& #[trigger] groups_collapsed(op, groups.take(k), outs)
            &&& fold_failed(op, groups[k], e)
        };
    let group = groups[k];
    let p = not_operand();
    coding::lemma_first_index_props(group, p);
    let n = coding::first_index(group, p);
    if group[0].op != 3 {
        assert(p(group[0]));
        coding::lemma_first_index(group, p, 0);
    }
    assert(n > 0) by {
        if n == 0 {
            assert(p(group[0]));
        }
    }
    let o = group_outcome(group);
    assert(merge_operator::may_merge(
        op,
        group[0].key,
        o->base,
        o->operands,
        Err::<Vec<u8>, ForstError>(e),
    ));
    k
}

} // verus!
