//! Consolidation of the versions of one key during compaction.
//!
//! The versions of a key come newest first. Those that a live snapshot may
//! need are kept as they are; the rest collapse to what a reader at the head
//! sees.

use crate::bytes::{copy_bytes, copy_opt_bytes};
use crate::bytes;
use crate::coding;
use crate::error::{corruption_text, ErrorKind, ForstError, ForstResult};
use crate::row::{Row, RowView};
use crate::row;
use crate::text::{push_byte_list, push_decimal};
use crate::text;
use crate::types::OpType;
use vstd::prelude::*;
use vstd::string::*;

verus! {

/// A compaction filter's verdict with the replacement, if any.
pub enum Verdict {
    Keep,
    Discard,
    Replace(Vec<u8>),
}

/// The view of a [`Verdict`].
pub enum VerdictView {
    Keep,
    Discard,
    Replace(Seq<u8>),
}

impl View for Verdict {
    type V = VerdictView;

    open spec fn view(&self) -> VerdictView {
        match self {
            Verdict::Keep => VerdictView::Keep,
            Verdict::Discard => VerdictView::Discard,
            Verdict::Replace(b) => VerdictView::Replace(b@),
        }
    }
}

/// What becomes of the versions of a key.
pub enum KeyOutcome {
    /// These rows are written.
    Rows(Seq<RowView>),
    /// One row is written: the merge of the operands, oldest first, into the
    /// base.
    Collapse { base: Option<Seq<u8>>, operands: Seq<Seq<u8>> },
    /// A merge operand has no payload.
    MissingOperand,
    /// A merge chain reached the bottommost level and nothing can fold it.
    NoMergeOperator,
}

/// No live snapshot needs to see this far back.
pub open spec fn below(min_active: u64) -> spec_fn(RowView) -> bool {
    |v: RowView| v.sequence < min_active
}

/// The row ends a merge chain.
pub open spec fn terminal() -> spec_fn(RowView) -> bool {
    |v: RowView| v.op_type != OpType::Merge
}

/// How many of the newest versions live snapshots pin.
pub open spec fn pinned_count(versions: Seq<RowView>, min_active: u64) -> int {
    coding::first_index(versions, below(min_active))
}

/// The merge operands at the start of `versions` and the row that ends them,
/// if there is one.
pub open spec fn chain(versions: Seq<RowView>) -> Seq<RowView> {
    let t = coding::first_index(versions, terminal());
    if t < versions.len() {
        versions.take(t + 1)
    } else {
        versions
    }
}

/// Some snapshot reads past the pinned versions: the oldest of them is newer
/// than the oldest snapshot, or one of them is a merge operand.
pub open spec fn reads_past(pinned: Seq<RowView>, min_active: u64) -> bool {
    pinned.last().sequence > min_active || exists|i: int|
        0 <= i < pinned.len() && #[trigger] pinned[i].op_type == OpType::Merge
}

/// The value under the merge operands at the start of `versions`.
pub open spec fn chain_base(versions: Seq<RowView>) -> Option<Seq<u8>> {
    let t = coding::first_index(versions, terminal());
    if t < versions.len() && versions[t].op_type == OpType::Put {
        versions[t].value
    } else {
        None
    }
}

/// The merge operands at the start of `versions`, oldest first.
pub open spec fn chain_operands(versions: Seq<RowView>) -> Seq<Seq<u8>> {
    let t = coding::first_index(versions, terminal());
    Seq::new(t as nat, |i: int| versions[t - 1 - i].value->0)
}

/// One of the merge operands at the start of `versions` has no payload.
pub open spec fn operand_missing(versions: Seq<RowView>) -> bool {
    exists|i: int|
        0 <= i < coding::first_index(versions, terminal()) && #[trigger] versions[i].value is None
}

/// What becomes of versions that no snapshot pins.
pub open spec fn consolidated(
    versions: Seq<RowView>,
    is_bottommost: bool,
    has_operator: bool,
    verdict: VerdictView,
) -> KeyOutcome {
    let newest = versions[0];
    if verdict is Discard && is_bottommost {
        KeyOutcome::Rows(Seq::empty())
    } else if let VerdictView::Replace(value) = verdict {
        KeyOutcome::Rows(
            seq![
                RowView {
                    key: newest.key,
                    value: Some(value),
                    sequence: newest.sequence,
                    op_type: newest.op_type,
                },
            ],
        )
    } else if newest.op_type.is_tombstone() {
        if is_bottommost {
            KeyOutcome::Rows(Seq::empty())
        } else {
            KeyOutcome::Rows(seq![newest])
        }
    } else if newest.op_type == OpType::Put {
        KeyOutcome::Rows(seq![newest])
    } else if operand_missing(versions) {
        KeyOutcome::MissingOperand
    } else if has_operator {
        if chain_base(versions) is Some || is_bottommost {
            KeyOutcome::Collapse {
                base: chain_base(versions),
                operands: chain_operands(versions),
            }
        } else {
            KeyOutcome::Rows(versions)
        }
    } else if is_bottommost {
        KeyOutcome::NoMergeOperator
    } else {
        KeyOutcome::Rows(versions)
    }
}

/// The filter is asked only about keys that no snapshot pins.
pub open spec fn consults_filter(versions: Seq<RowView>, min_active: u64) -> bool {
    pinned_count(versions, min_active) == 0 && versions.len() > 0
}

/// What becomes of the versions of a key, newest first.
pub open spec fn key_outcome(
    versions: Seq<RowView>,
    min_active: u64,
    is_bottommost: bool,
    has_operator: bool,
    verdict: VerdictView,
) -> KeyOutcome {
    let split = pinned_count(versions, min_active);
    let pinned = versions.take(split);
    let tail = versions.skip(split);
    if consults_filter(versions, min_active) {
        consolidated(versions, is_bottommost, has_operator, verdict)
    } else if tail.len() > 0 && reads_past(pinned, min_active) {
        KeyOutcome::Rows(pinned + chain(tail))
    } else {
        KeyOutcome::Rows(pinned)
    }
}

/// The row that a collapsed chain becomes.
pub open spec fn collapsed_row(newest: RowView, merged: Seq<u8>) -> RowView {
    RowView {
        key: newest.key,
        value: Some(merged),
        sequence: newest.sequence,
        op_type: OpType::Put,
    }
}

/// The message when a merge chain cannot be folded.
pub open spec fn no_operator_message(key: Seq<u8>, versions: nat) -> Seq<char> {
    "compaction: bottommost CF has no merge operator but the input contains an un-folded Merge chain for key "@
        + text::byte_list(key) + " (len="@ + text::decimal(versions)
        + "); the LSM reclamation invariant cannot be satisfied. The CF was likely re-opened without re-registering its merge operator."@
}

/// The message when a merge operand has no payload.
pub open spec fn missing_operand_message() -> Seq<char> {
    "compaction: Merge entry missing operand payload"@
}

/// What to do with the versions of a key.
pub enum KeyPlan {
    /// Write these rows.
    Rows(Vec<Row>),
    /// Write the merge of `operands`, oldest first, into `base`.
    Collapse { base: Option<Vec<u8>>, operands: Vec<Vec<u8>> },
}

impl View for KeyPlan {
    type V = KeyOutcome;

    open spec fn view(&self) -> KeyOutcome {
        match self {
            KeyPlan::Rows(rows) => KeyOutcome::Rows(row::rows_view(rows@)),
            KeyPlan::Collapse { base, operands } => KeyOutcome::Collapse {
                base: bytes::opt_bytes(*base),
                operands: row::byte_strings(operands@),
            },
        }
    }
}

fn copy_rows(rows: &[Row], from: usize, to: usize, out: &mut Vec<Row>)
    requires
        from <= to <= rows@.len(),
    ensures
        row::rows_view(final(out)@) == row::rows_view(old(out)@) + row::rows_view(rows@).subrange(
            from as int,
            to as int,
        ),
{
    let mut i: usize = from;
    while i < to
        invariant
            from <= i <= to <= rows@.len(),
            row::rows_view(out@) == row::rows_view(old(out)@) + row::rows_view(rows@).subrange(
                from as int,
                i as int,
            ),
        decreases to - i,
    {
        let row = rows[i].duplicate();
        proof {
            row::lemma_rows_push(out@, row);
        }
        out.push(row);
        i += 1;
        assert(row::rows_view(out@) =~= row::rows_view(old(out)@) + row::rows_view(rows@).subrange(
            from as int,
            i as int,
        ));
    }
}

/// The index of the first row below `min_active`.
pub fn count_pinned(versions: &[Row], min_active: u64) -> (r: usize)
    ensures
        r == pinned_count(row::rows_view(versions@), min_active),
        r <= versions@.len(),
{
    let ghost rows = row::rows_view(versions@);
    let mut i: usize = 0;
    while i < versions.len() && versions[i].sequence >= min_active
        invariant
            i <= versions@.len(),
            rows == row::rows_view(versions@),
            forall|k: int| 0 <= k < i ==> rows[k].sequence >= min_active,
        decreases versions@.len() - i,
    {
        i += 1;
    }
    proof {
        assert forall|k: int| 0 <= k < i implies !below(min_active)(#[trigger] rows[k]) by {}
        coding::lemma_first_index(rows, below(min_active), i as int);
    }
    i
}

/// The index of the first row from `from` on that ends a merge chain, counted
/// from `from`.
fn count_operands(versions: &[Row], from: usize) -> (r: usize)
    requires
        from <= versions@.len(),
    ensures
        r == coding::first_index(row::rows_view(versions@).skip(from as int), terminal()),
        from + r <= versions@.len(),
{
    let ghost rows = row::rows_view(versions@).skip(from as int);
    let mut i: usize = from;
    while i < versions.len() && versions[i].op_type == OpType::Merge
        invariant
            from <= i <= versions@.len(),
            rows == row::rows_view(versions@).skip(from as int),
            forall|k: int| 0 <= k < i - from ==> rows[k].op_type == OpType::Merge,
        decreases versions@.len() - i,
    {
        assert(rows[i - from].op_type == OpType::Merge);
        i += 1;
    }
    proof {
        assert forall|k: int| 0 <= k < i - from implies !terminal()(#[trigger] rows[k]) by {}
        coding::lemma_first_index(rows, terminal(), i - from);
    }
    i - from
}

/// Plans the rows of a key whose newest versions are pinned by snapshots.
fn plan_pinned(versions: &[Row], min_active: u64, split: usize) -> (r: Vec<Row>)
    requires
        split == pinned_count(row::rows_view(versions@), min_active),
        !consults_filter(row::rows_view(versions@), min_active),
        split <= versions@.len(),
    ensures
        KeyOutcome::Rows(row::rows_view(r@)) == key_outcome(
            row::rows_view(versions@),
            min_active,
            false,
            false,
            VerdictView::Keep,
        ),
{
    let ghost rows = row::rows_view(versions@);
    let ghost pinned = rows.take(split as int);
    let ghost tail = rows.skip(split as int);
    let mut out: Vec<Row> = Vec::new();
    copy_rows(versions, 0, split, &mut out);
    assert(row::rows_view(out@) =~= pinned);
    if split < versions.len() {
        let mut past: bool = versions[split - 1].sequence > min_active;
        let mut i: usize = 0;
        assert(pinned.last() == versions@[split - 1]@);
        while i < split
            invariant
                i <= split <= versions@.len(),
                0 < split,
                pinned == row::rows_view(versions@).take(split as int),
                past == (pinned.last().sequence > min_active || exists|k: int|
                    0 <= k < i && #[trigger] pinned[k].op_type == OpType::Merge),
            decreases split - i,
        {
            assert(pinned[i as int].op_type == versions@[i as int].op_type);
            if versions[i].op_type == OpType::Merge {
                past = true;
            }
            i += 1;
        }
        assert(past == reads_past(pinned, min_active));
        if past {
            let t: usize = count_operands(versions, split);
            let end: usize = if split + t < versions.len() {
                split + t + 1
            } else {
                versions.len()
            };
            copy_rows(versions, split, end, &mut out);
            assert(rows.subrange(split as int, end as int) =~= chain(tail));
            assert(row::rows_view(out@) =~= pinned + chain(tail));
        }
    }
    out
}

/// Collects the merge operands at the start of `versions`, oldest first.
fn collect_operands(versions: &[Row], t: usize) -> (r: Option<Vec<Vec<u8>>>)
    requires
        t == coding::first_index(row::rows_view(versions@), terminal()),
        t <= versions@.len(),
    ensures
        r is None <==> operand_missing(row::rows_view(versions@)),
        r matches Some(ops) ==> row::byte_strings(ops@) == chain_operands(row::rows_view(versions@)),
{
    let ghost rows = row::rows_view(versions@);
    let mut ops: Vec<Vec<u8>> = Vec::new();
    let mut i: usize = t;
    while i > 0
        invariant
            i <= t <= versions@.len(),
            rows == row::rows_view(versions@),
            t == coding::first_index(rows, terminal()),
            forall|k: int| i <= k < t ==> rows[k].value is Some,
            row::byte_strings(ops@) == Seq::new((t - i) as nat, |k: int| rows[t - 1 - k].value->0),
        decreases i,
    {
        i = i - 1;
        assert(rows[i as int].value == bytes::opt_bytes(versions@[i as int].value));
        match &versions[i].value {
            Some(v) => {
                let op: Vec<u8> = copy_bytes(v.as_slice());
                proof {
                    row::lemma_strings_push(ops@, op);
                }
                ops.push(op);
            },
            None => {
                assert(rows[i as int].value is None);
                return None;
            },
        }
        assert(row::byte_strings(ops@) =~= Seq::new((t - i) as nat, |k: int| rows[t - 1 - k].value->0));
    }
    assert(row::byte_strings(ops@) =~= chain_operands(rows));
    Some(ops)
}

/// Plans what becomes of versions that no snapshot pins.
fn plan_consolidated(
    versions: &[Row],
    is_bottommost: bool,
    has_operator: bool,
    verdict: Verdict,
) -> (r: ForstResult<KeyPlan>)
    requires
        versions@.len() > 0,
    ensures
        plan_matches(
            consolidated(row::rows_view(versions@), is_bottommost, has_operator, verdict@),
            row::rows_view(versions@),
            r,
        ),
{
    let ghost rows = row::rows_view(versions@);
    let newest: &Row = &versions[0];
    assert(rows[0] == newest@);
    match verdict {
        Verdict::Discard => {
            if is_bottommost {
                let none: Vec<Row> = Vec::new();
                assert(row::rows_view(none@) =~= Seq::empty());
                return Ok(KeyPlan::Rows(none));
            }
        },
        Verdict::Keep => {},
        Verdict::Replace(value) => {
            let row = Row {
                key: copy_bytes(newest.key.as_slice()),
                value: Some(value),
                sequence: newest.sequence,
                op_type: newest.op_type,
            };
            let ghost view = row@;
            let mut out: Vec<Row> = Vec::new();
            out.push(row);
            assert(row::rows_view(out@) =~= seq![view]);
            return Ok(KeyPlan::Rows(out));
        },
    }
    match newest.op_type {
        OpType::Delete | OpType::SingleDelete => {
            let mut out: Vec<Row> = Vec::new();
            if !is_bottommost {
                out.push(newest.duplicate());
                assert(row::rows_view(out@) =~= seq![rows[0]]);
            } else {
                assert(row::rows_view(out@) =~= Seq::empty());
            }
            Ok(KeyPlan::Rows(out))
        },
        OpType::Put => {
            let mut out: Vec<Row> = Vec::new();
            out.push(newest.duplicate());
            assert(row::rows_view(out@) =~= seq![rows[0]]);
            Ok(KeyPlan::Rows(out))
        },
        OpType::Merge => {
            assert(rows.skip(0) =~= rows);
            let t: usize = count_operands(versions, 0);
            let operands: Vec<Vec<u8>> = match collect_operands(versions, t) {
                Some(o) => o,
                None => {
                    return Err(corruption_text("compaction: Merge entry missing operand payload"));
                },
            };
            let base: Option<Vec<u8>> = if t < versions.len() && versions[t].op_type
                == OpType::Put {
                assert(rows[t as int] == versions@[t as int]@);
                copy_opt_bytes(&versions[t].value)
            } else {
                None
            };
            assert(bytes::opt_bytes(base) == chain_base(rows));
            if has_operator {
                if base.is_some() || is_bottommost {
                    return Ok(KeyPlan::Collapse { base, operands });
                }
            } else if is_bottommost {
                let mut m = String::new();
                m.append(
                    "compaction: bottommost CF has no merge operator but the input contains an un-folded Merge chain for key ",
                );
                push_byte_list(&mut m, newest.key.as_slice());
                m.append(" (len=");
                push_decimal(&mut m, versions.len() as u64);
                m.append(
                    "); the LSM reclamation invariant cannot be satisfied. The CF was likely re-opened without re-registering its merge operator.",
                );
                assert(m@ =~= no_operator_message(rows[0].key, rows.len()));
                return Err(ForstError::InvalidArgument(m));
            }
            let mut out: Vec<Row> = Vec::new();
            copy_rows(versions, 0, versions.len(), &mut out);
            assert(row::rows_view(out@) =~= rows);
            Ok(KeyPlan::Rows(out))
        },
    }
}

/// `result` is the plan, or the error, that `outcome` calls for.
pub open spec fn plan_matches(
    outcome: KeyOutcome,
    versions: Seq<RowView>,
    result: ForstResult<KeyPlan>,
) -> bool {
    match outcome {
        KeyOutcome::MissingOperand => result matches Err(e) && e.says(
            ErrorKind::Corruption,
            missing_operand_message(),
        ),
        KeyOutcome::NoMergeOperator => result matches Err(e) && e.says(
            ErrorKind::InvalidArgument,
            no_operator_message(versions[0].key, versions.len()),
        ),
        _ => result matches Ok(plan) && plan@ == outcome,
    }
}

/// Plans what becomes of the versions of a key, newest first. `verdict` is the
/// filter's, and counts only if [`consults_filter`].
pub fn plan_key_versions(
    versions: &[Row],
    min_active: u64,
    is_bottommost: bool,
    has_operator: bool,
    verdict: Verdict,
) -> (r: ForstResult<KeyPlan>)
    ensures
        plan_matches(
            key_outcome(row::rows_view(versions@), min_active, is_bottommost, has_operator, verdict@),
            row::rows_view(versions@),
            r,
        ),
{
    let split: usize = count_pinned(versions, min_active);
    if split == 0 && versions.len() > 0 {
        plan_consolidated(versions, is_bottommost, has_operator, verdict)
    } else {
        Ok(KeyPlan::Rows(plan_pinned(versions, min_active, split)))
    }
}

/// What a key comes down to when no snapshot pins it and the filter keeps it: a
/// value stands for all that it hides, and a deletion too, except at the
/// bottommost level, where nothing is left to hide and the key is gone.
pub proof fn law_newest_version_stands_for_the_rest(
    versions: Seq<RowView>,
    min_active: u64,
    is_bottommost: bool,
    has_operator: bool,
)
    requires
        versions.len() > 0,
        versions[0].sequence < min_active,
    ensures
        ({
            let outcome = key_outcome(
                versions,
                min_active,
                is_bottommost,
                has_operator,
                VerdictView::Keep,
            );
            match versions[0].op_type {
                OpType::Put => outcome == KeyOutcome::Rows(seq![versions[0]]),
                OpType::Delete | OpType::SingleDelete => outcome == KeyOutcome::Rows(
                    if is_bottommost {
                        Seq::empty()
                    } else {
                        seq![versions[0]]
                    },
                ),
                OpType::Merge => true,
            }
        }),
{
    assert(below(min_active)(versions[0]));
    coding::lemma_first_index(versions, below(min_active), 0);
}

/// `n` merge operands lie on top of an unpinned key. They are folded, oldest
/// first, into the value under them if there is one, and at the bottommost level
/// in any case. Elsewhere what they apply to may lie further down, and all
/// versions stay. An operand without a payload is an error, and so is a chain
/// at the bottommost level without an operator.
pub proof fn law_merge_operands_fold_into_their_base(
    versions: Seq<RowView>,
    n: int,
    min_active: u64,
    is_bottommost: bool,
    has_operator: bool,
)
    requires
        0 < n <= versions.len(),
        versions[0].sequence < min_active,
        forall|i: int| 0 <= i < n ==> (#[trigger] versions[i]).op_type is Merge,
        n < versions.len() ==> !(versions[n].op_type is Merge),
    ensures
        ({
            let outcome = key_outcome(
                versions,
                min_active,
                is_bottommost,
                has_operator,
                VerdictView::Keep,
            );
            let base = if n < versions.len() && versions[n].op_type is Put {
                versions[n].value
            } else {
                None
            };
            if exists|i: int| 0 <= i < n && (#[trigger] versions[i]).value is None {
                outcome is MissingOperand
            } else if has_operator && (base is Some || is_bottommost) {
                &&& outcome is Collapse
                &&& outcome->base == base
                &&& outcome->operands.len() == n
                &&& forall|i: int|
                    0 <= i < n ==> Some(#[trigger] outcome->operands[i]) == versions[n - 1 - i].value
            } else if is_bottommost {
                outcome is NoMergeOperator
            } else {
                outcome == KeyOutcome::Rows(versions)
            }
        }),
{
    assert(below(min_active)(versions[0]));
    coding::lemma_first_index(versions, below(min_active), 0);
    let p = terminal();
    assert forall|i: int| 0 <= i < n implies !p(#[trigger] versions[i]) by {
        assert(versions[i].op_type is Merge);
    }
    coding::lemma_first_index(versions, p, n);
    assert(operand_missing(versions) == exists|i: int|
        0 <= i < n && (#[trigger] versions[i]).value is None);
    assert(versions[0].op_type is Merge);
    let ops = chain_operands(versions);
    assert forall|i: int|
        0 <= i < n && !operand_missing(versions) implies Some(#[trigger] ops[i])
        == versions[n - 1 - i].value by {
        assert(versions[n - 1 - i].value is Some);
    }
}

/// The verdict of a filter counts for a key that no snapshot pins, and for no
/// other: discarded at the bottommost level the key is gone, elsewhere a
/// discarded key stays as if it had been kept, and a replacement takes the place
/// of the value and of all older versions.
pub proof fn law_verdict_counts_for_unpinned_keys(
    versions: Seq<RowView>,
    min_active: u64,
    is_bottommost: bool,
    has_operator: bool,
    verdict: VerdictView,
    other: VerdictView,
)
    requires
        versions.len() > 0,
    ensures
        versions[0].sequence >= min_active ==> key_outcome(
            versions,
            min_active,
            is_bottommost,
            has_operator,
            verdict,
        ) == key_outcome(versions, min_active, is_bottommost, has_operator, other),
        versions[0].sequence < min_active ==> {
            let outcome = key_outcome(versions, min_active, is_bottommost, has_operator, verdict);
            match verdict {
                VerdictView::Keep => true,
                VerdictView::Discard => if is_bottommost {
                    outcome == KeyOutcome::Rows(Seq::empty())
                } else {
                    outcome == key_outcome(
                        versions,
                        min_active,
                        is_bottommost,
                        has_operator,
                        VerdictView::Keep,
                    )
                },
                VerdictView::Replace(value) => outcome == KeyOutcome::Rows(
                    seq![RowView { value: Some(value), ..versions[0] }],
                ),
            }
        },
{
    let p = below(min_active);
    coding::lemma_first_index_props(versions, p);
    if versions[0].sequence < min_active {
        assert(p(versions[0]));
        coding::lemma_first_index(versions, p, 0);
    } else if pinned_count(versions, min_active) == 0 {
        assert(p(versions[0]));
    }
}

/// Of a key with pinned versions the newest ones are written, in order: at least
/// all from the newest on that a snapshot may pin. Nothing more is written if the
/// smallest live snapshot reads one of them that hides the rest, and never
/// anything under the first row below the snapshots that ends a chain.
pub proof fn law_pinned_versions_are_written(
    versions: Seq<RowView>,
    min_active: u64,
    is_bottommost: bool,
    has_operator: bool,
    verdict: VerdictView,
    k: int,
)
    requires
        0 <= k < versions.len(),
        forall|i: int| 0 <= i <= k ==> (#[trigger] versions[i]).sequence >= min_active,
    ensures
        ({
            let outcome = key_outcome(versions, min_active, is_bottommost, has_operator, verdict);
            &&& outcome is Rows
            &&& k < outcome->Rows_0.len() <= versions.len()
            &&& outcome->Rows_0 == versions.take(outcome->Rows_0.len() as int)
            &&& versions[k].sequence == min_active && (forall|i: int|
                0 <= i <= k ==> !((#[trigger] versions[i]).op_type is Merge)) && (k + 1
                < versions.len() ==> versions[k + 1].sequence < min_active)
                ==> outcome->Rows_0.len() == k + 1
            &&& forall|i: int|
                0 <= i < outcome->Rows_0.len() && (#[trigger] versions[i]).sequence < min_active
                    && !(versions[i].op_type is Merge) ==> i + 1 == outcome->Rows_0.len() || exists|
                    j: int,
                |
                    i < j < versions.len() && (#[trigger] versions[j]).sequence >= min_active
        }),
{
    let p = below(min_active);
    let split = pinned_count(versions, min_active);
    coding::lemma_first_index_props(versions, p);
    if split <= k {
        assert(p(versions[split]));
        assert(versions[split].sequence >= min_active);
    }
    let pinned = versions.take(split);
    let tail = versions.skip(split);
    let q = terminal();
    let t = coding::first_index(tail, q);
    coding::lemma_first_index_props(tail, q);
    let outcome = key_outcome(versions, min_active, is_bottommost, has_operator, verdict);
    let e: int = if tail.len() > 0 && reads_past(pinned, min_active) {
        if t < tail.len() {
            split + t + 1
        } else {
            versions.len() as int
        }
    } else {
        split
    };
    assert(outcome->Rows_0 =~= versions.take(e));
    if versions[k].sequence == min_active && (forall|i: int|
        0 <= i <= k ==> !((#[trigger] versions[i]).op_type is Merge)) && (k + 1 < versions.len()
        ==> versions[k + 1].sequence < min_active) {
        if k + 1 < versions.len() {
            assert(p(versions[k + 1]));
        }
        if split > k + 1 {
            assert(!p(versions[k + 1]));
        }
        assert(split == k + 1);
        assert(pinned.last() == versions[k]);
        if reads_past(pinned, min_active) {
            let i = choose|i: int|
                0 <= i < pinned.len() && #[trigger] pinned[i].op_type == OpType::Merge;
            assert(versions[i].op_type is Merge);
        }
    }
    assert forall|i: int|
        0 <= i < e && (#[trigger] versions[i]).sequence < min_active && !(
        versions[i].op_type is Merge) implies i + 1 == e || exists|j: int|
        i < j < versions.len() && (#[trigger] versions[j]).sequence >= min_active by {
        if i < split {
            assert(!p(versions[i]));
        } else {
            assert(tail[i - split] == versions[i]);
            if i - split < t {
                assert(!q(tail[i - split]));
            }
        }
    }
}

/// What is kept under the last pinned version, `versions[k]`: nothing where it has the
/// oldest pinned number and no pinned version is a merge operand, and else the merge
/// operands that follow with the first version that is none.
pub proof fn law_rows_under_a_pin_reach_a_base(
    versions: Seq<RowView>,
    min_active: u64,
    is_bottommost: bool,
    has_operator: bool,
    verdict: VerdictView,
    k: int,
)
    requires
        0 <= k,
        k + 1 < versions.len(),
        forall|i: int| 0 <= i <= k ==> (#[trigger] versions[i]).sequence >= min_active,
        versions[k + 1].sequence < min_active,
    ensures
        ({
            let outcome = key_outcome(versions, min_active, is_bottommost, has_operator, verdict);
            let n = outcome->Rows_0.len();
            &&& outcome is Rows
            &&& outcome->Rows_0 == versions.take(n as int)
            &&& if versions[k].sequence > min_active || exists|i: int|
                0 <= i <= k && (#[trigger] versions[i]).op_type is Merge {
                &&& k + 1 < n <= versions.len()
                &&& n == versions.len() || !(versions[n - 1].op_type is Merge)
                &&& forall|i: int| k < i < n - 1 ==> (#[trigger] versions[i]).op_type is Merge
            } else {
                n == k + 1
            }
        }),
{
    let p = below(min_active);
    let q = terminal();
    assert forall|i: int| 0 <= i < k + 1 implies !p(#[trigger] versions[i]) by {
        assert(versions[i].sequence >= min_active);
    }
    assert(p(versions[k + 1]));
    coding::lemma_first_index(versions, p, k + 1);
    let pinned = versions.take(k + 1);
    let tail = versions.skip(k + 1);
    let t = coding::first_index(tail, q);
    coding::lemma_first_index_props(tail, q);
    assert(pinned.last() == versions[k]);
    if exists|i: int| 0 <= i <= k && (#[trigger] versions[i]).op_type is Merge {
        let i = choose|i: int| 0 <= i <= k && (#[trigger] versions[i]).op_type is Merge;
        assert(pinned[i].op_type == OpType::Merge);
    }
    if exists|i: int| 0 <= i < pinned.len() && #[trigger] pinned[i].op_type == OpType::Merge {
        let i = choose|i: int|
            0 <= i < pinned.len() && #[trigger] pinned[i].op_type == OpType::Merge;
        assert(versions[i].op_type is Merge);
    }
    let outcome = key_outcome(versions, min_active, is_bottommost, has_operator, verdict);
    let e: int = if reads_past(pinned, min_active) {
        if t < tail.len() {
            k + 1 + t + 1
        } else {
            versions.len() as int
        }
    } else {
        k + 1
    };
    assert(outcome->Rows_0 =~= versions.take(e));
    if reads_past(pinned, min_active) {
        if t < tail.len() {
            assert(q(tail[t]));
            assert(tail[t] == versions[e - 1]);
        }
        assert forall|i: int| k < i < e - 1 implies (#[trigger] versions[i]).op_type is Merge by {
            assert(!q(tail[i - (k + 1)]));
        }
    }
}

/// The versions that are pinned are those in front of the first one that no snapshot
/// holds.
pub proof fn law_pinned_versions_are_counted(versions: Seq<RowView>, min_active: u64, i: int)
    requires
        0 <= i < versions.len(),
    ensures
        0 <= pinned_count(versions, min_active) <= versions.len(),
        i < pinned_count(versions, min_active) ==> versions[i].sequence >= min_active,
        i == pinned_count(versions, min_active) ==> versions[i].sequence < min_active,
{
    let p = below(min_active);
    coding::lemma_first_index_props(versions, p);
    if i < pinned_count(versions, min_active) {
        assert(!p(versions[i]));
    }
    if i == pinned_count(versions, min_active) {
        assert(p(versions[i]));
    }
}

/// A missing operand is corruption, a missing operator a wrong argument; everything
/// else is a plan.
pub proof fn law_plans_fail_for_two_reasons(
    outcome: KeyOutcome,
    versions: Seq<RowView>,
    result: ForstResult<KeyPlan>,
)
    requires
        plan_matches(outcome, versions, result),
    ensures
        outcome is MissingOperand ==> (result matches Err(e) && e.kind() is Corruption),
        outcome is NoMergeOperator ==> (result matches Err(e) && e.kind() is InvalidArgument),
        outcome is Rows ==> (result matches Ok(KeyPlan::Rows(rows)) && rows@.len()
            == outcome->Rows_0.len() && forall|i: int|
            0 <= i < rows@.len() ==> (#[trigger] rows@[i])@ == outcome->Rows_0[i]),
        outcome is Collapse ==> (result matches Ok(KeyPlan::Collapse { base, operands }) && (
        match base {
            Some(b) => outcome->base == Some(b@),
            None => outcome->base is None,
        }) && operands@.len() == outcome->operands.len() && forall|i: int|
            0 <= i < operands@.len() ==> (#[trigger] operands@[i])@ == outcome->operands[i]),
{
    match result {
        Ok(plan) => {
            match plan {
                KeyPlan::Rows(rows) => {
                    if outcome is Rows {
                        assert(row::rows_view(rows@) == outcome->Rows_0);
                        assert forall|i: int| 0 <= i < rows@.len() implies (#[trigger] rows@[i])@
                            == outcome->Rows_0[i] by {
                            assert(row::rows_view(rows@)[i] == rows@[i]@);
                        }
                    }
                },
                KeyPlan::Collapse { base, operands } => {
                    if outcome is Collapse {
                        assert(row::byte_strings(operands@) == outcome->operands);
                        assert forall|i: int|
                            0 <= i < operands@.len() implies (#[trigger] operands@[i])@
                            == outcome->operands[i] by {
                            assert(row::byte_strings(operands@)[i] == operands@[i]@);
                        }
                    }
                },
            }
        },
        Err(_) => {},
    }
}

/// The words about a merge chain that cannot be folded: its key and its length.
pub proof fn law_fold_messages(key: Seq<u8>, versions: nat)
    ensures
        missing_operand_message() == "compaction: Merge entry missing operand payload"@,
        no_operator_message(key, versions)
            == "compaction: bottommost CF has no merge operator but the input contains an un-folded Merge chain for key "@
            + text::byte_list(key) + " (len="@ + text::decimal(versions)
            + "); the LSM reclamation invariant cannot be satisfied. The CF was likely re-opened without re-registering its merge operator."@,
{
}

} // verus!
