//! Versioned reads: what a snapshot sees of a key.

use crate::bytes;
use crate::bytes::{bytes_equal, copy_bytes};
use crate::coding;
use crate::error::ForstResult;
use crate::key_versions;
use crate::merge_operator;
use crate::merge_operator::{call_full_merge, MergeOperator};
use crate::mvcc::snapshot::Snapshot;
use crate::row;
use crate::row::RowView;
use crate::types::{InternalKey, OpType};
use vstd::prelude::*;

verus! {

/// One stored version.
pub struct VersionedEntry<'a> {
    pub key: &'a InternalKey,
    pub value: &'a [u8],
}

impl<'a> View for VersionedEntry<'a> {
    type V = RowView;

    open spec fn view(&self) -> RowView {
        RowView {
            key: self.key@.user_key,
            value: Some(self.value@),
            sequence: self.key@.sequence.0,
            op_type: self.key@.op_type,
        }
    }
}

/// The contents of several entries.
pub open spec fn entries_view(entries: Seq<VersionedEntry<'_>>) -> Seq<RowView> {
    Seq::new(entries.len(), |i: int| entries[i]@)
}

/// The rows of `user_key` at the start of `rows`.
pub open spec fn rows_of_key(rows: Seq<RowView>, user_key: Seq<u8>) -> Seq<RowView> {
    rows.take(coding::first_index(rows, |r: RowView| r.key != user_key))
}

/// The rows that a reader at `snapshot` sees.
pub open spec fn seen_at(rows: Seq<RowView>, snapshot: u64) -> Seq<RowView> {
    rows.filter(|r: RowView| r.sequence <= snapshot)
}

/// What a read without a merge operator gives, from the versions it sees: the
/// value of the newest if that is a `Put`.
pub open spec fn plain_read(seen: Seq<RowView>) -> Option<Seq<u8>> {
    if seen.len() > 0 && seen[0].op_type == OpType::Put {
        seen[0].value
    } else {
        None
    }
}

/// Extends [`seen_at`] by one row.
proof fn lemma_seen_push(rows: Seq<RowView>, row: RowView, snapshot: u64)
    ensures
        seen_at(rows.push(row), snapshot) == if row.sequence <= snapshot {
            seen_at(rows, snapshot).push(row)
        } else {
            seen_at(rows, snapshot)
        },
{
    reveal(Seq::filter);
    assert(rows.push(row).drop_last() =~= rows);
}

/// A row that is not seen changes nothing; rows after the first terminal one
/// do not change where it is.
proof fn lemma_seen_prefix(rows: Seq<RowView>, k: int, snapshot: u64)
    requires
        0 <= k <= rows.len(),
    ensures
        seen_at(rows.take(k), snapshot).len() <= seen_at(rows, snapshot).len(),
        seen_at(rows, snapshot).take(seen_at(rows.take(k), snapshot).len() as int) == seen_at(
            rows.take(k),
            snapshot,
        ),
    decreases rows.len() - k,
{
    if k < rows.len() {
        lemma_seen_prefix(rows, k + 1, snapshot);
        assert(rows.take(k + 1) =~= rows.take(k).push(rows[k]));
        lemma_seen_push(rows.take(k), rows[k], snapshot);
        let a = seen_at(rows.take(k), snapshot);
        let b = seen_at(rows.take(k + 1), snapshot);
        let all = seen_at(rows, snapshot);
        assert(all.take(a.len() as int) =~= b.take(a.len() as int));
        assert(b.take(a.len() as int) =~= a);
    } else {
        assert(rows.take(k) =~= rows);
        let all = seen_at(rows, snapshot);
        assert(all.take(all.len() as int) =~= all);
    }
}

/// How many entries from the start belong to `user_key`.
fn count_of_key(entries: &[VersionedEntry<'_>], user_key: &[u8]) -> (r: usize)
    ensures
        r <= entries@.len(),
        entries_view(entries@).take(r as int) == rows_of_key(entries_view(entries@), user_key@),
        forall|i: int| 0 <= i < r ==> (#[trigger] entries@[i])@.key == user_key@,
{
    let ghost rows = entries_view(entries@);
    let ghost p = |r: RowView| r.key != user_key@;
    let mut i: usize = 0;
    while i < entries.len() && bytes_equal(entries[i].key.user_key(), user_key)
        invariant
            i <= entries@.len(),
            rows == entries_view(entries@),
            forall|k: int| 0 <= k < i ==> (#[trigger] rows[k]).key == user_key@,
        decreases entries@.len() - i,
    {
        assert(rows[i as int].key == user_key@);
        i += 1;
    }
    proof {
        assert forall|k: int| 0 <= k < i implies !p(#[trigger] rows[k]) by {}
        if i < entries@.len() {
            assert(rows[i as int].key != user_key@);
            assert(p(rows[i as int]));
        }
        coding::lemma_first_index(rows, p, i as int);
        assert forall|k: int| 0 <= k < i implies (#[trigger] entries@[k])@.key == user_key@ by {
            assert(rows[k].key == user_key@);
        }
    }
    i
}

/// What a reader at `snapshot` sees of `user_key`, among entries sorted by key
/// and newest first. Merge operands count as no value: use
/// [`get_at_with_merge`] where there is a merge operator.
pub fn get_at<'a>(
    snapshot: &Snapshot,
    user_key: &[u8],
    candidates: &[VersionedEntry<'a>],
) -> (r: Option<&'a [u8]>)
    ensures
        crate::compaction_filter::opt_slice(r) == plain_read(
            seen_at(rows_of_key(entries_view(candidates@), user_key@), snapshot.pin().0.0),
        ),
{
    let n: usize = count_of_key(candidates, user_key);
    let ghost rows = entries_view(candidates@).take(n as int);
    let ghost s = snapshot.pin().0.0;
    let limit: u64 = snapshot.seq().0;
    let mut i: usize = 0;
    assert(rows.take(0) =~= Seq::<RowView>::empty());
    assert(seen_at(rows.take(0), s) =~= Seq::<RowView>::empty()) by {
        reveal(Seq::filter);
    }
    while i < n
        invariant
            i <= n <= candidates@.len(),
            rows == entries_view(candidates@).take(n as int),
            rows == rows_of_key(entries_view(candidates@), user_key@),
            s == snapshot.pin().0.0,
            limit == s,
            seen_at(rows.take(i as int), s) == Seq::<RowView>::empty(),
        decreases n - i,
    {
        proof {
            assert(rows.take(i + 1) =~= rows.take(i as int).push(rows[i as int]));
            lemma_seen_push(rows.take(i as int), rows[i as int], s);
            assert(rows[i as int] == candidates@[i as int]@);
        }
        if candidates[i].key.sequence().0 <= limit {
            proof {
                lemma_seen_prefix(rows, i + 1, s);
                let all = seen_at(rows, s);
                assert(all.take(1)[0] == all[0]);
                assert(all[0] == rows[i as int]);
            }
            return match candidates[i].key.op_type() {
                OpType::Put => Some(candidates[i].value),
                OpType::Delete | OpType::SingleDelete | OpType::Merge => None,
            };
        }
        i += 1;
    }
    assert(rows.take(n as int) =~= rows);
    None
}

/// The base value under the merge operands that a reader sees, and the
/// operands, oldest first.
pub struct ReadParts {
    pub base: Option<Seq<u8>>,
    pub operands: Seq<Seq<u8>>,
}

/// The parts of a read from the versions that it sees.
pub open spec fn read_parts(seen: Seq<RowView>) -> ReadParts {
    ReadParts {
        base: key_versions::chain_base(seen),
        operands: key_versions::chain_operands(seen),
    }
}

/// The parts of a read of `user_key` at `snapshot` among sorted `rows`.
pub open spec fn parts_at(rows: Seq<RowView>, user_key: Seq<u8>, snapshot: u64) -> ReadParts {
    read_parts(seen_at(rows_of_key(rows, user_key), snapshot))
}

/// `r` is what a merge-aware read with these parts may return: the base if
/// there are no operands, else what the operator makes of them.
pub open spec fn merged_read<M: MergeOperator>(
    op: M,
    user_key: Seq<u8>,
    parts: ReadParts,
    r: ForstResult<Option<Vec<u8>>>,
) -> bool {
    if parts.operands.len() == 0 {
        r matches Ok(v) && bytes::opt_bytes(v) == parts.base
    } else {
        exists|m: ForstResult<Vec<u8>>|
            {
                &&& #[trigger] merge_operator::may_merge(
                    op,
                    user_key,
                    parts.base,
                    parts.operands,
                    m,
                )
                &&& match m {
                    Ok(v) => r == Ok::<Option<Vec<u8>>, crate::error::ForstError>(Some(v)),
                    Err(e) => r == Err::<Option<Vec<u8>>, crate::error::ForstError>(e),
                }
            }
    }
}

/// The base and the operands, newest first, that a reader at `limit` sees
/// among the first `n` entries.
fn collect_parts(entries: &[VersionedEntry<'_>], n: usize, limit: u64) -> (r: (
    Option<Vec<u8>>,
    Vec<Vec<u8>>,
))
    requires
        n <= entries@.len(),
    ensures
        ({
            let parts = read_parts(seen_at(entries_view(entries@).take(n as int), limit));
            &&& bytes::opt_bytes(r.0) == parts.base
            &&& row::byte_strings(r.1@) == parts.operands.reverse()
        }),
{
    let ghost rows = entries_view(entries@).take(n as int);
    let mut newest_first: Vec<Vec<u8>> = Vec::new();
    let ghost mut seen: Seq<RowView> = Seq::empty();
    let mut i: usize = 0;
    proof {
        assert(rows.take(0) =~= Seq::<RowView>::empty());
        assert(seen_at(rows.take(0), limit) =~= Seq::<RowView>::empty()) by {
            reveal(Seq::filter);
        }
        assert(row::byte_strings(newest_first@) =~= Seq::<Seq<u8>>::empty());
    }
    while i < n
        invariant
            i <= n <= entries@.len(),
            rows == entries_view(entries@).take(n as int),
            seen == seen_at(rows.take(i as int), limit),
            forall|k: int|
                0 <= k < seen.len() ==> (#[trigger] seen[k]).op_type == OpType::Merge
                    && seen[k].value is Some,
            row::byte_strings(newest_first@) == Seq::new(
                seen.len(),
                |k: int| seen[k].value->0,
            ),
        decreases n - i,
    {
        proof {
            assert(rows.take(i + 1) =~= rows.take(i as int).push(rows[i as int]));
            lemma_seen_push(rows.take(i as int), rows[i as int], limit);
            assert(rows[i as int] == entries@[i as int]@);
        }
        if entries[i].key.sequence().0 <= limit {
            match entries[i].key.op_type() {
                OpType::Merge => {
                    let operand: Vec<u8> = copy_bytes(entries[i].value);
                    proof {
                        row::lemma_strings_push(newest_first@, operand);
                    }
                    newest_first.push(operand);
                    proof {
                        seen = seen.push(rows[i as int]);
                        assert(row::byte_strings(newest_first@) =~= Seq::new(
                            seen.len(),
                            |k: int| seen[k].value->0,
                        ));
                    }
                },
                OpType::Put => {
                    let base: Vec<u8> = copy_bytes(entries[i].value);
                    proof {
                        lemma_parts_end(rows, i as int, limit, seen);
                        let parts = read_parts(seen_at(rows, limit));
                        assert(row::byte_strings(newest_first@) =~= parts.operands.reverse());
                    }
                    return (Some(base), newest_first);
                },
                OpType::Delete | OpType::SingleDelete => {
                    proof {
                        lemma_parts_end(rows, i as int, limit, seen);
                        let parts = read_parts(seen_at(rows, limit));
                        assert(row::byte_strings(newest_first@) =~= parts.operands.reverse());
                    }
                    return (None, newest_first);
                },
            }
        }
        i += 1;
    }
    proof {
        assert(rows.take(n as int) =~= rows);
        let p = key_versions::terminal();
        assert forall|k: int| 0 <= k < seen.len() implies !p(#[trigger] seen[k]) by {}
        coding::lemma_first_index(seen, p, seen.len() as int);
        let parts = read_parts(seen_at(rows, limit));
        assert(row::byte_strings(newest_first@) =~= parts.operands.reverse());
    }
    (None, newest_first)
}

/// The first terminal row that is seen ends the chain.
proof fn lemma_parts_end(rows: Seq<RowView>, i: int, snapshot: u64, seen: Seq<RowView>)
    requires
        0 <= i < rows.len(),
        seen == seen_at(rows.take(i), snapshot),
        forall|k: int| 0 <= k < seen.len() ==> (#[trigger] seen[k]).op_type == OpType::Merge,
        rows[i].sequence <= snapshot,
        rows[i].op_type != OpType::Merge,
    ensures
        ({
            let all = seen_at(rows, snapshot);
            &&& coding::first_index(all, key_versions::terminal()) == seen.len()
            &&& seen.len() < all.len()
            &&& all[seen.len() as int] == rows[i]
            &&& forall|k: int| 0 <= k < seen.len() ==> all[k] == seen[k]
        }),
{
    assert(rows.take(i + 1) =~= rows.take(i).push(rows[i]));
    lemma_seen_push(rows.take(i), rows[i], snapshot);
    lemma_seen_prefix(rows, i + 1, snapshot);
    let all = seen_at(rows, snapshot);
    let head = seen.push(rows[i]);
    assert(all.take(head.len() as int) == head);
    assert forall|k: int| 0 <= k < head.len() implies all[k] == head[k] by {
        assert(all.take(head.len() as int)[k] == all[k]);
    }
    let p = key_versions::terminal();
    assert forall|k: int| 0 <= k < seen.len() implies !p(#[trigger] all[k]) by {
        assert(all[k] == head[k]);
        assert(head[k] == seen[k]);
    }
    assert(all[seen.len() as int] == head[seen.len() as int]);
    coding::lemma_first_index(all, p, seen.len() as int);
}

/// What a reader at `snapshot` sees of `user_key`, with merge operands folded
/// by `merge_op`, among entries sorted by key and newest first.
pub fn get_at_with_merge<'a, M: MergeOperator>(
    snapshot: &Snapshot,
    user_key: &[u8],
    candidates: &[VersionedEntry<'a>],
    merge_op: &M,
) -> (r: ForstResult<Option<Vec<u8>>>)
    ensures
        merged_read(
            *merge_op,
            user_key@,
            parts_at(entries_view(candidates@), user_key@, snapshot.pin().0.0),
            r,
        ),
{
    let n: usize = count_of_key(candidates, user_key);
    let (base, newest_first) = collect_parts(candidates, n, snapshot.seq().0);
    let ghost parts = parts_at(entries_view(candidates@), user_key@, snapshot.pin().0.0);
    assert(row::byte_strings(newest_first@).len() == parts.operands.len());
    if newest_first.len() == 0 {
        return Ok(base);
    }
    let mut oldest_first: Vec<Vec<u8>> = Vec::new();
    let mut i: usize = newest_first.len();
    while i > 0
        invariant
            i <= newest_first@.len(),
            row::byte_strings(oldest_first@) == row::byte_strings(newest_first@).reverse().take(
                newest_first@.len() - i,
            ),
        decreases i,
    {
        i = i - 1;
        let operand: Vec<u8> = copy_bytes(newest_first[i].as_slice());
        proof {
            row::lemma_strings_push(oldest_first@, operand);
        }
        oldest_first.push(operand);
        assert(row::byte_strings(oldest_first@) =~= row::byte_strings(
            newest_first@,
        ).reverse().take(newest_first@.len() - i));
    }
    assert(row::byte_strings(oldest_first@) =~= parts.operands);
    let merged = call_full_merge(merge_op, user_key, &base, &oldest_first);
    assert(merge_operator::may_merge(*merge_op, user_key@, parts.base, parts.operands, merged));
    match merged {
        Ok(v) => Ok(Some(v)),
        Err(e) => Err(e),
    }
}

/// Versions of one key, newest first.
pub open spec fn newest_first(versions: Seq<RowView>) -> bool {
    forall|i: int, j: int|
        0 <= i < j < versions.len() ==> (#[trigger] versions[i]).sequence >= (
        #[trigger] versions[j]).sequence
}

/// The row is seen at `snapshot`.
pub open spec fn seen_pred(snapshot: u64) -> spec_fn(RowView) -> bool {
    |r: RowView| r.sequence <= snapshot
}

/// Of versions that come newest first a reader sees a suffix.
proof fn lemma_seen_suffix(versions: Seq<RowView>, snapshot: u64)
    requires
        newest_first(versions),
    ensures
        seen_at(versions, snapshot) == versions.skip(
            coding::first_index(versions, seen_pred(snapshot)),
        ),
    decreases versions.len(),
{
    let p = seen_pred(snapshot);
    let j = coding::first_index(versions, p);
    coding::lemma_first_index_props(versions, p);
    if versions.len() > 0 {
        let front = versions.drop_last();
        let last = versions.last();
        assert forall|a: int, b: int| 0 <= a < b < front.len() implies (#[trigger] front[a]).sequence
            >= (#[trigger] front[b]).sequence by {
            assert(versions[a].sequence >= versions[b].sequence);
        }
        lemma_seen_suffix(front, snapshot);
        lemma_seen_push(front, last, snapshot);
        assert(front.push(last) =~= versions);
        if j < versions.len() {
            if j < versions.len() - 1 {
                assert(versions[j].sequence >= last.sequence);
            }
            let jf = if j < front.len() {
                j
            } else {
                front.len() as int
            };
            assert forall|i: int| 0 <= i < jf implies !p(#[trigger] front[i]) by {
                assert(!p(versions[i]));
            }
            if jf < front.len() {
                assert(p(front[jf]));
            }
            coding::lemma_first_index(front, p, jf);
            assert(versions.skip(j) =~= front.skip(jf).push(last));
        } else {
            assert forall|i: int| 0 <= i < front.len() implies !p(#[trigger] front[i]) by {
                assert(!p(versions[i]));
            }
            coding::lemma_first_index(front, p, front.len() as int);
            assert(!p(versions[versions.len() - 1]));
            assert(front.skip(front.len() as int) =~= Seq::<RowView>::empty());
            assert(versions.skip(j) =~= Seq::<RowView>::empty());
        }
    } else {
        reveal(Seq::filter);
        assert(seen_at(versions, snapshot) =~= versions.skip(j));
    }
}

/// Rows after the first terminal one do not change a read.
proof fn lemma_parts_prefix(seen: Seq<RowView>, m: int)
    requires
        0 <= m <= seen.len(),
        m == seen.len() || coding::first_index(seen, key_versions::terminal()) < m,
    ensures
        read_parts(seen.take(m)) == read_parts(seen),
{
    let p = key_versions::terminal();
    let t = coding::first_index(seen, p);
    coding::lemma_first_index_props(seen, p);
    if m == seen.len() {
        assert(seen.take(m) =~= seen);
    } else {
        let head = seen.take(m);
        assert forall|i: int| 0 <= i < t implies !p(#[trigger] head[i]) by {
            assert(!p(seen[i]));
        }
        assert(p(head[t])) by {
            assert(p(seen[t]));
        }
        coding::lemma_first_index(head, p, t);
        assert(key_versions::chain_operands(head) =~= key_versions::chain_operands(seen));
    }
}

/// A first row that is not a merge operand decides the read alone.
pub proof fn lemma_parts_terminal_first(seen: Seq<RowView>)
    requires
        seen.len() > 0,
        seen[0].op_type != OpType::Merge,
    ensures
        read_parts(seen).operands == Seq::<Seq<u8>>::empty(),
        read_parts(seen).base == plain_read(seen),
{
    let p = key_versions::terminal();
    assert(p(seen[0]));
    coding::lemma_first_index(seen, p, 0);
    assert(key_versions::chain_operands(seen) =~= Seq::<Seq<u8>>::empty());
}

/// A read of nothing.
proof fn lemma_parts_empty()
    ensures
        read_parts(Seq::empty()) == (ReadParts { base: None, operands: Seq::empty() }),
{
    assert(key_versions::chain_operands(Seq::empty()) =~= Seq::<Seq<u8>>::empty());
}

/// Everything is seen from the sequence number of the newest version on.
proof fn lemma_all_seen(versions: Seq<RowView>, snapshot: u64)
    requires
        newest_first(versions),
        versions.len() > 0 ==> versions[0].sequence <= snapshot,
    ensures
        seen_at(versions, snapshot) == versions,
{
    lemma_seen_suffix(versions, snapshot);
    if versions.len() > 0 {
        assert(seen_pred(snapshot)(versions[0]));
    }
    coding::lemma_first_index(versions, seen_pred(snapshot), 0);
    assert(versions.skip(0) =~= versions);
}

/// Compaction does not change what a live snapshot reads: for every snapshot
/// at or above the smallest live one, the rows that are written give the same
/// base and the same operands as all versions did. Where a chain collapses,
/// its base and operands are the ones that the snapshot reads, and the row
/// that is written reads as their merge. This holds unless a filter replaced
/// or discarded the entry.
pub proof fn law_compaction_preserves_reads(
    versions: Seq<RowView>,
    min_active: u64,
    is_bottommost: bool,
    has_operator: bool,
    verdict: crate::key_versions::VerdictView,
    snapshot: u64,
)
    requires
        newest_first(versions),
        snapshot >= min_active,
        verdict is Keep || (verdict is Discard && !is_bottommost),
    ensures
        match key_versions::key_outcome(
            versions,
            min_active,
            is_bottommost,
            has_operator,
            verdict,
        ) {
            crate::key_versions::KeyOutcome::Rows(out) => read_parts(seen_at(out, snapshot))
                == read_parts(seen_at(versions, snapshot)),
            crate::key_versions::KeyOutcome::Collapse { base, operands } => {
                &&& read_parts(seen_at(versions, snapshot)) == (ReadParts { base, operands })
                &&& forall|merged: Seq<u8>| #[trigger]
                    read_parts(
                        seen_at(
                            seq![key_versions::collapsed_row(versions[0], merged)],
                            snapshot,
                        ),
                    ) == (ReadParts { base: Some(merged), operands: Seq::empty() })
            },
            _ => true,
        },
{
    let split = key_versions::pinned_count(versions, min_active);
    let low = key_versions::below(min_active);
    coding::lemma_first_index_props(versions, low);
    if key_versions::consults_filter(versions, min_active) {
        assert(low(versions[0]));
        lemma_all_seen(versions, snapshot);
        let newest = versions[0];
        let one = seq![newest];
        lemma_all_seen(one, snapshot);
        lemma_all_seen(Seq::empty(), snapshot);
        lemma_parts_empty();
        if newest.op_type != OpType::Merge {
            lemma_parts_terminal_first(versions);
            lemma_parts_terminal_first(one);
        }
        assert forall|merged: Seq<u8>| #[trigger]
            read_parts(
                seen_at(seq![key_versions::collapsed_row(versions[0], merged)], snapshot),
            ) == (ReadParts { base: Some(merged), operands: Seq::empty() }) by {
            let c = seq![key_versions::collapsed_row(versions[0], merged)];
            lemma_all_seen(c, snapshot);
            lemma_parts_terminal_first(c);
        }
    } else {
        lemma_pinned_reads(versions, min_active, snapshot);
    }
}

/// [`law_compaction_preserves_reads`] for a key with pinned versions.
proof fn lemma_pinned_reads(versions: Seq<RowView>, min_active: u64, snapshot: u64)
    requires
        newest_first(versions),
        snapshot >= min_active,
        !key_versions::consults_filter(versions, min_active),
    ensures
        ({
            let out = key_versions::key_outcome(
                versions,
                min_active,
                false,
                false,
                crate::key_versions::VerdictView::Keep,
            );
            &&& out is Rows
            &&& read_parts(seen_at(out->Rows_0, snapshot)) == read_parts(
                seen_at(versions, snapshot),
            )
            &&& out->Rows_0.len() <= versions.len()
            &&& out->Rows_0 == versions.take(out->Rows_0.len() as int)
            &&& out->Rows_0.len() < versions.len() ==> ends_chain(
                seen_at(out->Rows_0, snapshot),
            )
        }),
{
    let split = key_versions::pinned_count(versions, min_active);
    let low = key_versions::below(min_active);
    let p = key_versions::terminal();
    coding::lemma_first_index_props(versions, low);
    let pinned = versions.take(split);
    let tail = versions.skip(split);
    let past = tail.len() > 0 && key_versions::reads_past(pinned, min_active);
    let t = coding::first_index(tail, p);
    coding::lemma_first_index_props(tail, p);
    let e: int = if past {
        if t < tail.len() {
            split + t + 1
        } else {
            versions.len() as int
        }
    } else {
        split
    };
    let out = versions.take(e);
    if past {
        assert(pinned + key_versions::chain(tail) =~= out);
    } else {
        assert(pinned =~= out);
    }
    // The rows seen of the output are a prefix of the rows seen of the input.
    let seen_p = seen_pred(snapshot);
    let j = coding::first_index(versions, seen_p);
    coding::lemma_first_index_props(versions, seen_p);
    lemma_seen_suffix(versions, snapshot);
    assert forall|a: int, b: int| 0 <= a < b < out.len() implies (#[trigger] out[a]).sequence >= (
    #[trigger] out[b]).sequence by {
        assert(versions[a].sequence >= versions[b].sequence);
    }
    lemma_seen_suffix(out, snapshot);
    if j > split {
        assert(low(versions[split]));
        assert(!seen_p(versions[split]));
    }
    let je = if j < e {
        j
    } else {
        e
    };
    assert forall|i: int| 0 <= i < je implies !seen_p(#[trigger] out[i]) by {
        assert(!seen_p(versions[i]));
    }
    if je < out.len() {
        assert(seen_p(versions[je]));
        assert(seen_p(out[je]));
    }
    coding::lemma_first_index(out, seen_p, je);
    let vis = versions.skip(j);
    assert(out.skip(je) =~= vis.take(e - j));
    // The first terminal row seen lies in that prefix.
    let tv = coding::first_index(vis, p);
    coding::lemma_first_index_props(vis, p);
    if e < versions.len() {
        if past {
            assert(p(tail[t]));
            assert(vis[split + t - j] == tail[t]);
            if tv >= e - j {
                assert(!p(vis[split + t - j]));
            }
        } else {
            assert(!key_versions::reads_past(pinned, min_active));
            assert(pinned.last() == versions[split - 1]);
            assert(seen_p(versions[split - 1]));
            if j > split - 1 {
                assert(!seen_p(versions[split - 1]));
            }
            assert(pinned[j] == versions[j]);
            assert(p(vis[0])) by {
                assert(vis[0] == pinned[j]);
                assert(pinned[j].op_type != OpType::Merge);
            }
            if tv > 0 {
                assert(!p(vis[0]));
            }
        }
    }
    lemma_parts_prefix(vis, e - j);
    if e < versions.len() {
        assert(p(vis[tv]));
        assert(out.skip(je)[tv] == vis[tv]);
    }
}

/// One of the rows is not a merge operand.
pub open spec fn ends_chain(rows: Seq<RowView>) -> bool {
    exists|i: int| 0 <= i < rows.len() && (#[trigger] rows[i]).op_type != OpType::Merge
}

/// What lies under rows that end a chain is not read.
pub proof fn lemma_parts_covered(rows: Seq<RowView>, under: Seq<RowView>)
    requires
        ends_chain(rows),
    ensures
        read_parts(rows + under) == read_parts(rows),
{
    let p = key_versions::terminal();
    let i = choose|i: int| 0 <= i < rows.len() && (#[trigger] rows[i]).op_type != OpType::Merge;
    let all = rows + under;
    let t = coding::first_index(all, p);
    coding::lemma_first_index_props(all, p);
    assert(p(all[i]));
    if t > i {
        assert(!p(all[i]));
    }
    assert(all.take(rows.len() as int) =~= rows);
    lemma_parts_prefix(all, rows.len() as int);
}

proof fn lemma_seen_add(a: Seq<RowView>, b: Seq<RowView>, snapshot: u64)
    ensures
        seen_at(a + b, snapshot) == seen_at(a, snapshot) + seen_at(b, snapshot),
{
    Seq::filter_distributes_over_add(a, b, |r: RowView| r.sequence <= snapshot);
}

/// A compaction that leaves older rows of a key where they are hides them just
/// as before: with any older rows `lower` underneath, every snapshot at or above
/// the smallest live one reads the same base and the same operands from what is
/// written as from all versions. A tombstone above the bottommost level goes on
/// hiding what it hid, and whoever saw a version of the key still sees one. At
/// the bottommost level nothing lies underneath.
pub proof fn law_compaction_preserves_reads_over_older_rows(
    versions: Seq<RowView>,
    lower: Seq<RowView>,
    min_active: u64,
    is_bottommost: bool,
    has_operator: bool,
    verdict: crate::key_versions::VerdictView,
    snapshot: u64,
)
    requires
        newest_first(versions + lower),
        snapshot >= min_active,
        is_bottommost ==> lower.len() == 0,
        verdict is Keep || (verdict is Discard && !is_bottommost),
    ensures
        match key_versions::key_outcome(
            versions,
            min_active,
            is_bottommost,
            has_operator,
            verdict,
        ) {
            crate::key_versions::KeyOutcome::Rows(out) => {
                &&& read_parts(seen_at(out + lower, snapshot)) == read_parts(
                    seen_at(versions + lower, snapshot),
                )
                &&& !is_bottommost && (exists|i: int|
                    0 <= i < versions.len() && (#[trigger] versions[i]).sequence <= snapshot)
                    ==> exists|i: int|
                    0 <= i < out.len() && (#[trigger] out[i]).sequence <= snapshot
            },
            crate::key_versions::KeyOutcome::Collapse { base, operands } => {
                &&& read_parts(seen_at(versions + lower, snapshot)) == (ReadParts {
                    base,
                    operands,
                })
                &&& forall|merged: Seq<u8>| #[trigger]
                    read_parts(
                        seen_at(
                            seq![key_versions::collapsed_row(versions[0], merged)] + lower,
                            snapshot,
                        ),
                    ) == (ReadParts { base: Some(merged), operands: Seq::empty() })
            },
            _ => true,
        },
{
    let all = versions + lower;
    assert forall|a: int, b: int| 0 <= a < b < versions.len() implies (
    #[trigger] versions[a]).sequence >= (#[trigger] versions[b]).sequence by {
        assert(all[a].sequence >= all[b].sequence);
    }
    let outcome = key_versions::key_outcome(
        versions,
        min_active,
        is_bottommost,
        has_operator,
        verdict,
    );
    lemma_seen_add(versions, lower, snapshot);
    law_compaction_preserves_reads(
        versions,
        min_active,
        is_bottommost,
        has_operator,
        verdict,
        snapshot,
    );
    if is_bottommost {
        assert(versions + lower =~= versions);
        if let crate::key_versions::KeyOutcome::Rows(out) = outcome {
            assert(out + lower =~= out);
        }
        assert forall|merged: Seq<u8>| outcome is Collapse implies #[trigger]
            read_parts(
                seen_at(
                    seq![key_versions::collapsed_row(versions[0], merged)] + lower,
                    snapshot,
                ),
            ) == (ReadParts { base: Some(merged), operands: Seq::empty() }) by {
            let one = seq![key_versions::collapsed_row(versions[0], merged)];
            assert(one + lower =~= one);
        }
    } else if key_versions::consults_filter(versions, min_active) {
        coding::lemma_first_index_props(versions, key_versions::below(min_active));
        assert(key_versions::below(min_active)(versions[0]));
        lemma_all_seen(versions, snapshot);
        assert(versions[0].sequence <= snapshot);
        let one = seq![versions[0]];
        lemma_all_seen(one, snapshot);
        lemma_seen_add(one, lower, snapshot);
        let low = seen_at(lower, snapshot);
        if versions[0].op_type != OpType::Merge {
            assert(one[0].op_type != OpType::Merge);
            lemma_parts_covered(versions, low);
            lemma_parts_covered(one, low);
        }
        assert forall|merged: Seq<u8>| #[trigger]
            read_parts(
                seen_at(
                    seq![key_versions::collapsed_row(versions[0], merged)] + lower,
                    snapshot,
                ),
            ) == (ReadParts { base: Some(merged), operands: Seq::empty() }) by {
            let c = seq![key_versions::collapsed_row(versions[0], merged)];
            lemma_all_seen(c, snapshot);
            lemma_seen_add(c, lower, snapshot);
            assert(c[0].op_type != OpType::Merge);
            lemma_parts_covered(c, low);
            lemma_parts_terminal_first(c);
        }
        if let crate::key_versions::KeyOutcome::Collapse { base, operands } = outcome {
            let p = key_versions::terminal();
            let t = coding::first_index(versions, p);
            coding::lemma_first_index_props(versions, p);
            assert(p(versions[t]));
            lemma_parts_covered(versions, low);
        }
        if let crate::key_versions::KeyOutcome::Rows(out) = outcome {
            assert(out == versions || out =~= one);
            assert(out[0].sequence <= snapshot);
        }
    } else {
        lemma_pinned_reads(versions, min_active, snapshot);
        if let crate::key_versions::KeyOutcome::Rows(out) = outcome {
            let low = seen_at(lower, snapshot);
            lemma_seen_add(out, lower, snapshot);
            if out.len() < versions.len() {
                let rest = versions.skip(out.len() as int);
                assert(versions =~= out + rest);
                lemma_seen_add(out, rest, snapshot);
                lemma_parts_covered(seen_at(out, snapshot), low);
                let under = seen_at(rest, snapshot) + low;
                lemma_parts_covered(seen_at(out, snapshot), under);
                assert(seen_at(versions, snapshot) + low =~= seen_at(out, snapshot) + under);
                lemma_seen_some(out, snapshot);
            } else {
                assert(out =~= versions);
            }
        }
    }
}

/// What is seen is one of the rows.
proof fn lemma_seen_some(rows: Seq<RowView>, snapshot: u64)
    requires
        seen_at(rows, snapshot).len() > 0,
    ensures
        exists|i: int| 0 <= i < rows.len() && (#[trigger] rows[i]).sequence <= snapshot,
    decreases rows.len(),
{
    reveal(Seq::filter);
    if rows.last().sequence <= snapshot {
        assert(rows[rows.len() - 1].sequence <= snapshot);
    } else {
        lemma_seen_some(rows.drop_last(), snapshot);
        let i = choose|i: int|
            0 <= i < rows.drop_last().len() && (#[trigger] rows.drop_last()[i]).sequence
                <= snapshot;
        assert(rows[i].sequence <= snapshot);
    }
}

/// How a read goes through the sorted rows: it ends at a row of another key,
/// passes over a row that is newer than the snapshot, and takes the first one
/// that it sees: a value or a deletion decides, and a merge operand is applied on
/// top of what the rest gives.
pub proof fn law_read_goes_row_by_row(rows: Seq<RowView>, user_key: Seq<u8>, snapshot: u64)
    ensures
        ({
            let parts = parts_at(rows, user_key, snapshot);
            let plain = plain_read(seen_at(rows_of_key(rows, user_key), snapshot));
            let rest = parts_at(rows.skip(1), user_key, snapshot);
            let none = Seq::<Seq<u8>>::empty();
            if rows.len() == 0 || rows[0].key != user_key {
                parts.base is None && parts.operands == none && plain is None
            } else if rows[0].sequence > snapshot {
                &&& parts == rest
                &&& plain == plain_read(
                    seen_at(rows_of_key(rows.skip(1), user_key), snapshot),
                )
            } else {
                match rows[0].op_type {
                    OpType::Put => parts.base == rows[0].value && parts.operands == none && plain
                        == rows[0].value,
                    OpType::Delete | OpType::SingleDelete => parts.base is None && parts.operands
                        == none && plain is None,
                    OpType::Merge => parts.base == rest.base && parts.operands
                        == rest.operands.push(rows[0].value->0) && plain is None,
                }
            }
        }),
{
    let p = |r: RowView| r.key != user_key;
    let q = key_versions::terminal();
    coding::lemma_first_index_props(rows, p);
    if rows.len() == 0 || rows[0].key != user_key {
        if rows.len() > 0 {
            assert(p(rows[0]));
        }
        assert(rows_of_key(rows, user_key) =~= Seq::<RowView>::empty());
        assert(seen_at(Seq::<RowView>::empty(), snapshot) =~= Seq::<RowView>::empty()) by {
            reveal(Seq::filter);
        }
        lemma_parts_empty();
    } else {
        let rest = rows.skip(1);
        let mine = rows_of_key(rest, user_key);
        coding::lemma_first_index_props(rest, p);
        assert(!p(rows[0]));
        assert(rows_of_key(rows, user_key) =~= seq![rows[0]] + mine);
        lemma_seen_add(seq![rows[0]], mine, snapshot);
        let one = seen_at(seq![rows[0]], snapshot);
        assert(one =~= if rows[0].sequence <= snapshot {
            seq![rows[0]]
        } else {
            Seq::empty()
        }) by {
            reveal_with_fuel(Seq::filter, 2);
            assert(seq![rows[0]].drop_last() =~= Seq::<RowView>::empty());
        }
        let low = seen_at(mine, snapshot);
        let all = one + low;
        if rows[0].sequence > snapshot {
            assert(all =~= low);
        } else if rows[0].op_type != OpType::Merge {
            lemma_parts_terminal_first(all);
        } else {
            let t = coding::first_index(low, q);
            coding::lemma_first_index_props(low, q);
            assert forall|i: int| 0 <= i < t + 1 implies !q(#[trigger] all[i]) by {
                if i > 0 {
                    assert(all[i] == low[i - 1]);
                    assert(!q(low[i - 1]));
                }
            }
            if t < low.len() {
                assert(all[t + 1] == low[t]);
                assert(q(all[t + 1]));
            }
            coding::lemma_first_index(all, q, t + 1);
            let a = key_versions::chain_operands(all);
            let b = key_versions::chain_operands(low);
            assert(a =~= b.push(rows[0].value->0)) by {
                assert forall|i: int| 0 <= i < t + 1 implies a[i] == b.push(
                    rows[0].value->0,
                )[i] by {
                    assert(a[i] == all[t - i].value->0);
                    if i < t {
                        assert(all[t - i] == low[t - 1 - i]);
                    }
                }
            }
        }
    }
}

/// A read with merge operands gives what the operator made of the base and the
/// operands under that key; without operands it gives the base.
pub proof fn law_merge_read_asks_the_operator<M: MergeOperator>(
    op: M,
    user_key: Seq<u8>,
    parts: ReadParts,
    r: ForstResult<Option<Vec<u8>>>,
)
    requires
        merged_read(op, user_key, parts, r),
    ensures
        parts.operands.len() == 0 ==> (r matches Ok(v) && match v {
            Some(b) => parts.base == Some(b@),
            None => parts.base is None,
        }),
        parts.operands.len() > 0 ==> exists|
            k: &[u8],
            b: Option<&[u8]>,
            o: &[Vec<u8>],
            m: ForstResult<Vec<u8>>,
        |
            {
                &&& #[trigger] call_ensures(M::full_merge, (&op, k, b, o), m)
                &&& k@ == user_key
                &&& match b {
                    Some(x) => parts.base == Some(x@),
                    None => parts.base is None,
                }
                &&& o@.len() == parts.operands.len()
                &&& forall|i: int|
                    0 <= i < o@.len() ==> (#[trigger] o@[i])@ == parts.operands[i]
                &&& match m {
                    Ok(v) => r matches Ok(got) && got == Some(v),
                    Err(e) => r matches Err(got) && got == e,
                }
            },
{
    if parts.operands.len() > 0 {
        let m = choose|m: ForstResult<Vec<u8>>|
            {
                &&& #[trigger] merge_operator::may_merge(
                    op,
                    user_key,
                    parts.base,
                    parts.operands,
                    m,
                )
                &&& match m {
                    Ok(v) => r == Ok::<Option<Vec<u8>>, crate::error::ForstError>(Some(v)),
                    Err(e) => r == Err::<Option<Vec<u8>>, crate::error::ForstError>(e),
                }
            };
        let (k, b, o) = choose|k: &[u8], b: Option<&[u8]>, o: &[Vec<u8>]|
            {
                &&& #[trigger] call_ensures(M::full_merge, (&op, k, b, o), m)
                &&& k@ == user_key
                &&& crate::compaction_filter::opt_slice(b) == parts.base
                &&& row::byte_strings(o@) == parts.operands
            };
        assert(call_ensures(M::full_merge, (&op, k, b, o), m));
        assert forall|i: int| 0 <= i < o@.len() implies (#[trigger] o@[i])@
            == parts.operands[i] by {
            assert(row::byte_strings(o@)[i] == o@[i]@);
        }
    }
}

} // verus!
