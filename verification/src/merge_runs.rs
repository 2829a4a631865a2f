//! Streaming merge of sorted runs, one key at a time.

use crate::bytes;
use crate::bytes::{bytes_equal, bytes_less, copy_bytes};
use crate::coding;
use crate::merge_order;
use crate::merge_order::{sort_entries, CompactionEntry, EntryView};
use crate::row::Row;
use vstd::prelude::*;

verus! {

/// The rows of one input file and how many of them were taken.
pub struct InputRun {
    pub file_number: u64,
    pub rows: Vec<Row>,
    pub pos: usize,
}

impl InputRun {
    /// The rows that are left, tagged with their file.
    pub open spec fn left(self) -> Seq<EntryView> {
        Seq::new(
            (self.rows@.len() - self.pos) as nat,
            |i: int|
                EntryView { row: self.rows@[self.pos + i]@, file_number: self.file_number },
        )
    }

    /// No more rows were taken than there are.
    pub open spec fn wf(self) -> bool {
        self.pos <= self.rows@.len()
    }
}

/// The entry does not belong to `key`.
pub open spec fn other_key(key: Seq<u8>) -> spec_fn(EntryView) -> bool {
    |e: EntryView| e.row.key != key
}

/// How many entries at the start of `run` belong to `key`.
pub open spec fn head_len(run: Seq<EntryView>, key: Seq<u8>) -> int {
    coding::first_index(run, other_key(key))
}

/// The entries of `key` at the start of each run, run after run.
pub open spec fn heads(runs: Seq<Seq<EntryView>>, key: Seq<u8>) -> Seq<EntryView>
    decreases runs.len(),
{
    if runs.len() == 0 {
        Seq::empty()
    } else {
        heads(runs.drop_last(), key) + runs.last().take(head_len(runs.last(), key))
    }
}

/// The runs without their entries of `key` at the start.
pub open spec fn rests(runs: Seq<Seq<EntryView>>, key: Seq<u8>) -> Seq<Seq<EntryView>> {
    Seq::new(runs.len(), |i: int| runs[i].skip(head_len(runs[i], key)))
}

/// All entries, run after run.
pub open spec fn flat(runs: Seq<Seq<EntryView>>) -> Seq<EntryView>
    decreases runs.len(),
{
    if runs.len() == 0 {
        Seq::empty()
    } else {
        flat(runs.drop_last()) + runs.last()
    }
}

/// `key` starts some run, and no run starts with a smaller key.
pub open spec fn smallest_head(runs: Seq<Seq<EntryView>>, key: Seq<u8>) -> bool {
    &&& exists|i: int|
        0 <= i < runs.len() && (#[trigger] runs[i]).len() > 0 && runs[i][0].row.key == key
    &&& forall|i: int|
        0 <= i < runs.len() && (#[trigger] runs[i]).len() > 0 ==> bytes::lex_le(
            key,
            runs[i][0].row.key,
        )
}

/// Every run is in the order of compaction.
pub open spec fn runs_in_order(runs: Seq<Seq<EntryView>>) -> bool {
    forall|i: int| 0 <= i < runs.len() ==> merge_order::in_order(#[trigger] runs[i])
}

/// Nothing is left.
pub open spec fn all_empty(runs: Seq<Seq<EntryView>>) -> bool {
    forall|i: int| 0 <= i < runs.len() ==> (#[trigger] runs[i]).len() == 0
}

/// A merge of several runs.
pub struct RunMerge {
    pub runs: Vec<InputRun>,
}

impl RunMerge {
    /// What is left of each run.
    pub open spec fn left(self) -> Seq<Seq<EntryView>> {
        Seq::new(self.runs@.len(), |i: int| self.runs@[i].left())
    }

    pub open spec fn wf(self) -> bool {
        forall|i: int| 0 <= i < self.runs@.len() ==> (#[trigger] self.runs@[i]).wf()
    }

    /// Whether nothing is left.
    pub fn is_empty(&self) -> (r: bool)
        requires
            self.wf(),
        ensures
            r == all_empty(self.left()),
    {
        let mut i: usize = 0;
        while i < self.runs.len()
            invariant
                self.wf(),
                i <= self.runs@.len(),
                forall|k: int| 0 <= k < i ==> (#[trigger] self.left()[k]).len() == 0,
            decreases self.runs@.len() - i,
        {
            assert(self.runs@[i as int].wf());
            assert(self.left()[i as int] == self.runs@[i as int].left());
            if self.runs[i].pos < self.runs[i].rows.len() {
                assert(self.left()[i as int].len() > 0);
                return false;
            }
            i += 1;
        }
        true
    }

    /// The smallest key that starts a run.
    fn next_key(&self) -> (r: Option<Vec<u8>>)
        requires
            self.wf(),
        ensures
            r is None <==> all_empty(self.left()),
            r matches Some(key) ==> smallest_head(self.left(), key@),
    {
        let mut found: bool = false;
        let mut best: usize = 0;
        let mut i: usize = 0;
        let ghost runs = self.left();
        while i < self.runs.len()
            invariant
                self.wf(),
                runs == self.left(),
                i <= self.runs@.len(),
                !found ==> forall|k: int| 0 <= k < i ==> (#[trigger] runs[k]).len() == 0,
                found ==> best < i && runs[best as int].len() > 0 && forall|k: int|
                    0 <= k < i && (#[trigger] runs[k]).len() > 0 ==> bytes::lex_le(
                        runs[best as int][0].row.key,
                        runs[k][0].row.key,
                    ),
            decreases self.runs@.len() - i,
        {
            assert(self.runs@[i as int].wf());
            assert(runs[i as int] == self.runs@[i as int].left());
            if self.runs[i].pos < self.runs[i].rows.len() {
                assert(runs[i as int][0].row == self.runs@[i as int].rows@[self.runs@[i as int].pos as int]@);
                if !found {
                    found = true;
                    best = i;
                } else {
                    assert(self.runs@[best as int].wf());
                    assert(runs[best as int] == self.runs@[best as int].left());
                    assert(runs[best as int][0].row == self.runs@[best as int].rows@[self.runs@[best as int].pos as int]@);
                    let smaller: bool = bytes_less(
                        self.runs[i].rows[self.runs[i].pos].key.as_slice(),
                        self.runs[best].rows[self.runs[best].pos].key.as_slice(),
                    );
                    proof {
                        let a = runs[i as int][0].row.key;
                        let b = runs[best as int][0].row.key;
                        bytes::lemma_lex_not_lt(a, b);
                        if smaller {
                            assert forall|k: int|
                                0 <= k < i + 1 && (
                                #[trigger] runs[k]).len() > 0 implies bytes::lex_le(
                                a,
                                runs[k][0].row.key,
                            ) by {
                                if k < i {
                                    bytes::lemma_lex_lt_le(a, b, runs[k][0].row.key);
                                }
                            }
                        }
                    }
                    if smaller {
                        best = i;
                    }
                }
            }
            i += 1;
        }
        if found {
            assert(self.runs@[best as int].wf());
            assert(runs[best as int] == self.runs@[best as int].left());
            assert(runs[best as int][0].row == self.runs@[best as int].rows@[self.runs@[best as int].pos as int]@);
            Some(copy_bytes(self.runs[best].rows[self.runs[best].pos].key.as_slice()))
        } else {
            None
        }
    }

    /// Takes the entries of `key` from the start of run `i`.
    fn take_head(&mut self, i: usize, key: &[u8], group: &mut Vec<CompactionEntry>)
        requires
            old(self).wf(),
            i < old(self).runs@.len(),
        ensures
            final(self).wf(),
            final(self).left() == old(self).left().update(
                i as int,
                old(self).left()[i as int].skip(head_len(old(self).left()[i as int], key@)),
            ),
            final(self).runs@.len() == old(self).runs@.len(),
            merge_order::entries_view(final(group)@) == merge_order::entries_view(old(group)@)
                + old(self).left()[i as int].take(head_len(old(self).left()[i as int], key@)),
    {
        let ghost before = *self;
        let ghost run = self.left()[i as int];
        let ghost n = head_len(run, key@);
        let ghost start = merge_order::entries_view(group@);
        assert(self.runs@[i as int].wf());
        assert(run == self.runs@[i as int].left());
        let file_number: u64 = self.runs[i].file_number;
        let mut pos: usize = self.runs[i].pos;
        let ghost pos0 = pos as int;
        while pos < self.runs[i].rows.len() && bytes_equal(
            self.runs[i].rows[pos].key.as_slice(),
            key,
        )
            invariant
                *self == before,
                i < self.runs@.len(),
                self.runs@[i as int].wf(),
                run == self.runs@[i as int].left(),
                file_number == self.runs@[i as int].file_number,
                pos0 == self.runs@[i as int].pos,
                pos0 <= pos <= self.runs@[i as int].rows@.len(),
                forall|k: int| 0 <= k < pos - pos0 ==> (#[trigger] run[k]).row.key == key@,
                merge_order::entries_view(group@) == start + run.take(pos - pos0),
            decreases self.runs@[i as int].rows@.len() - pos,
        {
            let e = CompactionEntry { row: self.runs[i].rows[pos].duplicate(), file_number };
            proof {
                assert(run[pos - pos0] == e@);
                merge_order::lemma_entries_push(group@, e);
            }
            group.push(e);
            pos += 1;
            assert(merge_order::entries_view(group@) =~= start + run.take(pos - pos0));
        }
        proof {
            let p = other_key(key@);
            assert forall|k: int| 0 <= k < pos - pos0 implies !p(#[trigger] run[k]) by {}
            if pos - pos0 < run.len() {
                assert(run[pos - pos0].row == self.runs@[i as int].rows@[pos as int]@);
                assert(p(run[pos - pos0]));
            }
            coding::lemma_first_index(run, p, pos - pos0);
        }
        self.runs[i].pos = pos;
        proof {
            assert(self.runs@[i as int].left() =~= run.skip(n));
            assert forall|k: int| 0 <= k < self.runs@.len() implies (#[trigger] self.runs@[k]).wf() by {
                assert(before.runs@[k].wf());
            }
            assert(self.left() =~= before.left().update(i as int, run.skip(n)));
        }
    }

    /// Takes every version of the smallest key, newest first; `None` if
    /// nothing is left.
    pub fn next_group(&mut self) -> (r: Option<Vec<CompactionEntry>>)
        requires
            old(self).wf(),
        ensures
            final(self).wf(),
            final(self).runs@.len() == old(self).runs@.len(),
            match r {
                None => all_empty(old(self).left()) && final(self).left() == old(self).left(),
                Some(group) => exists|key: Seq<u8>|
                    {
                        &&& #[trigger] smallest_head(old(self).left(), key)
                        &&& merge_order::is_stable_sort(
                            heads(old(self).left(), key),
                            merge_order::entries_view(group@),
                        )
                        &&& final(self).left() == rests(old(self).left(), key)
                    },
            },
    {
        let ghost all = self.left();
        let key: Vec<u8> = match self.next_key() {
            Some(k) => k,
            None => {
                return None;
            },
        };
        let mut group: Vec<CompactionEntry> = Vec::new();
        let mut i: usize = 0;
        assert(merge_order::entries_view(group@) =~= heads(all.take(0), key@));
        while i < self.runs.len()
            invariant
                self.wf(),
                i <= self.runs@.len(),
                self.runs@.len() == all.len(),
                forall|k: int|
                    0 <= k < i ==> #[trigger] self.left()[k] == all[k].skip(
                        head_len(all[k], key@),
                    ),
                forall|k: int| i <= k < all.len() ==> #[trigger] self.left()[k] == all[k],
                merge_order::entries_view(group@) == heads(all.take(i as int), key@),
            decreases self.runs@.len() - i,
        {
            let ghost mid = self.left();
            assert(mid[i as int] == all[i as int]);
            self.take_head(i, key.as_slice(), &mut group);
            i += 1;
            proof {
                assert(all.take(i as int).drop_last() =~= all.take(i - 1));
                assert(all.take(i as int).last() == all[i - 1]);
                assert forall|k: int| 0 <= k < i implies #[trigger] self.left()[k] == all[k].skip(
                    head_len(all[k], key@),
                ) by {
                    if k < i - 1 {
                        assert(self.left()[k] == mid[k]);
                    }
                }
                assert forall|k: int| i <= k < all.len() implies #[trigger] self.left()[k]
                    == all[k] by {
                    assert(self.left()[k] == mid[k]);
                }
            }
        }
        proof {
            assert(all.take(all.len() as int) =~= all);
            assert(self.left() =~= rests(all, key@));
            assert(smallest_head(all, key@));
        }
        Some(sort_entries(group))
    }
}

/// What a stable sort holds is what it was given.
proof fn lemma_sorted_member(s: Seq<EntryView>, r: Seq<EntryView>, i: int)
    requires
        merge_order::is_stable_sort(s, r),
        0 <= i < r.len(),
    ensures
        s.contains(r[i]),
{
    let c = r[i];
    merge_order::lemma_rank_member(r, c);
    merge_order::lemma_rank_member(s, c);
    assert(merge_order::same_rank(r[i], c));
    let f = merge_order::of_rank(r, c);
    assert(f.contains(r[i]));
    assert(f == merge_order::of_rank(s, c));
    let k = choose|k: int| 0 <= k < f.len() && f[k] == r[i];
    assert(s.contains(merge_order::of_rank(s, c)[k]));
}

/// In a sorted run whose first key is not below `key`, what follows the
/// entries of `key` lies above it.
pub proof fn lemma_rest_above(run: Seq<EntryView>, key: Seq<u8>, i: int)
    requires
        merge_order::in_order(run),
        run.len() > 0 ==> bytes::lex_le(key, run[0].row.key),
        head_len(run, key) <= i < run.len(),
    ensures
        bytes::lex_lt(key, run[i].row.key),
{
    let p = other_key(key);
    let n = head_len(run, key);
    coding::lemma_first_index_props(run, p);
    // The first entry after the head differs from the key and is not below it.
    assert(p(run[n]));
    if n > 0 {
        assert(!p(run[0]));
        assert(run[0].row.key == key);
        assert(!merge_order::entry_before(run[n], run[0]));
        bytes::lemma_lex_not_lt(run[n].row.key, run[0].row.key);
    }
    assert(bytes::lex_lt(key, run[n].row.key));
    if i > n {
        assert(!merge_order::entry_before(run[i], run[n]));
        bytes::lemma_lex_not_lt(run[i].row.key, run[n].row.key);
        bytes::lemma_lex_lt_le(key, run[n].row.key, run[i].row.key);
    }
}

proof fn lemma_heads_keys(runs: Seq<Seq<EntryView>>, key: Seq<u8>)
    ensures
        forall|i: int|
            0 <= i < heads(runs, key).len() ==> (#[trigger] heads(runs, key)[i]).row.key == key,
    decreases runs.len(),
{
    if runs.len() > 0 {
        lemma_heads_keys(runs.drop_last(), key);
        let last = runs.last();
        let n = head_len(last, key);
        let p = other_key(key);
        coding::lemma_first_index_props(last, p);
        let front = heads(runs.drop_last(), key);
        assert forall|i: int| 0 <= i < heads(runs, key).len() implies (#[trigger] heads(
            runs,
            key,
        )[i]).row.key == key by {
            if i >= front.len() {
                assert(heads(runs, key)[i] == last[i - front.len()]);
                assert(!p(last[i - front.len()]));
            } else {
                assert(heads(runs, key)[i] == front[i]);
            }
        }
    }
}

proof fn lemma_flat_member(runs: Seq<Seq<EntryView>>, e: EntryView)
    requires
        flat(runs).contains(e),
    ensures
        exists|i: int, j: int|
            0 <= i < runs.len() && 0 <= j < runs[i].len() && #[trigger] runs[i][j] == e,
    decreases runs.len(),
{
    if runs.len() > 0 {
        let front = runs.drop_last();
        let k = choose|k: int| 0 <= k < flat(runs).len() && flat(runs)[k] == e;
        if k < flat(front).len() {
            assert(flat(front)[k] == e);
            lemma_flat_member(front, e);
            let (i, j) = choose|i: int, j: int|
                0 <= i < front.len() && 0 <= j < front[i].len() && #[trigger] front[i][j] == e;
            assert(runs[i][j] == e);
        } else {
            let j = k - flat(front).len();
            assert(runs[runs.len() - 1][j] == e);
        }
    }
}

/// The runs, each in order, start at `key` or above.
spec fn above(runs: Seq<Seq<EntryView>>, key: Seq<u8>) -> bool {
    &&& runs_in_order(runs)
    &&& forall|i: int|
        0 <= i < runs.len() && (#[trigger] runs[i]).len() > 0 ==> bytes::lex_le(
            key,
            runs[i][0].row.key,
        )
}

/// Taking the heads out splits the entries of each rank.
proof fn lemma_split_rank(runs: Seq<Seq<EntryView>>, key: Seq<u8>, c: EntryView)
    requires
        above(runs, key),
    ensures
        c.row.key == key ==> merge_order::of_rank(heads(runs, key), c) == merge_order::of_rank(
            flat(runs),
            c,
        ) && merge_order::of_rank(flat(rests(runs, key)), c) == Seq::<EntryView>::empty(),
        c.row.key != key ==> merge_order::of_rank(flat(rests(runs, key)), c)
            == merge_order::of_rank(flat(runs), c) && merge_order::of_rank(heads(runs, key), c)
            == Seq::<EntryView>::empty(),
    decreases runs.len(),
{
    if runs.len() == 0 {
        merge_order::lemma_rank_none(flat(runs), c);
        merge_order::lemma_rank_none(heads(runs, key), c);
        merge_order::lemma_rank_none(flat(rests(runs, key)), c);
    } else {
        let front = runs.drop_last();
        let last = runs.last();
        assert forall|i: int| 0 <= i < front.len() implies merge_order::in_order(
            #[trigger] front[i],
        ) by {
            assert(front[i] == runs[i]);
        }
        assert forall|i: int|
            0 <= i < front.len() && (#[trigger] front[i]).len() > 0 implies bytes::lex_le(
            key,
            front[i][0].row.key,
        ) by {
            assert(front[i] == runs[i]);
        }
        lemma_split_rank(front, key, c);
        let n = head_len(last, key);
        let p = other_key(key);
        coding::lemma_first_index_props(last, p);
        let h = last.take(n);
        let t = last.skip(n);
        assert(rests(runs, key).drop_last() =~= rests(front, key));
        assert(rests(runs, key).last() == t);
        merge_order::lemma_rank_concat(heads(front, key), h, c);
        merge_order::lemma_rank_concat(flat(front), last, c);
        merge_order::lemma_rank_concat(flat(rests(front, key)), t, c);
        merge_order::lemma_rank_concat(h, t, c);
        assert(h + t =~= last);
        assert(runs[runs.len() - 1] == last);
        if c.row.key == key {
            assert forall|i: int| 0 <= i < t.len() implies !merge_order::same_rank(
                #[trigger] t[i],
                c,
            ) by {
                lemma_rest_above(last, key, n + i);
                bytes::lemma_lex_asymmetric(key, t[i].row.key);
            }
            merge_order::lemma_rank_none(t, c);
            assert(merge_order::of_rank(h, c) + merge_order::of_rank(t, c)
                =~= merge_order::of_rank(h, c));
            let e = Seq::<EntryView>::empty();
            assert(e + e =~= e);
        } else {
            assert forall|i: int| 0 <= i < h.len() implies !merge_order::same_rank(
                #[trigger] h[i],
                c,
            ) by {
                assert(!p(last[i]));
            }
            merge_order::lemma_rank_none(h, c);
            assert(merge_order::of_rank(h, c) + merge_order::of_rank(t, c)
                =~= merge_order::of_rank(t, c));
            let e = Seq::<EntryView>::empty();
            assert(e + e =~= e);
        }
    }
}

/// One step of the streaming merge: the sorted versions of the smallest key,
/// followed by a sort of what is left, sort everything. What is left is still
/// in order.
pub proof fn law_merge_step(
    runs: Seq<Seq<EntryView>>,
    key: Seq<u8>,
    group: Seq<EntryView>,
    tail: Seq<EntryView>,
)
    requires
        runs_in_order(runs),
        smallest_head(runs, key),
        merge_order::is_stable_sort(heads(runs, key), group),
        merge_order::is_stable_sort(flat(rests(runs, key)), tail),
    ensures
        merge_order::is_stable_sort(flat(runs), group + tail),
        runs_in_order(rests(runs, key)),
        forall|i: int| 0 <= i < group.len() ==> (#[trigger] group[i]).row.key == key,
        forall|i: int| 0 <= i < tail.len() ==> bytes::lex_lt(key, (#[trigger] tail[i]).row.key),
        group.len() > 0,
{
    lemma_heads_keys(runs, key);
    assert forall|i: int| 0 <= i < group.len() implies (#[trigger] group[i]).row.key == key by {
        lemma_sorted_member(heads(runs, key), group, i);
        let hs = heads(runs, key);
        let k = choose|k: int| 0 <= k < hs.len() && hs[k] == group[i];
        assert(hs[k].row.key == key);
    }
    assert forall|i: int| 0 <= i < tail.len() implies bytes::lex_lt(
        key,
        (#[trigger] tail[i]).row.key,
    ) by {
        let rs = rests(runs, key);
        lemma_sorted_member(flat(rs), tail, i);
        lemma_flat_member(rs, tail[i]);
        let (a, b) = choose|a: int, b: int|
            0 <= a < rs.len() && 0 <= b < rs[a].len() && #[trigger] rs[a][b] == tail[i];
        coding::lemma_first_index_props(runs[a], other_key(key));
        assert(runs[a].len() > 0);
        lemma_rest_above(runs[a], key, head_len(runs[a], key) + b);
    }
    let all = group + tail;
    assert forall|i: int, j: int| 0 <= i < j < all.len() implies !merge_order::entry_before(
        #[trigger] all[j],
        #[trigger] all[i],
    ) by {
        if j < group.len() {
            assert(!merge_order::entry_before(group[j], group[i]));
        } else if i >= group.len() {
            assert(!merge_order::entry_before(tail[j - group.len()], tail[i - group.len()]));
        } else {
            assert(all[j] == tail[j - group.len()]);
            assert(all[i] == group[i]);
            bytes::lemma_lex_asymmetric(key, tail[j - group.len()].row.key);
        }
    }
    assert forall|c: EntryView| #[trigger]
        merge_order::of_rank(all, c) == merge_order::of_rank(flat(runs), c) by {
        merge_order::lemma_rank_concat(group, tail, c);
        lemma_split_rank(runs, key, c);
        assert(merge_order::of_rank(group, c) == merge_order::of_rank(heads(runs, key), c));
        assert(merge_order::of_rank(tail, c) == merge_order::of_rank(flat(rests(runs, key)), c));
        assert(merge_order::of_rank(all, c) =~= merge_order::of_rank(flat(runs), c));
    }
    lemma_rests_in_order(runs, key);
    lemma_heads_nonempty(runs, key);
    if group.len() == 0 {
        let hs = heads(runs, key);
        merge_order::lemma_rank_member(hs, hs[0]);
        assert(merge_order::same_rank(hs[0], hs[0]));
        merge_order::lemma_rank_none(group, hs[0]);
        assert(merge_order::of_rank(group, hs[0]) == merge_order::of_rank(hs, hs[0]));
    }
}

pub proof fn lemma_rests_in_order(runs: Seq<Seq<EntryView>>, key: Seq<u8>)
    requires
        runs_in_order(runs),
    ensures
        runs_in_order(rests(runs, key)),
{
    let rs = rests(runs, key);
    assert forall|a: int| 0 <= a < rs.len() implies merge_order::in_order(#[trigger] rs[a]) by {
        let n = head_len(runs[a], key);
        coding::lemma_first_index_props(runs[a], other_key(key));
        assert(merge_order::in_order(runs[a]));
        assert forall|i: int, j: int|
            0 <= i < j < rs[a].len() implies !merge_order::entry_before(
            #[trigger] rs[a][j],
            #[trigger] rs[a][i],
        ) by {
            assert(!merge_order::entry_before(runs[a][n + j], runs[a][n + i]));
        }
    }
}

proof fn lemma_heads_len(runs: Seq<Seq<EntryView>>, key: Seq<u8>, i: int)
    requires
        0 <= i < runs.len(),
        runs[i].len() > 0,
        runs[i][0].row.key == key,
    ensures
        heads(runs, key).len() > 0,
    decreases runs.len(),
{
    let last = runs.last();
    let p = other_key(key);
    coding::lemma_first_index_props(last, p);
    if i == runs.len() - 1 {
        assert(!p(last[0]));
        if head_len(last, key) == 0 {
            assert(p(last[0]));
        }
    } else {
        assert(runs.drop_last()[i] == runs[i]);
        lemma_heads_len(runs.drop_last(), key, i);
    }
}

proof fn lemma_heads_nonempty(runs: Seq<Seq<EntryView>>, key: Seq<u8>)
    requires
        smallest_head(runs, key),
    ensures
        heads(runs, key).len() > 0,
{
    let i = choose|i: int|
        0 <= i < runs.len() && (#[trigger] runs[i]).len() > 0 && runs[i][0].row.key == key;
    lemma_heads_len(runs, key, i);
}

proof fn lemma_flat_empty(runs: Seq<Seq<EntryView>>)
    requires
        all_empty(runs),
    ensures
        flat(runs) == Seq::<EntryView>::empty(),
    decreases runs.len(),
{
    if runs.len() > 0 {
        let front = runs.drop_last();
        assert forall|i: int| 0 <= i < front.len() implies (#[trigger] front[i]).len() == 0 by {
            assert(front[i] == runs[i]);
        }
        lemma_flat_empty(front);
        assert(runs[runs.len() - 1].len() == 0);
        assert(flat(runs) =~= Seq::<EntryView>::empty());
    }
}

/// `groups` may come of taking the runs apart key by key until nothing is
/// left.
pub open spec fn streamed(runs: Seq<Seq<EntryView>>, groups: Seq<Seq<EntryView>>) -> bool
    decreases groups.len(),
{
    if groups.len() == 0 {
        all_empty(runs)
    } else {
        exists|key: Seq<u8>|
            {
                &&& #[trigger] smallest_head(runs, key)
                &&& merge_order::is_stable_sort(heads(runs, key), groups[0])
                &&& streamed(rests(runs, key), groups.skip(1))
            }
    }
}

/// Several groups, one after the other.
pub open spec fn joined(groups: Seq<Seq<EntryView>>) -> Seq<EntryView>
    decreases groups.len(),
{
    if groups.len() == 0 {
        Seq::empty()
    } else {
        groups[0] + joined(groups.skip(1))
    }
}

/// Streaming sorts: taking sorted runs apart key by key gives all their
/// entries in the order of compaction.
pub proof fn law_streaming_sorts(runs: Seq<Seq<EntryView>>, groups: Seq<Seq<EntryView>>)
    requires
        runs_in_order(runs),
        streamed(runs, groups),
    ensures
        merge_order::is_stable_sort(flat(runs), joined(groups)),
    decreases groups.len(),
{
    if groups.len() == 0 {
        lemma_flat_empty(runs);
    } else {
        let key = choose|key: Seq<u8>|
            {
                &&& #[trigger] smallest_head(runs, key)
                &&& merge_order::is_stable_sort(heads(runs, key), groups[0])
                &&& streamed(rests(runs, key), groups.skip(1))
            };
        lemma_rests_in_order(runs, key);
        law_streaming_sorts(rests(runs, key), groups.skip(1));
        law_merge_step(runs, key, groups[0], joined(groups.skip(1)));
    }
}

/// What is left of a run: its rows from its position on, as rows of its file.
pub proof fn law_run_goes_on_from_its_position(run: InputRun, i: int)
    requires
        run.wf(),
    ensures
        run.left().len() == run.rows@.len() - run.pos,
        run.pos <= i < run.rows@.len() ==> run.left()[i - run.pos].row == run.rows@[i]@
            && run.left()[i - run.pos].file_number == run.file_number,
{
}

/// A step takes from every run the rows with the key that it starts with, run by run,
/// and leaves the others: `n` is how many of the last run have the key.
pub proof fn law_step_takes_the_rows_of_a_key(
    runs: Seq<Seq<EntryView>>,
    last: Seq<EntryView>,
    key: Seq<u8>,
    n: int,
)
    requires
        0 <= n <= last.len(),
        forall|i: int| 0 <= i < n ==> (#[trigger] last[i]).row.key == key,
        n < last.len() ==> last[n].row.key != key,
    ensures
        heads(Seq::empty(), key).len() == 0,
        heads(runs.push(last), key) == heads(runs, key) + last.take(n),
        rests(runs.push(last), key) == rests(runs, key).push(last.skip(n)),
        rests(Seq::empty(), key).len() == 0,
{
    let p = other_key(key);
    assert forall|i: int| 0 <= i < n implies !p(#[trigger] last[i]) by {}
    if n < last.len() {
        assert(p(last[n]));
    }
    coding::lemma_first_index(last, p, n);
    let all = runs.push(last);
    assert(all.drop_last() =~= runs);
    assert(rests(all, key) =~= rests(runs, key).push(last.skip(n)));
}

/// The key that is next: the smallest with which a run starts.
pub proof fn law_next_key_is_the_smallest(runs: Seq<Seq<EntryView>>, key: Seq<u8>, i: int)
    requires
        smallest_head(runs, key),
        0 <= i < runs.len(),
        runs[i].len() > 0,
    ensures
        !bytes::lex_lt(runs[i][0].row.key, key),
        exists|j: int|
            0 <= j < runs.len() && (#[trigger] runs[j]).len() > 0 && runs[j][0].row.key == key,
{
    bytes::lemma_lex_not_lt(runs[i][0].row.key, key);
}

/// Runs are put together one after the other, and are all at their end exactly where
/// none has a row left.
pub proof fn law_runs_are_put_together_in_order(runs: Seq<Seq<EntryView>>, last: Seq<EntryView>)
    ensures
        flat(Seq::empty()).len() == 0,
        flat(runs.push(last)) == flat(runs) + last,
        all_empty(runs) <==> flat(runs).len() == 0,
    decreases runs.len(),
{
    assert(runs.push(last).drop_last() =~= runs);
    if runs.len() > 0 {
        let front = runs.drop_last();
        law_runs_are_put_together_in_order(front, runs.last());
        if all_empty(runs) {
            assert(runs[runs.len() - 1].len() == 0);
            assert forall|i: int| 0 <= i < front.len() implies (#[trigger] front[i]).len() == 0 by {
                assert(runs[i].len() == 0);
            }
        }
        if flat(runs).len() == 0 {
            assert forall|i: int| 0 <= i < runs.len() implies (#[trigger] runs[i]).len() == 0 by {
                if i < front.len() {
                    assert(front[i].len() == 0);
                }
            }
        }
    }
}

/// What is left of a merge: what is left of each of its runs.
pub proof fn law_merge_goes_on_in_every_run(m: RunMerge, i: int)
    ensures
        m.left().len() == m.runs@.len(),
        0 <= i < m.runs@.len() ==> m.left()[i] == m.runs@[i].left(),
{
}

} // verus!
