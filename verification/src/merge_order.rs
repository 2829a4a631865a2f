//! The order in which compaction sees entries, a stable sort into that order,
//! and a merge of sorted runs that gives the same result.

use crate::bytes;
use crate::bytes::{bytes_equal, bytes_less};
use crate::coding;
use crate::row::{Row, RowView};
use vstd::prelude::*;

verus! {

/// The contents of a [`CompactionEntry`].
pub struct EntryView {
    pub row: RowView,
    pub file_number: u64,
}

/// A row with the file that it was read from. Between versions of a key the
/// higher file number wins, then the higher sequence number.
pub struct CompactionEntry {
    pub row: Row,
    pub file_number: u64,
}

impl View for CompactionEntry {
    type V = EntryView;

    open spec fn view(&self) -> EntryView {
        EntryView { row: self.row@, file_number: self.file_number }
    }
}

/// The contents of several entries.
pub open spec fn entries_view(entries: Seq<CompactionEntry>) -> Seq<EntryView> {
    Seq::new(entries.len(), |i: int| entries[i]@)
}

/// Appending an entry appends its contents.
pub proof fn lemma_entries_push(entries: Seq<CompactionEntry>, e: CompactionEntry)
    ensures
        entries_view(entries.push(e)) == entries_view(entries).push(e@),
{
    assert(entries_view(entries.push(e)) =~= entries_view(entries).push(e@));
}

/// File number and sequence number packed so that a newer file dominates.
pub open spec fn effective(e: EntryView) -> nat {
    e.file_number as nat * 0x1_0000_0000_0000_0000 + e.row.sequence as nat
}

impl CompactionEntry {
    /// File number and sequence number packed so that a newer file dominates.
    pub fn effective_seq(&self) -> (r: u128)
        ensures
            r == effective(self@),
    {
        (self.file_number as u128) * 0x1_0000_0000_0000_0000u128 + (self.row.sequence as u128)
    }
}

/// The order of compaction: keys ascending, versions of a key newest first.
pub open spec fn entry_before(a: EntryView, b: EntryView) -> bool {
    bytes::lex_lt(a.row.key, b.row.key) || (a.row.key == b.row.key && effective(a) > effective(b))
}

/// Neither entry comes before the other.
pub open spec fn same_rank(a: EntryView, b: EntryView) -> bool {
    a.row.key == b.row.key && effective(a) == effective(b)
}

/// No entry comes before an earlier one.
pub open spec fn in_order(s: Seq<EntryView>) -> bool {
    forall|i: int, j: int| 0 <= i < j < s.len() ==> !entry_before(#[trigger] s[j], #[trigger] s[i])
}

/// The entries of one rank, in their order.
pub open spec fn of_rank(s: Seq<EntryView>, c: EntryView) -> Seq<EntryView> {
    s.filter(|e: EntryView| same_rank(e, c))
}

/// `r` is `s` sorted, with entries of one rank in their order of arrival.
pub open spec fn is_stable_sort(s: Seq<EntryView>, r: Seq<EntryView>) -> bool {
    in_order(r) && forall|c: EntryView| #[trigger] of_rank(r, c) == of_rank(s, c)
}

pub proof fn lemma_entry_order(a: EntryView, b: EntryView, c: EntryView)
    ensures
        !entry_before(a, a),
        entry_before(a, b) ==> !entry_before(b, a),
        entry_before(a, b) || same_rank(a, b) || entry_before(b, a),
        !entry_before(a, b) && !entry_before(b, c) ==> !entry_before(a, c),
        entry_before(a, b) && !entry_before(c, b) ==> entry_before(a, c),
{
    bytes::lemma_lex_irreflexive(a.row.key);
    bytes::lemma_lex_total(a.row.key, b.row.key);
    bytes::lemma_lex_total(b.row.key, c.row.key);
    bytes::lemma_lex_total(a.row.key, c.row.key);
    lemma_lex_facts(a.row.key, b.row.key, c.row.key);
    lemma_lex_facts(b.row.key, a.row.key, c.row.key);
    lemma_lex_facts(c.row.key, b.row.key, a.row.key);
    lemma_lex_facts(a.row.key, c.row.key, b.row.key);
}

proof fn lemma_lex_facts(a: Seq<u8>, b: Seq<u8>, c: Seq<u8>)
    ensures
        bytes::lex_lt(a, b) ==> !bytes::lex_lt(b, a) && a != b,
        bytes::lex_lt(a, b) && bytes::lex_lt(b, c) ==> bytes::lex_lt(a, c),
{
    if bytes::lex_lt(a, b) {
        bytes::lemma_lex_asymmetric(a, b);
        if bytes::lex_lt(b, c) {
            bytes::lemma_lex_transitive(a, b, c);
        }
    }
}

/// Whether `a` comes before `b`.
fn comes_before(a: &CompactionEntry, b: &CompactionEntry) -> (r: bool)
    ensures
        r == entry_before(a@, b@),
{
    if bytes_equal(a.row.key.as_slice(), b.row.key.as_slice()) {
        proof {
            bytes::lemma_lex_irreflexive(a.row.key@);
        }
        a.effective_seq() > b.effective_seq()
    } else {
        bytes_less(a.row.key.as_slice(), b.row.key.as_slice())
    }
}

proof fn lemma_rank_push(s: Seq<EntryView>, e: EntryView, c: EntryView)
    ensures
        of_rank(s.push(e), c) == if same_rank(e, c) {
            of_rank(s, c).push(e)
        } else {
            of_rank(s, c)
        },
{
    reveal(Seq::filter);
    assert(s.push(e).drop_last() =~= s);
}

pub proof fn lemma_rank_concat(a: Seq<EntryView>, b: Seq<EntryView>, c: EntryView)
    ensures
        of_rank(a + b, c) == of_rank(a, c) + of_rank(b, c),
    decreases b.len(),
{
    if b.len() == 0 {
        assert(a + b =~= a);
        reveal(Seq::filter);
        assert(of_rank(b, c) =~= Seq::<EntryView>::empty());
        assert(of_rank(a, c) + of_rank(b, c) =~= of_rank(a, c));
    } else {
        let front = b.drop_last();
        lemma_rank_concat(a, front, c);
        assert(a + b =~= (a + front).push(b.last()));
        assert(b =~= front.push(b.last()));
        lemma_rank_push(a + front, b.last(), c);
        lemma_rank_push(front, b.last(), c);
        assert(of_rank(a + b, c) =~= of_rank(a, c) + of_rank(b, c));
    }
}

pub proof fn lemma_rank_none(s: Seq<EntryView>, c: EntryView)
    requires
        forall|i: int| 0 <= i < s.len() ==> !same_rank(#[trigger] s[i], c),
    ensures
        of_rank(s, c) == Seq::<EntryView>::empty(),
    decreases s.len(),
{
    if s.len() == 0 {
        reveal(Seq::filter);
        assert(of_rank(s, c) =~= Seq::<EntryView>::empty());
    } else {
        let front = s.drop_last();
        assert forall|i: int| 0 <= i < front.len() implies !same_rank(#[trigger] front[i], c) by {
            assert(!same_rank(s[i], c));
        }
        lemma_rank_none(front, c);
        assert(s =~= front.push(s.last()));
        assert(!same_rank(s[s.len() - 1], c));
        lemma_rank_push(front, s.last(), c);
    }
}

pub proof fn lemma_rank_member(s: Seq<EntryView>, c: EntryView)
    ensures
        of_rank(s, c).len() > 0 ==> exists|i: int| 0 <= i < s.len() && same_rank(
            #[trigger] s[i],
            c,
        ),
        forall|i: int|
            0 <= i < s.len() && same_rank(#[trigger] s[i], c) ==> of_rank(s, c).len() > 0,
        forall|i: int| 0 <= i < s.len() && #[trigger] same_rank(s[i], c) ==> of_rank(s, c).contains(s[i]),
        forall|k: int|
            0 <= k < of_rank(s, c).len() ==> same_rank(#[trigger] of_rank(s, c)[k], c)
                && s.contains(of_rank(s, c)[k]),
    decreases s.len(),
{
    if s.len() == 0 {
        reveal(Seq::filter);
    } else {
        let front = s.drop_last();
        lemma_rank_member(front, c);
        assert(s =~= front.push(s.last()));
        lemma_rank_push(front, s.last(), c);
        let f = of_rank(front, c);
        let r = of_rank(s, c);
        assert forall|i: int| 0 <= i < s.len() && #[trigger] same_rank(s[i], c) implies r.contains(
            s[i],
        ) && r.len() > 0 by {
            if i < front.len() {
                assert(same_rank(front[i], c));
                assert(f.contains(front[i]));
                let k = choose|k: int| 0 <= k < f.len() && f[k] == front[i];
                assert(r[k] == s[i]);
            } else {
                assert(r[r.len() - 1] == s[i]);
            }
        }
        assert forall|k: int| 0 <= k < r.len() implies same_rank(#[trigger] r[k], c) && s.contains(
            r[k],
        ) by {
            if k < f.len() {
                assert(r[k] == f[k]);
                assert(front.contains(f[k]));
                let i = choose|i: int| 0 <= i < front.len() && front[i] == f[k];
                assert(s[i] == r[k]);
            } else {
                assert(s[s.len() - 1] == r[k]);
            }
        }
        if r.len() > 0 {
            assert(same_rank(r[0], c));
            let i = choose|i: int| 0 <= i < s.len() && s[i] == r[0];
            assert(same_rank(s[i], c));
        }
    }
}

proof fn lemma_in_order_prefix(s: Seq<EntryView>)
    requires
        in_order(s),
        s.len() > 0,
    ensures
        in_order(s.drop_last()),
{
    let f = s.drop_last();
    assert forall|i: int, j: int| 0 <= i < j < f.len() implies !entry_before(
        #[trigger] f[j],
        #[trigger] f[i],
    ) by {
        assert(!entry_before(s[j], s[i]));
    }
}

/// Sorting is unique: two sorted arrangements with the same entries of each
/// rank, in the same order, are equal.
pub proof fn lemma_stable_sort_unique(a: Seq<EntryView>, b: Seq<EntryView>)
    requires
        in_order(a),
        in_order(b),
        forall|c: EntryView| #[trigger] of_rank(a, c) == of_rank(b, c),
    ensures
        a == b,
    decreases a.len(),
{
    if a.len() == 0 {
        if b.len() > 0 {
            lemma_rank_member(b, b[0]);
            assert(same_rank(b[0], b[0]));
            reveal(Seq::filter);
            assert(of_rank(a, b[0]).len() == 0);
        }
        assert(a =~= b);
    } else {
        let x = a.last();
        lemma_rank_member(a, x);
        lemma_rank_member(b, x);
        assert(same_rank(a[a.len() - 1], x));
        assert(of_rank(b, x).len() > 0);
        let k = choose|k: int| 0 <= k < b.len() && same_rank(#[trigger] b[k], x);
        let y = b.last();
        lemma_rank_member(b, y);
        lemma_rank_member(a, y);
        assert(same_rank(b[b.len() - 1], y));
        assert(of_rank(a, y).len() > 0);
        let m = choose|m: int| 0 <= m < a.len() && same_rank(#[trigger] a[m], y);
        // y is not before x's rank, x is not before y's rank
        if k < b.len() - 1 {
            assert(!entry_before(b[b.len() - 1], b[k]));
        }
        if m < a.len() - 1 {
            assert(!entry_before(a[a.len() - 1], a[m]));
        }
        lemma_entry_order(y, b[k], x);
        lemma_entry_order(x, a[m], y);
        lemma_entry_order(x, y, x);
        assert(same_rank(x, y));
        let af = a.drop_last();
        let bf = b.drop_last();
        assert(a =~= af.push(x));
        assert(b =~= bf.push(y));
        lemma_rank_push(af, x, x);
        lemma_rank_push(bf, y, x);
        assert(of_rank(a, x).last() == x);
        assert(of_rank(b, x).last() == y);
        assert(x == y);
        assert forall|c: EntryView| #[trigger] of_rank(af, c) == of_rank(bf, c) by {
            lemma_rank_push(af, x, c);
            lemma_rank_push(bf, y, c);
            assert(of_rank(a, c) == of_rank(b, c));
            if same_rank(x, c) {
                assert(of_rank(a, c).drop_last() =~= of_rank(af, c));
                assert(of_rank(b, c).drop_last() =~= of_rank(bf, c));
            }
        }
        lemma_in_order_prefix(a);
        lemma_in_order_prefix(b);
        lemma_stable_sort_unique(af, bf);
    }
}

proof fn lemma_in_order_cons(x: EntryView, s: Seq<EntryView>)
    requires
        in_order(s),
        forall|k: int| 0 <= k < s.len() ==> !entry_before(#[trigger] s[k], x),
    ensures
        in_order(seq![x] + s),
{
    let r = seq![x] + s;
    assert forall|i: int, j: int| 0 <= i < j < r.len() implies !entry_before(
        #[trigger] r[j],
        #[trigger] r[i],
    ) by {
        assert(r[j] == s[j - 1]);
        if i > 0 {
            assert(r[i] == s[i - 1]);
        }
    }
}

proof fn lemma_rank_single(x: EntryView, c: EntryView)
    ensures
        of_rank(seq![x], c) == if same_rank(x, c) {
            seq![x]
        } else {
            Seq::<EntryView>::empty()
        },
{
    let none = Seq::<EntryView>::empty();
    lemma_rank_none(none, c);
    lemma_rank_push(none, x, c);
    assert(none.push(x) =~= seq![x]);
}

/// Moving the last entry of `b` to the front of `r` keeps the entries of each
/// rank in their order.
proof fn lemma_rank_move_right(
    a: Seq<EntryView>,
    b: Seq<EntryView>,
    x: EntryView,
    r: Seq<EntryView>,
    c: EntryView,
)
    ensures
        of_rank(a, c) + of_rank(b, c) + of_rank(seq![x] + r, c) == of_rank(a, c) + of_rank(
            b.push(x),
            c,
        ) + of_rank(r, c),
{
    lemma_rank_push(b, x, c);
    lemma_rank_concat(seq![x], r, c);
    lemma_rank_single(x, c);
    assert(of_rank(a, c) + of_rank(b, c) + of_rank(seq![x] + r, c) =~= of_rank(a, c) + of_rank(
        b.push(x),
        c,
    ) + of_rank(r, c));
}

/// The same for the last entry of `a`, which comes after all of `b`.
proof fn lemma_rank_move_left(
    a: Seq<EntryView>,
    b: Seq<EntryView>,
    x: EntryView,
    r: Seq<EntryView>,
    c: EntryView,
)
    requires
        forall|k: int| 0 <= k < b.len() ==> !same_rank(#[trigger] b[k], x),
    ensures
        of_rank(a, c) + of_rank(b, c) + of_rank(seq![x] + r, c) == of_rank(a.push(x), c) + of_rank(
            b,
            c,
        ) + of_rank(r, c),
{
    lemma_rank_push(a, x, c);
    lemma_rank_concat(seq![x], r, c);
    lemma_rank_single(x, c);
    if same_rank(x, c) {
        assert forall|k: int| 0 <= k < b.len() implies !same_rank(#[trigger] b[k], c) by {
            assert(!same_rank(b[k], x));
        }
        lemma_rank_none(b, c);
    }
    assert(of_rank(a, c) + of_rank(b, c) + of_rank(seq![x] + r, c) =~= of_rank(a.push(x), c)
        + of_rank(b, c) + of_rank(r, c));
}

/// The entries in reverse order.
fn reversed(v: Vec<CompactionEntry>) -> (r: Vec<CompactionEntry>)
    ensures
        entries_view(r@) == entries_view(v@).reverse(),
{
    let mut rest: Vec<CompactionEntry> = v;
    let ghost all = entries_view(rest@);
    let mut out: Vec<CompactionEntry> = Vec::new();
    while rest.len() > 0
        invariant
            rest@.len() <= all.len(),
            entries_view(rest@) == all.take(rest@.len() as int),
            entries_view(out@) == all.skip(rest@.len() as int).reverse(),
        decreases rest@.len(),
    {
        let ghost before = rest@;
        match rest.pop() {
            Some(e) => {
                proof {
                    lemma_entries_push(out@, e);
                    assert(entries_view(before)[before.len() - 1] == e@);
                }
                out.push(e);
                proof {
                    assert(entries_view(rest@) =~= all.take(rest@.len() as int));
                    assert(entries_view(out@) =~= all.skip(rest@.len() as int).reverse());
                }
            },
            None => {},
        }
    }
    assert(entries_view(out@) =~= all.reverse());
    out
}

/// Merges two sorted runs; on equal rank the left one comes first.
#[verifier::rlimit(40)]
fn merge_two(left: Vec<CompactionEntry>, right: Vec<CompactionEntry>) -> (r: Vec<CompactionEntry>)
    requires
        in_order(entries_view(left@)),
        in_order(entries_view(right@)),
    ensures
        is_stable_sort(entries_view(left@) + entries_view(right@), entries_view(r@)),
{
    let mut a: Vec<CompactionEntry> = left;
    let mut b: Vec<CompactionEntry> = right;
    let ghost a0 = entries_view(a@);
    let ghost b0 = entries_view(b@);
    let mut out: Vec<CompactionEntry> = Vec::new();
    let ghost mut done: Seq<EntryView> = Seq::empty();
    proof {
        assert(entries_view(out@).reverse() =~= done);
        assert forall|c: EntryView|
            of_rank(a0, c) + of_rank(b0, c) + #[trigger] of_rank(done, c) == of_rank(a0, c)
                + of_rank(b0, c) by {
            lemma_rank_none(done, c);
            assert(of_rank(a0, c) + of_rank(b0, c) + of_rank(done, c) =~= of_rank(a0, c) + of_rank(
                b0,
                c,
            ));
        }
    }
    while a.len() > 0 || b.len() > 0
        invariant
            done == entries_view(out@).reverse(),
            in_order(entries_view(a@)),
            in_order(entries_view(b@)),
            in_order(done),
            forall|i: int, k: int|
                0 <= i < a@.len() && 0 <= k < done.len() ==> !entry_before(
                    #[trigger] done[k],
                    #[trigger] entries_view(a@)[i],
                ),
            forall|i: int, k: int|
                0 <= i < b@.len() && 0 <= k < done.len() ==> !entry_before(
                    #[trigger] done[k],
                    #[trigger] entries_view(b@)[i],
                ),
            forall|c: EntryView|
                of_rank(entries_view(a@), c) + of_rank(entries_view(b@), c) + #[trigger] of_rank(
                    done,
                    c,
                ) == of_rank(a0, c) + of_rank(b0, c),
        decreases a@.len() + b@.len(),
    {
        let take_right: bool = if b.len() == 0 {
            false
        } else if a.len() == 0 {
            true
        } else {
            !comes_before(&b[b.len() - 1], &a[a.len() - 1])
        };
        let ghost av = entries_view(a@);
        let ghost bv = entries_view(b@);
        let ghost prev = done;
        let ghost out_before = out@;
        if take_right {
            proof {
                lemma_in_order_prefix(bv);
            }
            match b.pop() {
                Some(e) => {
                    proof {
                        let x = e@;
                        assert(bv.last() == x);
                        assert(entries_view(b@) =~= bv.drop_last());
                        assert(entries_view(b@).push(x) =~= bv);
                        assert forall|i: int| 0 <= i < bv.len() - 1 implies !entry_before(
                            x,
                            #[trigger] bv[i],
                        ) by {
                            assert(!entry_before(bv[bv.len() - 1], bv[i]));
                        }
                        assert forall|i: int| 0 <= i < av.len() implies !entry_before(
                            x,
                            #[trigger] av[i],
                        ) by {
                            if i < av.len() - 1 {
                                assert(!entry_before(av[av.len() - 1], av[i]));
                            }
                            lemma_entry_order(x, av.last(), av[i]);
                        }
                        assert forall|k: int| 0 <= k < prev.len() implies !entry_before(
                            #[trigger] prev[k],
                            x,
                        ) by {
                            assert(!entry_before(prev[k], bv[bv.len() - 1]));
                        }
                        lemma_in_order_cons(x, prev);
                        lemma_entries_push(out@, e);
                        done = seq![x] + prev;
                        assert forall|c: EntryView|
                            of_rank(av, c) + of_rank(entries_view(b@), c) + #[trigger] of_rank(
                                done,
                                c,
                            ) == of_rank(a0, c) + of_rank(b0, c) by {
                            lemma_rank_move_right(av, entries_view(b@), x, prev, c);
                            assert(of_rank(av, c) + of_rank(bv, c) + of_rank(prev, c) == of_rank(
                                a0,
                                c,
                            ) + of_rank(b0, c));
                        }
                    }
                    out.push(e);
                    assert(entries_view(out@).reverse() =~= done);
                },
                None => {},
            }
        } else {
            proof {
                lemma_in_order_prefix(av);
            }
            match a.pop() {
                Some(e) => {
                    proof {
                        let x = e@;
                        assert(av.last() == x);
                        assert(entries_view(a@) =~= av.drop_last());
                        assert(entries_view(a@).push(x) =~= av);
                        assert forall|i: int| 0 <= i < av.len() - 1 implies !entry_before(
                            x,
                            #[trigger] av[i],
                        ) by {
                            assert(!entry_before(av[av.len() - 1], av[i]));
                        }
                        assert forall|i: int| 0 <= i < bv.len() implies entry_before(
                            #[trigger] bv[i],
                            x,
                        ) && !entry_before(x, bv[i]) && !same_rank(bv[i], x) by {
                            if i < bv.len() - 1 {
                                assert(!entry_before(bv[bv.len() - 1], bv[i]));
                            }
                            lemma_entry_order(bv.last(), bv[i], x);
                            lemma_entry_order(bv[i], x, bv.last());
                            lemma_entry_order(bv.last(), x, bv[i]);
                            lemma_entry_order(x, bv[i], bv.last());
                        }
                        assert forall|k: int| 0 <= k < prev.len() implies !entry_before(
                            #[trigger] prev[k],
                            x,
                        ) by {
                            assert(!entry_before(prev[k], av[av.len() - 1]));
                        }
                        lemma_in_order_cons(x, prev);
                        lemma_entries_push(out@, e);
                        done = seq![x] + prev;
                        assert forall|c: EntryView|
                            of_rank(entries_view(a@), c) + of_rank(bv, c) + #[trigger] of_rank(
                                done,
                                c,
                            ) == of_rank(a0, c) + of_rank(b0, c) by {
                            lemma_rank_move_left(entries_view(a@), bv, x, prev, c);
                            assert(of_rank(av, c) + of_rank(bv, c) + of_rank(prev, c) == of_rank(
                                a0,
                                c,
                            ) + of_rank(b0, c));
                        }
                    }
                    out.push(e);
                    assert(entries_view(out@).reverse() =~= done);
                },
                None => {},
            }
        }
    }
    proof {
        assert forall|c: EntryView| #[trigger] of_rank(done, c) == of_rank(a0 + b0, c) by {
            lemma_rank_none(entries_view(a@), c);
            lemma_rank_none(entries_view(b@), c);
            lemma_rank_concat(a0, b0, c);
            assert(of_rank(entries_view(a@), c) + of_rank(entries_view(b@), c) + of_rank(done, c)
                =~= of_rank(done, c));
        }
    }
    reversed(out)
}

/// Sorts entries into the order of compaction. Entries of equal rank keep
/// their order.
pub fn sort_entries(entries: Vec<CompactionEntry>) -> (r: Vec<CompactionEntry>)
    ensures
        is_stable_sort(entries_view(entries@), entries_view(r@)),
    decreases entries@.len(),
{
    if entries.len() <= 1 {
        return entries;
    }
    let ghost all = entries_view(entries@);
    let mut left: Vec<CompactionEntry> = entries;
    let mid: usize = left.len() / 2;
    let right: Vec<CompactionEntry> = left.split_off(mid);
    let ghost lv = entries_view(left@);
    let ghost rv = entries_view(right@);
    assert(lv + rv =~= all);
    let sl: Vec<CompactionEntry> = sort_entries(left);
    let sr: Vec<CompactionEntry> = sort_entries(right);
    let ghost slv = entries_view(sl@);
    let ghost srv = entries_view(sr@);
    let r: Vec<CompactionEntry> = merge_two(sl, sr);
    proof {
        assert forall|c: EntryView| #[trigger]
            of_rank(entries_view(r@), c) == of_rank(all, c) by {
            lemma_rank_concat(lv, rv, c);
            lemma_rank_concat(slv, srv, c);
            assert(of_rank(slv, c) == of_rank(lv, c));
            assert(of_rank(srv, c) == of_rank(rv, c));
        }
    }
    r
}

/// What comes first in a merge: the smaller key; of one key the entry of the newer
/// file, whatever the sequence numbers; and of one file the higher sequence
/// number.
pub proof fn law_newer_file_comes_first(a: EntryView, b: EntryView)
    ensures
        bytes::lex_lt(a.row.key, b.row.key) ==> entry_before(a, b) && !entry_before(b, a),
        a.row.key == b.row.key ==> (entry_before(a, b) <==> a.file_number > b.file_number
            || a.file_number == b.file_number && a.row.sequence > b.row.sequence),
        same_rank(a, b) <==> a.row.key == b.row.key && a.file_number == b.file_number
            && a.row.sequence == b.row.sequence,
{
    if bytes::lex_lt(a.row.key, b.row.key) {
        bytes::lemma_lex_asymmetric(a.row.key, b.row.key);
        bytes::lemma_lex_irreflexive(a.row.key);
    }
    if a.row.key == b.row.key {
        bytes::lemma_lex_irreflexive(a.row.key);
    }
}

proof fn lemma_count_of_rank(s: Seq<EntryView>, c: EntryView)
    ensures
        of_rank(s, c).to_multiset().count(c) == s.to_multiset().count(c),
    decreases s.len(),
{
    reveal(Seq::filter);
    let p = |e: EntryView| same_rank(e, c);
    if s.len() == 0 {
        assert(of_rank(s, c) =~= s);
    } else {
        let front = s.drop_last();
        lemma_count_of_rank(front, c);
        front.to_multiset_ensures();
        of_rank(front, c).to_multiset_ensures();
        assert(s =~= front.push(s.last()));
        assert(of_rank(s, c) == if p(s.last()) {
            of_rank(front, c).push(s.last())
        } else {
            of_rank(front, c)
        });
    }
}

/// Sorting loses no entry and makes none up: what comes out is what went in, in
/// the order of a merge.
pub proof fn law_sorting_keeps_all_entries(s: Seq<EntryView>, r: Seq<EntryView>, i: int, j: int)
    requires
        is_stable_sort(s, r),
    ensures
        r.to_multiset() == s.to_multiset(),
        0 <= i < j < r.len() ==> !bytes::lex_lt(r[j].row.key, r[i].row.key),
        0 <= i < j < r.len() && r[i].row.key == r[j].row.key ==> r[i].file_number
            > r[j].file_number || r[i].file_number == r[j].file_number && r[i].row.sequence
            >= r[j].row.sequence,
{
    assert forall|c: EntryView| r.to_multiset().count(c) == #[trigger] s.to_multiset().count(
        c,
    ) by {
        lemma_count_of_rank(s, c);
        lemma_count_of_rank(r, c);
        assert(of_rank(r, c) == of_rank(s, c));
    }
    assert(r.to_multiset() =~= s.to_multiset());
    law_newer_file_comes_first(r[j], r[i]);
    if 0 <= i < j < r.len() {
        assert(!entry_before(r[j], r[i]));
    }
}

/// Entries of one key, file and sequence number stay in the order in which they came.
pub proof fn law_sorting_is_stable(s: Seq<EntryView>, r: Seq<EntryView>, c: EntryView)
    requires
        is_stable_sort(s, r),
    ensures
        r.filter(
            |e: EntryView|
                e.row.key == c.row.key && e.file_number == c.file_number && e.row.sequence
                    == c.row.sequence,
        ) == s.filter(
            |e: EntryView|
                e.row.key == c.row.key && e.file_number == c.file_number && e.row.sequence
                    == c.row.sequence,
        ),
{
    let p = |e: EntryView|
        e.row.key == c.row.key && e.file_number == c.file_number && e.row.sequence
            == c.row.sequence;
    let q = |e: EntryView| same_rank(e, c);
    assert forall|e: EntryView| #[trigger] p(e) == q(e) by {
        law_newer_file_comes_first(e, c);
    }
    assert(p =~= q);
    assert(of_rank(r, c) == of_rank(s, c));
}

/// The number by which versions of a key are compared: the file's in the high 64 bits,
/// the sequence number in the low ones.
pub proof fn law_file_number_is_in_the_high_bits(e: EntryView)
    ensures
        effective(e) == e.file_number * 0x1_0000_0000_0000_0000 + e.row.sequence,
{
}

} // verus!
