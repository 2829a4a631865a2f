//! Pins on files: a pinned file must not be deleted.

use crate::types::FileNumber;
use std::collections::BTreeMap;
use vstd::prelude::*;

verus! {

broadcast use vstd::std_specs::btree::group_btree_axioms;

/// Counts the pins on each file.
#[derive(Debug)]
pub struct FileDeletionGuard {
    pins: BTreeMap<u64, u32>,
}

/// How often `file` occurs in `files`.
pub open spec fn occurrences(files: Seq<FileNumber>, file: FileNumber) -> nat
    decreases files.len(),
{
    if files.len() == 0 {
        0
    } else {
        occurrences(files.drop_last(), file) + if files.last() == file {
            1nat
        } else {
            0nat
        }
    }
}

proof fn lemma_occurrences_grow(files: Seq<FileNumber>, file: FileNumber, i: int, j: int)
    requires
        0 <= i <= j <= files.len(),
    ensures
        occurrences(files.take(i), file) <= occurrences(files.take(j), file),
    decreases j - i,
{
    if i < j {
        lemma_occurrences_grow(files, file, i, j - 1);
        assert(files.take(j).drop_last() =~= files.take(j - 1));
    }
}

impl FileDeletionGuard {
    /// The number of pins on `file`.
    pub closed spec fn count(&self, file: FileNumber) -> nat {
        if self.pins@.contains_key(file.0) {
            self.pins@[file.0] as nat
        } else {
            0
        }
    }

    /// No file is listed without a pin.
    pub closed spec fn wf(&self) -> bool {
        forall|k: u64| #[trigger] self.pins@.contains_key(k) ==> self.pins@[k] > 0
    }

    /// A guard without pins.
    pub fn new() -> (r: Self)
        ensures
            r.wf(),
            forall|f: FileNumber| #[trigger] r.count(f) == 0,
    {
        FileDeletionGuard { pins: BTreeMap::new() }
    }

    /// Pins a file once more.
    pub fn pin(&mut self, file: FileNumber)
        requires
            old(self).wf(),
            old(self).count(file) < u32::MAX,
        ensures
            final(self).wf(),
            forall|f: FileNumber| #[trigger]
                final(self).count(f) == old(self).count(f) + if f == file {
                    1nat
                } else {
                    0nat
                },
    {
        let n: u32 = self.pin_count(file);
        self.pins.insert(file.0, n + 1);
    }

    /// Takes one pin off a file, if it has one.
    pub fn unpin(&mut self, file: FileNumber)
        requires
            old(self).wf(),
        ensures
            final(self).wf(),
            forall|f: FileNumber| #[trigger]
                final(self).count(f) == if f == file && old(self).count(f) > 0 {
                    (old(self).count(f) - 1) as nat
                } else {
                    old(self).count(f)
                },
    {
        let n: u32 = self.pin_count(file);
        if n > 1 {
            self.pins.insert(file.0, n - 1);
        } else if n == 1 {
            self.pins.remove(&file.0);
        }
    }

    /// The number of pins on a file.
    pub fn pin_count(&self, file: FileNumber) -> (r: u32)
        ensures
            r == self.count(file),
    {
        match self.pins.get(&file.0) {
            Some(n) => *n,
            None => 0,
        }
    }

    /// Whether a file can be deleted: whether it has no pin.
    pub fn can_delete(&self, file: FileNumber) -> (r: bool)
        ensures
            r == (self.count(file) == 0),
    {
        self.pin_count(file) == 0
    }

    /// The files that are pinned, each once.
    pub fn pinned_files(&self) -> (r: Vec<FileNumber>)
        requires
            self.wf(),
        ensures
            r@.no_duplicates(),
            forall|f: FileNumber| r@.contains(f) <==> self.count(f) > 0,
    {
        let mut out: Vec<FileNumber> = Vec::new();
        let ghost keys = vstd::std_specs::btree::into_iter_keys(
            vstd::std_specs::btree::spec_keys_iter(&self.pins),
        );
        for k in it: self.pins.keys()
            invariant
                it.seq().unref() == keys,
                keys.to_set() == self.pins@.dom(),
                keys.no_duplicates(),
                out@.len() == it.index(),
                forall|i: int| 0 <= i < it.index() ==> (#[trigger] out@[i]).0 == keys[i],
        {
            assert(keys[it.index()] == *k);
            out.push(FileNumber(*k));
        }
        proof {
            assert forall|f: FileNumber| out@.contains(f) <==> self.count(f) > 0 by {
                if out@.contains(f) {
                    let i = choose|i: int| 0 <= i < out@.len() && out@[i] == f;
                    assert(keys.to_set().contains(keys[i]));
                    assert(self.pins@.contains_key(f.0));
                }
                if self.count(f) > 0 {
                    assert(keys.to_set().contains(f.0));
                    let i = choose|i: int| 0 <= i < keys.len() && keys[i] == f.0;
                    assert(out@[i].0 == f.0);
                }
            }
        }
        out
    }

    /// Pins all of `files`. The handle takes the pins off again.
    pub fn pin_batch(&mut self, files: &[FileNumber]) -> (r: PinHandle)
        requires
            old(self).wf(),
            forall|f: FileNumber| #[trigger]
                old(self).count(f) + occurrences(files@, f) <= u32::MAX,
        ensures
            final(self).wf(),
            r.pinned() == files@,
            forall|f: FileNumber| #[trigger]
                final(self).count(f) == old(self).count(f) + occurrences(files@, f),
    {
        let mut held: Vec<FileNumber> = Vec::new();
        let mut i: usize = 0;
        assert(files@.take(0) =~= Seq::<FileNumber>::empty());
        while i < files.len()
            invariant
                i <= files@.len(),
                self.wf(),
                held@ == files@.take(i as int),
                forall|f: FileNumber| #[trigger]
                    old(self).count(f) + occurrences(files@, f) <= u32::MAX,
                forall|f: FileNumber| #[trigger]
                    self.count(f) == old(self).count(f) + occurrences(files@.take(i as int), f),
            decreases files@.len() - i,
        {
            let file: FileNumber = files[i];
            proof {
                lemma_occurrences_grow(files@, file, i + 1, files@.len() as int);
                assert(files@.take(i + 1).drop_last() =~= files@.take(i as int));
                assert(files@.take(files@.len() as int) =~= files@);
                assert(old(self).count(file) + occurrences(files@, file) <= u32::MAX);
            }
            self.pin(file);
            held.push(file);
            i += 1;
            assert(held@ =~= files@.take(i as int));
        }
        assert(files@.take(i as int) =~= files@);
        PinHandle { files: held }
    }
}

impl Default for FileDeletionGuard {
    fn default() -> (r: Self)
        ensures
            r.wf(),
            forall|f: FileNumber| #[trigger] r.count(f) == 0,
    {
        FileDeletionGuard::new()
    }
}

/// The pins of a batch of files.
pub struct PinHandle {
    files: Vec<FileNumber>,
}

/// `n - m`, or 0.
pub open spec fn less(n: nat, m: nat) -> nat {
    if n >= m {
        (n - m) as nat
    } else {
        0
    }
}

impl PinHandle {
    /// The files that the handle holds pins on.
    pub closed spec fn pinned(&self) -> Seq<FileNumber> {
        self.files@
    }

    /// Takes the pins of the batch off.
    pub fn release(self, guard: &mut FileDeletionGuard)
        requires
            old(guard).wf(),
        ensures
            final(guard).wf(),
            forall|f: FileNumber| #[trigger]
                final(guard).count(f) == less(old(guard).count(f), occurrences(self.pinned(), f)),
    {
        let ghost files = self.files@;
        let mut i: usize = 0;
        assert(files.take(0) =~= Seq::<FileNumber>::empty());
        while i < self.files.len()
            invariant
                i <= files.len(),
                files == self.files@,
                guard.wf(),
                forall|f: FileNumber| #[trigger]
                    guard.count(f) == less(old(guard).count(f), occurrences(files.take(i as int), f)),
            decreases files.len() - i,
        {
            assert(files.take(i + 1).drop_last() =~= files.take(i as int));
            guard.unpin(self.files[i]);
            i += 1;
        }
        assert(files.take(i as int) =~= files);
    }

    /// The files that the handle holds pins on.
    pub fn files(&self) -> (r: &[FileNumber])
        ensures
            r@ == self.pinned(),
    {
        self.files.as_slice()
    }
}

/// Releasing a batch leaves every file with the pins it had before the batch,
/// whatever was pinned and unpinned in between that kept the batch's own pins.
pub proof fn law_release_undoes_pin_batch(
    before: spec_fn(FileNumber) -> nat,
    files: Seq<FileNumber>,
    others: spec_fn(FileNumber) -> int,
    file: FileNumber,
)
    requires
        before(file) + others(file) >= 0,
    ensures
        less((before(file) + occurrences(files, file) + others(file)) as nat, occurrences(files, file))
            == before(file) + others(file),
{
}

/// Files are counted one by one, each as often as it occurs.
pub proof fn law_occurrences_are_counted(
    files: Seq<FileNumber>,
    last: FileNumber,
    file: FileNumber,
)
    ensures
        occurrences(Seq::empty(), file) == 0,
        occurrences(files.push(last), file) == occurrences(files, file) + if last == file {
            1int
        } else {
            0
        },
        occurrences(files, file) > 0 <==> files.contains(file),
    decreases files.len(),
{
    assert(files.push(last).drop_last() =~= files);
    if files.len() > 0 {
        let front = files.drop_last();
        law_occurrences_are_counted(front, last, file);
        assert(front.push(files.last()) =~= files);
        if files.contains(file) && files.last() != file {
            let i = files.index_of(file);
            assert(front[i] == file);
        }
        if front.contains(file) {
            let i = front.index_of(file);
            assert(files[i] == file);
        }
        assert(files[files.len() - 1] == files.last());
    }
}

/// Taking pins away stops at none.
pub proof fn law_pins_do_not_go_below_none(n: nat, m: nat)
    ensures
        m <= n ==> less(n, m) + m == n,
        m >= n ==> less(n, m) == 0,
{
}

} // verus!
