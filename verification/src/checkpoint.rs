//! Checkpoints: which files are copied and where to, how a copy or a blob is
//! published, and the trailer that carries the file mapping.

use crate::bytes::{append_bytes, bytes_equal};
use crate::checksum;
use crate::checksum::crc32c;
use crate::coding;
use crate::coding::{get_le, put_le};
use crate::error::{corruption_text, invalid_argument_text, ErrorKind, ForstError, ForstResult};
use crate::flags;
use crate::flags::{parse_number, same_text, trim};
use crate::flush;
use crate::flush::{output_target, WriteMode};
use crate::paths;
use crate::paths::{is_nameless, join, parent_dir, sst_file_path};
use crate::types::FileNumber;
use crate::text;
use crate::text::push_decimal;
use crate::version::SstFileMeta;
use vstd::prelude::*;
use vstd::slice::slice_subrange;
use vstd::string::*;

verus! {

/// Name of the file that holds the blob of a checkpoint.
pub const CHECKPOINT_BLOB_NAME: &'static str = "CHECKPOINT.blob";

/// Name under which the blob is written before it is published.
pub const CHECKPOINT_BLOB_TMP_NAME: &'static str = ".CHECKPOINT.blob.tmp";

/// The largest blob that is read.
pub const MAX_CHECKPOINT_BLOB_SIZE: u64 = 104_857_600;

/// Size of the pieces in which files are copied.
pub const COPY_CHUNK: usize = 65_536;

/// What a checkpoint consists of.
#[derive(Debug, Clone)]
pub struct CheckpointManifest {
    /// Directory of the checkpoint.
    pub target_dir: String,
    /// The files that were copied.
    pub sst_files: Vec<String>,
    /// Number of bytes written.
    pub total_bytes: u64,
}

/// The last four bytes of a blob with a trailer, lowest first: `FRMT`.
pub const MAPPING_TRAILER_MAGIC: u32 = 0x544d_5246;

/// The trailer for a mapping: the mapping, its checksum, its length in 32 bits
/// and the magic number.
pub open spec fn trailer(mapping: Seq<u8>) -> Seq<u8> {
    mapping + (coding::le_bytes(checksum::checksum(mapping) as nat, 4) + (coding::le_bytes(
        (mapping.len() as u32) as nat,
        4,
    ) + coding::le_bytes(MAPPING_TRAILER_MAGIC as nat, 4)))
}

/// What a blob splits into, or the complaint about it.
pub enum SplitView {
    /// The blob proper, and the mapping if there is a trailer.
    Parts(Seq<u8>, Option<Seq<u8>>),
    /// The trailer gives a mapping of `n` bytes, which is longer than the blob.
    TooLong(nat),
    /// The mapping does not have the checksum that the trailer gives.
    BadChecksum,
}

/// The number in the four bytes of `data` that end `back` bytes before its end.
pub open spec fn tail_number(data: Seq<u8>, back: int) -> nat {
    coding::le_value(data.subrange(data.len() - back - 4, data.len() - back))
}

/// What a blob splits into.
pub open spec fn split(data: Seq<u8>) -> SplitView {
    if data.len() < 12 || tail_number(data, 0) != MAPPING_TRAILER_MAGIC {
        SplitView::Parts(data, None)
    } else {
        let n = tail_number(data, 4);
        let start = data.len() - 12 - n;
        let mapping = data.subrange(start, start + n);
        if data.len() < n + 12 {
            SplitView::TooLong(n)
        } else if tail_number(data, 8) != checksum::checksum(mapping) {
            SplitView::BadChecksum
        } else {
            SplitView::Parts(data.take(start), Some(mapping))
        }
    }
}

/// Appends the trailer for a mapping to a blob.
pub fn append_mapping_trailer(blob: &mut Vec<u8>, mapping: &[u8])
    ensures
        final(blob)@ == old(blob)@ + trailer(mapping@),
{
    append_bytes(blob, mapping);
    put_le(blob, crc32c(mapping) as u64, 4);
    let n: u32 = mapping.len() as u32;
    put_le(blob, n as u64, 4);
    put_le(blob, MAPPING_TRAILER_MAGIC as u64, 4);
    assert(blob@ =~= old(blob)@ + trailer(mapping@));
}

/// The number in four bytes from `at` on.
fn read_u32(data: &[u8], at: usize) -> (r: u64)
    requires
        at + 4 <= data@.len(),
    ensures
        r == coding::le_value(data@.subrange(at as int, at + 4)),
        r <= u32::MAX,
{
    proof {
        coding::lemma_fixed_widths();
    }
    get_le(data, at, 4)
}

/// The contents of what a blob splits into.
pub open spec fn opt_slice(v: Option<&[u8]>) -> Option<Seq<u8>> {
    match v {
        Some(s) => Some(s@),
        None => None,
    }
}

/// Splits a blob into the blob proper and the mapping that its trailer
/// carries, if it has a trailer.
pub fn split_mapping_trailer(data: &[u8]) -> (r: ForstResult<(&[u8], Option<&[u8]>)>)
    ensures
        match split(data@) {
            SplitView::Parts(base, mapping) => r matches Ok((b, m)) && b@ == base && opt_slice(m)
                == mapping,
            SplitView::TooLong(n) => r matches Err(e) && e.says(
                ErrorKind::Corruption,
                "mapping trailer payload_len "@ + text::decimal(n) + " exceeds blob size "@
                    + text::decimal(data@.len()),
            ),
            SplitView::BadChecksum => r matches Err(e) && e.says(
                ErrorKind::Corruption,
                "mapping trailer checksum mismatch"@,
            ),
        },
{
    let len: usize = data.len();
    if len < 12 || read_u32(data, len - 4) != MAPPING_TRAILER_MAGIC as u64 {
        return Ok((data, None));
    }
    let n: u64 = read_u32(data, len - 8);
    if ((len - 12) as u64) < n {
        let mut m: String = String::new();
        m.append("mapping trailer payload_len ");
        push_decimal(&mut m, n);
        m.append(" exceeds blob size ");
        push_decimal(&mut m, len as u64);
        assert(m@ =~= "mapping trailer payload_len "@ + text::decimal(n as nat)
            + " exceeds blob size "@ + text::decimal(data@.len()));
        return Err(ForstError::Corruption(m));
    }
    let start: usize = len - 12 - n as usize;
    let mapping: &[u8] = slice_subrange(data, start, start + n as usize);
    if read_u32(data, len - 12) != crc32c(mapping) as u64 {
        return Err(corruption_text("mapping trailer checksum mismatch"));
    }
    let base: &[u8] = slice_subrange(data, 0, start);
    assert(base@ =~= data@.take(start as int));
    Ok((base, Some(mapping)))
}

/// Splitting undoes appending.
pub proof fn law_trailer_round_trip(blob: Seq<u8>, mapping: Seq<u8>)
    requires
        mapping.len() <= u32::MAX,
    ensures
        split(blob + trailer(mapping)) == SplitView::Parts(blob, Some(mapping)),
{
    let d = blob + trailer(mapping);
    let n = mapping.len();
    coding::lemma_fixed_widths();
    let crc = coding::le_bytes(checksum::checksum(mapping) as nat, 4);
    let size = coding::le_bytes(n, 4);
    let magic = coding::le_bytes(MAPPING_TRAILER_MAGIC as nat, 4);
    coding::law_fixed_round_trip(checksum::checksum(mapping) as nat, 4);
    coding::law_fixed_round_trip(n, 4);
    coding::law_fixed_round_trip(MAPPING_TRAILER_MAGIC as nat, 4);
    assert(d.len() == blob.len() + n + 12);
    assert(d.subrange(d.len() - 4, d.len() as int) =~= magic);
    assert(d.subrange(d.len() - 8, d.len() - 4) =~= size);
    assert(d.subrange(d.len() - 12, d.len() - 8) =~= crc);
    let start = d.len() - 12 - n;
    assert(d.subrange(start, start + n) =~= mapping);
    assert(d.take(start) =~= blob);
}

/// A blob that does not end in the magic number passes unchanged.
pub proof fn law_blob_without_trailer_passes(data: Seq<u8>)
    requires
        data.len() < 4 || data.skip(data.len() - 4) != coding::le_bytes(
            MAPPING_TRAILER_MAGIC as nat,
            4,
        ),
    ensures
        split(data) == SplitView::Parts(data, None),
{
    if data.len() >= 12 {
        let tail = data.subrange(data.len() - 4, data.len() as int);
        assert(tail =~= data.skip(data.len() - 4));
        coding::law_fixed_canonical(tail);
    }
}

/// How many workers copy files: none for a setting that turns it off, 8 for one
/// that turns it on, else the number that it gives.
pub open spec fn upload_workers(raw: Option<&str>) -> Option<u64> {
    match raw {
        None => None,
        Some(s) => {
            let v = flags::trimmed(s@);
            if v == ""@ || v == "0"@ || v == "false"@ || v == "off"@ || v == "no"@ {
                None
            } else if v == "1"@ || v == "true"@ || v == "on"@ || v == "yes"@ {
                Some(CKPT_PARALLEL_UPLOAD_DEFAULT as u64)
            } else {
                match flags::number(v) {
                    Some(n) => if 0 < n <= usize::MAX {
                        Some(n)
                    } else {
                        None
                    },
                    None => None,
                }
            }
        },
    }
}

/// The number of workers where the setting just turns them on.
pub const CKPT_PARALLEL_UPLOAD_DEFAULT: usize = 8;

/// How many workers copy files, if they are copied in parallel.
pub fn ckpt_parallel_upload_workers(raw: Option<&str>) -> (r: Option<usize>)
    ensures
        match r {
            Some(n) => upload_workers(raw) == Some(n as u64),
            None => upload_workers(raw) is None,
        },
{
    match raw {
        None => None,
        Some(s) => {
            let v: &str = trim(s);
            if same_text(v, "") || same_text(v, "0") || same_text(v, "false") || same_text(v, "off")
                || same_text(v, "no") {
                None
            } else if same_text(v, "1") || same_text(v, "true") || same_text(v, "on") || same_text(
                v,
                "yes",
            ) {
                Some(CKPT_PARALLEL_UPLOAD_DEFAULT)
            } else {
                match parse_number(v) {
                    Some(n) => if 0 < n && n <= usize::MAX as u64 {
                        Some(n as usize)
                    } else {
                        None
                    },
                    None => None,
                }
            }
        },
    }
}

/// The workers for `files` files: none if one at a time is enough, and no more
/// than there are files.
pub fn copy_fan_out(files: usize, workers: usize) -> (r: Option<usize>)
    ensures
        r == if files <= 1 || workers <= 1 {
            None
        } else if workers <= files {
            Some(workers)
        } else {
            Some(files)
        },
{
    if files <= 1 || workers <= 1 {
        None
    } else if workers <= files {
        Some(workers)
    } else {
        Some(files)
    }
}

/// One file to copy.
#[derive(Debug, Clone, PartialEq, Eq)]
pub struct CopyPair {
    pub number: FileNumber,
    pub src: String,
    pub dst: String,
}

/// The numbers of several files.
pub open spec fn file_numbers(live: Seq<SstFileMeta>) -> Seq<u64> {
    Seq::new(live.len(), |i: int| live[i].file_number.0)
}

/// The numbers of several copies.
pub open spec fn pair_numbers(pairs: Seq<CopyPair>) -> Seq<u64> {
    Seq::new(pairs.len(), |i: int| pairs[i].number.0)
}

/// Each number is at least the one before it.
pub open spec fn ascending(s: Seq<u64>) -> bool {
    forall|i: int, j: int| 0 <= i < j < s.len() ==> s[i] <= s[j]
}

/// `p` is the copy of its file from one directory to the other.
pub open spec fn is_copy(p: CopyPair, source_dir: Seq<char>, target_dir: Seq<char>) -> bool {
    &&& p.src@ == paths::joined(source_dir, paths::sst_name(p.number))
    &&& p.dst@ == paths::joined(target_dir, paths::sst_name(p.number))
}

/// `pairs` are the copies of the files of `live`, by ascending number.
pub open spec fn copies_of(
    pairs: Seq<CopyPair>,
    source_dir: Seq<char>,
    target_dir: Seq<char>,
    live: Seq<SstFileMeta>,
) -> bool {
    &&& ascending(pair_numbers(pairs))
    &&& pair_numbers(pairs).to_multiset() == file_numbers(live).to_multiset()
    &&& forall|i: int|
        0 <= i < pairs.len() ==> is_copy(#[trigger] pairs[i], source_dir, target_dir)
}

/// The numbers of the files of `live`, ascending.
fn sorted_numbers(live: &[SstFileMeta]) -> (r: Vec<u64>)
    ensures
        ascending(r@),
        r@.to_multiset() == file_numbers(live@).to_multiset(),
{
    let mut out: Vec<u64> = Vec::new();
    let mut n: usize = 0;
    let ghost all = file_numbers(live@);
    assert(out@ =~= all.take(0));
    while n < live.len()
        invariant
            n <= live@.len(),
            all == file_numbers(live@),
            ascending(out@),
            out@.to_multiset() == all.take(n as int).to_multiset(),
        decreases live@.len() - n,
    {
        let number: u64 = live[n].file_number.0;
        let ghost before = out@;
        let mut i: usize = out.len();
        while i > 0 && out[i - 1] > number
            invariant
                i <= out@.len(),
                out@ == before,
                forall|k: int| i <= k < out@.len() ==> #[trigger] out@[k] > number,
            decreases i,
        {
            i -= 1;
        }
        out.insert(i, number);
        proof {
            let at = i as int;
            let after = before.insert(at, number);
            assert(out@ == after);
            assert(after.remove(at) =~= before);
            after.to_multiset_ensures();
            assert(after[at] == number);
            assert(after.contains(number));
            assert(after.to_multiset() =~= before.to_multiset().insert(number));
            all.take(n as int).to_multiset_ensures();
            assert(all.take(n + 1) =~= all.take(n as int).push(number));
            assert forall|a: int, b: int| 0 <= a < b < after.len() implies after[a] <= after[b] by {
                let x = if a < at {
                    a
                } else {
                    a - 1
                };
                let y = if b < at {
                    b
                } else {
                    b - 1
                };
                if a != at && b != at {
                    assert(before[x] <= before[y]);
                } else if a == at {
                    assert(before[y] > number);
                } else if at > 0 {
                    assert(before[at - 1] <= number);
                    assert(before[x] <= before[at - 1]);
                }
            }
        }
        n += 1;
    }
    assert(all.take(n as int) =~= all);
    out
}

/// Where the files of `live` are copied from and to, by ascending number.
pub fn copy_pairs(source_dir: &str, target_dir: &str, live: &[SstFileMeta]) -> (r: Vec<CopyPair>)
    ensures
        copies_of(r@, source_dir@, target_dir@, live@),
{
    let numbers: Vec<u64> = sorted_numbers(live);
    let mut out: Vec<CopyPair> = Vec::new();
    let mut i: usize = 0;
    while i < numbers.len()
        invariant
            i <= numbers@.len(),
            pair_numbers(out@) == numbers@.take(i as int),
            forall|k: int|
                0 <= k < out@.len() ==> is_copy(#[trigger] out@[k], source_dir@, target_dir@),
        decreases numbers@.len() - i,
    {
        let number: FileNumber = FileNumber(numbers[i]);
        let ghost before = out@;
        out.push(
            CopyPair {
                number,
                src: sst_file_path(source_dir, number),
                dst: sst_file_path(target_dir, number),
            },
        );
        i += 1;
        assert(pair_numbers(out@) =~= pair_numbers(before).push(number.0));
        assert(pair_numbers(out@) =~= numbers@.take(i as int));
    }
    assert(numbers@.take(i as int) =~= numbers@);
    out
}

/// A file that has been copied, or the failure to do so.
pub struct CopyResult {
    pub number: FileNumber,
    pub dst: String,
    pub outcome: ForstResult<u64>,
}

/// A number with a path.
pub open spec fn numbered(done: Seq<CopyResult>) -> Seq<(u64, Seq<char>)> {
    Seq::new(done.len(), |i: int| (done[i].number.0, done[i].dst@))
}

/// The contents of numbered paths.
pub open spec fn pairs_view(v: Seq<(u64, String)>) -> Seq<(u64, Seq<char>)> {
    Seq::new(v.len(), |i: int| (v[i].0, v[i].1@))
}

/// The paths alone.
pub open spec fn paths_of(v: Seq<(u64, Seq<char>)>) -> Seq<Seq<char>> {
    Seq::new(v.len(), |i: int| v[i].1)
}

/// The contents of several paths.
pub open spec fn texts(v: Seq<String>) -> Seq<Seq<char>> {
    Seq::new(v.len(), |i: int| v[i]@)
}

/// The bytes of the copies that succeeded.
pub open spec fn bytes_copied(done: Seq<CopyResult>) -> nat
    decreases done.len(),
{
    if done.len() == 0 {
        0
    } else {
        bytes_copied(done.drop_last()) + match done.last().outcome {
            Ok(n) => n as nat,
            Err(_) => 0,
        }
    }
}

/// All of the copies succeeded.
pub open spec fn all_copied(done: Seq<CopyResult>) -> bool {
    forall|i: int| 0 <= i < done.len() ==> (#[trigger] done[i]).outcome is Ok
}

/// `e` is the first failure.
pub open spec fn first_failure(done: Seq<CopyResult>, e: ForstError) -> bool {
    exists|i: int|
        0 <= i < done.len() && (#[trigger] done[i]).outcome == Err::<u64, ForstError>(e)
            && all_copied(done.take(i))
}

/// `sorted` holds what `all` holds, by ascending number; those of one number
/// stay in order.
pub open spec fn sorted_by_number(
    sorted: Seq<(u64, Seq<char>)>,
    all: Seq<(u64, Seq<char>)>,
) -> bool {
    &&& forall|i: int, j: int| 0 <= i < j < sorted.len() ==> sorted[i].0 <= sorted[j].0
    &&& sorted.to_multiset() == all.to_multiset()
    &&& forall|n: u64| of_number(sorted, n) == #[trigger] of_number(all, n)
}

/// Those with number `n`.
pub open spec fn of_number(v: Seq<(u64, Seq<char>)>, n: u64) -> Seq<(u64, Seq<char>)> {
    v.filter(has_number(n))
}

/// The test for number `n`.
pub open spec fn has_number(n: u64) -> spec_fn((u64, Seq<char>)) -> bool {
    |x: (u64, Seq<char>)| x.0 == n
}

proof fn lemma_insert_parts(s: Seq<(u64, Seq<char>)>, i: int, x: (u64, Seq<char>))
    requires
        0 <= i <= s.len(),
    ensures
        s.insert(i, x) == s.take(i) + (seq![x] + s.skip(i)),
        s.insert(i, x).to_multiset() == s.to_multiset().insert(x),
{
    assert(s.insert(i, x) =~= s.take(i) + (seq![x] + s.skip(i)));
    s.insert(i, x).to_multiset_ensures();
    assert(s.insert(i, x).remove(i) =~= s);
    assert(s.insert(i, x).to_multiset().remove(x) == s.to_multiset());
    assert(s.insert(i, x).contains(x)) by {
        assert(s.insert(i, x)[i] == x);
    }
    assert(s.insert(i, x).to_multiset() =~= s.to_multiset().insert(x));
}

proof fn lemma_insert_filter(s: Seq<(u64, Seq<char>)>, i: int, x: (u64, Seq<char>), n: u64)
    requires
        0 <= i <= s.len(),
        forall|k: int| i <= k < s.len() ==> (#[trigger] s[k]).0 != x.0,
    ensures
        of_number(s.insert(i, x), n) == if x.0 == n {
            of_number(s, n).push(x)
        } else {
            of_number(s, n)
        },
{
    let p = has_number(n);
    let a = s.take(i);
    let b = s.skip(i);
    lemma_insert_parts(s, i, x);
    Seq::filter_distributes_over_add(a, seq![x] + b, p);
    Seq::filter_distributes_over_add(seq![x], b, p);
    Seq::filter_distributes_over_add(a, b, p);
    assert(a + b =~= s);
    reveal_with_fuel(Seq::filter, 2);
    assert(seq![x].drop_last() =~= Seq::<(u64, Seq<char>)>::empty());
    assert(seq![x].filter(p) =~= if p(x) {
        seq![x]
    } else {
        Seq::empty()
    });
    if p(x) {
        lemma_filter_none(b, p);
        assert(a.filter(p) + (seq![x] + b.filter(p)) =~= (a.filter(p) + b.filter(p)).push(x));
    } else {
        assert(a.filter(p) + (seq![x].filter(p) + b.filter(p)) =~= a.filter(p) + b.filter(p));
    }
}

proof fn lemma_filter_none(s: Seq<(u64, Seq<char>)>, p: spec_fn((u64, Seq<char>)) -> bool)
    requires
        forall|k: int| 0 <= k < s.len() ==> !p(#[trigger] s[k]),
    ensures
        s.filter(p) == Seq::<(u64, Seq<char>)>::empty(),
    decreases s.len(),
{
    reveal(Seq::filter);
    if s.len() > 0 {
        lemma_filter_none(s.drop_last(), p);
    }
}

/// Adds `(number, path)` to pairs sorted by number, after those of the same
/// number.
fn insert_by_number(out: &mut Vec<(u64, String)>, number: u64, path: String)
    requires
        forall|i: int, j: int| 0 <= i < j < old(out)@.len() ==> old(out)@[i].0 <= old(out)@[j].0,
    ensures
        exists|i: int|
            0 <= i <= old(out)@.len() && (forall|k: int|
                0 <= k < i ==> (#[trigger] old(out)@[k]).0 <= number) && (forall|k: int|
                i <= k < old(out)@.len() ==> (#[trigger] old(out)@[k]).0 > number)
                && pairs_view(final(out)@) == #[trigger] pairs_view(old(out)@).insert(
                i,
                (number, path@),
            ),
{
    let ghost before = out@;
    let mut i: usize = out.len();
    while i > 0 && out[i - 1].0 > number
        invariant
            i <= out@.len(),
            out@ == before,
            forall|k: int| i <= k < out@.len() ==> (#[trigger] out@[k]).0 > number,
        decreases i,
    {
        i -= 1;
    }
    let ghost at = i as int;
    let ghost text = path@;
    out.insert(i, (number, path));
    assert(pairs_view(out@) =~= pairs_view(before).insert(at, (number, text)));
}

proof fn lemma_bytes_grow(done: Seq<CopyResult>, i: int, j: int)
    requires
        0 <= i <= j <= done.len(),
    ensures
        bytes_copied(done.take(i)) <= bytes_copied(done.take(j)),
    decreases j - i,
{
    if i < j {
        lemma_bytes_grow(done, i, j - 1);
        assert(done.take(j).drop_last() =~= done.take(j - 1));
    }
}

/// The bytes and the paths of copies made one after another, or the failure
/// that ended them.
pub fn collect_serial(done: Vec<CopyResult>) -> (r: ForstResult<(u64, Vec<String>)>)
    requires
        bytes_copied(done@) <= u64::MAX,
    ensures
        match r {
            Ok((total, files)) => all_copied(done@) && total == bytes_copied(done@) && texts(files@)
                == paths_of(numbered(done@)),
            Err(e) => first_failure(done@, e),
        },
{
    let ghost all = done@;
    let mut rest: Vec<CopyResult> = done;
    let mut total: u64 = 0;
    let mut files: Vec<String> = Vec::new();
    let ghost mut k: int = 0;
    assert(all.skip(0) =~= all);
    assert(all.take(0) =~= Seq::<CopyResult>::empty());
    while rest.len() > 0
        invariant
            all == done@,
            0 <= k <= all.len(),
            rest@ == all.skip(k),
            bytes_copied(all) <= u64::MAX,
            all_copied(all.take(k)),
            total == bytes_copied(all.take(k)),
            texts(files@) == paths_of(numbered(all)).take(k),
        decreases rest@.len(),
    {
        let c: CopyResult = rest.remove(0);
        proof {
            assert(c == all[k]);
            assert(all.take(k + 1).drop_last() =~= all.take(k));
            lemma_bytes_grow(all, k + 1, all.len() as int);
            assert(all.take(all.len() as int) =~= all);
        }
        match c.outcome {
            Err(e) => {
                assert(all[k].outcome == Err::<u64, ForstError>(e));
                return Err(e);
            },
            Ok(n) => {
                let ghost before = files@;
                let ghost dst = c.dst@;
                total += n;
                files.push(c.dst);
                proof {
                    k = k + 1;
                    assert(rest@ =~= all.skip(k));
                    assert forall|i: int| 0 <= i < k implies (#[trigger] all.take(k)[i]).outcome is Ok by {
                        if i < k - 1 {
                            assert(all.take(k - 1)[i].outcome is Ok);
                        }
                    }
                    assert(texts(files@) =~= texts(before).push(dst));
                    assert(texts(files@) =~= paths_of(numbered(all)).take(k));
                }
            },
        }
    }
    proof {
        assert(k == all.len());
        assert(all.take(k) =~= all);
        assert(paths_of(numbered(all)).take(k) =~= paths_of(numbered(all)));
    }
    Ok((total, files))
}

/// The bytes and the paths of copies in the order in which they ended, the
/// paths by ascending number; or the failure that came first.
pub fn collect_parallel(done: Vec<CopyResult>) -> (r: ForstResult<(u64, Vec<String>)>)
    requires
        bytes_copied(done@) <= u64::MAX,
    ensures
        match r {
            Ok((total, files)) => all_copied(done@) && total == bytes_copied(done@) && exists|
                s: Seq<(u64, Seq<char>)>,
            | #[trigger]
                sorted_by_number(s, numbered(done@)) && texts(files@) == paths_of(s),
            Err(e) => first_failure(done@, e),
        },
{
    let ghost all = done@;
    let ghost pairs = numbered(all);
    let mut rest: Vec<CopyResult> = done;
    let mut total: u64 = 0;
    let mut sorted: Vec<(u64, String)> = Vec::new();
    let ghost mut k: int = 0;
    proof {
        assert(all.skip(0) =~= all);
        assert(all.take(0) =~= Seq::<CopyResult>::empty());
        assert(pairs_view(sorted@) =~= pairs.take(0));
    }
    while rest.len() > 0
        invariant
            all == done@,
            0 <= k <= all.len(),
            rest@ == all.skip(k),
            pairs == numbered(all),
            bytes_copied(all) <= u64::MAX,
            all_copied(all.take(k)),
            total == bytes_copied(all.take(k)),
            sorted_by_number(pairs_view(sorted@), pairs.take(k)),
        decreases rest@.len(),
    {
        let c: CopyResult = rest.remove(0);
        proof {
            assert(c == all[k]);
            assert(all.take(k + 1).drop_last() =~= all.take(k));
            lemma_bytes_grow(all, k + 1, all.len() as int);
            assert(all.take(all.len() as int) =~= all);
        }
        match c.outcome {
            Err(e) => {
                assert(all[k].outcome == Err::<u64, ForstError>(e));
                return Err(e);
            },
            Ok(n) => {
                let ghost before = pairs_view(sorted@);
                let ghost raw = sorted@;
                let ghost x = (c.number.0, c.dst@);
                total += n;
                assert forall|i: int, j: int| 0 <= i < j < raw.len() implies raw[i].0 <= raw[j].0 by {
                    assert(before[i].0 <= before[j].0);
                }
                insert_by_number(&mut sorted, c.number.0, c.dst);
                proof {
                    let at = choose|i: int|
                        0 <= i <= raw.len() && (forall|q: int|
                            0 <= q < i ==> (#[trigger] raw[q]).0 <= x.0) && (forall|q: int|
                            i <= q < raw.len() ==> (#[trigger] raw[q]).0 > x.0) && pairs_view(
                            sorted@,
                        ) == #[trigger] before.insert(i, x);
                    lemma_step(before, pairs.take(k), at, x);
                    assert(pairs.take(k + 1) =~= pairs.take(k).push(x));
                    k = k + 1;
                    assert(rest@ =~= all.skip(k));
                    assert forall|i: int| 0 <= i < k implies (#[trigger] all.take(k)[i]).outcome is Ok by {
                        if i < k - 1 {
                            assert(all.take(k - 1)[i].outcome is Ok);
                        }
                    }
                }
            },
        }
    }
    proof {
        assert(all.take(k) =~= all);
        assert(pairs.take(k) =~= pairs);
    }
    let ghost s = pairs_view(sorted@);
    let mut files: Vec<String> = Vec::new();
    let mut i: usize = 0;
    while i < sorted.len()
        invariant
            i <= sorted@.len(),
            s == pairs_view(sorted@),
            texts(files@) == paths_of(s).take(i as int),
        decreases sorted@.len() - i,
    {
        let ghost before = files@;
        let p: String = sorted[i].1.clone();
        let ghost pv = p@;
        files.push(p);
        i += 1;
        proof {
            assert(texts(files@) =~= texts(before).push(pv));
            assert(texts(files@) =~= paths_of(s).take(i as int));
        }
    }
    assert(paths_of(s).take(i as int) =~= paths_of(s));
    Ok((total, files))
}

proof fn lemma_step(
    s: Seq<(u64, Seq<char>)>,
    all: Seq<(u64, Seq<char>)>,
    at: int,
    x: (u64, Seq<char>),
)
    requires
        sorted_by_number(s, all),
        0 <= at <= s.len(),
        forall|q: int| 0 <= q < at ==> (#[trigger] s[q]).0 <= x.0,
        forall|q: int| at <= q < s.len() ==> (#[trigger] s[q]).0 > x.0,
    ensures
        sorted_by_number(s.insert(at, x), all.push(x)),
{
    let t = s.insert(at, x);
    lemma_insert_parts(s, at, x);
    all.to_multiset_ensures();
    assert(t.to_multiset() =~= all.push(x).to_multiset());
    assert forall|i: int, j: int| 0 <= i < j < t.len() implies t[i].0 <= t[j].0 by {
        let a = if i < at {
            i
        } else {
            i - 1
        };
        let b = if j < at {
            j
        } else {
            j - 1
        };
        if i != at && j != at {
            assert(s[a].0 <= s[b].0);
        } else if i == at {
            assert(s[b].0 > x.0);
        } else {
            assert(s[a].0 <= x.0);
        }
    }
    assert forall|n: u64| of_number(t, n) == #[trigger] of_number(all.push(x), n) by {
        lemma_insert_filter(s, at, x, n);
        assert(of_number(s, n) == of_number(all, n));
        reveal(Seq::filter);
        assert(all.push(x).drop_last() =~= all);
    }
}

/// Which files are copied, and in which order, depends on their numbers alone,
/// not on the directories nor on the order of `live`.
pub proof fn law_copy_order_is_fixed(
    a: Seq<CopyPair>,
    b: Seq<CopyPair>,
    a_source: Seq<char>,
    a_target: Seq<char>,
    b_source: Seq<char>,
    b_target: Seq<char>,
    live: Seq<SstFileMeta>,
    shuffled: Seq<SstFileMeta>,
)
    requires
        copies_of(a, a_source, a_target, live),
        copies_of(b, b_source, b_target, shuffled),
        file_numbers(live).to_multiset() == file_numbers(shuffled).to_multiset(),
    ensures
        pair_numbers(a) == pair_numbers(b),
{
    let leq = |x: u64, y: u64| x <= y;
    assert(vstd::relations::sorted_by(pair_numbers(a), leq));
    assert(vstd::relations::sorted_by(pair_numbers(b), leq));
    vstd::seq_lib::lemma_sorted_unique(pair_numbers(a), pair_numbers(b), leq);
}

/// `done` holds the outcome of each copy of `pairs`, in order.
pub open spec fn answers(done: Seq<CopyResult>, pairs: Seq<CopyPair>) -> bool {
    &&& done.len() == pairs.len()
    &&& forall|i: int|
        0 <= i < done.len() ==> (#[trigger] done[i]).number == pairs[i].number && done[i].dst@
            == pairs[i].dst@
}

/// The copies succeeded and failed alike, with the same numbers of bytes.
pub open spec fn same_outcomes(a: Seq<CopyResult>, b: Seq<CopyResult>) -> bool {
    &&& a.len() == b.len()
    &&& forall|i: int|
        0 <= i < a.len() ==> match ((#[trigger] a[i]).outcome, b[i].outcome) {
            (Ok(n), Ok(m)) => n == m,
            (Err(_), Err(_)) => true,
            _ => false,
        }
}

/// Copies that end in any order give the manifest and the number of bytes that
/// copies of the same files give when they are made one after another: the same
/// files in the same order, each under its own directory.
pub proof fn law_parallel_manifest_is_serial(
    source_dir: Seq<char>,
    serial_dir: Seq<char>,
    parallel_dir: Seq<char>,
    live: Seq<SstFileMeta>,
    one: Seq<CopyPair>,
    many: Seq<CopyPair>,
    serial: Seq<CopyResult>,
    parallel: Seq<CopyResult>,
    ended: Seq<CopyResult>,
    sorted: Seq<(u64, Seq<char>)>,
)
    requires
        copies_of(one, source_dir, serial_dir, live),
        copies_of(many, source_dir, parallel_dir, live),
        answers(serial, one),
        answers(parallel, many),
        same_outcomes(serial, parallel),
        ended.to_multiset() == parallel.to_multiset(),
        sorted_by_number(sorted, numbered(ended)),
    ensures
        all_copied(ended) == all_copied(serial),
        bytes_copied(ended) == bytes_copied(serial),
        paths_of(numbered(serial)) == Seq::new(
            one.len(),
            |i: int| paths::joined(serial_dir, paths::sst_name(one[i].number)),
        ),
        paths_of(sorted) == Seq::new(
            one.len(),
            |i: int| paths::joined(parallel_dir, paths::sst_name(one[i].number)),
        ),
{
    lemma_any_order(source_dir, parallel_dir, live, many, parallel, ended, sorted);
    law_copy_order_is_fixed(
        one,
        many,
        source_dir,
        serial_dir,
        source_dir,
        parallel_dir,
        live,
        live,
    );
    lemma_bytes_alike(serial, parallel);
    assert(all_copied(serial) == all_copied(parallel)) by {
        if all_copied(parallel) {
            assert forall|i: int| 0 <= i < serial.len() implies (#[trigger] serial[i]).outcome is Ok by {
                assert(parallel[i].outcome is Ok);
            }
        }
        if all_copied(serial) {
            assert forall|i: int| 0 <= i < parallel.len() implies (
            #[trigger] parallel[i]).outcome is Ok by {
                assert(serial[i].outcome is Ok);
            }
        }
    }
    assert forall|i: int| 0 <= i < one.len() implies many[i].number == #[trigger] one[i].number by {
        assert(pair_numbers(one)[i] == pair_numbers(many)[i]);
    }
    assert(paths_of(numbered(serial)) =~= Seq::new(
        one.len(),
        |i: int| paths::joined(serial_dir, paths::sst_name(one[i].number)),
    )) by {
        assert forall|i: int| 0 <= i < one.len() implies #[trigger] serial[i].dst@ == paths::joined(
            serial_dir,
            paths::sst_name(one[i].number),
        ) by {
            assert(is_copy(one[i], source_dir, serial_dir));
        }
    }
    assert(paths_of(sorted) =~= Seq::new(
        one.len(),
        |i: int| paths::joined(parallel_dir, paths::sst_name(one[i].number)),
    )) by {
        assert forall|i: int| 0 <= i < one.len() implies #[trigger] paths_of(sorted)[i]
            == paths::joined(parallel_dir, paths::sst_name(one[i].number)) by {
            assert(is_copy(many[i], source_dir, parallel_dir));
            assert(one[i].number == many[i].number);
            assert(parallel[i].dst@ == many[i].dst@);
            assert(paths_of(numbered(parallel))[i] == parallel[i].dst@);
        }
    }
}

proof fn lemma_bytes_alike(a: Seq<CopyResult>, b: Seq<CopyResult>)
    requires
        same_outcomes(a, b),
    ensures
        bytes_copied(a) == bytes_copied(b),
    decreases a.len(),
{
    if a.len() > 0 {
        let last = a.len() - 1;
        assert(bytes_of(a[last]) == bytes_of(b[last]));
        assert forall|i: int| 0 <= i < last implies match (
            (#[trigger] a.drop_last()[i]).outcome,
            b.drop_last()[i].outcome,
        ) {
            (Ok(n), Ok(m)) => n == m,
            (Err(_), Err(_)) => true,
            _ => false,
        } by {
            assert(a.drop_last()[i] == a[i] && b.drop_last()[i] == b[i]);
        }
        lemma_bytes_alike(a.drop_last(), b.drop_last());
    }
}

/// The order in which the copies of `pairs` end changes neither the manifest
/// nor the number of bytes.
proof fn lemma_any_order(
    source_dir: Seq<char>,
    target_dir: Seq<char>,
    live: Seq<SstFileMeta>,
    pairs: Seq<CopyPair>,
    serial: Seq<CopyResult>,
    ended: Seq<CopyResult>,
    sorted: Seq<(u64, Seq<char>)>,
)
    requires
        copies_of(pairs, source_dir, target_dir, live),
        answers(serial, pairs),
        ended.to_multiset() == serial.to_multiset(),
        sorted_by_number(sorted, numbered(ended)),
    ensures
        all_copied(ended) == all_copied(serial),
        bytes_copied(ended) == bytes_copied(serial),
        paths_of(sorted) == paths_of(numbered(serial)),
{
    lemma_same_copies(ended, serial);
    let a = numbered(serial);
    assert forall|i: int, j: int| 0 <= i < j < a.len() implies a[i].0 <= a[j].0 by {
        assert(serial[i].number == pairs[i].number && serial[j].number == pairs[j].number);
        assert(pair_numbers(pairs)[i] <= pair_numbers(pairs)[j]);
    }
    assert forall|i: int, j: int|
        0 <= i < a.len() && 0 <= j < a.len() && a[i].0 == a[j].0 implies a[i] == a[j] by {
        assert(serial[i].number == pairs[i].number && serial[j].number == pairs[j].number);
        assert(is_copy(pairs[i], source_dir, target_dir));
        assert(is_copy(pairs[j], source_dir, target_dir));
    }
    lemma_same_order(a, sorted);
    ended.to_multiset_ensures();
    serial.to_multiset_ensures();
    assert(all_copied(ended) == all_copied(serial)) by {
        if all_copied(ended) {
            assert forall|i: int| 0 <= i < serial.len() implies (#[trigger] serial[i]).outcome is Ok by {
                assert(serial.contains(serial[i]));
                assert(ended.to_multiset().count(serial[i]) > 0);
                let k = choose|k: int| 0 <= k < ended.len() && ended[k] == serial[i];
                assert(ended[k].outcome is Ok);
            }
        }
        if all_copied(serial) {
            assert forall|i: int| 0 <= i < ended.len() implies (#[trigger] ended[i]).outcome is Ok by {
                assert(ended.contains(ended[i]));
                assert(serial.to_multiset().count(ended[i]) > 0);
                let k = choose|k: int| 0 <= k < serial.len() && serial[k] == ended[i];
                assert(serial[k].outcome is Ok);
            }
        }
    }
}

/// The bytes of one copy.
spec fn bytes_of(c: CopyResult) -> nat {
    match c.outcome {
        Ok(n) => n as nat,
        Err(_) => 0,
    }
}

proof fn lemma_bytes_without(done: Seq<CopyResult>, j: int)
    requires
        0 <= j < done.len(),
    ensures
        bytes_copied(done) == bytes_copied(done.remove(j)) + bytes_of(done[j]),
    decreases done.len(),
{
    if j == done.len() - 1 {
        assert(done.remove(j) =~= done.drop_last());
    } else {
        lemma_bytes_without(done.drop_last(), j);
        assert(done.remove(j).drop_last() =~= done.drop_last().remove(j));
        assert(done.remove(j).last() == done.last());
    }
}

/// The same copies in another order have the same bytes and the same paths.
proof fn lemma_same_copies(a: Seq<CopyResult>, b: Seq<CopyResult>)
    requires
        a.to_multiset() == b.to_multiset(),
    ensures
        bytes_copied(a) == bytes_copied(b),
        numbered(a).to_multiset() == numbered(b).to_multiset(),
    decreases a.len(),
{
    a.to_multiset_ensures();
    b.to_multiset_ensures();
    assert(a.len() == b.len());
    if a.len() == 0 {
        assert(a =~= b);
    } else {
        let last = a.len() - 1;
        let x = a[last];
        assert(a.contains(x));
        assert(b.to_multiset().count(x) > 0);
        assert(b.contains(x));
        let j = choose|j: int| 0 <= j < b.len() && b[j] == x;
        assert(a.remove(last).to_multiset() == b.remove(j).to_multiset());
        lemma_same_copies(a.remove(last), b.remove(j));
        lemma_bytes_without(a, last);
        lemma_bytes_without(b, j);
        let na = numbered(a);
        let nb = numbered(b);
        assert(numbered(a.remove(last)) =~= na.remove(last));
        assert(numbered(b.remove(j)) =~= nb.remove(j));
        na.to_multiset_ensures();
        nb.to_multiset_ensures();
        let e = (x.number.0, x.dst@);
        assert(na[last] == e && nb[j] == e);
        assert(na.contains(e) && nb.contains(e));
        assert(na.to_multiset() =~= na.remove(last).to_multiset().insert(e));
        assert(nb.to_multiset() =~= nb.remove(j).to_multiset().insert(e));
    }
}

proof fn lemma_same_order(a: Seq<(u64, Seq<char>)>, b: Seq<(u64, Seq<char>)>)
    requires
        forall|i: int, j: int| 0 <= i < j < a.len() ==> a[i].0 <= a[j].0,
        forall|i: int, j: int|
            0 <= i < a.len() && 0 <= j < a.len() && a[i].0 == a[j].0 ==> a[i] == a[j],
        forall|i: int, j: int| 0 <= i < j < b.len() ==> b[i].0 <= b[j].0,
        a.to_multiset() == b.to_multiset(),
    ensures
        a == b,
    decreases a.len(),
{
    a.to_multiset_ensures();
    b.to_multiset_ensures();
    assert(a.len() == b.len());
    if a.len() > 0 {
        let x = a.last();
        let y = b.last();
        assert(a.contains(x)) by {
            assert(a[a.len() - 1] == x);
        }
        assert(b.contains(y)) by {
            assert(b[b.len() - 1] == y);
        }
        assert(b.to_multiset().count(x) > 0);
        assert(a.to_multiset().count(y) > 0);
        let i = choose|i: int| 0 <= i < b.len() && b[i] == x;
        let j = choose|j: int| 0 <= j < a.len() && a[j] == y;
        assert(a[j].0 <= x.0);
        assert(b[i].0 <= y.0);
        assert(a[j] == a[a.len() - 1]);
        assert(a.remove(a.len() - 1) =~= a.drop_last());
        assert(b.remove(b.len() - 1) =~= b.drop_last());
        assert(a.drop_last().to_multiset() == b.drop_last().to_multiset());
        lemma_same_order(a.drop_last(), b.drop_last());
        assert(a =~= a.drop_last().push(x));
        assert(b =~= b.drop_last().push(y));
    } else {
        assert(a =~= b);
    }
}

/// A copy under way.
pub struct CopyRun {
    pub src: String,
    pub dst: String,
    /// Where the bytes are written, and how.
    pub target: String,
    pub mode: WriteMode,
    /// The target is renamed to the destination at the end.
    pub atomic_rename: bool,
    /// The size of the source, if it is known.
    pub expected: Option<u64>,
    /// The bytes copied so far.
    pub total: u64,
}

/// What follows when the bytes of a copy have been written, or could not be.
pub enum CopyNext {
    /// The copy is complete.
    Done(u64),
    /// The file is renamed; the copy has that many bytes.
    Rename { from: String, to: String, bytes: u64 },
    /// The file is deleted and the failure reported.
    Discard { path: String, error: ForstError },
}

/// The complaint about a copy that is shorter or longer than its source.
pub open spec fn short_copy_message(want: u64, total: u64, src: Seq<char>) -> Seq<char> {
    "copy_file short read: expected "@ + text::decimal(want as nat) + " bytes, got "@
        + text::decimal(total as nat) + " from "@ + src
}

impl CopyRun {
    /// The target goes with the destination.
    pub open spec fn wf(&self) -> bool {
        (self.target@, self.mode) == flush::write_target(self.dst@, self.atomic_rename)
    }

    /// The copy has as many bytes as its source, as far as that is known.
    pub open spec fn complete(&self) -> bool {
        self.expected matches Some(want) ==> self.total == want
    }

    /// Begins a copy.
    pub fn start(src: &str, dst: &str, atomic_rename: bool, expected: Option<u64>) -> (r: Self)
        ensures
            r.wf(),
            r.src@ == src@,
            r.dst@ == dst@,
            r.atomic_rename == atomic_rename,
            r.expected == expected,
            r.total == 0,
    {
        let (target, mode) = output_target(dst, atomic_rename);
        CopyRun {
            src: src.to_owned(),
            dst: dst.to_owned(),
            target,
            mode,
            atomic_rename,
            expected,
            total: 0,
        }
    }

    /// The directory that is made before the copy and synced after it.
    pub fn directory(&self) -> (r: Option<String>)
        ensures
            match r {
                Some(d) => paths::parent(self.dst@) == Some(d@),
                None => paths::parent(self.dst@) is None,
            },
    {
        parent_dir(self.dst.as_str())
    }

    /// Takes in that `n` bytes have been read. The copy goes on unless there
    /// were none.
    pub fn received(&mut self, n: usize) -> (r: bool)
        requires
            old(self).wf(),
            old(self).total + n <= u64::MAX,
        ensures
            r == (n > 0),
            *final(self) == (CopyRun { total: (old(self).total + n) as u64, ..*old(self) }),
    {
        self.total = self.total + n as u64;
        n > 0
    }

    /// What follows once the bytes have been written and synced, or that has
    /// failed. A copy whose size is not that of its source is never published.
    pub fn finish(self, written: ForstResult<()>) -> (r: CopyNext)
        requires
            self.wf(),
        ensures
            match r {
                CopyNext::Done(n) => written is Ok && self.complete() && !self.atomic_rename && n
                    == self.total,
                CopyNext::Rename { from, to, bytes } => written is Ok && self.complete()
                    && self.atomic_rename && from@ == self.target@ && to@ == self.dst@ && bytes
                    == self.total,
                CopyNext::Discard { path, error } => path@ == self.target@ && match written {
                    Err(e) => error == e,
                    Ok(_) => !self.complete() && error.says(
                        ErrorKind::Corruption,
                        short_copy_message(self.expected->0, self.total, self.src@),
                    ),
                },
            },
    {
        match written {
            Err(e) => CopyNext::Discard { path: self.target, error: e },
            Ok(_) => {
                match self.expected {
                    Some(want) => if self.total != want {
                        let mut m: String = String::new();
                        m.append("copy_file short read: expected ");
                        push_decimal(&mut m, want);
                        m.append(" bytes, got ");
                        push_decimal(&mut m, self.total);
                        m.append(" from ");
                        m.append(self.src.as_str());
                        assert(m@ =~= short_copy_message(want, self.total, self.src@));
                        return CopyNext::Discard {
                            path: self.target,
                            error: ForstError::Corruption(m),
                        };
                    },
                    None => {},
                }
                if self.atomic_rename {
                    CopyNext::Rename { from: self.target, to: self.dst, bytes: self.total }
                } else {
                    CopyNext::Done(self.total)
                }
            },
        }
    }
}

/// How a small file is written: into `target`, which is then renamed to
/// `rename_to`, if to anything.
pub struct WritePlan {
    /// Directory that is made first.
    pub directory: Option<String>,
    pub target: String,
    pub mode: WriteMode,
    pub rename_to: Option<String>,
    /// Directory that is synced at the end.
    pub sync_dir: Option<String>,
    /// Where the file ends up.
    pub path: String,
}

/// The contents of an optional text.
pub open spec fn opt_text(v: Option<String>) -> Option<Seq<char>> {
    match v {
        Some(s) => Some(s@),
        None => None,
    }
}

/// The path of the blob in a directory.
pub open spec fn blob_path(dir: Seq<char>) -> Seq<char> {
    paths::joined(dir, CHECKPOINT_BLOB_NAME@)
}

/// How the blob of a checkpoint is written.
pub fn plan_blob_write(target_dir: &str, atomic_rename: bool) -> (r: WritePlan)
    ensures
        opt_text(r.directory) == Some(target_dir@),
        opt_text(r.sync_dir) == Some(target_dir@),
        r.path@ == blob_path(target_dir@),
        r.target@ == if atomic_rename {
            paths::joined(target_dir@, CHECKPOINT_BLOB_TMP_NAME@)
        } else {
            blob_path(target_dir@)
        },
        r.mode == if atomic_rename {
            WriteMode::CreateNew
        } else {
            WriteMode::CreateOrTruncate
        },
        opt_text(r.rename_to) == if atomic_rename {
            Some(blob_path(target_dir@))
        } else {
            None
        },
{
    let path: String = join(target_dir, CHECKPOINT_BLOB_NAME);
    if atomic_rename {
        WritePlan {
            directory: Some(target_dir.to_owned()),
            target: join(target_dir, CHECKPOINT_BLOB_TMP_NAME),
            mode: WriteMode::CreateNew,
            rename_to: Some(path.clone()),
            sync_dir: Some(target_dir.to_owned()),
            path,
        }
    } else {
        WritePlan {
            directory: Some(target_dir.to_owned()),
            target: path.clone(),
            mode: WriteMode::CreateOrTruncate,
            rename_to: None,
            sync_dir: Some(target_dir.to_owned()),
            path,
        }
    }
}

/// How another file of a checkpoint is written. A file that is to be renamed
/// must have a name.
pub fn plan_artifact_write(path: &str, atomic_rename: bool) -> (r: ForstResult<WritePlan>)
    ensures
        match r {
            Err(e) => atomic_rename && paths::file_name(path@) is None && e.says(
                ErrorKind::InvalidArgument,
                "artifact path has no file name"@,
            ),
            Ok(p) => {
                &&& atomic_rename ==> paths::file_name(path@) is Some
                &&& opt_text(p.directory) == paths::parent(path@)
                &&& p.sync_dir is None
                &&& p.path@ == path@
                &&& (p.target@, p.mode) == flush::write_target(path@, atomic_rename)
                &&& opt_text(p.rename_to) == if atomic_rename {
                    Some(path@)
                } else {
                    None
                }
            },
        },
{
    let directory: Option<String> = parent_dir(path);
    if !atomic_rename {
        return Ok(
            WritePlan {
                directory,
                target: path.to_owned(),
                mode: WriteMode::CreateOrTruncate,
                rename_to: None,
                sync_dir: None,
                path: path.to_owned(),
            },
        );
    }
    if is_nameless(path) {
        return Err(invalid_argument_text("artifact path has no file name"));
    }
    let (target, mode) = output_target(path, true);
    Ok(
        WritePlan {
            directory,
            target,
            mode,
            rename_to: Some(path.to_owned()),
            sync_dir: None,
            path: path.to_owned(),
        },
    )
}

/// What is read back of a checkpoint.
#[derive(Debug, Clone, Copy, PartialEq, Eq, Structural)]
pub enum ArtifactKind {
    Blob,
    Artifact,
}

/// How messages name it.
pub open spec fn kind_label(kind: ArtifactKind) -> Seq<char> {
    match kind {
        ArtifactKind::Blob => "checkpoint blob"@,
        ArtifactKind::Artifact => "checkpoint artifact"@,
    }
}

fn label_of(kind: ArtifactKind) -> (r: &'static str)
    ensures
        r@ == kind_label(kind),
{
    match kind {
        ArtifactKind::Blob => "checkpoint blob",
        ArtifactKind::Artifact => "checkpoint artifact",
    }
}

/// A file being read whole.
pub struct ArtifactRead {
    pub kind: ArtifactKind,
    pub path: String,
    pub size: usize,
    /// The bytes read so far.
    pub offset: usize,
}

/// The complaint about a file that is not there.
pub open spec fn missing_message(kind: ArtifactKind, path: Seq<char>) -> Seq<char> {
    kind_label(kind) + " not found at "@ + path
}

/// The complaint about a file that is too large.
pub open spec fn oversize_message(kind: ArtifactKind, path: Seq<char>, size: u64) -> Seq<char> {
    kind_label(kind) + " at "@ + path + " reports size "@ + text::decimal(size as nat)
        + " bytes, exceeds cap "@ + text::decimal(MAX_CHECKPOINT_BLOB_SIZE as nat) + " bytes"@
}

/// The complaint about a file that ends too soon.
pub open spec fn short_read_message(
    kind: ArtifactKind,
    path: Seq<char>,
    size: nat,
    got: nat,
) -> Seq<char> {
    kind_label(kind) + " short read: expected "@ + text::decimal(size) + " bytes, got "@
        + text::decimal(got) + " at "@ + path
}

impl ArtifactRead {
    /// No more has been read than there is.
    pub open spec fn wf(&self) -> bool {
        self.offset <= self.size <= MAX_CHECKPOINT_BLOB_SIZE
    }

    /// Begins to read a file of the size that its metadata give; `None` means
    /// that there is no such file. A file above the limit is refused before
    /// anything is read.
    pub fn start(kind: ArtifactKind, path: &str, found: Option<u64>) -> (r: ForstResult<Self>)
        ensures
            match found {
                None => r matches Err(e) && e.says(
                    ErrorKind::NotFound,
                    missing_message(kind, path@),
                ),
                Some(size) => if size > MAX_CHECKPOINT_BLOB_SIZE {
                    r matches Err(e) && e.says(
                        ErrorKind::Corruption,
                        oversize_message(kind, path@, size),
                    )
                } else {
                    r matches Ok(a) && a.wf() && a.kind == kind && a.path@ == path@ && a.size
                        == size && a.offset == 0
                },
            },
    {
        match found {
            None => {
                let mut m: String = String::new();
                m.append(label_of(kind));
                m.append(" not found at ");
                m.append(path);
                assert(m@ =~= missing_message(kind, path@));
                Err(ForstError::NotFound(m))
            },
            Some(size) => {
                if size > MAX_CHECKPOINT_BLOB_SIZE {
                    let mut m: String = String::new();
                    m.append(label_of(kind));
                    m.append(" at ");
                    m.append(path);
                    m.append(" reports size ");
                    push_decimal(&mut m, size);
                    m.append(" bytes, exceeds cap ");
                    push_decimal(&mut m, MAX_CHECKPOINT_BLOB_SIZE);
                    m.append(" bytes");
                    assert(m@ =~= oversize_message(kind, path@, size));
                    return Err(ForstError::Corruption(m));
                }
                Ok(ArtifactRead { kind, path: path.to_owned(), size: size as usize, offset: 0 })
            },
        }
    }

    /// Whether there is more to read.
    pub fn wants(&self) -> (r: bool)
        ensures
            r == (self.offset < self.size),
    {
        self.offset < self.size
    }

    /// Takes in that `n` bytes have been read. The file goes on unless there
    /// were none.
    pub fn received(&mut self, n: usize) -> (r: bool)
        requires
            old(self).wf(),
            old(self).offset + n <= old(self).size,
        ensures
            r == (n > 0),
            *final(self) == (ArtifactRead { offset: (old(self).offset + n) as usize, ..*old(self) }),
            final(self).wf(),
    {
        self.offset = self.offset + n;
        n > 0
    }

    /// Whether the whole file has been read.
    pub fn finish(&self) -> (r: ForstResult<()>)
        ensures
            match r {
                Ok(_) => self.offset == self.size,
                Err(e) => self.offset != self.size && e.says(
                    ErrorKind::Corruption,
                    short_read_message(self.kind, self.path@, self.size as nat, self.offset as nat),
                ),
            },
    {
        if self.offset != self.size {
            let mut m: String = String::new();
            m.append(label_of(self.kind));
            m.append(" short read: expected ");
            push_decimal(&mut m, self.size as u64);
            m.append(" bytes, got ");
            push_decimal(&mut m, self.offset as u64);
            m.append(" at ");
            m.append(self.path.as_str());
            assert(m@ =~= short_read_message(
                self.kind,
                self.path@,
                self.size as nat,
                self.offset as nat,
            ));
            return Err(ForstError::Corruption(m));
        }
        Ok(())
    }
}

/// A trailer is the mapping, its checksum, its length and the four letters of the
/// magic number, `FRMT` in the order of the bytes, each number in four little-endian
/// bytes.
pub proof fn law_trailer_layout(mapping: Seq<u8>)
    requires
        mapping.len() <= u32::MAX,
    ensures
        ({
            let t = trailer(mapping);
            let n = mapping.len() as int;
            &&& t.len() == n + 12
            &&& t.take(n) == mapping
            &&& coding::le_value(t.subrange(n, n + 4)) == checksum::checksum(mapping)
            &&& t[n + 4] + 0x100 * t[n + 5] + 0x1_0000 * t[n + 6] + 0x100_0000 * t[n + 7] == n
            &&& t[n + 8] == 0x46 && t[n + 9] == 0x52 && t[n + 10] == 0x4d && t[n + 11] == 0x54
        }),
{
    let t = trailer(mapping);
    let n = mapping.len() as int;
    coding::lemma_fixed_widths();
    let crc = coding::le_bytes(checksum::checksum(mapping) as nat, 4);
    let size = coding::le_bytes(n as nat, 4);
    let magic = coding::le_bytes(MAPPING_TRAILER_MAGIC as nat, 4);
    coding::law_fixed_round_trip(checksum::checksum(mapping) as nat, 4);
    coding::law_fixed_round_trip(n as nat, 4);
    coding::law_fixed_round_trip(MAPPING_TRAILER_MAGIC as nat, 4);
    assert(t.take(n) =~= mapping);
    assert(t.subrange(n, n + 4) =~= crc);
    assert(t.subrange(n + 4, n + 8) =~= size);
    assert(t.subrange(n + 8, n + 12) =~= magic);
    coding::law_four_bytes_are_digits(size);
    coding::law_four_bytes_are_digits(magic);
    assert(t[n + 4] == size[0] && t[n + 5] == size[1] && t[n + 6] == size[2] && t[n + 7]
        == size[3]);
    assert(t[n + 8] == magic[0] && t[n + 9] == magic[1] && t[n + 10] == magic[2] && t[n + 11]
        == magic[3]);
}

/// Splitting goes by the last bytes alone. Data that does not end in the magic number
/// has no trailer. Data that does must be as long as its trailer says and hold the
/// checksum of the mapping; then it is what was put together, byte for byte.
pub proof fn law_split_undoes_nothing_but_a_trailer(data: Seq<u8>, n: int)
    requires
        data.len() >= 12 ==> n == data[data.len() - 8] + 0x100 * data[data.len() - 7] + 0x1_0000
            * data[data.len() - 6] + 0x100_0000 * data[data.len() - 5],
    ensures
        ({
            let l = data.len() as int;
            let marked = l >= 12 && data[l - 4] == 0x46 && data[l - 3] == 0x52 && data[l - 2] == 0x4d
                && data[l - 1] == 0x54;
            match split(data) {
                SplitView::Parts(base, None) => base == data && !marked,
                SplitView::Parts(base, Some(mapping)) => {
                    &&& marked
                    &&& mapping.len() == n
                    &&& data == base + trailer(mapping)
                },
                SplitView::TooLong(m) => marked && m == n && n + 12 > l,
                SplitView::BadChecksum => {
                    &&& marked
                    &&& n + 12 <= l
                    &&& coding::le_value(data.subrange(l - 12, l - 8)) != checksum::checksum(
                        data.subrange(l - 12 - n, l - 12),
                    )
                },
            }
        }),
{
    let l = data.len() as int;
    if l >= 12 {
        let magic = data.subrange(l - 4, l);
        let size = data.subrange(l - 8, l - 4);
        let crc = data.subrange(l - 12, l - 8);
        coding::law_four_bytes_are_digits(magic);
        coding::law_four_bytes_are_digits(size);
        coding::law_fixed_canonical(magic);
        coding::law_fixed_canonical(size);
        coding::law_fixed_canonical(crc);
        coding::lemma_fixed_widths();
        assert(tail_number(data, 4) == n);
        if let SplitView::Parts(base, Some(mapping)) = split(data) {
            assert(mapping.len() == n);
            assert(data =~= base + trailer(mapping));
        }
    }
}

/// Settings for parallel copying: the words for no and a number that is not positive
/// or does not fit mean none, the words for yes mean 8, and a positive number means
/// itself.
pub proof fn law_upload_setting(raw: Option<&str>, word: Seq<char>)
    requires
        raw matches Some(s) ==> word == flags::trimmed(s@),
    ensures
        raw is None ==> upload_workers(raw) is None,
        word == ""@ || word == "0"@ || word == "false"@ || word == "off"@ || word == "no"@
            ==> upload_workers(raw) is None,
        upload_workers(raw) matches Some(n) ==> 0 < n <= usize::MAX && (n == 8 || flags::number(word)
            == Some(n)),
        raw is Some && !(word == ""@ || word == "0"@ || word == "false"@ || word == "off"@ || word
            == "no"@) && (word == "1"@ || word == "true"@ || word == "on"@ || word == "yes"@)
            ==> upload_workers(raw) == Some(8u64),
        raw is Some && !(word == ""@ || word == "0"@ || word == "false"@ || word == "off"@ || word
            == "no"@ || word == "1"@ || word == "true"@ || word == "on"@ || word == "yes"@) ==> (
        flags::number(word) matches Some(n) ==> 0 < n <= usize::MAX ==> upload_workers(raw) == Some(
            n,
        )),
{
}

/// Every live file is copied, under its own name, from the one directory into the
/// other, and nothing else is, in the order of the file numbers.
pub proof fn law_every_live_file_is_copied(
    pairs: Seq<CopyPair>,
    source_dir: Seq<char>,
    target_dir: Seq<char>,
    live: Seq<SstFileMeta>,
    i: int,
    j: int,
)
    requires
        copies_of(pairs, source_dir, target_dir, live),
    ensures
        pairs.len() == live.len(),
        0 <= i < live.len() ==> exists|k: int|
            0 <= k < pairs.len() && (#[trigger] pairs[k]).number == live[i].file_number,
        0 <= j < pairs.len() ==> {
            &&& exists|k: int|
                0 <= k < live.len() && pairs[j].number == (#[trigger] live[k]).file_number
            &&& pairs[j].src@ == paths::joined(source_dir, paths::sst_name(pairs[j].number))
            &&& pairs[j].dst@ == paths::joined(target_dir, paths::sst_name(pairs[j].number))
            &&& j > 0 ==> pairs[j - 1].number.0 <= pairs[j].number.0
        },
{
    let a = pair_numbers(pairs);
    let b = file_numbers(live);
    a.to_multiset_ensures();
    b.to_multiset_ensures();
    if 0 <= i < live.len() {
        assert(b[i] == live[i].file_number.0);
        assert(b.contains(live[i].file_number.0));
        assert(a.to_multiset().count(live[i].file_number.0) > 0);
        assert(a.contains(live[i].file_number.0));
        let k = a.index_of(live[i].file_number.0);
        assert(pairs[k].number.0 == live[i].file_number.0);
    }
    if 0 <= j < pairs.len() {
        assert(a[j] == pairs[j].number.0);
        assert(a.contains(pairs[j].number.0));
        assert(b.to_multiset().count(pairs[j].number.0) > 0);
        assert(b.contains(pairs[j].number.0));
        let m = b.index_of(pairs[j].number.0);
        assert(live[m].file_number.0 == pairs[j].number.0);
        assert(is_copy(pairs[j], source_dir, target_dir));
        if j > 0 {
            assert(a[j - 1] <= a[j]);
        }
    }
}

/// The bytes of the copies that succeeded, and which failure is reported: the first.
pub proof fn law_copies_are_summed_up(done: Seq<CopyResult>, last: CopyResult, e: ForstError)
    ensures
        bytes_copied(Seq::empty()) == 0,
        bytes_copied(done.push(last)) == bytes_copied(done) + match last.outcome {
            Ok(n) => n as int,
            Err(_) => 0,
        },
        all_copied(done.push(last)) <==> all_copied(done) && last.outcome is Ok,
        first_failure(done, e) ==> first_failure(done.push(last), e),
        all_copied(done) && last.outcome == Err::<u64, ForstError>(e) ==> first_failure(
            done.push(last),
            e,
        ),
        first_failure(done, e) ==> !all_copied(done),
{
    let all = done.push(last);
    assert(all.drop_last() =~= done);
    if all_copied(all) {
        assert(all[done.len() as int].outcome is Ok);
        assert forall|i: int| 0 <= i < done.len() implies (#[trigger] done[i]).outcome is Ok by {
            assert(all[i].outcome is Ok);
        }
    }
    if first_failure(done, e) {
        let i = choose|i: int|
            0 <= i < done.len() && (#[trigger] done[i]).outcome == Err::<u64, ForstError>(e)
                && all_copied(done.take(i));
        assert(all[i].outcome == Err::<u64, ForstError>(e));
        assert(all.take(i) =~= done.take(i));
        assert(done[i].outcome is Err);
    }
    if all_copied(done) && last.outcome == Err::<u64, ForstError>(e) {
        let i = done.len() as int;
        assert(all[i].outcome == Err::<u64, ForstError>(e));
        assert(all.take(i) =~= done);
    }
}

/// A failure that is reported is that of a copy before which none failed.
pub proof fn law_first_failure_is_reported(done: Seq<CopyResult>, e: ForstError) -> (i: int)
    requires
        first_failure(done, e),
    ensures
        0 <= i < done.len(),
        done[i].outcome == Err::<u64, ForstError>(e),
        forall|j: int| 0 <= j < i ==> (#[trigger] done[j]).outcome is Ok,
{
    let i = choose|i: int|
        0 <= i < done.len() && (#[trigger] done[i]).outcome == Err::<u64, ForstError>(e)
            && all_copied(done.take(i));
    assert forall|j: int| 0 <= j < i implies (#[trigger] done[j]).outcome is Ok by {
        assert(done.take(i)[j].outcome is Ok);
    }
    i
}

/// Sorting by number loses nothing, and of equal numbers what came first stays first.
pub proof fn law_sorting_by_number_is_stable(
    sorted: Seq<(u64, Seq<char>)>,
    all: Seq<(u64, Seq<char>)>,
    n: u64,
    i: int,
    j: int,
)
    requires
        sorted_by_number(sorted, all),
    ensures
        0 <= i < j < sorted.len() ==> sorted[i].0 <= sorted[j].0,
        sorted.to_multiset() == all.to_multiset(),
        sorted.filter(|x: (u64, Seq<char>)| x.0 == n) == all.filter(
            |x: (u64, Seq<char>)| x.0 == n,
        ),
{
    let p = |x: (u64, Seq<char>)| x.0 == n;
    assert(p =~= has_number(n));
    assert(of_number(sorted, n) == of_number(all, n));
}

/// A copy is complete once it has as many bytes as were expected, no more and no
/// fewer; without an expectation it always is.
pub proof fn law_copy_is_complete_with_all_bytes(run: CopyRun)
    ensures
        run.expected is None ==> run.complete(),
        run.expected matches Some(want) ==> (run.complete() <==> run.total == want),
        run.wf() && run.atomic_rename ==> run.target@ == paths::temp_path(run.dst@)
            && run.mode is CreateNew,
        run.wf() && !run.atomic_rename ==> run.target@ == run.dst@ && run.mode is CreateOrTruncate,
{
}

} // verus!
