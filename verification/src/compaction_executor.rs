//! Portable description of a compaction job: encoding, decoding, and the way
//! to and from a runnable job.

use crate::bytes::{append_bytes, copy_bytes};
use crate::coding;
use crate::coding::{get_le, put_le};
use crate::compaction::{CompactionInput, CompactionJob};
use crate::compaction_filter::CompactionFilter;
use crate::error::{corruption_text, invalid_argument_text, ErrorKind, ForstError, ForstResult};
use crate::merge_operator::MergeOperator;
use crate::paths;
use crate::paths::{parent_dir, sst_file_path};
use crate::row;
use crate::row::Row;
use crate::text;
use crate::text::push_decimal;
use crate::types::{ColumnFamilyId, CompressionType, FileNumber, SequenceNumber};
use crate::version;
use crate::version::{KvGcSpec, KvGcView, SstFileMeta, SstFileMetaView, SstWriterOptions};
use std::collections::BTreeSet;
use vstd::prelude::*;
use vstd::string::*;

verus! {

broadcast use vstd::std_specs::btree::group_btree_axioms;

/// First four bytes of an encoded descriptor.
pub const DESC_MAGIC: u32 = 0x5243_4A44;

/// Version of the encoding.
pub const DESC_VERSION: u16 = 1;

/// Where compactions run.
#[derive(Debug, Clone, Copy, PartialEq, Eq, Structural)]
pub enum CompactionMergeExecutorKind {
    /// In this process, on the calling thread.
    Local,
    /// On a worker pool that stands for another machine.
    RemoteEmulated,
}

/// Runs compactions on the calling thread.
#[derive(Debug, Clone, Copy)]
pub struct LocalCompactionExecutor;

impl LocalCompactionExecutor {
    /// Where compactions run.
    pub fn kind(&self) -> (r: CompactionMergeExecutorKind)
        ensures
            r == CompactionMergeExecutorKind::Local,
    {
        CompactionMergeExecutorKind::Local
    }
}

/// One input file by identity.
#[derive(Debug, Clone, PartialEq, Eq)]
pub struct CompactionInputFile {
    pub level: u32,
    pub meta: SstFileMeta,
    /// Path to open the file at.
    pub physical_path: String,
}

/// The contents of a [`CompactionInputFile`].
pub struct InputFileView {
    pub level: u32,
    pub meta: SstFileMetaView,
    pub physical_path: Seq<char>,
}

impl View for CompactionInputFile {
    type V = InputFileView;

    open spec fn view(&self) -> InputFileView {
        InputFileView {
            level: self.level,
            meta: self.meta@,
            physical_path: self.physical_path@,
        }
    }
}

/// Everything that is needed to run a compaction elsewhere, except the file
/// system, the merge operator and the filter, which the other side supplies.
#[derive(Debug, Clone, PartialEq, Eq)]
pub struct CompactionJobDescriptor {
    pub cf_id: ColumnFamilyId,
    pub inputs: Vec<CompactionInputFile>,
    pub output_level: u32,
    pub output_file_number: FileNumber,
    pub output_path: String,
    pub additional_outputs: Vec<(FileNumber, String)>,
    pub target_file_size: u64,
    pub block_size: u64,
    pub compression: u8,
    pub is_bottommost: bool,
    pub min_active_snapshot: SequenceNumber,
    /// Name of the merge operator; empty if there is none.
    pub merge_operator_name: String,
    /// The job has a compaction filter, which the other side must supply.
    pub has_compaction_filter: bool,
    pub kv_gc: Option<KvGcSpec>,
}

/// The contents of a [`CompactionJobDescriptor`].
pub struct DescriptorView {
    pub cf_id: ColumnFamilyId,
    pub inputs: Seq<InputFileView>,
    pub output_level: u32,
    pub output_file_number: FileNumber,
    pub output_path: Seq<char>,
    pub additional_outputs: Seq<(FileNumber, Seq<char>)>,
    pub target_file_size: u64,
    pub block_size: u64,
    pub compression: u8,
    pub is_bottommost: bool,
    pub min_active_snapshot: SequenceNumber,
    pub merge_operator_name: Seq<char>,
    pub has_compaction_filter: bool,
    pub kv_gc: Option<KvGcView>,
}

/// The contents of several input files.
pub open spec fn inputs_view(v: Seq<CompactionInputFile>) -> Seq<InputFileView> {
    Seq::new(v.len(), |i: int| v[i]@)
}

/// The contents of several numbered paths.
pub open spec fn outputs_view(v: Seq<(FileNumber, String)>) -> Seq<(FileNumber, Seq<char>)> {
    Seq::new(v.len(), |i: int| (v[i].0, v[i].1@))
}

impl View for CompactionJobDescriptor {
    type V = DescriptorView;

    open spec fn view(&self) -> DescriptorView {
        DescriptorView {
            cf_id: self.cf_id,
            inputs: inputs_view(self.inputs@),
            output_level: self.output_level,
            output_file_number: self.output_file_number,
            output_path: self.output_path@,
            additional_outputs: outputs_view(self.additional_outputs@),
            target_file_size: self.target_file_size,
            block_size: self.block_size,
            compression: self.compression,
            is_bottommost: self.is_bottommost,
            min_active_snapshot: self.min_active_snapshot,
            merge_operator_name: self.merge_operator_name@,
            has_compaction_filter: self.has_compaction_filter,
            kv_gc: version::opt_gc(self.kv_gc),
        }
    }
}

/// The smallest member of a set.
#[verifier::opaque]
pub open spec fn least(s: Set<u64>) -> u64 {
    choose|m: u64| s.contains(m) && forall|k: u64| s.contains(k) ==> m <= k
}

/// The members of a finite set in ascending order.
pub open spec fn ascending(s: Set<u64>) -> Seq<u64>
    decreases s.len(),
{
    if s.finite() && s.len() > 0 && s.contains(least(s)) {
        seq![least(s)] + ascending(s.remove(least(s)))
    } else {
        Seq::empty()
    }
}

proof fn lemma_least_from(s: Set<u64>, x: u64) -> (m: u64)
    requires
        s.contains(x),
    ensures
        s.contains(m),
        forall|k: u64| s.contains(k) ==> m <= k,
    decreases x,
{
    if exists|y: u64| s.contains(y) && y < x {
        let y = choose|y: u64| s.contains(y) && y < x;
        lemma_least_from(s, y)
    } else {
        x
    }
}

proof fn lemma_least(s: Set<u64>)
    requires
        s.finite(),
        s.len() > 0,
    ensures
        s.contains(least(s)),
        forall|k: u64| s.contains(k) ==> least(s) <= k,
{
    reveal(least);
    let x = s.choose();
    let m = lemma_least_from(s, x);
}

proof fn lemma_ascending(s: Set<u64>)
    requires
        s.finite(),
    ensures
        ascending(s).to_set() == s,
        ascending(s).len() == s.len(),
    decreases s.len(),
{
    if s.len() > 0 {
        lemma_least(s);
        let m = least(s);
        let rest = s.remove(m);
        lemma_ascending(rest);
        let a = ascending(s);
        assert forall|k: u64| a.to_set().contains(k) <==> s.contains(k) by {
            if s.contains(k) {
                if k == m {
                    assert(a[0] == k);
                } else {
                    assert(ascending(rest).to_set().contains(k));
                    let i = choose|i: int| 0 <= i < ascending(rest).len() && ascending(rest)[i] == k;
                    assert(a[i + 1] == k);
                }
            }
            if a.to_set().contains(k) {
                let i = choose|i: int| 0 <= i < a.len() && a[i] == k;
                if i > 0 {
                    assert(ascending(rest)[i - 1] == k);
                    assert(ascending(rest).to_set().contains(k));
                }
            }
        }
        assert(a.to_set() =~= s);
    } else {
        assert(s =~= Set::<u64>::empty());
        assert(ascending(s).to_set() =~= s);
    }
}

proof fn lemma_rest_of_increasing(t: Seq<u64>)
    requires
        t.len() > 0,
        forall|i: int, j: int| 0 <= i < j < t.len() ==> t[i] < t[j],
    ensures
        t.skip(1).to_set() == t.to_set().remove(t[0]),
{
    let rest = t.skip(1);
    assert forall|k: u64| rest.to_set().contains(k) <==> t.to_set().remove(t[0]).contains(k) by {
        if rest.to_set().contains(k) {
            let j = choose|j: int| 0 <= j < rest.len() && rest[j] == k;
            assert(t[j + 1] == k);
            assert(t.contains(k));
        }
        if t.to_set().remove(t[0]).contains(k) {
            let j = choose|j: int| 0 <= j < t.len() && t[j] == k;
            assert(rest[j - 1] == k);
            assert(rest.contains(k));
        }
    }
    assert(rest.to_set() =~= t.to_set().remove(t[0]));
}

proof fn lemma_least_of_increasing(t: Seq<u64>)
    requires
        t.len() > 0,
        forall|i: int, j: int| 0 <= i < j < t.len() ==> t[i] < t[j],
    ensures
        t.to_set().finite(),
        t.to_set().len() > 0,
        least(t.to_set()) == t[0],
{
    let s = t.to_set();
    vstd::seq_lib::seq_to_set_is_finite(t);
    assert(t.contains(t[0]));
    assert(s.contains(t[0]));
    assert(s.len() > 0) by {
        if s.len() == 0 {
            assert(s =~= Set::<u64>::empty());
        }
    }
    lemma_least(s);
    let m = least(s);
    assert(t.contains(m));
    let i = choose|i: int| 0 <= i < t.len() && t[i] == m;
}

/// A strictly increasing listing of a set is [`ascending`].
proof fn lemma_ascending_unique(t: Seq<u64>)
    requires
        forall|i: int, j: int| 0 <= i < j < t.len() ==> t[i] < t[j],
    ensures
        t == ascending(t.to_set()),
    decreases t.len(),
{
    if t.len() == 0 {
        assert(t.to_set() =~= Set::<u64>::empty());
        assert(t =~= ascending(t.to_set()));
    } else {
        let rest = t.skip(1);
        lemma_least_of_increasing(t);
        lemma_rest_of_increasing(t);
        lemma_ascending_unique(rest);
        let s = t.to_set();
        assert(s.contains(t[0])) by {
            assert(t.contains(t[0]));
        }
        assert(ascending(s) == seq![t[0]] + rest);
        assert(t =~= seq![t[0]] + rest);
    }
}

/// Why a descriptor cannot be decoded.
pub enum ParseError {
    Truncated,
    BadMagic,
    BadVersion(u16),
    BadUtf8,
    BadCompression(u8),
}

impl ParseError {
    /// The message of the error.
    pub open spec fn message(self) -> Seq<char> {
        match self {
            ParseError::Truncated => "CompactionJobDescriptor::decode: truncated blob"@,
            ParseError::BadMagic => "CompactionJobDescriptor::decode: bad magic"@,
            ParseError::BadVersion(v) => "CompactionJobDescriptor::decode: unsupported version "@
                + text::decimal(v as nat),
            ParseError::BadUtf8 => "CompactionJobDescriptor::decode: bad utf8 string"@,
            ParseError::BadCompression(b) =>
                "compaction descriptor: invalid vlog_compression byte "@ + text::decimal(b as nat),
        }
    }
}

/// Result of reading something from the start of a byte string: the value and
/// what follows it.
pub enum Parsed<T> {
    Done(T, Seq<u8>),
    Failed(ParseError),
}

/// Reads a little-endian number of `width` bytes.
#[verifier::opaque]
pub open spec fn parse_int(s: Seq<u8>, width: nat) -> Parsed<nat> {
    if s.len() < width {
        Parsed::Failed(ParseError::Truncated)
    } else {
        Parsed::Done(coding::le_value(s.take(width as int)), s.skip(width as int))
    }
}

/// Reads a byte string with its length before it.
#[verifier::opaque]
pub open spec fn parse_bytes(s: Seq<u8>) -> Parsed<Seq<u8>> {
    match parse_int(s, 4) {
        Parsed::Failed(e) => Parsed::Failed(e),
        Parsed::Done(n, rest) => if rest.len() < n {
            Parsed::Failed(ParseError::Truncated)
        } else {
            Parsed::Done(rest.take(n as int), rest.skip(n as int))
        },
    }
}

/// Reads a text with its length in bytes before it.
#[verifier::opaque]
pub open spec fn parse_string(s: Seq<u8>) -> Parsed<Seq<char>> {
    match parse_bytes(s) {
        Parsed::Failed(e) => Parsed::Failed(e),
        Parsed::Done(b, rest) => if vstd::utf8::valid_utf8(b) {
            Parsed::Done(vstd::utf8::decode_utf8(b), rest)
        } else {
            Parsed::Failed(ParseError::BadUtf8)
        },
    }
}

/// Reads `n` things, one after the other.
pub open spec fn parse_list<T>(s: Seq<u8>, p: spec_fn(Seq<u8>) -> Parsed<T>, n: nat) -> Parsed<
    Seq<T>,
>
    decreases n,
{
    if n == 0 {
        Parsed::Done(Seq::empty(), s)
    } else {
        match p(s) {
            Parsed::Failed(e) => Parsed::Failed(e),
            Parsed::Done(x, rest) => match parse_list(rest, p, (n - 1) as nat) {
                Parsed::Failed(e) => Parsed::Failed(e),
                Parsed::Done(xs, end) => Parsed::Done(seq![x] + xs, end),
            },
        }
    }
}

/// `xs` before what was read.
pub open spec fn prepend<T>(xs: Seq<T>, r: Parsed<Seq<T>>) -> Parsed<Seq<T>> {
    match r {
        Parsed::Failed(e) => Parsed::Failed(e),
        Parsed::Done(ys, end) => Parsed::Done(xs + ys, end),
    }
}

/// A byte string with its length before it.
#[verifier::opaque]
pub open spec fn enc_bytes(b: Seq<u8>) -> Seq<u8> {
    coding::le_bytes(b.len(), 4) + b
}

/// A text with its length in bytes before it.
#[verifier::opaque]
pub open spec fn enc_string(t: Seq<char>) -> Seq<u8> {
    enc_bytes(vstd::utf8::encode_utf8(t))
}

/// Several encoded things, one after the other.
pub open spec fn enc_list<T>(xs: Seq<T>, e: spec_fn(T) -> Seq<u8>) -> Seq<u8>
    decreases xs.len(),
{
    if xs.len() == 0 {
        Seq::empty()
    } else {
        e(xs[0]) + enc_list(xs.skip(1), e)
    }
}

/// Reads the metadata of a file.
#[verifier::opaque]
pub open spec fn parse_meta(s: Seq<u8>) -> Parsed<SstFileMetaView> {
    match parse_int(s, 8) { Parsed::Failed(e) => Parsed::Failed(e), Parsed::Done(n, r0) =>
    match parse_int(r0, 4) { Parsed::Failed(e) => Parsed::Failed(e), Parsed::Done(cf, r1) =>
    match parse_int(r1, 8) { Parsed::Failed(e) => Parsed::Failed(e), Parsed::Done(size, r2) =>
    match parse_bytes(r2) { Parsed::Failed(e) => Parsed::Failed(e), Parsed::Done(lo, r3) =>
    match parse_bytes(r3) { Parsed::Failed(e) => Parsed::Failed(e), Parsed::Done(hi, r4) =>
    match parse_int(r4, 8) { Parsed::Failed(e) => Parsed::Failed(e), Parsed::Done(mins, r5) =>
    match parse_int(r5, 8) { Parsed::Failed(e) => Parsed::Failed(e), Parsed::Done(maxs, r6) =>
    match parse_int(r6, 8) { Parsed::Failed(e) => Parsed::Failed(e), Parsed::Done(num, r7) =>
    match parse_int(r7, 8) { Parsed::Failed(e) => Parsed::Failed(e), Parsed::Done(death, r8) =>
    Parsed::Done(
        SstFileMetaView {
            file_number: FileNumber(n as u64),
            cf_id: ColumnFamilyId(cf as u32),
            file_size: size as u64,
            smallest_key: lo,
            largest_key: hi,
            min_sequence: SequenceNumber(mins as u64),
            max_sequence: SequenceNumber(maxs as u64),
            num_entries: num as u64,
            max_death: death as u64,
        },
        r8,
    )
    }}}}}}}}}
}

/// The encoded metadata of a file.
#[verifier::opaque]
pub open spec fn enc_meta(m: SstFileMetaView) -> Seq<u8> {
    coding::le_bytes(m.file_number.0 as nat, 8) + (coding::le_bytes(m.cf_id.0 as nat, 4) + (
    coding::le_bytes(m.file_size as nat, 8) + (enc_bytes(m.smallest_key) + (enc_bytes(m.largest_key)
        + (coding::le_bytes(m.min_sequence.0 as nat, 8) + (coding::le_bytes(
        m.max_sequence.0 as nat,
        8,
    ) + (coding::le_bytes(m.num_entries as nat, 8) + coding::le_bytes(m.max_death as nat, 8))))))))
}

/// Reads an input file.
#[verifier::opaque]
pub open spec fn parse_input(s: Seq<u8>) -> Parsed<InputFileView> {
    match parse_int(s, 4) { Parsed::Failed(e) => Parsed::Failed(e), Parsed::Done(level, r0) =>
    match parse_meta(r0) { Parsed::Failed(e) => Parsed::Failed(e), Parsed::Done(meta, r1) =>
    match parse_string(r1) { Parsed::Failed(e) => Parsed::Failed(e), Parsed::Done(path, r2) =>
    Parsed::Done(InputFileView { level: level as u32, meta, physical_path: path }, r2)
    }}}
}

/// An encoded input file.
#[verifier::opaque]
pub open spec fn enc_input(i: InputFileView) -> Seq<u8> {
    coding::le_bytes(i.level as nat, 4) + (enc_meta(i.meta) + enc_string(i.physical_path))
}

/// Reads a numbered path.
#[verifier::opaque]
pub open spec fn parse_output(s: Seq<u8>) -> Parsed<(FileNumber, Seq<char>)> {
    match parse_int(s, 8) {
        Parsed::Failed(e) => Parsed::Failed(e),
        Parsed::Done(n, r0) => {
            match parse_string(r0) {
                Parsed::Failed(e) => Parsed::Failed(e),
                Parsed::Done(path, r1) => {
                    Parsed::Done((FileNumber(n as u64), path), r1)
                },
            }
        },
    }
}

/// An encoded numbered path.
#[verifier::opaque]
pub open spec fn enc_output(x: (FileNumber, Seq<char>)) -> Seq<u8> {
    coding::le_bytes(x.0.0 as nat, 8) + enc_string(x.1)
}

/// Reads a segment id.
pub open spec fn parse_segment(s: Seq<u8>) -> Parsed<u64> {
    match parse_int(s, 8) {
        Parsed::Failed(e) => Parsed::Failed(e),
        Parsed::Done(n, r0) => {
            Parsed::Done(n as u64, r0)
        },
    }
}

/// An encoded segment id.
pub open spec fn enc_segment(x: u64) -> Seq<u8> {
    coding::le_bytes(x as nat, 8)
}

/// Reads several input files, with their number before them.
#[verifier::opaque]
pub open spec fn parse_inputs(s: Seq<u8>) -> Parsed<Seq<InputFileView>> {
    match parse_int(s, 4) {
        Parsed::Failed(e) => Parsed::Failed(e),
        Parsed::Done(n, rest) => parse_list(rest, |b: Seq<u8>| parse_input(b), n),
    }
}

/// Several encoded input files, with their number before them.
#[verifier::opaque]
pub open spec fn enc_inputs(xs: Seq<InputFileView>) -> Seq<u8> {
    coding::le_bytes(xs.len(), 4) + enc_list(xs, |x: InputFileView| enc_input(x))
}

/// Reads several numbered paths, with their number before them.
#[verifier::opaque]
pub open spec fn parse_outputs(s: Seq<u8>) -> Parsed<Seq<(FileNumber, Seq<char>)>> {
    match parse_int(s, 4) {
        Parsed::Failed(e) => Parsed::Failed(e),
        Parsed::Done(n, rest) => parse_list(rest, |b: Seq<u8>| parse_output(b), n),
    }
}

/// Several encoded numbered paths, with their number before them.
#[verifier::opaque]
pub open spec fn enc_outputs(xs: Seq<(FileNumber, Seq<char>)>) -> Seq<u8> {
    coding::le_bytes(xs.len(), 4) + enc_list(xs, |x: (FileNumber, Seq<char>)| enc_output(x))
}

/// Reads several segment ids, with their number before them.
#[verifier::opaque]
pub open spec fn parse_segments(s: Seq<u8>) -> Parsed<Seq<u64>> {
    match parse_int(s, 4) {
        Parsed::Failed(e) => Parsed::Failed(e),
        Parsed::Done(n, rest) => parse_list(rest, |b: Seq<u8>| parse_segment(b), n),
    }
}

/// Several encoded segment ids, with their number before them.
#[verifier::opaque]
pub open spec fn enc_segments(xs: Seq<u64>) -> Seq<u8> {
    coding::le_bytes(xs.len(), 4) + enc_list(xs, |x: u64| enc_segment(x))
}

/// The compression algorithm with code `b`.
pub open spec fn strict_compression(b: nat) -> Option<CompressionType> {
    if b == 0 {
        Some(CompressionType::NoCompression)
    } else if b == 1 {
        Some(CompressionType::Lz4)
    } else if b == 2 {
        Some(CompressionType::Zstd)
    } else {
        None
    }
}

/// Reads the body of a garbage-collection directive.
#[verifier::opaque]
pub open spec fn parse_gc_body(s: Seq<u8>) -> Parsed<KvGcView> {
    match parse_segments(s) {
        Parsed::Failed(e) => Parsed::Failed(e),
        Parsed::Done(segs, r0) => {
            match parse_int(r0, 8) {
                Parsed::Failed(e) => Parsed::Failed(e),
                Parsed::Done(id, r1) => {
                    match parse_string(r1) {
                        Parsed::Failed(e) => Parsed::Failed(e),
                        Parsed::Done(dir, r2) => {
                            match parse_int(r2, 1) {
                                Parsed::Failed(e) => Parsed::Failed(e),
                                Parsed::Done(b, r3) => {
                                    match strict_compression(b) {
                                        None => Parsed::Failed(ParseError::BadCompression(b as u8)),
                                        Some(c) => Parsed::Done(
                                            KvGcView {
                                                relocate: segs.to_set(),
                                                output_segment_id: FileNumber(id as u64),
                                                db_dir: dir,
                                                vlog_compression: c,
                                            },
                                            r3,
                                        ),
                                    }
                                },
                            }
                        },
                    }
                },
            }
        },
    }
}

/// Reads an optional garbage-collection directive.
#[verifier::opaque]
pub open spec fn parse_gc(s: Seq<u8>) -> Parsed<Option<KvGcView>> {
    match parse_int(s, 1) {
        Parsed::Failed(e) => Parsed::Failed(e),
        Parsed::Done(tag, rest) => if tag == 0 {
            Parsed::Done(None, rest)
        } else {
            match parse_gc_body(rest) {
                Parsed::Failed(e) => Parsed::Failed(e),
                Parsed::Done(g, end) => Parsed::Done(Some(g), end),
            }
        },
    }
}

/// An encoded garbage-collection directive. The segment ids ascend.
#[verifier::opaque]
pub open spec fn enc_gc(gc: Option<KvGcView>) -> Seq<u8> {
    match gc {
        None => coding::le_bytes(0, 1),
        Some(g) => coding::le_bytes(1, 1) + (enc_segments(ascending(g.relocate)) + (
        coding::le_bytes(g.output_segment_id.0 as nat, 8) + (enc_string(g.db_dir)
            + coding::le_bytes(g.vlog_compression.code() as nat, 1)))),
    }
}

/// 1 for true, 0 for false.
pub open spec fn bit(b: bool) -> nat {
    if b {
        1
    } else {
        0
    }
}

/// Reads what follows magic and version.
#[verifier::opaque]
pub open spec fn parse_body(s: Seq<u8>) -> Parsed<DescriptorView> {
    match parse_int(s, 4) { Parsed::Failed(e) => Parsed::Failed(e), Parsed::Done(cf, r0) =>
    match parse_inputs(r0) { Parsed::Failed(e) => Parsed::Failed(e), Parsed::Done(inputs, r1) =>
    match parse_int(r1, 4) { Parsed::Failed(e) => Parsed::Failed(e), Parsed::Done(level, r2) =>
    match parse_int(r2, 8) { Parsed::Failed(e) => Parsed::Failed(e), Parsed::Done(number, r3) =>
    match parse_string(r3) { Parsed::Failed(e) => Parsed::Failed(e), Parsed::Done(path, r4) =>
    match parse_outputs(r4) { Parsed::Failed(e) => Parsed::Failed(e), Parsed::Done(outputs, r5) =>
    match parse_int(r5, 8) { Parsed::Failed(e) => Parsed::Failed(e), Parsed::Done(target, r6) =>
    match parse_int(r6, 8) { Parsed::Failed(e) => Parsed::Failed(e), Parsed::Done(block, r7) =>
    match parse_int(r7, 1) { Parsed::Failed(e) => Parsed::Failed(e), Parsed::Done(compression, r8) =>
    match parse_int(r8, 1) { Parsed::Failed(e) => Parsed::Failed(e), Parsed::Done(bottom, r9) =>
    match parse_int(r9, 8) { Parsed::Failed(e) => Parsed::Failed(e), Parsed::Done(snapshot, r10) =>
    match parse_string(r10) { Parsed::Failed(e) => Parsed::Failed(e), Parsed::Done(op, r11) =>
    match parse_int(r11, 1) { Parsed::Failed(e) => Parsed::Failed(e), Parsed::Done(filter, r12) =>
    match parse_gc(r12) { Parsed::Failed(e) => Parsed::Failed(e), Parsed::Done(gc, r13) =>
    Parsed::Done(
        DescriptorView {
            cf_id: ColumnFamilyId(cf as u32),
            inputs,
            output_level: level as u32,
            output_file_number: FileNumber(number as u64),
            output_path: path,
            additional_outputs: outputs,
            target_file_size: target as u64,
            block_size: block as u64,
            compression: compression as u8,
            is_bottommost: bottom != 0,
            min_active_snapshot: SequenceNumber(snapshot as u64),
            merge_operator_name: op,
            has_compaction_filter: filter != 0,
            kv_gc: gc,
        },
        r13,
    )
    }}}}}}}}}}}}}}
}

/// The files of a descriptor.
pub open spec fn enc_files(d: DescriptorView) -> Seq<u8> {
    coding::le_bytes(d.cf_id.0 as nat, 4) + (enc_inputs(d.inputs) + (coding::le_bytes(
        d.output_level as nat,
        4,
    ) + (coding::le_bytes(d.output_file_number.0 as nat, 8) + (enc_string(d.output_path)
        + enc_outputs(d.additional_outputs)))))
}

/// The settings of a descriptor.
#[verifier::opaque]
pub open spec fn enc_settings(d: DescriptorView) -> Seq<u8> {
    coding::le_bytes(d.target_file_size as nat, 8) + (coding::le_bytes(d.block_size as nat, 8) + (
    coding::le_bytes(d.compression as nat, 1) + (coding::le_bytes(bit(d.is_bottommost), 1) + (
    coding::le_bytes(d.min_active_snapshot.0 as nat, 8) + (enc_string(d.merge_operator_name) + (
    coding::le_bytes(bit(d.has_compaction_filter), 1) + enc_gc(d.kv_gc)))))))
}

/// What follows magic and version.
pub open spec fn enc_body(d: DescriptorView) -> Seq<u8> {
    enc_files(d) + enc_settings(d)
}

/// Reads a descriptor. What follows it is ignored.
pub open spec fn parse_descriptor(s: Seq<u8>) -> Parsed<DescriptorView> {
    match parse_int(s, 4) {
        Parsed::Failed(e) => Parsed::Failed(e),
        Parsed::Done(magic, r0) => if magic != DESC_MAGIC {
            Parsed::Failed(ParseError::BadMagic)
        } else {
            match parse_int(r0, 2) {
                Parsed::Failed(e) => Parsed::Failed(e),
                Parsed::Done(v, r1) => if v != DESC_VERSION {
                    Parsed::Failed(ParseError::BadVersion(v as u16))
                } else {
                    parse_body(r1)
                },
            }
        },
    }
}

/// The encoded form of a descriptor.
pub open spec fn enc_descriptor(d: DescriptorView) -> Seq<u8> {
    coding::le_bytes(DESC_MAGIC as nat, 4) + (coding::le_bytes(DESC_VERSION as nat, 2) + enc_body(
        d,
    ))
}

/// `String::from_utf8` gives the text that well-formed UTF-8 bytes encode, and
/// fails on any other bytes.
#[verifier::external_body]
fn text_from_utf8(v: Vec<u8>) -> (r: Option<String>)
    ensures
        r is Some <==> vstd::utf8::valid_utf8(v@),
        r matches Some(t) ==> t@ == vstd::utf8::decode_utf8(v@),
{
    String::from_utf8(v).ok()
}

/// A position in a byte string.
pub struct Cursor<'a> {
    pub buf: &'a [u8],
    pub pos: usize,
}

/// The error of a failed read.
pub open spec fn says_failed(r: ForstError, e: ParseError) -> bool {
    r.says(ErrorKind::Corruption, e.message())
}

impl<'a> Cursor<'a> {
    /// What is left to read.
    pub open spec fn left(self) -> Seq<u8> {
        self.buf@.skip(self.pos as int)
    }

    pub open spec fn wf(self) -> bool {
        self.pos <= self.buf@.len()
    }

    /// Takes `n` bytes; gives where they start.
    fn take(&mut self, n: usize) -> (r: ForstResult<usize>)
        requires
            old(self).wf(),
        ensures
            final(self).wf(),
            final(self).buf == old(self).buf,
            match r {
                Ok(start) => {
                    &&& start == old(self).pos
                    &&& old(self).left().len() >= n
                    &&& final(self).pos == old(self).pos + n
                    &&& final(self).left() == old(self).left().skip(n as int)
                },
                Err(e) => old(self).left().len() < n && says_failed(e, ParseError::Truncated),
            },
    {
        if n > self.buf.len() - self.pos {
            return Err(corruption_text("CompactionJobDescriptor::decode: truncated blob"));
        }
        let start: usize = self.pos;
        self.pos = self.pos + n;
        assert(self.left() =~= old(self).left().skip(n as int));
        Ok(start)
    }

    /// Reads a little-endian number of `width` bytes.
    fn number(&mut self, width: usize) -> (r: ForstResult<u64>)
        requires
            old(self).wf(),
            width <= 8,
        ensures
            final(self).wf(),
            final(self).buf == old(self).buf,
            match parse_int(old(self).left(), width as nat) {
                Parsed::Done(n, rest) => r matches Ok(v) && v == n && final(self).left() == rest
                    && n < coding::pow256(width as nat),
                Parsed::Failed(f) => r matches Err(e) && says_failed(e, f),
            },
    {
        proof {
            reveal(parse_int);
        }
        let start: usize = match self.take(width) {
            Ok(s) => s,
            Err(e) => {
                return Err(e);
            },
        };
        assert(self.buf@.subrange(start as int, start + width) =~= old(self).left().take(
            width as int,
        ));
        Ok(get_le(self.buf, start, width))
    }

    /// Reads a `u8`.
    pub fn u8(&mut self) -> (r: ForstResult<u8>)
        requires
            old(self).wf(),
        ensures
            final(self).wf(),
            final(self).buf == old(self).buf,
            match parse_int(old(self).left(), 1) {
                Parsed::Done(n, rest) => r matches Ok(v) && v == n && final(self).left() == rest,
                Parsed::Failed(f) => r matches Err(e) && says_failed(e, f),
            },
    {
        proof {
            coding::lemma_fixed_widths();
            reveal_with_fuel(coding::pow256, 2);
        }
        match self.number(1) {
            Ok(v) => Ok(v as u8),
            Err(e) => Err(e),
        }
    }

    /// Reads a `u16`.
    pub fn u16(&mut self) -> (r: ForstResult<u16>)
        requires
            old(self).wf(),
        ensures
            final(self).wf(),
            final(self).buf == old(self).buf,
            match parse_int(old(self).left(), 2) {
                Parsed::Done(n, rest) => r matches Ok(v) && v == n && final(self).left() == rest,
                Parsed::Failed(f) => r matches Err(e) && says_failed(e, f),
            },
    {
        proof {
            coding::lemma_fixed_widths();
            reveal_with_fuel(coding::pow256, 2);
        }
        match self.number(2) {
            Ok(v) => Ok(v as u16),
            Err(e) => Err(e),
        }
    }

    /// Reads a `u32`.
    pub fn u32(&mut self) -> (r: ForstResult<u32>)
        requires
            old(self).wf(),
        ensures
            final(self).wf(),
            final(self).buf == old(self).buf,
            match parse_int(old(self).left(), 4) {
                Parsed::Done(n, rest) => r matches Ok(v) && v == n && final(self).left() == rest,
                Parsed::Failed(f) => r matches Err(e) && says_failed(e, f),
            },
    {
        proof {
            coding::lemma_fixed_widths();
            reveal_with_fuel(coding::pow256, 2);
        }
        match self.number(4) {
            Ok(v) => Ok(v as u32),
            Err(e) => Err(e),
        }
    }

    /// Reads a `u64`.
    pub fn u64(&mut self) -> (r: ForstResult<u64>)
        requires
            old(self).wf(),
        ensures
            final(self).wf(),
            final(self).buf == old(self).buf,
            match parse_int(old(self).left(), 8) {
                Parsed::Done(n, rest) => r matches Ok(v) && v == n && final(self).left() == rest,
                Parsed::Failed(f) => r matches Err(e) && says_failed(e, f),
            },
    {
        proof {
            coding::lemma_fixed_widths();
            reveal_with_fuel(coding::pow256, 2);
        }
        match self.number(8) {
            Ok(v) => Ok(v),
            Err(e) => Err(e),
        }
    }

    /// Reads a byte string with its length before it.
    pub fn bytes(&mut self) -> (r: ForstResult<Vec<u8>>)
        requires
            old(self).wf(),
        ensures
            final(self).wf(),
            final(self).buf == old(self).buf,
            match parse_bytes(old(self).left()) {
                Parsed::Done(b, rest) => r matches Ok(v) && v@ == b && final(self).left() == rest,
                Parsed::Failed(f) => r matches Err(e) && says_failed(e, f),
            },
    {
        proof {
            reveal(parse_bytes);
        }
        let n = match self.u32() {
            Ok(v) => v,
            Err(e) => {
                return Err(e);
            },
        };
        let ghost mid = self.left();
        let start: usize = match self.take(n as usize) {
            Ok(s) => s,
            Err(e) => {
                return Err(e);
            },
        };
        assert(self.buf@.subrange(start as int, start + n) =~= mid.take(n as int));
        Ok(copy_bytes(vstd::slice::slice_subrange(self.buf, start, self.pos)))
    }

    /// Reads a text with its length in bytes before it.
    pub fn string(&mut self) -> (r: ForstResult<String>)
        requires
            old(self).wf(),
        ensures
            final(self).wf(),
            final(self).buf == old(self).buf,
            match parse_string(old(self).left()) {
                Parsed::Done(t, rest) => r matches Ok(v) && v@ == t && final(self).left() == rest,
                Parsed::Failed(f) => r matches Err(e) && says_failed(e, f),
            },
    {
        proof {
            reveal(parse_string);
        }
        let b = match self.bytes() {
            Ok(v) => v,
            Err(e) => {
                return Err(e);
            },
        };
        match text_from_utf8(b) {
            Some(t) => Ok(t),
            None => Err(corruption_text("CompactionJobDescriptor::decode: bad utf8 string")),
        }
    }
}

fn decode_meta(c: &mut Cursor<'_>) -> (r: ForstResult<SstFileMeta>)
    requires
        old(c).wf(),
    ensures
        final(c).wf(),
        final(c).buf == old(c).buf,
        match parse_meta(old(c).left()) {
            Parsed::Done(m, rest) => r matches Ok(v) && v@ == m && final(c).left() == rest,
            Parsed::Failed(f) => r matches Err(e) && says_failed(e, f),
        },
{
    proof {
        reveal(parse_meta);
    }
    let n = match c.u64() {
        Ok(v) => v,
        Err(e) => {
            return Err(e);
        },
    };
    let cf = match c.u32() {
        Ok(v) => v,
        Err(e) => {
            return Err(e);
        },
    };
    let size = match c.u64() {
        Ok(v) => v,
        Err(e) => {
            return Err(e);
        },
    };
    let lo = match c.bytes() {
        Ok(v) => v,
        Err(e) => {
            return Err(e);
        },
    };
    let hi = match c.bytes() {
        Ok(v) => v,
        Err(e) => {
            return Err(e);
        },
    };
    let mins = match c.u64() {
        Ok(v) => v,
        Err(e) => {
            return Err(e);
        },
    };
    let maxs = match c.u64() {
        Ok(v) => v,
        Err(e) => {
            return Err(e);
        },
    };
    let num = match c.u64() {
        Ok(v) => v,
        Err(e) => {
            return Err(e);
        },
    };
    let death = match c.u64() {
        Ok(v) => v,
        Err(e) => {
            return Err(e);
        },
    };
    Ok(
        SstFileMeta {
            file_number: FileNumber(n),
            cf_id: ColumnFamilyId(cf),
            file_size: size,
            smallest_key: lo,
            largest_key: hi,
            min_sequence: SequenceNumber(mins),
            max_sequence: SequenceNumber(maxs),
            num_entries: num,
            max_death: death,
        },
    )
}

fn decode_input(c: &mut Cursor<'_>) -> (r: ForstResult<CompactionInputFile>)
    requires
        old(c).wf(),
    ensures
        final(c).wf(),
        final(c).buf == old(c).buf,
        match parse_input(old(c).left()) {
            Parsed::Done(m, rest) => r matches Ok(v) && v@ == m && final(c).left() == rest,
            Parsed::Failed(f) => r matches Err(e) && says_failed(e, f),
        },
{
    proof {
        reveal(parse_input);
    }
    let level = match c.u32() {
        Ok(v) => v,
        Err(e) => {
            return Err(e);
        },
    };
    let meta = match decode_meta(c) {
        Ok(v) => v,
        Err(e) => {
            return Err(e);
        },
    };
    let physical_path = match c.string() {
        Ok(v) => v,
        Err(e) => {
            return Err(e);
        },
    };
    Ok(CompactionInputFile { level, meta, physical_path })
}

fn decode_output(c: &mut Cursor<'_>) -> (r: ForstResult<(FileNumber, String)>)
    requires
        old(c).wf(),
    ensures
        final(c).wf(),
        final(c).buf == old(c).buf,
        match parse_output(old(c).left()) {
            Parsed::Done(m, rest) => r matches Ok(v) && (v.0, v.1@) == m && final(c).left()
                == rest,
            Parsed::Failed(f) => r matches Err(e) && says_failed(e, f),
        },
{
    proof {
        reveal(parse_output);
    }
    let n = match c.u64() {
        Ok(v) => v,
        Err(e) => {
            return Err(e);
        },
    };
    let p = match c.string() {
        Ok(v) => v,
        Err(e) => {
            return Err(e);
        },
    };
    Ok((FileNumber(n), p))
}

fn decode_segment(c: &mut Cursor<'_>) -> (r: ForstResult<u64>)
    requires
        old(c).wf(),
    ensures
        final(c).wf(),
        final(c).buf == old(c).buf,
        match parse_segment(old(c).left()) {
            Parsed::Done(m, rest) => r matches Ok(v) && v == m && final(c).left() == rest,
            Parsed::Failed(f) => r matches Err(e) && says_failed(e, f),
        },
{
    c.u64()
}

proof fn lemma_prepend_empty<T>(r: Parsed<Seq<T>>)
    ensures
        prepend(Seq::empty(), r) == r,
{
    match r {
        Parsed::Failed(_) => {},
        Parsed::Done(xs, _) => {
            assert(Seq::<T>::empty() + xs =~= xs);
        },
    }
}

proof fn lemma_list_step<T>(xs: Seq<T>, s: Seq<u8>, p: spec_fn(Seq<u8>) -> Parsed<T>, n: nat)
    requires
        n > 0,
    ensures
        match p(s) {
            Parsed::Failed(e) => prepend(xs, parse_list(s, p, n)) == Parsed::<Seq<T>>::Failed(e),
            Parsed::Done(x, rest) => prepend(xs, parse_list(s, p, n)) == prepend(
                xs.push(x),
                parse_list(rest, p, (n - 1) as nat),
            ),
        },
{
    match p(s) {
        Parsed::Failed(_) => {},
        Parsed::Done(x, rest) => match parse_list(rest, p, (n - 1) as nat) {
            Parsed::Failed(_) => {},
            Parsed::Done(ys, _) => {
                assert(xs + (seq![x] + ys) =~= xs.push(x) + ys);
            },
        },
    }
}

fn decode_inputs(c: &mut Cursor<'_>) -> (r: ForstResult<Vec<CompactionInputFile>>)
    requires
        old(c).wf(),
    ensures
        final(c).wf(),
        final(c).buf == old(c).buf,
        match parse_inputs(old(c).left()) {
            Parsed::Done(m, rest) => r matches Ok(v) && inputs_view(v@) == m && final(c).left()
                == rest,
            Parsed::Failed(f) => r matches Err(e) && says_failed(e, f),
        },
{
    proof {
        reveal(parse_inputs);
    }
    let n = match c.u32() {
        Ok(v) => v,
        Err(e) => {
            return Err(e);
        },
    };
    let ghost p = |b: Seq<u8>| parse_input(b);
    let ghost whole = parse_list(c.left(), p, n as nat);
    let mut out: Vec<CompactionInputFile> = Vec::new();
    let mut i: u32 = 0;
    proof {
        assert(inputs_view(out@) =~= Seq::<InputFileView>::empty());
        lemma_prepend_empty(whole);
    }
    while i < n
        invariant
            i <= n,
            c.wf(),
            c.buf == old(c).buf,
            p == (|b: Seq<u8>| parse_input(b)),
            whole == prepend(inputs_view(out@), parse_list(c.left(), p, (n - i) as nat)),
            match parse_inputs(old(c).left()) {
                Parsed::Done(m, rest) => whole == Parsed::Done(m, rest),
                Parsed::Failed(f) => whole == Parsed::<Seq<InputFileView>>::Failed(f),
            },
        decreases n - i,
    {
        let ghost before = c.left();
        let ghost k = (n - i) as nat;
        assert(p(before) == parse_input(before));
        let x = match decode_input(c) {
            Ok(v) => v,
            Err(e) => {
                return Err(e);
            },
        };
        proof {
            lemma_list_step(inputs_view(out@), before, p, k);
            assert(inputs_view(out@.push(x)) =~= inputs_view(out@).push(x@));
        }
        out.push(x);
        i = i + 1;
    }
    proof {
        assert(inputs_view(out@) + Seq::<InputFileView>::empty() =~= inputs_view(out@));
    }
    Ok(out)
}

fn decode_outputs(c: &mut Cursor<'_>) -> (r: ForstResult<Vec<(FileNumber, String)>>)
    requires
        old(c).wf(),
    ensures
        final(c).wf(),
        final(c).buf == old(c).buf,
        match parse_outputs(old(c).left()) {
            Parsed::Done(m, rest) => r matches Ok(v) && outputs_view(v@) == m && final(c).left()
                == rest,
            Parsed::Failed(f) => r matches Err(e) && says_failed(e, f),
        },
{
    proof {
        reveal(parse_outputs);
    }
    let n = match c.u32() {
        Ok(v) => v,
        Err(e) => {
            return Err(e);
        },
    };
    let ghost p = |b: Seq<u8>| parse_output(b);
    let ghost whole = parse_list(c.left(), p, n as nat);
    let mut out: Vec<(FileNumber, String)> = Vec::new();
    let mut i: u32 = 0;
    proof {
        assert(outputs_view(out@) =~= Seq::<(FileNumber, Seq<char>)>::empty());
        lemma_prepend_empty(whole);
    }
    while i < n
        invariant
            i <= n,
            c.wf(),
            c.buf == old(c).buf,
            p == (|b: Seq<u8>| parse_output(b)),
            whole == prepend(outputs_view(out@), parse_list(c.left(), p, (n - i) as nat)),
            match parse_outputs(old(c).left()) {
                Parsed::Done(m, rest) => whole == Parsed::Done(m, rest),
                Parsed::Failed(f) => whole == Parsed::<Seq<(FileNumber, Seq<char>)>>::Failed(f),
            },
        decreases n - i,
    {
        let ghost before = c.left();
        let ghost k = (n - i) as nat;
        assert(p(before) == parse_output(before));
        let x = match decode_output(c) {
            Ok(v) => v,
            Err(e) => {
                return Err(e);
            },
        };
        proof {
            lemma_list_step(outputs_view(out@), before, p, k);
            assert(outputs_view(out@.push(x)) =~= outputs_view(out@).push((x.0, x.1@)));
        }
        out.push(x);
        i = i + 1;
    }
    proof {
        assert(outputs_view(out@) + Seq::<(FileNumber, Seq<char>)>::empty() =~= outputs_view(out@));
    }
    Ok(out)
}

fn decode_segments(c: &mut Cursor<'_>) -> (r: ForstResult<Vec<u64>>)
    requires
        old(c).wf(),
    ensures
        final(c).wf(),
        final(c).buf == old(c).buf,
        match parse_segments(old(c).left()) {
            Parsed::Done(m, rest) => r matches Ok(v) && v@ == m && final(c).left()
                == rest,
            Parsed::Failed(f) => r matches Err(e) && says_failed(e, f),
        },
{
    proof {
        reveal(parse_segments);
    }
    let n = match c.u32() {
        Ok(v) => v,
        Err(e) => {
            return Err(e);
        },
    };
    let ghost p = |b: Seq<u8>| parse_segment(b);
    let ghost whole = parse_list(c.left(), p, n as nat);
    let mut out: Vec<u64> = Vec::new();
    let mut i: u32 = 0;
    proof {
        assert(out@ =~= Seq::<u64>::empty());
        lemma_prepend_empty(whole);
    }
    while i < n
        invariant
            i <= n,
            c.wf(),
            c.buf == old(c).buf,
            p == (|b: Seq<u8>| parse_segment(b)),
            whole == prepend(out@, parse_list(c.left(), p, (n - i) as nat)),
            match parse_segments(old(c).left()) {
                Parsed::Done(m, rest) => whole == Parsed::Done(m, rest),
                Parsed::Failed(f) => whole == Parsed::<Seq<u64>>::Failed(f),
            },
        decreases n - i,
    {
        let ghost before = c.left();
        let ghost k = (n - i) as nat;
        assert(p(before) == parse_segment(before));
        let x = match decode_segment(c) {
            Ok(v) => v,
            Err(e) => {
                return Err(e);
            },
        };
        proof {
            lemma_list_step(out@, before, p, k);
            assert(out@.push(x) =~= out@.push(x));
        }
        out.push(x);
        i = i + 1;
    }
    proof {
        assert(out@ + Seq::<u64>::empty() =~= out@);
    }
    Ok(out)
}

fn decode_gc_body(c: &mut Cursor<'_>) -> (r: ForstResult<KvGcSpec>)
    requires
        old(c).wf(),
    ensures
        final(c).wf(),
        final(c).buf == old(c).buf,
        match parse_gc_body(old(c).left()) {
            Parsed::Done(m, rest) => r matches Ok(v) && v@ == m && final(c).left() == rest,
            Parsed::Failed(f) => r matches Err(e) && says_failed(e, f),
        },
{
    proof {
        reveal(parse_gc_body);
    }
    let segs = match decode_segments(c) {
        Ok(v) => v,
        Err(e) => {
            return Err(e);
        },
    };
    let id = match c.u64() {
        Ok(v) => v,
        Err(e) => {
            return Err(e);
        },
    };
    let dir = match c.string() {
        Ok(v) => v,
        Err(e) => {
            return Err(e);
        },
    };
    let b = match c.u8() {
        Ok(v) => v,
        Err(e) => {
            return Err(e);
        },
    };
    let vlog_compression: CompressionType = match b {
        0 => CompressionType::NoCompression,
        1 => CompressionType::Lz4,
        2 => CompressionType::Zstd,
        _ => {
            let mut m = String::new();
            m.append("compaction descriptor: invalid vlog_compression byte ");
            push_decimal(&mut m, b as u64);
            assert(m@ =~= ParseError::BadCompression(b).message());
            return Err(ForstError::Corruption(m));
        },
    };
    let mut relocate: BTreeSet<u64> = BTreeSet::new();
    let mut i: usize = 0;
    assert(segs@.take(0).to_set() =~= Set::<u64>::empty());
    while i < segs.len()
        invariant
            i <= segs@.len(),
            relocate@ == segs@.take(i as int).to_set(),
        decreases segs@.len() - i,
    {
        relocate.insert(segs[i]);
        i += 1;
        proof {
            let a = segs@.take(i - 1);
            let b = segs@.take(i as int);
            assert forall|k: u64| b.to_set().contains(k) <==> a.to_set().insert(
                segs@[i - 1],
            ).contains(k) by {
                if b.to_set().contains(k) {
                    let j = choose|j: int| 0 <= j < b.len() && b[j] == k;
                    if j < i - 1 {
                        assert(a[j] == k);
                    }
                }
                if a.to_set().contains(k) {
                    let j = choose|j: int| 0 <= j < a.len() && a[j] == k;
                    assert(b[j] == k);
                }
                if k == segs@[i - 1] {
                    assert(b[i - 1] == k);
                }
            }
            assert(b.to_set() =~= a.to_set().insert(segs@[i - 1]));
        }
    }
    assert(segs@.take(i as int) =~= segs@);
    Ok(KvGcSpec { relocate, output_segment_id: FileNumber(id), db_dir: dir, vlog_compression })
}

fn decode_gc(c: &mut Cursor<'_>) -> (r: ForstResult<Option<KvGcSpec>>)
    requires
        old(c).wf(),
    ensures
        final(c).wf(),
        final(c).buf == old(c).buf,
        match parse_gc(old(c).left()) {
            Parsed::Done(m, rest) => r matches Ok(v) && version::opt_gc(v) == m && final(c).left()
                == rest,
            Parsed::Failed(f) => r matches Err(e) && says_failed(e, f),
        },
{
    proof {
        reveal(parse_gc);
    }
    let tag = match c.u8() {
        Ok(v) => v,
        Err(e) => {
            return Err(e);
        },
    };
    if tag == 0 {
        return Ok(None);
    }
    match decode_gc_body(c) {
        Ok(g) => Ok(Some(g)),
        Err(e) => Err(e),
    }
}

fn decode_body(c: &mut Cursor<'_>) -> (r: ForstResult<CompactionJobDescriptor>)
    requires
        old(c).wf(),
    ensures
        match parse_body(old(c).left()) {
            Parsed::Done(m, rest) => r matches Ok(v) && v@ == m,
            Parsed::Failed(f) => r matches Err(e) && says_failed(e, f),
        },
{
    proof {
        reveal(parse_body);
    }
    let cf = match c.u32() {
        Ok(v) => v,
        Err(e) => {
            return Err(e);
        },
    };
    let inputs = match decode_inputs(c) {
        Ok(v) => v,
        Err(e) => {
            return Err(e);
        },
    };
    let output_level = match c.u32() {
        Ok(v) => v,
        Err(e) => {
            return Err(e);
        },
    };
    let number = match c.u64() {
        Ok(v) => v,
        Err(e) => {
            return Err(e);
        },
    };
    let output_path = match c.string() {
        Ok(v) => v,
        Err(e) => {
            return Err(e);
        },
    };
    let additional_outputs = match decode_outputs(c) {
        Ok(v) => v,
        Err(e) => {
            return Err(e);
        },
    };
    let target_file_size = match c.u64() {
        Ok(v) => v,
        Err(e) => {
            return Err(e);
        },
    };
    let block_size = match c.u64() {
        Ok(v) => v,
        Err(e) => {
            return Err(e);
        },
    };
    let compression = match c.u8() {
        Ok(v) => v,
        Err(e) => {
            return Err(e);
        },
    };
    let bottom = match c.u8() {
        Ok(v) => v,
        Err(e) => {
            return Err(e);
        },
    };
    let snapshot = match c.u64() {
        Ok(v) => v,
        Err(e) => {
            return Err(e);
        },
    };
    let merge_operator_name = match c.string() {
        Ok(v) => v,
        Err(e) => {
            return Err(e);
        },
    };
    let filter = match c.u8() {
        Ok(v) => v,
        Err(e) => {
            return Err(e);
        },
    };
    let kv_gc = match decode_gc(c) {
        Ok(v) => v,
        Err(e) => {
            return Err(e);
        },
    };
    Ok(
        CompactionJobDescriptor {
            cf_id: ColumnFamilyId(cf),
            inputs,
            output_level,
            output_file_number: FileNumber(number),
            output_path,
            additional_outputs,
            target_file_size,
            block_size,
            compression,
            is_bottommost: bottom != 0,
            min_active_snapshot: SequenceNumber(snapshot),
            merge_operator_name,
            has_compaction_filter: filter != 0,
            kv_gc,
        },
    )
}

/// Appends a `u32` in little-endian order.
pub fn put_u32(b: &mut Vec<u8>, v: u32)
    ensures
        final(b)@ == old(b)@ + coding::le_bytes(v as nat, 4),
{
    put_le(b, v as u64, 4);
}

/// Appends a byte string with its length before it.
pub fn put_bytes(b: &mut Vec<u8>, s: &[u8])
    ensures
        final(b)@ == old(b)@ + enc_bytes(s@),
{
    proof {
        reveal(enc_bytes);
    }
    put_le(b, s.len() as u64, 4);
    append_bytes(b, s);
    assert(b@ =~= old(b)@ + enc_bytes(s@));
}

/// Appends a text with its length in bytes before it.
pub fn put_str(b: &mut Vec<u8>, s: &str)
    ensures
        final(b)@ == old(b)@ + enc_string(s@),
{
    proof {
        reveal(enc_string);
    }
    put_bytes(b, s.as_bytes());
}

fn encode_meta(b: &mut Vec<u8>, m: &SstFileMeta)
    ensures
        final(b)@ == old(b)@ + enc_meta(m@),
{
    proof {
        reveal(enc_meta);
    }
    put_le(b, m.file_number.0, 8);
    put_le(b, m.cf_id.0 as u64, 4);
    put_le(b, m.file_size, 8);
    put_bytes(b, m.smallest_key.as_slice());
    put_bytes(b, m.largest_key.as_slice());
    put_le(b, m.min_sequence.0, 8);
    put_le(b, m.max_sequence.0, 8);
    put_le(b, m.num_entries, 8);
    put_le(b, m.max_death, 8);
    assert(b@ =~= old(b)@ + enc_meta(m@));
}

proof fn lemma_list_unfold<T>(xs: Seq<T>, i: int, e: spec_fn(T) -> Seq<u8>)
    requires
        0 <= i < xs.len(),
    ensures
        enc_list(xs.skip(i), e) == e(xs[i]) + enc_list(xs.skip(i + 1), e),
{
    assert(xs.skip(i).skip(1) =~= xs.skip(i + 1));
    assert(xs.skip(i)[0] == xs[i]);
}

fn encode_inputs(b: &mut Vec<u8>, inputs: &Vec<CompactionInputFile>)
    ensures
        final(b)@ == old(b)@ + enc_inputs(inputs_view(inputs@)),
{
    proof {
        reveal(enc_inputs);
    }
    let ghost xs = inputs_view(inputs@);
    let ghost e = |x: InputFileView| enc_input(x);
    put_le(b, inputs.len() as u64, 4);
    let ghost start = b@;
    let mut i: usize = 0;
    assert(xs.skip(0) =~= xs);
    while i < inputs.len()
        invariant
            i <= inputs@.len(),
            xs == inputs_view(inputs@),
            e == (|x: InputFileView| enc_input(x)),
            b@ + enc_list(xs.skip(i as int), e) == start + enc_list(xs, e),
        decreases inputs@.len() - i,
    {
        let ghost before = b@;
        put_le(b, inputs[i].level as u64, 4);
        encode_meta(b, &inputs[i].meta);
        put_str(b, inputs[i].physical_path.as_str());
        proof {
            assert(xs[i as int] == inputs@[i as int]@);
            reveal(enc_input);
            assert(b@ =~= before + enc_input(xs[i as int]));
            lemma_list_unfold(xs, i as int, e);
            assert(b@ + enc_list(xs.skip(i + 1), e) =~= before + (e(xs[i as int]) + enc_list(
                xs.skip(i + 1),
                e,
            )));
        }
        i += 1;
    }
    assert(xs.skip(i as int) =~= Seq::<InputFileView>::empty());
    assert(b@ =~= old(b)@ + enc_inputs(xs));
}

fn encode_outputs(b: &mut Vec<u8>, outputs: &Vec<(FileNumber, String)>)
    ensures
        final(b)@ == old(b)@ + enc_outputs(outputs_view(outputs@)),
{
    proof {
        reveal(enc_outputs);
    }
    let ghost xs = outputs_view(outputs@);
    let ghost e = |x: (FileNumber, Seq<char>)| enc_output(x);
    put_le(b, outputs.len() as u64, 4);
    let ghost start = b@;
    let mut i: usize = 0;
    assert(xs.skip(0) =~= xs);
    while i < outputs.len()
        invariant
            i <= outputs@.len(),
            xs == outputs_view(outputs@),
            e == (|x: (FileNumber, Seq<char>)| enc_output(x)),
            b@ + enc_list(xs.skip(i as int), e) == start + enc_list(xs, e),
        decreases outputs@.len() - i,
    {
        let ghost before = b@;
        put_le(b, outputs[i].0.0, 8);
        put_str(b, outputs[i].1.as_str());
        proof {
            assert(xs[i as int] == (outputs@[i as int].0, outputs@[i as int].1@));
            reveal(enc_output);
            assert(b@ =~= before + enc_output(xs[i as int]));
            lemma_list_unfold(xs, i as int, e);
            assert(b@ + enc_list(xs.skip(i + 1), e) =~= before + (e(xs[i as int]) + enc_list(
                xs.skip(i + 1),
                e,
            )));
        }
        i += 1;
    }
    assert(xs.skip(i as int) =~= Seq::<(FileNumber, Seq<char>)>::empty());
    assert(b@ =~= old(b)@ + enc_outputs(xs));
}

fn encode_segments(b: &mut Vec<u8>, segs: &Vec<u64>)
    ensures
        final(b)@ == old(b)@ + enc_segments(segs@),
{
    proof {
        reveal(enc_segments);
    }
    let ghost xs = segs@;
    let ghost e = |x: u64| enc_segment(x);
    put_le(b, segs.len() as u64, 4);
    let ghost start = b@;
    let mut i: usize = 0;
    assert(xs.skip(0) =~= xs);
    while i < segs.len()
        invariant
            i <= segs@.len(),
            xs == segs@,
            e == (|x: u64| enc_segment(x)),
            b@ + enc_list(xs.skip(i as int), e) == start + enc_list(xs, e),
        decreases segs@.len() - i,
    {
        let ghost before = b@;
        put_le(b, segs[i], 8);
        proof {
            assert(xs[i as int] == segs@[i as int]);
            assert(b@ =~= before + enc_segment(xs[i as int]));
            lemma_list_unfold(xs, i as int, e);
            assert(b@ + enc_list(xs.skip(i + 1), e) =~= before + (e(xs[i as int]) + enc_list(
                xs.skip(i + 1),
                e,
            )));
        }
        i += 1;
    }
    assert(xs.skip(i as int) =~= Seq::<u64>::empty());
    assert(b@ =~= old(b)@ + enc_segments(xs));
}

/// Puts `k` into its place in an ascending list that may hold it already.
fn insert_sorted(out: &mut Vec<u64>, k: u64)
    requires
        forall|i: int, j: int| 0 <= i < j < old(out)@.len() ==> old(out)@[i] < old(out)@[j],
    ensures
        forall|i: int, j: int| 0 <= i < j < final(out)@.len() ==> final(out)@[i] < final(out)@[j],
        final(out)@.to_set() == old(out)@.to_set().insert(k),
{
    let mut p: usize = out.len();
    while p > 0 && out[p - 1] >= k
        invariant
            p <= out@.len(),
            forall|i: int| p <= i < out@.len() ==> out@[i] >= k,
        decreases p,
    {
        p = p - 1;
    }
    let ghost before = out@;
    if p < out.len() && out[p] == k {
        assert(before.to_set().contains(before[p as int]));
        assert(before.to_set() =~= before.to_set().insert(k));
        return;
    }
    out.insert(p, k);
    proof {
        if p > 0 {
            assert forall|i: int| 0 <= i < p implies before[i] < k by {
                if i < p - 1 {
                    assert(before[i] < before[p - 1]);
                }
            }
        }
        assert forall|x: u64| out@.to_set().contains(x) <==> before.to_set().insert(k).contains(
            x,
        ) by {
            if out@.to_set().contains(x) {
                let i = choose|i: int| 0 <= i < out@.len() && out@[i] == x;
                if i < p {
                    assert(before[i] == x);
                } else if i > p {
                    assert(before[i - 1] == x);
                }
            }
            if before.to_set().contains(x) {
                let i = choose|i: int| 0 <= i < before.len() && before[i] == x;
                if i < p {
                    assert(out@[i] == x);
                } else {
                    assert(out@[i + 1] == x);
                }
            }
            if x == k {
                assert(out@[p as int] == x);
            }
        }
        assert(out@.to_set() =~= before.to_set().insert(k));
    }
}

/// The members of a set in ascending order.
fn sorted_members(set: &BTreeSet<u64>) -> (r: Vec<u64>)
    ensures
        r@ == ascending(set@),
{
    let mut out: Vec<u64> = Vec::new();
    let ghost keys = vstd::std_specs::btree::into_iter_btree_keys(
        vstd::std_specs::btree::spec_btree_keys_iter(set),
    );
    assert(out@.to_set() =~= keys.take(0).to_set());
    for k in it: set.iter()
        invariant
            it.seq().unref() == keys,
            keys.to_set() == set@,
            out@.to_set() == keys.take(it.index()).to_set(),
            forall|i: int, j: int| 0 <= i < j < out@.len() ==> out@[i] < out@[j],
    {
        let ghost n = it.index();
        insert_sorted(&mut out, *k);
        proof {
            assert(keys[n] == *k);
            let a = keys.take(n);
            let b = keys.take(n + 1);
            assert forall|x: u64| b.to_set().contains(x) <==> a.to_set().insert(*k).contains(x) by {
                if b.to_set().contains(x) {
                    let i = choose|i: int| 0 <= i < b.len() && b[i] == x;
                    if i < n {
                        assert(a[i] == x);
                    }
                }
                if a.to_set().contains(x) {
                    let i = choose|i: int| 0 <= i < a.len() && a[i] == x;
                    assert(b[i] == x);
                }
                if x == *k {
                    assert(b[n] == x);
                }
            }
            assert(b.to_set() =~= a.to_set().insert(*k));
        }
    }
    proof {
        assert(keys.take(keys.len() as int) =~= keys);
        vstd::seq_lib::seq_to_set_is_finite(keys);
        lemma_ascending_unique(out@);
    }
    out
}

fn encode_gc(b: &mut Vec<u8>, gc: &Option<KvGcSpec>)
    ensures
        final(b)@ == old(b)@ + enc_gc(version::opt_gc(*gc)),
{
    proof {
        reveal(enc_gc);
    }
    match gc {
        None => {
            put_le(b, 0, 1);
        },
        Some(g) => {
            put_le(b, 1, 1);
            let segs: Vec<u64> = sorted_members(&g.relocate);
            encode_segments(b, &segs);
            put_le(b, g.output_segment_id.0, 8);
            put_str(b, g.db_dir.as_str());
            put_le(b, g.vlog_compression.as_u8() as u64, 1);
            proof {
                let none = Seq::<u8>::empty();
                let v = g@;
                let last = coding::le_bytes(v.vlog_compression.code() as nat, 1);
                lemma_join(
                    old(b)@,
                    coding::le_bytes(1, 1),
                    enc_segments(ascending(v.relocate)),
                    coding::le_bytes(v.output_segment_id.0 as nat, 8),
                    enc_string(v.db_dir),
                    last,
                    none,
                    none,
                    none,
                );
                assert(last + (none + (none + none)) =~= last);
                assert(b@ + none + none + none =~= b@);
            }
        },
    }
}

proof fn lemma_join(
    s: Seq<u8>,
    a: Seq<u8>,
    b: Seq<u8>,
    c: Seq<u8>,
    d: Seq<u8>,
    e: Seq<u8>,
    f: Seq<u8>,
    g: Seq<u8>,
    h: Seq<u8>,
)
    ensures
        s + a + b + c + d + e + f + g + h == s + (a + (b + (c + (d + (e + (f + (g + h))))))),
{
    assert(s + a + b + c + d + e + f + g + h =~= s + (a + (b + (c + (d + (e + (f + (g + h))))))));
}

fn bit_of(v: bool) -> (r: u64)
    ensures
        r == bit(v),
{
    if v {
        1
    } else {
        0
    }
}

impl CompactionJobDescriptor {
    fn encode_files(&self, b: &mut Vec<u8>)
        ensures
            final(b)@ == old(b)@ + enc_files(self@),
    {
        put_le(b, self.cf_id.0 as u64, 4);
        encode_inputs(b, &self.inputs);
        put_le(b, self.output_level as u64, 4);
        put_le(b, self.output_file_number.0, 8);
        put_str(b, self.output_path.as_str());
        encode_outputs(b, &self.additional_outputs);
        assert(b@ =~= old(b)@ + enc_files(self@));
    }

    fn encode_settings(&self, b: &mut Vec<u8>)
        ensures
            final(b)@ == old(b)@ + enc_settings(self@),
    {
        proof {
            reveal(enc_settings);
        }
        put_le(b, self.target_file_size, 8);
        put_le(b, self.block_size, 8);
        put_le(b, self.compression as u64, 1);
        put_le(b, bit_of(self.is_bottommost), 1);
        put_le(b, self.min_active_snapshot.0, 8);
        put_str(b, self.merge_operator_name.as_str());
        put_le(b, bit_of(self.has_compaction_filter), 1);
        encode_gc(b, &self.kv_gc);
        proof {
            let d = self@;
            lemma_join(
                old(b)@,
                coding::le_bytes(d.target_file_size as nat, 8),
                coding::le_bytes(d.block_size as nat, 8),
                coding::le_bytes(d.compression as nat, 1),
                coding::le_bytes(bit(d.is_bottommost), 1),
                coding::le_bytes(d.min_active_snapshot.0 as nat, 8),
                enc_string(d.merge_operator_name),
                coding::le_bytes(bit(d.has_compaction_filter), 1),
                enc_gc(d.kv_gc),
            );
        }
    }

    /// The encoded form: little-endian numbers and length-prefixed strings.
    pub fn encode(&self) -> (r: Vec<u8>)
        ensures
            r@ == enc_descriptor(self@),
    {
        let mut b: Vec<u8> = Vec::new();
        put_u32(&mut b, DESC_MAGIC);
        put_le(&mut b, DESC_VERSION as u64, 2);
        self.encode_files(&mut b);
        self.encode_settings(&mut b);
        assert(b@ =~= enc_descriptor(self@));
        b
    }

    /// Reads an encoded descriptor.
    pub fn decode(buf: &[u8]) -> (r: ForstResult<Self>)
        ensures
            match parse_descriptor(buf@) {
                Parsed::Done(d, rest) => r matches Ok(v) && v@ == d,
                Parsed::Failed(f) => r matches Err(e) && says_failed(e, f),
            },
    {
        let mut c = Cursor { buf, pos: 0 };
        assert(c.left() =~= buf@);
        let magic = match c.u32() {
            Ok(v) => v,
            Err(e) => {
                return Err(e);
            },
        };
        if magic != DESC_MAGIC {
            return Err(corruption_text("CompactionJobDescriptor::decode: bad magic"));
        }
        let v = match c.u16() {
            Ok(v) => v,
            Err(e) => {
                return Err(e);
            },
        };
        if v != DESC_VERSION {
            let mut m = String::new();
            m.append("CompactionJobDescriptor::decode: unsupported version ");
            push_decimal(&mut m, v as u64);
            assert(m@ =~= ParseError::BadVersion(v).message());
            return Err(ForstError::Corruption(m));
        }
        decode_body(&mut c)
    }
}

proof fn lemma_int_back(n: nat, width: nat, rest: Seq<u8>)
    requires
        n < coding::pow256(width),
    ensures
        parse_int(coding::le_bytes(n, width) + rest, width) == Parsed::Done(n, rest),
{
    reveal(parse_int);
    coding::law_fixed_round_trip(n, width);
    let s = coding::le_bytes(n, width) + rest;
    assert(s.take(width as int) =~= coding::le_bytes(n, width));
    assert(s.skip(width as int) =~= rest);
}

proof fn lemma_widths()
    ensures
        coding::pow256(1) == 256,
        coding::pow256(2) == 0x1_0000,
        coding::pow256(4) == 0x1_0000_0000,
        coding::pow256(8) == 0x1_0000_0000_0000_0000,
{
    coding::lemma_fixed_widths();
    reveal_with_fuel(coding::pow256, 2);
}

proof fn lemma_bytes_back(b: Seq<u8>, rest: Seq<u8>)
    requires
        b.len() <= u32::MAX,
    ensures
        parse_bytes(enc_bytes(b) + rest) == Parsed::Done(b, rest),
{
    reveal(parse_bytes);
    reveal(enc_bytes);
    lemma_widths();
    lemma_int_back(b.len(), 4, b + rest);
    assert(enc_bytes(b) + rest =~= coding::le_bytes(b.len(), 4) + (b + rest));
    assert((b + rest).take(b.len() as int) =~= b);
    assert((b + rest).skip(b.len() as int) =~= rest);
}

/// The text can be encoded with its length.
pub open spec fn short_text(t: Seq<char>) -> bool {
    vstd::utf8::encode_utf8(t).len() <= u32::MAX
}

proof fn lemma_string_back(t: Seq<char>, rest: Seq<u8>)
    requires
        short_text(t),
    ensures
        parse_string(enc_string(t) + rest) == Parsed::Done(t, rest),
{
    reveal(parse_string);
    reveal(enc_string);
    lemma_bytes_back(vstd::utf8::encode_utf8(t), rest);
    vstd::utf8::encode_utf8_valid_utf8(t);
    vstd::utf8::encode_utf8_decode_utf8(t);
}

proof fn lemma_meta_back(m: SstFileMetaView, rest: Seq<u8>)
    requires
        m.smallest_key.len() <= u32::MAX,
        m.largest_key.len() <= u32::MAX,
    ensures
        parse_meta(enc_meta(m) + rest) == Parsed::Done(m, rest),
{
    reveal(parse_meta);
    lemma_widths();
    let e9 = coding::le_bytes(m.max_death as nat, 8) + rest;
    let e8 = coding::le_bytes(m.num_entries as nat, 8) + e9;
    let e7 = coding::le_bytes(m.max_sequence.0 as nat, 8) + e8;
    let e6 = coding::le_bytes(m.min_sequence.0 as nat, 8) + e7;
    let e5 = enc_bytes(m.largest_key) + e6;
    let e4 = enc_bytes(m.smallest_key) + e5;
    let e3 = coding::le_bytes(m.file_size as nat, 8) + e4;
    let e2 = coding::le_bytes(m.cf_id.0 as nat, 4) + e3;
    let e1 = coding::le_bytes(m.file_number.0 as nat, 8) + e2;
    lemma_reassociate(m, rest);
    lemma_int_back(m.file_number.0 as nat, 8, e2);
    lemma_int_back(m.cf_id.0 as nat, 4, e3);
    lemma_int_back(m.file_size as nat, 8, e4);
    lemma_bytes_back(m.smallest_key, e5);
    lemma_bytes_back(m.largest_key, e6);
    lemma_int_back(m.min_sequence.0 as nat, 8, e7);
    lemma_int_back(m.max_sequence.0 as nat, 8, e8);
    lemma_int_back(m.num_entries as nat, 8, e9);
    lemma_int_back(m.max_death as nat, 8, rest);
}

proof fn lemma_reassociate(m: SstFileMetaView, rest: Seq<u8>)
    ensures
        enc_meta(m) + rest == coding::le_bytes(m.file_number.0 as nat, 8) + (coding::le_bytes(
            m.cf_id.0 as nat,
            4,
        ) + (coding::le_bytes(m.file_size as nat, 8) + (enc_bytes(m.smallest_key) + (enc_bytes(
            m.largest_key,
        ) + (coding::le_bytes(m.min_sequence.0 as nat, 8) + (coding::le_bytes(
            m.max_sequence.0 as nat,
            8,
        ) + (coding::le_bytes(m.num_entries as nat, 8) + (coding::le_bytes(m.max_death as nat, 8)
            + rest)))))))),
{
    reveal(enc_meta);
    lemma_join_left(
        coding::le_bytes(m.file_number.0 as nat, 8),
        coding::le_bytes(m.cf_id.0 as nat, 4),
        coding::le_bytes(m.file_size as nat, 8),
        enc_bytes(m.smallest_key),
        enc_bytes(m.largest_key),
        coding::le_bytes(m.min_sequence.0 as nat, 8),
        coding::le_bytes(m.max_sequence.0 as nat, 8),
        coding::le_bytes(m.num_entries as nat, 8),
        coding::le_bytes(m.max_death as nat, 8),
        rest,
    );
}

proof fn lemma_join_left(
    a: Seq<u8>,
    b: Seq<u8>,
    c: Seq<u8>,
    d: Seq<u8>,
    e: Seq<u8>,
    f: Seq<u8>,
    g: Seq<u8>,
    h: Seq<u8>,
    i: Seq<u8>,
    r: Seq<u8>,
)
    ensures
        (a + (b + (c + (d + (e + (f + (g + (h + i)))))))) + r == a + (b + (c + (d + (e + (f + (g + (h
            + (i + r)))))))),
{
    assert((a + (b + (c + (d + (e + (f + (g + (h + i)))))))) + r =~= a + (b + (c + (d + (e + (f + (g
        + (h + (i + r)))))))));
}

/// The lengths in an input file can be encoded.
pub open spec fn short_input(i: InputFileView) -> bool {
    i.meta.smallest_key.len() <= u32::MAX && i.meta.largest_key.len() <= u32::MAX && short_text(
        i.physical_path,
    )
}

proof fn lemma_input_back(i: InputFileView, rest: Seq<u8>)
    requires
        short_input(i),
    ensures
        parse_input(enc_input(i) + rest) == Parsed::Done(i, rest),
{
    reveal(parse_input);
    reveal(enc_input);
    lemma_widths();
    let e3 = enc_string(i.physical_path) + rest;
    let e2 = enc_meta(i.meta) + e3;
    assert(enc_input(i) + rest =~= coding::le_bytes(i.level as nat, 4) + e2);
    lemma_int_back(i.level as nat, 4, e2);
    lemma_meta_back(i.meta, e3);
    lemma_string_back(i.physical_path, rest);
}

proof fn lemma_output_back(x: (FileNumber, Seq<char>), rest: Seq<u8>)
    requires
        short_text(x.1),
    ensures
        parse_output(enc_output(x) + rest) == Parsed::Done(x, rest),
{
    reveal(parse_output);
    reveal(enc_output);
    lemma_widths();
    let e2 = enc_string(x.1) + rest;
    assert(enc_output(x) + rest =~= coding::le_bytes(x.0.0 as nat, 8) + e2);
    lemma_int_back(x.0.0 as nat, 8, e2);
    lemma_string_back(x.1, rest);
}

proof fn lemma_list_back<T>(
    xs: Seq<T>,
    e: spec_fn(T) -> Seq<u8>,
    p: spec_fn(Seq<u8>) -> Parsed<T>,
    rest: Seq<u8>,
)
    requires
        forall|i: int, r: Seq<u8>|
            0 <= i < xs.len() ==> p(#[trigger] (e(xs[i]) + r)) == Parsed::Done(xs[i], r),
    ensures
        parse_list(enc_list(xs, e) + rest, p, xs.len()) == Parsed::Done(xs, rest),
    decreases xs.len(),
{
    if xs.len() == 0 {
        assert(enc_list(xs, e) + rest =~= rest);
        assert(xs =~= Seq::<T>::empty());
    } else {
        let tail = xs.skip(1);
        let r = enc_list(tail, e) + rest;
        assert forall|i: int, q: Seq<u8>| 0 <= i < tail.len() implies p(
            #[trigger] (e(tail[i]) + q),
        ) == Parsed::Done(tail[i], q) by {
            assert(tail[i] == xs[i + 1]);
            assert(p(e(xs[i + 1]) + q) == Parsed::Done(xs[i + 1], q));
        }
        lemma_list_back(tail, e, p, rest);
        assert(enc_list(xs, e) + rest =~= e(xs[0]) + r);
        assert(p(e(xs[0]) + r) == Parsed::Done(xs[0], r));
        assert(seq![xs[0]] + tail =~= xs);
    }
}

proof fn lemma_inputs_back(xs: Seq<InputFileView>, rest: Seq<u8>)
    requires
        xs.len() <= u32::MAX,
        forall|i: int| 0 <= i < xs.len() ==> short_input(#[trigger] xs[i]),
    ensures
        parse_inputs(enc_inputs(xs) + rest) == Parsed::Done(xs, rest),
{
    reveal(parse_inputs);
    reveal(enc_inputs);
    lemma_widths();
    let e = |x: InputFileView| enc_input(x);
    let p = |b: Seq<u8>| parse_input(b);
    assert forall|i: int, r: Seq<u8>| 0 <= i < xs.len() implies p(#[trigger] (e(xs[i]) + r))
        == Parsed::Done(xs[i], r) by {
        lemma_input_back(xs[i], r);
    }
    lemma_list_back(xs, e, p, rest);
    lemma_int_back(xs.len(), 4, enc_list(xs, e) + rest);
    assert(enc_inputs(xs) + rest =~= coding::le_bytes(xs.len(), 4) + (enc_list(xs, e) + rest));
}

proof fn lemma_outputs_back(xs: Seq<(FileNumber, Seq<char>)>, rest: Seq<u8>)
    requires
        xs.len() <= u32::MAX,
        forall|i: int| 0 <= i < xs.len() ==> short_text((#[trigger] xs[i]).1),
    ensures
        parse_outputs(enc_outputs(xs) + rest) == Parsed::Done(xs, rest),
{
    reveal(parse_outputs);
    reveal(enc_outputs);
    lemma_widths();
    let e = |x: (FileNumber, Seq<char>)| enc_output(x);
    let p = |b: Seq<u8>| parse_output(b);
    assert forall|i: int, r: Seq<u8>| 0 <= i < xs.len() implies p(#[trigger] (e(xs[i]) + r))
        == Parsed::Done(xs[i], r) by {
        lemma_output_back(xs[i], r);
    }
    lemma_list_back(xs, e, p, rest);
    lemma_int_back(xs.len(), 4, enc_list(xs, e) + rest);
    assert(enc_outputs(xs) + rest =~= coding::le_bytes(xs.len(), 4) + (enc_list(xs, e) + rest));
}

proof fn lemma_segments_back(xs: Seq<u64>, rest: Seq<u8>)
    requires
        xs.len() <= u32::MAX,
    ensures
        parse_segments(enc_segments(xs) + rest) == Parsed::Done(xs, rest),
{
    reveal(parse_segments);
    reveal(enc_segments);
    lemma_widths();
    let e = |x: u64| enc_segment(x);
    let p = |b: Seq<u8>| parse_segment(b);
    assert forall|i: int, r: Seq<u8>| 0 <= i < xs.len() implies p(#[trigger] (e(xs[i]) + r))
        == Parsed::Done(xs[i], r) by {
        lemma_int_back(xs[i] as nat, 8, r);
    }
    lemma_list_back(xs, e, p, rest);
    lemma_int_back(xs.len(), 4, enc_list(xs, e) + rest);
    assert(enc_segments(xs) + rest =~= coding::le_bytes(xs.len(), 4) + (enc_list(xs, e) + rest));
}

/// The lengths in a directive can be encoded.
pub open spec fn short_gc(gc: Option<KvGcView>) -> bool {
    match gc {
        None => true,
        Some(g) => g.relocate.finite() && g.relocate.len() <= u32::MAX && short_text(g.db_dir),
    }
}

proof fn lemma_gc_back(gc: Option<KvGcView>, end: Seq<u8>)
    requires
        short_gc(gc),
    ensures
        parse_gc(enc_gc(gc) + end) == Parsed::Done(gc, end),
{
    reveal(parse_gc);
    reveal(parse_gc_body);
    reveal(enc_gc);
    lemma_widths();
    match gc {
        None => {
            lemma_int_back(0, 1, end);
        },
        Some(g) => {
            lemma_ascending(g.relocate);
            let code = coding::le_bytes(g.vlog_compression.code() as nat, 1);
            let e5 = code + end;
            let e4 = enc_string(g.db_dir) + e5;
            let e3 = coding::le_bytes(g.output_segment_id.0 as nat, 8) + e4;
            let e2 = enc_segments(ascending(g.relocate)) + e3;
            lemma_int_back(1, 1, e2);
            lemma_segments_back(ascending(g.relocate), e3);
            lemma_int_back(g.output_segment_id.0 as nat, 8, e4);
            lemma_string_back(g.db_dir, e5);
            lemma_int_back(g.vlog_compression.code() as nat, 1, end);
            assert(enc_gc(gc) + end =~= coding::le_bytes(1, 1) + e2);
        },
    }
}

/// Every length in the descriptor fits the 32 bits that it is encoded in.
pub open spec fn portable(d: DescriptorView) -> bool {
    &&& d.inputs.len() <= u32::MAX
    &&& forall|i: int| 0 <= i < d.inputs.len() ==> short_input(#[trigger] d.inputs[i])
    &&& short_text(d.output_path)
    &&& d.additional_outputs.len() <= u32::MAX
    &&& forall|i: int|
        0 <= i < d.additional_outputs.len() ==> short_text((#[trigger] d.additional_outputs[i]).1)
    &&& short_text(d.merge_operator_name)
    &&& short_gc(d.kv_gc)
}

/// The bytes of a descriptor after its version, with any bytes for its two flags.
spec fn body_bytes(d: DescriptorView, bottom: u8, filter: u8, end: Seq<u8>) -> Seq<u8> {
    coding::le_bytes(d.cf_id.0 as nat, 4) + (enc_inputs(d.inputs) + (coding::le_bytes(
        d.output_level as nat,
        4,
    ) + (coding::le_bytes(d.output_file_number.0 as nat, 8) + (enc_string(d.output_path) + (
    enc_outputs(d.additional_outputs) + (coding::le_bytes(d.target_file_size as nat, 8) + (
    coding::le_bytes(d.block_size as nat, 8) + (coding::le_bytes(d.compression as nat, 1) + (
    coding::le_bytes(bottom as nat, 1) + (coding::le_bytes(d.min_active_snapshot.0 as nat, 8) + (
    enc_string(d.merge_operator_name) + (coding::le_bytes(filter as nat, 1) + (enc_gc(d.kv_gc)
        + end)))))))))))))
}

proof fn lemma_body_read(d: DescriptorView, bottom: u8, filter: u8, end: Seq<u8>)
    requires
        portable(d),
    ensures
        parse_body(body_bytes(d, bottom, filter, end)) == Parsed::Done(
            DescriptorView {
                is_bottommost: bottom != 0,
                has_compaction_filter: filter != 0,
                ..d
            },
            end,
        ),
{
    reveal(parse_body);
    lemma_widths();
    let e14 = enc_gc(d.kv_gc) + end;
    let e13 = coding::le_bytes(filter as nat, 1) + e14;
    let e12 = enc_string(d.merge_operator_name) + e13;
    let e11 = coding::le_bytes(d.min_active_snapshot.0 as nat, 8) + e12;
    let e10 = coding::le_bytes(bottom as nat, 1) + e11;
    let e9 = coding::le_bytes(d.compression as nat, 1) + e10;
    let e8 = coding::le_bytes(d.block_size as nat, 8) + e9;
    let e7 = coding::le_bytes(d.target_file_size as nat, 8) + e8;
    let e6 = enc_outputs(d.additional_outputs) + e7;
    let e5 = enc_string(d.output_path) + e6;
    let e4 = coding::le_bytes(d.output_file_number.0 as nat, 8) + e5;
    let e3 = coding::le_bytes(d.output_level as nat, 4) + e4;
    let e2 = enc_inputs(d.inputs) + e3;
    lemma_int_back(d.cf_id.0 as nat, 4, e2);
    lemma_inputs_back(d.inputs, e3);
    lemma_int_back(d.output_level as nat, 4, e4);
    lemma_int_back(d.output_file_number.0 as nat, 8, e5);
    lemma_string_back(d.output_path, e6);
    lemma_outputs_back(d.additional_outputs, e7);
    lemma_int_back(d.target_file_size as nat, 8, e8);
    lemma_int_back(d.block_size as nat, 8, e9);
    lemma_int_back(d.compression as nat, 1, e10);
    lemma_int_back(bottom as nat, 1, e11);
    lemma_int_back(d.min_active_snapshot.0 as nat, 8, e12);
    lemma_string_back(d.merge_operator_name, e13);
    lemma_int_back(filter as nat, 1, e14);
    lemma_gc_back(d.kv_gc, end);
}

proof fn lemma_body_back(d: DescriptorView)
    requires
        portable(d),
    ensures
        parse_body(enc_body(d)) == Parsed::Done(d, Seq::<u8>::empty()),
{
    reveal(enc_settings);
    let end = Seq::<u8>::empty();
    let bottom = if d.is_bottommost {
        1u8
    } else {
        0
    };
    let filter = if d.has_compaction_filter {
        1u8
    } else {
        0
    };
    lemma_body_read(d, bottom, filter, end);
    assert(enc_gc(d.kv_gc) + end =~= enc_gc(d.kv_gc));
    assert(enc_body(d) =~= body_bytes(d, bottom, filter, end));
}

/// A descriptor is lossless: decoding its encoded form gives it back.
pub proof fn law_descriptor_round_trip(d: DescriptorView)
    requires
        portable(d),
    ensures
        parse_descriptor(enc_descriptor(d)) == Parsed::Done(d, Seq::<u8>::empty()),
{
    lemma_widths();
    lemma_body_back(d);
    lemma_int_back(
        DESC_MAGIC as nat,
        4,
        coding::le_bytes(DESC_VERSION as nat, 2) + enc_body(d),
    );
    lemma_int_back(DESC_VERSION as nat, 2, enc_body(d));
}

/// What was read of the start of a byte string, held against what is read of
/// the whole, which ends in `t`: the start gives the same and leaves `t` more
/// of the whole, or it is too short.
spec fn cut_short<T>(whole: Parsed<T>, part: Parsed<T>, t: Seq<u8>) -> bool {
    whole matches Parsed::Done(x, rest) ==> match part {
        Parsed::Done(y, left) => y == x && rest == left + t,
        Parsed::Failed(e) => e is Truncated,
    }
}

/// What follows that which was read.
spec fn rest_of<T>(r: Parsed<T>) -> Seq<u8> {
    match r {
        Parsed::Done(_, rest) => rest,
        Parsed::Failed(_) => Seq::empty(),
    }
}

proof fn lemma_int_cut(s: Seq<u8>, width: nat, t: Seq<u8>)
    ensures
        cut_short(parse_int(s + t, width), parse_int(s, width), t),
{
    reveal(parse_int);
    if s.len() >= width {
        assert((s + t).take(width as int) =~= s.take(width as int));
        assert((s + t).skip(width as int) =~= s.skip(width as int) + t);
    }
}

proof fn lemma_bytes_cut(s: Seq<u8>, t: Seq<u8>)
    ensures
        cut_short(parse_bytes(s + t), parse_bytes(s), t),
{
    reveal(parse_bytes);
    lemma_int_cut(s, 4, t);
    if let Parsed::Done(n, q) = parse_int(s, 4) {
        if q.len() >= n {
            assert((q + t).take(n as int) =~= q.take(n as int));
            assert((q + t).skip(n as int) =~= q.skip(n as int) + t);
        }
    }
}

proof fn lemma_string_cut(s: Seq<u8>, t: Seq<u8>)
    ensures
        cut_short(parse_string(s + t), parse_string(s), t),
{
    reveal(parse_string);
    lemma_bytes_cut(s, t);
}

proof fn lemma_meta_cut(s: Seq<u8>, t: Seq<u8>)
    ensures
        cut_short(parse_meta(s + t), parse_meta(s), t),
{
    reveal(parse_meta);
    lemma_int_cut(s, 8, t);
    let q0 = rest_of(parse_int(s, 8));
    lemma_int_cut(q0, 4, t);
    let q1 = rest_of(parse_int(q0, 4));
    lemma_int_cut(q1, 8, t);
    let q2 = rest_of(parse_int(q1, 8));
    lemma_bytes_cut(q2, t);
    let q3 = rest_of(parse_bytes(q2));
    lemma_bytes_cut(q3, t);
    let q4 = rest_of(parse_bytes(q3));
    lemma_int_cut(q4, 8, t);
    let q5 = rest_of(parse_int(q4, 8));
    lemma_int_cut(q5, 8, t);
    let q6 = rest_of(parse_int(q5, 8));
    lemma_int_cut(q6, 8, t);
    let q7 = rest_of(parse_int(q6, 8));
    lemma_int_cut(q7, 8, t);
}

proof fn lemma_input_cut(s: Seq<u8>, t: Seq<u8>)
    ensures
        cut_short(parse_input(s + t), parse_input(s), t),
{
    reveal(parse_input);
    lemma_int_cut(s, 4, t);
    let q0 = rest_of(parse_int(s, 4));
    lemma_meta_cut(q0, t);
    let q1 = rest_of(parse_meta(q0));
    lemma_string_cut(q1, t);
}

proof fn lemma_output_cut(s: Seq<u8>, t: Seq<u8>)
    ensures
        cut_short(parse_output(s + t), parse_output(s), t),
{
    reveal(parse_output);
    lemma_int_cut(s, 8, t);
    lemma_string_cut(rest_of(parse_int(s, 8)), t);
}

proof fn lemma_list_cut<T>(s: Seq<u8>, p: spec_fn(Seq<u8>) -> Parsed<T>, n: nat, t: Seq<u8>)
    requires
        forall|q: Seq<u8>| cut_short(p(q + t), #[trigger] p(q), t),
    ensures
        cut_short(parse_list(s + t, p, n), parse_list(s, p, n), t),
    decreases n,
{
    if n > 0 {
        assert(cut_short(p(s + t), p(s), t));
        lemma_list_cut(rest_of(p(s)), p, (n - 1) as nat, t);
    }
}

proof fn lemma_inputs_cut(s: Seq<u8>, t: Seq<u8>)
    ensures
        cut_short(parse_inputs(s + t), parse_inputs(s), t),
{
    reveal(parse_inputs);
    lemma_int_cut(s, 4, t);
    let p = |b: Seq<u8>| parse_input(b);
    assert forall|q: Seq<u8>| cut_short(p(q + t), #[trigger] p(q), t) by {
        lemma_input_cut(q, t);
    }
    if let Parsed::Done(n, q) = parse_int(s, 4) {
        lemma_list_cut(q, p, n, t);
    }
}

proof fn lemma_outputs_cut(s: Seq<u8>, t: Seq<u8>)
    ensures
        cut_short(parse_outputs(s + t), parse_outputs(s), t),
{
    reveal(parse_outputs);
    lemma_int_cut(s, 4, t);
    let p = |b: Seq<u8>| parse_output(b);
    assert forall|q: Seq<u8>| cut_short(p(q + t), #[trigger] p(q), t) by {
        lemma_output_cut(q, t);
    }
    if let Parsed::Done(n, q) = parse_int(s, 4) {
        lemma_list_cut(q, p, n, t);
    }
}

proof fn lemma_segments_cut(s: Seq<u8>, t: Seq<u8>)
    ensures
        cut_short(parse_segments(s + t), parse_segments(s), t),
{
    reveal(parse_segments);
    lemma_int_cut(s, 4, t);
    let p = |b: Seq<u8>| parse_segment(b);
    assert forall|q: Seq<u8>| cut_short(p(q + t), #[trigger] p(q), t) by {
        lemma_int_cut(q, 8, t);
    }
    if let Parsed::Done(n, q) = parse_int(s, 4) {
        lemma_list_cut(q, p, n, t);
    }
}

proof fn lemma_gc_cut(s: Seq<u8>, t: Seq<u8>)
    ensures
        cut_short(parse_gc(s + t), parse_gc(s), t),
{
    reveal(parse_gc);
    reveal(parse_gc_body);
    lemma_int_cut(s, 1, t);
    let q0 = rest_of(parse_int(s, 1));
    lemma_segments_cut(q0, t);
    let q1 = rest_of(parse_segments(q0));
    lemma_int_cut(q1, 8, t);
    let q2 = rest_of(parse_int(q1, 8));
    lemma_string_cut(q2, t);
    let q3 = rest_of(parse_string(q2));
    lemma_int_cut(q3, 1, t);
}

proof fn lemma_body_cut(s: Seq<u8>, t: Seq<u8>)
    ensures
        cut_short(parse_body(s + t), parse_body(s), t),
{
    reveal(parse_body);
    lemma_int_cut(s, 4, t);
    let q0 = rest_of(parse_int(s, 4));
    lemma_inputs_cut(q0, t);
    let q1 = rest_of(parse_inputs(q0));
    lemma_int_cut(q1, 4, t);
    let q2 = rest_of(parse_int(q1, 4));
    lemma_int_cut(q2, 8, t);
    let q3 = rest_of(parse_int(q2, 8));
    lemma_string_cut(q3, t);
    let q4 = rest_of(parse_string(q3));
    lemma_outputs_cut(q4, t);
    let q5 = rest_of(parse_outputs(q4));
    lemma_int_cut(q5, 8, t);
    let q6 = rest_of(parse_int(q5, 8));
    lemma_int_cut(q6, 8, t);
    let q7 = rest_of(parse_int(q6, 8));
    lemma_int_cut(q7, 1, t);
    let q8 = rest_of(parse_int(q7, 1));
    lemma_int_cut(q8, 1, t);
    let q9 = rest_of(parse_int(q8, 1));
    lemma_int_cut(q9, 8, t);
    let q10 = rest_of(parse_int(q9, 8));
    lemma_string_cut(q10, t);
    let q11 = rest_of(parse_string(q10));
    lemma_int_cut(q11, 1, t);
    let q12 = rest_of(parse_int(q11, 1));
    lemma_gc_cut(q12, t);
}

/// A descriptor that is cut short is never taken for another: decoding any
/// shorter start of an encoded form reports the truncation.
pub proof fn law_truncated_descriptor_is_rejected(d: DescriptorView, n: nat)
    requires
        portable(d),
        n < enc_descriptor(d).len(),
    ensures
        parse_descriptor(enc_descriptor(d).take(n as int)) == Parsed::<DescriptorView>::Failed(
            ParseError::Truncated,
        ),
{
    let whole = enc_descriptor(d);
    let s = whole.take(n as int);
    let t = whole.skip(n as int);
    assert(s + t =~= whole);
    law_descriptor_round_trip(d);
    lemma_int_cut(s, 4, t);
    let q0 = rest_of(parse_int(s, 4));
    lemma_int_cut(q0, 2, t);
    let q1 = rest_of(parse_int(q0, 2));
    lemma_body_cut(q1, t);
    assert(cut_short(parse_descriptor(whole), parse_descriptor(s), t));
    assert forall|left: Seq<u8>| #[trigger] (left + t) != Seq::<u8>::empty() by {
        assert((left + t).len() > 0);
    }
}

/// The encoding is canonical: equal encoded forms come of equal descriptors.
pub proof fn law_descriptor_encoding_is_injective(a: DescriptorView, b: DescriptorView)
    requires
        portable(a),
        portable(b),
        enc_descriptor(a) == enc_descriptor(b),
    ensures
        a == b,
{
    law_descriptor_round_trip(a);
    law_descriptor_round_trip(b);
}

/// The compression algorithm with code `v`; unknown codes mean the default.
pub fn compression_from_u8(v: u8) -> (r: CompressionType)
    ensures
        r == match strict_compression(v as nat) {
            Some(c) => c,
            None => CompressionType::Lz4,
        },
{
    match v {
        0 => CompressionType::NoCompression,
        2 => CompressionType::Zstd,
        _ => CompressionType::Lz4,
    }
}

/// The path of table file `number` beside `sibling`.
pub open spec fn sibling_path(sibling: Seq<char>, number: FileNumber) -> Seq<char> {
    match paths::parent(sibling) {
        Some(dir) => paths::joined(dir, paths::sst_name(number)),
        None => paths::joined("."@, paths::sst_name(number)),
    }
}

/// The path of table file `file_number` in the directory of `sibling`.
pub fn sst_path_for(sibling: &str, file_number: FileNumber) -> (r: String)
    ensures
        r@ == sibling_path(sibling@, file_number),
{
    match parent_dir(sibling) {
        Some(dir) => sst_file_path(dir.as_str(), file_number),
        None => sst_file_path(".", file_number),
    }
}

/// A text as `Debug` shows it: in quotes, with escapes.
pub uninterp spec fn debug_quoted(s: Seq<char>) -> Seq<char>;

/// `Debug` for `str` shows the text in quotes, with escapes.
#[verifier::external_body]
fn quoted(s: &str) -> (r: String)
    ensures
        r@ == debug_quoted(s@),
{
    format!("{:?}", s)
}

/// `d` describes `job`, whose merge operator goes by the name `op_name`.
pub open spec fn describes<F: CompactionFilter, M: MergeOperator>(
    job: CompactionJob<F, M>,
    op_name: Seq<char>,
    d: DescriptorView,
) -> bool {
    &&& d.cf_id == job.cf_id
    &&& d.inputs == Seq::new(
        job.inputs@.len(),
        |i: int|
            InputFileView {
                level: job.inputs@[i].level,
                meta: job.inputs@[i].meta@,
                physical_path: sibling_path(job.output_path@, job.inputs@[i].meta.file_number),
            },
    )
    &&& d.output_level == job.output_level
    &&& d.output_file_number == job.output_file_number
    &&& d.output_path == job.output_path@
    &&& d.additional_outputs == outputs_view(job.additional_outputs@)
    &&& d.target_file_size == job.target_file_size
    &&& d.block_size == job.writer_options.block_size
    &&& d.compression == job.writer_options.compression.code()
    &&& d.is_bottommost == job.is_bottommost
    &&& d.min_active_snapshot == job.min_active_snapshot
    &&& d.merge_operator_name == op_name
    &&& d.has_compaction_filter == (job.compaction_filter is Some)
    &&& d.kv_gc == version::opt_gc(job.kv_gc)
}

fn copy_outputs(v: &Vec<(FileNumber, String)>) -> (r: Vec<(FileNumber, String)>)
    ensures
        outputs_view(r@) == outputs_view(v@),
{
    let mut out: Vec<(FileNumber, String)> = Vec::new();
    let mut i: usize = 0;
    while i < v.len()
        invariant
            i <= v@.len(),
            outputs_view(out@) == outputs_view(v@).take(i as int),
        decreases v@.len() - i,
    {
        let ghost before = out@;
        out.push((v[i].0, v[i].1.clone()));
        i += 1;
        proof {
            assert(outputs_view(out@) =~= outputs_view(before).push((v@[i - 1].0, v@[i - 1].1@)));
            assert(outputs_view(out@) =~= outputs_view(v@).take(i as int));
        }
    }
    assert(outputs_view(v@).take(i as int) =~= outputs_view(v@));
    out
}

/// The message when a filter is needed and none is given.
pub open spec fn no_filter_message() -> Seq<char> {
    "CompactionJobDescriptor::rebuild: descriptor carries a compaction filter but none was supplied — the remote worker cannot run the job faithfully"@
}

/// The message when a merge operator is not known.
pub open spec fn unknown_operator_message(name: Seq<char>) -> Seq<char> {
    "CompactionJobDescriptor::rebuild: unknown merge operator "@ + debug_quoted(name)
}

/// The job `job` is what `d` describes, with the given rows, operator and
/// filter.
pub open spec fn rebuilt<F: CompactionFilter, M: MergeOperator>(
    d: CompactionJobDescriptor,
    rows: Seq<Vec<Row>>,
    op: Option<M>,
    filter: Option<F>,
    job: CompactionJob<F, M>,
) -> bool {
    &&& job.cf_id == d.cf_id
    &&& job.inputs@ == Seq::new(
        d.inputs@.len(),
        |i: int|
            CompactionInput { level: d.inputs@[i].level, meta: d.inputs@[i].meta, rows: rows[i] },
    )
    &&& job.output_level == d.output_level
    &&& job.output_file_number == d.output_file_number
    &&& job.output_path == d.output_path
    &&& job.additional_outputs == d.additional_outputs
    &&& job.target_file_size == d.target_file_size
    &&& job.writer_options.block_size == d.block_size as usize
    &&& job.writer_options.compression == match strict_compression(d.compression as nat) {
        Some(c) => c,
        None => CompressionType::Lz4,
    }
    &&& job.writer_options.cf_id == d.cf_id
    &&& job.merge_operator == op
    &&& job.compaction_filter == filter
    &&& job.is_bottommost == d.is_bottommost
    &&& job.min_active_snapshot == d.min_active_snapshot
    &&& job.kv_gc == d.kv_gc
}

impl CompactionJobDescriptor {
    /// The descriptor of a job. Its merge operator, if there is one, goes by
    /// the name that the operator gives.
    pub fn from_job<F: CompactionFilter, M: MergeOperator>(job: &CompactionJob<F, M>) -> (r: Self)
        ensures
            describes(*job, r.merge_operator_name@, r@),
            match job.merge_operator {
                None => r.merge_operator_name@ == Seq::<char>::empty(),
                Some(m) => call_ensures(M::name, (&m,), r.merge_operator_name),
            },
    {
        let mut inputs: Vec<CompactionInputFile> = Vec::new();
        let ghost expected = Seq::new(
            job.inputs@.len(),
            |i: int|
                InputFileView {
                    level: job.inputs@[i].level,
                    meta: job.inputs@[i].meta@,
                    physical_path: sibling_path(job.output_path@, job.inputs@[i].meta.file_number),
                },
        );
        let mut i: usize = 0;
        while i < job.inputs.len()
            invariant
                i <= job.inputs@.len(),
                expected == Seq::new(
                    job.inputs@.len(),
                    |k: int|
                        InputFileView {
                            level: job.inputs@[k].level,
                            meta: job.inputs@[k].meta@,
                            physical_path: sibling_path(
                                job.output_path@,
                                job.inputs@[k].meta.file_number,
                            ),
                        },
                ),
                inputs_view(inputs@) == expected.take(i as int),
            decreases job.inputs@.len() - i,
        {
            let ghost before = inputs@;
            let f = CompactionInputFile {
                level: job.inputs[i].level,
                meta: job.inputs[i].meta.duplicate(),
                physical_path: sst_path_for(
                    job.output_path.as_str(),
                    job.inputs[i].meta.file_number,
                ),
            };
            let ghost fv = f@;
            inputs.push(f);
            i += 1;
            proof {
                assert(inputs_view(inputs@) =~= inputs_view(before).push(fv));
                assert(inputs_view(inputs@) =~= expected.take(i as int));
            }
        }
        assert(expected.take(i as int) =~= expected);
        let merge_operator_name: String = match &job.merge_operator {
            Some(m) => m.name(),
            None => String::new(),
        };
        let kv_gc: Option<KvGcSpec> = match &job.kv_gc {
            Some(g) => Some(g.duplicate()),
            None => None,
        };
        CompactionJobDescriptor {
            cf_id: job.cf_id,
            inputs,
            output_level: job.output_level,
            output_file_number: job.output_file_number,
            output_path: job.output_path.clone(),
            additional_outputs: copy_outputs(&job.additional_outputs),
            target_file_size: job.target_file_size,
            block_size: job.writer_options.block_size as u64,
            compression: job.writer_options.compression.as_u8(),
            is_bottommost: job.is_bottommost,
            min_active_snapshot: job.min_active_snapshot,
            merge_operator_name,
            has_compaction_filter: job.compaction_filter.is_some(),
            kv_gc,
        }
    }

    /// A runnable job. `rows` are the rows of the inputs, as read from their
    /// paths; `registered` is the operator that goes by the descriptor's name,
    /// for when `merge_operator` is not given. A filter must be given if the
    /// descriptor has one.
    pub fn rebuild<F: CompactionFilter, M: MergeOperator>(
        self,
        rows: Vec<Vec<Row>>,
        merge_operator: Option<M>,
        registered: Option<M>,
        compaction_filter: Option<F>,
    ) -> (r: ForstResult<CompactionJob<F, M>>)
        requires
            rows@.len() == self.inputs@.len(),
        ensures
            match r {
                Err(e) => {
                    ||| self.has_compaction_filter && compaction_filter is None && e.says(
                        ErrorKind::InvalidArgument,
                        no_filter_message(),
                    )
                    ||| !(self.has_compaction_filter && compaction_filter is None)
                        && merge_operator is None && self.merge_operator_name@.len() > 0
                        && registered is None && e.says(
                        ErrorKind::InvalidArgument,
                        unknown_operator_message(self.merge_operator_name@),
                    )
                },
                Ok(job) => {
                    &&& self.has_compaction_filter ==> compaction_filter is Some
                    &&& merge_operator is None && self.merge_operator_name@.len() > 0
                        ==> registered is Some
                    &&& rebuilt(
                        self,
                        rows@,
                        if merge_operator is Some {
                            merge_operator
                        } else if self.merge_operator_name@.len() > 0 {
                            registered
                        } else {
                            None
                        },
                        compaction_filter,
                        job,
                    )
                },
            },
    {
        if self.has_compaction_filter && compaction_filter.is_none() {
            return Err(
                invalid_argument_text(
                    "CompactionJobDescriptor::rebuild: descriptor carries a compaction filter but none was supplied — the remote worker cannot run the job faithfully",
                ),
            );
        }
        let op: Option<M> = match merge_operator {
            Some(m) => Some(m),
            None => if self.merge_operator_name.as_str().is_empty() {
                None
            } else {
                match registered {
                    Some(m) => Some(m),
                    None => {
                        let mut m = String::new();
                        m.append("CompactionJobDescriptor::rebuild: unknown merge operator ");
                        m.append(quoted(self.merge_operator_name.as_str()).as_str());
                        assert(m@ =~= unknown_operator_message(self.merge_operator_name@));
                        return Err(ForstError::InvalidArgument(m));
                    },
                }
            },
        };
        let ghost files = self.inputs@;
        let ghost all_rows = rows@;
        let mut rest: Vec<CompactionInputFile> = self.inputs;
        let mut rest_rows: Vec<Vec<Row>> = rows;
        let mut inputs: Vec<CompactionInput> = Vec::new();
        let ghost mut k: int = 0;
        while rest.len() > 0
            invariant
                0 <= k <= files.len(),
                files.len() == all_rows.len(),
                rest@ == files.skip(k),
                rest_rows@ == all_rows.skip(k),
                inputs@ == Seq::new(
                    k as nat,
                    |i: int|
                        CompactionInput {
                            level: files[i].level,
                            meta: files[i].meta,
                            rows: all_rows[i],
                        },
                ),
            decreases rest@.len(),
        {
            let f: CompactionInputFile = rest.remove(0);
            let r: Vec<Row> = rest_rows.remove(0);
            inputs.push(CompactionInput { level: f.level, meta: f.meta, rows: r });
            proof {
                k = k + 1;
                assert(rest@ =~= files.skip(k));
                assert(rest_rows@ =~= all_rows.skip(k));
                assert(inputs@ =~= Seq::new(
                    k as nat,
                    |i: int|
                        CompactionInput {
                            level: files[i].level,
                            meta: files[i].meta,
                            rows: all_rows[i],
                        },
                ));
            }
        }
        Ok(
            CompactionJob {
                cf_id: self.cf_id,
                inputs,
                output_level: self.output_level,
                output_file_number: self.output_file_number,
                output_path: self.output_path,
                additional_outputs: self.additional_outputs,
                target_file_size: self.target_file_size,
                writer_options: SstWriterOptions {
                    block_size: self.block_size as usize,
                    compression: compression_from_u8(self.compression),
                    cf_id: self.cf_id,
                },
                merge_operator: op,
                compaction_filter,
                is_bottommost: self.is_bottommost,
                min_active_snapshot: self.min_active_snapshot,
                kv_gc: self.kv_gc,
            },
        )
    }
}

/// `b` is the job `a`: it merges the same files in the same way into the same
/// outputs.
pub open spec fn same_work<F: CompactionFilter, M: MergeOperator>(
    a: CompactionJob<F, M>,
    b: CompactionJob<F, M>,
) -> bool {
    &&& a.cf_id == b.cf_id
    &&& a.inputs@.len() == b.inputs@.len()
    &&& forall|i: int|
        0 <= i < a.inputs@.len() ==> (#[trigger] a.inputs@[i]).level == b.inputs@[i].level
            && a.inputs@[i].meta@ == b.inputs@[i].meta@ && row::rows_view(a.inputs@[i].rows@)
            == row::rows_view(b.inputs@[i].rows@)
    &&& a.output_level == b.output_level
    &&& a.slots() == b.slots()
    &&& a.target_file_size == b.target_file_size
    &&& a.writer_options == b.writer_options
    &&& a.merge_operator == b.merge_operator
    &&& a.compaction_filter == b.compaction_filter
    &&& a.is_bottommost == b.is_bottommost
    &&& a.min_active_snapshot == b.min_active_snapshot
    &&& version::opt_gc(a.kv_gc) == version::opt_gc(b.kv_gc)
}

/// A job that is described and rebuilt, with the rows that its files hold and
/// its own operator and filter, is the job: what was sent is what runs.
pub proof fn law_rebuilt_job_is_the_job<F: CompactionFilter, M: MergeOperator>(
    job: CompactionJob<F, M>,
    name: Seq<char>,
    d: CompactionJobDescriptor,
    rows: Seq<Vec<Row>>,
    again: CompactionJob<F, M>,
)
    requires
        job.writer_options.cf_id == job.cf_id,
        describes(job, name, d@),
        rows.len() == job.inputs@.len(),
        forall|i: int|
            0 <= i < rows.len() ==> row::rows_view((#[trigger] rows[i])@) == row::rows_view(
                job.inputs@[i].rows@,
            ),
        rebuilt(d, rows, job.merge_operator, job.compaction_filter, again),
    ensures
        same_work(job, again),
        forall|versions: Seq<row::RowView>, r: ForstResult<Vec<Row>>| #[trigger]
            job.emission_possible(versions, r) == again.emission_possible(versions, r),
{
    assert(inputs_view(d.inputs@).len() == job.inputs@.len());
    assert forall|i: int| 0 <= i < job.inputs@.len() implies (#[trigger] job.inputs@[i]).level
        == again.inputs@[i].level && job.inputs@[i].meta@ == again.inputs@[i].meta@
        && row::rows_view(job.inputs@[i].rows@) == row::rows_view(again.inputs@[i].rows@) by {
        assert(inputs_view(d.inputs@)[i] == d.inputs@[i]@);
        assert(rows[i] == again.inputs@[i].rows);
    }
    assert(job.slots() =~= again.slots()) by {
        let a = outputs_view(d.additional_outputs@);
        let b = outputs_view(job.additional_outputs@);
        assert(a == b);
        assert forall|i: int| 0 <= i < b.len() implies again.additional_outputs@[i].0
            == job.additional_outputs@[i].0 && again.additional_outputs@[i].1@
            == job.additional_outputs@[i].1@ by {
            assert(a[i] == b[i]);
        }
    }
}

/// The bytes of a descriptor: the letters of its magic number, its version, then its
/// fields one after the other, numbers in little-endian bytes of their width. A flag
/// that is set is a byte of 1, one that is not a byte of 0.
pub proof fn law_descriptor_layout(d: DescriptorView, bottom: u8, filter: u8)
    requires
        bottom == if d.is_bottommost {
            1u8
        } else {
            0
        },
        filter == if d.has_compaction_filter {
            1u8
        } else {
            0
        },
    ensures
        enc_descriptor(d) == seq![0x44u8, 0x4a, 0x43, 0x52] + seq![1u8, 0] + coding::le_bytes(
            d.cf_id.0 as nat,
            4,
        ) + enc_inputs(d.inputs) + coding::le_bytes(d.output_level as nat, 4) + coding::le_bytes(
            d.output_file_number.0 as nat,
            8,
        ) + enc_string(d.output_path) + enc_outputs(d.additional_outputs) + coding::le_bytes(
            d.target_file_size as nat,
            8,
        ) + coding::le_bytes(d.block_size as nat, 8) + seq![d.compression] + seq![bottom]
            + coding::le_bytes(d.min_active_snapshot.0 as nat, 8) + enc_string(
            d.merge_operator_name,
        ) + seq![filter] + enc_gc(d.kv_gc),
{
    reveal(enc_settings);
    lemma_header_bytes();
    lemma_one_byte(d.compression);
    lemma_one_byte(bottom);
    lemma_one_byte(filter);
    lemma_layout(
        coding::le_bytes(DESC_MAGIC as nat, 4),
        coding::le_bytes(DESC_VERSION as nat, 2),
        seq![
            coding::le_bytes(d.cf_id.0 as nat, 4),
            enc_inputs(d.inputs),
            coding::le_bytes(d.output_level as nat, 4),
            coding::le_bytes(d.output_file_number.0 as nat, 8),
            enc_string(d.output_path),
            enc_outputs(d.additional_outputs),
            coding::le_bytes(d.target_file_size as nat, 8),
            coding::le_bytes(d.block_size as nat, 8),
            coding::le_bytes(d.compression as nat, 1),
            coding::le_bytes(bottom as nat, 1),
            coding::le_bytes(d.min_active_snapshot.0 as nat, 8),
            enc_string(d.merge_operator_name),
            coding::le_bytes(filter as nat, 1),
            enc_gc(d.kv_gc),
        ],
    );
}

proof fn lemma_header_bytes()
    ensures
        coding::le_bytes(DESC_MAGIC as nat, 4) == seq![0x44u8, 0x4a, 0x43, 0x52],
        coding::le_bytes(DESC_VERSION as nat, 2) == seq![1u8, 0],
{
    reveal_with_fuel(coding::le_bytes, 5);
    assert(coding::le_bytes(DESC_MAGIC as nat, 4) =~= seq![0x44u8, 0x4a, 0x43, 0x52]);
    assert(coding::le_bytes(DESC_VERSION as nat, 2) =~= seq![1u8, 0]);
}

proof fn lemma_one_byte(b: u8)
    ensures
        coding::le_bytes(b as nat, 1) == seq![b],
{
    reveal_with_fuel(coding::le_bytes, 2);
    assert(coding::le_bytes(b as nat, 1) =~= seq![b]);
}

proof fn lemma_one_list(f: Seq<Seq<u8>>)
    requires
        f.len() == 14,
    ensures
        (f[0] + (f[1] + (f[2] + (f[3] + (f[4] + f[5]))))) + (f[6] + (f[7] + (f[8] + (f[9] + (f[10]
            + (f[11] + (f[12] + f[13]))))))) == f[0] + (f[1] + (f[2] + (f[3] + (f[4] + (f[5] + (
        f[6] + (f[7] + (f[8] + (f[9] + (f[10] + (f[11] + (f[12] + f[13])))))))))))),
{
    let b = f[6] + (f[7] + (f[8] + (f[9] + (f[10] + (f[11] + (f[12] + f[13]))))));
    let a = f[0] + (f[1] + (f[2] + (f[3] + (f[4] + f[5]))));
    assert(a + b =~= f[0] + (f[1] + (f[2] + (f[3] + (f[4] + (f[5] + b))))));
}

proof fn lemma_layout(magic: Seq<u8>, version: Seq<u8>, f: Seq<Seq<u8>>)
    requires
        f.len() == 14,
    ensures
        magic + (version + ((f[0] + (f[1] + (f[2] + (f[3] + (f[4] + f[5]))))) + (f[6] + (f[7] + (f[8]
            + (f[9] + (f[10] + (f[11] + (f[12] + f[13]))))))))) == magic + version + f[0] + f[1]
            + f[2] + f[3] + f[4] + f[5] + f[6] + f[7] + f[8] + f[9] + f[10] + f[11] + f[12] + f[13],
{
    let a = f[0] + (f[1] + (f[2] + (f[3] + (f[4] + f[5]))));
    assert(a =~= f[0] + f[1] + f[2] + f[3] + f[4] + f[5]);
    let b = f[6] + (f[7] + (f[8] + (f[9] + (f[10] + (f[11] + (f[12] + f[13]))))));
    assert(b =~= f[6] + f[7] + f[8] + f[9] + f[10] + f[11] + f[12] + f[13]);
    assert(magic + (version + (a + b)) =~= magic + version + a + b);
    assert(magic + version + a + b =~= magic + version + f[0] + f[1] + f[2] + f[3] + f[4] + f[5]
        + f[6] + f[7] + f[8] + f[9] + f[10] + f[11] + f[12] + f[13]);
}

/// Decoding takes any byte but zero for a flag that is set, and leaves alone what
/// follows the descriptor.
pub proof fn law_descriptor_is_read_leniently(
    d: DescriptorView,
    bottom: u8,
    filter: u8,
    end: Seq<u8>,
)
    requires
        portable(d),
    ensures
        parse_descriptor(
            seq![0x44u8, 0x4a, 0x43, 0x52] + seq![1u8, 0] + coding::le_bytes(d.cf_id.0 as nat, 4)
                + enc_inputs(d.inputs) + coding::le_bytes(d.output_level as nat, 4)
                + coding::le_bytes(d.output_file_number.0 as nat, 8) + enc_string(d.output_path)
                + enc_outputs(d.additional_outputs) + coding::le_bytes(
                d.target_file_size as nat,
                8,
            ) + coding::le_bytes(d.block_size as nat, 8) + seq![d.compression] + seq![bottom]
                + coding::le_bytes(d.min_active_snapshot.0 as nat, 8) + enc_string(
                d.merge_operator_name,
            ) + seq![filter] + (enc_gc(d.kv_gc) + end),
        ) == Parsed::Done(
            DescriptorView {
                is_bottommost: bottom != 0,
                has_compaction_filter: filter != 0,
                ..d
            },
            end,
        ),
{
    let magic = coding::le_bytes(DESC_MAGIC as nat, 4);
    let version = coding::le_bytes(DESC_VERSION as nat, 2);
    lemma_header_bytes();
    lemma_one_byte(d.compression);
    lemma_one_byte(bottom);
    lemma_one_byte(filter);
    let f = seq![
        coding::le_bytes(d.cf_id.0 as nat, 4),
        enc_inputs(d.inputs),
        coding::le_bytes(d.output_level as nat, 4),
        coding::le_bytes(d.output_file_number.0 as nat, 8),
        enc_string(d.output_path),
        enc_outputs(d.additional_outputs),
        coding::le_bytes(d.target_file_size as nat, 8),
        coding::le_bytes(d.block_size as nat, 8),
        coding::le_bytes(d.compression as nat, 1),
        coding::le_bytes(bottom as nat, 1),
        coding::le_bytes(d.min_active_snapshot.0 as nat, 8),
        enc_string(d.merge_operator_name),
        coding::le_bytes(filter as nat, 1),
        enc_gc(d.kv_gc) + end,
    ];
    lemma_layout(magic, version, f);
    lemma_one_list(f);
    lemma_descriptor_read(d, bottom, filter, end);
}

proof fn lemma_descriptor_read(d: DescriptorView, bottom: u8, filter: u8, end: Seq<u8>)
    requires
        portable(d),
    ensures
        parse_descriptor(
            coding::le_bytes(DESC_MAGIC as nat, 4) + (coding::le_bytes(DESC_VERSION as nat, 2)
                + body_bytes(d, bottom, filter, end)),
        ) == Parsed::Done(
            DescriptorView {
                is_bottommost: bottom != 0,
                has_compaction_filter: filter != 0,
                ..d
            },
            end,
        ),
{
    let body = body_bytes(d, bottom, filter, end);
    lemma_widths();
    lemma_body_read(d, bottom, filter, end);
    lemma_int_back(DESC_MAGIC as nat, 4, coding::le_bytes(DESC_VERSION as nat, 2) + body);
    lemma_int_back(DESC_VERSION as nat, 2, body);
}

/// The header is checked first: too few bytes, other letters than the magic number,
/// another version.
pub proof fn law_header_is_checked_first(s: Seq<u8>)
    ensures
        s.len() < 4 ==> parse_descriptor(s) == Parsed::<DescriptorView>::Failed(
            ParseError::Truncated,
        ),
        s.len() >= 4 && !(s[0] == 0x44 && s[1] == 0x4a && s[2] == 0x43 && s[3] == 0x52)
            ==> parse_descriptor(s) == Parsed::<DescriptorView>::Failed(ParseError::BadMagic),
        s.len() >= 4 && s[0] == 0x44 && s[1] == 0x4a && s[2] == 0x43 && s[3] == 0x52 && s.len() < 6
            ==> parse_descriptor(s) == Parsed::<DescriptorView>::Failed(ParseError::Truncated),
        s.len() >= 6 && s[0] == 0x44 && s[1] == 0x4a && s[2] == 0x43 && s[3] == 0x52 && !(s[4] == 1
            && s[5] == 0) ==> parse_descriptor(s) == Parsed::<DescriptorView>::Failed(
            ParseError::BadVersion((s[4] + 0x100 * s[5]) as u16),
        ),
        s.len() >= 6 && s[0] == 0x44 && s[1] == 0x4a && s[2] == 0x43 && s[3] == 0x52 && s[4] == 1
            && s[5] == 0 ==> parse_descriptor(s) == parse_body(s.skip(6)),
{
    reveal(parse_int);
    if s.len() >= 4 {
        coding::law_four_bytes_are_digits(s.take(4));
    }
    if s.len() >= 6 {
        let v = s.skip(4).take(2);
        reveal_with_fuel(coding::le_value, 3);
        assert(v.skip(1)[0] == s[5]);
        assert(v.skip(1).skip(1).len() == 0);
        assert(coding::le_value(v) == s[4] + 0x100 * s[5]);
        assert(s.skip(4).skip(2) =~= s.skip(6));
    }
}

/// A byte string is read with its length in front, and so is a text, which must be
/// valid UTF-8; what is too short is cut off, not guessed at.
pub proof fn law_lengths_go_in_front(s: Seq<u8>, n: int)
    requires
        s.len() >= 4 ==> n == s[0] + 0x100 * s[1] + 0x1_0000 * s[2] + 0x100_0000 * s[3],
    ensures
        s.len() < 4 || s.len() < 4 + n ==> parse_bytes(s) == Parsed::<Seq<u8>>::Failed(
            ParseError::Truncated,
        ) && parse_string(s) == Parsed::<Seq<char>>::Failed(ParseError::Truncated),
        s.len() >= 4 && s.len() >= 4 + n ==> {
            &&& parse_bytes(s) == Parsed::Done(s.subrange(4, 4 + n), s.skip(4 + n))
            &&& vstd::utf8::valid_utf8(s.subrange(4, 4 + n)) ==> parse_string(s) == Parsed::Done(
                vstd::utf8::decode_utf8(s.subrange(4, 4 + n)),
                s.skip(4 + n),
            )
            &&& !vstd::utf8::valid_utf8(s.subrange(4, 4 + n)) ==> parse_string(s) == Parsed::<
                Seq<char>,
            >::Failed(ParseError::BadUtf8)
        },
{
    reveal(parse_int);
    reveal(parse_bytes);
    reveal(parse_string);
    if s.len() >= 4 {
        coding::law_four_bytes_are_digits(s.take(4));
        if s.len() >= 4 + n {
            assert(s.skip(4).take(n) =~= s.subrange(4, 4 + n));
            assert(s.skip(4).skip(n) =~= s.skip(4 + n));
        }
    }
}

/// A byte string is written with its length in front, a text as its bytes, and a list
/// as its length and its items in their order.
pub proof fn law_items_are_written_in_order(
    b: Seq<u8>,
    t: Seq<char>,
    m: SstFileMetaView,
    i: InputFileView,
    o: (FileNumber, Seq<char>),
    inputs: Seq<InputFileView>,
    outputs: Seq<(FileNumber, Seq<char>)>,
)
    ensures
        enc_bytes(b) == coding::le_bytes(b.len(), 4) + b,
        enc_string(t) == enc_bytes(vstd::utf8::encode_utf8(t)),
        enc_meta(m) == coding::le_bytes(m.file_number.0 as nat, 8) + coding::le_bytes(
            m.cf_id.0 as nat,
            4,
        ) + coding::le_bytes(m.file_size as nat, 8) + enc_bytes(m.smallest_key) + enc_bytes(
            m.largest_key,
        ) + coding::le_bytes(m.min_sequence.0 as nat, 8) + coding::le_bytes(
            m.max_sequence.0 as nat,
            8,
        ) + coding::le_bytes(m.num_entries as nat, 8) + coding::le_bytes(m.max_death as nat, 8),
        enc_input(i) == coding::le_bytes(i.level as nat, 4) + enc_meta(i.meta) + enc_string(
            i.physical_path,
        ),
        enc_output(o) == coding::le_bytes(o.0.0 as nat, 8) + enc_string(o.1),
        enc_inputs(seq![i]) == coding::le_bytes(1, 4) + enc_input(i),
        enc_outputs(seq![o]) == coding::le_bytes(1, 4) + enc_output(o),
        enc_inputs(Seq::empty()) == coding::le_bytes(0, 4),
        enc_outputs(Seq::empty()) == coding::le_bytes(0, 4),
        enc_inputs(seq![i] + inputs).skip(4) == enc_input(i) + enc_inputs(inputs).skip(4),
        enc_outputs(seq![o] + outputs).skip(4) == enc_output(o) + enc_outputs(outputs).skip(4),
{
    reveal(enc_bytes);
    reveal(enc_string);
    reveal(enc_input);
    reveal(enc_output);
    reveal(enc_inputs);
    reveal(enc_outputs);
    lemma_meta_layout(m);
    let e = |x: InputFileView| enc_input(x);
    let g = |x: (FileNumber, Seq<char>)| enc_output(x);
    reveal_with_fuel(enc_list, 2);
    assert(enc_input(i) =~= coding::le_bytes(i.level as nat, 4) + enc_meta(i.meta) + enc_string(
        i.physical_path,
    ));
    let none = Seq::<InputFileView>::empty();
    let nothing = Seq::<(FileNumber, Seq<char>)>::empty();
    assert(seq![i].skip(1) =~= none);
    assert(seq![o].skip(1) =~= nothing);
    assert(enc_list(none, e) =~= Seq::<u8>::empty());
    assert(enc_list(nothing, g) =~= Seq::<u8>::empty());
    assert(enc_list(seq![i], e) =~= enc_input(i));
    assert(enc_list(seq![o], g) =~= enc_output(o));
    assert(enc_inputs(none) =~= coding::le_bytes(0, 4));
    assert(enc_outputs(nothing) =~= coding::le_bytes(0, 4));
    let more = seq![i] + inputs;
    assert(more.skip(1) =~= inputs);
    assert(enc_list(more, e) == enc_input(i) + enc_list(inputs, e));
    coding::lemma_le_bytes_len(more.len(), 4);
    coding::lemma_le_bytes_len(inputs.len(), 4);
    assert(enc_inputs(more).skip(4) =~= enc_list(more, e));
    assert(enc_inputs(inputs).skip(4) =~= enc_list(inputs, e));
    let others = seq![o] + outputs;
    assert(others.skip(1) =~= outputs);
    assert(enc_list(others, g) == enc_output(o) + enc_list(outputs, g));
    coding::lemma_le_bytes_len(others.len(), 4);
    coding::lemma_le_bytes_len(outputs.len(), 4);
    assert(enc_outputs(others).skip(4) =~= enc_list(others, g));
    assert(enc_outputs(outputs).skip(4) =~= enc_list(outputs, g));
}

proof fn lemma_meta_layout(m: SstFileMetaView)
    ensures
        enc_meta(m) == coding::le_bytes(m.file_number.0 as nat, 8) + coding::le_bytes(
            m.cf_id.0 as nat,
            4,
        ) + coding::le_bytes(m.file_size as nat, 8) + enc_bytes(m.smallest_key) + enc_bytes(
            m.largest_key,
        ) + coding::le_bytes(m.min_sequence.0 as nat, 8) + coding::le_bytes(
            m.max_sequence.0 as nat,
            8,
        ) + coding::le_bytes(m.num_entries as nat, 8) + coding::le_bytes(m.max_death as nat, 8),
{
    reveal(enc_meta);
    assert(enc_meta(m) =~= coding::le_bytes(m.file_number.0 as nat, 8) + coding::le_bytes(
        m.cf_id.0 as nat,
        4,
    ) + coding::le_bytes(m.file_size as nat, 8) + enc_bytes(m.smallest_key) + enc_bytes(
        m.largest_key,
    ) + coding::le_bytes(m.min_sequence.0 as nat, 8) + coding::le_bytes(m.max_sequence.0 as nat, 8)
        + coding::le_bytes(m.num_entries as nat, 8) + coding::le_bytes(m.max_death as nat, 8));
}

/// Garbage collection is written as a byte that says whether there is any, then its
/// segments in ascending order, the segment to write to, the directory and the code of
/// the compression. Any byte but zero says that there is some.
pub proof fn law_collection_is_written_after_its_tag(g: KvGcView, tag: u8, rest: Seq<u8>)
    ensures
        enc_gc(None) == seq![0u8],
        enc_gc(Some(g)) == seq![1u8] + enc_segments(ascending(g.relocate)) + coding::le_bytes(
            g.output_segment_id.0 as nat,
            8,
        ) + enc_string(g.db_dir) + coding::le_bytes(g.vlog_compression.code() as nat, 1),
        parse_gc(seq![0u8] + rest) == Parsed::Done(None::<KvGcView>, rest),
        tag != 0 ==> parse_gc(seq![tag] + rest) == parse_gc(seq![1u8] + rest),
        strict_compression(0) == Some(CompressionType::NoCompression),
        strict_compression(1) == Some(CompressionType::Lz4),
        strict_compression(2) == Some(CompressionType::Zstd),
        tag > 2 ==> strict_compression(tag as nat) is None,
{
    reveal(enc_gc);
    reveal(parse_gc);
    reveal_with_fuel(coding::le_bytes, 2);
    lemma_widths();
    assert(coding::le_bytes(0, 1) =~= seq![0u8]);
    assert(coding::le_bytes(1, 1) =~= seq![1u8]);
    assert(coding::le_bytes(tag as nat, 1) =~= seq![tag]);
    lemma_int_back(0, 1, rest);
    lemma_int_back(1, 1, rest);
    lemma_int_back(tag as nat, 1, rest);
    assert(enc_gc(Some(g)) =~= seq![1u8] + enc_segments(ascending(g.relocate)) + coding::le_bytes(
        g.output_segment_id.0 as nat,
        8,
    ) + enc_string(g.db_dir) + coding::le_bytes(g.vlog_compression.code() as nat, 1));
}

/// The segments of a set, each once, from the lowest up.
pub proof fn law_segments_ascend(s: Set<u64>, i: int, j: int)
    requires
        s.finite(),
        0 <= i < j < ascending(s).len(),
    ensures
        ascending(s).to_set() == s,
        ascending(s)[i] < ascending(s)[j],
    decreases s.len(),
{
    lemma_ascending(s);
    lemma_least(s);
    let m = least(s);
    let rest = s.remove(m);
    let a = ascending(rest);
    lemma_ascending(rest);
    assert(ascending(s) == seq![m] + a);
    if i > 0 {
        law_segments_ascend(rest, i - 1, j - 1);
    } else {
        assert(a.contains(a[j - 1]));
        assert(a.to_set().contains(a[j - 1]));
        assert(rest.contains(a[j - 1]));
    }
}

/// A descriptor says what its job is, field by field; each input is looked for under
/// its own name in the directory of the output.
pub proof fn law_descriptor_says_what_the_job_is<F: CompactionFilter, M: MergeOperator>(
    job: CompactionJob<F, M>,
    name: Seq<char>,
    d: DescriptorView,
    i: int,
)
    requires
        describes(job, name, d),
    ensures
        d.cf_id == job.cf_id,
        d.inputs.len() == job.inputs@.len(),
        0 <= i < d.inputs.len() ==> {
            &&& d.inputs[i].level == job.inputs@[i].level
            &&& d.inputs[i].meta == job.inputs@[i].meta@
            &&& d.inputs[i].physical_path == paths::joined(
                match paths::parent(job.output_path@) {
                    Some(dir) => dir,
                    None => seq!['.'],
                },
                paths::sst_name(job.inputs@[i].meta.file_number),
            )
        },
        d.output_level == job.output_level,
        d.output_file_number == job.output_file_number,
        d.output_path == job.output_path@,
        d.additional_outputs.len() == job.additional_outputs@.len(),
        forall|k: int|
            0 <= k < d.additional_outputs.len() ==> (#[trigger] d.additional_outputs[k]).0
                == job.additional_outputs@[k].0 && d.additional_outputs[k].1
                == job.additional_outputs@[k].1@,
        d.target_file_size == job.target_file_size,
        d.block_size == job.writer_options.block_size,
        d.compression == job.writer_options.compression.code(),
        d.is_bottommost == job.is_bottommost,
        d.min_active_snapshot == job.min_active_snapshot,
        d.merge_operator_name == name,
        d.has_compaction_filter == (job.compaction_filter is Some),
        d.kv_gc is Some <==> job.kv_gc is Some,
        d.kv_gc matches Some(g) ==> g == job.kv_gc->0@,
{
    reveal_strlit(".");
    assert("."@ =~= seq!['.']);
}

/// A job that is rebuilt is what its descriptor says, field by field, with the rows,
/// the operator and the filter that it was given.
pub proof fn law_rebuilt_job_is_what_the_descriptor_says<F: CompactionFilter, M: MergeOperator>(
    d: CompactionJobDescriptor,
    rows: Seq<Vec<Row>>,
    op: Option<M>,
    filter: Option<F>,
    job: CompactionJob<F, M>,
    i: int,
)
    requires
        rebuilt(d, rows, op, filter, job),
        rows.len() == d.inputs@.len(),
    ensures
        job.cf_id == d.cf_id,
        job.inputs@.len() == d.inputs@.len(),
        0 <= i < rows.len() ==> {
            &&& job.inputs@[i].level == d.inputs@[i].level
            &&& job.inputs@[i].meta == d.inputs@[i].meta
            &&& job.inputs@[i].rows == rows[i]
        },
        job.output_level == d.output_level,
        job.output_file_number == d.output_file_number,
        job.output_path == d.output_path,
        job.additional_outputs == d.additional_outputs,
        job.target_file_size == d.target_file_size,
        job.writer_options.block_size == d.block_size as usize,
        job.writer_options.compression == if d.compression == 0 {
            CompressionType::NoCompression
        } else if d.compression == 2 {
            CompressionType::Zstd
        } else {
            CompressionType::Lz4
        },
        job.writer_options.cf_id == d.cf_id,
        job.merge_operator == op,
        job.compaction_filter == filter,
        job.is_bottommost == d.is_bottommost,
        job.min_active_snapshot == d.min_active_snapshot,
        job.kv_gc == d.kv_gc,
{
}

/// Every failure to decode is reported as corruption, in its own words.
pub proof fn law_decoding_failures_are_corruption(r: ForstError, f: ParseError)
    requires
        says_failed(r, f),
    ensures
        r.kind() is Corruption,
        r.message() == match f {
            ParseError::Truncated => "CompactionJobDescriptor::decode: truncated blob"@,
            ParseError::BadMagic => "CompactionJobDescriptor::decode: bad magic"@,
            ParseError::BadVersion(v) => "CompactionJobDescriptor::decode: unsupported version "@
                + text::decimal(v as nat),
            ParseError::BadUtf8 => "CompactionJobDescriptor::decode: bad utf8 string"@,
            ParseError::BadCompression(b) =>
                "compaction descriptor: invalid vlog_compression byte "@ + text::decimal(b as nat),
        },
{
}

} // verus!
