//! Fundamental types: operation types, file and sequence numbers, column
//! family ids, compression types, levels, internal keys and key ranges.

use crate::bytes::{bytes_equal, bytes_less};
use crate::error::{ErrorKind, ForstError, ForstResult};
use crate::text::{push_decimal, push_hex, push_padded6, text};
use std::cmp::Ordering;
use vstd::prelude::*;
use vstd::string::*;

verus! {

/// What a write did to its key.
#[derive(Debug, Clone, Copy, PartialEq, Eq, Hash, Structural)]
pub enum OpType {
    /// Standard key-value insertion.
    Put,
    /// Tombstone that deletes all prior versions of the key.
    Delete,
    /// Tombstone that assumes at most one prior `Put`.
    SingleDelete,
    /// Operand that a merge operator combines with the existing value.
    Merge,
}

impl OpType {
    /// The one-byte code of the operation.
    pub open spec fn code(self) -> u8 {
        match self {
            OpType::Put => 0,
            OpType::Delete => 1,
            OpType::SingleDelete => 2,
            OpType::Merge => 3,
        }
    }

    /// The name of the operation.
    pub open spec fn name(self) -> Seq<char> {
        match self {
            OpType::Put => "Put"@,
            OpType::Delete => "Delete"@,
            OpType::SingleDelete => "SingleDelete"@,
            OpType::Merge => "Merge"@,
        }
    }

    /// The operation with code `value`; `None` if no operation has that code.
    pub fn from_u8(value: u8) -> (r: Option<Self>)
        ensures
            r matches Some(op) ==> op.code() == value,
            r is None <==> value > 3,
    {
        match value {
            0 => Some(OpType::Put),
            1 => Some(OpType::Delete),
            2 => Some(OpType::SingleDelete),
            3 => Some(OpType::Merge),
            _ => None,
        }
    }

    /// The one-byte code of the operation.
    pub fn as_u8(self) -> (r: u8)
        ensures
            r == self.code(),
    {
        match self {
            OpType::Put => 0,
            OpType::Delete => 1,
            OpType::SingleDelete => 2,
            OpType::Merge => 3,
        }
    }

    /// Whether the operation is a deletion.
    pub open spec fn is_tombstone(self) -> bool {
        self is Delete || self is SingleDelete
    }

    /// The name of the operation.
    pub fn to_string(&self) -> (r: String)
        ensures
            r@ == self.name(),
    {
        match self {
            OpType::Put => text("Put"),
            OpType::Delete => text("Delete"),
            OpType::SingleDelete => text("SingleDelete"),
            OpType::Merge => text("Merge"),
        }
    }
}

/// Decoding a code gives back the operation that it was taken from.
pub proof fn law_op_code_round_trip(a: OpType, b: OpType)
    ensures
        a.code() <= 3,
        a.code() == b.code() ==> a == b,
{
}

/// Identifier of an SST or WAL file.
#[derive(Debug, Clone, Copy, PartialEq, Eq, PartialOrd, Ord, Hash, Structural)]
pub struct FileNumber(pub u64);

impl FileNumber {
    /// The raw value.
    pub fn value(self) -> (r: u64)
        ensures
            r == self.0,
    {
        self.0
    }

    /// Decimal, zero-padded to six digits.
    pub fn to_string(&self) -> (r: String)
        ensures
            r@ == crate::text::padded(self.0 as nat, 6),
    {
        let mut out = String::new();
        push_padded6(&mut out, self.0);
        assert(out@ =~= crate::text::padded(self.0 as nat, 6));
        out
    }
}

/// Sequence number of a write. Only 56 bits are used: a packed tag keeps the
/// operation code in the low eight.
#[derive(Debug, Clone, Copy, PartialEq, Eq, PartialOrd, Ord, Hash, Structural)]
pub struct SequenceNumber(pub u64);

/// The largest valid sequence number.
pub const MAX_SEQUENCE_NUMBER: u64 = 0x00FF_FFFF_FFFF_FFFF;

/// The message of a refused sequence number.
pub open spec fn sequence_limit_message(value: u64) -> Seq<char> {
    "sequence number "@ + crate::text::decimal(value as nat) + " exceeds 56-bit limit ("@
        + crate::text::decimal(MAX_SEQUENCE_NUMBER as nat) + ")"@
}

impl SequenceNumber {
    /// Wraps a raw value, unchecked.
    pub fn new(value: u64) -> (r: Self)
        ensures
            r.0 == value,
    {
        SequenceNumber(value)
    }

    /// The raw value.
    pub fn value(self) -> (r: u64)
        ensures
            r == self.0,
    {
        self.0
    }

    /// Checked constructor: refuses values of more than 56 bits.
    pub fn try_new(value: u64) -> (r: ForstResult<Self>)
        ensures
            match r {
                Ok(s) => value <= MAX_SEQUENCE_NUMBER && s.0 == value,
                Err(e) => value > MAX_SEQUENCE_NUMBER && e.says(
                    ErrorKind::InvalidArgument,
                    sequence_limit_message(value),
                ),
            },
    {
        if value > MAX_SEQUENCE_NUMBER {
            let mut m = String::new();
            m.append("sequence number ");
            push_decimal(&mut m, value);
            m.append(" exceeds 56-bit limit (");
            push_decimal(&mut m, MAX_SEQUENCE_NUMBER);
            m.append(")");
            assert(m@ =~= sequence_limit_message(value));
            return Err(ForstError::InvalidArgument(m));
        }
        Ok(SequenceNumber(value))
    }

    /// Decimal.
    pub fn to_string(&self) -> (r: String)
        ensures
            r@ == crate::text::decimal(self.0 as nat),
    {
        let mut out = String::new();
        push_decimal(&mut out, self.0);
        assert(out@ =~= crate::text::decimal(self.0 as nat));
        out
    }
}

/// Identifier of a column family.
#[derive(Debug, Clone, Copy, PartialEq, Eq, Hash, Structural)]
pub struct ColumnFamilyId(pub u32);

/// The id of the default column family.
pub const DEFAULT_CF_ID: u32 = 0;

impl ColumnFamilyId {
    /// The raw value.
    pub fn value(self) -> (r: u32)
        ensures
            r == self.0,
    {
        self.0
    }

    /// Decimal.
    pub fn to_string(&self) -> (r: String)
        ensures
            r@ == crate::text::decimal(self.0 as nat),
    {
        let mut out = String::new();
        push_decimal(&mut out, self.0 as u64);
        assert(out@ =~= crate::text::decimal(self.0 as nat));
        out
    }
}

/// Compression algorithm of SST data blocks.
#[derive(Debug, Clone, Copy, PartialEq, Eq, Structural)]
pub enum CompressionType {
    /// No compression.
    NoCompression,
    /// Fast compression with moderate ratio.
    Lz4,
    /// Higher ratio at the cost of CPU.
    Zstd,
}

impl Default for CompressionType {
    fn default() -> (r: Self)
        ensures
            r == CompressionType::Lz4,
    {
        CompressionType::Lz4
    }
}

impl CompressionType {
    /// The one-byte code of the algorithm.
    pub open spec fn code(self) -> u8 {
        match self {
            CompressionType::NoCompression => 0,
            CompressionType::Lz4 => 1,
            CompressionType::Zstd => 2,
        }
    }

    /// The name of the algorithm.
    pub open spec fn name(self) -> Seq<char> {
        match self {
            CompressionType::NoCompression => "None"@,
            CompressionType::Lz4 => "LZ4"@,
            CompressionType::Zstd => "Zstd"@,
        }
    }

    /// The one-byte code of the algorithm.
    pub fn as_u8(self) -> (r: u8)
        ensures
            r == self.code(),
    {
        match self {
            CompressionType::NoCompression => 0,
            CompressionType::Lz4 => 1,
            CompressionType::Zstd => 2,
        }
    }

    /// The name of the algorithm.
    pub fn to_string(&self) -> (r: String)
        ensures
            r@ == self.name(),
    {
        match self {
            CompressionType::NoCompression => text("None"),
            CompressionType::Lz4 => text("LZ4"),
            CompressionType::Zstd => text("Zstd"),
        }
    }
}

/// Index of a level of the tree. Level 0 is the flush target.
#[derive(Debug, Clone, Copy, PartialEq, Eq, PartialOrd, Ord, Hash, Structural)]
pub struct Level(pub u8);

/// Number of levels the engine supports.
pub const MAX_LEVELS: usize = 7;

/// The message of a refused level.
pub open spec fn level_limit_message(value: u8) -> Seq<char> {
    "level "@ + crate::text::decimal(value as nat) + " exceeds MAX_LEVELS ("@
        + crate::text::decimal(MAX_LEVELS as nat) + ")"@
}

impl Level {
    /// The raw value.
    pub fn value(self) -> (r: u8)
        ensures
            r == self.0,
    {
        self.0
    }

    /// Checked constructor: refuses values from [`MAX_LEVELS`] on.
    pub fn try_new(value: u8) -> (r: ForstResult<Self>)
        ensures
            match r {
                Ok(l) => value < MAX_LEVELS && l.0 == value,
                Err(e) => value >= MAX_LEVELS && e.says(
                    ErrorKind::InvalidArgument,
                    level_limit_message(value),
                ),
            },
    {
        if (value as usize) >= MAX_LEVELS {
            let mut m = String::new();
            m.append("level ");
            push_decimal(&mut m, value as u64);
            m.append(" exceeds MAX_LEVELS (");
            push_decimal(&mut m, MAX_LEVELS as u64);
            m.append(")");
            assert(m@ =~= level_limit_message(value));
            return Err(ForstError::InvalidArgument(m));
        }
        Ok(Level(value))
    }

    /// `L` followed by the index.
    pub fn to_string(&self) -> (r: String)
        ensures
            r@ == "L"@ + crate::text::decimal(self.0 as nat),
    {
        let mut out = String::new();
        out.append("L");
        push_decimal(&mut out, self.0 as u64);
        assert(out@ =~= "L"@ + crate::text::decimal(self.0 as nat));
        out
    }
}

/// The parts of an internal key.
pub struct InternalKeyView {
    pub user_key: Seq<u8>,
    pub sequence: SequenceNumber,
    pub op_type: OpType,
}

/// A user key with the sequence number and operation of one of its versions.
///
/// Internal keys sort by user key ascending, then by sequence number
/// descending (newer first), then by operation code ascending.
#[derive(Debug, Clone)]
pub struct InternalKey {
    user_key: Vec<u8>,
    sequence: SequenceNumber,
    op_type: OpType,
}

impl View for InternalKey {
    type V = InternalKeyView;

    closed spec fn view(&self) -> InternalKeyView {
        InternalKeyView {
            user_key: self.user_key@,
            sequence: self.sequence,
            op_type: self.op_type,
        }
    }
}

/// The order of internal keys.
pub open spec fn internal_before(a: InternalKeyView, b: InternalKeyView) -> bool {
    ||| crate::bytes::lex_lt(a.user_key, b.user_key)
    ||| a.user_key == b.user_key && a.sequence.0 > b.sequence.0
    ||| a.user_key == b.user_key && a.sequence.0 == b.sequence.0 && a.op_type.code()
        < b.op_type.code()
}

/// The displayed form of an internal key.
pub open spec fn internal_key_text(k: InternalKeyView) -> Seq<char> {
    crate::text::hex(k.user_key) + " @ "@ + crate::text::decimal(k.sequence.0 as nat) + " ("@
        + k.op_type.name() + ")"@
}

impl InternalKey {
    /// Builds an internal key. The sequence number has at most 56 bits.
    pub fn new(user_key: Vec<u8>, sequence: SequenceNumber, op_type: OpType) -> (r: Self)
        requires
            sequence.0 <= MAX_SEQUENCE_NUMBER,
        ensures
            r@.user_key == user_key@,
            r@.sequence == sequence,
            r@.op_type == op_type,
    {
        InternalKey { user_key, sequence, op_type }
    }

    /// The user key.
    pub fn user_key(&self) -> (r: &[u8])
        ensures
            r@ == self@.user_key,
    {
        self.user_key.as_slice()
    }

    /// The sequence number.
    pub fn sequence(&self) -> (r: SequenceNumber)
        ensures
            r == self@.sequence,
    {
        self.sequence
    }

    /// The operation.
    pub fn op_type(&self) -> (r: OpType)
        ensures
            r == self@.op_type,
    {
        self.op_type
    }

    /// Whether this key sorts strictly before `other`.
    pub fn before(&self, other: &Self) -> (r: bool)
        ensures
            r == internal_before(self@, other@),
    {
        if bytes_equal(self.user_key.as_slice(), other.user_key.as_slice()) {
            proof {
                crate::bytes::lemma_lex_irreflexive(self.user_key@);
            }
            self.sequence.0 > other.sequence.0 || (self.sequence.0 == other.sequence.0
                && self.op_type.as_u8() < other.op_type.as_u8())
        } else {
            bytes_less(self.user_key.as_slice(), other.user_key.as_slice())
        }
    }

    /// Hexadecimal user key, sequence number and operation.
    pub fn to_string(&self) -> (r: String)
        ensures
            r@ == internal_key_text(self@),
    {
        let mut out = String::new();
        push_hex(&mut out, self.user_key.as_slice());
        out.append(" @ ");
        push_decimal(&mut out, self.sequence.0);
        out.append(" (");
        out.append(self.op_type.to_string().as_str());
        out.append(")");
        assert(out@ =~= internal_key_text(self@));
        out
    }
}

impl PartialEq for InternalKey {
    fn eq(&self, other: &Self) -> (r: bool) {
        bytes_equal(self.user_key.as_slice(), other.user_key.as_slice()) && self.sequence.0
            == other.sequence.0 && self.op_type.as_u8() == other.op_type.as_u8()
    }
}

impl Eq for InternalKey {

}

impl vstd::std_specs::cmp::PartialEqSpecImpl for InternalKey {
    open spec fn obeys_eq_spec() -> bool {
        true
    }

    open spec fn eq_spec(&self, other: &Self) -> bool {
        self@ == other@
    }
}

impl PartialOrd for InternalKey {
    fn partial_cmp(&self, other: &Self) -> (r: Option<Ordering>) {
        if self.before(other) {
            Some(Ordering::Less)
        } else if other.before(self) {
            Some(Ordering::Greater)
        } else {
            Some(Ordering::Equal)
        }
    }
}

impl vstd::std_specs::cmp::PartialOrdSpecImpl for InternalKey {
    open spec fn obeys_partial_cmp_spec() -> bool {
        true
    }

    open spec fn partial_cmp_spec(&self, other: &Self) -> Option<Ordering> {
        if internal_before(self@, other@) {
            Some(Ordering::Less)
        } else if internal_before(other@, self@) {
            Some(Ordering::Greater)
        } else {
            Some(Ordering::Equal)
        }
    }
}

/// The order of internal keys is a strict total order: nothing precedes
/// itself, precedence is transitive, and of two distinct keys one precedes the
/// other.
pub proof fn law_internal_order(a: InternalKeyView, b: InternalKeyView, c: InternalKeyView)
    ensures
        !internal_before(a, a),
        internal_before(a, b) && internal_before(b, c) ==> internal_before(a, c),
        internal_before(a, b) || a == b || internal_before(b, a),
        !(internal_before(a, b) && internal_before(b, a)),
{
    crate::bytes::lemma_lex_irreflexive(a.user_key);
    crate::bytes::lemma_lex_total(a.user_key, b.user_key);
    law_op_code_round_trip(a.op_type, b.op_type);
    if crate::bytes::lex_lt(a.user_key, b.user_key) {
        crate::bytes::lemma_lex_asymmetric(a.user_key, b.user_key);
        if crate::bytes::lex_lt(b.user_key, c.user_key) {
            crate::bytes::lemma_lex_transitive(a.user_key, b.user_key, c.user_key);
        }
    }
    if crate::bytes::lex_lt(b.user_key, a.user_key) {
        crate::bytes::lemma_lex_asymmetric(b.user_key, a.user_key);
    }
}

/// For one user key, the version with the larger sequence number comes first.
pub proof fn law_newer_version_first(a: InternalKeyView, b: InternalKeyView)
    requires
        a.user_key == b.user_key,
        a.sequence.0 > b.sequence.0,
    ensures
        internal_before(a, b),
        !internal_before(b, a),
{
    law_internal_order(a, b, a);
}

/// A half-open key range. It is empty when `start` does not sort before `end`.
#[derive(Debug, Clone, PartialEq, Eq)]
pub struct KeyRange {
    /// Inclusive lower bound.
    pub start: Vec<u8>,
    /// Exclusive upper bound.
    pub end: Vec<u8>,
}

/// `key` lies in the half-open range from `start` to `end`.
pub open spec fn in_range(start: Seq<u8>, end: Seq<u8>, key: Seq<u8>) -> bool {
    crate::bytes::lex_le(start, key) && crate::bytes::lex_lt(key, end)
}

impl KeyRange {
    /// A range with the given bounds.
    pub fn new(start: Vec<u8>, end: Vec<u8>) -> (r: Self)
        ensures
            r.start == start,
            r.end == end,
    {
        KeyRange { start, end }
    }

    /// Some key lies in both ranges' bounds.
    pub open spec fn meets(self, other: KeyRange) -> bool {
        exists|key: Seq<u8>| in_range(self.start@, self.end@, key) && in_range(
            other.start@,
            other.end@,
            key,
        )
    }

    /// Whether `key` lies in the range.
    pub fn contains(&self, key: &[u8]) -> (r: bool)
        ensures
            r == in_range(self.start@, self.end@, key@),
    {
        proof {
            crate::bytes::lemma_lex_not_lt(key@, self.start@);
            if in_range(self.start@, self.end@, key@) {
                crate::bytes::lemma_lex_le_lt(self.start@, key@, self.end@);
            }
        }
        if self.is_empty() {
            return false;
        }
        !bytes_less(key, self.start.as_slice()) && bytes_less(key, self.end.as_slice())
    }

    /// Whether some key lies in both ranges.
    pub fn overlaps(&self, other: &KeyRange) -> (r: bool)
        ensures
            r == self.meets(*other),
    {
        proof {
            lemma_ranges_meet(*self, *other);
        }
        if self.is_empty() || other.is_empty() {
            return false;
        }
        bytes_less(self.start.as_slice(), other.end.as_slice()) && bytes_less(
            other.start.as_slice(),
            self.end.as_slice(),
        )
    }

    /// Whether no key lies in the range.
    pub fn is_empty(&self) -> (r: bool)
        ensures
            r == !crate::bytes::lex_lt(self.start@, self.end@),
            r == (forall|key: Seq<u8>| !in_range(self.start@, self.end@, key)),
    {
        proof {
            lemma_range_inhabited(self.start@, self.end@);
        }
        !bytes_less(self.start.as_slice(), self.end.as_slice())
    }

    /// Both bounds in hexadecimal.
    pub fn to_string(&self) -> (r: String)
        ensures
            r@ == "["@ + crate::text::hex(self.start@) + ", "@ + crate::text::hex(self.end@)
                + ")"@,
    {
        let mut out = String::new();
        out.append("[");
        push_hex(&mut out, self.start.as_slice());
        out.append(", ");
        push_hex(&mut out, self.end.as_slice());
        out.append(")");
        assert(out@ =~= "["@ + crate::text::hex(self.start@) + ", "@ + crate::text::hex(
            self.end@,
        ) + ")"@);
        out
    }
}

proof fn lemma_range_inhabited(start: Seq<u8>, end: Seq<u8>)
    ensures
        crate::bytes::lex_lt(start, end) ==> in_range(start, end, start),
        (exists|key: Seq<u8>| in_range(start, end, key)) ==> crate::bytes::lex_lt(start, end),
{
    if exists|key: Seq<u8>| in_range(start, end, key) {
        let key = choose|key: Seq<u8>| in_range(start, end, key);
        crate::bytes::lemma_lex_le_lt(start, key, end);
    }
}

proof fn lemma_ranges_meet(a: KeyRange, b: KeyRange)
    ensures
        a.meets(b) == {
            &&& crate::bytes::lex_lt(a.start@, a.end@)
            &&& crate::bytes::lex_lt(b.start@, b.end@)
            &&& crate::bytes::lex_lt(a.start@, b.end@)
            &&& crate::bytes::lex_lt(b.start@, a.end@)
        },
{
    if a.meets(b) {
        let key = choose|key: Seq<u8>|
            in_range(a.start@, a.end@, key) && in_range(b.start@, b.end@, key);
        crate::bytes::lemma_lex_le_lt(a.start@, key, a.end@);
        crate::bytes::lemma_lex_le_lt(b.start@, key, b.end@);
        crate::bytes::lemma_lex_le_lt(a.start@, key, b.end@);
        crate::bytes::lemma_lex_le_lt(b.start@, key, a.end@);
    }
    crate::bytes::lemma_lex_total(a.start@, b.start@);
    if crate::bytes::lex_lt(a.start@, b.start@) {
        if crate::bytes::lex_lt(b.start@, a.end@) && crate::bytes::lex_lt(b.start@, b.end@) {
            assert(in_range(a.start@, a.end@, b.start@) && in_range(b.start@, b.end@, b.start@));
        }
    } else {
        if crate::bytes::lex_lt(a.start@, a.end@) && crate::bytes::lex_lt(a.start@, b.end@) {
            assert(in_range(a.start@, a.end@, a.start@) && in_range(b.start@, b.end@, a.start@));
        }
    }
}

/// Two half-open ranges overlap exactly when both are non-empty and each
/// starts before the other ends.
pub proof fn law_overlap_by_bounds(a: KeyRange, b: KeyRange)
    ensures
        a.meets(b) == (crate::bytes::lex_lt(a.start@, a.end@) && crate::bytes::lex_lt(
            b.start@,
            b.end@,
        ) && crate::bytes::lex_lt(a.start@, b.end@) && crate::bytes::lex_lt(b.start@, a.end@)),
        a.meets(b) == b.meets(a),
{
    lemma_ranges_meet(a, b);
    lemma_ranges_meet(b, a);
}

/// An empty range contains nothing and overlaps nothing.
pub proof fn law_empty_range(a: KeyRange, b: KeyRange, key: Seq<u8>)
    requires
        !crate::bytes::lex_lt(a.start@, a.end@),
    ensures
        !in_range(a.start@, a.end@, key),
        !a.meets(b),
        !b.meets(a),
{
    lemma_range_inhabited(a.start@, a.end@);
    lemma_ranges_meet(a, b);
    lemma_ranges_meet(b, a);
}

/// The codes and names of the operations and of the compressions, and which operations
/// delete.
pub proof fn law_operations()
    ensures
        OpType::Put.code() == 0,
        OpType::Delete.code() == 1,
        OpType::SingleDelete.code() == 2,
        OpType::Merge.code() == 3,
        !OpType::Put.is_tombstone(),
        OpType::Delete.is_tombstone(),
        OpType::SingleDelete.is_tombstone(),
        !OpType::Merge.is_tombstone(),
        CompressionType::NoCompression.code() == 0,
        CompressionType::Lz4.code() == 1,
        CompressionType::Zstd.code() == 2,
        OpType::Put.name() == "Put"@,
        OpType::Delete.name() == "Delete"@,
        OpType::SingleDelete.name() == "SingleDelete"@,
        OpType::Merge.name() == "Merge"@,
        CompressionType::NoCompression.name() == "None"@,
        CompressionType::Lz4.name() == "LZ4"@,
        CompressionType::Zstd.name() == "Zstd"@,
{
}

/// Versions are ordered by key first, the newest first within a key, and by operation
/// where both are the same.
pub proof fn law_versions_go_by_key_then_age(a: InternalKeyView, b: InternalKeyView)
    ensures
        crate::bytes::lex_lt(a.user_key, b.user_key) ==> internal_before(a, b) && !internal_before(
            b,
            a,
        ),
        a.user_key == b.user_key && a.sequence.0 != b.sequence.0 ==> (internal_before(a, b)
            <==> a.sequence.0 > b.sequence.0),
        a.user_key == b.user_key && a.sequence.0 == b.sequence.0 ==> (internal_before(a, b)
            <==> a.op_type.code() < b.op_type.code()),
{
    crate::bytes::lemma_lex_irreflexive(a.user_key);
    if crate::bytes::lex_lt(a.user_key, b.user_key) {
        crate::bytes::lemma_lex_asymmetric(a.user_key, b.user_key);
    }
}

/// A range holds its start and not its end.
pub proof fn law_range_is_half_open(start: Seq<u8>, end: Seq<u8>, key: Seq<u8>)
    ensures
        crate::bytes::lex_lt(start, end) ==> in_range(start, end, start),
        !in_range(start, end, end),
        in_range(start, end, key) <==> !crate::bytes::lex_lt(key, start) && crate::bytes::lex_lt(
            key,
            end,
        ),
{
    crate::bytes::lemma_lex_irreflexive(end);
    crate::bytes::lemma_lex_not_lt(key, start);
}

/// Versions are equal exactly where key, sequence number and operation are.
pub proof fn law_versions_are_equal_by_their_fields(a: InternalKey, b: InternalKey)
    ensures
        vstd::std_specs::cmp::PartialEqSpec::eq_spec(&a, &b) <==> a@.user_key == b@.user_key
            && a@.sequence == b@.sequence && a@.op_type == b@.op_type,
{
}

/// Comparing versions goes by their order.
pub proof fn law_comparison_goes_by_the_order(a: InternalKey, b: InternalKey)
    ensures
        vstd::std_specs::cmp::PartialOrdSpec::partial_cmp_spec(&a, &b) == Some(Ordering::Less)
            <==> internal_before(a@, b@),
        vstd::std_specs::cmp::PartialOrdSpec::partial_cmp_spec(&a, &b) == Some(Ordering::Greater)
            <==> internal_before(b@, a@),
        vstd::std_specs::cmp::PartialOrdSpec::partial_cmp_spec(&a, &b) == Some(Ordering::Equal)
            <==> a@ == b@,
{
    law_internal_order(a@, b@, a@);
}

/// The words about a number that is out of range, and those that show a version.
pub proof fn law_type_messages(sequence: u64, level: u8, k: InternalKeyView)
    ensures
        sequence_limit_message(sequence) == "sequence number "@ + crate::text::decimal(
            sequence as nat,
        ) + " exceeds 56-bit limit ("@ + crate::text::decimal(0xff_ffff_ffff_ffff) + ")"@,
        level_limit_message(level) == "level "@ + crate::text::decimal(level as nat)
            + " exceeds MAX_LEVELS ("@ + crate::text::decimal(7) + ")"@,
        internal_key_text(k) == crate::text::hex(k.user_key) + " @ "@ + crate::text::decimal(
            k.sequence.0 as nat,
        ) + " ("@ + k.op_type.name() + ")"@,
{
}

} // verus!
