//! Versioned rows: one version of one key, as stored and as written.

use crate::bytes::{copy_bytes, copy_opt_bytes};
use crate::bytes;
use crate::types::OpType;
use vstd::prelude::*;

verus! {

/// The contents of a row.
pub struct RowView {
    pub key: Seq<u8>,
    pub value: Option<Seq<u8>>,
    pub sequence: u64,
    pub op_type: OpType,
}

/// One version of a key.
#[derive(Debug, Clone, PartialEq, Eq)]
pub struct Row {
    pub key: Vec<u8>,
    pub value: Option<Vec<u8>>,
    pub sequence: u64,
    pub op_type: OpType,
}

impl View for Row {
    type V = RowView;

    open spec fn view(&self) -> RowView {
        RowView {
            key: self.key@,
            value: bytes::opt_bytes(self.value),
            sequence: self.sequence,
            op_type: self.op_type,
        }
    }
}

/// The contents of several rows.
pub open spec fn rows_view(rows: Seq<Row>) -> Seq<RowView> {
    Seq::new(rows.len(), |i: int| rows[i]@)
}

/// The contents of several byte strings.
pub open spec fn byte_strings(v: Seq<Vec<u8>>) -> Seq<Seq<u8>> {
    Seq::new(v.len(), |i: int| v[i]@)
}

/// Appending a row appends its contents.
pub proof fn lemma_rows_push(rows: Seq<Row>, row: Row)
    ensures
        rows_view(rows.push(row)) == rows_view(rows).push(row@),
{
    assert(rows_view(rows.push(row)) =~= rows_view(rows).push(row@));
}

/// Appending a byte string appends its contents.
pub proof fn lemma_strings_push(v: Seq<Vec<u8>>, b: Vec<u8>)
    ensures
        byte_strings(v.push(b)) == byte_strings(v).push(b@),
{
    assert(byte_strings(v.push(b)) =~= byte_strings(v).push(b@));
}

impl Row {
    /// An owned copy.
    pub fn duplicate(&self) -> (r: Row)
        ensures
            r@ == self@,
    {
        Row {
            key: copy_bytes(self.key.as_slice()),
            value: copy_opt_bytes(&self.value),
            sequence: self.sequence,
            op_type: self.op_type,
        }
    }
}

} // verus!
