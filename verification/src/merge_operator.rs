//! The interface of user-defined merge operators.

use crate::compaction_filter;
use crate::error::ForstResult;
use crate::row;
use vstd::prelude::*;

verus! {

/// Combines merge operands with an optional base value. Users implement it;
/// nothing is assumed of the results.
pub trait MergeOperator {
    /// Folds `operands`, oldest first, into `base`.
    fn full_merge(
        &self,
        key: &[u8],
        base: Option<&[u8]>,
        operands: &[Vec<u8>],
    ) -> ForstResult<Vec<u8>>;

    /// Combines two adjacent operands into one.
    fn partial_merge(&self, key: &[u8], left: &[u8], right: &[u8]) -> ForstResult<Vec<u8>>;

    /// Identity of the operator.
    fn name(&self) -> String;
}

/// `result` is something that `full_merge` of `op` may return for these
/// contents.
pub open spec fn may_merge<M: MergeOperator>(
    op: M,
    key: Seq<u8>,
    base: Option<Seq<u8>>,
    operands: Seq<Seq<u8>>,
    result: ForstResult<Vec<u8>>,
) -> bool {
    exists|k: &[u8], b: Option<&[u8]>, o: &[Vec<u8>]|
        {
            &&& #[trigger] call_ensures(M::full_merge, (&op, k, b, o), result)
            &&& k@ == key
            &&& compaction_filter::opt_slice(b) == base
            &&& row::byte_strings(o@) == operands
        }
}

/// Calls the operator.
pub(crate) fn call_full_merge<M: MergeOperator>(
    op: &M,
    key: &[u8],
    base: &Option<Vec<u8>>,
    operands: &Vec<Vec<u8>>,
) -> (r: ForstResult<Vec<u8>>)
    ensures
        may_merge(*op, key@, crate::bytes::opt_bytes(*base), row::byte_strings(operands@), r),
{
    let b: Option<&[u8]> = match base {
        Some(v) => Some(v.as_slice()),
        None => None,
    };
    let o: &[Vec<u8>] = operands.as_slice();
    let r = op.full_merge(key, b, o);
    assert(call_ensures(M::full_merge, (op, key, b, o), r));
    r
}

} // verus!
