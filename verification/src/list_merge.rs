//! The merge of list values: operands are appended in arrival order.

use crate::bytes::append_bytes;
use crate::row;
use vstd::prelude::*;

verus! {

/// Joins serialized list pieces.
pub struct ListMergeCombiner;

/// The operands, one after another.
pub open spec fn concatenated(operands: Seq<Seq<u8>>) -> Seq<u8>
    decreases operands.len(),
{
    if operands.len() == 0 {
        Seq::empty()
    } else {
        concatenated(operands.drop_last()) + operands.last()
    }
}

proof fn lemma_concatenated_joins(a: Seq<Seq<u8>>, b: Seq<Seq<u8>>)
    ensures
        concatenated(a + b) == concatenated(a) + concatenated(b),
    decreases b.len(),
{
    if b.len() == 0 {
        assert(a + b =~= a);
        assert(concatenated(a) + concatenated(b) =~= concatenated(a));
    } else {
        assert((a + b).drop_last() =~= a + b.drop_last());
        lemma_concatenated_joins(a, b.drop_last());
        assert(concatenated(a + b) =~= concatenated(a) + concatenated(b));
    }
}

/// Pieces may be combined on any schedule: combining some of them first, and
/// then the result with the others, gives what combining all at once gives.
pub proof fn law_any_schedule(before: Seq<Seq<u8>>, middle: Seq<Seq<u8>>, after: Seq<Seq<u8>>)
    ensures
        concatenated(before + seq![concatenated(middle)] + after) == concatenated(
            before + middle + after,
        ),
{
    let one = seq![concatenated(middle)];
    lemma_concatenated_joins(before + one, after);
    lemma_concatenated_joins(before, one);
    lemma_concatenated_joins(before + middle, after);
    lemma_concatenated_joins(before, middle);
    reveal_with_fuel(concatenated, 2);
    assert(one.drop_last() =~= Seq::<Seq<u8>>::empty());
    assert(concatenated(one) =~= concatenated(middle));
}

/// A base value is one more piece in front.
pub proof fn law_base_is_first_piece(base: Seq<u8>, operands: Seq<Seq<u8>>)
    ensures
        base + concatenated(operands) == concatenated(seq![base] + operands),
{
    lemma_concatenated_joins(seq![base], operands);
    reveal_with_fuel(concatenated, 2);
    assert(seq![base].drop_last() =~= Seq::<Seq<u8>>::empty());
    assert(concatenated(seq![base]) =~= base);
}

impl ListMergeCombiner {
    pub fn new() -> (r: Self)
        ensures
            r == ListMergeCombiner,
    {
        ListMergeCombiner
    }

    /// The operands, one after another.
    pub fn combine(&self, operands: &[Vec<u8>]) -> (r: Vec<u8>)
        ensures
            r@ == concatenated(row::byte_strings(operands@)),
    {
        let mut out: Vec<u8> = Vec::new();
        append_all(&mut out, operands);
        assert(out@ =~= concatenated(row::byte_strings(operands@)));
        out
    }

    /// The base value, followed by the operands.
    pub fn combine_with_base(&self, base: &[u8], operands: &[Vec<u8>]) -> (r: Vec<u8>)
        ensures
            r@ == base@ + concatenated(row::byte_strings(operands@)),
    {
        let mut out: Vec<u8> = Vec::new();
        append_bytes(&mut out, base);
        append_all(&mut out, operands);
        assert(out@ =~= base@ + concatenated(row::byte_strings(operands@)));
        out
    }
}

fn append_all(out: &mut Vec<u8>, operands: &[Vec<u8>])
    ensures
        final(out)@ == old(out)@ + concatenated(row::byte_strings(operands@)),
{
    let ghost start = out@;
    let ghost all = row::byte_strings(operands@);
    let mut i: usize = 0;
    assert(all.take(0) =~= Seq::<Seq<u8>>::empty());
    assert(start + concatenated(all.take(0)) =~= start);
    while i < operands.len()
        invariant
            i <= operands@.len(),
            all == row::byte_strings(operands@),
            out@ == start + concatenated(all.take(i as int)),
        decreases operands@.len() - i,
    {
        append_bytes(out, operands[i].as_slice());
        i += 1;
        proof {
            assert(all.take(i as int).drop_last() =~= all.take(i - 1));
            assert(out@ =~= start + concatenated(all.take(i as int)));
        }
    }
    assert(all.take(i as int) =~= all);
}

impl Default for ListMergeCombiner {
    fn default() -> (r: Self)
        ensures
            r == ListMergeCombiner,
    {
        ListMergeCombiner
    }
}

/// Pieces are joined in their order, one after the other.
pub proof fn law_pieces_are_joined_in_order(operands: Seq<Seq<u8>>, last: Seq<u8>)
    ensures
        concatenated(Seq::empty()).len() == 0,
        concatenated(operands.push(last)) == concatenated(operands) + last,
{
    assert(operands.push(last).drop_last() =~= operands);
}

} // verus!
