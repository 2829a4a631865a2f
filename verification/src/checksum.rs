//! Checksums of blocks and records: CRC-32C with the Castagnoli polynomial, and
//! the masked form in which RocksDB and LevelDB store it.

use vstd::prelude::*;

verus! {

/// The Castagnoli polynomial, lowest bit first.
pub const POLYNOMIAL: u32 = 0x82f6_3b78;

/// Added to the rotated checksum when it is masked.
pub const MASK_DELTA: u32 = 0xa282_ead8;

/// The remainder after one more bit.
pub open spec fn bit_step(state: u32) -> u32 {
    if state & 1 == 1 {
        (state >> 1) ^ POLYNOMIAL
    } else {
        state >> 1
    }
}

/// The remainder after `n` more bits.
pub open spec fn bit_steps(state: u32, n: nat) -> u32
    decreases n,
{
    if n == 0 {
        state
    } else {
        bit_step(bit_steps(state, (n - 1) as nat))
    }
}

/// The remainder after the bytes of `data`.
pub open spec fn remainder(state: u32, data: Seq<u8>) -> u32
    decreases data.len(),
{
    if data.len() == 0 {
        state
    } else {
        bit_steps(remainder(state, data.drop_last()) ^ (data.last() as u32), 8)
    }
}

/// The checksum of bytes with the checksum `crc` followed by `data`.
pub open spec fn extended(crc: u32, data: Seq<u8>) -> u32 {
    !remainder(!crc, data)
}

/// The CRC-32C checksum of `data`.
pub open spec fn checksum(data: Seq<u8>) -> u32 {
    extended(0, data)
}

/// Computes the CRC-32C checksum of `data`.
pub fn crc32c(data: &[u8]) -> (r: u32)
    ensures
        r == checksum(data@),
{
    crc32c_extend(0, data)
}

/// Computes the checksum of bytes with the checksum `crc` followed by `data`.
pub fn crc32c_extend(crc: u32, data: &[u8]) -> (r: u32)
    ensures
        r == extended(crc, data@),
{
    let mut state: u32 = !crc;
    let mut i: usize = 0;
    assert(data@.take(0) =~= Seq::<u8>::empty());
    while i < data.len()
        invariant
            i <= data@.len(),
            state == remainder(!crc, data@.take(i as int)),
        decreases data@.len() - i,
    {
        let ghost start = state ^ (data@[i as int] as u32);
        state = state ^ (data[i] as u32);
        let mut k: usize = 0;
        while k < 8
            invariant
                k <= 8,
                state == bit_steps(start, k as nat),
            decreases 8 - k,
        {
            state = if state & 1 == 1 {
                (state >> 1) ^ POLYNOMIAL
            } else {
                state >> 1
            };
            k += 1;
        }
        i += 1;
        assert(data@.take(i as int).drop_last() =~= data@.take(i - 1));
    }
    assert(data@.take(i as int) =~= data@);
    !state
}

proof fn lemma_remainder_joins(state: u32, a: Seq<u8>, b: Seq<u8>)
    ensures
        remainder(state, a + b) == remainder(remainder(state, a), b),
    decreases b.len(),
{
    if b.len() == 0 {
        assert(a + b =~= a);
    } else {
        lemma_remainder_joins(state, a, b.drop_last());
        assert((a + b).drop_last() =~= a + b.drop_last());
    }
}

/// Extending the checksum of `a` by `b` gives the checksum of both.
pub proof fn law_extension(crc: u32, a: Seq<u8>, b: Seq<u8>)
    ensures
        extended(extended(crc, a), b) == extended(crc, a + b),
        extended(checksum(a), b) == checksum(a + b),
{
    let s = remainder(!crc, a);
    assert(!(!s) == s) by (bit_vector);
    lemma_remainder_joins(!crc, a, b);
    let t = remainder(!0u32, a);
    assert(!(!t) == t) by (bit_vector);
    lemma_remainder_joins(!0u32, a, b);
}

/// `v` rotated right by 15 bits.
pub open spec fn rotated_right(v: u32) -> u32 {
    (v >> 15) | (v << 17)
}

/// The masked form of a checksum.
pub open spec fn masked_of(crc: u32) -> int {
    (rotated_right(crc) + MASK_DELTA) % 0x1_0000_0000
}

/// The sum of two numbers, less 2^32 if they reach it.
fn wrapping_sum(a: u32, b: u32) -> (r: u32)
    ensures
        r == (a + b) % 0x1_0000_0000,
{
    a.wrapping_add(b)
}

/// The masked form in which a checksum is stored.
pub fn mask_crc(crc: u32) -> (r: u32)
    ensures
        r == masked_of(crc),
{
    wrapping_sum((crc >> 15) | (crc << 17), MASK_DELTA)
}

/// The checksum of which `masked` is the masked form.
pub fn unmask_crc(masked: u32) -> (r: u32)
    ensures
        masked_of(r) == masked,
{
    let rot: u32 = masked.wrapping_sub(MASK_DELTA);
    let r: u32 = (rot << 15) | (rot >> 17);
    assert(((((rot << 15) | (rot >> 17)) >> 15) | (((rot << 15) | (rot >> 17)) << 17)) == rot)
        by (bit_vector);
    r
}

/// No two checksums have the same masked form, so that unmasking undoes
/// masking.
pub proof fn law_masking_is_injective(a: u32, b: u32)
    requires
        masked_of(a) == masked_of(b),
    ensures
        a == b,
{
    assert(rotated_right(a) == rotated_right(b));
    let ra = rotated_right(a);
    let rb = rotated_right(b);
    assert((((a >> 15) | (a << 17)) << 15 | ((a >> 15) | (a << 17)) >> 17) == a) by (bit_vector);
    assert((((b >> 15) | (b << 17)) << 15 | ((b >> 15) | (b << 17)) >> 17) == b) by (bit_vector);
}

/// One step of the division: the state shifted right by a bit, and the reflected
/// Castagnoli polynomial added where a set bit was shifted out.
pub proof fn law_step_divides_by_the_polynomial(state: u32, n: nat)
    ensures
        state % 2 == 0 ==> bit_step(state) == state / 2,
        state % 2 == 1 ==> bit_step(state) == (state / 2) ^ 0x82f6_3b78u32,
        bit_steps(state, 0) == state,
        bit_steps(state, n + 1) == bit_step(bit_steps(state, n)),
{
    assert(state & 1 == state % 2) by (bit_vector);
    assert(state >> 1 == state / 2) by (bit_vector);
}

/// A checksum goes byte by byte: eight steps for each, from a state of all ones, and
/// the bits of the last state turned over.
pub proof fn law_checksum_goes_byte_by_byte(state: u32, crc: u32, data: Seq<u8>, last: u8)
    ensures
        remainder(state, Seq::empty()) == state,
        remainder(state, data.push(last)) == bit_steps(remainder(state, data) ^ (last as u32), 8),
        extended(crc, data) == !remainder(!crc, data),
        checksum(data) == extended(0, data),
{
    assert(data.push(last).drop_last() =~= data);
}

/// The masked form: the checksum rotated right by 15 bits, plus a constant, within 32
/// bits.
pub proof fn law_mask_rotates_and_adds(crc: u32)
    ensures
        masked_of(crc) == (crc as int / 0x8000 + (crc as int % 0x8000) * 0x2_0000 + 0xa282_ead8)
            % 0x1_0000_0000,
{
    assert(((crc >> 15) | (crc << 17)) == (crc / 0x8000u32) + (crc % 0x8000u32) * 0x2_0000u32)
        by (bit_vector);
}

} // verus!
