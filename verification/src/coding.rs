//! Binary encoding of integers: fixed-width little-endian and
//! variable-length base-128 forms.

use crate::error::{corruption_text, ErrorKind, ForstResult};
use vstd::prelude::*;

verus! {

/// Most bytes that a varint-encoded `u32` takes.
pub const MAX_VARINT32_LEN: usize = 5;

/// Most bytes that a varint-encoded `u64` takes.
pub const MAX_VARINT64_LEN: usize = 10;

/// The index of the first element that satisfies `p`, or the length if none does.
pub open spec fn first_index<T>(s: Seq<T>, p: spec_fn(T) -> bool) -> int
    decreases s.len(),
{
    if s.len() == 0 {
        0
    } else if p(s[0]) {
        0
    } else {
        1 + first_index(s.skip(1), p)
    }
}

/// `first_index` is the only index with a satisfying element (or the end) and
/// no satisfying element before it.
pub proof fn lemma_first_index<T>(s: Seq<T>, p: spec_fn(T) -> bool, r: int)
    requires
        0 <= r <= s.len(),
        forall|i: int| 0 <= i < r ==> !p(#[trigger] s[i]),
        r < s.len() ==> p(s[r]),
    ensures
        first_index(s, p) == r,
    decreases s.len(),
{
    if s.len() > 0 && r > 0 {
        assert(!p(s[0]));
        assert forall|i: int| 0 <= i < r - 1 implies !p(#[trigger] s.skip(1)[i]) by {
            assert(!p(s[i + 1]));
        }
        lemma_first_index(s.skip(1), p, r - 1);
    }
}

/// What `first_index` finds.
pub proof fn lemma_first_index_props<T>(s: Seq<T>, p: spec_fn(T) -> bool)
    ensures
        0 <= first_index(s, p) <= s.len(),
        forall|i: int| 0 <= i < first_index(s, p) ==> !p(#[trigger] s[i]),
        first_index(s, p) < s.len() ==> p(s[first_index(s, p)]),
    decreases s.len(),
{
    if s.len() > 0 && !p(s[0]) {
        lemma_first_index_props(s.skip(1), p);
        assert forall|i: int| 0 <= i < first_index(s, p) implies !p(#[trigger] s[i]) by {
            if i > 0 {
                assert(!p(s.skip(1)[i - 1]));
            }
        }
    }
}

/// `n` in `width` bytes, least significant first.
pub open spec fn le_bytes(n: nat, width: nat) -> Seq<u8>
    decreases width,
{
    if width == 0 {
        Seq::empty()
    } else {
        seq![(n % 256) as u8] + le_bytes(n / 256, (width - 1) as nat)
    }
}

/// The number whose bytes, least significant first, are `s`.
pub open spec fn le_value(s: Seq<u8>) -> nat
    decreases s.len(),
{
    if s.len() == 0 {
        0
    } else {
        s[0] as nat + 256 * le_value(s.skip(1))
    }
}

/// The number whose bytes, most significant first, are `s`.
pub open spec fn be_value(s: Seq<u8>) -> nat {
    le_value(s.reverse())
}

/// 256 to the power `n`.
pub open spec fn pow256(n: nat) -> nat
    decreases n,
{
    if n == 0 {
        1
    } else {
        256 * pow256((n - 1) as nat)
    }
}

/// 128 to the power `n`.
pub open spec fn pow128(n: nat) -> nat
    decreases n,
{
    if n == 0 {
        1
    } else {
        128 * pow128((n - 1) as nat)
    }
}

/// A fixed-width encoding has the given width.
pub proof fn lemma_le_bytes_len(n: nat, width: nat)
    ensures
        le_bytes(n, width).len() == width,
    decreases width,
{
    if width > 0 {
        lemma_le_bytes_len(n / 256, (width - 1) as nat);
    }
}

/// Reading a fixed-width encoding gives back the number that was written.
pub proof fn law_fixed_round_trip(n: nat, width: nat)
    requires
        n < pow256(width),
    ensures
        le_bytes(n, width).len() == width,
        le_value(le_bytes(n, width)) == n,
    decreases width,
{
    if width > 0 {
        law_fixed_round_trip(n / 256, (width - 1) as nat);
        assert(le_bytes(n, width).skip(1) =~= le_bytes(n / 256, (width - 1) as nat));
    }
}

/// Every byte string of a width is the encoding of the number that it reads as.
pub proof fn law_fixed_canonical(s: Seq<u8>)
    ensures
        le_value(s) < pow256(s.len()),
        le_bytes(le_value(s), s.len()) == s,
    decreases s.len(),
{
    if s.len() > 0 {
        law_fixed_canonical(s.skip(1));
        let rest = le_value(s.skip(1));
        assert(le_value(s) % 256 == s[0] as nat);
        assert(le_value(s) / 256 == rest);
        assert(s =~= seq![s[0]] + s.skip(1));
    }
}

/// Appends the low `width` bytes of `value`, least significant first.
pub(crate) fn put_le(dst: &mut Vec<u8>, value: u64, width: usize)
    requires
        width <= 8,
    ensures
        final(dst)@ == old(dst)@ + le_bytes(value as nat, width as nat),
{
    let mut v: u64 = value;
    let mut k: usize = width;
    while k > 0
        invariant
            dst@ + le_bytes(v as nat, k as nat) == old(dst)@ + le_bytes(value as nat, width as nat),
        decreases k,
    {
        dst.push((v % 256) as u8);
        v = v / 256;
        k = k - 1;
        assert(dst@ + le_bytes(v as nat, k as nat) =~= old(dst)@ + le_bytes(
            value as nat,
            width as nat,
        ));
    }
    assert(dst@ =~= old(dst)@ + le_bytes(value as nat, width as nat));
}

proof fn lemma_pow256_bound(k: nat)
    requires
        k <= 8,
    ensures
        pow256(k) <= 0x1_0000_0000_0000_0000,
        k <= 7 ==> 256 * pow256(k) <= 0x1_0000_0000_0000_0000,
        pow256(2) == 0x1_0000,
        pow256(4) == 0x1_0000_0000,
        pow256(8) == 0x1_0000_0000_0000_0000,
{
    reveal_with_fuel(pow256, 9);
}

/// The widths of the fixed encodings hold every value of their types.
pub proof fn lemma_fixed_widths()
    ensures
        pow256(2) == u16::MAX + 1,
        pow256(4) == u32::MAX + 1,
        pow256(8) == u64::MAX + 1,
{
    lemma_pow256_bound(0);
}

/// The number in the `width` bytes of `src` from `start`, least significant first.
pub(crate) fn get_le(src: &[u8], start: usize, width: usize) -> (r: u64)
    requires
        width <= 8,
        start + width <= src@.len(),
    ensures
        r == le_value(src@.subrange(start as int, start + width)),
        r < pow256(width as nat),
{
    let ghost bytes = src@.subrange(start as int, start + width);
    let total: usize = src.len();
    let mut v: u64 = 0;
    let mut k: usize = width;
    while k > 0
        invariant
            k <= width <= 8,
            start + width <= src@.len(),
            total == src@.len(),
            bytes == src@.subrange(start as int, start + width),
            v == le_value(bytes.skip(k as int)),
        decreases k,
    {
        k = k - 1;
        proof {
            let tail = bytes.skip(k as int);
            assert(tail.skip(1) =~= bytes.skip(k + 1));
            law_fixed_canonical(tail);
            lemma_pow256_bound(tail.len());
            assert(tail[0] == src@[start + k]);
        }
        v = v * 256 + src[start + k] as u64;
    }
    proof {
        assert(bytes.skip(0) =~= bytes);
        law_fixed_canonical(bytes);
    }
    v
}

/// The number in the eight bytes of `src` from `start`, most significant first.
pub(crate) fn get_be64(src: &[u8], start: usize) -> (r: u64)
    requires
        start + 8 <= src@.len(),
    ensures
        r == be_value(src@.subrange(start as int, start + 8)),
{
    let ghost bytes = src@.subrange(start as int, start + 8);
    let ghost rev = bytes.reverse();
    let total: usize = src.len();
    let mut v: u64 = 0;
    let mut k: usize = 0;
    while k < 8
        invariant
            k <= 8,
            start + 8 <= src@.len(),
            total == src@.len(),
            bytes == src@.subrange(start as int, start + 8),
            rev == bytes.reverse(),
            v == le_value(rev.skip(8 - k)),
        decreases 8 - k,
    {
        proof {
            let tail = rev.skip(8 - k - 1);
            assert(tail.skip(1) =~= rev.skip(8 - k));
            law_fixed_canonical(tail);
            lemma_pow256_bound(tail.len());
            assert(tail[0] == src@[start + k]);
        }
        v = v * 256 + src[start + k] as u64;
        k = k + 1;
    }
    proof {
        assert(rev.skip(0) =~= rev);
    }
    v
}

/// Appends `value` as 4 little-endian bytes.
pub fn put_fixed32(dst: &mut Vec<u8>, value: u32)
    ensures
        final(dst)@ == old(dst)@ + le_bytes(value as nat, 4),
{
    put_le(dst, value as u64, 4);
}

/// Appends `value` as 8 little-endian bytes.
pub fn put_fixed64(dst: &mut Vec<u8>, value: u64)
    ensures
        final(dst)@ == old(dst)@ + le_bytes(value as nat, 8),
{
    put_le(dst, value, 8);
}

/// Reads a little-endian `u32` from the first 4 bytes; gives the value and the
/// number of bytes taken.
pub fn get_fixed32(src: &[u8]) -> (r: ForstResult<(u32, usize)>)
    ensures
        match r {
            Ok((value, taken)) => src@.len() >= 4 && taken == 4 && value == le_value(src@.take(4)),
            Err(e) => src@.len() < 4 && e.says(
                ErrorKind::Corruption,
                "insufficient bytes for fixed32 decode"@,
            ),
        },
{
    if src.len() < 4 {
        return Err(corruption_text("insufficient bytes for fixed32 decode"));
    }
    let v: u64 = get_le(src, 0, 4);
    proof {
        lemma_fixed_widths();
        assert(src@.subrange(0, 4) =~= src@.take(4));
    }
    Ok((v as u32, 4))
}

/// Reads a little-endian `u64` from the first 8 bytes; gives the value and the
/// number of bytes taken.
pub fn get_fixed64(src: &[u8]) -> (r: ForstResult<(u64, usize)>)
    ensures
        match r {
            Ok((value, taken)) => src@.len() >= 8 && taken == 8 && value == le_value(src@.take(8)),
            Err(e) => src@.len() < 8 && e.says(
                ErrorKind::Corruption,
                "insufficient bytes for fixed64 decode"@,
            ),
        },
{
    if src.len() < 8 {
        return Err(corruption_text("insufficient bytes for fixed64 decode"));
    }
    let v: u64 = get_le(src, 0, 8);
    proof {
        assert(src@.subrange(0, 8) =~= src@.take(8));
    }
    Ok((v, 8))
}

/// The varint form of `n`: seven bits to a byte, least significant group
/// first; every byte but the last has its top bit set.
pub open spec fn varint_bytes(n: nat) -> Seq<u8>
    decreases n,
{
    if n < 128 {
        seq![n as u8]
    } else {
        seq![(n % 128 + 128) as u8] + varint_bytes(n / 128)
    }
}

/// The number in the low seven bits of the first `k` bytes.
pub open spec fn varint_value(s: Seq<u8>, k: nat) -> nat
    decreases k,
{
    if k == 0 {
        0
    } else {
        (s[0] % 128) as nat + 128 * varint_value(s.skip(1), (k - 1) as nat)
    }
}

/// A byte that ends a varint: its top bit is clear.
pub open spec fn ends_varint() -> spec_fn(u8) -> bool {
    |b: u8| b < 128
}

/// Where the varint at the start of `s` ends: the index of its last byte, or
/// the length of `s` if it does not end.
pub open spec fn varint_end(s: Seq<u8>) -> int {
    first_index(s, ends_varint())
}

/// What reading a varint gives.
pub enum VarintOutcome {
    /// The value and the number of bytes taken.
    Value(nat, nat),
    /// The input ends inside the varint.
    Unterminated,
    /// More bytes than the type can take.
    TooLong,
    /// The last possible byte has bits that the type cannot hold.
    NonCanonical,
}

/// The outcome of reading a varint of at most `max_len` bytes whose last
/// possible byte may hold values below `last_limit`.
pub open spec fn varint_outcome(s: Seq<u8>, max_len: nat, last_limit: nat) -> VarintOutcome {
    let end = varint_end(s);
    if end >= max_len - 1 && s.len() >= max_len && s[max_len - 1] % 128 >= last_limit {
        VarintOutcome::NonCanonical
    } else if end < s.len() && end < max_len {
        VarintOutcome::Value(varint_value(s, (end + 1) as nat), (end + 1) as nat)
    } else if s.len() > max_len {
        VarintOutcome::TooLong
    } else {
        VarintOutcome::Unterminated
    }
}

/// The outcome of reading a `u32` varint from the start of `s`.
pub open spec fn varint32_outcome(s: Seq<u8>) -> VarintOutcome {
    varint_outcome(s, MAX_VARINT32_LEN as nat, 16)
}

/// The outcome of reading a `u64` varint from the start of `s`.
pub open spec fn varint64_outcome(s: Seq<u8>) -> VarintOutcome {
    varint_outcome(s, MAX_VARINT64_LEN as nat, 2)
}

proof fn lemma_pow128_values()
    ensures
        pow128(4) == 0x1000_0000,
        pow128(9) == 0x8000_0000_0000_0000,
{
    reveal_with_fuel(pow128, 10);
}

proof fn lemma_pow128_monotonic(a: nat, b: nat)
    requires
        a <= b,
    ensures
        1 <= pow128(a) <= pow128(b),
    decreases b,
{
    if b > 0 {
        if a == b {
            lemma_pow128_monotonic((a - 1) as nat, (b - 1) as nat);
        } else {
            lemma_pow128_monotonic(a, (b - 1) as nat);
        }
    }
}

proof fn lemma_varint_value_bound(s: Seq<u8>, k: nat, limit: nat)
    requires
        0 < k <= s.len(),
        s[k - 1] % 128 < limit,
    ensures
        varint_value(s, k) < limit * pow128((k - 1) as nat),
    decreases k,
{
    if k > 1 {
        assert(s.skip(1)[k - 2] == s[k - 1]);
        lemma_varint_value_bound(s.skip(1), (k - 1) as nat, limit);
        let m = limit * pow128((k - 2) as nat);
        assert(limit * pow128((k - 1) as nat) == 128 * m) by (nonlinear_arith)
            requires
                pow128((k - 1) as nat) == 128 * pow128((k - 2) as nat),
                m == limit * pow128((k - 2) as nat),
        ;
    } else {
        assert(limit * pow128(0) == limit) by (nonlinear_arith)
            requires
                pow128(0) == 1,
        ;
        assert(varint_value(s.skip(1), 0) == 0);
    }
}

/// Horner evaluation of the first `k` bytes, which hold a value below `bound`.
fn eval_varint(src: &[u8], k: usize, limit: u64) -> (r: u64)
    requires
        0 < k <= src@.len(),
        src@[k - 1] % 128 < limit,
        limit <= 128,
        limit * pow128((k - 1) as nat) <= 0x1_0000_0000_0000_0000,
    ensures
        r == varint_value(src@, k as nat),
        r < limit * pow128((k - 1) as nat),
{
    let mut v: u64 = 0;
    let mut j: usize = k;
    while j > 0
        invariant
            j <= k <= src@.len(),
            0 < k,
            src@[k - 1] % 128 < limit,
            limit <= 128,
            limit * pow128((k - 1) as nat) <= 0x1_0000_0000_0000_0000,
            v == varint_value(src@.skip(j as int), (k - j) as nat),
        decreases j,
    {
        j = j - 1;
        proof {
            let tail = src@.skip(j as int);
            let n = (k - j) as nat;
            assert(tail.skip(1) =~= src@.skip(j + 1));
            assert(tail[n - 1] == src@[k - 1]);
            lemma_varint_value_bound(tail, n, limit as nat);
            lemma_pow128_monotonic((n - 1) as nat, (k - 1) as nat);
            assert(limit * pow128((n - 1) as nat) <= limit * pow128((k - 1) as nat))
                by (nonlinear_arith)
                requires
                    pow128((n - 1) as nat) <= pow128((k - 1) as nat),
            ;
        }
        v = v * 128 + (src[j] % 128) as u64;
    }
    proof {
        assert(src@.skip(0) =~= src@);
        lemma_varint_value_bound(src@, k as nat, limit as nat);
    }
    v
}

/// Appends the varint form of `value`.
fn put_varint(dst: &mut Vec<u8>, value: u64)
    ensures
        final(dst)@ == old(dst)@ + varint_bytes(value as nat),
{
    let mut v: u64 = value;
    while v >= 128
        invariant
            dst@ + varint_bytes(v as nat) == old(dst)@ + varint_bytes(value as nat),
        decreases v,
    {
        dst.push((v % 128) as u8 + 128);
        v = v / 128;
        assert(dst@ + varint_bytes(v as nat) =~= old(dst)@ + varint_bytes(value as nat));
    }
    dst.push(v as u8);
    assert(dst@ =~= old(dst)@ + varint_bytes(value as nat));
}

/// Appends `value` as a varint of 1 to 5 bytes.
pub fn put_varint32(dst: &mut Vec<u8>, value: u32)
    ensures
        final(dst)@ == old(dst)@ + varint_bytes(value as nat),
{
    put_varint(dst, value as u64);
}

/// Appends `value` as a varint of 1 to 10 bytes.
pub fn put_varint64(dst: &mut Vec<u8>, value: u64)
    ensures
        final(dst)@ == old(dst)@ + varint_bytes(value as nat),
{
    put_varint(dst, value);
}

/// The index of the first of the first `max` bytes that ends a varint, or
/// `max` (or the length, if smaller) if none does.
fn find_end(src: &[u8], max: usize) -> (r: usize)
    ensures
        r <= max,
        r <= src@.len(),
        r < max && r < src@.len() ==> r == varint_end(src@),
        r == max ==> varint_end(src@) >= max,
        r == src@.len() ==> varint_end(src@) == r,
{
    let mut i: usize = 0;
    while i < max && i < src.len() && src[i] >= 128
        invariant
            i <= max,
            i <= src@.len(),
            forall|k: int| 0 <= k < i ==> src@[k] >= 128,
        decreases max - i,
    {
        i += 1;
    }
    proof {
        let p = ends_varint();
        lemma_first_index_props(src@, p);
        let e = varint_end(src@);
        if e < i {
            assert(p(src@[e]));
            assert(src@[e] >= 128);
        }
        if i < src@.len() && src@[i as int] < 128 {
            if e > i {
                assert(!p(src@[i as int]));
            }
        }
    }
    i
}

/// Reads a `u32` varint from the start of `src`; gives the value and the
/// number of bytes taken.
pub fn get_varint32(src: &[u8]) -> (r: ForstResult<(u32, usize)>)
    ensures
        match varint32_outcome(src@) {
            VarintOutcome::Value(value, taken) => r matches Ok((v, t)) && v == value && t == taken,
            VarintOutcome::Unterminated => r matches Err(e) && e.says(
                ErrorKind::Corruption,
                "unterminated varint32: unexpected end of input"@,
            ),
            VarintOutcome::TooLong => r matches Err(e) && e.says(
                ErrorKind::Corruption,
                "varint32 too long"@,
            ),
            VarintOutcome::NonCanonical => r matches Err(e) && e.says(
                ErrorKind::Corruption,
                "varint32 non-canonical: 5th byte has bits beyond the low 4"@,
            ),
        },
{
    let i: usize = find_end(src, MAX_VARINT32_LEN);
    if i >= MAX_VARINT32_LEN - 1 && src.len() >= MAX_VARINT32_LEN && src[MAX_VARINT32_LEN - 1] % 128
        >= 16 {
        return Err(
            corruption_text("varint32 non-canonical: 5th byte has bits beyond the low 4"),
        );
    }
    if i < MAX_VARINT32_LEN && i < src.len() {
        proof {
            lemma_pow128_values();
            lemma_pow128_monotonic(i as nat, 4);
        }
        if i == MAX_VARINT32_LEN - 1 {
            let v: u64 = eval_varint(src, i + 1, 16);
            Ok((v as u32, i + 1))
        } else {
            proof {
                lemma_pow128_monotonic(i as nat, 3);
                assert(128 * pow128(3) == pow128(4));
            }
            let v: u64 = eval_varint(src, i + 1, 128);
            Ok((v as u32, i + 1))
        }
    } else if src.len() > MAX_VARINT32_LEN {
        Err(corruption_text("varint32 too long"))
    } else {
        Err(corruption_text("unterminated varint32: unexpected end of input"))
    }
}

/// Reads a `u64` varint from the start of `src`; gives the value and the
/// number of bytes taken.
pub fn get_varint64(src: &[u8]) -> (r: ForstResult<(u64, usize)>)
    ensures
        match varint64_outcome(src@) {
            VarintOutcome::Value(value, taken) => r matches Ok((v, t)) && v == value && t == taken,
            VarintOutcome::Unterminated => r matches Err(e) && e.says(
                ErrorKind::Corruption,
                "unterminated varint64: unexpected end of input"@,
            ),
            VarintOutcome::TooLong => r matches Err(e) && e.says(
                ErrorKind::Corruption,
                "varint64 too long"@,
            ),
            VarintOutcome::NonCanonical => r matches Err(e) && e.says(
                ErrorKind::Corruption,
                "varint64 non-canonical: 10th byte has bits beyond the low 1"@,
            ),
        },
{
    let i: usize = find_end(src, MAX_VARINT64_LEN);
    if i >= MAX_VARINT64_LEN - 1 && src.len() >= MAX_VARINT64_LEN && src[MAX_VARINT64_LEN - 1] % 128
        >= 2 {
        return Err(
            corruption_text("varint64 non-canonical: 10th byte has bits beyond the low 1"),
        );
    }
    if i < MAX_VARINT64_LEN && i < src.len() {
        proof {
            lemma_pow128_values();
            lemma_pow128_monotonic(i as nat, 9);
        }
        if i == MAX_VARINT64_LEN - 1 {
            let v: u64 = eval_varint(src, i + 1, 2);
            Ok((v, i + 1))
        } else {
            proof {
                lemma_pow128_monotonic(i as nat, 8);
                assert(128 * pow128(8) == pow128(9));
            }
            let v: u64 = eval_varint(src, i + 1, 128);
            Ok((v, i + 1))
        }
    } else if src.len() > MAX_VARINT64_LEN {
        Err(corruption_text("varint64 too long"))
    } else {
        Err(corruption_text("unterminated varint64: unexpected end of input"))
    }
}

/// The length of the varint form of `value`.
fn varint_length(value: u64) -> (r: usize)
    ensures
        r == varint_bytes(value as nat).len(),
        1 <= r <= 10,
{
    let mut len: usize = 1;
    let mut v: u64 = value;
    proof {
        lemma_varint_len(value as nat);
    }
    while v >= 128
        invariant
            len + varint_bytes(v as nat).len() == 1 + varint_bytes(value as nat).len(),
            1 <= varint_bytes(v as nat).len(),
            varint_bytes(value as nat).len() <= 10,
        decreases v,
    {
        assert(varint_bytes(v as nat).len() == 1 + varint_bytes((v / 128) as nat).len());
        proof {
            lemma_varint_len((v / 128) as nat);
        }
        v = v / 128;
        len += 1;
    }
    len
}

proof fn lemma_varint_len(n: nat)
    ensures
        1 <= varint_bytes(n).len(),
        n <= u32::MAX ==> varint_bytes(n).len() <= 5,
        n <= u64::MAX ==> varint_bytes(n).len() <= 10,
{
    reveal_with_fuel(varint_bytes, 11);
}

/// The number of bytes that [`put_varint32`] appends.
pub fn varint32_length(value: u32) -> (r: usize)
    ensures
        r == varint_bytes(value as nat).len(),
        1 <= r <= MAX_VARINT32_LEN,
{
    proof {
        lemma_varint_len(value as nat);
    }
    varint_length(value as u64)
}

/// The number of bytes that [`put_varint64`] appends.
pub fn varint64_length(value: u64) -> (r: usize)
    ensures
        r == varint_bytes(value as nat).len(),
        1 <= r <= MAX_VARINT64_LEN,
{
    varint_length(value)
}

proof fn lemma_varint_read_back(n: nat, rest: Seq<u8>)
    ensures
        varint_end(varint_bytes(n) + rest) == varint_bytes(n).len() - 1,
        varint_value(varint_bytes(n) + rest, varint_bytes(n).len()) == n,
    decreases n,
{
    let enc = varint_bytes(n);
    let s = enc + rest;
    let p = ends_varint();
    if n < 128 {
        assert(s[0] == n as u8);
        lemma_first_index(s, p, 0);
        assert(varint_value(s.skip(1), 0) == 0);
    } else {
        lemma_varint_read_back(n / 128, rest);
        let inner = varint_bytes(n / 128);
        assert(s.skip(1) =~= inner + rest);
        assert(s[0] == (n % 128 + 128) as u8);
        assert(!p(s[0]));
        assert(s[0] % 128 == n % 128);
    }
}

proof fn lemma_varint_last(n: nat)
    ensures
        varint_bytes(n).len() > 0,
        forall|k: nat|
            #![trigger pow128(k)]
            n < pow128(k) && k > 0 ==> varint_bytes(n).len() <= k,
        forall|k: nat, limit: nat|
            #![trigger limit * pow128(k)]
            n < limit * pow128(k) && limit <= 128 && varint_bytes(n).len() == k + 1
                ==> varint_bytes(n)[k as int] % 128 < limit,
    decreases n,
{
    assert(pow128(0) == 1);
    if n < 128 {
        assert forall|k: nat, limit: nat|
            #![trigger limit * pow128(k)]
            n < limit * pow128(k) && limit <= 128 && varint_bytes(n).len() == k
                + 1 implies varint_bytes(n)[k as int] % 128 < limit by {
            assert(k == 0);
            assert(limit * pow128(0) == limit) by (nonlinear_arith)
                requires
                    pow128(0) == 1,
            ;
        }
    } else {
        lemma_varint_last(n / 128);
        assert forall|k: nat| #![trigger pow128(k)] n < pow128(k) && k > 0 implies varint_bytes(
            n,
        ).len() <= k by {
            if k == 1 {
                assert(pow128(1) == 128 * pow128(0));
            } else {
                assert(n / 128 < pow128((k - 1) as nat));
            }
        }
        assert forall|k: nat, limit: nat|
            #![trigger limit * pow128(k)]
            n < limit * pow128(k) && limit <= 128 && varint_bytes(n).len() == k
                + 1 implies varint_bytes(n)[k as int] % 128 < limit by {
            if k > 0 {
                let m = limit * pow128((k - 1) as nat);
                assert(limit * pow128(k) == 128 * m) by (nonlinear_arith)
                    requires
                        pow128(k) == 128 * pow128((k - 1) as nat),
                        m == limit * pow128((k - 1) as nat),
                ;
                assert(n / 128 < m);
                assert(varint_bytes(n)[k as int] == varint_bytes(n / 128)[k - 1]);
            }
        }
    }
}

/// Reading a `u32` varint gives back the number that was written and takes
/// exactly the bytes that were written, whatever follows them.
pub proof fn law_varint32_round_trip(n: u32, rest: Seq<u8>)
    ensures
        varint32_outcome(varint_bytes(n as nat) + rest) == VarintOutcome::Value(
            n as nat,
            varint_bytes(n as nat).len(),
        ),
        1 <= varint_bytes(n as nat).len() <= MAX_VARINT32_LEN,
{
    lemma_varint_len(n as nat);
    lemma_varint_read_back(n as nat, rest);
    lemma_pow128_values();
    lemma_varint_last(n as nat);
    assert(n < 16 * pow128(4));
    let s = varint_bytes(n as nat) + rest;
    if varint_bytes(n as nat).len() == 5 {
        assert(s[4] == varint_bytes(n as nat)[4]);
    }
}

/// Reading a `u64` varint gives back the number that was written and takes
/// exactly the bytes that were written, whatever follows them.
pub proof fn law_varint64_round_trip(n: u64, rest: Seq<u8>)
    ensures
        varint64_outcome(varint_bytes(n as nat) + rest) == VarintOutcome::Value(
            n as nat,
            varint_bytes(n as nat).len(),
        ),
        1 <= varint_bytes(n as nat).len() <= MAX_VARINT64_LEN,
{
    lemma_varint_len(n as nat);
    lemma_varint_read_back(n as nat, rest);
    lemma_pow128_values();
    lemma_varint_last(n as nat);
    assert(n < 2 * pow128(9));
    let s = varint_bytes(n as nat) + rest;
    if varint_bytes(n as nat).len() == 10 {
        assert(s[9] == varint_bytes(n as nat)[9]);
    }
}

/// Fixed-width values survive writing and reading, whatever follows them.
pub proof fn law_fixed_read_back(a: u32, b: u64, rest: Seq<u8>)
    ensures
        le_value((le_bytes(a as nat, 4) + rest).take(4)) == a,
        le_value((le_bytes(b as nat, 8) + rest).take(8)) == b,
{
    lemma_fixed_widths();
    law_fixed_round_trip(a as nat, 4);
    law_fixed_round_trip(b as nat, 8);
    assert((le_bytes(a as nat, 4) + rest).take(4) =~= le_bytes(a as nat, 4));
    assert((le_bytes(b as nat, 8) + rest).take(8) =~= le_bytes(b as nat, 8));
}

/// Eight bytes as a number: little-endian from the first byte up, big-endian from
/// the last.
pub proof fn law_eight_bytes_are_digits(s: Seq<u8>)
    requires
        s.len() == 8,
    ensures
        le_value(s) == s[0] + 0x100 * s[1] + 0x1_0000 * s[2] + 0x100_0000 * s[3] + 0x1_0000_0000
            * s[4] + 0x100_0000_0000 * s[5] + 0x1_0000_0000_0000 * s[6] + 0x100_0000_0000_0000
            * s[7],
        be_value(s) == s[7] + 0x100 * s[6] + 0x1_0000 * s[5] + 0x100_0000 * s[4] + 0x1_0000_0000
            * s[3] + 0x100_0000_0000 * s[2] + 0x1_0000_0000_0000 * s[1] + 0x100_0000_0000_0000
            * s[0],
{
    lemma_eight_bytes(s);
    lemma_eight_bytes(s.reverse());
}

proof fn lemma_eight_bytes(s: Seq<u8>)
    requires
        s.len() == 8,
    ensures
        le_value(s) == s[0] + 0x100 * s[1] + 0x1_0000 * s[2] + 0x100_0000 * s[3] + 0x1_0000_0000
            * s[4] + 0x100_0000_0000 * s[5] + 0x1_0000_0000_0000 * s[6] + 0x100_0000_0000_0000
            * s[7],
{
    let s1 = s.skip(1);
    let s2 = s1.skip(1);
    let s3 = s2.skip(1);
    let s4 = s3.skip(1);
    let s5 = s4.skip(1);
    let s6 = s5.skip(1);
    let s7 = s6.skip(1);
    let s8 = s7.skip(1);
    assert(le_value(s8) == 0);
    assert(le_value(s7) == s[7]);
    assert(le_value(s6) == s[6] + 0x100 * s[7]);
    assert(le_value(s5) == s[5] + 0x100 * s[6] + 0x1_0000 * s[7]);
    assert(le_value(s4) == s[4] + 0x100 * s[5] + 0x1_0000 * s[6] + 0x100_0000 * s[7]);
    assert(le_value(s3) == s[3] + 256 * le_value(s4));
    assert(le_value(s2) == s[2] + 256 * le_value(s3));
    assert(le_value(s1) == s[1] + 256 * le_value(s2));
    assert(le_value(s) == s[0] + 256 * le_value(s1));
}

/// Four bytes as a little-endian number.
pub proof fn law_four_bytes_are_digits(s: Seq<u8>)
    requires
        s.len() == 4,
    ensures
        le_value(s) == s[0] + 0x100 * s[1] + 0x1_0000 * s[2] + 0x100_0000 * s[3],
{
    let s1 = s.skip(1);
    let s2 = s1.skip(1);
    let s3 = s2.skip(1);
    let s4 = s3.skip(1);
    assert(le_value(s4) == 0);
    assert(le_value(s3) == s[3]);
    assert(le_value(s2) == s[2] + 0x100 * s[3]);
    assert(le_value(s1) == s[1] + 256 * le_value(s2));
    assert(le_value(s) == s[0] + 256 * le_value(s1));
}

/// A fixed-width number is written from its lowest byte up, one byte for each
/// place, and what does not fit the width is left off.
pub proof fn law_fixed_goes_byte_by_byte(n: nat, width: nat)
    ensures
        le_bytes(n, 0).len() == 0,
        le_bytes(n, width + 1) == seq![(n % 256) as u8] + le_bytes(n / 256, width),
{
}

/// A varint has seven bits in a byte, lowest first, and the eighth is set in every
/// byte but the last.
pub proof fn law_varint_goes_seven_bits_by_seven(n: nat)
    ensures
        n < 128 ==> varint_bytes(n).len() == 1 && varint_bytes(n)[0] == n,
        n >= 128 ==> varint_bytes(n)[0] == n % 128 + 128 && varint_bytes(n).skip(1)
            == varint_bytes(n / 128),
{
    if n >= 128 {
        assert(varint_bytes(n).skip(1) =~= varint_bytes(n / 128));
    }
}

/// What bytes read as a varint: `end` is the place of the first byte whose highest
/// bit is clear, or the length where there is none. A number ends within `max_len`
/// bytes, its last possible byte below `last_limit`; bytes that go on past that are
/// too long, and bytes that stop before it are unfinished.
pub proof fn law_varint_ends_at_the_first_clear_bit(
    s: Seq<u8>,
    max_len: nat,
    last_limit: nat,
    end: int,
)
    requires
        max_len > 0,
        0 <= end <= s.len(),
        forall|i: int| 0 <= i < end ==> #[trigger] s[i] >= 128,
        end < s.len() ==> s[end] < 128,
    ensures
        varint_outcome(s, max_len, last_limit) is NonCanonical <==> s.len() >= max_len && end
            >= max_len - 1 && s[max_len - 1] % 128 >= last_limit,
        varint_outcome(s, max_len, last_limit) is Value <==> end < s.len() && (end < max_len - 1
            || end == max_len - 1 && s[end] % 128 < last_limit),
        varint_outcome(s, max_len, last_limit) matches VarintOutcome::Value(value, len) ==> len
            == end + 1 && value == varint_value(s, (end + 1) as nat),
        varint_outcome(s, max_len, last_limit) is TooLong <==> s.len() > max_len && end >= max_len
            && s[max_len - 1] % 128 < last_limit,
        varint32_outcome(s) == varint_outcome(s, 5, 16),
        varint64_outcome(s) == varint_outcome(s, 10, 2),
{
    lemma_first_index(s, ends_varint(), end);
}

/// The value of `k` bytes of a varint: seven bits of each, lowest first.
pub proof fn law_varint_value_by_seven_bits(s: Seq<u8>, k: nat)
    requires
        k < s.len(),
    ensures
        varint_value(s, 0) == 0,
        varint_value(s, k + 1) == s[0] % 128 + 128 * varint_value(s.skip(1), k),
{
}

} // verus!
