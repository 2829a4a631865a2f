//! Text building: decimal and hexadecimal rendering of numbers and bytes.

use vstd::prelude::*;
use vstd::string::*;

verus! {

/// `String::push` appends one character.
pub assume_specification[ String::push ](s: &mut String, c: char)
    ensures
        final(s)@ == old(s)@.push(c),
;

/// The decimal digit `d`.
pub open spec fn digit(d: nat) -> char {
    if d == 0 {
        '0'
    } else if d == 1 {
        '1'
    } else if d == 2 {
        '2'
    } else if d == 3 {
        '3'
    } else if d == 4 {
        '4'
    } else if d == 5 {
        '5'
    } else if d == 6 {
        '6'
    } else if d == 7 {
        '7'
    } else if d == 8 {
        '8'
    } else if d == 9 {
        '9'
    } else if d == 10 {
        'a'
    } else if d == 11 {
        'b'
    } else if d == 12 {
        'c'
    } else if d == 13 {
        'd'
    } else if d == 14 {
        'e'
    } else {
        'f'
    }
}

/// The decimal numeral of `n`, without leading zeros.
pub open spec fn decimal(n: nat) -> Seq<char>
    decreases n,
{
    if n < 10 {
        seq![digit(n)]
    } else {
        decimal(n / 10).push(digit(n % 10))
    }
}

/// `n` as a decimal numeral, padded with zeros on the left to `width` digits.
pub open spec fn padded(n: nat, width: nat) -> Seq<char> {
    let d = decimal(n);
    if d.len() >= width {
        d
    } else {
        Seq::new((width - d.len()) as nat, |i: int| '0') + d
    }
}

/// Two lower-case hexadecimal digits per byte.
pub open spec fn hex(bytes: Seq<u8>) -> Seq<char>
    decreases bytes.len(),
{
    if bytes.len() == 0 {
        Seq::empty()
    } else {
        hex(bytes.drop_last()).push(digit((bytes.last() / 16) as nat)).push(
            digit((bytes.last() % 16) as nat),
        )
    }
}

/// The elements in decimal, separated by a comma and a space.
pub open spec fn comma_separated(bytes: Seq<u8>) -> Seq<char>
    decreases bytes.len(),
{
    if bytes.len() == 0 {
        Seq::empty()
    } else if bytes.len() == 1 {
        decimal(bytes[0] as nat)
    } else {
        comma_separated(bytes.drop_last()) + ", "@ + decimal(bytes.last() as nat)
    }
}

/// Bytes in square brackets, in decimal.
pub open spec fn byte_list(bytes: Seq<u8>) -> Seq<char> {
    "["@ + comma_separated(bytes) + "]"@
}

fn digit_char(d: u64) -> (c: char)
    requires
        d < 16,
    ensures
        c == digit(d as nat),
{
    if d == 0 {
        '0'
    } else if d == 1 {
        '1'
    } else if d == 2 {
        '2'
    } else if d == 3 {
        '3'
    } else if d == 4 {
        '4'
    } else if d == 5 {
        '5'
    } else if d == 6 {
        '6'
    } else if d == 7 {
        '7'
    } else if d == 8 {
        '8'
    } else if d == 9 {
        '9'
    } else if d == 10 {
        'a'
    } else if d == 11 {
        'b'
    } else if d == 12 {
        'c'
    } else if d == 13 {
        'd'
    } else if d == 14 {
        'e'
    } else {
        'f'
    }
}

/// Appends the decimal numeral of `n`.
pub fn push_decimal(out: &mut String, n: u64)
    ensures
        final(out)@ == old(out)@ + decimal(n as nat),
    decreases n,
{
    if n >= 10 {
        push_decimal(out, n / 10);
    }
    out.push(digit_char(n % 10));
    assert(out@ =~= old(out)@ + decimal(n as nat));
}

/// Number of decimal digits of `n`.
fn digit_count(n: u64) -> (c: u64)
    ensures
        c == decimal(n as nat).len(),
        c <= 20,
{
    let mut c: u64 = 1;
    let mut m: u64 = n;
    proof {
        lemma_decimal_len(n as nat);
    }
    while m >= 10
        invariant
            c + decimal(m as nat).len() == 1 + decimal(n as nat).len(),
            decimal(n as nat).len() <= 20,
            1 <= decimal(m as nat).len(),
        decreases m,
    {
        assert(decimal(m as nat).len() == 1 + decimal((m / 10) as nat).len());
        proof {
            lemma_decimal_len((m / 10) as nat);
        }
        m = m / 10;
        c = c + 1;
    }
    c
}

proof fn lemma_decimal_len(n: nat)
    ensures
        1 <= decimal(n).len(),
        n < 100_000_000_000_000_000_000 ==> decimal(n).len() <= 20,
{
    reveal_with_fuel(decimal, 21);
}

/// Appends `n` in decimal, zero-padded on the left to six digits.
pub fn push_padded6(out: &mut String, n: u64)
    ensures
        final(out)@ == old(out)@ + padded(n as nat, 6),
{
    let c: u64 = digit_count(n);
    let mut k: u64 = c;
    while k < 6
        invariant
            c <= k,
            c < 6 ==> k <= 6,
            c >= 6 ==> k == c,
            out@ == old(out)@ + Seq::new((k - c) as nat, |i: int| '0'),
        decreases 6 - k,
    {
        out.push('0');
        k = k + 1;
        assert(out@ =~= old(out)@ + Seq::new((k - c) as nat, |i: int| '0'));
    }
    push_decimal(out, n);
    assert(out@ =~= old(out)@ + padded(n as nat, 6));
}

/// Appends two hexadecimal digits per byte.
pub fn push_hex(out: &mut String, bytes: &[u8])
    ensures
        final(out)@ == old(out)@ + hex(bytes@),
{
    let mut i: usize = 0;
    while i < bytes.len()
        invariant
            i <= bytes@.len(),
            out@ == old(out)@ + hex(bytes@.take(i as int)),
        decreases bytes@.len() - i,
    {
        let b: u8 = bytes[i];
        out.push(digit_char((b / 16) as u64));
        out.push(digit_char((b % 16) as u64));
        i += 1;
        assert(bytes@.take(i as int).drop_last() =~= bytes@.take(i - 1));
        assert(out@ =~= old(out)@ + hex(bytes@.take(i as int)));
    }
    assert(bytes@.take(i as int) =~= bytes@);
}

/// Appends `bytes` as a bracketed list of decimal numbers.
pub fn push_byte_list(out: &mut String, bytes: &[u8])
    ensures
        final(out)@ == old(out)@ + byte_list(bytes@),
{
    out.append("[");
    let ghost start = out@;
    let mut i: usize = 0;
    while i < bytes.len()
        invariant
            i <= bytes@.len(),
            out@ == start + comma_separated(bytes@.take(i as int)),
        decreases bytes@.len() - i,
    {
        if i > 0 {
            out.append(", ");
        }
        push_decimal(out, bytes[i] as u64);
        i += 1;
        assert(bytes@.take(i as int).drop_last() =~= bytes@.take(i - 1));
        assert(out@ =~= start + comma_separated(bytes@.take(i as int)));
    }
    assert(bytes@.take(i as int) =~= bytes@);
    out.append("]");
    assert(out@ =~= old(out)@ + byte_list(bytes@));
}

/// An owned copy of a text.
pub fn text(s: &str) -> (r: String)
    ensures
        r@ == s@,
{
    s.to_owned()
}

/// Appends the decimal numeral of a wide number.
pub fn push_decimal_wide(out: &mut String, n: u128)
    ensures
        final(out)@ == old(out)@ + decimal(n as nat),
    decreases n,
{
    if n >= 10 {
        push_decimal_wide(out, n / 10);
    }
    out.push(digit_char((n % 10) as u64));
    assert(out@ =~= old(out)@ + decimal(n as nat));
}

/// A text with two numbers in it.
pub fn text_with_two(a: &str, n: u64, b: &str, m: u64) -> (r: String)
    ensures
        r@ == a@ + decimal(n as nat) + b@ + decimal(m as nat),
{
    let mut out = String::new();
    out.append(a);
    push_decimal(&mut out, n);
    out.append(b);
    push_decimal(&mut out, m);
    assert(out@ =~= a@ + decimal(n as nat) + b@ + decimal(m as nat));
    out
}

/// A text with three numbers in it.
pub fn text_with_three(a: &str, n: u64, b: &str, m: u64, c: &str, k: u64) -> (r: String)
    ensures
        r@ == a@ + decimal(n as nat) + b@ + decimal(m as nat) + c@ + decimal(k as nat),
{
    let mut out = text_with_two(a, n, b, m);
    out.append(c);
    push_decimal(&mut out, k);
    assert(out@ =~= a@ + decimal(n as nat) + b@ + decimal(m as nat) + c@ + decimal(k as nat));
    out
}

/// The digits: `0` to `9`, then `a` to `f`.
pub proof fn law_digits(d: nat)
    requires
        d < 16,
    ensures
        d < 10 ==> digit(d) as int == 48 + d,
        d >= 10 ==> digit(d) as int == 87 + d,
{
}

/// A decimal reads as the number that it shows, and has no zero in front.
pub proof fn law_decimal_reads_back(n: nat)
    ensures
        crate::flags::digits_value(decimal(n)) == n,
        decimal(n).len() > 0,
        forall|i: int| 0 <= i < decimal(n).len() ==> crate::flags::is_digit(#[trigger] decimal(n)[i]),
        n > 0 ==> decimal(n)[0] != '0',
        n == 0 ==> decimal(n) == seq!['0'],
    decreases n,
{
    let s = decimal(n);
    if n < 10 {
        assert(s.drop_last() =~= Seq::<char>::empty());
        assert(crate::flags::digits_value(s.drop_last()) == 0);
        assert(s.last() == digit(n));
    } else {
        law_decimal_reads_back(n / 10);
        let front = decimal(n / 10);
        assert(s.drop_last() =~= front);
        assert(s.last() == digit(n % 10));
        assert(s[0] == front[0]);
        assert forall|i: int| 0 <= i < s.len() implies crate::flags::is_digit(#[trigger] s[i]) by {
            if i < front.len() {
                assert(s[i] == front[i]);
            }
        }
    }
}

/// Two numbers have the same decimal only if they are the same.
pub proof fn law_decimal_is_injective(a: nat, b: nat)
    requires
        decimal(a) == decimal(b),
    ensures
        a == b,
{
    law_decimal_reads_back(a);
    law_decimal_reads_back(b);
}

/// Padding puts zeros in front, as many as the width lacks, and changes no value.
pub proof fn law_padding_is_zeros(n: nat, width: nat)
    ensures
        padded(n, width).len() >= width,
        padded(n, width).len() == width || padded(n, width) == decimal(n),
        padded(n, width).skip(padded(n, width).len() - decimal(n).len()) == decimal(n),
        forall|i: int|
            0 <= i < padded(n, width).len() - decimal(n).len() ==> (#[trigger] padded(n, width)[i])
                == '0',
        crate::flags::digits_value(padded(n, width)) == n,
{
    let d = decimal(n);
    let p = padded(n, width);
    law_decimal_reads_back(n);
    assert(p.skip(p.len() - d.len()) =~= d);
    if d.len() < width {
        lemma_zeros_in_front((width - d.len()) as nat, d);
    }
}

proof fn lemma_zeros_in_front(k: nat, d: Seq<char>)
    ensures
        crate::flags::digits_value(Seq::new(k, |i: int| '0') + d) == crate::flags::digits_value(d),
    decreases k + d.len(),
{
    let z = Seq::new(k, |i: int| '0');
    let all = z + d;
    if d.len() > 0 {
        lemma_zeros_in_front(k, d.drop_last());
        assert(all.drop_last() =~= z + d.drop_last());
        assert(all.last() == d.last());
    } else if k > 0 {
        let y = Seq::new((k - 1) as nat, |i: int| '0');
        lemma_zeros_in_front((k - 1) as nat, d);
        assert(all.drop_last() =~= y + d);
        assert(all.last() == '0');
    } else {
        assert(all =~= d);
    }
}

/// In hexadecimal each byte is two digits, the high one first.
pub proof fn law_hex_goes_byte_by_byte(bytes: Seq<u8>, last: u8)
    ensures
        hex(Seq::empty()).len() == 0,
        hex(bytes.push(last)).len() == hex(bytes).len() + 2,
        hex(bytes.push(last)).take(hex(bytes).len() as int) == hex(bytes),
        hex(bytes.push(last))[hex(bytes).len() as int] == digit((last / 16) as nat),
        hex(bytes.push(last))[hex(bytes).len() as int + 1] == digit((last % 16) as nat),
{
    assert(bytes.push(last).drop_last() =~= bytes);
    assert(hex(bytes.push(last)).take(hex(bytes).len() as int) =~= hex(bytes));
}

/// A list of bytes is their decimals in brackets, with a comma and a blank between
/// two.
pub proof fn law_byte_list_goes_byte_by_byte(bytes: Seq<u8>, last: u8)
    ensures
        byte_list(Seq::empty()) == seq!['[', ']'],
        comma_separated(seq![last]) == decimal(last as nat),
        bytes.len() > 0 ==> comma_separated(bytes.push(last)) == comma_separated(bytes) + seq![
            ',',
            ' ',
        ] + decimal(last as nat),
        byte_list(bytes) == seq!['['] + comma_separated(bytes) + seq![']'],
{
    reveal_strlit("[");
    reveal_strlit("]");
    reveal_strlit(", ");
    assert("["@ =~= seq!['[']);
    assert("]"@ =~= seq![']']);
    assert(", "@ =~= seq![',', ' ']);
    assert(bytes.push(last).drop_last() =~= bytes);
    assert(byte_list(Seq::empty()) =~= seq!['[', ']']);
}

} // verus!
