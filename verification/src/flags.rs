//! Settings given as text: switches and numbers.

use vstd::prelude::*;
use vstd::string::*;

verus! {

/// A white space character, by Unicode's `White_Space` property.
pub open spec fn is_white(c: char) -> bool {
    let n = c as int;
    0x9 <= n <= 0xd || n == 0x20 || n == 0x85 || n == 0xa0 || n == 0x1680 || 0x2000 <= n <= 0x200a
        || n == 0x2028 || n == 0x2029 || n == 0x202f || n == 0x205f || n == 0x3000
}

fn white(c: char) -> (r: bool)
    ensures
        r == is_white(c),
{
    let n: u32 = c as u32;
    (0x9 <= n && n <= 0xd) || n == 0x20 || n == 0x85 || n == 0xa0 || n == 0x1680 || (0x2000 <= n
        && n <= 0x200a) || n == 0x2028 || n == 0x2029 || n == 0x202f || n == 0x205f || n == 0x3000
}

/// `s` without white space in front.
pub open spec fn trimmed_start(s: Seq<char>) -> Seq<char>
    decreases s.len(),
{
    if s.len() > 0 && is_white(s[0]) {
        trimmed_start(s.skip(1))
    } else {
        s
    }
}

/// `s` without white space at the end.
pub open spec fn trimmed_end(s: Seq<char>) -> Seq<char>
    decreases s.len(),
{
    if s.len() > 0 && is_white(s.last()) {
        trimmed_end(s.drop_last())
    } else {
        s
    }
}

/// `s` without white space around it.
pub open spec fn trimmed(s: Seq<char>) -> Seq<char> {
    trimmed_end(trimmed_start(s))
}

/// The text without white space around it.
pub fn trim(s: &str) -> (r: &str)
    ensures
        r@ == trimmed(s@),
{
    let n: usize = s.unicode_len();
    let mut a: usize = 0;
    assert(s@.skip(0) =~= s@);
    while a < n && white(s.get_char(a))
        invariant
            a <= n,
            n == s@.len(),
            trimmed_start(s@) == trimmed_start(s@.skip(a as int)),
        decreases n - a,
    {
        assert(s@.skip(a as int).skip(1) =~= s@.skip(a + 1));
        a += 1;
    }
    let ghost front = s@.skip(a as int);
    assert(trimmed_start(s@) == front);
    let mut b: usize = n;
    assert(s@.subrange(a as int, n as int) =~= front);
    while a < b && white(s.get_char(b - 1))
        invariant
            a <= b <= n,
            n == s@.len(),
            trimmed_end(front) == trimmed_end(s@.subrange(a as int, b as int)),
        decreases b,
    {
        assert(s@.subrange(a as int, b as int).drop_last() =~= s@.subrange(a as int, b - 1));
        b -= 1;
    }
    assert(trimmed_end(front) == s@.subrange(a as int, b as int));
    s.substring_char(a, b)
}

/// The characters of `s` in front of its first white space.
pub open spec fn first_word(s: Seq<char>) -> Seq<char>
    decreases s.len(),
{
    if s.len() > 0 && !is_white(s[0]) {
        seq![s[0]] + first_word(s.skip(1))
    } else {
        Seq::empty()
    }
}

/// What follows the first word of `s`.
pub open spec fn after_word(s: Seq<char>) -> Seq<char>
    decreases s.len(),
{
    if s.len() > 0 && !is_white(s[0]) {
        after_word(s.skip(1))
    } else {
        s
    }
}

/// The second of the words that white space separates; empty if there is none.
pub open spec fn second_word(s: Seq<char>) -> Seq<char> {
    first_word(trimmed_start(after_word(trimmed_start(s))))
}

/// Where the white space at `from` ends.
fn skip_white(s: &str, from: usize) -> (r: usize)
    requires
        from <= s@.len(),
    ensures
        from <= r <= s@.len(),
        s@.skip(r as int) == trimmed_start(s@.skip(from as int)),
{
    let n: usize = s.unicode_len();
    let mut a: usize = from;
    while a < n && white(s.get_char(a))
        invariant
            from <= a <= n,
            n == s@.len(),
            trimmed_start(s@.skip(from as int)) == trimmed_start(s@.skip(a as int)),
        decreases n - a,
    {
        assert(s@.skip(a as int).skip(1) =~= s@.skip(a + 1));
        a += 1;
    }
    a
}

/// Where the word at `from` ends.
fn skip_word(s: &str, from: usize) -> (r: usize)
    requires
        from <= s@.len(),
    ensures
        from <= r <= s@.len(),
        s@.skip(r as int) == after_word(s@.skip(from as int)),
        s@.subrange(from as int, r as int) == first_word(s@.skip(from as int)),
{
    let n: usize = s.unicode_len();
    let mut a: usize = from;
    let ghost all = s@.skip(from as int);
    assert(s@.subrange(from as int, from as int) + first_word(all) =~= first_word(all));
    while a < n && !white(s.get_char(a))
        invariant
            from <= a <= n,
            n == s@.len(),
            after_word(all) == after_word(s@.skip(a as int)),
            first_word(all) == s@.subrange(from as int, a as int) + first_word(s@.skip(a as int)),
        decreases n - a,
    {
        proof {
            assert(s@.skip(a as int).skip(1) =~= s@.skip(a + 1));
            assert(s@.subrange(from as int, a + 1) =~= s@.subrange(from as int, a as int).push(
                s@[a as int],
            ));
            assert(s@.subrange(from as int, a as int) + (seq![s@[a as int]] + first_word(
                s@.skip(a + 1),
            )) =~= s@.subrange(from as int, a + 1) + first_word(s@.skip(a + 1)));
        }
        a += 1;
    }
    assert(first_word(s@.skip(a as int)) =~= Seq::<char>::empty());
    assert(first_word(all) =~= s@.subrange(from as int, a as int));
    a
}

/// The number that the second word of a text is.
pub fn parse_second_word(s: &str) -> (r: Option<u64>)
    ensures
        r == number(second_word(s@)),
{
    assert(s@.skip(0) =~= s@);
    let a: usize = skip_white(s, 0);
    let b: usize = skip_word(s, a);
    let c: usize = skip_white(s, b);
    let d: usize = skip_word(s, c);
    parse_number(s.substring_char(c, d))
}

/// Whether two texts are the same.
pub fn same_text(a: &str, b: &str) -> (r: bool)
    ensures
        r == (a@ == b@),
{
    let n: usize = a.unicode_len();
    if n != b.unicode_len() {
        return false;
    }
    let mut i: usize = 0;
    while i < n
        invariant
            i <= n,
            n == a@.len(),
            n == b@.len(),
            forall|k: int| 0 <= k < i ==> a@[k] == b@[k],
        decreases n - i,
    {
        if a.get_char(i) != b.get_char(i) {
            assert(a@[i as int] != b@[i as int]);
            return false;
        }
        i += 1;
    }
    assert(a@ =~= b@);
    true
}

/// A decimal digit.
pub open spec fn is_digit(c: char) -> bool {
    '0' as int <= c as int <= '9' as int
}

/// The number that a row of digits stands for.
pub open spec fn digits_value(s: Seq<char>) -> nat
    decreases s.len(),
{
    if s.len() == 0 {
        0
    } else {
        digits_value(s.drop_last()) * 10 + (s.last() as int - '0' as int) as nat
    }
}

/// The digits of a numeral: all but a plus sign in front.
pub open spec fn numeral_digits(s: Seq<char>) -> Seq<char> {
    if s.len() > 0 && s[0] == '+' {
        s.skip(1)
    } else {
        s
    }
}

/// The number that a numeral stands for: digits, with or without a plus sign
/// in front.
pub open spec fn numeral(s: Seq<char>) -> Option<nat> {
    let d = numeral_digits(s);
    if d.len() > 0 && forall|i: int| 0 <= i < d.len() ==> is_digit(#[trigger] d[i]) {
        Some(digits_value(d))
    } else {
        None
    }
}

/// The number of at most 64 bits that a numeral stands for.
pub open spec fn number(s: Seq<char>) -> Option<u64> {
    match numeral(s) {
        Some(n) => if n <= u64::MAX {
            Some(n as u64)
        } else {
            None
        },
        None => None,
    }
}

proof fn lemma_value_grows(s: Seq<char>, i: int, j: int)
    requires
        0 <= i <= j <= s.len(),
        forall|k: int| 0 <= k < s.len() ==> is_digit(#[trigger] s[k]),
    ensures
        digits_value(s.take(i)) <= digits_value(s.take(j)),
    decreases j - i,
{
    if i < j {
        lemma_value_grows(s, i, j - 1);
        assert(s.take(j).drop_last() =~= s.take(j - 1));
    }
}

/// Reads a number of at most 64 bits.
pub fn parse_number(s: &str) -> (r: Option<u64>)
    ensures
        r == number(s@),
{
    let n: usize = s.unicode_len();
    let start: usize = if n > 0 && s.get_char(0) == '+' {
        1
    } else {
        0
    };
    let ghost d = numeral_digits(s@);
    assert(d =~= s@.skip(start as int));
    if start == n {
        return None;
    }
    let mut i: usize = start;
    while i < n
        invariant
            start <= i <= n,
            n == s@.len(),
            d == numeral_digits(s@),
            d == s@.skip(start as int),
            forall|k: int| 0 <= k < i - start ==> is_digit(#[trigger] d[k]),
        decreases n - i,
    {
        let c: u32 = s.get_char(i) as u32;
        if c < 48 || c > 57 {
            assert(!is_digit(d[i - start]));
            return None;
        }
        i += 1;
    }
    let mut value: u64 = 0;
    let mut k: usize = start;
    assert(d.take(0) =~= Seq::<char>::empty());
    while k < n
        invariant
            start <= k <= n,
            n == s@.len(),
            d == numeral_digits(s@),
            d == s@.skip(start as int),
            d.len() > 0,
            forall|q: int| 0 <= q < d.len() ==> is_digit(#[trigger] d[q]),
            value == digits_value(d.take(k - start)),
        decreases n - k,
    {
        let at: u32 = s.get_char(k) as u32;
        assert(is_digit(d[k - start]));
        let digit: u64 = (at as u64) - 48;
        proof {
            let j = k - start;
            assert(d.take(j + 1).drop_last() =~= d.take(j));
            assert(digits_value(d.take(j + 1)) == value * 10 + digit);
            lemma_value_grows(d, j + 1, d.len() as int);
            assert(d.take(d.len() as int) =~= d);
        }
        if value > (u64::MAX - digit) / 10 {
            return None;
        }
        value = value * 10 + digit;
        k += 1;
    }
    assert(d.take(k - start) =~= d);
    Some(value)
}

/// The switch is on: `1`, `true` or `TRUE`.
pub open spec fn on(raw: Option<&str>) -> bool {
    raw matches Some(s) && (s@ == "1"@ || s@ == "true"@ || s@ == "TRUE"@)
}

/// Whether the switch is on.
pub fn is_on(raw: Option<&str>) -> (r: bool)
    ensures
        r == on(raw),
{
    match raw {
        Some(s) => same_text(s, "1") || same_text(s, "true") || same_text(s, "TRUE"),
        None => false,
    }
}

/// The switch is turned off: `0`, `false` or `FALSE`.
pub open spec fn off(raw: Option<&str>) -> bool {
    raw matches Some(s) && (s@ == "0"@ || s@ == "false"@ || s@ == "FALSE"@)
}

/// Whether the switch is turned off.
pub fn is_off(raw: Option<&str>) -> (r: bool)
    ensures
        r == off(raw),
{
    match raw {
        Some(s) => same_text(s, "0") || same_text(s, "false") || same_text(s, "FALSE"),
        None => false,
    }
}

/// The positive number that is given, if one is.
pub open spec fn positive(raw: Option<&str>) -> Option<u64> {
    match raw {
        Some(s) => match number(trimmed(s@)) {
            Some(n) => if n > 0 {
                Some(n)
            } else {
                None
            },
            None => None,
        },
        None => None,
    }
}

/// Reads a positive number.
pub fn parse_positive(raw: Option<&str>) -> (r: Option<u64>)
    ensures
        r == positive(raw),
{
    match raw {
        Some(s) => match parse_number(trim(s)) {
            Some(n) => if n > 0 {
                Some(n)
            } else {
                None
            },
            None => None,
        },
        None => None,
    }
}

/// `a * b`, or the largest number of 64 bits if that is less.
pub open spec fn capped_product(a: u64, b: u64) -> u64 {
    if a * b > u64::MAX {
        u64::MAX
    } else {
        (a * b) as u64
    }
}

/// The product of two numbers, or the largest number of 64 bits if that is
/// less.
pub fn saturating_product(a: u64, b: u64) -> (r: u64)
    ensures
        r == capped_product(a, b),
{
    match a.checked_mul(b) {
        Some(p) => p,
        None => u64::MAX,
    }
}

/// White space, by code point.
pub proof fn law_white_space(c: char)
    ensures
        c == ' ' || c == '\t' || c == '\n' || c == '\r' ==> is_white(c),
        '!' as int <= c as int <= '~' as int ==> !is_white(c),
        is_white(c) <==> (0x9 <= c as int <= 0xd || c as int == 0x20 || c as int == 0x85 || c as int
            == 0xa0 || c as int == 0x1680 || 0x2000 <= c as int <= 0x200a || c as int == 0x2028
            || c as int == 0x2029 || c as int == 0x202f || c as int == 0x205f || c as int == 0x3000),
{
}

/// What is trimmed off the start is white space, and what is left does not start with
/// any.
pub proof fn law_trimming_the_start(s: Seq<char>)
    ensures
        ({
            let r = trimmed_start(s);
            let cut = s.len() - r.len();
            &&& 0 <= cut
            &&& r == s.skip(cut)
            &&& forall|i: int| 0 <= i < cut ==> is_white(#[trigger] s[i])
            &&& r.len() > 0 ==> !is_white(r[0])
        }),
    decreases s.len(),
{
    if s.len() > 0 && is_white(s[0]) {
        let t = s.skip(1);
        law_trimming_the_start(t);
        let r = trimmed_start(s);
        let cut = s.len() - r.len();
        assert(r =~= s.skip(cut));
        assert forall|i: int| 0 <= i < cut implies is_white(#[trigger] s[i]) by {
            if i > 0 {
                assert(t[i - 1] == s[i]);
            }
        }
    } else {
        assert(trimmed_start(s) =~= s.skip(0));
    }
}

/// What is trimmed off the end is white space, and what is left does not end with
/// any.
pub proof fn law_trimming_the_end(s: Seq<char>)
    ensures
        ({
            let r = trimmed_end(s);
            &&& r.len() <= s.len()
            &&& r == s.take(r.len() as int)
            &&& forall|i: int| r.len() <= i < s.len() ==> is_white(#[trigger] s[i])
            &&& r.len() > 0 ==> !is_white(r.last())
        }),
    decreases s.len(),
{
    if s.len() > 0 && is_white(s.last()) {
        let t = s.drop_last();
        law_trimming_the_end(t);
        let r = trimmed_end(s);
        assert(r =~= s.take(r.len() as int));
        assert forall|i: int| r.len() <= i < s.len() implies is_white(#[trigger] s[i]) by {
            if i < t.len() {
                assert(t[i] == s[i]);
            }
        }
    } else {
        assert(trimmed_end(s) =~= s.take(s.len() as int));
    }
}

/// Trimming takes the white space off both ends and nothing else: what is left starts
/// and ends with something else, and all around it is white space.
pub proof fn law_trimming_takes_white_space_off(s: Seq<char>) -> (from: int)
    ensures
        ({
            let r = trimmed(s);
            let to = from + r.len();
            &&& 0 <= from <= to <= s.len()
            &&& r == s.subrange(from, to)
            &&& forall|i: int| 0 <= i < from || to <= i < s.len() ==> is_white(#[trigger] s[i])
            &&& r.len() > 0 ==> !is_white(r[0]) && !is_white(r.last())
        }),
{
    let t = trimmed_start(s);
    law_trimming_the_start(s);
    law_trimming_the_end(t);
    let r = trimmed(s);
    let from = s.len() - t.len();
    let to = from + r.len();
    assert(r =~= s.subrange(from, to));
    assert forall|i: int| 0 <= i < from || to <= i < s.len() implies is_white(#[trigger] s[i]) by {
        if to <= i {
            assert(t[i - from] == s[i]);
        }
    }
    from
}

/// A text is its first word and what follows: the word has no white space, and what
/// follows is nothing or starts with some. The second word is the first of what
/// follows, white space left off.
pub proof fn law_words_are_split_at_white_space(s: Seq<char>)
    ensures
        s == first_word(s) + after_word(s),
        forall|i: int| 0 <= i < first_word(s).len() ==> !is_white(#[trigger] first_word(s)[i]),
        after_word(s).len() > 0 ==> is_white(after_word(s)[0]),
        second_word(s) == first_word(trimmed_start(after_word(trimmed_start(s)))),
    decreases s.len(),
{
    if s.len() > 0 && !is_white(s[0]) {
        let t = s.skip(1);
        law_words_are_split_at_white_space(t);
        assert(s =~= seq![s[0]] + t);
        assert(first_word(s) + after_word(s) =~= seq![s[0]] + (first_word(t) + after_word(t)));
        assert forall|i: int| 0 <= i < first_word(s).len() implies !is_white(
            #[trigger] first_word(s)[i],
        ) by {
            if i > 0 {
                assert(first_word(s)[i] == first_word(t)[i - 1]);
            }
        }
    } else {
        assert(s =~= first_word(s) + after_word(s));
    }
}

/// A numeral is read digit by digit, each place ten times the next; the digits are
/// the ten from `0` to `9`.
pub proof fn law_numerals_are_decimal(s: Seq<char>, d: char)
    ensures
        digits_value(Seq::empty()) == 0,
        is_digit(d) <==> 48 <= d as int <= 57,
        is_digit(d) ==> digits_value(s.push(d)) == 10 * digits_value(s) + (d as int - 48),
{
    assert(s.push(d).drop_last() =~= s);
}

/// A number is one or more digits, after a sign or none, that stay within 64 bits;
/// nothing else is one.
pub proof fn law_numbers_are_digits(s: Seq<char>, digits: Seq<char>)
    requires
        digits == if s.len() > 0 && s[0] == '+' {
            s.skip(1)
        } else {
            s
        },
    ensures
        number(s) is Some <==> digits.len() > 0 && (forall|i: int|
            0 <= i < digits.len() ==> 48 <= (#[trigger] digits[i]) as int <= 57) && digits_value(
            digits,
        ) <= 0xffff_ffff_ffff_ffff,
        number(s) matches Some(n) ==> n == digits_value(digits),
{
    if forall|i: int| 0 <= i < digits.len() ==> 48 <= (#[trigger] digits[i]) as int <= 57 {
        assert forall|i: int| 0 <= i < digits.len() implies is_digit(#[trigger] digits[i]) by {}
    }
    if forall|i: int| 0 <= i < digits.len() ==> is_digit(#[trigger] digits[i]) {
        assert forall|i: int| 0 <= i < digits.len() implies 48 <= (#[trigger] digits[i]) as int
            <= 57 by {
            assert(is_digit(digits[i]));
        }
    }
}

/// Settings: on is `1`, `true` or `TRUE`, off is `0`, `false` or `FALSE`, and a
/// positive number is a number, white space left off, that is not zero.
pub proof fn law_settings_are_read_strictly(raw: Option<&str>)
    ensures
        raw is None ==> !on(raw) && !off(raw) && positive(raw) is None,
        raw matches Some(s) ==> (on(raw) <==> s@ == seq!['1'] || s@ == seq!['t', 'r', 'u', 'e']
            || s@ == seq!['T', 'R', 'U', 'E']),
        raw matches Some(s) ==> (off(raw) <==> s@ == seq!['0'] || s@ == seq![
            'f',
            'a',
            'l',
            's',
            'e',
        ] || s@ == seq!['F', 'A', 'L', 'S', 'E']),
        positive(raw) matches Some(n) ==> n > 0 && raw is Some && number(trimmed(raw->0@)) == Some(
            n,
        ),
        raw matches Some(s) ==> (number(trimmed(s@)) matches Some(n) ==> n > 0 ==> positive(raw)
            == Some(n)),
{
    reveal_strlit("1");
    reveal_strlit("true");
    reveal_strlit("TRUE");
    reveal_strlit("0");
    reveal_strlit("false");
    reveal_strlit("FALSE");
    assert("1"@ =~= seq!['1']);
    assert("true"@ =~= seq!['t', 'r', 'u', 'e']);
    assert("TRUE"@ =~= seq!['T', 'R', 'U', 'E']);
    assert("0"@ =~= seq!['0']);
    assert("false"@ =~= seq!['f', 'a', 'l', 's', 'e']);
    assert("FALSE"@ =~= seq!['F', 'A', 'L', 'S', 'E']);
}

/// A product stops at the largest number of 64 bits.
pub proof fn law_products_are_capped(a: u64, b: u64)
    ensures
        a * b <= 0xffff_ffff_ffff_ffff ==> capped_product(a, b) == a * b,
        a * b > 0xffff_ffff_ffff_ffff ==> capped_product(a, b) == 0xffff_ffff_ffff_ffff,
{
}

} // verus!
