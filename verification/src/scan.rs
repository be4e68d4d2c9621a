//! Reading text: spaces, letter case, parts of a text, whole numbers.

use vstd::prelude::*;

use crate::text;

verus! {

/// Whether a character is white space in Unicode.
pub open spec fn is_space(c: char) -> bool {
    ||| '\u{9}' <= c <= '\u{d}'
    ||| c == ' '
    ||| c == '\u{85}'
    ||| c == '\u{a0}'
    ||| c == '\u{1680}'
    ||| '\u{2000}' <= c <= '\u{200a}'
    ||| c == '\u{2028}'
    ||| c == '\u{2029}'
    ||| c == '\u{202f}'
    ||| c == '\u{205f}'
    ||| c == '\u{3000}'
}

fn space(c: char) -> (r: bool)
    ensures
        r == is_space(c),
{
    ('\u{9}' <= c && c <= '\u{d}') || c == ' ' || c == '\u{85}' || c == '\u{a0}' || c == '\u{1680}'
        || ('\u{2000}' <= c && c <= '\u{200a}') || c == '\u{2028}' || c == '\u{2029}' || c
        == '\u{202f}' || c == '\u{205f}' || c == '\u{3000}'
}

/// A text without the white space at its beginning.
pub open spec fn trimmed_start(s: Seq<char>) -> Seq<char>
    decreases s.len(),
{
    if s.len() > 0 && is_space(s[0]) {
        trimmed_start(s.skip(1))
    } else {
        s
    }
}

/// A text without the white space at its end.
pub open spec fn trimmed_end(s: Seq<char>) -> Seq<char>
    decreases s.len(),
{
    if s.len() > 0 && is_space(s.last()) {
        trimmed_end(s.drop_last())
    } else {
        s
    }
}

/// A text without the white space around it.
pub open spec fn trimmed(s: Seq<char>) -> Seq<char> {
    trimmed_end(trimmed_start(s))
}

/// The characters from one position up to another.
pub fn part(s: &[char], from: usize, to: usize) -> (r: Vec<char>)
    requires
        from <= to <= s@.len(),
    ensures
        r@ == s@.subrange(from as int, to as int),
{
    let mut out: Vec<char> = Vec::new();
    let mut i: usize = from;
    while i < to
        invariant
            from <= i <= to <= s@.len(),
            out@ == s@.subrange(from as int, i as int),
        decreases to - i,
    {
        out.push(s[i]);
        proof {
            assert(s@.subrange(from as int, i + 1) =~= s@.subrange(from as int, i as int).push(
                s@[i as int],
            ));
        }
        i = i + 1;
    }
    out
}

/// A text without the white space around it.
pub fn trim(s: &[char]) -> (r: Vec<char>)
    ensures
        r@ == trimmed(s@),
{
    let mut from: usize = 0;
    proof {
        assert(s@.skip(0) =~= s@);
    }
    while from < s.len() && space(s[from])
        invariant
            from <= s@.len(),
            trimmed_start(s@.skip(from as int)) == trimmed_start(s@),
        decreases s@.len() - from,
    {
        proof {
            assert(s@.skip(from as int).skip(1) =~= s@.skip(from + 1));
        }
        from = from + 1;
    }
    let mut to: usize = s.len();
    proof {
        assert(trimmed_start(s@) == s@.skip(from as int));
        assert(s@.subrange(from as int, to as int) =~= s@.skip(from as int));
    }
    while to > from && space(s[to - 1])
        invariant
            from <= to <= s@.len(),
            trimmed_end(s@.subrange(from as int, to as int)) == trimmed(s@),
        decreases to,
    {
        proof {
            assert(s@.subrange(from as int, to as int).drop_last() =~= s@.subrange(
                from as int,
                to - 1,
            ));
        }
        to = to - 1;
    }
    part(s, from, to)
}

/// The ASCII lowercase of a character.
pub open spec fn lower(c: char) -> char {
    if 'A' <= c <= 'Z' {
        (c as u8 + 32) as u8 as char
    } else {
        c
    }
}

/// The ASCII uppercase of a character.
pub open spec fn upper(c: char) -> char {
    if 'a' <= c <= 'z' {
        (c as u8 - 32) as u8 as char
    } else {
        c
    }
}

pub fn to_lower(c: char) -> (r: char)
    ensures
        r == lower(c),
{
    if 'A' <= c && c <= 'Z' {
        (c as u8 + 32) as char
    } else {
        c
    }
}

pub fn to_upper(c: char) -> (r: char)
    ensures
        r == upper(c),
{
    if 'a' <= c && c <= 'z' {
        (c as u8 - 32) as char
    } else {
        c
    }
}

/// A text with its ASCII letters in lowercase.
pub open spec fn lowered(s: Seq<char>) -> Seq<char> {
    s.map_values(|c: char| lower(c))
}

/// A text with its ASCII letters in uppercase.
pub open spec fn uppered(s: Seq<char>) -> Seq<char> {
    s.map_values(|c: char| upper(c))
}

pub fn lowercase(s: &[char]) -> (r: Vec<char>)
    ensures
        r@ == lowered(s@),
{
    let mut out: Vec<char> = Vec::new();
    let mut i: usize = 0;
    while i < s.len()
        invariant
            i <= s@.len(),
            out@ == lowered(s@.take(i as int)),
        decreases s@.len() - i,
    {
        out.push(to_lower(s[i]));
        proof {
            assert(lowered(s@.take(i + 1)) =~= lowered(s@.take(i as int)).push(
                lower(s@[i as int]),
            ));
        }
        i = i + 1;
    }
    proof {
        assert(s@.take(i as int) =~= s@);
    }
    out
}

pub fn uppercase(s: &[char]) -> (r: Vec<char>)
    ensures
        r@ == uppered(s@),
{
    let mut out: Vec<char> = Vec::new();
    let mut i: usize = 0;
    while i < s.len()
        invariant
            i <= s@.len(),
            out@ == uppered(s@.take(i as int)),
        decreases s@.len() - i,
    {
        out.push(to_upper(s[i]));
        proof {
            assert(uppered(s@.take(i + 1)) =~= uppered(s@.take(i as int)).push(
                upper(s@[i as int]),
            ));
        }
        i = i + 1;
    }
    proof {
        assert(s@.take(i as int) =~= s@);
    }
    out
}

/// Whether a text stands in another at a position.
pub open spec fn stands_at(s: Seq<char>, p: Seq<char>, i: int) -> bool {
    0 <= i && i + p.len() <= s.len() && s.subrange(i, i + p.len()) == p
}

/// Whether a text occurs in another.
pub open spec fn occurs(s: Seq<char>, p: Seq<char>) -> bool {
    exists|i: int| stands_at(s, p, i)
}

/// Whether a text ends with another.
pub open spec fn ends(s: Seq<char>, p: Seq<char>) -> bool {
    stands_at(s, p, s.len() - p.len())
}

/// Whether a text begins with another.
pub open spec fn starts(s: Seq<char>, p: Seq<char>) -> bool {
    stands_at(s, p, 0)
}

/// Whether a text stands in another at a position.
pub fn found_at(s: &[char], p: &[char], i: usize) -> (r: bool)
    ensures
        r == stands_at(s@, p@, i as int),
{
    if i > s.len() || s.len() - i < p.len() {
        return false;
    }
    let there: Vec<char> = part(s, i, i + p.len());
    text::same_chars(there.as_slice(), p)
}

/// Whether a text occurs in another.
pub fn contains(s: &[char], p: &[char]) -> (r: bool)
    ensures
        r == occurs(s@, p@),
{
    let len: usize = s.len();
    let mut i: usize = 0;
    loop
        invariant
            i <= len,
            len == s@.len(),
            forall|j: int| 0 <= j < i ==> !stands_at(s@, p@, j),
        decreases len - i,
    {
        if found_at(s, p, i) {
            return true;
        }
        if i == len {
            return false;
        }
        i = i + 1;
    }
}

/// Whether a text ends with another.
pub fn ends_with(s: &[char], p: &[char]) -> (r: bool)
    ensures
        r == ends(s@, p@),
{
    if p.len() > s.len() {
        return false;
    }
    found_at(s, p, s.len() - p.len())
}

/// Why a text is no whole number.
#[derive(Debug, Clone, Copy, PartialEq, Eq, Structural)]
pub enum NumberError {
    Empty,
    InvalidDigit,
    TooLarge,
}

impl NumberError {
    pub open spec fn message_spec(self) -> Seq<char> {
        match self {
            NumberError::Empty => "cannot parse integer from empty string"@,
            NumberError::InvalidDigit => "invalid digit found in string"@,
            NumberError::TooLarge => "number too large to fit in target type"@,
        }
    }

    /// What is wrong, in words.
    pub fn message(self) -> (r: String)
        ensures
            r@ == self.message_spec(),
    {
        match self {
            NumberError::Empty => "cannot parse integer from empty string".to_string(),
            NumberError::InvalidDigit => "invalid digit found in string".to_string(),
            NumberError::TooLarge => "number too large to fit in target type".to_string(),
        }
    }
}

/// Whether a character is a decimal digit.
pub open spec fn is_digit(c: char) -> bool {
    '0' <= c <= '9'
}

/// The value of a decimal digit.
pub open spec fn digit_value(c: char) -> nat {
    (c as u8 - '0' as u8) as nat
}

/// The number that digits make after others, as long as it fits: the first thing that is wrong
/// counts.
pub open spec fn digits_after(before: nat, s: Seq<char>) -> Result<usize, NumberError>
    decreases s.len(),
{
    if s.len() == 0 {
        Ok(before as usize)
    } else if !is_digit(s[0]) {
        Err(NumberError::InvalidDigit)
    } else if before * 10 + digit_value(s[0]) > usize::MAX {
        Err(NumberError::TooLarge)
    } else {
        digits_after(before * 10 + digit_value(s[0]), s.skip(1))
    }
}

/// The whole number that a text stands for: digits, after an optional plus sign.
pub open spec fn number(s: Seq<char>) -> Result<usize, NumberError> {
    if s.len() == 0 {
        Err(NumberError::Empty)
    } else if s.len() > 1 && s[0] == '+' {
        digits_after(0, s.skip(1))
    } else {
        digits_after(0, s)
    }
}

/// The whole number that a text stands for.
pub fn parse_number(s: &[char]) -> (r: Result<usize, NumberError>)
    ensures
        r == number(s@),
{
    if s.len() == 0 {
        return Err(NumberError::Empty);
    }
    let mut i: usize = if s.len() > 1 && s[0] == '+' {
        1
    } else {
        0
    };
    let mut n: usize = 0;
    proof {
        assert(s@.skip(0) =~= s@);
    }
    while i < s.len()
        invariant
            i <= s@.len(),
            digits_after(n as nat, s@.skip(i as int)) == number(s@),
        decreases s@.len() - i,
    {
        let c: char = s[i];
        proof {
            assert(s@.skip(i as int).skip(1) =~= s@.skip(i + 1));
        }
        if c < '0' || c > '9' {
            return Err(NumberError::InvalidDigit);
        }
        let d: usize = (c as u8 - 48) as usize;
        if n > (usize::MAX - d) / 10 {
            return Err(NumberError::TooLarge);
        }
        n = n * 10 + d;
        i = i + 1;
    }
    Ok(n)
}

/// Numerals read as the numbers that they stand for: a row of digits, with or without a plus sign,
/// is a number exactly where it fits, and everything else is refused. Leading zeros do not matter.
pub proof fn lemma_numerals_are_read(s: Seq<char>)
    requires
        s.len() > 0,
        forall|i: int| 0 <= i < s.len() ==> '0' <= #[trigger] s[i] <= '9',
    ensures
        text::numeral_value(s) <= usize::MAX ==> number(s) == Ok::<usize, NumberError>(
            text::numeral_value(s) as usize,
        ) && number(seq!['+'] + s) == number(s),
        text::numeral_value(s) > usize::MAX ==> number(s) == Err::<usize, NumberError>(
            NumberError::TooLarge,
        ),
        text::numeral_value(s) >= 0,
{
    lemma_digits_after(0, s);
    assert((seq!['+'] + s).skip(1) =~= s);
    assert(tens(s.len()) * 0 == 0);
}

/// Ten to the power `n`.
spec fn tens(n: nat) -> int
    decreases n,
{
    if n == 0 {
        1
    } else {
        10 * tens((n - 1) as nat)
    }
}

proof fn lemma_numeral_front(s: Seq<char>)
    requires
        s.len() > 0,
        forall|i: int| 0 <= i < s.len() ==> '0' <= #[trigger] s[i] <= '9',
    ensures
        text::numeral_value(s) == (s[0] as u32 - 48) * tens((s.len() - 1) as nat)
            + text::numeral_value(s.skip(1)),
        text::numeral_value(s.skip(1)) >= 0,
        tens((s.len() - 1) as nat) >= 1,
    decreases s.len(),
{
    let a = s[0] as u32 - 48;
    if s.len() == 1 {
        assert(s.skip(1) =~= Seq::empty());
        assert(s.drop_last() =~= Seq::empty());
        assert(text::numeral_value(s.drop_last()) == 0);
    } else {
        let front = s.drop_last();
        lemma_numeral_front(front);
        assert(s.skip(1).drop_last() =~= front.skip(1));
        assert(s.skip(1).last() == s.last());
        let t = tens((front.len() - 1) as nat);
        assert(10 * (a * t) == a * (10 * t)) by (nonlinear_arith);
        assert(s[s.len() - 1] >= '0');
    }
}

proof fn lemma_digits_after(before: nat, s: Seq<char>)
    requires
        before <= usize::MAX,
        forall|i: int| 0 <= i < s.len() ==> '0' <= #[trigger] s[i] <= '9',
    ensures
        ({
            let v = before * tens(s.len()) + text::numeral_value(s);
            &&& v <= usize::MAX ==> digits_after(before, s) == Ok::<usize, NumberError>(v as usize)
            &&& v > usize::MAX ==> digits_after(before, s) == Err::<usize, NumberError>(
                NumberError::TooLarge,
            )
        }),
        text::numeral_value(s) >= 0,
    decreases s.len(),
{
    if s.len() == 0 {
        assert(before * 1 == before);
    } else {
        lemma_numeral_front(s);
        let a = digit_value(s[0]);
        let rest = s.skip(1);
        let t = tens(rest.len());
        let next = before * 10 + a;
        assert(next * t == before * (10 * t) + a * t) by (nonlinear_arith)
            requires
                next == before * 10 + a,
        ;
        assert(tens(s.len()) == 10 * t);
        assert(a == s[0] as u32 - 48);
        if next > usize::MAX {
            assert(next * t >= next) by (nonlinear_arith)
                requires
                    t >= 1,
                    next >= 0,
            ;
        } else {
            lemma_digits_after(next, rest);
        }
        assert(a * t >= 0) by (nonlinear_arith)
            requires
                a >= 0,
                t >= 1,
        ;
    }
}

/// What is written as a decimal numeral is read back.
pub proof fn lemma_decimals_are_read_back(n: usize)
    ensures
        number(text::decimal(n as nat)) == Ok::<usize, NumberError>(n),
{
    text::lemma_decimal_is_a_numeral(n as nat);
    lemma_numerals_are_read(text::decimal(n as nat));
}

/// A text that holds anything but digits, after an optional plus sign, is no number.
pub proof fn lemma_other_texts_are_no_numbers(s: Seq<char>, i: int)
    requires
        0 <= i < s.len(),
        !('0' <= s[i] <= '9'),
        i > 0 || s[0] != '+' || s.len() == 1,
    ensures
        number(s) is Err,
{
    if s.len() > 1 && s[0] == '+' {
        assert(s.skip(1)[i - 1] == s[i]);
        lemma_stops_at(0, s.skip(1), i - 1);
    } else {
        lemma_stops_at(0, s, i);
    }
}

proof fn lemma_stops_at(before: nat, s: Seq<char>, i: int)
    requires
        0 <= i < s.len(),
        !('0' <= s[i] <= '9'),
    ensures
        digits_after(before, s) is Err,
    decreases s.len(),
{
    if is_digit(s[0]) && before * 10 + digit_value(s[0]) <= usize::MAX {
        assert(s.skip(1)[i - 1] == s[i]);
        lemma_stops_at(before * 10 + digit_value(s[0]), s.skip(1), i - 1);
    }
}

/// Trimming takes away white space at both ends and nothing else.
pub proof fn lemma_trimming(s: Seq<char>) -> (cut: (int, int))
    ensures
        0 <= cut.0 <= cut.1 <= s.len(),
        trimmed(s) == s.subrange(cut.0, cut.1),
        forall|i: int|
            0 <= i < cut.0 || cut.1 <= i < s.len() ==> is_space(#[trigger] s[i]),
        trimmed(s).len() > 0 ==> !is_space(trimmed(s)[0]) && !is_space(trimmed(s).last()),
{
    let a = lemma_trimmed_start(s);
    let t = trimmed_start(s);
    let b = lemma_trimmed_end(t);
    assert(t.subrange(0, b) =~= s.subrange(a, a + b));
    assert forall|i: int| 0 <= i < a || a + b <= i < s.len() implies is_space(
        #[trigger] s[i],
    ) by {
        if i >= a {
            assert(t[i - a] == s[i]);
        }
    }
    (a, a + b)
}

proof fn lemma_trimmed_start(s: Seq<char>) -> (a: int)
    ensures
        0 <= a <= s.len(),
        trimmed_start(s) == s.subrange(a, s.len() as int),
        forall|i: int| 0 <= i < a ==> is_space(#[trigger] s[i]),
        trimmed_start(s).len() > 0 ==> !is_space(trimmed_start(s)[0]),
    decreases s.len(),
{
    if s.len() > 0 && is_space(s[0]) {
        let a = lemma_trimmed_start(s.skip(1));
        assert(s.skip(1).subrange(a, s.len() - 1) =~= s.subrange(a + 1, s.len() as int));
        assert forall|i: int| 0 <= i < a + 1 implies is_space(#[trigger] s[i]) by {
            if i > 0 {
                assert(s.skip(1)[i - 1] == s[i]);
            }
        }
        a + 1
    } else {
        assert(s.subrange(0, s.len() as int) =~= s);
        0
    }
}

proof fn lemma_trimmed_end(s: Seq<char>) -> (b: int)
    ensures
        0 <= b <= s.len(),
        trimmed_end(s) == s.subrange(0, b),
        forall|i: int| b <= i < s.len() ==> is_space(#[trigger] s[i]),
        trimmed_end(s).len() > 0 ==> !is_space(trimmed_end(s).last()),
    decreases s.len(),
{
    if s.len() > 0 && is_space(s.last()) {
        let b = lemma_trimmed_end(s.drop_last());
        assert(s.drop_last().subrange(0, b) =~= s.subrange(0, b));
        assert forall|i: int| b <= i < s.len() implies is_space(#[trigger] s[i]) by {
            if i < s.len() - 1 {
                assert(s.drop_last()[i] == s[i]);
            }
        }
        b
    } else {
        assert(s.subrange(0, s.len() as int) =~= s);
        s.len() as int
    }
}

/// Digits are not trimmed away.
pub(crate) proof fn lemma_digits_stay(s: Seq<char>)
    requires
        s.len() > 0,
        forall|i: int| 0 <= i < s.len() ==> '0' <= #[trigger] s[i] <= '9',
    ensures
        trimmed(s) == s,
{
    assert('0' <= s[0] <= '9');
    assert(!is_space(s[0]));
    assert(trimmed_start(s) == s);
    assert('0' <= s[s.len() - 1] <= '9');
    assert(!is_space(s.last()));
}

} // verus!
