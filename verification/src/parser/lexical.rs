//! The small pieces of the notation: digits, numbers, names, priorities.

use crate::chemicals::{NumberOperator, NumberToken};
use vstd::prelude::*;
use vstd::string::StrSliceExecFns;

verus! {

/// What is wrong with a recipe text.
#[derive(Clone, Copy, Debug, PartialEq, Eq, Structural)]
pub enum ParseReason {
    /// The text ends where more has to follow.
    EndOfInput,
    /// One character has to stand where another was found.
    Expected { wanted: char, found: char },
    /// A quantity has to start with a digit or `$`.
    NotANumber { found: char },
    /// The denominator of a fraction has to be a digit.
    BadDigit { found: char },
    /// A number is above the largest that a quantity can be.
    NumberTooLarge,
    /// A batch count, a temperature or a priority is given as a fraction.
    FractionNotAllowed,
    /// A premade recipe is named that the table does not hold.
    UnknownSubstitution,
    /// Premade recipes name each other more deeply than the table has entries.
    SubstitutionTooDeep,
}

/// The two kinds of failure of the parser.
#[derive(Clone, Copy, Debug, PartialEq, Eq, Structural)]
pub enum ParseErrorKind {
    UnknownSubstitution,
    MalformedRecipe,
}

/// A failure of the parser: what is wrong, and how many characters of the text were
/// left unread when it was found.
#[derive(Clone, Copy, Debug, PartialEq, Eq, Structural)]
pub struct ParseError {
    pub position: usize,
    pub reason: ParseReason,
}

/// The message that tells a reader what is wrong.
pub open spec fn message(reason: ParseReason) -> Seq<char> {
    match reason {
        ParseReason::EndOfInput => "the recipe ends too early"@,
        ParseReason::Expected { .. } => "a different character has to stand here"@,
        ParseReason::NotANumber { .. } => "a quantity has to start with a digit or $"@,
        ParseReason::BadDigit { .. } => "the denominator has to be a digit"@,
        ParseReason::NumberTooLarge => "the number is too large"@,
        ParseReason::FractionNotAllowed => "a fraction cannot stand here"@,
        ParseReason::UnknownSubstitution => "no premade recipe has this name"@,
        ParseReason::SubstitutionTooDeep => "premade recipes name each other in a circle"@,
    }
}

impl ParseError {
    /// The kind of the failure.
    pub fn kind(&self) -> (k: ParseErrorKind)
        ensures
            k == if self.reason is UnknownSubstitution {
                ParseErrorKind::UnknownSubstitution
            } else {
                ParseErrorKind::MalformedRecipe
            },
    {
        match self.reason {
            ParseReason::UnknownSubstitution => ParseErrorKind::UnknownSubstitution,
            _ => ParseErrorKind::MalformedRecipe,
        }
    }

    /// A message for the reader.
    pub fn msg(&self) -> (text: &'static str)
        ensures
            text@ == message(self.reason),
    {
        match self.reason {
            ParseReason::EndOfInput => "the recipe ends too early",
            ParseReason::Expected { .. } => "a different character has to stand here",
            ParseReason::NotANumber { .. } => "a quantity has to start with a digit or $",
            ParseReason::BadDigit { .. } => "the denominator has to be a digit",
            ParseReason::NumberTooLarge => "the number is too large",
            ParseReason::FractionNotAllowed => "a fraction cannot stand here",
            ParseReason::UnknownSubstitution => "no premade recipe has this name",
            ParseReason::SubstitutionTooDeep => "premade recipes name each other in a circle",
        }
    }
}

/// The value of a decimal digit.
pub open spec fn digit_value(c: char) -> Option<u32> {
    if '0' <= c <= '9' {
        Some((c as u32 - '0' as u32) as u32)
    } else {
        None
    }
}

/// The capital of an ASCII letter; other characters are themselves.
pub open spec fn upper(c: char) -> char {
    if 'a' <= c <= 'z' {
        ((c as u8) - 32) as char
    } else {
        c
    }
}

/// How many characters of `s` are left from position `i` on.
pub open spec fn left(s: Seq<char>, i: int) -> usize {
    if 0 <= i <= s.len() {
        (s.len() - i) as usize
    } else {
        0
    }
}

/// The failure for `reason` with the text read up to position `i`.
pub open spec fn failure(s: Seq<char>, i: int, reason: ParseReason) -> ParseError {
    ParseError { position: left(s, i), reason }
}

/// Where the digits that start at position `i` end.
pub open spec fn digits_end(s: Seq<char>, i: int) -> int
    decreases s.len() - i,
{
    if 0 <= i < s.len() && digit_value(s[i]) is Some {
        digits_end(s, i + 1)
    } else {
        i
    }
}

/// The number that the digits from `from` up to `to` are in decimal notation.
pub open spec fn digits_value(s: Seq<char>, from: int, to: int) -> int
    decreases to - from,
{
    if to <= from {
        0
    } else {
        digits_value(s, from, to - 1) * 10 + match digit_value(s[to - 1]) {
            Some(d) => d as int,
            None => 0,
        }
    }
}

/// The position behind character `wanted`, which has to stand at position `i`.
pub open spec fn expect_at(s: Seq<char>, i: int, wanted: char) -> Result<int, ParseError> {
    if i >= s.len() {
        Err(failure(s, s.len() as int, ParseReason::EndOfInput))
    } else if s[i] != wanted {
        Err(failure(s, i + 1, ParseReason::Expected { wanted, found: s[i] }))
    } else {
        Ok(i + 1)
    }
}

/// The quantity that starts at position `i`, and the position behind it.
pub open spec fn number_at(s: Seq<char>, i: int) -> Result<(NumberToken, int), ParseError> {
    if i >= s.len() {
        Err(failure(s, s.len() as int, ParseReason::EndOfInput))
    } else if digit_value(s[i]) is Some {
        let to = digits_end(s, i);
        if digits_value(s, i, to) > u32::MAX {
            Err(failure(s, to, ParseReason::NumberTooLarge))
        } else {
            Ok((NumberToken::Constant(digits_value(s, i, to) as u32), to))
        }
    } else if s[i] == '$' {
        if i + 1 >= s.len() {
            Err(failure(s, s.len() as int, ParseReason::EndOfInput))
        } else {
            let (numerator, slash) = match digit_value(s[i + 1]) {
                Some(d) => (d, i + 2),
                None => (1u32, i + 1),
            };
            match expect_at(s, slash, '/') {
                Err(e) => Err(e),
                Ok(at) => if at >= s.len() {
                    Err(failure(s, s.len() as int, ParseReason::EndOfInput))
                } else {
                    match digit_value(s[at]) {
                        None => Err(failure(s, at, ParseReason::BadDigit { found: s[at] })),
                        Some(denominator) => Ok(
                            (
                                NumberToken::Calculated(NumberOperator { numerator, denominator }),
                                at + 1,
                            ),
                        ),
                    }
                },
            }
        }
    } else {
        Err(failure(s, i, ParseReason::NotANumber { found: s[i] }))
    }
}

/// The fixed amount that starts at position `i`: a fraction cannot stand there.
pub open spec fn amount_at(s: Seq<char>, i: int) -> Result<(u32, int), ParseError> {
    match number_at(s, i) {
        Err(e) => Err(e),
        Ok((NumberToken::Constant(v), to)) => Ok((v, to)),
        Ok((NumberToken::Calculated(_), to)) => Err(failure(s, to, ParseReason::FractionNotAllowed)),
    }
}

/// Where the first `;` from position `i` on stands, or the end of the text.
pub open spec fn semicolon_from(s: Seq<char>, i: int) -> int
    decreases s.len() - i,
{
    if 0 <= i < s.len() && s[i] != ';' {
        semicolon_from(s, i + 1)
    } else {
        i
    }
}

/// The name that starts at position `i`: at least one character, and then all up to
/// the next `;`. Returns where the name ends; the text goes on behind the `;`.
pub open spec fn name_end(s: Seq<char>, i: int) -> Result<int, ParseError> {
    if i >= s.len() || semicolon_from(s, i + 1) >= s.len() {
        Err(failure(s, s.len() as int, ParseReason::EndOfInput))
    } else {
        Ok(semicolon_from(s, i + 1))
    }
}

/// The priority that may stand at position `i`: `!`, a fixed amount and `;`. Where
/// none stands the priority is 0.
pub open spec fn priority_at(s: Seq<char>, i: int) -> Result<(u32, int), ParseError> {
    if 0 <= i < s.len() && s[i] == '!' {
        match amount_at(s, i + 1) {
            Err(e) => Err(e),
            Ok((v, to)) => match expect_at(s, to, ';') {
                Err(e) => Err(e),
                Ok(next) => Ok((v, next)),
            },
        }
    } else {
        Ok((0, i))
    }
}

/// The value of a decimal digit.
pub fn digit(c: char) -> (r: Option<u32>)
    ensures
        r == digit_value(c),
{
    if c >= '0' && c <= '9' {
        Some(c as u32 - '0' as u32)
    } else {
        None
    }
}

/// The capital of an ASCII letter.
pub fn to_upper(c: char) -> (r: char)
    ensures
        r == upper(c),
{
    if c >= 'a' && c <= 'z' {
        ((c as u8) - 32) as char
    } else {
        c
    }
}

/// The character at position `i`, where the text has one.
pub fn peek(text: &str, len: usize, i: usize) -> (r: Result<char, ParseError>)
    requires
        len == text@.len(),
    ensures
        r == if i < len {
            Ok::<char, ParseError>(text@[i as int])
        } else {
            Err::<char, ParseError>(failure(text@, len as int, ParseReason::EndOfInput))
        },
{
    if i < len {
        Ok(text.get_char(i))
    } else {
        Err(ParseError { position: 0, reason: ParseReason::EndOfInput })
    }
}

/// Checks that character `matches` stands at position `i`, and steps over it.
pub fn assert_token(text: &str, len: usize, i: usize, matches: char) -> (r: Result<
    usize,
    ParseError,
>)
    requires
        len == text@.len(),
    ensures
        match expect_at(text@, i as int, matches) {
            Ok(next) => r == Ok::<usize, ParseError>(next as usize) && next <= len,
            Err(e) => r == Err::<usize, ParseError>(e),
        },
{
    if i >= len {
        return Err(ParseError { position: 0, reason: ParseReason::EndOfInput });
    }
    let found = text.get_char(i);
    if found != matches {
        Err(
            ParseError {
                position: len - i - 1,
                reason: ParseReason::Expected { wanted: matches, found },
            },
        )
    } else {
        Ok(i + 1)
    }
}

/// Where the digits from a position on end: at or behind the position, within the
/// text, with digits all the way and no digit at the end.
pub proof fn lemma_digits_end(s: Seq<char>, i: int)
    ensures
        i <= digits_end(s, i),
        0 <= i <= s.len() ==> digits_end(s, i) <= s.len(),
        forall|k: int| i <= k < digits_end(s, i) && 0 <= i ==> digit_value(#[trigger] s[k]) is Some,
        0 <= i && digits_end(s, i) < s.len() ==> digit_value(s[digits_end(s, i)]) is None,
    decreases s.len() - i,
{
    if 0 <= i < s.len() && digit_value(s[i]) is Some {
        lemma_digits_end(s, i + 1);
    }
}

/// The digits that start at `i` end where those that start anywhere among them end.
pub proof fn lemma_digits_end_from(s: Seq<char>, i: int, k: int)
    requires
        0 <= i <= k <= s.len(),
        forall|j: int| i <= j < k ==> digit_value(#[trigger] s[j]) is Some,
    ensures
        digits_end(s, i) == digits_end(s, k),
    decreases k - i,
{
    if i < k {
        assert(digit_value(s[i]) is Some);
        lemma_digits_end_from(s, i + 1, k);
    }
}

/// A number is not negative.
pub proof fn lemma_digits_value_nonneg(s: Seq<char>, from: int, to: int)
    ensures
        0 <= digits_value(s, from, to),
    decreases to - from,
{
    if to > from {
        lemma_digits_value_nonneg(s, from, to - 1);
    }
}

/// The one-digit number at position `i`, for the parts of a fraction.
pub fn parse_digit(text: &str, len: usize, i: usize) -> (r: Option<u32>)
    requires
        len == text@.len(),
    ensures
        r == if i < len {
            digit_value(text@[i as int])
        } else {
            None
        },
{
    if i < len {
        digit(text.get_char(i))
    } else {
        None
    }
}

/// The quantity that starts at position `i`, and the position behind it.
pub fn parse_number(text: &str, len: usize, i: usize) -> (r: Result<(NumberToken, usize), ParseError>)
    requires
        len == text@.len(),
    ensures
        match number_at(text@, i as int) {
            Ok((q, next)) => r == Ok::<(NumberToken, usize), ParseError>((q, next as usize)) && i
                < next <= len,
            Err(e) => r == Err::<(NumberToken, usize), ParseError>(e),
        },
{
    let ghost s = text@;
    let first = match peek(text, len, i) {
        Ok(c) => c,
        Err(e) => { return Err(e); },
    };
    if digit(first).is_some() {
        let mut sum: u64 = 0;
        let mut at: usize = i;
        proof {
            lemma_digits_end(s, i as int);
        }
        while at < len && digit(text.get_char(at)).is_some()
            invariant
                i <= at <= len,
                len == s.len(),
                s == text@,
                forall|j: int| i <= j < at ==> digit_value(#[trigger] s[j]) is Some,
                sum == if digits_value(s, i as int, at as int) > u32::MAX {
                    u32::MAX + 1
                } else {
                    digits_value(s, i as int, at as int)
                },
            decreases len - at,
        {
            let d = digit(text.get_char(at)).unwrap();
            proof {
                lemma_digits_value_nonneg(s, i as int, at as int);
            }
            let wide: u64 = sum * 10 + d as u64;
            sum = if wide > u32::MAX as u64 {
                u32::MAX as u64 + 1
            } else {
                wide
            };
            at += 1;
        }
        proof {
            lemma_digits_end_from(s, i as int, at as int);
            lemma_digits_end(s, at as int);
            assert(digits_end(s, i as int) == at);
        }
        if sum > u32::MAX as u64 {
            Err(ParseError { position: len - at, reason: ParseReason::NumberTooLarge })
        } else {
            Ok((NumberToken::Constant(sum as u32), at))
        }
    } else if first == '$' {
        if i + 1 >= len {
            return Err(ParseError { position: 0, reason: ParseReason::EndOfInput });
        }
        let (numerator, slash) = match parse_digit(text, len, i + 1) {
            Some(d) => (d, i + 2),
            None => (1, i + 1),
        };
        let at = match assert_token(text, len, slash, '/') {
            Ok(at) => at,
            Err(e) => { return Err(e); },
        };
        if at >= len {
            return Err(ParseError { position: 0, reason: ParseReason::EndOfInput });
        }
        match parse_digit(text, len, at) {
            None => Err(
                ParseError {
                    position: len - at,
                    reason: ParseReason::BadDigit { found: text.get_char(at) },
                },
            ),
            Some(denominator) => Ok(
                (NumberToken::Calculated(NumberOperator::new(numerator, denominator)), at + 1),
            ),
        }
    } else {
        Err(ParseError { position: len - i, reason: ParseReason::NotANumber { found: first } })
    }
}

/// The fixed amount that starts at position `i`.
pub fn parse_amount(text: &str, len: usize, i: usize) -> (r: Result<(u32, usize), ParseError>)
    requires
        len == text@.len(),
    ensures
        match amount_at(text@, i as int) {
            Ok((v, next)) => r == Ok::<(u32, usize), ParseError>((v, next as usize)) && i < next
                <= len,
            Err(e) => r == Err::<(u32, usize), ParseError>(e),
        },
{
    match parse_number(text, len, i) {
        Err(e) => Err(e),
        Ok((NumberToken::Constant(v), next)) => Ok((v, next)),
        Ok((NumberToken::Calculated(_), next)) => Err(
            ParseError { position: len - next, reason: ParseReason::FractionNotAllowed },
        ),
    }
}

/// The priority that may stand at position `i`, and the position behind it.
pub fn parse_priority(text: &str, len: usize, i: usize) -> (r: Result<(u32, usize), ParseError>)
    requires
        len == text@.len(),
        i <= len,
    ensures
        match priority_at(text@, i as int) {
            Ok((p, next)) => r == Ok::<(u32, usize), ParseError>((p, next as usize)) && i <= next
                <= len,
            Err(e) => r == Err::<(u32, usize), ParseError>(e),
        },
{
    if i < len && text.get_char(i) == '!' {
        let (number, to) = match parse_amount(text, len, i + 1) {
            Ok(found) => found,
            Err(e) => { return Err(e); },
        };
        match assert_token(text, len, to, ';') {
            Ok(next) => Ok((number, next)),
            Err(e) => Err(e),
        }
    } else {
        Ok((0, i))
    }
}

/// Where the first `;` from a position on stands is at or behind the position, and
/// no `;` stands between.
pub proof fn lemma_semicolon_from(s: Seq<char>, i: int)
    ensures
        i <= semicolon_from(s, i),
        0 <= i <= s.len() ==> semicolon_from(s, i) <= s.len(),
        0 <= i && semicolon_from(s, i) < s.len() ==> s[semicolon_from(s, i)] == ';',
        forall|k: int| 0 <= i <= k < semicolon_from(s, i) ==> #[trigger] s[k] != ';',
    decreases s.len() - i,
{
    if 0 <= i < s.len() && s[i] != ';' {
        lemma_semicolon_from(s, i + 1);
    }
}

/// The search for `;` from `i` goes on from `k` where none stands between.
pub proof fn lemma_semicolon_from_skip(s: Seq<char>, i: int, k: int)
    requires
        0 <= i <= k <= s.len(),
        forall|j: int| i <= j < k ==> #[trigger] s[j] != ';',
    ensures
        semicolon_from(s, i) == semicolon_from(s, k),
    decreases k - i,
{
    if i < k {
        assert(s[i] != ';');
        lemma_semicolon_from_skip(s, i + 1, k);
    }
}

/// Where the name that starts at position `i` ends. The `;` stands there.
pub fn parse_name(text: &str, len: usize, i: usize) -> (r: Result<usize, ParseError>)
    requires
        len == text@.len(),
    ensures
        match name_end(text@, i as int) {
            Ok(end) => r == Ok::<usize, ParseError>(end as usize) && i < end < len,
            Err(e) => r == Err::<usize, ParseError>(e),
        },
{
    let ghost s = text@;
    if i >= len {
        return Err(ParseError { position: 0, reason: ParseReason::EndOfInput });
    }
    let mut at: usize = i + 1;
    while at < len && text.get_char(at) != ';'
        invariant
            i < at <= len,
            len == s.len(),
            s == text@,
            forall|j: int| i + 1 <= j < at ==> #[trigger] s[j] != ';',
        decreases len - at,
    {
        at += 1;
    }
    proof {
        lemma_semicolon_from_skip(s, i + 1, at as int);
        lemma_semicolon_from(s, at as int);
    }
    if at >= len {
        Err(ParseError { position: 0, reason: ParseReason::EndOfInput })
    } else {
        Ok(at)
    }
}

} // verus!
