use crate::board::Coord;
use vstd::prelude::*;

verus! {

/// A text without a second field: it holds no comma.
#[derive(Debug, Clone, Copy, PartialEq, Eq, Structural)]
pub struct ParseCoordinatesError;

impl ParseCoordinatesError {
    /// A sentence for the person who wrote the text.
    pub fn message(&self) -> (text: &'static str)
        ensures
            text@ == "Failed to parse coordinates."@,
    {
        "Failed to parse coordinates."
    }
}

/// Why a field is no number, as std's parser of integers tells it.
#[derive(Debug, Clone, Copy, PartialEq, Eq, Structural)]
pub enum ParseNumberError {
    /// The field is empty.
    Empty,
    /// The field holds a character that is no digit where it stands, which
    /// a sign on its own is too.
    InvalidDigit,
    /// The number is greater than a `usize` holds.
    PosOverflow,
}

impl ParseNumberError {
    /// A sentence for the person who wrote the text.
    pub fn message(&self) -> (text: &'static str)
        ensures
            text@ == (match *self {
                ParseNumberError::Empty => "cannot parse integer from empty string"@,
                ParseNumberError::InvalidDigit => "invalid digit found in string"@,
                ParseNumberError::PosOverflow => "number too large to fit in target type"@,
            }),
    {
        match self {
            ParseNumberError::Empty => "cannot parse integer from empty string",
            ParseNumberError::InvalidDigit => "invalid digit found in string",
            ParseNumberError::PosOverflow => "number too large to fit in target type",
        }
    }
}

/// Why a text gives no coordinates.
#[derive(Debug, Clone, Copy, PartialEq, Eq, Structural)]
pub enum CoordinatesError {
    /// The second field is missing.
    Field(ParseCoordinatesError),
    /// A field is no number.
    Number(ParseNumberError),
}

/// The base of the numbers: 16 or 10.
pub open spec fn radix_of(hex: bool) -> int {
    if hex {
        16
    } else {
        10
    }
}

/// The value of a character as a digit: `0` to `9`, and in base 16 also `a`
/// to `f` and `A` to `F`.
pub open spec fn digit_value(c: char, hex: bool) -> Option<int> {
    let code = c as u32 as int;
    if 48 <= code <= 57 {
        Some(code - 48)
    } else if hex && 97 <= code <= 102 {
        Some(code - 87)
    } else if hex && 65 <= code <= 70 {
        Some(code - 55)
    } else {
        None
    }
}

/// Whether every character is a digit.
pub open spec fn all_digits(digits: Seq<char>, hex: bool) -> bool {
    forall|i: int| 0 <= i < digits.len() ==> digit_value(#[trigger] digits[i], hex) is Some
}

/// The number that a sequence of digits writes.
pub open spec fn number_of(digits: Seq<char>, hex: bool) -> int
    decreases digits.len(),
{
    if digits.len() == 0 {
        0
    } else {
        number_of(digits.drop_last(), hex) * radix_of(hex) + digit_value(digits.last(), hex).unwrap_or(0)
    }
}

/// Number of digits at the head of the characters.
pub open spec fn leading_digits(digits: Seq<char>, hex: bool) -> int
    decreases digits.len(),
{
    if digits.len() == 0 || digit_value(digits[0], hex) is None {
        0
    } else {
        1 + leading_digits(digits.drop_first(), hex)
    }
}

/// The number that the characters write, read from the left. The number must
/// not grow beyond what a `usize` holds before a character is met that is no
/// digit: then it is too large, whatever follows. Else the first character
/// that is no digit spoils the field.
pub open spec fn parse_digits(digits: Seq<char>, hex: bool) -> Result<usize, ParseNumberError> {
    let head = digits.take(leading_digits(digits, hex));
    if number_of(head, hex) > usize::MAX {
        Err(ParseNumberError::PosOverflow)
    } else if head.len() < digits.len() {
        Err(ParseNumberError::InvalidDigit)
    } else {
        Ok(number_of(digits, hex) as usize)
    }
}

/// The number that a field writes, as `str::parse` and
/// `usize::from_str_radix` read it: a `+` or nothing, then one digit or
/// more, and a value that a `usize` holds. An empty field is `Empty`, a `+`
/// alone is no digit.
pub open spec fn parse_number(text: Seq<char>, hex: bool) -> Result<usize, ParseNumberError> {
    if text.len() == 0 {
        Err(ParseNumberError::Empty)
    } else if text[0] == '+' {
        if text.len() == 1 {
            Err(ParseNumberError::InvalidDigit)
        } else {
            parse_digits(text.drop_first(), hex)
        }
    } else {
        parse_digits(text, hex)
    }
}

/// The place of the first comma at or behind `from`, or the length of the
/// text where there is none.
pub open spec fn comma_from(text: Seq<char>, from: int) -> int
    decreases text.len() - from,
{
    if from < 0 || from >= text.len() {
        text.len() as int
    } else if text[from] == ',' {
        from
    } else {
        comma_from(text, from + 1)
    }
}

/// The coordinates that a text gives: the number in the field before the
/// first comma and the number in the field behind it, which ends at the
/// second comma or at the end of the text. What follows a second comma is
/// not read. The first field is read first, so that it is blamed first; a
/// text without a comma has no second field.
pub open spec fn parse_coordinates(text: Seq<char>, hex: bool) -> Result<Coord, CoordinatesError> {
    let first = comma_from(text, 0);
    let second = comma_from(text, first + 1);
    match parse_number(text.subrange(0, first), hex) {
        Err(error) => Err(CoordinatesError::Number(error)),
        Ok(row) => if first >= text.len() {
            Err(CoordinatesError::Field(ParseCoordinatesError))
        } else {
            match parse_number(text.subrange(first + 1, second), hex) {
                Err(error) => Err(CoordinatesError::Number(error)),
                Ok(col) => Ok((row, col)),
            }
        },
    }
}

/// The characters of a text, one by one.
fn chars_of(s: &str) -> (chars: Vec<char>)
    ensures
        chars@ == s@,
{
    let mut chars: Vec<char> = Vec::new();
    for c in it: s.chars()
        invariant
            it.seq() == s@,
            chars@ == it.seq().take(it.index()),
    {
        chars.push(c);
        assert(it.seq().take(it.index() + 1) =~= it.seq().take(it.index()).push(c));
    }
    assert(chars@ =~= s@);
    chars
}

/// The value of a character as a digit.
fn digit_of(c: char, hex: bool) -> (digit: Option<usize>)
    ensures
        digit is Some <==> digit_value(c, hex) is Some,
        digit is Some ==> digit->0 == digit_value(c, hex)->0 && digit->0 < radix_of(hex),
{
    let code = c as u32;
    if 48 <= code && code <= 57 {
        Some((code - 48) as usize)
    } else if hex && 97 <= code && code <= 102 {
        Some((code - 87) as usize)
    } else if hex && 65 <= code && code <= 70 {
        Some((code - 55) as usize)
    } else {
        None
    }
}

/// A number grows with every digit that is written behind it.
proof fn lemma_number_grows(digits: Seq<char>, hex: bool, k: int)
    requires
        0 <= k <= digits.len(),
    ensures
        0 <= number_of(digits.take(k), hex) <= number_of(digits, hex),
    decreases digits.len() - k,
{
    lemma_number_not_negative(digits.take(k), hex);
    if k < digits.len() {
        lemma_number_grows(digits, hex, k + 1);
        assert(digits.take(k + 1).drop_last() =~= digits.take(k));
        let shorter = number_of(digits.take(k), hex);
        assert(shorter * radix_of(hex) >= shorter) by (nonlinear_arith)
            requires
                shorter >= 0,
                radix_of(hex) >= 1,
        ;
    } else {
        assert(digits.take(k) =~= digits);
    }
}

proof fn lemma_number_not_negative(digits: Seq<char>, hex: bool)
    ensures
        0 <= number_of(digits, hex),
    decreases digits.len(),
{
    if digits.len() > 0 {
        lemma_number_not_negative(digits.drop_last(), hex);
        let shorter = number_of(digits.drop_last(), hex);
        assert(shorter * radix_of(hex) >= 0) by (nonlinear_arith)
            requires
                shorter >= 0,
                radix_of(hex) >= 1,
        ;
    }
}

/// The digits at the head of the characters are digits, and the character
/// behind them is none.
proof fn lemma_leading_digits(digits: Seq<char>, hex: bool, seen: int)
    requires
        0 <= seen <= digits.len(),
        all_digits(digits.take(seen), hex),
        seen == digits.len() || digit_value(digits[seen], hex) is None,
    ensures
        leading_digits(digits, hex) == seen,
    decreases seen,
{
    if seen > 0 {
        assert(digits.take(seen)[0] == digits[0]);
        let rest = digits.drop_first();
        assert forall|i: int| 0 <= i < seen - 1 implies digit_value(#[trigger] rest.take(seen - 1)[i], hex) is Some by {
            assert(rest.take(seen - 1)[i] == digits.take(seen)[i + 1]);
        }
        if seen < digits.len() {
            assert(rest[seen - 1] == digits[seen]);
        }
        lemma_leading_digits(rest, hex, seen - 1);
    }
}

/// The digits at the head of the characters reach at least as far as any
/// run of digits from the first character on.
proof fn lemma_leading_digits_reach(digits: Seq<char>, hex: bool, seen: int)
    requires
        0 <= seen <= digits.len(),
        all_digits(digits.take(seen), hex),
    ensures
        seen <= leading_digits(digits, hex) <= digits.len(),
        all_digits(digits.take(leading_digits(digits, hex)), hex),
    decreases digits.len(),
{
    if digits.len() > 0 && digit_value(digits[0], hex) is Some {
        let rest = digits.drop_first();
        if seen > 0 {
            assert forall|i: int| 0 <= i < seen - 1 implies digit_value(#[trigger] rest.take(seen - 1)[i], hex) is Some by {
                assert(rest.take(seen - 1)[i] == digits.take(seen)[i + 1]);
            }
            lemma_leading_digits_reach(rest, hex, seen - 1);
        } else {
            assert(rest.take(0) =~= Seq::<char>::empty());
            lemma_leading_digits_reach(rest, hex, 0);
        }
        let reach = leading_digits(rest, hex);
        assert forall|i: int| 0 <= i < reach + 1 implies digit_value(#[trigger] digits.take(reach + 1)[i], hex) is Some by {
            if i > 0 {
                assert(digits.take(reach + 1)[i] == rest.take(reach)[i - 1]);
            }
        }
    } else {
        if seen > 0 {
            assert(digits.take(seen)[0] == digits[0]);
        }
        assert(digits.take(0) =~= Seq::<char>::empty());
    }
}

/// Reads the characters from `from` up to `to` as a number.
fn number_in(chars: &Vec<char>, from: usize, to: usize, hex: bool) -> (number: Result<usize, ParseNumberError>)
    requires
        from <= to <= chars.len(),
    ensures
        number == parse_number(chars@.subrange(from as int, to as int), hex),
{
    let ghost text = chars@.subrange(from as int, to as int);
    if from == to {
        return Err(ParseNumberError::Empty);
    }
    let start = if chars[from] == '+' {
        from + 1
    } else {
        from
    };
    let ghost digits = chars@.subrange(start as int, to as int);
    let ghost wanted = parse_number(text, hex);
    proof {
        if start > from {
            assert(text[0] == '+');
            assert(text.drop_first() =~= digits);
        } else {
            assert(text[0] != '+');
            assert(text =~= digits);
        }
    }
    if start == to {
        return Err(ParseNumberError::InvalidDigit);
    }
    assert(wanted == parse_digits(digits, hex));
    let radix: usize = if hex {
        16
    } else {
        10
    };
    let mut value: usize = 0;
    let mut i: usize = start;
    proof {
        assert(digits.take(0) =~= Seq::<char>::empty());
    }
    while i < to
        invariant
            start <= i <= to <= chars.len(),
            radix == radix_of(hex),
            digits == chars@.subrange(start as int, to as int),
            wanted == parse_digits(digits, hex),
            wanted == parse_number(chars@.subrange(from as int, to as int), hex),
            from <= start < to,
            all_digits(digits.take(i - start), hex),
            value == number_of(digits.take(i - start), hex),
        decreases to - i,
    {
        let ghost seen = digits.take(i - start);
        let ghost next = digits.take(i - start + 1);
        proof {
            assert(next.drop_last() =~= seen);
            assert(next.last() == chars@[i as int]);
        }
        let digit = match digit_of(chars[i], hex) {
            Some(digit) => digit,
            None => {
                proof {
                    assert(digit_value(digits[i - start], hex) is None);
                    lemma_leading_digits(digits, hex, i - start);
                }
                return Err(ParseNumberError::InvalidDigit);
            },
        };
        proof {
            assert forall|k: int| 0 <= k < next.len() implies digit_value(#[trigger] next[k], hex) is Some by {
                if k < seen.len() {
                    assert(next[k] == seen[k]);
                }
            }
            assert(number_of(next, hex) == value * radix + digit);
            lemma_leading_digits_reach(digits, hex, i - start + 1);
            let head = digits.take(leading_digits(digits, hex));
            assert(head.take(i - start + 1) =~= next);
            lemma_number_grows(head, hex, i - start + 1);
        }
        let scaled = match value.checked_mul(radix) {
            Some(scaled) => scaled,
            None => {
                return Err(ParseNumberError::PosOverflow);
            },
        };
        value = match scaled.checked_add(digit) {
            Some(sum) => sum,
            None => {
                return Err(ParseNumberError::PosOverflow);
            },
        };
        i += 1;
    }
    proof {
        assert(digits.take(to - start) =~= digits);
        lemma_leading_digits(digits, hex, to - start);
    }
    Ok(value)
}

/// The place of the first comma at or behind `from`.
fn find_comma(chars: &Vec<char>, from: usize) -> (at: usize)
    requires
        from <= chars.len(),
    ensures
        at == comma_from(chars@, from as int),
        from <= at <= chars.len(),
{
    let mut at = from;
    while at < chars.len() && chars[at] != ','
        invariant
            from <= at <= chars.len(),
            comma_from(chars@, from as int) == comma_from(chars@, at as int),
        decreases chars.len() - at,
    {
        at += 1;
    }
    at
}

/// Reads two numbers of the given base, with a comma between them.
fn coordinates_in(s: &str, hex: bool) -> (coords: Result<Coord, CoordinatesError>)
    ensures
        coords == parse_coordinates(s@, hex),
{
    let chars = chars_of(s);
    let first = find_comma(&chars, 0);
    let row = match number_in(&chars, 0, first, hex) {
        Ok(row) => row,
        Err(error) => {
            return Err(CoordinatesError::Number(error));
        },
    };
    if first >= chars.len() {
        return Err(CoordinatesError::Field(ParseCoordinatesError));
    }
    let second = find_comma(&chars, first + 1);
    match number_in(&chars, first + 1, second, hex) {
        Ok(col) => Ok((row, col)),
        Err(error) => Err(CoordinatesError::Number(error)),
    }
}

/// Reads coordinates written in base 10, as in `3,12`.
pub fn coordinates_from_str(s: &str) -> (coords: Result<Coord, CoordinatesError>)
    ensures
        coords == parse_coordinates(s@, false),
{
    coordinates_in(s, false)
}

/// Reads coordinates written in base 16, as in `3,C`.
pub fn coordinates_from_hex_str(s: &str) -> (coords: Result<Coord, CoordinatesError>)
    ensures
        coords == parse_coordinates(s@, true),
{
    coordinates_in(s, true)
}

} // verus!
