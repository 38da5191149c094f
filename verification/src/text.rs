//! Decimal numbers and separated lists in text.

use itertools::Itertools;
use vstd::prelude::*;

verus! {

// ---------------------------------------------------------------------------------------------
// Decimal numbers
// ---------------------------------------------------------------------------------------------

/// Why a text is not the decimal form of a `u64`.
#[derive(Clone, Copy, Debug, PartialEq, Eq, Structural)]
pub enum ParseDecimalError {
    /// There is no character at all.
    Empty,
    /// A character is not a digit, or a sign stands alone.
    InvalidDigit,
    /// The number is larger than `u64::MAX`.
    PosOverflow,
}

impl ParseDecimalError {
    /// What is said of the error.
    pub open spec fn text(self) -> Seq<char> {
        match self {
            ParseDecimalError::Empty => "cannot parse integer from empty string"@,
            ParseDecimalError::InvalidDigit => "invalid digit found in string"@,
            ParseDecimalError::PosOverflow => "number too large to fit in target type"@,
        }
    }

    /// What is said of the error, as the standard library says it.
    pub fn message(&self) -> (message: &'static str)
        ensures
            message@ == self.text(),
    {
        match self {
            ParseDecimalError::Empty => "cannot parse integer from empty string",
            ParseDecimalError::InvalidDigit => "invalid digit found in string",
            ParseDecimalError::PosOverflow => "number too large to fit in target type",
        }
    }
}

/// The decimal digit of value `d`.
pub open spec fn digit_char(d: nat) -> char {
    (48 + d) as char
}

/// Is `c` one of `0` to `9`?
pub open spec fn is_digit(c: char) -> bool {
    '0' <= c <= '9'
}

/// The value of the digit `c`.
pub open spec fn digit_value(c: char) -> nat {
    (c as int - 48) as nat
}

/// The decimal form of `n`, without leading zeros.
pub open spec fn decimal(n: nat) -> Seq<char>
    decreases n,
{
    if n < 10 {
        seq![digit_char(n)]
    } else {
        decimal(n / 10).push(digit_char(n % 10))
    }
}

/// The value of a row of digits. The first character, from the left, that is no digit or takes
/// the value past `u64::MAX` decides which error it is.
pub open spec fn digits_value(digits: Seq<char>) -> Result<nat, ParseDecimalError>
    decreases digits.len(),
{
    if digits.len() == 0 {
        Ok(0)
    } else {
        match digits_value(digits.drop_last()) {
            Err(error) => Err(error),
            Ok(value) => if !is_digit(digits.last()) {
                Err(ParseDecimalError::InvalidDigit)
            } else if value * 10 + digit_value(digits.last()) > u64::MAX {
                Err(ParseDecimalError::PosOverflow)
            } else {
                Ok(value * 10 + digit_value(digits.last()))
            },
        }
    }
}

/// What stands behind an optional leading `+`.
pub open spec fn without_sign(text: Seq<char>) -> Seq<char> {
    if text.len() > 0 && text[0] == '+' {
        text.skip(1)
    } else {
        text
    }
}

/// The number that `text` stands for: an optional `+`, then at least one digit and nothing else.
pub open spec fn decimal_value(text: Seq<char>) -> Result<nat, ParseDecimalError> {
    if text.len() == 0 {
        Err(ParseDecimalError::Empty)
    } else if without_sign(text).len() == 0 {
        Err(ParseDecimalError::InvalidDigit)
    } else {
        digits_value(without_sign(text))
    }
}

/// The text that holds the one digit `d`.
fn digit_text(d: u64) -> (text: &'static str)
    requires
        d < 10,
    ensures
        text@ == seq![digit_char(d as nat)],
{
    proof {
        reveal_strlit("0");
        reveal_strlit("1");
        reveal_strlit("2");
        reveal_strlit("3");
        reveal_strlit("4");
        reveal_strlit("5");
        reveal_strlit("6");
        reveal_strlit("7");
        reveal_strlit("8");
        reveal_strlit("9");
    }
    match d {
        0 => "0",
        1 => "1",
        2 => "2",
        3 => "3",
        4 => "4",
        5 => "5",
        6 => "6",
        7 => "7",
        8 => "8",
        _ => "9",
    }
}

/// Writes `n` in decimal.
pub fn to_decimal(n: u64) -> (text: String)
    ensures
        text@ == decimal(n as nat),
    decreases n,
{
    if n < 10 {
        digit_text(n).to_owned()
    } else {
        to_decimal(n / 10).concat(digit_text(n % 10))
    }
}

/// Reads a `u64` in decimal, as `str::parse::<u64>` does.
pub fn parse_decimal(text: &str) -> (number: Result<u64, ParseDecimalError>)
    ensures
        match number {
            Ok(n) => decimal_value(text@) == Ok::<nat, ParseDecimalError>(n as nat),
            Err(error) => decimal_value(text@) == Err::<nat, ParseDecimalError>(error),
        },
{
    let chars = to_chars(text);
    if chars.len() == 0 {
        return Err(ParseDecimalError::Empty);
    }
    let first: usize = if chars[0] == '+' { 1 } else { 0 };
    let ghost digits = without_sign(text@);
    assert(digits =~= text@.skip(first as int));
    if first == chars.len() {
        return Err(ParseDecimalError::InvalidDigit);
    }
    let mut value: u64 = 0;
    let mut i: usize = first;
    assert(digits.take(0) =~= Seq::<char>::empty());
    while i < chars.len()
        invariant
            chars@ == text@,
            first <= i <= chars.len(),
            text@.len() > 0,
            digits == without_sign(text@),
            digits == text@.skip(first as int),
            digits.len() > 0,
            digits_value(digits.take(i - first)) == Ok::<nat, ParseDecimalError>(value as nat),
        decreases chars.len() - i,
    {
        let c = chars[i];
        let ghost prefix = digits.take(i + 1 - first);
        proof {
            assert(prefix.drop_last() =~= digits.take(i - first));
            assert(prefix.last() == c);
        }
        if !('0' <= c && c <= '9') {
            proof {
                lemma_first_error_stays(digits, i + 1 - first);
            }
            return Err(ParseDecimalError::InvalidDigit);
        }
        let digit: u64 = (c as u32 - 48) as u64;
        let next: Option<u64> = match value.checked_mul(10) {
            None => None,
            Some(shifted) => shifted.checked_add(digit),
        };
        match next {
            None => {
                proof {
                    lemma_first_error_stays(digits, i + 1 - first);
                }
                return Err(ParseDecimalError::PosOverflow);
            },
            Some(v) => {
                value = v;
            },
        }
        i = i + 1;
    }
    assert(digits.take(digits.len() as int) =~= digits);
    Ok(value)
}

/// An error found in a prefix is the error of the whole.
proof fn lemma_first_error_stays(digits: Seq<char>, n: int)
    requires
        0 <= n <= digits.len(),
        digits_value(digits.take(n)) is Err,
    ensures
        digits_value(digits) == digits_value(digits.take(n)),
    decreases digits.len(),
{
    if n == digits.len() {
        assert(digits.take(n) =~= digits);
    } else {
        assert(digits.drop_last().take(n) =~= digits.take(n));
        lemma_first_error_stays(digits.drop_last(), n);
    }
}

/// The decimal form of a number is made of digits, and of at least one.
pub proof fn decimal_is_digits(n: nat)
    ensures
        decimal(n).len() > 0,
        forall|i: int| 0 <= i < decimal(n).len() ==> is_digit(#[trigger] decimal(n)[i]),
    decreases n,
{
    if n >= 10 {
        decimal_is_digits(n / 10);
    }
}

/// A `u64` written in decimal reads back as itself.
pub proof fn decimal_reads_back(n: u64)
    ensures
        decimal_value(decimal(n as nat)) == Ok::<nat, ParseDecimalError>(n as nat),
{
    decimal_is_digits(n as nat);
    lemma_digits_of_decimal(n as nat);
    assert(is_digit(decimal(n as nat)[0]));
}

/// A number that is read fits into 64 bits.
pub proof fn decimal_value_fits(text: Seq<char>)
    ensures
        decimal_value(text) matches Ok(value) ==> value <= u64::MAX,
{
    reveal_with_fuel(digits_value, 2);
}

/// Only digits, behind an optional `+`, are a number.
pub proof fn decimal_value_is_digits(text: Seq<char>)
    ensures
        decimal_value(text) is Ok ==> forall|i: int|
            0 <= i < without_sign(text).len() ==> is_digit(#[trigger] without_sign(text)[i]),
{
    lemma_digits_value_is_digits(without_sign(text));
}

proof fn lemma_digits_value_is_digits(digits: Seq<char>)
    ensures
        digits_value(digits) is Ok ==> forall|i: int|
            0 <= i < digits.len() ==> is_digit(#[trigger] digits[i]),
    decreases digits.len(),
{
    if digits.len() > 0 {
        lemma_digits_value_is_digits(digits.drop_last());
        assert(forall|i: int| 0 <= i < digits.len() - 1 ==> digits[i] == digits.drop_last()[i]);
    }
}

proof fn lemma_digits_of_decimal(n: nat)
    requires
        n <= u64::MAX,
    ensures
        digits_value(decimal(n)) == Ok::<nat, ParseDecimalError>(n),
    decreases n,
{
    reveal_with_fuel(digits_value, 2);
    if n < 10 {
        assert(decimal(n).drop_last() =~= Seq::<char>::empty());
        assert(decimal(n).last() == digit_char(n));
    } else {
        lemma_digits_of_decimal(n / 10);
        assert(decimal(n).drop_last() =~= decimal(n / 10));
        assert(decimal(n).last() == digit_char(n % 10));
    }
}

/// Each character of the decimal form of a number stands for one power of ten, the last one for
/// the ones; there are as many as the number needs, and none too many.
pub proof fn decimal_counts_powers_of_ten(n: nat)
    ensures
        n < vstd::arithmetic::power::pow(10, decimal(n).len()),
        forall|i: int|
            0 <= i < decimal(n).len() ==> #[trigger] decimal(n)[i] as int == 48 + (n as int
                / vstd::arithmetic::power::pow(10, (decimal(n).len() - 1 - i) as nat)) % 10,
        decimal(n).len() > 1 ==> decimal(n)[0] != '0',
        decimal(n).len() > 0,
    decreases n,
{
    reveal(vstd::arithmetic::power::pow);
    if n < 10 {
        reveal_with_fuel(vstd::arithmetic::power::pow, 3);
        assert(decimal(n)[0] as int == 48 + n);
    } else {
        let tens = (n / 10) as nat;
        let front = decimal(tens);
        let all = decimal(n);
        decimal_counts_powers_of_ten(tens);
        assert(vstd::arithmetic::power::pow(10, all.len()) == 10
            * vstd::arithmetic::power::pow(10, front.len()));
        assert(all[0] == front[0]);
        assert(front.len() == 1 ==> front[0] as int == 48 + tens) by {
            reveal_with_fuel(vstd::arithmetic::power::pow, 3);
        }
        assert forall|i: int| 0 <= i < all.len() implies #[trigger] all[i] as int == 48 + (n as int
            / vstd::arithmetic::power::pow(10, (all.len() - 1 - i) as nat)) % 10 by {
            if i < front.len() {
                let k = (front.len() - 1 - i) as nat;
                let p = vstd::arithmetic::power::pow(10, k);
                assert(all[i] == front[i]);
                vstd::arithmetic::power::lemma_pow_positive(10, k);
                assert(vstd::arithmetic::power::pow(10, (k + 1) as nat) == 10 * p);
                vstd::arithmetic::div_mod::lemma_div_denominator(n as int, 10, p);
            } else {
                reveal_with_fuel(vstd::arithmetic::power::pow, 2);
                assert(all[i] == digit_char(n % 10));
            }
        }
    }
}

/// A text of one character is a number where it is a digit.
pub proof fn one_character_is_a_digit_or_none(c: char)
    ensures
        decimal_value(Seq::<char>::empty()) == Err::<nat, ParseDecimalError>(
            ParseDecimalError::Empty,
        ),
        decimal_value(seq![c]) == if '0' <= c && c <= '9' {
            Ok::<nat, ParseDecimalError>((c as int - 48) as nat)
        } else {
            Err(ParseDecimalError::InvalidDigit)
        },
{
    reveal_with_fuel(digits_value, 2);
    assert(seq![c].drop_last() =~= Seq::<char>::empty());
}

/// One more character takes a number to ten times its value and the digit, unless it is none or
/// the number gets too large; and it mends no error, but that a lone `+` needs a digit.
pub proof fn one_more_character(text: Seq<char>, c: char)
    requires
        text.len() > 0,
    ensures
        decimal_value(text.push(c)) == if text == seq!['+'] {
            if '0' <= c && c <= '9' {
                Ok::<nat, ParseDecimalError>((c as int - 48) as nat)
            } else {
                Err(ParseDecimalError::InvalidDigit)
            }
        } else {
            match decimal_value(text) {
                Err(error) => Err::<nat, ParseDecimalError>(error),
                Ok(value) => if !('0' <= c && c <= '9') {
                    Err(ParseDecimalError::InvalidDigit)
                } else if value * 10 + (c as int - 48) > u64::MAX {
                    Err(ParseDecimalError::PosOverflow)
                } else {
                    Ok((value * 10 + (c as int - 48)) as nat)
                },
            }
        },
{
    let all = text.push(c);
    assert(without_sign(all).drop_last() =~= without_sign(text));
    assert(without_sign(all).last() == c);
    if text[0] == '+' && text.len() == 1 {
        reveal_with_fuel(digits_value, 2);
        assert(text =~= seq!['+']);
        assert(without_sign(all) =~= seq![c]);
        assert(seq![c].drop_last() =~= Seq::<char>::empty());
    } else {
        assert(text != seq!['+']) by {
            assert(seq!['+'].len() == 1 && seq!['+'][0] == '+');
        }
    }
}

// ---------------------------------------------------------------------------------------------
// Separated lists
// ---------------------------------------------------------------------------------------------

/// The parts of a list, one behind the other with `separator` in between.
pub open spec fn joined(parts: Seq<Seq<char>>, separator: Seq<char>) -> Seq<char>
    decreases parts.len(),
{
    if parts.len() == 0 {
        Seq::empty()
    } else if parts.len() == 1 {
        parts[0]
    } else {
        joined(parts.drop_last(), separator) + separator + parts.last()
    }
}

/// The pieces that stand before, between and behind the separators of `text`: always at least
/// one, and empty ones count.
pub open spec fn split_on(text: Seq<char>, separator: char) -> Seq<Seq<char>>
    decreases text.len(),
{
    if text.len() == 0 {
        seq![Seq::empty()]
    } else {
        let pieces = split_on(text.drop_last(), separator);
        if text.last() == separator {
            pieces.push(Seq::empty())
        } else {
            pieces.drop_last().push(pieces.last().push(text.last()))
        }
    }
}

/// What stands before and what stands behind the first separator, if there is one.
pub open spec fn split_once(text: Seq<char>, separator: char) -> Option<(Seq<char>, Seq<char>)> {
    match text.index_of_first(separator) {
        None => None,
        Some(i) => Some((text.take(i), text.skip(i + 1))),
    }
}

/// The texts of a list of strings.
pub open spec fn texts(strings: Seq<String>) -> Seq<Seq<char>> {
    strings.map_values(|s: String| s@)
}

/// The characters of a text.
pub fn to_chars(text: &str) -> (chars: Vec<char>)
    ensures
        chars@ == text@,
{
    let mut chars: Vec<char> = Vec::new();
    for c in it: text.chars()
        invariant
            it.seq() == text@,
            chars@ == text@.take(it.index()),
    {
        chars.push(c);
    }
    chars
}

/// Cuts a text at every separator, as `str::split` does.
pub fn split_text(text: &str, separator: char) -> (pieces: Vec<String>)
    ensures
        texts(pieces@) == split_on(text@, separator),
{
    let chars = to_chars(text);
    let mut pieces: Vec<String> = Vec::new();
    let mut start: usize = 0;
    let mut i: usize = 0;
    assert(text@.take(0) =~= Seq::<char>::empty());
    assert(text@.subrange(0, 0) =~= Seq::<char>::empty());
    while i < chars.len()
        invariant
            chars@ == text@,
            0 <= start <= i <= chars.len(),
            texts(pieces@).push(text@.subrange(start as int, i as int)) == split_on(
                text@.take(i as int),
                separator,
            ),
        decreases chars.len() - i,
    {
        let ghost before = texts(pieces@);
        let ghost open = text@.subrange(start as int, i as int);
        proof {
            let prefix = text@.take(i + 1);
            assert(prefix.drop_last() =~= text@.take(i as int));
            assert(prefix.last() == chars[i as int]);
            assert(before.push(open).drop_last() =~= before);
            assert(open.push(chars[i as int]) =~= text@.subrange(start as int, i + 1));
        }
        if chars[i] == separator {
            pieces.push(text.substring_char(start, i).to_owned());
            start = i + 1;
            proof {
                assert(texts(pieces@) =~= before.push(open));
                assert(text@.subrange(start as int, i + 1) =~= Seq::<char>::empty());
            }
        }
        i = i + 1;
    }
    pieces.push(text.substring_char(start, i).to_owned());
    proof {
        assert(text@.take(i as int) =~= text@);
        assert(texts(pieces@) =~= texts(pieces@.drop_last()).push(
            text@.subrange(start as int, i as int),
        ));
        assert(pieces@.drop_last() =~= pieces@.take(pieces@.len() - 1));
    }
    pieces
}

/// Cuts a text at the first separator, as `str::split_once` does.
pub fn split_text_once(text: &str, separator: char) -> (halves: Option<(String, String)>)
    ensures
        match halves {
            None => split_once(text@, separator) is None,
            Some((head, tail)) => split_once(text@, separator) == Some((head@, tail@)),
        },
{
    let chars = to_chars(text);
    let mut i: usize = 0;
    while i < chars.len()
        invariant
            chars@ == text@,
            i <= chars.len(),
            forall|j: int| 0 <= j < i ==> text@[j] != separator,
        decreases chars.len() - i,
    {
        if chars[i] == separator {
            proof {
                split_once_at(text@, separator, i as int);
            }
            let head = text.substring_char(0, i).to_owned();
            let tail = text.substring_char(i + 1, chars.len()).to_owned();
            assert(head@ =~= text@.take(i as int));
            assert(tail@ =~= text@.skip(i + 1));
            return Some((head, tail));
        }
        i = i + 1;
    }
    proof {
        text@.index_of_first_ensures(separator);
    }
    None
}

/// A text is cut at the first separator, wherever that stands.
pub proof fn split_once_at(text: Seq<char>, separator: char, i: int)
    requires
        0 <= i < text.len(),
        text[i] == separator,
        forall|j: int| 0 <= j < i ==> text[j] != separator,
    ensures
        split_once(text, separator) == Some((text.take(i), text.skip(i + 1))),
{
    text.index_of_first_ensures(separator);
    let first = text.index_of_first(separator)->0;
    assert(text.contains(separator));
    assert(first == i);
}

/// A text is cut where it holds the separator, and only there: what stands before holds none, and
/// the two halves with the separator between them are the text.
pub proof fn split_once_cuts_at_the_first(text: Seq<char>, separator: char)
    ensures
        match split_once(text, separator) {
            None => !text.contains(separator),
            Some((head, tail)) => text == head + seq![separator] + tail && !head.contains(
                separator,
            ),
        },
{
    text.index_of_first_ensures(separator);
    if text.contains(separator) {
        let i = text.index_of_first(separator)->0;
        assert(text =~= text.take(i) + seq![separator] + text.skip(i + 1));
        assert forall|j: int| 0 <= j < i implies text.take(i)[j] != separator by {
            assert(text[j] != separator);
        }
    }
}

/// The texts of a list of strings are their characters, one text for each.
pub proof fn texts_are_those_of_the_strings(strings: Seq<String>)
    ensures
        texts(strings).len() == strings.len(),
        forall|i: int| 0 <= i < strings.len() ==> #[trigger] texts(strings)[i] == strings[i]@,
{
}

/// A part that is added to a list stands behind it, with a separator before it where it is not
/// the first.
pub proof fn joined_grows(parts: Seq<Seq<char>>, part: Seq<char>, separator: Seq<char>)
    ensures
        joined(Seq::<Seq<char>>::empty(), separator) == Seq::<char>::empty(),
        joined(parts.push(part), separator) == if parts.len() == 0 {
            part
        } else {
            joined(parts, separator) + separator + part
        },
{
    assert(parts.push(part).drop_last() =~= parts);
}

/// Calls `itertools::Itertools::join`: the parts in their order, each as it is displayed, with the
/// separator between two neighbours and nowhere else.
#[verifier::external_body]
pub(crate) fn join_texts(parts: &Vec<&'static str>, separator: &str) -> (text: String)
    ensures
        text@ == joined(parts@.map_values(|part: &'static str| part@), separator@),
{
    parts.iter().join(separator)
}

/// There is always a piece.
pub proof fn split_is_not_empty(text: Seq<char>, separator: char)
    ensures
        split_on(text, separator).len() > 0,
    decreases text.len(),
{
    if text.len() > 0 {
        split_is_not_empty(text.drop_last(), separator);
    }
}

/// No piece holds a separator, and the pieces joined by it are the text again.
pub proof fn split_loses_nothing(text: Seq<char>, separator: char)
    ensures
        joined(split_on(text, separator), seq![separator]) == text,
        forall|i: int|
            0 <= i < split_on(text, separator).len() ==> !(#[trigger] split_on(
                text,
                separator,
            )[i]).contains(separator),
    decreases text.len(),
{
    if text.len() > 0 {
        let rest = text.drop_last();
        let c = text.last();
        let pieces = split_on(rest, separator);
        split_is_not_empty(rest, separator);
        split_loses_nothing(rest, separator);
        let all = split_on(text, separator);
        if c == separator {
            assert(all.drop_last() =~= pieces);
            assert(text =~= rest + seq![separator] + Seq::<char>::empty());
        } else {
            let last = pieces.last();
            assert(all.drop_last() =~= pieces.drop_last());
            assert(all.last() == last.push(c));
            assert(!last.contains(separator));
            assert forall|i: int| 0 <= i < all.len() implies !(#[trigger] all[i]).contains(
                separator,
            ) by {
                if i < all.len() - 1 {
                    assert(all[i] == pieces[i]);
                } else {
                    assert(forall|j: int| 0 <= j < last.len() ==> last[j] != separator);
                }
            }
            assert(text =~= rest.push(c));
            if pieces.len() == 1 {
                assert(text =~= last.push(c));
            } else {
                let head = joined(pieces.drop_last(), seq![separator]);
                assert(rest == head + seq![separator] + last);
                assert(text =~= head + seq![separator] + last.push(c));
            }
        }
    } else {
        assert(split_on(text, separator)[0] =~= Seq::<char>::empty());
        assert(text =~= Seq::<char>::empty());
    }
}

/// A list of parts without separators, joined and split again, is that list; of an empty list one
/// empty piece is left.
pub proof fn split_of_joined(parts: Seq<Seq<char>>, separator: char)
    requires
        forall|i: int| 0 <= i < parts.len() ==> !(#[trigger] parts[i]).contains(separator),
    ensures
        split_on(joined(parts, seq![separator]), separator) == if parts.len() == 0 {
            seq![Seq::<char>::empty()]
        } else {
            parts
        },
    decreases parts.len(),
{
    if parts.len() == 0 {
    } else if parts.len() == 1 {
        lemma_split_append(Seq::empty(), parts[0], separator);
        assert(Seq::<char>::empty() + parts[0] =~= parts[0]);
        assert(seq![parts[0]] =~= parts);
        assert(split_on(Seq::<char>::empty(), separator) =~= seq![Seq::<char>::empty()]);
        assert(Seq::<Seq<char>>::empty().push(Seq::<char>::empty() + parts[0]) =~= parts);
        assert(split_on(Seq::<char>::empty(), separator).drop_last() =~= Seq::<
            Seq<char>,
        >::empty());
    } else {
        let front = parts.drop_last();
        split_of_joined(front, separator);
        let head = joined(front, seq![separator]);
        let with_separator = head.push(separator);
        assert(head + seq![separator] =~= with_separator);
        assert(with_separator.drop_last() =~= head);
        assert(split_on(with_separator, separator) == front.push(Seq::empty()));
        lemma_split_append(with_separator, parts.last(), separator);
        assert(front.push(Seq::<char>::empty()).drop_last() =~= front);
        assert(Seq::<char>::empty() + parts.last() =~= parts.last());
        assert(front.push(parts.last()) =~= parts);
    }
}

/// A tail without separators only prolongs the last piece.
proof fn lemma_split_append(text: Seq<char>, tail: Seq<char>, separator: char)
    requires
        !tail.contains(separator),
    ensures
        split_on(text + tail, separator) == split_on(text, separator).drop_last().push(
            split_on(text, separator).last() + tail,
        ),
    decreases tail.len(),
{
    let pieces = split_on(text, separator);
    split_is_not_empty(text, separator);
    if tail.len() == 0 {
        assert(text + tail =~= text);
        assert(pieces.last() + tail =~= pieces.last());
        assert(pieces.drop_last().push(pieces.last()) =~= pieces);
    } else {
        let front = tail.drop_last();
        assert(tail[tail.len() - 1] != separator);
        assert(forall|i: int| 0 <= i < front.len() ==> front[i] == tail[i]);
        lemma_split_append(text, front, separator);
        assert((text + tail).drop_last() =~= text + front);
        assert((text + tail).last() == tail.last());
        assert((pieces.last() + front).push(tail.last()) =~= pieces.last() + tail);
        assert(pieces.drop_last().push(pieces.last() + front).drop_last() =~= pieces.drop_last());
    }
}

} // verus!
