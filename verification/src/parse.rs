//! Parsing of integers from text.

use crate::arch::word::Word;
use crate::buffer::Buffer;
use crate::mul::mul_add_word_in_place;
use crate::ubig::UBig;
use vstd::prelude::*;
use vstd::string::is_ascii_spec_bytes;

verus! {

/// Why a string is not a number.
#[derive(Debug, Clone, Copy, PartialEq, Eq, Structural)]
pub enum ParseError {
    /// There are no digits in the string.
    NoDigits,
    /// A character is not a digit of the radix.
    InvalidDigit,
}

/// The number that a character stands for as a digit: `0` to `9` for the
/// digits, `10` to `35` for the ASCII letters of either case.
pub open spec fn digit_value(c: char) -> Option<nat> {
    if '0' <= c <= '9' {
        Some((c as nat - '0' as nat) as nat)
    } else if 'a' <= c <= 'z' {
        Some((c as nat - 'a' as nat + 10) as nat)
    } else if 'A' <= c <= 'Z' {
        Some((c as nat - 'A' as nat + 10) as nat)
    } else {
        None
    }
}

/// Whether `c` is a digit of `radix`.
pub open spec fn is_digit(c: char, radix: nat) -> bool {
    digit_value(c) matches Some(digit) && digit < radix
}

/// Whether every character is a digit of `radix`.
pub open spec fn is_digits(digits: Seq<char>, radix: nat) -> bool {
    forall|i: int| 0 <= i < digits.len() ==> is_digit(#[trigger] digits[i], radix)
}

/// The number written by `digits` in `radix`, most significant digit first.
pub open spec fn digits_value(digits: Seq<char>, radix: nat) -> nat
    decreases digits.len(),
{
    if digits.len() == 0 {
        0
    } else {
        digits_value(digits.drop_last(), radix) * radix + digit_value(digits.last()).unwrap()
    }
}

/// What a string of digits in `radix` parses to: at least one digit is
/// needed, and all must be digits of the radix.
pub open spec fn parse_digits(digits: Seq<char>, radix: nat) -> Result<nat, ParseError> {
    if digits.len() == 0 {
        Err(ParseError::NoDigits)
    } else if !is_digits(digits, radix) {
        Err(ParseError::InvalidDigit)
    } else {
        Ok(digits_value(digits, radix))
    }
}

/// `text` without a leading `+`.
pub open spec fn without_sign(text: Seq<char>) -> Seq<char> {
    if text.len() > 0 && text[0] == '+' {
        text.skip(1)
    } else {
        text
    }
}

/// Whether `text` begins with `0` and the letter `mark`.
pub open spec fn has_radix_prefix(text: Seq<char>, mark: char) -> bool {
    text.len() >= 2 && text[0] == '0' && text[1] == mark
}

/// What a string parses to that may begin with `+`, and then with `0b`, `0o`
/// or `0x` for a binary, octal or hexadecimal number; without such a prefix
/// the number is decimal.
pub open spec fn parse_with_radix_prefix(text: Seq<char>) -> Result<nat, ParseError> {
    let text = without_sign(text);
    if has_radix_prefix(text, 'b') {
        parse_digits(text.skip(2), 2)
    } else if has_radix_prefix(text, 'o') {
        parse_digits(text.skip(2), 8)
    } else if has_radix_prefix(text, 'x') {
        parse_digits(text.skip(2), 16)
    } else {
        parse_digits(text, 10)
    }
}

/// Whether `result` is the outcome `expected`: the same error, or a big
/// integer of the expected value.
pub open spec fn parsed_as(result: Result<UBig, ParseError>, expected: Result<nat, ParseError>) -> bool {
    match result {
        Ok(value) => expected == Ok::<nat, ParseError>(value@),
        Err(error) => expected == Err::<nat, ParseError>(error),
    }
}

/// Whether `bytes` are the ASCII characters `chars`, one byte each.
pub open spec fn is_ascii_text(bytes: Seq<u8>, chars: Seq<char>) -> bool {
    &&& bytes.len() == chars.len()
    &&& forall|i: int|
        0 <= i < chars.len() ==> (#[trigger] chars[i]) <= '\u{7f}' && bytes[i] == chars[i] as u8
}

/// A string with a character outside ASCII at `at` has a character that is
/// no digit, whatever its sign and prefix.
proof fn lemma_not_ascii_is_invalid(text: Seq<char>, at: int)
    requires
        0 <= at < text.len(),
        !('\0' <= text[at] <= '\u{7f}'),
    ensures
        parse_with_radix_prefix(text) == Err::<nat, ParseError>(ParseError::InvalidDigit),
        forall|radix: nat|
            parse_digits(without_sign(text), radix) == Err::<nat, ParseError>(
                ParseError::InvalidDigit,
            ),
{
    let signed: int = if text[0] == '+' {
        1
    } else {
        0
    };
    let unsigned = without_sign(text);
    assert(unsigned[at - signed] == text[at]);
    if has_radix_prefix(unsigned, 'b') || has_radix_prefix(unsigned, 'o') || has_radix_prefix(
        unsigned,
        'x',
    ) {
        assert(unsigned.skip(2)[at - signed - 2] == text[at]);
    }
    assert(!is_digit(text[at], 2) && !is_digit(text[at], 8) && !is_digit(text[at], 10) && !is_digit(
        text[at],
        16,
    ));
    assert forall|radix: nat|
        parse_digits(unsigned, radix) == Err::<nat, ParseError>(ParseError::InvalidDigit) by {
        assert(!is_digit(unsigned[at - signed], radix));
    }
}

/// The number that `byte` stands for as a digit, if it is an ASCII digit or
/// letter.
fn digit_from_byte(byte: u8, Ghost(c): Ghost<char>) -> (digit: Option<u8>)
    requires
        c <= '\u{7f}',
        c as u8 == byte,
    ensures
        digit_value(c) == match digit {
            Some(d) => Some(d as nat),
            None => None::<nat>,
        },
{
    if 0x30 <= byte && byte <= 0x39 {
        Some(byte - 0x30)
    } else if 0x61 <= byte && byte <= 0x7a {
        Some(byte - 0x61 + 10)
    } else if 0x41 <= byte && byte <= 0x5a {
        Some(byte - 0x41 + 10)
    } else {
        None
    }
}

/// Parses the digits `text[from..]` in `radix`, where `text` holds the ASCII
/// characters `chars`.
fn parse_bytes(text: &[u8], Ghost(chars): Ghost<Seq<char>>, from: usize, radix: u8) -> (result:
    Result<UBig, ParseError>)
    requires
        is_ascii_text(text@, chars),
        from <= text@.len(),
        2 <= radix <= 36,
    ensures
        parsed_as(result, parse_digits(chars.skip(from as int), radix as nat)),
{
    let ghost digits = chars.skip(from as int);
    if from == text.len() {
        return Err(ParseError::NoDigits);
    }
    let mut buffer = Buffer::allocate(0);
    let mut i = from;
    assert(digits.take(0) =~= Seq::<char>::empty());
    while i < text.len()
        invariant
            from <= i <= text@.len(),
            is_ascii_text(text@, chars),
            digits == chars.skip(from as int),
            2 <= radix <= 36,
            is_digits(digits.take(i - from), radix as nat),
            buffer.value() == digits_value(digits.take(i - from), radix as nat),
        decreases text@.len() - i,
    {
        assert(digits[i - from] == chars[i as int]);
        let digit = match digit_from_byte(text[i], Ghost(chars[i as int])) {
            Some(digit) if digit < radix => digit,
            _ => {
                assert(!is_digit(digits[i - from], radix as nat));
                return Err(ParseError::InvalidDigit);
            },
        };
        mul_add_word_in_place(&mut buffer, radix as Word, digit as Word);
        i += 1;
        proof {
            let read = digits.take(i - from);
            assert(read.drop_last() =~= digits.take(i - from - 1));
            assert(read.last() == chars[i - 1]);
        }
    }
    assert(digits.take(i - from) =~= digits);
    Ok(UBig::from(buffer))
}

impl UBig {
    /// Parses a number written in `radix`, with an optional `+` before it.
    /// Letters of either case are the digits from ten on.
    pub fn from_str_radix(src: &str, radix: u32) -> (result: Result<UBig, ParseError>)
        requires
            2 <= radix <= 36,
        ensures
            parsed_as(result, parse_digits(without_sign(src@), radix as nat)),
    {
        if !src.is_ascii() {
            proof {
                let at = choose|i: int|
                    0 <= i < src@.len() && !('\0' <= #[trigger] src@[i] <= '\u{7f}');
                lemma_not_ascii_is_invalid(src@, at);
            }
            return Err(ParseError::InvalidDigit);
        }
        let text = src.as_bytes();
        proof {
            is_ascii_spec_bytes(src);
        }
        let from: usize = if text.len() > 0 && text[0] == 0x2b {
            1
        } else {
            0
        };
        assert(src@.skip(0) =~= src@);
        parse_bytes(text, Ghost(src@), from, radix as u8)
    }

    /// Parses a number that may begin with `+`, and then with `0b`, `0o` or
    /// `0x` for a binary, octal or hexadecimal number. Without such a prefix
    /// the number is decimal.
    pub fn from_str_with_radix_prefix(src: &str) -> (result: Result<UBig, ParseError>)
        ensures
            parsed_as(result, parse_with_radix_prefix(src@)),
    {
        if !src.is_ascii() {
            proof {
                let at = choose|i: int|
                    0 <= i < src@.len() && !('\0' <= #[trigger] src@[i] <= '\u{7f}');
                lemma_not_ascii_is_invalid(src@, at);
            }
            return Err(ParseError::InvalidDigit);
        }
        let text = src.as_bytes();
        proof {
            is_ascii_spec_bytes(src);
        }
        let from: usize = if text.len() > 0 && text[0] == 0x2b {
            1
        } else {
            0
        };
        let ghost unsigned = without_sign(src@);
        assert(src@.skip(0) =~= src@);
        if text.len() - from >= 2 && text[from] == 0x30 {
            assert(unsigned[0] == src@[from as int] && unsigned[1] == src@[from + 1]);
            assert(unsigned.skip(2) =~= src@.skip(from + 2));
            let mark = text[from + 1];
            if mark == 0x62 {
                return parse_bytes(text, Ghost(src@), from + 2, 2);
            } else if mark == 0x6f {
                return parse_bytes(text, Ghost(src@), from + 2, 8);
            } else if mark == 0x78 {
                return parse_bytes(text, Ghost(src@), from + 2, 16);
            }
        }
        parse_bytes(text, Ghost(src@), from, 10)
    }
}

} // verus!
