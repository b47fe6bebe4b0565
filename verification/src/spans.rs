//! How many columns and rows a cell spans.

use vstd::prelude::*;

verus! {

/// The value of a decimal digit.
pub open spec fn digit(c: char) -> int {
    c as int - '0' as int
}

/// Whether a text holds decimal digits only.
pub open spec fn all_digits(text: Seq<char>) -> bool {
    forall|i: int| 0 <= i < text.len() ==> '0' as int <= #[trigger] text[i] as int <= '9' as int
}

/// The number that decimal digits spell.
pub open spec fn digits_value(text: Seq<char>) -> int
    decreases text.len(),
{
    if text.len() == 0 {
        0
    } else {
        10 * digits_value(text.drop_last()) + digit(text.last())
    }
}

/// The number that a text spells in decimal, with a plus sign in front or without,
/// where it fits 16 bits.
pub open spec fn parsed(text: Seq<char>) -> Option<u16> {
    let digits = if text.len() > 0 && text[0] == '+' {
        text.skip(1)
    } else {
        text
    };
    if digits.len() > 0 && all_digits(digits) && digits_value(digits) <= u16::MAX {
        Some(digits_value(digits) as u16)
    } else {
        None
    }
}

/// `str::parse` at `u16`. It accepts an optional plus sign followed by one or more
/// decimal digits, and nothing else, where the number fits 16 bits.
#[verifier::external_body]
fn parse(text: &str) -> (r: Option<u16>)
    ensures
        r == parsed(text@),
{
    text.parse::<u16>().ok()
}

/// The number of columns that a cell with the given `colspan` attribute spans: one
/// where the attribute is missing or is no number, and at least one in any case.
pub open spec fn colspan(attribute: Option<Seq<char>>) -> u16 {
    match attribute {
        Some(text) => match parsed(text) {
            Some(n) => if n < 1 {
                1
            } else {
                n
            },
            None => 1,
        },
        None => 1,
    }
}

/// The number of rows that a cell with the given `rowspan` attribute spans: one
/// where the attribute is missing or is no number, and at least one and at most
/// 65534 in any case.
pub open spec fn rowspan(attribute: Option<Seq<char>>) -> u16 {
    match attribute {
        Some(text) => match parsed(text) {
            Some(n) => if n < 1 {
                1
            } else if n > 65534 {
                65534
            } else {
                n
            },
            None => 1,
        },
        None => 1,
    }
}

/// What an optional text spells.
pub open spec fn text_of(attribute: Option<String>) -> Option<Seq<char>> {
    match attribute {
        Some(text) => Some(text@),
        None => None,
    }
}

/// Reads a `colspan` attribute.
pub fn colspan_of(attribute: &Option<String>) -> (n: u16)
    ensures
        n == colspan(text_of(*attribute)),
{
    match attribute {
        Some(text) => match parse(text.as_str()) {
            Some(n) => if n < 1 {
                1
            } else {
                n
            },
            None => 1,
        },
        None => 1,
    }
}

/// Reads a `rowspan` attribute.
pub fn rowspan_of(attribute: &Option<String>) -> (n: u16)
    ensures
        n == rowspan(text_of(*attribute)),
{
    match attribute {
        Some(text) => match parse(text.as_str()) {
            Some(n) => if n < 1 {
                1
            } else if n > 65534 {
                65534
            } else {
                n
            },
            None => 1,
        },
        None => 1,
    }
}

}
