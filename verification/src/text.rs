//! Text in and out: the few operations on strings that the library takes
//! from the standard library and from `itertools`.
//!
//! Nothing in this module is proved. Each function states what the
//! documentation of the function that it calls says.
use vstd::prelude::*;

verus! {

/// `core::num::ParseIntError`, the error of reading a number. It is
/// carried through, and asked for its message.
#[verifier::external_type_specification]
#[verifier::external_body]
pub struct ExParseIntError(core::num::ParseIntError);

/// A text without the white space at its two ends.
pub uninterp spec fn trimmed(text: Seq<char>) -> Seq<char>;

/// The integer that a text denotes in decimal notation, if it denotes one
/// that a 32-bit machine integer holds.
pub uninterp spec fn parsed_small(text: Seq<char>) -> Option<int>;

/// The character of the decimal digit `d`.
pub open spec fn digit_char(d: int) -> char {
    ((48 + d) as u8) as char
}

/// The decimal notation of a natural number: its digits, the highest
/// first, without a zero before them.
pub open spec fn decimal_text(n: int) -> Seq<char>
    decreases n,
{
    if n < 10 {
        seq![digit_char(n)]
    } else {
        decimal_text(n / 10).push(digit_char(n % 10))
    }
}

/// The first `upto` of `parts`, with `sep` between each two of them.
pub open spec fn joined(parts: Seq<Seq<char>>, sep: Seq<char>, upto: int) -> Seq<char>
    decreases upto,
{
    if upto <= 0 {
        Seq::empty()
    } else if upto == 1 {
        parts[0]
    } else {
        joined(parts, sep, upto - 1) + sep + parts[upto - 1]
    }
}

/// The texts of a list of strings.
pub open spec fn texts(parts: Seq<String>) -> Seq<Seq<char>> {
    Seq::new(parts.len(), |i: int| parts[i]@)
}

/// `str::trim`: the text without leading and trailing white space.
#[verifier::external_body]
pub(crate) fn str_trim(s: &str) -> (r: &str)
    ensures
        r@ == trimmed(s@),
{
    s.trim()
}

/// `str::strip_suffix` with the pattern `'+'`: the text before a final
/// `+`, or `None` when the text does not end in one.
#[verifier::external_body]
pub(crate) fn strip_plus(s: &str) -> (r: Option<&str>)
    ensures
        match r {
            Some(rest) => s@ == rest@.push('+'),
            None => s@.len() == 0 || s@.last() != '+',
        },
{
    s.strip_suffix('+')
}

/// `str::parse` to a 32-bit integer: the integer that the text denotes, or
/// an error when it denotes none.
#[verifier::external_body]
pub(crate) fn parse_small(s: &str) -> (r: Result<i32, core::num::ParseIntError>)
    ensures
        match r {
            Ok(n) => parsed_small(s@) == Some(n as int),
            Err(_) => parsed_small(s@) is None,
        },
{
    s.parse::<i32>()
}

/// `ToString::to_string` of a parse error: its message.
#[verifier::external_body]
pub(crate) fn parse_error_text(e: &core::num::ParseIntError) -> String {
    e.to_string()
}

/// `ToString::to_string` of a `usize`: its decimal notation.
#[verifier::external_body]
pub(crate) fn decimal(n: usize) -> (r: String)
    ensures
        r@ == decimal_text(n as int),
{
    n.to_string()
}

/// `String::push`: the text with one character more at its end.
#[verifier::external_body]
pub(crate) fn push_char(s: &mut String, c: char)
    ensures
        final(s)@ == old(s)@.push(c),
{
    s.push(c)
}

/// `Itertools::join`: the strings in their order, with `sep` between each
/// two of them.
#[verifier::external_body]
pub(crate) fn join_strings(parts: &Vec<String>, sep: &str) -> (r: String)
    ensures
        r@ == joined(texts(parts@), sep@, parts@.len() as int),
{
    itertools::Itertools::join(&mut parts.iter(), sep)
}

/// The natural number that a text denotes in decimal notation, if it
/// denotes one that a machine index holds.
pub uninterp spec fn parsed_index(text: Seq<char>) -> Option<int>;

/// Whether `part` stands somewhere in `text`.
pub open spec fn is_part_of(part: Seq<char>, text: Seq<char>) -> bool {
    exists|i: int|
        0 <= i <= text.len() - part.len() && #[trigger] text.subrange(i, i + part.len()) == part
}

/// `str::split_once` with the pattern `":"`: the text before the first
/// colon and the text behind it, or `None` when there is no colon.
#[verifier::external_body]
pub(crate) fn split_once_colon(s: &str) -> (r: Option<(&str, &str)>)
    ensures
        match r {
            Some(parts) => s@ == parts.0@ + seq![':'] + parts.1@ && !parts.0@.contains(':'),
            None => !s@.contains(':'),
        },
{
    s.split_once(":")
}

/// `str::parse` to a machine index: the number that the text denotes, or
/// an error when it denotes none.
#[verifier::external_body]
pub(crate) fn parse_index(s: &str) -> (r: Result<usize, core::num::ParseIntError>)
    ensures
        match r {
            Ok(n) => parsed_index(s@) == Some(n as int),
            Err(_) => parsed_index(s@) is None,
        },
{
    s.parse::<usize>()
}

/// `str::contains` with a string as the pattern: whether the pattern
/// stands somewhere in the text.
#[verifier::external_body]
pub(crate) fn text_contains(s: &str, part: &str) -> (r: bool)
    ensures
        r == is_part_of(part@, s@),
{
    s.contains(part)
}

/// `==` between two string slices: whether they hold the same text.
#[verifier::external_body]
pub(crate) fn same_text(a: &str, b: &str) -> (r: bool)
    ensures
        r == (a@ == b@),
{
    a == b
}

/// The decimal notation of an integer: that of its magnitude, behind a
/// minus sign if it is negative.
pub open spec fn signed_text(n: int) -> Seq<char> {
    if n < 0 {
        "-"@ + decimal_text(-n)
    } else {
        decimal_text(n)
    }
}

/// `ToString::to_string` of an `i64`: its decimal notation, with a minus
/// sign before a negative number.
#[verifier::external_body]
pub(crate) fn signed_decimal(n: i64) -> (r: String)
    ensures
        r@ == signed_text(n as int),
{
    n.to_string()
}

} // verus!
