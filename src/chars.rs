//! Classes of characters that the lexer consumes in runs.
use vstd::prelude::*;

verus! {

/// Whether the character has Unicode's `Alphabetic` property, as `char::is_alphabetic` decides.
pub uninterp spec fn alphabetic(c: char) -> bool;

/// Whether the character is alphabetic or numeric, as `char::is_alphanumeric` decides.
pub uninterp spec fn alphanumeric(c: char) -> bool;

/// Relies on `char::is_alphabetic`: the answer depends on the character alone.
#[verifier::external_body]
pub(crate) fn is_alphabetic(c: char) -> (r: bool)
    ensures
        r == alphabetic(c),
{
    c.is_alphabetic()
}

/// Relies on `char::is_alphanumeric`: the answer depends on the character alone.
#[verifier::external_body]
pub(crate) fn is_alphanumeric(c: char) -> (r: bool)
    ensures
        r == alphanumeric(c),
{
    c.is_alphanumeric()
}

/// An ASCII decimal digit, `0` to `9`.
pub open spec fn ascii_digit(c: char) -> bool {
    '0' <= c && c <= '9'
}

/// ASCII whitespace: space, tab, line feed, form feed and carriage return.
pub open spec fn ascii_whitespace(c: char) -> bool {
    c == ' ' || c == '\t' || c == '\n' || c == '\x0C' || c == '\r'
}

/// Whether `c` is an ASCII decimal digit.
pub fn is_ascii_digit(c: char) -> (r: bool)
    ensures
        r == ascii_digit(c),
{
    '0' <= c && c <= '9'
}

/// Whether `c` is ASCII whitespace.
pub fn is_ascii_whitespace(c: char) -> (r: bool)
    ensures
        r == ascii_whitespace(c),
{
    c == ' ' || c == '\t' || c == '\n' || c == '\x0C' || c == '\r'
}

/// The classes of characters that a token may be made of after its first character.
#[derive(Clone, Copy, Debug, PartialEq, Eq, Structural)]
pub enum CharClass {
    /// Alphabetic characters: the rest of a keyword.
    Alphabetic,
    /// Alphanumeric characters and `_`: the rest of an identifier.
    Word,
    /// Alphabetic characters and `_`: the rest of `FREE_STORAGE_POINTER`.
    Name,
    /// ASCII digits: the rest of a number.
    Digit,
    /// ASCII whitespace: the rest of a whitespace run.
    Space,
    /// Anything but a line feed: the rest of a line comment.
    NotNewline,
}

/// Whether `c` belongs to the class `k`.
pub open spec fn in_class(k: CharClass, c: char) -> bool {
    match k {
        CharClass::Alphabetic => alphabetic(c),
        CharClass::Word => alphanumeric(c) || c == '_',
        CharClass::Name => alphabetic(c) || c == '_',
        CharClass::Digit => ascii_digit(c),
        CharClass::Space => ascii_whitespace(c),
        CharClass::NotNewline => c != '\n',
    }
}

/// Whether `c` belongs to the class `k`.
pub fn char_in_class(k: CharClass, c: char) -> (r: bool)
    ensures
        r == in_class(k, c),
{
    match k {
        CharClass::Alphabetic => is_alphabetic(c),
        CharClass::Word => is_alphanumeric(c) || c == '_',
        CharClass::Name => is_alphabetic(c) || c == '_',
        CharClass::Digit => is_ascii_digit(c),
        CharClass::Space => is_ascii_whitespace(c),
        CharClass::NotNewline => c != '\n',
    }
}

/// The value of a run of decimal digits, most significant first.
pub open spec fn digits_value(d: Seq<char>) -> nat
    decreases d.len(),
{
    if d.len() == 0 {
        0
    } else {
        digits_value(d.drop_last()) * 10 + ((d.last() as int - '0' as int) as nat)
    }
}

/// Reading one more digit multiplies the value by ten and adds the digit.
pub proof fn lemma_digits_value_step(d: Seq<char>, i: int)
    requires
        0 <= i < d.len(),
    ensures
        digits_value(d.subrange(0, i + 1)) == digits_value(d.subrange(0, i)) * 10 + ((d[i] as int
            - '0' as int) as nat),
{
    assert(d.subrange(0, i + 1).drop_last() =~= d.subrange(0, i));
}

/// The value of a run of digits is at least the value of any of its prefixes.
pub proof fn lemma_digits_value_prefix(d: Seq<char>, i: int, j: int)
    requires
        0 <= i <= j <= d.len(),
    ensures
        digits_value(d.subrange(0, i)) <= digits_value(d.subrange(0, j)),
    decreases j - i,
{
    if i < j {
        lemma_digits_value_prefix(d, i, j - 1);
        lemma_digits_value_step(d, j - 1);
    }
}

} // verus!
