//! Character and string helpers shared by the matching logic.

use vstd::prelude::*;

verus! {

/// Unicode `Alphabetic` property of a character, as `char::is_alphabetic` reports it.
pub uninterp spec fn is_alphabetic(c: char) -> bool;

/// Unicode `Uppercase` property of a character, as `char::is_uppercase` reports it.
pub uninterp spec fn is_uppercase(c: char) -> bool;

/// Unicode `White_Space` property of a character, which `char::is_whitespace` reports:
/// the 25 code points U+0009 to U+000D, U+0020, U+0085, U+00A0, U+1680, U+2000 to U+200A,
/// U+2028, U+2029, U+202F, U+205F and U+3000.
pub open spec fn is_whitespace(c: char) -> bool {
    ||| '\u{9}' <= c && c <= '\u{d}'
    ||| c == ' ' || c == '\u{85}' || c == '\u{a0}' || c == '\u{1680}'
    ||| '\u{2000}' <= c && c <= '\u{200a}'
    ||| c == '\u{2028}' || c == '\u{2029}' || c == '\u{202f}' || c == '\u{205f}' || c == '\u{3000}'
}

/// The characters that `char::to_lowercase` yields for a character.
pub uninterp spec fn lowercase(c: char) -> Seq<char>;

/// Calls `char::is_alphabetic`; the result is named `is_alphabetic`.
#[verifier::external_body]
pub fn char_is_alphabetic(c: char) -> (b: bool)
    ensures
        b == is_alphabetic(c),
{
    c.is_alphabetic()
}

/// Calls `char::is_uppercase`; the result is named `is_uppercase`.
#[verifier::external_body]
pub fn char_is_uppercase(c: char) -> (b: bool)
    ensures
        b == is_uppercase(c),
{
    c.is_uppercase()
}

/// Whether a character is white space (see `is_whitespace`), as `char::is_whitespace`.
pub fn char_is_whitespace(c: char) -> (b: bool)
    ensures
        b == is_whitespace(c),
{
    ('\u{9}' <= c && c <= '\u{d}') || c == ' ' || c == '\u{85}' || c == '\u{a0}' || c == '\u{1680}'
        || ('\u{2000}' <= c && c <= '\u{200a}') || c == '\u{2028}' || c == '\u{2029}' || c == '\u{202f}'
        || c == '\u{205f}' || c == '\u{3000}'
}

/// Calls `char::to_lowercase` and collects what it yields; the result is named `lowercase`.
#[verifier::external_body]
pub fn char_lowercase(c: char) -> (v: Vec<char>)
    ensures
        v@ == lowercase(c),
{
    c.to_lowercase().collect()
}

/// Whether `c` is a decimal digit, which is what `char::is_digit(10)` reports.
pub open spec fn is_decimal_digit(c: char) -> bool {
    '0' <= c && c <= '9'
}

/// `char::is_digit(10)`: the ASCII digits `0` to `9`.
pub fn char_is_decimal_digit(c: char) -> (b: bool)
    ensures
        b == is_decimal_digit(c),
{
    '0' <= c && c <= '9'
}

/// The characters of a string slice, in order.
pub fn chars_of(s: &str) -> (v: Vec<char>)
    ensures
        v@ == s@,
{
    let mut v: Vec<char> = Vec::new();
    for c in it: s.chars()
        invariant
            v@ == it.seq().take(it.index() as int),
    {
        v.push(c);
    }
    v
}

/// Builds a `String` from characters with `String::from_iter`.
#[verifier::external_body]
pub fn string_from_chars(v: Vec<char>) -> (s: String)
    ensures
        s@ == v@,
{
    String::from_iter(v)
}

/// String slice equality: the same characters in the same order.
pub fn str_eq(a: &str, b: &str) -> (r: bool)
    ensures
        r == (a@ == b@),
{
    let x = chars_of(a);
    let y = chars_of(b);
    if x.len() != y.len() {
        return false;
    }
    let mut i: usize = 0;
    while i < x.len()
        invariant
            x@ == a@,
            y@ == b@,
            x@.len() == y@.len(),
            i <= x@.len(),
            forall|k: int| 0 <= k < i ==> x@[k] == y@[k],
        decreases x@.len() - i,
    {
        if x[i] != y[i] {
            assert(a@[i as int] != b@[i as int]);
            return false;
        }
        i = i + 1;
    }
    assert(a@ =~= b@);
    true
}

} // verus!

verus! {

/// The characters of `str::to_lowercase` of a string.
pub uninterp spec fn str_lowercase(s: Seq<char>) -> Seq<char>;

/// Calls `str::to_lowercase`; the result is named `str_lowercase`.
#[verifier::external_body]
pub fn str_to_lowercase(s: &str) -> (r: String)
    ensures
        r@ == str_lowercase(s@),
{
    s.to_lowercase()
}

} // verus!
