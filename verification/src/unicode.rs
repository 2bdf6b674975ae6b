use vstd::prelude::*;

verus! {

/// Whether `c` has the Unicode `White_Space` property, as `char::is_whitespace` reports it.
pub uninterp spec fn unicode_white_space(c: char) -> bool;

/// `char::is_whitespace`: true exactly for characters with the Unicode
/// `White_Space` property. The property itself is left as a name, except
/// that the space character has it (U+0020 is `White_Space`, and std's own
/// example asserts `' '.is_whitespace()`).
#[verifier::external_body]
pub fn is_whitespace(c: char) -> (r: bool)
    ensures
        r == unicode_white_space(c),
        c == ' ' ==> r,
{
    c.is_whitespace()
}

/// Whether `c` is alphabetic or numeric, as `char::is_alphanumeric` reports it.
pub uninterp spec fn unicode_alphanumeric(c: char) -> bool;

/// `char::is_alphanumeric`: true for characters with the Unicode `Alphabetic`
/// property or in a numeric general category (a name; the tables are not
/// restated).
#[verifier::external_body]
pub fn is_alphanumeric(c: char) -> (r: bool)
    ensures
        r == unicode_alphanumeric(c),
{
    c.is_alphanumeric()
}

/// Whether `c` has the Unicode `Alphabetic` property, as `char::is_alphabetic`
/// reports it.
pub uninterp spec fn unicode_alphabetic(c: char) -> bool;

/// `char::is_alphabetic`: true for characters with the Unicode `Alphabetic`
/// property (a name; the tables are not restated).
#[verifier::external_body]
pub fn is_alphabetic(c: char) -> (r: bool)
    ensures
        r == unicode_alphabetic(c),
{
    c.is_alphabetic()
}

/// Whether `c` has the Unicode `Uppercase` property, as `char::is_uppercase`
/// reports it.
pub uninterp spec fn unicode_is_uppercase(c: char) -> bool;

/// `char::is_uppercase`: true for characters with the Unicode `Uppercase`
/// property (a name; the tables are not restated).
#[verifier::external_body]
pub fn is_uppercase(c: char) -> (r: bool)
    ensures
        r == unicode_is_uppercase(c),
{
    c.is_uppercase()
}

/// The Unicode uppercase mapping of `s`, as `str::to_uppercase` computes it.
pub uninterp spec fn unicode_uppercase(s: Seq<char>) -> Seq<char>;

/// `str::to_uppercase`: the uppercase equivalent of `s` under the Unicode
/// `Uppercase` mapping (a name; the mapping tables are not restated).
#[verifier::external_body]
pub fn to_uppercase(s: &str) -> (r: String)
    ensures
        r@ == unicode_uppercase(s@),
{
    s.to_uppercase()
}

/// The uppercase mapping of the single character `c`, as `char::to_uppercase`
/// yields it.
pub uninterp spec fn unicode_char_uppercase(c: char) -> Seq<char>;

/// `char::to_uppercase`, its characters collected: the uppercase mapping of
/// `c`, which the documentation promises is one or more characters.
#[verifier::external_body]
pub fn char_to_uppercase(c: char) -> (r: Vec<char>)
    ensures
        r@ == unicode_char_uppercase(c),
        r@.len() >= 1,
{
    c.to_uppercase().collect()
}

/// The lowercase mapping of the single character `c`, as `char::to_lowercase`
/// yields it.
pub uninterp spec fn unicode_char_lowercase(c: char) -> Seq<char>;

/// `char::to_lowercase`, its characters collected: the lowercase mapping of
/// `c`, which the documentation promises is one or more characters.
#[verifier::external_body]
pub fn char_to_lowercase(c: char) -> (r: Vec<char>)
    ensures
        r@ == unicode_char_lowercase(c),
        r@.len() >= 1,
{
    c.to_lowercase().collect()
}

/// The Unicode lowercase mapping of `s`, as `str::to_lowercase` computes it.
pub uninterp spec fn unicode_lowercase(s: Seq<char>) -> Seq<char>;

/// `str::to_lowercase`: the lowercase equivalent of `s` under the Unicode
/// `Lowercase` mapping (a name; the mapping tables are not restated).
#[verifier::external_body]
pub fn to_lowercase(s: &str) -> (r: String)
    ensures
        r@ == unicode_lowercase(s@),
{
    s.to_lowercase()
}

/// The lowercase mapping of the characters `s`.
pub fn lowercase_chars(s: &[char]) -> (r: Vec<char>)
    ensures
        r@ == unicode_lowercase(s@),
{
    let t = crate::text::string_from(s);
    let l = to_lowercase(t.as_str());
    to_chars(l.as_str())
}

/// `String::push`: appends one character.
#[verifier::external_body]
pub fn push_char(s: &mut String, c: char)
    ensures
        final(s)@ == old(s)@.push(c),
{
    s.push(c)
}

/// The characters of `s`, in order.
pub fn to_chars(s: &str) -> (r: Vec<char>)
    ensures
        r@ == s@,
{
    let mut r: Vec<char> = Vec::new();
    for c in it: s.chars()
        invariant
            r@ == it.seq().take(it.index() as int),
    {
        r.push(c);
    }
    r
}

} // verus!
