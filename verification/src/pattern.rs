//! Regular expressions, through the `regex` crate.
use vstd::prelude::*;

use crate::unicode::{unicode_alphabetic, unicode_white_space};

verus! {

#[verifier::external_type_specification]
#[verifier::external_body]
pub struct ExRegex(regex::Regex);

#[verifier::external_type_specification]
#[verifier::external_body]
pub struct ExRegexError(regex::Error);

/// Whether `regex::Regex::new` accepts `pattern` (it is well formed and within
/// the default size limit).
pub uninterp spec fn regex_accepts(pattern: Seq<char>) -> bool;

/// The byte spans `(start, end)` that `regex::Regex::find_iter` yields for the
/// regex compiled from `pattern`, searching `haystack`.
pub uninterp spec fn regex_match_spans(pattern: Seq<char>, haystack: Seq<char>) -> Seq<(usize, usize)>;

/// What `regex::Regex::replace_all` returns for the regex compiled from
/// `pattern`, searching `haystack` and substituting `replacement` literally
/// (wrapped in `regex::NoExpand`, so `$` is not a group reference).
pub uninterp spec fn regex_replace_all_literal(
    pattern: Seq<char>,
    haystack: Seq<char>,
    replacement: Seq<char>,
) -> Seq<char>;

/// The pattern `\s{2,}`: two or more whitespace characters in a row.
pub open spec fn multi_space_pattern() -> Seq<char> {
    "\\s{2,}"@
}

/// How many whitespace characters `s` starts with.
pub open spec fn leading_white_space(s: Seq<char>) -> nat
    decreases s.len(),
{
    if s.len() > 0 && unicode_white_space(s[0]) {
        1 + leading_white_space(s.drop_first())
    } else {
        0
    }
}

/// The run of whitespace at the start of `s` is all whitespace, no longer
/// than `s`, and ends before a character that is not whitespace.
pub proof fn lemma_leading_white_space(s: Seq<char>)
    ensures
        leading_white_space(s) <= s.len(),
        forall|k: int| 0 <= k < leading_white_space(s) ==> unicode_white_space(#[trigger] s[k]),
        leading_white_space(s) < s.len() ==> !unicode_white_space(s[leading_white_space(s) as int]),
    decreases s.len(),
{
    if s.len() > 0 && unicode_white_space(s[0]) {
        lemma_leading_white_space(s.drop_first());
        assert forall|k: int| 0 <= k < leading_white_space(s) implies unicode_white_space(
            #[trigger] s[k],
        ) by {
            if k > 0 {
                assert(s[k] == s.drop_first()[k - 1]);
            }
        }
    }
}

/// `s` with every run of two or more whitespace characters (as long as it
/// goes) replaced by `rep`; single whitespace characters are kept.
pub open spec fn white_space_runs_replaced(s: Seq<char>, rep: Seq<char>) -> Seq<char>
    decreases s.len(),
{
    if s.len() == 0 {
        seq![]
    } else {
        let n = leading_white_space(s);
        proof {
            lemma_leading_white_space(s);
        }
        if n >= 2 {
            rep + white_space_runs_replaced(s.skip(n as int), rep)
        } else {
            seq![s[0]] + white_space_runs_replaced(s.drop_first(), rep)
        }
    }
}

/// Character spans that lie within `s`, each in order and none overlapping
/// the next.
pub open spec fn ordered_spans(s: Seq<char>, cs: Seq<(int, int)>) -> bool {
    &&& forall|k: int| 0 <= k < cs.len() ==> 0 <= #[trigger] cs[k].0 <= cs[k].1 <= s.len()
    &&& forall|k: int| 0 <= k < cs.len() - 1 ==> #[trigger] cs[k].1 <= cs[k + 1].0
}

/// `s` from position `i` on, with the spans `cs` from the `k`-th on each
/// replaced by `rep`.
pub open spec fn splice_from(s: Seq<char>, cs: Seq<(int, int)>, rep: Seq<char>, i: int, k: int) -> Seq<
    char,
>
    decreases cs.len() - k,
{
    if k < 0 || k >= cs.len() {
        s.subrange(i, s.len() as int)
    } else {
        s.subrange(i, cs[k].0) + rep + splice_from(s, cs, rep, cs[k].1, k + 1)
    }
}

/// `s` with each of the spans `cs` replaced by `rep`.
pub open spec fn spliced(s: Seq<char>, cs: Seq<(int, int)>, rep: Seq<char>) -> Seq<char> {
    splice_from(s, cs, rep, 0, 0)
}

/// No span of `cs` starts between two letters of `s` (inside a word), and
/// none ends between two letters unless its last character is a comma or a
/// period.
pub open spec fn spans_off_words(s: Seq<char>, cs: Seq<(int, int)>) -> bool {
    &&& forall|k: int|
        0 <= k < cs.len() && 0 < #[trigger] cs[k].0 < s.len() ==> !(unicode_alphabetic(
            s[cs[k].0 - 1],
        ) && unicode_alphabetic(s[cs[k].0]))
    &&& forall|k: int|
        0 <= k < cs.len() && 0 < #[trigger] cs[k].1 < s.len() ==> !(unicode_alphabetic(
            s[cs[k].1 - 1],
        ) && unicode_alphabetic(s[cs[k].1])) || s[cs[k].1 - 1] == ',' || s[cs[k].1 - 1] == '.'
}

/// The pattern is `(?i)\b`, then an escaped literal word, then `\b` and
/// possibly an optional comma or period: every match starts at a word
/// boundary.
pub open spec fn anchored_at_word_start(p: Seq<char>) -> bool {
    exists|w: Seq<char>|
        p == "(?i)\\b"@ + #[trigger] regex_escaped(w) + "\\b"@ || p == "(?i)\\b"@
            + regex_escaped(w) + "\\b[,.]?"@
}

/// `r` is `s` with some in-order, non-overlapping stretches replaced by
/// `rep`, none of which starts between two letters, nor ends between two
/// letters except right after a comma or period.
pub open spec fn replaced_off_words(s: Seq<char>, r: Seq<char>, rep: Seq<char>) -> bool {
    exists|cs: Seq<(int, int)>|
        ordered_spans(s, cs) && spans_off_words(s, cs) && r == #[trigger] spliced(s, cs, rep)
}

/// A text with nothing replaced is, trivially, replaced off words.
pub proof fn lemma_unchanged_off_words(s: Seq<char>, rep: Seq<char>)
    ensures
        replaced_off_words(s, s, rep),
{
    let cs = Seq::<(int, int)>::empty();
    assert(s.subrange(0, s.len() as int) =~= s);
    assert(spliced(s, cs, rep) == s);
}

/// A compiled regular expression together with the pattern it was compiled
/// from. Values are only made by `compile`, so `regex` always stems from
/// `source`; the view is that pattern, which determines what the compiled
/// regex matches (the compiled form itself is opaque).
pub struct CompiledPattern {
    source: String,
    regex: regex::Regex,
}

impl View for CompiledPattern {
    type V = Seq<char>;

    closed spec fn view(&self) -> Seq<char> {
        self.source@
    }
}

/// `regex::Regex::new`: compiles `pattern`. Succeeds exactly when the pattern
/// is accepted (a name: the regex syntax and size limit are not restated),
/// which the library's two fixed patterns, well formed and small, are: `\s{2,}`
/// and the clause boundary pattern; the compiled value remembers its pattern.
#[verifier::external_body]
pub fn compile(pattern: &str) -> (r: Result<CompiledPattern, regex::Error>)
    ensures
        r is Ok <==> regex_accepts(pattern@),
        pattern@ == multi_space_pattern() ==> r is Ok,
        pattern@ == crate::corrections::clause_boundary_pattern() ==> r is Ok,
        r matches Ok(p) ==> p@ == pattern@,
{
    match regex::Regex::new(pattern) {
        Ok(regex) => Ok(CompiledPattern { source: pattern.to_string(), regex }),
        Err(e) => Err(e),
    }
}

/// `regex::Regex::find_iter`, each match taken as its byte span. Besides the
/// name, states what the crate documents of every match: `start <= end`, both
/// offsets lie on character boundaries of the haystack, and successive
/// matches do not overlap. For the clause boundary pattern the spans are
/// stated: `\s` is `\p{White_Space}`, `\s*` and `\.{2,}` repeat greedily, the
/// alternatives start with different punctuation, and matches are found
/// leftmost-first without overlapping.
#[verifier::external_body]
pub fn find_spans(p: &CompiledPattern, haystack: &str) -> (r: Vec<(usize, usize)>)
    ensures
        r@ == regex_match_spans(p@, haystack@),
        crate::text::spans_well_formed(haystack@, r@),
        p@ == crate::corrections::clause_boundary_pattern()
            ==> crate::corrections::spans_mark_boundaries(haystack@, r@),
{
    p.regex.find_iter(haystack).map(|m| (m.start(), m.end())).collect()
}

/// `regex::Regex::replace_all` with `regex::NoExpand`: every non-overlapping
/// match replaced by `replacement` taken literally. In general a name; the
/// matching rules are not restated. Two kinds of pattern are stated further:
/// - `(?i)\b`, an escaped word, `\b` and possibly `[,.]?`: the crate's source
///   (`Regex::replacen`) replaces the matches of `find_iter` in order and keeps
///   the text between them; each match starts at a word boundary and ends at
///   one or right after a comma or period. The crate documents a word
///   boundary as a word character on one side only, and `\w` as including
///   `\p{Alphabetic}`, so such a boundary never lies between two letters.
/// - `\s{2,}`: the crate documents `\s` as `\p{White_Space}` (the property
///   `char::is_whitespace` reports), `{2,}` repeats greedily, and matches are
///   found leftmost-first without overlapping, so each maximal run of two or
///   more whitespace characters is replaced.
#[verifier::external_body]
pub fn replace_all_literal(p: &CompiledPattern, haystack: &str, replacement: &str) -> (r: String)
    ensures
        r@ == regex_replace_all_literal(p@, haystack@, replacement@),
        anchored_at_word_start(p@) ==> replaced_off_words(haystack@, r@, replacement@),
        p@ == multi_space_pattern() ==> r@ == white_space_runs_replaced(
            haystack@,
            replacement@,
        ),
{
    p.regex.replace_all(haystack, regex::NoExpand(replacement)).into_owned()
}

/// The characters that `regex::escape` prefixes with a backslash
/// (`regex_syntax::is_meta_character`).
pub open spec fn is_regex_meta(c: char) -> bool {
    c == '\\' || c == '.' || c == '+' || c == '*' || c == '?' || c == '(' || c == ')' || c == '|'
        || c == '[' || c == ']' || c == '{' || c == '}' || c == '^' || c == '$' || c == '#'
        || c == '&' || c == '-' || c == '~'
}

/// `s` with a backslash put before every regex meta character.
pub open spec fn regex_escaped(s: Seq<char>) -> Seq<char>
    decreases s.len(),
{
    if s.len() == 0 {
        seq![]
    } else {
        let c = s.last();
        regex_escaped(s.drop_last()) + if is_regex_meta(c) {
            seq!['\\', c]
        } else {
            seq![c]
        }
    }
}

/// `regex::escape`: puts a backslash before each meta character, as
/// `regex_syntax::escape_into` does.
#[verifier::external_body]
pub fn escape(s: &str) -> (r: String)
    ensures
        r@ == regex_escaped(s@),
{
    regex::escape(s)
}

} // verus!
