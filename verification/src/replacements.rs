//! Exact, case-insensitive word replacements chosen by the user.
use vstd::prelude::*;

use crate::cleanup::{
    collapse_spaces, lemma_trim_single_spaced, single_spaced, spaces_collapsed, trim_string,
};
use crate::pattern::{
    anchored_at_word_start, compile, escape, lemma_unchanged_off_words, replaced_off_words, regex_accepts, regex_escaped, regex_replace_all_literal,
    replace_all_literal,
};
use crate::text::trim;

verus! {

/// A user-defined replacement: occurrences of the whole word(s) `from`, case
/// aside, become `to`, inserted literally.
#[derive(Debug)]
pub struct WordReplacement {
    pub from: String,
    pub to: String,
}

/// The pattern that finds `from` as a whole word, case aside.
pub open spec fn word_pattern(from: Seq<char>) -> Seq<char> {
    "(?i)\\b"@ + regex_escaped(from) + "\\b"@
}

/// `text` after each replacement in turn; a replacement whose pattern `regex`
/// refuses is skipped.
pub open spec fn replaced(text: Seq<char>, reps: Seq<(Seq<char>, Seq<char>)>) -> Seq<char>
    decreases reps.len(),
{
    if reps.len() == 0 {
        text
    } else {
        let t = replaced(text, reps.drop_last());
        let (from, to) = reps.last();
        let p = word_pattern(from);
        if regex_accepts(p) {
            regex_replace_all_literal(p, t, to)
        } else {
            t
        }
    }
}

/// The replacements as pairs of character sequences.
pub open spec fn replacement_pairs(reps: Seq<WordReplacement>) -> Seq<(Seq<char>, Seq<char>)> {
    reps.map_values(|r: WordReplacement| (r.from@, r.to@))
}

/// The result of the word replacements: the text itself when there are
/// none; otherwise the replaced text with whitespace runs collapsed, trimmed.
pub open spec fn word_replacements_applied(text: Seq<char>, reps: Seq<(Seq<char>, Seq<char>)>) -> Seq<
    char,
> {
    if reps.len() == 0 {
        text
    } else {
        trim(spaces_collapsed(replaced(text, reps)))
    }
}

fn word_regex_source(from: &str) -> (r: String)
    ensures
        r@ == word_pattern(from@),
{
    let mut p = String::from_str("(?i)\\b");
    let escaped = escape(from);
    p.append(escaped.as_str());
    p.append("\\b");
    p
}

/// Replaces the whole-word occurrences of `from` in `text`, case aside, by
/// `to` taken literally. Only whole words are rewritten: what is replaced are
/// in-order stretches of the text, none starting or ending between two
/// letters (so "cat" in "bobcat" and in "cats" stays).
pub fn replace_whole_word(text: &str, from: &str, to: &str) -> (r: String)
    ensures
        r@ == if regex_accepts(word_pattern(from@)) {
            regex_replace_all_literal(word_pattern(from@), text@, to@)
        } else {
            text@
        },
        replaced_off_words(text@, r@, to@),
{
    let source = word_regex_source(from);
    match compile(source.as_str()) {
        Ok(p) => {
            proof {
                assert(anchored_at_word_start(p@)) by {
                    assert(p@ == "(?i)\\b"@ + regex_escaped(from@) + "\\b"@);
                }
            }
            replace_all_literal(&p, text, to)
        },
        Err(_) => {
            proof {
                lemma_unchanged_off_words(text@, to@);
            }
            String::from_str(text)
        },
    }
}

/// Applies exact word-boundary replacements to transcription text.
///
/// Unlike the fuzzy custom-word correction, this performs simple
/// case-insensitive find-and-replace using user-defined from→to pairs.
pub fn apply_word_replacements(text: &str, replacements: &[WordReplacement]) -> (r: String)
    ensures
        r@ == word_replacements_applied(text@, replacement_pairs(replacements@)),
        replacements@.len() > 0 ==> single_spaced(r@),
{
    let ghost pairs = replacement_pairs(replacements@);
    if replacements.len() == 0 {
        return String::from_str(text);
    }
    let mut result = String::from_str(text);
    for i in 0..replacements.len()
        invariant
            pairs == replacement_pairs(replacements@),
            result@ == replaced(text@, pairs.take(i as int)),
    {
        assert(pairs.take(i + 1).drop_last() =~= pairs.take(i as int));
        let rep = &replacements[i];
        result = replace_whole_word(result.as_str(), rep.from.as_str(), rep.to.as_str());
    }
    assert(pairs.take(replacements.len() as int) =~= pairs);
    let spaced = collapse_spaces(result.as_str());
    proof {
        lemma_trim_single_spaced(spaced@);
    }
    trim_string(spaced.as_str())
}

} // verus!
