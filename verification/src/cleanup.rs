//! Cleaning raw transcriptions: filler words, stutters, whitespace.
use vstd::prelude::*;

use crate::pattern::{
    anchored_at_word_start, compile, escape, lemma_unchanged_off_words, replaced_off_words, lemma_leading_white_space, leading_white_space, multi_space_pattern,
    regex_accepts, regex_escaped, regex_replace_all_literal, replace_all_literal,
    white_space_runs_replaced,
};
use crate::text::{
    chars_eq, is_word, join, join_chars, lemma_chars_deep_view, lemma_trim, lemma_words_are_words,
    lemma_words_of_join, slice_chars, split_words, string_from, trim, trim_bounds, words,
};
use crate::unicode::{
    is_alphabetic, is_whitespace, lowercase_chars, to_chars, unicode_alphabetic, unicode_lowercase,
    unicode_white_space,
};

verus! {

// ---------------------------------------------------------------------------
// Filler words by language
// ---------------------------------------------------------------------------

/// The position of the first '-' or '_' in `lang` from `i` on, or its length.
pub open spec fn language_end(lang: Seq<char>, i: int) -> int
    decreases lang.len() - i,
{
    if i < 0 || i >= lang.len() {
        lang.len() as int
    } else if lang[i] == '-' || lang[i] == '_' {
        i
    } else {
        language_end(lang, i + 1)
    }
}

/// The base language of a language code: what precedes the first '-' or '_'
/// ("pt" for "pt-BR").
pub open spec fn base_language(lang: Seq<char>) -> Seq<char> {
    lang.take(language_end(lang, 0))
}

/// The filler words of a base language. Words such as "um" and "ha" are real
/// words in some languages, so they are fillers only where they truly are.
pub open spec fn filler_words(base: Seq<char>) -> Seq<Seq<char>> {
    if base == "en"@ {
        seq![
            "uh"@, "um"@, "uhm"@, "umm"@, "uhh"@, "uhhh"@, "ah"@, "hmm"@, "hm"@, "mmm"@, "mm"@,
            "mh"@, "eh"@, "ehh"@, "ha"@,
        ]
    } else if base == "es"@ {
        seq!["ehm"@, "mmm"@, "hmm"@, "hm"@]
    } else if base == "pt"@ {
        seq!["ahm"@, "hmm"@, "mmm"@, "hm"@]
    } else if base == "fr"@ {
        seq!["euh"@, "hmm"@, "hm"@, "mmm"@]
    } else if base == "de"@ {
        seq!["äh"@, "ähm"@, "hmm"@, "hm"@, "mmm"@]
    } else if base == "it"@ {
        seq!["ehm"@, "hmm"@, "mmm"@, "hm"@]
    } else if base == "cs"@ {
        seq!["ehm"@, "hmm"@, "mmm"@, "hm"@]
    } else if base == "pl"@ {
        seq!["hmm"@, "mmm"@, "hm"@]
    } else if base == "tr"@ {
        seq!["hmm"@, "mmm"@, "hm"@]
    } else if base == "ru"@ {
        seq!["хм"@, "ммм"@, "hmm"@, "mmm"@]
    } else if base == "uk"@ {
        seq!["хм"@, "ммм"@, "hmm"@, "mmm"@]
    } else if base == "ar"@ {
        seq!["hmm"@, "mmm"@]
    } else if base == "ja"@ {
        seq!["hmm"@, "mmm"@]
    } else if base == "ko"@ {
        seq!["hmm"@, "mmm"@]
    } else if base == "vi"@ {
        seq!["hmm"@, "mmm"@, "hm"@]
    } else if base == "zh"@ {
        seq!["hmm"@, "mmm"@]
    } else {
        // conservative fallback for every other language: no "um", "eh", "ha"
        seq!["uh"@, "uhm"@, "umm"@, "uhh"@, "uhhh"@, "ah"@, "hmm"@, "hm"@, "mmm"@, "mm"@, "mh"@, "ehh"@]
    }
}

fn is_code(base: &[char], code: &str) -> (r: bool)
    ensures
        r == (base@ == code@),
{
    let c = to_chars(code);
    chars_eq(base, c.as_slice())
}

/// Returns the filler words for the given language code; the region part of
/// the code ("pt-BR", "zh_TW") is ignored.
pub fn get_filler_words_for_language(lang: &str) -> (r: Vec<&'static str>)
    ensures
        r.deep_view() == filler_words(base_language(lang@)),
{
    let l = to_chars(lang);
    let mut end: usize = 0;
    while end < l.len() && l[end] != '-' && l[end] != '_'
        invariant
            end <= l@.len(),
            l@ == lang@,
            language_end(lang@, 0) == language_end(lang@, end as int),
        decreases l@.len() - end,
    {
        end = end + 1;
    }
    let base = slice_chars(l.as_slice(), 0, end);
    assert(base@ =~= base_language(lang@));
    let b = base.as_slice();
    let r = if is_code(b, "en") {
        vec![
            "uh", "um", "uhm", "umm", "uhh", "uhhh", "ah", "hmm", "hm", "mmm", "mm", "mh", "eh",
            "ehh", "ha",
        ]
    } else if is_code(b, "es") {
        vec!["ehm", "mmm", "hmm", "hm"]
    } else if is_code(b, "pt") {
        vec!["ahm", "hmm", "mmm", "hm"]
    } else if is_code(b, "fr") {
        vec!["euh", "hmm", "hm", "mmm"]
    } else if is_code(b, "de") {
        vec!["äh", "ähm", "hmm", "hm", "mmm"]
    } else if is_code(b, "it") {
        vec!["ehm", "hmm", "mmm", "hm"]
    } else if is_code(b, "cs") {
        vec!["ehm", "hmm", "mmm", "hm"]
    } else if is_code(b, "pl") {
        vec!["hmm", "mmm", "hm"]
    } else if is_code(b, "tr") {
        vec!["hmm", "mmm", "hm"]
    } else if is_code(b, "ru") {
        vec!["хм", "ммм", "hmm", "mmm"]
    } else if is_code(b, "uk") {
        vec!["хм", "ммм", "hmm", "mmm"]
    } else if is_code(b, "ar") {
        vec!["hmm", "mmm"]
    } else if is_code(b, "ja") {
        vec!["hmm", "mmm"]
    } else if is_code(b, "ko") {
        vec!["hmm", "mmm"]
    } else if is_code(b, "vi") {
        vec!["hmm", "mmm", "hm"]
    } else if is_code(b, "zh") {
        vec!["hmm", "mmm"]
    } else {
        vec!["uh", "uhm", "umm", "uhh", "uhhh", "ah", "hmm", "hm", "mmm", "mm", "mh", "ehh"]
    };
    assert(r.deep_view() =~= filler_words(base_language(lang@)));
    r
}

// ---------------------------------------------------------------------------
// Stutters
// ---------------------------------------------------------------------------

/// A lowercased word that can be a stutter: one or two letters, all alphabetic.
pub open spec fn is_stutter_word(lower: Seq<char>) -> bool {
    lower.len() <= 2 && forall|i: int| 0 <= i < lower.len() ==> unicode_alphabetic(#[trigger] lower[i])
}

/// How many words from `i` on lowercase to `lower`, one after another.
pub open spec fn repeat_run(ws: Seq<Seq<char>>, i: int, lower: Seq<char>) -> nat
    decreases ws.len() - i,
{
    if 0 <= i < ws.len() && unicode_lowercase(ws[i]) == lower {
        1 + repeat_run(ws, i + 1, lower)
    } else {
        0
    }
}

pub proof fn lemma_repeat_run_bound(ws: Seq<Seq<char>>, i: int, lower: Seq<char>)
    requires
        0 <= i <= ws.len(),
    ensures
        repeat_run(ws, i, lower) <= ws.len() - i,
    decreases ws.len() - i,
{
    if i < ws.len() && unicode_lowercase(ws[i]) == lower {
        lemma_repeat_run_bound(ws, i + 1, lower);
    }
}

/// How many words the word at `i` stands for: the whole run of its repeats
/// when it is a stutter word repeated three or more times, else itself alone.
pub open spec fn stutter_step(ws: Seq<Seq<char>>, i: int) -> int {
    let lower = unicode_lowercase(ws[i]);
    let count = 1 + repeat_run(ws, i + 1, lower) as int;
    if is_stutter_word(lower) && count >= 3 {
        count
    } else {
        1
    }
}

/// The words from `i` on, each run of three or more repeats of a stutter
/// word (case aside) reduced to its first word.
pub open spec fn collapse_from(ws: Seq<Seq<char>>, i: int) -> Seq<Seq<char>>
    decreases ws.len() - i,
{
    if i < 0 || i >= ws.len() {
        seq![]
    } else {
        proof {
            lemma_repeat_run_bound(ws, i + 1, unicode_lowercase(ws[i]));
        }
        seq![ws[i]] + collapse_from(ws, i + stutter_step(ws, i))
    }
}

/// `text` with stutters collapsed and its words joined by single spaces; a
/// text without words is kept as it is.
pub open spec fn stutters_collapsed(text: Seq<char>) -> Seq<char> {
    let ws = words(text);
    if ws.len() == 0 {
        text
    } else {
        join(collapse_from(ws, 0), " "@)
    }
}

/// Three words that are one stutter word, case aside.
pub open spec fn stutter_triple(a: Seq<char>, b: Seq<char>, c: Seq<char>) -> bool {
    let l = unicode_lowercase(a);
    is_stutter_word(l) && unicode_lowercase(b) == l && unicode_lowercase(c) == l
}

proof fn lemma_repeat_run_end(ws: Seq<Seq<char>>, s: int, l: Seq<char>)
    requires
        0 <= s <= ws.len(),
    ensures
        s + repeat_run(ws, s, l) < ws.len() ==> unicode_lowercase(ws[s + repeat_run(ws, s, l)]) != l,
    decreases ws.len() - s,
{
    if s < ws.len() && unicode_lowercase(ws[s]) == l {
        lemma_repeat_run_end(ws, s + 1, l);
    }
}

proof fn lemma_no_triple_at(ws: Seq<Seq<char>>, i: int)
    requires
        0 <= i < ws.len(),
        i + stutter_step(ws, i) < ws.len(),
        i + stutter_step(ws, i) + stutter_step(ws, i + stutter_step(ws, i)) < ws.len(),
    ensures
        !stutter_triple(
            ws[i],
            ws[i + stutter_step(ws, i)],
            ws[i + stutter_step(ws, i) + stutter_step(ws, i + stutter_step(ws, i))],
        ),
{
    let l = unicode_lowercase(ws[i]);
    let j = i + stutter_step(ws, i);
    let j2 = j + stutter_step(ws, j);
    lemma_repeat_run_bound(ws, i + 1, l);
    lemma_repeat_run_end(ws, i + 1, l);
    if is_stutter_word(l) && unicode_lowercase(ws[j]) == l && unicode_lowercase(ws[j2]) == l {
        if 1 + repeat_run(ws, i + 1, l) >= 3 {
            assert(false);
        } else {
            assert(j == i + 1);
            assert(repeat_run(ws, i + 1, l) == 1 + repeat_run(ws, i + 2, l));
            assert(repeat_run(ws, i + 2, l) == 0);
            assert(stutter_step(ws, j) == 1);
            assert(false);
        }
    }
}

/// No three words in a row of the collapsed words are one stutter word.
pub proof fn lemma_collapse_no_triples(ws: Seq<Seq<char>>, i: int)
    requires
        0 <= i <= ws.len(),
    ensures
        forall|k: int|
            0 <= k && k + 2 < collapse_from(ws, i).len() ==> !stutter_triple(
                #[trigger] collapse_from(ws, i)[k],
                collapse_from(ws, i)[k + 1],
                collapse_from(ws, i)[k + 2],
            ),
    decreases ws.len() - i,
{
    if i < ws.len() {
        let j = i + stutter_step(ws, i);
        lemma_repeat_run_bound(ws, i + 1, unicode_lowercase(ws[i]));
        lemma_collapse_no_triples(ws, j);
        let out = collapse_from(ws, i);
        let rest = collapse_from(ws, j);
        assert forall|k: int| 0 <= k && k + 2 < out.len() implies !stutter_triple(
            #[trigger] out[k],
            out[k + 1],
            out[k + 2],
        ) by {
            if k == 0 {
                lemma_repeat_run_bound(ws, j + 1, unicode_lowercase(ws[j]));
                let j2 = j + stutter_step(ws, j);
                assert(rest[0] == ws[j]);
                assert(rest[1] == collapse_from(ws, j2)[0]);
                assert(collapse_from(ws, j2)[0] == ws[j2]);
                lemma_no_triple_at(ws, i);
            } else {
                assert(out[k] == rest[k - 1]);
                assert(out[k + 1] == rest[k]);
                assert(out[k + 2] == rest[k + 1]);
                assert(!stutter_triple(rest[k - 1], rest[k - 1 + 1], rest[k - 1 + 2]));
            }
        }
    }
}

/// Collapsing keeps only words of the given ones.
pub proof fn lemma_collapse_keeps_words(ws: Seq<Seq<char>>, i: int)
    requires
        0 <= i <= ws.len(),
        forall|k: int| 0 <= k < ws.len() ==> is_word(#[trigger] ws[k]),
    ensures
        forall|k: int|
            0 <= k < collapse_from(ws, i).len() ==> is_word(#[trigger] collapse_from(ws, i)[k]),
    decreases ws.len() - i,
{
    if i < ws.len() {
        let j = i + stutter_step(ws, i);
        lemma_repeat_run_bound(ws, i + 1, unicode_lowercase(ws[i]));
        lemma_collapse_keeps_words(ws, j);
        let out = collapse_from(ws, i);
        assert forall|k: int| 0 <= k < out.len() implies is_word(#[trigger] out[k]) by {
            if k > 0 {
                assert(out[k] == collapse_from(ws, j)[k - 1]);
            }
        }
    }
}

/// Words without a stutter triple are left as they are.
pub proof fn lemma_collapse_without_triples(ws: Seq<Seq<char>>, i: int)
    requires
        0 <= i <= ws.len(),
        forall|k: int|
            0 <= k && k + 2 < ws.len() ==> !stutter_triple(#[trigger] ws[k], ws[k + 1], ws[k + 2]),
    ensures
        collapse_from(ws, i) == ws.skip(i),
    decreases ws.len() - i,
{
    if i < ws.len() {
        let l = unicode_lowercase(ws[i]);
        if is_stutter_word(l) && 1 + repeat_run(ws, i + 1, l) >= 3 {
            assert(unicode_lowercase(ws[i + 1]) == l);
            assert(repeat_run(ws, i + 1, l) == 1 + repeat_run(ws, i + 2, l));
            assert(unicode_lowercase(ws[i + 2]) == l);
            assert(stutter_triple(ws[i], ws[i + 1], ws[i + 2]));
            assert(false);
        }
        assert(stutter_step(ws, i) == 1);
        lemma_collapse_without_triples(ws, i + 1);
        assert(seq![ws[i]] + ws.skip(i + 1) =~= ws.skip(i));
    } else {
        assert(ws.skip(i) =~= Seq::<Seq<char>>::empty());
    }
}

fn is_stutter_word_exec(lower: &[char]) -> (r: bool)
    ensures
        r == is_stutter_word(lower@),
{
    if lower.len() > 2 {
        return false;
    }
    for i in 0..lower.len()
        invariant
            forall|j: int| 0 <= j < i ==> unicode_alphabetic(#[trigger] lower@[j]),
    {
        if !is_alphabetic(lower[i]) {
            return false;
        }
    }
    true
}

fn lowers_to(word: &[char], lower: &[char]) -> (r: bool)
    ensures
        r == (unicode_lowercase(word@) == lower@),
{
    let l = lowercase_chars(word);
    chars_eq(l.as_slice(), lower)
}

/// Collapses repeated 1-2 letter words (3+ repetitions) to a single instance.
/// E.g., "wh wh wh wh" -> "wh", "I I I I" -> "I"
pub fn collapse_stutters(text: &str) -> (r: String)
    ensures
        r@ == stutters_collapsed(text@),
        stutters_collapsed(r@) == r@,
{
    let chars = to_chars(text);
    let ws = split_words(chars.as_slice());
    let ghost wv = ws.deep_view();
    if ws.len() == 0 {
        return String::from_str(text);
    }
    let count = ws.len();
    let mut out: Vec<Vec<char>> = Vec::new();
    let mut i: usize = 0;
    assert(out.deep_view() + collapse_from(wv, 0) =~= collapse_from(wv, 0));
    while i < count
        invariant
            count == ws@.len(),
            wv == ws.deep_view(),
            i <= count,
            collapse_from(wv, 0) == out.deep_view() + collapse_from(wv, i as int),
        decreases count - i,
    {
        proof {
            lemma_chars_deep_view(&ws@[i as int]);
        }
        let lower = lowercase_chars(ws[i].as_slice());
        let mut run: usize = 1;
        while i + run < count && lowers_to(ws[i + run].as_slice(), lower.as_slice())
            invariant
                count == ws@.len(),
                wv == ws.deep_view(),
                i < count,
                1 <= run <= count - i,
                lower@ == unicode_lowercase(wv[i as int]),
                repeat_run(wv, i + 1, lower@) == (run - 1) + repeat_run(wv, (i + run) as int, lower@),
            decreases count - i - run,
        {
            proof {
                lemma_chars_deep_view(&ws@[i + run]);
            }
            run = run + 1;
        }
        proof {
            if i + run < count {
                lemma_chars_deep_view(&ws@[i + run]);
            }
        }
        let step = if is_stutter_word_exec(lower.as_slice()) && run >= 3 {
            run
        } else {
            1
        };
        assert(step == stutter_step(wv, i as int));
        let ghost before = out.deep_view();
        let w = slice_chars(ws[i].as_slice(), 0, ws[i].len());
        assert(w@ =~= wv[i as int]);
        proof {
            lemma_chars_deep_view(&w);
        }
        out.push(w);
        assert(out.deep_view() =~= before.push(wv[i as int]));
        assert(before + collapse_from(wv, i as int) =~= out.deep_view() + collapse_from(
            wv,
            i + step,
        ));
        i = i + step;
    }
    assert(collapse_from(wv, i as int) =~= Seq::<Seq<char>>::empty());
    assert(out.deep_view() =~= collapse_from(wv, 0));
    let sep = to_chars(" ");
    let joined = join_chars(&out, sep.as_slice());
    // the separator is whitespace, so the joined words split back apart
    let space_is_white = is_whitespace(' ');
    proof {
        assert(space_is_white);
        let c = collapse_from(wv, 0);
        lemma_words_are_words(text@);
        lemma_collapse_keeps_words(wv, 0);
        lemma_words_of_join(c);
        lemma_collapse_no_triples(wv, 0);
        lemma_collapse_without_triples(c, 0);
        assert(c.skip(0) =~= c);
    }
    string_from(joined.as_slice())
}

// ---------------------------------------------------------------------------
// Whitespace runs
// ---------------------------------------------------------------------------

/// `text` with every run of two or more whitespace characters replaced by a
/// single space, by `regex`.
pub open spec fn spaces_collapsed(text: Seq<char>) -> Seq<char> {
    regex_replace_all_literal(multi_space_pattern(), text, " "@)
}

/// No two whitespace characters stand next to each other in `s`.
pub open spec fn single_spaced(s: Seq<char>) -> bool {
    forall|i: int|
        #![trigger s[i]]
        0 <= i < s.len() - 1 ==> !(unicode_white_space(s[i]) && unicode_white_space(s[i + 1]))
}

/// Replacing each run of two or more whitespace characters by one character
/// leaves no two whitespace characters side by side; a text that starts with
/// something other than whitespace still starts with it.
pub proof fn lemma_runs_replaced_single_spaced(s: Seq<char>, rep: Seq<char>)
    requires
        rep.len() == 1,
    ensures
        single_spaced(white_space_runs_replaced(s, rep)),
        s.len() > 0 && !unicode_white_space(s[0]) ==> white_space_runs_replaced(s, rep).len() > 0
            && white_space_runs_replaced(s, rep)[0] == s[0],
    decreases s.len(),
{
    if s.len() > 0 {
        let n = leading_white_space(s);
        lemma_leading_white_space(s);
        let t = if n >= 2 {
            s.skip(n as int)
        } else {
            s.drop_first()
        };
        let head = if n >= 2 {
            rep
        } else {
            seq![s[0]]
        };
        lemma_runs_replaced_single_spaced(t, rep);
        let tail = white_space_runs_replaced(t, rep);
        let all = white_space_runs_replaced(s, rep);
        assert(all == head + tail);
        if t.len() > 0 && n >= 1 {
            assert(t[0] == s[n as int]);
        }
        assert forall|i: int|
            #![trigger all[i]]
            0 <= i < all.len() - 1 implies !(unicode_white_space(all[i]) && unicode_white_space(
                all[i + 1],
            )) by {
            if i >= 1 {
                assert(all[i] == tail[i - 1]);
                assert(all[i + 1] == tail[i]);
            } else {
                assert(all[1] == tail[0]);
            }
        }
    }
}

/// A stretch of a single-spaced text is single-spaced.
pub proof fn lemma_single_spaced_subrange(s: Seq<char>, a: int, b: int)
    requires
        single_spaced(s),
        0 <= a <= b <= s.len(),
    ensures
        single_spaced(s.subrange(a, b)),
{
    let t = s.subrange(a, b);
    assert forall|i: int| #![trigger t[i]] 0 <= i < t.len() - 1 implies !(unicode_white_space(t[i])
        && unicode_white_space(t[i + 1])) by {
        assert(t[i] == s[a + i]);
        assert(t[i + 1] == s[a + i + 1]);
    }
}

/// A trimmed single-spaced text is single-spaced.
pub proof fn lemma_trim_single_spaced(s: Seq<char>)
    requires
        single_spaced(s),
    ensures
        single_spaced(trim(s)),
{
    lemma_trim(s);
    let (a, b) = choose|a: int, b: int| 0 <= a <= b <= s.len() && trim(s) == s.subrange(a, b);
    lemma_single_spaced_subrange(s, a, b);
}

/// Replaces every run of two or more whitespace characters with one space.
pub fn collapse_spaces(text: &str) -> (r: String)
    ensures
        r@ == spaces_collapsed(text@),
        single_spaced(r@),
{
    match compile("\\s{2,}") {
        Ok(p) => {
            let r = replace_all_literal(&p, text, " ");
            proof {
                reveal_strlit(" ");
                lemma_runs_replaced_single_spaced(text@, " "@);
            }
            r
        },
        // the pattern is always accepted
        Err(_) => String::from_str(text),
    }
}

/// `s` trimmed, as a new string.
pub fn trim_string(s: &str) -> (r: String)
    ensures
        r@ == trim(s@),
{
    let chars = to_chars(s);
    let (a, b) = trim_bounds(chars.as_slice());
    let t = slice_chars(chars.as_slice(), a, b);
    string_from(t.as_slice())
}

// ---------------------------------------------------------------------------
// Filler words
// ---------------------------------------------------------------------------

/// The pattern that removes a filler word: the word as a whole word, case
/// aside, with a comma or period right after it.
pub open spec fn filler_pattern(word: Seq<char>) -> Seq<char> {
    "(?i)\\b"@ + regex_escaped(word) + "\\b[,.]?"@
}

/// The filler words in force: the custom list when one is given (an empty one
/// disables filtering), the language's list otherwise.
pub open spec fn filler_list(lang: Seq<char>, custom: Option<Seq<Seq<char>>>) -> Seq<Seq<char>> {
    match custom {
        Some(list) => list,
        None => filler_words(base_language(lang)),
    }
}

/// `text` with every filler word of `fillers` removed, one word after the
/// other; a word whose pattern `regex` refuses is skipped.
pub open spec fn fillers_removed(text: Seq<char>, fillers: Seq<Seq<char>>) -> Seq<char>
    decreases fillers.len(),
{
    if fillers.len() == 0 {
        text
    } else {
        let t = fillers_removed(text, fillers.drop_last());
        let p = filler_pattern(fillers.last());
        if regex_accepts(p) {
            regex_replace_all_literal(p, t, seq![])
        } else {
            t
        }
    }
}

/// The cleaned transcription: fillers removed, stutters collapsed,
/// whitespace runs collapsed, trimmed.
pub open spec fn filtered_transcription(
    text: Seq<char>,
    lang: Seq<char>,
    custom: Option<Seq<Seq<char>>>,
) -> Seq<char> {
    trim(spaces_collapsed(stutters_collapsed(fillers_removed(text, filler_list(lang, custom)))))
}

fn filler_regex_source(word: &str) -> (r: String)
    ensures
        r@ == filler_pattern(word@),
{
    let mut p = String::from_str("(?i)\\b");
    let escaped = escape(word);
    p.append(escaped.as_str());
    p.append("\\b[,.]?");
    p
}

/// Removes the filler word `word` from `text`: its whole-word occurrences,
/// case aside, each with a comma or period right after it. Only whole words
/// go: what is removed are in-order stretches of the text, none starting
/// between two letters (so the tail of a longer word, such as "ah" in
/// "yeah", stays) and none ending between two letters except after a comma
/// or period.
pub fn remove_filler(text: String, word: &str) -> (r: String)
    ensures
        r@ == if regex_accepts(filler_pattern(word@)) {
            regex_replace_all_literal(filler_pattern(word@), text@, seq![])
        } else {
            text@
        },
        replaced_off_words(text@, r@, seq![]),
{
    let source = filler_regex_source(word);
    match compile(source.as_str()) {
        Ok(p) => {
            let r = replace_all_literal(&p, text.as_str(), "");
            proof {
                assert(""@ =~= Seq::<char>::empty()) by {
                    reveal_strlit("");
                }
                assert(anchored_at_word_start(p@)) by {
                    assert(p@ == "(?i)\\b"@ + regex_escaped(word@) + "\\b[,.]?"@);
                }
            }
            r
        },
        Err(_) => {
            proof {
                lemma_unchanged_off_words(text@, seq![]);
            }
            text
        },
    }
}

/// Filters transcription output by removing filler words and stutter artifacts.
///
/// This function cleans up raw transcription text by:
/// 1. Removing filler words based on the app language (or custom list)
/// 2. Collapsing repeated 1-2 letter stutters (e.g., "wh wh wh" -> "wh")
/// 3. Cleaning up excess whitespace
///
/// `Some(list)` as the custom filler words overrides the language defaults,
/// `Some(empty)` disables filtering, `None` uses the language defaults. A
/// filler word whose pattern the regex engine refuses is skipped.
pub fn filter_transcription_output(text: &str, lang: &str, custom_filler_words: &Option<Vec<String>>) -> (r: String)
    ensures
        r@ == filtered_transcription(text@, lang@, custom_filler_words.deep_view()),
        single_spaced(r@),
{
    let ghost fillers = filler_list(lang@, custom_filler_words.deep_view());
    let mut filtered = String::from_str(text);
    match custom_filler_words {
        Some(list) => {
            let ghost lv = list.deep_view();
            for i in 0..list.len()
                invariant
                    lv == list.deep_view(),
                    filtered@ == fillers_removed(text@, lv.take(i as int)),
            {
                assert(lv.take(i + 1).drop_last() =~= lv.take(i as int));
                filtered = remove_filler(filtered, list[i].as_str());
            }
            assert(lv.take(list.len() as int) =~= lv);
        },
        None => {
            let defaults = get_filler_words_for_language(lang);
            let ghost dv = defaults.deep_view();
            for i in 0..defaults.len()
                invariant
                    dv == defaults.deep_view(),
                    filtered@ == fillers_removed(text@, dv.take(i as int)),
            {
                assert(dv.take(i + 1).drop_last() =~= dv.take(i as int));
                filtered = remove_filler(filtered, defaults[i]);
            }
            assert(dv.take(defaults.len() as int) =~= dv);
        },
    }
    let collapsed = collapse_stutters(filtered.as_str());
    let spaced = collapse_spaces(collapsed.as_str());
    proof {
        lemma_trim_single_spaced(spaced@);
    }
    trim_string(spaced.as_str())
}

} // verus!
