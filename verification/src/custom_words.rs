//! Correcting transcribed words towards a user's custom vocabulary: the
//! n-gram keys, the comparison of a key with the custom words, and the
//! assembly of the corrected text. Scoring the comparisons takes floating
//! point, so that step is left to the caller.
use vstd::prelude::*;

use crate::similarity::{edit_distance, levenshtein, soundex, soundex_alike};
use crate::text::{
    byte_len, byte_length, join, join_chars, copy_chars, lemma_chars_deep_view, push_chars,
    slice_chars,
    split_words, string_from, words,
};
use crate::unicode::{
    char_to_uppercase, is_alphanumeric, is_uppercase, lowercase_chars, to_chars, to_uppercase,
    unicode_alphanumeric, unicode_char_uppercase, unicode_is_uppercase, unicode_lowercase,
    unicode_uppercase,
};

verus! {

// ---------------------------------------------------------------------------
// Punctuation around a word
// ---------------------------------------------------------------------------

/// The number of non-alphanumeric characters at the front of `w`.
pub open spec fn leading_non_alnum(w: Seq<char>) -> nat
    decreases w.len(),
{
    if w.len() > 0 && !unicode_alphanumeric(w[0]) {
        1 + leading_non_alnum(w.drop_first())
    } else {
        0
    }
}

/// The number of non-alphanumeric characters at the back of `w`.
pub open spec fn trailing_non_alnum(w: Seq<char>) -> nat
    decreases w.len(),
{
    if w.len() > 0 && !unicode_alphanumeric(w.last()) {
        1 + trailing_non_alnum(w.drop_last())
    } else {
        0
    }
}

/// The punctuation prefix and suffix of `w`: its leading and its trailing
/// non-alphanumeric characters (the whole word for both when it has no
/// alphanumeric character).
pub open spec fn punctuation_split(w: Seq<char>) -> (Seq<char>, Seq<char>) {
    (w.take(leading_non_alnum(w) as int), w.skip(w.len() - trailing_non_alnum(w)))
}

pub proof fn lemma_leading_non_alnum(w: Seq<char>)
    ensures
        leading_non_alnum(w) <= w.len(),
        forall|i: int| 0 <= i < leading_non_alnum(w) ==> !unicode_alphanumeric(#[trigger] w[i]),
        leading_non_alnum(w) < w.len() ==> unicode_alphanumeric(w[leading_non_alnum(w) as int]),
    decreases w.len(),
{
    if w.len() > 0 && !unicode_alphanumeric(w[0]) {
        lemma_leading_non_alnum(w.drop_first());
        assert forall|i: int| 0 <= i < leading_non_alnum(w) implies !unicode_alphanumeric(
            #[trigger] w[i],
        ) by {
            if i > 0 {
                assert(w[i] == w.drop_first()[i - 1]);
            }
        }
    }
}

pub proof fn lemma_trailing_non_alnum(w: Seq<char>)
    ensures
        trailing_non_alnum(w) <= w.len(),
        forall|i: int|
            w.len() - trailing_non_alnum(w) <= i < w.len() ==> !unicode_alphanumeric(#[trigger] w[i]),
    decreases w.len(),
{
    if w.len() > 0 && !unicode_alphanumeric(w.last()) {
        lemma_trailing_non_alnum(w.drop_last());
        assert forall|i: int|
            w.len() - trailing_non_alnum(w) <= i < w.len() implies !unicode_alphanumeric(
            #[trigger] w[i],
        ) by {
            if i < w.len() - 1 {
                assert(w[i] == w.drop_last()[i]);
            }
        }
    }
}

fn leading_non_alnum_count(w: &[char]) -> (r: usize)
    ensures
        r == leading_non_alnum(w@),
{
    let n = w.len();
    let mut i: usize = 0;
    assert(w@.skip(0) =~= w@);
    while i < n && !is_alphanumeric(w[i])
        invariant
            i <= n == w@.len(),
            leading_non_alnum(w@) == i + leading_non_alnum(w@.skip(i as int)),
        decreases n - i,
    {
        assert(w@.skip(i as int).drop_first() =~= w@.skip(i + 1));
        i = i + 1;
    }
    i
}

fn trailing_non_alnum_count(w: &[char]) -> (r: usize)
    ensures
        r == trailing_non_alnum(w@),
{
    let n = w.len();
    let mut j: usize = n;
    assert(w@.take(n as int) =~= w@);
    while j > 0 && !is_alphanumeric(w[j - 1])
        invariant
            j <= n == w@.len(),
            trailing_non_alnum(w@) == (n - j) + trailing_non_alnum(w@.take(j as int)),
        decreases j,
    {
        assert(w@.take(j as int).drop_last() =~= w@.take(j - 1));
        j = j - 1;
    }
    n - j
}

/// Extracts the punctuation prefix and suffix from a word.
pub fn extract_punctuation<'a>(word: &'a str) -> (r: (&'a str, &'a str))
    ensures
        punctuation_split(word@) == (r.0@, r.1@),
{
    let w = to_chars(word);
    let p = leading_non_alnum_count(w.as_slice());
    let s = trailing_non_alnum_count(w.as_slice());
    proof {
        lemma_leading_non_alnum(w@);
        lemma_trailing_non_alnum(w@);
    }
    let n = w.len();
    let prefix = word.substring_char(0, p);
    let suffix = word.substring_char(n - s, n);
    assert(prefix@ =~= word@.take(p as int));
    assert(suffix@ =~= word@.skip(n - s));
    (prefix, suffix)
}

// ---------------------------------------------------------------------------
// Case of a replacement
// ---------------------------------------------------------------------------

/// Every character of `s` has the Unicode `Uppercase` property (true of the
/// empty word).
pub open spec fn all_uppercase(s: Seq<char>) -> bool {
    forall|i: int| 0 <= i < s.len() ==> unicode_is_uppercase(#[trigger] s[i])
}

/// `replacement` in the case pattern of `original`: all uppercase when
/// `original` is, with its first character uppercased when `original` starts
/// with an uppercase character, unchanged otherwise.
pub open spec fn case_preserved(original: Seq<char>, replacement: Seq<char>) -> Seq<char> {
    if all_uppercase(original) {
        unicode_uppercase(replacement)
    } else if original.len() > 0 && unicode_is_uppercase(original[0]) {
        if replacement.len() == 0 {
            replacement
        } else {
            replacement.update(0, unicode_char_uppercase(replacement[0])[0])
        }
    } else {
        replacement
    }
}

/// Preserves the case pattern of the original word when applying a replacement.
pub fn preserve_case_pattern(original: &str, replacement: &str) -> (r: String)
    ensures
        r@ == case_preserved(original@, replacement@),
{
    let orig = to_chars(original);
    let mut all_upper = true;
    for i in 0..orig.len()
        invariant
            all_upper == (forall|j: int| 0 <= j < i ==> unicode_is_uppercase(#[trigger] orig@[j])),
    {
        if !is_uppercase(orig[i]) {
            all_upper = false;
        }
    }
    if all_upper {
        to_uppercase(replacement)
    } else if orig.len() > 0 && is_uppercase(orig[0]) {
        let mut rep = to_chars(replacement);
        if rep.len() > 0 {
            let up = char_to_uppercase(rep[0]);
            rep.set(0, up[0]);
        }
        string_from(rep.as_slice())
    } else {
        String::from_str(replacement)
    }
}

// ---------------------------------------------------------------------------
// N-gram keys
// ---------------------------------------------------------------------------

/// `w` without its leading and trailing non-alphanumeric characters.
pub open spec fn stripped(w: Seq<char>) -> Seq<char> {
    let p = leading_non_alnum(w);
    if p == w.len() {
        seq![]
    } else {
        w.subrange(p as int, w.len() - trailing_non_alnum(w))
    }
}

/// The key of a run of words: each word stripped of surrounding punctuation
/// and lowercased, all run together without spaces.
pub open spec fn ngram_key(ws: Seq<Seq<char>>) -> Seq<char>
    decreases ws.len(),
{
    if ws.len() == 0 {
        seq![]
    } else {
        ngram_key(ws.drop_last()) + unicode_lowercase(stripped(ws.last()))
    }
}

fn stripped_chars(w: &[char]) -> (r: Vec<char>)
    ensures
        r@ == stripped(w@),
{
    let p = leading_non_alnum_count(w);
    if p == w.len() {
        return Vec::new();
    }
    let t = trailing_non_alnum_count(w);
    proof {
        lemma_leading_non_alnum(w@);
        lemma_trailing_non_alnum(w@);
        if p + t >= w@.len() {
            assert(!unicode_alphanumeric(w@[p as int]));
        }
    }
    slice_chars(w, p, w.len() - t)
}

/// The key of the run of words `words`.
pub fn ngram_chars(words: &[Vec<char>]) -> (r: Vec<char>)
    ensures
        r@ == ngram_key(words@.map_values(|w: Vec<char>| w@)),
{
    let ghost ws = words@.map_values(|w: Vec<char>| w@);
    let mut r: Vec<char> = Vec::new();
    for i in 0..words.len()
        invariant
            ws == words@.map_values(|w: Vec<char>| w@),
            r@ == ngram_key(ws.take(i as int)),
    {
        assert(ws.take(i + 1).drop_last() =~= ws.take(i as int));
        let s = stripped_chars(words[i].as_slice());
        let l = lowercase_chars(s.as_slice());
        crate::text::append_chars(&mut r, l.as_slice());
    }
    assert(ws.take(words.len() as int) =~= ws);
    r
}

/// Builds an n-gram string by cleaning and concatenating words: strips
/// punctuation from each word, lowercases, and joins without spaces. This
/// allows matching "Charge B" against "ChargeBee".
pub fn build_ngram(words: &[&str]) -> (r: String)
    ensures
        r@ == ngram_key(words@.map_values(|w: &str| w@)),
{
    let mut ws: Vec<Vec<char>> = Vec::new();
    for i in 0..words.len()
        invariant
            ws@.len() == i,
            forall|j: int| 0 <= j < i ==> (#[trigger] ws@[j])@ == words@[j]@,
    {
        ws.push(to_chars(words[i]));
    }
    assert(ws@.map_values(|w: Vec<char>| w@) =~= words@.map_values(|w: &str| w@));
    let r = ngram_chars(ws.as_slice());
    string_from(r.as_slice())
}

// ---------------------------------------------------------------------------
// Comparing a key with the custom words
// ---------------------------------------------------------------------------

/// `s` without its space characters (U+0020).
pub open spec fn without_spaces(s: Seq<char>) -> Seq<char>
    decreases s.len(),
{
    if s.len() == 0 {
        seq![]
    } else if s.last() == ' ' {
        without_spaces(s.drop_last())
    } else {
        without_spaces(s.drop_last()).push(s.last())
    }
}

/// The form of a custom word that keys are compared with: lowercased, with
/// its spaces removed.
pub open spec fn comparison_form(w: Seq<char>) -> Seq<char> {
    without_spaces(unicode_lowercase(w))
}

fn remove_spaces(s: &[char]) -> (r: Vec<char>)
    ensures
        r@ == without_spaces(s@),
{
    let mut r: Vec<char> = Vec::new();
    for i in 0..s.len()
        invariant
            r@ == without_spaces(s@.take(i as int)),
    {
        assert(s@.take(i + 1).drop_last() =~= s@.take(i as int));
        if s[i] != ' ' {
            r.push(s[i]);
        }
    }
    assert(s@.take(s@.len() as int) =~= s@);
    r
}

/// The comparison forms of the custom words, in order.
pub fn comparison_forms(custom_words: &[String]) -> (r: Vec<String>)
    ensures
        r@.len() == custom_words@.len(),
        forall|i: int|
            0 <= i < r@.len() ==> (#[trigger] r@[i])@ == comparison_form(custom_words@[i]@),
{
    let mut r: Vec<String> = Vec::new();
    for i in 0..custom_words.len()
        invariant
            r@.len() == i,
            forall|j: int|
                0 <= j < i ==> (#[trigger] r@[j])@ == comparison_form(custom_words@[j]@),
    {
        let w = to_chars(custom_words[i].as_str());
        let l = lowercase_chars(w.as_slice());
        let f = remove_spaces(l.as_slice());
        r.push(string_from(f.as_slice()));
    }
    r
}

/// What the scoring of a key against one custom word needs: the word's index,
/// the edit distance, the longer of the two byte lengths, and whether the
/// two sound alike.
#[derive(Clone, Copy, Debug, PartialEq, Eq)]
pub struct MatchCandidate {
    pub index: usize,
    pub distance: usize,
    pub max_len: usize,
    pub phonetic: bool,
}

/// Byte lengths `a` and `b` differ by at most two, or by at most a quarter of
/// the longer one.
pub open spec fn within_length_tolerance(a: int, b: int) -> bool {
    let d = if a >= b {
        a - b
    } else {
        b - a
    };
    let m = if a >= b {
        a
    } else {
        b
    };
    d <= 2 || 4 * d <= m
}

/// The candidates among `forms` for the key `key`, in order: every form
/// within the length tolerance. `None` where such a form is empty (the
/// Soundex comparison indexes its first character).
pub open spec fn candidate_scan(key: Seq<char>, forms: Seq<Seq<char>>) -> Option<Seq<MatchCandidate>>
    decreases forms.len(),
{
    if forms.len() == 0 {
        Some(seq![])
    } else {
        match candidate_scan(key, forms.drop_last()) {
            None => None,
            Some(acc) => {
                let w = forms.last();
                let a = byte_len(key) as int;
                let b = byte_len(w) as int;
                if !within_length_tolerance(a, b) {
                    Some(acc)
                } else if w.len() == 0 {
                    None
                } else {
                    Some(
                        acc.push(
                            MatchCandidate {
                                index: (forms.len() - 1) as usize,
                                distance: edit_distance(key, w) as usize,
                                max_len: (if a >= b {
                                    a
                                } else {
                                    b
                                }) as usize,
                                phonetic: soundex_alike(key, w),
                            },
                        ),
                    )
                }
            },
        }
    }
}

/// The candidates for `key`: none for an empty key or one over 50 bytes.
pub open spec fn match_candidates_for(key: Seq<char>, forms: Seq<Seq<char>>) -> Option<Seq<MatchCandidate>> {
    if key.len() == 0 || byte_len(key) > 50 {
        Some(seq![])
    } else {
        candidate_scan(key, forms)
    }
}

proof fn lemma_candidate_scan_none(key: Seq<char>, forms: Seq<Seq<char>>, i: int)
    requires
        0 <= i <= forms.len(),
        candidate_scan(key, forms.take(i)) is None,
    ensures
        candidate_scan(key, forms) is None,
    decreases forms.len() - i,
{
    if i < forms.len() {
        assert(forms.take(i + 1).drop_last() =~= forms.take(i));
        lemma_candidate_scan_none(key, forms, i + 1);
    } else {
        assert(forms.take(i) =~= forms);
    }
}

/// The custom words that `candidate` is compared with, each with its edit
/// distance, length and Soundex comparison; `None` where a compared form is
/// empty. Byte lengths are compared exactly.
pub fn match_candidates(candidate: &str, custom_words_nospace: &[String]) -> (r: Option<
    Vec<MatchCandidate>,
>)
    ensures
        match r {
            Some(v) => match_candidates_for(
                candidate@,
                custom_words_nospace@.map_values(|w: String| w@),
            ) == Some(v@),
            None => match_candidates_for(
                candidate@,
                custom_words_nospace@.map_values(|w: String| w@),
            ) is None,
        },
{
    let ghost forms = custom_words_nospace@.map_values(|w: String| w@);
    let key = to_chars(candidate);
    let key_len = byte_length(key.as_slice());
    let mut r: Vec<MatchCandidate> = Vec::new();
    if key.len() == 0 || key_len > 50 {
        return Some(r);
    }
    for i in 0..custom_words_nospace.len()
        invariant
            forms == custom_words_nospace@.map_values(|w: String| w@),
            key@ == candidate@,
            key@.len() > 0,
            key_len == byte_len(key@),
            key_len <= 50,
            candidate_scan(key@, forms.take(i as int)) == Some(r@),
    {
        assert(forms.take(i + 1).drop_last() =~= forms.take(i as int));
        let form = custom_words_nospace[i].as_str();
        let w = to_chars(form);
        let w_len = byte_length(w.as_slice());
        let wl = w.len();
        proof {
            crate::text::lemma_byte_len_bound(w@);
        }
        assert(w_len <= 4 * wl);
        assert(w_len == byte_len(forms[i as int]));
        let d = if key_len >= w_len {
            key_len - w_len
        } else {
            w_len - key_len
        };
        let m = if key_len >= w_len {
            key_len
        } else {
            w_len
        };
        if d <= 2 || 4 * d <= m {
            if w.len() == 0 {
                proof {
                    lemma_candidate_scan_none(key@, forms, i + 1);
                }
                return None;
            }
            let distance = levenshtein(candidate, form);
            let phonetic = soundex(candidate, form);
            r.push(MatchCandidate { index: i, distance, max_len: m as usize, phonetic });
        }
    }
    assert(forms.take(custom_words_nospace.len() as int) =~= forms);
    Some(r)
}

// ---------------------------------------------------------------------------
// Assembling the corrected text
// ---------------------------------------------------------------------------

/// How many runs start at word `i` of `count` words: one, two and three
/// words long, as far as words remain.
pub open spec fn runs_at(count: int, i: int) -> int {
    if count - i < 3 {
        count - i
    } else {
        3
    }
}

/// For each word of `text`, the keys of the runs of one, two and three words
/// that start there (as far as words remain): `keys[i][n - 1]` is the key of
/// words `i .. i + n`.
pub fn ngram_keys(text: &str) -> (r: Vec<Vec<String>>)
    ensures
        r@.len() == words(text@).len(),
        forall|i: int|
            0 <= i < r@.len() ==> (#[trigger] r@[i])@.len() == runs_at(r@.len() as int, i)
                && forall|n: int|
                1 <= n <= runs_at(r@.len() as int, i) ==> (#[trigger] r@[i]@[n - 1])@ == ngram_key(
                    words(text@).subrange(i, i + n),
                ),
{
    let chars = to_chars(text);
    let ws = split_words(chars.as_slice());
    let ghost wv = ws.deep_view();
    let count = ws.len();
    let mut r: Vec<Vec<String>> = Vec::new();
    for i in 0..count
        invariant
            count == ws@.len(),
            wv == ws.deep_view(),
            wv == words(text@),
            r@.len() == i,
            forall|j: int|
                0 <= j < i ==> (#[trigger] r@[j])@.len() == runs_at(count as int, j) && forall|n: int|
                    1 <= n <= runs_at(count as int, j) ==> (#[trigger] r@[j]@[n - 1])@ == ngram_key(
                        wv.subrange(j, j + n),
                    ),
    {
        let runs: usize = if count - i < 3 {
            count - i
        } else {
            3
        };
        let mut row: Vec<String> = Vec::new();
        for n in 1..runs + 1
            invariant
                count == ws@.len(),
                wv == ws.deep_view(),
                i < count,
                runs == runs_at(count as int, i as int),
                row@.len() == n - 1,
                forall|m: int|
                    1 <= m < n ==> (#[trigger] row@[m - 1])@ == ngram_key(
                        wv.subrange(i as int, i + m),
                    ),
        {
            let run = vstd::slice::slice_subrange(ws.as_slice(), i, i + n);
            let key = ngram_chars(run);
            assert(run@.map_values(|w: Vec<char>| w@) =~= wv.subrange(i as int, i + n)) by {
                assert forall|t: int| #![trigger run@[t]] 0 <= t < n implies run@.map_values(
                    |w: Vec<char>| w@,
                )[t] == wv.subrange(i as int, i + n)[t] by {
                    lemma_chars_deep_view(&ws@[i + t]);
                }
            }
            row.push(string_from(key.as_slice()));
        }
        r.push(row);
    }
    r
}

/// How a run of words compares with the custom words: no custom word scores
/// well enough, this one scores best, or the comparison cannot be made.
#[derive(Clone, Copy, Debug, PartialEq, Eq)]
pub enum NgramMatch {
    NoMatch,
    Best(usize),
    Unscorable,
}

/// The table entry for the run of `n` words at word `i` (no match where the
/// table has no such entry).
pub open spec fn table_entry(table: Seq<Seq<NgramMatch>>, i: int, n: int) -> NgramMatch {
    if 0 <= i < table.len() && 1 <= n <= table[i].len() {
        table[i][n - 1]
    } else {
        NgramMatch::NoMatch
    }
}

/// The run chosen at word `i`: the longest of three, two, one words (as far
/// as words remain) whose comparison is not `NoMatch`.
pub open spec fn chosen_run(table: Seq<Seq<NgramMatch>>, i: int, avail: int) -> Option<(int, NgramMatch)> {
    if avail >= 3 && !(table_entry(table, i, 3) is NoMatch) {
        Some((3, table_entry(table, i, 3)))
    } else if avail >= 2 && !(table_entry(table, i, 2) is NoMatch) {
        Some((2, table_entry(table, i, 2)))
    } else if avail >= 1 && !(table_entry(table, i, 1) is NoMatch) {
        Some((1, table_entry(table, i, 1)))
    } else {
        None
    }
}

/// The replacement for words `i .. i + n`: the punctuation before the first
/// word, the replacement in the first word's case, the punctuation after the
/// last word.
pub open spec fn corrected_token(ws: Seq<Seq<char>>, i: int, n: int, replacement: Seq<char>) -> Seq<
    char,
> {
    punctuation_split(ws[i]).0 + case_preserved(ws[i], replacement) + punctuation_split(
        ws[i + n - 1],
    ).1
}

/// `acc` followed by `rest`, if there is a rest.
pub open spec fn prepend(acc: Seq<Seq<char>>, rest: Option<Seq<Seq<char>>>) -> Option<Seq<Seq<char>>> {
    match rest {
        Some(r) => Some(acc + r),
        None => None,
    }
}

/// The output tokens from word `i` on, greedily taking the longest matching
/// run; `None` where a comparison cannot be made or a match names no custom
/// word.
pub open spec fn custom_tokens(
    ws: Seq<Seq<char>>,
    custom: Seq<Seq<char>>,
    table: Seq<Seq<NgramMatch>>,
    i: int,
) -> Option<Seq<Seq<char>>>
    decreases ws.len() - i,
{
    if i < 0 || i >= ws.len() {
        Some(seq![])
    } else {
        match chosen_run(table, i, ws.len() - i) {
            None => prepend(seq![ws[i]], custom_tokens(ws, custom, table, i + 1)),
            Some((n, NgramMatch::Best(k))) => if 0 <= k < custom.len() {
                prepend(
                    seq![corrected_token(ws, i, n, custom[k as int])],
                    custom_tokens(ws, custom, table, i + n),
                )
            } else {
                None
            },
            Some(_) => None,
        }
    }
}

/// The corrected text: the text itself where there are no custom words, else
/// the tokens joined by single spaces.
pub open spec fn custom_words_applied(
    text: Seq<char>,
    custom: Seq<Seq<char>>,
    table: Seq<Seq<NgramMatch>>,
) -> Option<Seq<char>> {
    if custom.len() == 0 {
        Some(text)
    } else {
        match custom_tokens(words(text), custom, table, 0) {
            Some(tokens) => Some(join(tokens, " "@)),
            None => None,
        }
    }
}

fn entry(table: &Vec<Vec<NgramMatch>>, i: usize, n: usize) -> (r: NgramMatch)
    ensures
        r == table_entry(table@.map_values(|row: Vec<NgramMatch>| row@), i as int, n as int),
{
    if i < table.len() && 1 <= n && n <= table[i].len() {
        table[i][n - 1]
    } else {
        NgramMatch::NoMatch
    }
}

/// Applies the comparisons `table` (indexed as the keys of `ngram_keys`) to
/// `text`: from each word, the longest run of up to three words that matched
/// a custom word is replaced by it, keeping the run's outer punctuation and
/// the case pattern of its first word; other words are kept, and the words
/// are joined by single spaces. Without custom words the text is returned as
/// it is. `None` where a needed comparison could not be made or a match names
/// no custom word.
pub fn apply_custom_word_matches(text: &str, custom_words: &[String], table: &Vec<Vec<NgramMatch>>) -> (r: Option<
    String,
>)
    ensures
        r.deep_view() == custom_words_applied(
            text@,
            custom_words@.map_values(|w: String| w@),
            table@.map_values(|row: Vec<NgramMatch>| row@),
        ),
{
    let ghost custom = custom_words@.map_values(|w: String| w@);
    let ghost tv = table@.map_values(|row: Vec<NgramMatch>| row@);
    let chars = to_chars(text);
    if custom_words.len() == 0 {
        return Some(string_from(chars.as_slice()));
    }
    let ws = split_words(chars.as_slice());
    let ghost wv = ws.deep_view();
    let count = ws.len();
    let mut tokens: Vec<Vec<char>> = Vec::new();
    let mut i: usize = 0;
    assert(tokens.deep_view() + Seq::<Seq<char>>::empty() =~= tokens.deep_view());
    while i < count
        invariant
            count == ws@.len(),
            wv == ws.deep_view(),
            wv == words(text@),
            custom == custom_words@.map_values(|w: String| w@),
            custom_words@.len() > 0,
            tv == table@.map_values(|row: Vec<NgramMatch>| row@),
            i <= count,
            custom_tokens(wv, custom, tv, 0) == prepend(
                tokens.deep_view(),
                custom_tokens(wv, custom, tv, i as int),
            ),
        decreases count - i,
    {
        let avail = count - i;
        let e3 = entry(table, i, 3);
        let e2 = entry(table, i, 2);
        let e1 = entry(table, i, 1);
        let chosen: Option<(usize, NgramMatch)> = if avail >= 3 && !matches!(e3, NgramMatch::NoMatch) {
            Some((3, e3))
        } else if avail >= 2 && !matches!(e2, NgramMatch::NoMatch) {
            Some((2, e2))
        } else if avail >= 1 && !matches!(e1, NgramMatch::NoMatch) {
            Some((1, e1))
        } else {
            None
        };
        proof {
            lemma_chars_deep_view(&ws@[i as int]);
        }
        match chosen {
            None => {
                let ghost before = tokens.deep_view();
                push_chars(&mut tokens, copy_chars(ws[i].as_slice()));
                assert(before + (seq![wv[i as int]] + custom_tokens(wv, custom, tv, i + 1)->Some_0)
                    =~= tokens.deep_view() + custom_tokens(wv, custom, tv, i + 1)->Some_0);
                i = i + 1;
            },
            Some((n, NgramMatch::Best(k))) => {
                if k >= custom_words.len() {
                    return None;
                }
                let first = ws[i].as_slice();
                let last = ws[i + n - 1].as_slice();
                proof {
                    lemma_chars_deep_view(&ws@[i + n - 1]);
                }
                let a = leading_non_alnum_count(first);
                let t = trailing_non_alnum_count(last);
                proof {
                    lemma_leading_non_alnum(first@);
                    lemma_trailing_non_alnum(last@);
                }
                let prefix = slice_chars(first, 0, a);
                let suffix = slice_chars(last, last.len() - t, last.len());
                assert(prefix@ =~= first@.take(a as int));
                assert(suffix@ =~= last@.skip(last@.len() - t));
                let original = string_from(first);
                let cased = preserve_case_pattern(original.as_str(), custom_words[k].as_str());
                let cased_chars = to_chars(cased.as_str());
                let mut token = prefix;
                crate::text::append_chars(&mut token, cased_chars.as_slice());
                crate::text::append_chars(&mut token, suffix.as_slice());
                let ghost before = tokens.deep_view();
                let ghost tok = token@;
                push_chars(&mut tokens, token);
                assert(before + (seq![tok] + custom_tokens(wv, custom, tv, i + n)->Some_0)
                    =~= tokens.deep_view() + custom_tokens(wv, custom, tv, i + n)->Some_0);
                i = i + n;
            },
            Some(_) => {
                return None;
            },
        }
    }
    let sep = to_chars(" ");
    let joined = join_chars(&tokens, sep.as_slice());
    Some(string_from(joined.as_slice()))
}

} // verus!
