//! Properties of the text clean-up that hold for every input.
use vstd::prelude::*;

use crate::cleanup::{
    base_language, collapse_from, filler_words, filtered_transcription, language_end,
    lemma_collapse_no_triples, spaces_collapsed, stutter_triple, stutters_collapsed,
};
use crate::corrections::{
    clauses, default_correction_markers, false_start_fold, false_start_pass, marker_fold,
    marker_step, nonblank_trimmed, self_corrected,
};
use crate::custom_words::{
    candidate_scan, case_preserved, custom_tokens, custom_words_applied, match_candidates_for,
    punctuation_split, table_entry, NgramMatch,
};
use crate::replacements::word_replacements_applied;
use crate::text::{byte_len, is_trimmed, join, lemma_trim, trim, words};
use crate::unicode::{unicode_alphanumeric, unicode_is_uppercase, unicode_lowercase};

verus! {

// ---------------------------------------------------------------------------
// Self-corrections
// ---------------------------------------------------------------------------

/// An empty text stays empty, whatever the markers.
pub proof fn law_empty_text_stays_empty(custom: Option<Seq<Seq<char>>>)
    ensures
        self_corrected(Seq::<char>::empty(), custom) == Seq::<char>::empty(),
{
}

/// Giving no marker list is the same as giving the English default markers.
pub proof fn law_no_marker_list_means_defaults(text: Seq<char>)
    ensures
        self_corrected(text, None) == self_corrected(text, Some(default_correction_markers())),
{
}

/// An empty marker list turns marker detection off: only false starts are
/// collapsed.
pub proof fn law_empty_marker_list_only_false_starts(text: Seq<char>)
    requires
        text.len() > 0,
    ensures
        self_corrected(text, Some(Seq::<Seq<char>>::empty())) == false_start_pass(text),
{
}

proof fn lemma_nonblank_trimmed(ps: Seq<Seq<char>>)
    ensures
        forall|k: int|
            0 <= k < nonblank_trimmed(ps).len() ==> (#[trigger] nonblank_trimmed(ps)[k]).len() > 0
                && is_trimmed(nonblank_trimmed(ps)[k]),
    decreases ps.len(),
{
    if ps.len() > 0 {
        lemma_nonblank_trimmed(ps.drop_last());
        lemma_trim(ps.last());
        let acc = nonblank_trimmed(ps.drop_last());
        let out = nonblank_trimmed(ps);
        assert forall|k: int| 0 <= k < out.len() implies (#[trigger] out[k]).len() > 0 && is_trimmed(
            out[k],
        ) by {
            if k < acc.len() {
                assert(out[k] == acc[k]);
            }
        }
    }
}

/// Every clause of a text is non-empty and has no whitespace at either end.
pub proof fn law_clauses_are_trimmed(text: Seq<char>)
    ensures
        forall|k: int|
            0 <= k < clauses(text).len() ==> (#[trigger] clauses(text)[k]).len() > 0 && is_trimmed(
                clauses(text)[k],
            ),
{
    lemma_nonblank_trimmed(crate::corrections::char_pieces(text, crate::corrections::boundaries(text)));
}

/// A clause that starts with a correction marker (as whole words, case
/// aside) removes the clause before it and keeps only what follows the
/// marker.
pub proof fn law_marker_removes_preceding_clause(
    before: Seq<char>,
    clause: Seq<char>,
    markers: Seq<Seq<char>>,
    j: int,
)
    requires
        crate::corrections::first_marker_from(clause, markers, 0) == Some(j),
    ensures
        ({
            let rest = trim(
                clause.skip(crate::corrections::marker_at(clause, markers[j], 0)->Some_0),
            );
            marker_fold(seq![before, clause], markers) == if rest.len() > 0 {
                seq![rest]
            } else {
                Seq::<Seq<char>>::empty()
            }
        }),
{
    let rest = trim(clause.skip(crate::corrections::marker_at(clause, markers[j], 0)->Some_0));
    assert(seq![before, clause].drop_last() =~= seq![before]);
    assert(seq![before].drop_last() =~= Seq::<Seq<char>>::empty());
    let acc = marker_fold(seq![before], markers);
    law_marker_pass_only_shortens(seq![before], markers);
    assert(acc.len() <= 1);
    if acc.len() > 0 {
        assert(acc.drop_last() =~= Seq::<Seq<char>>::empty());
    }
    if rest.len() > 0 {
        assert(Seq::<Seq<char>>::empty().push(rest) =~= seq![rest]);
    }
}

/// A clause that restarts the one before it (same opening, more words)
/// replaces it; otherwise both are kept.
pub proof fn law_false_start_replaced_by_restart(first: Seq<char>, second: Seq<char>)
    ensures
        false_start_fold(seq![first, second]) == if crate::corrections::restarts(first, second) {
            seq![second]
        } else {
            seq![first, second]
        },
{
    assert(seq![first, second].drop_last() =~= seq![first]);
    assert(seq![first].drop_last() =~= Seq::<Seq<char>>::empty());
    assert(Seq::<Seq<char>>::empty().push(first) =~= seq![first]);
    assert(false_start_fold(Seq::<Seq<char>>::empty()) == Seq::<Seq<char>>::empty());
    assert(false_start_fold(seq![first]) == seq![first]);
    assert(seq![first, second].last() == second);
    assert(seq![first].drop_last().push(second) =~= seq![second]);
    assert(seq![first].push(second) =~= seq![first, second]);
}

/// `c` is a stretch of one of the clauses `cl`.
pub open spec fn is_fragment_of(c: Seq<char>, cl: Seq<Seq<char>>) -> bool {
    exists|j: int, a: int, b: int|
        0 <= j < cl.len() && 0 <= a <= b <= cl[j].len() && c == #[trigger] cl[j].subrange(a, b)
}

/// The marker pass never adds clauses or text: it keeps at most as many
/// clauses as it is given, and every clause it keeps is a stretch of one of
/// them.
pub proof fn law_marker_pass_only_shortens(cl: Seq<Seq<char>>, markers: Seq<Seq<char>>)
    ensures
        marker_fold(cl, markers).len() <= cl.len(),
        forall|k: int|
            0 <= k < marker_fold(cl, markers).len() ==> is_fragment_of(
                #[trigger] marker_fold(cl, markers)[k],
                cl,
            ),
    decreases cl.len(),
{
    if cl.len() > 0 {
        let prev = cl.drop_last();
        law_marker_pass_only_shortens(prev, markers);
        let acc = marker_fold(prev, markers);
        assert forall|k: int| 0 <= k < acc.len() implies is_fragment_of(#[trigger] acc[k], cl) by {
            let (j, a, b) = choose|j: int, a: int, b: int|
                0 <= j < prev.len() && 0 <= a <= b <= prev[j].len() && acc[k]
                    == #[trigger] prev[j].subrange(a, b);
            assert(cl[j].subrange(a, b) == acc[k]);
        }
        let c = cl.last();
        let last = cl.len() - 1;
        assert(cl[last].subrange(0, c.len() as int) =~= c);
        let out = marker_step(acc, c, markers);
        match crate::corrections::first_marker_from(c, markers, 0) {
            None => {
                assert forall|k: int| 0 <= k < out.len() implies is_fragment_of(#[trigger] out[k], cl) by {
                    if k < acc.len() {
                        assert(out[k] == acc[k]);
                    } else {
                        assert(cl[last].subrange(0, c.len() as int) == out[k]);
                    }
                }
            },
            Some(jm) => {
                let kept = if acc.len() > 0 {
                    acc.drop_last()
                } else {
                    acc
                };
                let p = crate::corrections::marker_at(c, markers[jm], 0)->Some_0;
                crate::corrections::lemma_first_marker_from(c, markers, 0);
                crate::corrections::lemma_marker_at(c, markers[jm], 0);
                let rest = trim(c.skip(p));
                lemma_trim(c.skip(p));
                let (a, b) = choose|a: int, b: int|
                    0 <= a <= b <= c.skip(p).len() && rest == c.skip(p).subrange(a, b);
                assert(rest =~= cl[last].subrange(p + a, p + b));
                assert forall|k: int| 0 <= k < out.len() implies is_fragment_of(#[trigger] out[k], cl) by {
                    if k < kept.len() {
                        assert(out[k] == acc[k]);
                    } else {
                        assert(cl[last].subrange(p + a, p + b) == out[k]);
                    }
                }
            },
        }
    }
}

/// The false-start pass keeps some of the clauses and adds none: at most as
/// many clauses, each one of those it was given.
pub proof fn law_false_starts_keep_clauses(cl: Seq<Seq<char>>)
    ensures
        false_start_fold(cl).len() <= cl.len(),
        forall|k: int| 0 <= k < false_start_fold(cl).len() ==> cl.contains(#[trigger] false_start_fold(cl)[k]),
    decreases cl.len(),
{
    if cl.len() > 0 {
        let prev = cl.drop_last();
        law_false_starts_keep_clauses(prev);
        let acc = false_start_fold(prev);
        let out = false_start_fold(cl);
        assert forall|k: int| 0 <= k < out.len() implies cl.contains(#[trigger] out[k]) by {
            if out[k] == cl.last() {
                assert(cl[cl.len() - 1] == out[k]);
            } else {
                assert(out[k] == acc[k]);
                assert(prev.contains(acc[k]));
                let j = choose|j: int| 0 <= j < prev.len() && prev[j] == acc[k];
                assert(cl[j] == out[k]);
            }
        }
    }
}

// ---------------------------------------------------------------------------
// Filler words, stutters, replacements
// ---------------------------------------------------------------------------

/// The filtered transcription never starts or ends with whitespace.
pub proof fn law_filtered_is_trimmed(text: Seq<char>, lang: Seq<char>, custom: Option<Seq<Seq<char>>>)
    ensures
        is_trimmed(filtered_transcription(text, lang, custom)),
{
    lemma_trim(
        spaces_collapsed(
            stutters_collapsed(
                crate::cleanup::fillers_removed(text, crate::cleanup::filler_list(lang, custom)),
            ),
        ),
    );
}

/// An empty custom filler list removes no words: only stutters and
/// whitespace are cleaned up.
pub proof fn law_empty_filler_list_removes_nothing(text: Seq<char>, lang: Seq<char>)
    ensures
        filtered_transcription(text, lang, Some(Seq::<Seq<char>>::empty())) == trim(
            spaces_collapsed(stutters_collapsed(text)),
        ),
{
}

/// The region part of a language code does not change its filler words:
/// "pt-BR" and "pt_PT" use the filler words of "pt".
pub proof fn law_region_is_ignored(base: Seq<char>, sep: char, region: Seq<char>)
    requires
        sep == '-' || sep == '_',
        forall|i: int| 0 <= i < base.len() ==> #[trigger] base[i] != '-' && base[i] != '_',
    ensures
        base_language(base) == base,
        base_language(base + seq![sep] + region) == base,
        filler_words(base_language(base + seq![sep] + region)) == filler_words(base_language(base)),
{
    let code = base + seq![sep] + region;
    assert forall|i: int| 0 <= i <= base.len() implies language_end(base, i) == base.len() by {
        lemma_language_end_no_sep(base, i);
    }
    assert forall|i: int| 0 <= i <= base.len() implies language_end(code, i) == base.len() by {
        lemma_language_end_before_sep(code, base.len() as int, i);
    }
    assert(base.take(base.len() as int) =~= base);
    assert(code.take(base.len() as int) =~= base);
}

proof fn lemma_language_end_no_sep(s: Seq<char>, i: int)
    requires
        0 <= i <= s.len(),
        forall|j: int| 0 <= j < s.len() ==> #[trigger] s[j] != '-' && s[j] != '_',
    ensures
        language_end(s, i) == s.len(),
    decreases s.len() - i,
{
    if i < s.len() {
        lemma_language_end_no_sep(s, i + 1);
    }
}

proof fn lemma_language_end_before_sep(s: Seq<char>, e: int, i: int)
    requires
        0 <= i <= e < s.len(),
        s[e] == '-' || s[e] == '_',
        forall|j: int| 0 <= j < e ==> #[trigger] s[j] != '-' && s[j] != '_',
    ensures
        language_end(s, i) == e,
    decreases e - i,
{
    if i < e {
        lemma_language_end_before_sep(s, e, i + 1);
    }
}

/// After stutters are collapsed, no three words in a row are one stutter
/// word (a word of at most two letters), case aside.
pub proof fn law_no_stutter_triples_remain(text: Seq<char>)
    ensures
        forall|k: int|
            0 <= k && k + 2 < collapse_from(words(text), 0).len() ==> !stutter_triple(
                #[trigger] collapse_from(words(text), 0)[k],
                collapse_from(words(text), 0)[k + 1],
                collapse_from(words(text), 0)[k + 2],
            ),
{
    lemma_collapse_no_triples(words(text), 0);
}

/// With no replacements the text comes back unchanged.
pub proof fn law_no_replacements_keep_text(text: Seq<char>)
    ensures
        word_replacements_applied(text, Seq::empty()) == text,
{
}

/// With replacements the result never starts or ends with whitespace.
pub proof fn law_replaced_is_trimmed(text: Seq<char>, reps: Seq<(Seq<char>, Seq<char>)>)
    requires
        reps.len() > 0,
    ensures
        is_trimmed(word_replacements_applied(text, reps)),
{
    lemma_trim(spaces_collapsed(crate::replacements::replaced(text, reps)));
}

// ---------------------------------------------------------------------------
// Custom words
// ---------------------------------------------------------------------------

/// The punctuation cut from a word is a prefix and a suffix of it, and holds
/// no alphanumeric character.
pub proof fn law_punctuation_is_prefix_and_suffix(w: Seq<char>)
    ensures
        punctuation_split(w).0.is_prefix_of(w),
        punctuation_split(w).1.is_suffix_of(w),
        forall|i: int|
            0 <= i < punctuation_split(w).0.len() ==> !unicode_alphanumeric(
                #[trigger] punctuation_split(w).0[i],
            ),
        forall|i: int|
            0 <= i < punctuation_split(w).1.len() ==> !unicode_alphanumeric(
                #[trigger] punctuation_split(w).1[i],
            ),
{
    crate::custom_words::lemma_leading_non_alnum(w);
    crate::custom_words::lemma_trailing_non_alnum(w);
    let (prefix, suffix) = punctuation_split(w);
    assert(prefix =~= w.subrange(0, prefix.len() as int));
    assert(suffix =~= w.subrange(w.len() - suffix.len(), w.len() as int));
    assert forall|i: int| 0 <= i < suffix.len() implies !unicode_alphanumeric(#[trigger] suffix[i]) by {
        assert(suffix[i] == w[w.len() - suffix.len() + i]);
    }
}

/// A replacement keeps its own case when the original word starts with a
/// character that is not uppercase.
pub proof fn law_lowercase_original_keeps_replacement(original: Seq<char>, replacement: Seq<char>)
    requires
        original.len() > 0,
        !unicode_is_uppercase(original[0]),
    ensures
        case_preserved(original, replacement) == replacement,
{
}

/// `table` matches no run of words of `ws` from `i` on.
pub open spec fn no_matches_from(ws: Seq<Seq<char>>, table: Seq<Seq<NgramMatch>>, i: int) -> bool {
    forall|j: int, n: int|
        i <= j < ws.len() && 1 <= n <= 3 ==> #[trigger] table_entry(table, j, n) is NoMatch
}

proof fn lemma_no_matches_tokens(
    ws: Seq<Seq<char>>,
    custom: Seq<Seq<char>>,
    table: Seq<Seq<NgramMatch>>,
    i: int,
)
    requires
        0 <= i <= ws.len(),
        no_matches_from(ws, table, i),
    ensures
        custom_tokens(ws, custom, table, i) == Some(ws.skip(i)),
    decreases ws.len() - i,
{
    if i < ws.len() {
        assert(table_entry(table, i, 1) is NoMatch);
        assert(table_entry(table, i, 2) is NoMatch);
        assert(table_entry(table, i, 3) is NoMatch);
        lemma_no_matches_tokens(ws, custom, table, i + 1);
        assert(seq![ws[i]] + ws.skip(i + 1) =~= ws.skip(i));
    } else {
        assert(ws.skip(i) =~= Seq::<Seq<char>>::empty());
    }
}

/// Given custom words, where no run of words matches one of them, the text
/// comes back as its words joined by single spaces.
pub proof fn law_no_matches_rejoins_words(
    text: Seq<char>,
    custom: Seq<Seq<char>>,
    table: Seq<Seq<NgramMatch>>,
)
    requires
        custom.len() > 0,
        no_matches_from(words(text), table, 0),
    ensures
        custom_words_applied(text, custom, table) == Some(join(words(text), " "@)),
{
    lemma_no_matches_tokens(words(text), custom, table, 0);
    assert(words(text).skip(0) =~= words(text));
}

// ---------------------------------------------------------------------------
// Clause-level steps
// ---------------------------------------------------------------------------

/// Adding a clause to the marker pass removes at most one clause kept so
/// far, the last one: every clause kept before it stays, in order, and at
/// most one new clause is added.
pub proof fn law_marker_clause_drops_at_most_one(
    cl: Seq<Seq<char>>,
    c: Seq<char>,
    markers: Seq<Seq<char>>,
)
    ensures
        ({
            let prev = marker_fold(cl, markers);
            let next = marker_fold(cl.push(c), markers);
            &&& prev.len() <= next.len() + 1
            &&& next.len() <= prev.len() + 1
            &&& prev.len() > 0 ==> next.take(prev.len() - 1) == prev.take(prev.len() - 1)
        }),
{
    assert(cl.push(c).drop_last() =~= cl);
    let prev = marker_fold(cl, markers);
    if prev.len() > 0 {
        assert(prev.drop_last().push(c).take(prev.len() - 1) =~= prev.take(prev.len() - 1));
        assert(prev.push(c).take(prev.len() - 1) =~= prev.take(prev.len() - 1));
        assert(prev.drop_last() =~= prev.take(prev.len() - 1));
        assert forall|t: Seq<char>| #![trigger prev.drop_last().push(t)]
            prev.drop_last().push(t).take(prev.len() - 1) == prev.take(prev.len() - 1) by {
            assert(prev.drop_last().push(t).take(prev.len() - 1) =~= prev.take(prev.len() - 1));
        }
        assert forall|t: Seq<char>| #![trigger prev.push(t)]
            prev.push(t).take(prev.len() - 1) == prev.take(prev.len() - 1) by {
            assert(prev.push(t).take(prev.len() - 1) =~= prev.take(prev.len() - 1));
        }
    }
}

/// A clause that is nothing but a correction marker removes the clause kept
/// right before it and nothing else.
pub proof fn law_bare_marker_removes_only_previous_clause(
    cl: Seq<Seq<char>>,
    c: Seq<char>,
    markers: Seq<Seq<char>>,
    j: int,
)
    requires
        crate::corrections::first_marker_from(c, markers, 0) == Some(j),
        trim(c.skip(crate::corrections::marker_at(c, markers[j], 0)->Some_0)).len() == 0,
    ensures
        marker_fold(cl, markers).len() > 0 ==> marker_fold(cl.push(c), markers) == marker_fold(
            cl,
            markers,
        ).drop_last(),
        marker_fold(cl, markers).len() == 0 ==> marker_fold(cl.push(c), markers).len() == 0,
{
    assert(cl.push(c).drop_last() =~= cl);
}

/// A clause that starts with no correction marker is kept as it is, after
/// all the clauses kept before it.
pub proof fn law_clause_without_marker_is_kept(cl: Seq<Seq<char>>, c: Seq<char>, markers: Seq<Seq<char>>)
    requires
        crate::corrections::first_marker_from(c, markers, 0) is None,
    ensures
        marker_fold(cl.push(c), markers) == marker_fold(cl, markers).push(c),
{
    assert(cl.push(c).drop_last() =~= cl);
}

/// A clause is never replaced by a following clause with the same number of
/// words or fewer: the false-start pass then keeps both.
pub proof fn law_false_start_needs_more_words(cl: Seq<Seq<char>>, c: Seq<char>)
    requires
        false_start_fold(cl).len() > 0,
        words(false_start_fold(cl).last()).len() >= words(c).len(),
    ensures
        false_start_fold(cl.push(c)) == false_start_fold(cl).push(c),
{
    assert(cl.push(c).drop_last() =~= cl);
}

/// A false start is replaced only by a clause that opens with the same word
/// (case aside) and has more words; otherwise the new clause is added.
pub proof fn law_false_start_replacement(cl: Seq<Seq<char>>, c: Seq<char>)
    ensures
        ({
            let prev = false_start_fold(cl);
            let next = false_start_fold(cl.push(c));
            ||| next == prev.push(c)
            ||| (prev.len() > 0 && next == prev.drop_last().push(c) && words(prev.last()).len()
                < words(c).len() && words(prev.last()).len() > 0 && unicode_lowercase(
                words(prev.last())[0],
            ) == unicode_lowercase(words(c)[0]))
        }),
{
    assert(cl.push(c).drop_last() =~= cl);
}

// ---------------------------------------------------------------------------
// Custom-word candidates
// ---------------------------------------------------------------------------

/// Byte lengths `a` and `b` are close enough to compare: they differ by at
/// most two bytes, or by at most a quarter of the longer one.
pub open spec fn lengths_comparable(a: int, b: int) -> bool {
    ||| -2 <= a - b <= 2
    ||| (a >= b && 4 * (a - b) <= a)
    ||| (b >= a && 4 * (b - a) <= b)
}

proof fn lemma_scan_candidates(key: Seq<char>, forms: Seq<Seq<char>>)
    requires
        forms.len() <= usize::MAX,
    ensures
        candidate_scan(key, forms) matches Some(v) ==> forall|i: int|
            0 <= i < v.len() ==> {
                let c = #[trigger] v[i];
                &&& c.index < forms.len()
                &&& lengths_comparable(byte_len(key) as int, byte_len(forms[c.index as int]) as int)
            },
    decreases forms.len(),
{
    if forms.len() > 0 {
        let init = forms.drop_last();
        lemma_scan_candidates(key, init);
        if let Some(acc) = candidate_scan(key, init) {
            if let Some(v) = candidate_scan(key, forms) {
                assert forall|i: int| 0 <= i < v.len() implies {
                    let c = #[trigger] v[i];
                    &&& c.index < forms.len()
                    &&& lengths_comparable(byte_len(key) as int, byte_len(forms[c.index as int]) as int)
                } by {
                    if i < acc.len() {
                        assert(v[i] == acc[i]);
                        assert(forms[acc[i].index as int] == init[acc[i].index as int]);
                    } else {
                        let w = forms.last();
                        let a = byte_len(key) as int;
                        let b = byte_len(w) as int;
                        assert(crate::custom_words::within_length_tolerance(a, b));
                        assert(v[i].index == (forms.len() - 1) as usize);
                        assert(forms[forms.len() - 1] == w);
                    }
                }
            }
        }
    }
}

proof fn lemma_scan_complete(key: Seq<char>, forms: Seq<Seq<char>>)
    requires
        forms.len() <= usize::MAX,
    ensures
        candidate_scan(key, forms) matches Some(v) ==> {
            &&& forall|i: int, j: int|
                0 <= i < j < v.len() ==> (#[trigger] v[i]).index < (#[trigger] v[j]).index
            &&& forall|f: int|
                0 <= f < forms.len() && lengths_comparable(
                    byte_len(key) as int,
                    byte_len(#[trigger] forms[f]) as int,
                ) ==> exists|i: int| 0 <= i < v.len() && (#[trigger] v[i]).index == f
        },
    decreases forms.len(),
{
    if forms.len() > 0 {
        let init = forms.drop_last();
        lemma_scan_complete(key, init);
        lemma_scan_candidates(key, init);
        if let Some(acc) = candidate_scan(key, init) {
            if let Some(v) = candidate_scan(key, forms) {
                let last = forms.len() - 1;
                let w = forms.last();
                let within = crate::custom_words::within_length_tolerance(
                    byte_len(key) as int,
                    byte_len(w) as int,
                );
                if within {
                    assert(v == acc.push(v[acc.len() as int]));
                    assert(v[acc.len() as int].index == last as usize);
                } else {
                    assert(v == acc);
                }
                assert forall|i: int, j: int| 0 <= i < j < v.len() implies (#[trigger] v[i]).index
                    < (#[trigger] v[j]).index by {
                    if j < acc.len() {
                        assert(v[i] == acc[i] && v[j] == acc[j]);
                    } else {
                        assert(v[i] == acc[i]);
                        assert(acc[i].index < init.len());
                    }
                }
                assert forall|f: int|
                    0 <= f < forms.len() && lengths_comparable(
                        byte_len(key) as int,
                        byte_len(#[trigger] forms[f]) as int,
                    ) implies exists|i: int| 0 <= i < v.len() && (#[trigger] v[i]).index == f by {
                    if f < last {
                        assert(forms[f] == init[f]);
                        let i = choose|i: int| 0 <= i < acc.len() && (#[trigger] acc[i]).index == f;
                        assert(v[i] == acc[i]);
                    } else {
                        assert(forms[f] == w);
                        assert(v[acc.len() as int].index == f);
                    }
                }
            }
        }
    }
}

/// The candidates come in the order of the forms, and every form whose byte
/// length is within the tolerance is among them.
pub proof fn law_candidates_cover_comparable_forms(key: Seq<char>, forms: Seq<Seq<char>>)
    requires
        forms.len() <= usize::MAX,
        key.len() > 0,
        byte_len(key) <= 50,
    ensures
        match_candidates_for(key, forms) matches Some(v) ==> {
            &&& forall|i: int, j: int|
                0 <= i < j < v.len() ==> (#[trigger] v[i]).index < (#[trigger] v[j]).index
            &&& forall|f: int|
                0 <= f < forms.len() && lengths_comparable(
                    byte_len(key) as int,
                    byte_len(#[trigger] forms[f]) as int,
                ) ==> exists|i: int| 0 <= i < v.len() && (#[trigger] v[i]).index == f
        },
{
    lemma_scan_complete(key, forms);
}

/// An empty key, or one longer than fifty bytes, is compared with nothing.
pub proof fn law_unusable_key_has_no_candidates(key: Seq<char>, forms: Seq<Seq<char>>)
    requires
        key.len() == 0 || byte_len(key) > 50,
    ensures
        match_candidates_for(key, forms) == Some(Seq::<crate::custom_words::MatchCandidate>::empty()),
{
}

/// Every candidate a key is compared with names one of the forms whose byte
/// length is within the tolerance of the key's: at most two bytes apart, or
/// at most a quarter of the longer length apart.
pub proof fn law_candidates_are_within_length_tolerance(key: Seq<char>, forms: Seq<Seq<char>>)
    requires
        forms.len() <= usize::MAX,
    ensures
        match_candidates_for(key, forms) matches Some(v) ==> forall|i: int|
            0 <= i < v.len() ==> {
                let c = #[trigger] v[i];
                &&& c.index < forms.len()
                &&& lengths_comparable(byte_len(key) as int, byte_len(forms[c.index as int]) as int)
            },
{
    lemma_scan_candidates(key, forms);
}

} // verus!
