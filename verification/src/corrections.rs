//! Collapsing spoken self-corrections ("I mean", "scratch that", restarted
//! clauses) in transcribed text.
use vstd::prelude::*;

use crate::pattern::{compile, find_spans, lemma_leading_white_space, leading_white_space};
use crate::text::{
    byte_len, byte_length, byte_to_char_index, char_index_of_byte, chars_eq, copy_chars, join, join_chars,
    lemma_byte_len_take_mono, lemma_char_index_of_byte, lemma_chars_deep_view, pop_chars,
    push_chars, slice_chars, spans_well_formed, split_words, string_from, trim, trim_bounds,
    trimmed, words,
};
use crate::unicode::{
    char_to_lowercase, is_alphanumeric, lowercase_chars, to_chars, unicode_alphanumeric,
    unicode_char_lowercase, unicode_lowercase,
};

verus! {

// ---------------------------------------------------------------------------
// Clauses
// ---------------------------------------------------------------------------

/// The boundary between clauses: a comma, semicolon, em dash, double dash,
/// two or more dots, or an ellipsis, with the whitespace around it.
pub open spec fn clause_boundary_pattern() -> Seq<char> {
    "(?:\\s*[,;\\u{2014}]\\s*|\\s*--\\s*|\\s*\\.{2,}\\s*|\\s*\\u{2026}\\s*)"@
}

fn clause_boundary() -> (r: &'static str)
    ensures
        r@ == clause_boundary_pattern(),
{
    "(?:\\s*[,;\\u{2014}]\\s*|\\s*--\\s*|\\s*\\.{2,}\\s*|\\s*\\u{2026}\\s*)"
}

/// A character that is a clause boundary on its own: comma, semicolon, em
/// dash or ellipsis.
pub open spec fn is_boundary_mark(c: char) -> bool {
    c == ',' || c == ';' || c == '\u{2014}' || c == '\u{2026}'
}

/// How many dots `s` starts with.
pub open spec fn leading_dots(s: Seq<char>) -> nat
    decreases s.len(),
{
    if s.len() > 0 && s[0] == '.' {
        1 + leading_dots(s.drop_first())
    } else {
        0
    }
}

pub proof fn lemma_leading_dots(s: Seq<char>)
    ensures
        leading_dots(s) <= s.len(),
    decreases s.len(),
{
    if s.len() > 0 && s[0] == '.' {
        lemma_leading_dots(s.drop_first());
    }
}

/// Where the punctuation of a boundary at position `j` of `s` ends: one
/// boundary mark, a double dash, or a run of two or more dots (all of it).
pub open spec fn boundary_mark_end(s: Seq<char>, j: int) -> Option<int> {
    if 0 <= j < s.len() && is_boundary_mark(s[j]) {
        Some(j + 1)
    } else if 0 <= j && j + 1 < s.len() && s[j] == '-' && s[j + 1] == '-' {
        Some(j + 2)
    } else if 0 <= j && j + 1 < s.len() && s[j] == '.' && s[j + 1] == '.' {
        Some(j + leading_dots(s.skip(j)))
    } else {
        None
    }
}

/// Where a clause boundary that starts at position `i` of `s` ends: the
/// whitespace from `i` on, the punctuation, and all whitespace after it.
pub open spec fn boundary_at(s: Seq<char>, i: int) -> Option<int> {
    if 0 <= i <= s.len() {
        match boundary_mark_end(s, i + leading_white_space(s.skip(i))) {
            Some(k) => Some(k + leading_white_space(s.skip(k))),
            None => None,
        }
    } else {
        None
    }
}

pub proof fn lemma_boundary_at(s: Seq<char>, i: int)
    ensures
        boundary_at(s, i) matches Some(q) ==> 0 <= i < q <= s.len(),
{
    if 0 <= i <= s.len() {
        lemma_leading_white_space(s.skip(i));
        let j = i + leading_white_space(s.skip(i));
        if let Some(k) = boundary_mark_end(s, j) {
            if 0 <= j && j + 1 < s.len() && s[j] == '.' && s[j + 1] == '.' {
                lemma_leading_dots(s.skip(j));
                assert(s.skip(j)[0] == '.' && s.skip(j).drop_first()[0] == '.');
            }
            lemma_leading_white_space(s.skip(k));
        }
    }
}

/// The clause boundaries of `s` from position `i` on, as `regex` finds the
/// boundary pattern: the leftmost one first, then on from where it ends.
pub open spec fn boundaries_from(s: Seq<char>, i: int) -> Seq<(int, int)>
    decreases s.len() - i,
{
    if i < 0 || i >= s.len() {
        seq![]
    } else {
        proof {
            lemma_boundary_at(s, i);
        }
        match boundary_at(s, i) {
            Some(q) => seq![(i, q)] + boundaries_from(s, q),
            None => boundaries_from(s, i + 1),
        }
    }
}

/// The clause boundaries of `text`: start and end character positions.
pub open spec fn boundaries(text: Seq<char>) -> Seq<(int, int)> {
    boundaries_from(text, 0)
}

/// The byte spans `spans` are those of the clause boundaries of `s`, one for
/// one.
pub open spec fn spans_mark_boundaries(s: Seq<char>, spans: Seq<(usize, usize)>) -> bool {
    &&& spans.len() == boundaries(s).len()
    &&& forall|k: int|
        0 <= k < spans.len() ==> char_index_of_byte(s, #[trigger] spans[k].0 as int) == Some(
            boundaries(s)[k].0,
        ) && char_index_of_byte(s, spans[k].1 as int) == Some(boundaries(s)[k].1)
}

/// Character position of byte offset `b` of `text`.
pub open spec fn char_pos(text: Seq<char>, b: usize) -> int {
    char_index_of_byte(text, b as int).unwrap()
}

/// The stretches of `text` between consecutive boundary spans.
pub open spec fn pieces(text: Seq<char>, spans: Seq<(usize, usize)>) -> Seq<Seq<char>> {
    Seq::new(
        spans.len() + 1,
        |k: int|
            text.subrange(
                if k == 0 {
                    0
                } else {
                    char_pos(text, spans[k - 1].1)
                },
                if k == spans.len() {
                    text.len() as int
                } else {
                    char_pos(text, spans[k].0)
                },
            ),
    )
}

/// The trimmed pieces that are not empty.
pub open spec fn nonblank_trimmed(ps: Seq<Seq<char>>) -> Seq<Seq<char>>
    decreases ps.len(),
{
    if ps.len() == 0 {
        seq![]
    } else {
        let acc = nonblank_trimmed(ps.drop_last());
        let t = trim(ps.last());
        if t.len() > 0 {
            acc.push(t)
        } else {
            acc
        }
    }
}

/// The clauses of `text`, given the byte spans of its boundaries.
pub open spec fn clauses_with(text: Seq<char>, spans: Seq<(usize, usize)>) -> Seq<Seq<char>> {
    nonblank_trimmed(pieces(text, spans))
}

/// The stretches of `text` between consecutive boundaries, given by
/// character positions.
pub open spec fn char_pieces(text: Seq<char>, bs: Seq<(int, int)>) -> Seq<Seq<char>> {
    Seq::new(
        bs.len() + 1,
        |k: int|
            text.subrange(
                if k == 0 {
                    0
                } else {
                    bs[k - 1].1
                },
                if k == bs.len() {
                    text.len() as int
                } else {
                    bs[k].0
                },
            ),
    )
}

/// The clauses of `text`: the trimmed, non-blank stretches between its
/// clause boundaries.
pub open spec fn clauses(text: Seq<char>) -> Seq<Seq<char>> {
    nonblank_trimmed(char_pieces(text, boundaries(text)))
}

proof fn lemma_char_pos_mono(text: Seq<char>, b1: usize, b2: usize)
    requires
        char_index_of_byte(text, b1 as int) is Some,
        char_index_of_byte(text, b2 as int) is Some,
        b1 <= b2,
    ensures
        0 <= char_pos(text, b1) <= char_pos(text, b2) <= text.len(),
{
    lemma_char_index_of_byte(text, b1 as int);
    lemma_char_index_of_byte(text, b2 as int);
    let k1 = char_pos(text, b1);
    let k2 = char_pos(text, b2);
    if k2 < k1 {
        lemma_byte_len_take_mono(text, k2, k1);
    }
}

/// Splits `text` into its clauses, given the byte spans of its boundaries as
/// `regex` reports them.
pub fn clauses_from_spans(text: &[char], spans: &Vec<(usize, usize)>) -> (r: Vec<Vec<char>>)
    requires
        spans_well_formed(text@, spans@),
    ensures
        r.deep_view() == clauses_with(text@, spans@),
{
    let ghost ps = pieces(text@, spans@);
    let mut r: Vec<Vec<char>> = Vec::new();
    let mut last: usize = 0;
    let n = spans.len();
    for k in 0..n
        invariant
            n == spans@.len(),
            spans_well_formed(text@, spans@),
            ps == pieces(text@, spans@),
            last <= text@.len(),
            last == (if k == 0 {
                0
            } else {
                char_pos(text@, spans@[k - 1].1)
            }),
            r.deep_view() == nonblank_trimmed(ps.take(k as int)),
    {
        let (s, e) = spans[k];
        let end: usize;
        match byte_to_char_index(text, s as u128) {
            Some(i) => {
                end = i;
            },
            None => {
                proof {
                    assert(false);
                }
                end = last;
            },
        }
        proof {
            if k > 0 {
                lemma_char_pos_mono(text@, spans@[k - 1].1, s);
            } else {
                lemma_char_index_of_byte(text@, s as int);
            }
        }
        assert(ps[k as int] == text@.subrange(last as int, end as int));
        assert(ps.take(k + 1).drop_last() =~= ps.take(k as int));
        push_trimmed(&mut r, text, last, end);
        match byte_to_char_index(text, e as u128) {
            Some(i) => {
                last = i;
            },
            None => {
                proof {
                    assert(false);
                }
            },
        }
        proof {
            lemma_char_index_of_byte(text@, e as int);
        }
    }
    assert(ps[n as int] == text@.subrange(last as int, text@.len() as int));
    assert(ps.take(n + 1).drop_last() =~= ps.take(n as int));
    push_trimmed(&mut r, text, last, text.len());
    assert(ps.take(n + 1) =~= ps);
    r
}

/// Appends `text[from..to]` trimmed, unless that is empty.
fn push_trimmed(r: &mut Vec<Vec<char>>, text: &[char], from: usize, to: usize)
    requires
        from <= to <= text@.len(),
    ensures
        ({
            let t = trim(text@.subrange(from as int, to as int));
            final(r).deep_view() == if t.len() > 0 {
                old(r).deep_view().push(t)
            } else {
                old(r).deep_view()
            }
        }),
{
    let piece = slice_chars(text, from, to);
    let (a, b) = trim_bounds(piece.as_slice());
    if a < b {
        let t = slice_chars(piece.as_slice(), a, b);
        let ghost before = r.deep_view();
        proof {
            crate::text::lemma_chars_deep_view(&t);
        }
        let ghost tv = t@;
        r.push(t);
        assert(r.deep_view() =~= before.push(tv));
    }
}

/// The clauses of `text`, split on the boundaries that `regex` finds.
pub fn split_into_clauses(text: &[char]) -> (r: Vec<Vec<char>>)
    ensures
        r.deep_view() == clauses(text@),
{
    let s = string_from(text);
    match compile(clause_boundary()) {
        Ok(p) => {
            let spans = find_spans(&p, s.as_str());
            let r = clauses_from_spans(text, &spans);
            let ghost bs = boundaries(text@);
            assert(spans_mark_boundaries(text@, spans@));
            assert forall|k: int| 0 <= k < spans@.len() implies char_pos(text@, spans@[k].0) == bs[k].0
                && char_pos(text@, spans@[k].1) == bs[k].1 by {
                assert(char_index_of_byte(text@, spans@[k].0 as int) == Some(bs[k].0));
            }
            assert(pieces(text@, spans@) =~= char_pieces(text@, bs));
            r
        },
        // the pattern is always accepted
        Err(_) => Vec::new(),
    }
}

// ---------------------------------------------------------------------------
// Pass 1: correction markers
// ---------------------------------------------------------------------------

/// The English phrases that announce a correction.
pub open spec fn default_correction_markers() -> Seq<Seq<char>> {
    seq![
        "i mean"@,
        "or rather"@,
        "well actually"@,
        "no wait"@,
        "let me rephrase"@,
        "what i meant was"@,
        "scratch that"@,
        "not that"@,
        "correction"@,
    ]
}

/// The default correction markers for English. These phrases signal that the
/// speaker is correcting what they just said.
pub fn get_default_correction_markers() -> (r: Vec<&'static str>)
    ensures
        r.deep_view() == default_correction_markers(),
{
    let r = vec![
        "i mean",
        "or rather",
        "well actually",
        "no wait",
        "let me rephrase",
        "what i meant was",
        "scratch that",
        "not that",
        "correction",
    ];
    assert(r.deep_view() =~= default_correction_markers());
    r
}

/// `o` with `d` added to the position it holds.
pub open spec fn shifted(o: Option<int>, d: int) -> Option<int> {
    match o {
        Some(q) => Some(q + d),
        None => None,
    }
}

/// How many leading characters of `s` spell `m` case aside: the lowercase
/// forms of those characters, one after another, are exactly `m`.
pub open spec fn lowered_prefix_len(s: Seq<char>, m: Seq<char>) -> Option<int>
    decreases s.len(),
{
    if m.len() == 0 {
        Some(0)
    } else if s.len() == 0 {
        None
    } else {
        let l = unicode_char_lowercase(s[0]);
        if l.is_prefix_of(m) {
            shifted(lowered_prefix_len(s.drop_first(), m.skip(l.len() as int)), 1)
        } else {
            None
        }
    }
}

/// Position `p` of `s` starts a word: it is the start or follows a
/// character that is not alphanumeric.
pub open spec fn starts_word(s: Seq<char>, p: int) -> bool {
    p == 0 || !unicode_alphanumeric(s[p - 1])
}

/// Position `q` of `s` ends a word: it is the end or precedes a character
/// that is not alphanumeric.
pub open spec fn ends_word(s: Seq<char>, q: int) -> bool {
    q == s.len() || !unicode_alphanumeric(s[q])
}

/// Where the marker `m` found as whole words at position `p` of `s` ends. An
/// empty marker is found at every position, as an empty string is.
pub open spec fn marker_at(s: Seq<char>, m: Seq<char>, p: int) -> Option<int> {
    if m.len() == 0 {
        if 0 <= p <= s.len() {
            Some(p)
        } else {
            None
        }
    } else if 0 <= p <= s.len() && starts_word(s, p) {
        match lowered_prefix_len(s.skip(p), m) {
            Some(q) => if ends_word(s, p + q) {
                Some(p + q)
            } else {
                None
            },
            None => None,
        }
    } else {
        None
    }
}

pub proof fn lemma_lowered_prefix_len(s: Seq<char>, m: Seq<char>)
    ensures
        lowered_prefix_len(s, m) matches Some(q) ==> 0 <= q <= s.len(),
    decreases s.len(),
{
    if m.len() > 0 && s.len() > 0 {
        let l = unicode_char_lowercase(s[0]);
        lemma_lowered_prefix_len(s.drop_first(), m.skip(l.len() as int));
    }
}

pub proof fn lemma_marker_at(s: Seq<char>, m: Seq<char>, p: int)
    ensures
        marker_at(s, m, p) matches Some(q) ==> 0 <= p <= q <= s.len(),
{
    if 0 <= p <= s.len() {
        lemma_lowered_prefix_len(s.skip(p), m);
    }
}

pub proof fn lemma_first_marker_from(clause: Seq<char>, markers: Seq<Seq<char>>, j: int)
    requires
        0 <= j,
    ensures
        first_marker_from(clause, markers, j) matches Some(k) ==> j <= k < markers.len()
            && marker_at(clause, markers[k], 0) is Some,
    decreases markers.len() - j,
{
    if j < markers.len() && !(marker_at(clause, markers[j], 0) is Some) {
        lemma_first_marker_from(clause, markers, j + 1);
    }
}

/// The index of the first marker, from index `j` on, that `clause` starts
/// with as whole words, case aside.
pub open spec fn first_marker_from(clause: Seq<char>, markers: Seq<Seq<char>>, j: int) -> Option<int>
    decreases markers.len() - j,
{
    if j < 0 || j >= markers.len() {
        None
    } else if marker_at(clause, markers[j], 0) is Some {
        Some(j)
    } else {
        first_marker_from(clause, markers, j + 1)
    }
}

/// One clause of the marker pass: a clause that starts with a marker drops
/// the clause kept before it and keeps only what follows the marker, trimmed,
/// if anything does.
pub open spec fn marker_step(acc: Seq<Seq<char>>, clause: Seq<char>, markers: Seq<Seq<char>>) -> Seq<
    Seq<char>,
> {
    match first_marker_from(clause, markers, 0) {
        None => acc.push(clause),
        Some(j) => {
            let kept = if acc.len() > 0 {
                acc.drop_last()
            } else {
                acc
            };
            let rest = trim(clause.skip(marker_at(clause, markers[j], 0)->Some_0));
            if rest.len() > 0 {
                kept.push(rest)
            } else {
                kept
            }
        },
    }
}

/// The marker pass over a list of clauses.
pub open spec fn marker_fold(clauses: Seq<Seq<char>>, markers: Seq<Seq<char>>) -> Seq<Seq<char>>
    decreases clauses.len(),
{
    if clauses.len() == 0 {
        seq![]
    } else {
        marker_step(marker_fold(clauses.drop_last(), markers), clauses.last(), markers)
    }
}

/// Where `m` should be inserted into `sorted` (longest first): after every
/// marker at least as long as it, counted in UTF-8 bytes.
pub open spec fn insert_pos(sorted: Seq<Seq<char>>, m: Seq<char>) -> int
    decreases sorted.len(),
{
    if sorted.len() == 0 {
        0
    } else if byte_len(sorted.last()) >= byte_len(m) {
        sorted.len() as int
    } else {
        insert_pos(sorted.drop_last(), m)
    }
}

/// `m` put into `sorted` after every marker at least as long as it.
pub open spec fn insert_by_len(sorted: Seq<Seq<char>>, m: Seq<char>) -> Seq<Seq<char>> {
    let p = insert_pos(sorted, m);
    sorted.take(p).push(m) + sorted.skip(p)
}

/// `markers` stably sorted by UTF-8 length, longest first.
pub open spec fn sort_by_len_desc(markers: Seq<Seq<char>>) -> Seq<Seq<char>>
    decreases markers.len(),
{
    if markers.len() == 0 {
        seq![]
    } else {
        insert_by_len(sort_by_len_desc(markers.drop_last()), markers.last())
    }
}

fn sort_markers(markers: &Vec<Vec<char>>) -> (r: Vec<Vec<char>>)
    ensures
        r.deep_view() == sort_by_len_desc(markers.deep_view()),
{
    let ghost ms = markers.deep_view();
    let mut sorted: Vec<Vec<char>> = Vec::new();
    for i in 0..markers.len()
        invariant
            ms == markers.deep_view(),
            sorted.deep_view() == sort_by_len_desc(ms.take(i as int)),
    {
        assert(ms.take(i + 1).drop_last() =~= ms.take(i as int));
        let m = copy_chars(markers[i].as_slice());
        proof {
            lemma_chars_deep_view(&markers[i as int]);
        }
        let ghost sv = sorted.deep_view();
        let m_len = byte_length(m.as_slice());
        let mut p = sorted.len();
        assert(sv.take(p as int) =~= sv);
        while p > 0 && byte_length(sorted[p - 1].as_slice()) < m_len
            invariant
                sv == sorted.deep_view(),
                p <= sv.len(),
                m_len == byte_len(m@),
                insert_pos(sv, m@) == insert_pos(sv.take(p as int), m@),
            decreases p,
        {
            proof {
                lemma_chars_deep_view(&sorted[p - 1]);
            }
            assert(sv.take(p as int).drop_last() =~= sv.take(p - 1));
            p = p - 1;
        }
        proof {
            if p > 0 {
                lemma_chars_deep_view(&sorted[p - 1]);
            }
            assert(sv.take(p as int).take(p as int) =~= sv.take(p as int));
        }
        assert(insert_pos(sv, m@) == p);
        proof {
            lemma_chars_deep_view(&m);
        }
        let ghost mv = m@;
        sorted.insert(p, m);
        assert(sorted.deep_view() =~= sv.take(p as int).push(mv) + sv.skip(p as int));
    }
    assert(ms.take(markers.len() as int) =~= ms);
    sorted
}

/// The first occurrence, from position `p` on, of the marker `m` in `s` as
/// whole words: its start and end.
pub open spec fn marker_occurrence_from(s: Seq<char>, m: Seq<char>, p: int) -> Option<(int, int)>
    decreases s.len() + 1 - p,
{
    if p < 0 || p > s.len() {
        None
    } else {
        match marker_at(s, m, p) {
            Some(q) => Some((p, q)),
            None => marker_occurrence_from(s, m, p + 1),
        }
    }
}

/// The marker pass when the text has no clause boundaries: the markers are
/// tried longest first; the first marker found as whole words after the very
/// start of the text keeps only what follows it, if anything does.
pub open spec fn fallback_scan(text: Seq<char>, markers: Seq<Seq<char>>) -> Seq<char>
    decreases markers.len(),
{
    if markers.len() == 0 {
        text
    } else {
        let rest = fallback_scan(text, markers.drop_first());
        match marker_occurrence_from(text, markers[0], 0) {
            None => rest,
            Some((p, q)) => if p == 0 {
                rest
            } else {
                let after = trim(text.skip(q));
                if after.len() > 0 {
                    after
                } else {
                    rest
                }
            },
        }
    }
}

/// The first pass: correction markers. With clause boundaries the text is
/// handled clause by clause; without, the markers are searched in the text.
pub open spec fn marker_pass(text: Seq<char>, markers: Seq<Seq<char>>) -> Seq<char> {
    if markers.len() == 0 {
        text
    } else {
        let cl = clauses(text);
        if cl.len() >= 2 {
            trim(join(marker_fold(cl, markers), ", "@))
        } else {
            fallback_scan(text, sort_by_len_desc(markers))
        }
    }
}

/// Whether the characters of `l` are those of `m` from position `k` on.
fn matches_at(m: &[char], k: usize, l: &[char]) -> (r: bool)
    requires
        k <= m@.len(),
    ensures
        r == l@.is_prefix_of(m@.skip(k as int)),
{
    let ml = m.len();
    if l.len() > ml - k {
        return false;
    }
    for t in 0..l.len()
        invariant
            ml == m@.len(),
            k + l@.len() <= m@.len(),
            forall|u: int| 0 <= u < t ==> l@[u] == m@[k + u],
    {
        if l[t] != m[k + t] {
            return false;
        }
    }
    assert(l@ =~= m@.skip(k as int).subrange(0, l@.len() as int));
    true
}

/// How many characters of `s` from `from` on spell `m` case aside.
pub fn lowered_prefix(s: &[char], from: usize, m: &[char]) -> (r: Option<usize>)
    requires
        from <= s@.len(),
    ensures
        match r {
            Some(q) => lowered_prefix_len(s@.skip(from as int), m@) == Some(q as int) && from + q
                <= s@.len(),
            None => lowered_prefix_len(s@.skip(from as int), m@) is None,
        },
{
    let n = s.len();
    let mut i = from;
    let mut k: usize = 0;
    assert(m@.skip(0) =~= m@);
    while k < m.len()
        invariant
            from <= i <= n == s@.len(),
            k <= m@.len(),
            lowered_prefix_len(s@.skip(from as int), m@) == shifted(
                lowered_prefix_len(s@.skip(i as int), m@.skip(k as int)),
                i - from,
            ),
        decreases m@.len() - k, n - i,
    {
        if i == n {
            return None;
        }
        let l = char_to_lowercase(s[i]);
        assert(s@.skip(i as int)[0] == s@[i as int]);
        if !matches_at(m, k, l.as_slice()) {
            return None;
        }
        assert(s@.skip(i as int).drop_first() =~= s@.skip(i + 1));
        assert(m@.skip(k as int).skip(l@.len() as int) =~= m@.skip(k + l@.len()));
        k = k + l.len();
        i = i + 1;
    }
    Some(i - from)
}

/// Where the marker `m` found as whole words at position `p` of `s` ends.
pub fn marker_end_at(s: &[char], m: &[char], p: usize) -> (r: Option<usize>)
    requires
        p <= s@.len(),
    ensures
        match r {
            Some(q) => marker_at(s@, m@, p as int) == Some(q as int) && q <= s@.len(),
            None => marker_at(s@, m@, p as int) is None,
        },
{
    if m.len() == 0 {
        return Some(p);
    }
    if p > 0 && is_alphanumeric(s[p - 1]) {
        return None;
    }
    match lowered_prefix(s, p, m) {
        None => None,
        Some(q) => {
            let e = p + q;
            if e < s.len() && is_alphanumeric(s[e]) {
                None
            } else {
                Some(e)
            }
        },
    }
}

/// The first marker the clause starts with, and where it ends.
fn first_marker(clause: &[char], markers: &Vec<Vec<char>>) -> (r: Option<(usize, usize)>)
    ensures
        match r {
            Some((j, q)) => first_marker_from(clause@, markers.deep_view(), 0) == Some(j as int)
                && j < markers.deep_view().len()
                && marker_at(clause@, markers.deep_view()[j as int], 0) == Some(q as int) && q
                <= clause@.len(),
            None => first_marker_from(clause@, markers.deep_view(), 0) is None,
        },
{
    let ghost ms = markers.deep_view();
    for j in 0..markers.len()
        invariant
            ms == markers.deep_view(),
            first_marker_from(clause@, ms, 0) == first_marker_from(clause@, ms, j as int),
    {
        proof {
            lemma_chars_deep_view(&markers[j as int]);
        }
        match marker_end_at(clause, markers[j].as_slice(), 0) {
            Some(q) => {
                return Some((j, q));
            },
            None => {},
        }
    }
    None
}

fn marker_clauses(clauses: &Vec<Vec<char>>, markers: &Vec<Vec<char>>) -> (r: Vec<Vec<char>>)
    ensures
        r.deep_view() == marker_fold(clauses.deep_view(), markers.deep_view()),
{
    let ghost cl = clauses.deep_view();
    let ghost ms = markers.deep_view();
    let mut acc: Vec<Vec<char>> = Vec::new();
    for i in 0..clauses.len()
        invariant
            cl == clauses.deep_view(),
            ms == markers.deep_view(),
            marker_fold(cl.take(i as int), ms) == acc.deep_view(),
    {
        assert(cl.take(i + 1).drop_last() =~= cl.take(i as int));
        let clause = clauses[i].as_slice();
        proof {
            lemma_chars_deep_view(&clauses[i as int]);
        }
        match first_marker(clause, markers) {
            None => {
                push_chars(&mut acc, copy_chars(clause));
            },
            Some((_, q)) => {
                if acc.len() > 0 {
                    pop_chars(&mut acc);
                }
                let tail = slice_chars(clause, q, clause.len());
                assert(tail@ =~= clause@.skip(q as int));
                let rest = trimmed(tail.as_slice());
                if rest.len() > 0 {
                    push_chars(&mut acc, rest);
                }
            },
        }
    }
    assert(cl.take(clauses.len() as int) =~= cl);
    acc
}

/// The first occurrence of `m` in `s` as whole words: start and end.
fn marker_occurrence(s: &[char], m: &[char]) -> (r: Option<(usize, usize)>)
    ensures
        match r {
            Some((p, q)) => marker_occurrence_from(s@, m@, 0) == Some((p as int, q as int)) && q
                <= s@.len(),
            None => marker_occurrence_from(s@, m@, 0) is None,
        },
{
    let n = s.len();
    let mut p: usize = 0;
    loop
        invariant
            n == s@.len(),
            p <= n,
            marker_occurrence_from(s@, m@, 0) == marker_occurrence_from(s@, m@, p as int),
        decreases n - p,
    {
        match marker_end_at(s, m, p) {
            Some(q) => {
                return Some((p, q));
            },
            None => {},
        }
        if p == n {
            assert(marker_occurrence_from(s@, m@, p + 1) is None);
            return None;
        }
        p = p + 1;
    }
}

fn marker_fallback(text: &[char], markers: &Vec<Vec<char>>) -> (r: Vec<char>)
    ensures
        r@ == fallback_scan(text@, sort_by_len_desc(markers.deep_view())),
{
    let sorted = sort_markers(markers);
    let ghost ms = sorted.deep_view();
    assert(ms.skip(0) =~= ms);
    for i in 0..sorted.len()
        invariant
            ms == sorted.deep_view(),
            ms == sort_by_len_desc(markers.deep_view()),
            fallback_scan(text@, ms) == fallback_scan(text@, ms.skip(i as int)),
    {
        assert(ms.skip(i as int).drop_first() =~= ms.skip(i + 1));
        let m = sorted[i].as_slice();
        proof {
            lemma_chars_deep_view(&sorted[i as int]);
        }
        assert(ms.skip(i as int)[0] == m@);
        match marker_occurrence(text, m) {
            None => {},
            Some((p, q)) => {
                if p > 0 {
                    let tail = slice_chars(text, q, text.len());
                    assert(tail@ =~= text@.skip(q as int));
                    let after = trimmed(tail.as_slice());
                    if after.len() > 0 {
                        return after;
                    }
                }
            },
        }
    }
    assert(ms.skip(sorted.len() as int) =~= Seq::<Seq<char>>::empty());
    copy_chars(text)
}

/// Pass 1: detects correction markers and removes the clause before them.
/// With punctuation boundaries it works clause by clause; otherwise it falls
/// back to treating the marker itself as the boundary.
pub fn collapse_marker_corrections(text: &[char], markers: &Vec<Vec<char>>) -> (r: Vec<char>)
    ensures
        r@ == marker_pass(text@, markers.deep_view()),
{
    if markers.len() == 0 {
        return copy_chars(text);
    }
    let clauses = split_into_clauses(text);
    if clauses.len() >= 2 {
        let kept = marker_clauses(&clauses, markers);
        let sep = to_chars(", ");
        let joined = join_chars(&kept, sep.as_slice());
        trimmed(joined.as_slice())
    } else {
        marker_fallback(text, markers)
    }
}

// ---------------------------------------------------------------------------
// Pass 2: false starts
// ---------------------------------------------------------------------------

/// Two words are the same word when their lowercase forms agree.
pub open spec fn same_word(a: Seq<char>, b: Seq<char>) -> bool {
    unicode_lowercase(a) == unicode_lowercase(b)
}

/// Whether two clauses open alike. After a short clause (at most three
/// words) the first word decides; after a longer one the first two words
/// must agree, unless the second clause has a single word.
pub open spec fn shares_opener(prev_words: Seq<Seq<char>>, curr_words: Seq<Seq<char>>) -> bool {
    if prev_words.len() == 0 || curr_words.len() == 0 {
        false
    } else if prev_words.len() <= 3 {
        same_word(prev_words[0], curr_words[0])
    } else if curr_words.len() >= 2 {
        same_word(prev_words[0], curr_words[0]) && same_word(prev_words[1], curr_words[1])
    } else {
        same_word(prev_words[0], curr_words[0])
    }
}

/// `curr` restarts `prev`: they open alike and `prev` has fewer words.
pub open spec fn restarts(prev: Seq<char>, curr: Seq<char>) -> bool {
    let pw = words(prev);
    let cw = words(curr);
    shares_opener(pw, cw) && pw.len() < cw.len()
}

/// The false-start pass over a list of clauses: a clause that restarts the
/// one kept before it replaces it.
pub open spec fn false_start_fold(clauses: Seq<Seq<char>>) -> Seq<Seq<char>>
    decreases clauses.len(),
{
    if clauses.len() == 0 {
        seq![]
    } else {
        let acc = false_start_fold(clauses.drop_last());
        let c = clauses.last();
        if acc.len() > 0 && restarts(acc.last(), c) {
            acc.drop_last().push(c)
        } else {
            acc.push(c)
        }
    }
}

/// The second pass: false starts, on a text with at least two clauses.
pub open spec fn false_start_pass(text: Seq<char>) -> Seq<char> {
    let cl = clauses(text);
    if cl.len() < 2 {
        text
    } else {
        trim(join(false_start_fold(cl), ", "@))
    }
}

fn same_word_exec(a: &Vec<char>, b: &Vec<char>) -> (r: bool)
    ensures
        r == same_word(a@, b@),
{
    let la = lowercase_chars(a.as_slice());
    let lb = lowercase_chars(b.as_slice());
    chars_eq(la.as_slice(), lb.as_slice())
}

fn restarts_exec(prev: &[char], curr: &[char]) -> (r: bool)
    ensures
        r == restarts(prev@, curr@),
{
    let pw = split_words(prev);
    let cw = split_words(curr);
    proof {
        if pw.len() > 0 {
            lemma_chars_deep_view(&pw[0]);
        }
        if pw.len() > 1 {
            lemma_chars_deep_view(&pw[1]);
        }
        if cw.len() > 0 {
            lemma_chars_deep_view(&cw[0]);
        }
        if cw.len() > 1 {
            lemma_chars_deep_view(&cw[1]);
        }
    }
    let shares = if pw.len() == 0 || cw.len() == 0 {
        false
    } else if pw.len() <= 3 {
        same_word_exec(&pw[0], &cw[0])
    } else if cw.len() >= 2 {
        same_word_exec(&pw[0], &cw[0]) && same_word_exec(&pw[1], &cw[1])
    } else {
        same_word_exec(&pw[0], &cw[0])
    };
    shares && pw.len() < cw.len()
}

fn false_start_clauses(clauses: &Vec<Vec<char>>) -> (r: Vec<Vec<char>>)
    ensures
        r.deep_view() == false_start_fold(clauses.deep_view()),
{
    let ghost cl = clauses.deep_view();
    let mut acc: Vec<Vec<char>> = Vec::new();
    for i in 0..clauses.len()
        invariant
            cl == clauses.deep_view(),
            acc.deep_view() == false_start_fold(cl.take(i as int)),
    {
        assert(cl.take(i + 1).drop_last() =~= cl.take(i as int));
        proof {
            lemma_chars_deep_view(&clauses[i as int]);
        }
        let c = clauses[i].as_slice();
        let n = acc.len();
        if n > 0 {
            proof {
                lemma_chars_deep_view(&acc[n - 1]);
            }
            if restarts_exec(acc[n - 1].as_slice(), c) {
                pop_chars(&mut acc);
            }
        }
        push_chars(&mut acc, copy_chars(c));
    }
    assert(cl.take(clauses.len() as int) =~= cl);
    acc
}

/// Pass 2: detects false starts, where the speaker abandons a clause and
/// restarts it: adjacent clauses share their opening words and the first is
/// shorter.
pub fn collapse_false_starts(text: &[char]) -> (r: Vec<char>)
    ensures
        r@ == false_start_pass(text@),
{
    let clauses = split_into_clauses(text);
    if clauses.len() < 2 {
        return copy_chars(text);
    }
    let kept = false_start_clauses(&clauses);
    let sep = to_chars(", ");
    let joined = join_chars(&kept, sep.as_slice());
    trimmed(joined.as_slice())
}

// ---------------------------------------------------------------------------
// Both passes
// ---------------------------------------------------------------------------

/// The markers in force: the custom list when one is given (an empty one
/// disables the marker pass), the English defaults otherwise.
pub open spec fn correction_markers(custom: Option<Seq<Seq<char>>>) -> Seq<Seq<char>> {
    match custom {
        Some(list) => list,
        None => default_correction_markers(),
    }
}

/// Self-corrections collapsed: the marker pass, then the false-start pass.
pub open spec fn self_corrected(text: Seq<char>, custom: Option<Seq<Seq<char>>>) -> Seq<char> {
    if text.len() == 0 {
        seq![]
    } else {
        false_start_pass(marker_pass(text, correction_markers(custom)))
    }
}

fn marker_list(custom: &Option<Vec<String>>) -> (r: Vec<Vec<char>>)
    ensures
        r.deep_view() == correction_markers(custom.deep_view()),
{
    let mut r: Vec<Vec<char>> = Vec::new();
    match custom {
        Some(list) => {
            let ghost lv = list.deep_view();
            for i in 0..list.len()
                invariant
                    lv == list.deep_view(),
                    r.deep_view() == lv.take(i as int),
            {
                push_chars(&mut r, to_chars(list[i].as_str()));
                assert(lv.take(i + 1) =~= lv.take(i as int).push(list@[i as int]@));
            }
            assert(lv.take(list.len() as int) =~= lv);
        },
        None => {
            let defaults = get_default_correction_markers();
            let ghost dv = defaults.deep_view();
            for i in 0..defaults.len()
                invariant
                    dv == defaults.deep_view(),
                    r.deep_view() == dv.take(i as int),
            {
                push_chars(&mut r, to_chars(defaults[i]));
                assert(dv.take(i + 1) =~= dv.take(i as int).push(defaults@[i as int]@));
            }
            assert(dv.take(defaults.len() as int) =~= dv);
        },
    }
    r
}

/// Collapses self-corrections in transcribed text.
///
/// Applies two passes:
/// 1. Marker-based: detects correction phrases ("I mean", "scratch that", etc.)
///    and removes the preceding clause
/// 2. False-start: detects abandoned clauses restarted with the same opening words
///
/// `None` as the marker list uses the English defaults, `Some(empty)`
/// disables marker detection, `Some(list)` overrides the defaults. The text
/// should already have its filler words removed.
pub fn collapse_self_corrections(text: &str, custom_correction_markers: &Option<Vec<String>>) -> (r: String)
    ensures
        r@ == self_corrected(text@, custom_correction_markers.deep_view()),
{
    if text.is_empty() {
        return String::new();
    }
    let chars = to_chars(text);
    let markers = marker_list(custom_correction_markers);
    let after_markers = collapse_marker_corrections(chars.as_slice(), &markers);
    let done = collapse_false_starts(after_markers.as_slice());
    string_from(done.as_slice())
}

} // verus!
