use vstd::prelude::*;

use crate::unicode::{is_whitespace, push_char, unicode_white_space};

verus! {

// ---------------------------------------------------------------------------
// UTF-8 byte lengths (strings are indexed by byte offsets)
// ---------------------------------------------------------------------------

/// Number of bytes in the UTF-8 encoding of `c`.
pub open spec fn utf8_width(c: char) -> nat {
    let u = c as u32;
    if u < 0x80 {
        1
    } else if u < 0x800 {
        2
    } else if u < 0x10000 {
        3
    } else {
        4
    }
}

/// Number of bytes in the UTF-8 encoding of `s` (what `str::len` returns).
pub open spec fn byte_len(s: Seq<char>) -> nat
    decreases s.len(),
{
    if s.len() == 0 {
        0
    } else {
        byte_len(s.drop_last()) + utf8_width(s.last())
    }
}

proof fn lemma_byte_len_first(s: Seq<char>)
    requires
        s.len() > 0,
    ensures
        byte_len(s) == utf8_width(s[0]) + byte_len(s.drop_first()),
    decreases s.len(),
{
    if s.len() > 1 {
        lemma_byte_len_first(s.drop_last());
        assert(s.drop_last().drop_first() =~= s.drop_first().drop_last());
        assert(s.drop_first().last() == s.last());
        assert(s.drop_last()[0] == s[0]);
        assert(byte_len(s) == byte_len(s.drop_last()) + utf8_width(s.last()));
        assert(byte_len(s.drop_first()) == byte_len(s.drop_first().drop_last()) + utf8_width(
            s.drop_first().last(),
        ));
    } else {
        assert(s.drop_first().len() == 0);
        assert(s.drop_last().len() == 0);
        assert(byte_len(s.drop_first()) == 0);
        assert(byte_len(s.drop_last()) == 0);
        assert(s.last() == s[0]);
    }
}

/// `byte_len` is the length of the UTF-8 encoding of `s` as vstd defines it
/// (and so what `str::len` reports).
pub proof fn lemma_byte_len_is_utf8_len(s: Seq<char>)
    ensures
        byte_len(s) == vstd::utf8::encode_utf8(s).len(),
    decreases s.len(),
{
    if s.len() > 0 {
        lemma_byte_len_first(s);
        lemma_byte_len_is_utf8_len(s.drop_first());
        let c = s[0];
        vstd::utf8::char_is_scalar(c);
    }
}

/// The character index at which byte offset `b` of `s` falls, if `b` lies on a
/// character boundary within `s`.
pub open spec fn char_index_of_byte(s: Seq<char>, b: int) -> Option<int>
    decreases s.len(),
{
    if b == byte_len(s) {
        Some(s.len() as int)
    } else if s.len() == 0 {
        None
    } else {
        char_index_of_byte(s.drop_last(), b)
    }
}

/// Byte offset `b` of `s` lies on a character boundary.
pub open spec fn is_byte_boundary(s: Seq<char>, b: int) -> bool {
    char_index_of_byte(s, b) is Some
}

/// Byte spans as `regex` reports matches: each span is ordered and lies on
/// character boundaries, and successive spans do not overlap.
pub open spec fn spans_well_formed(s: Seq<char>, spans: Seq<(usize, usize)>) -> bool {
    &&& forall|k: int|
        0 <= k < spans.len() ==> {
            &&& #[trigger] spans[k].0 <= spans[k].1
            &&& is_byte_boundary(s, spans[k].0 as int)
            &&& is_byte_boundary(s, spans[k].1 as int)
        }
    &&& forall|k: int| 0 <= k < spans.len() - 1 ==> #[trigger] spans[k].1 <= spans[k + 1].0
}

pub proof fn lemma_byte_len_take_step(s: Seq<char>, i: int)
    requires
        0 <= i < s.len(),
    ensures
        byte_len(s.take(i + 1)) == byte_len(s.take(i)) + utf8_width(s[i]),
{
    assert(s.take(i + 1).drop_last() =~= s.take(i));
}

pub proof fn lemma_byte_len_take_mono(s: Seq<char>, i: int, j: int)
    requires
        0 <= i < j <= s.len(),
    ensures
        byte_len(s.take(i)) < byte_len(s.take(j)),
    decreases j - i,
{
    lemma_byte_len_take_step(s, j - 1);
    if i < j - 1 {
        lemma_byte_len_take_mono(s, i, j - 1);
    }
}

/// `char_index_of_byte` finds the unique prefix of `s` that is `b` bytes long.
pub proof fn lemma_char_index_of_byte(s: Seq<char>, b: int)
    ensures
        char_index_of_byte(s, b) matches Some(k) ==> 0 <= k <= s.len() && byte_len(s.take(k)) == b,
        forall|k: int|
            0 <= k <= s.len() && byte_len(#[trigger] s.take(k)) == b ==> char_index_of_byte(s, b)
                == Some(k),
    decreases s.len(),
{
    assert(s.take(s.len() as int) =~= s);
    if b == byte_len(s) {
        assert forall|k: int| 0 <= k <= s.len() && byte_len(#[trigger] s.take(k)) == b implies k
            == s.len() by {
            if k < s.len() {
                lemma_byte_len_take_mono(s, k, s.len() as int);
            }
        }
    } else if s.len() == 0 {
    } else {
        let t = s.drop_last();
        lemma_char_index_of_byte(t, b);
        assert forall|k: int| 0 <= k <= s.len() && byte_len(#[trigger] s.take(k)) == b implies char_index_of_byte(s, b)
            == Some(k) by {
            assert(k < s.len());
            assert(t.take(k) =~= s.take(k));
        }
        if let Some(k) = char_index_of_byte(t, b) {
            assert(t.take(k) =~= s.take(k));
        }
    }
}

/// The character index of byte offset `b` in `s`, if `b` is a character
/// boundary of `s`.
pub fn byte_to_char_index(s: &[char], b: u128) -> (r: Option<usize>)
    ensures
        r matches Some(k) ==> char_index_of_byte(s@, b as int) == Some(k as int),
        r is None ==> char_index_of_byte(s@, b as int) is None,
{
    let n = s.len();
    let mut i: usize = 0;
    let mut acc: u128 = 0;
    proof {
        lemma_char_index_of_byte(s@, b as int);
        assert(s@.take(0) =~= Seq::<char>::empty());
    }
    while i < n && acc < b
        invariant
            i <= n == s@.len(),
            acc == byte_len(s@.take(i as int)),
            acc <= b,
        decreases n - i,
    {
        proof {
            lemma_byte_len_take_step(s@, i as int);
        }
        let w = char_width(s[i]) as u128;
        if w > b - acc {
            // stepping past `b` without landing on it
            proof {
                lemma_char_index_of_byte(s@, b as int);
                assert forall|k: int| 0 <= k <= s@.len() implies byte_len(#[trigger] s@.take(k))
                    != b by {
                    if k <= i {
                        if k < i {
                            lemma_byte_len_take_mono(s@, k, i as int);
                        }
                    } else {
                        if k > i + 1 {
                            lemma_byte_len_take_mono(s@, i + 1, k);
                        }
                    }
                }
            }
            return None;
        }
        acc = acc + w;
        i = i + 1;
    }
    if acc == b {
        Some(i)
    } else {
        proof {
            assert forall|k: int| 0 <= k <= s@.len() implies byte_len(#[trigger] s@.take(k))
                != b by {
                if k < i {
                    lemma_byte_len_take_mono(s@, k, i as int);
                }
            }
        }
        None
    }
}

pub proof fn lemma_byte_len_bound(s: Seq<char>)
    ensures
        byte_len(s) <= 4 * s.len(),
    decreases s.len(),
{
    if s.len() > 0 {
        lemma_byte_len_bound(s.drop_last());
    }
}

pub proof fn lemma_byte_len_at_least_len(s: Seq<char>)
    ensures
        s.len() <= byte_len(s),
    decreases s.len(),
{
    if s.len() > 0 {
        lemma_byte_len_at_least_len(s.drop_last());
    }
}

/// `byte_len(s)`, computed in 128 bits (at most four bytes per character, so
/// it cannot overflow).
pub fn byte_length(s: &[char]) -> (r: u128)
    ensures
        r == byte_len(s@),
{
    let mut acc: u128 = 0;
    for i in 0..s.len()
        invariant
            acc == byte_len(s@.take(i as int)),
            acc <= 4 * i,
    {
        proof {
            lemma_byte_len_take_step(s@, i as int);
        }
        acc = acc + char_width(s[i]) as u128;
    }
    assert(s@.take(s@.len() as int) =~= s@);
    acc
}

pub fn char_width(c: char) -> (w: usize)
    ensures
        w == utf8_width(c),
{
    let u = c as u32;
    if u < 0x80 {
        1
    } else if u < 0x800 {
        2
    } else if u < 0x10000 {
        3
    } else {
        4
    }
}

// ---------------------------------------------------------------------------
// Trimming (`str::trim`)
// ---------------------------------------------------------------------------

pub open spec fn trim_start(s: Seq<char>) -> Seq<char>
    decreases s.len(),
{
    if s.len() > 0 && unicode_white_space(s[0]) {
        trim_start(s.drop_first())
    } else {
        s
    }
}

pub open spec fn trim_end(s: Seq<char>) -> Seq<char>
    decreases s.len(),
{
    if s.len() > 0 && unicode_white_space(s.last()) {
        trim_end(s.drop_last())
    } else {
        s
    }
}

/// `s` without leading and trailing whitespace.
pub open spec fn trim(s: Seq<char>) -> Seq<char> {
    trim_end(trim_start(s))
}

/// `s` has no whitespace at either end.
pub open spec fn is_trimmed(s: Seq<char>) -> bool {
    s.len() == 0 || (!unicode_white_space(s[0]) && !unicode_white_space(s.last()))
}

/// Trimming the start removes a prefix and leaves no whitespace in front.
pub proof fn lemma_trim_start(s: Seq<char>)
    ensures
        exists|k: int| 0 <= k <= s.len() && trim_start(s) == s.skip(k),
        trim_start(s).len() > 0 ==> !unicode_white_space(trim_start(s)[0]),
    decreases s.len(),
{
    if s.len() > 0 && unicode_white_space(s[0]) {
        lemma_trim_start(s.drop_first());
        let k = choose|k: int| 0 <= k <= s.drop_first().len() && trim_start(s.drop_first()) == s.drop_first().skip(k);
        assert(s.drop_first().skip(k) =~= s.skip(k + 1));
    } else {
        assert(s.skip(0) =~= s);
    }
}

/// Trimming the end removes a suffix and leaves no whitespace at the back;
/// a first character that is not whitespace survives.
pub proof fn lemma_trim_end(s: Seq<char>)
    ensures
        exists|k: int| 0 <= k <= s.len() && trim_end(s) == s.take(k),
        trim_end(s).len() > 0 ==> !unicode_white_space(trim_end(s).last()),
        s.len() > 0 && !unicode_white_space(s[0]) ==> trim_end(s).len() > 0 && trim_end(s)[0] == s[0],
    decreases s.len(),
{
    if s.len() > 0 && unicode_white_space(s.last()) {
        lemma_trim_end(s.drop_last());
        let k = choose|k: int| 0 <= k <= s.drop_last().len() && trim_end(s.drop_last()) == s.drop_last().take(k);
        assert(s.drop_last().take(k) =~= s.take(k));
    } else {
        assert(s.take(s.len() as int) =~= s);
    }
}

/// A trimmed text has no whitespace at either end, and is a stretch of the
/// text it was trimmed from.
pub proof fn lemma_trim(s: Seq<char>)
    ensures
        is_trimmed(trim(s)),
        exists|a: int, b: int| 0 <= a <= b <= s.len() && trim(s) == s.subrange(a, b),
{
    lemma_trim_start(s);
    lemma_trim_end(trim_start(s));
    let a = choose|k: int| 0 <= k <= s.len() && trim_start(s) == s.skip(k);
    let b = choose|k: int| 0 <= k <= trim_start(s).len() && trim_end(trim_start(s)) == trim_start(s).take(k);
    assert(trim(s) =~= s.subrange(a, a + b));
}

/// Bounds `(a, b)` such that `s[a..b]` is `s` trimmed.
pub fn trim_bounds(s: &[char]) -> (r: (usize, usize))
    ensures
        r.0 <= r.1 <= s@.len(),
        s@.subrange(r.0 as int, r.1 as int) == trim(s@),
{
    let n = s.len();
    let mut a: usize = 0;
    assert(s@.subrange(0, n as int) =~= s@);
    while a < n && is_whitespace(s[a])
        invariant
            a <= n == s@.len(),
            trim_start(s@) == trim_start(s@.subrange(a as int, n as int)),
        decreases n - a,
    {
        assert(s@.subrange(a as int, n as int).drop_first() =~= s@.subrange(a + 1, n as int));
        a = a + 1;
    }
    assert(trim_start(s@) == s@.subrange(a as int, n as int));
    let mut b: usize = n;
    while b > a && is_whitespace(s[b - 1])
        invariant
            a <= b <= n == s@.len(),
            trim(s@) == trim_end(s@.subrange(a as int, b as int)),
        decreases b - a,
    {
        assert(s@.subrange(a as int, b as int).drop_last() =~= s@.subrange(a as int, b - 1));
        b = b - 1;
    }
    (a, b)
}

// ---------------------------------------------------------------------------
// Splitting on whitespace (`str::split_whitespace`)
// ---------------------------------------------------------------------------

/// Scan state after reading `s`: the finished words and the word in progress.
pub open spec fn word_scan(s: Seq<char>) -> (Seq<Seq<char>>, Seq<char>)
    decreases s.len(),
{
    if s.len() == 0 {
        (seq![], seq![])
    } else {
        let (done, cur) = word_scan(s.drop_last());
        if unicode_white_space(s.last()) {
            if cur.len() > 0 {
                (done.push(cur), seq![])
            } else {
                (done, seq![])
            }
        } else {
            (done, cur.push(s.last()))
        }
    }
}

/// The maximal runs of non-whitespace characters of `s`, in order.
pub open spec fn words(s: Seq<char>) -> Seq<Seq<char>> {
    let (done, cur) = word_scan(s);
    if cur.len() > 0 {
        done.push(cur)
    } else {
        done
    }
}

/// A word: non-empty, without whitespace.
pub open spec fn is_word(w: Seq<char>) -> bool {
    w.len() > 0 && forall|k: int| 0 <= k < w.len() ==> !unicode_white_space(#[trigger] w[k])
}

proof fn lemma_word_scan_words(s: Seq<char>)
    ensures
        forall|i: int| 0 <= i < word_scan(s).0.len() ==> is_word(#[trigger] word_scan(s).0[i]),
        forall|k: int|
            0 <= k < word_scan(s).1.len() ==> !unicode_white_space(#[trigger] word_scan(s).1[k]),
    decreases s.len(),
{
    if s.len() > 0 {
        lemma_word_scan_words(s.drop_last());
        let (done, cur) = word_scan(s.drop_last());
        let c = s.last();
        if unicode_white_space(c) {
            if cur.len() > 0 {
                assert forall|i: int| 0 <= i < done.push(cur).len() implies is_word(
                    #[trigger] done.push(cur)[i],
                ) by {
                    if i < done.len() {
                        assert(done.push(cur)[i] == done[i]);
                    }
                }
            }
        } else {
            assert forall|k: int| 0 <= k < cur.push(c).len() implies !unicode_white_space(
                #[trigger] cur.push(c)[k],
            ) by {
                if k < cur.len() {
                    assert(cur.push(c)[k] == cur[k]);
                }
            }
        }
    }
}

/// Every word of a text is non-empty and holds no whitespace.
pub proof fn lemma_words_are_words(s: Seq<char>)
    ensures
        forall|i: int| 0 <= i < words(s).len() ==> is_word(#[trigger] words(s)[i]),
{
    lemma_word_scan_words(s);
    let (done, cur) = word_scan(s);
    if cur.len() > 0 {
        assert forall|i: int| 0 <= i < done.push(cur).len() implies is_word(
            #[trigger] done.push(cur)[i],
        ) by {
            if i < done.len() {
                assert(done.push(cur)[i] == done[i]);
            }
        }
    }
}

proof fn lemma_word_scan_append_word(s: Seq<char>, w: Seq<char>)
    requires
        word_scan(s).1.len() == 0,
        forall|k: int| 0 <= k < w.len() ==> !unicode_white_space(#[trigger] w[k]),
    ensures
        word_scan(s + w) == (word_scan(s).0, w),
    decreases w.len(),
{
    if w.len() == 0 {
        assert(s + w =~= s);
    } else {
        lemma_word_scan_append_word(s, w.drop_last());
        assert((s + w).drop_last() =~= s + w.drop_last());
        assert(w.drop_last().push(w.last()) =~= w);
    }
}

proof fn lemma_word_scan_join(ws: Seq<Seq<char>>)
    requires
        ws.len() > 0,
        forall|i: int| 0 <= i < ws.len() ==> is_word(#[trigger] ws[i]),
        unicode_white_space(' '),
    ensures
        word_scan(join(ws, " "@)) == (ws.drop_last(), ws.last()),
    decreases ws.len(),
{
    reveal_strlit(" ");
    if ws.len() == 1 {
        lemma_word_scan_append_word(seq![], ws[0]);
        assert(Seq::<char>::empty() + ws[0] =~= ws[0]);
        assert(ws.drop_last() =~= Seq::<Seq<char>>::empty());
    } else {
        let init = ws.drop_last();
        lemma_word_scan_join(init);
        let j = join(init, " "@);
        assert(j + " "@ =~= j.push(' '));
        assert(j.push(' ').drop_last() =~= j);
        assert(init.drop_last().push(init.last()) =~= init);
        assert(word_scan(j.push(' ')) == (init, Seq::<char>::empty()));
        lemma_word_scan_append_word(j.push(' '), ws.last());
    }
}

/// Splitting words joined by single spaces gives the words back.
pub proof fn lemma_words_of_join(ws: Seq<Seq<char>>)
    requires
        forall|i: int| 0 <= i < ws.len() ==> is_word(#[trigger] ws[i]),
        unicode_white_space(' '),
    ensures
        words(join(ws, " "@)) == ws,
{
    if ws.len() > 0 {
        lemma_word_scan_join(ws);
        assert(ws.drop_last().push(ws.last()) =~= ws);
    }
}

/// A vector of characters viewed deeply is its sequence of characters.
pub proof fn lemma_chars_deep_view(v: &Vec<char>)
    ensures
        v.deep_view() == v@,
{
    assert(v.deep_view() =~= v@);
}

pub fn split_words(s: &[char]) -> (r: Vec<Vec<char>>)
    ensures
        r.deep_view() == words(s@),
{
    let mut done: Vec<Vec<char>> = Vec::new();
    let mut cur: Vec<char> = Vec::new();
    let n = s.len();
    for i in 0..n
        invariant
            n == s@.len(),
            (done.deep_view(), cur@) == word_scan(s@.take(i as int)),
    {
        assert(s@.take(i + 1).drop_last() =~= s@.take(i as int));
        let c = s[i];
        if is_whitespace(c) {
            if cur.len() > 0 {
                let ghost before = done.deep_view();
                proof { lemma_chars_deep_view(&cur); }
                let w = cur;
                done.push(w);
                cur = Vec::new();
                assert(done.deep_view() =~= before.push(w@));
            }
        } else {
            cur.push(c);
        }
    }
    assert(s@.take(n as int) =~= s@);
    if cur.len() > 0 {
        let ghost before = done.deep_view();
        proof { lemma_chars_deep_view(&cur); }
        let ghost w = cur@;
        done.push(cur);
        assert(done.deep_view() =~= before.push(w));
    }
    done
}

// ---------------------------------------------------------------------------
// Joining (`[&str]::join`)
// ---------------------------------------------------------------------------

/// `parts` concatenated with `sep` between consecutive parts.
pub open spec fn join(parts: Seq<Seq<char>>, sep: Seq<char>) -> Seq<char>
    decreases parts.len(),
{
    if parts.len() == 0 {
        seq![]
    } else if parts.len() == 1 {
        parts[0]
    } else {
        join(parts.drop_last(), sep) + sep + parts.last()
    }
}

pub fn join_chars(parts: &Vec<Vec<char>>, sep: &[char]) -> (r: Vec<char>)
    ensures
        r@ == join(parts.deep_view(), sep@),
{
    let mut r: Vec<char> = Vec::new();
    let n = parts.len();
    for i in 0..n
        invariant
            n == parts.len(),
            r@ == join(parts.deep_view().take(i as int), sep@),
    {
        assert(parts.deep_view().take(i + 1).drop_last() =~= parts.deep_view().take(i as int));
        if i > 0 {
            append_chars(&mut r, sep);
        }
        append_chars(&mut r, parts[i].as_slice());
        assert(r@ =~= join(parts.deep_view().take(i + 1), sep@));
    }
    assert(parts.deep_view().take(n as int) =~= parts.deep_view());
    r
}

pub fn append_chars(r: &mut Vec<char>, s: &[char])
    ensures
        final(r)@ == old(r)@ + s@,
{
    let ghost start = r@;
    for i in 0..s.len()
        invariant
            r@ == start + s@.take(i as int),
    {
        r.push(s[i]);
        assert(r@ =~= start + s@.take(i + 1));
    }
    assert(s@.take(s@.len() as int) =~= s@);
}

/// A `String` holding the characters `s`.
pub fn string_from(s: &[char]) -> (r: String)
    ensures
        r@ == s@,
{
    let mut r = String::new();
    for i in 0..s.len()
        invariant
            r@ == s@.take(i as int),
    {
        push_char(&mut r, s[i]);
        assert(r@ =~= s@.take(i + 1));
    }
    assert(s@.take(s@.len() as int) =~= s@);
    r
}

// ---------------------------------------------------------------------------
// Copying, comparing
// ---------------------------------------------------------------------------

/// An owned copy of `s`.
pub fn copy_chars(s: &[char]) -> (r: Vec<char>)
    ensures
        r@ == s@,
{
    let r = slice_chars(s, 0, s.len());
    assert(s@.subrange(0, s@.len() as int) =~= s@);
    r
}

/// `s` trimmed, as an owned copy.
pub fn trimmed(s: &[char]) -> (r: Vec<char>)
    ensures
        r@ == trim(s@),
{
    let (a, b) = trim_bounds(s);
    slice_chars(s, a, b)
}

pub fn push_chars(acc: &mut Vec<Vec<char>>, c: Vec<char>)
    ensures
        final(acc).deep_view() == old(acc).deep_view().push(c@),
{
    let ghost before = acc.deep_view();
    proof {
        lemma_chars_deep_view(&c);
    }
    let ghost cv = c@;
    acc.push(c);
    assert(acc.deep_view() =~= before.push(cv));
}

pub fn pop_chars(acc: &mut Vec<Vec<char>>)
    requires
        old(acc)@.len() > 0,
    ensures
        final(acc).deep_view() == old(acc).deep_view().drop_last(),
{
    let ghost before = acc.deep_view();
    let _ = acc.pop();
    assert(acc.deep_view() =~= before.drop_last());
}

/// A copy of `s[from..to]`.
pub fn slice_chars(s: &[char], from: usize, to: usize) -> (r: Vec<char>)
    requires
        from <= to <= s@.len(),
    ensures
        r@ == s@.subrange(from as int, to as int),
{
    let mut r: Vec<char> = Vec::new();
    for i in from..to
        invariant
            to <= s@.len(),
            r@ == s@.subrange(from as int, i as int),
    {
        r.push(s[i]);
        assert(r@ =~= s@.subrange(from as int, i + 1));
    }
    r
}

/// Whether `a` and `b` hold the same characters.
pub fn chars_eq(a: &[char], b: &[char]) -> (r: bool)
    ensures
        r == (a@ == b@),
{
    if a.len() != b.len() {
        return false;
    }
    for i in 0..a.len()
        invariant
            a@.len() == b@.len(),
            forall|j: int| 0 <= j < i ==> a@[j] == b@[j],
    {
        if a[i] != b[i] {
            return false;
        }
    }
    assert(a@ =~= b@);
    true
}

} // verus!
