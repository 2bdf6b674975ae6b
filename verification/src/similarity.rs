//! String similarity, through the `strsim` and `natural` crates.
use vstd::prelude::*;

verus! {

/// The smallest number of single-character insertions, deletions and
/// substitutions that turn `a` into `b` (the Levenshtein distance).
pub open spec fn edit_distance(a: Seq<char>, b: Seq<char>) -> nat
    decreases a.len() + b.len(),
{
    if a.len() == 0 {
        b.len()
    } else if b.len() == 0 {
        a.len()
    } else {
        let substitute = edit_distance(a.drop_last(), b.drop_last()) + if a.last() == b.last() {
            0nat
        } else {
            1nat
        };
        let delete = edit_distance(a.drop_last(), b) + 1;
        let insert = edit_distance(a, b.drop_last()) + 1;
        if substitute <= delete && substitute <= insert {
            substitute
        } else if delete <= insert {
            delete
        } else {
            insert
        }
    }
}

/// `strsim::levenshtein`: the minimum number of insertions, deletions and
/// substitutions of characters that change `a` into `b`, as its
/// documentation states.
#[verifier::external_body]
pub fn levenshtein(a: &str, b: &str) -> (d: usize)
    ensures
        d == edit_distance(a@, b@),
{
    strsim::levenshtein(a, b)
}

/// Whether `natural::phonetics::soundex` finds that the two words sound alike
/// (their Soundex codes agree).
pub uninterp spec fn soundex_alike(a: Seq<char>, b: Seq<char>) -> bool;

/// `natural::phonetics::soundex`: compares the Soundex codes of two words (a
/// name; the encoding is not restated). It indexes the first character of
/// each word, so both must be non-empty.
#[verifier::external_body]
pub fn soundex(a: &str, b: &str) -> (r: bool)
    requires
        a@.len() > 0,
        b@.len() > 0,
    ensures
        r == soundex_alike(a@, b@),
{
    natural::phonetics::soundex(a, b)
}

} // verus!
