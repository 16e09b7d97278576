//! Which lines of a word list count as dictionary words: those made only of
//! lowercase alphabetic characters.
use crate::game::views;
use vstd::prelude::*;

verus! {

/// Whether `c` has Unicode's Alphabetic property.
pub uninterp spec fn unicode_alphabetic(c: char) -> bool;

/// Whether `c` has Unicode's Lowercase property.
pub uninterp spec fn unicode_lowercase(c: char) -> bool;

/// Relies on char::is_alphabetic: the Alphabetic property of `c`.
#[verifier::external_body]
fn is_alphabetic(c: char) -> (r: bool)
    ensures
        r == unicode_alphabetic(c),
{
    c.is_alphabetic()
}

/// Relies on char::is_lowercase: the Lowercase property of `c`.
#[verifier::external_body]
fn is_lowercase(c: char) -> (r: bool)
    ensures
        r == unicode_lowercase(c),
{
    c.is_lowercase()
}

/// Every character of `w` is a lowercase letter.
pub open spec fn is_dictionary_word(w: Seq<char>) -> bool {
    forall|i: int|
        0 <= i < w.len() ==> unicode_alphabetic(#[trigger] w[i]) && unicode_lowercase(w[i])
}

/// Whether `w` may stand in the dictionary.
pub fn dictionary_word(w: &str) -> (r: bool)
    ensures
        r == is_dictionary_word(w@),
{
    let n = w.unicode_len();
    let mut i: usize = 0;
    while i < n
        invariant
            n == w@.len(),
            i <= n,
            forall|j: int|
                0 <= j < i ==> unicode_alphabetic(#[trigger] w@[j]) && unicode_lowercase(w@[j]),
        decreases n - i,
    {
        let c = w.get_char(i);
        if !(is_alphabetic(c) && is_lowercase(c)) {
            return false;
        }
        i = i + 1;
    }
    true
}

/// The lines of a word list that are dictionary words, in their order.
pub fn dictionary_words(lines: Vec<String>) -> (r: Vec<String>)
    ensures
        views(r@) == views(lines@).filter(|w: Seq<char>| is_dictionary_word(w)),
{
    let ghost all = views(lines@);
    let mut r: Vec<String> = Vec::new();
    let mut i: usize = 0;
    while i < lines.len()
        invariant
            all == views(lines@),
            i <= lines.len(),
            views(r@) == all.take(i as int).filter(|w: Seq<char>| is_dictionary_word(w)),
        decreases lines.len() - i,
    {
        let ghost before = views(r@);
        proof {
            assert(all.take(i + 1) =~= all.take(i as int).push(all[i as int]));
            all.take(i as int).lemma_filter_push(
                all[i as int],
                |w: Seq<char>| is_dictionary_word(w),
            );
        }
        if dictionary_word(lines[i].as_str()) {
            r.push(lines[i].clone());
            assert(views(r@) =~= before.push(all[i as int]));
        }
        i = i + 1;
    }
    assert(all.take(lines.len() as int) =~= all);
    r
}

} // verus!
