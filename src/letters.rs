//! The board: seven distinct letters, one or two of them vowels, drawn at random.
use rand::rngs::ThreadRng;
use rand::seq::SliceRandom;
use rand::Rng;
use vstd::prelude::*;

verus! {

/// The vowel pool.
pub open spec fn is_vowel(c: char) -> bool {
    c == 'A' || c == 'E' || c == 'I' || c == 'O' || c == 'U' || c == 'Y'
}

/// The consonant pool: the twenty capital letters that are not vowels.
pub open spec fn is_consonant(c: char) -> bool {
    c == 'B' || c == 'C' || c == 'D' || c == 'F' || c == 'G' || c == 'H' || c == 'J' || c == 'K'
        || c == 'L' || c == 'M' || c == 'N' || c == 'P' || c == 'Q' || c == 'R' || c == 'S'
        || c == 'T' || c == 'V' || c == 'W' || c == 'X' || c == 'Z'
}

/// The vowels that occur in `s`.
pub open spec fn vowels_in(s: Seq<char>) -> Set<char> {
    s.to_set().filter(|c: char| is_vowel(c))
}

/// A well-formed board: seven distinct letters from the two pools, one or two
/// of them vowels. Position 0 is the center letter.
pub open spec fn is_letter_set(s: Seq<char>) -> bool {
    &&& s.len() == 7
    &&& s.no_duplicates()
    &&& forall|i: int| 0 <= i < s.len() ==> is_vowel(#[trigger] s[i]) || is_consonant(s[i])
    &&& 1 <= vowels_in(s).len() <= 2
}

#[verifier::external_type_specification]
#[verifier::external_body]
pub struct ExThreadRng(ThreadRng);

/// Relies on rand::thread_rng: hands out the thread-local generator.
pub assume_specification[ rand::thread_rng ]() -> ThreadRng;

/// Relies on Rng::gen_range: a value in `low..high` (it panics when `low >= high`).
#[verifier::external_body]
fn gen_range_usize(rng: &mut ThreadRng, low: usize, high: usize) -> (r: usize)
    requires
        low < high,
    ensures
        low <= r < high,
{
    rng.gen_range(low, high)
}

/// Relies on SliceRandom::choose_multiple: `min(amount, pool.len())` items of
/// the pool, taken from distinct positions (rand::seq::index::sample).
#[verifier::external_body]
fn choose_distinct(rng: &mut ThreadRng, pool: &[char], amount: usize) -> (r: Vec<char>)
    ensures
        r@.len() == if amount <= pool@.len() {
            amount as int
        } else {
            pool@.len() as int
        },
        forall|i: int| 0 <= i < r@.len() ==> pool@.contains(#[trigger] r@[i]),
        pool@.no_duplicates() ==> r@.no_duplicates(),
{
    pool.choose_multiple(rng, amount).cloned().collect()
}

/// Relies on SliceRandom::shuffle: the items are permuted in place.
#[verifier::external_body]
fn shuffle_chars(rng: &mut ThreadRng, v: &mut Vec<char>)
    ensures
        final(v)@.to_multiset() == old(v)@.to_multiset(),
{
    v.shuffle(rng);
}

/// A permutation of some distinct vowels followed by some distinct
/// consonants, seven in all, with one or two vowels, is a well-formed board.
proof fn lemma_shuffled_board(vs: Seq<char>, cs: Seq<char>, t: Seq<char>)
    requires
        1 <= vs.len() <= 2,
        vs.len() + cs.len() == 7,
        vs.no_duplicates(),
        cs.no_duplicates(),
        forall|i: int| 0 <= i < vs.len() ==> is_vowel(#[trigger] vs[i]),
        forall|i: int| 0 <= i < cs.len() ==> is_consonant(#[trigger] cs[i]),
        t.to_multiset() == (vs + cs).to_multiset(),
    ensures
        is_letter_set(t),
{
    let s = vs + cs;
    vstd::seq_lib::lemma_no_dup_in_concat(vs, cs);
    s.to_multiset_ensures();
    t.to_multiset_ensures();
    s.lemma_multiset_has_no_duplicates();
    t.lemma_multiset_has_no_duplicates_conv();
    assert forall|x: char| t.contains(x) <==> s.contains(x) by {
        assert(t.to_multiset().count(x) == s.to_multiset().count(x));
    }
    assert(t.to_set() =~= s.to_set());
    assert forall|i: int| 0 <= i < t.len() implies is_vowel(#[trigger] t[i]) || is_consonant(
        t[i],
    ) by {
        assert(t.contains(t[i]));
        let j = choose|j: int| 0 <= j < s.len() && s[j] == t[i];
        if j < vs.len() {
            assert(s[j] == vs[j]);
        } else {
            assert(s[j] == cs[j - vs.len()]);
        }
    }
    assert forall|x: char| vowels_in(t).contains(x) <==> vs.to_set().contains(x) by {
        if s.contains(x) && is_vowel(x) {
            let j = choose|j: int| 0 <= j < s.len() && s[j] == x;
            if j >= vs.len() {
                assert(s[j] == cs[j - vs.len()]);
            }
            assert(vs.contains(x));
        }
        if vs.contains(x) {
            let j = choose|j: int| 0 <= j < vs.len() && vs[j] == x;
            assert(s[j] == x);
        }
    }
    assert(vowels_in(t) =~= vs.to_set());
    vs.unique_seq_to_set();
}

/// Draws a new board: one or two distinct vowels and enough distinct
/// consonants to make seven letters, in a random order.
pub fn pick_letters() -> (r: [char; 7])
    ensures
        is_letter_set(r@),
{
    let mut rng = rand::thread_rng();
    let vowels: Vec<char> = vec!['A', 'E', 'I', 'O', 'U', 'Y'];
    let consonants: Vec<char> = vec![
        'B', 'C', 'D', 'F', 'G', 'H', 'J', 'K', 'L', 'M', 'N', 'P', 'Q', 'R', 'S', 'T', 'V',
        'W', 'X', 'Z',
    ];
    assert(vowels@.no_duplicates());
    assert(consonants@.no_duplicates());
    let num_vowels = gen_range_usize(&mut rng, 1, 3);
    let mut picked = choose_distinct(&mut rng, vowels.as_slice(), num_vowels);
    let mut rest = choose_distinct(&mut rng, consonants.as_slice(), 7 - num_vowels);
    let ghost vs = picked@;
    let ghost cs = rest@;
    assert forall|i: int| 0 <= i < vs.len() implies is_vowel(#[trigger] vs[i]) by {
        let j = choose|j: int| 0 <= j < vowels@.len() && vowels@[j] == vs[i];
    }
    assert forall|i: int| 0 <= i < cs.len() implies is_consonant(#[trigger] cs[i]) by {
        let j = choose|j: int| 0 <= j < consonants@.len() && consonants@[j] == cs[i];
    }
    picked.append(&mut rest);
    assert(picked@ == vs + cs);
    shuffle_chars(&mut rng, &mut picked);
    proof {
        lemma_shuffled_board(vs, cs, picked@);
    }
    let r = [picked[0], picked[1], picked[2], picked[3], picked[4], picked[5], picked[6]];
    assert(r@ =~= picked@);
    r
}

fn vowel(c: char) -> (r: bool)
    ensures
        r == is_vowel(c),
{
    c == 'A' || c == 'E' || c == 'I' || c == 'O' || c == 'U' || c == 'Y'
}

fn consonant(c: char) -> (r: bool)
    ensures
        r == is_consonant(c),
{
    c == 'B' || c == 'C' || c == 'D' || c == 'F' || c == 'G' || c == 'H' || c == 'J' || c == 'K'
        || c == 'L' || c == 'M' || c == 'N' || c == 'P' || c == 'Q' || c == 'R' || c == 'S'
        || c == 'T' || c == 'V' || c == 'W' || c == 'X' || c == 'Z'
}

/// Appending a letter that is new to `t` adds it to the vowels when it is one.
proof fn lemma_vowels_push(t: Seq<char>, c: char)
    requires
        !t.contains(c),
    ensures
        vowels_in(t.push(c)).len() == vowels_in(t).len() + if is_vowel(c) {
            1int
        } else {
            0
        },
{
    broadcast use vstd::set::group_set_axioms, vstd::seq_lib::seq_to_set_is_finite;

    t.lemma_push_to_set_commute(c);
    let v = vowels_in(t);
    assert(v.finite()) by {
        assert(v.subset_of(t.to_set()));
        vstd::set_lib::lemma_len_subset(v, t.to_set());
    }
    if is_vowel(c) {
        assert(vowels_in(t.push(c)) =~= v.insert(c));
        assert(!v.contains(c));
    } else {
        assert(vowels_in(t.push(c)) =~= v);
    }
}

/// Whether `letters` is a well-formed board.
pub fn is_board(letters: &[char; 7]) -> (r: bool)
    ensures
        r == is_letter_set(letters@),
{
    let ghost s = letters@;
    let mut vowels: usize = 0;
    let mut i: usize = 0;
    assert(vowels_in(s.take(0)) =~= Set::empty());
    while i < 7
        invariant
            s == letters@,
            s.len() == 7,
            i <= 7,
            forall|a: int, b: int| 0 <= a < b < i ==> s[a] != s[b],
            forall|a: int| 0 <= a < i ==> is_vowel(#[trigger] s[a]) || is_consonant(s[a]),
            vowels == vowels_in(s.take(i as int)).len(),
            vowels <= i,
        decreases 7 - i,
    {
        let c = letters[i];
        if !(vowel(c) || consonant(c)) {
            return false;
        }
        let mut j: usize = 0;
        while j < i
            invariant
                s == letters@,
                s.len() == 7,
                j <= i < 7,
                c == s[i as int],
                forall|a: int| 0 <= a < j ==> s[a] != c,
            decreases i - j,
        {
            if letters[j] == c {
                assert(!s.no_duplicates()) by {
                    assert(s[j as int] == s[i as int]);
                }
                return false;
            }
            j = j + 1;
        }
        proof {
            assert(s.take(i + 1) =~= s.take(i as int).push(c));
            assert(!s.take(i as int).contains(c));
            lemma_vowels_push(s.take(i as int), c);
        }
        if vowel(c) {
            vowels = vowels + 1;
        }
        i = i + 1;
    }
    assert(s.take(7) =~= s);
    1 <= vowels && vowels <= 2
}

} // verus!
