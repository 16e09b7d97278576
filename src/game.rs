//! The engine: one round's board, the word being typed, the words found so
//! far, the score, and the message left by the last rejected command.
use crate::letters::{is_consonant, is_letter_set, is_vowel, pick_letters};
use crate::text::{
    ascii_lowercase, ascii_upper, lemma_lex_irreflexive,
    lemma_lex_total, lemma_lex_transitive, lex_less, pop_char, push_char, str_contains,
    str_less, to_lower, to_upper, all_ascii,
};
use vstd::prelude::*;
use vstd::string::*;

verus! {

/// What a player submits must be at least this long.
pub const MIN_WORD_LEN: usize = 4;

/// Points for a word that uses all seven letters.
pub const PANGRAM_POINTS: usize = 3;

/// Points for any other accepted word.
pub const WORD_POINTS: usize = 1;

/// The state of a round, as values.
pub struct GameView {
    /// The board; position 0 is the center letter.
    pub letters: Seq<char>,
    /// The word being typed.
    pub input: Seq<char>,
    /// The accepted words, in lexicographic order.
    pub found: Seq<Seq<char>>,
    /// The words that count as real.
    pub dict: Set<Seq<char>>,
    pub score: nat,
    pub error: Option<Seq<char>>,
}

/// The views of a sequence of strings.
pub open spec fn views(v: Seq<String>) -> Seq<Seq<char>> {
    v.map_values(|s: String| s@)
}

pub open spec fn opt_view(o: Option<String>) -> Option<Seq<char>> {
    match o {
        Some(s) => Some(s@),
        None => None,
    }
}

/// Every word comes strictly before the ones after it.
pub open spec fn strictly_sorted(ws: Seq<Seq<char>>) -> bool {
    forall|i: int, j: int| 0 <= i < j < ws.len() ==> lex_less(#[trigger] ws[i], #[trigger] ws[j])
}

/// The first character of `w` that is not on the board, if any.
pub open spec fn stray_letter(letters: Seq<char>, w: Seq<char>) -> Option<char>
    decreases w.len(),
{
    if w.len() == 0 {
        None
    } else if !letters.contains(w[0]) {
        Some(w[0])
    } else {
        stray_letter(letters, w.drop_first())
    }
}

pub open spec fn not_in_set_message(c: char) -> Seq<char> {
    seq![c] + " is not in the letter set."@
}

pub open spec fn no_input_message() -> Seq<char> {
    "No input entered."@
}

pub open spec fn too_short_message() -> Seq<char> {
    "Words must be at least 4 characters."@
}

pub open spec fn missing_center_message(center: char) -> Seq<char> {
    "Words must include the center letter ("@ + seq![center] + ")."@
}

pub open spec fn not_in_dict_message(w: Seq<char>) -> Seq<char> {
    w + " is not in the dictionary."@
}

pub open spec fn already_found_message() -> Seq<char> {
    "You already found that word!"@
}

/// Why `input` is not a word of the board `letters`, by the first rule it
/// breaks, in this order: a letter off the board, too short, no center
/// letter, not in the dictionary (checked in lower case). `None` when it is
/// a word.
pub open spec fn rejection(letters: Seq<char>, input: Seq<char>, dict: Set<Seq<char>>) -> Option<
    Seq<char>,
> {
    match stray_letter(letters, input) {
        Some(c) => Some(not_in_set_message(c)),
        None => {
            if input.len() == 0 {
                Some(no_input_message())
            } else if input.len() < MIN_WORD_LEN {
                Some(too_short_message())
            } else if !input.contains(letters[0]) {
                Some(missing_center_message(letters[0]))
            } else if !dict.contains(ascii_lowercase(input)) {
                Some(not_in_dict_message(input))
            } else {
                None
            }
        },
    }
}

/// `w` uses every letter of the board.
pub open spec fn is_pangram(letters: Seq<char>, w: Seq<char>) -> bool {
    forall|i: int| 0 <= i < letters.len() ==> w.contains(#[trigger] letters[i])
}

/// What an accepted word is worth.
pub open spec fn word_score(letters: Seq<char>, w: Seq<char>) -> nat {
    if is_pangram(letters, w) {
        PANGRAM_POINTS as nat
    } else {
        WORD_POINTS as nat
    }
}

/// `w` keeps the board's rules that do not depend on the dictionary: only
/// board letters, long enough, and the center letter in it.
pub open spec fn fits_board(letters: Seq<char>, w: Seq<char>) -> bool {
    &&& stray_letter(letters, w) is None
    &&& w.len() >= MIN_WORD_LEN
    &&& w.contains(letters[0])
}

/// The points of all the words in `ws`.
pub open spec fn total_score(letters: Seq<char>, ws: Seq<Seq<char>>) -> nat
    decreases ws.len(),
{
    if ws.len() == 0 {
        0
    } else {
        total_score(letters, ws.drop_last()) + word_score(letters, ws.last())
    }
}

impl GameView {
    /// What holds of every round: a well-formed board, the found words in
    /// strict lexicographic order and each fitting the board, and the score
    /// the sum of their points.
    pub open spec fn inv(self) -> bool {
        &&& is_letter_set(self.letters)
        &&& strictly_sorted(self.found)
        &&& forall|i: int| 0 <= i < self.found.len() ==> fits_board(self.letters, #[trigger] self.found[i])
        &&& self.score == total_score(self.letters, self.found)
    }
}

/// Inserting a word anywhere adds its points to the total.
proof fn lemma_total_score_insert(letters: Seq<char>, ws: Seq<Seq<char>>, p: int, w: Seq<char>)
    requires
        0 <= p <= ws.len(),
    ensures
        total_score(letters, ws.insert(p, w)) == total_score(letters, ws) + word_score(letters, w),
    decreases ws.len(),
{
    let n = ws.insert(p, w);
    if p == ws.len() {
        assert(n.drop_last() =~= ws);
    } else {
        assert(n.drop_last() =~= ws.drop_last().insert(p, w));
        assert(n.last() == ws.last());
        lemma_total_score_insert(letters, ws.drop_last(), p, w);
    }
}

/// What `submit` does to a round.
pub open spec fn submitted(o: GameView, n: GameView) -> bool {
    &&& n.letters == o.letters
    &&& n.dict == o.dict
    &&& match rejection(o.letters, o.input, o.dict) {
        Some(m) => {
            &&& n.error == Some(m)
            &&& n.input.len() == 0
            &&& n.found == o.found
            &&& n.score == o.score
        },
        None => if o.found.contains(o.input) {
            &&& n.error == Some(already_found_message())
            &&& n.input == o.input
            &&& n.found == o.found
            &&& n.score == o.score
        } else {
            &&& n.error == o.error
            &&& n.input.len() == 0
            &&& exists|p: int| 0 <= p <= o.found.len() && n.found == #[trigger] o.found.insert(p, o.input)
            &&& n.found.to_set() == o.found.to_set().insert(o.input)
            &&& n.score == o.score + word_score(o.letters, o.input)
        },
    }
}

/// Inserts `w` into the sorted `words` unless it is there already; says
/// whether it was inserted.
fn insert_sorted(words: &mut Vec<String>, w: String) -> (inserted: bool)
    requires
        strictly_sorted(views(old(words)@)),
    ensures
        strictly_sorted(views(final(words)@)),
        inserted == !views(old(words)@).contains(w@),
        views(final(words)@).to_set() == views(old(words)@).to_set().insert(w@),
        !inserted ==> final(words)@ == old(words)@,
        inserted ==> exists|p: int|
            0 <= p <= old(words)@.len() && views(final(words)@) == #[trigger] views(old(words)@).insert(p, w@),
{
    let ghost ws = views(words@);
    let mut i: usize = 0;
    while i < words.len()
        invariant
            ws == views(words@),
            strictly_sorted(ws),
            i <= words.len(),
            forall|j: int| 0 <= j < i ==> lex_less(#[trigger] ws[j], w@),
        ensures
            i <= words.len(),
            forall|j: int| 0 <= j < i ==> lex_less(#[trigger] ws[j], w@),
            i < words.len() ==> !lex_less(ws[i as int], w@),
        decreases words.len() - i,
    {
        if !str_less(words[i].as_str(), w.as_str()) {
            break;
        }
        i = i + 1;
    }
    if i < words.len() && words[i] == w {
        assert(ws.contains(w@)) by {
            assert(ws[i as int] == w@);
        }
        return false;
    }
    // `w` goes at `i`: everything before it is smaller, everything from it on larger
    proof {
        if i < ws.len() {
            lemma_lex_total(ws[i as int], w@);
        }
    }
    assert forall|j: int| i <= j < ws.len() implies lex_less(w@, #[trigger] ws[j]) by {
        if j > i {
            lemma_lex_transitive(w@, ws[i as int], ws[j]);
        }
    }
    assert(!ws.contains(w@)) by {
        if ws.contains(w@) {
            let j = choose|j: int| 0 <= j < ws.len() && ws[j] == w@;
            lemma_lex_irreflexive(w@);
        }
    }
    let ghost wv = w@;
    words.insert(i, w);
    let ghost nv = views(words@);
    assert(nv =~= ws.insert(i as int, wv));
    assert(0 <= i <= ws.len() && nv == ws.insert(i as int, wv));
    assert forall|a: int, b: int| 0 <= a < b < nv.len() implies lex_less(
        #[trigger] nv[a],
        #[trigger] nv[b],
    ) by {
        if b < i {
        } else if a < i && b == i {
        } else if a < i {
            lemma_lex_transitive(nv[a], wv, nv[b]);
        } else if a == i {
        } else {
            assert(nv[a] == ws[a - 1] && nv[b] == ws[b - 1]);
        }
    }
    assert(nv.to_set() =~= ws.to_set().insert(wv)) by {
        assert forall|x: Seq<char>| nv.contains(x) <==> ws.to_set().insert(wv).contains(x) by {
            if ws.contains(x) {
                let j = choose|j: int| 0 <= j < ws.len() && ws[j] == x;
                if j < i {
                    assert(nv[j] == x);
                } else {
                    assert(nv[j + 1] == x);
                }
            }
            if nv.contains(x) {
                let j = choose|j: int| 0 <= j < nv.len() && nv[j] == x;
                if j < i {
                    assert(ws[j] == x);
                } else if j > i {
                    assert(ws[j - 1] == x);
                }
            }
            assert(nv[i as int] == wv);
        }
    }
    true
}

/// Whether `w` is one of `dict`.
fn dict_contains(dict: &Vec<String>, w: &String) -> (r: bool)
    ensures
        r == views(dict@).contains(w@),
{
    let mut i: usize = 0;
    while i < dict.len()
        invariant
            i <= dict.len(),
            forall|j: int| 0 <= j < i ==> dict@[j]@ != w@,
        decreases dict.len() - i,
    {
        if dict[i] == *w {
            assert(views(dict@)[i as int] == w@);
            return true;
        }
        i = i + 1;
    }
    assert(!views(dict@).contains(w@)) by {
        if views(dict@).contains(w@) {
            let j = choose|j: int| 0 <= j < dict@.len() && views(dict@)[j] == w@;
            assert(dict@[j]@ == w@);
        }
    }
    false
}

/// Whether `c` is one of the board's letters.
fn on_board(letters: &[char; 7], c: char) -> (r: bool)
    ensures
        r == letters@.contains(c),
{
    let mut k: usize = 0;
    while k < 7
        invariant
            k <= 7,
            forall|j: int| 0 <= j < k ==> letters@[j] != c,
        decreases 7 - k,
    {
        if letters[k] == c {
            assert(letters@[k as int] == c);
            return true;
        }
        k = k + 1;
    }
    false
}

pub struct Game {
    input: String,
    letters: [char; 7],
    words: Vec<String>,
    dict: Vec<String>,
    score: usize,
    error: Option<String>,
}

impl View for Game {
    type V = GameView;

    closed spec fn view(&self) -> GameView {
        GameView {
            letters: self.letters@,
            input: self.input@,
            found: views(self.words@),
            dict: views(self.dict@).to_set(),
            score: self.score as nat,
            error: opt_view(self.error),
        }
    }
}

impl Game {
    /// The invariant of the round, on the view.
    pub open spec fn wf(&self) -> bool {
        self@.inv()
    }

    /// A new round on a freshly drawn board, with an empty dictionary.
    pub fn new() -> (g: Game)
        ensures
            g.wf(),
            is_letter_set(g@.letters),
            g@.input.len() == 0,
            g@.found.len() == 0,
            g@.dict.is_empty(),
            g@.score == 0,
            g@.error is None,
    {
        Game::with_letters(pick_letters())
    }

    /// A new round on the given board (position 0 is the center letter),
    /// with an empty dictionary.
    pub fn with_letters(letters: [char; 7]) -> (g: Game)
        requires
            is_letter_set(letters@),
        ensures
            g.wf(),
            g@.letters == letters@,
            g@.input.len() == 0,
            g@.found.len() == 0,
            g@.dict.is_empty(),
            g@.score == 0,
            g@.error is None,
    {
        let g = Game {
            input: String::new(),
            letters,
            words: Vec::new(),
            dict: Vec::new(),
            score: 0,
            error: None,
        };
        assert(views(g.words@) =~= Seq::empty());
        assert(views(g.dict@).to_set() =~= Set::empty());
        g
    }

    /// Starts a new round on a freshly drawn board; the dictionary stays.
    pub fn restart(&mut self)
        requires
            old(self).wf(),
        ensures
            final(self).wf(),
            is_letter_set(final(self)@.letters),
            final(self)@.input.len() == 0,
            final(self)@.found.len() == 0,
            final(self)@.score == 0,
            final(self)@.dict == old(self)@.dict,
            final(self)@.error == old(self)@.error,
    {
        self.input = String::new();
        self.letters = pick_letters();
        self.words = Vec::new();
        self.score = 0;
        assert(views(self.words@) =~= Seq::empty());
    }

    /// Replaces the dictionary.
    pub fn set_dict(&mut self, dict: Vec<String>)
        requires
            old(self).wf(),
        ensures
            final(self).wf(),
            final(self)@ == (GameView { dict: views(dict@).to_set(), ..old(self)@ }),
    {
        self.dict = dict;
    }

    pub fn score(&self) -> (r: usize)
        ensures
            r == self@.score,
    {
        self.score
    }

    pub fn input(&self) -> (r: &str)
        ensures
            r@ == self@.input,
    {
        self.input.as_str()
    }

    pub fn letters(&self) -> (r: [char; 7])
        requires
            self.wf(),
        ensures
            r@ == self@.letters,
            is_letter_set(r@),
    {
        self.letters
    }

    /// The words found this round, in lexicographic order.
    pub fn words(&self) -> (r: &Vec<String>)
        requires
            self.wf(),
        ensures
            views(r@) == self@.found,
            strictly_sorted(views(r@)),
    {
        &self.words
    }

    pub fn error(&self) -> (r: &Option<String>)
        ensures
            opt_view(*r) == self@.error,
    {
        &self.error
    }

    pub fn clear_error(&mut self)
        requires
            old(self).wf(),
        ensures
            final(self).wf(),
            final(self)@ == (GameView { error: None, ..old(self)@ }),
    {
        self.error = None;
    }

    /// The message for the first rule that the typed word breaks, if any.
    pub fn check(&self) -> (r: Option<String>)
        requires
            self.wf(),
        ensures
            opt_view(r) == rejection(self@.letters, self@.input, self@.dict),
    {
        let s = self.input.as_str();
        let n = s.unicode_len();
        let ghost w = self.input@;
        let ghost letters = self.letters@;
        let mut i: usize = 0;
        assert(w.subrange(0, n as int) =~= w);
        while i < n
            invariant
                n == w.len(),
                w == s@,
                w == self.input@,
                letters == self.letters@,
                i <= n,
                stray_letter(letters, w) == stray_letter(letters, w.subrange(i as int, n as int)),
                forall|j: int| 0 <= j < i ==> letters.contains(#[trigger] w[j]),
            decreases n - i,
        {
            let c = s.get_char(i);
            let ghost rest = w.subrange(i as int, n as int);
            assert(rest[0] == c);
            if !on_board(&self.letters, c) {
                assert(stray_letter(letters, rest) == Some(c));
                let mut m = String::new();
                push_char(&mut m, c);
                m.append(" is not in the letter set.");
                assert(m@ =~= not_in_set_message(c));
                return Some(m);
            }
            assert(rest.drop_first() =~= w.subrange(i + 1, n as int));
            i = i + 1;
        }
        assert(stray_letter(letters, w.subrange(n as int, n as int)) is None);
        if n == 0 {
            return Some(String::from_str("No input entered."));
        }
        if n < MIN_WORD_LEN {
            return Some(String::from_str("Words must be at least 4 characters."));
        }
        let center = self.letters[0];
        if !str_contains(s, center) {
            let mut m = String::from_str("Words must include the center letter (");
            push_char(&mut m, center);
            m.append(").");
            assert(m@ =~= missing_center_message(center));
            return Some(m);
        }
        assert(all_ascii(s@)) by {
            assert forall|j: int| 0 <= j < w.len() implies (#[trigger] w[j] as u32) < 128 by {
                assert(letters.contains(w[j]));
                let k = choose|k: int| 0 <= k < letters.len() && letters[k] == w[j];
                assert(is_vowel(letters[k]) || is_consonant(letters[k]));
            }
        }
        let lower = to_lower(s);
        if !dict_contains(&self.dict, &lower) {
            let mut m = String::from_str(s);
            m.append(" is not in the dictionary.");
            return Some(m);
        }
        None
    }

    /// The points that the typed word would earn.
    pub fn eval_score(&self) -> (r: usize)
        ensures
            r == word_score(self@.letters, self@.input),
    {
        let s = self.input.as_str();
        let mut k: usize = 0;
        while k < 7
            invariant
                k <= 7,
                s@ == self@.input,
                forall|j: int| 0 <= j < k ==> s@.contains(#[trigger] self.letters@[j]),
            decreases 7 - k,
        {
            if !str_contains(s, self.letters[k]) {
                assert(!is_pangram(self@.letters, self@.input)) by {
                    assert(!s@.contains(self.letters@[k as int]));
                }
                return WORD_POINTS;
            }
            k = k + 1;
        }
        PANGRAM_POINTS
    }

    /// Submits the typed word. A word that breaks a rule is dropped and the
    /// rule's message is left in the error; a word found before is kept
    /// and reported; any other word is added to the found words and scored.
    pub fn submit(&mut self)
        requires
            old(self).wf(),
            old(self)@.score + PANGRAM_POINTS <= usize::MAX,
        ensures
            final(self).wf(),
            submitted(old(self)@, final(self)@),
    {
        match self.check() {
            Some(err) => {
                self.error = Some(err);
                self.input = String::new();
            },
            None => {
                let points = self.eval_score();
                let word = self.input.clone();
                let ghost o = self@;
                if insert_sorted(&mut self.words, word) {
                    self.score = self.score + points;
                    self.input = String::new();
                    proof {
                        let p = choose|p: int|
                            0 <= p <= o.found.len() && self@.found == #[trigger] o.found.insert(
                                p,
                                o.input,
                            );
                        lemma_total_score_insert(o.letters, o.found, p, o.input);
                        assert(fits_board(o.letters, o.input));
                        assert forall|i: int| 0 <= i < self@.found.len() implies fits_board(
                            o.letters,
                            #[trigger] self@.found[i],
                        ) by {
                            if i < p {
                                assert(self@.found[i] == o.found[i]);
                            } else if i > p {
                                assert(self@.found[i] == o.found[i - 1]);
                            }
                        }
                    }
                } else {
                    self.error = Some(String::from_str("You already found that word!"));
                }
            },
        }
    }

    /// Removes the last typed character, if there is one.
    pub fn backspace(&mut self)
        requires
            old(self).wf(),
        ensures
            final(self).wf(),
            old(self)@.input.len() == 0 ==> final(self)@ == old(self)@,
            old(self)@.input.len() > 0 ==> final(self)@ == (GameView {
                input: old(self)@.input.drop_last(),
                ..old(self)@
            }),
    {
        pop_char(&mut self.input);
    }

    /// Empties the typed word.
    pub fn clear(&mut self)
        requires
            old(self).wf(),
        ensures
            final(self).wf(),
            final(self)@ == (GameView { input: Seq::empty(), ..old(self)@ }),
    {
        self.input = String::new();
    }

    /// Types one character, as an ASCII capital where it is a small letter.
    pub fn push(&mut self, c: char)
        requires
            old(self).wf(),
        ensures
            final(self).wf(),
            final(self)@ == (GameView { input: old(self)@.input.push(ascii_upper(c)), ..old(self)@ }),
    {
        push_char(&mut self.input, to_upper(c));
    }
}

/// Submitting a word that passed every rule, typing it again and submitting
/// it once more leaves the score and the found words as they were, reports
/// the word as already found, and keeps it typed.
pub proof fn lemma_resubmit_is_duplicate(o: GameView, m: GameView, n: GameView)
    requires
        submitted(o, m),
        rejection(o.letters, o.input, o.dict) is None,
        submitted(GameView { input: o.input, ..m }, n),
    ensures
        n.score == m.score,
        n.found == m.found,
        n.error == Some(already_found_message()),
        n.input == o.input,
{
    if !o.found.contains(o.input) {
        assert(m.found.to_set().contains(o.input));
    }
}

/// A word typed in small letters is stored in capitals and looked up in the
/// dictionary as the word itself.
pub proof fn lemma_case_round_trip(w: Seq<char>)
    requires
        forall|i: int| 0 <= i < w.len() ==> 'a' <= #[trigger] w[i] <= 'z',
    ensures
        ascii_lowercase(w.map_values(|c: char| ascii_upper(c))) == w,
{
    let typed = w.map_values(|c: char| ascii_upper(c));
    assert forall|i: int| 0 <= i < w.len() implies #[trigger] ascii_lowercase(typed)[i] == w[i] by {
        let c = w[i];
        vstd::utf8::char_u32_cast(c, c as u32);
        vstd::utf8::char_u32_cast(typed[i], typed[i] as u32);
    }
    assert(ascii_lowercase(typed) =~= w);
}

/// The first character of `w` that is off the board is the one `stray_letter` finds.
proof fn lemma_stray_letter_first(letters: Seq<char>, w: Seq<char>, k: int)
    requires
        0 <= k < w.len(),
        !letters.contains(w[k]),
        forall|j: int| 0 <= j < k ==> letters.contains(#[trigger] w[j]),
    ensures
        stray_letter(letters, w) == Some(w[k]),
    decreases k,
{
    if k > 0 {
        assert(letters.contains(w[0]));
        let rest = w.drop_first();
        assert forall|j: int| 0 <= j < k - 1 implies letters.contains(#[trigger] rest[j]) by {
            assert(rest[j] == w[j + 1]);
        }
        lemma_stray_letter_first(letters, rest, k - 1);
    }
}

/// A word made only of board letters has no stray letter.
proof fn lemma_no_stray_letter(letters: Seq<char>, w: Seq<char>)
    requires
        forall|j: int| 0 <= j < w.len() ==> letters.contains(#[trigger] w[j]),
    ensures
        stray_letter(letters, w) is None,
    decreases w.len(),
{
    if w.len() > 0 {
        let rest = w.drop_first();
        assert(letters.contains(w[0]));
        assert forall|j: int| 0 <= j < rest.len() implies letters.contains(#[trigger] rest[j]) by {
            assert(rest[j] == w[j + 1]);
        }
        lemma_no_stray_letter(letters, rest);
    }
}

/// A word with a character off the board is rejected naming the first such
/// character, whatever its length, center letter or dictionary.
pub proof fn lemma_first_stray_letter_reported(
    letters: Seq<char>,
    input: Seq<char>,
    dict: Set<Seq<char>>,
    k: int,
)
    requires
        0 <= k < input.len(),
        !letters.contains(input[k]),
        forall|j: int| 0 <= j < k ==> letters.contains(#[trigger] input[j]),
    ensures
        rejection(letters, input, dict) == Some(not_in_set_message(input[k])),
{
    lemma_stray_letter_first(letters, input, k);
}

/// A word of one to three board letters is rejected as too short, whether
/// or not it has the center letter or is in the dictionary.
pub proof fn lemma_short_word_rejected(letters: Seq<char>, input: Seq<char>, dict: Set<Seq<char>>)
    requires
        1 <= input.len() < MIN_WORD_LEN,
        forall|j: int| 0 <= j < input.len() ==> letters.contains(#[trigger] input[j]),
    ensures
        rejection(letters, input, dict) == Some(too_short_message()),
{
    lemma_no_stray_letter(letters, input);
}

/// A long enough word made only of outer letters is rejected for lacking
/// the center letter, even if it is in the dictionary.
pub proof fn lemma_center_required(letters: Seq<char>, input: Seq<char>, dict: Set<Seq<char>>)
    requires
        letters.len() > 0,
        input.len() >= MIN_WORD_LEN,
        forall|j: int|
            0 <= j < input.len() ==> letters.subrange(1, letters.len() as int).contains(
                #[trigger] input[j],
            ),
        !input.contains(letters[0]),
    ensures
        rejection(letters, input, dict) == Some(missing_center_message(letters[0])),
{
    assert forall|j: int| 0 <= j < input.len() implies letters.contains(#[trigger] input[j]) by {
        let outer = letters.subrange(1, letters.len() as int);
        let k = choose|k: int| 0 <= k < outer.len() && outer[k] == input[j];
        assert(letters[k + 1] == input[j]);
    }
    lemma_no_stray_letter(letters, input);
}

} // verus!
