use vstd::prelude::*;
use bracket_random::prelude::RandomNumberGenerator;
use crate::normalize::{dictionary_of, sanitize_word, sanitized, views_of, words_list, WORD_LENGTH};
use crate::scoring::{chars_of, fully_absent, newly_eliminated, score_guess, scored, Verdict};

verus! {

/// The number of accepted guesses after which a game without a match is lost.
pub const MAX_TRIES: usize = 6;

#[verifier::external_type_specification]
#[verifier::external_body]
pub struct ExRandomNumberGenerator(RandomNumberGenerator);

/// Relies on bracket_random's `RandomNumberGenerator::new`: a generator with
/// a fresh seed. Nothing is known of the numbers it will give.
pub assume_specification[ RandomNumberGenerator::new ]() -> RandomNumberGenerator;

/// Relies on bracket_random's `RandomNumberGenerator::random_slice_entry`:
/// `None` for an empty slice, otherwise one of its entries. The slice's
/// length is handed to `roll_dice` as an `i32` die size plus one, so it is
/// kept below `i32::MAX`.
pub assume_specification<'a, T>[ RandomNumberGenerator::random_slice_entry::<T> ](
    rng: &mut RandomNumberGenerator,
    slice: &'a [T],
) -> (r: Option<&'a T>)
    requires
        slice@.len() < i32::MAX,
    ensures
        r is Some <==> slice@.len() > 0,
        r matches Some(x) ==> exists|i: int| 0 <= i < slice@.len() && slice@[i] == *x,
;

/// Where a game stands.
#[derive(Clone, Copy, Debug, PartialEq, Eq, Structural)]
pub enum GameStatus {
    /// The player may guess again.
    InProgress,
    /// An accepted guess equalled the secret word.
    Won,
    /// The last try went by without a match.
    Lost,
}

/// Why a submitted guess was not accepted.
#[derive(Clone, Debug)]
pub enum GuessError {
    /// The normalized guess does not have the word length.
    WrongLength,
    /// The normalized guess, given here, is not a candidate word.
    UnknownWord(String),
}

/// A game: the candidate words, the secret word, the letters shown to be
/// absent so far and the scored guesses so far.
pub struct RustleGame {
    dictionary: Vec<String>,
    word: String,
    guessed_letters: Vec<char>,
    guesses: Vec<Vec<(char, Verdict)>>,
}

/// What a game holds, as mathematical values.
pub struct GameView {
    pub dictionary: Seq<Seq<char>>,
    pub secret: Seq<char>,
    pub eliminated: Set<char>,
    pub history: Seq<Seq<(char, Verdict)>>,
}

/// The letters of a scored guess.
pub open spec fn word_of(h: Seq<(char, Verdict)>) -> Seq<char> {
    h.map_values(|p: (char, Verdict)| p.0)
}

/// A game is won once an accepted guess equals the secret, and lost once
/// the tries are used up without that.
pub open spec fn status_of(v: GameView) -> GameStatus {
    if exists|i: int| 0 <= i < v.history.len() && word_of(#[trigger] v.history[i]) == v.secret {
        GameStatus::Won
    } else if v.history.len() >= MAX_TRIES {
        GameStatus::Lost
    } else {
        GameStatus::InProgress
    }
}

impl View for RustleGame {
    type V = GameView;

    closed spec fn view(&self) -> GameView {
        GameView {
            dictionary: views_of(self.dictionary@),
            secret: self.word@,
            eliminated: self.guessed_letters@.to_set(),
            history: self.guesses@.map_values(|h: Vec<(char, Verdict)>| h@),
        }
    }
}

proof fn lemma_word_of_scored(s: Seq<char>, g: Seq<char>)
    ensures
        word_of(scored(s, g)) == g,
{
    assert(word_of(scored(s, g)) =~= g);
}

/// Whether `v` holds `c`.
fn has_letter(v: &Vec<char>, c: char) -> (r: bool)
    ensures
        r == v@.contains(c),
{
    let mut i: usize = 0;
    while i < v.len()
        invariant
            i <= v@.len(),
            forall|j: int| 0 <= j < i ==> v@[j] != c,
        decreases v.len() - i,
    {
        if v[i] == c {
            return true;
        }
        i += 1;
    }
    false
}

/// Whether the letters of `h` are `w`.
fn spells(h: &Vec<(char, Verdict)>, w: &Vec<char>) -> (r: bool)
    ensures
        r == (word_of(h@) == w@),
{
    if h.len() != w.len() {
        return false;
    }
    let mut i: usize = 0;
    while i < h.len()
        invariant
            h@.len() == w@.len(),
            i <= h@.len(),
            forall|j: int| 0 <= j < i ==> h@[j].0 == w@[j],
        decreases h.len() - i,
    {
        if h[i].0 != w[i] {
            return false;
        }
        i += 1;
    }
    assert(word_of(h@) =~= w@);
    true
}

/// Whether some entry of `dictionary` is `w`.
fn in_dictionary(dictionary: &Vec<String>, w: &String) -> (r: bool)
    ensures
        r == views_of(dictionary@).contains(w@),
{
    let mut i: usize = 0;
    while i < dictionary.len()
        invariant
            i <= dictionary@.len(),
            forall|j: int| 0 <= j < i ==> dictionary@[j]@ != w@,
        decreases dictionary.len() - i,
    {
        if dictionary[i] == *w {
            assert(views_of(dictionary@)[i as int] == w@);
            return true;
        }
        i += 1;
    }
    proof {
        if views_of(dictionary@).contains(w@) {
            let j = choose|j: int| 0 <= j < views_of(dictionary@).len() && views_of(dictionary@)[j] == w@;
            assert(dictionary@[j]@ == w@);
        }
    }
    false
}

impl RustleGame {
    /// The game is fit to take guesses: its secret word has the word length.
    pub closed spec fn wf(&self) -> bool {
        &&& self.word@.len() == WORD_LENGTH
        &&& self.guesses@.len() <= MAX_TRIES
    }

    /// Starts a game on the word list `text`, with a secret word drawn at
    /// random from its candidate words. `None` where there is no candidate,
    /// or too many to draw from.
    pub fn new(text: &str) -> (r: Option<Self>)
        ensures
            r is None <==> (dictionary_of(text@).len() == 0 || dictionary_of(text@).len()
                >= i32::MAX),
            r matches Some(game) ==> {
                &&& game.wf()
                &&& game@.dictionary == dictionary_of(text@)
                &&& game@.dictionary.contains(game@.secret)
                &&& game@.eliminated == Set::<char>::empty()
                &&& game@.history.len() == 0
                &&& status_of(game@) == GameStatus::InProgress
            },
    {
        let dictionary = words_list(text);
        if dictionary.len() == 0 || dictionary.len() >= i32::MAX as usize {
            return None;
        }
        let mut rng = RandomNumberGenerator::new();
        let word = match rng.random_slice_entry(dictionary.as_slice()) {
            Some(w) => w.clone(),
            None => {
                return None;
            },
        };
        proof {
            let i = choose|i: int| 0 <= i < dictionary@.len() && dictionary@[i] == word;
            assert(views_of(dictionary@)[i] == word@);
        }
        let game = RustleGame {
            dictionary,
            word,
            guessed_letters: Vec::new(),
            guesses: Vec::new(),
        };
        assert(game@.eliminated =~= Set::<char>::empty());
        Some(game)
    }

    /// Starts a game on `dictionary` with `word` as the secret word.
    pub fn with_secret(dictionary: Vec<String>, word: String) -> (r: Self)
        ensures
            r@.dictionary == views_of(dictionary@),
            r@.secret == word@,
            r@.eliminated == Set::<char>::empty(),
            r@.history.len() == 0,
            word@.len() == WORD_LENGTH ==> r.wf(),
    {
        let game = RustleGame { dictionary, word, guessed_letters: Vec::new(), guesses: Vec::new() };
        assert(game@.eliminated =~= Set::<char>::empty());
        game
    }

    /// Scores `guess` against the secret word, and adds to the eliminated
    /// letters every letter of the guess that is Absent at each of its
    /// occurrences.
    pub fn colorize_guess(&mut self, guess: &str) -> (r: Vec<(char, Verdict)>)
        requires
            guess@.len() == old(self)@.secret.len(),
            guess@.len() <= i32::MAX,
        ensures
            r@ == scored(old(self)@.secret, guess@),
            final(self)@.eliminated == old(self)@.eliminated.union(
                newly_eliminated(old(self)@.secret, guess@),
            ),
            final(self)@.dictionary == old(self)@.dictionary,
            final(self)@.secret == old(self)@.secret,
            final(self)@.history == old(self)@.history,
            old(self).wf() ==> final(self).wf(),
    {
        let ghost s = self.word@;
        let ghost g = guess@;
        let r = score_guess(self.word.as_str(), guess);
        let n = r.len();
        let mut p: usize = 0;
        while p < n
            invariant
                r@ == scored(s, g),
                n == g.len(),
                p <= n,
                s == old(self).word@,
                self.word == old(self).word,
                self.dictionary == old(self).dictionary,
                self.guesses == old(self).guesses,
                self.guessed_letters@.to_set() == old(self).guessed_letters@.to_set().union(
                    Set::new(
                        |c: char| fully_absent(s, g, c) && exists|q: int| 0 <= q < p && g[q] == c,
                    ),
                ),
            decreases n - p,
        {
            let c = r[p].0;
            let ghost before = self.guessed_letters@;
            if r[p].1 == Verdict::Absent {
                let mut all_absent = true;
                let mut q: usize = 0;
                while q < n
                    invariant
                        r@ == scored(s, g),
                        n == g.len(),
                        q <= n,
                        all_absent == forall|j: int|
                            0 <= j < q && g[j] == c ==> r@[j].1 == Verdict::Absent,
                    decreases n - q,
                {
                    if r[q].0 == c && r[q].1 != Verdict::Absent {
                        all_absent = false;
                    }
                    q += 1;
                }
                if all_absent && !has_letter(&self.guessed_letters, c) {
                    self.guessed_letters.push(c);
                }
                proof {
                    assert(g[p as int] == c);
                    assert(all_absent == fully_absent(s, g, c));
                    assert(self.guessed_letters@.to_set() =~= before.to_set().union(
                        if all_absent { set![c] } else { Set::empty() },
                    )) by {
                        if all_absent && !before.contains(c) {
                            assert(self.guessed_letters@ == before.push(c));
                            vstd::seq_lib::lemma_seq_contains_after_push(before, c, c);
                            assert forall|d: char| self.guessed_letters@.contains(d) <==> before.contains(d) || d == c by {
                                if self.guessed_letters@.contains(d) && d != c {
                                    let j = choose|j: int| 0 <= j < self.guessed_letters@.len() && self.guessed_letters@[j] == d;
                                    assert(before[j] == d);
                                }
                                if before.contains(d) {
                                    let j = choose|j: int| 0 <= j < before.len() && before[j] == d;
                                    assert(self.guessed_letters@[j] == d);
                                }
                            }
                        }
                    }
                }
            }
            proof {
                assert(g[p as int] == c);
                assert(self.guessed_letters@.to_set() =~= old(self).guessed_letters@.to_set().union(
                    Set::new(
                        |d: char| fully_absent(s, g, d) && exists|q: int| 0 <= q < p + 1 && g[q] == d,
                    ),
                )) by {
                    assert forall|d: char|
                        fully_absent(s, g, d) && (exists|q: int| 0 <= q < p + 1 && g[q] == d)
                            implies (exists|q: int| 0 <= q < p && g[q] == d) || d == c by {
                    }
                    if fully_absent(s, g, c) {
                        assert(r@[p as int].1 == Verdict::Absent);
                    }
                }
            }
            p += 1;
        }
        assert(self.guessed_letters@.to_set() =~= old(self).guessed_letters@.to_set().union(
            newly_eliminated(s, g),
        ));
        r
    }

    /// Takes one line of player input as a guess. The line is normalized;
    /// it is refused where it does not have the word length, or is not a
    /// candidate word, and the game is then left as it was. Otherwise it is
    /// scored, the eliminated letters grow, the scored guess joins the
    /// history, and the game is won where it matches the secret word and
    /// lost where that was the last try.
    pub fn submit_guess(&mut self, guess: &str) -> (r: Result<String, GuessError>)
        requires
            old(self).wf(),
            status_of(old(self)@) == GameStatus::InProgress,
        ensures
            final(self).wf(),
            final(self)@.history.len() <= MAX_TRIES,
            match r {
                Err(GuessError::WrongLength) => {
                    &&& sanitized(guess@).len() != WORD_LENGTH
                    &&& final(self)@ == old(self)@
                },
                Err(GuessError::UnknownWord(w)) => {
                    &&& sanitized(guess@).len() == WORD_LENGTH
                    &&& !old(self)@.dictionary.contains(sanitized(guess@))
                    &&& w@ == sanitized(guess@)
                    &&& final(self)@ == old(self)@
                },
                Ok(w) => {
                    &&& sanitized(guess@).len() == WORD_LENGTH
                    &&& old(self)@.dictionary.contains(sanitized(guess@))
                    &&& w@ == sanitized(guess@)
                    &&& final(self)@.dictionary == old(self)@.dictionary
                    &&& final(self)@.secret == old(self)@.secret
                    &&& final(self)@.history == old(self)@.history.push(
                        scored(old(self)@.secret, w@),
                    )
                    &&& final(self)@.eliminated == old(self)@.eliminated.union(
                        newly_eliminated(old(self)@.secret, w@),
                    )
                    &&& status_of(final(self)@) == if w@ == old(self)@.secret {
                        GameStatus::Won
                    } else if old(self)@.history.len() + 1 == MAX_TRIES {
                        GameStatus::Lost
                    } else {
                        GameStatus::InProgress
                    }
                },
            },
    {
        let w = sanitize_word(guess);
        if w.unicode_len() != WORD_LENGTH {
            return Err(GuessError::WrongLength);
        }
        if !in_dictionary(&self.dictionary, &w) {
            return Err(GuessError::UnknownWord(w));
        }
        let ghost before = self@;
        let entry = self.colorize_guess(w.as_str());
        self.guesses.push(entry);
        proof {
            assert(self@.history =~= before.history.push(scored(before.secret, w@)));
            lemma_word_of_scored(before.secret, w@);
            lemma_step_status(before, scored(before.secret, w@));
        }
        Ok(w)
    }

    /// Whether the game ends after `guess`: it equals the secret word, or
    /// the tries are used up.
    pub fn is_game_over(&self, guess: &str) -> (r: bool)
        ensures
            r == (guess@ == self@.secret || self@.history.len() >= MAX_TRIES),
    {
        let g = guess.to_owned();
        g == self.word || self.guesses.len() >= MAX_TRIES
    }

    /// Where the game stands.
    pub fn status(&self) -> (r: GameStatus)
        ensures
            r == status_of(self@),
    {
        let w = chars_of(self.word.as_str());
        let mut i: usize = 0;
        while i < self.guesses.len()
            invariant
                w@ == self@.secret,
                i <= self@.history.len(),
                self@.history.len() == self.guesses@.len(),
                forall|j: int| 0 <= j < i ==> word_of(#[trigger] self@.history[j]) != self@.secret,
            decreases self.guesses.len() - i,
        {
            assert(self@.history[i as int] == self.guesses@[i as int]@);
            if spells(&self.guesses[i], &w) {
                return GameStatus::Won;
            }
            i += 1;
        }
        if self.guesses.len() >= MAX_TRIES {
            GameStatus::Lost
        } else {
            GameStatus::InProgress
        }
    }

    /// The secret word.
    pub fn word(&self) -> (r: &str)
        ensures
            r@ == self@.secret,
    {
        self.word.as_str()
    }

    /// The candidate words.
    pub fn dictionary(&self) -> (r: &Vec<String>)
        ensures
            views_of(r@) == self@.dictionary,
    {
        &self.dictionary
    }

    /// The letters shown to be absent so far, each once.
    pub fn guessed_letters(&self) -> (r: &Vec<char>)
        ensures
            r@.to_set() == self@.eliminated,
    {
        &self.guessed_letters
    }

    /// The scored guesses so far, oldest first.
    pub fn guesses(&self) -> (r: &Vec<Vec<(char, Verdict)>>)
        ensures
            r@.map_values(|h: Vec<(char, Verdict)>| h@) == self@.history,
    {
        &self.guesses
    }
}

/// One accepted guess moves a game in progress to Won exactly when the
/// guess is the secret word, whatever tries remain, and to Lost exactly when
/// it is not and it was the last try.
pub proof fn lemma_step_status(v: GameView, entry: Seq<(char, Verdict)>)
    requires
        status_of(v) == GameStatus::InProgress,
    ensures
        ({
            let next = GameView { history: v.history.push(entry), ..v };
            &&& status_of(next) == GameStatus::Won <==> word_of(entry) == v.secret
            &&& status_of(next) == GameStatus::Lost <==> (word_of(entry) != v.secret
                && v.history.len() + 1 == MAX_TRIES)
        }),
{
    let next = GameView { history: v.history.push(entry), ..v };
    assert(next.history[v.history.len() as int] == entry);
    if exists|i: int| 0 <= i < next.history.len() && word_of(#[trigger] next.history[i]) == next.secret {
        let i = choose|i: int| 0 <= i < next.history.len() && word_of(#[trigger] next.history[i]) == next.secret;
        if i < v.history.len() {
            assert(next.history[i] == v.history[i]);
        }
    }
}

/// A game whose history is within the try limit is lost exactly when it has
/// taken the maximum number of accepted guesses and none equals the secret
/// word, and won exactly when one of them does.
pub proof fn lemma_end_states(v: GameView)
    requires
        v.history.len() <= MAX_TRIES,
    ensures
        status_of(v) == GameStatus::Lost <==> (v.history.len() == MAX_TRIES && forall|i: int|
            0 <= i < v.history.len() ==> word_of(#[trigger] v.history[i]) != v.secret),
        status_of(v) == GameStatus::Won <==> exists|i: int|
            0 <= i < v.history.len() && word_of(#[trigger] v.history[i]) == v.secret,
{
}

} // verus!
