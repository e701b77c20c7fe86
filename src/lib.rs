//! A terminal word-guessing game: word normalization, dictionary loading,
//! letter-by-letter scoring of guesses and the turn state machine.

pub mod game;
pub mod normalize;
pub mod scoring;

pub use game::{GameStatus, GuessError, RustleGame, MAX_TRIES};
pub use normalize::{sanitize_word, strip_non_letters, words_list, WORD_LENGTH};
pub use scoring::{create_charmap, score_guess, Verdict};
