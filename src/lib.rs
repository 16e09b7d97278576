//! A seven-letter word puzzle: a board of letters with one center letter,
//! and an engine that validates and scores the words a player submits.
pub mod dictionary;
pub mod game;
pub mod letters;
pub mod text;

pub use dictionary::{dictionary_word, dictionary_words};
pub use game::Game;
pub use letters::{is_board, pick_letters};
