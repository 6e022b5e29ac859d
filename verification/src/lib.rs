//! An assistant for a five-letter word guessing game: it evaluates guesses,
//! narrows the set of candidate solutions from the feedback received, and
//! proposes the guess expected to eliminate the most candidates.
//!
//! - `alphabet`: letters, words and sets of letters.
//! - `outcome`: the feedback for a guess, one classification per letter.
//! - `evaluate`: the feedback that a guess gets against a solution.
//! - `frequency`: bounds on the number of occurrences of a letter.
//! - `selector`: the gain of a guess over the candidates.
//! - `model`: the mathematical model of a game and the laws it obeys.
//! - `state`: the game state itself.
//! - `text`: rendering of numbers and word lists.

pub mod alphabet;
pub mod evaluate;
pub mod frequency;
pub mod model;
pub mod outcome;
pub mod selector;
pub mod state;
pub mod text;

pub use alphabet::{is_valid_word, is_valid_word_list, LetterSet, WORD_LENGTH};
pub use evaluate::evaluate_guess;
pub use frequency::FrequencyPredicate;
pub use model::{Progress, BEST_FIRST_GUESS, NUM_GUESSES};
pub use outcome::{GuessOutcome, LetterOutcome};
pub use state::GameState;
