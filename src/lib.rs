//! A solver core for a five-letter word-guessing game: feedback masks, their
//! dense encoding, a game referee, the dictionary's frequency order and the
//! discrete parts of an entropy-based guess selector.
use vstd::prelude::*;

pub mod correctness;
pub mod frequency;
pub mod game;
pub mod pattern;
pub mod selector;

pub use correctness::{Correctness, Guess};
pub use game::{Guesser, Outcome, Wordle};
pub use pattern::{all_patterns, enumerate_mask, MAX_MASK_ENUM};

verus! {

/// The number of letters in every word of the game.
pub const WORD_LENGTH: usize = 5;

} // verus!
