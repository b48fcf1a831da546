//! A Wordle solver: feedback computation, consistency checks, candidate
//! pruning and the bookkeeping around an entropy-based guess selector.
//!
//! - [`correctness`]: the mask that a guess earns against an answer.
//! - [`guess`]: a guess with its mask, and the test whether a word could be
//!   the answer behind it.
//! - [`pattern`]: masks as integers below 243.
//! - [`cache`]: the table of mask indices for pairs of dictionary words,
//!   filled on first use.
//! - [`solver`]: the candidates of a game, how they are narrowed, what a
//!   guess would reveal and which scored candidate is guessed.
//! - [`game`]: the dictionary as a set of words, and the rounds of a game.
//! - [`dictionary`], [`input`], [`stats`]: dictionary lines, typed masks and
//!   the tally of scores.
//!
//! Scores are floating-point numbers and are computed by the caller: the
//! solver says what each guess would reveal and picks by the keys it is
//! handed.

pub mod cache;
pub mod correctness;
pub mod dictionary;
pub mod game;
pub mod guess;
pub mod input;
pub mod pattern;
pub mod solver;
pub mod stats;

pub use cache::{cachable_enumeration, FeedbackCache};
pub use correctness::Correctness;
pub use dictionary::{parse_entry, same_word, valid_word, Entry};
pub use game::{is_solved, Progress, Round, Wordle, ALLOWED_GUESSES, MAX_TURNS};
pub use guess::Guess;
pub use input::{parse_codes, parse_mask, MaskError};
pub use pattern::{enumerate_mask, mask_of_index, PackedCorrectness, MAX_MASK_ENUM};
pub use solver::{first_minimum, Solver, Tuning};
pub use stats::Statistics;
