//! # wordle_solver
//!
//! A small verified library that helps win a Wordle-style word-guessing game.
//!
//! The core is the [`solver::Solver`]: it is built once from a dictionary of
//! words, owns the pool of candidate words together with two lookup indices
//! (by letter, and by letter and position), and prunes the pool as hints
//! derived from the game's feedback are ingested, until at most one candidate
//! remains.
//!
//! The [`words`] module filters a raw word list down to the dictionary the
//! solver is built from; reading the list from storage and the interactive
//! guess/feedback loop are left to the surrounding application.

pub mod hint;
pub mod laws;
pub mod model;
pub mod solver;
pub mod words;

pub use hint::Hint;
pub use hint::HintParseError;
pub use hint::HintType;
pub use solver::Solver;
pub use words::filter_words;
