//! A verified solver core for a five-letter word-guessing puzzle.
//!
//! The library ranks candidate words by letter-frequency heuristics, keeps a
//! constraint state describing everything learned from feedback on the
//! guesses made so far, prunes candidate pools against that state, and
//! searches the space of guess sequences for a shortest solving path.

pub mod laws;
pub mod play;
pub mod score;
pub mod search;
pub mod words;
