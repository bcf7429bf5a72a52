//! Solver core for a Wordle-like guessing game in which the first letter of
//! the hidden word is revealed.  Words are sequences of bytes in `b'a'..=b'z'`.
//!
//! The pipeline is: a dictionary of candidate words, a [`mask::Mask`] holding
//! everything learned so far, the coloring of a guess against a target
//! ([`color::ResultState`]), and a selector that picks the guess minimising
//! the expected number of surviving candidates.

pub mod color;
pub mod dico;
pub mod laws;
pub mod letter_mask;
pub mod mask;
pub mod select;
pub mod word;
