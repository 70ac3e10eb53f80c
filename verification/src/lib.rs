//! A verified engine for a five-letter word-guessing game: scoring guesses
//! against a secret with correct duplicate handling, accumulating the
//! constraints the feedback reveals, enforcing hard mode, filtering
//! candidate pools, and aggregating statistics over finished rounds.

pub mod args;
pub mod game;
pub mod letters;
pub mod stats;
pub mod utils;
pub mod words;
