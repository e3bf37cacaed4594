//! A Wordle game engine: colouring guesses, the hard-mode rule, word lists,
//! guess statistics and the saved game history.

pub mod letters;
pub mod game;
pub mod feedback;
pub mod hard_mode;
pub mod words;
pub mod stats;
pub mod history;
pub mod play;
pub mod setup;
