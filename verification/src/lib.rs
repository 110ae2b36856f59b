//! Game logic of a Spelling Bee style word puzzle: character normalization,
//! word-list filtering, puzzle generation, guess scoring, the progress kept
//! per language, and the decisions of the interactive game.

pub mod text;
pub mod normalize;
pub mod game;
pub mod language;
pub mod letters;
pub mod order;
pub mod collation;
pub mod generate;
pub mod wordlist;
pub mod paths;
pub mod progress;
pub mod session;
