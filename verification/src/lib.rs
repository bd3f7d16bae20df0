//! Move generation and scoring for a 15x15 crossword-tile word game.
//!
//! The engine keeps a lexicon as a trie, derives the admissible letters of
//! every empty square from the tiles already placed, and enumerates every
//! placement of a lexicon word that a rack allows, together with its score.
//!
//! The board, the lexicon, the scoring and the generator come first; then
//! what the generator is proved to find; then word lists, tables and text.

pub mod error;
pub mod letter;
pub mod bits;
pub mod board;
pub mod lexicon;
pub mod score;
pub mod rack;
pub mod lines;
pub mod squares;
pub mod generation;
pub mod legal_moves;
pub mod ranking;
pub mod orchestrator;

pub mod placement;
pub mod extension;
pub mod soundness;
pub mod completeness;
pub mod distinct;
pub mod validity;
pub mod laws;

pub mod text;
pub mod tree;
pub mod dictionaries;
pub mod boards;
pub mod tiles;
pub mod display;
pub mod render;
