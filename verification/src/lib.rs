//! A verified rules engine and computer opponent for 8-by-8 draughts
//! with mandatory chained captures and king promotion.
//!
//! `model` and `rules` define the game mathematically: the grid, move
//! generation with jump chains, and what one turn does to the board.
//! `eval` defines the static evaluation and the pruned minimax search.
//! The executable engine in `board`, `moves`, `turn`, `heur` and
//! `search` is proved to return exactly those values; `laws` and
//! `prune` state the engine's general theorems, among them that
//! alpha-beta pruning never changes the search result and that the
//! score cache is invisible.

pub mod board;
pub mod eval;
pub mod heur;
pub mod laws;
pub mod model;
pub mod moves;
pub mod prune;
pub mod rules;
pub mod search;
pub mod turn;
