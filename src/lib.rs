//! Minesweeper game engine: board state, mine placement, clue counts,
//! flood-fill reveal, flagging, win/loss detection and snapshot-based undo.

pub mod board;
pub mod board_builder;
pub mod cell;
pub mod constants;
pub mod memento;
pub mod position;
pub mod grid;
mod random;
pub mod state;
