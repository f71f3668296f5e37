//! Rules engine of a falling-block puzzle game: the playing grid, the piece
//! supply, movement and rotation, locking, line clearing, scoring and the
//! difficulty curve. Every function carries a contract over a mathematical
//! model of the grid, and the contracts are machine-checked.
//!
//! The grid and its model are in [`types`], the pieces in [`tetromino`], the
//! supply of pieces in [`bag`]. [`moves`], [`rotations`] and [`score`] work
//! on a grid; [`update`] applies one command at a time to the [`state`] of a
//! game. [`rotation_laws`] and [`falling`] hold what is proved of turns on
//! the grid and of the falling piece over a whole game.

pub mod bag;
pub mod colors;
pub mod constants;
pub mod enums;
pub mod falling;
pub mod level;
pub mod moves;
pub mod rotation_laws;
pub mod rotations;
pub mod score;
pub mod state;
pub mod tetromino;
pub mod types;
pub mod update;
pub mod utils;
