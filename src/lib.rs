//! Puzzle generation and rules for a push-the-circles game on an irregular grid: three
//! circles must be pushed into a line of three cells, while pushable crosses must never
//! line up themselves.
//!
//! - `board`: the grid, its coordinates and its connectivity.
//! - `layout`: building boards, at random or from widths and a mask.
//! - `movement`: the forward (push) and reverse (pull) step of a circle.
//! - `rules`: win, loss and deadlock.
//! - `puzzle`: positions as flat indices, move sequences, winnability.
//! - `search`: the bounded breadth-first solver.
//! - `generator`: puzzle generation by reverse construction from a won position.
//! - `editor`: state changes of the puzzle editor.

pub mod board;
pub mod layout;
pub mod movement;
pub mod rules;
pub mod puzzle;
pub mod search;
pub mod generator;
pub mod editor;
mod random;
mod keyset;
pub mod layers;
