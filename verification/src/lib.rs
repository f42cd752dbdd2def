//! A sliding-number puzzle engine: an N x M generalization of the classic
//! 15-puzzle. The board holds the labels `1..=width*height`, the largest of
//! which marks the blank cell. The engine offers the board representation,
//! a swap primitive, a solved-state test, a legal-move application, and a
//! shuffle that always produces a configuration reachable from the solved
//! one under blank-adjacent swaps.

pub mod board;
pub mod output;
pub mod parity;
pub mod player;
pub mod shuffle;

pub use board::PuzzleError;
pub use board::SlidingPuzzle;
pub use output::clear_terminal;
pub use output::put;
pub use output::SizeInput;
pub use output::CLEAR_TERMINAL;
pub use player::Direction;
