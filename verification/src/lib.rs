//! A block-placement puzzle on a 9x9 grid: polyomino bricks drawn from a
//! fixed library are placed on the board, and fully filled rows, columns and
//! 3x3 blocks are cleared for points. An exhaustive recursive planner picks
//! the move that maximises the projected score over the current batch of
//! bricks.

pub mod board;
pub mod brick;
pub mod game;
pub mod input;
pub mod planner;
pub mod resolve;

pub use board::Board;
