pub mod board;
pub mod cell;

pub use board::Board;
pub use cell::Cell;
