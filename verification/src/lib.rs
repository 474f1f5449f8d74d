//! N-dimensional tic-tac-toe on a hypercube board of side length three.

pub mod board;
pub mod direction;
pub mod error;
pub mod line;
pub mod placement;
pub mod position;

pub use board::Board;
pub use error::{Error, IndexError, PlaceError};
