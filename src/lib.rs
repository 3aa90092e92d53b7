//! Move generation and placement validation for a Blokus-style game.
use vstd::prelude::*;

pub mod collision;
pub mod detect;
pub mod grid;
pub mod moves;
pub mod pieces;
pub mod point;
pub mod rotation;
pub mod text;

pub use collision::collides;
pub use detect::{detect_corners, detect_marks};
pub use grid::{Grid, GridError};
pub use moves::{get_moves, place_move, Move};
pub use pieces::get_pieces;
pub use point::Point;
pub use rotation::rotate;

verus! {

} // verus!
