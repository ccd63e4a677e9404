//! A crowd-controlled snake simulation.
//!
//! Clients cast directional votes; a periodic tick advances the snake by a
//! weighted random choice among the votes, with toroidal movement, growth on
//! food, and a silent reset on self-collision.

use vstd::prelude::*;

pub mod board;
pub mod direction;
pub mod sim;
pub mod state;

pub use direction::Direction;
pub use sim::Snake;
pub use state::Inner;
pub use state::Tally;
pub use state::MAX_SIZE;

verus! {

} // verus!
