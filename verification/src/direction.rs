//! The four movement directions and their opposites.

use vstd::prelude::*;

verus! {

/// A direction a vote can name and the snake can travel in.
///
/// The lower-case variant names double as the textual form a client sends.
#[allow(non_camel_case_types)]
#[derive(Debug, Clone, Copy, PartialEq, Eq, Hash, Structural)]
pub enum Direction {
    up,
    down,
    right,
    left,
}

impl Direction {
    /// The unique opposite of a direction: up and down swap, left and right swap.
    pub open spec fn spec_opposite(self) -> Direction {
        match self {
            Direction::up => Direction::down,
            Direction::down => Direction::up,
            Direction::left => Direction::right,
            Direction::right => Direction::left,
        }
    }

    /// Executable form of [`Self::spec_opposite`].
    pub fn opposite(self) -> (r: Direction)
        ensures
            r == self.spec_opposite(),
    {
        match self {
            Direction::up => Direction::down,
            Direction::down => Direction::up,
            Direction::left => Direction::right,
            Direction::right => Direction::left,
        }
    }
}

/// Each direction has a unique opposite: opposition is an involution and no
/// direction is its own opposite.
pub proof fn lemma_opposite_unique(d: Direction)
    ensures
        d.spec_opposite() != d,
        d.spec_opposite().spec_opposite() == d,
{
}

} // verus!
