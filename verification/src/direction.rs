//! The four directions a slide can take.

use vstd::prelude::*;

verus! {

/// Direction of a human move.
#[derive(Debug, PartialEq, Eq, Structural, Copy, Clone)]
pub enum Direction {
    Right,
    Down,
    Left,
    Up,
}

/// The neighbor offset that the adjacency scan uses for `d`: one step right
/// for the horizontal directions, one step down for the vertical ones.
pub open spec fn spec_mask(d: Direction) -> (usize, usize) {
    match d {
        Direction::Right => (1usize, 0usize),
        Direction::Left => (1usize, 0usize),
        Direction::Up => (0usize, 1usize),
        Direction::Down => (0usize, 1usize),
    }
}

impl Direction {
    /// The axis mask used when scanning for adjacent equal cells.
    pub(crate) fn get_mask(self) -> (r: (usize, usize))
        ensures
            r == spec_mask(self),
    {
        match self {
            Direction::Right => (1usize, 0usize),
            Direction::Left => (1usize, 0usize),
            Direction::Up => (0usize, 1usize),
            Direction::Down => (0usize, 1usize),
        }
    }
}

} // verus!
