//! Compass directions on the grid.

use vstd::prelude::*;
use rand::rngs::StdRng;
use crate::random::roll;

verus! {

/// One of the eight compass directions. North is towards row zero, west is
/// towards column zero.
#[derive(Copy, Clone, Debug, PartialEq, Eq, Structural)]
pub enum Direction {
    North,
    South,
    East,
    West,
    NorthWest,
    NorthEast,
    SouthWest,
    SouthEast,
}

impl Direction {
    /// The direction that stands at `index` in the order of declaration;
    /// every index past the last stands for `SouthEast`.
    pub open spec fn spec_from_index(index: int) -> Direction {
        if index == 0 {
            Direction::North
        } else if index == 1 {
            Direction::South
        } else if index == 2 {
            Direction::East
        } else if index == 3 {
            Direction::West
        } else if index == 4 {
            Direction::NorthWest
        } else if index == 5 {
            Direction::NorthEast
        } else if index == 6 {
            Direction::SouthWest
        } else {
            Direction::SouthEast
        }
    }

    /// Maps a drawn number to a direction.
    pub fn from_index(index: usize) -> (d: Direction)
        ensures
            d == Self::spec_from_index(index as int),
    {
        match index {
            0 => Direction::North,
            1 => Direction::South,
            2 => Direction::East,
            3 => Direction::West,
            4 => Direction::NorthWest,
            5 => Direction::NorthEast,
            6 => Direction::SouthWest,
            _ => Direction::SouthEast,
        }
    }

    /// A direction drawn at random. The draw is made from the numbers below
    /// seven, so `SouthEast` never comes out.
    pub fn sample(rng: &mut StdRng) -> (d: Direction)
        ensures
            d != Direction::SouthEast,
            exists|k: int| 0 <= k < 7 && d == Self::spec_from_index(k),
    {
        let draw: usize = roll(rng, 0, 7);
        Direction::from_index(draw)
    }

    /// Whether the direction is one of the four along an axis.
    pub open spec fn is_cardinal(self) -> bool {
        self == Direction::North || self == Direction::South || self == Direction::East || self
            == Direction::West
    }
}

} // verus!
