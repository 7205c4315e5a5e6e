//! A position on the grid and its neighbours.

use vstd::prelude::*;
use vstd::std_specs::convert::FromSpecImpl;
use crate::dirs::Direction;
use crate::rect::sat_sub;

verus! {

/// A cell of the grid.
#[derive(Copy, Clone, Debug, PartialEq, Eq, Structural)]
pub struct Coord {
    pub x: usize,
    pub y: usize,
}

impl From<(usize, usize)> for Coord {
    /// Takes a `(row, column)` pair.
    fn from(s: (usize, usize)) -> (c: Coord) {
        Coord { y: s.0, x: s.1 }
    }
}

impl FromSpecImpl<(usize, usize)> for Coord {
    open spec fn obeys_from_spec() -> bool {
        true
    }

    open spec fn from_spec(s: (usize, usize)) -> Coord {
        Coord { y: s.0, x: s.1 }
    }
}

impl From<(i32, i32)> for Coord {
    /// Takes a `(row, column)` pair. Of a negative number nothing is known
    /// but that it becomes some coordinate.
    fn from(s: (i32, i32)) -> (c: Coord) {
        Coord { y: s.0 as usize, x: s.1 as usize }
    }
}

impl FromSpecImpl<(i32, i32)> for Coord {
    open spec fn obeys_from_spec() -> bool {
        true
    }

    open spec fn from_spec(s: (i32, i32)) -> Coord {
        Coord { y: s.0 as usize, x: s.1 as usize }
    }
}

/// The coordinate one step from `v` towards the far end. A coordinate at
/// the largest `usize` has no successor; it stays.
pub open spec fn spec_forward(v: int) -> int {
    if v < usize::MAX {
        v + 1
    } else {
        v
    }
}

impl Coord {
    /// The cell one step in `d`. Towards the origin the step stops at zero.
    pub open spec fn spec_neighbor(&self, d: Direction) -> Coord {
        let x = self.x as int;
        let y = self.y as int;
        match d {
            Direction::North => Coord { x: self.x, y: sat_sub(y, 1) as usize },
            Direction::South => Coord { x: self.x, y: spec_forward(y) as usize },
            Direction::East => Coord { x: spec_forward(x) as usize, y: self.y },
            Direction::West => Coord { x: sat_sub(x, 1) as usize, y: self.y },
            Direction::NorthEast => Coord {
                x: spec_forward(x) as usize,
                y: sat_sub(y, 1) as usize,
            },
            Direction::NorthWest => Coord { x: sat_sub(x, 1) as usize, y: sat_sub(y, 1) as usize },
            Direction::SouthEast => Coord {
                x: spec_forward(x) as usize,
                y: spec_forward(y) as usize,
            },
            Direction::SouthWest => Coord {
                x: sat_sub(x, 1) as usize,
                y: spec_forward(y) as usize,
            },
        }
    }

    pub fn new(x: usize, y: usize) -> (c: Coord)
        ensures
            c == (Coord { x, y }),
    {
        Coord { x, y }
    }

    /// The position as `(row, column)`.
    pub fn as_yx(&self) -> (p: (usize, usize))
        ensures
            p == (self.y, self.x),
    {
        (self.y, self.x)
    }

    /// The position as `(column, row)`.
    pub fn as_xy(&self) -> (p: (usize, usize))
        ensures
            p == (self.x, self.y),
    {
        (self.x, self.y)
    }

    /// The cell one step in `d`.
    pub fn neighbor_in_direction(&self, d: Direction) -> (c: Coord)
        ensures
            c == self.spec_neighbor(d),
    {
        let north: usize = self.y.saturating_sub(1);
        let west: usize = self.x.saturating_sub(1);
        let south: usize = self.y.saturating_add(1);
        let east: usize = self.x.saturating_add(1);
        match d {
            Direction::North => Coord { x: self.x, y: north },
            Direction::South => Coord { x: self.x, y: south },
            Direction::East => Coord { x: east, y: self.y },
            Direction::West => Coord { x: west, y: self.y },
            Direction::NorthEast => Coord { x: east, y: north },
            Direction::NorthWest => Coord { x: west, y: north },
            Direction::SouthEast => Coord { x: east, y: south },
            Direction::SouthWest => Coord { x: west, y: south },
        }
    }

    /// The column pulled back to `max` where it lies past it.
    pub fn clamp_x(self, max: usize) -> (c: Coord)
        ensures
            c.y == self.y,
            c.x == if self.x > max {
                max
            } else {
                self.x
            },
    {
        let newx: usize = if self.x > max {
            max
        } else {
            self.x
        };
        Coord { x: newx, y: self.y }
    }

    /// The row pulled back to `max` where it lies past it.
    pub fn clamp_y(self, max: usize) -> (c: Coord)
        ensures
            c.x == self.x,
            c.y == if self.y > max {
                max
            } else {
                self.y
            },
    {
        let newy: usize = if self.y > max {
            max
        } else {
            self.y
        };
        Coord { x: self.x, y: newy }
    }
}

} // verus!
