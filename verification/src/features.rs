//! Rectangular regions that a generator has placed on a grid.

use vstd::prelude::*;
use rand::rngs::StdRng;
use crate::random::roll;
use crate::rect::Rect;

verus! {

/// A region recorded on the grid for the passes that come later.
#[derive(Copy, Clone, Debug, PartialEq, Eq, Structural)]
pub enum Feature {
    Tunnel(Rect),
    Room(Rect),
}

impl Feature {
    /// The rectangle that the feature occupies.
    pub open spec fn spec_rect(&self) -> Rect {
        match *self {
            Feature::Tunnel(r) => r,
            Feature::Room(r) => r,
        }
    }

    /// The rectangle that the feature occupies.
    pub fn rect(&self) -> (r: Rect)
        ensures
            r == self.spec_rect(),
    {
        match self {
            Feature::Tunnel(r) => *r,
            Feature::Room(r) => *r,
        }
    }

    /// The feature that stands for a drawn number: a tunnel for zero, a room
    /// for anything else, either one empty and at the origin.
    pub open spec fn spec_from_draw(draw: int) -> Feature {
        if draw == 0 {
            Feature::Tunnel(Rect { x1: 0, y1: 0, x2: 0, y2: 0 })
        } else {
            Feature::Room(Rect { x1: 0, y1: 0, x2: 0, y2: 0 })
        }
    }

    /// The feature that stands for a drawn number.
    pub fn from_draw(draw: usize) -> (f: Feature)
        ensures
            f == Self::spec_from_draw(draw as int),
    {
        if draw == 0 {
            Feature::Tunnel(Rect::new(0, 0, 0, 0))
        } else {
            Feature::Room(Rect::new(0, 0, 0, 0))
        }
    }

    /// An empty feature at the origin. The draw is made from a range that
    /// holds zero alone, so the feature is always a tunnel.
    pub fn sample(rng: &mut StdRng) -> (f: Feature)
        ensures
            f == Feature::Tunnel(Rect { x1: 0, y1: 0, x2: 0, y2: 0 }),
    {
        let draw: usize = roll(rng, 0, 1);
        Feature::from_draw(draw)
    }
}

} // verus!
