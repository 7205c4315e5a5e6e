//! Axis-aligned rectangles on the grid.

use vstd::prelude::*;
use crate::dirs::Direction;

verus! {

/// `a - b`, stopping at zero.
pub open spec fn sat_sub(a: int, b: int) -> int {
    if a >= b {
        a - b
    } else {
        0
    }
}

/// `a + b`, stopping at the largest `usize`.
pub open spec fn sat_add(a: int, b: int) -> int {
    if a + b <= usize::MAX {
        a + b
    } else {
        usize::MAX as int
    }
}

/// `r` is the integer part of the square root of `n`.
pub open spec fn is_floor_sqrt(r: int, n: int) -> bool {
    0 <= r && r * r <= n && n < (r + 1) * (r + 1)
}

/// Squaring is monotone on the naturals.
pub proof fn lemma_square_monotone(a: int, b: int)
    requires
        0 <= a <= b,
    ensures
        a * a <= b * b,
{
    assert(a * a <= b * b) by (nonlinear_arith)
        requires
            0 <= a <= b,
    ;
}

/// The integer part of the square root of `n`.
#[verifier::rlimit(50)]
pub fn isqrt(n: u128) -> (r: u64)
    ensures
        is_floor_sqrt(r as int, n as int),
{
    let mut lo: u128 = 0;
    let mut hi: u128 = 0x1_0000_0000_0000_0000;
    assert(0x1_0000_0000_0000_0000int * 0x1_0000_0000_0000_0000int == u128::MAX + 1);
    while hi - lo > 1
        invariant
            0 <= lo < hi <= 0x1_0000_0000_0000_0000,
            lo * lo <= n,
            n < hi * hi,
        decreases hi - lo,
    {
        let mid: u128 = lo + (hi - lo) / 2;
        assert(mid * mid < 0x1_0000_0000_0000_0000int * 0x1_0000_0000_0000_0000int)
            by (nonlinear_arith)
            requires
                0 <= mid < 0x1_0000_0000_0000_0000int,
        ;
        if mid * mid <= n {
            lo = mid;
        } else {
            hi = mid;
        }
    }
    lo as u64
}

/// A rectangle given by two corners, `(x1, y1)` towards the origin and
/// `(x2, y2)` away from it. Both corners are cells of the rectangle.
#[derive(Copy, Clone, Debug, PartialEq, Eq, Structural)]
pub struct Rect {
    pub x1: usize,
    pub y1: usize,
    pub x2: usize,
    pub y2: usize,
}

impl Rect {
    /// The corner towards the origin does not lie past the other one.
    pub open spec fn wf(&self) -> bool {
        self.x1 <= self.x2 && self.y1 <= self.y2
    }

    /// Whether the two rectangles, `self` grown by `padding` on every side,
    /// overlap on both axes. The growth stops at zero and at the largest
    /// `usize`.
    pub open spec fn spec_intersects(&self, other: &Rect, padding: int) -> bool {
        &&& sat_sub(self.x1 as int, padding) < other.x2
        &&& sat_add(self.x2 as int, padding) > other.x1
        &&& sat_sub(self.y1 as int, padding) < other.y2
        &&& sat_add(self.y2 as int, padding) > other.y1
    }

    /// The horizontal gap between the two rectangles, zero where their
    /// columns overlap or touch.
    pub open spec fn gap_x(&self, other: &Rect) -> int {
        if other.x2 < self.x1 {
            self.x1 - other.x2
        } else if self.x2 < other.x1 {
            other.x1 - self.x2
        } else {
            0
        }
    }

    /// The vertical gap between the two rectangles, zero where their rows
    /// overlap or touch.
    pub open spec fn gap_y(&self, other: &Rect) -> int {
        if other.y2 < self.y1 {
            self.y1 - other.y2
        } else if self.y2 < other.y1 {
            other.y1 - self.y2
        } else {
            0
        }
    }

    /// What `distance` returns: the gap along the one axis on which the
    /// rectangles are apart, the straight line between the nearest corners
    /// where they are apart on both (rounded down, and no more than the
    /// largest `usize`), and zero where they are apart on neither.
    pub open spec fn is_distance(&self, other: &Rect, d: int) -> bool {
        let gx = self.gap_x(other);
        let gy = self.gap_y(other);
        if gx > 0 && gy > 0 {
            &&& 0 <= d <= usize::MAX
            &&& d * d <= gx * gx + gy * gy
            &&& d < usize::MAX ==> gx * gx + gy * gy < (d + 1) * (d + 1)
        } else if gx > 0 {
            d == gx
        } else {
            d == gy
        }
    }

    /// The distance between the two rectangles: the one number that
    /// `is_distance` admits.
    pub open spec fn spec_distance(&self, other: &Rect) -> int {
        choose|d: int| self.is_distance(other, d)
    }

    /// Whether the cell `(x, y)` belongs to the rectangle: the columns from
    /// `x1` to `x2` and the rows from `y1` to `y2`, the corners included.
    pub open spec fn footprint(&self, x: int, y: int) -> bool {
        self.x1 <= x <= self.x2 && self.y1 <= y <= self.y2
    }

    /// The cell strip just outside one side of the rectangle, as
    /// `(row, column)` pairs: the row before `y1` or behind `y2`, along the
    /// columns of the rectangle, or the column before `x1` or behind `x2`,
    /// along its rows. There is no strip where no cell lies outside that
    /// side, and none in a diagonal direction.
    pub open spec fn spec_wall(&self, direction: Direction) -> Seq<(usize, usize)> {
        match direction {
            Direction::North => if self.y1 >= 1 {
                Seq::new(
                    span(self.x1 as int, self.x2 as int) as nat,
                    |i: int| ((self.y1 - 1) as usize, (self.x1 + i) as usize),
                )
            } else {
                Seq::empty()
            },
            Direction::South => if self.y2 < usize::MAX {
                Seq::new(
                    span(self.x1 as int, self.x2 as int) as nat,
                    |i: int| ((self.y2 + 1) as usize, (self.x1 + i) as usize),
                )
            } else {
                Seq::empty()
            },
            Direction::East => if self.x2 < usize::MAX {
                Seq::new(
                    span(self.y1 as int, self.y2 as int) as nat,
                    |i: int| ((self.y1 + i) as usize, (self.x2 + 1) as usize),
                )
            } else {
                Seq::empty()
            },
            Direction::West => if self.x1 >= 1 {
                Seq::new(
                    span(self.y1 as int, self.y2 as int) as nat,
                    |i: int| ((self.y1 + i) as usize, (self.x1 - 1) as usize),
                )
            } else {
                Seq::empty()
            },
            _ => Seq::empty(),
        }
    }

    pub fn new(x1: usize, y1: usize, x2: usize, y2: usize) -> (r: Rect)
        ensures
            r == (Rect { x1, y1, x2, y2 }),
    {
        Rect { x1, y1, x2, y2 }
    }

    /// Tests whether `self`, grown by `padding`, overlaps `other`.
    pub fn intersects(&self, other: &Rect, padding: usize) -> (r: bool)
        ensures
            r == self.spec_intersects(other, padding as int),
    {
        self.x1.saturating_sub(padding) < other.x2 && self.x2.saturating_add(padding) > other.x1
            && self.y1.saturating_sub(padding) < other.y2 && self.y2.saturating_add(padding)
            > other.y1
    }

    /// The middle of the rectangle as `(x, y)`, each coordinate rounded down.
    pub fn center(&self) -> (c: (usize, usize))
        ensures
            c.0 == (self.x1 + self.x2) / 2,
            c.1 == (self.y1 + self.y2) / 2,
    {
        (midpoint(self.x1, self.x2), midpoint(self.y1, self.y2))
    }

    /// The distance between two rectangles that do not overlap; zero for two
    /// that do.
    #[verifier::rlimit(50)]
    pub fn distance(&self, other: &Rect) -> (d: usize)
        ensures
            self.is_distance(other, d as int),
            d == self.spec_distance(other),
    {

        let gx: usize = if other.x2 < self.x1 {
            self.x1 - other.x2
        } else if self.x2 < other.x1 {
            other.x1 - self.x2
        } else {
            0
        };
        let gy: usize = if other.y2 < self.y1 {
            self.y1 - other.y2
        } else if self.y2 < other.y1 {
            other.y1 - self.y2
        } else {
            0
        };
        let d: usize = if gx > 0 && gy > 0 {
            let wx: u128 = gx as u128;
            let wy: u128 = gy as u128;
            assert(wx * wx <= 0xffff_ffff_ffff_ffffint * 0xffff_ffff_ffff_ffffint) by {
                lemma_square_monotone(wx as int, 0xffff_ffff_ffff_ffffint);
            }
            assert(wy * wy <= 0xffff_ffff_ffff_ffffint * 0xffff_ffff_ffff_ffffint) by {
                lemma_square_monotone(wy as int, 0xffff_ffff_ffff_ffffint);
            }
            assert(0xffff_ffff_ffff_ffffint * 0xffff_ffff_ffff_ffffint <= u128::MAX);
            let sx: u128 = wx * wx;
            let sy: u128 = wy * wy;
            match sx.checked_add(sy) {
                Some(sum) => {
                    let root: u64 = isqrt(sum);
                    if root as u128 > usize::MAX as u128 {
                        proof {
                            lemma_square_monotone(usize::MAX as int, root as int);
                        }
                        usize::MAX
                    } else {
                        root as usize
                    }
                },
                None => {
                    proof {
                        lemma_square_monotone(usize::MAX as int, 0xffff_ffff_ffff_ffffint);
                    }
                    usize::MAX
                },
            }
        } else if gx > 0 {
            gx
        } else {
            gy
        };
        proof {
            assert(self.is_distance(other, d as int));
            lemma_distance_unique(*self, *other, d as int, self.spec_distance(other));
        }
        d
    }

    /// The cell strip just outside one side of the rectangle.
    pub fn wall(&self, direction: &Direction) -> (coords: Vec<(usize, usize)>)
        ensures
            coords@ == self.spec_wall(*direction),
    {
        match direction {
            Direction::North => if self.y1 >= 1 {
                strip_along_row(self.y1 - 1, self.x1, self.x2)
            } else {
                Vec::new()
            },
            Direction::South => if self.y2 < usize::MAX {
                strip_along_row(self.y2 + 1, self.x1, self.x2)
            } else {
                Vec::new()
            },
            Direction::East => if self.x2 < usize::MAX {
                strip_along_column(self.x2 + 1, self.y1, self.y2)
            } else {
                Vec::new()
            },
            Direction::West => if self.x1 >= 1 {
                strip_along_column(self.x1 - 1, self.y1, self.y2)
            } else {
                Vec::new()
            },
            _ => Vec::new(),
        }
    }
}

/// The number of cells from `a` to `b`, both included: none where `b` lies
/// before `a`, and none where they are more than a `usize` counts.
pub open spec fn span(a: int, b: int) -> int {
    if a <= b && b - a < usize::MAX {
        b - a + 1
    } else {
        0
    }
}

/// The number of cells from `a` to `b`, both included.
pub fn span_of(a: usize, b: usize) -> (n: usize)
    ensures
        n == span(a as int, b as int),
{
    if a <= b && b - a < usize::MAX {
        b - a + 1
    } else {
        0
    }
}

/// The cells of row `row` from column `x1` to column `x2`, as
/// `(row, column)` pairs.
fn strip_along_row(row: usize, x1: usize, x2: usize) -> (coords: Vec<(usize, usize)>)
    ensures
        coords@ == Seq::new(
            span(x1 as int, x2 as int) as nat,
            |i: int| (row, (x1 + i) as usize),
        ),
{
    let mut coords: Vec<(usize, usize)> = Vec::new();
    let across: usize = span_of(x1, x2);
    let mut i: usize = 0;
    while i < across
        invariant
            i <= across,
            across == span(x1 as int, x2 as int),
            coords.len() == i,
            forall|k: int| 0 <= k < i ==> coords[k] == (row, (x1 + k) as usize),
        decreases across - i,
    {
        coords.push((row, x1 + i));
        i = i + 1;
    }
    assert(coords@ =~= Seq::new(
        span(x1 as int, x2 as int) as nat,
        |i: int| (row, (x1 + i) as usize),
    ));
    coords
}

/// The cells of column `column` from row `y1` to row `y2`, as
/// `(row, column)` pairs.
fn strip_along_column(column: usize, y1: usize, y2: usize) -> (coords: Vec<(usize, usize)>)
    ensures
        coords@ == Seq::new(
            span(y1 as int, y2 as int) as nat,
            |i: int| ((y1 + i) as usize, column),
        ),
{
    let mut coords: Vec<(usize, usize)> = Vec::new();
    let down: usize = span_of(y1, y2);
    let mut i: usize = 0;
    while i < down
        invariant
            i <= down,
            down == span(y1 as int, y2 as int),
            coords.len() == i,
            forall|k: int| 0 <= k < i ==> coords[k] == ((y1 + k) as usize, column),
        decreases down - i,
    {
        coords.push((y1 + i, column));
        i = i + 1;
    }
    assert(coords@ =~= Seq::new(
        span(y1 as int, y2 as int) as nat,
        |i: int| ((y1 + i) as usize, column),
    ));
    coords
}

/// Two rectangles have one distance.
pub proof fn lemma_distance_unique(a: Rect, b: Rect, d1: int, d2: int)
    requires
        a.is_distance(&b, d1),
        a.is_distance(&b, d2),
    ensures
        d1 == d2,
{
    let gx = a.gap_x(&b);
    let gy = a.gap_y(&b);
    if gx > 0 && gy > 0 {
        if d1 < d2 {
            lemma_square_monotone(d1 + 1, d2);
        } else if d2 < d1 {
            lemma_square_monotone(d2 + 1, d1);
        }
    }
}

/// Overlap with padding does not depend on which of the two rectangles is
/// grown, as long as no far corner lies on an axis and no near corner at the
/// largest `usize`.
pub proof fn lemma_intersects_symmetric(a: Rect, b: Rect, padding: int)
    requires
        padding >= 0,
        a.x2 > 0 && a.y2 > 0 && b.x2 > 0 && b.y2 > 0,
        a.x1 < usize::MAX && a.y1 < usize::MAX && b.x1 < usize::MAX && b.y1 < usize::MAX,
    ensures
        a.spec_intersects(&b, padding) == b.spec_intersects(&a, padding),
{
}

/// The mean of two numbers, rounded down, computed without overflow.
pub fn midpoint(a: usize, b: usize) -> (m: usize)
    ensures
        m == (a + b) / 2,
{
    a / 2 + b / 2 + (a % 2 + b % 2) / 2
}

} // verus!
