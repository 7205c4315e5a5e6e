//! Helpers shared by the passes that look at a cell's surroundings.

use vstd::prelude::*;

verus! {

/// The coherent-noise algorithms that a placement pass can be configured
/// with.
#[derive(Copy, Clone, Debug, PartialEq, Eq, Structural)]
pub enum NoiseAlgorithm {
    Perlin,
    OpenSimplex,
    BasicMulti,
    HybridMulti,
    Fbm,
    Cylinders,
    Value,
}

/// The coordinate before `v`, stopping at zero.
pub open spec fn before(v: int) -> int {
    if v >= 1 {
        v - 1
    } else {
        0
    }
}

/// The coordinate after `v`, stopping at the last one of an axis of `n`
/// cells. On an axis without cells the result is zero.
pub open spec fn after(v: int, n: int) -> int {
    if n <= 0 {
        0
    } else if v + 1 <= n - 1 {
        v + 1
    } else {
        n - 1
    }
}

/// The eight cells around `(x, y)` as `(row, column)` pairs, row by row
/// from the north-west to the south-east. A coordinate that would leave the
/// grid is pulled back to the nearest row or column within it, so on the
/// border some of the eight coincide with each other or with the cell
/// itself.
pub open spec fn spec_neighbors(width: int, height: int, x: int, y: int) -> Seq<(int, int)> {
    seq![
        (before(y), before(x)),
        (before(y), x),
        (before(y), after(x, width)),
        (y, before(x)),
        (y, after(x, width)),
        (after(y, height), before(x)),
        (after(y, height), x),
        (after(y, height), after(x, width)),
    ]
}

/// The eight cells around `(x, y)` are cells of the grid if `(x, y)` is.
pub proof fn lemma_neighbors_in_bounds(width: int, height: int, x: int, y: int)
    requires
        0 <= x < width,
        0 <= y < height,
    ensures
        spec_neighbors(width, height, x, y).len() == 8,
        forall|k: int|
            0 <= k < 8 ==> 0 <= (#[trigger] spec_neighbors(width, height, x, y)[k]).0 < height && 0
                <= spec_neighbors(width, height, x, y)[k].1 < width,
{
}

/// `v + 1`, stopping at `last`.
fn step_up(v: usize, last: usize) -> (r: usize)
    ensures
        r == if v + 1 <= last {
            v + 1
        } else {
            last as int
        },
{
    if v < last {
        v + 1
    } else {
        last
    }
}

/// The eight cells around `(x, y)` on a grid of the given size.
pub fn get_all_neighbors(width: usize, height: usize, x: usize, y: usize) -> (around: [(
    usize,
    usize,
); 8])
    requires
        width >= 1,
        height >= 1,
    ensures
        around@.len() == 8,
        forall|k: int|
            0 <= k < 8 ==> (#[trigger] around@[k]).0 == spec_neighbors(
                width as int,
                height as int,
                x as int,
                y as int,
            )[k].0 && around@[k].1 == spec_neighbors(
                width as int,
                height as int,
                x as int,
                y as int,
            )[k].1,
{
    let north: usize = y.saturating_sub(1);
    let south: usize = step_up(y, height - 1);
    let west: usize = x.saturating_sub(1);
    let east: usize = step_up(x, width - 1);
    [
        (north, west),
        (north, x),
        (north, east),
        (y, west),
        (y, east),
        (south, west),
        (south, x),
        (south, east),
    ]
}

} // verus!
