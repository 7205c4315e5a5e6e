//! A perfect maze carved by a recursive backtracker between the features
//! that already stand on the map.

use vstd::prelude::*;
use rand::rngs::StdRng;
use crate::dirs::Direction;
use crate::dun_s1::{
    is_next_to,
    is_open_chain,
    is_open_linked,
    lemma_count_fits,
    lemma_count_tiles_set,
    lemma_open_linked_back,
    lemma_open_linked_on,
    one_if,
    DungeonS1,
    TileType,
};
use crate::features::Feature;
use crate::random::{roll, shuffle};
use crate::rect::Rect;

verus! {

/// Configuration of the pass.
#[derive(Copy, Clone, Debug)]
pub struct MazeOptions {
    /// How many times to fill in the dead ends, if at all. In a perfect maze
    /// every path ends in one.
    pub remove_dead_ends: Option<usize>,
    /// Whether to open doors between the maze and the features.
    pub connect_to_features: bool,
}

impl MazeOptions {
    pub fn new() -> (o: MazeOptions)
        ensures
            o == (MazeOptions { remove_dead_ends: Some(1), connect_to_features: false }),
    {
        MazeOptions { remove_dead_ends: Some(1), connect_to_features: false }
    }

    pub fn remove_dead_ends(self, val: Option<usize>) -> (o: MazeOptions)
        ensures
            o == (MazeOptions { remove_dead_ends: val, ..self }),
    {
        MazeOptions { remove_dead_ends: val, ..self }
    }

    pub fn connect_to_features(self, val: bool) -> (o: MazeOptions)
        ensures
            o == (MazeOptions { connect_to_features: val, ..self }),
    {
        MazeOptions { connect_to_features: val, ..self }
    }
}

/// What a run of the pass did.
#[derive(Copy, Clone, Debug)]
pub struct MazeStats {
    /// The cell that the maze grew from, as `(x, y)`; nothing where the
    /// features left no cell free.
    pub start: Option<(usize, usize)>,
    /// The steps of the walk; each carved a corridor of two cells.
    pub steps: usize,
    /// The doors opened into features.
    pub doors: usize,
}

/// Whether `(x, y)` lies within the padded box of a rectangle: the
/// rectangle and the two cells next to it on every side.
pub open spec fn near_rect(r: Rect, x: int, y: int) -> bool {
    r.x1 - 2 <= x <= r.x2 + 2 && r.y1 - 2 <= y <= r.y2 + 2
}

/// Whether `(x, y)` lies within the padded box of one of the features.
pub open spec fn near_feature(features: Seq<Feature>, x: int, y: int) -> bool {
    exists|k: int| 0 <= k < features.len() && near_rect((#[trigger] features[k]).spec_rect(), x, y)
}

/// The tile at `(x, y)`, or nothing where the cell is not strictly inside
/// the border of the grid.
pub open spec fn inner_tile(tiles: Seq<Seq<TileType>>, width: int, height: int, x: int, y: int)
    -> Option<TileType> {
    if 0 < x < width - 1 && 0 < y < height - 1 {
        Some(tiles[y][x])
    } else {
        None
    }
}

/// One if the option holds `t`, zero otherwise.
pub open spec fn is_tile(o: Option<TileType>, t: TileType) -> int {
    if o == Some(t) {
        1
    } else {
        0
    }
}

/// One if the option holds a tile other than `t`, zero otherwise.
pub open spec fn is_other(o: Option<TileType>, t: TileType) -> int {
    if o is Some && o != Some(t) {
        1
    } else {
        0
    }
}

/// How many of the four cells next to `(x, y)` lie strictly inside the
/// border and hold `t`.
pub open spec fn inner_count(
    tiles: Seq<Seq<TileType>>,
    width: int,
    height: int,
    x: int,
    y: int,
    t: TileType,
) -> int {
    is_tile(inner_tile(tiles, width, height, x, y - 1), t) + is_tile(
        inner_tile(tiles, width, height, x - 1, y),
        t,
    ) + is_tile(inner_tile(tiles, width, height, x + 1, y), t) + is_tile(
        inner_tile(tiles, width, height, x, y + 1),
        t,
    )
}

/// How many of the four cells next to `(x, y)` lie strictly inside the
/// border and hold something else than `t`.
pub open spec fn inner_count_other(
    tiles: Seq<Seq<TileType>>,
    width: int,
    height: int,
    x: int,
    y: int,
    t: TileType,
) -> int {
    is_other(inner_tile(tiles, width, height, x, y - 1), t) + is_other(
        inner_tile(tiles, width, height, x - 1, y),
        t,
    ) + is_other(inner_tile(tiles, width, height, x + 1, y), t) + is_other(
        inner_tile(tiles, width, height, x, y + 1),
        t,
    )
}

/// Whether the cell at `(row, column)` can become a door: it is a wall, two
/// of the cells next to it are floor and two are not, all four of them
/// strictly inside the border.
pub open spec fn is_doorway(
    tiles: Seq<Seq<TileType>>,
    width: int,
    height: int,
    cell: (usize, usize),
) -> bool {
    &&& inner_count(tiles, width, height, cell.1 as int, cell.0 as int, TileType::Floor) == 2
    &&& inner_count_other(tiles, width, height, cell.1 as int, cell.0 as int, TileType::Floor)
        == 2
    &&& tiles[cell.0 as int][cell.1 as int] == TileType::Wall
}

/// The first cell of the strip, from index `from` on, that can become a
/// door; the length of the strip where there is none.
pub open spec fn first_doorway(
    tiles: Seq<Seq<TileType>>,
    width: int,
    height: int,
    strip: Seq<(usize, usize)>,
    from: int,
) -> int
    decreases strip.len() - from,
{
    if from < 0 || from >= strip.len() {
        strip.len() as int
    } else if is_doorway(tiles, width, height, strip[from]) {
        from
    } else {
        first_doorway(tiles, width, height, strip, from + 1)
    }
}

/// The grid with the cell at `(row, column)` set to `t`.
pub open spec fn with_tile(tiles: Seq<Seq<TileType>>, cell: (usize, usize), t: TileType) -> Seq<
    Seq<TileType>,
> {
    tiles.update(cell.0 as int, tiles[cell.0 as int].update(cell.1 as int, t))
}

/// The grid after doors were dug for one rectangle: the sides from index
/// `k` on are taken in the given order, and on each the first cell that can
/// become a door is opened, until two doors are open.
pub open spec fn spec_dig_doors(
    tiles: Seq<Seq<TileType>>,
    width: int,
    height: int,
    rect: Rect,
    sides: Seq<Direction>,
    k: int,
    doors: int,
) -> Seq<Seq<TileType>>
    decreases sides.len() - k,
{
    if k < 0 || k >= sides.len() || doors >= 2 {
        tiles
    } else {
        let strip = rect.spec_wall(sides[k]);
        let i = first_doorway(tiles, width, height, strip, 0);
        if i < strip.len() {
            spec_dig_doors(
                with_tile(tiles, strip[i], TileType::Floor),
                width,
                height,
                rect,
                sides,
                k + 1,
                doors + 1,
            )
        } else {
            spec_dig_doors(tiles, width, height, rect, sides, k + 1, doors)
        }
    }
}

/// The number of doors that `spec_dig_doors` opens on top of `doors`.
pub open spec fn spec_count_doors(
    tiles: Seq<Seq<TileType>>,
    width: int,
    height: int,
    rect: Rect,
    sides: Seq<Direction>,
    k: int,
    doors: int,
) -> int
    decreases sides.len() - k,
{
    if k < 0 || k >= sides.len() || doors >= 2 {
        doors
    } else {
        let strip = rect.spec_wall(sides[k]);
        let i = first_doorway(tiles, width, height, strip, 0);
        if i < strip.len() {
            spec_count_doors(
                with_tile(tiles, strip[i], TileType::Floor),
                width,
                height,
                rect,
                sides,
                k + 1,
                doors + 1,
            )
        } else {
            spec_count_doors(tiles, width, height, rect, sides, k + 1, doors)
        }
    }
}

/// Whether the list holds the four sides of a rectangle, each once, in some
/// order.
pub open spec fn is_side_order(order: Seq<Direction>) -> bool {
    order.to_multiset() == seq![
        Direction::North,
        Direction::South,
        Direction::East,
        Direction::West,
    ].to_multiset()
}

/// The grid after doors were dug for the first `upto` of the features, one
/// feature after the other, the sides of each taken in the order that
/// `orders` holds for it.
pub open spec fn spec_connect(
    tiles: Seq<Seq<TileType>>,
    width: int,
    height: int,
    features: Seq<Feature>,
    orders: Seq<Seq<Direction>>,
    upto: int,
) -> Seq<Seq<TileType>>
    decreases upto,
{
    if upto <= 0 {
        tiles
    } else {
        spec_dig_doors(
            spec_connect(tiles, width, height, features, orders, upto - 1),
            width,
            height,
            features[upto - 1].spec_rect(),
            orders[upto - 1],
            0,
            0,
        )
    }
}

/// Whether `post` is the grid `pre` after doors were dug for every feature,
/// the sides of each taken in the order that `orders` holds for it.
pub open spec fn is_connection(
    orders: Seq<Seq<Direction>>,
    pre: Seq<Seq<TileType>>,
    post: Seq<Seq<TileType>>,
    width: int,
    height: int,
    features: Seq<Feature>,
) -> bool {
    &&& orders.len() == features.len()
    &&& forall|k: int| 0 <= k < orders.len() ==> is_side_order(#[trigger] orders[k])
    &&& post == spec_connect(pre, width, height, features, orders, features.len() as int)
}

/// What was dug for the first features does not depend on the orders for
/// the features behind them.
pub proof fn lemma_connect_push(
    tiles: Seq<Seq<TileType>>,
    width: int,
    height: int,
    features: Seq<Feature>,
    orders: Seq<Seq<Direction>>,
    order: Seq<Direction>,
    upto: int,
)
    requires
        0 <= upto <= orders.len(),
    ensures
        spec_connect(tiles, width, height, features, orders.push(order), upto) == spec_connect(
            tiles,
            width,
            height,
            features,
            orders,
            upto,
        ),
    decreases upto,
{
    if upto > 0 {
        lemma_connect_push(tiles, width, height, features, orders, order, upto - 1);
        assert(orders.push(order)[upto - 1] == orders[upto - 1]);
    }
}

/// The grid after the cell `(x, y)` was judged: it is a wall if three or
/// more of the cells next to it are walls strictly inside the border.
pub open spec fn spec_fill_dead_end(
    tiles: Seq<Seq<TileType>>,
    width: int,
    height: int,
    x: int,
    y: int,
) -> Seq<Seq<TileType>> {
    if inner_count(tiles, width, height, x, y, TileType::Wall) >= 3 {
        tiles.update(y, tiles[y].update(x, TileType::Wall))
    } else {
        tiles
    }
}

/// A cell of the first or last row or column has at most one cell next to
/// it that lies strictly inside the border, so judging it changes nothing.
pub proof fn lemma_border_is_no_dead_end(
    tiles: Seq<Seq<TileType>>,
    width: int,
    height: int,
    x: int,
    y: int,
)
    requires
        x <= 0 || y <= 0 || x >= width - 1 || y >= height - 1,
    ensures
        spec_fill_dead_end(tiles, width, height, x, y) == tiles,
{
}

/// The grid after a sweep has judged, row by row, every cell of the rows
/// before `y` and the cells before column `x` of row `y`. The last row and
/// the last column are left out: by `lemma_border_is_no_dead_end` a sweep
/// over the whole grid gives the same. Each cell is judged on the grid as
/// the cells before it have left it.
pub open spec fn spec_sweep(tiles: Seq<Seq<TileType>>, width: int, height: int, y: int, x: int)
    -> Seq<Seq<TileType>>
    decreases y, x,
{
    if width < 1 || y < 0 || x < 0 {
        tiles
    } else if x > 0 {
        spec_fill_dead_end(spec_sweep(tiles, width, height, y, x - 1), width, height, x - 1, y)
    } else if y > 0 {
        spec_sweep(tiles, width, height, y - 1, width - 1)
    } else {
        tiles
    }
}

/// The grid after `goal` sweeps.
pub open spec fn spec_remove_dead_ends(
    tiles: Seq<Seq<TileType>>,
    width: int,
    height: int,
    goal: int,
) -> Seq<Seq<TileType>>
    decreases goal,
{
    if goal <= 0 || height < 1 {
        tiles
    } else {
        spec_sweep(
            spec_remove_dead_ends(tiles, width, height, goal - 1),
            width,
            height,
            height - 1,
            0,
        )
    }
}

/// The two cells that a step of the walk from `(x, y)` in `direction`
/// carves, as `(ix, iy, nx, ny)`: the cell in between and the cell two
/// steps away. There is no step where that cell is not strictly inside the
/// border, and none in a diagonal direction.
pub open spec fn spec_carve_target(
    direction: Direction,
    width: int,
    height: int,
    x: int,
    y: int,
) -> Option<(int, int, int, int)> {
    let (ix, iy, nx, ny) = match direction {
        Direction::North => (x, y - 1, x, y - 2),
        Direction::South => (x, y + 1, x, y + 2),
        Direction::East => (x + 1, y, x + 2, y),
        Direction::West => (x - 1, y, x - 2, y),
        _ => (x, y, x, y),
    };
    if direction.is_cardinal() && 0 < nx < width - 1 && 0 < ny < height - 1 {
        Some((ix, iy, nx, ny))
    } else {
        None
    }
}

/// Whether the cell `(x, y)` is a place of the maze: it lies an even number
/// of columns and of rows from the cell that the maze grew from, whose
/// coordinates leave `px` and `py` when halved.
pub open spec fn is_place(x: int, y: int, px: int, py: int) -> bool {
    x % 2 == px && y % 2 == py
}

/// One if the cell is a place of the maze and open, zero otherwise.
pub open spec fn open_place(t: TileType, x: int, y: int, px: int, py: int) -> int {
    if t != TileType::Wall && is_place(x, y, px, py) {
        1
    } else {
        0
    }
}

/// How many cells of row `y` are open places of the maze.
pub open spec fn count_places_in_row(row: Seq<TileType>, y: int, px: int, py: int) -> int
    decreases row.len(),
{
    if row.len() == 0 {
        0
    } else {
        count_places_in_row(row.drop_last(), y, px, py) + open_place(
            row.last(),
            row.len() - 1,
            y,
            px,
            py,
        )
    }
}

/// How many cells of the grid are open places of the maze: the cells that
/// the walk has been to. The open cells between two of them are the
/// corridors.
pub open spec fn count_places(rows: Seq<Seq<TileType>>, px: int, py: int) -> int
    decreases rows.len(),
{
    if rows.len() == 0 {
        0
    } else {
        count_places(rows.drop_last(), px, py) + count_places_in_row(
            rows.last(),
            rows.len() - 1,
            px,
            py,
        )
    }
}

/// Writing one cell of a row changes the number of open places by what the
/// cell was and what it is now.
pub proof fn lemma_count_places_in_row_update(
    row: Seq<TileType>,
    y: int,
    px: int,
    py: int,
    x: int,
    new: TileType,
)
    requires
        0 <= x < row.len(),
    ensures
        count_places_in_row(row.update(x, new), y, px, py) == count_places_in_row(row, y, px, py)
            - open_place(row[x], x, y, px, py) + open_place(new, x, y, px, py),
    decreases row.len(),
{
    let after = row.update(x, new);
    if x == row.len() - 1 {
        assert(after.drop_last() =~= row.drop_last());
    } else {
        assert(after.drop_last() =~= row.drop_last().update(x, new));
        lemma_count_places_in_row_update(row.drop_last(), y, px, py, x, new);
    }
}

/// Writing one cell of a grid changes the number of open places by what the
/// cell was and what it is now.
pub proof fn lemma_count_places_set(
    rows: Seq<Seq<TileType>>,
    px: int,
    py: int,
    x: int,
    y: int,
    new: TileType,
)
    requires
        0 <= y < rows.len(),
        0 <= x < rows[y].len(),
    ensures
        count_places(rows.update(y, rows[y].update(x, new)), px, py) == count_places(rows, px, py)
            - open_place(rows[y][x], x, y, px, py) + open_place(new, x, y, px, py),
    decreases rows.len(),
{
    let after = rows.update(y, rows[y].update(x, new));
    if y == rows.len() - 1 {
        assert(after.drop_last() =~= rows.drop_last());
        lemma_count_places_in_row_update(rows[y], y, px, py, x, new);
    } else {
        assert(after.drop_last() =~= rows.drop_last().update(y, rows[y].update(x, new)));
        assert(rows.drop_last()[y] == rows[y]);
        lemma_count_places_set(rows.drop_last(), px, py, x, y, new);
    }
}

/// Whether the walk can make no step from `(x, y)` in `direction`: there is
/// no target, or one of the two cells is no wall, or one of them lies in the
/// padded box of a feature.
pub open spec fn is_blocked(
    tiles: Seq<Seq<TileType>>,
    features: Seq<Feature>,
    direction: Direction,
    width: int,
    height: int,
    x: int,
    y: int,
) -> bool {
    match spec_carve_target(direction, width, height, x, y) {
        Some((ix, iy, nx, ny)) => tiles[ny][nx] != TileType::Wall || tiles[iy][ix]
            != TileType::Wall || near_feature(features, nx, ny) || near_feature(features, ix, iy),
        None => true,
    }
}

/// Whether the walk can make no step from `(x, y)` in any direction.
pub open spec fn is_stuck(map: DungeonS1, x: int, y: int) -> bool {
    forall|d: Direction| #[trigger]
        is_blocked(map.tiles(), map.features@, d, map.width as int, map.height as int, x, y)
}

/// Whether every cell of `after` holds what it held in `before`, or is
/// floor.
pub open spec fn is_opened(before: DungeonS1, after: DungeonS1) -> bool {
    &&& after.wf()
    &&& after.same_frame(&before)
    &&& forall|x: int, y: int|
        before.in_bounds(x, y) ==> #[trigger] after.at(x, y) == before.at(x, y) || after.at(x, y)
            == TileType::Floor
}

/// Whether the cell is a place of the maze or lies between two places that
/// are side by side: it lies an even number of columns, or of rows, from the
/// cell that the maze grew from.
pub open spec fn is_on_lattice(x: int, y: int, px: int, py: int) -> bool {
    x % 2 == px || y % 2 == py
}

/// What can be reached over open cells can be reached after more cells were
/// opened.
pub proof fn lemma_open_linked_stays(
    before: DungeonS1,
    after: DungeonS1,
    a: (int, int),
    b: (int, int),
)
    requires
        is_opened(before, after),
        is_open_linked(before, a, b),
    ensures
        is_open_linked(after, a, b),
{
    let chain = choose|chain: Seq<(int, int)>| #[trigger] is_open_chain(chain, before, a, b);
    assert forall|i: int| 0 <= i < chain.len() implies after.in_bounds(
        (#[trigger] chain[i]).0,
        chain[i].1,
    ) && after.at(chain[i].0, chain[i].1) != TileType::Wall by {
        let c = chain[i];
        assert(before.in_bounds(c.0, c.1));
        assert(after.at(c.0, c.1) == before.at(c.0, c.1) || after.at(c.0, c.1)
            == TileType::Floor);
    }
    assert(is_open_chain(chain, after, a, b));
}

/// Whether `ring` is a closed way over open cells of the map: three cells
/// or more and none of them twice, each side by side with the next and the
/// last with the first.
pub open spec fn is_ring(ring: Seq<(int, int)>, map: DungeonS1) -> bool {
    &&& ring.len() >= 3
    &&& forall|i: int|
        0 <= i < ring.len() ==> map.in_bounds((#[trigger] ring[i]).0, ring[i].1) && map.at(
            ring[i].0,
            ring[i].1,
        ) != TileType::Wall
    &&& forall|i: int, j: int| 0 <= i < j < ring.len() ==> #[trigger] ring[i] != #[trigger] ring[j]
    &&& forall|i: int| 0 <= i < ring.len() - 1 ==> is_next_to(#[trigger] ring[i], ring[i + 1])
    &&& is_next_to(ring[ring.len() - 1], ring[0])
}

/// Whether no closed way leads over open cells of the map.
pub open spec fn has_no_ring(map: DungeonS1) -> bool {
    forall|ring: Seq<(int, int)>| !#[trigger] is_ring(ring, map)
}

/// Whether the cell `(x, y)` is a wall, or a place of the maze, or a
/// corridor cell that lies between two open places.
pub open spec fn fits_maze(map: DungeonS1, px: int, py: int, x: int, y: int) -> bool {
    map.at(x, y) == TileType::Wall || (is_on_lattice(x, y, px, py) && (x % 2 != px
        ==> map.in_bounds(x - 1, y) && map.at(x - 1, y) != TileType::Wall && map.in_bounds(x + 1, y)
        && map.at(x + 1, y) != TileType::Wall) && (y % 2 != py ==> map.in_bounds(x, y - 1)
        && map.at(x, y - 1) != TileType::Wall && map.in_bounds(x, y + 1) && map.at(x, y + 1)
        != TileType::Wall))
}

/// Whether the open cells of the map are places of a maze and corridor
/// cells between two open places, and nothing else.
pub open spec fn is_tidy(map: DungeonS1, px: int, py: int) -> bool {
    forall|x: int, y: int| map.in_bounds(x, y) ==> #[trigger] fits_maze(map, px, py, x, y)
}

/// Whether the open cells of the map are places and corridors of a maze
/// and no closed way leads over them.
#[verifier::opaque]
pub open spec fn is_forest(map: DungeonS1, px: int, py: int) -> bool {
    is_tidy(map, px, py) && has_no_ring(map)
}

/// A cell of a closed way has two open cells beside it.
proof fn lemma_ring_sides(ring: Seq<(int, int)>, map: DungeonS1, t: int) -> (sides: (
    (int, int),
    (int, int),
))
    requires
        is_ring(ring, map),
        0 <= t < ring.len(),
    ensures
        sides.0 != sides.1,
        ring.contains(sides.0),
        ring.contains(sides.1),
        is_next_to(ring[t], sides.0),
        is_next_to(ring[t], sides.1),
        map.in_bounds(sides.0.0, sides.0.1) && map.at(sides.0.0, sides.0.1) != TileType::Wall,
        map.in_bounds(sides.1.0, sides.1.1) && map.at(sides.1.0, sides.1.1) != TileType::Wall,
{
    let n = ring.len() as int;
    let i = if t == 0 {
        n - 1
    } else {
        t - 1
    };
    let j = if t == n - 1 {
        0
    } else {
        t + 1
    };
    assert(ring[i] != ring[j]) by {
        if i < j {
            assert(ring[i] != ring[j]);
        } else {
            assert(ring[j] != ring[i]);
        }
    }
    if t > 0 {
        assert(is_next_to(ring[t - 1], ring[t - 1 + 1]));
    }
    if t < n - 1 {
        assert(is_next_to(ring[t], ring[t + 1]));
    }
    assert(map.in_bounds(ring[i].0, ring[i].1));
    assert(map.in_bounds(ring[j].0, ring[j].1));
    (ring[i], ring[j])
}

/// A tidy map stays tidy when a step of the walk opens a place and the
/// corridor cell that leads there.
proof fn lemma_step_keeps_tidy(
    before: DungeonS1,
    after: DungeonS1,
    px: int,
    py: int,
    c: (int, int),
    i: (int, int),
    n: (int, int),
)
    requires
        before.wf(),
        after.wf(),
        after.same_frame(&before),
        is_tidy(before, px, py),
        before.in_bounds(c.0, c.1) && before.in_bounds(i.0, i.1) && before.in_bounds(n.0, n.1),
        before.at(c.0, c.1) != TileType::Wall,
        before.at(i.0, i.1) == TileType::Wall,
        before.at(n.0, n.1) == TileType::Wall,
        is_place(c.0, c.1, px, py),
        is_next_to(c, i),
        n == (2 * i.0 - c.0, 2 * i.1 - c.1),
        forall|x: int, y: int|
            before.in_bounds(x, y) ==> #[trigger] after.at(x, y) == if (x, y) == i || (x, y) == n {
                TileType::Floor
            } else {
                before.at(x, y)
            },
    ensures
        is_tidy(after, px, py),
        is_place(n.0, n.1, px, py),
{
    assert(is_place(n.0, n.1, px, py));
    assert(after.at(c.0, c.1) != TileType::Wall);
    assert(after.at(n.0, n.1) != TileType::Wall);
    assert(after.at(i.0, i.1) != TileType::Wall);
    assert(fits_maze(after, px, py, i.0, i.1));
    assert(fits_maze(after, px, py, n.0, n.1));
    assert forall|x: int, y: int| after.in_bounds(x, y) implies #[trigger] fits_maze(
        after,
        px,
        py,
        x,
        y,
    ) by {
        assert(fits_maze(before, px, py, x, y));
        if (x, y) == i || (x, y) == n {
        } else if before.at(x, y) != TileType::Wall {
            assert(after.at(x, y) == before.at(x, y));
            if x % 2 != px {
                assert(after.at(x - 1, y) != TileType::Wall);
                assert(after.at(x + 1, y) != TileType::Wall);
            }
            if y % 2 != py {
                assert(after.at(x, y - 1) != TileType::Wall);
                assert(after.at(x, y + 1) != TileType::Wall);
            }
        } else {
            assert(after.at(x, y) == before.at(x, y));
        }
    }
}

/// An open cell beside a corridor cell that has just been opened is one of
/// the two places that the corridor joins.
proof fn lemma_leads_from_corridor(
    before: DungeonS1,
    after: DungeonS1,
    px: int,
    py: int,
    c: (int, int),
    i: (int, int),
    n: (int, int),
    s: (int, int),
)
    requires
        before.wf(),
        after.wf(),
        after.same_frame(&before),
        is_tidy(before, px, py),
        before.in_bounds(c.0, c.1) && before.in_bounds(i.0, i.1) && before.in_bounds(n.0, n.1),
        before.at(c.0, c.1) != TileType::Wall,
        before.at(i.0, i.1) == TileType::Wall,
        before.at(n.0, n.1) == TileType::Wall,
        is_place(c.0, c.1, px, py),
        is_next_to(c, i),
        n == (2 * i.0 - c.0, 2 * i.1 - c.1),
        forall|x: int, y: int|
            before.in_bounds(x, y) ==> #[trigger] after.at(x, y) == if (x, y) == i || (x, y) == n {
                TileType::Floor
            } else {
                before.at(x, y)
            },
        is_next_to(i, s),
        after.in_bounds(s.0, s.1),
        after.at(s.0, s.1) != TileType::Wall,
    ensures
        s == c || s == n,
{
    if s != n {
        assert(s != i);
        assert(after.at(s.0, s.1) == before.at(s.0, s.1));
        assert(fits_maze(before, px, py, s.0, s.1));
        assert(is_on_lattice(s.0, s.1, px, py));
    }
}

/// A step of the walk that opens a place that was a wall, and the corridor
/// cell that leads there, closes no way on a tidy map.
proof fn lemma_step_keeps_forest(
    before: DungeonS1,
    after: DungeonS1,
    px: int,
    py: int,
    c: (int, int),
    i: (int, int),
    n: (int, int),
)
    requires
        before.wf(),
        after.wf(),
        after.same_frame(&before),
        before.in_bounds(c.0, c.1) && before.in_bounds(i.0, i.1) && before.in_bounds(n.0, n.1),
        before.at(c.0, c.1) != TileType::Wall,
        before.at(i.0, i.1) == TileType::Wall,
        before.at(n.0, n.1) == TileType::Wall,
        is_place(c.0, c.1, px, py),
        is_next_to(c, i),
        n == (2 * i.0 - c.0, 2 * i.1 - c.1),
        forall|x: int, y: int|
            before.in_bounds(x, y) ==> #[trigger] after.at(x, y) == if (x, y) == i || (x, y) == n {
                TileType::Floor
            } else {
                before.at(x, y)
            },
        is_forest(before, px, py),
    ensures
        is_forest(after, px, py),
{
    reveal(is_forest);
    lemma_step_keeps_tidy(before, after, px, py, c, i, n);
    assert forall|ring: Seq<(int, int)>| !#[trigger] is_ring(ring, after) by {
        if is_ring(ring, after) {
            if ring.contains(n) {
                let t = choose|t: int| 0 <= t < ring.len() && ring[t] == n;
                let sides = lemma_ring_sides(ring, after, t);
                lemma_leads_to_place(before, after, px, py, i, n, sides.0);
                lemma_leads_to_place(before, after, px, py, i, n, sides.1);
            } else if ring.contains(i) {
                let t = choose|t: int| 0 <= t < ring.len() && ring[t] == i;
                let sides = lemma_ring_sides(ring, after, t);
                lemma_leads_from_corridor(before, after, px, py, c, i, n, sides.0);
                lemma_leads_from_corridor(before, after, px, py, c, i, n, sides.1);
            } else {
                lemma_ring_was_there(ring, before, after, i, n);
            }
        }
    }
}

/// A closed way that goes over none of the cells that were opened was
/// there before.
proof fn lemma_ring_was_there(
    ring: Seq<(int, int)>,
    before: DungeonS1,
    after: DungeonS1,
    i: (int, int),
    n: (int, int),
)
    requires
        after.same_frame(&before),
        is_ring(ring, after),
        !ring.contains(i),
        !ring.contains(n),
        forall|x: int, y: int|
            before.in_bounds(x, y) ==> #[trigger] after.at(x, y) == if (x, y) == i || (x, y) == n {
                TileType::Floor
            } else {
                before.at(x, y)
            },
    ensures
        is_ring(ring, before),
{
    assert forall|k: int| 0 <= k < ring.len() implies before.in_bounds(
        (#[trigger] ring[k]).0,
        ring[k].1,
    ) && before.at(ring[k].0, ring[k].1) != TileType::Wall by {
        assert(ring.contains(ring[k]));
        assert(after.in_bounds(ring[k].0, ring[k].1));
        assert(after.at(ring[k].0, ring[k].1) == before.at(ring[k].0, ring[k].1));
    }
}

/// An open cell beside a place that has just been opened is the corridor
/// cell that was opened with it.
proof fn lemma_leads_to_place(
    before: DungeonS1,
    after: DungeonS1,
    px: int,
    py: int,
    i: (int, int),
    n: (int, int),
    s: (int, int),
)
    requires
        is_tidy(before, px, py),
        after.same_frame(&before),
        before.in_bounds(n.0, n.1),
        before.at(n.0, n.1) == TileType::Wall,
        is_place(n.0, n.1, px, py),
        is_next_to(n, s),
        after.in_bounds(s.0, s.1),
        after.at(s.0, s.1) != TileType::Wall,
        forall|x: int, y: int|
            before.in_bounds(x, y) ==> #[trigger] after.at(x, y) == if (x, y) == i || (x, y) == n {
                TileType::Floor
            } else {
                before.at(x, y)
            },
    ensures
        s == i,
{
    if s != i {
        assert(before.in_bounds(s.0, s.1));
        assert(after.at(s.0, s.1) == before.at(s.0, s.1));
        assert(fits_maze(before, px, py, s.0, s.1));
    }
}

/// Whether `post` is `pre` with more of a maze that grows from `(cx, cy)`:
/// the cells that were opened were walls, lie strictly inside the border
/// and outside every padded box of a feature, and nothing else changes;
/// from no place that was opened can a further step be made; the cells that
/// were opened are places of the maze and cells between two places side by
/// side; each of them can be reached from the first cell over open cells,
/// if that is open; and where the first cell is open and the open cells
/// were places and corridors of a maze without a closed way, they still
/// are.
#[verifier::opaque]
pub open spec fn is_growth(pre: DungeonS1, post: DungeonS1, cx: int, cy: int) -> bool {
    &&& forall|x: int, y: int|
        pre.in_bounds(x, y) ==> #[trigger] post.at(x, y) == pre.at(x, y) || (pre.at(x, y)
            == TileType::Wall && post.at(x, y) == TileType::Floor && 0 < x < pre.width - 1 && 0 < y
            < pre.height - 1 && !near_feature(pre.features@, x, y))
    &&& forall|x: int, y: int|
        pre.in_bounds(x, y) && #[trigger] post.at(x, y) != pre.at(x, y) && is_place(
            x,
            y,
            cx % 2,
            cy % 2,
        ) ==> is_stuck(post, x, y)
    &&& forall|x: int, y: int|
        pre.in_bounds(x, y) && #[trigger] post.at(x, y) != pre.at(x, y) ==> is_on_lattice(
            x,
            y,
            cx % 2,
            cy % 2,
        )
    &&& pre.at(cx, cy) != TileType::Wall ==> forall|x: int, y: int|
        pre.in_bounds(x, y) && #[trigger] post.at(x, y) != pre.at(x, y) ==> is_open_linked(
            post,
            (cx, cy),
            (x, y),
        )
    &&& pre.at(cx, cy) != TileType::Wall && is_forest(pre, cx % 2, cy % 2) ==> is_forest(
        post,
        cx % 2,
        cy % 2,
    )
}

/// What a walk from `(cx, cy)` has made of the map `pre` after `steps`
/// steps: twice as many walls are floor as steps were made, and one in two
/// of them is a place of the maze; and the map has grown as `is_growth`
/// says.
pub open spec fn carve_so_far(
    pre: DungeonS1,
    post: DungeonS1,
    cx: usize,
    cy: usize,
    steps: usize,
) -> bool {
    &&& post.wf()
    &&& post.same_frame(&pre)
    &&& post.count(TileType::Wall) + 2 * steps == pre.count(TileType::Wall)
    &&& post.count(TileType::Floor) == pre.count(TileType::Floor) + 2 * steps
    &&& count_places(post.tiles(), cx as int % 2, cy as int % 2) == count_places(
        pre.tiles(),
        cx as int % 2,
        cy as int % 2,
    ) + steps
    &&& is_growth(pre, post, cx as int, cy as int)
}

/// What a walk from `(cx, cy)` of `steps` steps can make of the map `pre`:
/// what `carve_so_far` says, and no further step can be made from the
/// first cell either.
pub open spec fn carve_result(
    pre: DungeonS1,
    post: DungeonS1,
    cx: usize,
    cy: usize,
    steps: usize,
) -> bool {
    &&& carve_so_far(pre, post, cx, cy, steps)
    &&& is_stuck(post, cx as int, cy as int)
}

/// Whether `after` is `before` with one step of the walk made from `c`: the
/// place `n` and the corridor cell `i` between `c` and `n` were walls
/// outside every padded box of a feature and are floor, and nothing else
/// has changed.
pub open spec fn is_step(
    before: DungeonS1,
    after: DungeonS1,
    c: (int, int),
    i: (int, int),
    n: (int, int),
) -> bool {
    &&& after.wf()
    &&& after.same_frame(&before)
    &&& before.in_bounds(c.0, c.1)
    &&& before.in_bounds(i.0, i.1)
    &&& 0 < n.0 < before.width - 1 && 0 < n.1 < before.height - 1
    &&& is_next_to(c, i)
    &&& n == (2 * i.0 - c.0, 2 * i.1 - c.1)
    &&& before.at(i.0, i.1) == TileType::Wall && before.at(n.0, n.1) == TileType::Wall
    &&& !near_feature(before.features@, i.0, i.1) && !near_feature(before.features@, n.0, n.1)
    &&& forall|x: int, y: int|
        before.in_bounds(x, y) ==> #[trigger] after.at(x, y) == if (x, y) == i || (x, y) == n {
            TileType::Floor
        } else {
            before.at(x, y)
        }
    &&& after.count(TileType::Wall) + 2 == before.count(TileType::Wall)
    &&& after.count(TileType::Floor) == before.count(TileType::Floor) + 2
    &&& count_places(after.tiles(), c.0 % 2, c.1 % 2) == count_places(
        before.tiles(),
        c.0 % 2,
        c.1 % 2,
    ) + 1
}

/// A direction in which the walk can make no step stays so after more
/// cells were opened.
pub proof fn lemma_blocked_stays(
    before: DungeonS1,
    after: DungeonS1,
    d: Direction,
    x: int,
    y: int,
)
    requires
        before.wf(),
        is_opened(before, after),
        before.in_bounds(x, y),
        is_blocked(
            before.tiles(),
            before.features@,
            d,
            before.width as int,
            before.height as int,
            x,
            y,
        ),
    ensures
        is_blocked(
            after.tiles(),
            after.features@,
            d,
            after.width as int,
            after.height as int,
            x,
            y,
        ),
{
    let w = before.width as int;
    let h = before.height as int;
    match spec_carve_target(d, w, h, x, y) {
        Some((ix, iy, nx, ny)) => {
            assert(after.tiles()[ny][nx] == after.at(nx, ny));
            assert(after.tiles()[iy][ix] == after.at(ix, iy));
            assert(before.tiles()[ny][nx] == before.at(nx, ny));
            assert(before.tiles()[iy][ix] == before.at(ix, iy));
            assert(after.at(nx, ny) == before.at(nx, ny) || after.at(nx, ny) == TileType::Floor);
            assert(after.at(ix, iy) == before.at(ix, iy) || after.at(ix, iy) == TileType::Floor);
        },
        None => {},
    }
}

/// Where the walk can make no step, it can make none after more cells were
/// opened.
pub proof fn lemma_stuck_stays(before: DungeonS1, after: DungeonS1, x: int, y: int)
    requires
        before.wf(),
        is_opened(before, after),
        before.in_bounds(x, y),
        is_stuck(before, x, y),
    ensures
        is_stuck(after, x, y),
{
    let w = before.width as int;
    let h = before.height as int;
    assert forall|d: Direction| #[trigger]
        is_blocked(after.tiles(), after.features@, d, w, h, x, y) by {
        assert(is_blocked(before.tiles(), before.features@, d, w, h, x, y));
        lemma_blocked_stays(before, after, d, x, y);
    }
}

/// A walk that has come from `pre` to `entry`, makes a step there and
/// walks on from the place that the step has opened, has made one step
/// more than the two walks together.
proof fn lemma_carve_step(
    pre: DungeonS1,
    entry: DungeonS1,
    carved: DungeonS1,
    post: DungeonS1,
    cx: usize,
    cy: usize,
    i: (int, int),
    nx: usize,
    ny: usize,
    steps: usize,
    deeper: usize,
    total: usize,
)
    requires
        pre.wf(),
        carve_so_far(pre, entry, cx, cy, steps),
        is_step(entry, carved, (cx as int, cy as int), i, (nx as int, ny as int)),
        carve_result(carved, post, nx, ny, deeper),
        total == steps + 1 + deeper,
    ensures
        carve_so_far(pre, post, cx, cy, total),
        is_opened(entry, post),
        post.at(nx as int, ny as int) != TileType::Wall,
{
    reveal(is_growth);
    let c = (cx as int, cy as int);
    let n = (nx as int, ny as int);
    let px = c.0 % 2;
    let py = c.1 % 2;
    let w = pre.width as int;
    let h = pre.height as int;
    assert(n.0 % 2 == px && n.1 % 2 == py);
    assert(0 < i.0 < w - 1 && 0 < i.1 < h - 1);
    assert(!is_place(i.0, i.1, px, py));
    assert(is_on_lattice(i.0, i.1, px, py));
    assert forall|x: int, y: int| pre.in_bounds(x, y) implies #[trigger] post.at(x, y) == entry.at(
        x,
        y,
    ) || (entry.at(x, y) == TileType::Wall && post.at(x, y) == TileType::Floor && 0 < x < w - 1
        && 0 < y < h - 1 && !near_feature(pre.features@, x, y)) by {
        assert(post.at(x, y) == carved.at(x, y) || (carved.at(x, y) == TileType::Wall && post.at(
            x,
            y,
        ) == TileType::Floor && 0 < x < w - 1 && 0 < y < h - 1 && !near_feature(
            carved.features@,
            x,
            y,
        )));
        assert(carved.at(x, y) == if (x, y) == i || (x, y) == n {
            TileType::Floor
        } else {
            entry.at(x, y)
        });
    }
    assert(is_opened(entry, post));
    assert(is_opened(carved, post));
    assert(post.at(n.0, n.1) != TileType::Wall) by {
        assert(carved.at(n.0, n.1) == TileType::Floor);
        assert(post.at(n.0, n.1) == carved.at(n.0, n.1) || post.at(n.0, n.1) == TileType::Floor);
    }
    assert forall|x: int, y: int| pre.in_bounds(x, y) implies #[trigger] post.at(x, y) == pre.at(
        x,
        y,
    ) || (pre.at(x, y) == TileType::Wall && post.at(x, y) == TileType::Floor && 0 < x < w - 1 && 0
        < y < h - 1 && !near_feature(pre.features@, x, y)) by {
        assert(post.at(x, y) == entry.at(x, y) || (entry.at(x, y) == TileType::Wall && post.at(x, y)
            == TileType::Floor && 0 < x < w - 1 && 0 < y < h - 1 && !near_feature(
            pre.features@,
            x,
            y,
        )));
        assert(entry.at(x, y) == pre.at(x, y) || (pre.at(x, y) == TileType::Wall && entry.at(x, y)
            == TileType::Floor && 0 < x < w - 1 && 0 < y < h - 1 && !near_feature(
            pre.features@,
            x,
            y,
        )));
    }
    assert forall|x: int, y: int|
        pre.in_bounds(x, y) && #[trigger] post.at(x, y) != pre.at(x, y) && is_place(
            x,
            y,
            px,
            py,
        ) implies is_stuck(post, x, y) by {
        if (x, y) == n {
        } else if (x, y) == i {
        } else if post.at(x, y) != carved.at(x, y) {
        } else {
            assert(carved.at(x, y) == entry.at(x, y));
            assert(entry.at(x, y) != pre.at(x, y));
            lemma_stuck_stays(entry, post, x, y);
        }
    }
    assert forall|x: int, y: int|
        pre.in_bounds(x, y) && #[trigger] post.at(x, y) != pre.at(x, y) implies is_on_lattice(
        x,
        y,
        px,
        py,
    ) by {
        if (x, y) == n {
        } else if (x, y) == i {
        } else if post.at(x, y) != carved.at(x, y) {
            assert(is_on_lattice(x, y, n.0 % 2, n.1 % 2));
        } else {
            assert(carved.at(x, y) == entry.at(x, y));
            assert(entry.at(x, y) != pre.at(x, y));
        }
    }
    if pre.at(c.0, c.1) != TileType::Wall {
        assert(entry.at(c.0, c.1) != TileType::Wall) by {
            assert(entry.at(c.0, c.1) == pre.at(c.0, c.1) || entry.at(c.0, c.1)
                == TileType::Floor);
        }
        assert(carved.at(c.0, c.1) == entry.at(c.0, c.1));
        assert(carved.at(i.0, i.1) == TileType::Floor);
        assert(carved.at(n.0, n.1) == TileType::Floor);
        assert(is_open_chain(seq![c, i], carved, c, i));
        assert(is_open_chain(seq![c, i, n], carved, c, n));
        lemma_open_linked_stays(carved, post, c, i);
        lemma_open_linked_stays(carved, post, c, n);
        assert forall|x: int, y: int|
            pre.in_bounds(x, y) && #[trigger] post.at(x, y) != pre.at(x, y) implies is_open_linked(
            post,
            c,
            (x, y),
        ) by {
            if (x, y) == n {
            } else if (x, y) == i {
            } else if post.at(x, y) != carved.at(x, y) {
                assert(is_open_linked(post, n, (x, y)));
                lemma_open_linked_on(post, c, n, (x, y));
            } else {
                assert(carved.at(x, y) == entry.at(x, y));
                assert(entry.at(x, y) != pre.at(x, y));
                lemma_open_linked_stays(entry, post, c, (x, y));
            }
        }
        if is_forest(pre, px, py) {
            lemma_step_keeps_forest(entry, carved, px, py, c, i, n);
        }
    }
}

/// After a walk on a map of walls with the first cell marked, no square of
/// two by two cells is open.
pub proof fn lemma_maze_has_no_open_square(
    pre: DungeonS1,
    post: DungeonS1,
    cx: usize,
    cy: usize,
    steps: usize,
    x: int,
    y: int,
)
    requires
        pre.wf(),
        carve_result(pre, post, cx, cy, steps),
        forall|i: int, j: int|
            pre.in_bounds(i, j) && (i != cx || j != cy) ==> #[trigger] pre.at(i, j)
                == TileType::Wall,
        pre.in_bounds(x, y) && pre.in_bounds(x + 1, y + 1),
    ensures
        post.at(x, y) == TileType::Wall || post.at(x + 1, y) == TileType::Wall || post.at(x, y + 1)
            == TileType::Wall || post.at(x + 1, y + 1) == TileType::Wall,
{
    reveal(is_growth);
    let px = cx as int % 2;
    let py = cy as int % 2;
    let i = if x % 2 == px {
        x + 1
    } else {
        x
    };
    let j = if y % 2 == py {
        y + 1
    } else {
        y
    };
    assert(!is_on_lattice(i, j, px, py));
    assert(pre.in_bounds(i, j));
    assert(pre.at(i, j) == TileType::Wall);
    assert(post.at(i, j) == pre.at(i, j));
}

/// A row of walls holds no open place.
proof fn lemma_no_places_in_row(row: Seq<TileType>, y: int, px: int, py: int)
    requires
        forall|x: int| 0 <= x < row.len() ==> #[trigger] row[x] == TileType::Wall,
    ensures
        count_places_in_row(row, y, px, py) == 0,
    decreases row.len(),
{
    if row.len() > 0 {
        assert forall|x: int| 0 <= x < row.drop_last().len() implies #[trigger] row.drop_last()[x]
            == TileType::Wall by {
            assert(row.drop_last()[x] == row[x]);
        }
        lemma_no_places_in_row(row.drop_last(), y, px, py);
        assert(row.last() == row[row.len() - 1]);
    }
}

/// A grid of walls holds no open place.
proof fn lemma_no_places(rows: Seq<Seq<TileType>>, px: int, py: int)
    requires
        forall|x: int, y: int|
            0 <= y < rows.len() && 0 <= x < rows[y].len() ==> #[trigger] rows[y][x]
                == TileType::Wall,
    ensures
        count_places(rows, px, py) == 0,
    decreases rows.len(),
{
    if rows.len() > 0 {
        let rest = rows.drop_last();
        assert forall|x: int, y: int|
            0 <= y < rest.len() && 0 <= x < rest[y].len() implies #[trigger] rest[y][x]
            == TileType::Wall by {
            assert(rest[y] == rows[y]);
        }
        lemma_no_places(rest, px, py);
        let last = rows.last();
        assert forall|x: int| 0 <= x < last.len() implies #[trigger] last[x] == TileType::Wall by {
            assert(rows[rows.len() - 1][x] == TileType::Wall);
        }
        lemma_no_places_in_row(last, rows.len() - 1, px, py);
    }
}

/// After a walk on a map of walls with the first cell marked, the places
/// that are open are one more than the steps that were made, and each step
/// has opened one corridor besides: as many places as corridors and one
/// more, which together with `lemma_maze_is_connected` makes the maze a
/// tree.
pub proof fn lemma_maze_counts(
    pre: DungeonS1,
    post: DungeonS1,
    cx: usize,
    cy: usize,
    steps: usize,
)
    requires
        pre.wf(),
        pre.in_bounds(cx as int, cy as int),
        pre.at(cx as int, cy as int) != TileType::Wall,
        carve_result(pre, post, cx, cy, steps),
        forall|i: int, j: int|
            pre.in_bounds(i, j) && (i != cx || j != cy) ==> #[trigger] pre.at(i, j)
                == TileType::Wall,
    ensures
        count_places(post.tiles(), cx as int % 2, cy as int % 2) == steps + 1,
        post.count(TileType::Wall) + 2 * steps == pre.count(TileType::Wall),
{
    let px = cx as int % 2;
    let py = cy as int % 2;
    let rows = pre.tiles();
    let walls = with_tile(rows, (cy, cx), TileType::Wall);
    assert forall|x: int, y: int|
        0 <= y < walls.len() && 0 <= x < walls[y].len() implies #[trigger] walls[y][x]
        == TileType::Wall by {
        if x != cx || y != cy {
            assert(walls[y][x] == rows[y][x]);
            assert(rows[y][x] == pre.at(x, y));
        }
    }
    lemma_no_places(walls, px, py);
    lemma_count_places_set(walls, px, py, cx as int, cy as int, pre.at(cx as int, cy as int));
    let back = walls.update(
        cy as int,
        walls[cy as int].update(cx as int, pre.at(cx as int, cy as int)),
    );
    assert(back =~= rows) by {
        assert forall|y: int| 0 <= y < rows.len() implies back[y] == rows[y] by {
            assert(back[y] =~= rows[y]);
        }
    }
}

/// After a walk on a map of walls with the first cell marked, no closed way
/// leads over open cells. The open cells hang together as well, by
/// `lemma_maze_is_connected`: they are a tree.
pub proof fn lemma_maze_has_no_ring(
    pre: DungeonS1,
    post: DungeonS1,
    cx: usize,
    cy: usize,
    steps: usize,
    ring: Seq<(int, int)>,
)
    requires
        pre.wf(),
        pre.in_bounds(cx as int, cy as int),
        pre.at(cx as int, cy as int) != TileType::Wall,
        carve_result(pre, post, cx, cy, steps),
        forall|i: int, j: int|
            pre.in_bounds(i, j) && (i != cx || j != cy) ==> #[trigger] pre.at(i, j)
                == TileType::Wall,
    ensures
        !is_ring(ring, post),
{
    reveal(is_growth);
    let px = cx as int % 2;
    let py = cy as int % 2;
    assert forall|x: int, y: int| pre.in_bounds(x, y) implies #[trigger] fits_maze(
        pre,
        px,
        py,
        x,
        y,
    ) by {
        if x != cx || y != cy {
            assert(pre.at(x, y) == TileType::Wall);
        }
    }
    assert forall|other: Seq<(int, int)>| !#[trigger] is_ring(other, pre) by {
        if is_ring(other, pre) {
            let a = other[0];
            let b = other[1];
            assert(pre.in_bounds(a.0, a.1) && pre.at(a.0, a.1) != TileType::Wall);
            assert(pre.in_bounds(b.0, b.1) && pre.at(b.0, b.1) != TileType::Wall);
            assert(a != b);
        }
    }
    reveal(is_forest);
    assert(is_forest(pre, px, py));
    assert(has_no_ring(post));
}

/// After a walk on a map of walls with the first cell marked, the open cells
/// hang together: from every open cell every other can be reached over open
/// cells.
pub proof fn lemma_maze_is_connected(
    pre: DungeonS1,
    post: DungeonS1,
    cx: usize,
    cy: usize,
    steps: usize,
    a: (int, int),
    b: (int, int),
)
    requires
        pre.wf(),
        pre.in_bounds(cx as int, cy as int),
        pre.at(cx as int, cy as int) != TileType::Wall,
        carve_result(pre, post, cx, cy, steps),
        forall|i: int, j: int|
            pre.in_bounds(i, j) && (i != cx || j != cy) ==> #[trigger] pre.at(i, j)
                == TileType::Wall,
        post.in_bounds(a.0, a.1) && post.at(a.0, a.1) != TileType::Wall,
        post.in_bounds(b.0, b.1) && post.at(b.0, b.1) != TileType::Wall,
    ensures
        is_open_linked(post, a, b),
{
    reveal(is_growth);
    let c = (cx as int, cy as int);
    assert(post.at(c.0, c.1) != TileType::Wall);
    assert(is_open_chain(seq![c], post, c, c));
    if a != c {
        assert(post.at(a.0, a.1) != pre.at(a.0, a.1));
    }
    if b != c {
        assert(post.at(b.0, b.1) != pre.at(b.0, b.1));
    }
    assert(is_open_linked(post, c, a));
    assert(is_open_linked(post, c, b));
    lemma_open_linked_back(post, c, a);
    lemma_open_linked_on(post, a, c, b);
}

/// The two cells that a step of the walk carves.
pub fn carve_target(direction: Direction, width: usize, height: usize, x: usize, y: usize) -> (target:
    Option<(usize, usize, usize, usize)>)
    requires
        x < width,
        y < height,
    ensures
        match spec_carve_target(direction, width as int, height as int, x as int, y as int) {
            Some((ix, iy, nx, ny)) => target == Some(
                (ix as usize, iy as usize, nx as usize, ny as usize),
            ) && 0 <= ix < width && 0 <= iy < height && 0 < nx < width - 1 && 0 < ny < height - 1,
            None => target is None,
        },
{
    let inner_x: bool = 0 < x && x < width - 1;
    let inner_y: bool = 0 < y && y < height - 1;
    match direction {
        Direction::North => if inner_x && y >= 3 && y - 2 < height - 1 {
            Some((x, y - 1, x, y - 2))
        } else {
            None
        },
        Direction::South => if inner_x && height >= 4 && y < height - 3 {
            Some((x, y + 1, x, y + 2))
        } else {
            None
        },
        Direction::East => if inner_y && width >= 4 && x < width - 3 {
            Some((x + 1, y, x + 2, y))
        } else {
            None
        },
        Direction::West => if inner_y && x >= 3 && x - 2 < width - 1 {
            Some((x - 1, y, x - 2, y))
        } else {
            None
        },
        _ => None,
    }
}

/// Tests whether `(cx, cy)` lies within the padded box of a feature of the
/// map.
pub fn point_intersects_features(map: &DungeonS1, cx: usize, cy: usize) -> (hit: bool)
    ensures
        hit == near_feature(map.features@, cx as int, cy as int),
{
    let mut k: usize = 0;
    while k < map.features.len()
        invariant
            k <= map.features.len(),
            forall|j: int|
                0 <= j < k ==> !near_rect(
                    (#[trigger] map.features@[j]).spec_rect(),
                    cx as int,
                    cy as int,
                ),
        decreases map.features.len() - k,
    {
        let r: Rect = map.features[k].rect();
        if r.x1.saturating_sub(2) <= cx && cx <= r.x2.saturating_add(2) && r.y1.saturating_sub(2)
            <= cy && cy <= r.y2.saturating_add(2) {
            return true;
        }
        k = k + 1;
    }
    false
}

/// Reads the tile at `(x, y)` if the cell is strictly inside the border.
/// The coordinates are one more than the cell's, so that the cell before
/// the first row or column can be asked for.
fn inner_tile_at(map: &DungeonS1, x1: usize, y1: usize) -> (t: Option<TileType>)
    requires
        map.wf(),
        x1 <= map.width,
        y1 <= map.height,
    ensures
        t == inner_tile(map.tiles(), map.width as int, map.height as int, x1 - 1, y1 - 1),
{
    if x1 >= 2 && y1 >= 2 && x1 - 1 < map.width - 1 && y1 - 1 < map.height - 1 {
        Some(map.get(x1 - 1, y1 - 1))
    } else {
        None
    }
}

/// Tells whether a cell inside the border holds `t` or something else.
fn tally(o: Option<TileType>, t: TileType) -> (c: (usize, usize))
    ensures
        c.0 == is_tile(o, t),
        c.1 == is_other(o, t),
        c.0 + c.1 <= 1,
{
    match o {
        Some(v) => if v == t {
            (1, 0)
        } else {
            (0, 1)
        },
        None => (0, 0),
    }
}

/// Counts the cells next to `(x, y)` that lie strictly inside the border,
/// those that hold `t` and those that hold something else.
#[verifier::rlimit(50)]
pub fn count_inner(map: &DungeonS1, x: usize, y: usize, t: TileType) -> (counts: (usize, usize))
    requires
        map.wf(),
        x < map.width,
        y < map.height,
    ensures
        counts.0 == inner_count(
            map.tiles(),
            map.width as int,
            map.height as int,
            x as int,
            y as int,
            t,
        ),
        counts.1 == inner_count_other(
            map.tiles(),
            map.width as int,
            map.height as int,
            x as int,
            y as int,
            t,
        ),
        counts.0 + counts.1 <= 4,
{
    let north: (usize, usize) = tally(inner_tile_at(map, x + 1, y), t);
    let west: (usize, usize) = tally(inner_tile_at(map, x, y + 1), t);
    let east: (usize, usize) = if x + 1 < map.width {
        tally(inner_tile_at(map, x + 2, y + 1), t)
    } else {
        (0, 0)
    };
    let south: (usize, usize) = if y + 1 < map.height {
        tally(inner_tile_at(map, x + 1, y + 2), t)
    } else {
        (0, 0)
    };
    (north.0 + west.0 + east.0 + south.0, north.1 + west.1 + east.1 + south.1)
}

/// Tests whether the cell at `(row, column)` can become a door.
pub fn doorway(map: &DungeonS1, cell: (usize, usize)) -> (b: bool)
    requires
        map.wf(),
    ensures
        b == is_doorway(map.tiles(), map.width as int, map.height as int, cell),
        b ==> 0 < cell.1 < map.width - 1 && 0 < cell.0 < map.height - 1,
{
    if cell.1 >= map.width || cell.0 >= map.height {
        return false;
    }
    let counts: (usize, usize) = count_inner(map, cell.1, cell.0, TileType::Floor);
    counts.0 == 2 && counts.1 == 2 && map.get(cell.1, cell.0) == TileType::Wall
}

/// Finds the first cell of the strip that can become a door.
pub fn find_door(map: &DungeonS1, strip: &Vec<(usize, usize)>) -> (found: Option<usize>)
    requires
        map.wf(),
    ensures
        match found {
            Some(i) => i < strip.len() && i == first_doorway(
                map.tiles(),
                map.width as int,
                map.height as int,
                strip@,
                0,
            ) && is_doorway(map.tiles(), map.width as int, map.height as int, strip@[i as int])
                && 0 < strip@[i as int].1 < map.width - 1 && 0 < strip@[i as int].0 < map.height
                - 1,
            None => first_doorway(map.tiles(), map.width as int, map.height as int, strip@, 0)
                == strip.len(),
        },
{
    let mut i: usize = 0;
    while i < strip.len()
        invariant
            map.wf(),
            i <= strip.len(),
            first_doorway(map.tiles(), map.width as int, map.height as int, strip@, 0)
                == first_doorway(map.tiles(), map.width as int, map.height as int, strip@, i as int),
        decreases strip.len() - i,
    {
        if doorway(map, strip[i]) {
            return Some(i);
        }
        i = i + 1;
    }
    None
}

/// Digs up to two doors for one rectangle, taking its sides in the given
/// order. Returns the number of doors opened.
#[verifier::rlimit(50)]
pub fn dig_doors(map: &mut DungeonS1, rect: &Rect, sides: &Vec<Direction>) -> (doors: usize)
    requires
        old(map).wf(),
    ensures
        final(map).wf(),
        final(map).same_frame(old(map)),
        final(map).tiles() == spec_dig_doors(
            old(map).tiles(),
            old(map).width as int,
            old(map).height as int,
            *rect,
            sides@,
            0,
            0,
        ),
        doors == spec_count_doors(
            old(map).tiles(),
            old(map).width as int,
            old(map).height as int,
            *rect,
            sides@,
            0,
            0,
        ),
        doors <= 2,
        final(map).count(TileType::Wall) + doors == old(map).count(TileType::Wall),
        final(map).count(TileType::Floor) == old(map).count(TileType::Floor) + doors,
        forall|x: int, y: int|
            old(map).in_bounds(x, y) ==> #[trigger] final(map).at(x, y) == old(map).at(x, y) || (
            old(map).at(x, y) == TileType::Wall && final(map).at(x, y) == TileType::Floor),
{
    let ghost width = map.width as int;
    let ghost height = map.height as int;
    let mut doors: usize = 0;
    let mut k: usize = 0;
    while k < sides.len() && doors < 2
        invariant
            map.wf(),
            map.same_frame(old(map)),
            width == map.width,
            height == map.height,
            k <= sides.len(),
            doors <= 2,
            doors <= k,
            spec_dig_doors(old(map).tiles(), width, height, *rect, sides@, 0, 0) == spec_dig_doors(
                map.tiles(),
                width,
                height,
                *rect,
                sides@,
                k as int,
                doors as int,
            ),
            spec_count_doors(old(map).tiles(), width, height, *rect, sides@, 0, 0)
                == spec_count_doors(
                map.tiles(),
                width,
                height,
                *rect,
                sides@,
                k as int,
                doors as int,
            ),
            map.count(TileType::Wall) + doors == old(map).count(TileType::Wall),
            map.count(TileType::Floor) == old(map).count(TileType::Floor) + doors,
            forall|x: int, y: int|
                old(map).in_bounds(x, y) ==> #[trigger] map.at(x, y) == old(map).at(x, y) || (old(
                    map,
                ).at(x, y) == TileType::Wall && map.at(x, y) == TileType::Floor),
        decreases sides.len() - k,
    {
        let strip: Vec<(usize, usize)> = rect.wall(&sides[k]);
        match find_door(map, &strip) {
            Some(i) => {
                let cell: (usize, usize) = strip[i];
                proof {
                    lemma_count_tiles_set(
                        map.tiles(),
                        cell.1 as int,
                        cell.0 as int,
                        TileType::Floor,
                        TileType::Wall,
                    );
                    lemma_count_tiles_set(
                        map.tiles(),
                        cell.1 as int,
                        cell.0 as int,
                        TileType::Floor,
                        TileType::Floor,
                    );
                    assert(map.tiles()[cell.0 as int][cell.1 as int] == TileType::Wall);
                }
                map.set(cell.1, cell.0, TileType::Floor);
                doors = doors + 1;
            },
            None => {},
        }
        k = k + 1;
    }
    doors
}

/// Judges one cell of a sweep: fills it in if it is a dead end.
fn fill_dead_end(map: &mut DungeonS1, x: usize, y: usize)
    requires
        old(map).wf(),
        x < old(map).width,
        y < old(map).height,
    ensures
        final(map).wf(),
        final(map).same_frame(old(map)),
        final(map).tiles() == spec_fill_dead_end(
            old(map).tiles(),
            old(map).width as int,
            old(map).height as int,
            x as int,
            y as int,
        ),
        forall|i: int, j: int|
            old(map).in_bounds(i, j) ==> #[trigger] final(map).at(i, j) == old(map).at(i, j)
                || final(map).at(i, j) == TileType::Wall,
{
    let counts: (usize, usize) = count_inner(map, x, y, TileType::Wall);
    if counts.0 >= 3 {
        map.set(x, y, TileType::Wall);
    }
}

/// Sweeps the grid once, row by row, and fills in every dead end it comes
/// upon.
#[verifier::rlimit(50)]
pub fn sweep_dead_ends(map: &mut DungeonS1)
    requires
        old(map).wf(),
        old(map).height >= 1,
    ensures
        final(map).wf(),
        final(map).same_frame(old(map)),
        final(map).tiles() == spec_sweep(
            old(map).tiles(),
            old(map).width as int,
            old(map).height as int,
            old(map).height - 1,
            0,
        ),
        forall|i: int, j: int|
            old(map).in_bounds(i, j) ==> #[trigger] final(map).at(i, j) == old(map).at(i, j)
                || final(map).at(i, j) == TileType::Wall,
{
    let width: usize = map.width;
    let height: usize = map.height;
    if width == 0 {
        assert(spec_sweep(map.tiles(), 0, height as int, height - 1, 0) == map.tiles());
        return ;
    }
    let mut y: usize = 0;
    while y < height - 1
        invariant
            width >= 1,
            height >= 1,
            y <= height - 1,
            map.wf(),
            map.same_frame(old(map)),
            width == map.width,
            height == map.height,
            map.tiles() == spec_sweep(old(map).tiles(), width as int, height as int, y as int, 0),
            forall|i: int, j: int|
                old(map).in_bounds(i, j) ==> #[trigger] map.at(i, j) == old(map).at(i, j)
                    || map.at(i, j) == TileType::Wall,
        decreases height - 1 - y,
    {
        let mut x: usize = 0;
        while x < width - 1
            invariant
                width >= 1,
                height >= 1,
                y < height - 1,
                x <= width - 1,
                map.wf(),
                map.same_frame(old(map)),
                width == map.width,
                height == map.height,
                map.tiles() == spec_sweep(
                    old(map).tiles(),
                    width as int,
                    height as int,
                    y as int,
                    x as int,
                ),
                forall|i: int, j: int|
                    old(map).in_bounds(i, j) ==> #[trigger] map.at(i, j) == old(map).at(i, j)
                        || map.at(i, j) == TileType::Wall,
            decreases width - 1 - x,
        {
            let ghost before = *map;
            fill_dead_end(map, x, y);
            assert forall|i: int, j: int| old(map).in_bounds(i, j) implies #[trigger] map.at(i, j)
                == old(map).at(i, j) || map.at(i, j) == TileType::Wall by {
                assert(map.at(i, j) == before.at(i, j) || map.at(i, j) == TileType::Wall);
            }
            x = x + 1;
        }
        y = y + 1;
    }
}

/// Whether the four maps are the stages through which the pass came from
/// `pre` to `post`: the map with the first cell marked; the map after the
/// walk; the map after the doors were dug, if any are asked for; the map
/// after the dead ends were filled in, if that is asked for. At the end the
/// mark gives way to floor.
pub open spec fn is_creation(
    options: MazeOptions,
    pre: DungeonS1,
    post: DungeonS1,
    stats: MazeStats,
    marked: DungeonS1,
    walked: DungeonS1,
    joined: DungeonS1,
    swept: DungeonS1,
) -> bool {
    match stats.start {
        Some((sx, sy)) => {
            let w = pre.width as int;
            let h = pre.height as int;
            &&& marked.wf() && marked.same_frame(&pre)
            &&& marked.tiles() == with_tile(pre.tiles(), (sy, sx), TileType::Debug)
            &&& carve_result(marked, walked, sx, sy, stats.steps)
            &&& joined.wf() && joined.same_frame(&pre)
            &&& joined.count(TileType::Wall) + stats.doors == walked.count(TileType::Wall)
            &&& if options.connect_to_features {
                exists|orders: Seq<Seq<Direction>>| #[trigger]
                    is_connection(orders, walked.tiles(), joined.tiles(), w, h, pre.features@)
            } else {
                joined.tiles() == walked.tiles()
            }
            &&& swept.wf() && swept.same_frame(&pre)
            &&& swept.tiles() == match options.remove_dead_ends {
                Some(goal) => spec_remove_dead_ends(joined.tiles(), w, h, goal as int),
                None => joined.tiles(),
            }
            &&& post.tiles() == if swept.at(sx as int, sy as int) == TileType::Debug {
                with_tile(swept.tiles(), (sy, sx), TileType::Floor)
            } else {
                swept.tiles()
            }
        },
        None => true,
    }
}

/// What the pass with the given configuration can make of the map `pre`:
/// the maze grows from a cell outside every padded box of a feature, or
/// nothing happens where there is none; the steps and the doors are within
/// their bounds; and where no dead ends are removed, the start is floor, the
/// walls that are gone are accounted for by the steps and the doors, and no
/// further step can be made from the start.
pub open spec fn create_result(
    options: MazeOptions,
    pre: DungeonS1,
    post: DungeonS1,
    stats: MazeStats,
) -> bool {
    &&& post.wf()
    &&& post.same_frame(&pre)
    &&& pre.settled() ==> post.settled()
    &&& match stats.start {
        Some((sx, sy)) => pre.in_bounds(sx as int, sy as int) && !near_feature(
            pre.features@,
            sx as int,
            sy as int,
        ),
        None => post.tiles() == pre.tiles() && stats.steps == 0 && stats.doors
            == 0 && forall|x: int, y: int|
            pre.in_bounds(x, y) ==> near_feature(pre.features@, x, y)
    }
    &&& 2 * stats.steps <= pre.count(TileType::Wall)
    &&& !options.connect_to_features ==> stats.doors == 0
    &&& stats.doors <= 2 * pre.features@.len()
    &&& options.remove_dead_ends is None ==> match stats.start {
        Some((sx, sy)) => post.at(sx as int, sy as int) == TileType::Floor
            && post.count(TileType::Wall) + 2 * stats.steps + stats.doors + one_if(
            pre.at(sx as int, sy as int),
            TileType::Wall,
        ) == pre.count(TileType::Wall) && forall|d: Direction|
            is_blocked(
                post.tiles(),
                pre.features@,
                d,
                pre.width as int,
                pre.height as int,
                sx as int,
                sy as int,
            ),
        None => true
    }
    &&& exists|marked: DungeonS1, walked: DungeonS1, joined: DungeonS1, swept: DungeonS1| #[trigger]
        is_creation(options, pre, post, stats, marked, walked, joined, swept)
}

/// A sweep leaves every cell as it was or makes it a wall, and keeps the
/// shape of the grid.
proof fn lemma_sweep_only_fills(
    tiles: Seq<Seq<TileType>>,
    width: int,
    height: int,
    y: int,
    x: int,
    i: int,
    j: int,
)
    requires
        tiles.len() == height,
        forall|r: int| 0 <= r < height ==> (#[trigger] tiles[r]).len() == width,
        0 <= y < height,
        0 <= x < width,
        0 <= i < width,
        0 <= j < height,
    ensures
        spec_sweep(tiles, width, height, y, x).len() == height,
        forall|r: int|
            0 <= r < height ==> (#[trigger] spec_sweep(tiles, width, height, y, x)[r]).len()
                == width,
        spec_sweep(tiles, width, height, y, x)[j][i] == tiles[j][i] || spec_sweep(
            tiles,
            width,
            height,
            y,
            x,
        )[j][i] == TileType::Wall,
    decreases y, x,
{
    if x > 0 {
        lemma_sweep_only_fills(tiles, width, height, y, x - 1, i, j);
        let mid = spec_sweep(tiles, width, height, y, x - 1);
        let after = spec_fill_dead_end(mid, width, height, x - 1, y);
        assert(after == spec_sweep(tiles, width, height, y, x));
        assert forall|r: int| 0 <= r < height implies (#[trigger] after[r]).len() == width by {
            assert(mid[r].len() == width);
        }
    } else if y > 0 {
        lemma_sweep_only_fills(tiles, width, height, y - 1, width - 1, i, j);
    }
}

/// The sweeps leave every cell as it was or make it a wall, and keep the
/// shape of the grid.
proof fn lemma_sweeps_only_fill(
    tiles: Seq<Seq<TileType>>,
    width: int,
    height: int,
    goal: int,
    i: int,
    j: int,
)
    requires
        tiles.len() == height,
        forall|r: int| 0 <= r < height ==> (#[trigger] tiles[r]).len() == width,
        0 <= i < width,
        0 <= j < height,
    ensures
        spec_remove_dead_ends(tiles, width, height, goal).len() == height,
        forall|r: int|
            0 <= r < height ==> (#[trigger] spec_remove_dead_ends(tiles, width, height, goal)[r]).len()
                == width,
        spec_remove_dead_ends(tiles, width, height, goal)[j][i] == tiles[j][i]
            || spec_remove_dead_ends(tiles, width, height, goal)[j][i] == TileType::Wall,
    decreases goal,
{
    if goal > 0 {
        lemma_sweeps_only_fill(tiles, width, height, goal - 1, i, j);
        let mid = spec_remove_dead_ends(tiles, width, height, goal - 1);
        lemma_sweep_only_fills(mid, width, height, height - 1, 0, i, j);
    }
}

/// Where no doors are asked for, the pass opens no cell within the padded
/// box of a feature: every such cell is what it was, or a wall where a dead
/// end was filled in.
pub proof fn lemma_maze_keeps_off_features(
    options: MazeOptions,
    pre: DungeonS1,
    post: DungeonS1,
    stats: MazeStats,
    x: int,
    y: int,
)
    requires
        pre.wf(),
        create_result(options, pre, post, stats),
        !options.connect_to_features,
        pre.in_bounds(x, y),
        near_feature(pre.features@, x, y),
    ensures
        post.at(x, y) == pre.at(x, y) || post.at(x, y) == TileType::Wall,
{
    reveal(is_growth);
    let w = pre.width as int;
    let h = pre.height as int;
    match stats.start {
        Some((sx, sy)) => {
            let (marked, walked, joined, swept) = choose|
                marked: DungeonS1,
                walked: DungeonS1,
                joined: DungeonS1,
                swept: DungeonS1,
            | #[trigger] is_creation(options, pre, post, stats, marked, walked, joined, swept);
            assert(x != sx || y != sy);
            assert(pre.tiles()[y][x] == pre.at(x, y));
            assert(marked.tiles()[y][x] == marked.at(x, y));
            assert(marked.at(x, y) == pre.at(x, y));
            assert(walked.at(x, y) == marked.at(x, y));
            assert(walked.tiles()[y][x] == walked.at(x, y));
            assert(joined.tiles()[y][x] == joined.at(x, y));
            assert(swept.tiles()[y][x] == swept.at(x, y));
            assert(post.tiles()[y][x] == post.at(x, y));
            match options.remove_dead_ends {
                Some(goal) => {
                    assert forall|r: int| 0 <= r < h implies (#[trigger] joined.tiles()[r]).len()
                        == w by {}
                    lemma_sweeps_only_fill(joined.tiles(), w, h, goal as int, x, y);
                },
                None => {},
            }
        },
        None => {
            assert(post.tiles()[y][x] == post.at(x, y));
            assert(pre.tiles()[y][x] == pre.at(x, y));
        },
    }
}

/// Makes a step of the walk from `(cx, cy)`: opens the place `(nx, ny)` and
/// the corridor cell `(ix, iy)` that leads there.
fn open_step(
    map: &mut DungeonS1,
    cx: usize,
    cy: usize,
    ix: usize,
    iy: usize,
    nx: usize,
    ny: usize,
)
    requires
        old(map).wf(),
        cx < old(map).width,
        cy < old(map).height,
        ix < old(map).width,
        iy < old(map).height,
        0 < nx < old(map).width - 1,
        0 < ny < old(map).height - 1,
        is_next_to((cx as int, cy as int), (ix as int, iy as int)),
        nx == 2 * ix - cx,
        ny == 2 * iy - cy,
        old(map).at(ix as int, iy as int) == TileType::Wall,
        old(map).at(nx as int, ny as int) == TileType::Wall,
        !near_feature(old(map).features@, ix as int, iy as int),
        !near_feature(old(map).features@, nx as int, ny as int),
    ensures
        is_step(
            *old(map),
            *final(map),
            (cx as int, cy as int),
            (ix as int, iy as int),
            (nx as int, ny as int),
        ),
{
    let ghost entry = *map;
    proof {
        lemma_count_tiles_set(map.tiles(), nx as int, ny as int, TileType::Floor, TileType::Wall);
        lemma_count_tiles_set(map.tiles(), nx as int, ny as int, TileType::Floor, TileType::Floor);
        lemma_count_places_set(
            map.tiles(),
            cx as int % 2,
            cy as int % 2,
            nx as int,
            ny as int,
            TileType::Floor,
        );
        assert(is_place(nx as int, ny as int, cx as int % 2, cy as int % 2));
        assert(map.tiles()[ny as int][nx as int] == TileType::Wall);
    }
    map.set(nx, ny, TileType::Floor);
    let ghost middle = *map;
    proof {
        assert(middle.tiles()[iy as int][ix as int] == entry.at(ix as int, iy as int));
        lemma_count_tiles_set(map.tiles(), ix as int, iy as int, TileType::Floor, TileType::Wall);
        lemma_count_tiles_set(map.tiles(), ix as int, iy as int, TileType::Floor, TileType::Floor);
        lemma_count_places_set(
            map.tiles(),
            cx as int % 2,
            cy as int % 2,
            ix as int,
            iy as int,
            TileType::Floor,
        );
        assert(!is_place(ix as int, iy as int, cx as int % 2, cy as int % 2));
    }
    map.set(ix, iy, TileType::Floor);
    proof {
        assert forall|x: int, y: int| entry.in_bounds(x, y) implies #[trigger] map.at(x, y) == if (
        x,
        y,
        ) == (ix as int, iy as int) || (x, y) == (nx as int, ny as int) {
            TileType::Floor
        } else {
            entry.at(x, y)
        } by {
            assert(map.at(x, y) == middle.at(x, y) || (x == ix && y == iy));
            assert(middle.at(x, y) == entry.at(x, y) || (x == nx && y == ny));
        }
    }
}

/// The pass: a configuration that can be run on any grid.
#[derive(Copy, Clone, Debug)]
pub struct Maze {
    pub options: MazeOptions,
}

impl Maze {
    pub fn new(opt: MazeOptions) -> (m: Maze)
        ensures
            m.options == opt,
    {
        Maze { options: opt }
    }

    /// The cells that lie in no padded box of a feature, row by row, as
    /// `(x, y)` pairs.
    #[verifier::rlimit(50)]
    pub fn free_cells(map: &DungeonS1) -> (cells: Vec<(usize, usize)>)
        requires
            map.wf(),
        ensures
            forall|k: int|
                0 <= k < cells@.len() ==> map.in_bounds(
                    (#[trigger] cells@[k]).0 as int,
                    cells@[k].1 as int,
                ) && !near_feature(map.features@, cells@[k].0 as int, cells@[k].1 as int),
            forall|x: int, y: int|
                map.in_bounds(x, y) && !near_feature(map.features@, x, y) ==> cells@.contains(
                    (x as usize, y as usize),
                ),
    {
        let mut cells: Vec<(usize, usize)> = Vec::new();
        let mut y: usize = 0;
        while y < map.height
            invariant
                map.wf(),
                y <= map.height,
                forall|k: int|
                    0 <= k < cells@.len() ==> map.in_bounds(
                        (#[trigger] cells@[k]).0 as int,
                        cells@[k].1 as int,
                    ) && !near_feature(map.features@, cells@[k].0 as int, cells@[k].1 as int),
                forall|i: int, j: int|
                    0 <= i < map.width && 0 <= j < y && !near_feature(map.features@, i, j)
                        ==> cells@.contains((i as usize, j as usize)),
            decreases map.height - y,
        {
            let mut x: usize = 0;
            while x < map.width
                invariant
                    map.wf(),
                    y < map.height,
                    x <= map.width,
                    forall|k: int|
                        0 <= k < cells@.len() ==> map.in_bounds(
                            (#[trigger] cells@[k]).0 as int,
                            cells@[k].1 as int,
                        ) && !near_feature(map.features@, cells@[k].0 as int, cells@[k].1 as int),
                    forall|i: int, j: int|
                        0 <= i < map.width && (0 <= j < y || (j == y && i < x)) && !near_feature(
                            map.features@,
                            i,
                            j,
                        ) ==> cells@.contains((i as usize, j as usize)),
                decreases map.width - x,
            {
                if !point_intersects_features(map, x, y) {
                    let ghost before = cells@;
                    cells.push((x, y));
                    assert forall|i: int, j: int|
                        0 <= i < map.width && (0 <= j < y || (j == y && i < x + 1))
                            && !near_feature(map.features@, i, j) implies cells@.contains(
                        (i as usize, j as usize),
                    ) by {
                        if i == x && j == y {
                            assert(cells@[before.len() as int] == (x, y));
                        } else {
                            assert(before.contains((i as usize, j as usize)));
                            let k = choose|k: int|
                                0 <= k < before.len() && before[k] == (i as usize, j as usize);
                            assert(cells@[k] == before[k]);
                        }
                    }
                }
                x = x + 1;
            }
            y = y + 1;
        }
        cells
    }

    /// Carves a maze from `(cx, cy)` on: takes the four directions in a
    /// random order, and for each carves the two cells towards the cell two
    /// steps away and goes on from there, if that cell is strictly inside
    /// the border, both cells are walls and neither lies in the padded box
    /// of a feature. Returns the number of steps made.
    ///
    /// Every step opens one place that the walk has not been to and the one
    /// corridor cell that leads there. So the places that the walk has been
    /// to, the first one included, are one more than the corridors between
    /// them: the maze is a tree. In numbers, the walk turns twice as many
    /// walls into floor as it makes steps, and one in two of them is a
    /// place. On a map whose open cells are places and corridors of a maze
    /// without a closed way, the walk closes no way either.
    pub fn walk(&self, map: &mut DungeonS1, rng: &mut StdRng, cx: usize, cy: usize) -> (steps: usize)
        requires
            old(map).wf(),
            cx < old(map).width,
            cy < old(map).height,
        ensures
            carve_result(*old(map), *final(map), cx, cy, steps),
        decreases old(map).count(TileType::Wall),
    {
        let width: usize = map.width;
        let height: usize = map.height;
        let mut neighbors: Vec<Direction> = Vec::new();
        neighbors.push(Direction::North);
        neighbors.push(Direction::West);
        neighbors.push(Direction::East);
        neighbors.push(Direction::South);
        let ghost cardinals = neighbors@;
        shuffle(rng, &mut neighbors);
        proof {
            lemma_count_fits(*map, TileType::Wall);
            assert forall|d: Direction| d.is_cardinal() implies neighbors@.contains(d) by {
                if d == Direction::North {
                    assert(cardinals[0] == d);
                } else if d == Direction::West {
                    assert(cardinals[1] == d);
                } else if d == Direction::East {
                    assert(cardinals[2] == d);
                } else {
                    assert(cardinals[3] == d);
                }
                assert(cardinals.contains(d));
                vstd::seq_lib::to_multiset_contains(cardinals, d);
                vstd::seq_lib::to_multiset_contains(neighbors@, d);
            }
        }
        let mut steps: usize = 0;
        let mut k: usize = 0;
        proof {
            reveal(is_growth);
            assert(is_growth(*old(map), *map, cx as int, cy as int));
        }
        while k < neighbors.len()
            invariant
                old(map).wf(),
                width == map.width,
                height == map.height,
                cx < width,
                cy < height,
                k <= neighbors.len(),
                forall|d: Direction| d.is_cardinal() ==> neighbors@.contains(d),
                forall|j: int|
                    0 <= j < k ==> is_blocked(
                        map.tiles(),
                        old(map).features@,
                        #[trigger] neighbors@[j],
                        width as int,
                        height as int,
                        cx as int,
                        cy as int,
                    ),
                old(map).count(TileType::Wall) <= usize::MAX,
                carve_so_far(*old(map), *map, cx, cy, steps),
            decreases neighbors.len() - k,
        {
            let direction: Direction = neighbors[k];
            let ghost entry = *map;
            let mut deeper: usize = 0;
            let mut carved_here: bool = false;
            if let Some((ix, iy, nx, ny)) = carve_target(direction, width, height, cx, cy) {
                if map.get(nx, ny) == TileType::Wall && map.get(ix, iy) == TileType::Wall
                    && !point_intersects_features(map, nx, ny) && !point_intersects_features(
                    map,
                    ix,
                    iy,
                ) {
                    open_step(map, cx, cy, ix, iy, nx, ny);
                    let ghost carved = *map;
                    deeper = self.walk(map, rng, nx, ny);
                    carved_here = true;
                    proof {
                        lemma_carve_step(
                            *old(map),
                            entry,
                            carved,
                            *map,
                            cx,
                            cy,
                            (ix as int, iy as int),
                            nx,
                            ny,
                            steps,
                            deeper,
                            (steps + 1 + deeper) as usize,
                        );
                    }
                }
            }
            proof {
                // what the walk has opened stays open, so a direction that was
                // blocked stays blocked
                assert(is_opened(entry, *map));
                assert forall|j: int| 0 <= j < k + 1 implies is_blocked(
                    map.tiles(),
                    old(map).features@,
                    #[trigger] neighbors@[j],
                    width as int,
                    height as int,
                    cx as int,
                    cy as int,
                ) by {
                    if j < k {
                        lemma_blocked_stays(entry, *map, neighbors@[j], cx as int, cy as int);
                    } else {
                        match spec_carve_target(
                            direction,
                            width as int,
                            height as int,
                            cx as int,
                            cy as int,
                        ) {
                            Some((ix, iy, nx, ny)) => {
                                assert(map.tiles()[ny][nx] == map.at(nx, ny));
                                assert(map.tiles()[iy][ix] == map.at(ix, iy));
                            },
                            None => {},
                        }
                    }
                }
            }
            if carved_here {
                steps = steps + 1 + deeper;
            }
            k = k + 1;
        }
        proof {
            assert forall|d: Direction|
                is_blocked(
                    map.tiles(),
                    old(map).features@,
                    d,
                    width as int,
                    height as int,
                    cx as int,
                    cy as int,
                ) by {
                if d.is_cardinal() {
                    assert(neighbors@.contains(d));
                    let j = choose|j: int| 0 <= j < neighbors@.len() && neighbors@[j] == d;
                    assert(is_blocked(
                        map.tiles(),
                        old(map).features@,
                        neighbors@[j],
                        width as int,
                        height as int,
                        cx as int,
                        cy as int,
                    ));
                }
            }
            assert(is_stuck(*map, cx as int, cy as int));
        }
        steps
    }

    /// Opens doors into the features of the map: for each feature its four
    /// sides are taken in a random order, and on each the first cell of the
    /// strip just outside it that can become a door is opened, until the
    /// feature has two doors. A cell can become a door where it has floor
    /// on two sides, so where a corridor runs one wall apart from the
    /// feature. Returns the number of doors opened.
    pub fn connect_to_features(&self, map: &mut DungeonS1, rng: &mut StdRng) -> (doors: usize)
        requires
            old(map).wf(),
        ensures
            final(map).wf(),
            final(map).same_frame(old(map)),
            doors <= 2 * old(map).features@.len(),
            final(map).count(TileType::Wall) + doors == old(map).count(TileType::Wall),
            final(map).count(TileType::Floor) == old(map).count(TileType::Floor) + doors,
            forall|x: int, y: int|
                old(map).in_bounds(x, y) ==> #[trigger] final(map).at(x, y) == old(map).at(x, y)
                    || (old(map).at(x, y) == TileType::Wall && final(map).at(x, y)
                    == TileType::Floor),
            exists|orders: Seq<Seq<Direction>>| #[trigger]
                is_connection(
                    orders,
                    old(map).tiles(),
                    final(map).tiles(),
                    old(map).width as int,
                    old(map).height as int,
                    old(map).features@,
                ),
    {
        proof {
            lemma_count_fits(*map, TileType::Wall);
        }
        let ghost mut orders: Seq<Seq<Direction>> = Seq::empty();
        let mut doors: usize = 0;
        let mut f: usize = 0;
        while f < map.features.len()
            invariant
                map.wf(),
                map.same_frame(old(map)),
                f <= map.features.len(),
                orders.len() == f,
                forall|k: int| 0 <= k < orders.len() ==> is_side_order(#[trigger] orders[k]),
                map.tiles() == spec_connect(
                    old(map).tiles(),
                    map.width as int,
                    map.height as int,
                    map.features@,
                    orders,
                    f as int,
                ),
                doors <= 2 * f,
                old(map).count(TileType::Wall) <= usize::MAX,
                map.count(TileType::Wall) + doors == old(map).count(TileType::Wall),
                map.count(TileType::Floor) == old(map).count(TileType::Floor) + doors,
                forall|x: int, y: int|
                    old(map).in_bounds(x, y) ==> #[trigger] map.at(x, y) == old(map).at(x, y) || (
                    old(map).at(x, y) == TileType::Wall && map.at(x, y) == TileType::Floor),
            decreases map.features.len() - f,
        {
            let rect: Rect = map.features[f].rect();
            let mut walls: Vec<Direction> = Vec::new();
            walls.push(Direction::North);
            walls.push(Direction::South);
            walls.push(Direction::East);
            walls.push(Direction::West);
            assert(walls@ =~= seq![
                Direction::North,
                Direction::South,
                Direction::East,
                Direction::West,
            ]);
            shuffle(rng, &mut walls);
            let ghost before = *map;
            let dug: usize = dig_doors(map, &rect, &walls);
            proof {
                lemma_connect_push(
                    old(map).tiles(),
                    map.width as int,
                    map.height as int,
                    map.features@,
                    orders,
                    walls@,
                    f as int,
                );
                let longer = orders.push(walls@);
                assert(longer[f as int] == walls@);
                assert forall|k: int| 0 <= k < longer.len() implies is_side_order(
                    #[trigger] longer[k],
                ) by {
                    if k < f {
                        assert(longer[k] == orders[k]);
                    }
                }
                orders = longer;
            }
            assert forall|x: int, y: int| old(map).in_bounds(x, y) implies #[trigger] map.at(x, y)
                == old(map).at(x, y) || (old(map).at(x, y) == TileType::Wall && map.at(x, y)
                == TileType::Floor) by {
                assert(map.at(x, y) == before.at(x, y) || (before.at(x, y) == TileType::Wall
                    && map.at(x, y) == TileType::Floor));
            }
            doors = doors + dug;
            f = f + 1;
        }
        assert(is_connection(
            orders,
            old(map).tiles(),
            map.tiles(),
            map.width as int,
            map.height as int,
            map.features@,
        ));
        doors
    }

    /// Sweeps the grid `goal` times and fills in the dead ends.
    pub fn remove_dead_ends(&self, map: &mut DungeonS1, goal: usize)
        requires
            old(map).wf(),
        ensures
            final(map).wf(),
            final(map).same_frame(old(map)),
            final(map).tiles() == spec_remove_dead_ends(
                old(map).tiles(),
                old(map).width as int,
                old(map).height as int,
                goal as int,
            ),
            forall|i: int, j: int|
                old(map).in_bounds(i, j) ==> #[trigger] final(map).at(i, j) == old(map).at(i, j)
                    || final(map).at(i, j) == TileType::Wall,
    {
        if map.height == 0 {
            return ;
        }
        let mut round: usize = 0;
        while round < goal
            invariant
                map.wf(),
                map.same_frame(old(map)),
                map.height >= 1,
                round <= goal,
                map.tiles() == spec_remove_dead_ends(
                    old(map).tiles(),
                    old(map).width as int,
                    old(map).height as int,
                    round as int,
                ),
                forall|i: int, j: int|
                    old(map).in_bounds(i, j) ==> #[trigger] map.at(i, j) == old(map).at(i, j)
                        || map.at(i, j) == TileType::Wall,
            decreases goal - round,
        {
            let ghost before = *map;
            sweep_dead_ends(map);
            assert forall|i: int, j: int| old(map).in_bounds(i, j) implies #[trigger] map.at(i, j)
                == old(map).at(i, j) || map.at(i, j) == TileType::Wall by {
                assert(map.at(i, j) == before.at(i, j) || map.at(i, j) == TileType::Wall);
            }
            round = round + 1;
        }
    }

    /// Carves a maze into the walls that no feature claims. The maze grows
    /// from a cell drawn among those outside every padded box of a feature;
    /// where there is none, the map stays as it is. Doors and the removal of
    /// dead ends follow as configured. The cell that the maze grew from is
    /// marked while the pass runs and is floor when it ends, unless a sweep
    /// has filled it in.
    #[verifier::rlimit(50)]
    pub fn create(&self, map: &mut DungeonS1, rng: &mut StdRng) -> (stats: MazeStats)
        requires
            old(map).wf(),
        ensures
            create_result(self.options, *old(map), *final(map), stats),
    {
        let cells: Vec<(usize, usize)> = Self::free_cells(map);
        if cells.len() == 0 {
            assert forall|x: int, y: int| old(map).in_bounds(x, y) implies near_feature(
                old(map).features@,
                x,
                y,
            ) by {
                if !near_feature(old(map).features@, x, y) {
                    assert(cells@.contains((x as usize, y as usize)));
                }
            }
            assert(is_creation(
                self.options,
                *old(map),
                *map,
                MazeStats { start: None, steps: 0, doors: 0 },
                *map,
                *map,
                *map,
                *map,
            ));
            return MazeStats { start: None, steps: 0, doors: 0 };
        }
        let pick: usize = roll(rng, 0, cells.len());
        let (startx, starty) = cells[pick];
        assert(map.in_bounds(cells@[pick as int].0 as int, cells@[pick as int].1 as int));
        let ghost was_settled = map.settled();
        proof {
            lemma_count_tiles_set(
                map.tiles(),
                startx as int,
                starty as int,
                TileType::Debug,
                TileType::Wall,
            );
        }
        map.set(startx, starty, TileType::Debug);
        let ghost marked = *map;
        let steps: usize = self.walk(map, rng, startx, starty);
        let ghost walked = *map;
        let doors: usize = if self.options.connect_to_features {
            self.connect_to_features(map, rng)
        } else {
            0
        };
        let ghost joined = *map;
        match self.options.remove_dead_ends {
            Some(goal) => self.remove_dead_ends(map, goal),
            None => {},
        }
        let ghost swept = *map;
        if map.get(startx, starty) == TileType::Debug {
            proof {
                lemma_count_tiles_set(
                    map.tiles(),
                    startx as int,
                    starty as int,
                    TileType::Floor,
                    TileType::Wall,
                );
            }
            map.set(startx, starty, TileType::Floor);
        }
        proof {
            reveal(is_growth);
            if self.options.remove_dead_ends is None {
                assert(swept == joined);
                assert(walked.at(startx as int, starty as int) == TileType::Debug);
                assert(joined.at(startx as int, starty as int) == TileType::Debug);
                assert forall|d: Direction|
                    is_blocked(
                        map.tiles(),
                        old(map).features@,
                        d,
                        map.width as int,
                        map.height as int,
                        startx as int,
                        starty as int,
                    ) by {
                    assert(is_blocked(
                        walked.tiles(),
                        old(map).features@,
                        d,
                        map.width as int,
                        map.height as int,
                        startx as int,
                        starty as int,
                    ));
                    match spec_carve_target(
                        d,
                        map.width as int,
                        map.height as int,
                        startx as int,
                        starty as int,
                    ) {
                        Some((ix, iy, nx, ny)) => {
                            assert(map.tiles()[ny][nx] == map.at(nx, ny));
                            assert(map.tiles()[iy][ix] == map.at(ix, iy));
                            assert(walked.tiles()[ny][nx] == walked.at(nx, ny));
                            assert(walked.tiles()[iy][ix] == walked.at(ix, iy));
                            assert(joined.at(nx, ny) == walked.at(nx, ny) || joined.at(nx, ny)
                                == TileType::Floor);
                            assert(joined.at(ix, iy) == walked.at(ix, iy) || joined.at(ix, iy)
                                == TileType::Floor);
                            assert(map.at(nx, ny) == joined.at(nx, ny));
                            assert(map.at(ix, iy) == joined.at(ix, iy));
                        },
                        None => {},
                    }
                }
            }
        }
        proof {
            reveal(is_growth);
            if was_settled {
                assert forall|x: int, y: int| map.in_bounds(x, y) implies #[trigger] map.at(x, y)
                    != TileType::Debug by {
                    if x == startx && y == starty {
                    } else {
                        assert(map.at(x, y) == swept.at(x, y));
                        assert(swept.at(x, y) == joined.at(x, y) || swept.at(x, y)
                            == TileType::Wall);
                        assert(joined.at(x, y) == walked.at(x, y) || joined.at(x, y)
                            == TileType::Floor);
                        assert(walked.at(x, y) == marked.at(x, y) || walked.at(x, y)
                            == TileType::Floor);
                        assert(marked.at(x, y) == old(map).at(x, y));
                        assert(old(map).at(x, y) != TileType::Debug);
                    }
                }
            }
        }
        assert(is_creation(
            self.options,
            *old(map),
            *map,
            MazeStats { start: Some((startx, starty)), steps, doors },
            marked,
            walked,
            joined,
            swept,
        ));
        MazeStats { start: Some((startx, starty)), steps, doors }
    }
}

} // verus!
