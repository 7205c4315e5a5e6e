//! The first stage of a level: a grid of walls and floors, and the regions
//! that were placed on it.

use vstd::prelude::*;
use rand::rngs::StdRng;
use crate::features::Feature;
use crate::random::roll;

verus! {

/// What a cell of the grid holds. `Debug` marks the cell that a maze starts
/// from while the maze is carved; no finished level holds it.
#[derive(Copy, Clone, Debug, PartialEq, Eq, Structural)]
pub enum TileType {
    Wall,
    Floor,
    Debug,
}

/// How many cells of a row hold `t`.
pub open spec fn count_in_row(row: Seq<TileType>, t: TileType) -> nat
    decreases row.len(),
{
    if row.len() == 0 {
        0
    } else {
        count_in_row(row.drop_last(), t) + if row.last() == t {
            1nat
        } else {
            0nat
        }
    }
}

/// How many cells of a grid hold `t`.
pub open spec fn count_tiles(rows: Seq<Seq<TileType>>, t: TileType) -> nat
    decreases rows.len(),
{
    if rows.len() == 0 {
        0
    } else {
        count_tiles(rows.drop_last(), t) + count_in_row(rows.last(), t)
    }
}

/// One if `a` is `t`, zero otherwise.
pub open spec fn one_if(a: TileType, t: TileType) -> int {
    if a == t {
        1
    } else {
        0
    }
}

/// A row holds no more cells of one kind than it has cells.
pub proof fn lemma_count_in_row_bound(row: Seq<TileType>, t: TileType)
    ensures
        count_in_row(row, t) <= row.len(),
    decreases row.len(),
{
    if row.len() > 0 {
        lemma_count_in_row_bound(row.drop_last(), t);
    }
}

/// Writing one cell of a row changes the count of `t` by what the cell held
/// and what it holds now.
pub proof fn lemma_count_in_row_update(row: Seq<TileType>, x: int, new: TileType, t: TileType)
    requires
        0 <= x < row.len(),
    ensures
        count_in_row(row.update(x, new), t) == count_in_row(row, t) - one_if(row[x], t) + one_if(
            new,
            t,
        ),
    decreases row.len(),
{
    let after = row.update(x, new);
    if x == row.len() - 1 {
        assert(after.drop_last() =~= row.drop_last());
    } else {
        assert(after.drop_last() =~= row.drop_last().update(x, new));
        lemma_count_in_row_update(row.drop_last(), x, new, t);
    }
}

/// Replacing one row of a grid changes the count of `t` by what the two rows
/// hold of it.
pub proof fn lemma_count_tiles_update(
    rows: Seq<Seq<TileType>>,
    y: int,
    new: Seq<TileType>,
    t: TileType,
)
    requires
        0 <= y < rows.len(),
    ensures
        count_tiles(rows.update(y, new), t) == count_tiles(rows, t) - count_in_row(rows[y], t)
            + count_in_row(new, t),
    decreases rows.len(),
{
    let after = rows.update(y, new);
    if y == rows.len() - 1 {
        assert(after.drop_last() =~= rows.drop_last());
    } else {
        assert(after.drop_last() =~= rows.drop_last().update(y, new));
        lemma_count_tiles_update(rows.drop_last(), y, new, t);
    }
}

/// Writing one cell of a grid changes the count of `t` by what the cell held
/// and what it holds now.
pub proof fn lemma_count_tiles_set(
    rows: Seq<Seq<TileType>>,
    x: int,
    y: int,
    new: TileType,
    t: TileType,
)
    requires
        0 <= y < rows.len(),
        0 <= x < rows[y].len(),
    ensures
        count_tiles(rows.update(y, rows[y].update(x, new)), t) == count_tiles(rows, t) - one_if(
            rows[y][x],
            t,
        ) + one_if(new, t),
{
    lemma_count_in_row_update(rows[y], x, new, t);
    lemma_count_tiles_update(rows, y, rows[y].update(x, new), t);
}

/// A grid of rows of one width holds no more cells of one kind than it has
/// cells.
pub proof fn lemma_count_tiles_bound(rows: Seq<Seq<TileType>>, width: nat, t: TileType)
    requires
        forall|y: int| 0 <= y < rows.len() ==> (#[trigger] rows[y]).len() == width,
    ensures
        count_tiles(rows, t) <= rows.len() * width,
    decreases rows.len(),
{
    if rows.len() > 0 {
        let rest = rows.drop_last();
        assert forall|y: int| 0 <= y < rest.len() implies (#[trigger] rest[y]).len() == width by {
            assert(rest[y] == rows[y]);
        }
        lemma_count_tiles_bound(rest, width, t);
        lemma_count_in_row_bound(rows.last(), t);
        assert(rows.len() * width == rest.len() * width + width) by (nonlinear_arith)
            requires
                rows.len() == rest.len() + 1,
        ;
    }
}

/// A well-formed grid holds no more cells of one kind than a `usize` can
/// count.
pub proof fn lemma_count_fits(g: DungeonS1, t: TileType)
    requires
        g.wf(),
    ensures
        g.count(t) <= g.width * g.height,
        g.count(t) <= usize::MAX,
{
    lemma_count_tiles_bound(g.tiles(), g.width as nat, t);
    assert(g.height * g.width == g.width * g.height) by (nonlinear_arith);
}

/// Whether the two cells lie side by side.
pub open spec fn is_next_to(a: (int, int), b: (int, int)) -> bool {
    (a.0 == b.0 && (a.1 == b.1 + 1 || b.1 == a.1 + 1)) || (a.1 == b.1 && (a.0 == b.0 + 1 || b.0
        == a.0 + 1))
}

/// Whether `chain` leads from `a` to `b` over floor cells of the map, every
/// cell of it the same as the one before or side by side with it.
pub open spec fn is_chain(chain: Seq<(int, int)>, map: DungeonS1, a: (int, int), b: (int, int))
    -> bool {
    &&& chain.len() >= 1
    &&& chain[0] == a
    &&& chain[chain.len() - 1] == b
    &&& forall|i: int|
        0 <= i < chain.len() ==> map.in_bounds((#[trigger] chain[i]).0, chain[i].1) && map.at(
            chain[i].0,
            chain[i].1,
        ) == TileType::Floor
    &&& forall|i: int|
        0 <= i < chain.len() - 1 ==> #[trigger] chain[i + 1] == chain[i] || is_next_to(
            chain[i],
            chain[i + 1],
        )
}

/// Whether `b` can be reached from `a` over floor cells of the map.
pub open spec fn is_linked(map: DungeonS1, a: (int, int), b: (int, int)) -> bool {
    exists|chain: Seq<(int, int)>| #[trigger] is_chain(chain, map, a, b)
}

/// The cell after `m` steps on the way from `a` to `b` that goes along the
/// row of `a` first and along the column of `b` after that.
pub open spec fn elbow(a: (int, int), b: (int, int), m: int) -> (int, int) {
    let across = if b.0 >= a.0 {
        b.0 - a.0
    } else {
        a.0 - b.0
    };
    if m <= across {
        (
            if b.0 >= a.0 {
                a.0 + m
            } else {
                a.0 - m
            },
            a.1,
        )
    } else {
        (
            b.0,
            if b.1 >= a.1 {
                a.1 + (m - across)
            } else {
                a.1 - (m - across)
            },
        )
    }
}

/// Whether every cell of the block, from the low corner up to and not
/// including the high corner, is a floor cell of the map.
pub open spec fn is_open_block(map: DungeonS1, x_lo: int, y_lo: int, x_hi: int, y_hi: int) -> bool {
    forall|x: int, y: int|
        x_lo <= x < x_hi && y_lo <= y < y_hi ==> map.in_bounds(x, y) && #[trigger] map.at(x, y)
            == TileType::Floor
}

/// Within a block of floor every cell can be reached from every other.
pub proof fn lemma_linked_in_block(
    map: DungeonS1,
    x_lo: int,
    y_lo: int,
    x_hi: int,
    y_hi: int,
    a: (int, int),
    b: (int, int),
)
    requires
        is_open_block(map, x_lo, y_lo, x_hi, y_hi),
        x_lo <= a.0 < x_hi && y_lo <= a.1 < y_hi,
        x_lo <= b.0 < x_hi && y_lo <= b.1 < y_hi,
    ensures
        is_linked(map, a, b),
{
    let across = if b.0 >= a.0 {
        b.0 - a.0
    } else {
        a.0 - b.0
    };
    let down = if b.1 >= a.1 {
        b.1 - a.1
    } else {
        a.1 - b.1
    };
    let chain = Seq::new((across + down + 1) as nat, |m: int| elbow(a, b, m));
    assert forall|i: int| 0 <= i < chain.len() implies map.in_bounds(
        (#[trigger] chain[i]).0,
        chain[i].1,
    ) && map.at(chain[i].0, chain[i].1) == TileType::Floor by {
        let c = elbow(a, b, i);
        assert(x_lo <= c.0 < x_hi && y_lo <= c.1 < y_hi);
        assert(map.at(c.0, c.1) == TileType::Floor);
    }
    assert forall|i: int| 0 <= i < chain.len() - 1 implies #[trigger] chain[i + 1] == chain[i]
        || is_next_to(chain[i], chain[i + 1]) by {
        let c = elbow(a, b, i);
        let d = elbow(a, b, i + 1);
    }
    assert(chain[0] == a);
    assert(chain[chain.len() - 1] == b);
    assert(is_chain(chain, map, a, b));
}

/// What can be reached from a cell that can be reached can be reached.
pub proof fn lemma_linked_on(map: DungeonS1, a: (int, int), b: (int, int), c: (int, int))
    requires
        is_linked(map, a, b),
        is_linked(map, b, c),
    ensures
        is_linked(map, a, c),
{
    let first = choose|chain: Seq<(int, int)>| #[trigger] is_chain(chain, map, a, b);
    let second = choose|chain: Seq<(int, int)>| #[trigger] is_chain(chain, map, b, c);
    let chain = first + second;
    assert forall|i: int| 0 <= i < chain.len() implies map.in_bounds(
        (#[trigger] chain[i]).0,
        chain[i].1,
    ) && map.at(chain[i].0, chain[i].1) == TileType::Floor by {
        if i < first.len() {
            assert(chain[i] == first[i]);
        } else {
            assert(chain[i] == second[i - first.len()]);
        }
    }
    assert forall|i: int| 0 <= i < chain.len() - 1 implies #[trigger] chain[i + 1] == chain[i]
        || is_next_to(chain[i], chain[i + 1]) by {
        if i + 1 < first.len() {
            assert(chain[i] == first[i] && chain[i + 1] == first[i + 1]);
        } else if i + 1 == first.len() {
            assert(chain[i] == first[i] && chain[i + 1] == second[0]);
        } else {
            assert(chain[i] == second[i - first.len()]);
            assert(chain[i + 1] == second[i - first.len() + 1]);
        }
    }
    assert(chain[0] == first[0]);
    assert(chain[chain.len() - 1] == second[second.len() - 1]);
    assert(is_chain(chain, map, a, c));
}

/// A way over floor can be gone back.
pub proof fn lemma_linked_back(map: DungeonS1, a: (int, int), b: (int, int))
    requires
        is_linked(map, a, b),
    ensures
        is_linked(map, b, a),
{
    let way = choose|chain: Seq<(int, int)>| #[trigger] is_chain(chain, map, a, b);
    let n = way.len() as int;
    let chain = Seq::new(way.len(), |m: int| way[n - 1 - m]);
    assert forall|i: int| 0 <= i < chain.len() implies map.in_bounds(
        (#[trigger] chain[i]).0,
        chain[i].1,
    ) && map.at(chain[i].0, chain[i].1) == TileType::Floor by {
        assert(chain[i] == way[n - 1 - i]);
    }
    assert forall|i: int| 0 <= i < chain.len() - 1 implies #[trigger] chain[i + 1] == chain[i]
        || is_next_to(chain[i], chain[i + 1]) by {
        let q = n - 2 - i;
        assert(chain[i] == way[q + 1]);
        assert(chain[i + 1] == way[q]);
        assert(way[q + 1] == way[q] || is_next_to(way[q], way[q + 1]));
    }
    assert(is_chain(chain, map, b, a));
}

/// Whether `chain` leads from `a` to `b` over cells of the map that are no
/// walls, every cell of it the same as the one before or side by side with
/// it.
pub open spec fn is_open_chain(
    chain: Seq<(int, int)>,
    map: DungeonS1,
    a: (int, int),
    b: (int, int),
) -> bool {
    &&& chain.len() >= 1
    &&& chain[0] == a
    &&& chain[chain.len() - 1] == b
    &&& forall|i: int|
        0 <= i < chain.len() ==> map.in_bounds((#[trigger] chain[i]).0, chain[i].1) && map.at(
            chain[i].0,
            chain[i].1,
        ) != TileType::Wall
    &&& forall|i: int|
        0 <= i < chain.len() - 1 ==> #[trigger] chain[i + 1] == chain[i] || is_next_to(
            chain[i],
            chain[i + 1],
        )
}

/// Whether `b` can be reached from `a` over cells of the map that are no
/// walls.
pub open spec fn is_open_linked(map: DungeonS1, a: (int, int), b: (int, int)) -> bool {
    exists|chain: Seq<(int, int)>| #[trigger] is_open_chain(chain, map, a, b)
}

/// What can be reached from a cell that can be reached can be reached.
pub proof fn lemma_open_linked_on(map: DungeonS1, a: (int, int), b: (int, int), c: (int, int))
    requires
        is_open_linked(map, a, b),
        is_open_linked(map, b, c),
    ensures
        is_open_linked(map, a, c),
{
    let first = choose|chain: Seq<(int, int)>| #[trigger] is_open_chain(chain, map, a, b);
    let second = choose|chain: Seq<(int, int)>| #[trigger] is_open_chain(chain, map, b, c);
    let chain = first + second;
    assert forall|i: int| 0 <= i < chain.len() implies map.in_bounds(
        (#[trigger] chain[i]).0,
        chain[i].1,
    ) && map.at(chain[i].0, chain[i].1) != TileType::Wall by {
        if i < first.len() {
            assert(chain[i] == first[i]);
        } else {
            assert(chain[i] == second[i - first.len()]);
        }
    }
    assert forall|i: int| 0 <= i < chain.len() - 1 implies #[trigger] chain[i + 1] == chain[i]
        || is_next_to(chain[i], chain[i + 1]) by {
        if i + 1 < first.len() {
            assert(chain[i] == first[i] && chain[i + 1] == first[i + 1]);
        } else if i + 1 == first.len() {
            assert(chain[i] == first[i] && chain[i + 1] == second[0]);
        } else {
            assert(chain[i] == second[i - first.len()]);
            assert(chain[i + 1] == second[i - first.len() + 1]);
        }
    }
    assert(chain[0] == first[0]);
    assert(chain[chain.len() - 1] == second[second.len() - 1]);
    assert(is_open_chain(chain, map, a, c));
}

/// A way over open cells can be gone back.
pub proof fn lemma_open_linked_back(map: DungeonS1, a: (int, int), b: (int, int))
    requires
        is_open_linked(map, a, b),
    ensures
        is_open_linked(map, b, a),
{
    let way = choose|chain: Seq<(int, int)>| #[trigger] is_open_chain(chain, map, a, b);
    let n = way.len() as int;
    let chain = Seq::new(way.len(), |m: int| way[n - 1 - m]);
    assert forall|i: int| 0 <= i < chain.len() implies map.in_bounds(
        (#[trigger] chain[i]).0,
        chain[i].1,
    ) && map.at(chain[i].0, chain[i].1) != TileType::Wall by {
        assert(chain[i] == way[n - 1 - i]);
    }
    assert forall|i: int| 0 <= i < chain.len() - 1 implies #[trigger] chain[i + 1] == chain[i]
        || is_next_to(chain[i], chain[i + 1]) by {
        let q = n - 2 - i;
        assert(chain[i] == way[q + 1]);
        assert(chain[i + 1] == way[q]);
        assert(way[q + 1] == way[q] || is_next_to(way[q], way[q + 1]));
    }
    assert(is_open_chain(chain, map, b, a));
}

/// The tile that a draw from the numbers below a hundred stands for: floor
/// if the draw is below the percentage of open space, wall otherwise.
pub open spec fn spec_fill_tile(draw: int, floor_percentage: int) -> TileType {
    if draw < floor_percentage {
        TileType::Floor
    } else {
        TileType::Wall
    }
}

/// Whether some draw from the numbers below a hundred stands for `t`: a
/// floor can come out unless the percentage is zero, a wall unless it is a
/// hundred or more, and nothing else ever.
pub open spec fn may_fill(t: TileType, floor_percentage: int) -> bool {
    (t == TileType::Floor && floor_percentage > 0) || (t == TileType::Wall && floor_percentage
        < 100)
}

/// The tile that a draw from the numbers below a hundred stands for.
pub fn fill_tile(draw: usize, floor_percentage: usize) -> (t: TileType)
    ensures
        t == spec_fill_tile(draw as int, floor_percentage as int),
{
    if draw < floor_percentage {
        TileType::Floor
    } else {
        TileType::Wall
    }
}

/// The layout of a level: which cells are open, and nothing else.
#[derive(Clone, Debug)]
pub struct DungeonS1 {
    /// The cells, row by row: `d[y][x]`.
    pub d: Vec<Vec<TileType>>,
    pub width: usize,
    pub height: usize,
    /// The rooms and tunnels placed so far, oldest first.
    pub features: Vec<Feature>,
}

impl DungeonS1 {
    /// The cells as a sequence of rows.
    pub open spec fn tiles(&self) -> Seq<Seq<TileType>> {
        Seq::new(self.d.len() as nat, |y: int| self.d[y]@)
    }

    /// There are `height` rows of `width` cells each, and the number of
    /// cells fits a `usize`.
    pub open spec fn wf(&self) -> bool {
        &&& self.d.len() == self.height
        &&& forall|y: int| 0 <= y < self.height ==> (#[trigger] self.d[y]).len() == self.width
        &&& self.width * self.height <= usize::MAX
    }

    /// Whether `(x, y)` is a cell of the grid.
    pub open spec fn in_bounds(&self, x: int, y: int) -> bool {
        0 <= x < self.width && 0 <= y < self.height
    }

    /// The tile at column `x` of row `y`.
    pub open spec fn at(&self, x: int, y: int) -> TileType {
        self.d[y][x]
    }

    /// Every cell is a wall or a floor.
    pub open spec fn settled(&self) -> bool {
        forall|x: int, y: int|
            self.in_bounds(x, y) ==> #[trigger] self.at(x, y) != TileType::Debug
    }

    /// The two grids have the same size and the same features.
    pub open spec fn same_frame(&self, other: &DungeonS1) -> bool {
        &&& self.width == other.width
        &&& self.height == other.height
        &&& self.features@ == other.features@
    }

    /// How many cells hold `t`.
    pub open spec fn count(&self, t: TileType) -> nat {
        count_tiles(self.tiles(), t)
    }

    /// A grid of the given size with a wall in every cell and no features.
    pub fn new(width: usize, height: usize) -> (g: DungeonS1)
        requires
            width * height <= usize::MAX,
        ensures
            g.wf(),
            g.width == width,
            g.height == height,
            g.features@.len() == 0,
            forall|x: int, y: int| g.in_bounds(x, y) ==> #[trigger] g.at(x, y) == TileType::Wall,
    {
        let mut dungeon: Vec<Vec<TileType>> = Vec::new();
        let mut y: usize = 0;
        while y < height
            invariant
                y <= height,
                dungeon.len() == y,
                forall|j: int| 0 <= j < y ==> (#[trigger] dungeon[j]).len() == width,
                forall|i: int, j: int|
                    0 <= j < y && 0 <= i < width ==> (#[trigger] dungeon[j][i]) == TileType::Wall,
            decreases height - y,
        {
            let mut row: Vec<TileType> = Vec::new();
            let mut x: usize = 0;
            while x < width
                invariant
                    x <= width,
                    row.len() == x,
                    forall|i: int| 0 <= i < x ==> (#[trigger] row[i]) == TileType::Wall,
                decreases width - x,
            {
                row.push(TileType::Wall);
                x = x + 1;
            }
            dungeon.push(row);
            y = y + 1;
        }
        DungeonS1 { d: dungeon, width, height, features: Vec::new() }
    }

    /// Writes one cell. A cell outside the grid is the caller's error.
    pub fn set(&mut self, x: usize, y: usize, t: TileType)
        requires
            old(self).wf(),
            x < old(self).width,
            y < old(self).height,
        ensures
            final(self).wf(),
            final(self).same_frame(old(self)),
            final(self).tiles() == old(self).tiles().update(
                y as int,
                old(self).tiles()[y as int].update(x as int, t),
            ),
            final(self).at(x as int, y as int) == t,
            forall|i: int, j: int|
                old(self).in_bounds(i, j) && (i != x || j != y) ==> #[trigger] final(self).at(i, j)
                    == old(self).at(i, j),
    {
        self.d[y][x] = t;
        assert(self.tiles() =~= old(self).tiles().update(
            y as int,
            old(self).tiles()[y as int].update(x as int, t),
        ));
    }

    /// Tests whether the grid is well-formed.
    pub fn is_wf(&self) -> (b: bool)
        ensures
            b == self.wf(),
    {
        if self.d.len() != self.height || self.width.checked_mul(self.height).is_none() {
            return false;
        }
        let mut y: usize = 0;
        while y < self.height
            invariant
                y <= self.height,
                self.d.len() == self.height,
                forall|j: int| 0 <= j < y ==> (#[trigger] self.d[j]).len() == self.width,
            decreases self.height - y,
        {
            if self.d[y].len() != self.width {
                return false;
            }
            y = y + 1;
        }
        true
    }

    /// A copy of the cells.
    pub fn copy_tiles(&self) -> (copy: Vec<Vec<TileType>>)
        requires
            self.wf(),
        ensures
            copy.len() == self.height,
            forall|y: int| 0 <= y < self.height ==> (#[trigger] copy[y])@ == self.d[y]@,
    {
        let mut copy: Vec<Vec<TileType>> = Vec::new();
        let mut y: usize = 0;
        while y < self.height
            invariant
                self.wf(),
                y <= self.height,
                copy.len() == y,
                forall|j: int| 0 <= j < y ==> (#[trigger] copy[j])@ == self.d[j]@,
            decreases self.height - y,
        {
            let mut row: Vec<TileType> = Vec::new();
            let mut x: usize = 0;
            while x < self.width
                invariant
                    self.wf(),
                    y < self.height,
                    x <= self.width,
                    row.len() == x,
                    forall|i: int| 0 <= i < x ==> (#[trigger] row[i]) == self.d[y as int][i],
                decreases self.width - x,
            {
                row.push(self.d[y][x]);
                x = x + 1;
            }
            assert(row@ =~= self.d[y as int]@);
            copy.push(row);
            y = y + 1;
        }
        copy
    }

    /// Reads one cell.
    pub fn get(&self, x: usize, y: usize) -> (t: TileType)
        requires
            self.wf(),
            x < self.width,
            y < self.height,
        ensures
            t == self.at(x as int, y as int),
    {
        self.d[y][x]
    }

    /// Fills every cell at random: floor with a chance of `floor_percentage`
    /// in a hundred, wall otherwise.
    pub fn rand_fill(&mut self, rng: &mut StdRng, floor_percentage: usize)
        requires
            old(self).wf(),
        ensures
            final(self).wf(),
            final(self).same_frame(old(self)),
            final(self).settled(),
            forall|x: int, y: int|
                final(self).in_bounds(x, y) ==> may_fill(
                    #[trigger] final(self).at(x, y),
                    floor_percentage as int,
                ),
    {
        let mut y: usize = 0;
        while y < self.height
            invariant
                self.wf(),
                self.same_frame(old(self)),
                y <= self.height,
                forall|i: int, j: int|
                    0 <= j < y && 0 <= i < self.width ==> may_fill(
                        #[trigger] self.at(i, j),
                        floor_percentage as int,
                    ),
            decreases self.height - y,
        {
            let mut x: usize = 0;
            while x < self.width
                invariant
                    self.wf(),
                    self.same_frame(old(self)),
                    y < self.height,
                    x <= self.width,
                    forall|i: int, j: int|
                        (0 <= j < y && 0 <= i < self.width) || (j == y && 0 <= i < x) ==> may_fill(
                            #[trigger] self.at(i, j),
                            floor_percentage as int,
                        ),
                decreases self.width - x,
            {
                let draw: usize = roll(rng, 0, 100);
                self.set(x, y, fill_tile(draw, floor_percentage));
                x = x + 1;
            }
            y = y + 1;
        }
    }
}

} // verus!
