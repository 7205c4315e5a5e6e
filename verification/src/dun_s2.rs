//! The second stage of a level: every cell with what it is made of and who
//! lives on it.

use vstd::prelude::*;
use crate::dun_s1::{DungeonS1, TileType};
use crate::features::Feature;

verus! {

/// A cell of a finished level.
#[derive(Clone, Debug)]
pub struct DungeonTile {
    pub tiletype: TileType,
    /// The name of the material; empty until the materials are placed.
    pub tile_material: String,
    /// The items that lie on the cell.
    pub items: Vec<u8>,
    /// The inhabitant, if there is one, by its key in the table of mobs.
    pub mobs: Option<u64>,
}

/// A level with all that the layout alone does not say.
#[derive(Clone, Debug)]
pub struct DungeonS2 {
    /// The cells, row by row: `d[y][x]`.
    pub d: Vec<Vec<DungeonTile>>,
    pub width: usize,
    pub height: usize,
    pub features: Vec<Feature>,
}

impl DungeonTile {
    /// A copy of the cell.
    pub fn duplicate(&self) -> (copy: DungeonTile)
        ensures
            copy.tiletype == self.tiletype,
            copy.tile_material@ == self.tile_material@,
            copy.items@ == self.items@,
            copy.mobs == self.mobs,
    {
        let mut items: Vec<u8> = Vec::new();
        let mut i: usize = 0;
        while i < self.items.len()
            invariant
                i <= self.items.len(),
                items@ == self.items@.take(i as int),
            decreases self.items.len() - i,
        {
            items.push(self.items[i]);
            assert(self.items@.take(i as int + 1) =~= self.items@.take(i as int).push(
                self.items@[i as int],
            ));
            i = i + 1;
        }
        assert(self.items@.take(self.items@.len() as int) =~= self.items@);
        DungeonTile {
            tiletype: self.tiletype,
            tile_material: self.tile_material.clone(),
            items,
            mobs: self.mobs,
        }
    }
}

/// Whether `(cx, cy)` comes before `(x, y)` when the cells are taken row by
/// row.
pub open spec fn is_before(cx: int, cy: int, x: int, y: int) -> bool {
    cy < y || (cy == y && cx < x)
}

impl DungeonS2 {
    /// There are `height` rows of `width` cells each, and the number of
    /// cells fits a `usize`.
    pub open spec fn wf(&self) -> bool {
        &&& self.d.len() == self.height
        &&& forall|y: int| 0 <= y < self.height ==> (#[trigger] self.d[y]).len() == self.width
        &&& self.width * self.height <= usize::MAX
    }

    /// Whether `(x, y)` is a cell of the level.
    pub open spec fn in_bounds(&self, x: int, y: int) -> bool {
        0 <= x < self.width && 0 <= y < self.height
    }

    /// The cell at column `x` of row `y`.
    pub open spec fn at(&self, x: int, y: int) -> DungeonTile {
        self.d[y][x]
    }

    /// The names of the materials, row by row.
    pub open spec fn materials(&self) -> Seq<Seq<Seq<char>>> {
        Seq::new(
            self.d.len() as nat,
            |y: int| Seq::new(self.d[y].len() as nat, |x: int| self.d[y][x].tile_material@),
        )
    }

    /// The inhabitants, row by row.
    pub open spec fn mobs(&self) -> Seq<Seq<Option<u64>>> {
        Seq::new(
            self.d.len() as nat,
            |y: int| Seq::new(self.d[y].len() as nat, |x: int| self.d[y][x].mobs),
        )
    }

    /// The two levels have the same size, the same features and the same
    /// layout.
    pub open spec fn same_layout(&self, other: &DungeonS2) -> bool {
        &&& self.width == other.width
        &&& self.height == other.height
        &&& self.features@ == other.features@
        &&& forall|x: int, y: int|
            self.in_bounds(x, y) ==> (#[trigger] self.at(x, y)).tiletype == other.at(x, y).tiletype
                && self.at(x, y).items@ == other.at(x, y).items@
    }

    /// A level with the layout of `dg`, no materials, no items and no
    /// inhabitants.
    #[verifier::rlimit(50)]
    pub fn from_dungeon_s1(dg: &DungeonS1) -> (level: DungeonS2)
        requires
            dg.wf(),
        ensures
            level.wf(),
            level.width == dg.width,
            level.height == dg.height,
            level.features@ == dg.features@,
            forall|x: int, y: int|
                dg.in_bounds(x, y) ==> (#[trigger] level.at(x, y)).tiletype == dg.at(x, y)
                    && level.at(x, y).tile_material@.len() == 0 && level.at(x, y).items@.len() == 0
                    && level.at(x, y).mobs is None,
    {
        let mut dungeon: Vec<Vec<DungeonTile>> = Vec::new();
        let mut y: usize = 0;
        while y < dg.height
            invariant
                dg.wf(),
                y <= dg.height,
                dungeon.len() == y,
                forall|j: int| 0 <= j < y ==> (#[trigger] dungeon[j]).len() == dg.width,
                forall|i: int, j: int|
                    0 <= j < y && 0 <= i < dg.width ==> (#[trigger] dungeon[j][i]).tiletype
                        == dg.at(i, j) && dungeon[j][i].tile_material@.len() == 0
                        && dungeon[j][i].items@.len() == 0 && dungeon[j][i].mobs is None,
            decreases dg.height - y,
        {
            let mut row: Vec<DungeonTile> = Vec::new();
            let mut x: usize = 0;
            while x < dg.width
                invariant
                    dg.wf(),
                    y < dg.height,
                    x <= dg.width,
                    row.len() == x,
                    forall|i: int|
                        0 <= i < x ==> (#[trigger] row[i]).tiletype == dg.at(i, y as int)
                            && row[i].tile_material@.len() == 0 && row[i].items@.len() == 0
                            && row[i].mobs is None,
                decreases dg.width - x,
            {
                let tile = DungeonTile {
                    tiletype: dg.get(x, y),
                    tile_material: String::new(),
                    items: Vec::new(),
                    mobs: None,
                };
                row.push(tile);
                x = x + 1;
            }
            dungeon.push(row);
            y = y + 1;
        }
        let mut features: Vec<Feature> = Vec::new();
        let mut k: usize = 0;
        while k < dg.features.len()
            invariant
                k <= dg.features.len(),
                features@ == dg.features@.take(k as int),
            decreases dg.features.len() - k,
        {
            features.push(dg.features[k]);
            assert(dg.features@.take(k as int + 1) =~= dg.features@.take(k as int).push(
                dg.features@[k as int],
            ));
            k = k + 1;
        }
        assert(dg.features@.take(dg.features@.len() as int) =~= dg.features@);
        DungeonS2 { d: dungeon, width: dg.width, height: dg.height, features }
    }

    /// Names the material of one cell.
    pub fn set_material(&mut self, x: usize, y: usize, name: String)
        requires
            old(self).wf(),
            x < old(self).width,
            y < old(self).height,
        ensures
            final(self).wf(),
            final(self).same_layout(old(self)),
            final(self).at(x as int, y as int).tile_material@ == name@,
            final(self).at(x as int, y as int).mobs == old(self).at(x as int, y as int).mobs,
            forall|i: int, j: int|
                old(self).in_bounds(i, j) && (i != x || j != y) ==> #[trigger] final(self).at(i, j)
                    == old(self).at(i, j),
            final(self).mobs() == old(self).mobs(),
            final(self).materials() == old(self).materials().update(
                y as int,
                old(self).materials()[y as int].update(x as int, name@),
            ),
    {
        self.d[y][x].tile_material = name;
        proof {
            let a = self.mobs();
            let b = old(self).mobs();
            assert forall|j: int| 0 <= j < self.height implies a[j] == b[j] by {
                assert(a[j] =~= b[j]);
            }
            assert(a =~= b);
            let m = self.materials();
            let n = old(self).materials().update(
                y as int,
                old(self).materials()[y as int].update(x as int, name@),
            );
            assert forall|j: int| 0 <= j < self.height implies m[j] == n[j] by {
                assert(m[j] =~= n[j]);
            }
            assert(m =~= n);
        }
    }

    /// Puts an inhabitant on a cell, or takes it off.
    pub fn set_mob(&mut self, x: usize, y: usize, mob: Option<u64>)
        requires
            old(self).wf(),
            x < old(self).width,
            y < old(self).height,
        ensures
            final(self).wf(),
            final(self).same_layout(old(self)),
            final(self).at(x as int, y as int).mobs == mob,
            final(self).at(x as int, y as int).tile_material == old(self).at(
                x as int,
                y as int,
            ).tile_material,
            forall|i: int, j: int|
                old(self).in_bounds(i, j) && (i != x || j != y) ==> #[trigger] final(self).at(i, j)
                    == old(self).at(i, j),
            final(self).materials() == old(self).materials(),
            final(self).mobs() == old(self).mobs().update(
                y as int,
                old(self).mobs()[y as int].update(x as int, mob),
            ),
    {
        self.d[y][x].mobs = mob;
        proof {
            let a = self.materials();
            let b = old(self).materials();
            assert forall|j: int| 0 <= j < self.height implies a[j] == b[j] by {
                assert(a[j] =~= b[j]);
            }
            assert(a =~= b);
            let m = self.mobs();
            let n = old(self).mobs().update(
                y as int,
                old(self).mobs()[y as int].update(x as int, mob),
            );
            assert forall|j: int| 0 <= j < self.height implies m[j] == n[j] by {
                assert(m[j] =~= n[j]);
            }
            assert(m =~= n);
        }
    }

    /// Whether the level has a floor cell.
    pub open spec fn has_floor(&self) -> bool {
        exists|x: int, y: int|
            self.in_bounds(x, y) && (#[trigger] self.at(x, y)).tiletype == TileType::Floor
    }

    /// Whether the level has a floor cell without an inhabitant.
    pub open spec fn has_free_floor(&self) -> bool {
        exists|x: int, y: int|
            self.in_bounds(x, y) && (#[trigger] self.at(x, y)).tiletype == TileType::Floor
                && self.at(x, y).mobs is None
    }

    /// Tests whether the level is well-formed.
    pub fn is_wf(&self) -> (b: bool)
        ensures
            b == self.wf(),
    {
        if self.d.len() != self.height || self.width.checked_mul(self.height).is_none() {
            return false;
        }
        let mut y: usize = 0;
        while y < self.height
            invariant
                y <= self.height,
                self.d.len() == self.height,
                forall|j: int| 0 <= j < y ==> (#[trigger] self.d[j]).len() == self.width,
            decreases self.height - y,
        {
            if self.d[y].len() != self.width {
                return false;
            }
            y = y + 1;
        }
        true
    }

    /// Tests whether the level has a floor cell.
    pub fn has_floor_cell(&self) -> (b: bool)
        requires
            self.wf(),
        ensures
            b == self.has_floor(),
    {
        let cells: Vec<(usize, usize)> = self.floor_cells();
        proof {
            if cells@.len() > 0 {
                let c = cells@[0];
                assert(self.at(c.1 as int, c.0 as int).tiletype == TileType::Floor);
            } else if self.has_floor() {
                let (x, y) = choose|x: int, y: int|
                    self.in_bounds(x, y) && (#[trigger] self.at(x, y)).tiletype == TileType::Floor;
                assert(cells@.contains((y as usize, x as usize)));
            }
        }
        cells.len() > 0
    }

    /// Lists the floor cells of the level, row by row, as `(row, column)`
    /// pairs.
    #[verifier::rlimit(50)]
    pub fn floor_cells(&self) -> (cells: Vec<(usize, usize)>)
        requires
            self.wf(),
        ensures
            forall|k: int|
                0 <= k < cells@.len() ==> self.in_bounds(
                    (#[trigger] cells@[k]).1 as int,
                    cells@[k].0 as int,
                ) && self.at(cells@[k].1 as int, cells@[k].0 as int).tiletype == TileType::Floor,
            forall|x: int, y: int|
                self.in_bounds(x, y) && self.at(x, y).tiletype == TileType::Floor
                    ==> cells@.contains((y as usize, x as usize)),
            cells@.no_duplicates(),
    {
        let mut cells: Vec<(usize, usize)> = Vec::new();
        let mut y: usize = 0;
        while y < self.height
            invariant
                self.wf(),
                y <= self.height,
                cells@.no_duplicates(),
                forall|k: int|
                    0 <= k < cells@.len() ==> is_before(
                        (#[trigger] cells@[k]).1 as int,
                        cells@[k].0 as int,
                        0,
                        y as int,
                    ),
                forall|k: int|
                    0 <= k < cells@.len() ==> self.in_bounds(
                        (#[trigger] cells@[k]).1 as int,
                        cells@[k].0 as int,
                    ) && self.at(cells@[k].1 as int, cells@[k].0 as int).tiletype
                        == TileType::Floor,
                forall|i: int, j: int|
                    0 <= i < self.width && 0 <= j < y && self.at(i, j).tiletype == TileType::Floor
                        ==> cells@.contains((j as usize, i as usize)),
            decreases self.height - y,
        {
            let mut x: usize = 0;
            while x < self.width
                invariant
                    self.wf(),
                    y < self.height,
                    x <= self.width,
                    cells@.no_duplicates(),
                    forall|k: int|
                        0 <= k < cells@.len() ==> is_before(
                            (#[trigger] cells@[k]).1 as int,
                            cells@[k].0 as int,
                            x as int,
                            y as int,
                        ),
                    forall|k: int|
                        0 <= k < cells@.len() ==> self.in_bounds(
                            (#[trigger] cells@[k]).1 as int,
                            cells@[k].0 as int,
                        ) && self.at(cells@[k].1 as int, cells@[k].0 as int).tiletype
                            == TileType::Floor,
                    forall|i: int, j: int|
                        0 <= i < self.width && (0 <= j < y || (j == y && i < x)) && self.at(
                            i,
                            j,
                        ).tiletype == TileType::Floor ==> cells@.contains((j as usize, i as usize)),
                decreases self.width - x,
            {
                if self.is_floor(x, y) {
                    let ghost before = cells@;
                    cells.push((y, x));
                    assert(cells@.no_duplicates()) by {
                        assert forall|a: int, b: int|
                            0 <= a < cells@.len() && 0 <= b < cells@.len() && a
                                != b implies cells@[a] != cells@[b] by {
                            if a < before.len() && b < before.len() {
                                assert(cells@[a] == before[a] && cells@[b] == before[b]);
                            } else if a < before.len() {
                                assert(cells@[a] == before[a]);
                            } else {
                                assert(cells@[b] == before[b]);
                            }
                        }
                    }
                    assert forall|i: int, j: int|
                        0 <= i < self.width && (0 <= j < y || (j == y && i < x + 1)) && self.at(
                            i,
                            j,
                        ).tiletype == TileType::Floor implies cells@.contains(
                        (j as usize, i as usize),
                    ) by {
                        if i == x && j == y {
                            assert(cells@[before.len() as int] == (y, x));
                        } else {
                            assert(before.contains((j as usize, i as usize)));
                            let k = choose|k: int|
                                0 <= k < before.len() && before[k] == (j as usize, i as usize);
                            assert(cells@[k] == before[k]);
                        }
                    }
                }
                x = x + 1;
            }
            y = y + 1;
        }
        cells
    }

    /// Whether the cell is open ground.
    pub fn is_floor(&self, x: usize, y: usize) -> (b: bool)
        requires
            self.wf(),
            x < self.width,
            y < self.height,
        ensures
            b == (self.at(x as int, y as int).tiletype == TileType::Floor),
    {
        self.d[y][x].tiletype == TileType::Floor
    }
}

} // verus!
