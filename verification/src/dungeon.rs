//! The finished world.

use vstd::prelude::*;
use rand::rngs::StdRng;
use std::collections::HashMap;
use crate::dun_s1::TileType;
use crate::dun_s2::{DungeonS2, DungeonTile};
use crate::mob::{spec_identity_hash, Mob, MobTemplate};
use crate::player::Player;

verus! {

/// A world: its levels from the top down, its inhabitants and the player.
#[derive(Debug)]
pub struct Dungeon {
    pub world_name: String,
    /// When the world was made, in seconds since the epoch.
    pub created_on: i64,
    pub levels: Vec<DungeonS2>,
    pub player: Player,
    /// The mobs of the world, each under the key of its identity.
    pub mobs: HashMap<u64, Mob>,
}

impl Dungeon {
    /// Every level is well-formed.
    pub open spec fn wf(&self) -> bool {
        forall|l: int| 0 <= l < self.levels@.len() ==> (#[trigger] self.levels@[l]).wf()
    }

    /// Whether `pos`, a `(row, column)` pair, is a cell of the level.
    pub open spec fn has_cell(&self, level: int, pos: (usize, usize)) -> bool {
        0 <= level < self.levels@.len() && self.levels@[level].in_bounds(pos.1 as int, pos.0 as int)
    }

    /// The inhabitant of the cell at `pos`, a `(row, column)` pair.
    pub open spec fn mob_at(&self, level: int, pos: (usize, usize)) -> Option<u64> {
        self.levels@[level].at(pos.1 as int, pos.0 as int).mobs
    }

    /// Makes a world of the levels and puts the player on the first of
    /// them.
    #[verifier::rlimit(50)]
    pub fn from_dungeon_s2(
        name: String,
        lvls: Vec<DungeonS2>,
        mobs: HashMap<u64, Mob>,
        rng: &mut StdRng,
        mob: &MobTemplate,
        created_on: i64,
    ) -> (dungeon: Dungeon)
        requires
            lvls@.len() > 0,
            forall|l: int| 0 <= l < lvls@.len() ==> (#[trigger] lvls@[l]).wf(),
            lvls@[0].has_floor(),
            mob.rollable(),
        ensures
            dungeon.wf(),
            dungeon.world_name@ == name@,
            dungeon.created_on == created_on,
            dungeon.levels@.len() == lvls@.len(),
            forall|l: int| 1 <= l < lvls@.len() ==> dungeon.levels@[l] == lvls@[l],
            dungeon.levels@[0].same_layout(&lvls@[0]),
            dungeon.levels@[0].materials() == lvls@[0].materials(),
            dungeon.player.level == 0,
            dungeon.player.in_fov@.len() == 0,
            dungeon.player.memory@.len() == 0,
            dungeon.has_cell(0, dungeon.player.coords),
            dungeon.levels@[0].at(
                dungeon.player.coords.1 as int,
                dungeon.player.coords.0 as int,
            ).tiletype == TileType::Floor,
            exists|rolled: Mob|
                #![trigger mob.is_instance(rolled)]
                mob.is_instance(rolled) && dungeon.mobs@ == mobs@.insert(
                    spec_identity_hash(rolled),
                    rolled,
                ) && dungeon.mob_at(0, dungeon.player.coords) == Some(spec_identity_hash(rolled)),
            lvls@[0].has_free_floor() ==> lvls@[0].at(
                dungeon.player.coords.1 as int,
                dungeon.player.coords.0 as int,
            ).mobs is None,
            forall|x: int, y: int|
                lvls@[0].in_bounds(x, y) && (x != dungeon.player.coords.1 || y
                    != dungeon.player.coords.0) ==> (#[trigger] dungeon.levels@[0].at(x, y))
                    == lvls@[0].at(x, y),
    {
        let mut levels = lvls;
        let mut mobs = mobs;
        let mut first: DungeonS2 = levels.remove(0);
        let player = Player::new(&mut first, &mut mobs, 0, rng, mob);
        levels.insert(0, first);
        Dungeon { world_name: name, created_on, levels, player, mobs }
    }

    /// Moves the inhabitant of one cell to another cell, which has to be a
    /// floor. Where the other cell has an inhabitant too, the two change
    /// places if `swap` says so, and nothing happens if not. Fails where
    /// there is nobody to move, or where the way is barred.
    #[verifier::rlimit(50)]
    pub fn move_mob(
        &mut self,
        oldlevel: usize,
        old_pos: (usize, usize),
        newlevel: usize,
        new_pos: (usize, usize),
        swap: bool,
    ) -> (r: Result<(), ()>)
        requires
            old(self).wf(),
            old(self).has_cell(oldlevel as int, old_pos),
            old(self).has_cell(newlevel as int, new_pos),
            old(self).levels@[newlevel as int].at(new_pos.1 as int, new_pos.0 as int).tiletype
                == TileType::Floor,
        ensures
            final(self).wf(),
            final(self).levels@.len() == old(self).levels@.len(),
            r is Ok <==> old(self).mob_at(oldlevel as int, old_pos) is Some && (swap || old(
                self,
            ).mob_at(newlevel as int, new_pos) is None),
            r is Err ==> *final(self) == *old(self),
            r is Ok ==> final(self).mob_at(newlevel as int, new_pos) == old(self).mob_at(
                oldlevel as int,
                old_pos,
            ) && (oldlevel != newlevel || old_pos != new_pos ==> final(self).mob_at(
                oldlevel as int,
                old_pos,
            ) == old(self).mob_at(newlevel as int, new_pos)),
            forall|l: int|
                0 <= l < old(self).levels@.len() ==> (#[trigger] final(self).levels@[l]).same_layout(
                    &old(self).levels@[l],
                ) && final(self).levels@[l].materials() == old(self).levels@[l].materials(),
            forall|l: int, x: int, y: int|
                0 <= l < old(self).levels@.len() && old(self).levels@[l].in_bounds(x, y) && !(l
                    == oldlevel && x == old_pos.1 && y == old_pos.0) && !(l == newlevel && x
                    == new_pos.1 && y == new_pos.0) ==> (#[trigger] final(self).levels@[l].at(
                    x,
                    y,
                )).mobs == old(self).levels@[l].at(x, y).mobs,
    {
        let mover: Option<u64> = self.levels[oldlevel].d[old_pos.0][old_pos.1].mobs;
        let other: Option<u64> = self.levels[newlevel].d[new_pos.0][new_pos.1].mobs;
        match mover {
            Some(mob) => {
                if other.is_some() && !swap {
                    return Err(());
                }
                self.levels[oldlevel].d[old_pos.0][old_pos.1].mobs = other;
                self.levels[newlevel].d[new_pos.0][new_pos.1].mobs = Some(mob);
                proof {
                    assert forall|l: int| 0 <= l < old(self).levels@.len() implies (
                    #[trigger] self.levels@[l]).materials() == old(self).levels@[l].materials() by {
                        let a = self.levels@[l].materials();
                        let b = old(self).levels@[l].materials();
                        assert forall|j: int| 0 <= j < a.len() implies a[j] == b[j] by {
                            assert(a[j] =~= b[j]);
                        }
                        assert(a =~= b);
                    }
                }
                Ok(())
            },
            None => Err(()),
        }
    }

    /// A copy of the cell at `coords`, a `(row, column)` pair.
    pub fn at(&self, level: usize, coords: (usize, usize)) -> (tile: DungeonTile)
        requires
            self.wf(),
            self.has_cell(level as int, coords),
        ensures
            tile.tiletype == self.levels@[level as int].at(
                coords.1 as int,
                coords.0 as int,
            ).tiletype,
            tile.tile_material@ == self.levels@[level as int].at(
                coords.1 as int,
                coords.0 as int,
            ).tile_material@,
            tile.items@ == self.levels@[level as int].at(coords.1 as int, coords.0 as int).items@,
            tile.mobs == self.mob_at(level as int, coords),
    {
        self.levels[level].d[coords.0][coords.1].duplicate()
    }
}

} // verus!
