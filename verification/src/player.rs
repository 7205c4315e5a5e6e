//! The player's place in the world.

use vstd::prelude::*;
use rand::rngs::StdRng;
use std::collections::HashMap;
use crate::dun_s1::TileType;
use crate::dun_s2::DungeonS2;
use crate::mob::{spec_identity_hash, Mob, MobTemplate};
use crate::random::{lemma_shuffle_keeps, roll, shuffle};

verus! {

broadcast use vstd::std_specs::hash::group_hash_axioms;

/// Where the player stands and what the player has seen.
#[derive(Debug)]
pub struct Player {
    /// The cell, as `(row, column)`.
    pub coords: (usize, usize),
    /// The index of the level.
    pub level: usize,
    /// The cells in sight.
    pub in_fov: Vec<(usize, usize)>,
    /// The cells seen before.
    pub memory: Vec<(usize, usize)>,
}

impl Player {
    /// Rolls the player's mob, records it in the table and puts it on a
    /// floor cell of the level: on one without an inhabitant, drawn at
    /// random, if there is one; else on any floor cell, drawn at random,
    /// whose inhabitant gives way. A level without a floor cell has no
    /// place for a player.
    #[verifier::rlimit(50)]
    pub fn new(
        level: &mut DungeonS2,
        mob_table: &mut HashMap<u64, Mob>,
        level_no: usize,
        r: &mut StdRng,
        m: &MobTemplate,
    ) -> (p: Player)
        requires
            old(level).wf(),
            old(level).has_floor(),
            m.rollable(),
        ensures
            final(level).wf(),
            final(level).same_layout(old(level)),
            final(level).materials() == old(level).materials(),
            p.level == level_no,
            p.in_fov@.len() == 0,
            p.memory@.len() == 0,
            old(level).in_bounds(p.coords.1 as int, p.coords.0 as int),
            final(level).at(p.coords.1 as int, p.coords.0 as int).tiletype == TileType::Floor,
            old(level).has_free_floor() ==> old(level).at(
                p.coords.1 as int,
                p.coords.0 as int,
            ).mobs is None,
            forall|x: int, y: int|
                old(level).in_bounds(x, y) && (x != p.coords.1 || y != p.coords.0) ==> (
                #[trigger] final(level).at(x, y)) == old(level).at(x, y),
            exists|mob: Mob|
                #![trigger m.is_instance(mob)]
                m.is_instance(mob) && final(mob_table)@ == old(mob_table)@.insert(
                    spec_identity_hash(mob),
                    mob,
                ) && final(level).at(p.coords.1 as int, p.coords.0 as int).mobs == Some(
                    spec_identity_hash(mob),
                ),
    {
        let mob: Mob = m.generate_mob(r);
        let mob_id: u64 = mob.identity_hash();
        let ghost rolled = mob;
        mob_table.insert(mob_id, mob);
        let mut p_coords: Vec<(usize, usize)> = level.floor_cells();
        let ghost listed = p_coords@;
        proof {
            let (fx, fy) = choose|x: int, y: int|
                level.in_bounds(x, y) && (#[trigger] level.at(x, y)).tiletype == TileType::Floor;
            assert(listed.contains((fy as usize, fx as usize)));
        }
        shuffle(r, &mut p_coords);
        proof {
            lemma_shuffle_keeps(
                listed,
                p_coords@,
                |cell: (usize, usize)|
                    level.in_bounds(cell.1 as int, cell.0 as int) && level.at(
                        cell.1 as int,
                        cell.0 as int,
                    ).tiletype == TileType::Floor,
            );
            if level.has_free_floor() {
                let (fx, fy) = choose|x: int, y: int|
                    level.in_bounds(x, y) && (#[trigger] level.at(x, y)).tiletype
                        == TileType::Floor && level.at(x, y).mobs is None;
                let cell = (fy as usize, fx as usize);
                assert(listed.contains(cell));
                vstd::seq_lib::to_multiset_contains(listed, cell);
                vstd::seq_lib::to_multiset_contains(p_coords@, cell);
                assert(p_coords@.contains(cell));
            }
        }
        let mut i: usize = 0;
        while i < p_coords.len()
            invariant
                i <= p_coords.len(),
                level.wf(),
                *level == *old(level),
                p_coords@.len() > 0,
                m.is_instance(rolled),
                mob_id == spec_identity_hash(rolled),
                mob_table@ == old(mob_table)@.insert(mob_id, rolled),
                forall|k: int|
                    0 <= k < p_coords@.len() ==> level.in_bounds(
                        (#[trigger] p_coords@[k]).1 as int,
                        p_coords@[k].0 as int,
                    ) && level.at(p_coords@[k].1 as int, p_coords@[k].0 as int).tiletype
                        == TileType::Floor,
                forall|k: int|
                    0 <= k < i ==> level.at(
                        (#[trigger] p_coords@[k]).1 as int,
                        p_coords@[k].0 as int,
                    ).mobs is Some,
                level.has_free_floor() ==> exists|k: int|
                    0 <= k < p_coords@.len() && level.at(
                        (#[trigger] p_coords@[k]).1 as int,
                        p_coords@[k].0 as int,
                    ).mobs is None,
            decreases p_coords.len() - i,
        {
            let coord: (usize, usize) = p_coords[i];
            assert(level.in_bounds(p_coords@[i as int].1 as int, p_coords@[i as int].0 as int));
            if level.d[coord.0][coord.1].mobs.is_none() {
                level.set_mob(coord.1, coord.0, Some(mob_id));
                return Player {
                    coords: coord,
                    level: level_no,
                    in_fov: Vec::new(),
                    memory: Vec::new(),
                };
            }
            i = i + 1;
        }
        proof {
            if level.has_free_floor() {
                let k = choose|k: int|
                    0 <= k < p_coords@.len() && level.at(
                        (#[trigger] p_coords@[k]).1 as int,
                        p_coords@[k].0 as int,
                    ).mobs is None;
                assert(false);
            }
        }
        let pick: usize = roll(r, 0, p_coords.len());
        let coord: (usize, usize) = p_coords[pick];
        assert(level.in_bounds(p_coords@[pick as int].1 as int, p_coords@[pick as int].0 as int));
        level.set_mob(coord.1, coord.0, Some(mob_id));
        Player { coords: coord, level: level_no, in_fov: Vec::new(), memory: Vec::new() }
    }
}

} // verus!
