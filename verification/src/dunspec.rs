//! The description of a dungeon, layer by layer, and the pipeline that turns
//! one layer's description into levels.

use vstd::prelude::*;
use rand::rngs::StdRng;
use std::collections::HashMap;
use crate::cellular::{
    is_schedule,
    lemma_schedule_reads_numbers,
    schedule_fits,
    CellularAutomata,
    CellularAutomataOptions,
};
use crate::drunk::{walk_result, Drunkard, DrunkardOptions, WalkStats};
use crate::dun_s1::{DungeonS1, TileType};
use crate::dun_s2::DungeonS2;
use crate::material::MaterialInfo;
use crate::maze::{create_result, Maze, MazeOptions, MazeStats};
use crate::mineral_placement::{
    has_fallback,
    is_placement,
    targets_of,
    MineralPlacementOptions,
    MineralPlacer,
};
use crate::mob::{spec_identity_hash, Mob, MobTemplate};
use crate::mob_placement::{
    distinct_ids,
    is_recorded,
    is_settlement,
    spec_cap_of,
    within_caps,
    MobPlacementOptions,
    MobPlacer,
};
use crate::randrm::{tunnel_result, RandomRooms, RandomRoomsOptions};

verus! {

/// A terrain generator with its configuration.
#[derive(Clone, Debug)]
pub enum MapgenAlgorithm {
    Drunkard(DrunkardOptions),
    Cellular(CellularAutomataOptions),
    RandomRooms(RandomRoomsOptions),
    Maze(MazeOptions),
}

/// A layer: a number of levels of one size, made in one way.
#[derive(Debug)]
pub struct LayerSpecification {
    /// How many levels the layer has.
    pub levels: usize,
    /// The size of each level, as `(width, height)`.
    pub dimensions: (usize, usize),
    /// How the materials are placed.
    pub composition: MineralPlacementOptions,
    /// How the inhabitants are placed.
    pub inhabitants: MobPlacementOptions,
    /// The generators to run on each level, in this order.
    pub algorithms: Vec<MapgenAlgorithm>,
}

/// A dungeon: its layers from the top down.
#[derive(Debug)]
pub struct DungeonSpecification {
    pub world_name: String,
    pub layers: Vec<LayerSpecification>,
}

/// Whether `post` is what the generator can make of the map `pre`.
pub open spec fn is_run(algorithm: MapgenAlgorithm, pre: DungeonS1, post: DungeonS1) -> bool {
    match algorithm {
        MapgenAlgorithm::Drunkard(options) => exists|stats: WalkStats| #[trigger]
            walk_result(options, pre, post, stats),
        MapgenAlgorithm::Cellular(options) => post.wf() && post.same_frame(&pre) && (pre.settled()
            ==> post.settled()) && is_schedule(
            pre.tiles(),
            post.tiles(),
            pre.width as int,
            pre.height as int,
            options,
            options.schedule@,
        ),
        MapgenAlgorithm::RandomRooms(options) => exists|placed: usize| #[trigger]
            tunnel_result(options, pre, post, placed),
        MapgenAlgorithm::Maze(options) => exists|stats: MazeStats| #[trigger]
            create_result(options, pre, post, stats),
    }
}

/// Whether the map is solid rock of the given size, without features.
pub open spec fn is_blank(map: DungeonS1, width: int, height: int) -> bool {
    &&& map.wf()
    &&& map.width == width
    &&& map.height == height
    &&& map.features@.len() == 0
    &&& forall|x: int, y: int| map.in_bounds(x, y) ==> #[trigger] map.at(x, y) == TileType::Wall
}

/// Whether `trace` holds the maps through which a level came to be: solid
/// rock first, then what each generator made of the map before it, and
/// `map` last.
pub open spec fn is_build(
    trace: Seq<DungeonS1>,
    algorithms: Seq<MapgenAlgorithm>,
    map: DungeonS1,
    width: int,
    height: int,
) -> bool {
    &&& trace.len() == algorithms.len() + 1
    &&& is_blank(trace[0], width, height)
    &&& trace[algorithms.len() as int] == map
    &&& forall|k: int|
        0 <= k < algorithms.len() ==> is_run(algorithms[k], trace[k], #[trigger] trace[k + 1])
}

/// A grid of the given size without a name on any cell.
pub open spec fn blank_names(width: int, height: int) -> Seq<Seq<Seq<char>>> {
    Seq::new(height as nat, |y: int| Seq::new(width as nat, |x: int| Seq::<char>::empty()))
}

/// Whether `level` with `table` is what the layout `map` is enriched to:
/// `clad` is the level after the materials were placed on the bare layout,
/// and `order`, `picks` and `rolled` tell how the mobs came to it after
/// that.
pub open spec fn is_enrichment(
    clad: DungeonS2,
    order: Seq<(usize, usize)>,
    picks: Seq<Option<int>>,
    rolled: Seq<Option<Mob>>,
    map: DungeonS1,
    level: DungeonS2,
    table: Map<u64, Mob>,
    composition: MineralPlacementOptions,
    inhabitants: MobPlacementOptions,
    materials: Seq<MaterialInfo>,
    mobs: Seq<MobTemplate>,
    mineral_targets: Seq<Seq<u8>>,
    mob_targets: Seq<Seq<u8>>,
) -> bool {
    &&& clad.wf()
    &&& clad.width == map.width
    &&& clad.height == map.height
    &&& forall|x: int, y: int|
        map.in_bounds(x, y) ==> (#[trigger] clad.at(x, y)).tiletype == map.at(x, y) && clad.at(
            x,
            y,
        ).mobs is None
    &&& is_placement(
        blank_names(map.width as int, map.height as int),
        clad.materials(),
        materials,
        composition.allowed_stone,
        mineral_targets,
        map.width as int,
        map.height as int,
    )
    &&& level.materials() == clad.materials()
    &&& is_settlement(
        order,
        picks,
        rolled,
        clad,
        level,
        table,
        mobs,
        inhabitants.allowed_classes@,
        mob_targets,
    )
}

impl MapgenAlgorithm {
    /// Whether the generator can run on a map of the given height: every
    /// floor bar of an automaton fits.
    pub open spec fn fits(&self, height: int) -> bool {
        match *self {
            MapgenAlgorithm::Cellular(options) => schedule_fits(options.schedule@, height),
            _ => true,
        }
    }

    /// Tests whether the generator can run on a map of the given height.
    pub fn can_run(&self, height: usize) -> (b: bool)
        ensures
            b == self.fits(height as int),
    {
        match self {
            MapgenAlgorithm::Cellular(options) => options.fits(height),
            _ => true,
        }
    }

    /// Runs the generator on the map.
    pub fn run(&self, map: &mut DungeonS1, rng: &mut StdRng)
        requires
            old(map).wf(),
            self.fits(old(map).height as int),
        ensures
            final(map).wf(),
            final(map).width == old(map).width,
            final(map).height == old(map).height,
            old(map).settled() ==> final(map).settled(),
            is_run(*self, *old(map), *final(map)),
    {
        match self {
            MapgenAlgorithm::Drunkard(d) => {
                let stats = Drunkard::new(*d).walk(map, rng);
                assert(walk_result(*d, *old(map), *map, stats));
            },
            MapgenAlgorithm::Cellular(c) => {
                let automaton = CellularAutomata::new(c.duplicate());
                automaton.do_work(map, rng);
                proof {
                    lemma_schedule_reads_numbers(
                        old(map).tiles(),
                        map.tiles(),
                        old(map).width as int,
                        old(map).height as int,
                        automaton.options,
                        *c,
                        c.schedule@,
                    );
                }
            },
            MapgenAlgorithm::RandomRooms(r) => {
                let placed = RandomRooms::new(*r).tunnel(map, rng);
                assert(tunnel_result(*r, *old(map), *map, placed));
            },
            MapgenAlgorithm::Maze(m) => {
                let stats = Maze::new(*m).create(map, rng);
                assert(create_result(*m, *old(map), *map, stats));
            },
        }
    }
}

impl LayerSpecification {
    /// Whether levels can be made of the layer: the cells of a level can be
    /// counted in a `usize`, and every generator can run.
    pub open spec fn valid(&self) -> bool {
        &&& self.dimensions.0 * self.dimensions.1 <= usize::MAX
        &&& forall|k: int|
            0 <= k < self.algorithms@.len() ==> (#[trigger] self.algorithms@[k]).fits(
                self.dimensions.1 as int,
            )
    }

    /// Tests whether levels can be made of the layer.
    pub fn is_valid(&self) -> (b: bool)
        ensures
            b == self.valid(),
    {
        if self.dimensions.0.checked_mul(self.dimensions.1).is_none() {
            return false;
        }
        let mut k: usize = 0;
        while k < self.algorithms.len()
            invariant
                k <= self.algorithms.len(),
                forall|j: int|
                    0 <= j < k ==> (#[trigger] self.algorithms@[j]).fits(self.dimensions.1 as int),
            decreases self.algorithms.len() - k,
        {
            if !self.algorithms[k].can_run(self.dimensions.1) {
                return false;
            }
            k = k + 1;
        }
        true
    }

    /// Makes the layout of one level: a map of walls on which the
    /// generators of the layer run in their order, each on what the one
    /// before has left. Every cell of the level is a wall or a floor.
    pub fn build_level(&self, rng: &mut StdRng) -> (map: DungeonS1)
        requires
            self.valid(),
        ensures
            map.wf(),
            map.width == self.dimensions.0,
            map.height == self.dimensions.1,
            map.settled(),
            exists|trace: Seq<DungeonS1>| #[trigger]
                is_build(
                    trace,
                    self.algorithms@,
                    map,
                    self.dimensions.0 as int,
                    self.dimensions.1 as int,
                ),
    {
        let mut map = DungeonS1::new(self.dimensions.0, self.dimensions.1);
        let ghost mut trace: Seq<DungeonS1> = seq![map];
        let mut k: usize = 0;
        while k < self.algorithms.len()
            invariant
                k <= self.algorithms.len(),
                self.valid(),
                map.wf(),
                map.width == self.dimensions.0,
                map.height == self.dimensions.1,
                map.settled(),
                trace.len() == k + 1,
                is_blank(trace[0], self.dimensions.0 as int, self.dimensions.1 as int),
                trace[k as int] == map,
                forall|j: int|
                    0 <= j < k ==> is_run(self.algorithms@[j], trace[j], #[trigger] trace[j + 1]),
            decreases self.algorithms.len() - k,
        {
            self.algorithms[k].run(&mut map, rng);
            proof {
                let longer = trace.push(map);
                assert forall|j: int| 0 <= j < k + 1 implies is_run(
                    self.algorithms@[j],
                    longer[j],
                    #[trigger] longer[j + 1],
                ) by {
                    if j < k {
                        assert(is_run(self.algorithms@[j], trace[j], trace[j + 1]));
                    }
                }
                trace = longer;
            }
            k = k + 1;
        }
        assert(is_build(
            trace,
            self.algorithms@,
            map,
            self.dimensions.0 as int,
            self.dimensions.1 as int,
        ));
        map
    }

    /// Makes the layouts of all the levels of the layer, one after the
    /// other.
    pub fn build_layer(&self, rng: &mut StdRng) -> (maps: Vec<DungeonS1>)
        requires
            self.valid(),
        ensures
            maps@.len() == self.levels,
            forall|l: int|
                0 <= l < maps@.len() ==> (#[trigger] maps@[l]).wf() && maps@[l].settled()
                    && maps@[l].width == self.dimensions.0 && maps@[l].height == self.dimensions.1
                    && exists|trace: Seq<DungeonS1>| #[trigger]
                    is_build(
                        trace,
                        self.algorithms@,
                        maps@[l],
                        self.dimensions.0 as int,
                        self.dimensions.1 as int,
                    ),
    {
        let mut maps: Vec<DungeonS1> = Vec::new();
        let mut l: usize = 0;
        while l < self.levels
            invariant
                l <= self.levels,
                self.valid(),
                maps@.len() == l,
                forall|j: int|
                    0 <= j < maps@.len() ==> (#[trigger] maps@[j]).wf() && maps@[j].settled()
                        && maps@[j].width == self.dimensions.0 && maps@[j].height
                        == self.dimensions.1 && exists|trace: Seq<DungeonS1>| #[trigger]
                        is_build(
                            trace,
                            self.algorithms@,
                            maps@[j],
                            self.dimensions.0 as int,
                            self.dimensions.1 as int,
                        ),
            decreases self.levels - l,
        {
            let map = self.build_level(rng);
            let ghost before = maps@;
            maps.push(map);
            assert forall|j: int| 0 <= j < maps@.len() implies (#[trigger] maps@[j]).wf()
                && maps@[j].settled() && maps@[j].width == self.dimensions.0 && maps@[j].height
                == self.dimensions.1 && exists|trace: Seq<DungeonS1>| #[trigger]
                is_build(
                    trace,
                    self.algorithms@,
                    maps@[j],
                    self.dimensions.0 as int,
                    self.dimensions.1 as int,
                ) by {
                if j < l {
                    assert(maps@[j] == before[j]);
                }
            }
            l = l + 1;
        }
        maps
    }

    /// Makes a level of its layout: gives every cell a material and puts
    /// the inhabitants on the floor. The two fields hold, for every cell,
    /// the strength of the noise that steers the placement of the materials
    /// and of the inhabitants. Returns the level and the table of its mobs.
    #[verifier::rlimit(50)]
    pub fn enrich_level(
        &self,
        map: &DungeonS1,
        rng: &mut StdRng,
        materials: &Vec<MaterialInfo>,
        mobs: &Vec<MobTemplate>,
        mineral_field: &Vec<Vec<u8>>,
        mob_field: &Vec<Vec<u8>>,
    ) -> (made: (DungeonS2, HashMap<u64, Mob>))
        requires
            map.wf(),
            has_fallback(materials@, self.composition.allowed_stone),
            mineral_field@.len() == map.height,
            forall|y: int|
                0 <= y < mineral_field@.len() ==> (#[trigger] mineral_field@[y])@.len()
                    == map.width,
            mob_field@.len() == map.height,
            forall|y: int| 0 <= y < mob_field@.len() ==> (#[trigger] mob_field@[y])@.len() == map.width,
            forall|t: int|
                0 <= t < mobs@.len() && spec_cap_of(
                    self.inhabitants.allowed_classes@,
                    (#[trigger] mobs@[t]).class,
                ) is Some ==> mobs@[t].rollable(),
        ensures
            made.0.wf(),
            made.0.width == map.width,
            made.0.height == map.height,
            made.0.features@ == map.features@,
            forall|x: int, y: int|
                map.in_bounds(x, y) ==> (#[trigger] made.0.at(x, y)).tiletype == map.at(x, y),
            exists|
                clad: DungeonS2,
                order: Seq<(usize, usize)>,
                picks: Seq<Option<int>>,
                rolled: Seq<Option<Mob>>,
            | #[trigger]
                is_enrichment(
                    clad,
                    order,
                    picks,
                    rolled,
                    *map,
                    made.0,
                    made.1@,
                    self.composition,
                    self.inhabitants,
                    materials@,
                    mobs@,
                    targets_of(mineral_field@),
                    targets_of(mob_field@),
                ),
            made.1@.dom().finite(),
            distinct_ids(mobs@) ==> within_caps(made.1@, mobs@, self.inhabitants.allowed_classes@),
            forall|x: int, y: int|
                map.in_bounds(x, y) ==> (#[trigger] made.0.at(x, y)).items@.len() == 0 && (made.0.at(
                    x,
                    y,
                ).mobs is None || (map.at(x, y) == TileType::Floor && is_recorded(
                    made.0.at(x, y).mobs,
                    made.1@,
                ))),
            forall|key: u64| #[trigger]
                made.1@.contains_key(key) ==> key == spec_identity_hash(made.1@[key]) && exists|
                    t: int,
                |
                    0 <= t < mobs@.len() && spec_cap_of(
                        self.inhabitants.allowed_classes@,
                        mobs@[t].class,
                    ) is Some && (#[trigger] mobs@[t]).is_instance(made.1@[key]),
    {
        let mut level = DungeonS2::from_dungeon_s1(map);
        let ghost before = level.materials();
        let ghost bare = level;
        MineralPlacer::new(self.composition).generate(&mut level, rng, materials, mineral_field);
        let ghost clad = level;
        let placer = MobPlacer::new(self.inhabitants.duplicate());
        let table = placer.generate(&mut level, rng, mobs, mob_field);
        proof {
            let shape = blank_names(map.width as int, map.height as int);
            assert(before =~~= shape) by {
                assert forall|y: int| 0 <= y < map.height implies before[y] =~~= shape[y] by {
                    assert forall|x: int| 0 <= x < map.width implies before[y][x]
                        =~= shape[y][x] by {
                        assert(before[y][x] == bare.at(x, y).tile_material@);
                    }
                }
            }
            assert forall|x: int, y: int| map.in_bounds(x, y) implies (#[trigger] clad.at(
                x,
                y,
            )).tiletype == map.at(x, y) && clad.at(x, y).mobs is None by {
                assert(clad.at(x, y).tiletype == bare.at(x, y).tiletype);
                assert(clad.mobs()[y][x] == clad.at(x, y).mobs);
                assert(bare.mobs()[y][x] == bare.at(x, y).mobs);
            }
            let (order, picks, rolled) = choose|
                order: Seq<(usize, usize)>,
                picks: Seq<Option<int>>,
                rolled: Seq<Option<Mob>>,
            | #[trigger]
                is_settlement(
                    order,
                    picks,
                    rolled,
                    clad,
                    level,
                    table@,
                    mobs@,
                    placer.options.allowed_classes@,
                    targets_of(mob_field@),
                );
            assert(is_enrichment(
                clad,
                order,
                picks,
                rolled,
                *map,
                level,
                table@,
                self.composition,
                self.inhabitants,
                materials@,
                mobs@,
                targets_of(mineral_field@),
                targets_of(mob_field@),
            ));
            assert forall|x: int, y: int| map.in_bounds(x, y) implies (#[trigger] level.at(
                x,
                y,
            )).tiletype == map.at(x, y) by {
                assert(clad.at(x, y).tiletype == bare.at(x, y).tiletype);
            }
            assert forall|x: int, y: int| map.in_bounds(x, y) implies (#[trigger] level.at(
                x,
                y,
            )).items@.len() == 0 && (level.at(x, y).mobs is None || (map.at(x, y)
                == TileType::Floor && is_recorded(level.at(x, y).mobs, table@))) by {
                assert(clad.at(x, y).items@ == bare.at(x, y).items@);
                assert(level.at(x, y).items@ == clad.at(x, y).items@);
                assert(clad.mobs()[y][x] == clad.at(x, y).mobs);
                assert(bare.mobs()[y][x] == bare.at(x, y).mobs);
                assert(clad.at(x, y).tiletype == bare.at(x, y).tiletype);
            }
        }
        let ghost final_level = level;
        let ghost final_table = table@;
        let made = (level, table);
        assert(made.0 == final_level && made.1@ == final_table);
        made
    }
}

} // verus!
