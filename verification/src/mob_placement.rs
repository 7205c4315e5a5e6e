//! Placement of inhabitants: mobs are put on floor cells, as a noise field
//! asks for and as far as the caps on species and classes allow.

use vstd::prelude::*;
use vstd::set_lib::lemma_len_subset;
use rand::rngs::StdRng;
use std::collections::HashMap;
use crate::dun_s1::TileType;
use crate::dun_s2::DungeonS2;
use crate::mineral_placement::targets_of;
use crate::mob::{spec_identity_hash, Mob, MobClass, MobTemplate};
use crate::random::{lemma_shuffle_keeps, shuffle};
use crate::utils::NoiseAlgorithm;
use crate::value::Value;

verus! {

broadcast use vstd::std_specs::hash::group_hash_axioms;

/// Configuration of the pass.
#[derive(Clone, Debug)]
pub struct MobPlacementOptions {
    /// The exponent that the noise is raised to, in thousandths.
    pub noise_exponent: u32,
    /// The classes that may live on the layer: under the place of a class
    /// among the classes stands the number of mobs of the class that a map
    /// holds at most.
    pub allowed_classes: HashMap<usize, usize>,
    pub noise_algorithm: NoiseAlgorithm,
    pub noise_overlap: usize,
    pub noise_seed: Value<u32>,
}

/// The cap on a class, nothing where the class is not allowed.
pub open spec fn spec_cap_of(classes: Map<usize, usize>, c: MobClass) -> Option<usize> {
    let key = spec_class_index(c) as usize;
    if classes.contains_key(key) {
        Some(classes[key])
    } else {
        None
    }
}

/// The species among the first `upto` whose class is allowed, by their
/// index and in their order.
pub open spec fn spec_eligible(
    mobs: Seq<MobTemplate>,
    classes: Map<usize, usize>,
    upto: int,
) -> Seq<usize>
    decreases upto,
{
    if upto <= 0 {
        Seq::empty()
    } else {
        let before = spec_eligible(mobs, classes, upto - 1);
        if spec_cap_of(classes, mobs[upto - 1].class) is Some {
            before.push((upto - 1) as usize)
        } else {
            before
        }
    }
}

/// The place of a class among the classes.
pub open spec fn spec_class_index(c: MobClass) -> int {
    match c {
        MobClass::ThrallMob => 0,
        MobClass::UpperMob => 1,
        MobClass::MiddleMob => 2,
        MobClass::SauronsDenMob => 3,
        MobClass::LowerMob => 4,
        MobClass::MorgothsLairMob => 5,
        MobClass::LowestMob => 6,
    }
}

/// The template index at which the search for a species starts, counted
/// from one: the strength of the noise, from nought to 255, scaled to twice
/// the number of species, and no more than that number.
pub open spec fn spec_start(intensity: int, n: int) -> int {
    let v = intensity * (2 * n) / 255;
    if v >= n {
        n
    } else {
        v
    }
}

/// Whether the species at place `e` of the list can take one more mob:
/// neither the species nor its class has reached its cap.
pub open spec fn is_open(
    mobs: Seq<MobTemplate>,
    classes: Map<usize, usize>,
    eligible: Seq<usize>,
    mob_ctr: Seq<usize>,
    class_ctr: Seq<usize>,
    e: int,
) -> bool {
    let t = eligible[e] as int;
    &&& mob_ctr[t] < mobs[t].max_in_map
    &&& match spec_cap_of(classes, mobs[t].class) {
        Some(cap) => class_ctr[spec_class_index(mobs[t].class)] < cap,
        None => false,
    }
}

/// The species that is picked for a cell: the last one among the first
/// `start` of the list that can take one more mob, nothing where there is
/// none.
pub open spec fn spec_pick(
    mobs: Seq<MobTemplate>,
    classes: Map<usize, usize>,
    eligible: Seq<usize>,
    mob_ctr: Seq<usize>,
    class_ctr: Seq<usize>,
    start: int,
) -> Option<int>
    decreases start,
{
    if start <= 0 {
        None
    } else if is_open(mobs, classes, eligible, mob_ctr, class_ctr, start - 1) {
        Some(start - 1)
    } else {
        spec_pick(mobs, classes, eligible, mob_ctr, class_ctr, start - 1)
    }
}

/// One if the pick is the species with index `t`, zero otherwise.
pub open spec fn picked(pick: Option<int>, eligible: Seq<usize>, t: int) -> int {
    match pick {
        Some(e) => if eligible[e] == t {
            1
        } else {
            0
        },
        None => 0,
    }
}

/// How many of the first `upto` picks are the species with index `t`.
pub open spec fn count_picked(
    picks: Seq<Option<int>>,
    eligible: Seq<usize>,
    t: int,
    upto: int,
) -> int
    decreases upto,
{
    if upto <= 0 {
        0
    } else {
        count_picked(picks, eligible, t, upto - 1) + picked(picks[upto - 1], eligible, t)
    }
}

/// One if the pick is a species of the class at place `c`, zero otherwise.
pub open spec fn picked_class(
    pick: Option<int>,
    eligible: Seq<usize>,
    mobs: Seq<MobTemplate>,
    c: int,
) -> int {
    match pick {
        Some(e) => if spec_class_index(mobs[eligible[e] as int].class) == c {
            1
        } else {
            0
        },
        None => 0,
    }
}

/// How many of the first `upto` picks are species of the class at place
/// `c`.
pub open spec fn count_picked_class(
    picks: Seq<Option<int>>,
    eligible: Seq<usize>,
    mobs: Seq<MobTemplate>,
    c: int,
    upto: int,
) -> int
    decreases upto,
{
    if upto <= 0 {
        0
    } else {
        count_picked_class(picks, eligible, mobs, c, upto - 1) + picked_class(
            picks[upto - 1],
            eligible,
            mobs,
            c,
        )
    }
}

/// For every species, how many of the first `upto` picks it is.
pub open spec fn tally(picks: Seq<Option<int>>, eligible: Seq<usize>, n: int, upto: int) -> Seq<
    usize,
> {
    Seq::new(n as nat, |t: int| count_picked(picks, eligible, t, upto) as usize)
}

/// For every class, how many of the first `upto` picks are of it.
pub open spec fn class_tally(
    picks: Seq<Option<int>>,
    eligible: Seq<usize>,
    mobs: Seq<MobTemplate>,
    upto: int,
) -> Seq<usize> {
    Seq::new(7, |c: int| count_picked_class(picks, eligible, mobs, c, upto) as usize)
}

/// The first picks count the same whatever is picked after them.
pub proof fn lemma_count_picked_push(
    picks: Seq<Option<int>>,
    pick: Option<int>,
    eligible: Seq<usize>,
    mobs: Seq<MobTemplate>,
    index: int,
    upto: int,
)
    requires
        0 <= upto <= picks.len(),
    ensures
        count_picked(picks.push(pick), eligible, index, upto) == count_picked(
            picks,
            eligible,
            index,
            upto,
        ),
        count_picked_class(picks.push(pick), eligible, mobs, index, upto) == count_picked_class(
            picks,
            eligible,
            mobs,
            index,
            upto,
        ),
    decreases upto,
{
    if upto > 0 {
        lemma_count_picked_push(picks, pick, eligible, mobs, index, upto - 1);
        assert(picks.push(pick)[upto - 1] == picks[upto - 1]);
    }
}

/// The tallies of the first picks are the same whatever is picked after
/// them.
pub proof fn lemma_tally_push(
    picks: Seq<Option<int>>,
    pick: Option<int>,
    eligible: Seq<usize>,
    mobs: Seq<MobTemplate>,
    upto: int,
)
    requires
        0 <= upto <= picks.len(),
    ensures
        tally(picks.push(pick), eligible, mobs.len() as int, upto) == tally(
            picks,
            eligible,
            mobs.len() as int,
            upto,
        ),
        class_tally(picks.push(pick), eligible, mobs, upto) == class_tally(
            picks,
            eligible,
            mobs,
            upto,
        ),
{
    let a = tally(picks.push(pick), eligible, mobs.len() as int, upto);
    let b = tally(picks, eligible, mobs.len() as int, upto);
    assert forall|t: int| 0 <= t < mobs.len() implies a[t] == b[t] by {
        lemma_count_picked_push(picks, pick, eligible, mobs, t, upto);
    }
    assert(a =~= b);
    let c = class_tally(picks.push(pick), eligible, mobs, upto);
    let d = class_tally(picks, eligible, mobs, upto);
    assert forall|t: int| 0 <= t < 7 implies c[t] == d[t] by {
        lemma_count_picked_push(picks, pick, eligible, mobs, t, upto);
    }
    assert(c =~= d);
}

/// The table after the mobs of the first `upto` picks were recorded, each
/// under the key of its identity, one after the other.
pub open spec fn spec_records(
    picks: Seq<Option<int>>,
    rolled: Seq<Option<Mob>>,
    upto: int,
) -> Map<u64, Mob>
    decreases upto,
{
    if upto <= 0 {
        Map::empty()
    } else {
        let before = spec_records(picks, rolled, upto - 1);
        match rolled[upto - 1] {
            Some(m) => before.insert(spec_identity_hash(m), m),
            None => before,
        }
    }
}

/// Whether a mob was rolled and `key` is the key of its identity.
pub open spec fn is_key_of(roll: Option<Mob>, key: u64) -> bool {
    match roll {
        Some(m) => spec_identity_hash(m) == key,
        None => false,
    }
}

/// Whether `key` is the key of the mob that was rolled for one of the first
/// `upto` cells.
pub open spec fn is_rolled_key(rolled: Seq<Option<Mob>>, upto: int, key: u64) -> bool {
    exists|k: int| 0 <= k < upto && is_key_of(#[trigger] rolled[k], key)
}

/// What was recorded for the first cells does not depend on what is rolled
/// after them.
pub proof fn lemma_records_push(
    picks: Seq<Option<int>>,
    pick: Option<int>,
    rolled: Seq<Option<Mob>>,
    roll: Option<Mob>,
    upto: int,
)
    requires
        0 <= upto <= rolled.len(),
    ensures
        spec_records(picks.push(pick), rolled.push(roll), upto) == spec_records(
            picks,
            rolled,
            upto,
        ),
    decreases upto,
{
    if upto > 0 {
        lemma_records_push(picks, pick, rolled, roll, upto - 1);
        assert(rolled.push(roll)[upto - 1] == rolled[upto - 1]);
    }
}

/// Every key of the table is the key of a mob that was rolled for a cell.
pub proof fn lemma_records_keys(
    picks: Seq<Option<int>>,
    rolled: Seq<Option<Mob>>,
    upto: int,
    key: u64,
)
    requires
        spec_records(picks, rolled, upto).contains_key(key),
    ensures
        is_rolled_key(rolled, upto, key),
    decreases upto,
{
    if upto > 0 {
        let before = spec_records(picks, rolled, upto - 1);
        match rolled[upto - 1] {
            Some(m) => {
                if spec_identity_hash(m) != key {
                    lemma_records_keys(picks, rolled, upto - 1, key);
                    let k = choose|k: int| 0 <= k < upto - 1 && is_key_of(#[trigger] rolled[k], key);
                    assert(is_key_of(rolled[k], key));
                } else {
                    assert(is_key_of(rolled[upto - 1], key));
                }
            },
            None => {
                lemma_records_keys(picks, rolled, upto - 1, key);
                let k = choose|k: int| 0 <= k < upto - 1 && is_key_of(#[trigger] rolled[k], key);
                assert(is_key_of(rolled[k], key));
            },
        }
    }
}

/// Whether a cell is left as a pick asks for: where a species was picked, a
/// mob of that species was rolled and the cell holds the key of its
/// identity; where none was picked, nothing was rolled and the cell holds
/// what it held.
pub open spec fn is_placed(
    pick: Option<int>,
    roll: Option<Mob>,
    now: Option<u64>,
    was: Option<u64>,
    mobs: Seq<MobTemplate>,
    eligible: Seq<usize>,
) -> bool {
    match pick {
        Some(e) => match roll {
            Some(m) => mobs[eligible[e] as int].is_instance(m) && now == Some(
                spec_identity_hash(m),
            ),
            None => false,
        },
        None => roll is None && now == was,
    }
}

/// Whether some cell of the level holds the key.
pub open spec fn stands_on_tile(level: DungeonS2, key: u64) -> bool {
    exists|x: int, y: int| level.in_bounds(x, y) && (#[trigger] level.at(x, y)).mobs == Some(key)
}

/// Whether `order` and `picks` tell how the mobs came to the level: `order`
/// holds the floor cells, as `(row, column)` pairs, each once, in the order
/// in which they were taken; `picks` holds for each of them the place in the
/// list of the species that was picked for it, given the mobs picked before
/// and the strength of the noise on the cell; `rolled` holds the mob that
/// was rolled for the cell, if a species was picked. A cell that a species
/// was picked for holds the key of its mob; any other holds what it held.
/// The table holds the mobs that were rolled, recorded in that order. No
/// species was picked more often than its `max_in_map` allows, and the
/// species of no class more often than the cap on the class.
pub open spec fn is_settlement(
    order: Seq<(usize, usize)>,
    picks: Seq<Option<int>>,
    rolled: Seq<Option<Mob>>,
    pre: DungeonS2,
    post: DungeonS2,
    table: Map<u64, Mob>,
    mobs: Seq<MobTemplate>,
    classes: Map<usize, usize>,
    targets: Seq<Seq<u8>>,
) -> bool {
    let eligible = spec_eligible(mobs, classes, mobs.len() as int);
    &&& picks.len() == order.len()
    &&& rolled.len() == order.len()
    &&& table == spec_records(picks, rolled, picks.len() as int)
    &&& forall|k: int|
        0 <= k < picks.len() ==> is_placed(
            #[trigger] picks[k],
            rolled[k],
            post.at(order[k].1 as int, order[k].0 as int).mobs,
            pre.at(order[k].1 as int, order[k].0 as int).mobs,
            mobs,
            eligible,
        )
    &&& forall|t: int|
        0 <= t < mobs.len() ==> count_picked(picks, eligible, t, picks.len() as int) <= (
        #[trigger] mobs[t]).max_in_map
    &&& forall|c: MobClass|
        is_within(
            #[trigger] spec_cap_of(classes, c),
            count_picked_class(picks, eligible, mobs, spec_class_index(c), picks.len() as int),
        )
    &&& order.no_duplicates()
    &&& forall|k: int|
        0 <= k < order.len() ==> pre.in_bounds(
            (#[trigger] order[k]).1 as int,
            order[k].0 as int,
        ) && pre.at(order[k].1 as int, order[k].0 as int).tiletype == TileType::Floor
    &&& forall|x: int, y: int|
        pre.in_bounds(x, y) && (#[trigger] pre.at(x, y)).tiletype == TileType::Floor
            ==> order.contains((y as usize, x as usize))
    &&& forall|k: int|
        0 <= k < picks.len() ==> #[trigger] picks[k] == spec_pick(
            mobs,
            classes,
            eligible,
            tally(picks, eligible, mobs.len() as int, k),
            class_tally(picks, eligible, mobs, k),
            spec_start(targets[order[k].0 as int][order[k].1 as int] as int, eligible.len() as int),
        )
    &&& forall|k: int|
        0 <= k < picks.len() ==> match #[trigger] picks[k] {
            Some(_) => is_recorded(post.at(order[k].1 as int, order[k].0 as int).mobs, table),
            None => post.at(order[k].1 as int, order[k].0 as int).mobs == pre.at(
                order[k].1 as int,
                order[k].0 as int,
            ).mobs,
        }
}

/// The cells among the first `upto` of `order` for which the species with
/// index `t` was picked.
pub open spec fn cells_of(
    order: Seq<(usize, usize)>,
    picks: Seq<Option<int>>,
    eligible: Seq<usize>,
    t: int,
    upto: int,
) -> Set<(usize, usize)> {
    Set::new(
        |cell: (usize, usize)|
            exists|k: int|
                0 <= k < upto && #[trigger] order[k] == cell && picked(picks[k], eligible, t) == 1,
    )
}

/// The cells among the first `upto` of `order` for which a species of the
/// class at place `c` was picked.
pub open spec fn cells_of_class(
    order: Seq<(usize, usize)>,
    picks: Seq<Option<int>>,
    eligible: Seq<usize>,
    mobs: Seq<MobTemplate>,
    c: int,
    upto: int,
) -> Set<(usize, usize)> {
    Set::new(
        |cell: (usize, usize)|
            exists|k: int|
                0 <= k < upto && #[trigger] order[k] == cell && picked_class(
                    picks[k],
                    eligible,
                    mobs,
                    c,
                ) == 1,
    )
}

/// No more cells were given a species than picks went to it.
proof fn lemma_cells_counted(
    order: Seq<(usize, usize)>,
    picks: Seq<Option<int>>,
    eligible: Seq<usize>,
    t: int,
    upto: int,
)
    requires
        0 <= upto <= order.len(),
        picks.len() == order.len(),
    ensures
        cells_of(order, picks, eligible, t, upto).finite(),
        cells_of(order, picks, eligible, t, upto).len() <= count_picked(picks, eligible, t, upto),
    decreases upto,
{
    let now = cells_of(order, picks, eligible, t, upto);
    if upto <= 0 {
        assert(now =~= Set::<(usize, usize)>::empty());
    } else {
        lemma_cells_counted(order, picks, eligible, t, upto - 1);
        let before = cells_of(order, picks, eligible, t, upto - 1);
        if picked(picks[upto - 1], eligible, t) == 1 {
            assert forall|cell: (usize, usize)| now.contains(cell) implies before.insert(
                order[upto - 1],
            ).contains(cell) by {
                let k = choose|k: int|
                    0 <= k < upto && #[trigger] order[k] == cell && picked(picks[k], eligible, t)
                        == 1;
                if k < upto - 1 {
                    assert(before.contains(cell));
                }
            }
            assert forall|cell: (usize, usize)| before.insert(order[upto - 1]).contains(
                cell,
            ) implies now.contains(cell) by {
                if cell == order[upto - 1] {
                    assert(order[upto - 1] == cell);
                } else {
                    let k = choose|k: int|
                        0 <= k < upto - 1 && #[trigger] order[k] == cell && picked(
                            picks[k],
                            eligible,
                            t,
                        ) == 1;
                    assert(0 <= k < upto);
                }
            }
            assert(now =~= before.insert(order[upto - 1]));
        } else {
            assert forall|cell: (usize, usize)| now.contains(cell) implies before.contains(cell) by {
                let k = choose|k: int|
                    0 <= k < upto && #[trigger] order[k] == cell && picked(picks[k], eligible, t)
                        == 1;
                assert(k < upto - 1);
            }
            assert forall|cell: (usize, usize)| before.contains(cell) implies now.contains(cell) by {
                let k = choose|k: int|
                    0 <= k < upto - 1 && #[trigger] order[k] == cell && picked(
                        picks[k],
                        eligible,
                        t,
                    ) == 1;
                assert(0 <= k < upto);
            }
            assert(now =~= before);
        }
    }
}

/// No more cells were given a species of a class than picks went to the
/// class.
proof fn lemma_cells_of_class_counted(
    order: Seq<(usize, usize)>,
    picks: Seq<Option<int>>,
    eligible: Seq<usize>,
    mobs: Seq<MobTemplate>,
    c: int,
    upto: int,
)
    requires
        0 <= upto <= order.len(),
        picks.len() == order.len(),
    ensures
        cells_of_class(order, picks, eligible, mobs, c, upto).finite(),
        cells_of_class(order, picks, eligible, mobs, c, upto).len() <= count_picked_class(
            picks,
            eligible,
            mobs,
            c,
            upto,
        ),
    decreases upto,
{
    let now = cells_of_class(order, picks, eligible, mobs, c, upto);
    if upto <= 0 {
        assert(now =~= Set::<(usize, usize)>::empty());
    } else {
        lemma_cells_of_class_counted(order, picks, eligible, mobs, c, upto - 1);
        let before = cells_of_class(order, picks, eligible, mobs, c, upto - 1);
        if picked_class(picks[upto - 1], eligible, mobs, c) == 1 {
            assert forall|cell: (usize, usize)| now.contains(cell) implies before.insert(
                order[upto - 1],
            ).contains(cell) by {
                let k = choose|k: int|
                    0 <= k < upto && #[trigger] order[k] == cell && picked_class(
                        picks[k],
                        eligible,
                        mobs,
                        c,
                    ) == 1;
                if k < upto - 1 {
                    assert(before.contains(cell));
                }
            }
            assert forall|cell: (usize, usize)| before.insert(order[upto - 1]).contains(
                cell,
            ) implies now.contains(cell) by {
                if cell == order[upto - 1] {
                    assert(order[upto - 1] == cell);
                } else {
                    let k = choose|k: int|
                        0 <= k < upto - 1 && #[trigger] order[k] == cell && picked_class(
                            picks[k],
                            eligible,
                            mobs,
                            c,
                        ) == 1;
                    assert(0 <= k < upto);
                }
            }
            assert(now =~= before.insert(order[upto - 1]));
        } else {
            assert forall|cell: (usize, usize)| now.contains(cell) implies before.contains(cell) by {
                let k = choose|k: int|
                    0 <= k < upto && #[trigger] order[k] == cell && picked_class(
                        picks[k],
                        eligible,
                        mobs,
                        c,
                    ) == 1;
                assert(k < upto - 1);
            }
            assert forall|cell: (usize, usize)| before.contains(cell) implies now.contains(cell) by {
                let k = choose|k: int|
                    0 <= k < upto - 1 && #[trigger] order[k] == cell && picked_class(
                        picks[k],
                        eligible,
                        mobs,
                        c,
                    ) == 1;
                assert(0 <= k < upto);
            }
            assert(now =~= before);
        }
    }
}

/// After the mobs have settled, the cells that were given a mob of a
/// species are no more than its `max_in_map`, and each of them holds the
/// key of a mob of that species.
pub proof fn lemma_cells_within_species_cap(
    order: Seq<(usize, usize)>,
    picks: Seq<Option<int>>,
    rolled: Seq<Option<Mob>>,
    pre: DungeonS2,
    post: DungeonS2,
    table: Map<u64, Mob>,
    mobs: Seq<MobTemplate>,
    classes: Map<usize, usize>,
    targets: Seq<Seq<u8>>,
    t: int,
)
    requires
        is_settlement(order, picks, rolled, pre, post, table, mobs, classes, targets),
        0 <= t < mobs.len(),
    ensures
        ({
            let eligible = spec_eligible(mobs, classes, mobs.len() as int);
            let cells = cells_of(order, picks, eligible, t, order.len() as int);
            &&& cells.finite()
            &&& cells.len() <= mobs[t].max_in_map
            &&& forall|cell: (usize, usize)| #[trigger]
                cells.contains(cell) ==> exists|m: Mob|
                    mobs[t].is_instance(m) && post.at(cell.1 as int, cell.0 as int).mobs == Some(
                        #[trigger] spec_identity_hash(m),
                    )
        }),
{
    let eligible = spec_eligible(mobs, classes, mobs.len() as int);
    let cells = cells_of(order, picks, eligible, t, order.len() as int);
    lemma_cells_counted(order, picks, eligible, t, order.len() as int);
    assert(count_picked(picks, eligible, t, picks.len() as int) <= mobs[t].max_in_map);
    assert forall|cell: (usize, usize)| #[trigger] cells.contains(cell) implies exists|m: Mob|
        mobs[t].is_instance(m) && post.at(cell.1 as int, cell.0 as int).mobs == Some(
            #[trigger] spec_identity_hash(m),
        ) by {
        let k = choose|k: int|
            0 <= k < order.len() && #[trigger] order[k] == cell && picked(picks[k], eligible, t)
                == 1;
        assert(is_placed(
            picks[k],
            rolled[k],
            post.at(order[k].1 as int, order[k].0 as int).mobs,
            pre.at(order[k].1 as int, order[k].0 as int).mobs,
            mobs,
            eligible,
        ));
        let m = rolled[k]->0;
        assert(mobs[t].is_instance(m) && post.at(cell.1 as int, cell.0 as int).mobs == Some(
            spec_identity_hash(m),
        ));
    }
}

/// After the mobs have settled, the cells that were given a mob of a class
/// are no more than the cap on the class.
pub proof fn lemma_cells_within_class_cap(
    order: Seq<(usize, usize)>,
    picks: Seq<Option<int>>,
    rolled: Seq<Option<Mob>>,
    pre: DungeonS2,
    post: DungeonS2,
    table: Map<u64, Mob>,
    mobs: Seq<MobTemplate>,
    classes: Map<usize, usize>,
    targets: Seq<Seq<u8>>,
    c: MobClass,
)
    requires
        is_settlement(order, picks, rolled, pre, post, table, mobs, classes, targets),
    ensures
        ({
            let eligible = spec_eligible(mobs, classes, mobs.len() as int);
            let cells = cells_of_class(
                order,
                picks,
                eligible,
                mobs,
                spec_class_index(c),
                order.len() as int,
            );
            &&& cells.finite()
            &&& is_within(spec_cap_of(classes, c), cells.len() as int)
        }),
{
    let eligible = spec_eligible(mobs, classes, mobs.len() as int);
    lemma_cells_of_class_counted(
        order,
        picks,
        eligible,
        mobs,
        spec_class_index(c),
        order.len() as int,
    );
    assert(is_within(
        spec_cap_of(classes, c),
        count_picked_class(picks, eligible, mobs, spec_class_index(c), picks.len() as int),
    ));
}

/// The records of the species with the given name.
pub open spec fn from_template(id: Seq<char>) -> spec_fn(Mob) -> bool {
    |m: Mob| m.from_mob_template@ == id
}

/// The records of the species of the given class.
pub open spec fn of_class(mobs: Seq<MobTemplate>, c: MobClass) -> spec_fn(Mob) -> bool {
    |m: Mob|
        exists|t: int|
            0 <= t < mobs.len() && (#[trigger] mobs[t]).id@ == m.from_mob_template@ && mobs[t].class
                == c
}

/// The keys of the records that `p` holds of.
pub open spec fn keys_where(table: Map<u64, Mob>, p: spec_fn(Mob) -> bool) -> Set<u64> {
    table.dom().filter(|k: u64| p(table[k]))
}

/// The number of records that `p` holds of.
pub open spec fn count_where(table: Map<u64, Mob>, p: spec_fn(Mob) -> bool) -> nat {
    keys_where(table, p).len()
}

/// No two species share a name.
pub open spec fn distinct_ids(mobs: Seq<MobTemplate>) -> bool {
    forall|a: int, b: int|
        0 <= a < mobs.len() && 0 <= b < mobs.len() && a != b ==> (#[trigger] mobs[a]).id@ != (
        #[trigger] mobs[b]).id@
}

/// Whether the cell holds a mob that stands in the table.
pub open spec fn is_recorded(mob: Option<u64>, table: Map<u64, Mob>) -> bool {
    match mob {
        Some(key) => table.contains_key(key),
        None => false,
    }
}

/// Whether `count` is within the cap, if there is one.
pub open spec fn is_within(cap: Option<usize>, count: int) -> bool {
    match cap {
        Some(c) => count <= c,
        None => true,
    }
}

/// Whether no more records stand in the table than the caps allow: of no
/// species more than its `max_in_map`, and of no allowed class more than
/// the cap on the class.
pub open spec fn within_caps(
    table: Map<u64, Mob>,
    mobs: Seq<MobTemplate>,
    classes: Map<usize, usize>,
) -> bool {
    &&& forall|t: int|
        0 <= t < mobs.len() ==> count_where(table, from_template((#[trigger] mobs[t]).id@))
            <= mobs[t].max_in_map
    &&& forall|c: MobClass|
        is_within(#[trigger] spec_cap_of(classes, c), count_where(table, of_class(mobs, c)) as int)
}

/// An empty table holds no record of any kind.
pub proof fn lemma_count_empty(p: spec_fn(Mob) -> bool)
    ensures
        count_where(Map::<u64, Mob>::empty(), p) == 0,
{
    assert(keys_where(Map::<u64, Mob>::empty(), p) =~= Set::<u64>::empty());
}

/// A record put into the table adds at most one to the number of records
/// that `p` holds of, and nothing if `p` does not hold of it.
pub proof fn lemma_count_insert(table: Map<u64, Mob>, key: u64, mob: Mob, p: spec_fn(Mob) -> bool)
    requires
        table.dom().finite(),
    ensures
        table.insert(key, mob).dom().finite(),
        count_where(table.insert(key, mob), p) <= count_where(table, p) + if p(mob) {
            1nat
        } else {
            0nat
        },
{
    let before = keys_where(table, p);
    let after = keys_where(table.insert(key, mob), p);
    table.dom().lemma_len_filter(|k: u64| p(table[k]));
    if p(mob) {
        assert(after.subset_of(before.insert(key)));
        lemma_len_subset(after, before.insert(key));
    } else {
        assert(after.subset_of(before));
        lemma_len_subset(after, before);
    }
}

/// The place of a class among the classes.
pub fn class_index(c: MobClass) -> (i: usize)
    ensures
        i == spec_class_index(c),
        i < 7,
{
    match c {
        MobClass::ThrallMob => 0,
        MobClass::UpperMob => 1,
        MobClass::MiddleMob => 2,
        MobClass::SauronsDenMob => 3,
        MobClass::LowerMob => 4,
        MobClass::MorgothsLairMob => 5,
        MobClass::LowestMob => 6,
    }
}

/// The template index at which the search for a species starts.
pub fn start_index(intensity: u8, n: usize) -> (start: usize)
    ensures
        start == spec_start(intensity as int, n as int),
        start <= n,
{
    let wide: u128 = n as u128;
    assert(intensity as u128 * (2 * wide) <= 255 * (2 * 0xffff_ffff_ffff_ffff)) by (nonlinear_arith)
        requires
            0 <= intensity <= 255,
            0 <= wide <= 0xffff_ffff_ffff_ffff,
    ;
    let v: u128 = (intensity as u128) * (2 * wide) / 255;
    if v >= wide {
        n
    } else {
        v as usize
    }
}

/// The count that is kept for each class: what stands under the place of
/// the class, nought where nothing stands.
pub open spec fn counts_of(ctr: Map<usize, usize>) -> Seq<usize> {
    Seq::new(
        7,
        |c: int|
            if ctr.contains_key(c as usize) {
                ctr[c as usize]
            } else {
                0
            },
    )
}

/// The count that is kept for the class at place `slot`.
fn count_of(ctr: &HashMap<usize, usize>, slot: usize) -> (n: usize)
    requires
        slot < 7,
    ensures
        n == counts_of(ctr@)[slot as int],
{
    match ctr.get(&slot) {
        Some(n) => *n,
        None => 0,
    }
}

/// Counts one more mob of the class at place `slot`.
fn count_one_more(ctr: &mut HashMap<usize, usize>, slot: usize)
    requires
        slot < 7,
        counts_of(old(ctr)@)[slot as int] < usize::MAX,
    ensures
        counts_of(final(ctr)@) == counts_of(old(ctr)@).update(
            slot as int,
            (counts_of(old(ctr)@)[slot as int] + 1) as usize,
        ),
{
    let n: usize = count_of(ctr, slot);
    ctr.insert(slot, n + 1);
    assert(counts_of(ctr@) =~= counts_of(old(ctr)@).update(
        slot as int,
        (counts_of(old(ctr)@)[slot as int] + 1) as usize,
    ));
}

impl MobPlacementOptions {
    /// A copy of the configuration.
    pub fn duplicate(&self) -> (o: MobPlacementOptions)
        ensures
            o.allowed_classes@ == self.allowed_classes@,
            o == (MobPlacementOptions { allowed_classes: o.allowed_classes, ..*self }),
    {
        MobPlacementOptions {
            noise_exponent: self.noise_exponent,
            allowed_classes: self.allowed_classes.clone(),
            noise_algorithm: self.noise_algorithm,
            noise_overlap: self.noise_overlap,
            noise_seed: self.noise_seed,
        }
    }

    /// The cap on a class, nothing where the class is not allowed.
    pub fn cap_of(&self, c: MobClass) -> (cap: Option<usize>)
        ensures
            cap == spec_cap_of(self.allowed_classes@, c),
    {
        let key: usize = class_index(c);
        match self.allowed_classes.get(&key) {
            Some(cap) => Some(*cap),
            None => None,
        }
    }
}

/// The pass: a configuration that can be run on any level.
#[derive(Clone, Debug)]
pub struct MobPlacer {
    pub options: MobPlacementOptions,
}

impl MobPlacer {
    pub fn new(options: MobPlacementOptions) -> (p: MobPlacer)
        ensures
            p.options == options,
    {
        MobPlacer { options }
    }

    /// Lists, by their index and in their order, the species whose class is
    /// allowed.
    pub fn eligible(&self, mobs: &Vec<MobTemplate>) -> (list: Vec<usize>)
        ensures
            forall|k: int|
                0 <= k < list@.len() ==> (#[trigger] list@[k]) < mobs@.len() && spec_cap_of(
                    self.options.allowed_classes@,
                    mobs@[list@[k] as int].class,
                ) is Some,
            forall|t: int|
                0 <= t < mobs@.len() && spec_cap_of(
                    self.options.allowed_classes@,
                    mobs@[t].class,
                ) is Some ==> list@.contains(t as usize),
            forall|a: int, b: int|
                #![trigger list@[a], list@[b]]
                0 <= a < b < list@.len() ==> list@[a] < list@[b],
            list@ == spec_eligible(mobs@, self.options.allowed_classes@, mobs@.len() as int),
    {
        let mut list: Vec<usize> = Vec::new();
        let mut t: usize = 0;
        while t < mobs.len()
            invariant
                t <= mobs.len(),
                list@ == spec_eligible(mobs@, self.options.allowed_classes@, t as int),
                forall|k: int|
                    0 <= k < list@.len() ==> (#[trigger] list@[k]) < t && spec_cap_of(
                        self.options.allowed_classes@,
                        mobs@[list@[k] as int].class,
                    ) is Some,
                forall|j: int|
                    0 <= j < t && spec_cap_of(self.options.allowed_classes@, mobs@[j].class) is Some
                        ==> list@.contains(j as usize),
                forall|a: int, b: int|
                    #![trigger list@[a], list@[b]]
                    0 <= a < b < list@.len() ==> list@[a] < list@[b],
            decreases mobs.len() - t,
        {
            if self.options.cap_of(mobs[t].class).is_some() {
                let ghost before = list@;
                list.push(t);
                assert forall|j: int|
                    0 <= j < t + 1 && spec_cap_of(
                        self.options.allowed_classes@,
                        mobs@[j].class,
                    ) is Some implies list@.contains(j as usize) by {
                    if j == t {
                        assert(list@[before.len() as int] == t);
                    } else {
                        assert(before.contains(j as usize));
                        let k = choose|k: int| 0 <= k < before.len() && before[k] == j as usize;
                        assert(list@[k] == before[k]);
                    }
                }
            }
            t = t + 1;
        }
        list
    }

    /// Finds the species for a cell: the last one in the list, among the
    /// first `start`, that can take one more mob.
    #[verifier::rlimit(50)]
    pub fn pick_template(
        &self,
        mobs: &Vec<MobTemplate>,
        eligible: &Vec<usize>,
        mob_ctr: &Vec<usize>,
        class_ctr: &HashMap<usize, usize>,
        start: usize,
    ) -> (found: Option<usize>)
        requires
            start <= eligible@.len(),
            mob_ctr@.len() == mobs@.len(),
            forall|k: int| 0 <= k < eligible@.len() ==> (#[trigger] eligible@[k]) < mobs@.len(),
        ensures
            match found {
                Some(e) => e < start && is_open(
                    mobs@,
                    self.options.allowed_classes@,
                    eligible@,
                    mob_ctr@,
                    counts_of(class_ctr@),
                    e as int,
                ) && forall|later: int|
                    e < later < start ==> !is_open(
                        mobs@,
                        self.options.allowed_classes@,
                        eligible@,
                        mob_ctr@,
                        counts_of(class_ctr@),
                        later,
                    ),
                None => forall|e: int|
                    0 <= e < start ==> !is_open(
                        mobs@,
                        self.options.allowed_classes@,
                        eligible@,
                        mob_ctr@,
                        counts_of(class_ctr@),
                        e,
                    ),
            },
            match found {
                Some(e) => Some(e as int),
                None => None,
            } == spec_pick(
                mobs@,
                self.options.allowed_classes@,
                eligible@,
                mob_ctr@,
                counts_of(class_ctr@),
                start as int,
            ),
    {
        let mut v: usize = start;
        while v > 0
            invariant
                v <= start <= eligible@.len(),
                spec_pick(
                    mobs@,
                    self.options.allowed_classes@,
                    eligible@,
                    mob_ctr@,
                    counts_of(class_ctr@),
                    start as int,
                ) == spec_pick(
                    mobs@,
                    self.options.allowed_classes@,
                    eligible@,
                    mob_ctr@,
                    counts_of(class_ctr@),
                    v as int,
                ),
                mob_ctr@.len() == mobs@.len(),
                    forall|k: int| 0 <= k < eligible@.len() ==> (#[trigger] eligible@[k]) < mobs@.len(),
                forall|later: int|
                    v <= later < start ==> !is_open(
                        mobs@,
                        self.options.allowed_classes@,
                        eligible@,
                        mob_ctr@,
                        counts_of(class_ctr@),
                        later,
                    ),
            decreases v,
        {
            let e: usize = v - 1;
            let t: usize = eligible[e];
            let class: MobClass = mobs[t].class;
            let under: bool = match self.options.cap_of(class) {
                Some(cap) => count_of(class_ctr, class_index(class)) < cap,
                None => false,
            };
            if mob_ctr[t] < mobs[t].max_in_map && under {
                return Some(e);
            }
            v = v - 1;
        }
        None
    }

    /// Puts mobs on the floor cells of the map and returns the table of the
    /// mobs, each under the key of its identity. The cells are taken in a
    /// random order. For each, the species is looked for from the index
    /// that the noise in `field` asks for downwards, among the species
    /// whose class is allowed; the first that can take one more mob is
    /// rolled. A cell for which none is found stays as it is.
    #[verifier::rlimit(50)]
    pub fn generate(
        &self,
        map: &mut DungeonS2,
        rng: &mut StdRng,
        mobs: &Vec<MobTemplate>,
        field: &Vec<Vec<u8>>,
    ) -> (table: HashMap<u64, Mob>)
        requires
            old(map).wf(),
            field@.len() == old(map).height,
            forall|y: int| 0 <= y < field@.len() ==> (#[trigger] field@[y])@.len() == old(map).width,
            forall|t: int|
                0 <= t < mobs@.len() && spec_cap_of(
                    self.options.allowed_classes@,
                    (#[trigger] mobs@[t]).class,
                ) is Some ==> mobs@[t].rollable(),
        ensures
            final(map).wf(),
            final(map).same_layout(old(map)),
            final(map).materials() == old(map).materials(),
            table@.dom().finite(),
            forall|x: int, y: int|
                old(map).in_bounds(x, y) ==> (#[trigger] final(map).at(x, y)).mobs == old(map).at(
                    x,
                    y,
                ).mobs || (final(map).at(x, y).tiletype == TileType::Floor && is_recorded(
                    final(map).at(x, y).mobs,
                    table@,
                )),
            forall|key: u64| #[trigger]
                table@.contains_key(key) ==> key == spec_identity_hash(table@[key]) && exists|
                    t: int,
                |
                    0 <= t < mobs@.len() && spec_cap_of(
                        self.options.allowed_classes@,
                        mobs@[t].class,
                    ) is Some && (#[trigger] mobs@[t]).is_instance(table@[key]),
            distinct_ids(mobs@) ==> within_caps(table@, mobs@, self.options.allowed_classes@),
            forall|x: int, y: int|
                old(map).in_bounds(x, y) && spec_start(
                    field@[y]@[x] as int,
                    spec_eligible(
                        mobs@,
                        self.options.allowed_classes@,
                        mobs@.len() as int,
                    ).len() as int,
                ) == 0 ==> (#[trigger] final(map).at(x, y)).mobs == old(map).at(x, y).mobs,
            forall|key: u64| #[trigger]
                table@.contains_key(key) ==> stands_on_tile(*final(map), key),
            exists|order: Seq<(usize, usize)>, picks: Seq<Option<int>>, rolled: Seq<Option<Mob>>| #[trigger]
                is_settlement(
                    order,
                    picks,
                    rolled,
                    *old(map),
                    *final(map),
                    table@,
                    mobs@,
                    self.options.allowed_classes@,
                    targets_of(field@),
                ),
    {
        let ghost classes = self.options.allowed_classes@;
        let eligible: Vec<usize> = self.eligible(mobs);
        let n: usize = eligible.len();
        let mut mob_ctr: Vec<usize> = Vec::new();
        let mut t: usize = 0;
        while t < mobs.len()
            invariant
                t <= mobs.len(),
                mob_ctr@.len() == t,
                forall|k: int| 0 <= k < t ==> mob_ctr@[k] == 0,
            decreases mobs.len() - t,
        {
            mob_ctr.push(0);
            t = t + 1;
        }
        let mut class_ctr: HashMap<usize, usize> = HashMap::new();
        assert forall|k: int| 0 <= k < 7 implies counts_of(class_ctr@)[k] == 0 by {
            assert(!class_ctr@.contains_key(k as usize));
        }
        let mut table: HashMap<u64, Mob> = HashMap::new();
        let mut coords: Vec<(usize, usize)> = map.floor_cells();
        let ghost listed = coords@;
        shuffle(rng, &mut coords);
        let ghost mut picks: Seq<Option<int>> = Seq::empty();
        let ghost mut rolled: Seq<Option<Mob>> = Seq::empty();
        proof {
            listed.lemma_multiset_has_no_duplicates();
            coords@.lemma_multiset_has_no_duplicates_conv();
            assert forall|x: int, y: int|
                map.in_bounds(x, y) && (#[trigger] map.at(x, y)).tiletype
                    == TileType::Floor implies coords@.contains((y as usize, x as usize)) by {
                let cell = (y as usize, x as usize);
                assert(listed.contains(cell));
                vstd::seq_lib::to_multiset_contains(listed, cell);
                vstd::seq_lib::to_multiset_contains(coords@, cell);
            }
            lemma_shuffle_keeps(
                listed,
                coords@,
                |cell: (usize, usize)|
                    map.in_bounds(cell.1 as int, cell.0 as int) && map.at(
                        cell.1 as int,
                        cell.0 as int,
                    ).tiletype == TileType::Floor,
            );
            assert forall|t: int| 0 <= t < mobs@.len() implies count_where(
                table@,
                from_template((#[trigger] mobs@[t]).id@),
            ) <= mob_ctr@[t] by {
                lemma_count_empty(from_template(mobs@[t].id@));
            }
            assert forall|c: MobClass|
                count_where(table@, #[trigger] of_class(mobs@, c)) <= counts_of(class_ctr@)[spec_class_index(
                    c,
                )] by {
                lemma_count_empty(of_class(mobs@, c));
            }
        }
        let mut i: usize = 0;
        while i < coords.len()
            invariant
                i <= coords.len(),
                map.wf(),
                map.same_layout(old(map)),
                map.materials() == old(map).materials(),
                classes == self.options.allowed_classes@,
                n == eligible@.len(),
                eligible@ == spec_eligible(mobs@, classes, mobs@.len() as int),
                coords@.no_duplicates(),
                picks.len() == i,
                rolled.len() == i,
                table@ == spec_records(picks, rolled, i as int),
                forall|k: int|
                    0 <= k < i ==> is_placed(
                        #[trigger] picks[k],
                        rolled[k],
                        map.at(coords@[k].1 as int, coords@[k].0 as int).mobs,
                        old(map).at(coords@[k].1 as int, coords@[k].0 as int).mobs,
                        mobs@,
                        eligible@,
                    ),
                forall|u: int|
                    0 <= u < mobs@.len() ==> #[trigger] mob_ctr@[u] == count_picked(
                        picks,
                        eligible@,
                        u,
                        i as int,
                    ),
                forall|c: int|
                    0 <= c < 7 ==> #[trigger] counts_of(class_ctr@)[c] == count_picked_class(
                        picks,
                        eligible@,
                        mobs@,
                        c,
                        i as int,
                    ),
                forall|k: int|
                    0 <= k < i ==> #[trigger] picks[k] == spec_pick(
                        mobs@,
                        classes,
                        eligible@,
                        tally(picks, eligible@, mobs@.len() as int, k),
                        class_tally(picks, eligible@, mobs@, k),
                        spec_start(
                            field@[coords@[k].0 as int]@[coords@[k].1 as int] as int,
                            n as int,
                        ),
                    ),
                forall|k: int|
                    0 <= k < i ==> match #[trigger] picks[k] {
                        Some(_) => is_recorded(
                            map.at(coords@[k].1 as int, coords@[k].0 as int).mobs,
                            table@,
                        ),
                        None => map.at(coords@[k].1 as int, coords@[k].0 as int).mobs == old(
                            map,
                        ).at(coords@[k].1 as int, coords@[k].0 as int).mobs,
                    },
                forall|k: int|
                    i <= k < coords@.len() ==> map.at(
                        (#[trigger] coords@[k]).1 as int,
                        coords@[k].0 as int,
                    ) == old(map).at(coords@[k].1 as int, coords@[k].0 as int),
                forall|x: int, y: int|
                    old(map).in_bounds(x, y) && spec_start(field@[y]@[x] as int, n as int) == 0 ==> (
                    #[trigger] map.at(x, y)).mobs == old(map).at(x, y).mobs,
                mob_ctr@.len() == mobs@.len(),
                    field@.len() == map.height,
                forall|y: int| 0 <= y < field@.len() ==> (#[trigger] field@[y])@.len() == map.width,
                forall|t: int|
                    0 <= t < mobs@.len() && spec_cap_of(classes, (#[trigger] mobs@[t]).class) is Some
                        ==> mobs@[t].rollable(),
                forall|k: int|
                    0 <= k < eligible@.len() ==> (#[trigger] eligible@[k]) < mobs@.len()
                        && spec_cap_of(classes, mobs@[eligible@[k] as int].class) is Some,
                forall|k: int|
                    0 <= k < coords@.len() ==> map.in_bounds(
                        (#[trigger] coords@[k]).1 as int,
                        coords@[k].0 as int,
                    ) && old(map).at(coords@[k].1 as int, coords@[k].0 as int).tiletype
                        == TileType::Floor,
                table@.dom().finite(),
                forall|x: int, y: int|
                    old(map).in_bounds(x, y) ==> (#[trigger] map.at(x, y)).mobs == old(map).at(
                        x,
                        y,
                    ).mobs || (map.at(x, y).tiletype == TileType::Floor && is_recorded(
                        map.at(x, y).mobs,
                        table@,
                    )),
                forall|key: u64| #[trigger]
                    table@.contains_key(key) ==> key == spec_identity_hash(table@[key]) && exists|
                        t: int,
                    |
                        0 <= t < mobs@.len() && spec_cap_of(classes, mobs@[t].class) is Some && (
                        #[trigger] mobs@[t]).is_instance(table@[key]),
                forall|t: int| 0 <= t < mobs@.len() ==> mob_ctr@[t] <= (#[trigger] mobs@[t]).max_in_map,
                forall|c: MobClass|
                    is_within(
                        #[trigger] spec_cap_of(classes, c),
                        counts_of(class_ctr@)[spec_class_index(c)] as int,
                    ),
                distinct_ids(mobs@) ==> forall|t: int|
                    0 <= t < mobs@.len() ==> count_where(
                        table@,
                        from_template((#[trigger] mobs@[t]).id@),
                    ) <= mob_ctr@[t],
                distinct_ids(mobs@) ==> forall|c: MobClass|
                    count_where(table@, #[trigger] of_class(mobs@, c)) <= counts_of(class_ctr@)[spec_class_index(
                        c,
                    )],
            decreases coords.len() - i,
        {
            let (y, x) = coords[i];
            assert(map.in_bounds(coords@[i as int].1 as int, coords@[i as int].0 as int));
            let start: usize = start_index(field[y][x], n);
            let ghost entry_map = *map;
            let ghost entry_table = table@;
            let ghost entry_mob_ctr = mob_ctr@;
            let ghost entry_class_ctr = counts_of(class_ctr@);
            let found: Option<usize> = self.pick_template(
                mobs,
                &eligible,
                &mob_ctr,
                &class_ctr,
                start,
            );
            let ghost pick: Option<int> = match found {
                Some(e) => Some(e as int),
                None => None,
            };
            proof {
                assert(mob_ctr@ =~= tally(picks, eligible@, mobs@.len() as int, i as int));
                assert(counts_of(class_ctr@) =~= class_tally(picks, eligible@, mobs@, i as int));
            }
            let ghost mut roll: Option<Mob> = None;
            match found {
                Some(e) => {
                    let t: usize = eligible[e];
                    let class: MobClass = mobs[t].class;
                    let slot: usize = class_index(class);
                    let mob: Mob = mobs[t].generate_mob(rng);
                    let key: u64 = mob.identity_hash();
                    proof {
                        roll = Some(mob);
                    }
                    let ghost before_map = *map;
                    let ghost before_table = table@;
                    let ghost before_mob_ctr = mob_ctr@;
                    let ghost before_class_ctr = counts_of(class_ctr@);
                    map.set_mob(x, y, Some(key));
                    table.insert(key, mob);
                    mob_ctr[t] = mob_ctr[t] + 1;
                    count_one_more(&mut class_ctr, slot);
                    proof {
                        assert forall|i2: int, j2: int|
                            old(map).in_bounds(i2, j2) && spec_start(
                                field@[j2]@[i2] as int,
                                n as int,
                            ) == 0 implies (#[trigger] map.at(i2, j2)).mobs == old(map).at(
                            i2,
                            j2,
                        ).mobs by {
                            if i2 == x && j2 == y {
                                assert(start == 0);
                            } else {
                                assert(map.at(i2, j2) == before_map.at(i2, j2));
                            }
                        }
                        assert(table@ == before_table.insert(key, mob));
                        assert forall|i2: int, j2: int| old(map).in_bounds(i2, j2) implies (
                        #[trigger] map.at(i2, j2)).mobs == old(map).at(i2, j2).mobs || (map.at(
                            i2,
                            j2,
                        ).tiletype == TileType::Floor && is_recorded(map.at(i2, j2).mobs, table@)) by {
                            if i2 == x && j2 == y {
                                assert(map.at(i2, j2).tiletype == old(map).at(i2, j2).tiletype);
                            } else {
                                assert(map.at(i2, j2) == before_map.at(i2, j2));
                            }
                        }
                        assert forall|c2: MobClass|
                            is_within(
                                #[trigger] spec_cap_of(classes, c2),
                                counts_of(class_ctr@)[spec_class_index(c2)] as int,
                            ) by {
                            assert(is_within(
                                spec_cap_of(classes, c2),
                                before_class_ctr[spec_class_index(c2)] as int,
                            ));
                            if spec_class_index(c2) == slot {
                                assert(c2 == class);
                            }
                        }
                        if distinct_ids(mobs@) {
                            assert forall|t2: int| 0 <= t2 < mobs@.len() implies count_where(
                                table@,
                                from_template((#[trigger] mobs@[t2]).id@),
                            ) <= mob_ctr@[t2] by {
                                lemma_count_insert(
                                    before_table,
                                    key,
                                    mob,
                                    from_template(mobs@[t2].id@),
                                );
                                assert(count_where(before_table, from_template(mobs@[t2].id@))
                                    <= before_mob_ctr[t2]);
                                if t2 != t {
                                    assert(mobs@[t2].id@ != mobs@[t as int].id@);
                                }
                            }
                            assert forall|c2: MobClass|
                                count_where(table@, #[trigger] of_class(mobs@, c2))
                                    <= counts_of(class_ctr@)[spec_class_index(c2)] by {
                                lemma_count_insert(before_table, key, mob, of_class(mobs@, c2));
                                assert(count_where(before_table, of_class(mobs@, c2))
                                    <= before_class_ctr[spec_class_index(c2)]);
                                if c2 != class {
                                    if of_class(mobs@, c2)(mob) {
                                        let t3 = choose|t3: int|
                                            0 <= t3 < mobs@.len() && (#[trigger] mobs@[t3]).id@
                                                == mob.from_mob_template@ && mobs@[t3].class == c2;
                                        assert(t3 == t);
                                    }
                                }
                            }
                        }
                    }
                },
                None => {},
            }
            proof {
                let longer = picks.push(pick);
                assert(longer[i as int] == pick);
                let more = rolled.push(roll);
                assert(more[i as int] == roll);
                lemma_records_push(picks, pick, rolled, roll, i as int);
                assert(table@ == spec_records(longer, more, i + 1));
                assert forall|k: int| 0 <= k < i + 1 implies is_placed(
                    #[trigger] longer[k],
                    more[k],
                    map.at(coords@[k].1 as int, coords@[k].0 as int).mobs,
                    old(map).at(coords@[k].1 as int, coords@[k].0 as int).mobs,
                    mobs@,
                    eligible@,
                ) by {
                    if k < i {
                        assert(longer[k] == picks[k] && more[k] == rolled[k]);
                        assert(coords@[k] != coords@[i as int]);
                        assert(map.at(coords@[k].1 as int, coords@[k].0 as int) == entry_map.at(
                            coords@[k].1 as int,
                            coords@[k].0 as int,
                        ));
                    }
                }
                rolled = more;
                assert forall|u: int| 0 <= u < mobs@.len() implies #[trigger] mob_ctr@[u]
                    == count_picked(longer, eligible@, u, i + 1) by {
                    lemma_count_picked_push(picks, pick, eligible@, mobs@, u, i as int);
                    assert(entry_mob_ctr[u] == count_picked(picks, eligible@, u, i as int));
                }
                assert forall|c: int| 0 <= c < 7 implies #[trigger] counts_of(class_ctr@)[c]
                    == count_picked_class(longer, eligible@, mobs@, c, i + 1) by {
                    lemma_count_picked_push(picks, pick, eligible@, mobs@, c, i as int);
                    assert(entry_class_ctr[c] == count_picked_class(
                        picks,
                        eligible@,
                        mobs@,
                        c,
                        i as int,
                    ));
                }
                assert forall|k: int| 0 <= k < i + 1 implies #[trigger] longer[k] == spec_pick(
                    mobs@,
                    classes,
                    eligible@,
                    tally(longer, eligible@, mobs@.len() as int, k),
                    class_tally(longer, eligible@, mobs@, k),
                    spec_start(
                        field@[coords@[k].0 as int]@[coords@[k].1 as int] as int,
                        n as int,
                    ),
                ) by {
                    lemma_tally_push(picks, pick, eligible@, mobs@, k);
                    if k < i {
                        assert(longer[k] == picks[k]);
                    }
                }
                assert forall|k: int| 0 <= k < i + 1 implies match #[trigger] longer[k] {
                    Some(_) => is_recorded(
                        map.at(coords@[k].1 as int, coords@[k].0 as int).mobs,
                        table@,
                    ),
                    None => map.at(coords@[k].1 as int, coords@[k].0 as int).mobs == old(
                        map,
                    ).at(coords@[k].1 as int, coords@[k].0 as int).mobs,
                } by {
                    if k < i {
                        assert(longer[k] == picks[k]);
                        assert(coords@[k] != coords@[i as int]);
                        assert(map.at(coords@[k].1 as int, coords@[k].0 as int) == entry_map.at(
                            coords@[k].1 as int,
                            coords@[k].0 as int,
                        ));
                        assert(forall|key: u64|
                            entry_table.contains_key(key) ==> table@.contains_key(key));
                    }
                }
                assert forall|k: int| i + 1 <= k < coords@.len() implies map.at(
                    (#[trigger] coords@[k]).1 as int,
                    coords@[k].0 as int,
                ) == old(map).at(coords@[k].1 as int, coords@[k].0 as int) by {
                    assert(coords@[k] != coords@[i as int]);
                    assert(map.at(coords@[k].1 as int, coords@[k].0 as int) == entry_map.at(
                        coords@[k].1 as int,
                        coords@[k].0 as int,
                    ));
                }
                picks = longer;
            }
            i = i + 1;
        }
        proof {
            assert forall|t: int| 0 <= t < mobs@.len() implies count_picked(
                picks,
                eligible@,
                t,
                picks.len() as int,
            ) <= (#[trigger] mobs@[t]).max_in_map by {
                assert(mob_ctr@[t] == count_picked(picks, eligible@, t, i as int));
            }
            assert forall|c: MobClass|
                is_within(
                    #[trigger] spec_cap_of(classes, c),
                    count_picked_class(
                        picks,
                        eligible@,
                        mobs@,
                        spec_class_index(c),
                        picks.len() as int,
                    ),
                ) by {
                assert(counts_of(class_ctr@)[spec_class_index(c)] == count_picked_class(
                    picks,
                    eligible@,
                    mobs@,
                    spec_class_index(c),
                    i as int,
                ));
                assert(is_within(spec_cap_of(classes, c), counts_of(class_ctr@)[spec_class_index(c)] as int));
            }
            assert forall|key: u64| #[trigger] table@.contains_key(key) implies stands_on_tile(
                *map,
                key,
            ) by {
                lemma_records_keys(picks, rolled, i as int, key);
                let k = choose|k: int| 0 <= k < i && is_key_of(#[trigger] rolled[k], key);
                assert(is_placed(
                    picks[k],
                    rolled[k],
                    map.at(coords@[k].1 as int, coords@[k].0 as int).mobs,
                    old(map).at(coords@[k].1 as int, coords@[k].0 as int).mobs,
                    mobs@,
                    eligible@,
                ));
                assert(map.in_bounds(coords@[k].1 as int, coords@[k].0 as int));
                assert(map.at(coords@[k].1 as int, coords@[k].0 as int).mobs == Some(key));
            }
            assert(is_settlement(
                coords@,
                picks,
                rolled,
                *old(map),
                *map,
                table@,
                mobs@,
                classes,
                targets_of(field@),
            ));
            if distinct_ids(mobs@) {
                assert forall|c: MobClass|
                    is_within(
                        #[trigger] spec_cap_of(classes, c),
                        count_where(table@, of_class(mobs@, c)) as int,
                    ) by {
                    assert(count_where(table@, of_class(mobs@, c)) <= counts_of(class_ctr@)[spec_class_index(
                        c,
                    )]);
                    assert(is_within(spec_cap_of(classes, c), counts_of(class_ctr@)[spec_class_index(c)] as int));
                }
            }
        }
        table
    }
}

} // verus!
