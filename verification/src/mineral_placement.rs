//! Placement of materials: every cell gets a stone of the allowed kind, as
//! rare as a noise field asks for and at home among its neighbours.

use vstd::prelude::*;
use rand::rngs::StdRng;
use std::collections::HashMap;
use crate::dun_s2::{is_before, DungeonS2};
use crate::items::ItemType;
use crate::material::{contains_name, has_name, MaterialClass, MaterialInfo, StoneType};
use crate::random::{choose_weighted, lemma_total_weight_bound, lemma_total_weight_positive};
use crate::utils::{get_all_neighbors, lemma_neighbors_in_bounds, spec_neighbors, NoiseAlgorithm};
use crate::value::Value;

verus! {

broadcast use vstd::std_specs::hash::group_hash_axioms;

/// Configuration of the pass.
#[derive(Copy, Clone, Debug)]
pub struct MineralPlacementOptions {
    /// The exponent that the noise is raised to, in thousandths. A larger
    /// one gathers the rare materials in fewer and tighter patches.
    pub noise_exponent: u32,
    /// The kind of stone that the layer is made of.
    pub allowed_stone: StoneType,
    pub noise_algorithm: NoiseAlgorithm,
    pub noise_overlap: usize,
    pub noise_seed: Value<u32>,
}

/// The weight of a material that none of the neighbours speaks for or
/// against. Weights are held in billionths.
pub const AFFINITY_ONE: u128 = 1_000_000_000;

/// Whether a material can stand in a layer of the given stone: it is a stone
/// of that kind and occurs in nature as a block.
pub open spec fn is_candidate(m: MaterialInfo, allowed: StoneType) -> bool {
    &&& m.occurs_as(ItemType::Block)
    &&& m.class matches MaterialClass::Stone(info)
    &&& info.stone_type == allowed
}

/// The names on the eight cells around `(x, y)`.
pub open spec fn names_around(
    names: Seq<Seq<Seq<char>>>,
    width: int,
    height: int,
    x: int,
    y: int,
) -> Seq<Seq<char>> {
    Seq::new(
        8,
        |k: int|
            {
                let c = spec_neighbors(width, height, x, y)[k];
                names[c.0][c.1]
            },
    )
}

/// The names on the eight cells around `(x, y)` as the pass finds them when
/// it comes to that cell: it takes the cells row by row, so the cells before
/// `(x, y)` hold what the pass gave them and the others what they held
/// before the pass.
pub open spec fn names_around_when(
    before: Seq<Seq<Seq<char>>>,
    after: Seq<Seq<Seq<char>>>,
    width: int,
    height: int,
    x: int,
    y: int,
) -> Seq<Seq<char>> {
    Seq::new(
        8,
        |k: int|
            {
                let c = spec_neighbors(width, height, x, y)[k];
                if is_before(c.1, c.0, x, y) {
                    after[c.0][c.1]
                } else {
                    before[c.0][c.1]
                }
            },
    )
}

/// Whether the material is at home among the given neighbours: it is found
/// anywhere, or one of the neighbours is of a material that it is found
/// near, or of the same material.
pub open spec fn has_kin(m: MaterialInfo, around: Seq<Seq<char>>) -> bool {
    match m.spec_found_near() {
        Some(list) => list.len() == 0 || exists|k: int|
            0 <= k < around.len() && (has_name(list, #[trigger] around[k]) || around[k] == m.name@),
        None => true,
    }
}

/// Whether the material can be placed at the given rarity among the given
/// neighbours.
pub open spec fn qualifies(
    m: MaterialInfo,
    allowed: StoneType,
    rarity: int,
    around: Seq<Seq<char>>,
) -> bool {
    is_candidate(m, allowed) && m.rarity == rarity && has_kin(m, around)
}

/// Whether some material of the catalogue can be placed at the given rarity.
pub open spec fn bucket_qualifies(
    catalog: Seq<MaterialInfo>,
    allowed: StoneType,
    rarity: int,
    around: Seq<Seq<char>>,
) -> bool {
    exists|i: int| 0 <= i < catalog.len() && qualifies(#[trigger] catalog[i], allowed, rarity, around)
}

/// Whether `rarity` is what the pass settles on for a cell whose noise asks
/// for `target`: the rarity nearest to the target from below at which some
/// material can be placed.
pub open spec fn is_settled_rarity(
    catalog: Seq<MaterialInfo>,
    allowed: StoneType,
    around: Seq<Seq<char>>,
    target: int,
    rarity: int,
) -> bool {
    &&& 0 <= rarity <= target
    &&& bucket_qualifies(catalog, allowed, rarity, around)
    &&& forall|u: int|
        rarity < u <= target ==> !#[trigger] bucket_qualifies(catalog, allowed, u, around)
}

/// Whether the material at index `i` is one that the pass may place on a
/// cell with the given neighbours and target.
pub open spec fn may_choose(
    catalog: Seq<MaterialInfo>,
    allowed: StoneType,
    around: Seq<Seq<char>>,
    target: int,
    i: int,
) -> bool {
    &&& 0 <= i < catalog.len()
    &&& is_settled_rarity(catalog, allowed, around, target, catalog[i].rarity as int)
    &&& qualifies(catalog[i], allowed, catalog[i].rarity as int, around)
}

/// Whether `name` is the name of a material that the pass may place on a
/// cell with the given neighbours and target.
pub open spec fn may_place(
    catalog: Seq<MaterialInfo>,
    allowed: StoneType,
    around: Seq<Seq<char>>,
    target: int,
    name: Seq<char>,
) -> bool {
    exists|i: int| #[trigger]
        may_choose(catalog, allowed, around, target, i) && catalog[i].name@ == name
}

/// Whether the material is found near the material of the given name.
pub open spec fn is_found_near(m: MaterialInfo, name: Seq<char>) -> bool {
    match m.spec_found_near() {
        Some(list) => has_name(list, name),
        None => false,
    }
}

/// Whether the material is a stone that is found anywhere.
pub open spec fn is_found_anywhere(m: MaterialInfo) -> bool {
    match m.spec_found_near() {
        Some(list) => list.len() == 0,
        None => false,
    }
}

/// Whether the material is one to fall back on: a candidate of rarity
/// nought that is found anywhere.
pub open spec fn is_fallback(m: MaterialInfo, allowed: StoneType) -> bool {
    is_candidate(m, allowed) && m.rarity == 0 && is_found_anywhere(m)
}

/// Whether the catalogue has a material to fall back on.
pub open spec fn has_fallback(catalog: Seq<MaterialInfo>, allowed: StoneType) -> bool {
    exists|i: int| 0 <= i < catalog.len() && is_fallback(#[trigger] catalog[i], allowed)
}

/// The targets, row by row.
pub open spec fn targets_of(field: Seq<Vec<u8>>) -> Seq<Seq<u8>> {
    Seq::new(field.len(), |y: int| field[y]@)
}

/// Whether `after` is what a pass can make of the names `before`: every
/// cell holds the name of a material that the pass may place there, given
/// the names around the cell as the pass found them.
pub open spec fn is_placement(
    before: Seq<Seq<Seq<char>>>,
    after: Seq<Seq<Seq<char>>>,
    catalog: Seq<MaterialInfo>,
    allowed: StoneType,
    targets: Seq<Seq<u8>>,
    width: int,
    height: int,
) -> bool {
    forall|x: int, y: int|
        0 <= x < width && 0 <= y < height ==> may_place(
            catalog,
            allowed,
            names_around_when(before, after, width, height, x, y),
            targets[y][x] as int,
            #[trigger] after[y][x],
        )
}

/// The weight of a material among the first `upto` of the given neighbours:
/// it starts at one, grows by the factor 2.6 for every neighbour of the same
/// material, and shrinks by the factor 1.9 for every other neighbour as long
/// as it is above two fifths. The weight is held in billionths and rounded
/// down at every step.
pub open spec fn spec_affinity(around: Seq<Seq<char>>, name: Seq<char>, upto: int) -> int
    decreases upto,
{
    if upto <= 0 {
        AFFINITY_ONE as int
    } else {
        let p = spec_affinity(around, name, upto - 1);
        if around[upto - 1] == name {
            p * 13 / 5
        } else if p * 5 > AFFINITY_ONE * 2 {
            p * 10 / 19
        } else {
            p
        }
    }
}

/// Three to the power of `k`.
pub open spec fn pow3(k: nat) -> int
    decreases k,
{
    if k == 0 {
        1
    } else {
        3 * pow3((k - 1) as nat)
    }
}

/// Every neighbourhood of a candidate that is placed holds a neighbour of
/// its kin that the pass itself has placed, provided that no candidate is
/// kin to a name that stood on the map before the pass: the material on
/// every cell is a stone of the allowed kind, and if it is not found
/// anywhere, one of the eight cells around it holds a material that it is
/// found near, or the same material.
#[verifier::rlimit(50)]
pub proof fn lemma_placed_among_kin(
    before: Seq<Seq<Seq<char>>>,
    after: Seq<Seq<Seq<char>>>,
    catalog: Seq<MaterialInfo>,
    allowed: StoneType,
    targets: Seq<Seq<u8>>,
    width: int,
    height: int,
    x: int,
    y: int,
)
    requires
        is_placement(before, after, catalog, allowed, targets, width, height),
        0 <= x < width,
        0 <= y < height,
        forall|i: int, a: int, b: int|
            0 <= i < catalog.len() && 0 <= a < width && 0 <= b < height && is_candidate(
                #[trigger] catalog[i],
                allowed,
            ) ==> catalog[i].name@ != #[trigger] before[b][a] && !is_found_near(
                catalog[i],
                before[b][a],
            ),
    ensures
        exists|i: int|
            0 <= i < catalog.len() && is_candidate(#[trigger] catalog[i], allowed)
                && catalog[i].name@ == after[y][x] && has_kin(
                catalog[i],
                names_around(after, width, height, x, y),
            ),
{
    let around = names_around_when(before, after, width, height, x, y);
    let target = targets[y][x] as int;
    assert(may_place(catalog, allowed, around, target, after[y][x]));
    let i = choose|i: int| #[trigger]
        may_choose(catalog, allowed, around, target, i) && catalog[i].name@ == after[y][x];
    let m = catalog[i];
    let list = m.spec_found_near()->0;
    lemma_neighbors_in_bounds(width, height, x, y);
    if list.len() > 0 {
        let k = choose|k: int|
            0 <= k < around.len() && (has_name(list, #[trigger] around[k]) || around[k] == m.name@);
        let c = spec_neighbors(width, height, x, y)[k];
        assert(0 <= c.0 < height && 0 <= c.1 < width);
        if !is_before(c.1, c.0, x, y) {
            assert(around[k] == before[c.0][c.1]);
            assert(false);
        }
        let final_around = names_around(after, width, height, x, y);
        assert(final_around[k] == after[c.0][c.1]);
        assert(has_name(list, final_around[k]) || final_around[k] == m.name@);
    }
}

/// Lists the candidates of a catalogue by their index, in the order of the
/// catalogue.
pub fn candidates(materials: &Vec<MaterialInfo>, allowed: StoneType) -> (list: Vec<usize>)
    ensures
        forall|k: int|
            0 <= k < list@.len() ==> (#[trigger] list@[k]) < materials@.len() && is_candidate(
                materials@[list@[k] as int],
                allowed,
            ),
        forall|i: int|
            0 <= i < materials@.len() && is_candidate(materials@[i], allowed) ==> list@.contains(
                i as usize,
            ),
        forall|j: int, k: int| 0 <= j < k < list@.len() ==> list@[j] < list@[k],
{
    let mut list: Vec<usize> = Vec::new();
    let mut i: usize = 0;
    while i < materials.len()
        invariant
            i <= materials.len(),
            forall|k: int|
                0 <= k < list@.len() ==> (#[trigger] list@[k]) < materials@.len() && is_candidate(
                    materials@[list@[k] as int],
                    allowed,
                ),
            forall|j: int|
                0 <= j < i && is_candidate(materials@[j], allowed) ==> list@.contains(j as usize),
            forall|k: int| 0 <= k < list@.len() ==> (#[trigger] list@[k]) < i,
            forall|j: int, k: int| 0 <= j < k < list@.len() ==> list@[j] < list@[k],
        decreases materials.len() - i,
    {
        let m = &materials[i];
        let stone: bool = match &m.class {
            MaterialClass::Stone(info) => info.stone_type == allowed,
            _ => false,
        };
        if stone && m.occurs_naturally_as(ItemType::Block) {
            let ghost before = list@;
            list.push(i);
            assert forall|j: int|
                0 <= j < i + 1 && is_candidate(materials@[j], allowed) implies list@.contains(
                j as usize,
            ) by {
                if j == i {
                    assert(list@[before.len() as int] == i);
                } else {
                    assert(before.contains(j as usize));
                    let k = choose|k: int| 0 <= k < before.len() && before[k] == j as usize;
                    assert(list@[k] == before[k]);
                }
            }
        }
        i = i + 1;
    }
    list
}

/// Tests whether the catalogue has a material to fall back on.
pub fn has_fallback_material(materials: &Vec<MaterialInfo>, allowed: StoneType) -> (b: bool)
    ensures
        b == has_fallback(materials@, allowed),
{
    let mut i: usize = 0;
    while i < materials.len()
        invariant
            i <= materials.len(),
            forall|j: int| 0 <= j < i ==> !is_fallback(#[trigger] materials@[j], allowed),
        decreases materials.len() - i,
    {
        let m = &materials[i];
        let free: bool = match &m.class {
            MaterialClass::Stone(info) => info.stone_type == allowed && info.found_near.len() == 0,
            _ => false,
        };
        if free && m.rarity == 0 && m.occurs_naturally_as(ItemType::Block) {
            return true;
        }
        i = i + 1;
    }
    false
}

/// Tests whether the material is at home on the cell `(x, y)` of the map.
#[verifier::rlimit(50)]
pub fn at_home(map: &DungeonS2, x: usize, y: usize, m: &MaterialInfo) -> (b: bool)
    requires
        map.wf(),
        x < map.width,
        y < map.height,
    ensures
        b == has_kin(
            *m,
            names_around(map.materials(), map.width as int, map.height as int, x as int, y as int),
        ),
{
    let ghost around = names_around(
        map.materials(),
        map.width as int,
        map.height as int,
        x as int,
        y as int,
    );
    match &m.class {
        MaterialClass::Stone(info) => {
            if info.found_near.len() == 0 {
                return true;
            }
            let cells: [(usize, usize); 8] = get_all_neighbors(map.width, map.height, x, y);
            proof {
                lemma_neighbors_in_bounds(
                    map.width as int,
                    map.height as int,
                    x as int,
                    y as int,
                );
            }
            let mut k: usize = 0;
            while k < 8
                invariant
                    map.wf(),
                    k <= 8,
                    around == names_around(
                        map.materials(),
                        map.width as int,
                        map.height as int,
                        x as int,
                        y as int,
                    ),
                    m.class == MaterialClass::Stone(*info),
                    cells@.len() == 8,
                    forall|j: int|
                        0 <= j < 8 ==> (#[trigger] cells@[j]).0 == spec_neighbors(
                            map.width as int,
                            map.height as int,
                            x as int,
                            y as int,
                        )[j].0 && cells@[j].1 == spec_neighbors(
                            map.width as int,
                            map.height as int,
                            x as int,
                            y as int,
                        )[j].1 && cells@[j].0 < map.height && cells@[j].1 < map.width,
                    forall|j: int|
                        0 <= j < k ==> !(has_name(
                            crate::material::names_of(info.found_near@),
                            #[trigger] around[j],
                        ) || around[j] == m.name@),
                decreases 8 - k,
            {
                let c: (usize, usize) = cells[k];
                assert(c == cells@[k as int]);
                let name: &String = &map.d[c.0][c.1].tile_material;
                assert(name@ == around[k as int]);
                if contains_name(&info.found_near, name) || *name == m.name {
                    return true;
                }
                k = k + 1;
            }
            false
        },
        _ => true,
    }
}

/// The weight of a material of the given name on the cell `(x, y)`.
#[verifier::rlimit(50)]
pub fn affinity(map: &DungeonS2, x: usize, y: usize, name: &String) -> (weight: u128)
    requires
        map.wf(),
        x < map.width,
        y < map.height,
    ensures
        weight == spec_affinity(
            names_around(map.materials(), map.width as int, map.height as int, x as int, y as int),
            name@,
            8,
        ),
        1 <= weight <= AFFINITY_ONE * 6561,
{
    let ghost around = names_around(
        map.materials(),
        map.width as int,
        map.height as int,
        x as int,
        y as int,
    );
    let cells: [(usize, usize); 8] = get_all_neighbors(map.width, map.height, x, y);
    proof {
        lemma_neighbors_in_bounds(map.width as int, map.height as int, x as int, y as int);
    }
    let mut p: u128 = AFFINITY_ONE;
    let mut k: usize = 0;
    while k < 8
        invariant
            map.wf(),
            k <= 8,
            around == names_around(
                map.materials(),
                map.width as int,
                map.height as int,
                x as int,
                y as int,
            ),
            cells@.len() == 8,
            forall|j: int|
                0 <= j < 8 ==> (#[trigger] cells@[j]).0 == spec_neighbors(
                    map.width as int,
                    map.height as int,
                    x as int,
                    y as int,
                )[j].0 && cells@[j].1 == spec_neighbors(
                    map.width as int,
                    map.height as int,
                    x as int,
                    y as int,
                )[j].1 && cells@[j].0 < map.height && cells@[j].1 < map.width,
            p == spec_affinity(around, name@, k as int),
            1 <= p <= AFFINITY_ONE * pow3(k as nat),
            pow3(k as nat) <= 6561,
        decreases 8 - k,
    {
        let c: (usize, usize) = cells[k];
        assert(c == cells@[k as int]);
        let other: &String = &map.d[c.0][c.1].tile_material;
        assert(other@ == around[k as int]);
        proof {
            reveal_with_fuel(pow3, 10);
            assert(pow3((k + 1) as nat) == 3 * pow3(k as nat));
            assert(pow3((k + 1) as nat) <= 6561);
        }
        if *other == *name {
            p = p * 13 / 5;
        } else if p * 5 > AFFINITY_ONE * 2 {
            p = p * 10 / 19;
        }
        k = k + 1;
    }
    proof {
        reveal_with_fuel(pow3, 10);
    }
    p
}

/// Whether `list` holds, by their index, candidates of the given rarity
/// and nothing else, in the order of the catalogue.
pub open spec fn is_bucket_of(
    materials: Seq<MaterialInfo>,
    allowed: StoneType,
    rarity: int,
    list: Seq<usize>,
) -> bool {
    &&& forall|k: int|
        0 <= k < list.len() ==> (#[trigger] list[k]) < materials.len() && is_candidate(
            materials[list[k] as int],
            allowed,
        ) && materials[list[k] as int].rarity == rarity
    &&& forall|j: int, k: int| 0 <= j < k < list.len() ==> list[j] < list[k]
}

/// Whether the map holds the candidates of the catalogue by their rarity:
/// under every rarity that a candidate has stand, by their index, the
/// candidates of that rarity, all of them and nothing else, in the order of
/// the catalogue.
pub open spec fn is_bucketing(
    buckets: Map<usize, Vec<usize>>,
    materials: Seq<MaterialInfo>,
    allowed: StoneType,
) -> bool {
    &&& forall|r: usize| #[trigger]
        buckets.contains_key(r) ==> is_bucket_of(materials, allowed, r as int, buckets[r]@)
    &&& forall|i: int|
        0 <= i < materials.len() && is_candidate(#[trigger] materials[i], allowed)
            ==> buckets.contains_key(materials[i].rarity as usize)
            && buckets[materials[i].rarity as usize]@.contains(i as usize)
}

/// Arranges the candidates of a catalogue by their rarity.
pub fn by_rarity(materials: &Vec<MaterialInfo>, allowed: StoneType) -> (buckets: HashMap<
    usize,
    Vec<usize>,
>)
    ensures
        is_bucketing(buckets@, materials@, allowed),
{
    let pool: Vec<usize> = candidates(materials, allowed);
    let total: usize = materials.len();
    let mut mats: HashMap<usize, Vec<usize>> = HashMap::new();
    let mut k: usize = 0;
    while k < pool.len()
        invariant
            k <= pool.len(),
            forall|j: int|
                0 <= j < pool@.len() ==> (#[trigger] pool@[j]) < materials@.len() && is_candidate(
                    materials@[pool@[j] as int],
                    allowed,
                ),
            forall|a: int, b: int| 0 <= a < b < pool@.len() ==> pool@[a] < pool@[b],
            forall|r: usize, q: int|
                #![trigger mats@[r]@[q]]
                mats@.contains_key(r) && 0 <= q < mats@[r]@.len() && k < pool@.len() ==> mats@[r]@[q]
                    < pool@[k as int],
            forall|r: usize| #[trigger]
                mats@.contains_key(r) ==> is_bucket_of(materials@, allowed, r as int, mats@[r]@),
            forall|j: int|
                0 <= j < k ==> mats@.contains_key(
                    materials@[(#[trigger] pool@[j]) as int].rarity as usize,
                ) && mats@[materials@[pool@[j] as int].rarity as usize]@.contains(pool@[j]),
        decreases pool.len() - k,
    {
        let i: usize = pool[k];
        let rarity: usize = materials[i].rarity as usize;
        let ghost before = mats@;
        let mut list: Vec<usize> = match mats.remove(&rarity) {
            Some(list) => list,
            None => Vec::new(),
        };
        let ghost was = list@;
        assert(is_bucket_of(materials@, allowed, rarity as int, was));
        assert forall|q: int| 0 <= q < was.len() implies was[q] < i by {
            assert(before.contains_key(rarity) && before[rarity]@[q] == was[q]);
        }
        list.push(i);
        let ghost now = list@;
        mats.insert(rarity, list);
        proof {
            assert(mats@ == before.remove(rarity).insert(rarity, mats@[rarity]));
            assert(mats@[rarity]@ == now);
            assert forall|r: usize| #[trigger] mats@.contains_key(r) implies is_bucket_of(
                materials@,
                allowed,
                r as int,
                mats@[r]@,
            ) by {
                if r == rarity {
                    assert forall|q: int| 0 <= q < now.len() implies (#[trigger] now[q])
                        < materials@.len() && is_candidate(materials@[now[q] as int], allowed)
                        && materials@[now[q] as int].rarity == r as int by {
                        if q < was.len() {
                            assert(now[q] == was[q]);
                        }
                    }
                    assert forall|p: int, q: int| 0 <= p < q < now.len() implies now[p]
                        < now[q] by {
                        assert(now[p] == was[p]);
                        if q < was.len() {
                            assert(now[q] == was[q]);
                        }
                    }
                } else {
                    assert(before.contains_key(r) && mats@[r] == before[r]);
                }
            }
            assert forall|r: usize, q: int|
                #![trigger mats@[r]@[q]]
                mats@.contains_key(r) && 0 <= q < mats@[r]@.len() && k + 1
                    < pool@.len() implies mats@[r]@[q] < pool@[k + 1] by {
                assert(pool@[k as int] < pool@[k + 1]);
                if r == rarity {
                    if q < was.len() {
                        assert(now[q] == was[q]);
                    }
                } else {
                    assert(before.contains_key(r) && mats@[r] == before[r]);
                    assert(before[r]@[q] < pool@[k as int]);
                }
            }
            assert forall|j: int| 0 <= j < k + 1 implies mats@.contains_key(
                materials@[(#[trigger] pool@[j]) as int].rarity as usize,
            ) && mats@[materials@[pool@[j] as int].rarity as usize]@.contains(pool@[j]) by {
                let r = materials@[pool@[j] as int].rarity as usize;
                if j == k {
                    assert(now[was.len() as int] == i);
                } else if r == rarity {
                    assert(before.contains_key(r) && before[r]@ == was);
                    assert(was.contains(pool@[j]));
                    let q = choose|q: int| 0 <= q < was.len() && was[q] == pool@[j];
                    assert(now[q] == was[q]);
                } else {
                    assert(mats@[r] == before[r]);
                }
            }
        }
        k = k + 1;
    }
    proof {
        assert forall|i: int|
            0 <= i < materials@.len() && is_candidate(
                #[trigger] materials@[i],
                allowed,
            ) implies mats@.contains_key(materials@[i].rarity as usize)
            && mats@[materials@[i].rarity as usize]@.contains(i as usize) by {
            assert(0 <= i < total);
            assert(pool@.contains(i as usize));
            let j = choose|j: int| 0 <= j < pool@.len() && pool@[j] == i as usize;
            assert(pool@[j] as int == i);
        }
    }
    mats
}

/// Lists those materials of a bucket that are at home on the cell `(x, y)`,
/// in the order of the bucket.
fn at_home_among(
    map: &DungeonS2,
    materials: &Vec<MaterialInfo>,
    bucket: &Vec<usize>,
    allowed: StoneType,
    x: usize,
    y: usize,
    rarity: u8,
) -> (list: Vec<usize>)
    requires
        map.wf(),
        x < map.width,
        y < map.height,
        is_bucket_of(materials@, allowed, rarity as int, bucket@),
    ensures
        forall|k: int|
            0 <= k < list@.len() ==> (#[trigger] list@[k]) < materials@.len() && qualifies(
                materials@[list@[k] as int],
                allowed,
                rarity as int,
                names_around(
                    map.materials(),
                    map.width as int,
                    map.height as int,
                    x as int,
                    y as int,
                ),
            ),
        forall|j: int|
            0 <= j < bucket@.len() && qualifies(
                materials@[(#[trigger] bucket@[j]) as int],
                allowed,
                rarity as int,
                names_around(
                    map.materials(),
                    map.width as int,
                    map.height as int,
                    x as int,
                    y as int,
                ),
            ) ==> list@.contains(bucket@[j]),
        forall|j: int, k: int| 0 <= j < k < list@.len() ==> list@[j] < list@[k],
{
    let ghost around = names_around(
        map.materials(),
        map.width as int,
        map.height as int,
        x as int,
        y as int,
    );
    let mut list: Vec<usize> = Vec::new();
    let mut k: usize = 0;
    while k < bucket.len()
        invariant
            map.wf(),
            x < map.width,
            y < map.height,
            k <= bucket.len(),
            around == names_around(
                map.materials(),
                map.width as int,
                map.height as int,
                x as int,
                y as int,
            ),
            is_bucket_of(materials@, allowed, rarity as int, bucket@),
            forall|j: int|
                0 <= j < list@.len() ==> (#[trigger] list@[j]) < materials@.len() && qualifies(
                    materials@[list@[j] as int],
                    allowed,
                    rarity as int,
                    around,
                ),
            forall|j: int|
                0 <= j < k && qualifies(
                    materials@[(#[trigger] bucket@[j]) as int],
                    allowed,
                    rarity as int,
                    around,
                ) ==> list@.contains(bucket@[j]),
            forall|j: int, q: int| 0 <= j < q < list@.len() ==> list@[j] < list@[q],
            forall|j: int|
                0 <= j < list@.len() && k < bucket@.len() ==> (#[trigger] list@[j]) < bucket@[k as int],
        decreases bucket.len() - k,
    {
        let i: usize = bucket[k];
        assert(bucket@[k as int] < materials@.len());
        let m = &materials[i];
        let ghost before = list@;
        if at_home(map, x, y, m) {
            list.push(i);
        }
        proof {
            assert forall|j: int|
                0 <= j < k + 1 && qualifies(
                    materials@[(#[trigger] bucket@[j]) as int],
                    allowed,
                    rarity as int,
                    around,
                ) implies list@.contains(bucket@[j]) by {
                if j == k {
                    assert(list@[before.len() as int] == i);
                } else {
                    assert(before.contains(bucket@[j]));
                    let q = choose|q: int| 0 <= q < before.len() && before[q] == bucket@[j];
                    assert(list@[q] == before[q]);
                }
            }
            assert forall|j: int|
                0 <= j < list@.len() && k + 1 < bucket@.len() implies (#[trigger] list@[j])
                < bucket@[k + 1] by {
                assert(bucket@[k as int] < bucket@[k + 1]);
                if j < before.len() {
                    assert(list@[j] == before[j]);
                }
            }
            assert forall|j: int, q: int| 0 <= j < q < list@.len() implies list@[j] < list@[q] by {
                assert(list@[j] == before[j]);
                if q < before.len() {
                    assert(list@[q] == before[q]);
                }
            }
        }
        k = k + 1;
    }
    list
}

/// The pass: a configuration that can be run on any level.
#[derive(Copy, Clone, Debug)]
pub struct MineralPlacer {
    pub options: MineralPlacementOptions,
}

impl MineralPlacer {
    pub fn new(options: MineralPlacementOptions) -> (p: MineralPlacer)
        ensures
            p.options == options,
    {
        MineralPlacer { options }
    }

    /// Lists, by their index and in the order of the catalogue, the
    /// materials of the given rarity that can be placed on the cell
    /// `(x, y)`.
    #[verifier::rlimit(50)]
    pub fn qualifying(
        &self,
        map: &DungeonS2,
        materials: &Vec<MaterialInfo>,
        buckets: &HashMap<usize, Vec<usize>>,
        x: usize,
        y: usize,
        rarity: u8,
    ) -> (list: Vec<usize>)
        requires
            map.wf(),
            x < map.width,
            y < map.height,
            is_bucketing(buckets@, materials@, self.options.allowed_stone),
        ensures
            forall|k: int|
                0 <= k < list@.len() ==> (#[trigger] list@[k]) < materials@.len() && qualifies(
                    materials@[list@[k] as int],
                    self.options.allowed_stone,
                    rarity as int,
                    names_around(
                        map.materials(),
                        map.width as int,
                        map.height as int,
                        x as int,
                        y as int,
                    ),
                ),
            forall|i: int|
                0 <= i < materials@.len() && qualifies(
                    #[trigger] materials@[i],
                    self.options.allowed_stone,
                    rarity as int,
                    names_around(
                        map.materials(),
                        map.width as int,
                        map.height as int,
                        x as int,
                        y as int,
                    ),
                ) ==> list@.contains(i as usize),
            forall|j: int, k: int| 0 <= j < k < list@.len() ==> list@[j] < list@[k],
            list@.len() > 0 <==> bucket_qualifies(
                materials@,
                self.options.allowed_stone,
                rarity as int,
                names_around(
                    map.materials(),
                    map.width as int,
                    map.height as int,
                    x as int,
                    y as int,
                ),
            ),
    {
        let ghost around = names_around(
            map.materials(),
            map.width as int,
            map.height as int,
            x as int,
            y as int,
        );
        let ghost allowed = self.options.allowed_stone;
        let total: usize = materials.len();
        let key: usize = rarity as usize;
        match buckets.get(&key) {
            Some(bucket) => {
                assert(buckets@.contains_key(key) && buckets@[key] == *bucket);
                let list: Vec<usize> = at_home_among(
                    map,
                    materials,
                    bucket,
                    self.options.allowed_stone,
                    x,
                    y,
                    rarity,
                );
                proof {
                    assert forall|i: int|
                        0 <= i < materials@.len() && qualifies(
                            #[trigger] materials@[i],
                            allowed,
                            rarity as int,
                            around,
                        ) implies list@.contains(i as usize) by {
                        assert(0 <= i < total);
                        assert(bucket@.contains(i as usize));
                        let j = choose|j: int| 0 <= j < bucket@.len() && bucket@[j] == i as usize;
                        assert(bucket@[j] as int == i);
                    }
                    if list@.len() > 0 {
                        assert(qualifies(
                            materials@[list@[0] as int],
                            allowed,
                            rarity as int,
                            around,
                        ));
                    } else if bucket_qualifies(materials@, allowed, rarity as int, around) {
                        let i = choose|i: int|
                            0 <= i < materials@.len() && qualifies(
                                #[trigger] materials@[i],
                                allowed,
                                rarity as int,
                                around,
                            );
                        assert(list@.contains(i as usize));
                    }
                }
                list
            },
            None => {
                proof {
                    assert(!buckets@.contains_key(key));
                    assert forall|i: int|
                        0 <= i < materials@.len() implies !qualifies(
                        #[trigger] materials@[i],
                        allowed,
                        rarity as int,
                        around,
                    ) by {
                        if is_candidate(materials@[i], allowed) {
                            assert(buckets@.contains_key(materials@[i].rarity as usize));
                        }
                    }
                }
                Vec::new()
            },
        }
    }

    /// Settles on a rarity for the cell `(x, y)`: lowers the target until
    /// some material can be placed, and lists the materials that can, by
    /// their index and in the order of the catalogue.
    #[verifier::rlimit(50)]
    pub fn settle(
        &self,
        map: &DungeonS2,
        materials: &Vec<MaterialInfo>,
        buckets: &HashMap<usize, Vec<usize>>,
        x: usize,
        y: usize,
        target: u8,
    ) -> (list: Vec<usize>)
        requires
            map.wf(),
            x < map.width,
            y < map.height,
            has_fallback(materials@, self.options.allowed_stone),
            is_bucketing(buckets@, materials@, self.options.allowed_stone),
        ensures
            list@.len() > 0,
            forall|k: int|
                0 <= k < list@.len() ==> may_choose(
                    materials@,
                    self.options.allowed_stone,
                    names_around(
                        map.materials(),
                        map.width as int,
                        map.height as int,
                        x as int,
                        y as int,
                    ),
                    target as int,
                    (#[trigger] list@[k]) as int,
                ),
            forall|i: int| #[trigger]
                may_choose(
                    materials@,
                    self.options.allowed_stone,
                    names_around(
                        map.materials(),
                        map.width as int,
                        map.height as int,
                        x as int,
                        y as int,
                    ),
                    target as int,
                    i,
                ) ==> list@.contains(i as usize),
            forall|j: int, k: int| 0 <= j < k < list@.len() ==> list@[j] < list@[k],
    {
        let ghost around = names_around(
            map.materials(),
            map.width as int,
            map.height as int,
            x as int,
            y as int,
        );
        let ghost allowed = self.options.allowed_stone;
        let mut value: u8 = target;
        loop
            invariant
                map.wf(),
                x < map.width,
                y < map.height,
                value <= target,
                allowed == self.options.allowed_stone,
                around == names_around(
                    map.materials(),
                    map.width as int,
                    map.height as int,
                    x as int,
                    y as int,
                ),
                has_fallback(materials@, allowed),
                is_bucketing(buckets@, materials@, allowed),
                forall|u: int|
                    value < u <= target ==> !#[trigger] bucket_qualifies(
                        materials@,
                        allowed,
                        u,
                        around,
                    ),
            decreases value,
        {
            let list: Vec<usize> = self.qualifying(map, materials, buckets, x, y, value);
            if list.len() > 0 {
                proof {
                    assert(is_settled_rarity(materials@, allowed, around, target as int, value as int));
                    assert forall|k: int| 0 <= k < list@.len() implies may_choose(
                        materials@,
                        allowed,
                        around,
                        target as int,
                        (#[trigger] list@[k]) as int,
                    ) by {
                        assert(qualifies(
                            materials@[list@[k] as int],
                            allowed,
                            value as int,
                            around,
                        ));
                    }
                    assert forall|i: int| #[trigger]
                        may_choose(materials@, allowed, around, target as int, i) implies list@.contains(
                        i as usize,
                    ) by {
                        let r = materials@[i].rarity as int;
                        assert(bucket_qualifies(materials@, allowed, r, around));
                        assert(bucket_qualifies(materials@, allowed, value as int, around));
                        assert(r == value);
                    }
                }
                return list;
            }
            proof {
                if value == 0 {
                    let i = choose|i: int|
                        0 <= i < materials@.len() && is_fallback(#[trigger] materials@[i], allowed);
                    assert(qualifies(materials@[i], allowed, 0, around));
                    assert(false);
                }
            }
            value = value - 1;
        }
    }

    /// Gives every cell of the map a material of the catalogue. The target
    /// rarity of a cell comes from `field`, which holds for every cell the
    /// strength of the noise there, from nought to 255. Among the materials
    /// that can be placed, one is drawn; a material that many of the cells
    /// around already hold is the more likely to come out.
    #[verifier::rlimit(50)]
    pub fn generate(
        &self,
        map: &mut DungeonS2,
        rng: &mut StdRng,
        materials: &Vec<MaterialInfo>,
        field: &Vec<Vec<u8>>,
    )
        requires
            old(map).wf(),
            has_fallback(materials@, self.options.allowed_stone),
            field@.len() == old(map).height,
            forall|y: int| 0 <= y < field@.len() ==> (#[trigger] field@[y])@.len() == old(map).width,
        ensures
            final(map).wf(),
            final(map).same_layout(old(map)),
            final(map).mobs() == old(map).mobs(),
            is_placement(
                old(map).materials(),
                final(map).materials(),
                materials@,
                self.options.allowed_stone,
                targets_of(field@),
                old(map).width as int,
                old(map).height as int,
            ),
    {
        let width: usize = map.width;
        let height: usize = map.height;
        let ghost allowed = self.options.allowed_stone;
        let ghost before = map.materials();
        let ghost targets = targets_of(field@);
        let buckets: HashMap<usize, Vec<usize>> = by_rarity(materials, self.options.allowed_stone);
        let mut y: usize = 0;
        while y < height
            invariant
                y <= height,
                map.wf(),
                width == map.width,
                height == map.height,
                map.same_layout(old(map)),
                map.mobs() == old(map).mobs(),
                allowed == self.options.allowed_stone,
                before == old(map).materials(),
                targets == targets_of(field@),
                has_fallback(materials@, allowed),
                field@.len() == height,
                forall|j: int| 0 <= j < field@.len() ==> (#[trigger] field@[j])@.len() == width,
                is_bucketing(buckets@, materials@, allowed),
                forall|i: int, j: int|
                    0 <= i < width && 0 <= j < height && !is_before(i, j, 0, y as int)
                        ==> #[trigger] map.materials()[j][i] == before[j][i],
                forall|i: int, j: int|
                    0 <= i < width && 0 <= j < height && is_before(i, j, 0, y as int) ==> may_place(
                        materials@,
                        allowed,
                        names_around_when(before, map.materials(), width as int, height as int, i, j),
                        targets[j][i] as int,
                        #[trigger] map.materials()[j][i],
                    ),
            decreases height - y,
        {
            let mut x: usize = 0;
            while x < width
                invariant
                    y < height,
                    x <= width,
                    map.wf(),
                    width == map.width,
                    height == map.height,
                    map.same_layout(old(map)),
                    map.mobs() == old(map).mobs(),
                    allowed == self.options.allowed_stone,
                    before == old(map).materials(),
                    targets == targets_of(field@),
                    has_fallback(materials@, allowed),
                    field@.len() == height,
                    forall|j: int| 0 <= j < field@.len() ==> (#[trigger] field@[j])@.len() == width,
                    is_bucketing(buckets@, materials@, allowed),
                    forall|i: int, j: int|
                        0 <= i < width && 0 <= j < height && !is_before(i, j, x as int, y as int)
                            ==> #[trigger] map.materials()[j][i] == before[j][i],
                    forall|i: int, j: int|
                        0 <= i < width && 0 <= j < height && is_before(i, j, x as int, y as int)
                            ==> may_place(
                            materials@,
                            allowed,
                            names_around_when(
                                before,
                                map.materials(),
                                width as int,
                                height as int,
                                i,
                                j,
                            ),
                            targets[j][i] as int,
                            #[trigger] map.materials()[j][i],
                        ),
                decreases width - x,
            {
                let target: u8 = field[y][x];
                assert(targets[y as int][x as int] == target);
                let list: Vec<usize> = self.settle(map, materials, &buckets, x, y, target);
                let ghost around = names_around(
                    map.materials(),
                    width as int,
                    height as int,
                    x as int,
                    y as int,
                );
                let mut choices: Vec<(usize, u128)> = Vec::new();
                let mut k: usize = 0;
                while k < list.len()
                    invariant
                        map.wf(),
                        x < map.width,
                        y < map.height,
                        k <= list.len(),
                        choices@.len() == k,
                        forall|j: int|
                            0 <= j < list@.len() ==> (#[trigger] list@[j]) < materials@.len(),
                        forall|j: int|
                            0 <= j < k ==> (#[trigger] choices@[j]).0 == list@[j] && 1
                                <= choices@[j].1 <= AFFINITY_ONE * 6561,
                    decreases list.len() - k,
                {
                    let i: usize = list[k];
                    let weight: u128 = affinity(map, x, y, &materials[i].name);
                    choices.push((i, weight));
                    k = k + 1;
                }
                proof {
                    lemma_total_weight_positive(choices@, 0);
                    lemma_total_weight_bound(choices@, AFFINITY_ONE * 6561);
                    assert(choices@.len() * (AFFINITY_ONE * 6561) <= u128::MAX) by (nonlinear_arith)
                        requires
                            choices@.len() <= 0xffff_ffff_ffff_ffff,
                            AFFINITY_ONE == 1_000_000_000,
                    ;
                }
                let picked: usize = match choose_weighted(rng, &choices) {
                    Some(i) => i,
                    None => list[0],
                };
                proof {
                    let t = choose|t: int|
                        0 <= t < choices@.len() && (#[trigger] choices@[t]).0 == picked;
                    assert(picked == list@[t]);
                    assert(may_choose(materials@, allowed, around, target as int, picked as int));
                }
                let ghost current = map.materials();
                map.set_material(x, y, materials[picked].name.clone());
                proof {
                    let after = map.materials();
                    let w = width as int;
                    let h = height as int;
                    assert forall|i: int, j: int| 0 <= i < w && 0 <= j < h implies (
                    #[trigger] after[j][i]) == if i == x && j == y {
                        materials@[picked as int].name@
                    } else {
                        current[j][i]
                    } by {
                        assert(current[j].len() == w);
                    }
                    assert forall|i: int, j: int|
                        0 <= i < w && 0 <= j < h && !is_before(i, j, x + 1, y as int) implies (
                    #[trigger] after[j][i]) == before[j][i] by {
                        assert(current[j][i] == before[j][i]);
                    }
                    assert forall|i: int, j: int|
                        0 <= i < w && 0 <= j < h && is_before(i, j, x + 1, y as int) implies may_place(
                        materials@,
                        allowed,
                        names_around_when(before, after, w, h, i, j),
                        targets[j][i] as int,
                        #[trigger] after[j][i],
                    ) by {
                        lemma_neighbors_in_bounds(w, h, i, j);
                        let then = names_around_when(before, after, w, h, i, j);
                        if i == x && j == y {
                            assert(then =~= around) by {
                                assert forall|t: int| 0 <= t < 8 implies then[t] == around[t] by {
                                    let c = spec_neighbors(w, h, i, j)[t];
                                    if is_before(c.1, c.0, x as int, y as int) {
                                        assert(after[c.0][c.1] == current[c.0][c.1]);
                                    } else {
                                        assert(current[c.0][c.1] == before[c.0][c.1]);
                                    }
                                }
                            }
                            assert(may_choose(materials@, allowed, then, target as int, picked as int));
                        } else {
                            let earlier = names_around_when(before, current, w, h, i, j);
                            assert(then =~= earlier) by {
                                assert forall|t: int| 0 <= t < 8 implies then[t] == earlier[t] by {
                                    let c = spec_neighbors(w, h, i, j)[t];
                                    if is_before(c.1, c.0, i, j) {
                                        assert(after[c.0][c.1] == current[c.0][c.1]);
                                    }
                                }
                            }
                            assert(may_place(
                                materials@,
                                allowed,
                                earlier,
                                targets[j][i] as int,
                                current[j][i],
                            ));
                        }
                    }
                }
                x = x + 1;
            }
            y = y + 1;
        }
    }
}

} // verus!
