use mapgen::colors::Color;
use mapgen::dun_s1::{DungeonS1, TileType};
use mapgen::dun_s2::DungeonS2;
use mapgen::items::ItemType;
use mapgen::material::{
    clone_names, contains_kind, contains_name, MaterialClass, MaterialInfo, StoneInfo, StoneType,
};
use mapgen::mineral_placement::{
    affinity, at_home, by_rarity, candidates, has_fallback_material, MineralPlacementOptions,
    MineralPlacer,
};
use mapgen::utils::{get_all_neighbors, NoiseAlgorithm};
use mapgen::value::Value;
use rand::rngs::StdRng;
use rand::SeedableRng;

fn material(name: &str, class: MaterialClass, rarity: u8, kinds: Option<Vec<ItemType>>) -> MaterialInfo {
    MaterialInfo {
        name: name.to_string(),
        description: String::new(),
        class,
        rarity,
        color_bg: Color::new(0, 0, 0, 0),
        color_fg: Color::new(255, 255, 255, 0),
        block_glyph: '#',
        smelt_result: None,
        emit_light: 0,
        occurs_naturally: kinds,
        edible: false,
    }
}

fn stone(name: &str, kind: StoneType, rarity: u8, near: &[&str]) -> MaterialInfo {
    let info = StoneInfo {
        stone_type: kind,
        found_near: near.iter().map(|n| n.to_string()).collect(),
    };
    material(name, MaterialClass::Stone(info), rarity, Some(vec![ItemType::Block]))
}

fn options(kind: StoneType) -> MineralPlacementOptions {
    MineralPlacementOptions {
        noise_exponent: 1000,
        allowed_stone: kind,
        noise_algorithm: NoiseAlgorithm::Perlin,
        noise_overlap: 0,
        noise_seed: Value::Manual(0),
    }
}

fn level(width: usize, height: usize) -> DungeonS2 {
    DungeonS2::from_dungeon_s1(&DungeonS1::new(width, height))
}

fn names(map: &DungeonS2) -> Vec<Vec<String>> {
    map.d.iter().map(|r| r.iter().map(|t| t.tile_material.clone()).collect()).collect()
}

#[test]
fn names_are_looked_up_and_copied() {
    let list = vec!["granite".to_string(), "basalt".to_string()];
    assert!(contains_name(&list, &"basalt".to_string()));
    assert!(!contains_name(&list, &"bas".to_string()));
    assert!(!contains_name(&Vec::new(), &"basalt".to_string()));
    assert_eq!(clone_names(&list), list);
    assert!(contains_kind(&vec![ItemType::Armor, ItemType::Block], ItemType::Block));
    assert!(!contains_kind(&vec![ItemType::Armor], ItemType::Block));
}

#[test]
fn material_methods() {
    let gold = stone("gold", StoneType::Metamorphic, 200, &["quartz", "granite"]);
    assert_eq!(gold.id(), "gold");
    assert_eq!(gold.found_near(), Some(vec!["quartz".to_string(), "granite".to_string()]));
    assert!(gold.occurs_naturally_as(ItemType::Block));
    assert!(!gold.occurs_naturally_as(ItemType::Weapon));
    let iron = material("iron", MaterialClass::Metal, 3, None);
    assert_eq!(iron.found_near(), None);
    assert!(!iron.occurs_naturally_as(ItemType::Block));
}

#[test]
fn candidates_are_blocks_of_the_allowed_stone() {
    let catalog = vec![
        stone("granite", StoneType::IgneousIntrusive, 0, &[]),
        stone("basalt", StoneType::IgneousExtrusive, 0, &[]),
        material("iron", MaterialClass::Metal, 0, Some(vec![ItemType::Block])),
        material(
            "flint",
            MaterialClass::Stone(StoneInfo {
                stone_type: StoneType::IgneousIntrusive,
                found_near: vec![],
            }),
            0,
            Some(vec![ItemType::Weapon]),
        ),
        material(
            "pumice",
            MaterialClass::Stone(StoneInfo {
                stone_type: StoneType::IgneousIntrusive,
                found_near: vec![],
            }),
            0,
            None,
        ),
        stone("gabbro", StoneType::IgneousIntrusive, 9, &["granite"]),
    ];
    assert_eq!(candidates(&catalog, StoneType::IgneousIntrusive), vec![0, 5]);
    assert_eq!(candidates(&catalog, StoneType::IgneousExtrusive), vec![1]);
    assert_eq!(candidates(&catalog, StoneType::Sedimentary), Vec::<usize>::new());
}

#[test]
fn fallback_is_a_common_stone_found_anywhere() {
    let kind = StoneType::Sedimentary;
    assert!(has_fallback_material(&vec![stone("chalk", kind, 0, &[])], kind));
    assert!(!has_fallback_material(&vec![stone("chalk", kind, 1, &[])], kind));
    assert!(!has_fallback_material(&vec![stone("chalk", kind, 0, &["flint"])], kind));
    assert!(!has_fallback_material(&vec![stone("chalk", StoneType::Metamorphic, 0, &[])], kind));
    assert!(!has_fallback_material(&Vec::new(), kind));
    assert!(has_fallback_material(
        &vec![stone("flint", kind, 3, &[]), stone("chalk", kind, 0, &[])],
        kind
    ));
}

#[test]
fn neighbours_are_pulled_into_the_map() {
    assert_eq!(
        get_all_neighbors(5, 4, 2, 2),
        [(1, 1), (1, 2), (1, 3), (2, 1), (2, 3), (3, 1), (3, 2), (3, 3)]
    );
    assert_eq!(
        get_all_neighbors(5, 4, 0, 0),
        [(0, 0), (0, 0), (0, 1), (0, 0), (0, 1), (1, 0), (1, 0), (1, 1)]
    );
    assert_eq!(
        get_all_neighbors(5, 4, 4, 3),
        [(2, 3), (2, 4), (2, 4), (3, 3), (3, 4), (3, 3), (3, 4), (3, 4)]
    );
    assert_eq!(get_all_neighbors(1, 1, 0, 0), [(0, 0); 8]);
}

#[test]
fn at_home_near_kin() {
    let kind = StoneType::Metamorphic;
    let mut map = level(5, 5);
    let gold = stone("gold", kind, 9, &["quartz"]);
    let slate = stone("slate", kind, 0, &[]);
    assert!(at_home(&map, 2, 2, &slate));
    assert!(!at_home(&map, 2, 2, &gold));
    map.set_material(3, 3, "quartz".to_string());
    assert!(at_home(&map, 2, 2, &gold));
    assert!(!at_home(&map, 0, 0, &gold));
    let mut map = level(5, 5);
    map.set_material(1, 2, "gold".to_string());
    assert!(at_home(&map, 2, 2, &gold));
    // two cells away is not near
    assert!(!at_home(&map, 3, 2, &gold));
    // what is no stone is at home anywhere
    assert!(at_home(&map, 4, 4, &material("iron", MaterialClass::Metal, 0, None)));
}

#[test]
fn affinity_grows_with_like_neighbours() {
    let mut map = level(5, 5);
    let name = "granite".to_string();
    // no neighbour of the kind: 1 / 1.9 / 1.9, then it is below two fifths
    assert_eq!(affinity(&map, 2, 2, &name), 277_008_310);
    for y in 0..5 {
        for x in 0..5 {
            map.set_material(x, y, "granite".to_string());
        }
    }
    // 2.6 to the power of eight
    assert_eq!(affinity(&map, 2, 2, &name), 2_088_270_645_760);
    // one other neighbour, the last of the eight
    map.set_material(3, 3, "basalt".to_string());
    assert_eq!(affinity(&map, 2, 2, &name), 803_181_017_600 * 10 / 19);
    // one other neighbour, the first of the eight
    map.set_material(3, 3, "granite".to_string());
    map.set_material(1, 1, "basalt".to_string());
    // 1 / 1.9 is 526315789 billionths; seven times 2.6, rounded down at
    // every step
    assert_eq!(affinity(&map, 2, 2, &name), 422_726_850_767);
}

#[test]
fn generate_places_the_only_stone_everywhere() {
    let kind = StoneType::Sedimentary;
    let catalog = vec![stone("chalk", kind, 0, &[]), stone("slate", StoneType::Metamorphic, 0, &[])];
    let mut map = level(6, 4);
    let field = vec![vec![200u8; 6]; 4];
    let mut rng = StdRng::seed_from_u64(1);
    MineralPlacer::new(options(kind)).generate(&mut map, &mut rng, &catalog, &field);
    assert!(names(&map).iter().flatten().all(|n| n == "chalk"));
    assert!(map.d.iter().flatten().all(|t| t.tiletype == TileType::Wall && t.mobs.is_none()));
}

#[test]
fn generate_follows_the_field() {
    let kind = StoneType::Sedimentary;
    let catalog = vec![
        stone("chalk", kind, 0, &[]),
        stone("flint", kind, 10, &[]),
        stone("amber", kind, 20, &[]),
    ];
    let mut map = level(4, 1);
    let field = vec![vec![0u8, 9, 10, 255]];
    let mut rng = StdRng::seed_from_u64(1);
    MineralPlacer::new(options(kind)).generate(&mut map, &mut rng, &catalog, &field);
    assert_eq!(names(&map), vec![vec!["chalk", "chalk", "flint", "amber"]]);
}

#[test]
fn generate_places_near_kin_only() {
    let kind = StoneType::IgneousIntrusive;
    let catalog = vec![
        stone("granite", kind, 0, &[]),
        stone("gold", kind, 5, &["granite"]),
        stone("ruby", kind, 7, &["gold"]),
    ];
    for seed in 0..5u64 {
        let mut map = level(12, 9);
        let field = vec![vec![7u8; 12]; 9];
        let mut rng = StdRng::seed_from_u64(seed);
        MineralPlacer::new(options(kind)).generate(&mut map, &mut rng, &catalog, &field);
        let placed = names(&map);
        // the first cell has nothing around it
        assert_eq!(placed[0][0], "granite");
        assert_eq!(placed[0][1], "gold");
        assert_eq!(placed[0][2], "ruby");
        for y in 0..9 {
            for x in 0..12 {
                let m = catalog.iter().find(|m| m.name == placed[y][x]).unwrap();
                let near = m.found_near().unwrap();
                if !near.is_empty() {
                    let around = get_all_neighbors(12, 9, x, y);
                    assert!(around.iter().any(|(ny, nx)| {
                        near.contains(&placed[*ny][*nx]) || placed[*ny][*nx] == m.name
                    }));
                }
            }
        }
    }
}

#[test]
fn generate_draws_among_the_stones_of_a_rarity() {
    let kind = StoneType::Sedimentary;
    let catalog = vec![stone("chalk", kind, 0, &[]), stone("marl", kind, 0, &[])];
    let mut map = level(30, 20);
    let field = vec![vec![0u8; 30]; 20];
    let mut rng = StdRng::seed_from_u64(4);
    MineralPlacer::new(options(kind)).generate(&mut map, &mut rng, &catalog, &field);
    let placed = names(&map);
    let chalk = placed.iter().flatten().filter(|n| *n == "chalk").count();
    let marl = placed.iter().flatten().filter(|n| *n == "marl").count();
    assert_eq!(chalk + marl, 600);
    assert!(chalk > 0 && marl > 0);
    // like gathers with like: more neighbours to the east are of a kind
    // than a fair coin would make them
    let mut same = 0;
    for row in &placed {
        for x in 1..30 {
            if row[x] == row[x - 1] {
                same += 1;
            }
        }
    }
    assert!(same > 330, "same: {}", same);
}

#[test]
fn generate_repeats_with_the_seed() {
    let kind = StoneType::Sedimentary;
    let catalog = vec![stone("chalk", kind, 0, &[]), stone("marl", kind, 0, &[])];
    let run = |seed| {
        let mut map = level(10, 10);
        let field = vec![vec![3u8; 10]; 10];
        let mut rng = StdRng::seed_from_u64(seed);
        MineralPlacer::new(options(kind)).generate(&mut map, &mut rng, &catalog, &field);
        names(&map)
    };
    assert_eq!(run(1), run(1));
    assert_ne!(run(1), run(2));
}

#[test]
fn generate_on_a_map_without_cells() {
    let kind = StoneType::Sedimentary;
    let catalog = vec![stone("chalk", kind, 0, &[])];
    let mut map = level(0, 0);
    let mut rng = StdRng::seed_from_u64(4);
    MineralPlacer::new(options(kind)).generate(&mut map, &mut rng, &catalog, &Vec::new());
    assert!(map.d.is_empty());
}

#[test]
fn settle_lowers_the_target() {
    let kind = StoneType::Sedimentary;
    let catalog = vec![
        stone("chalk", kind, 0, &[]),
        stone("flint", kind, 10, &["chalk"]),
        stone("amber", kind, 10, &[]),
        stone("jet", kind, 30, &["coal"]),
    ];
    let placer = MineralPlacer::new(options(kind));
    let pool = by_rarity(&catalog, kind);
    let mut map = level(5, 5);
    assert_eq!(placer.settle(&map, &catalog, &pool, 2, 2, 255), vec![2]);
    assert_eq!(placer.settle(&map, &catalog, &pool, 2, 2, 9), vec![0]);
    assert_eq!(placer.qualifying(&map, &catalog, &pool, 2, 2, 30), Vec::<usize>::new());
    map.set_material(1, 1, "chalk".to_string());
    assert_eq!(placer.settle(&map, &catalog, &pool, 2, 2, 255), vec![1, 2]);
    map.set_material(3, 2, "coal".to_string());
    assert_eq!(placer.settle(&map, &catalog, &pool, 2, 2, 255), vec![3]);
    assert_eq!(placer.settle(&map, &catalog, &pool, 2, 2, 29), vec![1, 2]);
}

#[test]
fn candidates_are_arranged_by_rarity() {
    let kind = StoneType::Sedimentary;
    let catalog = vec![
        stone("chalk", kind, 0, &[]),
        stone("flint", kind, 10, &["chalk"]),
        stone("slate", StoneType::Metamorphic, 10, &[]),
        stone("amber", kind, 10, &[]),
        stone("marl", kind, 0, &[]),
    ];
    let buckets = by_rarity(&catalog, kind);
    assert_eq!(buckets.len(), 2);
    assert_eq!(buckets[&0], vec![0, 4]);
    assert_eq!(buckets[&10], vec![1, 3]);
    assert!(by_rarity(&catalog, StoneType::IgneousExtrusive).is_empty());
}
