use mapgen::cellular::{CellularAutomataOptions, JobType};
use mapgen::colors::Color;
use mapgen::drunk::DrunkardOptions;
use mapgen::dun_s1::TileType;
use mapgen::dunspec::{LayerSpecification, MapgenAlgorithm};
use mapgen::items::ItemType;
use mapgen::material::{MaterialClass, MaterialInfo, StoneInfo, StoneType};
use mapgen::maze::MazeOptions;
use mapgen::mineral_placement::MineralPlacementOptions;
use mapgen::mob::{MobAlignment, MobBody, MobClass, MobGender, MobMovement, MobTemplate};
use mapgen::mob_placement::{class_index, MobPlacementOptions};
use mapgen::randrm::RandomRoomsOptions;
use mapgen::utils::{get_all_neighbors, NoiseAlgorithm};
use mapgen::value::Value;
use rand::rngs::StdRng;
use rand::SeedableRng;
use std::collections::HashMap;

fn stone(name: &str, rarity: u8, near: &[&str]) -> MaterialInfo {
    MaterialInfo {
        name: name.to_string(),
        description: String::new(),
        class: MaterialClass::Stone(StoneInfo {
            stone_type: StoneType::Sedimentary,
            found_near: near.iter().map(|n| n.to_string()).collect(),
        }),
        rarity,
        color_bg: Color::new(0, 0, 0, 0),
        color_fg: Color::new(255, 255, 255, 0),
        block_glyph: '#',
        smelt_result: None,
        emit_light: 0,
        occurs_naturally: Some(vec![ItemType::Block]),
        edible: false,
    }
}

fn species(id: &str, class: MobClass, max_in_map: usize) -> MobTemplate {
    MobTemplate {
        id: id.to_string(),
        class,
        short_name: id.to_string(),
        long_name: id.to_string(),
        tagline: String::new(),
        description: String::new(),
        allowed_genders: vec![(MobGender::Male, 1), (MobGender::Female, 1)],
        body: vec![MobBody::Head],
        ascii_glyph: 'm',
        unicode_glyph: 'm',
        glyph_fg: None,
        alignment: MobAlignment::Neutral,
        height: Value::Random(1, 60_000),
        width: Value::Random(1, 60_000),
        weight: Value::Random(1, 60_000),
        composition: "flesh".to_string(),
        normal_body_temperature: Value::Manual(310),
        min_body_temperature: Value::Manual(280),
        max_body_temperature: Value::Manual(320),
        needs_food: true,
        needs_drink: true,
        needs_sleep: true,
        greetings: vec![],
        misc_lines: vec![],
        farewells: vec![],
        strength: Value::Manual(10),
        agility: Value::Manual(10),
        endurance: Value::Manual(10),
        metabolism: Value::Manual(10),
        willpower: Value::Manual(10),
        focus: Value::Manual(10),
        bravery: Value::Manual(10),
        intelligence: Value::Manual(10),
        aggressive: Value::Manual(10),
        movement: MobMovement::Active,
        age: Value::Manual(3),
        max_age: None,
        summoner: false,
        summonable: false,
        undead: false,
        opposed_to_life: false,
        necromancer: Value::Manual(0),
        vampire: false,
        is_unique: false,
        max_in_map,
    }
}

fn layer(width: usize, height: usize, algorithms: Vec<MapgenAlgorithm>) -> LayerSpecification {
    LayerSpecification {
        levels: 1,
        dimensions: (width, height),
        composition: MineralPlacementOptions {
            noise_exponent: 1000,
            allowed_stone: StoneType::Sedimentary,
            noise_algorithm: NoiseAlgorithm::Perlin,
            noise_overlap: 0,
            noise_seed: Value::Manual(0),
        },
        inhabitants: MobPlacementOptions {
            noise_exponent: 1000,
            allowed_classes: class_caps(),
            noise_algorithm: NoiseAlgorithm::Perlin,
            noise_overlap: 0,
            noise_seed: Value::Manual(0),
        },
        algorithms,
    }
}

fn class_caps() -> HashMap<usize, usize> {
    let mut caps = HashMap::new();
    caps.insert(class_index(MobClass::UpperMob), 6);
    caps.insert(class_index(MobClass::LowerMob), 2);
    caps
}

fn all_four() -> Vec<MapgenAlgorithm> {
    let mut cave = CellularAutomataOptions::new()
        .schedule_job(JobType::RandomFill)
        .schedule_job(JobType::FloorBar(1));
    for _ in 0..3 {
        cave = cave.schedule_job(JobType::Generation(true));
    }
    for _ in 0..4 {
        cave = cave.schedule_job(JobType::Generation(false));
    }
    vec![
        MapgenAlgorithm::Cellular(cave),
        MapgenAlgorithm::Drunkard(DrunkardOptions::new()),
        MapgenAlgorithm::RandomRooms(RandomRoomsOptions::new().max_rooms(12)),
        MapgenAlgorithm::Maze(MazeOptions::new().connect_to_features(true)),
    ]
}

#[test]
fn layer_validity() {
    assert!(layer(60, 30, all_four()).is_valid());
    assert!(layer(0, 0, Vec::new()).is_valid());
    assert!(!layer(usize::MAX, 2, Vec::new()).is_valid());
    let bar = |rows| {
        vec![MapgenAlgorithm::Cellular(
            CellularAutomataOptions::new().schedule_job(JobType::FloorBar(rows)),
        )]
    };
    assert!(layer(10, 10, bar(5)).is_valid());
    assert!(!layer(10, 10, bar(6)).is_valid());
    assert!(MapgenAlgorithm::Maze(MazeOptions::new()).can_run(0));
    assert!(!bar(1)[0].can_run(0));
}

#[test]
fn levels_hold_walls_and_floors_only() {
    for seed in 0..8u64 {
        let mut rng = StdRng::seed_from_u64(seed);
        let map = layer(60, 30, all_four()).build_level(&mut rng);
        assert_eq!((map.width, map.height), (60, 30));
        assert_eq!(map.d.len(), 30);
        for row in &map.d {
            assert_eq!(row.len(), 60);
            for t in row {
                assert!(*t == TileType::Wall || *t == TileType::Floor);
            }
        }
    }
}

#[test]
fn levels_repeat_with_the_seed() {
    let build = |seed| layer(60, 30, all_four()).build_level(&mut StdRng::seed_from_u64(seed)).d;
    assert_eq!(build(4), build(4));
    assert_ne!(build(4), build(5));
}

#[test]
fn level_without_generators_is_solid() {
    let map = layer(9, 4, Vec::new()).build_level(&mut StdRng::seed_from_u64(1));
    assert!(map.d.iter().flatten().all(|t| *t == TileType::Wall));
    assert!(map.features.is_empty());
}

#[test]
fn generators_run_in_their_order() {
    let fill = |pct| {
        MapgenAlgorithm::Cellular(
            CellularAutomataOptions::new().open_space_percentage(pct).schedule_job(JobType::RandomFill),
        )
    };
    let mut rng = StdRng::seed_from_u64(1);
    let map = layer(9, 4, vec![fill(100), fill(0)]).build_level(&mut rng);
    assert!(map.d.iter().flatten().all(|t| *t == TileType::Wall));
    let map = layer(9, 4, vec![fill(0), fill(100)]).build_level(&mut rng);
    assert!(map.d.iter().flatten().all(|t| *t == TileType::Floor));
}

#[test]
fn enriched_level_is_fully_populated() {
    let catalog = vec![
        stone("chalk", 0, &[]),
        stone("marl", 0, &[]),
        stone("flint", 40, &["chalk"]),
        stone("amber", 200, &["flint", "marl"]),
    ];
    let mobs = vec![
        species("orc", MobClass::UpperMob, 4),
        species("rat", MobClass::UpperMob, 3),
        species("bat", MobClass::LowerMob, 9),
        species("troll", MobClass::MiddleMob, 9),
    ];
    for seed in 0..5u64 {
        let mut rng = StdRng::seed_from_u64(seed);
        let spec = layer(48, 24, all_four());
        let map = spec.build_level(&mut rng);
        let mineral_field: Vec<Vec<u8>> =
            (0..24).map(|y| (0..48).map(|x| ((x * 7 + y * 13) % 256) as u8).collect()).collect();
        let mob_field: Vec<Vec<u8>> =
            (0..24).map(|y| (0..48).map(|x| ((x * 31 + y * 3) % 256) as u8).collect()).collect();
        let (level, table) =
            spec.enrich_level(&map, &mut rng, &catalog, &mobs, &mineral_field, &mob_field);
        assert_eq!((level.width, level.height), (48, 24));
        assert_eq!(level.features, map.features);
        for y in 0..24 {
            for x in 0..48 {
                let tile = &level.d[y][x];
                assert_eq!(tile.tiletype, map.d[y][x]);
                let m = catalog.iter().find(|m| m.name == tile.tile_material).unwrap();
                assert!(m.rarity <= mineral_field[y][x]);
                let near = m.found_near().unwrap();
                if !near.is_empty() {
                    assert!(get_all_neighbors(48, 24, x, y).iter().any(|(ny, nx)| {
                        let other = &level.d[*ny][*nx].tile_material;
                        near.contains(other) || *other == m.name
                    }));
                }
                if let Some(key) = tile.mobs {
                    assert_eq!(tile.tiletype, TileType::Floor);
                    assert!(table.contains_key(&key));
                }
            }
        }
        let count = |id: &str| table.values().filter(|m| m.from_mob_template == id).count();
        assert!(count("orc") <= 4);
        assert!(count("rat") <= 3);
        assert!(count("orc") + count("rat") <= 6);
        assert!(count("bat") <= 2);
        assert_eq!(count("troll"), 0);
        assert!(!table.is_empty());
    }
}

#[test]
fn layer_has_as_many_levels_as_it_says() {
    let mut spec = layer(20, 12, all_four());
    spec.levels = 3;
    let maps = spec.build_layer(&mut StdRng::seed_from_u64(2));
    assert_eq!(maps.len(), 3);
    for map in &maps {
        assert!(map.is_wf());
        assert_eq!((map.width, map.height), (20, 12));
        assert!(map.d.iter().flatten().all(|t| *t != TileType::Debug));
    }
    assert_ne!(maps[0].d, maps[1].d);
    spec.levels = 0;
    assert!(spec.build_layer(&mut StdRng::seed_from_u64(2)).is_empty());
}
