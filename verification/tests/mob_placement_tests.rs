use mapgen::colors::Color;
use mapgen::dun_s1::{DungeonS1, TileType};
use mapgen::dun_s2::DungeonS2;
use mapgen::mob::{MobAlignment, MobBody, MobClass, MobGender, MobMovement, MobTemplate};
use mapgen::mob_placement::{class_index, start_index, MobPlacementOptions, MobPlacer};
use mapgen::utils::NoiseAlgorithm;
use mapgen::value::Value;
use rand::rngs::StdRng;
use rand::SeedableRng;
use std::collections::HashMap;

fn template(id: &str, class: MobClass, max_in_map: usize) -> MobTemplate {
    MobTemplate {
        id: id.to_string(),
        class,
        short_name: id.to_string(),
        long_name: id.to_string(),
        tagline: String::new(),
        description: String::new(),
        allowed_genders: vec![(MobGender::Male, 1), (MobGender::Female, 1)],
        body: vec![MobBody::Head],
        ascii_glyph: 'm',
        unicode_glyph: 'm',
        glyph_fg: Some(Color::new(1, 2, 3, 0)),
        alignment: MobAlignment::Neutral,
        height: Value::Random(1, 60_000),
        width: Value::Random(1, 60_000),
        weight: Value::Random(1, 60_000),
        composition: "flesh".to_string(),
        normal_body_temperature: Value::Manual(310),
        min_body_temperature: Value::Manual(280),
        max_body_temperature: Value::Manual(320),
        needs_food: true,
        needs_drink: true,
        needs_sleep: true,
        greetings: vec![],
        misc_lines: vec![],
        farewells: vec![],
        strength: Value::Manual(10),
        agility: Value::Manual(10),
        endurance: Value::Manual(10),
        metabolism: Value::Manual(10),
        willpower: Value::Manual(10),
        focus: Value::Manual(10),
        bravery: Value::Manual(10),
        intelligence: Value::Manual(10),
        aggressive: Value::Manual(10),
        movement: MobMovement::Active,
        age: Value::Manual(3),
        max_age: None,
        summoner: false,
        summonable: false,
        undead: false,
        opposed_to_life: false,
        necromancer: Value::Manual(0),
        vampire: false,
        is_unique: false,
        max_in_map,
    }
}

fn options(allowed: Vec<(MobClass, usize)>) -> MobPlacementOptions {
    let mut caps: HashMap<usize, usize> = HashMap::new();
    for (class, cap) in allowed {
        caps.insert(class_index(class), cap);
    }
    MobPlacementOptions {
        noise_exponent: 1000,
        allowed_classes: caps,
        noise_algorithm: NoiseAlgorithm::Perlin,
        noise_overlap: 0,
        noise_seed: Value::Manual(0),
    }
}

fn open_level(width: usize, height: usize) -> DungeonS2 {
    let mut g = DungeonS1::new(width, height);
    for y in 1..height - 1 {
        for x in 1..width - 1 {
            g.set(x, y, TileType::Floor);
        }
    }
    DungeonS2::from_dungeon_s1(&g)
}

fn inhabited(map: &DungeonS2) -> Vec<(usize, usize, u64)> {
    let mut out = Vec::new();
    for y in 0..map.height {
        for x in 0..map.width {
            if let Some(key) = map.d[y][x].mobs {
                out.push((x, y, key));
            }
        }
    }
    out
}

#[test]
fn cap_of_reads_the_entry_of_the_class() {
    let o = options(vec![(MobClass::UpperMob, 3), (MobClass::LowerMob, 0)]);
    assert_eq!(o.cap_of(MobClass::UpperMob), Some(3));
    assert_eq!(o.cap_of(MobClass::LowerMob), Some(0));
    assert_eq!(o.cap_of(MobClass::ThrallMob), None);
    assert_eq!(options(Vec::new()).cap_of(MobClass::UpperMob), None);
    assert_eq!(o.duplicate().allowed_classes, o.allowed_classes);
}

#[test]
fn cap_of_ignores_keys_that_stand_for_no_class() {
    let mut o = options(vec![(MobClass::LowestMob, 2)]);
    o.allowed_classes.insert(7, 5);
    for class in [
        MobClass::ThrallMob,
        MobClass::UpperMob,
        MobClass::MiddleMob,
        MobClass::SauronsDenMob,
        MobClass::LowerMob,
        MobClass::MorgothsLairMob,
    ] {
        assert_eq!(o.cap_of(class), None);
    }
    assert_eq!(o.cap_of(MobClass::LowestMob), Some(2));
}

#[test]
fn classes_have_their_places() {
    assert_eq!(class_index(MobClass::ThrallMob), 0);
    assert_eq!(class_index(MobClass::UpperMob), 1);
    assert_eq!(class_index(MobClass::MiddleMob), 2);
    assert_eq!(class_index(MobClass::SauronsDenMob), 3);
    assert_eq!(class_index(MobClass::LowerMob), 4);
    assert_eq!(class_index(MobClass::MorgothsLairMob), 5);
    assert_eq!(class_index(MobClass::LowestMob), 6);
}

#[test]
fn start_index_scales_the_noise() {
    assert_eq!(start_index(0, 4), 0);
    assert_eq!(start_index(31, 4), 0);
    assert_eq!(start_index(32, 4), 1);
    assert_eq!(start_index(100, 4), 3);
    assert_eq!(start_index(127, 4), 3);
    assert_eq!(start_index(128, 4), 4);
    assert_eq!(start_index(255, 4), 4);
    assert_eq!(start_index(255, 0), 0);
    assert_eq!(start_index(255, usize::MAX), usize::MAX);
    assert_eq!(start_index(1, usize::MAX), usize::MAX / 255 * 2);
}

#[test]
fn eligible_species_are_those_of_an_allowed_class() {
    let placer = MobPlacer::new(options(vec![(MobClass::UpperMob, 3), (MobClass::LowerMob, 1)]));
    let mobs = vec![
        template("orc", MobClass::UpperMob, 1),
        template("troll", MobClass::MiddleMob, 1),
        template("bat", MobClass::LowerMob, 1),
        template("rat", MobClass::UpperMob, 1),
    ];
    assert_eq!(placer.eligible(&mobs), vec![0, 2, 3]);
    assert_eq!(MobPlacer::new(options(Vec::new())).eligible(&mobs), Vec::<usize>::new());
}

#[test]
fn pick_template_walks_down_to_the_first_open_species() {
    let placer = MobPlacer::new(options(vec![(MobClass::UpperMob, 3), (MobClass::LowerMob, 1)]));
    let mobs = vec![
        template("orc", MobClass::UpperMob, 2),
        template("troll", MobClass::MiddleMob, 9),
        template("bat", MobClass::LowerMob, 5),
        template("rat", MobClass::UpperMob, 1),
    ];
    let eligible = vec![0, 2, 3];
    let none: Vec<(MobClass, usize)> = Vec::new();
    let pick = |start, mob_ctr: &Vec<usize>, counted: &Vec<(MobClass, usize)>| {
        let mut class_ctr: HashMap<usize, usize> = HashMap::new();
        for (class, n) in counted {
            class_ctr.insert(class_index(*class), *n);
        }
        placer.pick_template(&mobs, &eligible, mob_ctr, &class_ctr, start)
    };
    assert_eq!(pick(3, &vec![0, 0, 0, 0], &none), Some(2));
    assert_eq!(pick(2, &vec![0, 0, 0, 0], &none), Some(1));
    assert_eq!(pick(1, &vec![0, 0, 0, 0], &none), Some(0));
    assert_eq!(pick(0, &vec![0, 0, 0, 0], &none), None);
    // the rat has reached its own cap
    assert_eq!(pick(3, &vec![0, 0, 0, 1], &none), Some(1));
    // the bat's class has reached its cap
    assert_eq!(pick(3, &vec![0, 0, 0, 1], &vec![(MobClass::LowerMob, 1)]), Some(0));
    // all of the upper class are taken
    assert_eq!(
        pick(3, &vec![0, 0, 0, 0], &vec![(MobClass::UpperMob, 3), (MobClass::LowerMob, 1)]),
        None
    );
    // a class that nothing was counted for counts as nought
    assert_eq!(pick(3, &vec![0, 0, 0, 0], &vec![(MobClass::LowerMob, 1)]), Some(2));
    assert_eq!(pick(3, &vec![0, 0, 0, 0], &vec![(MobClass::UpperMob, 2)]), Some(2));
    assert_eq!(pick(3, &vec![2, 0, 5, 1], &none), None);
}

#[test]
fn mobs_keep_to_the_caps() {
    for seed in 0..5u64 {
        let mut rng = StdRng::seed_from_u64(seed);
        let mut map = open_level(20, 12);
        let mobs = vec![
            template("orc", MobClass::UpperMob, 4),
            template("rat", MobClass::UpperMob, 100),
            template("bat", MobClass::LowerMob, 3),
            template("troll", MobClass::MiddleMob, 50),
        ];
        let placer = MobPlacer::new(options(vec![(MobClass::UpperMob, 10), (MobClass::LowerMob, 7)]));
        let field = vec![vec![255u8; 20]; 12];
        let table = placer.generate(&mut map, &mut rng, &mobs, &field);
        let count = |id: &str| table.values().filter(|m| m.from_mob_template == id).count();
        // from the last species down: three bats, then rats up to the cap
        // on the class; no troll, whose class is not allowed
        assert_eq!(count("bat"), 3);
        assert_eq!(count("rat"), 10);
        assert_eq!(count("orc"), 0);
        assert_eq!(count("troll"), 0);
        let placed = inhabited(&map);
        assert_eq!(placed.len(), 13);
        assert_eq!(table.len(), 13);
        for (x, y, key) in placed {
            assert_eq!(map.d[y][x].tiletype, TileType::Floor);
            let mob = &table[&key];
            assert_eq!(mob.identity_hash(), key);
        }
    }
}

#[test]
fn mobs_go_down_the_list_when_a_species_is_full() {
    let mut rng = StdRng::seed_from_u64(1);
    let mut map = open_level(20, 12);
    let mobs = vec![
        template("orc", MobClass::UpperMob, 4),
        template("rat", MobClass::UpperMob, 2),
    ];
    let placer = MobPlacer::new(options(vec![(MobClass::UpperMob, 100)]));
    let field = vec![vec![255u8; 20]; 12];
    let table = placer.generate(&mut map, &mut rng, &mobs, &field);
    let count = |id: &str| table.values().filter(|m| m.from_mob_template == id).count();
    assert_eq!(count("rat"), 2);
    assert_eq!(count("orc"), 4);
    assert_eq!(inhabited(&map).len(), 6);
}

#[test]
fn mobs_follow_the_field() {
    let mut rng = StdRng::seed_from_u64(1);
    let mut map = open_level(20, 12);
    let mobs = vec![
        template("orc", MobClass::UpperMob, 1000),
        template("rat", MobClass::UpperMob, 1000),
    ];
    let placer = MobPlacer::new(options(vec![(MobClass::UpperMob, 1000)]));
    // nothing on the left, the first species in the middle, the second on
    // the right
    let mut field = vec![vec![0u8; 20]; 12];
    for row in &mut field {
        for x in 7..14 {
            row[x] = 64;
        }
        for x in 14..20 {
            row[x] = 200;
        }
    }
    let table = placer.generate(&mut map, &mut rng, &mobs, &field);
    for (x, _, key) in inhabited(&map) {
        let id = &table[&key].from_mob_template;
        assert!(x >= 7);
        assert_eq!(id, if x < 14 { "orc" } else { "rat" });
    }
    // seven open columns in the middle, five on the right, ten rows
    assert_eq!(inhabited(&map).len(), (7 + 5) * 10);
}

#[test]
fn mobs_are_placed_in_a_random_order() {
    let mobs = vec![template("orc", MobClass::UpperMob, 5)];
    let placer = MobPlacer::new(options(vec![(MobClass::UpperMob, 5)]));
    let field = vec![vec![255u8; 20]; 12];
    let run = |seed| {
        let mut rng = StdRng::seed_from_u64(seed);
        let mut map = open_level(20, 12);
        placer.generate(&mut map, &mut rng, &mobs, &field);
        let mut cells: Vec<(usize, usize)> = inhabited(&map).iter().map(|c| (c.0, c.1)).collect();
        cells.sort();
        cells
    };
    let first = run(1);
    assert_eq!(first.len(), 5);
    // taken row by row, the five would stand at the start of the first row
    assert_ne!(first, vec![(1, 1), (2, 1), (3, 1), (4, 1), (5, 1)]);
    assert_ne!(first, run(2));
    assert_eq!(first, run(1));
}

#[test]
fn mobs_need_floor_and_species() {
    let mut rng = StdRng::seed_from_u64(1);
    let placer = MobPlacer::new(options(vec![(MobClass::UpperMob, 5)]));
    let mut map = DungeonS2::from_dungeon_s1(&DungeonS1::new(6, 6));
    let field = vec![vec![255u8; 6]; 6];
    let mobs = vec![template("orc", MobClass::UpperMob, 5)];
    assert!(placer.generate(&mut map, &mut rng, &mobs, &field).is_empty());
    assert!(inhabited(&map).is_empty());
    let mut map = open_level(6, 6);
    assert!(placer.generate(&mut map, &mut rng, &Vec::new(), &field).is_empty());
    assert!(inhabited(&map).is_empty());
}

#[test]
fn mobs_leave_the_materials() {
    let mut rng = StdRng::seed_from_u64(1);
    let placer = MobPlacer::new(options(vec![(MobClass::UpperMob, 5)]));
    let mut map = open_level(6, 6);
    map.set_material(2, 2, "granite".to_string());
    let field = vec![vec![255u8; 6]; 6];
    placer.generate(&mut map, &mut rng, &vec![template("orc", MobClass::UpperMob, 50)], &field);
    assert_eq!(map.d[2][2].tile_material, "granite");
    assert_eq!(map.d[3][3].tile_material, "");
}

#[test]
fn every_mob_of_the_table_stands_on_its_cell() {
    for seed in 0..5u64 {
        let mut rng = StdRng::seed_from_u64(seed);
        let mut map = open_level(20, 12);
        let mobs = vec![
            template("orc", MobClass::UpperMob, 4),
            template("rat", MobClass::UpperMob, 5),
            template("bat", MobClass::LowerMob, 3),
        ];
        let placer = MobPlacer::new(options(vec![(MobClass::UpperMob, 7), (MobClass::LowerMob, 2)]));
        let field: Vec<Vec<u8>> =
            (0..12).map(|y| (0..20).map(|x| ((x * 13 + y * 29) % 256) as u8).collect()).collect();
        let table = placer.generate(&mut map, &mut rng, &mobs, &field);
        let placed = inhabited(&map);
        for key in table.keys() {
            assert!(placed.iter().any(|(_, _, k)| k == key));
        }
        let on_tiles = |id: &str| {
            placed.iter().filter(|(_, _, k)| table[k].from_mob_template == id).count()
        };
        assert!(on_tiles("orc") <= 4);
        assert!(on_tiles("rat") <= 5);
        assert!(on_tiles("orc") + on_tiles("rat") <= 7);
        assert!(on_tiles("bat") <= 2);
        assert!(!placed.is_empty());
    }
}

#[test]
fn cells_keep_to_the_caps() {
    for seed in 0..5u64 {
        let mut rng = StdRng::seed_from_u64(seed);
        let mut map = open_level(16, 10);
        let mobs = vec![
            template("orc", MobClass::UpperMob, 4),
            template("rat", MobClass::UpperMob, 5),
            template("bat", MobClass::LowerMob, 3),
        ];
        let placer = MobPlacer::new(options(vec![(MobClass::UpperMob, 7), (MobClass::LowerMob, 2)]));
        let field = vec![vec![255u8; 16]; 10];
        let table = placer.generate(&mut map, &mut rng, &mobs, &field);
        // the cells that refer to a mob of a species, and of a class
        let cells = |id: &str| {
            inhabited(&map).iter().filter(|(_, _, key)| table[key].from_mob_template == id).count()
        };
        assert_eq!(cells("bat"), 2);
        assert_eq!(cells("rat"), 5);
        assert_eq!(cells("orc"), 2);
        assert!(cells("rat") + cells("orc") <= 7);
        assert_eq!(inhabited(&map).len(), 9);
    }
}
