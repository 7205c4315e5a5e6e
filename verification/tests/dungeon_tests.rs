use mapgen::colors::Color;
use mapgen::dun_s1::{DungeonS1, TileType};
use mapgen::dun_s2::DungeonS2;
use mapgen::dungeon::Dungeon;
use mapgen::features::Feature;
use mapgen::mob::{Mob, MobAlignment, MobBody, MobClass, MobGender, MobMovement, MobTemplate};
use mapgen::player::Player;
use mapgen::rect::Rect;
use mapgen::value::Value;
use rand::rngs::StdRng;
use rand::SeedableRng;
use std::collections::HashMap;

fn elf() -> MobTemplate {
    MobTemplate {
        id: "elf".to_string(),
        class: MobClass::ThrallMob,
        short_name: "Elf".to_string(),
        long_name: "Elf".to_string(),
        tagline: String::new(),
        description: String::new(),
        allowed_genders: vec![(MobGender::NonBinary, 1)],
        body: vec![MobBody::Head, MobBody::Eye, MobBody::Eye],
        ascii_glyph: '@',
        unicode_glyph: '@',
        glyph_fg: None,
        alignment: MobAlignment::Friendly,
        height: Value::Random(150, 200),
        width: Value::Manual(40),
        weight: Value::Manual(60),
        composition: "flesh".to_string(),
        normal_body_temperature: Value::Manual(310),
        min_body_temperature: Value::Manual(280),
        max_body_temperature: Value::Manual(320),
        needs_food: true,
        needs_drink: true,
        needs_sleep: true,
        greetings: vec![],
        misc_lines: vec![],
        farewells: vec![],
        strength: Value::Manual(10),
        agility: Value::Manual(10),
        endurance: Value::Manual(10),
        metabolism: Value::Manual(10),
        willpower: Value::Manual(10),
        focus: Value::Manual(10),
        bravery: Value::Manual(10),
        intelligence: Value::Manual(10),
        aggressive: Value::Manual(10),
        movement: MobMovement::VeryActive,
        age: Value::Manual(300),
        max_age: None,
        summoner: false,
        summonable: false,
        undead: false,
        opposed_to_life: false,
        necromancer: Value::Manual(0),
        vampire: false,
        is_unique: true,
        max_in_map: 1,
    }
}

fn level(rows: &[&str]) -> DungeonS2 {
    let mut g = DungeonS1::new(rows[0].len(), rows.len());
    for (y, row) in rows.iter().enumerate() {
        for (x, c) in row.chars().enumerate() {
            g.set(x, y, if c == '#' { TileType::Wall } else { TileType::Floor });
        }
    }
    DungeonS2::from_dungeon_s1(&g)
}

fn world(levels: Vec<DungeonS2>) -> Dungeon {
    Dungeon {
        world_name: "Arda".to_string(),
        created_on: 0,
        levels,
        player: Player { coords: (0, 0), level: 0, in_fov: Vec::new(), memory: Vec::new() },
        mobs: HashMap::new(),
    }
}

#[test]
fn stage_two_takes_over_the_layout() {
    let mut g = DungeonS1::new(4, 3);
    g.set(1, 1, TileType::Floor);
    g.set(2, 1, TileType::Floor);
    g.features.push(Feature::Room(Rect::new(2, 2, 3, 2)));
    let level = DungeonS2::from_dungeon_s1(&g);
    assert_eq!((level.width, level.height), (4, 3));
    assert_eq!(level.features, g.features);
    for y in 0..3 {
        assert_eq!(level.d[y].len(), 4);
        for x in 0..4 {
            let t = &level.d[y][x];
            assert_eq!(t.tiletype, g.get(x, y));
            assert_eq!(t.tile_material, "");
            assert!(t.items.is_empty());
            assert_eq!(t.mobs, None);
            assert_eq!(level.is_floor(x, y), y == 1 && (x == 1 || x == 2));
        }
    }
    assert_eq!(level.floor_cells(), vec![(1, 1), (1, 2)]);
}

#[test]
fn tile_setters_change_one_thing() {
    let mut l = level(&["..", ".."]);
    l.set_material(1, 0, "granite".to_string());
    l.set_mob(0, 1, Some(7));
    assert_eq!(l.d[0][1].tile_material, "granite");
    assert_eq!(l.d[0][1].mobs, None);
    assert_eq!(l.d[1][0].mobs, Some(7));
    assert_eq!(l.d[1][0].tile_material, "");
    assert_eq!(l.d[0][0].mobs, None);
    l.set_mob(0, 1, None);
    assert_eq!(l.d[1][0].mobs, None);
    let copy = l.d[0][1].duplicate();
    assert_eq!(copy.tile_material, "granite");
    assert_eq!(copy.tiletype, TileType::Floor);
}

#[test]
fn player_lands_on_a_free_floor_cell() {
    for seed in 0..20u64 {
        let mut rng = StdRng::seed_from_u64(seed);
        let mut l = level(&["#####", "#.#.#", "#...#", "#####"]);
        l.set_mob(1, 1, Some(1));
        l.set_mob(3, 2, Some(2));
        let mut table: HashMap<u64, Mob> = HashMap::new();
        let p = Player::new(&mut l, &mut table, 3, &mut rng, &elf());
        assert_eq!(p.level, 3);
        assert!(p.in_fov.is_empty() && p.memory.is_empty());
        let (y, x) = p.coords;
        assert!([(1, 3), (2, 1), (2, 2)].contains(&(y, x)), "{:?}", p.coords);
        let key = l.d[y][x].mobs.unwrap();
        assert_eq!(table.len(), 1);
        assert_eq!(table[&key].from_mob_template, "elf");
        assert_eq!(table[&key].identity_hash(), key);
        assert_eq!(l.d[1][1].mobs, Some(1));
        assert_eq!(l.d[2][3].mobs, Some(2));
        let others = l.d.iter().flatten().filter(|t| t.mobs.is_some()).count();
        assert_eq!(others, 3);
    }
}

#[test]
fn player_lands_anywhere_on_the_floor() {
    let mut seen = Vec::new();
    for seed in 0..60u64 {
        let mut rng = StdRng::seed_from_u64(seed);
        let mut l = level(&["#####", "#...#", "#...#", "#####"]);
        let mut table: HashMap<u64, Mob> = HashMap::new();
        let p = Player::new(&mut l, &mut table, 0, &mut rng, &elf());
        if !seen.contains(&p.coords) {
            seen.push(p.coords);
        }
    }
    assert_eq!(seen.len(), 6);
}

#[test]
fn player_takes_a_cell_on_a_full_level() {
    let mut seen = Vec::new();
    for seed in 0..40u64 {
        let mut rng = StdRng::seed_from_u64(seed);
        let mut l = level(&["####", "#..#", "####"]);
        l.set_mob(1, 1, Some(1));
        l.set_mob(2, 1, Some(2));
        let mut table: HashMap<u64, Mob> = HashMap::new();
        table.insert(1, elf().generate_mob(&mut rng));
        let p = Player::new(&mut l, &mut table, 0, &mut rng, &elf());
        let (y, x) = p.coords;
        assert_eq!(y, 1);
        assert!(x == 1 || x == 2);
        let key = l.d[y][x].mobs.unwrap();
        assert_eq!(table[&key].identity_hash(), key);
        // the other one stays
        assert_eq!(l.d[1][3 - x].mobs, Some(if x == 1 { 2 } else { 1 }));
        if !seen.contains(&x) {
            seen.push(x);
        }
    }
    assert_eq!(seen.len(), 2);
}

#[test]
fn world_is_made_of_its_levels() {
    let mut rng = StdRng::seed_from_u64(5);
    let levels = vec![level(&["###", "#.#", "###"]), level(&["....", "...."])];
    let d = Dungeon::from_dungeon_s2(
        "Arda".to_string(),
        levels,
        HashMap::new(),
        &mut rng,
        &elf(),
        1_600_000_000,
    );
    assert_eq!(d.world_name, "Arda");
    assert_eq!(d.created_on, 1_600_000_000);
    assert_eq!(d.levels.len(), 2);
    assert_eq!((d.levels[0].width, d.levels[0].height), (3, 3));
    assert_eq!((d.levels[1].width, d.levels[1].height), (4, 2));
    assert_eq!(d.player.coords, (1, 1));
    assert_eq!(d.player.level, 0);
    let key = d.levels[0].d[1][1].mobs.unwrap();
    assert_eq!(d.mobs[&key].from_mob_template, "elf");
    assert_eq!(d.mobs.len(), 1);
    assert!(d.levels[1].d.iter().flatten().all(|t| t.mobs.is_none()));
}

#[test]
fn at_copies_the_cell() {
    let mut l = level(&["..", ".#"]);
    l.set_material(1, 1, "basalt".to_string());
    l.set_mob(0, 1, Some(9));
    let d = world(vec![level(&["."]), l]);
    let tile = d.at(1, (1, 1));
    assert_eq!(tile.tiletype, TileType::Wall);
    assert_eq!(tile.tile_material, "basalt");
    assert_eq!(d.at(1, (1, 0)).mobs, Some(9));
    assert_eq!(d.at(0, (0, 0)).tiletype, TileType::Floor);
}

#[test]
fn move_mob_to_an_empty_cell() {
    let mut l = level(&["...", "..."]);
    l.set_mob(0, 0, Some(5));
    let mut d = world(vec![l]);
    assert_eq!(d.move_mob(0, (0, 0), 0, (1, 2), false), Ok(()));
    assert_eq!(d.levels[0].d[0][0].mobs, None);
    assert_eq!(d.levels[0].d[1][2].mobs, Some(5));
}

#[test]
fn move_mob_between_levels() {
    let mut l = level(&["..."]);
    l.set_mob(2, 0, Some(5));
    let mut d = world(vec![l, level(&[".", "."])]);
    assert_eq!(d.move_mob(0, (0, 2), 1, (1, 0), true), Ok(()));
    assert_eq!(d.levels[0].d[0][2].mobs, None);
    assert_eq!(d.levels[1].d[1][0].mobs, Some(5));
}

#[test]
fn move_mob_swaps_if_told_to() {
    let mut l = level(&["...", "..."]);
    l.set_mob(0, 0, Some(5));
    l.set_mob(2, 1, Some(6));
    let mut d = world(vec![l]);
    assert_eq!(d.move_mob(0, (0, 0), 0, (1, 2), false), Err(()));
    assert_eq!(d.levels[0].d[0][0].mobs, Some(5));
    assert_eq!(d.levels[0].d[1][2].mobs, Some(6));
    assert_eq!(d.move_mob(0, (0, 0), 0, (1, 2), true), Ok(()));
    assert_eq!(d.levels[0].d[0][0].mobs, Some(6));
    assert_eq!(d.levels[0].d[1][2].mobs, Some(5));
}

#[test]
fn move_mob_needs_somebody_to_move() {
    let mut l = level(&["...", "..."]);
    l.set_mob(2, 1, Some(6));
    let mut d = world(vec![l]);
    assert_eq!(d.move_mob(0, (0, 0), 0, (1, 2), true), Err(()));
    assert_eq!(d.move_mob(0, (0, 0), 0, (0, 1), false), Err(()));
    assert_eq!(d.levels[0].d[1][2].mobs, Some(6));
    assert_eq!(d.levels[0].d[0][0].mobs, None);
    assert_eq!(d.levels[0].d[0][1].mobs, None);
}

#[test]
fn move_mob_onto_its_own_cell() {
    let mut l = level(&["..."]);
    l.set_mob(1, 0, Some(6));
    let mut d = world(vec![l]);
    assert_eq!(d.move_mob(0, (0, 1), 0, (0, 1), false), Err(()));
    assert_eq!(d.move_mob(0, (0, 1), 0, (0, 1), true), Ok(()));
    assert_eq!(d.levels[0].d[0][1].mobs, Some(6));
}

#[test]
fn glyph_colour_is_kept() {
    let mut t = elf();
    t.glyph_fg = Some(Color::new(9, 8, 7, 6));
    let m = t.generate_mob(&mut StdRng::seed_from_u64(1));
    assert_eq!(m.glyph_fg, Some(Color::new(9, 8, 7, 6)));
}

#[test]
fn levels_know_whether_they_have_floor() {
    assert!(level(&["##", "#."]).has_floor_cell());
    assert!(!level(&["##", "##"]).has_floor_cell());
    assert!(!DungeonS2::from_dungeon_s1(&DungeonS1::new(0, 0)).has_floor_cell());
    let mut l = level(&["..", ".."]);
    assert!(l.is_wf());
    l.d[0].pop();
    assert!(!l.is_wf());
}
