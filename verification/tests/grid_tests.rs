use mapgen::dirs::Direction;
use mapgen::dun_s1::{fill_tile, DungeonS1, TileType};
use mapgen::features::Feature;
use mapgen::rect::Rect;
use rand::rngs::StdRng;
use rand::SeedableRng;

#[test]
fn new_grid_is_all_wall() {
    let g = DungeonS1::new(7, 4);
    assert_eq!(g.width, 7);
    assert_eq!(g.height, 4);
    assert_eq!(g.d.len(), 4);
    assert!(g.features.is_empty());
    for row in &g.d {
        assert_eq!(row.len(), 7);
        for t in row {
            assert_eq!(*t, TileType::Wall);
        }
    }
}

#[test]
fn new_grid_may_be_empty() {
    let g = DungeonS1::new(0, 5);
    assert_eq!(g.d.len(), 5);
    assert!(g.d.iter().all(|r| r.is_empty()));
    let g = DungeonS1::new(5, 0);
    assert!(g.d.is_empty());
}

#[test]
fn set_changes_one_cell() {
    let mut g = DungeonS1::new(5, 5);
    g.set(3, 1, TileType::Floor);
    for y in 0..5 {
        for x in 0..5 {
            let expected = if x == 3 && y == 1 { TileType::Floor } else { TileType::Wall };
            assert_eq!(g.get(x, y), expected);
            assert_eq!(g.d[y][x], expected);
        }
    }
}

#[test]
fn copy_tiles_is_a_snapshot() {
    let mut g = DungeonS1::new(3, 2);
    g.set(1, 1, TileType::Floor);
    let copy = g.copy_tiles();
    g.set(0, 0, TileType::Floor);
    assert_eq!(copy, vec![
        vec![TileType::Wall, TileType::Wall, TileType::Wall],
        vec![TileType::Wall, TileType::Floor, TileType::Wall],
    ]);
}

#[test]
fn fill_tile_compares_the_draw_with_the_percentage() {
    assert_eq!(fill_tile(0, 64), TileType::Floor);
    assert_eq!(fill_tile(63, 64), TileType::Floor);
    assert_eq!(fill_tile(64, 64), TileType::Wall);
    assert_eq!(fill_tile(99, 64), TileType::Wall);
    assert_eq!(fill_tile(0, 0), TileType::Wall);
    assert_eq!(fill_tile(99, 100), TileType::Floor);
}

#[test]
fn rand_fill_with_nothing_open_leaves_walls() {
    let mut rng = StdRng::seed_from_u64(3);
    let mut g = DungeonS1::new(12, 9);
    g.set(4, 4, TileType::Floor);
    g.rand_fill(&mut rng, 0);
    assert!(g.d.iter().all(|r| r.iter().all(|t| *t == TileType::Wall)));
}

#[test]
fn rand_fill_with_everything_open_leaves_floor() {
    let mut rng = StdRng::seed_from_u64(3);
    let mut g = DungeonS1::new(12, 9);
    g.rand_fill(&mut rng, 100);
    assert!(g.d.iter().all(|r| r.iter().all(|t| *t == TileType::Floor)));
}

#[test]
fn rand_fill_draws_for_every_cell() {
    let mut rng = StdRng::seed_from_u64(11);
    let mut g = DungeonS1::new(40, 30);
    g.rand_fill(&mut rng, 64);
    let floors = g.d.iter().flatten().filter(|t| **t == TileType::Floor).count();
    let walls = g.d.iter().flatten().filter(|t| **t == TileType::Wall).count();
    assert_eq!(floors + walls, 1200);
    assert!(floors > 600 && floors < 900, "floors: {}", floors);
    // the first row and the first column are drawn for like the rest
    assert!(g.d[0].iter().any(|t| *t == TileType::Floor));
    assert!(g.d.iter().any(|r| r[0] == TileType::Floor));
}

#[test]
fn rand_fill_repeats_with_the_seed() {
    let mut a = DungeonS1::new(30, 20);
    let mut b = DungeonS1::new(30, 20);
    a.rand_fill(&mut StdRng::seed_from_u64(5), 50);
    b.rand_fill(&mut StdRng::seed_from_u64(5), 50);
    assert_eq!(a.d, b.d);
    let mut c = DungeonS1::new(30, 20);
    c.rand_fill(&mut StdRng::seed_from_u64(6), 50);
    assert_ne!(a.d, c.d);
}

#[test]
fn feature_gives_its_rectangle() {
    let r = Rect::new(1, 2, 3, 4);
    assert_eq!(Feature::Room(r).rect(), r);
    assert_eq!(Feature::Tunnel(r).rect(), r);
}

#[test]
fn feature_from_draw() {
    assert_eq!(Feature::from_draw(0), Feature::Tunnel(Rect::new(0, 0, 0, 0)));
    assert_eq!(Feature::from_draw(1), Feature::Room(Rect::new(0, 0, 0, 0)));
}

#[test]
fn sampled_feature_is_an_empty_tunnel() {
    let mut rng = StdRng::seed_from_u64(1);
    for _ in 0..20 {
        assert_eq!(Feature::sample(&mut rng), Feature::Tunnel(Rect::new(0, 0, 0, 0)));
    }
}

#[test]
fn direction_from_index() {
    assert_eq!(Direction::from_index(0), Direction::North);
    assert_eq!(Direction::from_index(1), Direction::South);
    assert_eq!(Direction::from_index(2), Direction::East);
    assert_eq!(Direction::from_index(3), Direction::West);
    assert_eq!(Direction::from_index(4), Direction::NorthWest);
    assert_eq!(Direction::from_index(5), Direction::NorthEast);
    assert_eq!(Direction::from_index(6), Direction::SouthWest);
    assert_eq!(Direction::from_index(7), Direction::SouthEast);
    assert_eq!(Direction::from_index(1000), Direction::SouthEast);
}

#[test]
fn sampled_directions_vary_and_leave_out_the_last() {
    let mut rng = StdRng::seed_from_u64(9);
    let mut seen = Vec::new();
    for _ in 0..400 {
        let d = Direction::sample(&mut rng);
        assert_ne!(d, Direction::SouthEast);
        if !seen.contains(&d) {
            seen.push(d);
        }
    }
    assert_eq!(seen.len(), 7);
}

#[test]
fn well_formed_grids_are_told_apart() {
    let mut g = DungeonS1::new(4, 3);
    assert!(g.is_wf());
    g.d[1].pop();
    assert!(!g.is_wf());
    let mut g = DungeonS1::new(4, 3);
    g.d.pop();
    assert!(!g.is_wf());
    let mut g = DungeonS1::new(4, 3);
    g.width = 5;
    assert!(!g.is_wf());
    let mut g = DungeonS1::new(0, 0);
    g.width = usize::MAX;
    g.height = 2;
    assert!(!g.is_wf());
}
