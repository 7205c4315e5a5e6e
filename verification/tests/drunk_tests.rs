use mapgen::dirs::Direction;
use mapgen::drunk::{
    below_goal, direction_of_tag, direction_weight, step_target, Drunkard, DrunkardOptions,
};
use mapgen::dun_s1::{DungeonS1, TileType};
use rand::rngs::StdRng;
use rand::SeedableRng;

fn floors(g: &DungeonS1) -> usize {
    g.d.iter().flatten().filter(|t| **t == TileType::Floor).count()
}

#[test]
fn drunkard_defaults() {
    let o = DrunkardOptions::new();
    assert_eq!(o.max_iterations, 5000);
    assert_eq!(o.center_weight, 100);
    assert_eq!(o.previous_direction_weight, 650);
    assert_eq!(o.filled_goal, 250);
}

#[test]
fn drunkard_builders_set_one_field_each() {
    let o = DrunkardOptions::new()
        .max_iterations(7)
        .center_weight(1)
        .previous_direction_weight(2)
        .filled_goal(3);
    assert_eq!(
        (o.max_iterations, o.center_weight, o.previous_direction_weight, o.filled_goal),
        (7, 1, 2, 3)
    );
}

#[test]
fn goal_is_a_share_of_the_area() {
    // a quarter of a hundred cells
    assert!(below_goal(24, 100, 250));
    assert!(!below_goal(25, 100, 250));
    assert!(!below_goal(26, 100, 250));
    assert!(!below_goal(0, 100, 0));
    assert!(!below_goal(0, 0, 1000));
    assert!(below_goal(0, 1, 1));
    assert!(below_goal(usize::MAX - 1, usize::MAX, 1000));
    assert!(!below_goal(usize::MAX, usize::MAX, 1000));
}

#[test]
fn weights_on_a_square_map() {
    let o = DrunkardOptions::new();
    // in the middle, last step to the north
    let at = |d| direction_weight(d, 10, 10, 5, 5, Direction::North, &o);
    assert_eq!(at(Direction::North), 10_000 + 6_500);
    assert_eq!(at(Direction::South), 10_000);
    assert_eq!(at(Direction::East), 10_000);
    assert_eq!(at(Direction::West), 10_000);
    assert_eq!(at(Direction::NorthEast), 0);
}

#[test]
fn weights_pull_back_to_the_middle() {
    let o = DrunkardOptions::new();
    // far left and at the top: east and south gain
    let at = |d| direction_weight(d, 20, 20, 2, 3, Direction::West, &o);
    assert_eq!(at(Direction::East), 20_000 + 2_000);
    assert_eq!(at(Direction::South), 20_000 + 2_000);
    assert_eq!(at(Direction::North), 20_000);
    assert_eq!(at(Direction::West), 20_000 + 13_000);
    // far right and at the bottom: west and north gain
    let at = |d| direction_weight(d, 20, 20, 16, 17, Direction::East, &o);
    assert_eq!(at(Direction::West), 20_000 + 2_000);
    assert_eq!(at(Direction::North), 20_000 + 2_000);
    assert_eq!(at(Direction::South), 20_000);
    assert_eq!(at(Direction::East), 20_000 + 13_000);
    // on the edge of the band nothing is gained: 4 * 5 is not below 20,
    // and 4 * 15 is not above 60
    let at = |d| direction_weight(d, 20, 20, 5, 15, Direction::North, &o);
    assert_eq!(at(Direction::East), 20_000);
    assert_eq!(at(Direction::West), 20_000);
    assert_eq!(at(Direction::South), 20_000);
}

#[test]
fn weights_follow_the_longer_side() {
    let o = DrunkardOptions::new().previous_direction_weight(0).center_weight(0);
    // twice as wide as high: east and west weigh one and two, north and
    // south one
    let at = |d| direction_weight(d, 40, 20, 20, 10, Direction::North, &o);
    assert_eq!(at(Direction::East), 20_000 + 40_000);
    assert_eq!(at(Direction::West), 20_000 + 40_000);
    assert_eq!(at(Direction::North), 20_000);
    assert_eq!(at(Direction::South), 20_000);
    // three times as high as wide
    let at = |d| direction_weight(d, 10, 30, 5, 15, Direction::North, &o);
    assert_eq!(at(Direction::North), 10_000 + 30_000);
    assert_eq!(at(Direction::South), 10_000 + 30_000);
    assert_eq!(at(Direction::East), 10_000);
    assert_eq!(at(Direction::West), 10_000);
}

#[test]
fn steps_stay_clear_of_the_border() {
    assert_eq!(step_target(Direction::North, 10, 10, 5, 5), Some((5, 4)));
    assert_eq!(step_target(Direction::South, 10, 10, 5, 5), Some((5, 6)));
    assert_eq!(step_target(Direction::East, 10, 10, 5, 5), Some((6, 5)));
    assert_eq!(step_target(Direction::West, 10, 10, 5, 5), Some((4, 5)));
    assert_eq!(step_target(Direction::North, 10, 10, 5, 1), None);
    assert_eq!(step_target(Direction::North, 10, 10, 5, 2), Some((5, 1)));
    assert_eq!(step_target(Direction::South, 10, 10, 5, 8), None);
    assert_eq!(step_target(Direction::South, 10, 10, 5, 7), Some((5, 8)));
    assert_eq!(step_target(Direction::East, 10, 10, 8, 5), None);
    assert_eq!(step_target(Direction::West, 10, 10, 1, 5), None);
    assert_eq!(step_target(Direction::West, 10, 10, 0, 5), None);
    assert_eq!(step_target(Direction::NorthWest, 10, 10, 5, 5), None);
    // along the border no step is taken
    assert_eq!(step_target(Direction::East, 10, 10, 4, 0), None);
    assert_eq!(step_target(Direction::East, 2, 2, 0, 0), None);
    assert_eq!(step_target(Direction::East, 0, 0, 0, 0), None);
}

#[test]
fn tags_stand_for_the_four_directions() {
    assert_eq!(direction_of_tag(0), Direction::North);
    assert_eq!(direction_of_tag(1), Direction::South);
    assert_eq!(direction_of_tag(2), Direction::East);
    assert_eq!(direction_of_tag(3), Direction::West);
}

#[test]
fn chosen_directions_vary() {
    let mut rng = StdRng::seed_from_u64(4);
    let d = Drunkard::new(DrunkardOptions::new());
    let mut seen = Vec::new();
    for _ in 0..200 {
        let got = d.choose_direction(&mut rng, 20, 20, 10, 10, Direction::North).unwrap();
        if !seen.contains(&got) {
            seen.push(got);
        }
    }
    assert_eq!(seen.len(), 4);
}

#[test]
fn heavy_momentum_keeps_the_direction() {
    let mut rng = StdRng::seed_from_u64(4);
    let d = Drunkard::new(DrunkardOptions::new().previous_direction_weight(u32::MAX));
    let mut east = 0;
    for _ in 0..200 {
        if d.choose_direction(&mut rng, 20, 20, 10, 10, Direction::East) == Some(Direction::East) {
            east += 1;
        }
    }
    assert!(east >= 198, "east: {}", east);
}

#[test]
fn walk_stops_at_the_cap() {
    for max in [0usize, 1, 10, 500] {
        let mut rng = StdRng::seed_from_u64(8);
        let mut g = DungeonS1::new(40, 30);
        let stats = Drunkard::new(DrunkardOptions::new().max_iterations(max).filled_goal(1000))
            .walk(&mut g, &mut rng);
        assert_eq!(stats.iterations, max);
        assert!(stats.filled <= stats.iterations);
        assert_eq!(floors(&g), stats.filled);
    }
}

#[test]
fn walk_stops_at_the_goal() {
    let mut rng = StdRng::seed_from_u64(8);
    let mut g = DungeonS1::new(20, 20);
    let stats = Drunkard::new(DrunkardOptions::new().max_iterations(1_000_000).filled_goal(250))
        .walk(&mut g, &mut rng);
    assert_eq!(stats.filled, 100);
    assert_eq!(floors(&g), 100);
    assert!(stats.iterations >= 100);
    assert!(stats.iterations < 1_000_000);
}

#[test]
fn walk_never_touches_the_border() {
    let mut rng = StdRng::seed_from_u64(21);
    let mut g = DungeonS1::new(12, 9);
    Drunkard::new(DrunkardOptions::new().max_iterations(20_000).filled_goal(1000))
        .walk(&mut g, &mut rng);
    for x in 0..12 {
        assert_eq!(g.get(x, 0), TileType::Wall);
        assert_eq!(g.get(x, 8), TileType::Wall);
    }
    for y in 0..9 {
        assert_eq!(g.get(0, y), TileType::Wall);
        assert_eq!(g.get(11, y), TileType::Wall);
    }
    assert!(floors(&g) > 0);
    assert!(floors(&g) <= 10 * 7);
}

#[test]
fn walk_counts_a_cell_once() {
    let mut rng = StdRng::seed_from_u64(2);
    // three inner cells in a row: the walker paces up and down
    let mut g = DungeonS1::new(5, 3);
    let stats = Drunkard::new(DrunkardOptions::new().max_iterations(300).filled_goal(1000))
        .walk(&mut g, &mut rng);
    assert_eq!(stats.iterations, 300);
    assert_eq!(stats.filled, floors(&g));
    assert!(stats.filled <= 3);
    assert!(stats.filled >= 1);
}

#[test]
fn walk_leaves_open_cells_open() {
    let mut rng = StdRng::seed_from_u64(2);
    let mut g = DungeonS1::new(10, 10);
    for y in 0..10 {
        for x in 0..10 {
            g.set(x, y, TileType::Floor);
        }
    }
    let stats = Drunkard::new(DrunkardOptions::new().max_iterations(100).filled_goal(1000))
        .walk(&mut g, &mut rng);
    assert_eq!(stats.filled, 0);
    assert_eq!(stats.iterations, 100);
    assert_eq!(floors(&g), 100);
}

#[test]
fn walk_on_a_map_without_cells() {
    let mut rng = StdRng::seed_from_u64(2);
    let mut g = DungeonS1::new(0, 0);
    let stats = Drunkard::new(DrunkardOptions::new()).walk(&mut g, &mut rng);
    assert_eq!(stats.iterations, 0);
    assert_eq!(stats.filled, 0);
}

#[test]
fn walk_repeats_with_the_seed() {
    let run = |seed| {
        let mut rng = StdRng::seed_from_u64(seed);
        let mut g = DungeonS1::new(30, 20);
        Drunkard::new(DrunkardOptions::new()).walk(&mut g, &mut rng);
        g.d
    };
    assert_eq!(run(5), run(5));
    assert_ne!(run(5), run(6));
}

#[test]
fn walk_on_three_by_three_changes_nothing() {
    for seed in 0..10u64 {
        let mut rng = StdRng::seed_from_u64(seed);
        let mut g = DungeonS1::new(3, 3);
        let stats = Drunkard::new(DrunkardOptions::new().max_iterations(10)).walk(&mut g, &mut rng);
        assert_eq!(g.d, vec![vec![TileType::Wall; 3]; 3]);
        assert_eq!(stats.filled, 0);
        assert_eq!(stats.iterations, 10);
    }
}

#[test]
fn walk_carves_no_more_than_the_goal() {
    for (goal, area_side, most) in [(1u32, 20usize, 1usize), (250, 20, 100), (333, 9, 27), (1000, 6, 16)] {
        let mut rng = StdRng::seed_from_u64(7);
        let mut g = DungeonS1::new(area_side, area_side);
        let stats = Drunkard::new(DrunkardOptions::new().max_iterations(200_000).filled_goal(goal))
            .walk(&mut g, &mut rng);
        assert!(stats.filled <= most, "{} > {}", stats.filled, most);
        assert_eq!(floors(&g), stats.filled);
    }
}

#[test]
fn walk_leaves_one_connected_cave() {
    for seed in 0..10u64 {
        let mut rng = StdRng::seed_from_u64(seed);
        let mut g = DungeonS1::new(30, 20);
        Drunkard::new(DrunkardOptions::new()).walk(&mut g, &mut rng);
        let total = floors(&g);
        assert!(total > 0);
        let mut seen = vec![vec![false; 30]; 20];
        let mut stack = Vec::new();
        for y in 0..20 {
            for x in 0..30 {
                if stack.is_empty() && g.d[y][x] == TileType::Floor {
                    seen[y][x] = true;
                    stack.push((x, y));
                }
            }
        }
        let mut reached = 0;
        while let Some((x, y)) = stack.pop() {
            reached += 1;
            for (nx, ny) in [(x + 1, y), (x - 1, y), (x, y + 1), (x, y - 1)] {
                if g.d[ny][nx] == TileType::Floor && !seen[ny][nx] {
                    seen[ny][nx] = true;
                    stack.push((nx, ny));
                }
            }
        }
        assert_eq!(reached, total);
    }
}
