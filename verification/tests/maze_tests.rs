use mapgen::dirs::Direction;
use mapgen::dun_s1::{DungeonS1, TileType};
use mapgen::features::Feature;
use mapgen::maze::{
    carve_target, count_inner, dig_doors, doorway, find_door, point_intersects_features,
    sweep_dead_ends, Maze, MazeOptions,
};
use mapgen::randrm::carve_feature;
use mapgen::rect::Rect;
use rand::rngs::StdRng;
use rand::SeedableRng;

fn grid_of(rows: &[&str]) -> DungeonS1 {
    let mut g = DungeonS1::new(rows[0].len(), rows.len());
    for (y, row) in rows.iter().enumerate() {
        for (x, c) in row.chars().enumerate() {
            g.set(x, y, if c == '#' { TileType::Wall } else { TileType::Floor });
        }
    }
    g
}

fn rows_of(g: &DungeonS1) -> Vec<String> {
    g.d.iter()
        .map(|r| {
            r.iter()
                .map(|t| match t {
                    TileType::Wall => '#',
                    TileType::Floor => '.',
                    TileType::Debug => '?',
                })
                .collect()
        })
        .collect()
}

fn count(g: &DungeonS1, t: TileType) -> usize {
    g.d.iter().flatten().filter(|c| **c == t).count()
}

#[test]
fn maze_defaults_and_builders() {
    let o = MazeOptions::new();
    assert_eq!(o.remove_dead_ends, Some(1));
    assert!(!o.connect_to_features);
    let o = o.remove_dead_ends(None).connect_to_features(true);
    assert_eq!(o.remove_dead_ends, None);
    assert!(o.connect_to_features);
    assert_eq!(o.remove_dead_ends(Some(4)).remove_dead_ends, Some(4));
}

#[test]
fn padded_box_of_a_feature() {
    let mut g = DungeonS1::new(20, 20);
    g.features.push(Feature::Room(Rect::new(6, 7, 9, 10)));
    // the rectangle and two cells on every side of it
    assert!(point_intersects_features(&g, 4, 5));
    assert!(point_intersects_features(&g, 11, 12));
    assert!(point_intersects_features(&g, 11, 5));
    assert!(point_intersects_features(&g, 4, 12));
    assert!(point_intersects_features(&g, 6, 7));
    assert!(point_intersects_features(&g, 9, 10));
    assert!(point_intersects_features(&g, 10, 10));
    assert!(point_intersects_features(&g, 9, 11));
    assert!(!point_intersects_features(&g, 3, 5));
    assert!(!point_intersects_features(&g, 4, 4));
    assert!(!point_intersects_features(&g, 12, 12));
    assert!(!point_intersects_features(&g, 11, 13));
    assert!(!point_intersects_features(&g, 12, 8));
    g.features.push(Feature::Tunnel(Rect::new(1, 1, 1, 1)));
    assert!(point_intersects_features(&g, 0, 0));
    assert!(point_intersects_features(&g, 1, 1));
    assert!(point_intersects_features(&g, 3, 3));
    assert!(!point_intersects_features(&g, 4, 1));
    assert!(!point_intersects_features(&g, 1, 4));
    g.features.push(Feature::Room(Rect::new(usize::MAX - 1, 15, usize::MAX, 16)));
    assert!(point_intersects_features(&g, usize::MAX, 18));
    assert!(point_intersects_features(&g, usize::MAX - 3, 13));
    assert!(!point_intersects_features(&g, usize::MAX - 4, 15));
    assert!(!point_intersects_features(&g, usize::MAX, 19));
    assert!(!point_intersects_features(&DungeonS1::new(5, 5), 2, 2));
}

#[test]
fn carve_targets_lie_two_steps_away() {
    assert_eq!(carve_target(Direction::North, 11, 11, 5, 5), Some((5, 4, 5, 3)));
    assert_eq!(carve_target(Direction::South, 11, 11, 5, 5), Some((5, 6, 5, 7)));
    assert_eq!(carve_target(Direction::East, 11, 11, 5, 5), Some((6, 5, 7, 5)));
    assert_eq!(carve_target(Direction::West, 11, 11, 5, 5), Some((4, 5, 3, 5)));
    assert_eq!(carve_target(Direction::SouthWest, 11, 11, 5, 5), None);
    // the target has to lie strictly inside the border
    assert_eq!(carve_target(Direction::North, 11, 11, 5, 2), None);
    assert_eq!(carve_target(Direction::North, 11, 11, 5, 3), Some((5, 2, 5, 1)));
    assert_eq!(carve_target(Direction::South, 11, 11, 5, 8), None);
    assert_eq!(carve_target(Direction::South, 11, 11, 5, 7), Some((5, 8, 5, 9)));
    assert_eq!(carve_target(Direction::East, 11, 11, 8, 5), None);
    assert_eq!(carve_target(Direction::West, 11, 11, 2, 5), None);
    // a step along the border is none
    assert_eq!(carve_target(Direction::East, 11, 11, 4, 0), None);
    assert_eq!(carve_target(Direction::South, 11, 11, 0, 4), None);
    // a step off the border inwards is one
    assert_eq!(carve_target(Direction::South, 11, 11, 4, 0), Some((4, 1, 4, 2)));
    assert_eq!(carve_target(Direction::East, 1, 1, 0, 0), None);
}

#[test]
fn inner_neighbours_are_counted_by_kind() {
    let g = grid_of(&["#####", "#.#.#", "#...#", "#.#.#", "#####"]);
    // the middle: open to the sides, closed above and below
    assert_eq!(count_inner(&g, 2, 2, TileType::Floor), (2, 2));
    assert_eq!(count_inner(&g, 2, 2, TileType::Wall), (2, 2));
    // (2, 1): above it the border, beside it two open cells, below the middle
    assert_eq!(count_inner(&g, 2, 1, TileType::Floor), (3, 0));
    // a corner of the inside: two neighbours on the border do not count
    assert_eq!(count_inner(&g, 1, 1, TileType::Wall), (1, 1));
    // a cell of the border
    assert_eq!(count_inner(&g, 0, 0, TileType::Wall), (0, 0));
    assert_eq!(count_inner(&g, 0, 2, TileType::Floor), (1, 0));
}

#[test]
fn doorway_needs_two_open_and_two_closed_sides() {
    let g = grid_of(&["#######", "#######", "#..#..#", "#######", "#######"]);
    // (row, column)
    assert!(doorway(&g, (2, 3)));
    assert!(!doorway(&g, (2, 2)));
    assert!(!doorway(&g, (1, 3)));
    assert!(!doorway(&g, (2, 9)));
    assert!(!doorway(&g, (9, 3)));
    // beside the border a side is missing
    let g = grid_of(&["####", "..#.", "####"]);
    assert!(!doorway(&g, (1, 2)));
}

#[test]
fn find_door_takes_the_first() {
    let g = grid_of(&["#########", "#########", "#..#.#..#", "#########", "#########"]);
    assert_eq!(find_door(&g, &vec![(2, 5), (2, 3)]), Some(0));
    assert_eq!(find_door(&g, &vec![(1, 1), (2, 3), (2, 5)]), Some(1));
    assert_eq!(find_door(&g, &vec![(1, 1), (0, 0), (2, 4)]), None);
    assert_eq!(find_door(&g, &Vec::new()), None);
}

#[test]
fn dig_doors_opens_at_most_two() {
    // a room with a corridor along every side, one wall apart
    let mut g = DungeonS1::new(16, 16);
    let room = Rect::new(6, 6, 9, 9);
    carve_feature(&mut g, Feature::Room(room));
    for i in 2..14 {
        g.set(i, 4, TileType::Floor);
        g.set(i, 11, TileType::Floor);
        g.set(4, i, TileType::Floor);
        g.set(11, i, TileType::Floor);
    }
    let before = count(&g, TileType::Floor);
    let sides = vec![Direction::North, Direction::South, Direction::East, Direction::West];
    let doors = dig_doors(&mut g, &room, &sides);
    assert_eq!(doors, 2);
    assert_eq!(count(&g, TileType::Floor), before + 2);
    // the first cell of the strip to the north and of the strip to the south
    assert_eq!(g.get(6, 5), TileType::Floor);
    assert_eq!(g.get(6, 10), TileType::Floor);
    assert_eq!(g.get(7, 5), TileType::Wall);
    assert_eq!(g.get(10, 6), TileType::Wall);
    assert_eq!(g.get(5, 6), TileType::Wall);
}

#[test]
fn dig_doors_follows_the_order_of_the_sides() {
    let mut g = DungeonS1::new(16, 16);
    let room = Rect::new(6, 6, 9, 9);
    carve_feature(&mut g, Feature::Room(room));
    for i in 2..14 {
        g.set(i, 4, TileType::Floor);
        g.set(4, i, TileType::Floor);
    }
    let doors = dig_doors(&mut g, &room, &vec![Direction::West, Direction::South, Direction::North]);
    assert_eq!(doors, 2);
    assert_eq!(g.get(5, 6), TileType::Floor);
    assert_eq!(g.get(6, 5), TileType::Floor);
    assert_eq!(g.get(6, 10), TileType::Wall);
    let mut g = DungeonS1::new(16, 16);
    carve_feature(&mut g, Feature::Room(room));
    assert_eq!(dig_doors(&mut g, &room, &vec![Direction::West, Direction::North]), 0);
    assert_eq!(dig_doors(&mut g, &room, &Vec::new()), 0);
}

#[test]
fn dig_doors_needs_floor_on_both_sides_of_the_strip() {
    // a corridor two walls apart from the room leaves the strip without a
    // cell that can become a door
    let mut g = DungeonS1::new(16, 16);
    let room = Rect::new(6, 6, 9, 9);
    carve_feature(&mut g, Feature::Room(room));
    for i in 2..14 {
        g.set(i, 3, TileType::Floor);
    }
    let sides = vec![Direction::North, Direction::South, Direction::East, Direction::West];
    assert_eq!(dig_doors(&mut g, &room, &sides), 0);
    for x in 6..10 {
        assert_eq!(g.get(x, 5), TileType::Wall);
    }
}

#[test]
fn sweep_trims_a_dead_end_by_one() {
    let mut g = grid_of(&[
        "##########",
        "##########",
        "##..######",
        "##.....###",
        "##########",
        "##########",
    ]);
    sweep_dead_ends(&mut g);
    assert_eq!(
        rows_of(&g),
        vec![
            "##########",
            "##########",
            "##..######",
            "##....####",
            "##########",
            "##########"
        ]
    );
    let maze = Maze::new(MazeOptions::new());
    maze.remove_dead_ends(&mut g, 2);
    assert_eq!(rows_of(&g)[3], "##..######");
    maze.remove_dead_ends(&mut g, 5);
    assert_eq!(rows_of(&g)[2], "##..######");
    assert_eq!(rows_of(&g)[3], "##..######");
    maze.remove_dead_ends(&mut g, 0);
    assert_eq!(rows_of(&g)[3], "##..######");
}

#[test]
fn sweep_runs_along_with_the_rows() {
    // a corridor that is closed at both ends: the sweep fills the first
    // cell, finds the next one closed in on three sides, and so on
    let mut g = grid_of(&[
        "#########",
        "#########",
        "#########",
        "##.....##",
        "#########",
        "#########",
        "#########",
    ]);
    sweep_dead_ends(&mut g);
    assert_eq!(rows_of(&g), vec!["#########"; 7]);
}

#[test]
fn sweep_does_not_judge_by_the_border() {
    let mut g = grid_of(&["#######", "#######", "#.....#", "#######", "#######"]);
    sweep_dead_ends(&mut g);
    assert_eq!(rows_of(&g)[2], "#.....#");
}

#[test]
fn walk_opens_two_cells_for_every_step() {
    for seed in 0..10u64 {
        let mut rng = StdRng::seed_from_u64(seed);
        let mut g = DungeonS1::new(31, 21);
        g.set(15, 11, TileType::Debug);
        let steps = Maze::new(MazeOptions::new()).walk(&mut g, &mut rng, 15, 11);
        assert!(steps > 0);
        assert_eq!(count(&g, TileType::Floor), 2 * steps);
        assert_eq!(count(&g, TileType::Debug), 1);
        // the cells that the walk has been to lie two apart; with the first
        // one they are one more than the corridors between them
        let mut nodes = 0;
        let mut corridors = 0;
        for y in 0..21 {
            for x in 0..31 {
                if g.d[y][x] != TileType::Wall {
                    if x % 2 == 1 && y % 2 == 1 {
                        nodes += 1;
                    } else {
                        corridors += 1;
                    }
                }
            }
        }
        assert_eq!(nodes, steps + 1);
        assert_eq!(corridors, steps);
        // a walk over the whole map reaches every such cell
        assert_eq!(nodes, 15 * 10);
    }
}

#[test]
fn walk_stays_inside_the_border() {
    let mut rng = StdRng::seed_from_u64(3);
    let mut g = DungeonS1::new(12, 10);
    Maze::new(MazeOptions::new()).walk(&mut g, &mut rng, 4, 4);
    for x in 0..12 {
        assert_eq!(g.get(x, 0), TileType::Wall);
        assert_eq!(g.get(x, 9), TileType::Wall);
    }
    for y in 0..10 {
        assert_eq!(g.get(0, y), TileType::Wall);
        assert_eq!(g.get(11, y), TileType::Wall);
    }
}

#[test]
fn walk_takes_the_directions_in_a_random_order() {
    let mut firsts = Vec::new();
    for seed in 0..40u64 {
        let mut rng = StdRng::seed_from_u64(seed);
        // a map with nine places: the maze tells which way the walk went
        let mut g = DungeonS1::new(7, 7);
        Maze::new(MazeOptions::new()).walk(&mut g, &mut rng, 3, 3);
        let rows = rows_of(&g);
        if !firsts.contains(&rows) {
            firsts.push(rows);
        }
    }
    assert!(firsts.len() > 1);
}

#[test]
fn create_leaves_no_marker() {
    for seed in 0..10u64 {
        for (dead_ends, doors) in [(None, false), (Some(1), false), (Some(3), true), (None, true)] {
            let mut rng = StdRng::seed_from_u64(seed);
            let mut g = DungeonS1::new(40, 24);
            carve_feature(&mut g, Feature::Room(Rect::new(10, 8, 16, 12)));
            let options = MazeOptions::new().remove_dead_ends(dead_ends).connect_to_features(doors);
            let stats = Maze::new(options).create(&mut g, &mut rng);
            assert_eq!(count(&g, TileType::Debug), 0);
            assert!(stats.start.is_some());
            assert!(stats.doors <= 2);
            if !doors {
                assert_eq!(stats.doors, 0);
            }
            assert_eq!(g.features.len(), 1);
        }
    }
}

#[test]
fn create_counts_what_it_carves() {
    let mut rng = StdRng::seed_from_u64(5);
    let mut g = DungeonS1::new(41, 31);
    let stats = Maze::new(MazeOptions::new().remove_dead_ends(None)).create(&mut g, &mut rng);
    assert_eq!(count(&g, TileType::Floor), 2 * stats.steps + 1);
    let (sx, sy) = stats.start.unwrap();
    assert_eq!(g.get(sx, sy), TileType::Floor);
}

#[test]
fn create_keeps_away_from_features() {
    for seed in 0..10u64 {
        let mut rng = StdRng::seed_from_u64(seed);
        let mut g = DungeonS1::new(40, 24);
        carve_feature(&mut g, Feature::Room(Rect::new(10, 8, 16, 12)));
        carve_feature(&mut g, Feature::Tunnel(Rect::new(25, 4, 25, 18)));
        let before = g.copy_tiles();
        let features = g.clone();
        Maze::new(MazeOptions::new().remove_dead_ends(None)).create(&mut g, &mut rng);
        for y in 0..24 {
            for x in 0..40 {
                if g.d[y][x] != before[y][x] {
                    assert_eq!(before[y][x], TileType::Wall);
                    assert_eq!(g.d[y][x], TileType::Floor);
                    assert!(!point_intersects_features(&features, x, y));
                    // two cells and more from the room and from the tunnel,
                    // on every side
                    assert!(!((8..=18).contains(&x) && (6..=14).contains(&y)));
                    assert!(!((23..=27).contains(&x) && (2..=20).contains(&y)));
                }
            }
        }
    }
}

#[test]
fn create_without_a_free_cell_changes_nothing() {
    let mut rng = StdRng::seed_from_u64(5);
    let mut g = DungeonS1::new(10, 8);
    g.features.push(Feature::Room(Rect::new(0, 0, 9, 7)));
    let stats = Maze::new(MazeOptions::new().connect_to_features(true)).create(&mut g, &mut rng);
    assert!(stats.start.is_none());
    assert_eq!(stats.steps, 0);
    assert_eq!(stats.doors, 0);
    assert_eq!(rows_of(&g), vec!["##########"; 8]);
    let mut g = DungeonS1::new(0, 0);
    assert!(Maze::new(MazeOptions::new()).create(&mut g, &mut rng).start.is_none());
}

#[test]
fn create_starts_anywhere_outside_the_features() {
    let mut starts = Vec::new();
    for seed in 0..30u64 {
        let mut rng = StdRng::seed_from_u64(seed);
        let mut g = DungeonS1::new(20, 20);
        g.features.push(Feature::Room(Rect::new(2, 2, 12, 19)));
        let (sx, sy) = Maze::new(MazeOptions::new()).create(&mut g, &mut rng).start.unwrap();
        // the padded box takes the columns up to 12 of every row
        assert!(sx > 12 && sx < 20 && sy < 20, "{} {}", sx, sy);
        if !starts.contains(&(sx, sy)) {
            starts.push((sx, sy));
        }
    }
    assert!(starts.len() > 5);
}

#[test]
fn connect_to_features_opens_doors_where_a_corridor_runs_by() {
    for seed in 0..10u64 {
        let mut rng = StdRng::seed_from_u64(seed);
        let mut g = DungeonS1::new(41, 31);
        let room = Rect::new(14, 10, 22, 16);
        carve_feature(&mut g, Feature::Room(room));
        // a corridor one wall apart from the room, to the north and to the west
        for x in 12..25 {
            g.set(x, 8, TileType::Floor);
        }
        for y in 8..19 {
            g.set(12, y, TileType::Floor);
        }
        let before = count(&g, TileType::Floor);
        let doors = Maze::new(MazeOptions::new()).connect_to_features(&mut g, &mut rng);
        // whatever the order of the sides: the first cell of either strip
        assert_eq!(doors, 2);
        assert_eq!(count(&g, TileType::Floor), before + 2);
        assert_eq!(g.get(14, 9), TileType::Floor);
        assert_eq!(g.get(13, 10), TileType::Floor);
        assert_eq!(g.features, vec![Feature::Room(room)]);
    }
}

#[test]
fn connect_to_features_finds_no_door_behind_the_padding() {
    // the walk keeps two cells from the room, so every cell of a strip has
    // the room on one side and a wall on the other
    for seed in 0..10u64 {
        let mut rng = StdRng::seed_from_u64(seed);
        let mut g = DungeonS1::new(41, 31);
        carve_feature(&mut g, Feature::Room(Rect::new(14, 10, 22, 16)));
        let maze = Maze::new(MazeOptions::new());
        g.set(31, 21, TileType::Floor);
        let steps = maze.walk(&mut g, &mut rng, 31, 21);
        assert!(steps > 0);
        let before = rows_of(&g);
        let doors = maze.connect_to_features(&mut g, &mut rng);
        assert_eq!(doors, 0);
        assert_eq!(rows_of(&g), before);
    }
}

#[test]
fn walk_leaves_a_tree() {
    for seed in 0..10u64 {
        let mut rng = StdRng::seed_from_u64(seed);
        let (w, h) = (25usize, 17usize);
        let mut g = DungeonS1::new(w, h);
        g.set(5, 7, TileType::Debug);
        Maze::new(MazeOptions::new()).walk(&mut g, &mut rng, 5, 7);
        let open = |x: usize, y: usize| g.d[y][x] != TileType::Wall;
        let mut cells = 0;
        let mut sides = 0;
        for y in 0..h {
            for x in 0..w {
                if open(x, y) {
                    cells += 1;
                    if x + 1 < w && open(x + 1, y) {
                        sides += 1;
                    }
                    if y + 1 < h && open(x, y + 1) {
                        sides += 1;
                    }
                }
                // no square of two by two is open
                if x + 1 < w && y + 1 < h {
                    assert!(!(open(x, y) && open(x + 1, y) && open(x, y + 1) && open(x + 1, y + 1)));
                }
            }
        }
        // every open cell is reached from the first one
        let mut seen = vec![vec![false; w]; h];
        let mut todo = vec![(5usize, 7usize)];
        seen[7][5] = true;
        let mut reached = 0;
        while let Some((x, y)) = todo.pop() {
            reached += 1;
            let around = [(x + 1, y), (x.wrapping_sub(1), y), (x, y + 1), (x, y.wrapping_sub(1))];
            for (ax, ay) in around {
                if ax < w && ay < h && open(ax, ay) && !seen[ay][ax] {
                    seen[ay][ax] = true;
                    todo.push((ax, ay));
                }
            }
        }
        assert_eq!(reached, cells);
        // connected, with one pair of neighbours less than cells: no closed way
        assert_eq!(sides + 1, cells);
    }
}
