use mapgen::cellular::{next_tile, CellularAutomata, CellularAutomataOptions, JobType};
use mapgen::dun_s1::{DungeonS1, TileType};
use rand::rngs::StdRng;
use rand::SeedableRng;

fn grid_of(rows: &[&str]) -> DungeonS1 {
    let mut g = DungeonS1::new(rows[0].len(), rows.len());
    for (y, row) in rows.iter().enumerate() {
        for (x, c) in row.chars().enumerate() {
            g.set(x, y, if c == '#' { TileType::Wall } else { TileType::Floor });
        }
    }
    g
}

fn rows_of(g: &DungeonS1) -> Vec<String> {
    g.d.iter()
        .map(|r| r.iter().map(|t| if *t == TileType::Wall { '#' } else { '.' }).collect())
        .collect()
}

#[test]
fn cellular_defaults() {
    let o = CellularAutomataOptions::new();
    assert_eq!(o.open_space_percentage, 64);
    assert_eq!(o.wall_requirement, 6);
    assert_eq!(o.island_requirement, 2);
    assert!(o.schedule.is_empty());
}

#[test]
fn cellular_builders_set_one_field_each() {
    let o = CellularAutomataOptions::new()
        .open_space_percentage(40)
        .wall_requirement(5)
        .island_requirement(1)
        .schedule_job(JobType::RandomFill)
        .schedule_job(JobType::Generation(false));
    assert_eq!(o.open_space_percentage, 40);
    assert_eq!(o.wall_requirement, 5);
    assert_eq!(o.island_requirement, 1);
    assert_eq!(o.schedule, vec![JobType::RandomFill, JobType::Generation(false)]);
    let copy = o.duplicate();
    assert_eq!(copy.schedule, o.schedule);
    assert_eq!(copy.open_space_percentage, 40);
}

#[test]
fn rule_of_the_automaton() {
    // many walls around: wall
    assert_eq!(next_tile(6, 6, 2, false), TileType::Wall);
    assert_eq!(next_tile(8, 6, 2, true), TileType::Wall);
    // in between: floor
    assert_eq!(next_tile(5, 6, 2, false), TileType::Floor);
    assert_eq!(next_tile(3, 6, 2, true), TileType::Floor);
    // few walls around: wall only where islands are allowed
    assert_eq!(next_tile(2, 6, 2, true), TileType::Wall);
    assert_eq!(next_tile(0, 6, 2, true), TileType::Wall);
    assert_eq!(next_tile(2, 6, 2, false), TileType::Floor);
    assert_eq!(next_tile(0, 6, 2, false), TileType::Floor);
}

#[test]
fn schedule_fit() {
    let o = CellularAutomataOptions::new().schedule_job(JobType::FloorBar(5));
    assert!(o.fits(10));
    assert!(o.fits(9));
    assert!(!o.fits(8));
    assert!(CellularAutomataOptions::new().schedule_job(JobType::FloorBar(0)).fits(0));
    assert!(CellularAutomataOptions::new().schedule_job(JobType::RandomFill).fits(0));
}

#[test]
fn floor_bar_opens_the_middle_rows() {
    let mut g = DungeonS1::new(6, 7);
    CellularAutomata::new(CellularAutomataOptions::new()).floor_bar(&mut g, 2);
    assert_eq!(
        rows_of(&g),
        vec!["######", "######", "######", "......", "......", "######", "######"]
    );
}

#[test]
fn floor_bar_of_no_height_changes_nothing() {
    let mut g = DungeonS1::new(4, 4);
    CellularAutomata::new(CellularAutomataOptions::new()).floor_bar(&mut g, 0);
    assert_eq!(rows_of(&g), vec!["####", "####", "####", "####"]);
}

#[test]
fn generation_keeps_solid_rock() {
    let mut g = DungeonS1::new(6, 5);
    let ca = CellularAutomata::new(CellularAutomataOptions::new());
    ca.generation(&mut g, false);
    assert_eq!(rows_of(&g), vec!["######"; 5]);
    ca.generation(&mut g, true);
    assert_eq!(rows_of(&g), vec!["######"; 5]);
}

#[test]
fn generation_on_open_ground() {
    let ca = CellularAutomata::new(CellularAutomataOptions::new());
    // without islands nothing closes in
    let mut g = grid_of(&[".....", ".....", ".....", "....."]);
    ca.generation(&mut g, false);
    assert_eq!(rows_of(&g), vec![".....", ".....", ".....", "....."]);
    // with islands every judged cell has too few walls around and closes;
    // the last row and the last column are not judged
    let mut g = grid_of(&[".....", ".....", ".....", "....."]);
    ca.generation(&mut g, true);
    assert_eq!(rows_of(&g), vec!["####.", "####.", "####.", "....."]);
}

#[test]
fn generation_counts_the_eight_cells_around() {
    let ca = CellularAutomata::new(CellularAutomataOptions::new());
    // the middle cell has six walls around it
    let mut g = grid_of(&["###..", "#.#..", "#....", ".....", "....."]);
    ca.generation(&mut g, false);
    assert_eq!(g.get(1, 1), TileType::Wall);
    // with five it stays open
    let mut g = grid_of(&["###..", "#.#..", ".....", ".....", "....."]);
    ca.generation(&mut g, false);
    assert_eq!(g.get(1, 1), TileType::Floor);
    // a wall with five walls around it opens: the cell itself is not counted
    let mut g = grid_of(&["###..", "###..", ".....", ".....", "....."]);
    ca.generation(&mut g, false);
    assert_eq!(g.get(1, 1), TileType::Floor);
}

#[test]
fn generation_pulls_the_border_towards_the_nearest_cells() {
    let ca = CellularAutomata::new(CellularAutomataOptions::new());
    // the corner cell finds itself three times among the eight, the cells
    // next to it on the border twice each, the inner cell once
    let mut g = grid_of(&["#...", "....", "....", "...."]);
    ca.generation(&mut g, false);
    assert_eq!(g.get(0, 0), TileType::Floor);
    let mut g = grid_of(&["##..", "#...", "....", "...."]);
    ca.generation(&mut g, false);
    // three for the corner, two for each neighbour on the border
    assert_eq!(g.get(0, 0), TileType::Wall);
}

#[test]
fn generation_reads_the_grid_as_it_was() {
    let ca = CellularAutomata::new(CellularAutomataOptions::new().wall_requirement(1));
    // one wall; every judged cell next to it becomes a wall, and no further
    // cell does, although the cells are written one after the other
    let mut g = grid_of(&[".....", ".....", "..#..", ".....", ".....", "....."]);
    ca.generation(&mut g, false);
    assert_eq!(rows_of(&g), vec![".....", ".###.", ".#.#.", ".###.", ".....", "....."]);
}

#[test]
fn generation_is_repeatable() {
    let opts = CellularAutomataOptions::new();
    let mut a = DungeonS1::new(30, 20);
    a.rand_fill(&mut StdRng::seed_from_u64(77), 64);
    let mut b = DungeonS1::new(30, 20);
    b.rand_fill(&mut StdRng::seed_from_u64(77), 64);
    let ca = CellularAutomata::new(opts);
    ca.generation(&mut a, true);
    ca.generation(&mut b, true);
    assert_eq!(a.d, b.d);
    ca.generation(&mut a, false);
    ca.generation(&mut b, false);
    assert_eq!(a.d, b.d);
}

#[test]
fn generation_on_an_empty_grid() {
    let ca = CellularAutomata::new(CellularAutomataOptions::new());
    let mut g = DungeonS1::new(0, 0);
    ca.generation(&mut g, true);
    assert!(g.d.is_empty());
    let mut g = DungeonS1::new(1, 1);
    g.set(0, 0, TileType::Floor);
    ca.generation(&mut g, true);
    assert_eq!(g.get(0, 0), TileType::Floor);
}

#[test]
fn do_work_runs_the_jobs_in_order() {
    let mut rng = StdRng::seed_from_u64(1);
    // the bar comes last: the middle row is open
    let opts = CellularAutomataOptions::new()
        .open_space_percentage(0)
        .schedule_job(JobType::RandomFill)
        .schedule_job(JobType::FloorBar(1));
    let mut g = DungeonS1::new(5, 4);
    CellularAutomata::new(opts).do_work(&mut g, &mut rng);
    assert_eq!(rows_of(&g), vec!["#####", "#####", ".....", "#####"]);
    // the fill comes last: the bar is gone
    let opts = CellularAutomataOptions::new()
        .open_space_percentage(0)
        .schedule_job(JobType::FloorBar(1))
        .schedule_job(JobType::RandomFill);
    let mut g = DungeonS1::new(5, 4);
    CellularAutomata::new(opts).do_work(&mut g, &mut rng);
    assert_eq!(rows_of(&g), vec!["#####"; 4]);
}

#[test]
fn do_work_with_an_empty_schedule_changes_nothing() {
    let mut rng = StdRng::seed_from_u64(1);
    let mut g = grid_of(&["#.#", ".#."]);
    CellularAutomata::new(CellularAutomataOptions::new()).do_work(&mut g, &mut rng);
    assert_eq!(rows_of(&g), vec!["#.#", ".#."]);
}

fn cave(seed: u64) -> DungeonS1 {
    let mut opts = CellularAutomataOptions::new()
        .open_space_percentage(64)
        .schedule_job(JobType::RandomFill)
        .schedule_job(JobType::FloorBar(1));
    for _ in 0..3 {
        opts = opts.schedule_job(JobType::Generation(true));
    }
    for _ in 0..4 {
        opts = opts.schedule_job(JobType::Generation(false));
    }
    let mut rng = StdRng::seed_from_u64(seed);
    let mut g = DungeonS1::new(205, 66);
    CellularAutomata::new(opts).do_work(&mut g, &mut rng);
    g
}

#[test]
fn cave_scenario_keeps_the_bar_open_and_repeats() {
    for seed in [1u64, 2, 3, 2024] {
        let g = cave(seed);
        assert_eq!(g.width, 205);
        assert_eq!(g.height, 66);
        assert!(g.d[33].iter().any(|t| *t == TileType::Floor), "seed {}", seed);
        assert!(g.d.iter().flatten().all(|t| *t != TileType::Debug));
        let again = cave(seed);
        assert_eq!(g.d, again.d, "seed {}", seed);
    }
    assert_ne!(cave(1).d, cave(2).d);
}
