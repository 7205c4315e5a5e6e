//! Cave-like terrain from a random fill that a cellular automaton smooths.

use vstd::prelude::*;
use rand::rngs::StdRng;
use crate::dun_s1::{may_fill, DungeonS1, TileType};
use crate::utils::{get_all_neighbors, lemma_neighbors_in_bounds, spec_neighbors};

verus! {

/// One step of a schedule.
#[derive(Copy, Clone, Debug, PartialEq, Eq, Structural)]
pub enum JobType {
    /// Fill every cell at random.
    RandomFill,
    /// Run the automaton once; the flag says whether islands are allowed.
    Generation(bool),
    /// Open a horizontal band of the given height, starting at the middle
    /// row.
    FloorBar(usize),
}

/// Configuration of the automaton.
#[derive(Clone, Debug)]
pub struct CellularAutomataOptions {
    /// The chance in a hundred that a random fill opens a cell.
    pub open_space_percentage: usize,
    /// A cell with this many walls around it, or more, becomes a wall.
    pub wall_requirement: usize,
    /// Where islands are allowed, a cell with this many walls around it, or
    /// fewer, becomes a wall too.
    pub island_requirement: usize,
    /// The jobs to run, in this order.
    pub schedule: Vec<JobType>,
}

impl CellularAutomataOptions {
    pub fn new() -> (o: CellularAutomataOptions)
        ensures
            o.open_space_percentage == 64,
            o.wall_requirement == 6,
            o.island_requirement == 2,
            o.schedule@.len() == 0,
    {
        CellularAutomataOptions {
            open_space_percentage: 64,
            wall_requirement: 6,
            island_requirement: 2,
            schedule: Vec::new(),
        }
    }

    /// A copy of the configuration.
    pub fn duplicate(&self) -> (o: CellularAutomataOptions)
        ensures
            o.open_space_percentage == self.open_space_percentage,
            o.wall_requirement == self.wall_requirement,
            o.island_requirement == self.island_requirement,
            o.schedule@ == self.schedule@,
    {
        let mut schedule: Vec<JobType> = Vec::new();
        let mut i: usize = 0;
        while i < self.schedule.len()
            invariant
                i <= self.schedule.len(),
                schedule@ == self.schedule@.take(i as int),
            decreases self.schedule.len() - i,
        {
            schedule.push(self.schedule[i]);
            assert(self.schedule@.take(i as int + 1) =~= self.schedule@.take(i as int).push(
                self.schedule@[i as int],
            ));
            i = i + 1;
        }
        assert(self.schedule@.take(self.schedule@.len() as int) =~= self.schedule@);
        CellularAutomataOptions {
            open_space_percentage: self.open_space_percentage,
            wall_requirement: self.wall_requirement,
            island_requirement: self.island_requirement,
            schedule,
        }
    }

    /// Appends a job to the schedule.
    pub fn schedule_job(self, job: JobType) -> (o: CellularAutomataOptions)
        ensures
            o.schedule@ == self.schedule@.push(job),
            o.open_space_percentage == self.open_space_percentage,
            o.wall_requirement == self.wall_requirement,
            o.island_requirement == self.island_requirement,
    {
        let mut o = self;
        o.schedule.push(job);
        o
    }

    pub fn open_space_percentage(self, chance: usize) -> (o: CellularAutomataOptions)
        ensures
            o.open_space_percentage == chance,
            o.wall_requirement == self.wall_requirement,
            o.island_requirement == self.island_requirement,
            o.schedule@ == self.schedule@,
    {
        let mut o = self;
        o.open_space_percentage = chance;
        o
    }

    pub fn wall_requirement(self, requirement: usize) -> (o: CellularAutomataOptions)
        ensures
            o.wall_requirement == requirement,
            o.open_space_percentage == self.open_space_percentage,
            o.island_requirement == self.island_requirement,
            o.schedule@ == self.schedule@,
    {
        let mut o = self;
        o.wall_requirement = requirement;
        o
    }

    pub fn island_requirement(self, requirement: usize) -> (o: CellularAutomataOptions)
        ensures
            o.island_requirement == requirement,
            o.open_space_percentage == self.open_space_percentage,
            o.wall_requirement == self.wall_requirement,
            o.schedule@ == self.schedule@,
    {
        let mut o = self;
        o.island_requirement = requirement;
        o
    }
}

/// A grid of tiles with `height` rows of `width` cells.
pub open spec fn is_grid(tiles: Seq<Seq<TileType>>, width: int, height: int) -> bool {
    &&& tiles.len() == height
    &&& forall|y: int| 0 <= y < height ==> (#[trigger] tiles[y]).len() == width
}

/// How many of the first `upto` of the eight cells around `(x, y)` are
/// walls. A cell that stands twice among the eight counts twice.
pub open spec fn walls_among(
    tiles: Seq<Seq<TileType>>,
    width: int,
    height: int,
    x: int,
    y: int,
    upto: int,
) -> int
    decreases upto,
{
    if upto <= 0 {
        0
    } else {
        let c = spec_neighbors(width, height, x, y)[upto - 1];
        walls_among(tiles, width, height, x, y, upto - 1) + if tiles[c.0][c.1] == TileType::Wall {
            1int
        } else {
            0int
        }
    }
}

/// How many of the eight cells around `(x, y)` are walls.
pub open spec fn wall_neighbors(
    tiles: Seq<Seq<TileType>>,
    width: int,
    height: int,
    x: int,
    y: int,
) -> int {
    walls_among(tiles, width, height, x, y, 8)
}

/// The rule of the automaton: what a cell becomes, given the number of
/// walls around it.
pub open spec fn spec_next_tile(
    walls: int,
    wall_requirement: int,
    island_requirement: int,
    allow_islands: bool,
) -> TileType {
    if walls >= wall_requirement {
        TileType::Wall
    } else if allow_islands && walls <= island_requirement {
        TileType::Wall
    } else {
        TileType::Floor
    }
}

/// The rule of the automaton.
pub fn next_tile(
    walls: usize,
    wall_requirement: usize,
    island_requirement: usize,
    allow_islands: bool,
) -> (t: TileType)
    ensures
        t == spec_next_tile(
            walls as int,
            wall_requirement as int,
            island_requirement as int,
            allow_islands,
        ),
{
    if walls >= wall_requirement {
        TileType::Wall
    } else if allow_islands && walls <= island_requirement {
        TileType::Wall
    } else {
        TileType::Floor
    }
}

/// `post` is `pre` after one step of the automaton: every cell but those of
/// the last row and the last column follows the rule, applied to the walls
/// that stood around it in `pre`; the last row and the last column stay.
pub open spec fn is_generation(
    pre: Seq<Seq<TileType>>,
    post: Seq<Seq<TileType>>,
    width: int,
    height: int,
    wall_requirement: int,
    island_requirement: int,
    allow_islands: bool,
) -> bool {
    &&& is_grid(post, width, height)
    &&& forall|x: int, y: int|
        0 <= x < width && 0 <= y < height ==> #[trigger] post[y][x] == if x < width - 1 && y
            < height - 1 {
            spec_next_tile(
                wall_neighbors(pre, width, height, x, y),
                wall_requirement,
                island_requirement,
                allow_islands,
            )
        } else {
            pre[y][x]
        }
}

/// The first row of a floor bar: the middle one.
pub open spec fn bar_start(height: int) -> int {
    height / 2
}

/// `post` is `pre` with a floor bar of `bar` rows: the rows from the middle
/// one on are floor, the others stay.
pub open spec fn is_floor_bar(
    pre: Seq<Seq<TileType>>,
    post: Seq<Seq<TileType>>,
    width: int,
    height: int,
    bar: int,
) -> bool {
    &&& is_grid(post, width, height)
    &&& forall|x: int, y: int|
        0 <= x < width && 0 <= y < height ==> #[trigger] post[y][x] == if bar_start(height) <= y
            < bar_start(height) + bar {
            TileType::Floor
        } else {
            pre[y][x]
        }
}

/// `post` is some outcome of a random fill.
pub open spec fn is_random_fill(
    post: Seq<Seq<TileType>>,
    width: int,
    height: int,
    open_space_percentage: int,
) -> bool {
    &&& is_grid(post, width, height)
    &&& forall|x: int, y: int|
        0 <= x < width && 0 <= y < height ==> may_fill(#[trigger] post[y][x], open_space_percentage)
}

/// `post` is what one job can make of `pre`.
pub open spec fn is_job(
    pre: Seq<Seq<TileType>>,
    post: Seq<Seq<TileType>>,
    width: int,
    height: int,
    options: CellularAutomataOptions,
    job: JobType,
) -> bool {
    match job {
        JobType::RandomFill => is_random_fill(
            post,
            width,
            height,
            options.open_space_percentage as int,
        ),
        JobType::Generation(allow_islands) => is_generation(
            pre,
            post,
            width,
            height,
            options.wall_requirement as int,
            options.island_requirement as int,
            allow_islands,
        ),
        JobType::FloorBar(bar) => is_floor_bar(pre, post, width, height, bar as int),
    }
}

/// `trace` holds the grid before the first job and the grid after each job
/// of a run that leads from `pre` to `post`.
pub open spec fn is_trace(
    trace: Seq<Seq<Seq<TileType>>>,
    pre: Seq<Seq<TileType>>,
    post: Seq<Seq<TileType>>,
    width: int,
    height: int,
    options: CellularAutomataOptions,
    jobs: Seq<JobType>,
) -> bool {
    &&& trace.len() == jobs.len() + 1
    &&& trace[0] == pre
    &&& trace[jobs.len() as int] == post
    &&& forall|i: int|
        0 <= i < jobs.len() ==> is_job(
            trace[i],
            #[trigger] trace[i + 1],
            width,
            height,
            options,
            jobs[i],
        )
}

/// `post` is what the jobs, run one after the other, can make of `pre`.
pub open spec fn is_schedule(
    pre: Seq<Seq<TileType>>,
    post: Seq<Seq<TileType>>,
    width: int,
    height: int,
    options: CellularAutomataOptions,
    jobs: Seq<JobType>,
) -> bool {
    exists|trace: Seq<Seq<Seq<TileType>>>|
        #[trigger] is_trace(trace, pre, post, width, height, options, jobs)
}

/// Whether a floor bar of `bar` rows fits a grid of `height` rows.
pub open spec fn bar_fits(height: int, bar: int) -> bool {
    bar_start(height) + bar <= height
}

/// Whether every floor bar of a schedule fits a grid of `height` rows.
pub open spec fn schedule_fits(jobs: Seq<JobType>, height: int) -> bool {
    forall|i: int|
        0 <= i < jobs.len() ==> (#[trigger] jobs[i] matches JobType::FloorBar(bar) ==> bar_fits(
            height,
            bar as int,
        ))
}

/// No job of the schedule draws a random number.
pub open spec fn draws_nothing(jobs: Seq<JobType>) -> bool {
    forall|i: int| 0 <= i < jobs.len() ==> #[trigger] jobs[i] != JobType::RandomFill
}

/// A job that draws nothing has one outcome.
pub proof fn lemma_job_deterministic(
    pre: Seq<Seq<TileType>>,
    post1: Seq<Seq<TileType>>,
    post2: Seq<Seq<TileType>>,
    width: int,
    height: int,
    options: CellularAutomataOptions,
    job: JobType,
)
    requires
        job != JobType::RandomFill,
        is_job(pre, post1, width, height, options, job),
        is_job(pre, post2, width, height, options, job),
    ensures
        post1 == post2,
{
    assert forall|y: int| 0 <= y < height implies post1[y] == post2[y] by {
        assert forall|x: int| 0 <= x < width implies post1[y][x] == post2[y][x] by {
            let a = post1[y][x];
            let b = post2[y][x];
        }
        assert(post1[y] =~= post2[y]);
    }
    assert(post1 =~= post2);
}

/// Whether the random fills of two runs of a schedule came out the same:
/// the grids after every random fill are equal.
pub open spec fn same_fills(
    trace1: Seq<Seq<Seq<TileType>>>,
    trace2: Seq<Seq<Seq<TileType>>>,
    jobs: Seq<JobType>,
) -> bool {
    forall|i: int|
        0 <= i < jobs.len() && jobs[i] == JobType::RandomFill ==> #[trigger] trace1[i + 1]
            == trace2[i + 1]
}

/// Two runs of a schedule whose random fills came out the same pass through
/// the same grids.
proof fn lemma_traces_agree(
    trace1: Seq<Seq<Seq<TileType>>>,
    trace2: Seq<Seq<Seq<TileType>>>,
    pre: Seq<Seq<TileType>>,
    post1: Seq<Seq<TileType>>,
    post2: Seq<Seq<TileType>>,
    width: int,
    height: int,
    options: CellularAutomataOptions,
    jobs: Seq<JobType>,
    upto: int,
)
    requires
        same_fills(trace1, trace2, jobs),
        is_trace(trace1, pre, post1, width, height, options, jobs),
        is_trace(trace2, pre, post2, width, height, options, jobs),
        0 <= upto <= jobs.len(),
    ensures
        trace1[upto] == trace2[upto],
    decreases upto,
{
    if upto > 0 {
        lemma_traces_agree(
            trace1,
            trace2,
            pre,
            post1,
            post2,
            width,
            height,
            options,
            jobs,
            upto - 1,
        );
        assert(is_job(trace1[upto - 1], trace1[upto - 1 + 1], width, height, options, jobs[upto - 1]));
        assert(is_job(trace2[upto - 1], trace2[upto - 1 + 1], width, height, options, jobs[upto - 1]));
        if jobs[upto - 1] == JobType::RandomFill {
            assert(trace1[upto - 1 + 1] == trace2[upto - 1 + 1]);
        } else {
            lemma_job_deterministic(
                trace1[upto - 1],
                trace1[upto],
                trace2[upto],
                width,
                height,
                options,
                jobs[upto - 1],
            );
        }
    }
}

/// The automaton hides no source of chance: a schedule of generations and
/// floor bars, run twice on the same grid with the same options, yields the
/// same grid, cell for cell.
pub proof fn lemma_schedule_deterministic(
    pre: Seq<Seq<TileType>>,
    post1: Seq<Seq<TileType>>,
    post2: Seq<Seq<TileType>>,
    width: int,
    height: int,
    options: CellularAutomataOptions,
    jobs: Seq<JobType>,
)
    requires
        draws_nothing(jobs),
        is_schedule(pre, post1, width, height, options, jobs),
        is_schedule(pre, post2, width, height, options, jobs),
    ensures
        post1 == post2,
{
    let trace1 = choose|trace: Seq<Seq<Seq<TileType>>>|
        #[trigger] is_trace(trace, pre, post1, width, height, options, jobs);
    let trace2 = choose|trace: Seq<Seq<Seq<TileType>>>|
        #[trigger] is_trace(trace, pre, post2, width, height, options, jobs);
    assert(same_fills(trace1, trace2, jobs));
    lemma_traces_agree(
        trace1,
        trace2,
        pre,
        post1,
        post2,
        width,
        height,
        options,
        jobs,
        jobs.len() as int,
    );
}

/// Chance enters a run through its random fills alone: two runs of a
/// schedule on the same grid with the same options, whose random fills came
/// out the same, end in the same grid, cell for cell.
pub proof fn lemma_run_follows_the_fills(
    trace1: Seq<Seq<Seq<TileType>>>,
    trace2: Seq<Seq<Seq<TileType>>>,
    pre: Seq<Seq<TileType>>,
    post1: Seq<Seq<TileType>>,
    post2: Seq<Seq<TileType>>,
    width: int,
    height: int,
    options: CellularAutomataOptions,
    jobs: Seq<JobType>,
)
    requires
        is_trace(trace1, pre, post1, width, height, options, jobs),
        is_trace(trace2, pre, post2, width, height, options, jobs),
        same_fills(trace1, trace2, jobs),
    ensures
        post1 == post2,
{
    lemma_traces_agree(
        trace1,
        trace2,
        pre,
        post1,
        post2,
        width,
        height,
        options,
        jobs,
        jobs.len() as int,
    );
}

/// What a schedule makes of a grid depends on the three numbers of the
/// configuration alone.
pub proof fn lemma_schedule_reads_numbers(
    pre: Seq<Seq<TileType>>,
    post: Seq<Seq<TileType>>,
    width: int,
    height: int,
    a: CellularAutomataOptions,
    b: CellularAutomataOptions,
    jobs: Seq<JobType>,
)
    requires
        a.open_space_percentage == b.open_space_percentage,
        a.wall_requirement == b.wall_requirement,
        a.island_requirement == b.island_requirement,
        is_schedule(pre, post, width, height, a, jobs),
    ensures
        is_schedule(pre, post, width, height, b, jobs),
{
    let trace = choose|trace: Seq<Seq<Seq<TileType>>>|
        #[trigger] is_trace(trace, pre, post, width, height, a, jobs);
    assert forall|i: int| 0 <= i < jobs.len() implies is_job(
        trace[i],
        #[trigger] trace[i + 1],
        width,
        height,
        b,
        jobs[i],
    ) by {
        assert(is_job(trace[i], trace[i + 1], width, height, a, jobs[i]));
    }
    assert(is_trace(trace, pre, post, width, height, b, jobs));
}

/// Every job leaves a grid of walls and floors as one.
pub proof fn lemma_job_settles(
    pre: Seq<Seq<TileType>>,
    post: Seq<Seq<TileType>>,
    width: int,
    height: int,
    options: CellularAutomataOptions,
    job: JobType,
)
    requires
        is_grid(pre, width, height),
        is_job(pre, post, width, height, options, job),
        forall|x: int, y: int|
            0 <= x < width && 0 <= y < height ==> #[trigger] pre[y][x] != TileType::Debug,
    ensures
        forall|x: int, y: int|
            0 <= x < width && 0 <= y < height ==> #[trigger] post[y][x] != TileType::Debug,
{
    assert forall|x: int, y: int| 0 <= x < width && 0 <= y < height implies #[trigger] post[y][x]
        != TileType::Debug by {
        let a = pre[y][x];
    }
}

impl CellularAutomataOptions {
    /// Tests whether every floor bar of the schedule fits a map of the
    /// given height.
    pub fn fits(&self, height: usize) -> (b: bool)
        ensures
            b == schedule_fits(self.schedule@, height as int),
    {
        let half: usize = height / 2;
        let mut i: usize = 0;
        while i < self.schedule.len()
            invariant
                i <= self.schedule.len(),
                half == bar_start(height as int),
                forall|k: int|
                    0 <= k < i ==> (#[trigger] self.schedule@[k] matches JobType::FloorBar(bar)
                        ==> bar_fits(height as int, bar as int)),
            decreases self.schedule.len() - i,
        {
            match self.schedule[i] {
                JobType::FloorBar(bar) => {
                    if bar > height - half {
                        return false;
                    }
                },
                _ => {},
            }
            i = i + 1;
        }
        true
    }
}

/// The automaton: a configuration that can be run on any grid.
#[derive(Clone, Debug)]
pub struct CellularAutomata {
    pub options: CellularAutomataOptions,
}

impl CellularAutomata {
    pub fn new(opt: CellularAutomataOptions) -> (ca: CellularAutomata)
        ensures
            ca.options == opt,
    {
        CellularAutomata { options: opt }
    }

    /// Runs the schedule, job after job.
    #[verifier::rlimit(50)]
    pub fn do_work(&self, map: &mut DungeonS1, rng: &mut StdRng)
        requires
            old(map).wf(),
            schedule_fits(self.options.schedule@, old(map).height as int),
        ensures
            final(map).wf(),
            final(map).same_frame(old(map)),
            is_schedule(
                old(map).tiles(),
                final(map).tiles(),
                old(map).width as int,
                old(map).height as int,
                self.options,
                self.options.schedule@,
            ),
            old(map).settled() ==> final(map).settled(),
    {
        let ghost jobs = self.options.schedule@;
        let ghost width = map.width as int;
        let ghost height = map.height as int;
        let ghost mut trace: Seq<Seq<Seq<TileType>>> = seq![map.tiles()];
        let n: usize = self.options.schedule.len();
        let mut i: usize = 0;
        while i < n
            invariant
                i <= n,
                n == jobs.len(),
                jobs == self.options.schedule@,
                map.wf(),
                map.same_frame(old(map)),
                width == map.width,
                height == map.height,
                schedule_fits(jobs, height),
                trace.len() == i + 1,
                trace[0] == old(map).tiles(),
                trace[i as int] == map.tiles(),
                forall|k: int|
                    0 <= k < i ==> is_job(
                        trace[k],
                        #[trigger] trace[k + 1],
                        width,
                        height,
                        self.options,
                        jobs[k],
                    ),
                old(map).settled() ==> map.settled(),
            decreases n - i,
        {
            let job: JobType = self.options.schedule[i];
            let ghost before = map.tiles();
            let ghost was_settled = map.settled();
            proof {
                if was_settled {
                    assert forall|x: int, y: int|
                        0 <= x < width && 0 <= y < height implies #[trigger] before[y][x]
                        != TileType::Debug by {
                        assert(before[y][x] == map.at(x, y));
                    }
                }
            }
            match job {
                JobType::RandomFill => self.random_fill(map, rng),
                JobType::Generation(allow) => self.generation(map, allow),
                JobType::FloorBar(bar) => self.floor_bar(map, bar),
            }
            proof {
                let after = map.tiles();
                let longer = trace.push(after);
                assert forall|k: int| 0 <= k < i + 1 implies is_job(
                    longer[k],
                    #[trigger] longer[k + 1],
                    width,
                    height,
                    self.options,
                    jobs[k],
                ) by {
                    if k < i {
                        assert(is_job(trace[k], trace[k + 1], width, height, self.options, jobs[k]));
                    }
                }
                trace = longer;
                if was_settled {
                    lemma_job_settles(before, after, width, height, self.options, job);
                    assert forall|x: int, y: int| map.in_bounds(x, y) implies #[trigger] map.at(
                        x,
                        y,
                    ) != TileType::Debug by {
                        assert(after[y][x] == map.at(x, y));
                    }
                }
            }
            i = i + 1;
        }
        assert(is_trace(
            trace,
            old(map).tiles(),
            map.tiles(),
            width,
            height,
            self.options,
            jobs,
        ));
    }

    /// Fills the grid at random.
    pub fn random_fill(&self, map: &mut DungeonS1, rng: &mut StdRng)
        requires
            old(map).wf(),
        ensures
            final(map).wf(),
            final(map).same_frame(old(map)),
            is_random_fill(
                final(map).tiles(),
                old(map).width as int,
                old(map).height as int,
                self.options.open_space_percentage as int,
            ),
    {
        map.rand_fill(rng, self.options.open_space_percentage);
        proof {
            let post = map.tiles();
            assert forall|x: int, y: int|
                0 <= x < map.width && 0 <= y < map.height implies may_fill(
                #[trigger] post[y][x],
                self.options.open_space_percentage as int,
            ) by {
                assert(post[y][x] == map.at(x, y));
            }
        }
    }

    /// Opens a horizontal band of `height` rows, starting at the middle row,
    /// so that no wall can split the map from side to side.
    #[verifier::rlimit(50)]
    pub fn floor_bar(&self, map: &mut DungeonS1, height: usize)
        requires
            old(map).wf(),
            bar_fits(old(map).height as int, height as int),
        ensures
            final(map).wf(),
            final(map).same_frame(old(map)),
            is_floor_bar(
                old(map).tiles(),
                final(map).tiles(),
                old(map).width as int,
                old(map).height as int,
                height as int,
            ),
    {
        let halfway: usize = map.height / 2;
        let end: usize = halfway + height;
        let mut y: usize = halfway;
        while y < end
            invariant
                halfway <= y <= end,
                end <= map.height,
                halfway == bar_start(map.height as int),
                map.wf(),
                map.same_frame(old(map)),
                forall|i: int, j: int|
                    map.in_bounds(i, j) ==> #[trigger] map.at(i, j) == if halfway <= j
                        < y {
                        TileType::Floor
                    } else {
                        old(map).at(i, j)
                    },
            decreases end - y,
        {
            let mut x: usize = 0;
            while x < map.width
                invariant
                    halfway <= y < end,
                    end <= map.height,
                    x <= map.width,
                    map.wf(),
                    map.same_frame(old(map)),
                    forall|i: int, j: int|
                        map.in_bounds(i, j) ==> #[trigger] map.at(i, j) == if halfway
                            <= j < y || (j == y && i < x) {
                            TileType::Floor
                        } else {
                            old(map).at(i, j)
                        },
                decreases map.width - x,
            {
                map.set(x, y, TileType::Floor);
                x = x + 1;
            }
            y = y + 1;
        }
        proof {
            let pre = old(map).tiles();
            let post = map.tiles();
            assert forall|i: int, j: int|
                0 <= i < map.width && 0 <= j < map.height implies #[trigger] post[j][i]
                == if bar_start(map.height as int) <= j < bar_start(map.height as int)
                + height {
                TileType::Floor
            } else {
                pre[j][i]
            } by {
                assert(post[j][i] == map.at(i, j));
            }
        }
    }

    /// Counts the walls among the eight cells around `(x, y)`.
    #[verifier::rlimit(50)]
    fn count_walls(tiles: &Vec<Vec<TileType>>, width: usize, height: usize, x: usize, y: usize) -> (walls:
        usize)
        requires
            tiles.len() == height,
            forall|j: int| 0 <= j < height ==> (#[trigger] tiles[j]).len() == width,
            x < width,
            y < height,
        ensures
            walls == wall_neighbors(
                Seq::new(tiles.len() as nat, |j: int| tiles[j]@),
                width as int,
                height as int,
                x as int,
                y as int,
            ),
            walls <= 8,
    {
        let ghost view = Seq::new(tiles.len() as nat, |j: int| tiles[j]@);
        let around: [(usize, usize); 8] = get_all_neighbors(width, height, x, y);
        proof {
            lemma_neighbors_in_bounds(width as int, height as int, x as int, y as int);
        }
        let mut walls: usize = 0;
        let mut k: usize = 0;
        while k < 8
            invariant
                k <= 8,
                walls <= k,
                tiles.len() == height,
                forall|j: int| 0 <= j < height ==> (#[trigger] tiles[j]).len() == width,
                view == Seq::new(tiles.len() as nat, |j: int| tiles[j]@),
                around@.len() == 8,
                forall|m: int|
                    0 <= m < 8 ==> (#[trigger] around@[m]).0 == spec_neighbors(
                        width as int,
                        height as int,
                        x as int,
                        y as int,
                    )[m].0 && around@[m].1 == spec_neighbors(
                        width as int,
                        height as int,
                        x as int,
                        y as int,
                    )[m].1,
                forall|m: int|
                    0 <= m < 8 ==> 0 <= (#[trigger] spec_neighbors(
                        width as int,
                        height as int,
                        x as int,
                        y as int,
                    )[m]).0 < height && 0 <= spec_neighbors(
                        width as int,
                        height as int,
                        x as int,
                        y as int,
                    )[m].1 < width,
                walls == walls_among(view, width as int, height as int, x as int, y as int, k as int),
            decreases 8 - k,
        {
            let c: (usize, usize) = around[k];
            assert(c == around@[k as int]);
            let ghost s = spec_neighbors(width as int, height as int, x as int, y as int)[k as int];
            assert(c.0 == s.0 && c.1 == s.1);
            assert(view[c.0 as int][c.1 as int] == tiles[c.0 as int][c.1 as int]);
            if tiles[c.0][c.1] == TileType::Wall {
                walls = walls + 1;
            }
            k = k + 1;
        }
        walls
    }

    /// Runs the automaton once. Every cell is judged by the walls that stood
    /// around it before the step began.
    #[verifier::rlimit(50)]
    pub fn generation(&self, map: &mut DungeonS1, allow_islands: bool)
        requires
            old(map).wf(),
        ensures
            final(map).wf(),
            final(map).same_frame(old(map)),
            is_generation(
                old(map).tiles(),
                final(map).tiles(),
                old(map).width as int,
                old(map).height as int,
                self.options.wall_requirement as int,
                self.options.island_requirement as int,
                allow_islands,
            ),
    {
        let width: usize = map.width;
        let height: usize = map.height;
        let ghost pre = map.tiles();
        if width == 0 || height == 0 {
            return ;
        }
        let oldmap: Vec<Vec<TileType>> = map.copy_tiles();
        assert(Seq::new(oldmap.len() as nat, |j: int| oldmap[j]@) =~= pre);
        let mut y: usize = 0;
        while y < height - 1
            invariant
                y <= height - 1,
                width >= 1,
                height >= 1,
                width == map.width,
                height == map.height,
                map.wf(),
                map.same_frame(old(map)),
                pre == old(map).tiles(),
                oldmap.len() == height,
                forall|j: int| 0 <= j < height ==> (#[trigger] oldmap[j]).len() == width,
                Seq::new(oldmap.len() as nat, |j: int| oldmap[j]@) == pre,
                forall|i: int, j: int|
                    map.in_bounds(i, j) ==> #[trigger] map.at(i, j) == if i < width - 1
                        && j < y {
                        spec_next_tile(
                            wall_neighbors(pre, width as int, height as int, i, j),
                            self.options.wall_requirement as int,
                            self.options.island_requirement as int,
                            allow_islands,
                        )
                    } else {
                        pre[j][i]
                    },
            decreases height - 1 - y,
        {
            let mut x: usize = 0;
            while x < width - 1
                invariant
                    y < height - 1,
                    x <= width - 1,
                    width >= 1,
                    height >= 1,
                    width == map.width,
                    height == map.height,
                    map.wf(),
                    map.same_frame(old(map)),
                    pre == old(map).tiles(),
                    oldmap.len() == height,
                    forall|j: int| 0 <= j < height ==> (#[trigger] oldmap[j]).len() == width,
                    Seq::new(oldmap.len() as nat, |j: int| oldmap[j]@) == pre,
                    forall|i: int, j: int|
                        map.in_bounds(i, j) ==> #[trigger] map.at(i, j) == if i < width
                            - 1 && (j < y || (j == y && i < x)) {
                            spec_next_tile(
                                wall_neighbors(pre, width as int, height as int, i, j),
                                self.options.wall_requirement as int,
                                self.options.island_requirement as int,
                                allow_islands,
                            )
                        } else {
                            pre[j][i]
                        },
                decreases width - 1 - x,
            {
                let walls: usize = Self::count_walls(&oldmap, width, height, x, y);
                let t: TileType = next_tile(
                    walls,
                    self.options.wall_requirement,
                    self.options.island_requirement,
                    allow_islands,
                );
                map.set(x, y, t);
                x = x + 1;
            }
            y = y + 1;
        }
        proof {
            let post = map.tiles();
            assert forall|i: int, j: int|
                0 <= i < width && 0 <= j < height implies #[trigger] post[j][i] == if i < width - 1
                && j < height - 1 {
                spec_next_tile(
                    wall_neighbors(pre, width as int, height as int, i, j),
                    self.options.wall_requirement as int,
                    self.options.island_requirement as int,
                    allow_islands,
                )
            } else {
                pre[j][i]
            } by {
                assert(post[j][i] == map.at(i, j));
            }
        }
    }
}

} // verus!
