//! Winding caves carved by a walker that staggers about the map.

use vstd::prelude::*;
use rand::rngs::StdRng;
use crate::dirs::Direction;
use crate::dun_s1::{
    is_chain,
    is_linked,
    is_next_to,
    lemma_count_tiles_set,
    DungeonS1,
    TileType,
};
use crate::math::spec_min;
use crate::random::{choose_weighted, total_weight};

verus! {

/// Configuration of the walk. The weights and the goal are fractions, held
/// in thousandths.
#[derive(Debug, Clone, Copy)]
pub struct DrunkardOptions {
    /// The walk ends after this many steps at the latest.
    pub max_iterations: usize,
    /// Added, in thousandths, to the weight of the directions that lead back
    /// to the middle while the walker is in an outer quarter of the map.
    pub center_weight: u32,
    /// Added, in thousandths, to the weight of the direction of the step
    /// before.
    pub previous_direction_weight: u32,
    /// The walk ends once this share of the map, in thousandths, was carved.
    pub filled_goal: u32,
}

impl DrunkardOptions {
    pub fn new() -> (o: DrunkardOptions)
        ensures
            o.max_iterations == 5000,
            o.center_weight == 100,
            o.previous_direction_weight == 650,
            o.filled_goal == 250,
    {
        DrunkardOptions {
            max_iterations: 5000,
            center_weight: 100,
            previous_direction_weight: 650,
            filled_goal: 250,
        }
    }

    pub fn max_iterations(self, iterations: usize) -> (o: DrunkardOptions)
        ensures
            o == (DrunkardOptions { max_iterations: iterations, ..self }),
    {
        DrunkardOptions { max_iterations: iterations, ..self }
    }

    pub fn center_weight(self, weight: u32) -> (o: DrunkardOptions)
        ensures
            o == (DrunkardOptions { center_weight: weight, ..self }),
    {
        DrunkardOptions { center_weight: weight, ..self }
    }

    pub fn previous_direction_weight(self, weight: u32) -> (o: DrunkardOptions)
        ensures
            o == (DrunkardOptions { previous_direction_weight: weight, ..self }),
    {
        DrunkardOptions { previous_direction_weight: weight, ..self }
    }

    pub fn filled_goal(self, goal: u32) -> (o: DrunkardOptions)
        ensures
            o == (DrunkardOptions { filled_goal: goal, ..self }),
    {
        DrunkardOptions { filled_goal: goal, ..self }
    }
}

/// What a walk did.
#[derive(Debug, Clone, Copy, PartialEq, Eq, Structural)]
pub struct WalkStats {
    /// The steps taken, those that ran into the border included.
    pub iterations: usize,
    /// The walls that were carved to floor.
    pub filled: usize,
}

/// Whether fewer cells were carved than the goal asks for: `filled` is less
/// than the share `goal`, in thousandths, of `area`.
pub open spec fn spec_below_goal(filled: int, area: int, goal: int) -> bool {
    filled * 1000 < area * goal
}

/// The weight of a step in `direction` for a walker at `(x, y)` whose last
/// step went in `previous`. All weights are held in one unit, a thousandth
/// of the shorter side, so that they are whole numbers:
/// - every direction starts at one;
/// - on a map that is not square, the two directions along the longer side
///   gain the ratio of the longer side to the shorter;
/// - a direction that leads back to the middle gains `center_weight` while
///   the walker is in the outer quarter on the far side;
/// - the direction of the last step gains `previous_direction_weight`.
/// A diagonal direction has no weight.
pub open spec fn spec_direction_weight(
    direction: Direction,
    width: int,
    height: int,
    x: int,
    y: int,
    previous: Direction,
    options: DrunkardOptions,
) -> int {
    let short = spec_min(width, height);
    let stretch = match direction {
        Direction::East | Direction::West => if width > height {
            1000 * width
        } else {
            0
        },
        _ => if height > width {
            1000 * height
        } else {
            0
        },
    };
    let homeward = match direction {
        Direction::East => 4 * x < width,
        Direction::West => !(4 * x < width) && 4 * x > 3 * width,
        Direction::South => 4 * y < height,
        Direction::North => !(4 * y < height) && 4 * y > 3 * height,
        _ => false,
    };
    if !direction.is_cardinal() {
        0
    } else {
        1000 * short + stretch + if homeward {
            options.center_weight * short
        } else {
            0
        } + if previous == direction {
            options.previous_direction_weight * short
        } else {
            0
        }
    }
}

/// The cell one step from `(x, y)` in `direction`, if the step stays clear
/// of the border: the border cells are never entered. A diagonal direction
/// leads nowhere.
pub open spec fn spec_step_target(
    direction: Direction,
    width: int,
    height: int,
    x: int,
    y: int,
) -> Option<(int, int)> {
    let (nx, ny) = match direction {
        Direction::North => (x, y - 1),
        Direction::South => (x, y + 1),
        Direction::East => (x + 1, y),
        Direction::West => (x - 1, y),
        _ => (x, y),
    };
    if direction.is_cardinal() && 0 < nx < width - 1 && 0 < ny < height - 1 {
        Some((nx, ny))
    } else {
        None
    }
}

/// The direction that a tag of the weighted choice stands for.
pub open spec fn spec_direction_of_tag(tag: int) -> Direction {
    if tag == 0 {
        Direction::North
    } else if tag == 1 {
        Direction::South
    } else if tag == 2 {
        Direction::East
    } else {
        Direction::West
    }
}

/// Whether fewer cells were carved than the goal asks for.
pub fn below_goal(filled: usize, area: usize, goal: u32) -> (b: bool)
    ensures
        b == spec_below_goal(filled as int, area as int, goal as int),
{
    assert(filled * 1000 <= 0xffff_ffff_ffff_ffff * 1000) by (nonlinear_arith)
        requires
            filled <= 0xffff_ffff_ffff_ffff,
    ;
    assert(area * goal <= 0xffff_ffff_ffff_ffff * 0xffff_ffff) by (nonlinear_arith)
        requires
            0 <= area <= 0xffff_ffff_ffff_ffff,
            0 <= goal <= 0xffff_ffff,
    ;
    (filled as u128) * 1000 < (area as u128) * (goal as u128)
}

/// The weight of a step in `direction`.
#[verifier::rlimit(50)]
pub fn direction_weight(
    direction: Direction,
    width: usize,
    height: usize,
    x: usize,
    y: usize,
    previous: Direction,
    options: &DrunkardOptions,
) -> (weight: u128)
    ensures
        weight == spec_direction_weight(
            direction,
            width as int,
            height as int,
            x as int,
            y as int,
            previous,
            *options,
        ),
        weight <= 0x1_0000_0000_0000_0000 * 0x3_0000_0000,
        direction.is_cardinal() && width >= 1 && height >= 1 ==> weight >= 1000,
{
    let short: u128 = if width <= height {
        width as u128
    } else {
        height as u128
    };
    let w: u128 = width as u128;
    let h: u128 = height as u128;
    let px: u128 = x as u128;
    let py: u128 = y as u128;
    let stretch: u128 = match direction {
        Direction::East | Direction::West => if width > height {
            1000 * w
        } else {
            0
        },
        _ => if height > width {
            1000 * h
        } else {
            0
        },
    };
    let homeward: bool = match direction {
        Direction::East => 4 * px < w,
        Direction::West => !(4 * px < w) && 4 * px > 3 * w,
        Direction::South => 4 * py < h,
        Direction::North => !(4 * py < h) && 4 * py > 3 * h,
        _ => false,
    };
    let cardinal: bool = match direction {
        Direction::North | Direction::South | Direction::East | Direction::West => true,
        _ => false,
    };
    if !cardinal {
        return 0;
    }
    let cw: u128 = options.center_weight as u128;
    let pw: u128 = options.previous_direction_weight as u128;
    assert(cw * short <= 0xffff_ffff * 0xffff_ffff_ffff_ffff) by (nonlinear_arith)
        requires
            0 <= cw <= 0xffff_ffff,
            0 <= short <= 0xffff_ffff_ffff_ffff,
    ;
    assert(pw * short <= 0xffff_ffff * 0xffff_ffff_ffff_ffff) by (nonlinear_arith)
        requires
            0 <= pw <= 0xffff_ffff,
            0 <= short <= 0xffff_ffff_ffff_ffff,
    ;
    let center: u128 = if homeward {
        cw * short
    } else {
        0
    };
    let momentum: u128 = if previous == direction {
        pw * short
    } else {
        0
    };
    1000 * short + stretch + center + momentum
}

/// The cell one step from `(x, y)` in `direction`, if the step stays clear
/// of the border.
pub fn step_target(direction: Direction, width: usize, height: usize, x: usize, y: usize) -> (target:
    Option<(usize, usize)>)
    ensures
        match spec_step_target(direction, width as int, height as int, x as int, y as int) {
            Some((nx, ny)) => target == Some((nx as usize, ny as usize)) && 0 < nx < width - 1 && 0
                < ny < height - 1,
            None => target is None,
        },
{
    if width < 3 || height < 3 {
        return None;
    }
    match direction {
        Direction::North => if y >= 2 && y - 1 < height - 1 && 0 < x && x < width - 1 {
            Some((x, y - 1))
        } else {
            None
        },
        Direction::South => if y < height - 2 && 0 < x && x < width - 1 {
            Some((x, y + 1))
        } else {
            None
        },
        Direction::East => if x < width - 2 && 0 < y && y < height - 1 {
            Some((x + 1, y))
        } else {
            None
        },
        Direction::West => if x >= 2 && x - 1 < width - 1 && 0 < y && y < height - 1 {
            Some((x - 1, y))
        } else {
            None
        },
        _ => None,
    }
}

/// The direction that a tag of the weighted choice stands for.
pub fn direction_of_tag(tag: usize) -> (d: Direction)
    ensures
        d == spec_direction_of_tag(tag as int),
        d.is_cardinal(),
{
    match tag {
        0 => Direction::North,
        1 => Direction::South,
        2 => Direction::East,
        _ => Direction::West,
    }
}

/// Whether a step can be refused at `a`: along some axis the cell next to
/// `a` is a cell of the border, or lies off the map.
pub open spec fn is_halt(a: (int, int), width: int, height: int) -> bool {
    exists|d: Direction|
        d.is_cardinal() && (#[trigger] spec_step_target(d, width, height, a.0, a.1)) is None
}

/// Whether `b` is the cell that a step from `a` leads to.
pub open spec fn is_move(a: (int, int), b: (int, int), width: int, height: int) -> bool {
    exists|d: Direction| #[trigger] spec_step_target(d, width, height, a.0, a.1) == Some(b)
}

/// Whether the walker can come from `a` to `b` in one pace: it moves one
/// cell along an axis and stays clear of the border, or it stays where it
/// is because a step could be refused there.
pub open spec fn is_pace(a: (int, int), b: (int, int), width: int, height: int) -> bool {
    if b == a {
        is_halt(a, width, height)
    } else {
        is_move(a, b, width, height)
    }
}

/// What a cell holds once the walker has stepped on it: floor in place of a
/// wall, and what it held otherwise.
pub open spec fn opened(t: TileType) -> TileType {
    if t == TileType::Wall {
        TileType::Floor
    } else {
        t
    }
}

/// Whether one of the first `iterations` paces of the path is a move onto
/// `cell`.
pub open spec fn is_entered(path: Seq<(int, int)>, iterations: int, cell: (int, int)) -> bool {
    exists|k: int| 0 <= k < iterations && #[trigger] path[k + 1] == cell && path[k] != cell
}

/// Whether the cell lies strictly inside the border.
pub open spec fn is_inner(cell: (int, int), width: int, height: int) -> bool {
    0 < cell.0 < width - 1 && 0 < cell.1 < height - 1
}

/// Whether `path` holds the cells, as `(x, y)` pairs, on which the walker
/// stood before its first pace and after each of the given number of paces:
/// it begins in the middle of the map and never leaves the inside of the
/// border once it has moved; every cell that it moved onto holds floor in
/// place of a wall afterwards; and no cell differs between `pre` and `post`
/// but those that it moved onto.
pub open spec fn is_walk_path(
    path: Seq<(int, int)>,
    pre: DungeonS1,
    post: DungeonS1,
    iterations: int,
) -> bool {
    &&& path.len() == iterations + 1
    &&& path[0] == (pre.width as int / 2, pre.height as int / 2)
    &&& forall|k: int|
        0 <= k < iterations ==> is_pace(
            path[k],
            #[trigger] path[k + 1],
            pre.width as int,
            pre.height as int,
        )
    &&& forall|k: int|
        0 <= k <= iterations ==> #[trigger] path[k] == path[0] || is_inner(
            path[k],
            pre.width as int,
            pre.height as int,
        )
    &&& forall|k: int|
        0 <= k < iterations && #[trigger] path[k + 1] != path[k] ==> post.at(
            path[k + 1].0,
            path[k + 1].1,
        ) == opened(pre.at(path[k + 1].0, path[k + 1].1))
    &&& forall|x: int, y: int|
        pre.in_bounds(x, y) && #[trigger] post.at(x, y) != pre.at(x, y) ==> is_entered(
            path,
            iterations,
            (x, y),
        )
}

/// What a walk with the given configuration can make of the map `pre`:
/// the walk ends after `max_iterations` paces at the latest, and before
/// that only if the goal is reached; no wall is carved once the goal is
/// reached; every wall that is carved is counted once, lies strictly inside
/// the border and is floor afterwards; the walls that are carved are those
/// that the walker has moved onto; nothing else changes.
pub open spec fn walk_result(
    options: DrunkardOptions,
    pre: DungeonS1,
    post: DungeonS1,
    stats: WalkStats,
) -> bool {
    &&& post.wf()
    &&& post.same_frame(&pre)
    &&& stats.iterations <= options.max_iterations
    &&& stats.filled <= stats.iterations
    &&& stats.iterations == options.max_iterations || !spec_below_goal(
        stats.filled as int,
        pre.width * pre.height,
        options.filled_goal as int
    )
    &&& stats.filled == 0 || spec_below_goal(
        stats.filled - 1,
        pre.width * pre.height,
        options.filled_goal as int
    )
    &&& post.count(TileType::Wall) + stats.filled == pre.count(TileType::Wall)
    &&& post.count(TileType::Floor) == pre.count(TileType::Floor) + stats.filled
    &&& forall|x: int, y: int|
        pre.in_bounds(x, y) ==> #[trigger] post.at(x, y) == pre.at(x, y)
            || (pre.at(x, y) == TileType::Wall && post.at(x, y)
            == TileType::Floor && 0 < x < pre.width - 1 && 0 < y < pre.height
            - 1)
    &&& pre.settled() ==> post.settled()
    &&& exists|path: Seq<(int, int)>| #[trigger]
        is_walk_path(path, pre, post, stats.iterations as int)
}

/// A walker that cannot step from the middle of the map never leaves it.
proof fn lemma_path_at_rest(
    path: Seq<(int, int)>,
    pre: DungeonS1,
    post: DungeonS1,
    iterations: int,
    k: int,
)
    requires
        is_walk_path(path, pre, post, iterations),
        forall|d: Direction|
            (#[trigger] spec_step_target(
                d,
                pre.width as int,
                pre.height as int,
                pre.width as int / 2,
                pre.height as int / 2,
            )) is None,
        0 <= k <= iterations,
    ensures
        path[k] == path[0],
    decreases k,
{
    if k > 0 {
        lemma_path_at_rest(path, pre, post, iterations, k - 1);
        assert(is_pace(path[k - 1], path[k - 1 + 1], pre.width as int, pre.height as int));
    }
}

/// Where no step can be made from the middle of the map, as on a map of
/// three by three, a walk changes nothing.
pub proof fn lemma_walk_without_room(
    options: DrunkardOptions,
    pre: DungeonS1,
    post: DungeonS1,
    stats: WalkStats,
)
    requires
        pre.wf(),
        walk_result(options, pre, post, stats),
        forall|d: Direction|
            (#[trigger] spec_step_target(
                d,
                pre.width as int,
                pre.height as int,
                pre.width as int / 2,
                pre.height as int / 2,
            )) is None,
    ensures
        post.tiles() == pre.tiles(),
        stats.filled == 0,
{
    let iterations = stats.iterations as int;
    let path = choose|path: Seq<(int, int)>| #[trigger] is_walk_path(path, pre, post, iterations);
    assert forall|x: int, y: int| pre.in_bounds(x, y) implies #[trigger] post.at(x, y) == pre.at(
        x,
        y,
    ) by {
        if post.at(x, y) != pre.at(x, y) {
            let k = choose|k: int|
                0 <= k < iterations && #[trigger] path[k + 1] == (x, y) && path[k] != (x, y);
            lemma_path_at_rest(path, pre, post, iterations, k);
            lemma_path_at_rest(path, pre, post, iterations, k + 1);
        }
    }
    assert forall|y: int| 0 <= y < pre.height implies post.tiles()[y] == pre.tiles()[y] by {
        assert forall|x: int| 0 <= x < pre.width implies post.tiles()[y][x] == pre.tiles()[y][x] by {
            assert(post.at(x, y) == pre.at(x, y));
        }
        assert(post.tiles()[y] =~= pre.tiles()[y]);
    }
    assert(post.tiles() =~= pre.tiles());
}

/// On a map of walls, the walker stands on floor inside the border ever
/// after its first move.
proof fn lemma_stands_on_floor(
    path: Seq<(int, int)>,
    pre: DungeonS1,
    post: DungeonS1,
    iterations: int,
    first: int,
    m: int,
)
    requires
        pre.wf(),
        post.wf(),
        post.same_frame(&pre),
        is_walk_path(path, pre, post, iterations),
        forall|x: int, y: int| pre.in_bounds(x, y) ==> #[trigger] pre.at(x, y) == TileType::Wall,
        0 <= first < m <= iterations,
        path[first + 1] != path[first],
    ensures
        is_inner(path[m], pre.width as int, pre.height as int),
        post.at(path[m].0, path[m].1) == TileType::Floor,
    decreases m,
{
    let w = pre.width as int;
    let h = pre.height as int;
    assert(is_pace(path[m - 1], path[m - 1 + 1], w, h));
    if path[m - 1 + 1] != path[m - 1] {
        let d = choose|d: Direction|
            #[trigger] spec_step_target(d, w, h, path[m - 1].0, path[m - 1].1) == Some(path[m]);
        assert(is_inner(path[m], w, h));
        assert(pre.at(path[m].0, path[m].1) == TileType::Wall);
    } else {
        lemma_stands_on_floor(path, pre, post, iterations, first, m - 1);
    }
}

/// A pace leads to the same cell or to a cell side by side.
proof fn lemma_pace_is_short(a: (int, int), b: (int, int), width: int, height: int)
    requires
        is_pace(a, b, width, height),
    ensures
        b == a || is_next_to(a, b),
{
    if b != a {
        let d = choose|d: Direction| #[trigger] spec_step_target(d, width, height, a.0, a.1) == Some(b);
    }
}

/// After a walk on a map of walls the floor cells hang together: from every
/// floor cell every other can be reached over floor cells.
pub proof fn lemma_walk_is_connected(
    options: DrunkardOptions,
    pre: DungeonS1,
    post: DungeonS1,
    stats: WalkStats,
    a: (int, int),
    b: (int, int),
)
    requires
        pre.wf(),
        walk_result(options, pre, post, stats),
        forall|x: int, y: int| pre.in_bounds(x, y) ==> #[trigger] pre.at(x, y) == TileType::Wall,
        post.in_bounds(a.0, a.1) && post.at(a.0, a.1) == TileType::Floor,
        post.in_bounds(b.0, b.1) && post.at(b.0, b.1) == TileType::Floor,
    ensures
        is_linked(post, a, b),
{
    let w = pre.width as int;
    let h = pre.height as int;
    let iterations = stats.iterations as int;
    let path = choose|path: Seq<(int, int)>| #[trigger] is_walk_path(path, pre, post, iterations);
    assert(post.at(a.0, a.1) != pre.at(a.0, a.1));
    assert(post.at(b.0, b.1) != pre.at(b.0, b.1));
    let i = choose|k: int| 0 <= k < iterations && #[trigger] path[k + 1] == a && path[k] != a;
    let j = choose|k: int| 0 <= k < iterations && #[trigger] path[k + 1] == b && path[k] != b;
    if i <= j {
        let chain = Seq::new((j - i + 1) as nat, |m: int| path[i + 1 + m]);
        assert forall|m: int| 0 <= m < chain.len() implies post.in_bounds(
            (#[trigger] chain[m]).0,
            chain[m].1,
        ) && post.at(chain[m].0, chain[m].1) == TileType::Floor by {
            lemma_stands_on_floor(path, pre, post, iterations, i, i + 1 + m);
        }
        assert forall|m: int| 0 <= m < chain.len() - 1 implies #[trigger] chain[m + 1] == chain[m]
            || is_next_to(chain[m], chain[m + 1]) by {
            assert(is_pace(path[i + 1 + m], path[i + 1 + m + 1], w, h));
            lemma_pace_is_short(path[i + 1 + m], path[i + 1 + m + 1], w, h);
        }
        assert(is_chain(chain, post, a, b));
    } else {
        let chain = Seq::new((i - j + 1) as nat, |m: int| path[i + 1 - m]);
        assert forall|m: int| 0 <= m < chain.len() implies post.in_bounds(
            (#[trigger] chain[m]).0,
            chain[m].1,
        ) && post.at(chain[m].0, chain[m].1) == TileType::Floor by {
            lemma_stands_on_floor(path, pre, post, iterations, j, i + 1 - m);
        }
        assert forall|m: int| 0 <= m < chain.len() - 1 implies #[trigger] chain[m + 1] == chain[m]
            || is_next_to(chain[m], chain[m + 1]) by {
            assert(is_pace(path[i - m], path[i - m + 1], w, h));
            lemma_pace_is_short(path[i - m], path[i - m + 1], w, h);
        }
        assert(is_chain(chain, post, a, b));
    }
}

/// The walker: a configuration that can be run on any grid.
#[derive(Debug, Clone, Copy)]
pub struct Drunkard {
    pub options: DrunkardOptions,
}

impl Drunkard {
    pub fn new(opts: DrunkardOptions) -> (d: Drunkard)
        ensures
            d.options == opts,
    {
        Drunkard { options: opts }
    }

    /// Draws the direction of the next step for a walker at `(x, y)`.
    pub fn choose_direction(
        &self,
        rng: &mut StdRng,
        width: usize,
        height: usize,
        x: usize,
        y: usize,
        previous: Direction,
    ) -> (choice: Option<Direction>)
        ensures
            width >= 1 && height >= 1 ==> choice is Some,
            choice matches Some(d) ==> d.is_cardinal() && spec_direction_weight(
                d,
                width as int,
                height as int,
                x as int,
                y as int,
                previous,
                self.options,
            ) > 0,
    {
        let north: u128 = direction_weight(
            Direction::North,
            width,
            height,
            x,
            y,
            previous,
            &self.options,
        );
        let south: u128 = direction_weight(
            Direction::South,
            width,
            height,
            x,
            y,
            previous,
            &self.options,
        );
        let east: u128 = direction_weight(
            Direction::East,
            width,
            height,
            x,
            y,
            previous,
            &self.options,
        );
        let west: u128 = direction_weight(
            Direction::West,
            width,
            height,
            x,
            y,
            previous,
            &self.options,
        );
        let mut choices: Vec<(usize, u128)> = Vec::new();
        choices.push((0, north));
        choices.push((1, south));
        choices.push((2, east));
        choices.push((3, west));
        proof {
            let c = choices@;
            assert(c.drop_last().drop_last().drop_last().drop_last() =~= Seq::empty());
            assert(total_weight(c.drop_last().drop_last().drop_last().drop_last()) == 0);
            assert(total_weight(c.drop_last().drop_last().drop_last()) == north);
            assert(total_weight(c.drop_last().drop_last()) == north + south);
            assert(total_weight(c.drop_last()) == north + south + east);
            assert(total_weight(c) == north + south + east + west);
        }
        match choose_weighted(rng, &choices) {
            Some(tag) => Some(direction_of_tag(tag)),
            None => None,
        }
    }

    /// Walks from the middle of the map and carves every wall stepped on,
    /// until the goal is reached or the steps are used up.
    #[verifier::rlimit(50)]
    pub fn walk(&self, map: &mut DungeonS1, rng: &mut StdRng) -> (stats: WalkStats)
        requires
            old(map).wf(),
        ensures
            walk_result(self.options, *old(map), *final(map), stats),
    {
        let width: usize = map.width;
        let height: usize = map.height;
        let area: usize = width * height;
        let mut filled: usize = 0;
        let mut iterations: usize = 0;
        let mut previous: Direction = Direction::North;
        let mut x: usize = width / 2;
        let mut y: usize = height / 2;
        let ghost mut path: Seq<(int, int)> = seq![(x as int, y as int)];
        while iterations < self.options.max_iterations && below_goal(
            filled,
            area,
            self.options.filled_goal,
        )
            invariant
                map.wf(),
                map.same_frame(old(map)),
                width == map.width,
                height == map.height,
                area == width * height,
                iterations <= self.options.max_iterations,
                filled <= iterations,
                filled == 0 || spec_below_goal(
                    filled - 1,
                    area as int,
                    self.options.filled_goal as int,
                ),
                x < width || width == 0,
                y < height || height == 0,
                path.len() == iterations + 1,
                path[0] == (width as int / 2, height as int / 2),
                path[iterations as int] == (x as int, y as int),
                forall|k: int|
                    0 <= k < iterations ==> is_pace(
                        path[k],
                        #[trigger] path[k + 1],
                        width as int,
                        height as int,
                    ),
                forall|k: int|
                    0 <= k <= iterations ==> #[trigger] path[k] == path[0] || is_inner(
                        path[k],
                        width as int,
                        height as int,
                    ),
                forall|k: int|
                    0 <= k < iterations && #[trigger] path[k + 1] != path[k] ==> map.at(
                        path[k + 1].0,
                        path[k + 1].1,
                    ) == opened(old(map).at(path[k + 1].0, path[k + 1].1)),
                forall|i: int, j: int|
                    old(map).in_bounds(i, j) && #[trigger] map.at(i, j) != old(map).at(i, j)
                        ==> is_entered(path, iterations as int, (i, j)),
                map.count(TileType::Wall) + filled == old(map).count(TileType::Wall),
                map.count(TileType::Floor) == old(map).count(TileType::Floor) + filled,
                forall|i: int, j: int|
                    old(map).in_bounds(i, j) ==> #[trigger] map.at(i, j) == old(map).at(i, j) || (
                    old(map).at(i, j) == TileType::Wall && map.at(i, j) == TileType::Floor && 0 < i
                        < width - 1 && 0 < j < height - 1),
            decreases self.options.max_iterations - iterations,
        {
            assert(width >= 1 && height >= 1) by (nonlinear_arith)
                requires
                    filled * 1000 < (width * height) * self.options.filled_goal,
            ;
            let choice: Option<Direction> = self.choose_direction(
                rng,
                width,
                height,
                x,
                y,
                previous,
            );
            let ghost here = (x as int, y as int);
            let ghost before = *map;
            let ghost w = width as int;
            let ghost h = height as int;
            if let Some(direction) = choice {
                if let Some((nx, ny)) = step_target(direction, width, height, x, y) {
                    assert(spec_step_target(direction, w, h, here.0, here.1) == Some(
                        (nx as int, ny as int),
                    ));
                    assert(is_move(here, (nx as int, ny as int), w, h));
                    assert(here != (nx as int, ny as int));
                    x = nx;
                    y = ny;
                    if map.get(x, y) == TileType::Wall {
                        proof {
                            lemma_count_tiles_set(
                                map.tiles(),
                                x as int,
                                y as int,
                                TileType::Floor,
                                TileType::Wall,
                            );
                            lemma_count_tiles_set(
                                map.tiles(),
                                x as int,
                                y as int,
                                TileType::Floor,
                                TileType::Floor,
                            );
                        }
                        map.set(x, y, TileType::Floor);
                        filled = filled + 1;
                    }
                    previous = direction;
                } else {
                    assert(spec_step_target(direction, w, h, here.0, here.1) is None);
                    assert(is_halt(here, w, h));
                }
            }
            proof {
                let there = (x as int, y as int);
                let longer = path.push(there);
                assert(is_pace(here, there, w, h));
                assert(map.at(there.0, there.1) == before.at(there.0, there.1) || (there != here
                    && before.at(there.0, there.1) == TileType::Wall));
                assert forall|k: int| 0 <= k < iterations + 1 implies is_pace(
                    longer[k],
                    #[trigger] longer[k + 1],
                    w,
                    h,
                ) by {
                    if k < iterations {
                        assert(is_pace(path[k], path[k + 1], w, h));
                    }
                }
                assert forall|k: int| 0 <= k <= iterations + 1 implies #[trigger] longer[k]
                    == longer[0] || is_inner(longer[k], w, h) by {
                    if k <= iterations {
                        assert(longer[k] == path[k]);
                    }
                }
                assert forall|k: int|
                    0 <= k < iterations + 1 && #[trigger] longer[k + 1] != longer[k] implies map.at(
                    longer[k + 1].0,
                    longer[k + 1].1,
                ) == opened(old(map).at(longer[k + 1].0, longer[k + 1].1)) by {
                    let c = longer[k + 1];
                    if k < iterations {
                        assert(c == path[k + 1]);
                        assert(path[k + 1] == path[0] || is_inner(path[k + 1], w, h));
                        assert(old(map).in_bounds(c.0, c.1));
                        assert(before.at(c.0, c.1) == opened(old(map).at(c.0, c.1)));
                        if c != there {
                            assert(map.at(c.0, c.1) == before.at(c.0, c.1));
                        }
                    } else {
                        assert(c == there);
                        assert(before.at(c.0, c.1) == old(map).at(c.0, c.1) || (old(map).at(
                            c.0,
                            c.1,
                        ) == TileType::Wall && before.at(c.0, c.1) == TileType::Floor));
                    }
                }
                assert forall|i: int, j: int|
                    old(map).in_bounds(i, j) && #[trigger] map.at(i, j) != old(map).at(
                        i,
                        j,
                    ) implies is_entered(longer, iterations + 1, (i, j)) by {
                    if before.at(i, j) != old(map).at(i, j) {
                        let k = choose|k: int|
                            0 <= k < iterations && #[trigger] path[k + 1] == (i, j) && path[k] != (
                                i,
                                j,
                            );
                        assert(longer[k + 1] == (i, j) && longer[k] != (i, j));
                    } else {
                        assert(i == x && j == y);
                        assert(longer[iterations as int + 1] == (i, j));
                        assert(longer[iterations as int] == here);
                    }
                }
                path = longer;
            }
            iterations = iterations + 1;
        }
        assert(is_walk_path(path, *old(map), *map, iterations as int));
        assert(old(map).settled() ==> map.settled());
        let stats = WalkStats { iterations, filled };
        let ghost whole = old(map).width * old(map).height;
        assert(whole == area);
        assert(stats.iterations == self.options.max_iterations || !spec_below_goal(
            stats.filled as int,
            whole,
            self.options.filled_goal as int,
        ));
        assert(stats.filled == 0 || spec_below_goal(
            stats.filled - 1,
            whole,
            self.options.filled_goal as int,
        ));
        assert(map.count(TileType::Wall) + stats.filled == old(map).count(TileType::Wall));
        assert(map.count(TileType::Floor) == old(map).count(TileType::Floor) + stats.filled);
        assert(walk_result(self.options, *old(map), *map, stats));
        stats
    }
}

} // verus!
