//! Rooms dropped at random on the map and joined by tunnels.

use vstd::prelude::*;
use vstd::seq_lib::{to_multiset_build, to_multiset_insert};
use rand::rngs::StdRng;
use crate::dun_s1::{
    is_linked,
    is_open_block,
    lemma_linked_back,
    lemma_linked_in_block,
    lemma_linked_on,
    DungeonS1,
    TileType,
};
use crate::features::Feature;
use crate::math::{spec_max, spec_min};
use crate::random::{coin, roll};
use crate::rect::{lemma_intersects_symmetric, Rect};

verus! {

/// Configuration of the pass.
#[derive(Copy, Clone, Debug)]
pub struct RandomRoomsOptions {
    /// How many rooms to try to place; where unset, a number that follows
    /// from the size of the map and of the largest room.
    pub max_rooms: Option<usize>,
    /// How many pairs of rooms to join at most; where unset, all of them.
    pub max_tunnels: Option<usize>,
    /// The far corner of a room lies fewer columns than this behind the
    /// near one.
    pub room_max_width: usize,
    /// The far corner of a room lies fewer rows than this below the near
    /// one.
    pub room_max_height: usize,
    /// The far corner of a room lies at least this many columns behind the
    /// near one.
    pub room_min_width: usize,
    /// The far corner of a room lies at least this many rows below the near
    /// one.
    pub room_min_height: usize,
    /// The padding that a new room keeps from every room before it.
    pub room_border: usize,
}

/// The number of rooms to try where none is configured: the area of the map
/// over four times the area of the largest room.
pub open spec fn spec_default_max_rooms(area: int, max_width: int, max_height: int) -> int {
    if max_width * max_height * 4 == 0 {
        0
    } else {
        area / (max_width * max_height * 4)
    }
}

/// The number of pairs of rooms that are joined when `placed` rooms stand.
pub open spec fn spec_links(placed: int, max_tunnels: Option<usize>) -> int {
    if placed <= 0 {
        0
    } else {
        match max_tunnels {
            Some(n) => spec_min(placed - 1, n as int),
            None => placed - 1,
        }
    }
}

/// A tunnel one cell high along row `y`, between the columns `x1` and `x2`.
pub open spec fn spec_horiz_tunnel(x1: int, x2: int, y: int) -> Rect {
    Rect {
        x1: spec_min(x1, x2) as usize,
        y1: y as usize,
        x2: spec_max(x1, x2) as usize,
        y2: y as usize,
    }
}

/// A tunnel one cell wide along column `x`, between the rows `y1` and `y2`.
pub open spec fn spec_verti_tunnel(y1: int, y2: int, x: int) -> Rect {
    Rect {
        x1: x as usize,
        y1: spec_min(y1, y2) as usize,
        x2: x as usize,
        y2: spec_max(y1, y2) as usize,
    }
}

/// The middle column of a rectangle.
pub open spec fn mid_x(r: Rect) -> int {
    (r.x1 + r.x2) / 2
}

/// The middle row of a rectangle.
pub open spec fn mid_y(r: Rect) -> int {
    (r.y1 + r.y2) / 2
}

/// `t1` and `t2` are the two legs of an L-shaped tunnel from the middle of
/// `prev` to the middle of `next`: either along the row of `prev` and then
/// along the column of `next`, or along the column of `prev` and then along
/// the row of `next`.
pub open spec fn is_link(prev: Rect, next: Rect, t1: Rect, t2: Rect) -> bool {
    ||| t1 == spec_horiz_tunnel(mid_x(prev), mid_x(next), mid_y(prev)) && t2 == spec_verti_tunnel(
        mid_y(prev),
        mid_y(next),
        mid_x(next),
    )
    ||| t1 == spec_verti_tunnel(mid_y(prev), mid_y(next), mid_x(prev)) && t2 == spec_horiz_tunnel(
        mid_x(prev),
        mid_x(next),
        mid_y(next),
    )
}

/// Whether the rectangle keeps two cells from every border of a map of the
/// given size.
pub open spec fn is_inside(r: Rect, width: int, height: int) -> bool {
    &&& 2 <= r.x1 <= r.x2 <= width - 3
    &&& 2 <= r.y1 <= r.y2 <= height - 3
}

/// Whether `(x, y)` belongs to one of the features from index `from` on.
pub open spec fn covered(features: Seq<Feature>, from: int, x: int, y: int) -> bool {
    exists|k: int|
        from <= k < features.len() && (#[trigger] features[k]).spec_rect().footprint(x, y)
}

/// Adding a feature to the list adds its cells to what the list covers.
pub proof fn lemma_covered_push(features: Seq<Feature>, from: int, f: Feature, x: int, y: int)
    requires
        0 <= from <= features.len(),
    ensures
        covered(features.push(f), from, x, y) == (covered(features, from, x, y)
            || f.spec_rect().footprint(x, y)),
{
    let longer = features.push(f);
    if covered(features, from, x, y) {
        let k = choose|k: int|
            from <= k < features.len() && (#[trigger] features[k]).spec_rect().footprint(x, y);
        assert(longer[k] == features[k]);
    }
    if f.spec_rect().footprint(x, y) {
        assert(longer[features.len() as int] == f);
    }
    if covered(longer, from, x, y) {
        let k = choose|k: int|
            from <= k < longer.len() && (#[trigger] longer[k]).spec_rect().footprint(x, y);
        if k < features.len() {
            assert(longer[k] == features[k]);
        }
    }
}

/// What a list covers from `from` on is what it covers from a later index
/// on and what the features in between cover.
pub proof fn lemma_covered_split(features: Seq<Feature>, from: int, split: int, x: int, y: int)
    requires
        0 <= from <= split <= features.len(),
    ensures
        covered(features, from, x, y) == (covered(features.take(split), from, x, y) || covered(
            features,
            split,
            x,
            y,
        )),
{
    let head = features.take(split);
    if covered(head, from, x, y) {
        let k = choose|k: int|
            from <= k < head.len() && (#[trigger] head[k]).spec_rect().footprint(x, y);
        assert(features[k] == head[k]);
    }
    if covered(features, split, x, y) {
        let k = choose|k: int|
            split <= k < features.len() && (#[trigger] features[k]).spec_rect().footprint(x, y);
        assert(features[k].spec_rect().footprint(x, y));
    }
    if covered(features, from, x, y) {
        let k = choose|k: int|
            from <= k < features.len() && (#[trigger] features[k]).spec_rect().footprint(x, y);
        if k < split {
            assert(head[k] == features[k]);
        }
    }
}

/// The two features at `at` are the legs of a tunnel from `prev` to `next`.
pub open spec fn link_at(features: Seq<Feature>, at: int, prev: Rect, next: Rect) -> bool {
    &&& features[at] is Tunnel
    &&& features[at + 1] is Tunnel
    &&& is_link(prev, next, features[at].spec_rect(), features[at + 1].spec_rect())
}

/// From index `from` on, the list holds the tunnels that join the first
/// `links + 1` rooms of `order`, each to the one before it, two legs for
/// each pair.
pub open spec fn links_recorded(
    features: Seq<Feature>,
    from: int,
    order: Seq<Rect>,
    links: int,
) -> bool {
    forall|k: int|
        #![trigger order[k]]
        1 <= k <= links ==> link_at(features, from + 2 * (k - 1), order[k - 1], order[k])
}

/// The rectangles of the `placed` features from index `base` on.
pub open spec fn recorded_rooms(features: Seq<Feature>, base: int, placed: int) -> Seq<Rect> {
    Seq::new(placed as nat, |k: int| features[base + k].spec_rect())
}

/// `order` is the route that the tunnels follow: the rooms recorded from
/// `base` on, sorted by their distance from the first of them, with the
/// tunnels that join them recorded behind the rooms.
pub open spec fn is_route(
    order: Seq<Rect>,
    features: Seq<Feature>,
    base: int,
    placed: int,
    links: int,
) -> bool {
    let rooms = recorded_rooms(features, base, placed);
    &&& order.to_multiset() == rooms.to_multiset()
    &&& order.len() == placed
    &&& placed > 0 ==> sorted_by_distance(order, rooms[0])
    &&& links_recorded(features, base + placed, order, links)
}

/// Whether the rectangles come in the order of their distance from
/// `origin`, the nearest first.
pub open spec fn sorted_by_distance(s: Seq<Rect>, origin: Rect) -> bool {
    forall|i: int, j: int|
        #![trigger s[i], s[j]]
        0 <= i <= j < s.len() ==> s[i].spec_distance(&origin) <= s[j].spec_distance(&origin)
}

/// Whether `r` overlaps, with padding, one of the rectangles of `group`.
pub open spec fn spec_does_intersect(r: Rect, group: Seq<Rect>, border: int) -> bool {
    exists|i: int| 0 <= i < group.len() && r.spec_intersects(&#[trigger] group[i], border)
}

/// The rooms that are accepted of the first `upto` draws: a room is
/// accepted if it overlaps, with the border as padding, no room accepted
/// before it.
pub open spec fn spec_accepted(draws: Seq<Option<Rect>>, border: int, upto: int) -> Seq<Rect>
    decreases upto,
{
    if upto <= 0 {
        Seq::empty()
    } else {
        let before = spec_accepted(draws, border, upto - 1);
        match draws[upto - 1] {
            Some(r) => if spec_does_intersect(r, before, border) {
                before
            } else {
                before.push(r)
            },
            None => before,
        }
    }
}

/// What is accepted of the first draws does not depend on the draws behind
/// them.
pub proof fn lemma_accepted_push(
    draws: Seq<Option<Rect>>,
    draw: Option<Rect>,
    border: int,
    upto: int,
)
    requires
        0 <= upto <= draws.len(),
    ensures
        spec_accepted(draws.push(draw), border, upto) == spec_accepted(draws, border, upto),
    decreases upto,
{
    if upto > 0 {
        lemma_accepted_push(draws, draw, border, upto - 1);
        assert(draws.push(draw)[upto - 1] == draws[upto - 1]);
    }
}

/// Whether no two of the rectangles overlap with padding, whichever of the
/// two is grown.
pub open spec fn pairwise_apart(rooms: Seq<Rect>, border: int) -> bool {
    forall|i: int, j: int|
        #![trigger rooms[i], rooms[j]]
        0 <= i < rooms.len() && 0 <= j < rooms.len() && i != j ==> !rooms[i].spec_intersects(
            &rooms[j],
            border,
        )
}

impl RandomRoomsOptions {
    pub fn new() -> (o: RandomRoomsOptions)
        ensures
            o == (RandomRoomsOptions {
                max_rooms: None,
                max_tunnels: None,
                room_max_width: 16,
                room_max_height: 8,
                room_min_width: 4,
                room_min_height: 2,
                room_border: 4,
            }),
    {
        RandomRoomsOptions {
            max_rooms: None,
            max_tunnels: None,
            room_max_width: 16,
            room_max_height: 8,
            room_min_width: 4,
            room_min_height: 2,
            room_border: 4,
        }
    }

    pub fn max_rooms(self, value: usize) -> (o: RandomRoomsOptions)
        ensures
            o == (RandomRoomsOptions { max_rooms: Some(value), ..self }),
    {
        RandomRoomsOptions { max_rooms: Some(value), ..self }
    }

    pub fn room_max_width(self, value: usize) -> (o: RandomRoomsOptions)
        ensures
            o == (RandomRoomsOptions { room_max_width: value, ..self }),
    {
        RandomRoomsOptions { room_max_width: value, ..self }
    }

    pub fn room_max_height(self, value: usize) -> (o: RandomRoomsOptions)
        ensures
            o == (RandomRoomsOptions { room_max_height: value, ..self }),
    {
        RandomRoomsOptions { room_max_height: value, ..self }
    }

    pub fn room_min_width(self, value: usize) -> (o: RandomRoomsOptions)
        ensures
            o == (RandomRoomsOptions { room_min_width: value, ..self }),
    {
        RandomRoomsOptions { room_min_width: value, ..self }
    }

    pub fn room_min_height(self, value: usize) -> (o: RandomRoomsOptions)
        ensures
            o == (RandomRoomsOptions { room_min_height: value, ..self }),
    {
        RandomRoomsOptions { room_min_height: value, ..self }
    }

    pub fn room_border(self, value: usize) -> (o: RandomRoomsOptions)
        ensures
            o == (RandomRoomsOptions { room_border: value, ..self }),
    {
        RandomRoomsOptions { room_border: value, ..self }
    }

    /// The number of rooms that the pass tries to place on a map of the
    /// given area.
    pub open spec fn spec_attempts(&self, area: int) -> int {
        match self.max_rooms {
            Some(n) => n as int,
            None => spec_default_max_rooms(
                area,
                self.room_max_width as int,
                self.room_max_height as int,
            ),
        }
    }

    /// Whether there is a size to draw: the smallest room is smaller than
    /// the bound on either axis.
    pub open spec fn can_draw(&self) -> bool {
        self.room_min_width < self.room_max_width && self.room_min_height < self.room_max_height
    }

    /// Whether a room of any size that can be drawn finds a place on a map
    /// of the given size.
    pub open spec fn always_fits(&self, width: int, height: int) -> bool {
        self.room_max_width + 4 <= width && self.room_max_height + 4 <= height
    }

    /// What holds of every room that is drawn for a map of the given size:
    /// its size is within the configured bounds, and it keeps two cells from
    /// every border.
    pub open spec fn admits(&self, room: Rect, width: int, height: int) -> bool {
        &&& is_inside(room, width, height)
        &&& self.room_min_width <= room.x2 - room.x1 < self.room_max_width
        &&& self.room_min_height <= room.y2 - room.y1 < self.room_max_height
    }

    /// Whether `draw` is something that a draw for a map of the given size
    /// can bring: a room that the configuration admits, or nothing; and not
    /// nothing where every size that can be drawn finds a place.
    pub open spec fn is_draw(&self, draw: Option<Rect>, width: int, height: int) -> bool {
        match draw {
            Some(r) => self.admits(r, width, height),
            None => !(self.can_draw() && self.always_fits(width, height)),
        }
    }

    /// Whether `rooms` are the rooms that are accepted of the given draws,
    /// one draw for every attempt.
    pub open spec fn is_placing(
        &self,
        draws: Seq<Option<Rect>>,
        width: int,
        height: int,
        rooms: Seq<Rect>,
    ) -> bool {
        &&& draws.len() == self.spec_attempts(width * height)
        &&& forall|k: int| 0 <= k < draws.len() ==> self.is_draw(#[trigger] draws[k], width, height)
        &&& rooms == spec_accepted(draws, self.room_border as int, draws.len() as int)
    }

    /// The number of rooms that the pass tries to place.
    pub fn attempts(&self, area: usize) -> (n: usize)
        ensures
            n == self.spec_attempts(area as int),
    {
        match self.max_rooms {
            Some(n) => n,
            None => {
                let room: Option<usize> = self.room_max_width.checked_mul(self.room_max_height);
                let four: Option<usize> = match room {
                    Some(a) => a.checked_mul(4),
                    None => None,
                };
                match four {
                    Some(divisor) => {
                        if divisor == 0 {
                            0
                        } else {
                            area / divisor
                        }
                    },
                    None => {
                        proof {
                            let d = self.room_max_width * self.room_max_height * 4;
                            assert(d > area);
                            assert(area as int / d == 0) by (nonlinear_arith)
                                requires
                                    0 <= area < d,
                            ;
                        }
                        0
                    },
                }
            },
        }
    }
}

/// A tunnel one cell high along row `y`.
pub fn create_horiz_tunnel(x1: usize, x2: usize, y: usize) -> (t: Rect)
    ensures
        t == spec_horiz_tunnel(x1 as int, x2 as int, y as int),
{
    if x1 <= x2 {
        Rect::new(x1, y, x2, y)
    } else {
        Rect::new(x2, y, x1, y)
    }
}

/// A tunnel one cell wide along column `x`.
pub fn create_verti_tunnel(y1: usize, y2: usize, x: usize) -> (t: Rect)
    ensures
        t == spec_verti_tunnel(y1 as int, y2 as int, x as int),
{
    if y1 <= y2 {
        Rect::new(x, y1, x, y2)
    } else {
        Rect::new(x, y2, x, y1)
    }
}

/// Tests whether `r` overlaps, with padding, one of the rectangles of
/// `group`.
pub fn does_intersect(r: &Rect, group: &Vec<Rect>, border: usize) -> (hit: bool)
    ensures
        hit == spec_does_intersect(*r, group@, border as int),
{
    let mut i: usize = 0;
    while i < group.len()
        invariant
            i <= group.len(),
            forall|k: int| 0 <= k < i ==> !r.spec_intersects(&#[trigger] group[k], border as int),
        decreases group.len() - i,
    {
        if r.intersects(&group[i], border) {
            return true;
        }
        i = i + 1;
    }
    false
}

/// Whether `sorted` holds the rectangles of `rooms` in the order of their
/// distance from `origin`, the nearest first, and those equally far in the
/// order in which `rooms` holds them; `from` tells for every place of
/// `sorted` the place of `rooms` that its rectangle was taken from.
pub open spec fn is_stable_order(
    rooms: Seq<Rect>,
    sorted: Seq<Rect>,
    from: Seq<int>,
    origin: Rect,
) -> bool {
    &&& from.len() == sorted.len()
    &&& sorted.len() == rooms.len()
    &&& forall|k: int|
        0 <= k < from.len() ==> 0 <= #[trigger] from[k] < rooms.len() && sorted[k] == rooms[from[k]]
    &&& forall|a: int, b: int|
        #![trigger from[a], from[b]]
        0 <= a < b < from.len() ==> sorted[a].spec_distance(&origin) < sorted[b].spec_distance(
            &origin,
        ) || (sorted[a].spec_distance(&origin) == sorted[b].spec_distance(&origin) && from[a]
            < from[b])
}

/// The rectangles in the order of their distance from `origin`, the nearest
/// first; two that are equally far keep their order.
#[verifier::rlimit(50)]
pub fn sort_by_distance(rooms: &Vec<Rect>, origin: &Rect) -> (sorted: Vec<Rect>)
    ensures
        sorted@.to_multiset() == rooms@.to_multiset(),
        sorted@.len() == rooms@.len(),
        sorted_by_distance(sorted@, *origin),
        exists|from: Seq<int>| #[trigger] is_stable_order(rooms@, sorted@, from, *origin),
{
    let mut sorted: Vec<Rect> = Vec::new();
    let mut i: usize = 0;
    let ghost mut from: Seq<int> = Seq::empty();
    assert(rooms@.take(0) =~= Seq::<Rect>::empty());
    while i < rooms.len()
        invariant
            i <= rooms.len(),
            sorted@.len() == i,
            sorted@.to_multiset() == rooms@.take(i as int).to_multiset(),
            sorted_by_distance(sorted@, *origin),
            is_stable_order(rooms@.take(i as int), sorted@, from, *origin),
        decreases rooms.len() - i,
    {
        let room: Rect = rooms[i];
        let key: usize = room.distance(origin);
        let mut p: usize = 0;
        while p < sorted.len() && sorted[p].distance(origin) <= key
            invariant
                p <= sorted.len(),
                key == room.spec_distance(origin),
                forall|k: int|
                    0 <= k < p ==> (#[trigger] sorted@[k]).spec_distance(origin) <= key,
            decreases sorted.len() - p,
        {
            p = p + 1;
        }
        let ghost before = sorted@;
        let ghost from_before = from;
        sorted.insert(p, room);
        proof {
            from = from_before.insert(p as int, i as int);
            to_multiset_insert(before, p as int, room);
            assert(rooms@.take(i as int + 1) =~= rooms@.take(i as int).push(room));
            to_multiset_build(rooms@.take(i as int), room);
            let s = sorted@;
            assert forall|a: int, b: int| #![trigger s[a], s[b]] 0 <= a <= b < s.len() implies s[a].spec_distance(
                origin,
            ) <= s[b].spec_distance(origin) by {
                if b < p {
                    assert(s[a] == before[a] && s[b] == before[b]);
                } else if b == p {
                    if a < p {
                        assert(s[a] == before[a]);
                    }
                } else {
                    assert(s[b] == before[b - 1]);
                    if a < p {
                        assert(s[a] == before[a]);
                    } else if a == p {
                        assert(before[p as int].spec_distance(origin) > key);
                        assert(before[p as int].spec_distance(origin) <= before[b
                            - 1].spec_distance(origin));
                    } else {
                        assert(s[a] == before[a - 1]);
                    }
                }
            }
            lemma_stable_insert(rooms@, before, from_before, *origin, i as int, p as int);
        }
        i = i + 1;
    }
    assert(rooms@.take(rooms@.len() as int) =~= rooms@);
    sorted
}

/// A stable order stays one when the next rectangle is put behind those
/// that are no farther than it and before those that are.
proof fn lemma_stable_insert(
    rooms: Seq<Rect>,
    before: Seq<Rect>,
    from: Seq<int>,
    origin: Rect,
    i: int,
    p: int,
)
    requires
        0 <= i < rooms.len(),
        0 <= p <= before.len(),
        is_stable_order(rooms.take(i), before, from, origin),
        sorted_by_distance(before, origin),
        forall|k: int|
            0 <= k < p ==> (#[trigger] before[k]).spec_distance(&origin) <= rooms[i].spec_distance(
                &origin,
            ),
        p < before.len() ==> before[p].spec_distance(&origin) > rooms[i].spec_distance(&origin),
    ensures
        is_stable_order(rooms.take(i + 1), before.insert(p, rooms[i]), from.insert(p, i), origin),
{
    let s = before.insert(p, rooms[i]);
    let f = from.insert(p, i);
    let key = rooms[i].spec_distance(&origin);
    assert forall|k: int| 0 <= k < f.len() implies 0 <= #[trigger] f[k] < rooms.take(i + 1).len()
        && s[k] == rooms.take(i + 1)[f[k]] by {
        if k < p {
            assert(f[k] == from[k] && s[k] == before[k]);
            assert(before[k] == rooms.take(i)[from[k]]);
        } else if k > p {
            assert(f[k] == from[k - 1] && s[k] == before[k - 1]);
            assert(before[k - 1] == rooms.take(i)[from[k - 1]]);
        }
    }
    assert forall|a: int, b: int| #![trigger f[a], f[b]] 0 <= a < b < f.len() implies s[a].spec_distance(
        &origin,
    ) < s[b].spec_distance(&origin) || (s[a].spec_distance(&origin) == s[b].spec_distance(&origin)
        && f[a] < f[b]) by {
        if b < p {
            assert(f[a] == from[a] && f[b] == from[b]);
            assert(s[a] == before[a] && s[b] == before[b]);
        } else if b == p {
            assert(f[a] == from[a] && s[a] == before[a]);
            assert(0 <= from[a] < i);
        } else if a < p {
            assert(f[a] == from[a] && f[b] == from[b - 1]);
            assert(s[a] == before[a] && s[b] == before[b - 1]);
        } else if a == p {
            assert(s[b] == before[b - 1]);
            assert(before[p].spec_distance(&origin) <= before[b - 1].spec_distance(&origin));
        } else {
            assert(f[a] == from[a - 1] && f[b] == from[b - 1]);
            assert(s[a] == before[a - 1] && s[b] == before[b - 1]);
        }
    }
}

/// Carves a rectangle into the map: every cell of it becomes floor.
pub fn create_room(map: &mut DungeonS1, room: &Rect)
    requires
        old(map).wf(),
        room.x2 < old(map).width,
        room.y2 < old(map).height,
    ensures
        final(map).wf(),
        final(map).same_frame(old(map)),
        forall|x: int, y: int|
            old(map).in_bounds(x, y) ==> #[trigger] final(map).at(x, y) == if room.footprint(x, y) {
                TileType::Floor
            } else {
                old(map).at(x, y)
            },
{
    let mut y: usize = room.y1;
    while y <= room.y2
        invariant
            map.wf(),
            map.same_frame(old(map)),
            room.x2 < map.width,
            room.y2 < map.height,
            room.y1 <= y,
            y <= room.y2 + 1 || y == room.y1,
            forall|i: int, j: int|
                old(map).in_bounds(i, j) ==> #[trigger] map.at(i, j) == if room.x1 <= i <= room.x2
                    && room.y1 <= j < y {
                    TileType::Floor
                } else {
                    old(map).at(i, j)
                },
        decreases room.y2 + 1 - y,
    {
        let mut x: usize = room.x1;
        while x <= room.x2
            invariant
                map.wf(),
                map.same_frame(old(map)),
                room.x2 < map.width,
                room.y2 < map.height,
                room.y1 <= y <= room.y2,
                room.x1 <= x,
                x <= room.x2 + 1 || x == room.x1,
                forall|i: int, j: int|
                    old(map).in_bounds(i, j) ==> #[trigger] map.at(i, j) == if room.x1 <= i
                        <= room.x2 && (room.y1 <= j < y || (j == y && i < x)) {
                        TileType::Floor
                    } else {
                        old(map).at(i, j)
                    },
            decreases room.x2 + 1 - x,
        {
            map.set(x, y, TileType::Floor);
            x = x + 1;
        }
        y = y + 1;
    }
}

/// Carves a feature into the map and records it.
pub fn carve_feature(map: &mut DungeonS1, feature: Feature)
    requires
        old(map).wf(),
        feature.spec_rect().x2 < old(map).width,
        feature.spec_rect().y2 < old(map).height,
    ensures
        final(map).wf(),
        final(map).width == old(map).width,
        final(map).height == old(map).height,
        final(map).features@ == old(map).features@.push(feature),
        forall|x: int, y: int|
            old(map).in_bounds(x, y) ==> #[trigger] final(map).at(x, y) == if feature.spec_rect().footprint(
                x,
                y,
            ) {
                TileType::Floor
            } else {
                old(map).at(x, y)
            },
{
    let room: Rect = feature.rect();
    create_room(map, &room);
    let ghost carved = *map;
    map.features.push(feature);
    assert forall|x: int, y: int| old(map).in_bounds(x, y) implies #[trigger] map.at(x, y)
        == if feature.spec_rect().footprint(x, y) {
        TileType::Floor
    } else {
        old(map).at(x, y)
    } by {
        assert(map.at(x, y) == carved.at(x, y));
    }
}

/// Joins two rooms by an L-shaped tunnel from the middle of the one to the
/// middle of the other. A coin decides which leg comes first. Both legs are
/// carved and recorded as features, and returned.
fn join_pair(map: &mut DungeonS1, rng: &mut StdRng, prev: &Rect, next: &Rect) -> (legs: (Rect, Rect))
    requires
        old(map).wf(),
        is_inside(*prev, old(map).width as int, old(map).height as int),
        is_inside(*next, old(map).width as int, old(map).height as int),
    ensures
        final(map).wf(),
        final(map).width == old(map).width,
        final(map).height == old(map).height,
        is_link(*prev, *next, legs.0, legs.1),
        final(map).features@ == old(map).features@.push(Feature::Tunnel(legs.0)).push(
            Feature::Tunnel(legs.1),
        ),
        forall|x: int, y: int|
            old(map).in_bounds(x, y) ==> #[trigger] final(map).at(x, y) == if legs.0.footprint(x, y)
                || legs.1.footprint(x, y) {
                TileType::Floor
            } else {
                old(map).at(x, y)
            },
{
    let (new_x, new_y) = next.center();
    let (prev_x, prev_y) = prev.center();
    let start_with_horiz_tunnel: bool = coin(rng);
    let tun1: Rect;
    let tun2: Rect;
    if start_with_horiz_tunnel {
        tun1 = create_horiz_tunnel(prev_x, new_x, prev_y);
        tun2 = create_verti_tunnel(prev_y, new_y, new_x);
    } else {
        tun1 = create_verti_tunnel(prev_y, new_y, prev_x);
        tun2 = create_horiz_tunnel(prev_x, new_x, new_y);
    }
    assert(is_link(*prev, *next, tun1, tun2));
    let ghost map0 = *map;
    carve_feature(map, Feature::Tunnel(tun1));
    let ghost map1 = *map;
    carve_feature(map, Feature::Tunnel(tun2));
    assert forall|x: int, y: int| old(map).in_bounds(x, y) implies #[trigger] map.at(x, y)
        == if tun1.footprint(x, y) || tun2.footprint(x, y) {
        TileType::Floor
    } else {
        old(map).at(x, y)
    } by {
        assert(map1.at(x, y) == if tun1.footprint(x, y) {
            TileType::Floor
        } else {
            map0.at(x, y)
        });
    }
    (tun1, tun2)
}

/// The tunnels recorded for the first rooms are still recorded when the
/// two legs of the next tunnel are put behind them.
proof fn lemma_links_push(
    features: Seq<Feature>,
    base: int,
    rooms: Seq<Rect>,
    r: int,
    t1: Rect,
    t2: Rect,
)
    requires
        0 <= base,
        1 <= r < rooms.len(),
        features.len() == base + 2 * (r - 1),
        links_recorded(features, base, rooms, r - 1),
        is_link(rooms[r - 1], rooms[r], t1, t2),
    ensures
        links_recorded(
            features.push(Feature::Tunnel(t1)).push(Feature::Tunnel(t2)),
            base,
            rooms,
            r,
        ),
{
    let feats = features.push(Feature::Tunnel(t1)).push(Feature::Tunnel(t2));
    assert forall|k: int| #![trigger rooms[k]] 1 <= k <= r implies link_at(
        feats,
        base + 2 * (k - 1),
        rooms[k - 1],
        rooms[k],
    ) by {
        let at = base + 2 * (k - 1);
        if k < r {
            assert(link_at(features, at, rooms[k - 1], rooms[k]));
            assert(feats[at] == features[at]);
            assert(feats[at + 1] == features[at + 1]);
        } else {
            assert(feats[at] == Feature::Tunnel(t1));
            assert(feats[at + 1] == Feature::Tunnel(t2));
        }
    }
}

/// What the pass with the given configuration can make of the map `pre`,
/// placing `placed` rooms: the rooms are recorded behind the features that
/// were there, each within the configured bounds and no two of them
/// overlapping with the border as padding; behind the rooms stand the
/// tunnels that join them along a route sorted by distance; every cell of
/// every new feature is floor, and nothing else changes.
pub open spec fn tunnel_result(
    options: RandomRoomsOptions,
    pre: DungeonS1,
    post: DungeonS1,
    placed: usize,
) -> bool {
    &&& post.wf()
    &&& post.width == pre.width
    &&& post.height == pre.height
    &&& placed <= options.spec_attempts(pre.width * pre.height)
    &&& !options.can_draw() ==> placed == 0
    &&& options.can_draw() && options.always_fits(
        pre.width as int,
        pre.height as int
    ) && options.spec_attempts(pre.width * pre.height) >= 1 ==> placed >= 1
    &&& post.features@.len() == pre.features@.len() + placed + 2 * spec_links(
        placed as int,
        options.max_tunnels
    )
    &&& post.features@.take(pre.features@.len() as int) == pre.features@
    &&& forall|k: int|
        0 <= k < placed ==> post.features@[pre.features@.len() + k] is Room
            && options.admits(
            #[trigger] recorded_rooms(
                post.features@,
                pre.features@.len() as int,
                placed as int,
            )[k],
            pre.width as int,
            pre.height as int,
        )
    &&& pairwise_apart(
        recorded_rooms(
            post.features@,
            pre.features@.len() as int,
            placed as int,
        ),
        options.room_border as int
    )
    &&& exists|draws: Seq<Option<Rect>>| #[trigger]
        options.is_placing(
            draws,
            pre.width as int,
            pre.height as int,
            recorded_rooms(post.features@, pre.features@.len() as int, placed as int),
        )
    &&& exists|order: Seq<Rect>| #[trigger]
        is_route(
            order,
            post.features@,
            pre.features@.len() as int,
            placed as int,
            spec_links(placed as int, options.max_tunnels),
        )
    &&& forall|x: int, y: int|
        pre.in_bounds(x, y) ==> #[trigger] post.at(x, y) == if covered(
            post.features@,
            pre.features@.len() as int,
            x,
            y,
        ) {
            TileType::Floor
        } else {
            pre.at(x, y)
        }
    &&& pre.settled() ==> post.settled()
}

/// The cell of a rectangle that the tunnels lead to: its middle.
pub open spec fn hub(r: Rect) -> (int, int) {
    (mid_x(r), mid_y(r))
}

/// Whether every cell of the rectangle is floor on the map.
pub open spec fn is_carved(map: DungeonS1, r: Rect) -> bool {
    is_open_block(map, r.x1 as int, r.y1 as int, r.x2 + 1, r.y2 + 1)
}

/// Whether the pass has joined all its rooms: it was not told to stop
/// before.
pub open spec fn joins_all(options: RandomRoomsOptions, placed: int) -> bool {
    placed == 0 || spec_links(placed, options.max_tunnels) == placed - 1
}

/// Every room of the route is one that the pass has placed, so it keeps to
/// the inside of the map.
proof fn lemma_route_inside(
    options: RandomRoomsOptions,
    pre: DungeonS1,
    post: DungeonS1,
    placed: usize,
    order: Seq<Rect>,
    q: int,
)
    requires
        tunnel_result(options, pre, post, placed),
        is_route(
            order,
            post.features@,
            pre.features@.len() as int,
            placed as int,
            spec_links(placed as int, options.max_tunnels),
        ),
        0 <= q < order.len(),
    ensures
        is_inside(order[q], pre.width as int, pre.height as int),
        exists|k: int|
            0 <= k < placed && #[trigger] recorded_rooms(
                post.features@,
                pre.features@.len() as int,
                placed as int,
            )[k] == order[q],
{
    let rooms = recorded_rooms(post.features@, pre.features@.len() as int, placed as int);
    let room = order[q];
    vstd::seq_lib::to_multiset_contains(order, room);
    vstd::seq_lib::to_multiset_contains(rooms, room);
    assert(order.contains(room));
    assert(rooms.contains(room));
    let k = choose|k: int| 0 <= k < rooms.len() && rooms[k] == room;
    assert(options.admits(rooms[k], pre.width as int, pre.height as int));
}

/// Every room that the pass has placed stands on the route.
proof fn lemma_room_on_route(
    options: RandomRoomsOptions,
    pre: DungeonS1,
    post: DungeonS1,
    placed: usize,
    order: Seq<Rect>,
    k: int,
) -> (q: int)
    requires
        tunnel_result(options, pre, post, placed),
        is_route(
            order,
            post.features@,
            pre.features@.len() as int,
            placed as int,
            spec_links(placed as int, options.max_tunnels),
        ),
        0 <= k < placed,
    ensures
        0 <= q < order.len(),
        order[q] == recorded_rooms(post.features@, pre.features@.len() as int, placed as int)[k],
{
    let rooms = recorded_rooms(post.features@, pre.features@.len() as int, placed as int);
    let room = rooms[k];
    vstd::seq_lib::to_multiset_contains(order, room);
    vstd::seq_lib::to_multiset_contains(rooms, room);
    assert(rooms.contains(room));
    assert(order.contains(room));
    choose|q: int| 0 <= q < order.len() && order[q] == room
}

/// Every cell of every feature that the pass has recorded is floor.
proof fn lemma_feature_carved(
    options: RandomRoomsOptions,
    pre: DungeonS1,
    post: DungeonS1,
    placed: usize,
    order: Seq<Rect>,
    k: int,
)
    requires
        pre.wf(),
        tunnel_result(options, pre, post, placed),
        is_route(
            order,
            post.features@,
            pre.features@.len() as int,
            placed as int,
            spec_links(placed as int, options.max_tunnels),
        ),
        pre.features@.len() <= k < post.features@.len(),
    ensures
        is_carved(post, post.features@[k].spec_rect()),
{
    let base = pre.features@.len() as int;
    let split = base + placed;
    let w = pre.width as int;
    let h = pre.height as int;
    let feats = post.features@;
    let r = feats[k].spec_rect();
    if k < split {
        let rooms = recorded_rooms(feats, base, placed as int);
        assert(rooms[k - base] == r);
        assert(options.admits(rooms[k - base], w, h));
    } else {
        let j = (k - split) / 2 + 1;
        assert(1 <= j <= spec_links(placed as int, options.max_tunnels));
        lemma_route_inside(options, pre, post, placed, order, j - 1);
        lemma_route_inside(options, pre, post, placed, order, j);
        let c = order[j];
        assert(link_at(feats, split + 2 * (j - 1), order[j - 1], order[j]));
        assert(k == split + 2 * (j - 1) || k == split + 2 * (j - 1) + 1);
    }
    assert(r.x2 < w && r.y2 < h);
    assert forall|x: int, y: int| r.x1 <= x < r.x2 + 1 && r.y1 <= y < r.y2 + 1 implies post.in_bounds(
        x,
        y,
    ) && #[trigger] post.at(x, y) == TileType::Floor by {
        assert(pre.in_bounds(x, y));
        assert(feats[k].spec_rect().footprint(x, y));
        assert(covered(feats, base, x, y));
    }
}

/// Every cell of every room and of every tunnel that the pass has recorded
/// lies on the map and is floor afterwards.
pub proof fn lemma_features_are_carved(
    options: RandomRoomsOptions,
    pre: DungeonS1,
    post: DungeonS1,
    placed: usize,
    k: int,
    x: int,
    y: int,
)
    requires
        pre.wf(),
        tunnel_result(options, pre, post, placed),
        pre.features@.len() <= k < post.features@.len(),
        post.features@[k].spec_rect().footprint(x, y),
    ensures
        post.in_bounds(x, y),
        post.at(x, y) == TileType::Floor,
{
    let order = choose|order: Seq<Rect>| #[trigger]
        is_route(
            order,
            post.features@,
            pre.features@.len() as int,
            placed as int,
            spec_links(placed as int, options.max_tunnels),
        );
    lemma_feature_carved(options, pre, post, placed, order, k);
}

/// The hub of every room on the route can be reached from the hub of the
/// first one, as far as the rooms are joined.
proof fn lemma_hubs_linked(
    options: RandomRoomsOptions,
    pre: DungeonS1,
    post: DungeonS1,
    placed: usize,
    order: Seq<Rect>,
    j: int,
)
    requires
        pre.wf(),
        tunnel_result(options, pre, post, placed),
        is_route(
            order,
            post.features@,
            pre.features@.len() as int,
            placed as int,
            spec_links(placed as int, options.max_tunnels),
        ),
        placed >= 1,
        0 <= j <= spec_links(placed as int, options.max_tunnels),
    ensures
        is_linked(post, hub(order[0]), hub(order[j])),
    decreases j,
{
    let base = pre.features@.len() as int;
    let split = base + placed;
    let w = pre.width as int;
    let h = pre.height as int;
    let feats = post.features@;
    if j == 0 {
        lemma_route_inside(options, pre, post, placed, order, 0);
        let k = choose|k: int|
            0 <= k < placed && #[trigger] recorded_rooms(feats, base, placed as int)[k] == order[0];
        lemma_feature_carved(options, pre, post, placed, order, base + k);
        let r = order[0];
        assert(feats[base + k].spec_rect() == r);
        lemma_route_inside(options, pre, post, placed, order, 0);
        lemma_linked_in_block(post, r.x1 as int, r.y1 as int, r.x2 + 1, r.y2 + 1, hub(r), hub(r));
    } else {
        lemma_hubs_linked(options, pre, post, placed, order, j - 1);
        lemma_route_inside(options, pre, post, placed, order, j - 1);
        lemma_route_inside(options, pre, post, placed, order, j);
        let at = split + 2 * (j - 1);
        let c = order[j];
        assert(link_at(feats, at, order[j - 1], order[j]));
        lemma_feature_carved(options, pre, post, placed, order, at);
        lemma_feature_carved(options, pre, post, placed, order, at + 1);
        let t1 = feats[at].spec_rect();
        let t2 = feats[at + 1].spec_rect();
        let from = hub(order[j - 1]);
        let to = hub(order[j]);
        let corner = if t1 == spec_horiz_tunnel(
            mid_x(order[j - 1]),
            mid_x(order[j]),
            mid_y(order[j - 1]),
        ) && t2 == spec_verti_tunnel(mid_y(order[j - 1]), mid_y(order[j]), mid_x(order[j])) {
            (to.0, from.1)
        } else {
            (from.0, to.1)
        };
        assert(t1.footprint(from.0, from.1));
        assert(t1.footprint(corner.0, corner.1));
        assert(t2.footprint(corner.0, corner.1));
        assert(t2.footprint(to.0, to.1));
        lemma_linked_in_block(post, t1.x1 as int, t1.y1 as int, t1.x2 + 1, t1.y2 + 1, from, corner);
        lemma_linked_in_block(post, t2.x1 as int, t2.y1 as int, t2.x2 + 1, t2.y2 + 1, corner, to);
        lemma_linked_on(post, from, corner, to);
        lemma_linked_on(post, hub(order[0]), from, to);
    }
}

/// Every floor cell that the pass has made can be reached from the hub of
/// the first room on the route.
proof fn lemma_hub_reaches(
    options: RandomRoomsOptions,
    pre: DungeonS1,
    post: DungeonS1,
    placed: usize,
    order: Seq<Rect>,
    a: (int, int),
)
    requires
        pre.wf(),
        tunnel_result(options, pre, post, placed),
        is_route(
            order,
            post.features@,
            pre.features@.len() as int,
            placed as int,
            spec_links(placed as int, options.max_tunnels),
        ),
        joins_all(options, placed as int),
        pre.in_bounds(a.0, a.1),
        covered(post.features@, pre.features@.len() as int, a.0, a.1),
    ensures
        placed >= 1,
        is_linked(post, hub(order[0]), a),
{
    let base = pre.features@.len() as int;
    let split = base + placed;
    let w = pre.width as int;
    let h = pre.height as int;
    let feats = post.features@;
    let links = spec_links(placed as int, options.max_tunnels);
    let k = choose|k: int|
        base <= k < feats.len() && (#[trigger] feats[k]).spec_rect().footprint(a.0, a.1);
    let r = feats[k].spec_rect();
    lemma_feature_carved(options, pre, post, placed, order, k);
    if k < split {
        let q = lemma_room_on_route(options, pre, post, placed, order, k - base);
        assert(order[q] == r);
        lemma_route_inside(options, pre, post, placed, order, q);
        lemma_hubs_linked(options, pre, post, placed, order, q);
        lemma_linked_in_block(post, r.x1 as int, r.y1 as int, r.x2 + 1, r.y2 + 1, hub(r), a);
        lemma_linked_on(post, hub(order[0]), hub(r), a);
    } else {
        let j = (k - split) / 2 + 1;
        assert(1 <= j <= links);
        let at = split + 2 * (j - 1);
        let c = order[j];
        assert(link_at(feats, at, order[j - 1], order[j]));
        lemma_route_inside(options, pre, post, placed, order, j - 1);
        lemma_route_inside(options, pre, post, placed, order, j);
        if k == at {
            let from = hub(order[j - 1]);
            assert(r.footprint(from.0, from.1));
            lemma_hubs_linked(options, pre, post, placed, order, j - 1);
            lemma_linked_in_block(post, r.x1 as int, r.y1 as int, r.x2 + 1, r.y2 + 1, from, a);
            lemma_linked_on(post, hub(order[0]), from, a);
        } else {
            assert(k == at + 1);
            let to = hub(order[j]);
            assert(r.footprint(to.0, to.1));
            lemma_hubs_linked(options, pre, post, placed, order, j);
            lemma_linked_in_block(post, r.x1 as int, r.y1 as int, r.x2 + 1, r.y2 + 1, to, a);
            lemma_linked_on(post, hub(order[0]), to, a);
        }
    }
}

/// After the pass has run on a map of walls and has joined all its rooms,
/// the floor cells hang together: from every floor cell every other can be
/// reached over floor cells.
pub proof fn lemma_rooms_are_connected(
    options: RandomRoomsOptions,
    pre: DungeonS1,
    post: DungeonS1,
    placed: usize,
    a: (int, int),
    b: (int, int),
)
    requires
        pre.wf(),
        tunnel_result(options, pre, post, placed),
        joins_all(options, placed as int),
        forall|x: int, y: int| pre.in_bounds(x, y) ==> #[trigger] pre.at(x, y) == TileType::Wall,
        post.in_bounds(a.0, a.1) && post.at(a.0, a.1) == TileType::Floor,
        post.in_bounds(b.0, b.1) && post.at(b.0, b.1) == TileType::Floor,
    ensures
        is_linked(post, a, b),
{
    let base = pre.features@.len() as int;
    let order = choose|order: Seq<Rect>| #[trigger]
        is_route(
            order,
            post.features@,
            base,
            placed as int,
            spec_links(placed as int, options.max_tunnels),
        );
    assert(post.at(a.0, a.1) != pre.at(a.0, a.1));
    assert(post.at(b.0, b.1) != pre.at(b.0, b.1));
    lemma_hub_reaches(options, pre, post, placed, order, a);
    lemma_hub_reaches(options, pre, post, placed, order, b);
    lemma_linked_back(post, hub(order[0]), a);
    lemma_linked_on(post, a, hub(order[0]), b);
}

/// The pass: a configuration that can be run on any grid.
#[derive(Copy, Clone, Debug)]
pub struct RandomRooms {
    pub options: RandomRoomsOptions,
}

impl RandomRooms {
    pub fn new(opt: RandomRoomsOptions) -> (r: RandomRooms)
        ensures
            r.options == opt,
    {
        RandomRooms { options: opt }
    }

    /// Draws the size and the place of a room for a map of the given size.
    /// Nothing comes out where no size can be drawn, or where the size that
    /// was drawn leaves no place on the map.
    pub fn draw_room(&self, rng: &mut StdRng, width: usize, height: usize) -> (room: Option<Rect>)
        ensures
            room matches Some(r) ==> self.options.admits(r, width as int, height as int),
            !self.options.can_draw() ==> room is None,
            self.options.can_draw() && self.options.always_fits(width as int, height as int)
                ==> room is Some,
    {
        let o = &self.options;
        if o.room_min_width >= o.room_max_width || o.room_min_height >= o.room_max_height {
            return None;
        }
        let w: usize = roll(rng, o.room_min_width, o.room_max_width);
        let h: usize = roll(rng, o.room_min_height, o.room_max_height);
        if w > width || h > height || width - w <= 4 || height - h <= 4 {
            return None;
        }
        let x: usize = roll(rng, 2, width - w - 2);
        let y: usize = roll(rng, 2, height - h - 2);
        Some(Rect::new(x, y, x + w, y + h))
    }

    /// Tries the configured number of times to place a room. A room is
    /// accepted if it overlaps, with the border as padding, no room accepted
    /// before it; it is carved and recorded as a feature. The accepted rooms
    /// come back in the order of their acceptance.
    #[verifier::rlimit(50)]
    pub fn place_rooms(&self, map: &mut DungeonS1, rng: &mut StdRng) -> (rooms: Vec<Rect>)
        requires
            old(map).wf(),
        ensures
            final(map).wf(),
            final(map).width == old(map).width,
            final(map).height == old(map).height,
            rooms@.len() <= self.options.spec_attempts(old(map).width * old(map).height),
            !self.options.can_draw() ==> rooms@.len() == 0,
            self.options.can_draw() && self.options.always_fits(
                old(map).width as int,
                old(map).height as int,
            ) && self.options.spec_attempts(old(map).width * old(map).height) >= 1 ==> rooms@.len()
                >= 1,
            final(map).features@.len() == old(map).features@.len() + rooms@.len(),
            final(map).features@.take(old(map).features@.len() as int) == old(map).features@,
            forall|k: int|
                0 <= k < rooms@.len() ==> #[trigger] final(map).features@[old(map).features@.len()
                    + k] == Feature::Room(rooms@[k]),
            forall|k: int|
                0 <= k < rooms@.len() ==> self.options.admits(
                    #[trigger] rooms@[k],
                    old(map).width as int,
                    old(map).height as int,
                ),
            pairwise_apart(rooms@, self.options.room_border as int),
            forall|x: int, y: int|
                old(map).in_bounds(x, y) ==> #[trigger] final(map).at(x, y) == if covered(
                    final(map).features@,
                    old(map).features@.len() as int,
                    x,
                    y,
                ) {
                    TileType::Floor
                } else {
                    old(map).at(x, y)
                },
            exists|draws: Seq<Option<Rect>>| #[trigger]
                self.options.is_placing(
                    draws,
                    old(map).width as int,
                    old(map).height as int,
                    rooms@,
                ),
    {
        let width: usize = map.width;
        let height: usize = map.height;
        let attempts: usize = self.options.attempts(width * height);
        let ghost mut draws: Seq<Option<Rect>> = Seq::empty();
        let border: usize = self.options.room_border;
        let ghost base = map.features@.len() as int;
        let mut rooms: Vec<Rect> = Vec::new();
        let tunnels: Vec<Rect> = Vec::new();
        let mut i: usize = 0;
        assert(map.features@.take(base) =~= old(map).features@);
        while i < attempts
            invariant
                i <= attempts,
                attempts == self.options.spec_attempts(old(map).width * old(map).height),
                rooms@.len() <= i,
                draws.len() == i,
                forall|k: int|
                    0 <= k < draws.len() ==> self.options.is_draw(
                        #[trigger] draws[k],
                        width as int,
                        height as int,
                    ),
                rooms@ == spec_accepted(draws, border as int, i as int),
                !self.options.can_draw() ==> rooms@.len() == 0,
                self.options.can_draw() && self.options.always_fits(width as int, height as int)
                    && i >= 1 ==> rooms@.len() >= 1,
                tunnels@.len() == 0,
                border == self.options.room_border,
                map.wf(),
                width == map.width == old(map).width,
                height == map.height == old(map).height,
                base == old(map).features@.len(),
                map.features@.len() == base + rooms@.len(),
                map.features@.take(base) == old(map).features@,
                forall|k: int|
                    0 <= k < rooms@.len() ==> #[trigger] map.features@[base + k] == Feature::Room(
                        rooms@[k],
                    ),
                forall|k: int|
                    0 <= k < rooms@.len() ==> self.options.admits(
                        #[trigger] rooms@[k],
                        width as int,
                        height as int,
                    ),
                pairwise_apart(rooms@, border as int),
                forall|x: int, y: int|
                    old(map).in_bounds(x, y) ==> #[trigger] map.at(x, y) == if covered(
                        map.features@,
                        base,
                        x,
                        y,
                    ) {
                        TileType::Floor
                    } else {
                        old(map).at(x, y)
                    },
            decreases attempts - i,
        {
            let drawn: Option<Rect> = self.draw_room(rng, width, height);
            proof {
                lemma_accepted_push(draws, drawn, border as int, i as int);
                let longer = draws.push(drawn);
                assert(longer[i as int] == drawn);
                assert forall|k: int| 0 <= k < longer.len() implies self.options.is_draw(
                    #[trigger] longer[k],
                    width as int,
                    height as int,
                ) by {
                    if k < i {
                        assert(longer[k] == draws[k]);
                    }
                }
                draws = longer;
            }
            if let Some(new_room) = drawn {
                if !does_intersect(&new_room, &rooms, border) && !does_intersect(
                    &new_room,
                    &tunnels,
                    border,
                ) {
                    let ghost before_map = *map;
                    let ghost before_rooms = rooms@;
                    let ghost before_features = map.features@;
                    carve_feature(map, Feature::Room(new_room));
                    rooms.push(new_room);
                    proof {
                        let feats = map.features@;
                        assert(feats.take(base) =~= before_features.take(base));
                        assert forall|a: int, b: int|
                            #![trigger rooms@[a], rooms@[b]]
                            0 <= a < rooms@.len() && 0 <= b < rooms@.len() && a
                                != b implies !rooms@[a].spec_intersects(
                            &rooms@[b],
                            border as int,
                        ) by {
                            let last = rooms@.len() - 1;
                            if a < last && b < last {
                                assert(rooms@[a] == before_rooms[a] && rooms@[b]
                                    == before_rooms[b]);
                            } else if a == last {
                                assert(rooms@[b] == before_rooms[b]);
                                assert(!new_room.spec_intersects(&before_rooms[b], border as int));
                            } else {
                                assert(rooms@[a] == before_rooms[a]);
                                assert(!new_room.spec_intersects(&before_rooms[a], border as int));
                                assert(self.options.admits(
                                    before_rooms[a],
                                    width as int,
                                    height as int,
                                ));
                                lemma_intersects_symmetric(
                                    new_room,
                                    before_rooms[a],
                                    border as int,
                                );
                            }
                        }
                        assert forall|x: int, y: int| old(map).in_bounds(x, y) implies #[trigger] map.at(
                            x,
                            y,
                        ) == if covered(feats, base, x, y) {
                            TileType::Floor
                        } else {
                            old(map).at(x, y)
                        } by {
                            lemma_covered_push(before_features, base, Feature::Room(new_room), x, y);
                            assert(before_map.at(x, y) == if covered(before_features, base, x, y) {
                                TileType::Floor
                            } else {
                                old(map).at(x, y)
                            });
                        }
                        assert forall|k: int| 0 <= k < rooms@.len() implies #[trigger] feats[base
                            + k] == Feature::Room(rooms@[k]) by {
                            if k < rooms@.len() - 1 {
                                assert(feats[base + k] == before_features[base + k]);
                                assert(rooms@[k] == before_rooms[k]);
                            }
                        }
                    }
                }
            }
            i = i + 1;
        }
        assert(self.options.is_placing(draws, width as int, height as int, rooms@));
        rooms
    }

    /// Joins every room of the list to the one before it by an L-shaped
    /// tunnel of two legs, until the configured number of pairs is joined.
    /// A coin decides which leg comes first. Both legs are carved and
    /// recorded as features. Returns the number of pairs joined.
    pub fn connect_rooms(&self, map: &mut DungeonS1, rng: &mut StdRng, rooms: &Vec<Rect>) -> (links:
        usize)
        requires
            old(map).wf(),
            forall|k: int|
                0 <= k < rooms@.len() ==> is_inside(
                    #[trigger] rooms@[k],
                    old(map).width as int,
                    old(map).height as int,
                ),
        ensures
            final(map).wf(),
            final(map).width == old(map).width,
            final(map).height == old(map).height,
            links == spec_links(rooms@.len() as int, self.options.max_tunnels),
            final(map).features@.len() == old(map).features@.len() + 2 * links,
            final(map).features@.take(old(map).features@.len() as int) == old(map).features@,
            links_recorded(
                final(map).features@,
                old(map).features@.len() as int,
                rooms@,
                links as int,
            ),
            forall|x: int, y: int|
                old(map).in_bounds(x, y) ==> #[trigger] final(map).at(x, y) == if covered(
                    final(map).features@,
                    old(map).features@.len() as int,
                    x,
                    y,
                ) {
                    TileType::Floor
                } else {
                    old(map).at(x, y)
                },
    {
        let width: usize = map.width;
        let height: usize = map.height;
        let ghost base = map.features@.len() as int;
        let n: usize = rooms.len();
        let limit: usize = if n == 0 {
            0
        } else {
            match self.options.max_tunnels {
                Some(cap) => if cap < n - 1 {
                    cap
                } else {
                    n - 1
                },
                None => n - 1,
            }
        };
        let mut r: usize = 1;
        assert(map.features@.take(base) =~= old(map).features@);
        while r <= limit
            invariant
                1 <= r <= limit + 1,
                limit == spec_links(n as int, self.options.max_tunnels),
                limit < n || n == 0,
                n == rooms@.len(),
                map.wf(),
                width == map.width == old(map).width,
                height == map.height == old(map).height,
                forall|k: int|
                    0 <= k < rooms@.len() ==> is_inside(
                        #[trigger] rooms@[k],
                        width as int,
                        height as int,
                    ),
                base == old(map).features@.len(),
                map.features@.len() == base + 2 * (r - 1),
                map.features@.take(base) == old(map).features@,
                links_recorded(map.features@, base, rooms@, r - 1),
                forall|x: int, y: int|
                    old(map).in_bounds(x, y) ==> #[trigger] map.at(x, y) == if covered(
                        map.features@,
                        base,
                        x,
                        y,
                    ) {
                        TileType::Floor
                    } else {
                        old(map).at(x, y)
                    },
            decreases limit + 1 - r,
        {
            let next: Rect = rooms[r];
            let prev: Rect = rooms[r - 1];
            assert(is_inside(rooms@[r as int], width as int, height as int));
            assert(is_inside(rooms@[r as int - 1], width as int, height as int));
            let ghost features0 = map.features@;
            let ghost map0 = *map;
            let legs: (Rect, Rect) = join_pair(map, rng, &prev, &next);
            proof {
                let first = Feature::Tunnel(legs.0);
                let second = Feature::Tunnel(legs.1);
                assert(map.features@.take(base) =~= features0.take(base));
                lemma_links_push(features0, base, rooms@, r as int, legs.0, legs.1);
                assert forall|x: int, y: int| old(map).in_bounds(x, y) implies #[trigger] map.at(
                    x,
                    y,
                ) == if covered(map.features@, base, x, y) {
                    TileType::Floor
                } else {
                    old(map).at(x, y)
                } by {
                    lemma_covered_push(features0, base, first, x, y);
                    lemma_covered_push(features0.push(first), base, second, x, y);
                    assert(map0.at(x, y) == if covered(features0, base, x, y) {
                        TileType::Floor
                    } else {
                        old(map).at(x, y)
                    });
                }
            }
            r = r + 1;
        }
        limit
    }

    /// Places rooms, sorts them by their distance from the first one, and
    /// joins each to the one before it in that order. Returns the number of
    /// rooms placed.
    #[verifier::rlimit(50)]
    pub fn tunnel(&self, map: &mut DungeonS1, rng: &mut StdRng) -> (placed: usize)
        requires
            old(map).wf(),
        ensures
            tunnel_result(self.options, *old(map), *final(map), placed),
    {
        let ghost base = map.features@.len() as int;
        let rooms: Vec<Rect> = self.place_rooms(map, rng);
        let ghost mid_map = *map;
        let ghost mid_features = map.features@;
        let placed: usize = rooms.len();
        let closest_rooms: Vec<Rect> = if placed > 0 {
            let origin: Rect = rooms[0];
            sort_by_distance(&rooms, &origin)
        } else {
            Vec::new()
        };
        proof {
            assert(closest_rooms@.to_multiset() == rooms@.to_multiset()) by {
                if placed == 0 {
                    assert(closest_rooms@ =~= rooms@);
                }
            }
            assert forall|k: int| 0 <= k < closest_rooms@.len() implies is_inside(
                #[trigger] closest_rooms@[k],
                map.width as int,
                map.height as int,
            ) by {
                let room = closest_rooms@[k];
                vstd::seq_lib::to_multiset_contains(closest_rooms@, room);
                vstd::seq_lib::to_multiset_contains(rooms@, room);
                assert(closest_rooms@.contains(room));
                assert(rooms@.contains(room));
                let j = choose|j: int| 0 <= j < rooms@.len() && rooms@[j] == room;
                assert(self.options.admits(rooms@[j], map.width as int, map.height as int));
            }
        }
        let links: usize = self.connect_rooms(map, rng, &closest_rooms);
        proof {
            let feats = map.features@;
            let split = base + placed;
            assert forall|k: int| 0 <= k < split implies feats[k] == mid_features[k] by {
                assert(feats.take(split)[k] == feats[k]);
            }
            assert(feats.take(base) =~= mid_features.take(base));
            let listed = recorded_rooms(feats, base, placed as int);
            assert(listed =~= rooms@) by {
                assert forall|k: int| 0 <= k < placed implies listed[k] == rooms@[k] by {
                    assert(mid_features[base + k] == Feature::Room(rooms@[k]));
                }
            }
            assert forall|k: int| 0 <= k < placed implies feats[base + k] is Room
                && self.options.admits(
                #[trigger] listed[k],
                old(map).width as int,
                old(map).height as int,
            ) by {
                assert(mid_features[base + k] == Feature::Room(rooms@[k]));
                assert(self.options.admits(rooms@[k], old(map).width as int, old(map).height as int));
            }
            let order = closest_rooms@;
            assert(is_route(order, feats, base, placed as int, links as int));
            let draws = choose|draws: Seq<Option<Rect>>| #[trigger]
                self.options.is_placing(
                    draws,
                    old(map).width as int,
                    old(map).height as int,
                    rooms@,
                );
            assert(self.options.is_placing(
                draws,
                old(map).width as int,
                old(map).height as int,
                listed,
            ));
            assert forall|x: int, y: int| old(map).in_bounds(x, y) implies #[trigger] map.at(x, y)
                == if covered(feats, base, x, y) {
                TileType::Floor
            } else {
                old(map).at(x, y)
            } by {
                lemma_covered_split(feats, base, split, x, y);
                assert(feats.take(split) =~= mid_features);
                assert(mid_map.at(x, y) == if covered(mid_features, base, x, y) {
                    TileType::Floor
                } else {
                    old(map).at(x, y)
                });
            }
        }
        placed
    }
}

} // verus!
