//! The corridors that join the rooms of a level into one connected
//! structure.
use crate::disjoint_sets::lemma_occurrences_full;
use crate::disjoint_sets::occurrences;
use crate::disjoint_sets::DisjointSets;
use crate::geometry::Point;
use crate::geometry::Rectangle;
use crate::geometry::RectangleIntersection;
use crate::connectivity::all_connected;
use crate::connectivity::connected;
use crate::connectivity::floor_kept;
use crate::connectivity::is_walk;
use crate::connectivity::lemma_connected_back;
use crate::connectivity::lemma_connected_kept;
use crate::connectivity::lemma_connected_on;
use crate::connectivity::lemma_connected_self;
use crate::connectivity::lemma_connected_step;
use crate::connectivity::lemma_rectangle_connected;
use crate::connectivity::lemma_walk_connects;
use crate::geometry::adjacent_four;
use crate::line::between;
use crate::line::is_line;
use crate::line::line_between;
use crate::line::line_points;
use crate::point_map::PointMap;
use crate::random::random_bool;
use crate::random::random_range;
use crate::rooms::roomy;
use crate::rooms::GenerationConfig;
use crate::rooms::well_placed;
use crate::rooms::within;
use crate::rooms::Room;
use crate::terrain::carved;
use crate::terrain::is_floor;
use crate::terrain::lemma_carved_insert;
use crate::terrain::lemma_carved_nothing;
use crate::terrain::lemma_carved_twice;
use crate::terrain::make_floor;
use crate::terrain::Floor;
use crate::terrain::Tile;
use rand_pcg::Pcg32;
use vstd::prelude::*;

verus! {

/// A pair of rooms, by their indices, with the way their floors lie
/// relative to each other.
#[derive(Clone, Copy, Debug)]
pub struct Edge {
    pub i: usize,
    pub j: usize,
    pub intersection: RectangleIntersection,
}

/// The least gap between two rooms that ends the joining of rooms once all
/// of them are connected.
pub const MIN_SLACK_DISTANCE: i32 = 2;

/// Whether `e` pairs two of `rooms`, the first not after the second, with
/// the intersection of their floors.
pub open spec fn edge_of(e: Edge, rooms: Seq<Room>) -> bool {
    &&& e.i <= e.j < rooms.len()
    &&& e.intersection == rooms[e.i as int].floor.spec_intersection(rooms[e.j as int].floor)
}

/// Whether the pair `a` comes before the pair `b`: by its first room, then
/// by its second.
pub open spec fn pair_before(a: Edge, b: Edge) -> bool {
    a.i < b.i || (a.i == b.i && a.j < b.j)
}

/// Whether `edges` holds the pair of the rooms `i` and `j`.
pub open spec fn has_pair(edges: Seq<Edge>, i: int, j: int) -> bool {
    exists|k: int| 0 <= k < edges.len() && (#[trigger] edges[k]).i == i && edges[k].j == j
}

/// Whether the overlap of any two rooms, or the gap between them, can be
/// measured in `i32`.
pub open spec fn all_spans_fit(rooms: Seq<Room>) -> bool {
    forall|i: int, j: int|
        0 <= i < rooms.len() && 0 <= j < rooms.len() ==> (#[trigger] rooms[i]).floor.spans_fit(
            (#[trigger] rooms[j]).floor,
        )
}

/// All pairs of rooms, each room paired with itself too, in the order of
/// their indices.
pub fn room_pairs(rooms: &Vec<Room>) -> (edges: Vec<Edge>)
    requires
        all_spans_fit(rooms@),
    ensures
        forall|k: int| 0 <= k < edges@.len() ==> edge_of(#[trigger] edges@[k], rooms@),
        forall|i: int, j: int| 0 <= i <= j < rooms@.len() ==> has_pair(edges@, i, j),
        forall|a: int, b: int|
            0 <= a < b < edges@.len() ==> pair_before(#[trigger] edges@[a], #[trigger] edges@[b]),
{
    let mut edges: Vec<Edge> = Vec::new();
    let mut i: usize = 0;
    while i < rooms.len()
        invariant
            all_spans_fit(rooms@),
            i <= rooms@.len(),
            forall|k: int| 0 <= k < edges@.len() ==> edge_of(#[trigger] edges@[k], rooms@),
            forall|k: int| 0 <= k < edges@.len() ==> (#[trigger] edges@[k]).i < i,
            forall|a: int, b: int| 0 <= a < i && a <= b < rooms@.len() ==> has_pair(edges@, a, b),
            forall|a: int, b: int|
                0 <= a < b < edges@.len() ==> pair_before(
                    #[trigger] edges@[a],
                    #[trigger] edges@[b],
                ),
        decreases rooms@.len() - i,
    {
        let mut j: usize = i;
        while j < rooms.len()
            invariant
                all_spans_fit(rooms@),
                i < rooms@.len(),
                i <= j <= rooms@.len(),
                forall|k: int| 0 <= k < edges@.len() ==> edge_of(#[trigger] edges@[k], rooms@),
                forall|k: int|
                    0 <= k < edges@.len() ==> (#[trigger] edges@[k]).i < i || (edges@[k].i == i
                        && edges@[k].j < j),
                forall|a: int, b: int|
                    0 <= a < i && a <= b < rooms@.len() ==> has_pair(edges@, a, b),
                forall|b: int| i <= b < j ==> has_pair(edges@, i as int, b),
                forall|a: int, b: int|
                    0 <= a < b < edges@.len() ==> pair_before(
                        #[trigger] edges@[a],
                        #[trigger] edges@[b],
                    ),
            decreases rooms@.len() - j,
        {
            let ghost before = edges@;
            let first = rooms[i].floor;
            let second = rooms[j].floor;
            assert(rooms@[i as int].floor.spans_fit(rooms@[j as int].floor));
            let edge = Edge { i, j, intersection: first.intersection(second) };
            edges.push(edge);
            proof {
                assert(edges@[before.len() as int] == edge);
                assert(has_pair(edges@, i as int, j as int));
                assert forall|a: int, b: int|
                    0 <= a < i && a <= b < rooms@.len() implies has_pair(edges@, a, b) by {
                    assert(has_pair(before, a, b));
                    let k = choose|k: int|
                        0 <= k < before.len() && (#[trigger] before[k]).i == a && before[k].j == b;
                    assert(edges@[k] == before[k]);
                }
                assert forall|b: int| i <= b < j + 1 implies has_pair(edges@, i as int, b) by {
                    if b < j {
                        assert(has_pair(before, i as int, b));
                        let k = choose|k: int|
                            0 <= k < before.len() && (#[trigger] before[k]).i == i && before[k].j
                                == b;
                        assert(edges@[k] == before[k]);
                    }
                }
            }
            j = j + 1;
        }
        i = i + 1;
    }
    edges
}

/// Whether the distance between the two rooms of `e` fits in an `i32`.
pub open spec fn measurable(e: Edge) -> bool {
    -i32::MAX <= e.intersection.spec_distance() <= i32::MAX
}

/// Whether the rooms of `a` are at least as far apart as those of `b`.
pub open spec fn farther(a: Edge, b: Edge) -> bool {
    a.intersection.spec_distance() >= b.intersection.spec_distance()
}

/// `slice::sort_by` on the pairs, by the distance between the two rooms of
/// a pair, the farthest first. The pairs are the same as before, each as
/// often as before, and no pair comes before one that is farther apart.
/// That pairs of equal distance keep their order is not stated.
#[verifier::external_body]
pub(crate) fn sort_farthest_first(edges: &mut Vec<Edge>)
    requires
        forall|k: int|
            0 <= k < old(edges)@.len() ==> measurable(#[trigger] old(edges)@[k]),
    ensures
        final(edges)@.to_multiset() == old(edges)@.to_multiset(),
        forall|a: int, b: int|
            0 <= a < b < final(edges)@.len() ==> farther(
                #[trigger] final(edges)@[a],
                #[trigger] final(edges)@[b],
            ),
{
    edges.sort_by(|e1, e2| e2.intersection.distance().cmp(&e1.intersection.distance()));
}

/// The ends of the straight corridor along the column `x` through the gap
/// `gap` between two rooms that share that column.
pub open spec fn spec_vertical_corridor(gap: Rectangle, x: int) -> Seq<Point> {
    seq![
        Point { x: x as i32, y: gap.pos.y },
        Point { x: x as i32, y: (gap.pos.y + gap.size.y - 1) as i32 },
    ]
}

/// The ends of the straight corridor along the row `y` through the gap `gap`
/// between two rooms that share that row.
pub open spec fn spec_horizontal_corridor(gap: Rectangle, y: int) -> Seq<Point> {
    seq![
        Point { x: gap.pos.x, y: y as i32 },
        Point { x: (gap.pos.x + gap.size.x - 1) as i32, y: y as i32 },
    ]
}

/// The three corners of the corridor with one bend between the nearest
/// corner tiles of two rooms that share neither a column nor a row. `gap`
/// is the space between those corners; `falling` says whether the room to
/// the left is the upper one; `turn_first` picks one of the two bends.
pub open spec fn spec_elbow_corridor(gap: Rectangle, falling: bool, turn_first: bool) -> Seq<
    Point,
> {
    let left = gap.pos.x - 1;
    let right = gap.pos.x + gap.size.x;
    let top = gap.pos.y - 1;
    let bottom = gap.pos.y + gap.size.y;
    let p1 = Point {
        x: left as i32,
        y: if falling {
            top as i32
        } else {
            bottom as i32
        },
    };
    let p3 = Point {
        x: right as i32,
        y: if falling {
            bottom as i32
        } else {
            top as i32
        },
    };
    let p2 = if turn_first {
        Point { x: p1.x, y: p3.y }
    } else {
        Point { x: p3.x, y: p1.y }
    };
    seq![p1, p2, p3]
}

/// Whether, of two rooms that share neither a column nor a row, the one to
/// the left is the upper one.
pub open spec fn spec_falling(first: Rectangle, second: Rectangle) -> bool {
    (first.pos.x <= second.pos.x) == (first.pos.y <= second.pos.y)
}

/// The ends of the straight corridor along the column `x` through `gap`.
pub fn vertical_corridor(gap: Rectangle, x: i32) -> (ends: Vec<Point>)
    requires
        gap.edges_fit(),
        i32::MIN < gap.end_y(),
    ensures
        ends@ == spec_vertical_corridor(gap, x as int),
{
    let mut ends: Vec<Point> = Vec::new();
    ends.push(Point::new(x, gap.pos.y));
    ends.push(Point::new(x, gap.pos.y + gap.size.y - 1));
    assert(ends@ =~= spec_vertical_corridor(gap, x as int));
    ends
}

/// The ends of the straight corridor along the row `y` through `gap`.
pub fn horizontal_corridor(gap: Rectangle, y: i32) -> (ends: Vec<Point>)
    requires
        gap.edges_fit(),
        i32::MIN < gap.end_x(),
    ensures
        ends@ == spec_horizontal_corridor(gap, y as int),
{
    let mut ends: Vec<Point> = Vec::new();
    ends.push(Point::new(gap.pos.x, y));
    ends.push(Point::new(gap.pos.x + gap.size.x - 1, y));
    assert(ends@ =~= spec_horizontal_corridor(gap, y as int));
    ends
}

/// The corners of the corridor with one bend across `gap`, between the
/// rooms with the floors `first` and `second`.
pub fn elbow_corridor(gap: Rectangle, first: Rectangle, second: Rectangle, turn_first: bool) -> (corners:
    Vec<Point>)
    requires
        gap.edges_fit(),
        i32::MIN < gap.pos.x,
        i32::MIN < gap.pos.y,
    ensures
        corners@ == spec_elbow_corridor(gap, spec_falling(first, second), turn_first),
{
    // Expand the gap one tile up and left so that its corners are the
    // rooms' corner tiles.
    let left = gap.pos.x - 1;
    let top = gap.pos.y - 1;
    let right = gap.pos.x + gap.size.x;
    let bottom = gap.pos.y + gap.size.y;
    // Determine if the rooms are diagonal "\" or "/".
    let falling = (first.pos.x <= second.pos.x) == (first.pos.y <= second.pos.y);
    let p1 = if falling {
        Point::new(left, top)
    } else {
        Point::new(left, bottom)
    };
    let p3 = if falling {
        Point::new(right, bottom)
    } else {
        Point::new(right, top)
    };
    let p2 = if turn_first {
        Point::new(p1.x, p3.y)
    } else {
        Point::new(p3.x, p1.y)
    };
    let mut corners: Vec<Point> = Vec::new();
    corners.push(p1);
    corners.push(p2);
    corners.push(p3);
    assert(corners@ =~= spec_elbow_corridor(gap, spec_falling(first, second), turn_first));
    corners
}

/// The points of the line from `a` to `b`.
pub open spec fn line_set(a: Point, b: Point) -> Set<Point> {
    Set::new(|p: Point| line_points(a, b).contains(p))
}

/// Carves a corridor of stone floor along the line from `a` to `b`.
pub fn carve_line(terrain: &mut PointMap<Tile>, a: Point, b: Point)
    requires
        i32::MIN < a.x < i32::MAX,
        i32::MIN < a.y < i32::MAX,
        i32::MIN < b.x < i32::MAX,
        i32::MIN < b.y < i32::MAX,
    ensures
        final(terrain)@ == carved(old(terrain)@, line_set(a, b), Floor::Stone),
        is_line(line_points(a, b), a, b),
{
    let line = line_between(a, b);
    let ghost before = terrain@;
    proof {
        lemma_carved_nothing(before, Floor::Stone);
        assert(Set::new(|p: Point| line@.subrange(0, 0).contains(p)) =~= Set::<Point>::empty());
    }
    let mut k: usize = 0;
    while k < line.len()
        invariant
            k <= line@.len(),
            forall|k: int| 0 <= k < line@.len() ==> between(a, b, #[trigger] line@[k]),
            i32::MIN < a.x < i32::MAX,
            i32::MIN < a.y < i32::MAX,
            i32::MIN < b.x < i32::MAX,
            i32::MIN < b.y < i32::MAX,
            terrain@ == carved(
                before,
                Set::new(|p: Point| line@.subrange(0, k as int).contains(p)),
                Floor::Stone,
            ),
        decreases line@.len() - k,
    {
        let coords = line[k];
        assert(between(a, b, line@[k as int]));
        make_floor(terrain, coords, Floor::Stone);
        proof {
            let done = Set::new(|p: Point| line@.subrange(0, k as int).contains(p));
            let more = Set::new(|p: Point| line@.subrange(0, k + 1).contains(p));
            lemma_carved_insert(before, done, coords, Floor::Stone);
            assert forall|p: Point| done.insert(coords).contains(p) == more.contains(p) by {
                let shorter = line@.subrange(0, k as int);
                let longer = line@.subrange(0, k + 1);
                if shorter.contains(p) {
                    let i = choose|i: int| 0 <= i < shorter.len() && shorter[i] == p;
                    assert(longer[i] == p);
                }
                if p == coords {
                    assert(longer[k as int] == p);
                }
                if longer.contains(p) {
                    let i = choose|i: int| 0 <= i < longer.len() && longer[i] == p;
                    if i < k {
                        assert(shorter[i] == p);
                    }
                }
            }
            assert(done.insert(coords) =~= more);
        }
        k = k + 1;
    }
    proof {
        assert(line@.subrange(0, line@.len() as int) =~= line@);
        assert(Set::new(|p: Point| line@.contains(p)) =~= line_set(a, b));
    }
}

/// The points of the lines between the first `legs + 1` of the waypoints
/// `w`, each joined to the next.
pub open spec fn legs_set(w: Seq<Point>, legs: int) -> Set<Point> {
    Set::new(
        |p: Point| exists|k: int| 0 <= k < legs && #[trigger] line_set(w[k], w[k + 1]).contains(p),
    )
}

/// The points of the corridor through the waypoints `w`.
pub open spec fn corridor_set(w: Seq<Point>) -> Set<Point> {
    legs_set(w, w.len() - 1)
}

/// Whether each waypoint of `w` shares a column or a row with the next, and
/// the line between the two leads from the one to the other.
pub open spec fn straight_legs(w: Seq<Point>) -> bool {
    forall|k: int|
        0 <= k < w.len() - 1 ==> ((#[trigger] w[k]).x == w[k + 1].x || w[k].y == w[k + 1].y)
            && is_line(line_points(w[k], w[k + 1]), w[k], w[k + 1])
}

/// Carves a corridor of stone floor from each of `waypoints` to the next.
pub fn carve_corridor(terrain: &mut PointMap<Tile>, waypoints: &Vec<Point>)
    requires
        forall|k: int|
            0 <= k < waypoints@.len() ==> i32::MIN < (#[trigger] waypoints@[k]).x < i32::MAX
                && i32::MIN < waypoints@[k].y < i32::MAX,
    ensures
        final(terrain)@ == carved(old(terrain)@, corridor_set(waypoints@), Floor::Stone),
        forall|k: int|
            0 <= k < waypoints@.len() - 1 ==> is_line(
                line_points(#[trigger] waypoints@[k], waypoints@[k + 1]),
                waypoints@[k],
                waypoints@[k + 1],
            ),
{
    let ghost before = terrain@;
    let ghost w = waypoints@;
    proof {
        assert(legs_set(w, 0) =~= Set::<Point>::empty());
        lemma_carved_nothing(before, Floor::Stone);
    }
    if waypoints.len() < 2 {
        proof {
            assert(corridor_set(w) =~= Set::<Point>::empty());
        }
        return ;
    }
    let mut k: usize = 0;
    while k < waypoints.len() - 1
        invariant
            w == waypoints@,
            2 <= w.len(),
            k <= w.len() - 1,
            forall|k: int|
                0 <= k < w.len() ==> i32::MIN < (#[trigger] w[k]).x < i32::MAX && i32::MIN
                    < w[k].y < i32::MAX,
            terrain@ == carved(before, legs_set(w, k as int), Floor::Stone),
            forall|m: int|
                0 <= m < k ==> is_line(line_points(#[trigger] w[m], w[m + 1]), w[m], w[m + 1]),
        decreases w.len() - k,
    {
        let a = waypoints[k];
        let b = waypoints[k + 1];
        carve_line(terrain, a, b);
        proof {
            lemma_carved_twice(before, legs_set(w, k as int), line_set(a, b), Floor::Stone);
            assert forall|p: Point|
                legs_set(w, k as int).union(line_set(a, b)).contains(p) == legs_set(
                    w,
                    k + 1,
                ).contains(p) by {
                if legs_set(w, k as int).contains(p) {
                    let m = choose|m: int|
                        0 <= m < k && #[trigger] line_set(w[m], w[m + 1]).contains(p);
                    assert(0 <= m < k + 1 && line_set(w[m], w[m + 1]).contains(p));
                }
                if line_set(a, b).contains(p) {
                    assert(0 <= k < k + 1 && line_set(w[k as int], w[k + 1]).contains(p));
                }
                if legs_set(w, k + 1).contains(p) {
                    let m = choose|m: int|
                        0 <= m < k + 1 && #[trigger] line_set(w[m], w[m + 1]).contains(p);
                    if m < k {
                        assert(legs_set(w, k as int).contains(p));
                    }
                }
            }
            assert(legs_set(w, k as int).union(line_set(a, b)) =~= legs_set(w, k + 1));
        }
        k = k + 1;
    }
}

/// The tile by which a room is named when rooms are said to be connected:
/// its upper left corner.
pub open spec fn anchor(room: Room) -> Point {
    room.floor.pos
}

/// Whether every tile of every room is a floor tile.
#[verifier::opaque]
pub open spec fn opened(tiles: Map<Point, Tile>, rooms: Seq<Room>) -> bool {
    forall|r: int, p: Point|
        0 <= r < rooms.len() && (#[trigger] rooms[r]).floor.contains(p) ==> #[trigger] is_floor(
            tiles,
            p,
        )
}

/// Whether every floor tile is connected to some room.
#[verifier::opaque]
pub open spec fn attached(tiles: Map<Point, Tile>, rooms: Seq<Room>) -> bool {
    forall|p: Point| #[trigger]
        is_floor(tiles, p) ==> exists|r: int|
            0 <= r < rooms.len() && connected(tiles, p, anchor(#[trigger] rooms[r]))
}

/// Whether rooms with the same representative are connected.
#[verifier::opaque]
pub open spec fn linked(tiles: Map<Point, Tile>, rooms: Seq<Room>, reps: Seq<int>) -> bool {
    forall|a: int, b: int|
        0 <= a < rooms.len() && 0 <= b < rooms.len() && #[trigger] reps[a] == #[trigger] reps[b]
            ==> connected(tiles, anchor(rooms[a]), anchor(rooms[b]))
}

/// A line along a column or a row, once carved, is a walk.
proof fn lemma_line_walk(tiles: Map<Point, Tile>, a: Point, b: Point)
    requires
        a.x == b.x || a.y == b.y,
        is_line(line_points(a, b), a, b),
        forall|p: Point| line_set(a, b).contains(p) ==> is_floor(tiles, p),
    ensures
        is_walk(tiles, line_points(a, b)),
        connected(tiles, a, b),
        forall|p: Point| line_set(a, b).contains(p) ==> connected(tiles, a, p),
{
    let line = line_points(a, b);
    assert forall|k: int| 0 <= k < line.len() implies is_floor(tiles, #[trigger] line[k]) by {
        assert(line_set(a, b).contains(line[k]));
    }
    assert(is_walk(tiles, line));
    lemma_walk_connects(tiles, line, 0, line.len() - 1);
    assert forall|p: Point| line_set(a, b).contains(p) implies connected(tiles, a, p) by {
        let k = choose|k: int| 0 <= k < line.len() && line[k] == p;
        lemma_walk_connects(tiles, line, 0, k);
    }
}

/// Once a corridor with straight legs is carved, its first waypoint is
/// connected to every point of its first `legs` legs.
proof fn lemma_legs_connected(tiles: Map<Point, Tile>, w: Seq<Point>, legs: int)
    requires
        straight_legs(w),
        2 <= w.len(),
        0 <= legs <= w.len() - 1,
        forall|p: Point| corridor_set(w).contains(p) ==> is_floor(tiles, p),
    ensures
        connected(tiles, w[0], w[legs]),
        forall|p: Point| legs_set(w, legs).contains(p) ==> connected(tiles, w[0], p),
    decreases legs,
{
    if legs == 0 {
        assert(is_line(line_points(w[0], w[0int + 1]), w[0], w[0int + 1]));
        let first = line_points(w[0], w[1]);
        assert(line_set(w[0], w[0int + 1]).contains(first[0]));
        assert(corridor_set(w).contains(w[0]));
        lemma_connected_self(tiles, w[0]);
    } else {
        lemma_legs_connected(tiles, w, legs - 1);
        let a = w[legs - 1];
        let b = w[legs - 1 + 1];
        assert forall|p: Point| line_set(a, b).contains(p) implies is_floor(tiles, p) by {
            assert(corridor_set(w).contains(p));
        }
        lemma_line_walk(tiles, a, b);
        lemma_connected_on(tiles, w[0], a, b);
        assert forall|p: Point| legs_set(w, legs).contains(p) implies connected(tiles, w[0], p) by {
            let m = choose|m: int| 0 <= m < legs && #[trigger] line_set(w[m], w[m + 1]).contains(p);
            if m < legs - 1 {
                assert(legs_set(w, legs - 1).contains(p));
            } else {
                lemma_connected_on(tiles, w[0], a, p);
            }
        }
    }
}

/// What holds once a corridor with straight legs has been carved from a
/// tile of, or next to, one room to a tile of, or next to, another.
proof fn lemma_corridor(
    before: Map<Point, Tile>,
    now: Map<Point, Tile>,
    w: Seq<Point>,
    first: Rectangle,
    second: Rectangle,
    head: Point,
    tail: Point,
)
    requires
        now == carved(before, corridor_set(w), Floor::Stone),
        2 <= w.len(),
        straight_legs(w),
        forall|p: Point| first.contains(p) ==> is_floor(before, p),
        forall|p: Point| second.contains(p) ==> is_floor(before, p),
        first.contains(first.pos),
        second.contains(second.pos),
        first.contains(head),
        head == w[0] || adjacent_four(head, w[0]),
        second.contains(tail),
        tail == w[w.len() - 1] || adjacent_four(tail, w[w.len() - 1]),
    ensures
        floor_kept(before, now),
        forall|p: Point| is_floor(now, p) <==> is_floor(before, p) || corridor_set(w).contains(p),
        forall|p: Point| corridor_set(w).contains(p) ==> connected(now, first.pos, p),
        connected(now, first.pos, second.pos),
{
    assert forall|p: Point| is_floor(now, p) <==> is_floor(before, p) || corridor_set(w).contains(
        p,
    ) by {}
    lemma_legs_connected(now, w, w.len() - 1);
    let start = w[0];
    let end = w[w.len() - 1];
    assert(is_floor(now, start)) by {
        lemma_legs_connected(now, w, 0);
    }
    assert(is_floor(now, end));
    assert forall|p: Point| first.contains(p) implies is_floor(now, p) by {}
    assert forall|p: Point| second.contains(p) implies is_floor(now, p) by {}
    lemma_rectangle_connected(now, first, first.pos, head);
    if head != start {
        lemma_connected_step(now, head, start);
        lemma_connected_on(now, first.pos, head, start);
    }
    lemma_rectangle_connected(now, second, tail, second.pos);
    if tail != end {
        lemma_connected_step(now, end, tail);
        lemma_connected_on(now, end, tail, second.pos);
    }
    lemma_connected_on(now, first.pos, start, end);
    lemma_connected_on(now, first.pos, end, second.pos);
    assert forall|p: Point| corridor_set(w).contains(p) implies connected(now, first.pos, p) by {
        lemma_connected_on(now, first.pos, start, p);
    }
}

/// What holds of the rooms once two of them, `i` and `j`, have been joined:
/// by a corridor that added the floor tiles `cut`, and in the forest, whose
/// representatives were `reps` and are `merged`.
proof fn lemma_joined(
    before: Map<Point, Tile>,
    now: Map<Point, Tile>,
    rooms: Seq<Room>,
    reps: Seq<int>,
    merged: Seq<int>,
    i: int,
    j: int,
    from: int,
    cut: Set<Point>,
)
    requires
        opened(before, rooms),
        attached(before, rooms),
        linked(before, rooms, reps),
        floor_kept(before, now),
        forall|p: Point| is_floor(now, p) ==> is_floor(before, p) || cut.contains(p),
        0 <= i < rooms.len(),
        0 <= j < rooms.len(),
        from == i || from == j,
        forall|p: Point| cut.contains(p) ==> connected(now, anchor(rooms[from]), p),
        connected(now, anchor(rooms[i]), anchor(rooms[j])),
        reps.len() == rooms.len(),
        merged.len() == rooms.len(),
        forall|a: int, b: int|
            0 <= a < rooms.len() && 0 <= b < rooms.len() && #[trigger] merged[a]
                == #[trigger] merged[b] ==> reps[a] == reps[b] || (reps[a] == reps[i] && reps[j]
                == reps[b]) || (reps[a] == reps[j] && reps[i] == reps[b]),
    ensures
        opened(now, rooms),
        attached(now, rooms),
        linked(now, rooms, merged),
{
    reveal(opened);
    reveal(attached);
    reveal(linked);
    let ai = anchor(rooms[i]);
    let aj = anchor(rooms[j]);
    lemma_connected_back(now, ai, aj);
    assert forall|p: Point| #[trigger] is_floor(now, p) implies exists|r: int|
        0 <= r < rooms.len() && connected(now, p, anchor(#[trigger] rooms[r])) by {
        if is_floor(before, p) {
            let r = choose|r: int|
                0 <= r < rooms.len() && connected(before, p, anchor(#[trigger] rooms[r]));
            lemma_connected_kept(before, now, p, anchor(rooms[r]));
        } else {
            lemma_connected_back(now, anchor(rooms[from]), p);
            assert(connected(now, p, anchor(rooms[from])));
        }
    }
    assert forall|a: int, b: int|
        0 <= a < rooms.len() && 0 <= b < rooms.len() && #[trigger] merged[a]
            == #[trigger] merged[b] implies connected(now, anchor(rooms[a]), anchor(rooms[b])) by {
        let pa = anchor(rooms[a]);
        let pb = anchor(rooms[b]);
        if reps[a] == reps[b] {
            lemma_connected_kept(before, now, pa, pb);
        } else if reps[a] == reps[i] && reps[j] == reps[b] {
            lemma_connected_kept(before, now, pa, ai);
            lemma_connected_kept(before, now, aj, pb);
            lemma_connected_on(now, pa, ai, aj);
            lemma_connected_on(now, pa, aj, pb);
        } else {
            lemma_connected_kept(before, now, pa, aj);
            lemma_connected_kept(before, now, ai, pb);
            lemma_connected_on(now, pa, aj, ai);
            lemma_connected_on(now, pa, ai, pb);
        }
    }
}

/// Where the rooms are all of one set, every floor tile can be reached
/// from every other.
proof fn lemma_all_connected(tiles: Map<Point, Tile>, rooms: Seq<Room>, reps: Seq<int>)
    requires
        attached(tiles, rooms),
        linked(tiles, rooms, reps),
        forall|a: int, b: int|
            0 <= a < rooms.len() && 0 <= b < rooms.len() ==> #[trigger] reps[a]
                == #[trigger] reps[b],
    ensures
        all_connected(tiles),
{
    reveal(attached);
    reveal(linked);
    assert forall|a: Point, b: Point| is_floor(tiles, a) && is_floor(tiles, b) implies #[trigger] connected(
        tiles,
        a,
        b,
    ) by {
        let ra = choose|r: int|
            0 <= r < rooms.len() && connected(tiles, a, anchor(#[trigger] rooms[r]));
        let rb = choose|r: int|
            0 <= r < rooms.len() && connected(tiles, b, anchor(#[trigger] rooms[r]));
        assert(reps[ra] == reps[rb]);
        lemma_connected_back(tiles, b, anchor(rooms[rb]));
        lemma_connected_on(tiles, a, anchor(rooms[ra]), anchor(rooms[rb]));
        lemma_connected_on(tiles, a, anchor(rooms[rb]), b);
    }
}

/// Sequences with the same elements, each as often, hold the same values.
proof fn lemma_same_elements(a: Seq<Edge>, b: Seq<Edge>, e: Edge)
    requires
        a.to_multiset() == b.to_multiset(),
    ensures
        a.contains(e) == b.contains(e),
{
    a.to_multiset_ensures();
    b.to_multiset_ensures();
    assert(a.contains(e) <==> a.to_multiset().count(e) > 0);
    assert(b.contains(e) <==> b.to_multiset().count(e) > 0);
}

/// The upper left corner tile of a room lies in the room.
proof fn lemma_anchor(rooms: Seq<Room>, region: Rectangle, r: int)
    requires
        well_placed(rooms, region, 1),
        0 <= r < rooms.len(),
    ensures
        rooms[r].floor.contains(anchor(rooms[r])),
        within(rooms[r].floor, region),
        rooms[r].floor.size.x >= 1,
        rooms[r].floor.size.y >= 1,
{
}

/// The tiles of a room are floor tiles.
proof fn lemma_opened_room(tiles: Map<Point, Tile>, rooms: Seq<Room>, r: int)
    requires
        opened(tiles, rooms),
        0 <= r < rooms.len(),
    ensures
        forall|p: Point| rooms[r].floor.contains(p) ==> is_floor(tiles, p),
{
    reveal(opened);
    assert forall|p: Point| rooms[r].floor.contains(p) implies is_floor(tiles, p) by {
        assert(rooms[r].floor.contains(p));
    }
}

/// The distance between two rooms of a region can be measured.
proof fn lemma_measurable(a: Rectangle, b: Rectangle, region: Rectangle)
    requires
        roomy(region),
        within(a, region),
        within(b, region),
        a.size.x >= 1 && a.size.y >= 1 && b.size.x >= 1 && b.size.y >= 1,
    ensures
        a.spans_fit(b),
        -i32::MAX <= a.spec_intersection(b).spec_distance() <= i32::MAX,
        a.spec_intersection(b).region().edges_fit(),
        i32::MIN < a.spec_intersection(b).region().pos.x,
        i32::MIN < a.spec_intersection(b).region().pos.y,
        i32::MIN < a.spec_intersection(b).region().end_x(),
        i32::MIN < a.spec_intersection(b).region().end_y(),
{
}

/// A corridor between waypoints of a region lies in the region.
proof fn lemma_corridor_in_region(w: Seq<Point>, region: Rectangle)
    requires
        waypoints_in(w, region),
        straight_legs(w),
    ensures
        forall|p: Point| corridor_set(w).contains(p) ==> region.contains(p),
{
    assert forall|p: Point| corridor_set(w).contains(p) implies region.contains(p) by {
        let k = choose|k: int|
            0 <= k < w.len() - 1 && #[trigger] line_set(w[k], w[k + 1]).contains(p);
        let line = line_points(w[k], w[k + 1]);
        let m = choose|m: int| 0 <= m < line.len() && line[m] == p;
        assert(between(w[k], w[k + 1], line[m]));
        assert(region.contains(w[k]));
        assert(region.contains(w[k + 1]));
    }
}

/// The tiles at which a corridor meets the two rooms that it joins.
pub struct Ends {
    /// Whether the corridor starts at the first room of the pair.
    pub forward: bool,
    /// A tile of the room at which the corridor starts: its first waypoint
    /// or a tile next to it.
    pub head: Point,
    /// A tile of the room at which the corridor ends: its last waypoint or
    /// a tile next to it.
    pub tail: Point,
}

/// Whether `ends` are the tiles at which the corridor through `w` meets the
/// rooms with the floors `a` and `b`.
pub open spec fn ends_meet(ends: Ends, w: Seq<Point>, a: Rectangle, b: Rectangle) -> bool {
    let first = if ends.forward {
        a
    } else {
        b
    };
    let second = if ends.forward {
        b
    } else {
        a
    };
    &&& 2 <= w.len()
    &&& first.contains(ends.head)
    &&& ends.head == w[0] || adjacent_four(ends.head, w[0])
    &&& second.contains(ends.tail)
    &&& ends.tail == w[w.len() - 1] || adjacent_four(ends.tail, w[w.len() - 1])
    &&& forall|k: int| 0 <= k < w.len() - 1 ==> (#[trigger] w[k]).x == w[k + 1].x || w[k].y == w[k
        + 1].y
}

/// Whether the waypoints `w` lie in `region`.
pub open spec fn waypoints_in(w: Seq<Point>, region: Rectangle) -> bool {
    forall|k: int| 0 <= k < w.len() ==> region.contains(#[trigger] w[k])
}

/// A straight corridor along a column meets the upper room from below and
/// the lower room from above.
proof fn lemma_vertical_ends(a: Rectangle, b: Rectangle, region: Rectangle, x: int) -> (ends: Ends)
    requires
        roomy(region),
        within(a, region),
        within(b, region),
        a.size.x >= 1 && a.size.y >= 1 && b.size.x >= 1 && b.size.y >= 1,
        !a.spec_touching(b),
        a.spec_intersection(b) is Horizontal,
        a.spec_intersection(b).region().pos.x <= x < a.spec_intersection(b).region().end_x(),
    ensures
        ends_meet(ends, spec_vertical_corridor(a.spec_intersection(b).region(), x), a, b),
        waypoints_in(spec_vertical_corridor(a.spec_intersection(b).region(), x), region),
{
    let gap = a.spec_intersection(b).region();
    let w = spec_vertical_corridor(gap, x);
    let forward = a.end_y() <= b.end_y();
    let ends = Ends {
        forward,
        head: Point { x: x as i32, y: (gap.pos.y - 1) as i32 },
        tail: Point { x: x as i32, y: (gap.pos.y + gap.size.y) as i32 },
    };
    assert(w[0] == Point { x: x as i32, y: gap.pos.y });
    assert(w[1] == Point { x: x as i32, y: (gap.pos.y + gap.size.y - 1) as i32 });
    ends
}

/// A straight corridor along a row meets the left room from the right and
/// the right room from the left.
proof fn lemma_horizontal_ends(a: Rectangle, b: Rectangle, region: Rectangle, y: int) -> (ends:
    Ends)
    requires
        roomy(region),
        within(a, region),
        within(b, region),
        a.size.x >= 1 && a.size.y >= 1 && b.size.x >= 1 && b.size.y >= 1,
        !a.spec_touching(b),
        a.spec_intersection(b) is Vertical,
        a.spec_intersection(b).region().pos.y <= y < a.spec_intersection(b).region().end_y(),
    ensures
        ends_meet(ends, spec_horizontal_corridor(a.spec_intersection(b).region(), y), a, b),
        waypoints_in(spec_horizontal_corridor(a.spec_intersection(b).region(), y), region),
{
    let gap = a.spec_intersection(b).region();
    let w = spec_horizontal_corridor(gap, y);
    let forward = a.end_x() <= b.end_x();
    let ends = Ends {
        forward,
        head: Point { x: (gap.pos.x - 1) as i32, y: y as i32 },
        tail: Point { x: (gap.pos.x + gap.size.x) as i32, y: y as i32 },
    };
    assert(w[0] == Point { x: gap.pos.x, y: y as i32 });
    assert(w[1] == Point { x: (gap.pos.x + gap.size.x - 1) as i32, y: y as i32 });
    ends
}

/// A corridor with a bend starts at a corner tile of the left room and ends
/// at a corner tile of the right room.
proof fn lemma_elbow_ends(a: Rectangle, b: Rectangle, region: Rectangle, turn_first: bool) -> (ends:
    Ends)
    requires
        roomy(region),
        within(a, region),
        within(b, region),
        a.size.x >= 1 && a.size.y >= 1 && b.size.x >= 1 && b.size.y >= 1,
        !a.spec_touching(b),
        a.spec_intersection(b) is Disjoint,
    ensures
        ends_meet(
            ends,
            spec_elbow_corridor(a.spec_intersection(b).region(), spec_falling(a, b), turn_first),
            a,
            b,
        ),
        waypoints_in(
            spec_elbow_corridor(a.spec_intersection(b).region(), spec_falling(a, b), turn_first),
            region,
        ),
{
    let gap = a.spec_intersection(b).region();
    let w = spec_elbow_corridor(gap, spec_falling(a, b), turn_first);
    let forward = a.pos.x <= b.pos.x;
    let ends = Ends { forward, head: w[0], tail: w[2] };
    assert(w.len() == 3);
    ends
}

/// What the joining of rooms keeps true from pair to pair: the map is the
/// one it began with but for the stone floor of the corridors, which lie in
/// `region`; every floor tile is connected to a room; and rooms of one set
/// of the forest are connected.
pub open spec fn joining(
    before: Map<Point, Tile>,
    now: Map<Point, Tile>,
    cut: Set<Point>,
    rooms: Seq<Room>,
    region: Rectangle,
    reps: Seq<int>,
) -> bool {
    &&& now == carved(before, cut, Floor::Stone)
    &&& forall|p: Point| cut.contains(p) ==> region.contains(p)
    &&& opened(now, rooms)
    &&& attached(now, rooms)
    &&& linked(now, rooms, reps)
    &&& reps.len() == rooms.len()
}

/// Joining goes on through the pair of the rooms `i` and `j`, whose corridor
/// runs through the waypoints `w`.
proof fn lemma_joining_step(
    before: Map<Point, Tile>,
    old_now: Map<Point, Tile>,
    now: Map<Point, Tile>,
    old_cut: Set<Point>,
    rooms: Seq<Room>,
    region: Rectangle,
    reps: Seq<int>,
    merged: Seq<int>,
    i: int,
    j: int,
    w: Seq<Point>,
    ends: Ends,
)
    requires
        joining(before, old_now, old_cut, rooms, region, reps),
        roomy(region),
        well_placed(rooms, region, 1),
        0 <= i <= j < rooms.len(),
        now == carved(old_now, corridor_set(w), Floor::Stone),
        w.len() == 0 ==> i == j,
        w.len() != 0 ==> ends_meet(ends, w, rooms[i].floor, rooms[j].floor) && waypoints_in(
            w,
            region,
        ) && straight_legs(w),
        merged.len() == rooms.len(),
        forall|a: int, b: int|
            0 <= a < rooms.len() && 0 <= b < rooms.len() && #[trigger] merged[a]
                == #[trigger] merged[b] ==> reps[a] == reps[b] || (reps[a] == reps[i] && reps[j]
                == reps[b]) || (reps[a] == reps[j] && reps[i] == reps[b]),
    ensures
        joining(before, now, old_cut.union(corridor_set(w)), rooms, region, merged),
{
    let cut = corridor_set(w);
    lemma_carved_twice(before, old_cut, cut, Floor::Stone);
    lemma_anchor(rooms, region, i);
    lemma_anchor(rooms, region, j);
    lemma_opened_room(old_now, rooms, i);
    lemma_opened_room(old_now, rooms, j);
    let ai = anchor(rooms[i]);
    let aj = anchor(rooms[j]);
    if w.len() == 0 {
        assert(cut =~= Set::<Point>::empty());
        lemma_carved_nothing(old_now, Floor::Stone);
        lemma_connected_self(now, ai);
        lemma_joined(old_now, now, rooms, reps, merged, i, j, i, cut);
    } else {
        if ends.forward {
            lemma_corridor(old_now, now, w, rooms[i].floor, rooms[j].floor, ends.head, ends.tail);
            lemma_joined(old_now, now, rooms, reps, merged, i, j, i, cut);
        } else {
            lemma_corridor(old_now, now, w, rooms[j].floor, rooms[i].floor, ends.head, ends.tail);
            lemma_connected_back(now, aj, ai);
            lemma_joined(old_now, now, rooms, reps, merged, i, j, j, cut);
        }
        lemma_corridor_in_region(w, region);
    }
}

/// Joins the two rooms of `edge`: carves the corridor between them, with
/// the draws that it takes, and merges them in the forest. The result is
/// the size of the merged set.
fn join_pair(
    terrain: &mut PointMap<Tile>,
    connected_rooms: &mut DisjointSets,
    rooms: &Vec<Room>,
    edge: Edge,
    rng: &mut Pcg32,
    Ghost(before): Ghost<Map<Point, Tile>>,
    Ghost(cut): Ghost<Set<Point>>,
    Ghost(region): Ghost<Rectangle>,
) -> (r: (usize, Ghost<Set<Point>>))
    requires
        roomy(region),
        well_placed(rooms@, region, 1),
        old(connected_rooms).wf(),
        edge_of(edge, rooms@),
        joining(before, old(terrain)@, cut, rooms@, region, old(connected_rooms)@),
    ensures
        final(connected_rooms).wf(),
        joining(before, final(terrain)@, r.1@, rooms@, region, final(connected_rooms)@),
        final(connected_rooms)@[edge.i as int] == final(connected_rooms)@[edge.j as int],
        forall|a: int, b: int|
            0 <= a < rooms@.len() && 0 <= b < rooms@.len() && #[trigger] old(connected_rooms)@[a]
                == #[trigger] old(connected_rooms)@[b]
                ==> final(connected_rooms)@[a] == final(connected_rooms)@[b],
        r.0 == occurrences(final(connected_rooms)@, final(connected_rooms)@[edge.i as int]),
{
    let ghost old_terrain = terrain@;
    let ghost old_reps = connected_rooms@;
    let ghost mut ends = Ends {
        forward: true,
        head: Point { x: 0, y: 0 },
        tail: Point { x: 0, y: 0 },
    };
    let first = rooms[edge.i].floor;
    let second = rooms[edge.j].floor;
    proof {
        lemma_anchor(rooms@, region, edge.i as int);
        lemma_anchor(rooms@, region, edge.j as int);
        lemma_measurable(first, second, region);
        if edge.i != edge.j {
            assert(!rooms@[edge.i as int].floor.spec_touching(rooms@[edge.j as int].floor));
        }
    }
    // Connect the rooms.
    let waypoints = match edge.intersection {
        RectangleIntersection::Real(_) => {
            // Rooms do not intersect one another, so this is a room paired
            // with itself: there is no work to do.
            Vec::new()
        },
        RectangleIntersection::Horizontal(gap) => {
            // Connect vertically.
            let x = random_range(rng, gap.pos.x, gap.pos.x + gap.size.x - 1);
            proof {
                ends = lemma_vertical_ends(first, second, region, x as int);
            }
            vertical_corridor(gap, x)
        },
        RectangleIntersection::Vertical(gap) => {
            // Connect horizontally.
            let y = random_range(rng, gap.pos.y, gap.pos.y + gap.size.y - 1);
            proof {
                ends = lemma_horizontal_ends(first, second, region, y as int);
            }
            horizontal_corridor(gap, y)
        },
        RectangleIntersection::Disjoint(gap) => {
            // Connect the nearest corners via a random elbow.
            let turn_first = random_bool(rng);
            proof {
                ends = lemma_elbow_ends(first, second, region, turn_first);
            }
            elbow_corridor(gap, first, second, turn_first)
        },
    };
    proof {
        assert forall|k: int| 0 <= k < waypoints@.len() implies i32::MIN < (
        #[trigger] waypoints@[k]).x < i32::MAX && i32::MIN < waypoints@[k].y < i32::MAX by {
            assert(region.contains(waypoints@[k]));
        }
    }
    carve_corridor(terrain, &waypoints);
    // Merge the two connection sets.
    let size = connected_rooms.merge(edge.i, edge.j);
    proof {
        let w = waypoints@;
        if w.len() != 0 {
            assert(straight_legs(w));
        }
        assert forall|a: int, b: int|
            0 <= a < rooms@.len() && 0 <= b < rooms@.len() && #[trigger] connected_rooms@[a]
                == #[trigger] connected_rooms@[b] implies old_reps[a] == old_reps[b] || (old_reps[a]
            == old_reps[edge.i as int] && old_reps[edge.j as int] == old_reps[b]) || (old_reps[a]
            == old_reps[edge.j as int] && old_reps[edge.i as int] == old_reps[b]) by {
            assert(connected_rooms.same_set(a, b));
        }
        assert forall|a: int, b: int|
            0 <= a < rooms@.len() && 0 <= b < rooms@.len() && #[trigger] old_reps[a]
                == #[trigger] old_reps[b] implies connected_rooms@[a] == connected_rooms@[b] by {
            assert(connected_rooms.same_set(a, b));
        }
        assert(connected_rooms.same_set(edge.i as int, edge.j as int));
        lemma_joining_step(
            before,
            old_terrain,
            terrain@,
            cut,
            rooms@,
            region,
            old_reps,
            connected_rooms@,
            edge.i as int,
            edge.j as int,
            w,
            ends,
        );
    }
    (size, Ghost(cut.union(corridor_set(waypoints@))))
}

/// Whether `now` is `before` with stone floor, and the walls around it,
/// added at points of `region`.
pub open spec fn corridors_added(
    before: Map<Point, Tile>,
    now: Map<Point, Tile>,
    region: Rectangle,
) -> bool {
    exists|cut: Set<Point>|
        #![trigger carved(before, cut, Floor::Stone)]
        now == carved(before, cut, Floor::Stone) && forall|p: Point|
            cut.contains(p) ==> region.contains(p)
}

/// Connects the rooms into one connected structure: pair by pair, the
/// nearest rooms first, a corridor of stone floor is carved between the two
/// rooms of a pair and the two are merged in a forest of disjoint sets,
/// until all rooms are in one set and the pair joined last was more than
/// [`MIN_SLACK_DISTANCE`] apart.
///
/// Whatever is drawn, afterwards every floor tile can be reached from every
/// other; only stone floor and the walls around it have been added, inside
/// the border of the region.
pub fn connect_rooms(
    terrain: &mut PointMap<Tile>,
    rooms: &Vec<Room>,
    config: &GenerationConfig,
    rng: &mut Pcg32,
)
    requires
        config.valid(),
        well_placed(rooms@, config.spec_floor_region(), 1),
        opened(old(terrain)@, rooms@),
        attached(old(terrain)@, rooms@),
    ensures
        all_connected(final(terrain)@),
        corridors_added(old(terrain)@, final(terrain)@, config.spec_floor_region()),
{
    let ghost before = terrain@;
    let ghost region = config.spec_floor_region();
    proof {
        config.lemma_floor_region();
        assert forall|i: int, j: int|
            0 <= i < rooms@.len() && 0 <= j < rooms@.len() implies (
        #[trigger] rooms@[i]).floor.spans_fit((#[trigger] rooms@[j]).floor) by {
            lemma_anchor(rooms@, region, i);
            lemma_anchor(rooms@, region, j);
            lemma_measurable(rooms@[i].floor, rooms@[j].floor, region);
        }
    }
    // Build a forest of disjoint sets of connected rooms. Initially, each
    // room is in its own singleton set.
    let mut connected_rooms = DisjointSets::new(rooms.len());
    // Build an ordered queue of distances between rooms.
    let mut edges = room_pairs(rooms);
    let ghost pairs = edges@;
    proof {
        assert forall|k: int| 0 <= k < edges@.len() implies measurable(#[trigger] edges@[k]) by {
            let e = edges@[k];
            assert(edge_of(e, rooms@));
            lemma_anchor(rooms@, region, e.i as int);
            lemma_anchor(rooms@, region, e.j as int);
            lemma_measurable(rooms@[e.i as int].floor, rooms@[e.j as int].floor, region);
        }
    }
    sort_farthest_first(&mut edges);
    let ghost sorted = edges@;
    let ghost mut cut: Set<Point> = Set::empty();
    proof {
        assert forall|k: int| 0 <= k < sorted.len() implies edge_of(#[trigger] sorted[k], rooms@) by {
            lemma_same_elements(sorted, pairs, sorted[k]);
            assert(sorted.contains(sorted[k]));
            let m = choose|m: int| 0 <= m < pairs.len() && pairs[m] == sorted[k];
            assert(edge_of(pairs[m], rooms@));
        }
        lemma_carved_nothing(before, Floor::Stone);
        assert(linked(before, rooms@, connected_rooms@)) by {
            reveal(linked);
            assert forall|a: int, b: int|
                0 <= a < rooms@.len() && 0 <= b < rooms@.len() && #[trigger] connected_rooms@[a]
                    == #[trigger] connected_rooms@[b] implies connected(
                before,
                anchor(rooms@[a]),
                anchor(rooms@[b]),
            ) by {
                lemma_anchor(rooms@, region, a);
                lemma_opened_room(before, rooms@, a);
                lemma_connected_self(before, anchor(rooms@[a]));
            }
        }
        assert(sorted.subrange(0, sorted.len() as int) =~= sorted);
    }
    loop
        invariant_except_break
            forall|k: int|
                edges@.len() <= k < sorted.len() ==> connected_rooms@[(
                #[trigger] sorted[k]).i as int] == connected_rooms@[sorted[k].j as int],
        invariant
            region == config.spec_floor_region(),
            roomy(region),
            well_placed(rooms@, region, 1),
            connected_rooms.wf(),
            edges@.len() <= sorted.len(),
            edges@ == sorted.subrange(0, edges@.len() as int),
            sorted.to_multiset() == pairs.to_multiset(),
            forall|k: int| 0 <= k < sorted.len() ==> edge_of(#[trigger] sorted[k], rooms@),
            forall|i: int, j: int| 0 <= i <= j < rooms@.len() ==> has_pair(pairs, i, j),
            joining(before, terrain@, cut, rooms@, region, connected_rooms@),
        ensures
            forall|a: int, b: int|
                0 <= a < rooms@.len() && 0 <= b < rooms@.len() ==> #[trigger] connected_rooms@[a]
                    == #[trigger] connected_rooms@[b],
        decreases edges@.len(),
    {
        let popped = edges.pop();
        match popped {
            None => {
                proof {
                    assert forall|a: int, b: int|
                        0 <= a < rooms@.len() && 0 <= b < rooms@.len() implies #[trigger] connected_rooms@[a]
                        == #[trigger] connected_rooms@[b] by {
                        let lo = if a <= b {
                            a
                        } else {
                            b
                        };
                        let hi = if a <= b {
                            b
                        } else {
                            a
                        };
                        assert(has_pair(pairs, lo, hi));
                        let m = choose|m: int|
                            0 <= m < pairs.len() && (#[trigger] pairs[m]).i == lo && pairs[m].j
                                == hi;
                        lemma_same_elements(sorted, pairs, pairs[m]);
                        assert(pairs.contains(pairs[m]));
                        let k = choose|k: int| 0 <= k < sorted.len() && sorted[k] == pairs[m];
                        assert(connected_rooms@[sorted[k].i as int]
                            == connected_rooms@[sorted[k].j as int]);
                    }
                }
                break ;
            },
            Some(edge) => {
                let ghost rest = edges@;
                let ghost old_reps = connected_rooms@;
                assert(edge == sorted[rest.len() as int]);
                assert(edge_of(edge, rooms@));
                proof {
                    lemma_anchor(rooms@, region, edge.i as int);
                    lemma_anchor(rooms@, region, edge.j as int);
                    lemma_measurable(
                        rooms@[edge.i as int].floor,
                        rooms@[edge.j as int].floor,
                        region,
                    );
                }
                let joined = join_pair(
                    terrain,
                    &mut connected_rooms,
                    rooms,
                    edge,
                    rng,
                    Ghost(before),
                    Ghost(cut),
                    Ghost(region),
                );
                let size = joined.0;
                proof {
                    cut = joined.1@;
                    assert forall|k: int| rest.len() <= k < sorted.len() implies connected_rooms@[(
                    #[trigger] sorted[k]).i as int] == connected_rooms@[sorted[k].j as int] by {
                        if k != rest.len() {
                            assert(old_reps[sorted[k].i as int] == old_reps[sorted[k].j as int]);
                        }
                    }
                }
                // Stop if all rooms are connected and the most recently
                // merged rooms were far enough apart.
                if size == rooms.len() && edge.intersection.distance() > MIN_SLACK_DISTANCE {
                    proof {
                        assert forall|a: int, b: int|
                            0 <= a < rooms@.len() && 0 <= b < rooms@.len() implies #[trigger] connected_rooms@[a]
                            == #[trigger] connected_rooms@[b] by {
                            let v = connected_rooms@[edge.i as int];
                            lemma_occurrences_full(connected_rooms@, v, a);
                            lemma_occurrences_full(connected_rooms@, v, b);
                        }
                    }
                    break ;
                }
            },
        }
    }
    proof {
        lemma_all_connected(terrain@, rooms@, connected_rooms@);
        assert(terrain@ == carved(before, cut, Floor::Stone));
    }
}

} // verus!
