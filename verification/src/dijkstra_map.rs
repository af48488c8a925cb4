//! Distance fields: for every tile that can reach a goal, the number of
//! steps to the nearest one.
use crate::geometry::adjacent_four;
use crate::geometry::is_offset_four;
use crate::geometry::neighbor_offsets_four;
use crate::geometry::offsets_four;
use crate::geometry::Point;
use crate::geometry::Vector;
use crate::point_map::PointMap;
use crate::random::choose_among;
use crate::vision::TilePredicate;
use rand_pcg::Pcg32;
use std::collections::VecDeque;
use vstd::prelude::*;

verus! {

/// Allows quickly pathfinding from any tile to the nearest tile of interest.
///
/// The view maps each tile from which a tile of interest can be reached to
/// the number of steps that it takes.
pub struct DijkstraMap {
    distances: PointMap<isize>,
}

/// The point at the offset `v` from `p`.
pub open spec fn moved(p: Point, v: Vector) -> Point {
    Point { x: (p.x + v.x) as i32, y: (p.y + v.y) as i32 }
}

/// Whether `p` has a neighbour on every side.
pub open spec fn inner(p: Point) -> bool {
    i32::MIN < p.x < i32::MAX && i32::MIN < p.y < i32::MAX
}

/// Whether some neighbour of `p` is one step nearer to a goal than `p`.
#[verifier::opaque]
pub open spec fn has_step_down(m: Map<Point, isize>, p: Point) -> bool {
    exists|v: Vector|
        is_offset_four(v) && m.contains_key(#[trigger] moved(p, v)) && m[moved(p, v)] == m[p] - 1
}

/// Whether every neighbour of `p` that can be walked on has a distance, at
/// most one more than that of `p`.
pub open spec fn closed<B: TilePredicate>(m: Map<Point, isize>, blocking: &B, p: Point) -> bool {
    forall|q: Point| #[trigger]
        adjacent_four(p, q) && !blocking.holds(q) ==> m.contains_key(q) && m[q] <= m[p] + 1
}

/// Whether `m` gives the tiles their distances from the goals among
/// `tiles`: a goal has the distance 0, and no other tile has; a tile with a
/// greater distance can be walked on and has a neighbour that is one step
/// nearer; and what can be walked on next to a tile with a distance has a
/// distance itself, at most one more.
///
/// There is one such map and no other: see [`lemma_distance_field_unique`].
pub open spec fn is_distance_field<G: TilePredicate, B: TilePredicate>(
    m: Map<Point, isize>,
    tiles: Seq<Point>,
    goal: &G,
    blocking: &B,
) -> bool {
    &&& forall|p: Point|
        tiles.contains(p) && goal.holds(p) ==> #[trigger] m.contains_key(p) && m[p] == 0
    &&& forall|p: Point| #[trigger] m.contains_key(p) ==> m[p] >= 0 && tiles.contains(p)
    &&& forall|p: Point| #[trigger] m.contains_key(p) && m[p] == 0 ==> goal.holds(p)
    &&& forall|p: Point|
        #[trigger] m.contains_key(p) && m[p] > 0 ==> !blocking.holds(p) && has_step_down(m, p)
    &&& forall|p: Point| #[trigger] m.contains_key(p) ==> closed(m, blocking, p)
}

/// How many of `tiles` have no distance in `m`.
pub open spec fn absent(tiles: Seq<Point>, m: Map<Point, isize>) -> nat
    decreases tiles.len(),
{
    if tiles.len() == 0 {
        0
    } else {
        absent(tiles.drop_last(), m) + if m.contains_key(tiles.last()) {
            0nat
        } else {
            1nat
        }
    }
}

proof fn lemma_absent_insert(tiles: Seq<Point>, m: Map<Point, isize>, p: Point, d: isize)
    ensures
        absent(tiles, m.insert(p, d)) <= absent(tiles, m) <= tiles.len(),
        tiles.contains(p) && !m.contains_key(p) ==> absent(tiles, m.insert(p, d)) < absent(
            tiles,
            m,
        ),
    decreases tiles.len(),
{
    if tiles.len() > 0 {
        lemma_absent_insert(tiles.drop_last(), m, p, d);
        if tiles.contains(p) && !m.contains_key(p) && tiles.last() != p {
            let k = choose|k: int| 0 <= k < tiles.len() && tiles[k] == p;
            assert(tiles.drop_last()[k] == p);
        }
    }
}

/// Whether `p` waits in the queue.
spec fn in_queue(queue: Seq<(Point, isize)>, p: Point) -> bool {
    exists|i: int| 0 <= i < queue.len() && (#[trigger] queue[i]).0 == p
}

/// What a search keeps true of the distances found so far and of the tiles
/// that wait to be expanded, the nearest first.
#[verifier::opaque]
spec fn searching<G: TilePredicate, B: TilePredicate>(
    m: Map<Point, isize>,
    queue: Seq<(Point, isize)>,
    tiles: Seq<Point>,
    goal: &G,
    blocking: &B,
    level: int,
    inserted: int,
    current: Option<Point>,
) -> bool {
    &&& forall|p: Point|
        tiles.contains(p) && goal.holds(p) ==> #[trigger] m.contains_key(p) && m[p] == 0
    &&& forall|p: Point|
        #[trigger] m.contains_key(p) ==> 0 <= m[p] <= level + 1 && m[p] <= inserted
            && tiles.contains(p)
    &&& forall|p: Point| #[trigger] m.contains_key(p) && m[p] == 0 ==> goal.holds(p)
    &&& forall|p: Point|
        #[trigger] m.contains_key(p) && m[p] > 0 ==> !blocking.holds(p) && has_step_down(m, p)
    &&& forall|i: int|
        0 <= i < queue.len() ==> m.contains_key((#[trigger] queue[i]).0) && m[queue[i].0]
            == queue[i].1 && level <= queue[i].1
    &&& forall|i: int, j: int|
        0 <= i <= j < queue.len() ==> (#[trigger] queue[i]).1 <= (#[trigger] queue[j]).1
    &&& inserted + absent(tiles, m) <= tiles.len()
    &&& 0 <= level
    &&& forall|p: Point|
        #[trigger] m.contains_key(p) ==> in_queue(queue, p) || closed(m, blocking, p) || current
            == Some(p)
}

/// A search goes on when a tile that can be walked on, next to the tile
/// that is being expanded, is given its distance and put in the queue.
#[verifier::rlimit(60)]
proof fn lemma_relax<G: TilePredicate, B: TilePredicate>(
    m: Map<Point, isize>,
    before: Seq<(Point, isize)>,
    tiles: Seq<Point>,
    goal: &G,
    blocking: &B,
    coords: Point,
    offset: Vector,
    inserted: int,
)
    requires
        m.contains_key(coords),
        searching(m, before, tiles, goal, blocking, m[coords] as int, inserted, Some(coords)),
        inner(coords),
        is_offset_four(offset),
        tiles.len() <= isize::MAX,
        tiles.contains(moved(coords, offset)),
        !blocking.holds(moved(coords, offset)),
        !m.contains_key(moved(coords, offset)),
    ensures
        m[coords] + 1 <= isize::MAX,
        searching(
            m.insert(moved(coords, offset), (m[coords] + 1) as isize),
            before.push((moved(coords, offset), (m[coords] + 1) as isize)),
            tiles,
            goal,
            blocking,
            m[coords] as int,
            inserted + 1,
            Some(coords),
        ),
        absent(tiles, m.insert(moved(coords, offset), (m[coords] + 1) as isize)) < absent(
            tiles,
            m,
        ),
{
    reveal(searching);
    reveal(has_step_down);
    let neighbor = moved(coords, offset);
    let distance = m[coords];
    lemma_absent_insert(tiles, m, neighbor, (distance + 1) as isize);
    let neighbor_distance = (distance + 1) as isize;
    let m2 = m.insert(neighbor, neighbor_distance);
    let after = before.push((neighbor, neighbor_distance));
    assert(after[before.len() as int] == (neighbor, neighbor_distance));
    assert forall|p: Point| #[trigger] m2.contains_key(p) && m2[p] > 0 implies !blocking.holds(p)
        && has_step_down(m2, p) by {
        if p == neighbor {
            let back = Vector { x: (-offset.x) as i32, y: (-offset.y) as i32 };
            assert(moved(p, back) == coords);
            assert(is_offset_four(back) && m2.contains_key(moved(p, back)) && m2[moved(p, back)]
                == m2[p] - 1);
        } else {
            assert(m.contains_key(p));
            let v = choose|v: Vector|
                is_offset_four(v) && m.contains_key(#[trigger] moved(p, v)) && m[moved(p, v)]
                    == m[p] - 1;
            assert(is_offset_four(v) && m2.contains_key(moved(p, v)) && m2[moved(p, v)] == m2[p]
                - 1);
        }
    }
    assert forall|i: int| 0 <= i < after.len() implies m2.contains_key((#[trigger] after[i]).0)
        && m2[after[i].0] == after[i].1 && distance <= after[i].1 by {
        if i < before.len() {
            assert(after[i] == before[i]);
        }
    }
    assert forall|i: int, j: int| 0 <= i <= j < after.len() implies (#[trigger] after[i]).1 <= (
    #[trigger] after[j]).1 by {
        if j < before.len() {
            assert(after[i] == before[i] && after[j] == before[j]);
        } else if i < before.len() {
            assert(after[i] == before[i]);
            assert(m.contains_key(before[i].0));
        }
    }
    assert forall|p: Point| #[trigger] m2.contains_key(p) implies in_queue(after, p) || closed(
        m2,
        blocking,
        p,
    ) || Some(coords) == Some(p) by {
        if p == neighbor {
            assert(after[before.len() as int].0 == p);
        } else {
            assert(m.contains_key(p));
            if in_queue(before, p) {
                let i = choose|i: int| 0 <= i < before.len() && (#[trigger] before[i]).0 == p;
                assert(after[i].0 == p);
            } else if p != coords {
                assert(closed(m, blocking, p));
                assert forall|q: Point| #[trigger]
                    adjacent_four(p, q) && !blocking.holds(q) implies m2.contains_key(q) && m2[q]
                    <= m2[p] + 1 by {
                    assert(m.contains_key(q));
                }
            }
        }
    }
    assert forall|p: Point|
        tiles.contains(p) && goal.holds(p) implies #[trigger] m2.contains_key(p) && m2[p] == 0 by {
        assert(m.contains_key(p));
    }
    assert forall|p: Point| #[trigger] m2.contains_key(p) implies 0 <= m2[p] <= distance + 1
        && m2[p] <= inserted + 1 && tiles.contains(p) by {
        if p != neighbor {
            assert(m.contains_key(p));
        }
    }
    assert forall|p: Point| #[trigger] m2.contains_key(p) && m2[p] == 0 implies goal.holds(p) by {
        assert(m.contains_key(p));
    }
}

/// A tile with a distance is one of the tiles, and its distance is at most
/// one more than that of the tile that is being expanded.
proof fn lemma_found<G: TilePredicate, B: TilePredicate>(
    m: Map<Point, isize>,
    queue: Seq<(Point, isize)>,
    tiles: Seq<Point>,
    goal: &G,
    blocking: &B,
    level: int,
    inserted: int,
    current: Option<Point>,
    p: Point,
)
    requires
        searching(m, queue, tiles, goal, blocking, level, inserted, current),
        m.contains_key(p),
    ensures
        0 <= m[p] <= level + 1,
        tiles.contains(p),
{
    reveal(searching);
}

/// A search starts with the goals among the tiles, all at the distance 0.
proof fn lemma_seeded<G: TilePredicate, B: TilePredicate>(
    m: Map<Point, isize>,
    queue: Seq<(Point, isize)>,
    tiles: Seq<Point>,
    goal: &G,
    blocking: &B,
)
    requires
        forall|p: Point|
            #[trigger] m.contains_key(p) ==> m[p] == 0 && goal.holds(p) && tiles.contains(p),
        forall|k: int|
            0 <= k < tiles.len() && goal.holds(tiles[k]) ==> m.contains_key(#[trigger] tiles[k]),
        forall|k: int|
            0 <= k < queue.len() ==> m.contains_key((#[trigger] queue[k]).0) && queue[k].1 == 0,
        forall|p: Point| #[trigger] m.contains_key(p) ==> in_queue(queue, p),
    ensures
        searching(m, queue, tiles, goal, blocking, 0, 0, None),
{
    reveal(searching);
    lemma_absent_insert(tiles, m, Point { x: 0, y: 0 }, 0);
    assert forall|p: Point|
        tiles.contains(p) && goal.holds(p) implies #[trigger] m.contains_key(p) && m[p] == 0 by {
        let k = choose|k: int| 0 <= k < tiles.len() && tiles[k] == p;
        assert(m.contains_key(tiles[k]));
    }
}

/// A search goes on with the tile at the front of the queue.
proof fn lemma_popped<G: TilePredicate, B: TilePredicate>(
    m: Map<Point, isize>,
    queue: Seq<(Point, isize)>,
    tiles: Seq<Point>,
    goal: &G,
    blocking: &B,
    level: int,
    inserted: int,
)
    requires
        searching(m, queue, tiles, goal, blocking, level, inserted, None),
        queue.len() > 0,
    ensures
        m.contains_key(queue[0].0),
        m[queue[0].0] == queue[0].1,
        tiles.contains(queue[0].0),
        searching(
            m,
            queue.subrange(1, queue.len() as int),
            tiles,
            goal,
            blocking,
            queue[0].1 as int,
            inserted,
            Some(queue[0].0),
        ),
{
    reveal(searching);
    let rest = queue.subrange(1, queue.len() as int);
    let coords = queue[0].0;
    assert(m.contains_key(queue[0].0));
    assert forall|i: int| 0 <= i < rest.len() implies m.contains_key((#[trigger] rest[i]).0)
        && m[rest[i].0] == rest[i].1 && queue[0].1 <= rest[i].1 by {
        assert(rest[i] == queue[i + 1]);
        assert(queue[0].1 <= queue[i + 1].1);
    }
    assert forall|i: int, j: int| 0 <= i <= j < rest.len() implies (#[trigger] rest[i]).1 <= (
    #[trigger] rest[j]).1 by {
        assert(rest[i] == queue[i + 1] && rest[j] == queue[j + 1]);
    }
    assert forall|p: Point| #[trigger] m.contains_key(p) implies in_queue(rest, p) || closed(
        m,
        blocking,
        p,
    ) || Some(coords) == Some(p) by {
        if in_queue(queue, p) {
            let i = choose|i: int| 0 <= i < queue.len() && (#[trigger] queue[i]).0 == p;
            if i > 0 {
                assert(rest[i - 1].0 == p);
            }
        }
    }
}

/// A tile whose neighbours have all been dealt with is done.
proof fn lemma_expanded<G: TilePredicate, B: TilePredicate>(
    m: Map<Point, isize>,
    queue: Seq<(Point, isize)>,
    tiles: Seq<Point>,
    goal: &G,
    blocking: &B,
    level: int,
    inserted: int,
    coords: Point,
)
    requires
        searching(m, queue, tiles, goal, blocking, level, inserted, Some(coords)),
        m.contains_key(coords),
        inner(coords),
        forall|j: int|
            0 <= j < 4 && !blocking.holds(moved(coords, #[trigger] neighbor_offsets_four()[j]))
                ==> m.contains_key(moved(coords, neighbor_offsets_four()[j])) && m[moved(
                coords,
                neighbor_offsets_four()[j],
            )] <= m[coords] + 1,
    ensures
        searching(m, queue, tiles, goal, blocking, level, inserted, None),
{
    reveal(searching);
    let offsets = neighbor_offsets_four();
    assert forall|q: Point| #[trigger]
        adjacent_four(coords, q) && !blocking.holds(q) implies m.contains_key(q) && m[q]
        <= m[coords] + 1 by {
        let v = Vector { x: (q.x - coords.x) as i32, y: (q.y - coords.y) as i32 };
        assert(moved(coords, v) == q);
        assert(v == offsets[0] || v == offsets[1] || v == offsets[2] || v == offsets[3]);
    }
    assert(closed(m, blocking, coords));
}

/// A search that has no tile left to expand has found the distances.
proof fn lemma_finished<G: TilePredicate, B: TilePredicate>(
    m: Map<Point, isize>,
    queue: Seq<(Point, isize)>,
    tiles: Seq<Point>,
    goal: &G,
    blocking: &B,
    level: int,
    inserted: int,
)
    requires
        searching(m, queue, tiles, goal, blocking, level, inserted, None),
        queue.len() == 0,
    ensures
        is_distance_field(m, tiles, goal, blocking),
{
    reveal(searching);
    assert forall|p: Point| #[trigger] m.contains_key(p) implies closed(m, blocking, p) by {
        assert(!in_queue(queue, p));
    }
}

/// Gives the neighbour of `coords` at `offset` its distance, one more than
/// `distance`, and puts it in the queue, unless it cannot be walked on or
/// has a distance already.
fn relax<G: TilePredicate, B: TilePredicate>(
    distances: &mut PointMap<isize>,
    queue: &mut VecDeque<(Point, isize)>,
    coords: Point,
    distance: isize,
    offset: Vector,
    goal: &G,
    is_blocking: &B,
    Ghost(tiles): Ghost<Seq<Point>>,
    Ghost(inserted): Ghost<int>,
) -> (r: Ghost<int>)
    requires
        searching(
            old(distances)@,
            old(queue)@,
            tiles,
            goal,
            is_blocking,
            distance as int,
            inserted,
            Some(coords),
        ),
        old(distances)@.contains_key(coords),
        old(distances)@[coords] == distance,
        inner(coords),
        is_offset_four(offset),
        tiles.len() <= isize::MAX,
        forall|p: Point| !is_blocking.holds(p) ==> tiles.contains(p),
    ensures
        searching(
            final(distances)@,
            final(queue)@,
            tiles,
            goal,
            is_blocking,
            distance as int,
            r@,
            Some(coords),
        ),
        final(distances)@ == old(distances)@ || final(distances)@ == old(distances)@.insert(
            moved(coords, offset),
            (distance + 1) as isize,
        ),
        final(distances)@ != old(distances)@ ==> !old(distances)@.contains_key(
            moved(coords, offset),
        ),
        !is_blocking.holds(moved(coords, offset)) ==> final(distances)@.contains_key(
            moved(coords, offset),
        ) && final(distances)@[moved(coords, offset)] <= distance + 1,
        absent(tiles, final(distances)@) < absent(tiles, old(distances)@) || (final(distances)@
            == old(distances)@ && final(queue)@ == old(queue)@),
{
    let neighbor = Point { x: coords.x + offset.x, y: coords.y + offset.y };
    if is_blocking.test(&neighbor) {
        return Ghost(inserted);
    }
    if distances.contains_key(neighbor) {
        // This tile has already been visited.
        proof {
            lemma_found(
                distances@,
                queue@,
                tiles,
                goal,
                is_blocking,
                distance as int,
                inserted,
                Some(coords),
                neighbor,
            );
        }
        return Ghost(inserted);
    }
    // Since this is a breadth-first search, we visit nodes in ascending
    // order of distance.
    let ghost m = distances@;
    let ghost before = queue@;
    proof {
        lemma_relax(m, before, tiles, goal, is_blocking, coords, offset, inserted);
    }
    let neighbor_distance = distance + 1;
    distances.insert(neighbor, neighbor_distance);
    queue.push_back((neighbor, neighbor_distance));
    Ghost(inserted + 1)
}

impl View for DijkstraMap {
    type V = Map<Point, isize>;

    closed spec fn view(&self) -> Map<Point, isize> {
        self.distances@
    }
}

impl DijkstraMap {
    /// Generates a Dijkstra map over `tiles` using `is_goal` to identify
    /// target tiles and `is_blocking` to identify blocking tiles.
    ///
    /// Every tile that can be walked on has to be among `tiles`, none of
    /// them at the edge of the range of coordinates.
    pub fn new<G: TilePredicate, B: TilePredicate>(
        tiles: &Vec<Point>,
        is_goal: &G,
        is_blocking: &B,
    ) -> (map: DijkstraMap)
        requires
            tiles@.len() <= isize::MAX,
            forall|k: int| 0 <= k < tiles@.len() ==> inner(#[trigger] tiles@[k]),
            forall|p: Point| !is_blocking.holds(p) ==> tiles@.contains(p),
        ensures
            is_distance_field(map@, tiles@, is_goal, is_blocking),
    {
        let mut distances: PointMap<isize> = PointMap::new();
        let mut queue: VecDeque<(Point, isize)> = VecDeque::new();
        let mut i: usize = 0;
        while i < tiles.len()
            invariant
                i <= tiles@.len(),
                forall|p: Point|
                    #[trigger] distances@.contains_key(p) ==> distances@[p] == 0 && is_goal.holds(
                        p,
                    ) && tiles@.contains(p),
                forall|k: int|
                    0 <= k < i && is_goal.holds(tiles@[k]) ==> distances@.contains_key(
                        #[trigger] tiles@[k],
                    ),
                forall|k: int|
                    0 <= k < queue@.len() ==> distances@.contains_key((#[trigger] queue@[k]).0)
                        && queue@[k].1 == 0,
                forall|p: Point| #[trigger] distances@.contains_key(p) ==> in_queue(queue@, p),
            decreases tiles@.len() - i,
        {
            let coords = tiles[i];
            if is_goal.test(&coords) {
                let ghost before = queue@;
                distances.insert(coords, 0);
                queue.push_front((coords, 0));
                proof {
                    assert(queue@[0] == (coords, 0isize));
                    assert forall|k: int| 0 <= k < queue@.len() implies distances@.contains_key(
                        (#[trigger] queue@[k]).0,
                    ) && queue@[k].1 == 0 by {
                        if k > 0 {
                            assert(queue@[k] == before[k - 1]);
                        }
                    }
                    assert forall|p: Point| #[trigger] distances@.contains_key(p) implies in_queue(
                        queue@,
                        p,
                    ) by {
                        if p == coords {
                            assert(queue@[0].0 == p);
                        } else {
                            let k = choose|k: int|
                                0 <= k < before.len() && (#[trigger] before[k]).0 == p;
                            assert(queue@[k + 1].0 == p);
                        }
                    }
                }
            }
            i = i + 1;
        }
        let ghost mut inserted: int = 0;
        let ghost mut level: int = 0;
        proof {
            lemma_seeded(distances@, queue@, tiles@, is_goal, is_blocking);
        }
        let offsets = offsets_four();
        loop
            invariant
                tiles@.len() <= isize::MAX,
                forall|k: int| 0 <= k < tiles@.len() ==> inner(#[trigger] tiles@[k]),
                forall|p: Point| !is_blocking.holds(p) ==> tiles@.contains(p),
                offsets@ == neighbor_offsets_four(),
                searching(
                    distances@,
                    queue@,
                    tiles@,
                    is_goal,
                    is_blocking,
                    level,
                    inserted,
                    None,
                ),
            ensures
                queue@.len() == 0,
            decreases absent(tiles@, distances@), queue@.len(),
        {
            let ghost before = queue@;
            let ghost found = distances@;
            let (coords, distance) = match queue.pop_front() {
                Some(next) => next,
                None => {
                    break ;
                },
            };
            proof {
                lemma_popped(found, before, tiles@, is_goal, is_blocking, level, inserted);
                assert(before[0] == (coords, distance));
                let k = choose|k: int| 0 <= k < tiles@.len() && tiles@[k] == coords;
                assert(inner(tiles@[k]));
                level = distance as int;
            }
            let ghost popped = queue@;
            let mut k: usize = 0;
            while k < offsets.len()
                invariant
                    k <= 4,
                    offsets@ == neighbor_offsets_four(),
                    tiles@.len() <= isize::MAX,
                    forall|p: Point| !is_blocking.holds(p) ==> tiles@.contains(p),
                    level == distance,
                    inner(coords),
                    distances@.contains_key(coords),
                    distances@[coords] == distance,
                    searching(
                        distances@,
                        queue@,
                        tiles@,
                        is_goal,
                        is_blocking,
                        level,
                        inserted,
                        Some(coords),
                    ),
                    forall|j: int|
                        0 <= j < k && !is_blocking.holds(moved(coords, #[trigger] offsets@[j]))
                            ==> distances@.contains_key(moved(coords, offsets@[j]))
                            && distances@[moved(coords, offsets@[j])] <= distance + 1,
                    absent(tiles@, distances@) < absent(tiles@, found) || (distances@ == found
                        && queue@ == popped),
                decreases 4 - k,
            {
                let offset = offsets[k];
                let r = relax(
                    &mut distances,
                    &mut queue,
                    coords,
                    distance,
                    offset,
                    is_goal,
                    is_blocking,
                    Ghost(tiles@),
                    Ghost(inserted),
                );
                proof {
                    inserted = r@;
                }
                k = k + 1;
            }
            proof {
                lemma_expanded(
                    distances@,
                    queue@,
                    tiles@,
                    is_goal,
                    is_blocking,
                    level,
                    inserted,
                    coords,
                );
            }
        }
        proof {
            lemma_finished(distances@, queue@, tiles@, is_goal, is_blocking, level, inserted);
        }
        DijkstraMap { distances }
    }

    /// The distance from `coords` to the nearest tile of interest or `None`
    /// if there is no path from `coords` to a tile of interest.
    pub fn distance(&self, coords: Point) -> (d: Option<isize>)
        ensures
            d == if self@.contains_key(coords) {
                Some(self@[coords])
            } else {
                None
            },
    {
        match self.distances.get(coords) {
            Some(d) => Some(*d),
            None => None,
        }
    }

    /// The offsets to the neighbours of `coords` to which a step can lead:
    /// those with the smallest distance, or with the greatest if `away` is
    /// set, and only if that is better than the distance of `coords` itself.
    /// They come in the order up, down, left, right.
    pub fn step_candidates(&self, coords: Point, away: bool) -> (offsets: Vec<Vector>)
        requires
            inner(coords),
        ensures
            offsets@ == spec_step_candidates(self@, coords, away),
    {
        let all = offsets_four();
        let mut best: Option<isize> = None;
        let mut k: usize = 0;
        while k < all.len()
            invariant
                k <= all@.len(),
                all@ == neighbor_offsets_four(),
                inner(coords),
                is_best_of(self@, coords, away, all@.subrange(0, k as int), best),
            decreases all@.len() - k,
        {
            match self.distance(Point { x: coords.x + all[k].x, y: coords.y + all[k].y }) {
                Some(distance) => {
                    best = match best {
                        Some(found) => if better(away, distance, found) {
                            Some(distance)
                        } else {
                            Some(found)
                        },
                        None => Some(distance),
                    };
                },
                None => {},
            }
            proof {
                let done = all@.subrange(0, k as int);
                let more = all@.subrange(0, k + 1);
                assert(more[k as int] == all@[k as int]);
                assert forall|j: int| 0 <= j < done.len() implies more[j] == done[j] by {}
            }
            k = k + 1;
        }
        let own = self.distance(coords);
        let mut offsets: Vec<Vector> = Vec::new();
        let mut k: usize = 0;
        proof {
            reveal(Seq::filter);
            assert(all@.subrange(0, all@.len() as int) =~= all@);
            assert(all@.subrange(0, 0).filter(|v: Vector| is_candidate(self@, coords, away, v))
                =~= Seq::<Vector>::empty());
        }
        while k < all.len()
            invariant
                k <= all@.len(),
                all@ == neighbor_offsets_four(),
                inner(coords),
                is_best_of(self@, coords, away, all@, best),
                own == if self@.contains_key(coords) {
                    Some(self@[coords])
                } else {
                    None
                },
                offsets@ == all@.subrange(0, k as int).filter(
                    |v: Vector| is_candidate(self@, coords, away, v),
                ),
            decreases all@.len() - k,
        {
            let offset = all[k];
            let taken = match self.distance(Point { x: coords.x + offset.x, y: coords.y + offset.y }) {
                Some(distance) => {
                    let leads = match best {
                        Some(found) => distance == found,
                        None => false,
                    };
                    let improves = match own {
                        Some(here) => better(away, distance, here),
                        None => true,
                    };
                    leads && improves
                },
                None => false,
            };
            proof {
                reveal(Seq::filter);
                let more = all@.subrange(0, k + 1);
                assert(more.drop_last() =~= all@.subrange(0, k as int));
                assert(more.last() == offset);
                lemma_candidate(self@, coords, away, best, offset);
            }
            if taken {
                offsets.push(offset);
            }
            k = k + 1;
        }
        proof {
            assert(all@.subrange(0, all@.len() as int) =~= all@);
        }
        offsets
    }

    /// Common implementation for `step_towards` and `step_away`.
    fn step(&self, coords: Point, rng: &mut Pcg32, reverse: bool) -> (r: Option<Vector>)
        requires
            inner(coords),
        ensures
            match r {
                Some(v) => spec_step_candidates(self@, coords, reverse).contains(v) && is_offset_four(
                    v,
                ),
                None => spec_step_candidates(self@, coords, reverse).len() == 0,
            },
    {
        let best_offsets = self.step_candidates(coords, reverse);
        let chosen = choose_among(rng, best_offsets);
        proof {
            if chosen is Some {
                let all = neighbor_offsets_four();
                all.lemma_filter_contains_rev(
                    |v: Vector| is_candidate(self@, coords, reverse, v),
                    chosen->Some_0,
                );
                let k = choose|k: int| 0 <= k < all.len() && all[k] == chosen->Some_0;
                assert(is_offset_four(all[k]));
            }
        }
        chosen
    }

    /// Offset to a random neighbor of `coords` that is nearer to a tile of
    /// interest than `coords` and any other neighbor, if there is such a
    /// neighbor.
    pub fn step_towards(&self, coords: Point, rng: &mut Pcg32) -> (r: Option<Vector>)
        requires
            inner(coords),
        ensures
            match r {
                Some(v) => spec_step_candidates(self@, coords, false).contains(v) && is_offset_four(
                    v,
                ),
                None => spec_step_candidates(self@, coords, false).len() == 0,
            },
    {
        self.step(coords, rng, false)
    }

    /// Offset to a random neighbor of `coords` that is farther away from a
    /// tile of interest than `coords` and any other neighbor, if there is
    /// such a neighbor.
    pub fn step_away(&self, coords: Point, rng: &mut Pcg32) -> (r: Option<Vector>)
        requires
            inner(coords),
        ensures
            match r {
                Some(v) => spec_step_candidates(self@, coords, true).contains(v) && is_offset_four(
                    v,
                ),
                None => spec_step_candidates(self@, coords, true).len() == 0,
            },
    {
        self.step(coords, rng, true)
    }
}

/// Whether the distance `a` is to be preferred to `b`: the smaller one, or
/// the greater if `away` is set.
pub open spec fn spec_better(away: bool, a: isize, b: isize) -> bool {
    if away {
        a > b
    } else {
        a < b
    }
}

/// Whether the distance `a` is to be preferred to `b`.
#[verifier::when_used_as_spec(spec_better)]
pub fn better(away: bool, a: isize, b: isize) -> (r: bool)
    ensures
        r == spec_better(away, a, b),
{
    if away {
        a > b
    } else {
        a < b
    }
}

/// Whether a step by `v` from `coords` leads to a neighbour with a
/// distance, to which no other neighbour's is to be preferred, and which is
/// to be preferred to that of `coords` if `coords` has one.
pub open spec fn is_candidate(m: Map<Point, isize>, coords: Point, away: bool, v: Vector) -> bool {
    let q = moved(coords, v);
    &&& m.contains_key(q)
    &&& forall|w: Vector|
        is_offset_four(w) && m.contains_key(#[trigger] moved(coords, w)) ==> !spec_better(
            away,
            m[moved(coords, w)],
            m[q],
        )
    &&& m.contains_key(coords) ==> spec_better(away, m[q], m[coords])
}

/// The offsets to which a step from `coords` can lead, in the order up,
/// down, left, right.
pub open spec fn spec_step_candidates(m: Map<Point, isize>, coords: Point, away: bool) -> Seq<
    Vector,
> {
    neighbor_offsets_four().filter(|v: Vector| is_candidate(m, coords, away, v))
}

/// Whether `best` is the distance that is to be preferred among those of the
/// neighbours of `coords` at `offsets`, if any of them has one.
spec fn is_best_of(
    m: Map<Point, isize>,
    coords: Point,
    away: bool,
    offsets: Seq<Vector>,
    best: Option<isize>,
) -> bool {
    match best {
        Some(found) => {
            &&& exists|j: int|
                0 <= j < offsets.len() && m.contains_key(moved(coords, #[trigger] offsets[j]))
                    && m[moved(coords, offsets[j])] == found
            &&& forall|j: int|
                0 <= j < offsets.len() && m.contains_key(moved(coords, #[trigger] offsets[j]))
                    ==> !spec_better(away, m[moved(coords, offsets[j])], found)
        },
        None => forall|j: int|
            0 <= j < offsets.len() ==> !m.contains_key(moved(coords, #[trigger] offsets[j])),
    }
}

/// A step leads to a candidate exactly if the neighbour there has the best
/// distance of all four, and a better one than `coords`.
proof fn lemma_candidate(
    m: Map<Point, isize>,
    coords: Point,
    away: bool,
    best: Option<isize>,
    v: Vector,
)
    requires
        inner(coords),
        is_best_of(m, coords, away, neighbor_offsets_four(), best),
        is_offset_four(v),
    ensures
        is_candidate(m, coords, away, v) <==> m.contains_key(moved(coords, v)) && best == Some(
            m[moved(coords, v)],
        ) && (m.contains_key(coords) ==> spec_better(away, m[moved(coords, v)], m[coords])),
{
    let all = neighbor_offsets_four();
    let q = moved(coords, v);
    assert(v == all[0] || v == all[1] || v == all[2] || v == all[3]);
    if m.contains_key(q) {
        let found = best->Some_0;
        if best == Some(m[q]) {
            assert forall|w: Vector|
                is_offset_four(w) && m.contains_key(#[trigger] moved(coords, w)) implies !spec_better(
                away,
                m[moved(coords, w)],
                m[q],
            ) by {
                assert(w == all[0] || w == all[1] || w == all[2] || w == all[3]);
            }
        } else {
            let j = choose|j: int|
                0 <= j < all.len() && m.contains_key(moved(coords, #[trigger] all[j])) && m[moved(
                    coords,
                    all[j],
                )] == found;
            assert(is_offset_four(all[j]) && m.contains_key(moved(coords, all[j])));
        }
    }
}

/// The distance that one distance field gives a tile is at least the one
/// that another gives it.
proof fn lemma_distance_at_most<G: TilePredicate, B: TilePredicate>(
    m1: Map<Point, isize>,
    m2: Map<Point, isize>,
    tiles: Seq<Point>,
    goal: &G,
    blocking: &B,
    p: Point,
    d: nat,
)
    requires
        is_distance_field(m1, tiles, goal, blocking),
        is_distance_field(m2, tiles, goal, blocking),
        forall|k: int| 0 <= k < tiles.len() ==> inner(#[trigger] tiles[k]),
        m1.contains_key(p),
        m1[p] == d,
    ensures
        m2.contains_key(p),
        m2[p] <= d,
    decreases d,
{
    assert(tiles.contains(p));
    let k = choose|k: int| 0 <= k < tiles.len() && tiles[k] == p;
    assert(inner(tiles[k]));
    if d > 0 {
        assert(has_step_down(m1, p));
        reveal(has_step_down);
        let v = choose|v: Vector|
            is_offset_four(v) && m1.contains_key(#[trigger] moved(p, v)) && m1[moved(p, v)]
                == m1[p] - 1;
        let q = moved(p, v);
        lemma_distance_at_most(m1, m2, tiles, goal, blocking, q, (d - 1) as nat);
        assert(closed(m2, blocking, q));
        assert(adjacent_four(q, p) && !blocking.holds(p));
    }
}

/// The distances from the goals are determined: two maps that both give the
/// tiles their distances are the same map.
pub proof fn lemma_distance_field_unique<G: TilePredicate, B: TilePredicate>(
    m1: Map<Point, isize>,
    m2: Map<Point, isize>,
    tiles: Seq<Point>,
    goal: &G,
    blocking: &B,
)
    requires
        is_distance_field(m1, tiles, goal, blocking),
        is_distance_field(m2, tiles, goal, blocking),
        forall|k: int| 0 <= k < tiles.len() ==> inner(#[trigger] tiles[k]),
    ensures
        m1 == m2,
{
    assert forall|p: Point| m1.contains_key(p) implies m2.contains_key(p) && m2[p] == m1[p] by {
        lemma_distance_same(m1, m2, tiles, goal, blocking, p);
    }
    assert forall|p: Point| m2.contains_key(p) implies m1.contains_key(p) by {
        lemma_distance_same(m2, m1, tiles, goal, blocking, p);
    }
    assert(m1 =~= m2);
}

/// Two distance fields give a tile the same distance.
proof fn lemma_distance_same<G: TilePredicate, B: TilePredicate>(
    m1: Map<Point, isize>,
    m2: Map<Point, isize>,
    tiles: Seq<Point>,
    goal: &G,
    blocking: &B,
    p: Point,
)
    requires
        is_distance_field(m1, tiles, goal, blocking),
        is_distance_field(m2, tiles, goal, blocking),
        forall|k: int| 0 <= k < tiles.len() ==> inner(#[trigger] tiles[k]),
        m1.contains_key(p),
    ensures
        m2.contains_key(p),
        m2[p] == m1[p],
{
    assert(m1[p] >= 0);
    lemma_distance_at_most(m1, m2, tiles, goal, blocking, p, m1[p] as nat);
    assert(m2[p] >= 0);
    lemma_distance_at_most(m2, m1, tiles, goal, blocking, p, m2[p] as nat);
}

} // verus!
