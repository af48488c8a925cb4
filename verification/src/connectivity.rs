//! Walks over floor tiles, and what they connect.
use crate::geometry::adjacent_four;
use crate::geometry::Point;
use crate::geometry::Rectangle;
use crate::terrain::is_floor;
use crate::terrain::Tile;
use vstd::prelude::*;

verus! {

/// Whether `path` is a walk over floor tiles of `tiles`, each step to a tile
/// that shares an edge with the one before.
pub open spec fn is_walk(tiles: Map<Point, Tile>, path: Seq<Point>) -> bool {
    &&& path.len() >= 1
    &&& forall|k: int| 0 <= k < path.len() ==> is_floor(tiles, #[trigger] path[k])
    &&& forall|k: int| 0 <= k < path.len() - 1 ==> adjacent_four(#[trigger] path[k], path[k + 1])
}

/// Whether a walk over floor tiles leads from `a` to `b`.
pub open spec fn connected(tiles: Map<Point, Tile>, a: Point, b: Point) -> bool {
    exists|path: Seq<Point>| #[trigger]
        is_walk(tiles, path) && path[0] == a && path[path.len() - 1] == b
}

/// Whether every floor tile can be reached from every other floor tile.
pub open spec fn all_connected(tiles: Map<Point, Tile>) -> bool {
    forall|a: Point, b: Point|
        is_floor(tiles, a) && is_floor(tiles, b) ==> #[trigger] connected(tiles, a, b)
}

/// Whether every floor tile of `now` was one of `before` already.
pub open spec fn floor_kept(before: Map<Point, Tile>, now: Map<Point, Tile>) -> bool {
    forall|p: Point| is_floor(before, p) ==> is_floor(now, p)
}

/// A floor tile is connected to itself.
pub proof fn lemma_connected_self(tiles: Map<Point, Tile>, a: Point)
    requires
        is_floor(tiles, a),
    ensures
        connected(tiles, a, a),
{
    let path = seq![a];
    assert(is_walk(tiles, path) && path[0] == a && path[path.len() - 1] == a);
}

/// Floor tiles that share an edge are connected.
pub proof fn lemma_connected_step(tiles: Map<Point, Tile>, a: Point, b: Point)
    requires
        is_floor(tiles, a),
        is_floor(tiles, b),
        adjacent_four(a, b),
    ensures
        connected(tiles, a, b),
{
    let path = seq![a, b];
    assert(is_walk(tiles, path) && path[0] == a && path[path.len() - 1] == b);
}

/// A walk can be walked back.
pub proof fn lemma_connected_back(tiles: Map<Point, Tile>, a: Point, b: Point)
    requires
        connected(tiles, a, b),
    ensures
        connected(tiles, b, a),
{
    let path = choose|path: Seq<Point>| #[trigger]
        is_walk(tiles, path) && path[0] == a && path[path.len() - 1] == b;
    let back = path.reverse();
    assert forall|k: int| 0 <= k < back.len() - 1 implies adjacent_four(
        #[trigger] back[k],
        back[k + 1],
    ) by {
        assert(adjacent_four(path[path.len() - 2 - k], path[path.len() - 2 - k + 1]));
    }
    assert(is_walk(tiles, back) && back[0] == b && back[back.len() - 1] == a);
}

/// A walk can be taken up where another ends.
pub proof fn lemma_connected_on(tiles: Map<Point, Tile>, a: Point, b: Point, c: Point)
    requires
        connected(tiles, a, b),
        connected(tiles, b, c),
    ensures
        connected(tiles, a, c),
{
    let first = choose|path: Seq<Point>| #[trigger]
        is_walk(tiles, path) && path[0] == a && path[path.len() - 1] == b;
    let second = choose|path: Seq<Point>| #[trigger]
        is_walk(tiles, path) && path[0] == b && path[path.len() - 1] == c;
    let whole = first + second.subrange(1, second.len() as int);
    assert forall|k: int| 0 <= k < whole.len() implies is_floor(tiles, #[trigger] whole[k]) by {
        if k >= first.len() {
            assert(whole[k] == second[k - first.len() + 1]);
        }
    }
    assert forall|k: int| 0 <= k < whole.len() - 1 implies adjacent_four(
        #[trigger] whole[k],
        whole[k + 1],
    ) by {
        if k < first.len() - 1 {
            assert(adjacent_four(first[k], first[k + 1]));
        } else if k == first.len() - 1 {
            assert(adjacent_four(second[0], second[0int + 1]));
            assert(whole[k + 1] == second[1]);
        } else {
            let m = k - first.len() + 1;
            assert(adjacent_four(second[m], second[m + 1]));
            assert(whole[k] == second[m]);
            assert(whole[k + 1] == second[m + 1]);
        }
    }
    assert(is_walk(tiles, whole) && whole[0] == a && whole[whole.len() - 1] == c);
}

/// What is connected stays connected where floor is added.
pub proof fn lemma_connected_kept(
    before: Map<Point, Tile>,
    now: Map<Point, Tile>,
    a: Point,
    b: Point,
)
    requires
        floor_kept(before, now),
        connected(before, a, b),
    ensures
        connected(now, a, b),
{
    let path = choose|path: Seq<Point>| #[trigger]
        is_walk(before, path) && path[0] == a && path[path.len() - 1] == b;
    assert(is_walk(now, path) && path[0] == a && path[path.len() - 1] == b);
}

/// Two tiles of a walk are connected.
pub proof fn lemma_walk_connects(tiles: Map<Point, Tile>, path: Seq<Point>, i: int, j: int)
    requires
        is_walk(tiles, path),
        0 <= i <= j < path.len(),
    ensures
        connected(tiles, path[i], path[j]),
{
    let part = path.subrange(i, j + 1);
    assert forall|k: int| 0 <= k < part.len() - 1 implies adjacent_four(
        #[trigger] part[k],
        part[k + 1],
    ) by {
        assert(adjacent_four(path[i + k], path[i + k + 1]));
    }
    assert(is_walk(tiles, part) && part[0] == path[i] && part[part.len() - 1] == path[j]);
}

/// The distance between `a` and `b` in steps along the axes.
pub open spec fn steps_apart(a: Point, b: Point) -> int {
    (if a.x >= b.x {
        a.x - b.x
    } else {
        b.x - a.x
    }) + (if a.y >= b.y {
        a.y - b.y
    } else {
        b.y - a.y
    })
}

/// Two tiles of a rectangle of floor are connected.
pub proof fn lemma_rectangle_connected(tiles: Map<Point, Tile>, area: Rectangle, a: Point, b: Point)
    requires
        forall|p: Point| area.contains(p) ==> is_floor(tiles, p),
        area.contains(a),
        area.contains(b),
    ensures
        connected(tiles, a, b),
    decreases steps_apart(a, b),
{
    if a == b {
        lemma_connected_self(tiles, a);
    } else {
        let next = if a.x < b.x {
            Point { x: (a.x + 1) as i32, y: a.y }
        } else if a.x > b.x {
            Point { x: (a.x - 1) as i32, y: a.y }
        } else if a.y < b.y {
            Point { x: a.x, y: (a.y + 1) as i32 }
        } else {
            Point { x: a.x, y: (a.y - 1) as i32 }
        };
        assert(area.contains(next));
        lemma_connected_step(tiles, a, next);
        lemma_rectangle_connected(tiles, area, next, b);
        lemma_connected_on(tiles, a, next, b);
    }
}

} // verus!
