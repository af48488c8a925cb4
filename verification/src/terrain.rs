//! Tiles, and the carving of floor into a sparse tile map.
use crate::geometry::Point;
use crate::geometry::Rectangle;
use crate::point_map::PointMap;
use vstd::prelude::*;

verus! {

/// The material of a floor tile. It has no effect on play.
#[derive(Clone, Copy, PartialEq, Eq, Debug, Structural)]
pub enum Floor {
    Stone,
    Grass,
    Wood,
}

/// What a point of a level holds: floor, which can be walked on and seen
/// across, or wall.
#[derive(Clone, Copy, PartialEq, Eq, Debug, Structural)]
pub enum Tile {
    Floor(Floor),
    Wall,
}

/// Whether `a` and `b` are distinct tiles that share an edge or a corner.
pub open spec fn adjacent_eight(a: Point, b: Point) -> bool {
    -1 <= a.x - b.x <= 1 && -1 <= a.y - b.y <= 1 && a != b
}

/// Whether the tile at `p` is a floor tile of `tiles`.
pub open spec fn is_floor(tiles: Map<Point, Tile>, p: Point) -> bool {
    tiles.contains_key(p) && tiles[p] is Floor
}

/// Every floor tile is surrounded by tiles: no floor borders on the void.
pub open spec fn walled(tiles: Map<Point, Tile>) -> bool {
    forall|p: Point, q: Point|
        is_floor(tiles, p) && #[trigger] adjacent_eight(p, q) ==> #[trigger] tiles.contains_key(q)
}

/// The map after floor of the material `floor` has been carved at every point
/// of `cut`: the points of `cut` are floor, what was there besides is
/// unchanged, and what was empty next to a point of `cut` is wall.
pub open spec fn carved(tiles: Map<Point, Tile>, cut: Set<Point>, floor: Floor) -> Map<
    Point,
    Tile,
> {
    Map::new(
        |p: Point|
            cut.contains(p) || tiles.contains_key(p) || exists|q: Point|
                cut.contains(q) && #[trigger] adjacent_eight(q, p),
        |p: Point|
            if cut.contains(p) {
                Tile::Floor(floor)
            } else if tiles.contains_key(p) {
                tiles[p]
            } else {
                Tile::Wall
            },
    )
}

/// Carving nothing changes nothing.
pub proof fn lemma_carved_nothing(tiles: Map<Point, Tile>, floor: Floor)
    ensures
        carved(tiles, Set::empty(), floor) == tiles,
{
    assert(carved(tiles, Set::empty(), floor) =~= tiles);
}

/// Carving point after point is carving the set of those points.
pub proof fn lemma_carved_insert(tiles: Map<Point, Tile>, cut: Set<Point>, p: Point, floor: Floor)
    ensures
        carved(carved(tiles, cut, floor), set![p], floor) == carved(tiles, cut.insert(p), floor),
{
    let once = carved(tiles, cut, floor);
    let twice = carved(once, set![p], floor);
    let whole = carved(tiles, cut.insert(p), floor);
    assert forall|r: Point| twice.contains_key(r) == whole.contains_key(r) by {
        if exists|q: Point| set![p].contains(q) && #[trigger] adjacent_eight(q, r) {
            assert(cut.insert(p).contains(p) && adjacent_eight(p, r));
        }
        if exists|q: Point| cut.contains(q) && #[trigger] adjacent_eight(q, r) {
            let q = choose|q: Point| cut.contains(q) && #[trigger] adjacent_eight(q, r);
            assert(cut.insert(p).contains(q) && adjacent_eight(q, r));
        }
        if exists|q: Point| cut.insert(p).contains(q) && #[trigger] adjacent_eight(q, r) {
            let q = choose|q: Point| cut.insert(p).contains(q) && #[trigger] adjacent_eight(q, r);
            if q == p {
                assert(set![p].contains(p) && adjacent_eight(p, r));
            } else {
                assert(cut.contains(q) && adjacent_eight(q, r));
            }
        }
    }
    assert(twice =~= whole);
}

/// Carving one set of points and then another, in the same material, is
/// carving both at once.
pub proof fn lemma_carved_twice(
    tiles: Map<Point, Tile>,
    first: Set<Point>,
    second: Set<Point>,
    floor: Floor,
)
    ensures
        carved(carved(tiles, first, floor), second, floor) == carved(
            tiles,
            first.union(second),
            floor,
        ),
{
    let once = carved(tiles, first, floor);
    let twice = carved(once, second, floor);
    let whole = carved(tiles, first.union(second), floor);
    assert forall|r: Point| twice.contains_key(r) == whole.contains_key(r) by {
        if exists|q: Point| second.contains(q) && #[trigger] adjacent_eight(q, r) {
            let q = choose|q: Point| second.contains(q) && #[trigger] adjacent_eight(q, r);
            assert(first.union(second).contains(q) && adjacent_eight(q, r));
        }
        if exists|q: Point| first.contains(q) && #[trigger] adjacent_eight(q, r) {
            let q = choose|q: Point| first.contains(q) && #[trigger] adjacent_eight(q, r);
            assert(first.union(second).contains(q) && adjacent_eight(q, r));
        }
        if exists|q: Point| first.union(second).contains(q) && #[trigger] adjacent_eight(q, r) {
            let q = choose|q: Point|
                first.union(second).contains(q) && #[trigger] adjacent_eight(q, r);
            if second.contains(q) {
                assert(second.contains(q) && adjacent_eight(q, r));
            } else {
                assert(first.contains(q) && adjacent_eight(q, r));
            }
        }
    }
    assert(twice =~= whole);
}

/// Carving keeps a walled map walled, turns no floor into wall, and makes
/// floor of exactly the points that were cut.
pub proof fn lemma_carved_walled(tiles: Map<Point, Tile>, cut: Set<Point>, floor: Floor)
    requires
        walled(tiles),
    ensures
        walled(carved(tiles, cut, floor)),
        forall|p: Point|
            is_floor(carved(tiles, cut, floor), p) <==> cut.contains(p) || is_floor(tiles, p),
{
    let after = carved(tiles, cut, floor);
    assert forall|p: Point, q: Point|
        is_floor(after, p) && #[trigger] adjacent_eight(p, q) implies #[trigger] after.contains_key(
        q,
    ) by {
        if !cut.contains(p) {
            assert(is_floor(tiles, p));
            assert(tiles.contains_key(q));
        }
    }
}

/// Makes the tile at `coords` a floor of the material `floor`, and puts a
/// wall on each of its eight neighbours that holds no tile yet.
pub fn make_floor(terrain: &mut PointMap<Tile>, coords: Point, floor: Floor)
    requires
        i32::MIN < coords.x < i32::MAX,
        i32::MIN < coords.y < i32::MAX,
    ensures
        final(terrain)@ == carved(old(terrain)@, set![coords], floor),
{
    let ghost before = terrain@;
    let mut dx: i32 = -1;
    proof {
        assert(terrain@ =~= made_so_far(before, coords, floor, coords.x - 1, coords.y - 1));
    }
    while dx <= 1
        invariant
            i32::MIN < coords.x < i32::MAX,
            i32::MIN < coords.y < i32::MAX,
            -1 <= dx <= 2,
            terrain@ == made_so_far(before, coords, floor, coords.x + dx, coords.y - 1),
        decreases 2 - dx,
    {
        let mut dy: i32 = -1;
        while dy <= 1
            invariant
                i32::MIN < coords.x < i32::MAX,
                i32::MIN < coords.y < i32::MAX,
                -1 <= dx <= 1,
                -1 <= dy <= 2,
                terrain@ == made_so_far(before, coords, floor, coords.x + dx, coords.y + dy),
            decreases 2 - dy,
        {
            let here = Point::new(coords.x + dx, coords.y + dy);
            if dx == 0 && dy == 0 {
                terrain.insert(coords, Tile::Floor(floor));
            } else if !terrain.contains_key(here) {
                terrain.insert(here, Tile::Wall);
            }
            dy = dy + 1;
            proof {
                assert(terrain@ =~= made_so_far(before, coords, floor, coords.x + dx, coords.y + dy));
            }
        }
        dx = dx + 1;
        proof {
            assert(terrain@ =~= made_so_far(before, coords, floor, coords.x + dx, coords.y - 1));
        }
    }
    proof {
        let goal = carved(before, set![coords], floor);
        assert forall|p: Point| terrain@.contains_key(p) == goal.contains_key(p) by {
            if coords.x - 1 <= p.x <= coords.x + 1 && coords.y - 1 <= p.y <= coords.y + 1 && p
                != coords {
                assert(set![coords].contains(coords) && adjacent_eight(coords, p));
            }
        }
        assert(terrain@ =~= goal);
    }
}

/// The map while the block of three by three tiles around `coords` is being
/// made, by columns, each from the top down, and the tile at column `x`, row
/// `y` is next.
pub open spec fn made_so_far(
    before: Map<Point, Tile>,
    coords: Point,
    floor: Floor,
    x: int,
    y: int,
) -> Map<Point, Tile> {
    Map::new(
        |p: Point| before.contains_key(p) || reached(coords, x, y, p),
        |p: Point|
            if p == coords && reached(coords, x, y, p) {
                Tile::Floor(floor)
            } else if before.contains_key(p) {
                before[p]
            } else {
                Tile::Wall
            },
    )
}

/// Whether `p` is a tile of the block around `coords` that comes before
/// column `x`, row `y`.
pub open spec fn reached(coords: Point, x: int, y: int, p: Point) -> bool {
    coords.x - 1 <= p.x <= coords.x + 1 && coords.y - 1 <= p.y <= coords.y + 1 && (p.x < x || (p.x
        == x && p.y < y))
}

/// The points of `area` that a carving by columns, each from the top down,
/// has dealt with when it stands at column `x`, row `y`.
pub open spec fn cut_so_far(area: Rectangle, x: int, y: int) -> Set<Point> {
    Set::new(|p: Point| area.contains(p) && (p.x < x || (p.x == x && p.y < y)))
}

/// The points of `area`.
pub open spec fn points_of(area: Rectangle) -> Set<Point> {
    Set::new(|p: Point| area.contains(p))
}

/// Carves floor of the material `floor` at every point of `area`.
pub fn carve_rectangle(terrain: &mut PointMap<Tile>, area: Rectangle, floor: Floor)
    requires
        area.size.x >= 0,
        area.size.y >= 0,
        i32::MIN < area.pos.x,
        i32::MIN < area.pos.y,
        area.end_x() <= i32::MAX,
        area.end_y() <= i32::MAX,
    ensures
        final(terrain)@ == carved(old(terrain)@, points_of(area), floor),
{
    let ghost before = terrain@;
    let end_x = area.pos.x + area.size.x;
    let end_y = area.pos.y + area.size.y;
    let mut x: i32 = area.pos.x;
    proof {
        assert(cut_so_far(area, x as int, area.pos.y as int) =~= Set::empty());
        lemma_carved_nothing(before, floor);
    }
    while x < end_x
        invariant
            area.size.x >= 0,
            area.size.y >= 0,
            i32::MIN < area.pos.x,
            i32::MIN < area.pos.y,
            end_x == area.end_x(),
            end_y == area.end_y(),
            end_x <= i32::MAX,
            end_y <= i32::MAX,
            area.pos.x <= x <= end_x,
            terrain@ == carved(before, cut_so_far(area, x as int, area.pos.y as int), floor),
        decreases end_x - x,
    {
        let mut y: i32 = area.pos.y;
        while y < end_y
            invariant
                area.size.x >= 0,
                area.size.y >= 0,
                i32::MIN < area.pos.x,
                i32::MIN < area.pos.y,
                end_x == area.end_x(),
                end_y == area.end_y(),
                end_x <= i32::MAX,
                end_y <= i32::MAX,
                area.pos.x <= x < end_x,
                area.pos.y <= y <= end_y,
                terrain@ == carved(before, cut_so_far(area, x as int, y as int), floor),
            decreases end_y - y,
        {
            let here = Point::new(x, y);
            make_floor(terrain, here, floor);
            proof {
                lemma_carved_insert(before, cut_so_far(area, x as int, y as int), here, floor);
                assert(cut_so_far(area, x as int, y as int).insert(here) =~= cut_so_far(
                    area,
                    x as int,
                    y + 1,
                ));
            }
            y = y + 1;
        }
        proof {
            assert(cut_so_far(area, x as int, end_y as int) =~= cut_so_far(
                area,
                x + 1,
                area.pos.y as int,
            ));
        }
        x = x + 1;
    }
    proof {
        assert(cut_so_far(area, end_x as int, area.pos.y as int) =~= points_of(area));
    }
}

} // verus!
