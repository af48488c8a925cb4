//! The placement of rooms: rectangles of floor that neither overlap nor
//! touch.
use crate::geometry::is_offset_eight;
use crate::geometry::random_neighbor_eight;
use crate::geometry::Point;
use crate::geometry::Rectangle;
use crate::geometry::RectangleIntersection;
use crate::geometry::Vector;
use crate::random::random_range;
use rand_pcg::Pcg32;
use vstd::prelude::*;

verus! {

/// A rectangle of floor tiles.
#[derive(Clone, Copy, Debug)]
pub struct Room {
    pub floor: Rectangle,
}

/// A share of the tiles of a region, as a fraction between 0 and 1.
#[derive(Clone, Copy, Debug)]
pub struct FloorRatio {
    pub numer: u32,
    pub denom: u32,
}

/// Configuration settings for level generation.
#[derive(Clone, Copy, Debug)]
pub struct GenerationConfig {
    /// The region in tile space the level should cover.
    pub tileport: Rectangle,
    /// The minimum allowable proportion of the tiles inside the outer wall
    /// to be covered by rooms. Rooms are added until this proportion is
    /// reached, up to a retry limit, in case additional rooms can't fit.
    pub min_floor_ratio: FloorRatio,
    /// Minimum width and height of a room's floor.
    pub min_room_size: i32,
    /// Maximum width and height of a room's floor.
    pub max_room_size: i32,
}

/// How often in a row a candidate room may turn out too small before the
/// placement of rooms gives up.
pub const MAX_ROOM_PLACEMENT_RETRIES: u32 = 100;

impl GenerationConfig {
    /// The region that is left for floor inside a border of one tile.
    pub open spec fn spec_floor_region(self) -> Rectangle {
        Rectangle {
            pos: Point { x: (self.tileport.pos.x + 1) as i32, y: (self.tileport.pos.y + 1) as i32 },
            size: Vector {
                x: (self.tileport.size.x - 2) as i32,
                y: (self.tileport.size.y - 2) as i32,
            },
        }
    }

    /// The sizes are positive and in order, the largest room fits inside the
    /// border, the ratio is at most 1, and the region with a margin of its
    /// own size around it lies within the range of coordinates, its area
    /// within the range of an `i32`.
    pub open spec fn valid(self) -> bool {
        &&& 1 <= self.min_room_size <= self.max_room_size
        &&& self.max_room_size <= self.tileport.size.x - 2
        &&& self.max_room_size <= self.tileport.size.y - 2
        &&& 0 < self.min_floor_ratio.denom
        &&& self.min_floor_ratio.numer <= self.min_floor_ratio.denom
        &&& (self.tileport.size.x - 2) * (self.tileport.size.y - 2) <= i32::MAX
        &&& i32::MIN <= self.tileport.pos.x - self.tileport.size.x
        &&& self.tileport.pos.x + 2 * self.tileport.size.x <= i32::MAX
        &&& i32::MIN <= self.tileport.pos.y - self.tileport.size.y
        &&& self.tileport.pos.y + 2 * self.tileport.size.y <= i32::MAX
    }

    /// The region inside the border of a valid configuration leaves room
    /// for all the arithmetic of generation.
    pub proof fn lemma_floor_region(self)
        requires
            self.valid(),
        ensures
            roomy(self.spec_floor_region()),
    {
        let w = self.tileport.size.x - 2;
        let h = self.tileport.size.y - 2;
        assert(w + h - 1 <= w * h) by (nonlinear_arith)
            requires
                1 <= w,
                1 <= h,
        ;
    }

    /// The region that is left for floor inside a border of one tile.
    pub fn floor_region(&self) -> (r: Rectangle)
        requires
            self.valid(),
        ensures
            r == self.spec_floor_region(),
            roomy(r),
    {
        proof {
            self.lemma_floor_region();
        }
        Rectangle {
            pos: Point { x: self.tileport.pos.x + 1, y: self.tileport.pos.y + 1 },
            size: Vector::new(self.tileport.size.x - 2, self.tileport.size.y - 2),
        }
    }
}

/// Whether `inner` lies inside `outer`.
pub open spec fn within(inner: Rectangle, outer: Rectangle) -> bool {
    &&& outer.pos.x <= inner.pos.x
    &&& outer.pos.y <= inner.pos.y
    &&& inner.end_x() <= outer.end_x()
    &&& inner.end_y() <= outer.end_y()
    &&& inner.size.x >= 0
    &&& inner.size.y >= 0
}

/// Whether `candidate` neither overlaps nor touches any of `rooms`.
pub open spec fn clear_of(candidate: Rectangle, rooms: Seq<Room>) -> bool {
    forall|i: int| 0 <= i < rooms.len() ==> !candidate.spec_touching(#[trigger] rooms[i].floor)
}

/// Each room lies inside `region` with sides of at least `min_size`, and no
/// two rooms overlap or touch.
pub open spec fn well_placed(rooms: Seq<Room>, region: Rectangle, min_size: int) -> bool {
    &&& forall|i: int|
        0 <= i < rooms.len() ==> within(#[trigger] rooms[i].floor, region) && rooms[i].floor.size.x
            >= min_size && rooms[i].floor.size.y >= min_size
    &&& forall|i: int, j: int|
        0 <= i < j < rooms.len() ==> !(#[trigger] rooms[i].floor).spec_touching(
            #[trigger] rooms[j].floor,
        )
}

/// `steps` steps in the direction `dir`.
pub open spec fn stride(dir: int, steps: int) -> int {
    if dir > 0 {
        steps
    } else if dir < 0 {
        -steps
    } else {
        0
    }
}

/// `r` moved `steps` times by `nudge`, each of whose components is -1, 0
/// or 1.
pub open spec fn nudged(r: Rectangle, nudge: Vector, steps: int) -> Rectangle {
    Rectangle {
        pos: Point {
            x: (r.pos.x + stride(nudge.x as int, steps)) as i32,
            y: (r.pos.y + stride(nudge.y as int, steps)) as i32,
        },
        size: r.size,
    }
}

/// Whether `steps` is the least number of steps by `nudge` after which
/// `candidate` is clear of `rooms`.
pub open spec fn first_clear(candidate: Rectangle, nudge: Vector, rooms: Seq<Room>, steps: int) -> bool {
    &&& 0 <= steps
    &&& clear_of(nudged(candidate, nudge, steps), rooms)
    &&& forall|m: int| 0 <= m < steps ==> !clear_of(#[trigger] nudged(candidate, nudge, m), rooms)
}

/// How many more steps along one axis a rectangle at `pos` of the extent
/// `size` can take in the direction `dir` and still reach the span from
/// `low` to `high`.
pub open spec fn reach(pos: int, size: int, dir: int, low: int, high: int) -> int {
    if dir > 0 {
        high + 1 - pos
    } else if dir < 0 {
        pos + size - low + 1
    } else {
        0
    }
}

/// The steps that `candidate` can take by `nudge` before it has left
/// `region` behind on one axis.
pub open spec fn nudges_left(candidate: Rectangle, nudge: Vector, region: Rectangle) -> int {
    reach(
        candidate.pos.x as int,
        candidate.size.x as int,
        nudge.x as int,
        region.pos.x as int,
        region.end_x(),
    ) + reach(
        candidate.pos.y as int,
        candidate.size.y as int,
        nudge.y as int,
        region.pos.y as int,
        region.end_y(),
    )
}

/// A region and candidates around it, within a margin of the region's own
/// size, lie within the range of coordinates.
pub open spec fn roomy(region: Rectangle) -> bool {
    &&& region.size.x >= 0
    &&& region.size.y >= 0
    &&& i32::MIN <= region.pos.x - region.size.x - 3
    &&& region.pos.x + 2 * region.size.x + 3 <= i32::MAX
    &&& i32::MIN <= region.pos.y - region.size.y - 3
    &&& region.pos.y + 2 * region.size.y + 3 <= i32::MAX
    &&& region.size.x + region.size.y - 1 <= i32::MAX
}

/// A position that a candidate can have while it is nudged out of `region`.
pub open spec fn near(current: Rectangle, region: Rectangle) -> bool {
    &&& region.pos.x - region.size.x - 1 <= current.pos.x <= region.end_x() + 1
    &&& region.pos.y - region.size.y - 1 <= current.pos.y <= region.end_y() + 1
    &&& 0 <= current.size.x <= region.size.x
    &&& 0 <= current.size.y <= region.size.y
}

/// Moves `candidate` by `nudge`, step by step, for as long as it overlaps or
/// touches one of `rooms`: the result is the first position on that way at
/// which it is clear of them all.
pub fn nudge_until_clear(
    candidate: Rectangle,
    nudge: Vector,
    rooms: &Vec<Room>,
    region: Rectangle,
) -> (r: Rectangle)
    requires
        is_offset_eight(nudge),
        roomy(region),
        within(candidate, region),
        forall|i: int| 0 <= i < rooms@.len() ==> within(#[trigger] rooms@[i].floor, region),
    ensures
        exists|steps: int| #[trigger]
            first_clear(candidate, nudge, rooms@, steps) && r == nudged(candidate, nudge, steps),
        clear_of(r, rooms@),
        r.size == candidate.size,
        near(r, region),
{
    let mut current = candidate;
    let ghost mut steps: int = 0;
    let mut nudging = true;
    while nudging
        invariant
            is_offset_eight(nudge),
            roomy(region),
            within(candidate, region),
            forall|i: int| 0 <= i < rooms@.len() ==> within(#[trigger] rooms@[i].floor, region),
            0 <= steps,
            current.size == candidate.size,
            current.pos.x == candidate.pos.x + stride(nudge.x as int, steps),
            current.pos.y == candidate.pos.y + stride(nudge.y as int, steps),
            forall|m: int|
                0 <= m < steps ==> !clear_of(#[trigger] nudged(candidate, nudge, m), rooms@),
            !nudging ==> clear_of(current, rooms@),
            nudges_left(current, nudge, region) >= 0,
            near(current, region),
        decreases
                nudges_left(current, nudge, region),
                if nudging {
                    1int
                } else {
                    0int
                },
    {
        nudging = false;
        let ghost left_before = nudges_left(current, nudge, region);
        let mut i: usize = 0;
        while i < rooms.len()
            invariant
                is_offset_eight(nudge),
                roomy(region),
                within(candidate, region),
                forall|i: int| 0 <= i < rooms@.len() ==> within(#[trigger] rooms@[i].floor, region),
                0 <= steps,
                i <= rooms@.len(),
                current.size == candidate.size,
                current.pos.x == candidate.pos.x + stride(nudge.x as int, steps),
                current.pos.y == candidate.pos.y + stride(nudge.y as int, steps),
                forall|m: int|
                    0 <= m < steps ==> !clear_of(#[trigger] nudged(candidate, nudge, m), rooms@),
                !nudging ==> forall|k: int|
                    0 <= k < i ==> !current.spec_touching(#[trigger] rooms@[k].floor),
                nudges_left(current, nudge, region) >= 0,
                nudges_left(current, nudge, region) <= left_before,
                nudging ==> nudges_left(current, nudge, region) < left_before,
                near(current, region),
            decreases rooms@.len() - i,
        {
            let room = rooms[i].floor;
            if current.touching(room) {
                proof {
                    assert(within(rooms@[i as int].floor, region));
                    assert(current == nudged(candidate, nudge, steps));
                    assert(!clear_of(nudged(candidate, nudge, steps), rooms@));
                    steps = steps + 1;
                }
                nudging = true;
                current.pos = Point { x: current.pos.x + nudge.x, y: current.pos.y + nudge.y };
            }
            i = i + 1;
        }
    }
    proof {
        assert(current == nudged(candidate, nudge, steps));
        assert(first_clear(candidate, nudge, rooms@, steps));
    }
    current
}

/// The part of `candidate` that lies inside `region`; where there is none,
/// `candidate` with its size set to zero.
pub open spec fn spec_crop(candidate: Rectangle, region: Rectangle) -> Rectangle {
    match candidate.spec_intersection(region) {
        RectangleIntersection::Real(r) => r,
        _ => Rectangle { pos: candidate.pos, size: Vector { x: 0, y: 0 } },
    }
}

/// Crops `candidate` to fit within `region`. A candidate that lies
/// completely outside has its size set to zero.
pub fn crop(candidate: Rectangle, region: Rectangle) -> (r: Rectangle)
    requires
        candidate.spans_fit(region),
    ensures
        r == spec_crop(candidate, region),
{
    match candidate.intersection(region) {
        RectangleIntersection::Real(r) => r,
        _ => Rectangle { pos: candidate.pos, size: Vector::new(0, 0) },
    }
}

/// Whether rooms that cover `floor_area` tiles of `total_area` fall short of
/// `ratio`.
pub open spec fn spec_below_ratio(floor_area: int, total_area: int, ratio: FloorRatio) -> bool {
    floor_area * ratio.denom < ratio.numer * total_area
}

/// Whether rooms that cover `floor_area` tiles of `total_area` fall short of
/// `ratio`.
pub fn below_ratio(floor_area: u64, total_area: i32, ratio: FloorRatio) -> (b: bool)
    requires
        0 <= total_area,
    ensures
        b == spec_below_ratio(floor_area as int, total_area as int, ratio),
{
    let covered: u128 = floor_area as u128;
    let denom: u128 = ratio.denom as u128;
    let numer: u128 = ratio.numer as u128;
    let total: u128 = total_area as u128;
    assert(covered * denom <= 0xffff_ffff_ffff_ffff * 0xffff_ffff) by (nonlinear_arith)
        requires
            0 <= covered <= 0xffff_ffff_ffff_ffff,
            0 <= denom <= 0xffff_ffff,
    ;
    assert(numer * total <= 0xffff_ffff * 0x7fff_ffff) by (nonlinear_arith)
        requires
            0 <= numer <= 0xffff_ffff,
            0 <= total <= 0x7fff_ffff,
    ;
    covered * denom < numer * total
}

/// What is still missing for the ratio to be reached, as a measure that
/// falls with every room that is accepted.
pub open spec fn shortfall(floor_area: int, total_area: int, ratio: FloorRatio) -> int {
    if spec_below_ratio(floor_area, total_area, ratio) {
        ratio.numer * total_area - floor_area * ratio.denom
    } else {
        0
    }
}

/// Places rooms inside the border of the region until they cover the
/// configured share of it, or until a candidate has turned out too small
/// more than [`MAX_ROOM_PLACEMENT_RETRIES`] times in a row.
///
/// Whatever is drawn, the rooms lie inside the border, none is smaller than
/// the configured minimum, and no two of them overlap or touch.
pub fn place_rooms(config: &GenerationConfig, rng: &mut Pcg32) -> (rooms: Vec<Room>)
    requires
        config.valid(),
    ensures
        well_placed(rooms@, config.spec_floor_region(), config.min_room_size as int),
        config.min_floor_ratio.numer > 0 ==> rooms@.len() >= 1,
{
    let floor = config.floor_region();
    let total_area = floor.area();
    let ratio = config.min_floor_ratio;
    let mut rooms: Vec<Room> = Vec::new();
    let mut floor_area: u64 = 0;
    let mut retries: u32 = 0;
    proof {
        let fw = floor.size.x as int;
        let fh = floor.size.y as int;
        assert(1 <= fw * fh) by (nonlinear_arith)
            requires
                1 <= fw,
                1 <= fh,
        ;
        let n = ratio.numer as int;
        let d = ratio.denom as int;
        let t = fw * fh;
        assert(n > 0 ==> 0 * d < n * t) by (nonlinear_arith)
            requires
                1 <= t,
        ;
    }
    while below_ratio(floor_area, total_area, ratio)
        invariant_except_break
            retries <= MAX_ROOM_PLACEMENT_RETRIES,
        invariant
            1 <= total_area,
            rooms@.len() == 0 ==> floor_area == 0 && retries == 0,
            ratio.numer > 0 ==> spec_below_ratio(0, total_area as int, ratio),
            config.valid(),
            floor == config.spec_floor_region(),
            roomy(floor),
            total_area == floor.size.x * floor.size.y,
            0 <= total_area,
            ratio == config.min_floor_ratio,
            floor_area <= 2 * total_area,
            well_placed(rooms@, floor, config.min_room_size as int),
        ensures
            ratio.numer > 0 ==> rooms@.len() >= 1,
        decreases
                shortfall(floor_area as int, total_area as int, ratio),
                MAX_ROOM_PLACEMENT_RETRIES - retries,
    {
        let width = random_range(rng, config.min_room_size, config.max_room_size);
        let height = random_range(rng, config.min_room_size, config.max_room_size);
        let x = floor.pos.x + random_range(rng, 0, floor.size.x - width);
        let y = floor.pos.y + random_range(rng, 0, floor.size.y - height);
        let candidate = Rectangle { pos: Point::new(x, y), size: Vector::new(width, height) };
        // Nudge the room while it touches any existing room.
        let nudge = random_neighbor_eight(rng);
        let moved = nudge_until_clear(candidate, nudge, &rooms, floor);
        // Crop the room to fit within the border.
        let cropped = crop(moved, floor);
        if cropped.size.x < config.min_room_size || cropped.size.y < config.min_room_size {
            // The room is now too small: discard it and try again.
            proof {
                // The first candidate touches no room and lies in the
                // region, so it is taken as it is.
                if rooms@.len() == 0 {
                    let steps = choose|steps: int| #[trigger]
                        first_clear(candidate, nudge, rooms@, steps) && moved == nudged(
                            candidate,
                            nudge,
                            steps,
                        );
                    if steps > 0 {
                        assert(clear_of(nudged(candidate, nudge, 0), rooms@));
                    }
                    assert(moved == candidate);
                    assert(false);
                }
            }
            retries = retries + 1;
            if retries > MAX_ROOM_PLACEMENT_RETRIES {
                break ;
            }
        } else {
            proof {
                let w = cropped.size.x as int;
                let h = cropped.size.y as int;
                let fw = floor.size.x as int;
                let fh = floor.size.y as int;
                assert(1 <= w * h <= fw * fh) by (nonlinear_arith)
                    requires
                        1 <= w <= fw,
                        1 <= h <= fh,
                ;
                let d = ratio.denom as int;
                let n = ratio.numer as int;
                let t = total_area as int;
                let f = floor_area as int;
                assert(f < t) by (nonlinear_arith)
                    requires
                        f * d < n * t,
                        0 <= n <= d,
                        0 < d,
                        0 <= t,
                        0 <= f,
                ;
                assert((f + w * h) * d >= f * d + 1) by (nonlinear_arith)
                    requires
                        1 <= w * h,
                        1 <= d,
                ;
                assert forall|i: int| 0 <= i < rooms@.len() implies !(#[trigger] rooms@[i].floor).spec_touching(
                    cropped,
                ) by {
                    assert(!moved.spec_touching(rooms@[i].floor));
                }
            }
            retries = 0;
            floor_area = floor_area + cropped.area() as u64;
            rooms.push(Room { floor: cropped });
        }
    }
    rooms
}

} // verus!
