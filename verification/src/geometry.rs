//! Integer points, offsets and rectangles on the tile grid.
use crate::random::choose_one;
use crate::random::random_range;
use rand_pcg::Pcg32;
use vstd::prelude::*;

verus! {

/// An offset between two grid positions.
#[derive(Clone, Copy, PartialEq, Eq, Hash, Debug, Structural)]
pub struct Vector {
    pub x: i32,
    pub y: i32,
}

/// A position on the grid.
#[derive(Clone, Copy, PartialEq, Eq, Hash, Debug, Structural)]
pub struct Point {
    pub x: i32,
    pub y: i32,
}

/// An axis-aligned rectangle covering the half-open ranges
/// `[pos.x, pos.x + size.x)` and `[pos.y, pos.y + size.y)`.
#[derive(Clone, Copy, PartialEq, Eq, Hash, Debug, Structural)]
pub struct Rectangle {
    pub pos: Point,
    pub size: Vector,
}

/// How two rectangles lie relative to each other.
#[derive(Clone, Copy, PartialEq, Eq, Debug, Structural)]
pub enum RectangleIntersection {
    /// The rectangles overlap; the payload is the overlapping region.
    Real(Rectangle),
    /// The rectangles share x-coordinates but not y-coordinates. The payload
    /// is the empty space between the horizontally overlapping regions.
    Horizontal(Rectangle),
    /// The rectangles share y-coordinates but not x-coordinates. The payload
    /// is the empty space between the vertically overlapping regions.
    Vertical(Rectangle),
    /// The rectangles share neither x- nor y-coordinates. The payload is the
    /// empty space between the rectangles' nearest corners.
    Disjoint(Rectangle),
}

/// An offset in tiles.
pub type TileVector = Vector;

/// The position of a tile.
pub type TilePoint = Point;

/// A rectangle of tiles.
pub type TileRectangle = Rectangle;

/// How two rectangles of tiles lie relative to each other.
pub type TileIntersection = RectangleIntersection;

/// Whether `v` can be held in an `i32`.
pub open spec fn fits_i32(v: int) -> bool {
    i32::MIN <= v <= i32::MAX
}

/// The greater of `a` and `b`.
pub open spec fn max_int(a: int, b: int) -> int {
    if a >= b {
        a
    } else {
        b
    }
}

/// The smaller of `a` and `b`.
pub open spec fn min_int(a: int, b: int) -> int {
    if a <= b {
        a
    } else {
        b
    }
}

impl Vector {
    /// The offset by `x` along x and by `y` along y.
    pub fn new(x: i32, y: i32) -> (v: Vector)
        ensures
            v.x == x,
            v.y == y,
    {
        Vector { x, y }
    }
}

impl Point {
    /// The point in the column `x` and the row `y`.
    pub fn new(x: i32, y: i32) -> (p: Point)
        ensures
            p.x == x,
            p.y == y,
    {
        Point { x, y }
    }
}

impl Rectangle {
    /// One past the last column of the rectangle.
    pub open spec fn end_x(self) -> int {
        self.pos.x + self.size.x
    }

    /// One past the last row of the rectangle.
    pub open spec fn end_y(self) -> int {
        self.pos.y + self.size.y
    }

    /// Both far edges are representable.
    pub open spec fn edges_fit(self) -> bool {
        fits_i32(self.end_x()) && fits_i32(self.end_y())
    }

    /// First column that could belong to both rectangles.
    pub open spec fn start_x_with(self, other: Rectangle) -> int {
        max_int(self.pos.x as int, other.pos.x as int)
    }

    /// First row that could belong to both rectangles.
    pub open spec fn start_y_with(self, other: Rectangle) -> int {
        max_int(self.pos.y as int, other.pos.y as int)
    }

    /// One past the last column that could belong to both rectangles.
    pub open spec fn end_x_with(self, other: Rectangle) -> int {
        min_int(self.end_x(), other.end_x())
    }

    /// One past the last row that could belong to both rectangles.
    pub open spec fn end_y_with(self, other: Rectangle) -> int {
        min_int(self.end_y(), other.end_y())
    }

    /// The extents of the overlap, or of the gap, are representable whatever
    /// their sign.
    pub open spec fn spans_fit(self, other: Rectangle) -> bool {
        &&& self.edges_fit()
        &&& other.edges_fit()
        &&& -i32::MAX <= self.end_x_with(other) - self.start_x_with(other) <= i32::MAX
        &&& -i32::MAX <= self.end_y_with(other) - self.start_y_with(other) <= i32::MAX
    }

    /// The classification that [`Rectangle::intersection`] computes.
    pub open spec fn spec_intersection(self, other: Rectangle) -> RectangleIntersection {
        let sx = self.start_x_with(other);
        let sy = self.start_y_with(other);
        let ex = self.end_x_with(other);
        let ey = self.end_y_with(other);
        if sx < ex && sy < ey {
            RectangleIntersection::Real(
                Rectangle {
                    pos: Point { x: sx as i32, y: sy as i32 },
                    size: Vector { x: (ex - sx) as i32, y: (ey - sy) as i32 },
                },
            )
        } else if sx < ex {
            RectangleIntersection::Horizontal(
                Rectangle {
                    pos: Point { x: sx as i32, y: ey as i32 },
                    size: Vector { x: (ex - sx) as i32, y: (sy - ey) as i32 },
                },
            )
        } else if sy < ey {
            RectangleIntersection::Vertical(
                Rectangle {
                    pos: Point { x: ex as i32, y: sy as i32 },
                    size: Vector { x: (sx - ex) as i32, y: (ey - sy) as i32 },
                },
            )
        } else {
            RectangleIntersection::Disjoint(
                Rectangle {
                    pos: Point { x: ex as i32, y: ey as i32 },
                    size: Vector { x: (sx - ex) as i32, y: (sy - ey) as i32 },
                },
            )
        }
    }

    /// Whether the rectangles overlap or share an edge or a corner.
    pub open spec fn spec_touching(self, other: Rectangle) -> bool {
        self.start_x_with(other) <= self.end_x_with(other) && self.start_y_with(other)
            <= self.end_y_with(other)
    }

    /// Whether the tile at `p` lies inside the rectangle.
    pub open spec fn contains(self, p: Point) -> bool {
        self.pos.x <= p.x < self.end_x() && self.pos.y <= p.y < self.end_y()
    }

    /// Classifies how `self` and `other` lie relative to each other, with the
    /// overlapping region or the gap between them.
    pub fn intersection(self, other: Rectangle) -> (r: RectangleIntersection)
        requires
            self.spans_fit(other),
        ensures
            r == self.spec_intersection(other),
    {
        let start_x = if self.pos.x >= other.pos.x {
            self.pos.x
        } else {
            other.pos.x
        };
        let start_y = if self.pos.y >= other.pos.y {
            self.pos.y
        } else {
            other.pos.y
        };
        let self_end_x = self.pos.x + self.size.x;
        let other_end_x = other.pos.x + other.size.x;
        let self_end_y = self.pos.y + self.size.y;
        let other_end_y = other.pos.y + other.size.y;
        let end_x = if self_end_x <= other_end_x {
            self_end_x
        } else {
            other_end_x
        };
        let end_y = if self_end_y <= other_end_y {
            self_end_y
        } else {
            other_end_y
        };
        if start_x < end_x {
            if start_y < end_y {
                RectangleIntersection::Real(
                    Rectangle {
                        pos: Point::new(start_x, start_y),
                        size: Vector::new(end_x - start_x, end_y - start_y),
                    },
                )
            } else {
                RectangleIntersection::Horizontal(
                    Rectangle {
                        pos: Point::new(start_x, end_y),
                        size: Vector::new(end_x - start_x, start_y - end_y),
                    },
                )
            }
        } else {
            if start_y < end_y {
                RectangleIntersection::Vertical(
                    Rectangle {
                        pos: Point::new(end_x, start_y),
                        size: Vector::new(start_x - end_x, end_y - start_y),
                    },
                )
            } else {
                RectangleIntersection::Disjoint(
                    Rectangle {
                        pos: Point::new(end_x, end_y),
                        size: Vector::new(start_x - end_x, start_y - end_y),
                    },
                )
            }
        }
    }

    /// Whether `self` and `other` are overlapping or adjacent.
    pub fn touching(self, other: Rectangle) -> (b: bool)
        requires
            self.edges_fit(),
            other.edges_fit(),
        ensures
            b == self.spec_touching(other),
    {
        let start_x = if self.pos.x >= other.pos.x {
            self.pos.x
        } else {
            other.pos.x
        };
        let start_y = if self.pos.y >= other.pos.y {
            self.pos.y
        } else {
            other.pos.y
        };
        let self_end_x = self.pos.x + self.size.x;
        let other_end_x = other.pos.x + other.size.x;
        let self_end_y = self.pos.y + self.size.y;
        let other_end_y = other.pos.y + other.size.y;
        let end_x = if self_end_x <= other_end_x {
            self_end_x
        } else {
            other_end_x
        };
        let end_y = if self_end_y <= other_end_y {
            self_end_y
        } else {
            other_end_y
        };
        start_x <= end_x && start_y <= end_y
    }

    /// The rectangle's width times its height.
    pub fn area(self) -> (a: i32)
        requires
            fits_i32(self.size.x * self.size.y),
        ensures
            a == self.size.x * self.size.y,
    {
        self.size.x * self.size.y
    }
}

impl RectangleIntersection {
    /// The rectangle carried by any of the four variants.
    pub open spec fn region(self) -> Rectangle {
        match self {
            RectangleIntersection::Real(r) => r,
            RectangleIntersection::Horizontal(r) => r,
            RectangleIntersection::Vertical(r) => r,
            RectangleIntersection::Disjoint(r) => r,
        }
    }

    /// The Manhattan distance between the nearest edges or corners of the
    /// two rectangles that were classified.
    pub open spec fn spec_distance(self) -> int {
        match self {
            RectangleIntersection::Real(_) => 0,
            RectangleIntersection::Horizontal(r) => r.size.y as int,
            RectangleIntersection::Vertical(r) => r.size.x as int,
            RectangleIntersection::Disjoint(r) => r.size.x + r.size.y,
        }
    }

    /// The Manhattan distance between the rectangles, measured from edges
    /// and corners: zero when they overlap, and zero too when they only
    /// share a corner.
    pub fn distance(self) -> (d: i32)
        requires
            fits_i32(self.spec_distance()),
        ensures
            d == self.spec_distance(),
    {
        match self {
            // Overlapping x- or y-coordinates contribute zero distance.
            RectangleIntersection::Real(_) => zero(),
            RectangleIntersection::Horizontal(r) => r.size.y,
            RectangleIntersection::Vertical(r) => r.size.x,
            RectangleIntersection::Disjoint(r) => r.size.x + r.size.y,
        }
    }
}

/// `num_traits::Zero::zero` for `i32`: the number 0.
#[verifier::external_body]
fn zero() -> (z: i32)
    ensures
        z == 0,
{
    num_traits::Zero::zero()
}

impl vstd::std_specs::ops::AddSpecImpl<Vector> for Point {
    open spec fn obeys_add_spec() -> bool {
        true
    }

    open spec fn add_req(self, rhs: Vector) -> bool {
        fits_i32(self.x + rhs.x) && fits_i32(self.y + rhs.y)
    }

    open spec fn add_spec(self, rhs: Vector) -> Point {
        Point { x: (self.x + rhs.x) as i32, y: (self.y + rhs.y) as i32 }
    }
}

/// A point moved by an offset. Both sums have to fit.
impl core::ops::Add<Vector> for Point {
    type Output = Point;

    fn add(self, rhs: Vector) -> Point {
        Point { x: self.x + rhs.x, y: self.y + rhs.y }
    }
}

impl vstd::std_specs::ops::SubSpecImpl<Vector> for Point {
    open spec fn obeys_sub_spec() -> bool {
        true
    }

    open spec fn sub_req(self, rhs: Vector) -> bool {
        fits_i32(self.x - rhs.x) && fits_i32(self.y - rhs.y)
    }

    open spec fn sub_spec(self, rhs: Vector) -> Point {
        Point { x: (self.x - rhs.x) as i32, y: (self.y - rhs.y) as i32 }
    }
}

/// A point moved back by an offset. Both differences have to fit.
impl core::ops::Sub<Vector> for Point {
    type Output = Point;

    fn sub(self, rhs: Vector) -> Point {
        Point { x: self.x - rhs.x, y: self.y - rhs.y }
    }
}

impl vstd::std_specs::ops::SubSpecImpl<Point> for Point {
    open spec fn obeys_sub_spec() -> bool {
        true
    }

    open spec fn sub_req(self, rhs: Point) -> bool {
        fits_i32(self.x - rhs.x) && fits_i32(self.y - rhs.y)
    }

    open spec fn sub_spec(self, rhs: Point) -> Vector {
        Vector { x: (self.x - rhs.x) as i32, y: (self.y - rhs.y) as i32 }
    }
}

/// The offset that leads from `rhs` to the point. Both differences have to
/// fit.
impl core::ops::Sub<Point> for Point {
    type Output = Vector;

    fn sub(self, rhs: Point) -> Vector {
        Vector { x: self.x - rhs.x, y: self.y - rhs.y }
    }
}

impl vstd::std_specs::ops::AddSpecImpl<Vector> for Vector {
    open spec fn obeys_add_spec() -> bool {
        true
    }

    open spec fn add_req(self, rhs: Vector) -> bool {
        fits_i32(self.x + rhs.x) && fits_i32(self.y + rhs.y)
    }

    open spec fn add_spec(self, rhs: Vector) -> Vector {
        Vector { x: (self.x + rhs.x) as i32, y: (self.y + rhs.y) as i32 }
    }
}

/// The sum of two offsets, component by component. Both sums have to fit.
impl core::ops::Add<Vector> for Vector {
    type Output = Vector;

    fn add(self, rhs: Vector) -> Vector {
        Vector { x: self.x + rhs.x, y: self.y + rhs.y }
    }
}

impl vstd::std_specs::ops::SubSpecImpl<Vector> for Vector {
    open spec fn obeys_sub_spec() -> bool {
        true
    }

    open spec fn sub_req(self, rhs: Vector) -> bool {
        fits_i32(self.x - rhs.x) && fits_i32(self.y - rhs.y)
    }

    open spec fn sub_spec(self, rhs: Vector) -> Vector {
        Vector { x: (self.x - rhs.x) as i32, y: (self.y - rhs.y) as i32 }
    }
}

/// The difference of two offsets, component by component. Both differences
/// have to fit.
impl core::ops::Sub<Vector> for Vector {
    type Output = Vector;

    fn sub(self, rhs: Vector) -> Vector {
        Vector { x: self.x - rhs.x, y: self.y - rhs.y }
    }
}

impl vstd::std_specs::ops::MulSpecImpl<i32> for Vector {
    open spec fn obeys_mul_spec() -> bool {
        true
    }

    open spec fn mul_req(self, rhs: i32) -> bool {
        fits_i32(self.x * rhs) && fits_i32(self.y * rhs)
    }

    open spec fn mul_spec(self, rhs: i32) -> Vector {
        Vector { x: (self.x * rhs) as i32, y: (self.y * rhs) as i32 }
    }
}

impl core::ops::AddAssign<Vector> for Vector {
    fn add_assign(&mut self, rhs: Vector)
        requires
            fits_i32(old(self).x + rhs.x),
            fits_i32(old(self).y + rhs.y),
        ensures
            final(self).x == old(self).x + rhs.x,
            final(self).y == old(self).y + rhs.y,
    {
        self.x = self.x + rhs.x;
        self.y = self.y + rhs.y;
    }
}

impl core::ops::SubAssign<Vector> for Vector {
    fn sub_assign(&mut self, rhs: Vector)
        requires
            fits_i32(old(self).x - rhs.x),
            fits_i32(old(self).y - rhs.y),
        ensures
            final(self).x == old(self).x - rhs.x,
            final(self).y == old(self).y - rhs.y,
    {
        self.x = self.x - rhs.x;
        self.y = self.y - rhs.y;
    }
}

impl core::ops::MulAssign<i32> for Vector {
    fn mul_assign(&mut self, rhs: i32)
        requires
            fits_i32(old(self).x * rhs),
            fits_i32(old(self).y * rhs),
        ensures
            final(self).x == old(self).x * rhs,
            final(self).y == old(self).y * rhs,
    {
        self.x = self.x * rhs;
        self.y = self.y * rhs;
    }
}

impl core::ops::AddAssign<Vector> for Point {
    fn add_assign(&mut self, rhs: Vector)
        requires
            fits_i32(old(self).x + rhs.x),
            fits_i32(old(self).y + rhs.y),
        ensures
            final(self).x == old(self).x + rhs.x,
            final(self).y == old(self).y + rhs.y,
    {
        self.x = self.x + rhs.x;
        self.y = self.y + rhs.y;
    }
}

impl core::ops::SubAssign<Vector> for Point {
    fn sub_assign(&mut self, rhs: Vector)
        requires
            fits_i32(old(self).x - rhs.x),
            fits_i32(old(self).y - rhs.y),
        ensures
            final(self).x == old(self).x - rhs.x,
            final(self).y == old(self).y - rhs.y,
    {
        self.x = self.x - rhs.x;
        self.y = self.y - rhs.y;
    }
}

/// An offset scaled by a factor. Both products have to fit.
impl core::ops::Mul<i32> for Vector {
    type Output = Vector;

    fn mul(self, rhs: i32) -> Vector {
        Vector { x: self.x * rhs, y: self.y * rhs }
    }
}

/// One step up; `y` grows downwards.
pub fn tile_up() -> (v: Vector)
    ensures
        v == (Vector { x: 0, y: -1i32 }),
{
    Vector { x: 0, y: -1i32 }
}

/// One step down; `y` grows downwards.
pub fn tile_down() -> (v: Vector)
    ensures
        v == (Vector { x: 0, y: 1 }),
{
    Vector { x: 0, y: 1 }
}

/// One step left; `y` grows downwards.
pub fn tile_left() -> (v: Vector)
    ensures
        v == (Vector { x: -1i32, y: 0 }),
{
    Vector { x: -1i32, y: 0 }
}

/// One step right; `y` grows downwards.
pub fn tile_right() -> (v: Vector)
    ensures
        v == (Vector { x: 1, y: 0 }),
{
    Vector { x: 1, y: 0 }
}

/// One step up and left; `y` grows downwards.
pub fn tile_up_left() -> (v: Vector)
    ensures
        v == (Vector { x: -1i32, y: -1i32 }),
{
    Vector { x: -1i32, y: -1i32 }
}

/// One step up and right; `y` grows downwards.
pub fn tile_up_right() -> (v: Vector)
    ensures
        v == (Vector { x: 1, y: -1i32 }),
{
    Vector { x: 1, y: -1i32 }
}

/// One step down and left; `y` grows downwards.
pub fn tile_down_left() -> (v: Vector)
    ensures
        v == (Vector { x: -1i32, y: 1 }),
{
    Vector { x: -1i32, y: 1 }
}

/// One step down and right; `y` grows downwards.
pub fn tile_down_right() -> (v: Vector)
    ensures
        v == (Vector { x: 1, y: 1 }),
{
    Vector { x: 1, y: 1 }
}

/// The offsets to the four tiles that share an edge with a tile, in the
/// order in which they are examined: up, down, left, right.
pub open spec fn neighbor_offsets_four() -> Seq<Vector> {
    seq![
        Vector { x: 0, y: -1i32 },
        Vector { x: 0, y: 1 },
        Vector { x: -1i32, y: 0 },
        Vector { x: 1, y: 0 },
    ]
}

/// Whether `v` leads to a tile that shares an edge.
pub open spec fn is_offset_four(v: Vector) -> bool {
    (v.x == 0 && (v.y == 1 || v.y == -1)) || (v.y == 0 && (v.x == 1 || v.x == -1))
}

/// Whether `v` leads to a tile that shares an edge or a corner.
pub open spec fn is_offset_eight(v: Vector) -> bool {
    -1 <= v.x <= 1 && -1 <= v.y <= 1 && !(v.x == 0 && v.y == 0)
}

/// Whether `a` and `b` share an edge.
pub open spec fn adjacent_four(a: Point, b: Point) -> bool {
    (a.x == b.x && (a.y - b.y == 1 || b.y - a.y == 1)) || (a.y == b.y && (a.x - b.x == 1 || b.x
        - a.x == 1))
}

/// The four offsets of [`neighbor_offsets_four`], in that order.
pub fn offsets_four() -> (v: Vec<Vector>)
    ensures
        v@ == neighbor_offsets_four(),
{
    let mut v: Vec<Vector> = Vec::new();
    v.push(tile_up());
    v.push(tile_down());
    v.push(tile_left());
    v.push(tile_right());
    assert(v@ =~= neighbor_offsets_four());
    v
}

/// Offset to a random adjacent tile, drawn as a number from 0 to 3.
pub fn random_neighbor(rng: &mut Pcg32) -> (v: Vector)
    ensures
        is_offset_four(v),
{
    let n = random_range(rng, 0, 3);
    if n == 0 {
        tile_up()
    } else if n == 1 {
        tile_down()
    } else if n == 2 {
        tile_left()
    } else {
        tile_right()
    }
}

/// Offset to a random adjacent tile, excluding diagonals.
pub fn random_neighbor_four(rng: &mut Pcg32) -> (v: Vector)
    ensures
        is_offset_four(v),
{
    let offsets = offsets_four();
    match choose_one(rng, &offsets) {
        Some(v) => v,
        None => vstd::pervasive::unreached(),
    }
}

/// Offset to a random adjacent tile, including diagonals.
pub fn random_neighbor_eight(rng: &mut Pcg32) -> (v: Vector)
    ensures
        is_offset_eight(v),
{
    let mut offsets: Vec<Vector> = Vec::new();
    offsets.push(tile_up());
    offsets.push(tile_down());
    offsets.push(tile_left());
    offsets.push(tile_right());
    offsets.push(tile_up_left());
    offsets.push(tile_up_right());
    offsets.push(tile_down_left());
    offsets.push(tile_down_right());
    match choose_one(rng, &offsets) {
        Some(v) => v,
        None => vstd::pervasive::unreached(),
    }
}

} // verus!
