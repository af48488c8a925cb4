//! Symmetric shadowcasting: the set of tiles that can be seen from a tile.
//!
//! The view is scanned in four quadrants, each row by row away from the
//! origin. A row section is bounded by two slopes, which are exact ratios.
use crate::geometry::Point;
use crate::point_map::PointSet;
use crate::rational::abs;
use crate::rational::lemma_floor_of_equal;
use crate::rational::ratio_from_integer;
use crate::rational::ratio_le;
use crate::rational::ratio_mul_integer;
use crate::rational::ratio_new;
use crate::rational::round_ties_down;
use crate::rational::round_ties_up;
use crate::rational::spec_round_ties_down;
use crate::rational::spec_round_ties_up;
use crate::rational::Slope;
use vstd::prelude::*;

verus! {

/// A property of tiles that can be asked of any point of the grid, such as
/// whether the tile there blocks sight or movement.
///
/// An implementation answers `test` as `holds` says. Where one is written
/// outside verified code, what is proved of a scan or a search holds only
/// as far as it does so.
pub trait TilePredicate {
    /// Whether the property holds of the tile at `p`.
    spec fn holds(&self, p: Point) -> bool;

    /// Whether the property holds of the tile at `p`.
    fn test(&self, p: &Point) -> (b: bool)
        ensures
            b == self.holds(*p),
    ;
}

/// The greatest distance to which a scan may go: slopes of rows up to this
/// distance can be scaled and rounded in 32 bits.
pub const MAX_SIGHT: i32 = 16384;

/// One of the four directions in which the view is scanned.
#[derive(Clone, Copy, PartialEq, Eq, Debug, Structural)]
pub enum Quadrant {
    North,
    South,
    East,
    West,
}

/// Tile coordinates relative to a [`Quadrant`].
#[derive(Clone, Copy, Debug)]
pub struct QuadrantPoint {
    /// Distance from the quadrant origin.
    pub distance: i32,
    /// Offset within a [`QuadrantRow`].
    pub column: i32,
}

/// A section of a row in a [`Quadrant`].
#[derive(Clone, Copy, Debug)]
pub struct QuadrantRow {
    /// Distance from the quadrant origin.
    pub distance: i32,
    pub start_slope: Slope,
    pub end_slope: Slope,
}

/// A slope as the ratio of two integers, the second positive.
pub struct Ratio {
    pub num: int,
    pub den: int,
}

/// A section of a row as the scan is defined on it: its distance from the
/// origin and the two slopes between which it lies.
pub struct RowSection {
    pub distance: int,
    pub start: Ratio,
    pub end: Ratio,
}

/// The greater of the distances along x and along y between `a` and `b`.
pub open spec fn chebyshev(a: Point, b: Point) -> int {
    let dx = abs(a.x - b.x);
    let dy = abs(a.y - b.y);
    if dx >= dy {
        dx
    } else {
        dy
    }
}

/// The first column of a row at the distance `k` that starts at the slope
/// `start`: the product of the two, a tie rounded up.
pub open spec fn min_column(start: Ratio, k: int) -> int {
    spec_round_ties_up(start.num * k, start.den)
}

/// The last column of a row at the distance `k` that ends at the slope
/// `end`: the product of the two, a tie rounded down.
pub open spec fn max_column(end: Ratio, k: int) -> int {
    spec_round_ties_down(end.num * k, end.den)
}

/// Whether the centre of the tile in the column `column` of a row at the
/// distance `k` lies between the slopes `start` and `end`, ends included.
pub open spec fn center_within(start: Ratio, end: Ratio, k: int, column: int) -> bool {
    start.num * k <= column * start.den && column * end.den <= end.num * k
}

/// The slope from the origin to the edge, on the side of the row's start,
/// of a diamond inscribed in the tile in the column `column` of a row at the
/// distance `k`.
pub open spec fn tangent(k: int, column: int) -> Ratio {
    Ratio { num: 2 * column - 1, den: 2 * k }
}

/// Whether `s` lies between -1 and 1.
pub open spec fn diagonal_bound(s: Ratio) -> bool {
    s.den > 0 && -s.den <= s.num <= s.den
}

impl Quadrant {
    /// The tile at the distance `distance` and the column `column` of this
    /// quadrant around `origin`.
    pub open spec fn spec_transform(self, origin: Point, distance: int, column: int) -> Point {
        match self {
            Quadrant::North => Point {
                x: (origin.x - column) as i32,
                y: (origin.y - distance) as i32,
            },
            Quadrant::South => Point {
                x: (origin.x + column) as i32,
                y: (origin.y + distance) as i32,
            },
            Quadrant::East => Point {
                x: (origin.x + distance) as i32,
                y: (origin.y - column) as i32,
            },
            Quadrant::West => Point {
                x: (origin.x - distance) as i32,
                y: (origin.y + column) as i32,
            },
        }
    }

    /// Transforms `coords` relative to this quadrant and the given `origin`
    /// to tile coordinates relative to the entire level.
    pub fn transform(&self, origin: Point, coords: QuadrantPoint) -> (p: Point)
        requires
            0 <= coords.distance,
            -coords.distance <= coords.column <= coords.distance,
            i32::MIN <= origin.x - coords.distance,
            origin.x + coords.distance <= i32::MAX,
            i32::MIN <= origin.y - coords.distance,
            origin.y + coords.distance <= i32::MAX,
        ensures
            p == self.spec_transform(origin, coords.distance as int, coords.column as int),
            chebyshev(origin, p) == coords.distance,
    {
        match self {
            Quadrant::North => Point::new(origin.x - coords.column, origin.y - coords.distance),
            Quadrant::South => Point::new(origin.x + coords.column, origin.y + coords.distance),
            Quadrant::East => Point::new(origin.x + coords.distance, origin.y - coords.column),
            Quadrant::West => Point::new(origin.x - coords.distance, origin.y + coords.column),
        }
    }
}

/// Whether `slope` is the ratio `value`, with parts small enough to be
/// scaled by a distance and rounded.
pub open spec fn slope_matches(slope: Slope, value: Ratio) -> bool {
    &&& slope.wf()
    &&& value.den > 0
    &&& slope.is(value.num, value.den)
    &&& abs(slope.numer as int) <= 2 * MAX_SIGHT + 1
    &&& slope.denom <= 2 * MAX_SIGHT
}

impl QuadrantPoint {
    /// The slope from the origin of the quadrant to the "far" tangent line
    /// of a diamond-shaped wall at `self`.
    pub fn wall_tangent_slope(&self) -> (s: Slope)
        requires
            1 <= self.distance <= MAX_SIGHT,
            -self.distance <= self.column <= self.distance,
        ensures
            slope_matches(s, tangent(self.distance as int, self.column as int)),
    {
        ratio_new(2 * self.column - 1, 2 * self.distance)
    }
}

impl QuadrantRow {
    /// Whether the center of the tile at `coords` is within `self`.
    pub fn contains_center(&self, coords: QuadrantPoint) -> (b: bool)
        requires
            1 <= self.distance <= MAX_SIGHT,
            -self.distance <= coords.column <= self.distance,
            self.start_slope.wf(),
            self.end_slope.wf(),
            abs(self.start_slope.numer as int) <= 2 * MAX_SIGHT + 1,
            abs(self.end_slope.numer as int) <= 2 * MAX_SIGHT + 1,
        ensures
            b == center_within(
                Ratio { num: self.start_slope.numer as int, den: self.start_slope.denom as int },
                Ratio { num: self.end_slope.numer as int, den: self.end_slope.denom as int },
                self.distance as int,
                coords.column as int,
            ),
    {
        proof {
            lemma_scaled_fits(self.start_slope.numer as int, self.distance as int);
            lemma_scaled_fits(self.end_slope.numer as int, self.distance as int);
        }
        let low = ratio_mul_integer(self.start_slope, self.distance);
        let high = ratio_mul_integer(self.end_slope, self.distance);
        let column = ratio_from_integer(coords.column);
        proof {
            lemma_compare_scaled(
                low.numer as int,
                low.denom as int,
                self.start_slope.numer as int,
                self.start_slope.denom as int,
                self.distance as int,
                coords.column as int,
            );
            lemma_compare_scaled(
                high.numer as int,
                high.denom as int,
                self.end_slope.numer as int,
                self.end_slope.denom as int,
                self.distance as int,
                coords.column as int,
            );
        }
        ratio_le(low, column) && ratio_le(column, high)
    }

    /// The first and the last column of the row section.
    pub fn columns(&self) -> (r: (i32, i32))
        requires
            1 <= self.distance <= MAX_SIGHT,
            self.start_slope.wf(),
            self.end_slope.wf(),
            abs(self.start_slope.numer as int) <= 2 * MAX_SIGHT + 1,
            abs(self.end_slope.numer as int) <= 2 * MAX_SIGHT + 1,
            self.start_slope.denom <= 2 * MAX_SIGHT,
            self.end_slope.denom <= 2 * MAX_SIGHT,
        ensures
            r.0 == min_column(
                Ratio { num: self.start_slope.numer as int, den: self.start_slope.denom as int },
                self.distance as int,
            ),
            r.1 == max_column(
                Ratio { num: self.end_slope.numer as int, den: self.end_slope.denom as int },
                self.distance as int,
            ),
    {
        proof {
            lemma_scaled_fits(self.start_slope.numer as int, self.distance as int);
            lemma_scaled_fits(self.end_slope.numer as int, self.distance as int);
        }
        let low = ratio_mul_integer(self.start_slope, self.distance);
        let high = ratio_mul_integer(self.end_slope, self.distance);
        proof {
            lemma_round_up_same(
                low.numer as int,
                low.denom as int,
                self.start_slope.numer * self.distance,
                self.start_slope.denom as int,
            );
            lemma_round_down_same(
                high.numer as int,
                high.denom as int,
                self.end_slope.numer * self.distance,
                self.end_slope.denom as int,
            );
        }
        (round_ties_up(low), round_ties_down(high))
    }
}

/// A numerator within the bound of slopes, scaled by a distance within
/// sight, fits in 32 bits with room to be rounded.
pub proof fn lemma_scaled_fits(n: int, k: int)
    requires
        abs(n) <= 2 * MAX_SIGHT + 1,
        1 <= k <= MAX_SIGHT,
    ensures
        abs(n * k) <= (2 * MAX_SIGHT + 1) * MAX_SIGHT,
        -i32::MAX <= n * k <= i32::MAX,
{
    assert(abs(n * k) <= (2 * MAX_SIGHT + 1) * MAX_SIGHT) by (nonlinear_arith)
        requires
            abs(n) <= 2 * MAX_SIGHT + 1,
            1 <= k <= MAX_SIGHT,
    ;
}

/// Equal ratios round alike, a tie rounded up.
pub proof fn lemma_round_up_same(a: int, b: int, c: int, d: int)
    requires
        b > 0,
        d > 0,
        a * d == c * b,
    ensures
        spec_round_ties_up(a, b) == spec_round_ties_up(c, d),
{
    assert((2 * a + b) * (2 * d) == (2 * c + d) * (2 * b)) by (nonlinear_arith)
        requires
            a * d == c * b,
    ;
    lemma_floor_of_equal(2 * a + b, 2 * b, 2 * c + d, 2 * d);
}

/// Equal ratios round alike, a tie rounded down.
pub proof fn lemma_round_down_same(a: int, b: int, c: int, d: int)
    requires
        b > 0,
        d > 0,
        a * d == c * b,
    ensures
        spec_round_ties_down(a, b) == spec_round_ties_down(c, d),
{
    assert((-(2 * a - b)) * (2 * d) == (-(2 * c - d)) * (2 * b)) by (nonlinear_arith)
        requires
            a * d == c * b,
    ;
    lemma_floor_of_equal(-(2 * a - b), 2 * b, -(2 * c - d), 2 * d);
}

/// A slope scaled by a distance compares with a column as the slope itself
/// does with the column over the distance.
pub proof fn lemma_compare_scaled(sn: int, sd: int, n: int, d: int, k: int, column: int)
    requires
        sd > 0,
        d > 0,
        sn * d == n * k * sd,
    ensures
        sn * 1 <= column * sd <==> n * k <= column * d,
        column * sd <= sn * 1 <==> column * d <= n * k,
{
    assert((sn - column * sd) * d == (n * k - column * d) * sd) by (nonlinear_arith)
        requires
            sn * d == n * k * sd,
    ;
    assert(sn <= column * sd <==> n * k <= column * d) by (nonlinear_arith)
        requires
            (sn - column * sd) * d == (n * k - column * d) * sd,
            sd > 0,
            d > 0,
    ;
    assert(column * sd <= sn <==> column * d <= n * k) by (nonlinear_arith)
        requires
            (sn - column * sd) * d == (n * k - column * d) * sd,
            sd > 0,
            d > 0,
    ;
}

/// A row between the diagonals spans no more columns than it is far.
pub proof fn lemma_columns_bounded(start: Ratio, end: Ratio, k: int)
    requires
        diagonal_bound(start),
        diagonal_bound(end),
        k >= 1,
    ensures
        -k <= min_column(start, k),
        max_column(end, k) <= k,
{
    let a = 2 * (start.num * k) + start.den;
    let b = 2 * start.den;
    assert(a >= (-k) * b) by (nonlinear_arith)
        requires
            a == 2 * (start.num * k) + start.den,
            b == 2 * start.den,
            start.den > 0,
            -start.den <= start.num,
            k >= 1,
    ;
    assert((-k) * b / b == -k) by {
        vstd::arithmetic::div_mod::lemma_div_multiples_vanish(-k, b);
    }
    vstd::arithmetic::div_mod::lemma_div_is_ordered((-k) * b, a, b);
    let c = -(2 * (end.num * k) - end.den);
    let d = 2 * end.den;
    assert(c >= (-k) * d) by (nonlinear_arith)
        requires
            c == -(2 * (end.num * k) - end.den),
            d == 2 * end.den,
            end.den > 0,
            end.num <= end.den,
            k >= 1,
    ;
    assert((-k) * d / d == -k) by {
        vstd::arithmetic::div_mod::lemma_div_multiples_vanish(-k, d);
    }
    vstd::arithmetic::div_mod::lemma_div_is_ordered((-k) * d, c, d);
}

/// The tiles seen in a row section and in the sections behind it, as far as
/// the distance `limit`.
pub open spec fn scan_row<B: TilePredicate>(
    blocking: &B,
    origin: Point,
    quadrant: Quadrant,
    row: RowSection,
    limit: int,
) -> Set<Point>
    decreases limit + 1 - row.distance, 1int, 0int,
{
    if row.distance > limit || row.distance < 1 {
        Set::empty()
    } else {
        scan_columns(
            blocking,
            origin,
            quadrant,
            row,
            min_column(row.start, row.distance),
            max_column(row.end, row.distance),
            None,
            limit,
        )
    }
}

/// The tiles seen in a row section from the column `column` to the column
/// `last`, and in the sections behind them. `previous` says whether the
/// tile before `column` blocks sight, if there is one; `row` starts at the
/// slope to which the last blocking tiles before `column` have moved its
/// start.
///
/// A tile is seen if it blocks sight, or if its centre lies between the
/// slopes of the row. Where a blocking tile follows one that does not block,
/// the scan goes on behind the tiles before it, in a section of the next row
/// that ends at the tangent of the blocking tile. Where a tile that does not
/// block follows a blocking one, the row starts anew at its tangent. Where
/// the row ends on a tile that does not block, the scan goes on in the next
/// row between the same slopes.
pub open spec fn scan_columns<B: TilePredicate>(
    blocking: &B,
    origin: Point,
    quadrant: Quadrant,
    row: RowSection,
    column: int,
    last: int,
    previous: Option<bool>,
    limit: int,
) -> Set<Point>
    decreases limit + 1 - row.distance, 0int, last - column + 1,
{
    if row.distance > limit || row.distance < 1 {
        Set::empty()
    } else if column > last {
        if previous == Some(false) {
            scan_row(
                blocking,
                origin,
                quadrant,
                RowSection { distance: row.distance + 1, start: row.start, end: row.end },
                limit,
            )
        } else {
            Set::empty()
        }
    } else {
        let p = quadrant.spec_transform(origin, row.distance, column);
        let wall = blocking.holds(p);
        let seen = if wall || center_within(row.start, row.end, row.distance, column) {
            set![p]
        } else {
            Set::empty()
        };
        let behind = if previous == Some(false) && wall {
            scan_row(
                blocking,
                origin,
                quadrant,
                RowSection {
                    distance: row.distance + 1,
                    start: row.start,
                    end: tangent(row.distance, column),
                },
                limit,
            )
        } else {
            Set::empty()
        };
        let rest = if previous == Some(true) && !wall {
            RowSection {
                distance: row.distance,
                start: tangent(row.distance, column),
                end: row.end,
            }
        } else {
            row
        };
        seen.union(behind).union(
            scan_columns(blocking, origin, quadrant, rest, column + 1, last, Some(wall), limit),
        )
    }
}

/// The whole first row of a quadrant, from one diagonal to the other.
pub open spec fn first_row() -> RowSection {
    RowSection { distance: 1, start: Ratio { num: -1, den: 1 }, end: Ratio { num: 1, den: 1 } }
}

/// The tiles seen from `origin` in one quadrant, as far as `limit`.
pub open spec fn visible_in<B: TilePredicate>(
    blocking: &B,
    origin: Point,
    quadrant: Quadrant,
    limit: int,
) -> Set<Point> {
    scan_row(blocking, origin, quadrant, first_row(), limit)
}

/// The tiles seen from `origin`, as far as `limit`: the origin itself, and
/// what is seen in each of the four quadrants.
pub open spec fn visible_within<B: TilePredicate>(blocking: &B, origin: Point, limit: int) -> Set<
    Point,
> {
    set![origin].union(visible_in(blocking, origin, Quadrant::North, limit)).union(
        visible_in(blocking, origin, Quadrant::South, limit),
    ).union(visible_in(blocking, origin, Quadrant::East, limit)).union(
        visible_in(blocking, origin, Quadrant::West, limit),
    )
}

/// Whether sight from `origin` ends at the distance `limit` at the latest:
/// every tile at that distance blocks it. The distance is within
/// [`MAX_SIGHT`], and the tiles up to it are within the range of
/// coordinates.
pub open spec fn sight_ends<B: TilePredicate>(blocking: &B, origin: Point, limit: int) -> bool {
    &&& 1 <= limit <= MAX_SIGHT
    &&& i32::MIN <= origin.x - limit
    &&& origin.x + limit <= i32::MAX
    &&& i32::MIN <= origin.y - limit
    &&& origin.y + limit <= i32::MAX
    &&& forall|p: Point| chebyshev(origin, p) == limit ==> #[trigger] blocking.holds(p)
}

/// A distance at which sight from `origin` ends, if there is one.
pub open spec fn sight_limit<B: TilePredicate>(blocking: &B, origin: Point) -> int {
    choose|limit: int| sight_ends(blocking, origin, limit)
}

/// The tiles seen from `origin`.
pub open spec fn visible<B: TilePredicate>(blocking: &B, origin: Point) -> Set<Point> {
    visible_within(blocking, origin, sight_limit(blocking, origin))
}

/// Whether `row` is the section `section` of a scan as far as `limit`, with
/// slopes that can be scaled and rounded.
pub open spec fn row_matches(row: QuadrantRow, section: RowSection, limit: int) -> bool {
    &&& row.distance == section.distance
    &&& 1 <= section.distance <= limit
    &&& limit <= MAX_SIGHT
    &&& slope_matches(row.start_slope, section.start)
    &&& slope_matches(row.end_slope, section.end)
    &&& diagonal_bound(section.start)
    &&& diagonal_bound(section.end)
}

/// Whether the rows of `queue` are the sections `sections`, one by one.
pub open spec fn queue_matches(
    queue: Seq<QuadrantRow>,
    sections: Seq<RowSection>,
    limit: int,
) -> bool {
    &&& queue.len() == sections.len()
    &&& forall|i: int|
        0 <= i < queue.len() ==> row_matches(#[trigger] queue[i], sections[i], limit)
}

/// The tiles that are seen in the sections `sections` and behind them.
pub open spec fn pending<B: TilePredicate>(
    blocking: &B,
    origin: Point,
    quadrant: Quadrant,
    sections: Seq<RowSection>,
    limit: int,
) -> Set<Point>
    decreases sections.len(),
{
    if sections.len() == 0 {
        Set::empty()
    } else {
        pending(blocking, origin, quadrant, sections.drop_last(), limit).union(
            scan_row(blocking, origin, quadrant, sections.last(), limit),
        )
    }
}

/// `base` to the power of `exp`.
pub open spec fn power(base: nat, exp: nat) -> nat
    decreases exp,
{
    if exp == 0 {
        1
    } else {
        base * power(base, (exp - 1) as nat)
    }
}

/// A bound on the sections that can come to be scanned for a section at the
/// distance `distance`, itself included: more than all that one section of
/// the row before can bring about.
pub open spec fn row_weight(distance: int, limit: int) -> nat {
    power((2 * limit + 3) as nat, (limit + 1 - distance) as nat)
}

/// The sum of the weights of `sections`.
pub open spec fn weight(sections: Seq<RowSection>, limit: int) -> nat
    decreases sections.len(),
{
    if sections.len() == 0 {
        0
    } else {
        weight(sections.drop_last(), limit) + row_weight(sections.last().distance, limit)
    }
}

proof fn lemma_power_positive(base: nat, exp: nat)
    requires
        base > 0,
    ensures
        power(base, exp) > 0,
    decreases exp,
{
    if exp > 0 {
        lemma_power_positive(base, (exp - 1) as nat);
        assert(base * power(base, (exp - 1) as nat) > 0) by (nonlinear_arith)
            requires
                base > 0,
                power(base, (exp - 1) as nat) > 0,
        ;
    }
}

/// Fewer sections of the next row than a row has columns, and one more,
/// weigh less than a section of the row.
proof fn lemma_children_weigh_less(distance: int, limit: int, children: int)
    requires
        1 <= distance <= limit,
        0 <= children <= 2 * distance + 2,
    ensures
        children * row_weight(distance + 1, limit) < row_weight(distance, limit),
{
    let base = (2 * limit + 3) as nat;
    let below = row_weight(distance + 1, limit);
    lemma_power_positive(base, (limit - distance) as nat);
    assert(row_weight(distance, limit) == base * below);
    assert(children * below < base * below) by (nonlinear_arith)
        requires
            0 <= children < base,
            below > 0,
    ;
}

proof fn lemma_push_section<B: TilePredicate>(
    blocking: &B,
    origin: Point,
    quadrant: Quadrant,
    sections: Seq<RowSection>,
    section: RowSection,
    limit: int,
)
    ensures
        pending(blocking, origin, quadrant, sections.push(section), limit) == pending(
            blocking,
            origin,
            quadrant,
            sections,
            limit,
        ).union(scan_row(blocking, origin, quadrant, section, limit)),
        weight(sections.push(section), limit) == weight(sections, limit) + row_weight(
            section.distance,
            limit,
        ),
{
    assert(sections.push(section).drop_last() =~= sections);
}

/// Exact slopes that are one ratio put a tile's centre on the same side.
proof fn lemma_center_same(a: int, b: int, c: int, d: int, k: int, column: int)
    requires
        b > 0,
        d > 0,
        a * d == c * b,
    ensures
        a * k <= column * b <==> c * k <= column * d,
        column * b <= a * k <==> column * d <= c * k,
{
    assert((a * k - column * b) * d == (c * k - column * d) * b) by (nonlinear_arith)
        requires
            a * d == c * b,
    ;
    assert(a * k <= column * b <==> c * k <= column * d) by (nonlinear_arith)
        requires
            (a * k - column * b) * d == (c * k - column * d) * b,
            b > 0,
            d > 0,
    ;
    assert(column * b <= a * k <==> column * d <= c * k) by (nonlinear_arith)
        requires
            (a * k - column * b) * d == (c * k - column * d) * b,
            b > 0,
            d > 0,
    ;
}

/// What a row computes from its slopes is what the scan is defined to see
/// between the ratios that they are.
proof fn lemma_row_matches(row: QuadrantRow, section: RowSection, limit: int, column: int)
    requires
        row_matches(row, section, limit),
    ensures
        min_column(
            Ratio { num: row.start_slope.numer as int, den: row.start_slope.denom as int },
            row.distance as int,
        ) == min_column(section.start, section.distance),
        max_column(
            Ratio { num: row.end_slope.numer as int, den: row.end_slope.denom as int },
            row.distance as int,
        ) == max_column(section.end, section.distance),
        center_within(
            Ratio { num: row.start_slope.numer as int, den: row.start_slope.denom as int },
            Ratio { num: row.end_slope.numer as int, den: row.end_slope.denom as int },
            row.distance as int,
            column,
        ) == center_within(section.start, section.end, section.distance, column),
        -section.distance <= min_column(section.start, section.distance),
        max_column(section.end, section.distance) <= section.distance,
{
    let k = section.distance;
    let sn = row.start_slope.numer as int;
    let sd = row.start_slope.denom as int;
    let en = row.end_slope.numer as int;
    let ed = row.end_slope.denom as int;
    assert((sn * k) * section.start.den == (section.start.num * k) * sd) by (nonlinear_arith)
        requires
            sn * section.start.den == section.start.num * sd,
    ;
    assert((en * k) * section.end.den == (section.end.num * k) * ed) by (nonlinear_arith)
        requires
            en * section.end.den == section.end.num * ed,
    ;
    lemma_round_up_same(sn * k, sd, section.start.num * k, section.start.den);
    lemma_round_down_same(en * k, ed, section.end.num * k, section.end.den);
    lemma_center_same(sn, sd, section.start.num, section.start.den, k, column);
    lemma_center_same(en, ed, section.end.num, section.end.den, k, column);
    lemma_columns_bounded(section.start, section.end, k);
}

/// Scans one row section: marks the tiles that are seen in it, and puts the
/// sections of the next row that lie behind it on the queue.
fn scan_row_section<B: TilePredicate>(
    origin: Point,
    quadrant: Quadrant,
    blocking: &B,
    row: QuadrantRow,
    vision: &mut PointSet,
    queue: &mut Vec<QuadrantRow>,
    Ghost(first): Ghost<RowSection>,
    Ghost(waiting): Ghost<Seq<RowSection>>,
    Ghost(limit): Ghost<int>,
) -> (r: Ghost<Seq<RowSection>>)
    requires
        sight_ends(blocking, origin, limit),
        row_matches(row, first, limit),
        queue_matches(old(queue)@, waiting, limit),
    ensures
        queue_matches(final(queue)@, r@, limit),
        final(vision)@.union(pending(blocking, origin, quadrant, r@, limit)) == old(
            vision,
        )@.union(pending(blocking, origin, quadrant, waiting, limit)).union(
            scan_row(blocking, origin, quadrant, first, limit),
        ),
        weight(r@, limit) < weight(waiting, limit) + row_weight(first.distance, limit),
{
    let ghost goal = vision@.union(pending(blocking, origin, quadrant, waiting, limit)).union(
        scan_row(blocking, origin, quadrant, first, limit),
    );
    let ghost mut section = first;
    let ghost mut sections = waiting;
    let mut row = row;
    let mut previous: Option<bool> = None;
    // A tile is considered to be in a row if the sector swept out by the
    // row's start and end slopes overlaps with a diamond inscribed in the
    // tile.
    let (first_column, last_column) = row.columns();
    proof {
        lemma_row_matches(row, first, limit, 0);
    }
    let mut column = first_column;
    while column <= last_column
        invariant
            sight_ends(blocking, origin, limit),
            row_matches(row, section, limit),
            section.distance == first.distance,
            section.end == first.end,
            queue_matches(queue@, sections, limit),
            -first.distance <= first_column,
            last_column <= first.distance,
            last_column == max_column(first.end, first.distance),
            first_column <= column,
            column <= last_column + 1 || column == first_column,
            previous is None <==> column == first_column,
            previous == Some(false) ==> first.distance < limit,
            vision@.union(pending(blocking, origin, quadrant, sections, limit)).union(
                scan_columns(
                    blocking,
                    origin,
                    quadrant,
                    section,
                    column as int,
                    last_column as int,
                    previous,
                    limit,
                ),
            ) == goal,
            0 <= sections.len() - waiting.len() <= column - first_column,
            weight(sections, limit) == weight(waiting, limit) + (sections.len() - waiting.len())
                * row_weight(first.distance + 1, limit),
        decreases last_column - column + 1,
    {
        let coords = QuadrantPoint { distance: row.distance, column };
        let p = quadrant.transform(origin, coords);
        let wall = blocking.test(&p);
        let ghost old_vision = vision@;
        let ghost old_sections = sections;
        let ghost old_section = section;
        proof {
            lemma_row_matches(row, section, limit, column as int);
        }
        // Reveal walls unconditionally and non-walls if they have symmetric
        // vision with the origin. Including walls even if vision is not
        // symmetric provides "expansive walls", where every wall in a convex
        // room is visible when standing in that room.
        if wall || row.contains_center(coords) {
            vision.insert(p);
        }
        // If we hit a wall, split the current row into (at most) two
        // sections: one before and one after the wall.
        if previous == Some(false) && wall {
            // Iterate on the row section up to the wall.
            let child = QuadrantRow {
                distance: row.distance + 1,
                start_slope: row.start_slope,
                end_slope: coords.wall_tangent_slope(),
            };
            queue.push(child);
            proof {
                let behind = RowSection {
                    distance: section.distance + 1,
                    start: section.start,
                    end: tangent(section.distance, column as int),
                };
                lemma_push_section(blocking, origin, quadrant, sections, behind, limit);
                sections = sections.push(behind);
                assert(row_matches(child, behind, limit));
                assert((sections.len() - waiting.len()) * row_weight(first.distance + 1, limit)
                    == (old_sections.len() - waiting.len()) * row_weight(
                    first.distance + 1,
                    limit,
                ) + row_weight(first.distance + 1, limit)) by (nonlinear_arith)
                    requires
                        sections.len() == old_sections.len() + 1,
                ;
            }
        }
        if previous == Some(true) && !wall {
            // This means we've scanned to the other side of a wall. Move
            // the start slope of the current row to just beyond the end of
            // the wall and keep going.
            row.start_slope = coords.wall_tangent_slope();
            proof {
                section = RowSection {
                    distance: section.distance,
                    start: tangent(section.distance, column as int),
                    end: section.end,
                };
            }
        }
        proof {
            if !wall {
                assert(chebyshev(origin, p) == first.distance);
                assert(first.distance != limit);
            }
        }
        previous = Some(wall);
        column = column + 1;
    }
    if previous == Some(false) {
        let child = QuadrantRow {
            distance: row.distance + 1,
            start_slope: row.start_slope,
            end_slope: row.end_slope,
        };
        queue.push(child);
        proof {
            let next = RowSection {
                distance: section.distance + 1,
                start: section.start,
                end: section.end,
            };
            let before = sections;
            lemma_push_section(blocking, origin, quadrant, sections, next, limit);
            sections = sections.push(next);
            assert(row_matches(child, next, limit));
            assert((sections.len() - waiting.len()) * row_weight(first.distance + 1, limit) == (
            before.len() - waiting.len()) * row_weight(first.distance + 1, limit) + row_weight(
                first.distance + 1,
                limit,
            )) by (nonlinear_arith)
                requires
                    sections.len() == before.len() + 1,
            ;
        }
    }
    proof {
        let children = sections.len() - waiting.len();
        lemma_children_weigh_less(first.distance, limit, children);
    }
    Ghost(sections)
}

/// Scans one quadrant: iteratively, by row sections, starting with the
/// entire arc of the first row.
fn scan_quadrant<B: TilePredicate>(
    origin: Point,
    quadrant: Quadrant,
    blocking: &B,
    vision: &mut PointSet,
    Ghost(limit): Ghost<int>,
)
    requires
        sight_ends(blocking, origin, limit),
    ensures
        final(vision)@ == old(vision)@.union(visible_in(blocking, origin, quadrant, limit)),
{
    let mut queue: Vec<QuadrantRow> = Vec::new();
    queue.push(
        QuadrantRow {
            distance: 1,
            start_slope: ratio_from_integer(-1),
            end_slope: ratio_from_integer(1),
        },
    );
    let ghost mut sections = seq![first_row()];
    let ghost goal = vision@.union(visible_in(blocking, origin, quadrant, limit));
    proof {
        lemma_push_section(blocking, origin, quadrant, Seq::empty(), first_row(), limit);
        assert(Seq::<RowSection>::empty().push(first_row()) =~= sections);
        assert(vision@.union(pending(blocking, origin, quadrant, sections, limit)) =~= goal);
    }
    while queue.len() > 0
        invariant
            sight_ends(blocking, origin, limit),
            queue_matches(queue@, sections, limit),
            vision@.union(pending(blocking, origin, quadrant, sections, limit)) == goal,
        decreases weight(sections, limit),
    {
        let ghost section = sections.last();
        let ghost waiting = sections.drop_last();
        let row = queue.pop().unwrap();
        proof {
            assert(row_matches(row, section, limit));
            assert(queue_matches(queue@, waiting, limit));
        }
        let ghost old_vision = vision@;
        let scanned = scan_row_section(
            origin,
            quadrant,
            blocking,
            row,
            vision,
            &mut queue,
            Ghost(section),
            Ghost(waiting),
            Ghost(limit),
        );
        proof {
            assert(old_vision.union(pending(blocking, origin, quadrant, sections, limit))
                =~= old_vision.union(pending(blocking, origin, quadrant, waiting, limit)).union(
                scan_row(blocking, origin, quadrant, section, limit),
            ));
            sections = scanned@;
        }
    }
    proof {
        assert(vision@ =~= goal);
    }
}

/// Computes the set of tile coordinates visible from the given `origin`,
/// blocked by any tiles of which `is_blocking` holds.
///
/// Sight has to end somewhere: at some distance within [`MAX_SIGHT`] every
/// tile blocks it. The origin is always seen.
pub fn get_vision<B: TilePredicate>(origin: Point, is_blocking: &B) -> (vision: PointSet)
    requires
        exists|limit: int| sight_ends(is_blocking, origin, limit),
    ensures
        vision@ == visible(is_blocking, origin),
        vision@.contains(origin),
        forall|limit: int|
            sight_ends(is_blocking, origin, limit) ==> vision@ == #[trigger] visible_within(
                is_blocking,
                origin,
                limit,
            ),
        forall|limit: int, p: Point|
            #![trigger sight_ends(is_blocking, origin, limit), vision@.contains(p)]
            sight_ends(is_blocking, origin, limit) && vision@.contains(p) ==> chebyshev(origin, p)
                <= limit,
{
    let ghost limit = sight_limit(is_blocking, origin);
    let mut vision = PointSet::new();
    vision.insert(origin);
    scan_quadrant(origin, Quadrant::North, is_blocking, &mut vision, Ghost(limit));
    scan_quadrant(origin, Quadrant::South, is_blocking, &mut vision, Ghost(limit));
    scan_quadrant(origin, Quadrant::East, is_blocking, &mut vision, Ghost(limit));
    scan_quadrant(origin, Quadrant::West, is_blocking, &mut vision, Ghost(limit));
    proof {
        assert(vision@ =~= visible(is_blocking, origin));
        assert forall|other: int| sight_ends(is_blocking, origin, other) implies vision@
            == #[trigger] visible_within(is_blocking, origin, other) by {
            lemma_visible_any_limit(is_blocking, origin, limit, other);
        }
        assert forall|other: int, p: Point|
            #![trigger sight_ends(is_blocking, origin, other), vision@.contains(p)]
            sight_ends(is_blocking, origin, other) && vision@.contains(p) implies chebyshev(
            origin,
            p,
        ) <= other by {
            lemma_visible_any_limit(is_blocking, origin, limit, other);
            lemma_visible_bounded(is_blocking, origin, other, p);
        }
    }
    vision
}

/// Whether a scan of `row` in steps from the column `column`, after a tile
/// of which `previous` says whether it blocks sight, is one that can come
/// about in a scan as far as `limit`.
pub open spec fn scannable(row: RowSection, column: int, last: int, previous: Option<bool>) -> bool {
    &&& 1 <= row.distance
    &&& diagonal_bound(row.start)
    &&& diagonal_bound(row.end)
    &&& -row.distance <= column
    &&& last <= row.distance
    &&& previous is Some ==> -row.distance < column
}

/// The tile of a quadrant at a distance within reach and in a column
/// between the diagonals is as far from the origin as its row.
proof fn lemma_transform_distance(quadrant: Quadrant, origin: Point, k: int, column: int, reach: int)
    requires
        0 <= k <= reach,
        -k <= column <= k,
        i32::MIN <= origin.x - reach,
        origin.x + reach <= i32::MAX,
        i32::MIN <= origin.y - reach,
        origin.y + reach <= i32::MAX,
    ensures
        chebyshev(origin, quadrant.spec_transform(origin, k, column)) == k,
{
}

/// A section of a row, scanned as far as the nearer of two distances at
/// which sight ends, shows what it shows scanned as far as the farther one;
/// and nothing of it lies farther than the nearer one.
proof fn lemma_scan_row_any_limit<B: TilePredicate>(
    blocking: &B,
    origin: Point,
    quadrant: Quadrant,
    row: RowSection,
    near: int,
    far: int,
)
    requires
        sight_ends(blocking, origin, near),
        sight_ends(blocking, origin, far),
        near <= far,
        diagonal_bound(row.start),
        diagonal_bound(row.end),
        1 <= row.distance <= near,
    ensures
        scan_row(blocking, origin, quadrant, row, near) == scan_row(
            blocking,
            origin,
            quadrant,
            row,
            far,
        ),
        forall|p: Point|
            scan_row(blocking, origin, quadrant, row, near).contains(p) ==> chebyshev(origin, p)
                <= near,
    decreases near + 1 - row.distance, 1int, 0int,
{
    lemma_columns_bounded(row.start, row.end, row.distance);
    lemma_scan_columns_any_limit(
        blocking,
        origin,
        quadrant,
        row,
        min_column(row.start, row.distance),
        max_column(row.end, row.distance),
        None,
        near,
        far,
    );
}

proof fn lemma_scan_columns_any_limit<B: TilePredicate>(
    blocking: &B,
    origin: Point,
    quadrant: Quadrant,
    row: RowSection,
    column: int,
    last: int,
    previous: Option<bool>,
    near: int,
    far: int,
)
    requires
        sight_ends(blocking, origin, near),
        sight_ends(blocking, origin, far),
        near <= far,
        scannable(row, column, last, previous),
        row.distance <= near,
        previous == Some(false) ==> row.distance < near,
    ensures
        scan_columns(blocking, origin, quadrant, row, column, last, previous, near)
            == scan_columns(blocking, origin, quadrant, row, column, last, previous, far),
        forall|p: Point|
            scan_columns(blocking, origin, quadrant, row, column, last, previous, near).contains(
                p,
            ) ==> chebyshev(origin, p) <= near,
    decreases near + 1 - row.distance, 0int, last - column + 1,
{
    let k = row.distance;
    if column > last {
        if previous == Some(false) {
            lemma_scan_row_any_limit(
                blocking,
                origin,
                quadrant,
                RowSection { distance: k + 1, start: row.start, end: row.end },
                near,
                far,
            );
        }
    } else {
        let p = quadrant.spec_transform(origin, k, column);
        let wall = blocking.holds(p);
        lemma_transform_distance(quadrant, origin, k, column, far);
        if previous == Some(false) && wall {
            lemma_scan_row_any_limit(
                blocking,
                origin,
                quadrant,
                RowSection { distance: k + 1, start: row.start, end: tangent(k, column) },
                near,
                far,
            );
        }
        let rest = if previous == Some(true) && !wall {
            RowSection { distance: k, start: tangent(k, column), end: row.end }
        } else {
            row
        };
        lemma_scan_columns_any_limit(
            blocking,
            origin,
            quadrant,
            rest,
            column + 1,
            last,
            Some(wall),
            near,
            far,
        );
    }
}

/// What is seen does not depend on which of the distances at which sight
/// ends the scan is limited to.
pub proof fn lemma_visible_any_limit<B: TilePredicate>(
    blocking: &B,
    origin: Point,
    limit: int,
    other: int,
)
    requires
        sight_ends(blocking, origin, limit),
        sight_ends(blocking, origin, other),
    ensures
        visible_within(blocking, origin, limit) == visible_within(blocking, origin, other),
{
    let near = if limit <= other {
        limit
    } else {
        other
    };
    let far = if limit <= other {
        other
    } else {
        limit
    };
    lemma_scan_row_any_limit(blocking, origin, Quadrant::North, first_row(), near, far);
    lemma_scan_row_any_limit(blocking, origin, Quadrant::South, first_row(), near, far);
    lemma_scan_row_any_limit(blocking, origin, Quadrant::East, first_row(), near, far);
    lemma_scan_row_any_limit(blocking, origin, Quadrant::West, first_row(), near, far);
}

/// Nothing is seen beyond a distance at which sight ends.
pub proof fn lemma_visible_bounded<B: TilePredicate>(
    blocking: &B,
    origin: Point,
    limit: int,
    p: Point,
)
    requires
        sight_ends(blocking, origin, limit),
        visible_within(blocking, origin, limit).contains(p),
    ensures
        chebyshev(origin, p) <= limit,
{
    lemma_scan_row_any_limit(blocking, origin, Quadrant::North, first_row(), limit, limit);
    lemma_scan_row_any_limit(blocking, origin, Quadrant::South, first_row(), limit, limit);
    lemma_scan_row_any_limit(blocking, origin, Quadrant::East, first_row(), limit, limit);
    lemma_scan_row_any_limit(blocking, origin, Quadrant::West, first_row(), limit, limit);
}

/// Walls are revealed wherever the scan reaches them: a tile that blocks
/// sight, in a column of a row section that is scanned, is seen, whether or
/// not its centre lies between the slopes of the section.
pub proof fn lemma_walls_revealed<B: TilePredicate>(
    blocking: &B,
    origin: Point,
    quadrant: Quadrant,
    row: RowSection,
    limit: int,
    column: int,
)
    requires
        1 <= row.distance <= limit,
        min_column(row.start, row.distance) <= column <= max_column(row.end, row.distance),
        blocking.holds(quadrant.spec_transform(origin, row.distance, column)),
    ensures
        scan_row(blocking, origin, quadrant, row, limit).contains(
            quadrant.spec_transform(origin, row.distance, column),
        ),
{
    lemma_walls_revealed_from(
        blocking,
        origin,
        quadrant,
        row,
        min_column(row.start, row.distance),
        max_column(row.end, row.distance),
        None,
        limit,
        column,
    );
}

proof fn lemma_walls_revealed_from<B: TilePredicate>(
    blocking: &B,
    origin: Point,
    quadrant: Quadrant,
    row: RowSection,
    from: int,
    last: int,
    previous: Option<bool>,
    limit: int,
    column: int,
)
    requires
        1 <= row.distance <= limit,
        from <= column <= last,
        blocking.holds(quadrant.spec_transform(origin, row.distance, column)),
    ensures
        scan_columns(blocking, origin, quadrant, row, from, last, previous, limit).contains(
            quadrant.spec_transform(origin, row.distance, column),
        ),
    decreases column - from,
{
    if from < column {
        let p = quadrant.spec_transform(origin, row.distance, from);
        let wall = blocking.holds(p);
        let rest = if previous == Some(true) && !wall {
            RowSection {
                distance: row.distance,
                start: tangent(row.distance, from),
                end: row.end,
            }
        } else {
            row
        };
        lemma_walls_revealed_from(
            blocking,
            origin,
            quadrant,
            rest,
            from + 1,
            last,
            Some(wall),
            limit,
            column,
        );
    }
}

} // verus!
