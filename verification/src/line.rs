//! Straight lines on the grid, by Bresenham's algorithm.
use crate::geometry::Point;
use crate::geometry::Vector;
use vstd::prelude::*;

verus! {

/// A walk along the line from `p1`, the next point to hand out, to `p2`.
pub struct LineOfSightIterator {
    p1: Point,
    p2: Point,
    /// The extent of the whole line along x, and minus its extent along y.
    d: (i64, i64),
    /// The direction of travel along each axis.
    sign: Vector,
    /// Twice the signed distance of `p1` from the ideal line, in units that
    /// keep it an integer.
    error: i64,
    has_next: bool,
}

/// The distance between `a` and `b`.
pub open spec fn abs_diff(a: int, b: int) -> int {
    if a >= b {
        a - b
    } else {
        b - a
    }
}

/// The sign of `v`: 1, -1 or 0.
pub open spec fn signum(v: int) -> int {
    if v > 0 {
        1
    } else if v < 0 {
        -1
    } else {
        0
    }
}

/// Whether `p` lies in the smallest rectangle that holds `a` and `b`.
pub open spec fn between(a: Point, b: Point, p: Point) -> bool {
    &&& a.x <= p.x <= b.x || b.x <= p.x <= a.x
    &&& a.y <= p.y <= b.y || b.y <= p.y <= a.y
}

/// Whether `b` is `a` moved by one step of a line that runs in the
/// directions `sx` and `sy`: along x, along y, or along both.
pub open spec fn line_step(a: Point, b: Point, sx: int, sy: int) -> bool {
    let dx = b.x - a.x;
    let dy = b.y - a.y;
    (dx == sx && dy == sy && (sx != 0 || sy != 0)) || (dx == sx && dy == 0 && sx != 0) || (dx == 0
        && dy == sy && sy != 0)
}

impl LineOfSightIterator {
    /// The point that is handed out next.
    pub closed spec fn position(self) -> Point {
        self.p1
    }

    /// The point at which the line ends.
    pub closed spec fn target(self) -> Point {
        self.p2
    }

    /// Whether another point is to come.
    pub closed spec fn more(self) -> bool {
        self.has_next
    }

    /// The steps that remain along x and along y.
    pub closed spec fn rest(self) -> (int, int) {
        (abs_diff(self.p2.x as int, self.p1.x as int), abs_diff(self.p2.y as int, self.p1.y as int))
    }

    /// The state is one that a walk from the start of a line can reach.
    pub closed spec fn inv(self) -> bool {
        let a = self.d.0 as int;
        let b = -(self.d.1 as int);
        let (rx, ry) = self.rest();
        &&& 0 <= a <= 0xffff_ffff
        &&& 0 <= b <= 0xffff_ffff
        &&& 0 <= rx <= a
        &&& 0 <= ry <= b
        &&& self.sign.x == signum(self.p2.x - self.p1.x) || (self.p1.x == self.p2.x && -1
            <= self.sign.x <= 1)
        &&& self.sign.y == signum(self.p2.y - self.p1.y) || (self.p1.y == self.p2.y && -1
            <= self.sign.y <= 1)
        &&& self.error == a - b - a * ry + b * rx
        &&& -2 * b <= self.error <= 2 * a
    }

    /// The state after one call of [`LineOfSightIterator::iterate`].
    pub closed spec fn advanced(self) -> LineOfSightIterator {
        if self.p1 == self.p2 {
            LineOfSightIterator { has_next: false, ..self }
        } else {
            let error2 = 2 * self.error;
            let step_x = error2 >= self.d.1;
            let step_y = error2 <= self.d.0;
            if step_x && self.p1.x == self.p2.x {
                LineOfSightIterator { has_next: false, ..self }
            } else {
                let x = if step_x {
                    (self.p1.x + self.sign.x) as i32
                } else {
                    self.p1.x
                };
                let e = if step_x {
                    (self.error + self.d.1) as i64
                } else {
                    self.error
                };
                if step_y && self.p1.y == self.p2.y {
                    LineOfSightIterator {
                        p1: Point { x, y: self.p1.y },
                        error: e,
                        has_next: false,
                        ..self
                    }
                } else if step_y {
                    LineOfSightIterator {
                        p1: Point { x, y: (self.p1.y + self.sign.y) as i32 },
                        error: (e + self.d.0) as i64,
                        ..self
                    }
                } else {
                    LineOfSightIterator { p1: Point { x, y: self.p1.y }, error: e, ..self }
                }
            }
        }
    }

    /// The points that the walk hands out from this state on.
    pub closed spec fn remaining(self) -> Seq<Point>
        decreases self.rest().0 + self.rest().1 + 1,
    {
        if self.has_next && self.inv() {
            if self.p1 == self.p2 {
                seq![self.p1]
            } else {
                proof {
                    self.lemma_advance();
                }
                seq![self.p1] + self.advanced().remaining()
            }
        } else {
            Seq::empty()
        }
    }

    /// A walk that has not reached its end goes on, by one step towards the
    /// end.
    pub proof fn lemma_advance(self)
        requires
            self.inv(),
            self.more(),
            self.position() != self.target(),
        ensures
            self.advanced().inv(),
            self.advanced().more(),
            self.advanced().target() == self.target(),
            self.advanced().rest().0 + self.advanced().rest().1 < self.rest().0 + self.rest().1,
            line_step(
                self.position(),
                self.advanced().position(),
                signum(self.target().x - self.position().x),
                signum(self.target().y - self.position().y),
            ),
    {
        let a = self.d.0 as int;
        let b = -(self.d.1 as int);
        let (rx, ry) = self.rest();
        let e = self.error as int;
        assert(a * ry <= a * b) by (nonlinear_arith)
            requires
                0 <= a,
                0 <= ry <= b,
        ;
        assert(b * rx <= b * a) by (nonlinear_arith)
            requires
                0 <= b,
                0 <= rx <= a,
        ;
        assert(ry >= 1 ==> a * ry >= a) by (nonlinear_arith)
            requires
                0 <= a,
        ;
        assert(rx >= 1 ==> b * rx >= b) by (nonlinear_arith)
            requires
                0 <= b,
        ;
        assert(a * ry >= 0 && b * rx >= 0) by (nonlinear_arith)
            requires
                0 <= a,
                0 <= b,
                0 <= rx,
                0 <= ry,
        ;
        assert(a * (ry - 1) == a * ry - a) by (nonlinear_arith);
        assert(b * (rx - 1) == b * rx - b) by (nonlinear_arith);
        assert(a * 0 == 0 && b * 0 == 0);
        if rx == 0 {
            assert(b * rx == 0);
        }
        if ry == 0 {
            assert(a * ry == 0);
        }
    }

    /// Moves on by one step, or marks the walk as over: at the end of the
    /// line, or where the next step would leave the span of the line.
    pub fn iterate(&mut self)
        requires
            old(self).inv(),
        ensures
            *final(self) == old(self).advanced(),
    {
        if self.p1.x == self.p2.x && self.p1.y == self.p2.y {
            self.has_next = false;
            return ;
        }
        let error2: i64 = 2 * self.error;
        if error2 >= self.d.1 {
            if self.p1.x == self.p2.x {
                self.has_next = false;
                return ;
            }
            self.error = self.error + self.d.1;
            self.p1.x = self.p1.x + self.sign.x;
        }
        if error2 <= self.d.0 {
            if self.p1.y == self.p2.y {
                self.has_next = false;
                return ;
            }
            self.error = self.error + self.d.0;
            self.p1.y = self.p1.y + self.sign.y;
        }
    }

    /// Hands out the next point of the line, if there is one.
    pub fn next(&mut self) -> (r: Option<Point>)
        requires
            old(self).inv(),
        ensures
            old(self).more() ==> r == Some(old(self).position()) && *final(self) == old(
                self,
            ).advanced(),
            !old(self).more() ==> r.is_none() && *final(self) == *old(self),
    {
        if self.has_next {
            let result = self.p1;
            self.iterate();
            Some(result)
        } else {
            None
        }
    }

    /// The walk along the line from `p1` to `p2`, before its first point.
    pub fn new(p1: Point, p2: Point) -> (it: LineOfSightIterator)
        ensures
            it.inv(),
            it.more(),
            it.position() == p1,
            it.target() == p2,
            it == start_of_line(p1, p2),
    {
        let dx: i64 = p2.x as i64 - p1.x as i64;
        let dy: i64 = p2.y as i64 - p1.y as i64;
        let a: i64 = if dx >= 0 {
            dx
        } else {
            -dx
        };
        let b: i64 = if dy >= 0 {
            dy
        } else {
            -dy
        };
        let sx: i32 = if dx > 0 {
            1
        } else if dx < 0 {
            -1
        } else {
            0
        };
        let sy: i32 = if dy > 0 {
            1
        } else if dy < 0 {
            -1
        } else {
            0
        };
        assert(a * b == b * a) by (nonlinear_arith);
        LineOfSightIterator {
            p1,
            p2,
            d: (a, -b),
            sign: Vector { x: sx, y: sy },
            error: a - b,
            has_next: true,
        }
    }
}

/// The points of the line from `p1` to `p2`, both included.
pub open spec fn line_points(p1: Point, p2: Point) -> Seq<Point> {
    start_of_line(p1, p2).remaining()
}

/// The state in which a walk from `p1` to `p2` starts.
pub closed spec fn start_of_line(p1: Point, p2: Point) -> LineOfSightIterator {
    let a = abs_diff(p2.x as int, p1.x as int);
    let b = abs_diff(p2.y as int, p1.y as int);
    LineOfSightIterator {
        p1,
        p2,
        d: (a as i64, (-b) as i64),
        sign: Vector { x: signum(p2.x - p1.x) as i32, y: signum(p2.y - p1.y) as i32 },
        error: (a - b) as i64,
        has_next: true,
    }
}

/// Whether `line` leads from `p1` to `p2` in steps towards `p2`, each along
/// one axis or along both, without leaving the span between the two.
pub open spec fn is_line(line: Seq<Point>, p1: Point, p2: Point) -> bool {
    &&& line.len() >= 1
    &&& line[0] == p1
    &&& line[line.len() - 1] == p2
    &&& forall|k: int|
        0 <= k < line.len() - 1 ==> line_step(
            #[trigger] line[k],
            line[k + 1],
            signum(p2.x - p1.x),
            signum(p2.y - p1.y),
        )
    &&& forall|k: int| 0 <= k < line.len() ==> between(p1, p2, #[trigger] line[k])
}

/// The points on the segment between `p1` and `p2` inclusive, in the order
/// from `p1` to `p2`.
pub fn line_between(p1: Point, p2: Point) -> (line: Vec<Point>)
    ensures
        line@ == line_points(p1, p2),
        is_line(line@, p1, p2),
{
    let mut it = LineOfSightIterator::new(p1, p2);
    let mut line: Vec<Point> = Vec::new();
    let ghost start = it;
    assert(start == start_of_line(p1, p2));
    loop
        invariant_except_break
            it.inv(),
            it.has_next,
            line@ + it.remaining() == start.remaining(),
            line@.len() > 0 ==> line_step(
                line@[line@.len() - 1],
                it.p1,
                signum(p2.x - p1.x),
                signum(p2.y - p1.y),
            ),
            between(p1, p2, it.p1),
            signum(p2.x - it.p1.x) == signum(p2.x - p1.x) || it.p1.x == p2.x,
            signum(p2.y - it.p1.y) == signum(p2.y - p1.y) || it.p1.y == p2.y,
        invariant
            it.p2 == p2,
            start == start_of_line(p1, p2),
            forall|k: int|
                0 <= k < line@.len() - 1 ==> line_step(
                    #[trigger] line@[k],
                    line@[k + 1],
                    signum(p2.x - p1.x),
                    signum(p2.y - p1.y),
                ),
            forall|k: int| 0 <= k < line@.len() ==> between(p1, p2, #[trigger] line@[k]),
            line@.len() == 0 ==> it.p1 == p1,
            line@.len() > 0 ==> line@[0] == p1,
        ensures
            line@ == start.remaining(),
            line@.len() >= 1,
            line@[line@.len() - 1] == p2,
        decreases it.rest().0 + it.rest().1,
    {
        let ghost before = it;
        let ghost so_far = line@;
        match it.next() {
            Some(p) => {
                line.push(p);
                proof {
                    if before.p1 == before.p2 {
                        assert(before.remaining() =~= seq![p]);
                        assert(line@ =~= so_far + before.remaining());
                    } else {
                        before.lemma_advance();
                        assert(before.remaining() =~= seq![p] + it.remaining());
                        assert(line@ + it.remaining() =~= so_far + before.remaining());
                    }
                }
                if p.x == p2.x && p.y == p2.y {
                    break ;
                }
            },
            None => {
                proof {
                    assert(false);
                }
                break ;
            },
        }
    }
    line
}

} // verus!
