//! Geometry kernel: points, segments and rays, axis-aligned boxes.
//!
//! Coordinates are `i32`; every product is taken in `i128`, so no
//! computation here can overflow and none needs a tolerance.

use vstd::arithmetic::div_mod::{lemma_fundamental_div_mod, lemma_fundamental_div_mod_converse};
use rand::Rng;
use vstd::prelude::*;

verus! {

/// A point of the plane.
#[derive(Clone, Copy, Debug, PartialEq, Eq, Structural)]
pub struct Point {
    pub x: i32,
    pub y: i32,
}

impl Point {
    pub fn new(x: i32, y: i32) -> (r: Point)
        ensures
            r.x == x,
            r.y == y,
    {
        Point { x, y }
    }
}

/// An axis-aligned box: the half-open rectangle
/// `[start.x, start.x + dim.x) x [start.y, start.y + dim.y)`.
#[derive(Clone, Copy, Debug, PartialEq, Eq, Structural)]
pub struct AABox {
    pub start: Point,
    pub dim: Point,
}

/// A box is well formed when it is not empty and its far corner is a point.
pub open spec fn box_wf(b: AABox) -> bool {
    &&& b.dim.x >= 1
    &&& b.dim.y >= 1
    &&& b.start.x + b.dim.x <= i32::MAX
    &&& b.start.y + b.dim.y <= i32::MAX
}

pub open spec fn end_x(b: AABox) -> int {
    b.start.x + b.dim.x
}

pub open spec fn end_y(b: AABox) -> int {
    b.start.y + b.dim.y
}

/// Half-open containment.
pub open spec fn box_contains(b: AABox, p: Point) -> bool {
    &&& b.start.x <= p.x < end_x(b)
    &&& b.start.y <= p.y < end_y(b)
}

/// Two closed intervals `[a0, a1]` and `[b0, b1]` share at least one value.
pub open spec fn ranges_meet(a0: int, a1: int, b0: int, b1: int) -> bool {
    a0 <= b1 && b0 <= a1
}

/// Two boxes touch along one axis while their ranges on the other axis
/// overlap or touch.
pub open spec fn boxes_adjacent(a: AABox, b: AABox) -> bool {
    ||| (end_x(a) == b.start.x || end_x(b) == a.start.x) && ranges_meet(
        a.start.y as int,
        end_y(a),
        b.start.y as int,
        end_y(b),
    )
    ||| (end_y(a) == b.start.y || end_y(b) == a.start.y) && ranges_meet(
        a.start.x as int,
        end_x(a),
        b.start.x as int,
        end_x(b),
    )
}

/// A box can be halved when its longer side (the x side on a tie) is at
/// least two long.
pub open spec fn splittable(b: AABox) -> bool {
    if b.dim.x >= b.dim.y {
        b.dim.x >= 2
    } else {
        b.dim.y >= 2
    }
}

/// The two halves of a split: the first keeps the origin, the second takes
/// the far half of the longer side.
pub open spec fn split_halves(b: AABox) -> (AABox, AABox) {
    if b.dim.x >= b.dim.y {
        let h = b.dim.x / 2;
        (
            AABox { start: b.start, dim: Point { x: h as i32, y: b.dim.y } },
            AABox {
                start: Point { x: (b.start.x + h) as i32, y: b.start.y },
                dim: Point { x: (b.dim.x - h) as i32, y: b.dim.y },
            },
        )
    } else {
        let h = b.dim.y / 2;
        (
            AABox { start: b.start, dim: Point { x: b.dim.x, y: h as i32 } },
            AABox {
                start: Point { x: b.start.x, y: (b.start.y + h) as i32 },
                dim: Point { x: b.dim.x, y: (b.dim.y - h) as i32 },
            },
        )
    }
}

/// The center of a box, rounded down.
pub open spec fn box_center(b: AABox) -> Point {
    Point { x: (b.start.x + b.dim.x / 2) as i32, y: (b.start.y + b.dim.y / 2) as i32 }
}

pub open spec fn area(b: AABox) -> int {
    b.dim.x * b.dim.y
}

/// Splitting partitions a box: every point of it lies in exactly one half,
/// and both halves are well-formed boxes inside it.
pub proof fn lemma_split_partitions(b: AABox, p: Point)
    requires
        box_wf(b),
        splittable(b),
    ensures
        box_wf(split_halves(b).0),
        box_wf(split_halves(b).1),
        box_contains(b, p) <==> (box_contains(split_halves(b).0, p) || box_contains(
            split_halves(b).1,
            p,
        )),
        !(box_contains(split_halves(b).0, p) && box_contains(split_halves(b).1, p)),
{
}

proof fn lemma_product_shrinks(a: int, b: int, c: int)
    requires
        1 <= a < b,
        c >= 1,
    ensures
        a * c < b * c,
{
    assert(a * c < b * c) by (nonlinear_arith)
        requires
            1 <= a < b,
            c >= 1,
    ;
}

/// Splitting a box whose width is at least its height halves the width:
/// an even width `w` gives two boxes of extent `(w / 2, h)`, an odd one
/// `(w / 2, h)` and `(w / 2 + 1, h)` with `/` rounding down. Both halves
/// keep a positive extent, smaller in area than the box.
pub proof fn lemma_split_extent(b: AABox)
    requires
        box_wf(b),
        splittable(b),
        b.dim.x >= b.dim.y,
    ensures
        split_halves(b).0.dim.x == b.dim.x / 2,
        split_halves(b).1.dim.x == b.dim.x - b.dim.x / 2,
        split_halves(b).0.dim.y == b.dim.y,
        split_halves(b).1.dim.y == b.dim.y,
        b.dim.x % 2 == 0 ==> split_halves(b).1.dim.x == b.dim.x / 2,
        split_halves(b).0.dim.x >= 1 && split_halves(b).1.dim.x >= 1,
        area(split_halves(b).0) < area(b),
        area(split_halves(b).1) < area(b),
{
    lemma_product_shrinks(b.dim.x / 2, b.dim.x as int, b.dim.y as int);
    lemma_product_shrinks(b.dim.x - b.dim.x / 2, b.dim.x as int, b.dim.y as int);
}

impl AABox {
    /// A square with its lower corner at `start`.
    pub fn new_square(start: Point, dim: i32) -> (r: AABox)
        ensures
            r.start == start,
            r.dim == (Point { x: dim, y: dim }),
    {
        AABox { start, dim: Point { x: dim, y: dim } }
    }

    /// A square of half side `dim` around `center`: its side is `2 * dim`.
    pub fn new_square_center(center: Point, dim: i32) -> (r: AABox)
        requires
            dim >= 0,
            i32::MIN <= center.x - dim,
            i32::MIN <= center.y - dim,
            2 * dim <= i32::MAX,
        ensures
            r.start == (Point { x: (center.x - dim) as i32, y: (center.y - dim) as i32 }),
            r.dim == (Point { x: (2 * dim) as i32, y: (2 * dim) as i32 }),
    {
        AABox {
            start: Point { x: center.x - dim, y: center.y - dim },
            dim: Point { x: 2 * dim, y: 2 * dim },
        }
    }

    /// The four corners, counter-clockwise from the origin.
    pub fn corners(&self) -> (r: [Point; 4])
        requires
            box_wf(*self),
        ensures
            r@[0] == self.start,
            r@[1] == (Point { x: end_x(*self) as i32, y: self.start.y }),
            r@[2] == (Point { x: end_x(*self) as i32, y: end_y(*self) as i32 }),
            r@[3] == (Point { x: self.start.x, y: end_y(*self) as i32 }),
    {
        let ex = self.start.x + self.dim.x;
        let ey = self.start.y + self.dim.y;
        [
            self.start,
            Point { x: ex, y: self.start.y },
            Point { x: ex, y: ey },
            Point { x: self.start.x, y: ey },
        ]
    }

    /// The four sides as segments, each from a corner to the next.
    pub fn edges(&self) -> (r: [Line; 4])
        requires
            box_wf(*self),
        ensures
            r@[0] == segment(self.start, Point { x: end_x(*self) as i32, y: self.start.y }),
            r@[1] == segment(
                Point { x: end_x(*self) as i32, y: self.start.y },
                Point { x: end_x(*self) as i32, y: end_y(*self) as i32 },
            ),
            r@[2] == segment(
                Point { x: end_x(*self) as i32, y: end_y(*self) as i32 },
                Point { x: self.start.x, y: end_y(*self) as i32 },
            ),
            r@[3] == segment(Point { x: self.start.x, y: end_y(*self) as i32 }, self.start),
    {
        let c = self.corners();
        [
            Line::new_segment(c[0], c[1]),
            Line::new_segment(c[1], c[2]),
            Line::new_segment(c[2], c[3]),
            Line::new_segment(c[3], c[0]),
        ]
    }

    pub fn center(&self) -> (r: Point)
        requires
            box_wf(*self),
        ensures
            r == box_center(*self),
    {
        Point { x: self.start.x + self.dim.x / 2, y: self.start.y + self.dim.y / 2 }
    }

    /// Halves the box along its longer side (x on a tie): `self` keeps the
    /// near half and the far half is returned.
    pub fn split_mut(&mut self) -> (r: AABox)
        requires
            box_wf(*old(self)),
            splittable(*old(self)),
        ensures
            *final(self) == split_halves(*old(self)).0,
            r == split_halves(*old(self)).1,
            box_wf(*final(self)),
            box_wf(r),
            area(*final(self)) < area(*old(self)),
            area(r) < area(*old(self)),
    {
        proof {
            lemma_split_partitions(*self, self.start);
        }
        if self.dim.x >= self.dim.y {
            let h = self.dim.x / 2;
            let far = AABox {
                start: Point { x: self.start.x + h, y: self.start.y },
                dim: Point { x: self.dim.x - h, y: self.dim.y },
            };
            proof {
                lemma_product_shrinks(h as int, self.dim.x as int, self.dim.y as int);
                lemma_product_shrinks((self.dim.x - h) as int, self.dim.x as int, self.dim.y as int);
            }
            self.dim.x = h;
            far
        } else {
            let h = self.dim.y / 2;
            let far = AABox {
                start: Point { x: self.start.x, y: self.start.y + h },
                dim: Point { x: self.dim.x, y: self.dim.y - h },
            };
            proof {
                lemma_product_shrinks(h as int, self.dim.y as int, self.dim.x as int);
                lemma_product_shrinks((self.dim.y - h) as int, self.dim.y as int, self.dim.x as int);
                assert(self.dim.x * h == h * self.dim.x) by (nonlinear_arith);
                assert(self.dim.x * (self.dim.y - h) == (self.dim.y - h) * self.dim.x) by (nonlinear_arith);
                assert(self.dim.x * self.dim.y == self.dim.y * self.dim.x) by (nonlinear_arith);
            }
            self.dim.y = h;
            far
        }
    }
}

/// Whether `pt` lies in the half-open box `b`.
pub fn point_in_aabox(pt: &Point, b: &AABox) -> (r: bool)
    requires
        box_wf(*b),
    ensures
        r == box_contains(*b, *pt),
{
    pt.x >= b.start.x && pt.x < b.start.x + b.dim.x && pt.y >= b.start.y && pt.y < b.start.y
        + b.dim.y
}

/// Whether two boxes share a side, or a part of one, or a corner.
pub fn aabox_are_adjacent(lhs: &AABox, rhs: &AABox) -> (r: bool)
    requires
        box_wf(*lhs),
        box_wf(*rhs),
    ensures
        r == boxes_adjacent(*lhs, *rhs),
{
    let lx1 = lhs.start.x + lhs.dim.x;
    let ly1 = lhs.start.y + lhs.dim.y;
    let rx1 = rhs.start.x + rhs.dim.x;
    let ry1 = rhs.start.y + rhs.dim.y;
    let y_meet = lhs.start.y <= ry1 && rhs.start.y <= ly1;
    let x_meet = lhs.start.x <= rx1 && rhs.start.x <= lx1;
    ((lx1 == rhs.start.x || rx1 == lhs.start.x) && y_meet) || ((ly1 == rhs.start.y || ry1
        == lhs.start.y) && x_meet)
}

/// A segment from `start` to `start + (dx, dy)` when `bounded`, otherwise
/// the ray from `start` in the direction `(dx, dy)`.
#[derive(Clone, Copy, Debug, PartialEq, Eq, Structural)]
pub struct Line {
    pub start: Point,
    pub dx: i64,
    pub dy: i64,
    pub bounded: bool,
}

/// The largest direction component: the difference of two `i32` values.
pub const DIR_MAX: i64 = 4294967295;

pub open spec fn line_wf(l: Line) -> bool {
    -DIR_MAX <= l.dx <= DIR_MAX && -DIR_MAX <= l.dy <= DIR_MAX
}

pub open spec fn cross(ax: int, ay: int, bx: int, by: int) -> int {
    ax * by - ay * bx
}

/// Determinant of the system `start + t * (dx, dy) == a + u * (b - a)`.
pub open spec fn det(l: Line, a: Point, b: Point) -> int {
    cross(l.dx as int, l.dy as int, a.x - b.x, a.y - b.y)
}

/// `t * det`: where the crossing lies along the line.
pub open spec fn t_num(l: Line, a: Point, b: Point) -> int {
    cross(a.x - l.start.x, a.y - l.start.y, a.x - b.x, a.y - b.y)
}

/// `u * det`: where the crossing lies along the segment `a -> b`.
pub open spec fn u_num(l: Line, a: Point, b: Point) -> int {
    cross(l.dx as int, l.dy as int, a.x - l.start.x, a.y - l.start.y)
}

/// The line meets the segment `a -> b` at a single point, at a parameter
/// `t` in `[0, 1)` (in `[0, inf)` for a ray) along the line and `u` in
/// `[0, 1)` along the segment. Parallel or degenerate input never meets.
pub open spec fn crosses(l: Line, a: Point, b: Point) -> bool {
    let d = det(l, a, b);
    let t = t_num(l, a, b);
    let u = u_num(l, a, b);
    ||| d > 0 && 0 <= t && (!l.bounded || t < d) && 0 <= u < d
    ||| d < 0 && t <= 0 && (!l.bounded || t > d) && u <= 0 && u > d
}

/// `|det|`, and `u_num` with the same sign change.
pub open spec fn norm_det(l: Line, a: Point, b: Point) -> int {
    if det(l, a, b) < 0 {
        -det(l, a, b)
    } else {
        det(l, a, b)
    }
}

pub open spec fn norm_u(l: Line, a: Point, b: Point) -> int {
    if det(l, a, b) < 0 {
        -u_num(l, a, b)
    } else {
        u_num(l, a, b)
    }
}

/// The crossing point `a + u * (b - a)`, each coordinate rounded down.
pub open spec fn crossing_point(l: Line, a: Point, b: Point) -> Point {
    let d = norm_det(l, a, b);
    let u = norm_u(l, a, b);
    Point {
        x: ((d * a.x + u * (b.x - a.x)) / d) as i32,
        y: ((d * a.y + u * (b.y - a.y)) / d) as i32,
    }
}

/// The segment from `a` to `b`.
pub open spec fn segment(a: Point, b: Point) -> Line {
    Line { start: a, dx: (b.x - a.x) as i64, dy: (b.y - a.y) as i64, bounded: true }
}

impl Line {
    /// The segment from `start` to `end`.
    pub fn new_segment(start: Point, end: Point) -> (r: Line)
        ensures
            r == segment(start, end),
            line_wf(r),
            r.dx == end.x - start.x,
            r.dy == end.y - start.y,
    {
        Line {
            start,
            dx: end.x as i64 - start.x as i64,
            dy: end.y as i64 - start.y as i64,
            bounded: true,
        }
    }

    /// The ray from `start` in the direction `direction`.
    pub fn new_ray(start: Point, direction: Point) -> (r: Line)
        ensures
            line_wf(r),
            r.start == start,
            r.dx == direction.x,
            r.dy == direction.y,
            !r.bounded,
    {
        Line { start, dx: direction.x as i64, dy: direction.y as i64, bounded: false }
    }

    pub fn start(&self) -> (r: Point)
        ensures
            r == self.start,
    {
        self.start
    }

    /// The far end of a segment.
    pub fn end(&self) -> (r: Point)
        requires
            self.bounded,
            i32::MIN <= self.start.x + self.dx <= i32::MAX,
            i32::MIN <= self.start.y + self.dy <= i32::MAX,
        ensures
            r.x == self.start.x + self.dx,
            r.y == self.start.y + self.dy,
    {
        Point { x: (self.start.x as i64 + self.dx) as i32, y: (self.start.y as i64 + self.dy) as i32 }
    }
}

/// Bound on a cross product of two direction-sized vectors.
pub const CROSS_MAX: i128 = 36893488147419103232;

fn mul_small(a: i128, b: i128) -> (r: i128)
    requires
        -(DIR_MAX as int) <= a <= DIR_MAX,
        -(DIR_MAX as int) <= b <= DIR_MAX,
    ensures
        r == a * b,
        -(DIR_MAX as int) * DIR_MAX <= r <= (DIR_MAX as int) * DIR_MAX,
{
    proof {
        assert(-(DIR_MAX as int) * DIR_MAX <= a * b <= (DIR_MAX as int) * DIR_MAX) by (nonlinear_arith)
            requires
                -(DIR_MAX as int) <= a <= DIR_MAX,
                -(DIR_MAX as int) <= b <= DIR_MAX,
        ;
    }
    a * b
}

fn cross_exec(ax: i128, ay: i128, bx: i128, by: i128) -> (r: i128)
    requires
        -(DIR_MAX as int) <= ax <= DIR_MAX,
        -(DIR_MAX as int) <= ay <= DIR_MAX,
        -(DIR_MAX as int) <= bx <= DIR_MAX,
        -(DIR_MAX as int) <= by <= DIR_MAX,
    ensures
        r == cross(ax as int, ay as int, bx as int, by as int),
        -CROSS_MAX <= r <= CROSS_MAX,
{
    mul_small(ax, by) - mul_small(ay, bx)
}

fn mul_wide(a: i128, b: i128) -> (r: i128)
    requires
        -CROSS_MAX <= a <= CROSS_MAX,
        -(DIR_MAX as int) <= b <= DIR_MAX,
    ensures
        r == a * b,
        -(CROSS_MAX as int) * DIR_MAX <= r <= (CROSS_MAX as int) * DIR_MAX,
{
    proof {
        assert(-(CROSS_MAX as int) * DIR_MAX <= a * b <= (CROSS_MAX as int) * DIR_MAX) by (nonlinear_arith)
            requires
                -CROSS_MAX <= a <= CROSS_MAX,
                -(DIR_MAX as int) <= b <= DIR_MAX,
        ;
    }
    a * b
}

/// Division rounded down.
fn floor_div(n: i128, d: i128) -> (r: i128)
    requires
        d > 0,
        -(CROSS_MAX as int) * 4 * DIR_MAX <= n <= (CROSS_MAX as int) * 4 * DIR_MAX,
    ensures
        r == n / d,
{
    if n >= 0 {
        ((n as u128) / (d as u128)) as i128
    } else {
        let m = (((-n) as u128) + (d as u128) - 1) / (d as u128);
        proof {
            let q = n as int / d as int;
            let rem = n as int % d as int;
            lemma_fundamental_div_mod(n as int, d as int);
            assert(-n + d - 1 == (-q) * d + (d - 1 - rem)) by (nonlinear_arith)
                requires
                    n == d * q + rem,
            ;
            lemma_fundamental_div_mod_converse(-n + d - 1, d as int, -q, d - 1 - rem);
            assert(m == -q);
            assert(n <= q < 0) by (nonlinear_arith)
                requires
                    n == d * q + rem,
                    0 <= rem < d,
                    n < 0,
                    d >= 1,
            ;
        }
        -(m as i128)
    }
}

/// Lies between the two values, rounded down.
proof fn lemma_between(a: int, b: int, u: int, d: int)
    requires
        0 <= u < d,
    ensures
        a <= b ==> a <= (d * a + u * (b - a)) / d <= b,
        b <= a ==> b <= (d * a + u * (b - a)) / d <= a,
{
    let n = d * a + u * (b - a);
    lemma_fundamental_div_mod(n, d);
    let q = n / d;
    let r = n % d;
    if a <= b {
        assert(d * a <= n <= d * b) by (nonlinear_arith)
            requires
                0 <= u < d,
                a <= b,
                n == d * a + u * (b - a),
        ;
        assert(a <= q <= b) by (nonlinear_arith)
            requires
                d * a <= n <= d * b,
                n == d * q + r,
                0 <= r < d,
        ;
    } else {
        assert(d * b <= n <= d * a) by (nonlinear_arith)
            requires
                0 <= u < d,
                b <= a,
                n == d * a + u * (b - a),
        ;
        assert(b <= q <= a) by (nonlinear_arith)
            requires
                d * b <= n <= d * a,
                n == d * q + r,
                0 <= r < d,
        ;
    }
}

/// The point where `l` meets the segment `start -> end`, if it does.
pub fn intersect_segment(l: &Line, start: &Point, end: &Point) -> (r: Option<Point>)
    requires
        line_wf(*l),
    ensures
        r.is_some() == crosses(*l, *start, *end),
        r.is_some() ==> r == Some(crossing_point(*l, *start, *end)),
{
    let ax = start.x as i128;
    let ay = start.y as i128;
    let bx = end.x as i128;
    let by = end.y as i128;
    let wx = ax - l.start.x as i128;
    let wy = ay - l.start.y as i128;
    let d = cross_exec(l.dx as i128, l.dy as i128, ax - bx, ay - by);
    let t = cross_exec(wx, wy, ax - bx, ay - by);
    let u = cross_exec(l.dx as i128, l.dy as i128, wx, wy);
    if d == 0 {
        return None;
    }
    let (d, t, u) = if d < 0 {
        (-d, -t, -u)
    } else {
        (d, t, u)
    };
    if t < 0 || (l.bounded && t >= d) || u < 0 || u >= d {
        return None;
    }
    let nx = mul_wide(d, ax) + mul_wide(u, bx - ax);
    let ny = mul_wide(d, ay) + mul_wide(u, by - ay);
    proof {
        lemma_between(ax as int, bx as int, u as int, d as int);
        lemma_between(ay as int, by as int, u as int, d as int);
    }
    let x = floor_div(nx, d);
    let y = floor_div(ny, d);
    Some(Point { x: x as i32, y: y as i32 })
}

/// Determinant of `start + t * (dx, dy) == s + u * d`.
pub open spec fn ray_det(l: Line, s: Point, d: Point) -> int {
    cross(l.dx as int, l.dy as int, -d.x, -d.y)
}

/// `t * ray_det`: where the crossing lies along the line.
pub open spec fn ray_t(l: Line, s: Point, d: Point) -> int {
    cross(s.x - l.start.x, s.y - l.start.y, -d.x, -d.y)
}

/// `u * ray_det`: where the crossing lies along the ray.
pub open spec fn ray_u(l: Line, s: Point, d: Point) -> int {
    cross(l.dx as int, l.dy as int, s.x - l.start.x, s.y - l.start.y)
}

/// `l` meets the ray from `s` in direction `d` at a single point, at `t` in
/// `[0, 1)` (`[0, inf)` for a ray) along `l` and `u >= 0` along the ray.
pub open spec fn crosses_ray(l: Line, s: Point, d: Point) -> bool {
    let det = ray_det(l, s, d);
    let t = ray_t(l, s, d);
    let u = ray_u(l, s, d);
    ||| det > 0 && 0 <= t && (!l.bounded || t < det) && 0 <= u
    ||| det < 0 && t <= 0 && (!l.bounded || t > det) && u <= 0
}

/// The crossing point `start + t * (dx, dy)` of `l` with the ray, each
/// coordinate rounded down.
pub open spec fn ray_crossing_point(l: Line, s: Point, d: Point) -> Point {
    let det = if ray_det(l, s, d) < 0 {
        -ray_det(l, s, d)
    } else {
        ray_det(l, s, d)
    };
    let t = if ray_det(l, s, d) < 0 {
        -ray_t(l, s, d)
    } else {
        ray_t(l, s, d)
    };
    Point {
        x: ((det * l.start.x + t * l.dx) / det) as i32,
        y: ((det * l.start.y + t * l.dy) / det) as i32,
    }
}

/// The point where the segment `a` meets the ray from `start` in the
/// direction `direction`, if it does.
pub fn intersect_ray(a: &Line, start: &Point, direction: &Point) -> (r: Option<Point>)
    requires
        line_wf(*a),
        a.bounded,
        i32::MIN <= a.start.x + a.dx <= i32::MAX,
        i32::MIN <= a.start.y + a.dy <= i32::MAX,
    ensures
        r.is_some() == crosses_ray(*a, *start, *direction),
        r.is_some() ==> r == Some(ray_crossing_point(*a, *start, *direction)),
{
    let wx = start.x as i128 - a.start.x as i128;
    let wy = start.y as i128 - a.start.y as i128;
    let nx = -(direction.x as i128);
    let ny = -(direction.y as i128);
    let d = cross_exec(a.dx as i128, a.dy as i128, nx, ny);
    let t = cross_exec(wx, wy, nx, ny);
    let u = cross_exec(a.dx as i128, a.dy as i128, wx, wy);
    if d == 0 {
        return None;
    }
    let (d, t, u) = if d < 0 {
        (-d, -t, -u)
    } else {
        (d, t, u)
    };
    if t < 0 || t >= d || u < 0 {
        return None;
    }
    let px = mul_wide(d, a.start.x as i128) + mul_wide(t, a.dx as i128);
    let py = mul_wide(d, a.start.y as i128) + mul_wide(t, a.dy as i128);
    proof {
        lemma_between(a.start.x as int, a.start.x + a.dx, t as int, d as int);
        lemma_between(a.start.y as int, a.start.y + a.dy, t as int, d as int);
        assert(d * a.start.x + t * ((a.start.x + a.dx) - a.start.x) == d * a.start.x + t * a.dx);
        assert(d * a.start.y + t * ((a.start.y + a.dy) - a.start.y) == d * a.start.y + t * a.dy);
    }
    let x = floor_div(px, d);
    let y = floor_div(py, d);
    Some(Point { x: x as i32, y: y as i32 })
}

/// The vertex that follows vertex `i` on a closed ring of `n` vertices.
pub open spec fn ring_next(i: int, n: int) -> int {
    if i + 1 < n {
        i + 1
    } else {
        0
    }
}

/// `l` crosses the ring's edge from vertex `i` to the next one.
pub open spec fn edge_crosses(l: Line, ring: Seq<Point>, i: int) -> bool {
    crosses(l, ring[i], ring[ring_next(i, ring.len() as int)])
}

/// How many of the ring's first `k` edges `l` crosses.
pub open spec fn crossings_upto(l: Line, ring: Seq<Point>, k: int) -> nat
    decreases k,
{
    if k <= 0 {
        0
    } else {
        crossings_upto(l, ring, k - 1) + if edge_crosses(l, ring, k - 1) {
            1nat
        } else {
            0nat
        }
    }
}

pub open spec fn crossings(l: Line, ring: Seq<Point>) -> nat {
    crossings_upto(l, ring, ring.len() as int)
}

/// The ray used by the even-odd test: from `pt` along the diagonal `(1, 1)`.
pub open spec fn probe_ray(pt: Point) -> Line {
    Line { start: pt, dx: 1, dy: 1, bounded: false }
}

/// Even-odd rule along the diagonal ray `(1, 1)`.
pub open spec fn inside_polygon(pt: Point, ring: Seq<Point>) -> bool {
    crossings(probe_ray(pt), ring) % 2 == 1
}

/// `l` crosses some edge of the closed ring.
pub open spec fn crosses_ring(l: Line, ring: Seq<Point>) -> bool {
    exists|i: int| 0 <= i < ring.len() && #[trigger] edge_crosses(l, ring, i)
}

/// Whether `pt` lies inside the closed polygon `poly`, by the even-odd rule
/// along the ray from `pt` in the direction `(1, 1)`. The answer is only
/// meaningful for simple polygons with no edge parallel to that ray.
pub fn point_in_polygon(pt: &Point, poly: &Vec<Point>) -> (r: bool)
    ensures
        r == inside_polygon(*pt, poly@),
{
    let ray = Line::new_ray(*pt, Point { x: 1, y: 1 });
    let n = poly.len();
    let mut hits: usize = 0;
    let mut i: usize = 0;
    while i < n
        invariant
            n == poly@.len(),
            ray == probe_ray(*pt),
            i <= n,
            hits == crossings_upto(ray, poly@, i as int),
            hits <= i,
        decreases n - i,
    {
        let j: usize = if i + 1 < n {
            i + 1
        } else {
            0
        };
        if intersect_segment(&ray, &poly[i], &poly[j]).is_some() {
            hits = hits + 1;
        }
        i = i + 1;
    }
    hits % 2 == 1
}

/// Whether `line` crosses any edge of the closed polygon `poly`.
pub fn intersect_polygon(line: &Line, poly: &Vec<Point>) -> (r: bool)
    requires
        line_wf(*line),
    ensures
        r == crosses_ring(*line, poly@),
{
    let n = poly.len();
    let mut i: usize = 0;
    while i < n
        invariant
            n == poly@.len(),
            line_wf(*line),
            i <= n,
            forall|k: int| 0 <= k < i ==> !#[trigger] edge_crosses(*line, poly@, k),
        decreases n - i,
    {
        let j: usize = if i + 1 < n {
            i + 1
        } else {
            0
        };
        if intersect_segment(line, &poly[i], &poly[j]).is_some() {
            assert(edge_crosses(*line, poly@, i as int));
            return true;
        }
        i = i + 1;
    }
    false
}

/// The square `[0, s] x [0, s]`, counter-clockwise from the origin.
pub open spec fn square_ring(s: int) -> Seq<Point> {
    seq![
        Point { x: 0, y: 0 },
        Point { x: s as i32, y: 0 },
        Point { x: s as i32, y: s as i32 },
        Point { x: 0, y: s as i32 },
    ]
}

/// On a square, the even-odd test along the `(1, 1)` ray finds every point
/// strictly inside, and no point off the closed square whose ray misses the
/// corners `(s, 0)` and `(0, s)`: a ray that only grazes one of them counts
/// one crossing.
pub proof fn lemma_square_inside(s: i32, p: Point)
    requires
        s > 0,
    ensures
        0 < p.x < s && 0 < p.y < s ==> inside_polygon(p, square_ring(s as int)),
        !(0 <= p.x <= s && 0 <= p.y <= s) && p.x - p.y != s && p.y - p.x != s
            ==> !inside_polygon(p, square_ring(s as int)),
{
    let l = probe_ray(p);
    let r = square_ring(s as int);
    let x = p.x as int;
    let y = p.y as int;
    let w = s as int;
    assert(r.len() == 4);
    assert(r[0] == Point { x: 0, y: 0 });
    assert(r[1] == Point { x: s, y: 0 });
    assert(r[2] == Point { x: s, y: s });
    assert(r[3] == Point { x: 0, y: s });
    assert(det(l, r[0], r[1]) == w);
    assert(t_num(l, r[0], r[1]) == (0 - x) * (0 - 0) - (0 - y) * (0 - w));
    assert((0 - x) * (0 - 0) - (0 - y) * (0 - w) == -(y * w)) by (nonlinear_arith);
    assert(u_num(l, r[0], r[1]) == x - y);
    assert(det(l, r[1], r[2]) == -w);
    assert(t_num(l, r[1], r[2]) == (w - x) * (0 - w) - (0 - y) * (w - w));
    assert((w - x) * (0 - w) - (0 - y) * (w - w) == -(w * w) + x * w) by (nonlinear_arith);
    assert(u_num(l, r[1], r[2]) == x - y - w);
    assert(det(l, r[2], r[3]) == -w);
    assert(t_num(l, r[2], r[3]) == (w - x) * (w - w) - (w - y) * (w - 0));
    assert((w - x) * (w - w) - (w - y) * (w - 0) == -(w * w) + y * w) by (nonlinear_arith);
    assert(u_num(l, r[2], r[3]) == x - y);
    assert(det(l, r[3], r[0]) == w);
    assert(t_num(l, r[3], r[0]) == (0 - x) * (w - 0) - (w - y) * (0 - 0));
    assert((0 - x) * (w - 0) - (w - y) * (0 - 0) == -(x * w)) by (nonlinear_arith);
    assert(u_num(l, r[3], r[0]) == w - y + x);
    assert(-(y * w) >= 0 <==> y <= 0) by (nonlinear_arith)
        requires
            w > 0,
    ;
    assert(-(x * w) >= 0 <==> x <= 0) by (nonlinear_arith)
        requires
            w > 0,
    ;
    assert(-(w * w) + x * w <= 0 <==> x <= w) by (nonlinear_arith)
        requires
            w > 0,
    ;
    assert(-(w * w) + y * w <= 0 <==> y <= w) by (nonlinear_arith)
        requires
            w > 0,
    ;
    assert(edge_crosses(l, r, 0) <==> y <= 0 && y <= x < y + w);
    assert(edge_crosses(l, r, 1) <==> x <= w && y < x <= y + w);
    assert(edge_crosses(l, r, 2) <==> y <= w && y - w < x <= y);
    assert(edge_crosses(l, r, 3) <==> x <= 0 && y - w <= x < y);
    reveal_with_fuel(crossings_upto, 5);
    let c0: nat = if edge_crosses(l, r, 0) { 1 } else { 0 };
    let c1: nat = if edge_crosses(l, r, 1) { 1 } else { 0 };
    let c2: nat = if edge_crosses(l, r, 2) { 1 } else { 0 };
    let c3: nat = if edge_crosses(l, r, 3) { 1 } else { 0 };
    assert(crossings_upto(l, r, 1) == c0);
    assert(crossings_upto(l, r, 2) == c0 + c1);
    assert(crossings_upto(l, r, 3) == c0 + c1 + c2);
    assert(crossings_upto(l, r, 4) == c0 + c1 + c2 + c3);
    assert(crossings(l, r) == c0 + c1 + c2 + c3);
}

/// Relies on rand's `thread_rng().gen_range(low..high)`: a value drawn from
/// `[low, high)`; it panics on an empty range, which `requires` excludes.
#[verifier::external_body]
fn random_in(low: i32, high: i32) -> (r: i32)
    requires
        low < high,
    ensures
        low <= r < high,
{
    rand::thread_rng().gen_range(low..high)
}

/// `count` points drawn at random from the box `[lower, upper)`.
pub fn generate_random_points(count: usize, lower: &Point, upper: &Point) -> (r: Vec<Point>)
    requires
        lower.x < upper.x,
        lower.y < upper.y,
    ensures
        r@.len() == count,
        forall|i: int|
            0 <= i < count ==> lower.x <= (#[trigger] r@[i]).x < upper.x && lower.y <= r@[i].y
                < upper.y,
{
    let mut r: Vec<Point> = Vec::new();
    let mut k: usize = 0;
    while k < count
        invariant
            k <= count,
            r@.len() == k,
            lower.x < upper.x,
            lower.y < upper.y,
            forall|i: int|
                0 <= i < k ==> lower.x <= (#[trigger] r@[i]).x < upper.x && lower.y <= r@[i].y
                    < upper.y,
        decreases count - k,
    {
        let x = random_in(lower.x, upper.x);
        let y = random_in(lower.y, upper.y);
        r.push(Point { x, y });
        k = k + 1;
    }
    r
}

/// `count` points along the segment `line`: the `i`-th at the fraction
/// `i / count` of the way from its start, each coordinate rounded down.
pub fn generate_points_on_line(count: usize, line: &Line) -> (r: Vec<Point>)
    requires
        line_wf(*line),
        line.bounded,
        i32::MIN <= line.start.x + line.dx <= i32::MAX,
        i32::MIN <= line.start.y + line.dy <= i32::MAX,
        count <= u32::MAX,
    ensures
        r@.len() == count,
        forall|i: int|
            0 <= i < count ==> (#[trigger] r@[i]).x == (count * line.start.x + i * line.dx) / (
            count as int) && r@[i].y == (count * line.start.y + i * line.dy) / (count as int),
{
    let mut r: Vec<Point> = Vec::new();
    let mut i: usize = 0;
    while i < count
        invariant
            line_wf(*line),
            i32::MIN <= line.start.x + line.dx <= i32::MAX,
            i32::MIN <= line.start.y + line.dy <= i32::MAX,
            count <= u32::MAX,
            i <= count,
            r@.len() == i,
            forall|q: int|
                0 <= q < i ==> (#[trigger] r@[q]).x == (count * line.start.x + q * line.dx) / (
                count as int) && r@[q].y == (count * line.start.y + q * line.dy) / (count as int),
        decreases count - i,
    {
        let n = count as i128;
        let k = i as i128;
        proof {
            assert(-(DIR_MAX as int) * DIR_MAX <= k * line.dx <= (DIR_MAX as int) * DIR_MAX) by (nonlinear_arith)
                requires
                    0 <= k <= u32::MAX,
                    -DIR_MAX <= line.dx <= DIR_MAX,
            ;
            assert(-(DIR_MAX as int) * DIR_MAX <= k * line.dy <= (DIR_MAX as int) * DIR_MAX) by (nonlinear_arith)
                requires
                    0 <= k <= u32::MAX,
                    -DIR_MAX <= line.dy <= DIR_MAX,
            ;
            assert(-(DIR_MAX as int) * DIR_MAX <= n * line.start.x <= (DIR_MAX as int) * DIR_MAX) by (nonlinear_arith)
                requires
                    0 <= n <= u32::MAX,
                    i32::MIN <= line.start.x <= i32::MAX,
            ;
            assert(-(DIR_MAX as int) * DIR_MAX <= n * line.start.y <= (DIR_MAX as int) * DIR_MAX) by (nonlinear_arith)
                requires
                    0 <= n <= u32::MAX,
                    i32::MIN <= line.start.y <= i32::MAX,
            ;
            lemma_between(
                line.start.x as int,
                line.start.x + line.dx,
                k as int,
                n as int,
            );
            lemma_between(
                line.start.y as int,
                line.start.y + line.dy,
                k as int,
                n as int,
            );
            assert(n * line.start.x + k * ((line.start.x + line.dx) - line.start.x) == n * line.start.x + k * line.dx);
            assert(n * line.start.y + k * ((line.start.y + line.dy) - line.start.y) == n * line.start.y + k * line.dy);
        }
        let x = floor_div(n * (line.start.x as i128) + k * (line.dx as i128), n);
        let y = floor_div(n * (line.start.y as i128) + k * (line.dy as i128), n);
        r.push(Point { x: x as i32, y: y as i32 });
        i = i + 1;
    }
    r
}

} // verus!
