//! Exact planar predicates on integer points.
//!
//! The y axis points downwards: a point with a larger y is lower on screen.
use vstd::prelude::*;

verus! {

/// A point (or vector) of the plane with integer coordinates.
#[derive(Clone, Copy, PartialEq, Eq, Structural, Debug)]
pub struct Vec2 {
    pub x: i32,
    pub y: i32,
}

/// Builds a point from its two coordinates.
pub fn vec2(x: i32, y: i32) -> (r: Vec2)
    ensures
        r.x == x,
        r.y == y,
{
    Vec2 { x, y }
}

/// `a` comes strictly after `b` in the sweep order: larger y, then larger x.
pub open spec fn below(a: Vec2, b: Vec2) -> bool {
    a.y > b.y || (a.y == b.y && a.x > b.x)
}

/// The single order used by every comparison of the sweep and of the triangulator.
pub fn is_below(a: Vec2, b: Vec2) -> (r: bool)
    ensures
        r == below(a, b),
{
    a.y > b.y || (a.y == b.y && a.x > b.x)
}

/// Cross product of `a - o` and `b - o`.
///
/// For nonzero vectors it is positive exactly when the directed angle from
/// `a - o` to `b - o`, measured counter-clockwise in `[0, 2π)`, lies strictly
/// between `0` and `π`, and negative exactly when that angle lies strictly
/// between `π` and `2π`.
pub open spec fn cross(o: Vec2, a: Vec2, b: Vec2) -> int {
    (a.x - o.x) * (b.y - o.y) - (a.y - o.y) * (b.x - o.x)
}

proof fn lemma_cross_bounds(o: Vec2, a: Vec2, b: Vec2)
    ensures
        -0x4_0000_0000_0000_0000 < cross(o, a, b) < 0x4_0000_0000_0000_0000,
{
    let ax = a.x - o.x;
    let ay = a.y - o.y;
    let bx = b.x - o.x;
    let by = b.y - o.y;
    assert(-0x1_0000_0000 < ax < 0x1_0000_0000);
    assert(-0x1_0000_0000 < by < 0x1_0000_0000);
    assert(-0x1_0000_0000 < ay < 0x1_0000_0000);
    assert(-0x1_0000_0000 < bx < 0x1_0000_0000);
    assert(-0x1_0000_0000_0000_0000 <= ax * by <= 0x1_0000_0000_0000_0000) by (nonlinear_arith)
        requires
            -0x1_0000_0000 < ax < 0x1_0000_0000,
            -0x1_0000_0000 < by < 0x1_0000_0000,
    ;
    assert(-0x1_0000_0000_0000_0000 <= ay * bx <= 0x1_0000_0000_0000_0000) by (nonlinear_arith)
        requires
            -0x1_0000_0000 < ay < 0x1_0000_0000,
            -0x1_0000_0000 < bx < 0x1_0000_0000,
    ;
}

/// Exact value of [`cross`].
pub fn cross_product(o: Vec2, a: Vec2, b: Vec2) -> (r: i128)
    ensures
        r == cross(o, a, b),
{
    proof {
        lemma_cross_bounds(o, a, b);
    }
    let ax = a.x as i128 - o.x as i128;
    let ay = a.y as i128 - o.y as i128;
    let bx = b.x as i128 - o.x as i128;
    let by = b.y as i128 - o.y as i128;
    proof {
        assert(-0x1_0000_0000_0000_0000 <= ax * by <= 0x1_0000_0000_0000_0000) by (nonlinear_arith)
            requires
                -0x1_0000_0000 < ax < 0x1_0000_0000,
                -0x1_0000_0000 < by < 0x1_0000_0000,
        ;
        assert(-0x1_0000_0000_0000_0000 <= ay * bx <= 0x1_0000_0000_0000_0000) by (nonlinear_arith)
            requires
                -0x1_0000_0000 < ay < 0x1_0000_0000,
                -0x1_0000_0000 < bx < 0x1_0000_0000,
        ;
    }
    ax * by - ay * bx
}

/// The interior angle at `curr`, from `prev - curr` to `next - curr`, is strictly
/// between `0` and `π`.
pub open spec fn angle_below_pi(prev: Vec2, curr: Vec2, next: Vec2) -> bool {
    cross(curr, prev, next) > 0
}

/// The interior angle at `curr`, from `prev - curr` to `next - curr`, is strictly
/// greater than `π`.
pub open spec fn angle_above_pi(prev: Vec2, curr: Vec2, next: Vec2) -> bool {
    cross(curr, prev, next) < 0
}

/// The role a polygon point plays for a downward sweep.
#[derive(Clone, Copy, PartialEq, Eq, Structural, Debug)]
pub enum VertexType {
    Start,
    End,
    Split,
    Merge,
    Left,
    Right,
}

/// Classification of `curr` between its neighbours, for rings whose interior
/// lies on the side given by a clockwise outer ring (y pointing down).
pub open spec fn vertex_type(prev: Vec2, curr: Vec2, next: Vec2) -> VertexType {
    if below(curr, prev) && below(curr, next) {
        if angle_below_pi(prev, curr, next) {
            VertexType::Merge
        } else {
            VertexType::End
        }
    } else if !below(curr, prev) && !below(curr, next) {
        if angle_below_pi(prev, curr, next) {
            VertexType::Split
        } else {
            VertexType::Start
        }
    } else if prev.y == next.y {
        if prev.x < next.x {
            VertexType::Right
        } else {
            VertexType::Left
        }
    } else if prev.y < next.y {
        VertexType::Right
    } else {
        VertexType::Left
    }
}

/// Classifies `curr` as [`vertex_type`] does.
pub fn get_vertex_type(prev: Vec2, current: Vec2, next: Vec2) -> (r: VertexType)
    ensures
        r == vertex_type(prev, current, next),
{
    let convex = cross_product(current, prev, next) > 0;
    if is_below(current, prev) && is_below(current, next) {
        if convex {
            return VertexType::Merge;
        } else {
            return VertexType::End;
        }
    }
    if !is_below(current, prev) && !is_below(current, next) {
        if convex {
            return VertexType::Split;
        } else {
            return VertexType::Start;
        }
    }
    if prev.y == next.y {
        if prev.x < next.x {
            VertexType::Right
        } else {
            VertexType::Left
        }
    } else if prev.y < next.y {
        VertexType::Right
    } else {
        VertexType::Left
    }
}

/// An exact x coordinate `num / den`, with `den > 0`.
#[derive(Clone, Copy, PartialEq, Eq, Structural, Debug)]
pub struct Intercept {
    pub num: i128,
    pub den: i128,
}

/// Numerator of the x coordinate where segment `a-b` meets the line at height `y`,
/// over the denominator [`intercept_den`]. A horizontal segment gives its
/// rightmost x over one.
pub open spec fn intercept_num(a: Vec2, b: Vec2, y: i32) -> int {
    if a.y == b.y {
        if a.x >= b.x {
            a.x as int
        } else {
            b.x as int
        }
    } else if b.y > a.y {
        a.x * (b.y - a.y) + (y - a.y) * (b.x - a.x)
    } else {
        -(a.x * (b.y - a.y) + (y - a.y) * (b.x - a.x))
    }
}

/// Denominator matching [`intercept_num`]; always positive.
pub open spec fn intercept_den(a: Vec2, b: Vec2) -> int {
    if a.y == b.y {
        1
    } else if b.y > a.y {
        b.y - a.y
    } else {
        a.y - b.y
    }
}

/// `p <= q` as rational numbers, for positive denominators.
pub open spec fn intercept_le(p: Intercept, q: Intercept) -> bool {
    p.num * q.den <= q.num * p.den
}

/// The intercept is at or to the right of the integer abscissa `x`.
pub open spec fn intercept_at_or_right_of(p: Intercept, x: i32) -> bool {
    p.num >= x * p.den
}

/// Bounds every intercept that [`intersect_segment_with_horizontal`] returns.
pub open spec fn bounded_intercept(p: Intercept) -> bool {
    &&& 0 < p.den <= 0x1_0000_0000
    &&& -0x4_0000_0000_0000_0000 < p.num < 0x4_0000_0000_0000_0000
}

/// The x coordinate, as an exact fraction, where segment `a-b` meets the
/// horizontal line at height `y`; for a horizontal segment, its rightmost x.
pub fn intersect_segment_with_horizontal(a: Vec2, b: Vec2, y: i32) -> (r: Intercept)
    ensures
        r.num == intercept_num(a, b, y),
        r.den == intercept_den(a, b),
        bounded_intercept(r),
{
    if a.y == b.y {
        let m = if a.x >= b.x {
            a.x
        } else {
            b.x
        };
        return Intercept { num: m as i128, den: 1 };
    }
    let vx = b.x as i128 - a.x as i128;
    let vy = b.y as i128 - a.y as i128;
    let dy = y as i128 - a.y as i128;
    let ax = a.x as i128;
    proof {
        assert(-0x8000_0000_0000_0000 <= ax * vy <= 0x8000_0000_0000_0000) by (nonlinear_arith)
            requires
                -0x8000_0000 <= ax < 0x8000_0000,
                -0x1_0000_0000 < vy < 0x1_0000_0000,
        ;
        assert(-0x1_0000_0000_0000_0000 <= dy * vx <= 0x1_0000_0000_0000_0000) by (nonlinear_arith)
            requires
                -0x1_0000_0000 < dy < 0x1_0000_0000,
                -0x1_0000_0000 < vx < 0x1_0000_0000,
        ;
    }
    let num = ax * vy + dy * vx;
    if vy > 0 {
        Intercept { num, den: vy }
    } else {
        Intercept { num: -num, den: -vy }
    }
}

/// Compares two intercepts exactly: `p <= q`.
pub fn intercept_less_or_equal(p: Intercept, q: Intercept) -> (r: bool)
    requires
        bounded_intercept(p),
        bounded_intercept(q),
    ensures
        r == intercept_le(p, q),
{
    proof {
        lemma_bounded_product(p.num, q.den);
        lemma_bounded_product(q.num, p.den);
    }
    p.num * q.den <= q.num * p.den
}

/// Tells whether the intercept `p` is at or to the right of `x`.
pub fn intercept_reaches(p: Intercept, x: i32) -> (r: bool)
    requires
        bounded_intercept(p),
    ensures
        r == intercept_at_or_right_of(p, x),
{
    proof {
        assert(-0x80_0000_0000_0000_0000 <= x * p.den <= 0x80_0000_0000_0000_0000) by (nonlinear_arith)
            requires
                -0x8000_0000 <= x < 0x8000_0000,
                0 < p.den <= 0x1_0000_0000,
        ;
    }
    p.num >= (x as i128) * p.den
}

proof fn lemma_bounded_product(n: i128, d: i128)
    requires
        -0x4_0000_0000_0000_0000 < n < 0x4_0000_0000_0000_0000,
        0 < d <= 0x1_0000_0000,
    ensures
        -0x4_0000_0000_0000_0000_0000_0000 < n * d < 0x4_0000_0000_0000_0000_0000_0000,
{
    assert(-0x4_0000_0000_0000_0000_0000_0000 < n * d < 0x4_0000_0000_0000_0000_0000_0000)
        by (nonlinear_arith)
        requires
            -0x4_0000_0000_0000_0000 < n < 0x4_0000_0000_0000_0000,
            0 < d <= 0x1_0000_0000,
    ;
}

} // verus!
