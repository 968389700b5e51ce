//! Triangle rasterization over fixed-point screen coordinates.
//!
//! Screen positions are measured in `SUBPIXEL` units per pixel, so pixel
//! centers fall on exact integers and barycentric weights are exact integer
//! edge functions: a weight `w` stands for the fraction `w / area`.

use vstd::arithmetic::div_mod::{
    lemma_fundamental_div_mod, lemma_fundamental_div_mod_converse,
};
use vstd::prelude::*;

verus! {

/// Fixed-point units in one pixel.
pub const SUBPIXEL: i64 = 256;

/// Offset of a pixel center from the pixel's corner, in fixed-point units.
pub const HALF_SUBPIXEL: i64 = 128;

/// Largest magnitude of a fixed-point screen coordinate or depth.
pub const COORD_LIMIT: i64 = 16777216;

/// Largest magnitude of a vertex attribute that fragments interpolate.
pub const ATTRIBUTE_LIMIT: i64 = 549755813888;

/// A transformed vertex position in fixed point: x and y in screen space
/// (y grows downward), z the depth used by the depth test.
#[derive(Clone, Copy, PartialEq, Eq, Structural, Debug)]
pub struct ScreenPoint {
    pub x: i64,
    pub y: i64,
    pub z: i64,
}

impl ScreenPoint {
    pub open spec fn bounded(self) -> bool {
        &&& -COORD_LIMIT <= self.x <= COORD_LIMIT
        &&& -COORD_LIMIT <= self.y <= COORD_LIMIT
        &&& -COORD_LIMIT <= self.z <= COORD_LIMIT
    }

    pub fn new(x: i64, y: i64, z: i64) -> (p: ScreenPoint)
        ensures
            p == (ScreenPoint { x, y, z }),
    {
        ScreenPoint { x, y, z }
    }
}

/// A covered pixel: its coordinates, its interpolated depth and the
/// barycentric weights of its center, `w1 + w2 + w3 == area`, all non-negative.
#[derive(Clone, Copy, PartialEq, Eq, Structural, Debug)]
pub struct Fragment {
    pub x: i32,
    pub y: i32,
    pub depth: i64,
    pub w1: i64,
    pub w2: i64,
    pub w3: i64,
    pub area: i64,
}

impl Fragment {
    /// Non-negative weights summing to a positive area.
    pub open spec fn wf(self) -> bool {
        &&& 0 <= self.w1
        &&& 0 <= self.w2
        &&& 0 <= self.w3
        &&& self.w1 + self.w2 + self.w3 == self.area
        &&& 0 < self.area <= 2251799813685248
    }
}

/// The fixed-point coordinate of the center of pixel `p`.
pub open spec fn center(p: int) -> int {
    p * SUBPIXEL + HALF_SUBPIXEL
}

/// The edge function of the directed edge u -> v at point p: twice the
/// signed area of the triangle (u, v, p).
pub open spec fn edge_fn(ux: int, uy: int, vx: int, vy: int, px: int, py: int) -> int {
    (uy - vy) * (px - vx) + (vx - ux) * (py - vy)
}

/// Twice the signed area of triangle (a, b, c).
pub open spec fn signed_area(a: ScreenPoint, b: ScreenPoint, c: ScreenPoint) -> int {
    edge_fn(b.x as int, b.y as int, c.x as int, c.y as int, a.x as int, a.y as int)
}

/// Unnormalized barycentric weights of point p; the weight of a vertex is
/// the edge function of the opposite edge.
pub open spec fn weight1(a: ScreenPoint, b: ScreenPoint, c: ScreenPoint, px: int, py: int) -> int {
    edge_fn(b.x as int, b.y as int, c.x as int, c.y as int, px, py)
}

pub open spec fn weight2(a: ScreenPoint, b: ScreenPoint, c: ScreenPoint, px: int, py: int) -> int {
    edge_fn(c.x as int, c.y as int, a.x as int, a.y as int, px, py)
}

pub open spec fn weight3(a: ScreenPoint, b: ScreenPoint, c: ScreenPoint, px: int, py: int) -> int {
    edge_fn(a.x as int, a.y as int, b.x as int, b.y as int, px, py)
}

/// A weight with the sign of the triangle's orientation taken out.
pub open spec fn orient(area: int, w: int) -> int {
    if area > 0 {
        w
    } else {
        -w
    }
}

/// Point p is inside the non-degenerate triangle, edges included: every
/// weight `w / area` is non-negative.
pub open spec fn inside(a: ScreenPoint, b: ScreenPoint, c: ScreenPoint, px: int, py: int) -> bool {
    let area = signed_area(a, b, c);
    let w1 = weight1(a, b, c, px, py);
    let w2 = weight2(a, b, c, px, py);
    let w3 = weight3(a, b, c, px, py);
    ||| area > 0 && w1 >= 0 && w2 >= 0 && w3 >= 0
    ||| area < 0 && w1 <= 0 && w2 <= 0 && w3 <= 0
}

/// The center of pixel (x, y) is inside the triangle.
pub open spec fn covers(a: ScreenPoint, b: ScreenPoint, c: ScreenPoint, x: int, y: int) -> bool {
    inside(a, b, c, center(x), center(y))
}

/// `f` is the fragment of its pixel: weights and area made non-negative by
/// the triangle's orientation, depth the weighted mean of the vertex depths
/// rounded down.
pub open spec fn is_fragment_of(f: Fragment, a: ScreenPoint, b: ScreenPoint, c: ScreenPoint) -> bool {
    let px = center(f.x as int);
    let py = center(f.y as int);
    let area = signed_area(a, b, c);
    &&& covers(a, b, c, f.x as int, f.y as int)
    &&& f.area == orient(area, area)
    &&& f.w1 == orient(area, weight1(a, b, c, px, py))
    &&& f.w2 == orient(area, weight2(a, b, c, px, py))
    &&& f.w3 == orient(area, weight3(a, b, c, px, py))
    &&& f.depth == (f.w1 * a.z + f.w2 * b.z + f.w3 * c.z) / (f.area as int)
}

/// Pixel (x1, y1) comes before (x2, y2) in row-major order.
pub open spec fn before(x1: int, y1: int, x2: int, y2: int) -> bool {
    y1 < y2 || (y1 == y2 && x1 < x2)
}

/// Some fragment of `s` is at pixel (x, y).
pub open spec fn has_pixel(s: Seq<Fragment>, x: int, y: int) -> bool {
    exists|k: int| 0 <= k < s.len() && s[k].x == x && s[k].y == y
}

/// The barycentric identities in coordinates relative to the third vertex.
proof fn lemma_relative_weights(ax: int, ay: int, bx: int, by: int, px: int, py: int)
    ensures
        (by * px - bx * py) + (ax * py - ay * px) + ((ay - by) * (px - bx) + (bx - ax) * (py - by))
            == by * ax - bx * ay,
        (by * px - bx * py) * ax + (ax * py - ay * px) * bx == (by * ax - bx * ay) * px,
        (by * px - bx * py) * ay + (ax * py - ay * px) * by == (by * ax - bx * ay) * py,
{
    assert((ay - by) * (px - bx) == ay * px - ay * bx - by * px + by * bx) by (nonlinear_arith);
    assert((bx - ax) * (py - by) == bx * py - bx * by - ax * py + ax * by) by (nonlinear_arith);
    assert(by * bx == bx * by) by (nonlinear_arith);
    assert(ax * by == by * ax) by (nonlinear_arith);
    assert(ay * bx == bx * ay) by (nonlinear_arith);
    assert((by * px - bx * py) * ax == ax * by * px - ax * bx * py) by (nonlinear_arith);
    assert((ax * py - ay * px) * bx == ax * bx * py - ay * bx * px) by (nonlinear_arith);
    assert((by * ax - bx * ay) * px == ax * by * px - ay * bx * px) by (nonlinear_arith);
    assert((by * px - bx * py) * ay == ay * by * px - ay * bx * py) by (nonlinear_arith);
    assert((ax * py - ay * px) * by == ax * by * py - ay * by * px) by (nonlinear_arith);
    assert((by * ax - bx * ay) * py == ax * by * py - ay * bx * py) by (nonlinear_arith);
}

/// The weights sum to twice the signed area, and they rebuild the point:
/// `area * p == w1 * a + w2 * b + w3 * c`, coordinate by coordinate.
pub proof fn lemma_weights_barycentric(a: ScreenPoint, b: ScreenPoint, c: ScreenPoint, px: int, py: int)
    ensures
        weight1(a, b, c, px, py) + weight2(a, b, c, px, py) + weight3(a, b, c, px, py)
            == signed_area(a, b, c),
        weight1(a, b, c, px, py) * a.x + weight2(a, b, c, px, py) * b.x + weight3(a, b, c, px, py)
            * c.x == signed_area(a, b, c) * px,
        weight1(a, b, c, px, py) * a.y + weight2(a, b, c, px, py) * b.y + weight3(a, b, c, px, py)
            * c.y == signed_area(a, b, c) * py,
{
    let cx = c.x as int;
    let cy = c.y as int;
    let ax = a.x - cx;
    let ay = a.y - cy;
    let bx = b.x - cx;
    let by = b.y - cy;
    let qx = px - cx;
    let qy = py - cy;
    lemma_relative_weights(ax, ay, bx, by, qx, qy);
    let w1 = weight1(a, b, c, px, py);
    let w2 = weight2(a, b, c, px, py);
    let w3 = weight3(a, b, c, px, py);
    let area = signed_area(a, b, c);
    assert(w1 == by * qx - bx * qy) by (nonlinear_arith)
        requires
            w1 == (b.y - cy) * (px - cx) + (cx - b.x) * (py - cy),
            by == b.y - cy,
            bx == b.x - cx,
            qx == px - cx,
            qy == py - cy,
    ;
    assert(w2 == ax * qy - ay * qx) by (nonlinear_arith)
        requires
            w2 == (cy - a.y) * (px - a.x) + (a.x - cx) * (py - a.y),
            ay == a.y - cy,
            ax == a.x - cx,
            qx == px - cx,
            qy == py - cy,
    ;
    assert(w3 == (ay - by) * (qx - bx) + (bx - ax) * (qy - by));
    assert(area == by * ax - bx * ay) by (nonlinear_arith)
        requires
            area == (b.y - cy) * (a.x - cx) + (cx - b.x) * (a.y - cy),
            by == b.y - cy,
            bx == b.x - cx,
            ax == a.x - cx,
            ay == a.y - cy,
    ;
    assert(w1 * a.x + w2 * b.x + w3 * c.x == (w1 * ax + w2 * bx) + (w1 + w2 + w3) * cx)
        by (nonlinear_arith)
        requires
            ax == a.x - cx,
            bx == b.x - cx,
            cx == c.x,
    ;
    assert(area * px == area * qx + area * cx) by (nonlinear_arith)
        requires
            qx == px - cx,
    ;
    assert(w1 * a.y + w2 * b.y + w3 * c.y == (w1 * ay + w2 * by) + (w1 + w2 + w3) * cy)
        by (nonlinear_arith)
        requires
            ay == a.y - cy,
            by == b.y - cy,
            cy == c.y,
    ;
    assert(area * py == area * qy + area * cy) by (nonlinear_arith)
        requires
            qy == py - cy,
    ;
}

/// For a non-degenerate triangle the weights `w / area` of every point sum
/// to one; at a point inside they are all non-negative, and at a point
/// outside at least one of them is negative.
pub proof fn lemma_inside_iff_weights_nonnegative(
    a: ScreenPoint,
    b: ScreenPoint,
    c: ScreenPoint,
    px: int,
    py: int,
)
    requires
        signed_area(a, b, c) != 0,
    ensures
        ({
            let area = signed_area(a, b, c);
            let v1 = orient(area, weight1(a, b, c, px, py));
            let v2 = orient(area, weight2(a, b, c, px, py));
            let v3 = orient(area, weight3(a, b, c, px, py));
            &&& orient(area, area) > 0
            &&& v1 + v2 + v3 == orient(area, area)
            &&& inside(a, b, c, px, py) <==> (v1 >= 0 && v2 >= 0 && v3 >= 0)
            &&& !inside(a, b, c, px, py) ==> (v1 < 0 || v2 < 0 || v3 < 0)
        }),
{
    lemma_weights_barycentric(a, b, c, px, py);
}

/// A point inside the triangle lies within the triangle's bounding box.
pub proof fn lemma_inside_bounding_box(a: ScreenPoint, b: ScreenPoint, c: ScreenPoint, px: int, py: int)
    requires
        inside(a, b, c, px, py),
    ensures
        min3(a.x as int, b.x as int, c.x as int) <= px <= max3(a.x as int, b.x as int, c.x as int),
        min3(a.y as int, b.y as int, c.y as int) <= py <= max3(a.y as int, b.y as int, c.y as int),
{
    lemma_weights_barycentric(a, b, c, px, py);
    let area = signed_area(a, b, c);
    let w1 = weight1(a, b, c, px, py);
    let w2 = weight2(a, b, c, px, py);
    let w3 = weight3(a, b, c, px, py);
    if area > 0 {
        lemma_convex_between(w1, w2, w3, area, a.x as int, b.x as int, c.x as int, px);
        lemma_convex_between(w1, w2, w3, area, a.y as int, b.y as int, c.y as int, py);
    } else {
        lemma_negate_combination(w1, w2, w3, area, a.x as int, b.x as int, c.x as int, px);
        lemma_negate_combination(w1, w2, w3, area, a.y as int, b.y as int, c.y as int, py);
        lemma_convex_between(-w1, -w2, -w3, -area, a.x as int, b.x as int, c.x as int, px);
        lemma_convex_between(-w1, -w2, -w3, -area, a.y as int, b.y as int, c.y as int, py);
    }
}

proof fn lemma_negate_combination(w1: int, w2: int, w3: int, t: int, x1: int, x2: int, x3: int, p: int)
    requires
        w1 * x1 + w2 * x2 + w3 * x3 == t * p,
    ensures
        (-w1) * x1 + (-w2) * x2 + (-w3) * x3 == (-t) * p,
{
    assert((-w1) * x1 == -(w1 * x1)) by (nonlinear_arith);
    assert((-w2) * x2 == -(w2 * x2)) by (nonlinear_arith);
    assert((-w3) * x3 == -(w3 * x3)) by (nonlinear_arith);
    assert((-t) * p == -(t * p)) by (nonlinear_arith);
}

pub open spec fn min3(a: int, b: int, c: int) -> int {
    if a <= b && a <= c {
        a
    } else if b <= c {
        b
    } else {
        c
    }
}

pub open spec fn max3(a: int, b: int, c: int) -> int {
    if a >= b && a >= c {
        a
    } else if b >= c {
        b
    } else {
        c
    }
}

/// A point whose scaled coordinate is a non-negative combination of three
/// coordinates lies between their minimum and maximum.
proof fn lemma_convex_between(v1: int, v2: int, v3: int, t: int, x1: int, x2: int, x3: int, p: int)
    requires
        v1 >= 0,
        v2 >= 0,
        v3 >= 0,
        v1 + v2 + v3 == t,
        t > 0,
        v1 * x1 + v2 * x2 + v3 * x3 == t * p,
    ensures
        min3(x1, x2, x3) <= p <= max3(x1, x2, x3),
{
    let lo = min3(x1, x2, x3);
    let hi = max3(x1, x2, x3);
    assert(t * lo <= t * p) by (nonlinear_arith)
        requires
            v1 >= 0,
            v2 >= 0,
            v3 >= 0,
            v1 + v2 + v3 == t,
            v1 * x1 + v2 * x2 + v3 * x3 == t * p,
            lo <= x1,
            lo <= x2,
            lo <= x3,
    ;
    assert(t * p <= t * hi) by (nonlinear_arith)
        requires
            v1 >= 0,
            v2 >= 0,
            v3 >= 0,
            v1 + v2 + v3 == t,
            v1 * x1 + v2 * x2 + v3 * x3 == t * p,
            x1 <= hi,
            x2 <= hi,
            x3 <= hi,
    ;
    assert(lo <= p) by (nonlinear_arith)
        requires
            t * lo <= t * p,
            t > 0,
    ;
    assert(p <= hi) by (nonlinear_arith)
        requires
            t * p <= t * hi,
            t > 0,
    ;
}

/// The edge function at a point, in machine integers.
fn edge(ux: i64, uy: i64, vx: i64, vy: i64, px: i64, py: i64) -> (r: i64)
    requires
        -COORD_LIMIT <= ux <= COORD_LIMIT,
        -COORD_LIMIT <= uy <= COORD_LIMIT,
        -COORD_LIMIT <= vx <= COORD_LIMIT,
        -COORD_LIMIT <= vy <= COORD_LIMIT,
        -COORD_LIMIT <= px <= COORD_LIMIT,
        -COORD_LIMIT <= py <= COORD_LIMIT,
    ensures
        r == edge_fn(ux as int, uy as int, vx as int, vy as int, px as int, py as int),
        -2251799813685248 <= r <= 2251799813685248,
{
    let d1 = uy - vy;
    let d2 = px - vx;
    let d3 = vx - ux;
    let d4 = py - vy;
    proof {
        lemma_product_bound(d1 as int, d2 as int);
        lemma_product_bound(d3 as int, d4 as int);
    }
    d1 * d2 + d3 * d4
}

proof fn lemma_product_bound(a: int, b: int)
    requires
        -33554432 <= a <= 33554432,
        -33554432 <= b <= 33554432,
    ensures
        -1125899906842624 <= a * b <= 1125899906842624,
{
    assert(-1125899906842624 <= a * b <= 1125899906842624) by (nonlinear_arith)
        requires
            -33554432 <= a <= 33554432,
            -33554432 <= b <= 33554432,
    ;
}

/// `n / d` rounded down, for a positive `d`.
pub(crate) fn floor_div(n: i128, d: i128) -> (q: i128)
    requires
        d > 0,
        n > i128::MIN,
    ensures
        q == n / d,
{
    if n >= 0 {
        n / d
    } else {
        let m = -n - 1;
        let q0 = m / d;
        proof {
            lemma_fundamental_div_mod(m as int, d as int);
            let r = m % d;
            assert(0 <= r < d);
            assert(n == (-q0 - 1) * d + (d - r - 1)) by (nonlinear_arith)
                requires
                    m == d * q0 + r,
                    m == -n - 1,
            ;
            lemma_fundamental_div_mod_converse(n as int, d as int, -q0 - 1, d - r - 1);
        }
        -q0 - 1
    }
}

/// The weighted mean of three values at a fragment, rounded down.
pub(crate) fn weighted_mean(w1: i64, w2: i64, w3: i64, area: i64, za: i64, zb: i64, zc: i64) -> (d: i64)
    requires
        0 <= w1,
        0 <= w2,
        0 <= w3,
        w1 + w2 + w3 == area,
        0 < area <= 8 * COORD_LIMIT * COORD_LIMIT * 3,
        -ATTRIBUTE_LIMIT <= za <= ATTRIBUTE_LIMIT,
        -ATTRIBUTE_LIMIT <= zb <= ATTRIBUTE_LIMIT,
        -ATTRIBUTE_LIMIT <= zc <= ATTRIBUTE_LIMIT,
    ensures
        d == (w1 * za + w2 * zb + w3 * zc) / (area as int),
        -ATTRIBUTE_LIMIT <= d <= ATTRIBUTE_LIMIT,
        -COORD_LIMIT <= za && -COORD_LIMIT <= zb && -COORD_LIMIT <= zc && za <= COORD_LIMIT && zb
            <= COORD_LIMIT && zc <= COORD_LIMIT ==> -COORD_LIMIT <= d <= COORD_LIMIT,
{
    let ghost l: int = ATTRIBUTE_LIMIT as int;
    let ghost big: int = 8 * COORD_LIMIT * COORD_LIMIT * 3;
    proof {
        assert(-(big * l) <= w1 * za <= big * l) by (nonlinear_arith)
            requires
                0 <= w1 <= big,
                -l <= za <= l,
        ;
        assert(-(big * l) <= w2 * zb <= big * l) by (nonlinear_arith)
            requires
                0 <= w2 <= big,
                -l <= zb <= l,
        ;
        assert(-(big * l) <= w3 * zc <= big * l) by (nonlinear_arith)
            requires
                0 <= w3 <= big,
                -l <= zc <= l,
        ;
    }
    let n: i128 = (w1 as i128) * (za as i128) + (w2 as i128) * (zb as i128) + (w3 as i128) * (
    zc as i128);
    let q = floor_div(n, area as i128);
    proof {
        let ni = n as int;
        let ai = area as int;
        assert(-l * ai <= ni <= l * ai) by (nonlinear_arith)
            requires
                ni == w1 * za + w2 * zb + w3 * zc,
                0 <= w1,
                0 <= w2,
                0 <= w3,
                w1 + w2 + w3 == ai,
                -l <= za <= l,
                -l <= zb <= l,
                -l <= zc <= l,
        ;
        lemma_fundamental_div_mod(ni, ai);
        assert(-l <= q <= l) by (nonlinear_arith)
            requires
                ni == ai * q + ni % ai,
                0 <= ni % ai < ai,
                -l * ai <= ni <= l * ai,
                ai > 0,
        ;
        let c = COORD_LIMIT as int;
        if -c <= za <= c && -c <= zb <= c && -c <= zc <= c {
            assert(-c * ai <= ni <= c * ai) by (nonlinear_arith)
                requires
                    ni == w1 * za + w2 * zb + w3 * zc,
                    0 <= w1,
                    0 <= w2,
                    0 <= w3,
                    w1 + w2 + w3 == ai,
                    -c <= za <= c,
                    -c <= zb <= c,
                    -c <= zc <= c,
            ;
            assert(-c <= q <= c) by (nonlinear_arith)
                requires
                    ni == ai * q + ni % ai,
                    0 <= ni % ai < ai,
                    -c * ai <= ni <= c * ai,
                    ai > 0,
            ;
        }
    }
    q as i64
}

/// A fragment of a triangle whose three vertices all lie deeper than `far`
/// lies deeper than `far` too.
pub proof fn lemma_fragment_beyond_far(f: Fragment, a: ScreenPoint, b: ScreenPoint, c: ScreenPoint, far: int)
    requires
        is_fragment_of(f, a, b, c),
        f.wf(),
        a.z > far,
        b.z > far,
        c.z > far,
    ensures
        f.depth > far,
{
    let n = f.w1 * a.z + f.w2 * b.z + f.w3 * c.z;
    let ar = f.area as int;
    assert(n >= ar * (far + 1)) by (nonlinear_arith)
        requires
            n == f.w1 * a.z + f.w2 * b.z + f.w3 * c.z,
            0 <= f.w1,
            0 <= f.w2,
            0 <= f.w3,
            f.w1 + f.w2 + f.w3 == ar,
            a.z >= far + 1,
            b.z >= far + 1,
            c.z >= far + 1,
    ;
    lemma_fundamental_div_mod(n, ar);
    assert(n / ar >= far + 1) by (nonlinear_arith)
        requires
            n == ar * (n / ar) + n % ar,
            0 <= n % ar < ar,
            n >= ar * (far + 1),
            ar > 0,
    ;
}

fn min3_exec(a: i64, b: i64, c: i64) -> (m: i64)
    ensures
        m == min3(a as int, b as int, c as int),
{
    if a <= b && a <= c {
        a
    } else if b <= c {
        b
    } else {
        c
    }
}

fn max3_exec(a: i64, b: i64, c: i64) -> (m: i64)
    ensures
        m == max3(a as int, b as int, c as int),
{
    if a >= b && a >= c {
        a
    } else if b >= c {
        b
    } else {
        c
    }
}

/// The pixels `start <= p < end` are exactly those in `0 <= p < limit`
/// whose center lies in `[lo, hi]`.
fn pixel_span(lo: i64, hi: i64, limit: i32) -> (r: (i32, i32))
    requires
        -COORD_LIMIT <= lo <= COORD_LIMIT,
        -COORD_LIMIT <= hi <= COORD_LIMIT,
        0 <= limit,
    ensures
        0 <= r.0,
        r.1 <= limit,
        forall|p: int|
            #![trigger center(p)]
            (r.0 <= p < r.1) <==> (0 <= p < limit && lo <= center(p) <= hi),
{
    let start: i64 = if lo <= HALF_SUBPIXEL {
        0
    } else {
        (lo - HALF_SUBPIXEL + SUBPIXEL - 1) / SUBPIXEL
    };
    let end: i64 = if hi < HALF_SUBPIXEL {
        0
    } else {
        let e = (hi - HALF_SUBPIXEL) / SUBPIXEL + 1;
        if e > limit as i64 {
            limit as i64
        } else {
            e
        }
    };
    proof {
        if lo > HALF_SUBPIXEL {
            lemma_fundamental_div_mod((lo - HALF_SUBPIXEL + SUBPIXEL - 1) as int, SUBPIXEL as int);
        }
        if hi >= HALF_SUBPIXEL {
            lemma_fundamental_div_mod((hi - HALF_SUBPIXEL) as int, SUBPIXEL as int);
        }
    }
    (start as i32, end as i32)
}

/// Every pixel on the target before (x, y) in row-major order whose center
/// the triangle covers has a fragment in `s`.
pub open spec fn scanned_to(
    s: Seq<Fragment>,
    a: ScreenPoint,
    b: ScreenPoint,
    c: ScreenPoint,
    width: int,
    height: int,
    x: int,
    y: int,
) -> bool {
    forall|px: int, py: int|
        0 <= px < width && 0 <= py < height && #[trigger] covers(a, b, c, px, py) && before(
            px,
            py,
            x,
            y,
        ) ==> has_pixel(s, px, py)
}

proof fn lemma_has_pixel_push(s: Seq<Fragment>, f: Fragment)
    ensures
        forall|x: int, y: int| has_pixel(s, x, y) ==> #[trigger] has_pixel(s.push(f), x, y),
        has_pixel(s.push(f), f.x as int, f.y as int),
{
    assert forall|x: int, y: int| has_pixel(s, x, y) implies #[trigger] has_pixel(
        s.push(f),
        x,
        y,
    ) by {
        let k = choose|k: int| 0 <= k < s.len() && s[k].x == x && s[k].y == y;
        assert(s.push(f)[k] == s[k]);
    }
    assert(s.push(f)[s.len() as int] == f);
}

/// Rasterizes triangle (v1, v2, v3) onto a `width x height` target: one
/// fragment for each pixel whose center the triangle covers, edges included,
/// in row-major order. A triangle of zero area covers no pixel.
pub fn triangle(v1: &ScreenPoint, v2: &ScreenPoint, v3: &ScreenPoint, width: i32, height: i32) -> (frags: Vec<Fragment>)
    requires
        v1.bounded(),
        v2.bounded(),
        v3.bounded(),
        0 <= width,
        0 <= height,
    ensures
        forall|k: int|
            0 <= k < frags.len() ==> {
                &&& 0 <= #[trigger] frags[k].x < width
                &&& 0 <= frags[k].y < height
                &&& is_fragment_of(frags[k], *v1, *v2, *v3)
                &&& frags[k].wf()
            },
        forall|i: int, j: int|
            0 <= i < j < frags.len() ==> before(
                #[trigger] frags[i].x as int,
                frags[i].y as int,
                #[trigger] frags[j].x as int,
                frags[j].y as int,
            ),
        forall|x: int, y: int|
            0 <= x < width && 0 <= y < height && #[trigger] covers(*v1, *v2, *v3, x, y)
                ==> has_pixel(frags@, x, y),
{
    let a = *v1;
    let b = *v2;
    let c = *v3;
    let mut frags: Vec<Fragment> = Vec::new();
    let area = edge(b.x, b.y, c.x, c.y, a.x, a.y);
    if area == 0 {
        return frags;
    }
    let (x0, x1) = pixel_span(min3_exec(a.x, b.x, c.x), max3_exec(a.x, b.x, c.x), width);
    let (y0, y1) = pixel_span(min3_exec(a.y, b.y, c.y), max3_exec(a.y, b.y, c.y), height);
    let ghost minx = min3(a.x as int, b.x as int, c.x as int);
    let ghost maxx = max3(a.x as int, b.x as int, c.x as int);
    let ghost miny = min3(a.y as int, b.y as int, c.y as int);
    let ghost maxy = max3(a.y as int, b.y as int, c.y as int);
    proof {
        assert forall|px: int, py: int|
            0 <= px < width && 0 <= py < height && #[trigger] covers(a, b, c, px, py) implies x0
            <= px < x1 && y0 <= py < y1 by {
            lemma_inside_bounding_box(a, b, c, center(px), center(py));
        }
    }
    let mut y: i32 = y0;
    while y < y1
        invariant
            0 <= y0 <= y,
            y <= y1 || y == y0,
            0 <= x0,
            x1 <= width,
            y1 <= height,
            a == *v1,
            b == *v2,
            c == *v3,
            a.bounded(),
            b.bounded(),
            c.bounded(),
            area == signed_area(a, b, c),
            area != 0,
            -COORD_LIMIT <= minx,
            maxx <= COORD_LIMIT,
            -COORD_LIMIT <= miny,
            maxy <= COORD_LIMIT,
            -2251799813685248 <= area <= 2251799813685248,
            forall|p: int|
                #![trigger center(p)]
                (x0 <= p < x1) <==> (0 <= p < width && minx <= center(p) <= maxx),
            forall|p: int|
                #![trigger center(p)]
                (y0 <= p < y1) <==> (0 <= p < height && miny <= center(p) <= maxy),
            forall|px: int, py: int|
                0 <= px < width && 0 <= py < height && #[trigger] covers(a, b, c, px, py)
                    ==> x0 <= px < x1 && y0 <= py < y1,
            forall|k: int|
                0 <= k < frags.len() ==> {
                    &&& 0 <= #[trigger] frags[k].x < width
                    &&& 0 <= frags[k].y < height
                    &&& is_fragment_of(frags[k], a, b, c)
                    &&& frags[k].wf()
                    &&& frags[k].y < y
                },
            forall|i: int, j: int|
                0 <= i < j < frags.len() ==> before(
                    #[trigger] frags[i].x as int,
                    frags[i].y as int,
                    #[trigger] frags[j].x as int,
                    frags[j].y as int,
                ),
            scanned_to(frags@, a, b, c, width as int, height as int, 0, y as int),
        decreases y1 - y,
    {
        let mut x: i32 = x0;
        let py: i64 = y as i64 * SUBPIXEL + HALF_SUBPIXEL;
        assert(center(y as int) == py);
        while x < x1
            invariant
                0 <= x0 <= x,
                x <= x1 || x == x0,
                y0 <= y < y1,
                0 <= x0,
                x1 <= width,
                y1 <= height,
                py == center(y as int),
                a == *v1,
                b == *v2,
                c == *v3,
                a.bounded(),
                b.bounded(),
                c.bounded(),
                area == signed_area(a, b, c),
                area != 0,
                -COORD_LIMIT <= minx,
                maxx <= COORD_LIMIT,
                -COORD_LIMIT <= miny,
                maxy <= COORD_LIMIT,
                -2251799813685248 <= area <= 2251799813685248,
                forall|p: int|
                    #![trigger center(p)]
                    (x0 <= p < x1) <==> (0 <= p < width && minx <= center(p) <= maxx),
                forall|p: int|
                    #![trigger center(p)]
                    (y0 <= p < y1) <==> (0 <= p < height && miny <= center(p) <= maxy),
                forall|px: int, py: int|
                    0 <= px < width && 0 <= py < height && #[trigger] covers(a, b, c, px, py)
                        ==> x0 <= px < x1 && y0 <= py < y1,
                forall|k: int|
                    0 <= k < frags.len() ==> {
                        &&& 0 <= #[trigger] frags[k].x < width
                        &&& 0 <= frags[k].y < height
                        &&& is_fragment_of(frags[k], a, b, c)
                        &&& frags[k].wf()
                        &&& before(frags[k].x as int, frags[k].y as int, x as int, y as int)
                    },
                forall|i: int, j: int|
                    0 <= i < j < frags.len() ==> before(
                        #[trigger] frags[i].x as int,
                        frags[i].y as int,
                        #[trigger] frags[j].x as int,
                        frags[j].y as int,
                    ),
                scanned_to(frags@, a, b, c, width as int, height as int, x as int, y as int),
            decreases x1 - x,
        {
            let px: i64 = x as i64 * SUBPIXEL + HALF_SUBPIXEL;
            assert(center(x as int) == px);
            assert(x0 <= x < x1);
            assert(minx <= center(x as int) <= maxx);
            assert(miny <= center(y as int) <= maxy);
            let w1 = edge(b.x, b.y, c.x, c.y, px, py);
            let w2 = edge(c.x, c.y, a.x, a.y, px, py);
            let w3 = edge(a.x, a.y, b.x, b.y, px, py);
            let is_inside = if area > 0 {
                w1 >= 0 && w2 >= 0 && w3 >= 0
            } else {
                w1 <= 0 && w2 <= 0 && w3 <= 0
            };
            assert(is_inside == covers(a, b, c, x as int, y as int));
            if is_inside {
                proof {
                    lemma_weights_barycentric(a, b, c, px as int, py as int);
                }
                let (n1, n2, n3, na) = if area > 0 {
                    (w1, w2, w3, area)
                } else {
                    (-w1, -w2, -w3, -area)
                };
                let depth = weighted_mean(n1, n2, n3, na, a.z, b.z, c.z);
                let f = Fragment { x, y, depth, w1: n1, w2: n2, w3: n3, area: na };
                proof {
                    lemma_has_pixel_push(frags@, f);
                }
                frags.push(f);
            }
            x = x + 1;
        }
        y = y + 1;
    }
    frags
}

} // verus!
