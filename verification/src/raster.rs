//! Triangle coverage on an integer grid.
//!
//! Vertices arrive in fixed point, [`SUBPIXEL`] units to the pixel, so that
//! coverage is decided by exact integer arithmetic. Pixel `(x, y)` is
//! sampled at its own coordinates, and a triangle covers the samples of its
//! closed region: its interior, its edges and its corners.
use vstd::prelude::*;

use crate::arith::{
    greatest, least, lemma_cancel, lemma_distribute, lemma_expand, lemma_rotate, lemma_sign,
};

verus! {

/// The number of fixed-point units in one pixel.
pub const SUBPIXEL: i32 = 16;

/// A position on the screen in fixed point.
#[derive(Clone, Copy, PartialEq, Eq, Structural, Debug)]
pub struct ScreenPoint {
    pub x: i32,
    pub y: i32,
}

/// A pixel that a triangle covers, with its barycentric weights.
///
/// The weights are not normalised: `w0`, `w1` and `w2` belong to the first,
/// second and third vertex, and they add up to twice the signed area of the
/// triangle. An attribute is interpolated as the weighted sum of its values
/// at the vertices, divided by the sum of the weights.
#[derive(Clone, Copy, PartialEq, Eq, Structural, Debug)]
pub struct Sample {
    pub x: usize,
    pub y: usize,
    pub w0: i128,
    pub w1: i128,
    pub w2: i128,
}

/// No weight of a sample that [`triangle`] yields exceeds this magnitude.
pub const WEIGHT_LIMIT: i128 = 0x4_0000_0000_0000_0000;

/// The edge function: twice the signed area of the triangle
/// `(ax, ay)`, `(bx, by)`, `(px, py)`.
pub open spec fn edge(ax: int, ay: int, bx: int, by: int, px: int, py: int) -> int {
    (bx - ax) * (py - ay) - (by - ay) * (px - ax)
}

/// Twice the signed area of a triangle.
pub open spec fn area(a: ScreenPoint, b: ScreenPoint, c: ScreenPoint) -> int {
    edge(a.x as int, a.y as int, b.x as int, b.y as int, c.x as int, c.y as int)
}

/// The weight of the first vertex at the sample of pixel `(px, py)`.
pub open spec fn weight0(a: ScreenPoint, b: ScreenPoint, c: ScreenPoint, px: int, py: int) -> int {
    edge(b.x as int, b.y as int, c.x as int, c.y as int, px * SUBPIXEL, py * SUBPIXEL)
}

/// The weight of the second vertex at the sample of pixel `(px, py)`.
pub open spec fn weight1(a: ScreenPoint, b: ScreenPoint, c: ScreenPoint, px: int, py: int) -> int {
    edge(c.x as int, c.y as int, a.x as int, a.y as int, px * SUBPIXEL, py * SUBPIXEL)
}

/// The weight of the third vertex at the sample of pixel `(px, py)`.
pub open spec fn weight2(a: ScreenPoint, b: ScreenPoint, c: ScreenPoint, px: int, py: int) -> int {
    edge(a.x as int, a.y as int, b.x as int, b.y as int, px * SUBPIXEL, py * SUBPIXEL)
}

/// Whether the triangle covers pixel `(px, py)`: its area is not zero, and
/// no weight has the sign opposite to the area's. Either winding counts.
pub open spec fn covers(a: ScreenPoint, b: ScreenPoint, c: ScreenPoint, px: int, py: int) -> bool {
    let s = area(a, b, c);
    let w0 = weight0(a, b, c, px, py);
    let w1 = weight1(a, b, c, px, py);
    let w2 = weight2(a, b, c, px, py);
    ||| s > 0 && w0 >= 0 && w1 >= 0 && w2 >= 0
    ||| s < 0 && w0 <= 0 && w1 <= 0 && w2 <= 0
}

/// Row-major order on pixels.
pub open spec fn precedes(x1: int, y1: int, x2: int, y2: int) -> bool {
    y1 < y2 || (y1 == y2 && x1 < x2)
}

/// Whether `sample` is what the triangle yields at one of the pixels of a
/// `width` by `height` raster that it covers.
pub open spec fn sample_of(
    sample: Sample,
    a: ScreenPoint,
    b: ScreenPoint,
    c: ScreenPoint,
    width: int,
    height: int,
) -> bool {
    &&& sample.x < width
    &&& sample.y < height
    &&& covers(a, b, c, sample.x as int, sample.y as int)
    &&& sample.w0 == weight0(a, b, c, sample.x as int, sample.y as int)
    &&& sample.w1 == weight1(a, b, c, sample.x as int, sample.y as int)
    &&& sample.w2 == weight2(a, b, c, sample.x as int, sample.y as int)
}

/// Whether `samples` holds one for pixel `(px, py)`.
pub open spec fn samples_hold(samples: Seq<Sample>, px: int, py: int) -> bool {
    exists|k: int| 0 <= k < samples.len() && (#[trigger] samples[k]).x == px && samples[k].y == py
}

/// Whether `samples` is the coverage of the triangle on a `width` by
/// `height` raster: one sample for each covered pixel and no other, in
/// row-major order. There is one such sequence for each triangle.
pub open spec fn coverage_of(
    samples: Seq<Sample>,
    a: ScreenPoint,
    b: ScreenPoint,
    c: ScreenPoint,
    width: int,
    height: int,
) -> bool {
    &&& forall|k: int| 0 <= k < samples.len() ==> sample_of(#[trigger] samples[k], a, b, c, width, height)
    &&& forall|k: int, l: int|
        0 <= k < l < samples.len() ==> precedes(
            (#[trigger] samples[k]).x as int,
            samples[k].y as int,
            (#[trigger] samples[l]).x as int,
            samples[l].y as int,
        )
    &&& forall|px: int, py: int|
        0 <= px < width && 0 <= py < height && #[trigger] covers(a, b, c, px, py) ==> samples_hold(
            samples,
            px,
            py,
        )
}

proof fn lemma_coverage_prefix(
    first: Seq<Sample>,
    second: Seq<Sample>,
    a: ScreenPoint,
    b: ScreenPoint,
    c: ScreenPoint,
    width: int,
    height: int,
    n: int,
)
    requires
        coverage_of(first, a, b, c, width, height),
        coverage_of(second, a, b, c, width, height),
        0 <= n <= first.len(),
    ensures
        n <= second.len(),
        forall|k: int| 0 <= k < n ==> first[k] == second[k],
    decreases n,
{
    if n > 0 {
        lemma_coverage_prefix(first, second, a, b, c, width, height, n - 1);
        let k = n - 1;
        let p = first[k];
        assert(sample_of(p, a, b, c, width, height));
        assert(covers(a, b, c, p.x as int, p.y as int));
        assert(samples_hold(second, p.x as int, p.y as int));
        let m = choose|m: int|
            0 <= m < second.len() && (#[trigger] second[m]).x == p.x && second[m].y == p.y;
        if m < k {
            assert(first[m] == second[m]);
            assert(precedes(first[m].x as int, first[m].y as int, first[k].x as int, first[k].y as int));
        } else if m > k {
            let q = second[k];
            assert(sample_of(q, a, b, c, width, height));
            assert(covers(a, b, c, q.x as int, q.y as int));
            assert(samples_hold(first, q.x as int, q.y as int));
            let i = choose|i: int|
                0 <= i < first.len() && (#[trigger] first[i]).x == q.x && first[i].y == q.y;
            assert(precedes(
                second[k].x as int,
                second[k].y as int,
                second[m].x as int,
                second[m].y as int,
            ));
            if i < k {
                assert(first[i] == second[i]);
                assert(precedes(
                    second[i].x as int,
                    second[i].y as int,
                    second[k].x as int,
                    second[k].y as int,
                ));
            } else if i > k {
                assert(precedes(
                    first[k].x as int,
                    first[k].y as int,
                    first[i].x as int,
                    first[i].y as int,
                ));
            }
        } else {
            assert(sample_of(second[k], a, b, c, width, height));
        }
    }
}

/// A triangle has one coverage: two sequences that both are the coverage
/// of a triangle on a raster are the same sequence.
pub proof fn lemma_coverage_unique(
    first: Seq<Sample>,
    second: Seq<Sample>,
    a: ScreenPoint,
    b: ScreenPoint,
    c: ScreenPoint,
    width: int,
    height: int,
)
    requires
        coverage_of(first, a, b, c, width, height),
        coverage_of(second, a, b, c, width, height),
    ensures
        first == second,
{
    lemma_coverage_prefix(first, second, a, b, c, width, height, first.len() as int);
    lemma_coverage_prefix(second, first, a, b, c, width, height, second.len() as int);
    assert(first =~= second);
}

/// The weights at a sample add up to twice the signed area, wherever the
/// sample lies.
pub proof fn lemma_weights_sum(a: ScreenPoint, b: ScreenPoint, c: ScreenPoint, px: int, py: int)
    ensures
        weight0(a, b, c, px, py) + weight1(a, b, c, px, py) + weight2(a, b, c, px, py) == area(
            a,
            b,
            c,
        ),
{
    lemma_edges_relative(
        a.x as int,
        a.y as int,
        b.x as int,
        b.y as int,
        c.x as int,
        c.y as int,
        px * SUBPIXEL,
        py * SUBPIXEL,
    );
}

/// The three edge functions of a sample, seen from the first vertex: with
/// `u` and `v` the second and third vertex and `q` the sample, all relative
/// to the first vertex, they are `s - w1 - w2`, `w1 = q x v` and
/// `w2 = u x q`, where `s = u x v`.
proof fn lemma_edges_relative(ax: int, ay: int, bx: int, by: int, cx: int, cy: int, sx: int, sy: int)
    ensures
        edge(ax, ay, bx, by, cx, cy) == (bx - ax) * (cy - ay) - (by - ay) * (cx - ax),
        edge(ax, ay, bx, by, sx, sy) == (bx - ax) * (sy - ay) - (by - ay) * (sx - ax),
        edge(cx, cy, ax, ay, sx, sy) == (sx - ax) * (cy - ay) - (sy - ay) * (cx - ax),
        edge(bx, by, cx, cy, sx, sy) == edge(ax, ay, bx, by, cx, cy) - edge(cx, cy, ax, ay, sx, sy)
            - edge(ax, ay, bx, by, sx, sy),
{
    let ux = bx - ax;
    let uy = by - ay;
    let vx = cx - ax;
    let vy = cy - ay;
    let qx = sx - ax;
    let qy = sy - ay;
    // w1 = (0 - v) x (q - v)
    assert(ax - cx == 0 - vx && sy - cy == qy - vy && ay - cy == 0 - vy && sx - cx == qx - vx);
    lemma_expand(0, vx, qy, vy);
    lemma_expand(0, vy, qx, vx);
    assert(vx * vy == vy * vx) by (nonlinear_arith);
    assert(vx * qy == qy * vx) by (nonlinear_arith);
    assert(vy * qx == qx * vy) by (nonlinear_arith);
    assert(0 * qy == 0 && 0 * vy == 0 && 0 * qx == 0 && 0 * vx == 0);
    assert(edge(cx, cy, ax, ay, sx, sy) == qx * vy - qy * vx);
    // w0 = (v - u) x (q - u)
    assert(cx - bx == vx - ux && sy - by == qy - uy && cy - by == vy - uy && sx - bx == qx - ux);
    lemma_expand(vx, ux, qy, uy);
    lemma_expand(vy, uy, qx, ux);
    assert(vx * uy == uy * vx) by (nonlinear_arith);
    assert(vy * ux == ux * vy) by (nonlinear_arith);
    assert(ux * uy == uy * ux) by (nonlinear_arith);
}

/// Scaled by the area, the sample is the weighted sum of the vertices:
/// `s * q == w1 * u + w2 * v` along either axis, relative to the first
/// vertex.
proof fn lemma_combination(ux: int, uy: int, vx: int, vy: int, qx: int, qy: int)
    ensures
        (ux * vy - uy * vx) * qx == (qx * vy - qy * vx) * ux + (ux * qy - uy * qx) * vx,
        (ux * vy - uy * vx) * qy == (qx * vy - qy * vx) * uy + (ux * qy - uy * qx) * vy,
{
    lemma_distribute(ux * vy, uy * vx, qx);
    lemma_distribute(qx * vy, qy * vx, ux);
    lemma_distribute(ux * qy, uy * qx, vx);
    lemma_rotate(ux, vy, qx);
    lemma_rotate(uy, vx, qx);
    lemma_rotate(qy, vx, ux);
    assert((qy * vx) * ux == (ux * qy) * vx) by {
        lemma_rotate(qy, vx, ux);
        assert(qy * ux == ux * qy) by (nonlinear_arith);
    }
    lemma_distribute(ux * vy, uy * vx, qy);
    lemma_distribute(qx * vy, qy * vx, uy);
    lemma_distribute(ux * qy, uy * qx, vy);
    lemma_rotate(ux, vy, qy);
    lemma_rotate(uy, vx, qy);
    lemma_rotate(qx, vy, uy);
    assert((uy * vx) * qy == (qy * vx) * uy) by {
        lemma_rotate(uy, vx, qy);
    }
    assert((qx * vy) * uy == (uy * qx) * vy) by {
        lemma_rotate(qx, vy, uy);
        assert(qx * uy == uy * qx) by (nonlinear_arith);
    }
}

/// A weighted mean of `0`, `v1` and `v2` with weights of one sign lies
/// between the least and the greatest of the three.
proof fn lemma_mean_bounds(s: int, w0: int, w1: int, w2: int, v1: int, v2: int, p: int, lo: int, hi: int)
    requires
        s == w0 + w1 + w2,
        s * p == w1 * v1 + w2 * v2,
        (s > 0 && w0 >= 0 && w1 >= 0 && w2 >= 0) || (s < 0 && w0 <= 0 && w1 <= 0 && w2 <= 0),
        lo <= 0 <= hi,
        lo <= v1 <= hi,
        lo <= v2 <= hi,
    ensures
        lo <= p <= hi,
{
    // s * (p - lo) == w0 * (0 - lo) + w1 * (v1 - lo) + w2 * (v2 - lo)
    lemma_distribute(p, lo, s);
    lemma_distribute(0, lo, w0);
    lemma_distribute(v1, lo, w1);
    lemma_distribute(v2, lo, w2);
    lemma_distribute(w0 + w1, w2, lo);
    lemma_distribute(w0, w1, lo);
    assert(0 * w0 == 0);
    assert(s * lo == w0 * lo + w1 * lo + w2 * lo);
    assert(s * (p - lo) == w0 * (0 - lo) + w1 * (v1 - lo) + w2 * (v2 - lo));
    lemma_sign(w0, 0 - lo);
    lemma_sign(w1, v1 - lo);
    lemma_sign(w2, v2 - lo);
    lemma_cancel(s, p - lo);
    // s * (hi - p) == w0 * (hi - 0) + w1 * (hi - v1) + w2 * (hi - v2)
    lemma_distribute(hi, p, s);
    lemma_distribute(hi, 0, w0);
    lemma_distribute(hi, v1, w1);
    lemma_distribute(hi, v2, w2);
    lemma_distribute(w0 + w1, w2, hi);
    lemma_distribute(w0, w1, hi);
    assert(s * hi == w0 * hi + w1 * hi + w2 * hi);
    assert(s * (hi - p) == w0 * (hi - 0) + w1 * (hi - v1) + w2 * (hi - v2));
    lemma_sign(w0, hi - 0);
    lemma_sign(w1, hi - v1);
    lemma_sign(w2, hi - v2);
    lemma_cancel(s, hi - p);
}

/// The weights locate the sample: the vertices, weighted by them, give
/// the sample times the area.
pub proof fn lemma_weights_locate(a: ScreenPoint, b: ScreenPoint, c: ScreenPoint, px: int, py: int)
    ensures
        area(a, b, c) * (px * SUBPIXEL) == weight0(a, b, c, px, py) * a.x + weight1(a, b, c, px, py)
            * b.x + weight2(a, b, c, px, py) * c.x,
        area(a, b, c) * (py * SUBPIXEL) == weight0(a, b, c, px, py) * a.y + weight1(a, b, c, px, py)
            * b.y + weight2(a, b, c, px, py) * c.y,
{
    let sx = px * SUBPIXEL;
    let sy = py * SUBPIXEL;
    let (ax, ay) = (a.x as int, a.y as int);
    let (ux, uy) = (b.x - a.x, b.y - a.y);
    let (vx, vy) = (c.x - a.x, c.y - a.y);
    let (qx, qy) = (sx - a.x, sy - a.y);
    let s = area(a, b, c);
    let w0 = weight0(a, b, c, px, py);
    let w1 = weight1(a, b, c, px, py);
    let w2 = weight2(a, b, c, px, py);
    lemma_edges_relative(ax, ay, b.x as int, b.y as int, c.x as int, c.y as int, sx, sy);
    lemma_combination(ux, uy, vx, vy, qx, qy);
    assert(s == w0 + w1 + w2);
    // The sample and the vertices, each as the first vertex and an offset.
    assert(s * sx == s * ax + s * qx) by (nonlinear_arith)
        requires
            sx == ax + qx,
    ;
    assert(w1 * b.x == w1 * ax + w1 * ux) by (nonlinear_arith)
        requires
            b.x == ax + ux,
    ;
    assert(w2 * c.x == w2 * ax + w2 * vx) by (nonlinear_arith)
        requires
            c.x == ax + vx,
    ;
    assert(s * ax == w0 * ax + w1 * ax + w2 * ax) by (nonlinear_arith)
        requires
            s == w0 + w1 + w2,
    ;
    assert(s * sy == s * ay + s * qy) by (nonlinear_arith)
        requires
            sy == ay + qy,
    ;
    assert(w1 * b.y == w1 * ay + w1 * uy) by (nonlinear_arith)
        requires
            b.y == ay + uy,
    ;
    assert(w2 * c.y == w2 * ay + w2 * vy) by (nonlinear_arith)
        requires
            c.y == ay + vy,
    ;
    assert(s * ay == w0 * ay + w1 * ay + w2 * ay) by (nonlinear_arith)
        requires
            s == w0 + w1 + w2,
    ;
}

/// Interpolation with the weights is exact for whatever varies affinely
/// over the screen. Let `f(x, y) = m * x + n * y + k`. Then the values of
/// `f` at the vertices, weighted, give the value of `f` at the sample times
/// the area; so their weighted mean is that value.
pub proof fn lemma_weights_affine(
    a: ScreenPoint,
    b: ScreenPoint,
    c: ScreenPoint,
    px: int,
    py: int,
    m: int,
    n: int,
    k: int,
)
    ensures
        area(a, b, c) * (m * (px * SUBPIXEL) + n * (py * SUBPIXEL) + k) == weight0(a, b, c, px, py)
            * (m * a.x + n * a.y + k) + weight1(a, b, c, px, py) * (m * b.x + n * b.y + k) + weight2(
            a,
            b,
            c,
            px,
            py,
        ) * (m * c.x + n * c.y + k),
{
    let sx = px * SUBPIXEL;
    let sy = py * SUBPIXEL;
    let s = area(a, b, c);
    let w0 = weight0(a, b, c, px, py);
    let w1 = weight1(a, b, c, px, py);
    let w2 = weight2(a, b, c, px, py);
    lemma_weights_sum(a, b, c, px, py);
    lemma_weights_locate(a, b, c, px, py);
    lemma_affine_term(s, m, sx, n, sy, k);
    lemma_affine_term(w0, m, a.x as int, n, a.y as int, k);
    lemma_affine_term(w1, m, b.x as int, n, b.y as int, k);
    lemma_affine_term(w2, m, c.x as int, n, c.y as int, k);
    lemma_scaled_sum(m, s * sx, w0 * a.x, w1 * b.x, w2 * c.x);
    lemma_scaled_sum(n, s * sy, w0 * a.y, w1 * b.y, w2 * c.y);
    lemma_scaled_sum(k, s, w0, w1, w2);
}

proof fn lemma_affine_term(w: int, m: int, x: int, n: int, y: int, k: int)
    by (nonlinear_arith)
    ensures
        w * (m * x + n * y + k) == m * (w * x) + n * (w * y) + k * w,
{
}

proof fn lemma_scaled_sum(m: int, total: int, p: int, q: int, r: int)
    by (nonlinear_arith)
    requires
        total == p + q + r,
    ensures
        m * total == m * p + m * q + m * r,
{
}

/// A triangle covers no sample outside the box that its vertices span.
pub proof fn lemma_covered_in_box(a: ScreenPoint, b: ScreenPoint, c: ScreenPoint, px: int, py: int)
    requires
        covers(a, b, c, px, py),
    ensures
        least(a.x as int, b.x as int, c.x as int) <= px * SUBPIXEL <= greatest(
            a.x as int,
            b.x as int,
            c.x as int,
        ),
        least(a.y as int, b.y as int, c.y as int) <= py * SUBPIXEL <= greatest(
            a.y as int,
            b.y as int,
            c.y as int,
        ),
{
    let sx = px * SUBPIXEL;
    let sy = py * SUBPIXEL;
    let (ax, ay) = (a.x as int, a.y as int);
    let (ux, uy) = (b.x - a.x, b.y - a.y);
    let (vx, vy) = (c.x - a.x, c.y - a.y);
    let (qx, qy) = (sx - a.x, sy - a.y);
    let s = area(a, b, c);
    let w0 = weight0(a, b, c, px, py);
    let w1 = weight1(a, b, c, px, py);
    let w2 = weight2(a, b, c, px, py);
    lemma_edges_relative(ax, ay, b.x as int, b.y as int, c.x as int, c.y as int, sx, sy);
    lemma_combination(ux, uy, vx, vy, qx, qy);
    let lo_x = least(ax, b.x as int, c.x as int);
    let hi_x = greatest(ax, b.x as int, c.x as int);
    let lo_y = least(ay, b.y as int, c.y as int);
    let hi_y = greatest(ay, b.y as int, c.y as int);
    lemma_mean_bounds(s, w0, w1, w2, ux, vx, qx, lo_x - ax, hi_x - ax);
    lemma_mean_bounds(s, w0, w1, w2, uy, vy, qy, lo_y - ay, hi_y - ay);
}

/// The edge function on machine integers.
fn edge_value(ax: i32, ay: i32, bx: i32, by: i32, px: i64, py: i64) -> (e: i128)
    requires
        -0x8000_0000 <= px <= 0x8000_0000,
        -0x8000_0000 <= py <= 0x8000_0000,
    ensures
        e == edge(ax as int, ay as int, bx as int, by as int, px as int, py as int),
        -WEIGHT_LIMIT <= e <= WEIGHT_LIMIT,
{
    let d1: i128 = bx as i128 - ax as i128;
    let d2: i128 = py as i128 - ay as i128;
    let d3: i128 = by as i128 - ay as i128;
    let d4: i128 = px as i128 - ax as i128;
    assert(-0x2_0000_0000_0000_0000 <= d1 * d2 <= 0x2_0000_0000_0000_0000) by (nonlinear_arith)
        requires
            -0x1_0000_0000 <= d1 <= 0x1_0000_0000,
            -0x2_0000_0000 <= d2 <= 0x2_0000_0000,
    ;
    assert(-0x2_0000_0000_0000_0000 <= d3 * d4 <= 0x2_0000_0000_0000_0000) by (nonlinear_arith)
        requires
            -0x1_0000_0000 <= d3 <= 0x1_0000_0000,
            -0x2_0000_0000 <= d4 <= 0x2_0000_0000,
    ;
    d1 * d2 - d3 * d4
}

fn least_of(u: i32, v: i32, w: i32) -> (m: i32)
    ensures
        m == least(u as int, v as int, w as int),
{
    if u <= v && u <= w {
        u
    } else if v <= w {
        v
    } else {
        w
    }
}

fn greatest_of(u: i32, v: i32, w: i32) -> (m: i32)
    ensures
        m == greatest(u as int, v as int, w as int),
{
    if u >= v && u >= w {
        u
    } else if v >= w {
        v
    } else {
        w
    }
}

/// Whether the sample of pixel coordinate `p` lies between the fixed-point
/// coordinates `lo` and `hi`.
pub open spec fn sampled_within(p: int, lo: int, hi: int) -> bool {
    lo <= p * SUBPIXEL <= hi
}

/// The pixels below `limit` whose samples lie between the fixed-point
/// coordinates `lo` and `hi`, as a half-open range.
fn pixel_range(lo: i32, hi: i32, limit: usize) -> (range: (i64, i64))
    ensures
        0 <= range.0 <= range.1 <= limit,
        range.1 <= 0x0800_0000,
        forall|p: int|
            0 <= p < limit && #[trigger] sampled_within(p, lo as int, hi as int) ==> range.0 <= p
                < range.1,
{
    let first: i64 = if lo <= 0 {
        0
    } else {
        (lo as i64 + 15) / 16
    };
    let beyond: i64 = if hi < 0 {
        0
    } else {
        hi as i64 / 16 + 1
    };
    let end: i64 = if (beyond as usize) < limit {
        beyond
    } else {
        limit as i64
    };
    if first <= end {
        (first, end)
    } else {
        (end, end)
    }
}

/// Rasterises one triangle onto a `width` by `height` raster: the pixels
/// whose samples lie in the closed region of the triangle, each once, row
/// by row from the top and from left to right within a row, with their
/// weights. A triangle without area covers nothing; the winding makes no
/// difference.
pub fn triangle(a: &ScreenPoint, b: &ScreenPoint, c: &ScreenPoint, width: usize, height: usize) -> (samples:
    Vec<Sample>)
    ensures
        coverage_of(samples@, *a, *b, *c, width as int, height as int),
        forall|k: int|
            0 <= k < samples.len() ==> (#[trigger] samples[k]).w0 + samples[k].w1 + samples[k].w2
                == area(*a, *b, *c) && samples[k].balanced(),
{
    let mut samples: Vec<Sample> = Vec::new();
    let s: i128 = edge_value(a.x, a.y, b.x, b.y, c.x as i64, c.y as i64);
    if s == 0 {
        return samples;
    }
    let (x_lo, x_end) = pixel_range(least_of(a.x, b.x, c.x), greatest_of(a.x, b.x, c.x), width);
    let (y_lo, y_end) = pixel_range(least_of(a.y, b.y, c.y), greatest_of(a.y, b.y, c.y), height);
    let mut py: i64 = y_lo;
    while py < y_end
        invariant
            s == area(*a, *b, *c),
            s != 0,
            0 <= x_lo <= x_end <= width,
            x_end <= 0x0800_0000,
            0 <= y_lo <= py <= y_end <= height,
            y_end <= 0x0800_0000,
            forall|k: int|
                0 <= k < samples.len() ==> sample_of(
                    #[trigger] samples[k],
                    *a,
                    *b,
                    *c,
                    width as int,
                    height as int,
                ) && samples[k].y < py && samples[k].balanced(),
            forall|k: int, l: int|
                0 <= k < l < samples.len() ==> precedes(
                    (#[trigger] samples[k]).x as int,
                    samples[k].y as int,
                    (#[trigger] samples[l]).x as int,
                    samples[l].y as int,
                ),
            forall|qx: int, qy: int|
                x_lo <= qx < x_end && y_lo <= qy < py && #[trigger] covers(*a, *b, *c, qx, qy)
                    ==> samples_hold(samples@, qx, qy),
        decreases y_end - py,
    {
        let mut px: i64 = x_lo;
        while px < x_end
            invariant
                s == area(*a, *b, *c),
                s != 0,
                0 <= x_lo <= px <= x_end <= width,
                x_end <= 0x0800_0000,
                0 <= y_lo <= py < y_end <= height,
                y_end <= 0x0800_0000,
                forall|k: int|
                    0 <= k < samples.len() ==> sample_of(
                        #[trigger] samples[k],
                        *a,
                        *b,
                        *c,
                        width as int,
                        height as int,
                    ) && precedes(samples[k].x as int, samples[k].y as int, px as int, py as int)
                        && samples[k].balanced(),
                forall|k: int, l: int|
                    0 <= k < l < samples.len() ==> precedes(
                        (#[trigger] samples[k]).x as int,
                        samples[k].y as int,
                        (#[trigger] samples[l]).x as int,
                        samples[l].y as int,
                    ),
                forall|qx: int, qy: int|
                    x_lo <= qx < x_end && y_lo <= qy && precedes(qx, qy, px as int, py as int)
                        && #[trigger] covers(*a, *b, *c, qx, qy) ==> samples_hold(samples@, qx, qy),
            decreases x_end - px,
        {
            let sx: i64 = px * 16;
            let sy: i64 = py * 16;
            let w0: i128 = edge_value(b.x, b.y, c.x, c.y, sx, sy);
            let w1: i128 = edge_value(c.x, c.y, a.x, a.y, sx, sy);
            let w2: i128 = edge_value(a.x, a.y, b.x, b.y, sx, sy);
            if (s > 0 && w0 >= 0 && w1 >= 0 && w2 >= 0) || (s < 0 && w0 <= 0 && w1 <= 0 && w2 <= 0) {
                let ghost earlier = samples@;
                samples.push(Sample { x: px as usize, y: py as usize, w0, w1, w2 });
                proof {
                    lemma_weights_sum(*a, *b, *c, px as int, py as int);
                    assert forall|qx: int, qy: int|
                        x_lo <= qx < x_end && y_lo <= qy && precedes(qx, qy, px + 1, py as int)
                            && #[trigger] covers(*a, *b, *c, qx, qy) implies samples_hold(
                        samples@,
                        qx,
                        qy,
                    ) by {
                        if qx == px && qy == py {
                            assert(samples@[earlier.len() as int].x == qx);
                        } else {
                            assert(samples_hold(earlier, qx, qy));
                            let k = choose|k: int|
                                0 <= k < earlier.len() && (#[trigger] earlier[k]).x == qx
                                    && earlier[k].y == qy;
                            assert(samples@[k] == earlier[k]);
                        }
                    }
                }
            }
            px += 1;
        }
        py += 1;
    }
    proof {
        assert forall|qx: int, qy: int|
            0 <= qx < width && 0 <= qy < height && #[trigger] covers(
                *a,
                *b,
                *c,
                qx,
                qy,
            ) implies samples_hold(samples@, qx, qy) by {
            lemma_covered_in_box(*a, *b, *c, qx, qy);
            assert(sampled_within(
                qx,
                least(a.x as int, b.x as int, c.x as int),
                greatest(a.x as int, b.x as int, c.x as int),
            ));
            assert(sampled_within(
                qy,
                least(a.y as int, b.y as int, c.y as int),
                greatest(a.y as int, b.y as int, c.y as int),
            ));
        }
        assert forall|k: int| 0 <= k < samples.len() implies (#[trigger] samples[k]).w0
            + samples[k].w1 + samples[k].w2 == area(*a, *b, *c) && samples[k].balanced() by {
            lemma_weights_sum(*a, *b, *c, samples[k].x as int, samples[k].y as int);
        }
    }
    samples
}

} // verus!
