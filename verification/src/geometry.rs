use vstd::prelude::*;

verus! {

/// The edge function of the directed edge from `(ax, ay)` to `(bx, by)` at
/// `(px, py)`: twice the signed area of the triangle that the three points
/// span. It is zero exactly on the line through the edge.
pub open spec fn edge(ax: int, ay: int, bx: int, by: int, px: int, py: int) -> int {
    (bx - ax) * (py - ay) - (by - ay) * (px - ax)
}

/// The four edge functions of a triangle and a point, written from the
/// first vertex: with `u = b - a`, `v = c - a` and `q = p - a`.
proof fn lemma_edges_from_a(
    ax: int,
    ay: int,
    bx: int,
    by: int,
    cx: int,
    cy: int,
    px: int,
    py: int,
)
    ensures
        edge(ax, ay, bx, by, cx, cy) == (bx - ax) * (cy - ay) - (by - ay) * (cx - ax),
        edge(ax, ay, bx, by, px, py) == (bx - ax) * (py - ay) - (by - ay) * (px - ax),
        edge(cx, cy, ax, ay, px, py) == (cy - ay) * (px - ax) - (cx - ax) * (py - ay),
        edge(bx, by, cx, cy, px, py) == edge(ax, ay, bx, by, cx, cy) - edge(
            ax,
            ay,
            bx,
            by,
            px,
            py,
        ) - edge(cx, cy, ax, ay, px, py),
{
    let ux = bx - ax;
    let uy = by - ay;
    let vx = cx - ax;
    let vy = cy - ay;
    let qx = px - ax;
    let qy = py - ay;
    assert((ax - cx) * (py - cy) == vx * vy - vx * qy) by (nonlinear_arith)
        requires
            vx == cx - ax,
            vy == cy - ay,
            qy == py - ay,
    ;
    assert((ay - cy) * (px - cx) == vy * vx - vy * qx) by (nonlinear_arith)
        requires
            vx == cx - ax,
            vy == cy - ay,
            qx == px - ax,
    ;
    assert(vx * vy == vy * vx) by (nonlinear_arith);
    assert((cx - bx) * (py - by) == vx * qy - vx * uy - ux * qy + ux * uy) by (nonlinear_arith)
        requires
            ux == bx - ax,
            vx == cx - ax,
            uy == by - ay,
            qy == py - ay,
    ;
    assert((cy - by) * (px - bx) == vy * qx - vy * ux - uy * qx + uy * ux) by (nonlinear_arith)
        requires
            uy == by - ay,
            vy == cy - ay,
            ux == bx - ax,
            qx == px - ax,
    ;
    assert(vx * uy == uy * vx) by (nonlinear_arith);
    assert(vy * ux == ux * vy) by (nonlinear_arith);
    assert(ux * uy == uy * ux) by (nonlinear_arith);
}

/// The three edge functions of a triangle add up, at every point, to its
/// doubled area.
pub proof fn lemma_edges_sum(
    ax: int,
    ay: int,
    bx: int,
    by: int,
    cx: int,
    cy: int,
    px: int,
    py: int,
)
    ensures
        edge(bx, by, cx, cy, px, py) + edge(cx, cy, ax, ay, px, py) + edge(ax, ay, bx, by, px, py)
            == edge(ax, ay, bx, by, cx, cy),
{
    lemma_edges_from_a(ax, ay, bx, by, cx, cy, px, py);
}

/// The edge functions at a point weigh the vertices' coordinates to the
/// point's own coordinates: the point is the weighted mean of the vertices.
pub proof fn lemma_edges_weigh(
    ax: int,
    ay: int,
    bx: int,
    by: int,
    cx: int,
    cy: int,
    px: int,
    py: int,
)
    ensures
        edge(bx, by, cx, cy, px, py) * ax + edge(cx, cy, ax, ay, px, py) * bx + edge(
            ax,
            ay,
            bx,
            by,
            px,
            py,
        ) * cx == edge(ax, ay, bx, by, cx, cy) * px,
        edge(bx, by, cx, cy, px, py) * ay + edge(cx, cy, ax, ay, px, py) * by + edge(
            ax,
            ay,
            bx,
            by,
            px,
            py,
        ) * cy == edge(ax, ay, bx, by, cx, cy) * py,
{
    let ux = bx - ax;
    let uy = by - ay;
    let vx = cx - ax;
    let vy = cy - ay;
    let qx = px - ax;
    let qy = py - ay;
    let e0 = edge(bx, by, cx, cy, px, py);
    let e1 = edge(cx, cy, ax, ay, px, py);
    let e2 = edge(ax, ay, bx, by, px, py);
    let e = edge(ax, ay, bx, by, cx, cy);
    lemma_edges_from_a(ax, ay, bx, by, cx, cy, px, py);
    lemma_weigh_from_a(ux, uy, vx, vy, qx, qy, e1, e2, e);
    lemma_shift_weights(e0, e1, e2, e, ax, ux, vx, qx);
    lemma_shift_weights(e0, e1, e2, e, ay, uy, vy, qy);
}

/// Weights that sum to `e` weigh `a`, `a + u` and `a + v` to `a + q` when
/// they weigh `u` and `v` to `q`.
proof fn lemma_shift_weights(e0: int, e1: int, e2: int, e: int, a: int, u: int, v: int, q: int)
    requires
        e0 + e1 + e2 == e,
        e1 * u + e2 * v == e * q,
    ensures
        e0 * a + e1 * (a + u) + e2 * (a + v) == e * (a + q),
{
    assert(e1 * (a + u) == e1 * a + e1 * u) by (nonlinear_arith);
    assert(e2 * (a + v) == e2 * a + e2 * v) by (nonlinear_arith);
    assert(e * (a + q) == e * a + e * q) by (nonlinear_arith);
    assert(e * a == e0 * a + e1 * a + e2 * a) by (nonlinear_arith)
        requires
            e0 + e1 + e2 == e,
    ;
}

/// Cramer's rule for `q = s * u + t * v`, cleared of its denominator.
proof fn lemma_weigh_from_a(
    ux: int,
    uy: int,
    vx: int,
    vy: int,
    qx: int,
    qy: int,
    e1: int,
    e2: int,
    e: int,
)
    requires
        e1 == vy * qx - vx * qy,
        e2 == ux * qy - uy * qx,
        e == ux * vy - uy * vx,
    ensures
        e1 * ux + e2 * vx == e * qx,
        e1 * uy + e2 * vy == e * qy,
{
    assert(e1 * ux == (vy * qx) * ux - (vx * qy) * ux) by (nonlinear_arith)
        requires
            e1 == vy * qx - vx * qy,
    ;
    assert(e2 * vx == (ux * qy) * vx - (uy * qx) * vx) by (nonlinear_arith)
        requires
            e2 == ux * qy - uy * qx,
    ;
    assert(e * qx == (ux * vy) * qx - (uy * vx) * qx) by (nonlinear_arith)
        requires
            e == ux * vy - uy * vx,
    ;
    assert((vx * qy) * ux == (ux * qy) * vx) by (nonlinear_arith);
    assert((vy * qx) * ux == (ux * vy) * qx) by (nonlinear_arith);
    assert((uy * qx) * vx == (uy * vx) * qx) by (nonlinear_arith);
    assert(e1 * uy == (vy * qx) * uy - (vx * qy) * uy) by (nonlinear_arith)
        requires
            e1 == vy * qx - vx * qy,
    ;
    assert(e2 * vy == (ux * qy) * vy - (uy * qx) * vy) by (nonlinear_arith)
        requires
            e2 == ux * qy - uy * qx,
    ;
    assert(e * qy == (ux * vy) * qy - (uy * vx) * qy) by (nonlinear_arith)
        requires
            e == ux * vy - uy * vx,
    ;
    assert((vy * qx) * uy == (uy * qx) * vy) by (nonlinear_arith);
    assert((vx * qy) * uy == (uy * vx) * qy) by (nonlinear_arith);
    assert((ux * qy) * vy == (ux * vy) * qy) by (nonlinear_arith);
}

/// A weighted mean with weights that are not negative lies between bounds
/// that hold of every value.
pub proof fn lemma_mean_between(
    wa: int,
    wb: int,
    wc: int,
    sum: int,
    a: int,
    b: int,
    c: int,
    p: int,
    lo: int,
    hi: int,
)
    requires
        wa >= 0,
        wb >= 0,
        wc >= 0,
        wa + wb + wc == sum,
        sum > 0,
        wa * a + wb * b + wc * c == sum * p,
        lo <= a <= hi,
        lo <= b <= hi,
        lo <= c <= hi,
    ensures
        lo <= p <= hi,
{
    assert(wa * lo <= wa * a <= wa * hi) by (nonlinear_arith)
        requires
            wa >= 0,
            lo <= a <= hi,
    ;
    assert(wb * lo <= wb * b <= wb * hi) by (nonlinear_arith)
        requires
            wb >= 0,
            lo <= b <= hi,
    ;
    assert(wc * lo <= wc * c <= wc * hi) by (nonlinear_arith)
        requires
            wc >= 0,
            lo <= c <= hi,
    ;
    assert(sum * lo == wa * lo + wb * lo + wc * lo) by (nonlinear_arith)
        requires
            sum == wa + wb + wc,
    ;
    assert(sum * hi == wa * hi + wb * hi + wc * hi) by (nonlinear_arith)
        requires
            sum == wa + wb + wc,
    ;
    assert(lo <= p) by (nonlinear_arith)
        requires
            sum * lo <= sum * p,
            sum > 0,
    ;
    assert(p <= hi) by (nonlinear_arith)
        requires
            sum * p <= sum * hi,
            sum > 0,
    ;
}

/// Turning an edge round changes the sign of its edge function.
pub proof fn lemma_edge_reversed(ax: int, ay: int, bx: int, by: int, px: int, py: int)
    ensures
        edge(bx, by, ax, ay, px, py) == -edge(ax, ay, bx, by, px, py),
{
    let ux = bx - ax;
    let uy = by - ay;
    let qx = px - ax;
    let qy = py - ay;
    assert((ax - bx) * (py - by) == ux * uy - ux * qy) by (nonlinear_arith)
        requires
            ux == bx - ax,
            uy == by - ay,
            qy == py - ay,
    ;
    assert((ay - by) * (px - bx) == uy * ux - uy * qx) by (nonlinear_arith)
        requires
            ux == bx - ax,
            uy == by - ay,
            qx == px - ax,
    ;
    assert(ux * uy == uy * ux) by (nonlinear_arith);
}

/// The doubled area of a triangle does not depend on the vertex it is
/// taken from, and changes its sign when two vertices change places.
pub proof fn lemma_area_permuted(ax: int, ay: int, bx: int, by: int, cx: int, cy: int)
    ensures
        edge(bx, by, cx, cy, ax, ay) == edge(ax, ay, bx, by, cx, cy),
        edge(ax, ay, cx, cy, bx, by) == -edge(ax, ay, bx, by, cx, cy),
{
    lemma_edges_sum(ax, ay, bx, by, cx, cy, ax, ay);
    assert((ax - cx) * (ay - cy) == (ay - cy) * (ax - cx)) by (nonlinear_arith);
    assert((bx - ax) * (ay - ay) == 0) by (nonlinear_arith);
    assert((by - ay) * (ax - ax) == 0) by (nonlinear_arith);
    assert((cx - ax) * (by - ay) == (by - ay) * (cx - ax)) by (nonlinear_arith);
    assert((cy - ay) * (bx - ax) == (bx - ax) * (cy - ay)) by (nonlinear_arith);
}

} // verus!
