use vstd::prelude::*;
use crate::assembly::{ScreenPoint, Triangle};
use crate::geometry::{
    edge, lemma_area_permuted, lemma_edge_reversed, lemma_edges_sum, lemma_edges_weigh,
    lemma_mean_between,
};

verus! {

/// The number of fixed-point units to the pixel.
pub const SUBPIXEL: i32 = 256;

/// The offset of a pixel's centre from its corner, in fixed-point units.
pub const HALF_PIXEL: i32 = 128;

/// The centre of pixel number `p` along one axis, in fixed-point units.
pub open spec fn center(p: int) -> int {
    SUBPIXEL * p + HALF_PIXEL
}

/// Whether the directed edge from `(ax, ay)` to `(bx, by)` of a triangle is
/// a left edge (the interior lies to its right) or a top edge (it is level
/// and the interior lies below it), on a screen whose `y` grows downwards.
/// Only such an edge keeps the pixel centres that lie exactly on it.
/// `positive` says whether the triangle's doubled area is positive, that is
/// whether its edges run clockwise on the screen.
pub open spec fn owns_boundary(ax: int, ay: int, bx: int, by: int, positive: bool) -> bool {
    if positive {
        by < ay || (by == ay && bx > ax)
    } else {
        by > ay || (by == ay && bx < ax)
    }
}

/// Whether an edge with the given weight at a pixel centre lets the pixel
/// in: the centre is strictly on the inner side, or exactly on the edge and
/// the edge keeps its boundary.
pub open spec fn admits(weight: int, owns: bool) -> bool {
    weight > 0 || (weight == 0 && owns)
}

impl Triangle {
    /// Twice the signed area of the triangle.
    pub open spec fn area2(self) -> int {
        edge(
            self.a.x as int,
            self.a.y as int,
            self.b.x as int,
            self.b.y as int,
            self.c.x as int,
            self.c.y as int,
        )
    }

    /// Whether the doubled area is positive: the vertices run clockwise on
    /// a screen whose `y` grows downwards.
    pub open spec fn positive(self) -> bool {
        self.area2() > 0
    }

    /// An edge function's value turned so that the triangle's inner side
    /// is the positive one.
    pub open spec fn oriented(self, value: int) -> int {
        if self.positive() {
            value
        } else {
            -value
        }
    }

    /// The doubled area without its sign: the sum of the three weights at
    /// any point.
    pub open spec fn weight_sum(self) -> int {
        self.oriented(self.area2())
    }

    /// The barycentric weight of vertex `a` at the centre of pixel
    /// `(x, y)`, scaled by `weight_sum`.
    pub open spec fn weight_a(self, x: int, y: int) -> int {
        self.oriented(
            edge(
                self.b.x as int,
                self.b.y as int,
                self.c.x as int,
                self.c.y as int,
                center(x),
                center(y),
            ),
        )
    }

    /// The barycentric weight of vertex `b` at the centre of pixel
    /// `(x, y)`, scaled by `weight_sum`.
    pub open spec fn weight_b(self, x: int, y: int) -> int {
        self.oriented(
            edge(
                self.c.x as int,
                self.c.y as int,
                self.a.x as int,
                self.a.y as int,
                center(x),
                center(y),
            ),
        )
    }

    /// The barycentric weight of vertex `c` at the centre of pixel
    /// `(x, y)`, scaled by `weight_sum`.
    pub open spec fn weight_c(self, x: int, y: int) -> int {
        self.oriented(
            edge(
                self.a.x as int,
                self.a.y as int,
                self.b.x as int,
                self.b.y as int,
                center(x),
                center(y),
            ),
        )
    }

    /// Whether the triangle covers pixel `(x, y)`: its area is not zero and
    /// the pixel's centre has no negative barycentric weight, where a weight
    /// of zero counts only on a top or a left edge.
    pub open spec fn covers(self, x: int, y: int) -> bool {
        let p = self.positive();
        &&& self.area2() != 0
        &&& admits(
            self.weight_a(x, y),
            owns_boundary(self.b.x as int, self.b.y as int, self.c.x as int, self.c.y as int, p),
        )
        &&& admits(
            self.weight_b(x, y),
            owns_boundary(self.c.x as int, self.c.y as int, self.a.x as int, self.a.y as int, p),
        )
        &&& admits(
            self.weight_c(x, y),
            owns_boundary(self.a.x as int, self.a.y as int, self.b.x as int, self.b.y as int, p),
        )
    }

    /// The smallest of the three vertices' `x`.
    pub open spec fn min_x(self) -> int {
        let m = if self.a.x <= self.b.x { self.a.x } else { self.b.x };
        if m <= self.c.x { m as int } else { self.c.x as int }
    }

    /// The largest of the three vertices' `x`.
    pub open spec fn max_x(self) -> int {
        let m = if self.a.x >= self.b.x { self.a.x } else { self.b.x };
        if m >= self.c.x { m as int } else { self.c.x as int }
    }

    /// The smallest of the three vertices' `y`.
    pub open spec fn min_y(self) -> int {
        let m = if self.a.y <= self.b.y { self.a.y } else { self.b.y };
        if m <= self.c.y { m as int } else { self.c.y as int }
    }

    /// The largest of the three vertices' `y`.
    pub open spec fn max_y(self) -> int {
        let m = if self.a.y >= self.b.y { self.a.y } else { self.b.y };
        if m >= self.c.y { m as int } else { self.c.y as int }
    }
}

/// A pixel whose centre a triangle covers is no further out than the
/// triangle's vertices: its centre lies in their bounding box.
pub proof fn lemma_covered_inside_bounds(t: Triangle, x: int, y: int)
    requires
        t.covers(x, y),
    ensures
        t.min_x() <= center(x) <= t.max_x(),
        t.min_y() <= center(y) <= t.max_y(),
{
    let (ax, ay) = (t.a.x as int, t.a.y as int);
    let (bx, by) = (t.b.x as int, t.b.y as int);
    let (cx, cy) = (t.c.x as int, t.c.y as int);
    let (px, py) = (center(x), center(y));
    lemma_edges_sum(ax, ay, bx, by, cx, cy, px, py);
    lemma_edges_weigh(ax, ay, bx, by, cx, cy, px, py);
    let wa = t.weight_a(x, y);
    let wb = t.weight_b(x, y);
    let wc = t.weight_c(x, y);
    let sum = t.weight_sum();
    assert(wa >= 0 && wb >= 0 && wc >= 0);
    let e0 = edge(bx, by, cx, cy, px, py);
    let e1 = edge(cx, cy, ax, ay, px, py);
    let e2 = edge(ax, ay, bx, by, px, py);
    let e = t.area2();
    if e > 0 {
        assert(wa == e0 && wb == e1 && wc == e2 && sum == e);
        lemma_mean_between(e0, e1, e2, e, ax, bx, cx, px, t.min_x(), t.max_x());
        lemma_mean_between(e0, e1, e2, e, ay, by, cy, py, t.min_y(), t.max_y());
    } else {
        assert(wa == -e0 && wb == -e1 && wc == -e2 && sum == -e);
        assert((-e0) * ax + (-e1) * bx + (-e2) * cx == (-e) * px) by (nonlinear_arith)
            requires
                e0 * ax + e1 * bx + e2 * cx == e * px,
        ;
        assert((-e0) * ay + (-e1) * by + (-e2) * cy == (-e) * py) by (nonlinear_arith)
            requires
                e0 * ay + e1 * by + e2 * cy == e * py,
        ;
        lemma_mean_between(-e0, -e1, -e2, -e, ax, bx, cx, px, t.min_x(), t.max_x());
        lemma_mean_between(-e0, -e1, -e2, -e, ay, by, cy, py, t.min_y(), t.max_y());
    }
}

/// At a covered pixel the three weights are not negative and add up to the
/// triangle's doubled area without its sign, which is not zero.
pub proof fn lemma_weights(t: Triangle, x: int, y: int)
    requires
        t.covers(x, y),
    ensures
        t.weight_a(x, y) >= 0,
        t.weight_b(x, y) >= 0,
        t.weight_c(x, y) >= 0,
        t.weight_sum() > 0,
        t.weight_a(x, y) + t.weight_b(x, y) + t.weight_c(x, y) == t.weight_sum(),
{
    lemma_edges_sum(
        t.a.x as int,
        t.a.y as int,
        t.b.x as int,
        t.b.y as int,
        t.c.x as int,
        t.c.y as int,
        center(x),
        center(y),
    );
}

/// The fill rule decides for pixel centres exactly on an edge only: a
/// centre with three positive weights is covered, and one with a negative
/// weight is not.
pub proof fn lemma_inside_and_outside(t: Triangle, x: int, y: int)
    requires
        t.area2() != 0,
    ensures
        t.weight_a(x, y) > 0 && t.weight_b(x, y) > 0 && t.weight_c(x, y) > 0 ==> t.covers(x, y),
        t.weight_a(x, y) < 0 || t.weight_b(x, y) < 0 || t.weight_c(x, y) < 0 ==> !t.covers(x, y),
{
}

/// Two triangles on the two sides of an edge that they share never cover
/// the same pixel: a pixel centre on the shared edge goes to the one for
/// which the edge is a top or a left edge.
pub proof fn lemma_neighbours_share_no_pixel(
    a: ScreenPoint,
    b: ScreenPoint,
    c: ScreenPoint,
    d: ScreenPoint,
    x: int,
    y: int,
)
    requires
        (Triangle { a, b, c }).area2() != 0,
        (Triangle { a, b, c: d }).area2() != 0,
        (Triangle { a, b, c }).positive() != (Triangle { a, b, c: d }).positive(),
    ensures
        !((Triangle { a, b, c }).covers(x, y) && (Triangle { a, b, c: d }).covers(x, y)),
{
}

/// A pixel centre on the edge that two triangles share, and inside both
/// with respect to their other edges, is covered by exactly one of them:
/// the mesh has neither a gap nor a doubly covered pixel along the edge.
pub proof fn lemma_shared_edge_covered_once(
    a: ScreenPoint,
    b: ScreenPoint,
    c: ScreenPoint,
    d: ScreenPoint,
    x: int,
    y: int,
)
    requires
        (Triangle { a, b, c }).area2() != 0,
        (Triangle { a, b, c: d }).area2() != 0,
        (Triangle { a, b, c }).positive() != (Triangle { a, b, c: d }).positive(),
        edge(a.x as int, a.y as int, b.x as int, b.y as int, center(x), center(y)) == 0,
        (Triangle { a, b, c }).weight_a(x, y) > 0,
        (Triangle { a, b, c }).weight_b(x, y) > 0,
        (Triangle { a, b, c: d }).weight_a(x, y) > 0,
        (Triangle { a, b, c: d }).weight_b(x, y) > 0,
    ensures
        (Triangle { a, b, c }).covers(x, y) != (Triangle { a, b, c: d }).covers(x, y),
{
    if a.x == b.x && a.y == b.y {
        assert((b.x - a.x) * (c.y - a.y) == 0) by (nonlinear_arith)
            requires
                b.x - a.x == 0,
        ;
        assert((b.y - a.y) * (c.x - a.x) == 0) by (nonlinear_arith)
            requires
                b.y - a.y == 0,
        ;
    }
}

/// Coverage does not depend on the vertex a triangle starts with: the
/// same pixels are covered, and each vertex keeps its weight.
pub proof fn lemma_covers_rotated(t: Triangle, x: int, y: int)
    ensures
        (Triangle { a: t.b, b: t.c, c: t.a }).covers(x, y) == t.covers(x, y),
        (Triangle { a: t.b, b: t.c, c: t.a }).weight_a(x, y) == t.weight_b(x, y),
        (Triangle { a: t.b, b: t.c, c: t.a }).weight_b(x, y) == t.weight_c(x, y),
        (Triangle { a: t.b, b: t.c, c: t.a }).weight_c(x, y) == t.weight_a(x, y),
{
    lemma_area_permuted(
        t.a.x as int,
        t.a.y as int,
        t.b.x as int,
        t.b.y as int,
        t.c.x as int,
        t.c.y as int,
    );
}

/// Coverage does not depend on the winding of a triangle: with two
/// vertices in each other's place the same pixels are covered, and each
/// vertex keeps its weight.
pub proof fn lemma_covers_swapped(t: Triangle, x: int, y: int)
    requires
        t.area2() != 0,
    ensures
        (Triangle { a: t.a, b: t.c, c: t.b }).covers(x, y) == t.covers(x, y),
        (Triangle { a: t.a, b: t.c, c: t.b }).weight_a(x, y) == t.weight_a(x, y),
        (Triangle { a: t.a, b: t.c, c: t.b }).weight_b(x, y) == t.weight_c(x, y),
        (Triangle { a: t.a, b: t.c, c: t.b }).weight_c(x, y) == t.weight_b(x, y),
{
    let (ax, ay) = (t.a.x as int, t.a.y as int);
    let (bx, by) = (t.b.x as int, t.b.y as int);
    let (cx, cy) = (t.c.x as int, t.c.y as int);
    lemma_area_permuted(ax, ay, bx, by, cx, cy);
    lemma_edge_reversed(bx, by, cx, cy, center(x), center(y));
    lemma_edge_reversed(cx, cy, ax, ay, center(x), center(y));
    lemma_edge_reversed(ax, ay, bx, by, center(x), center(y));
}

} // verus!
