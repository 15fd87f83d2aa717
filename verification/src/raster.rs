use vstd::prelude::*;
use crate::assembly::{ScreenPoint, Triangle};
use crate::coverage::{
    admits, center, lemma_covered_inside_bounds, owns_boundary, HALF_PIXEL, SUBPIXEL,
};
use crate::geometry::edge;
use crate::sample::{
    is_coverage, is_coverage_before, is_mesh_coverage, is_mesh_coverage_before,
    lemma_coverage_extends, lemma_coverage_push, lemma_mesh_coverage_append,
    lemma_sample_weights, Sample,
};

verus! {

/// The edge function of the directed edge from `a` to `b` at `(px, py)`,
/// for a point within reach of the pixel grid. The value is far from the
/// limits of a 128-bit integer.
fn edge_at(a: ScreenPoint, b: ScreenPoint, px: i64, py: i64) -> (e: i128)
    requires
        -0x1_0000_0000 <= px <= 0x1_0000_0000,
        -0x1_0000_0000 <= py <= 0x1_0000_0000,
    ensures
        e == edge(a.x as int, a.y as int, b.x as int, b.y as int, px as int, py as int),
        -0x8_0000_0000_0000_0000 <= e <= 0x8_0000_0000_0000_0000,
{
    let dx: i128 = b.x as i128 - a.x as i128;
    let dy: i128 = b.y as i128 - a.y as i128;
    let qx: i128 = px as i128 - a.x as i128;
    let qy: i128 = py as i128 - a.y as i128;
    assert(-0x4_0000_0000_0000_0000 <= dx * qy <= 0x4_0000_0000_0000_0000) by (nonlinear_arith)
        requires
            -0x1_0000_0000 <= dx <= 0x1_0000_0000,
            -0x2_0000_0000 <= qy <= 0x2_0000_0000,
    ;
    assert(-0x4_0000_0000_0000_0000 <= dy * qx <= 0x4_0000_0000_0000_0000) by (nonlinear_arith)
        requires
            -0x1_0000_0000 <= dy <= 0x1_0000_0000,
            -0x2_0000_0000 <= qx <= 0x2_0000_0000,
    ;
    dx * qy - dy * qx
}

/// Whether the directed edge from `a` to `b` keeps the pixel centres on it.
fn keeps_boundary(a: ScreenPoint, b: ScreenPoint, positive: bool) -> (owns: bool)
    ensures
        owns == owns_boundary(a.x as int, a.y as int, b.x as int, b.y as int, positive),
{
    if positive {
        b.y < a.y || (b.y == a.y && b.x > a.x)
    } else {
        b.y > a.y || (b.y == a.y && b.x < a.x)
    }
}

/// The pixels of one axis, out of `size`, whose centres lie between `lo` and
/// `hi`: a first pixel and the pixel after the last.
fn pixel_range(lo: i32, hi: i32, size: usize) -> (range: (i64, i64))
    ensures
        0 <= range.0 <= range.1 <= size,
        range.1 <= 0x80_0000,
        forall|p: int|
            range.0 <= p < range.1 <==> 0 <= p < size && lo <= #[trigger] center(p) <= hi,
{
    let step: i64 = SUBPIXEL as i64;
    let half: i64 = HALF_PIXEL as i64;
    let first: i64 = if lo as i64 <= half {
        0
    } else {
        (lo as i64 - half + (step - 1)) / step
    };
    let after: i64 = if (hi as i64) < half {
        0
    } else {
        (hi as i64 - half) / step + 1
    };
    let limit: i64 = if size > 0x80_0000 {
        0x80_0000
    } else {
        size as i64
    };
    let end: i64 = if after < limit {
        after
    } else {
        limit
    };
    if end <= first {
        (0, 0)
    } else {
        (first, end)
    }
}

/// The smallest of three numbers.
fn min3(a: i32, b: i32, c: i32) -> (m: i32)
    ensures
        m <= a && m <= b && m <= c,
        m == a || m == b || m == c,
{
    let m: i32 = if a <= b { a } else { b };
    if m <= c { m } else { c }
}

/// The largest of three numbers.
fn max3(a: i32, b: i32, c: i32) -> (m: i32)
    ensures
        m >= a && m >= b && m >= c,
        m == a || m == b || m == c,
{
    let m: i32 = if a >= b { a } else { b };
    if m >= c { m } else { c }
}

/// What the rasterizer works out once for a triangle with area: which way
/// it winds, and which of its edges keep the pixel centres on them.
struct Winding {
    positive: bool,
    keeps_a: bool,
    keeps_b: bool,
    keeps_c: bool,
}

impl Winding {
    /// Whether this is the winding of triangle `t`.
    spec fn is_of(self, t: Triangle) -> bool {
        &&& t.area2() != 0
        &&& self.positive == t.positive()
        &&& self.keeps_a == owns_boundary(
            t.b.x as int,
            t.b.y as int,
            t.c.x as int,
            t.c.y as int,
            self.positive,
        )
        &&& self.keeps_b == owns_boundary(
            t.c.x as int,
            t.c.y as int,
            t.a.x as int,
            t.a.y as int,
            self.positive,
        )
        &&& self.keeps_c == owns_boundary(
            t.a.x as int,
            t.a.y as int,
            t.b.x as int,
            t.b.y as int,
            self.positive,
        )
    }
}

/// The winding of a triangle, or `None` for a triangle without area.
fn winding_of(t: &Triangle) -> (winding: Option<Winding>)
    ensures
        winding.is_none() <==> t.area2() == 0,
        winding.is_some() ==> winding.unwrap().is_of(*t),
{
    let area: i128 = edge_at(t.a, t.b, t.c.x as i64, t.c.y as i64);
    if area == 0 {
        return None;
    }
    let positive: bool = area > 0;
    Some(
        Winding {
            positive,
            keeps_a: keeps_boundary(t.b, t.c, positive),
            keeps_b: keeps_boundary(t.c, t.a, positive),
            keeps_c: keeps_boundary(t.a, t.b, positive),
        },
    )
}

/// The sample of triangle `t` at pixel `(x, y)`, or `None` where `t` does
/// not cover the pixel.
fn sample_pixel(t: &Triangle, index: usize, winding: &Winding, x: i64, y: i64) -> (sample: Option<
    Sample,
>)
    requires
        winding.is_of(*t),
        0 <= x < 0x80_0000,
        0 <= y < 0x80_0000,
    ensures
        sample.is_some() <==> t.covers(x as int, y as int),
        sample.is_some() ==> sample.unwrap() == t.sample_at(index, x as int, y as int),
{
    let step: i64 = SUBPIXEL as i64;
    let half: i64 = HALF_PIXEL as i64;
    assert(step == 256 && half == 128);
    let cx: i64 = step * x + half;
    let cy: i64 = step * y + half;
    assert(cx == center(x as int) && cy == center(y as int));
    let ea: i128 = edge_at(t.b, t.c, cx, cy);
    let eb: i128 = edge_at(t.c, t.a, cx, cy);
    let ec: i128 = edge_at(t.a, t.b, cx, cy);
    let weight_a: i128 = if winding.positive { ea } else { -ea };
    let weight_b: i128 = if winding.positive { eb } else { -eb };
    let weight_c: i128 = if winding.positive { ec } else { -ec };
    if lets_in(weight_a, winding.keeps_a) && lets_in(weight_b, winding.keeps_b) && lets_in(
        weight_c,
        winding.keeps_c,
    ) {
        Some(Sample { triangle: index, x: x as i32, y: y as i32, weight_a, weight_b, weight_c })
    } else {
        None
    }
}

/// Whether an edge with the given weight at a pixel centre lets the pixel
/// in.
fn lets_in(weight: i128, keeps: bool) -> (inside: bool)
    ensures
        inside == admits(weight as int, keeps),
{
    weight > 0 || (weight == 0 && keeps)
}

/// Rasterizes one triangle on a grid of `width` by `height` pixels: the
/// samples of exactly the pixels whose centres the triangle covers, in
/// row-major order. `index` is the triangle's number in its draw call and
/// is handed on in every sample. A triangle without area covers nothing.
pub fn triangle(t: &Triangle, index: usize, width: usize, height: usize) -> (samples: Vec<Sample>)
    ensures
        is_coverage(samples@, *t, index, width as int, height as int),
        t.area2() == 0 ==> samples@.len() == 0,
        forall|k: int| 0 <= k < samples@.len() ==> (#[trigger] samples@[k]).weighted(),
{
    let mut samples: Vec<Sample> = Vec::new();
    let winding = match winding_of(t) {
        Some(winding) => winding,
        None => {
            return samples;
        },
    };
    let (x_first, x_end) = pixel_range(
        min3(t.a.x, t.b.x, t.c.x),
        max3(t.a.x, t.b.x, t.c.x),
        width,
    );
    let (y_first, y_end) = pixel_range(
        min3(t.a.y, t.b.y, t.c.y),
        max3(t.a.y, t.b.y, t.c.y),
        height,
    );
    let ghost w = width as int;
    let ghost h = height as int;
    proof {
        assert forall|x: int, y: int| #[trigger] t.covers(x, y) && 0 <= x < w && 0 <= y
            < h implies x_first <= x < x_end && y_first <= y < y_end by {
            lemma_covered_inside_bounds(*t, x, y);
        }
        lemma_coverage_extends(samples@, *t, index, w, h, 0, 0, 0, y_first as int);
    }
    let mut y: i64 = y_first;
    while y < y_end
        invariant
            w == width,
            h == height,
            0 <= y_first <= y <= y_end <= h,
            0 <= x_first <= x_end <= w,
            x_end <= 0x80_0000,
            y_end <= 0x80_0000,
            winding.is_of(*t),
            forall|px: int, py: int|
                #[trigger] t.covers(px, py) && 0 <= px < w && 0 <= py < h ==> x_first <= px
                    < x_end && y_first <= py < y_end,
            is_coverage_before(samples@, *t, index, w, h, 0, y as int),
        decreases y_end - y,
    {
        proof {
            lemma_coverage_extends(samples@, *t, index, w, h, 0, y as int, x_first as int, y as int);
        }
        let mut x: i64 = x_first;
        while x < x_end
            invariant
                w == width,
                h == height,
                0 <= y < y_end <= h,
                0 <= x_first <= x <= x_end <= w,
                x_end <= 0x80_0000,
                y_end <= 0x80_0000,
                winding.is_of(*t),
                is_coverage_before(samples@, *t, index, w, h, x as int, y as int),
            decreases x_end - x,
        {
            match sample_pixel(t, index, &winding, x, y) {
                Some(sample) => {
                    proof {
                        lemma_coverage_push(samples@, *t, index, w, h, x as int, y as int);
                    }
                    samples.push(sample);
                },
                None => {
                    proof {
                        lemma_coverage_extends(
                            samples@,
                            *t,
                            index,
                            w,
                            h,
                            x as int,
                            y as int,
                            x + 1,
                            y as int,
                        );
                    }
                },
            }
            x += 1;
        }
        proof {
            lemma_coverage_extends(samples@, *t, index, w, h, x as int, y as int, 0, y + 1);
        }
        y += 1;
    }
    proof {
        lemma_coverage_extends(samples@, *t, index, w, h, 0, y as int, 0, h);
        assert forall|k: int| 0 <= k < samples@.len() implies (#[trigger] samples@[k]).weighted() by {
            let s = samples@[k];
            lemma_sample_weights(*t, index, s.x as int, s.y as int);
        }
    }
    samples
}

/// Rasterizes the triangles of one draw call on a grid of `width` by
/// `height` pixels: the samples of the first triangle, then those of the
/// second, and so on, each triangle's in row-major order. With no triangles
/// there are no samples.
pub fn rasterize(triangles: &Vec<Triangle>, width: usize, height: usize) -> (samples: Vec<Sample>)
    ensures
        is_mesh_coverage(samples@, triangles@, width as int, height as int),
        triangles@.len() == 0 ==> samples@.len() == 0,
        forall|k: int|
            0 <= k < samples@.len() ==> (#[trigger] samples@[k]).weighted() && samples@[k].triangle
                < triangles@.len(),
{
    let mut samples: Vec<Sample> = Vec::new();
    let n: usize = triangles.len();
    let mut i: usize = 0;
    while i < n
        invariant
            n == triangles@.len(),
            i <= n,
            is_mesh_coverage_before(samples@, triangles@, width as int, height as int, i as int),
            n == 0 ==> samples@.len() == 0,
            forall|k: int| 0 <= k < samples@.len() ==> (#[trigger] samples@[k]).weighted(),
        decreases n - i,
    {
        let mut part = triangle(&triangles[i], i, width, height);
        proof {
            lemma_mesh_coverage_append(
                samples@,
                part@,
                triangles@,
                width as int,
                height as int,
                i,
            );
        }
        samples.append(&mut part);
        i += 1;
    }
    samples
}

} // verus!
