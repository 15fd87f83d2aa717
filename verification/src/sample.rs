use vstd::prelude::*;
use crate::assembly::{ScreenPoint, Triangle};
use crate::coverage::{center, lemma_weights};
use crate::geometry::edge;

verus! {

/// One pixel that a triangle covers: which triangle of the draw call, which
/// pixel, and the barycentric weights of the three vertices at the pixel's
/// centre. The weights are not negative and are scaled by their sum, the
/// triangle's doubled area: an attribute with the values `va`, `vb`, `vc` at
/// the vertices has the value
/// `(weight_a * va + weight_b * vb + weight_c * vc) / (weight_a + weight_b + weight_c)`
/// at the pixel.
#[derive(Clone, Copy, Debug, PartialEq, Eq, Structural)]
pub struct Sample {
    pub triangle: usize,
    pub x: i32,
    pub y: i32,
    pub weight_a: i128,
    pub weight_b: i128,
    pub weight_c: i128,
}

impl Triangle {
    /// The sample that the triangle, as number `index` of its draw call,
    /// leaves at pixel `(x, y)`.
    pub open spec fn sample_at(self, index: usize, x: int, y: int) -> Sample {
        Sample {
            triangle: index,
            x: x as i32,
            y: y as i32,
            weight_a: self.weight_a(x, y) as i128,
            weight_b: self.weight_b(x, y) as i128,
            weight_c: self.weight_c(x, y) as i128,
        }
    }
}

/// The sample of a covered pixel carries the pixel, the triangle's number
/// and the three weights as they are: none is negative, and their sum is
/// the triangle's doubled area without its sign, which is not zero. So the
/// weights can be divided by their sum.
pub proof fn lemma_sample_weights(t: Triangle, index: usize, x: int, y: int)
    requires
        t.covers(x, y),
        0 <= x <= i32::MAX,
        0 <= y <= i32::MAX,
    ensures
        t.sample_at(index, x, y).triangle == index,
        t.sample_at(index, x, y).x == x,
        t.sample_at(index, x, y).y == y,
        t.sample_at(index, x, y).weight_a == t.weight_a(x, y) >= 0,
        t.sample_at(index, x, y).weight_b == t.weight_b(x, y) >= 0,
        t.sample_at(index, x, y).weight_c == t.weight_c(x, y) >= 0,
        t.sample_at(index, x, y).weight_a + t.sample_at(index, x, y).weight_b + t.sample_at(
            index,
            x,
            y,
        ).weight_c == t.weight_sum() > 0,
{
    lemma_weights(t, x, y);
    lemma_weight_fits(t.b, t.c, center(x), center(y));
    lemma_weight_fits(t.c, t.a, center(x), center(y));
    lemma_weight_fits(t.a, t.b, center(x), center(y));
}

/// An edge function at a pixel centre is far from the limits of a 128-bit
/// integer.
proof fn lemma_weight_fits(a: ScreenPoint, b: ScreenPoint, px: int, py: int)
    requires
        0 <= px <= 0x100_0000_0000,
        0 <= py <= 0x100_0000_0000,
    ensures
        -0x800_0000_0000_0000_0000 <= edge(
            a.x as int,
            a.y as int,
            b.x as int,
            b.y as int,
            px,
            py,
        ) <= 0x800_0000_0000_0000_0000,
{
    let dx = b.x - a.x;
    let dy = b.y - a.y;
    let qx = px - a.x;
    let qy = py - a.y;
    assert(-0x400_0000_0000_0000_0000 <= dx * qy <= 0x400_0000_0000_0000_0000)
        by (nonlinear_arith)
        requires
            -0x1_0000_0000 <= dx <= 0x1_0000_0000,
            -0x200_0000_0000 <= qy <= 0x200_0000_0000,
    ;
    assert(-0x400_0000_0000_0000_0000 <= dy * qx <= 0x400_0000_0000_0000_0000)
        by (nonlinear_arith)
        requires
            -0x1_0000_0000 <= dy <= 0x1_0000_0000,
            -0x200_0000_0000 <= qx <= 0x200_0000_0000,
    ;
}

impl Sample {
    /// Whether the weights can stand for a point of a triangle: none is
    /// negative and their sum is positive.
    pub open spec fn weighted(self) -> bool {
        &&& self.weight_a >= 0
        &&& self.weight_b >= 0
        &&& self.weight_c >= 0
        &&& self.weight_a + self.weight_b + self.weight_c > 0
    }
}

/// Whether pixel `(x1, y1)` comes before pixel `(x2, y2)` in row-major
/// order: rows from the top, each row from the left.
pub open spec fn row_major_before(x1: int, y1: int, x2: int, y2: int) -> bool {
    y1 < y2 || (y1 == y2 && x1 < x2)
}

/// Whether one of the samples falls on pixel `(x, y)`.
pub open spec fn has_pixel(samples: Seq<Sample>, x: int, y: int) -> bool {
    exists|k: int| 0 <= k < samples.len() && (#[trigger] samples[k]).x == x && samples[k].y == y
}

/// Whether `samples` is the coverage of triangle `t` on a grid of the given
/// dimensions, as far as the pixels before `(col, row)` in row-major order:
/// every sample is a pixel of the grid before `(col, row)` that `t` covers,
/// with its weights; the samples stand in row-major order, none twice; and
/// no covered pixel of the grid before `(col, row)` is missing.
pub open spec fn is_coverage_before(
    samples: Seq<Sample>,
    t: Triangle,
    index: usize,
    width: int,
    height: int,
    col: int,
    row: int,
) -> bool {
    &&& forall|k: int|
        0 <= k < samples.len() ==> {
            let s = #[trigger] samples[k];
            &&& 0 <= s.x < width
            &&& 0 <= s.y < height
            &&& row_major_before(s.x as int, s.y as int, col, row)
            &&& t.covers(s.x as int, s.y as int)
            &&& s == t.sample_at(index, s.x as int, s.y as int)
        }
    &&& forall|j: int, k: int|
        0 <= j < k < samples.len() ==> row_major_before(
            (#[trigger] samples[j]).x as int,
            samples[j].y as int,
            (#[trigger] samples[k]).x as int,
            samples[k].y as int,
        )
    &&& forall|x: int, y: int|
        0 <= x < width && 0 <= y < height && row_major_before(x, y, col, row) && #[trigger] t.covers(
            x,
            y,
        ) ==> has_pixel(samples, x, y)
}

/// Whether `samples` is the coverage of triangle `t` on a grid of the given
/// dimensions: exactly the pixels of the grid that `t` covers, each once,
/// in row-major order, each with its weights.
pub open spec fn is_coverage(
    samples: Seq<Sample>,
    t: Triangle,
    index: usize,
    width: int,
    height: int,
) -> bool {
    is_coverage_before(samples, t, index, width, height, 0, height)
}

/// A coverage up to one place is a coverage up to a later place when the
/// triangle covers no pixel of the grid in between.
pub proof fn lemma_coverage_extends(
    samples: Seq<Sample>,
    t: Triangle,
    index: usize,
    width: int,
    height: int,
    col: int,
    row: int,
    next_col: int,
    next_row: int,
)
    requires
        is_coverage_before(samples, t, index, width, height, col, row),
        row_major_before(col, row, next_col, next_row) || (col == next_col && row == next_row),
        forall|x: int, y: int|
            0 <= x < width && 0 <= y < height && !row_major_before(x, y, col, row)
                && row_major_before(x, y, next_col, next_row) ==> !#[trigger] t.covers(x, y),
    ensures
        is_coverage_before(samples, t, index, width, height, next_col, next_row),
{
    assert forall|k: int| 0 <= k < samples.len() implies {
        let s = #[trigger] samples[k];
        row_major_before(s.x as int, s.y as int, next_col, next_row)
    } by {
        let s = samples[k];
        assert(row_major_before(s.x as int, s.y as int, col, row));
    }
}

/// A coverage up to a covered pixel of the grid, with that pixel's sample
/// added, is a coverage up to the next place in the row.
pub proof fn lemma_coverage_push(
    samples: Seq<Sample>,
    t: Triangle,
    index: usize,
    width: int,
    height: int,
    x: int,
    y: int,
)
    requires
        is_coverage_before(samples, t, index, width, height, x, y),
        0 <= x < width,
        0 <= y < height,
        x <= i32::MAX,
        y <= i32::MAX,
        t.covers(x, y),
    ensures
        is_coverage_before(
            samples.push(t.sample_at(index, x, y)),
            t,
            index,
            width,
            height,
            x + 1,
            y,
        ),
{
    let new = t.sample_at(index, x, y);
    let next = samples.push(new);
    assert(new.x == x && new.y == y);
    assert forall|k: int| 0 <= k < next.len() implies {
        let s = #[trigger] next[k];
        &&& 0 <= s.x < width
        &&& 0 <= s.y < height
        &&& row_major_before(s.x as int, s.y as int, x + 1, y)
        &&& t.covers(s.x as int, s.y as int)
        &&& s == t.sample_at(index, s.x as int, s.y as int)
    } by {
        if k < samples.len() {
            assert(next[k] == samples[k]);
        }
    }
    assert forall|j: int, k: int| 0 <= j < k < next.len() implies row_major_before(
        (#[trigger] next[j]).x as int,
        next[j].y as int,
        (#[trigger] next[k]).x as int,
        next[k].y as int,
    ) by {
        assert(next[j] == samples[j]);
        if k < samples.len() {
            assert(next[k] == samples[k]);
        }
    }
    assert forall|px: int, py: int|
        0 <= px < width && 0 <= py < height && row_major_before(px, py, x + 1, y)
            && #[trigger] t.covers(px, py) implies has_pixel(next, px, py) by {
        if px == x && py == y {
            assert(next[samples.len() as int].x == px);
        } else {
            assert(has_pixel(samples, px, py));
            let k = choose|k: int|
                0 <= k < samples.len() && (#[trigger] samples[k]).x == px && samples[k].y == py;
            assert(next[k] == samples[k]);
        }
    }
}

/// Whether sample `first` comes before sample `second` in the order of a
/// draw call: by triangle, then by pixel in row-major order.
pub open spec fn comes_before(first: Sample, second: Sample) -> bool {
    first.triangle < second.triangle || (first.triangle == second.triangle && row_major_before(
        first.x as int,
        first.y as int,
        second.x as int,
        second.y as int,
    ))
}

/// Whether one of the samples is that of triangle number `index` at pixel
/// `(x, y)`.
pub open spec fn has_sample(samples: Seq<Sample>, index: int, x: int, y: int) -> bool {
    exists|k: int|
        0 <= k < samples.len() && (#[trigger] samples[k]).triangle == index && samples[k].x == x
            && samples[k].y == y
}

/// Whether `samples` is the coverage of the first `count` of the triangles
/// on a grid of the given dimensions: every sample belongs to one of them
/// and is a pixel of the grid that it covers, with its weights; the samples
/// stand triangle by triangle and in row-major order within each, none
/// twice; and no pixel of the grid that one of them covers is missing for
/// it.
pub open spec fn is_mesh_coverage_before(
    samples: Seq<Sample>,
    triangles: Seq<Triangle>,
    width: int,
    height: int,
    count: int,
) -> bool {
    &&& forall|k: int|
        0 <= k < samples.len() ==> {
            let s = #[trigger] samples[k];
            &&& s.triangle < count
            &&& 0 <= s.x < width
            &&& 0 <= s.y < height
            &&& triangles[s.triangle as int].covers(s.x as int, s.y as int)
            &&& s == triangles[s.triangle as int].sample_at(s.triangle, s.x as int, s.y as int)
        }
    &&& forall|j: int, k: int|
        0 <= j < k < samples.len() ==> comes_before(#[trigger] samples[j], #[trigger] samples[k])
    &&& forall|i: int, x: int, y: int|
        0 <= i < count && 0 <= x < width && 0 <= y < height && #[trigger] triangles[i].covers(x, y)
            ==> has_sample(samples, i, x, y)
}

/// Whether `samples` is the coverage of all the triangles of a draw call.
pub open spec fn is_mesh_coverage(
    samples: Seq<Sample>,
    triangles: Seq<Triangle>,
    width: int,
    height: int,
) -> bool {
    is_mesh_coverage_before(samples, triangles, width, height, triangles.len() as int)
}

/// The coverage of the first `count` triangles, followed by the coverage of
/// the next one, is the coverage of the first `count + 1`.
pub proof fn lemma_mesh_coverage_append(
    samples: Seq<Sample>,
    part: Seq<Sample>,
    triangles: Seq<Triangle>,
    width: int,
    height: int,
    count: usize,
)
    requires
        count < triangles.len(),
        is_mesh_coverage_before(samples, triangles, width, height, count as int),
        is_coverage(part, triangles[count as int], count, width, height),
    ensures
        is_mesh_coverage_before(samples + part, triangles, width, height, count + 1),
{
    let all = samples + part;
    let t = triangles[count as int];
    assert forall|k: int| 0 <= k < all.len() implies {
        let s = #[trigger] all[k];
        &&& s.triangle < count + 1
        &&& 0 <= s.x < width
        &&& 0 <= s.y < height
        &&& triangles[s.triangle as int].covers(s.x as int, s.y as int)
        &&& s == triangles[s.triangle as int].sample_at(s.triangle, s.x as int, s.y as int)
    } by {
        if k < samples.len() {
            assert(all[k] == samples[k]);
        } else {
            assert(all[k] == part[k - samples.len()]);
        }
    }
    assert forall|j: int, k: int| 0 <= j < k < all.len() implies comes_before(
        #[trigger] all[j],
        #[trigger] all[k],
    ) by {
        if k < samples.len() {
            assert(all[j] == samples[j] && all[k] == samples[k]);
        } else if j < samples.len() {
            assert(all[j] == samples[j] && all[k] == part[k - samples.len()]);
        } else {
            assert(all[j] == part[j - samples.len()] && all[k] == part[k - samples.len()]);
        }
    }
    assert forall|i: int, x: int, y: int|
        0 <= i < count + 1 && 0 <= x < width && 0 <= y < height && #[trigger] triangles[i].covers(
            x,
            y,
        ) implies has_sample(all, i, x, y) by {
        if i < count {
            assert(has_sample(samples, i, x, y));
            let k = choose|k: int|
                0 <= k < samples.len() && (#[trigger] samples[k]).triangle == i && samples[k].x
                    == x && samples[k].y == y;
            assert(all[k] == samples[k]);
        } else {
            assert(has_pixel(part, x, y));
            let k = choose|k: int|
                0 <= k < part.len() && (#[trigger] part[k]).x == x && part[k].y == y;
            assert(all[samples.len() + k] == part[k]);
        }
    }
}

/// Whether the samples stand in the order of a draw call, none twice.
pub open spec fn ascending(samples: Seq<Sample>) -> bool {
    forall|j: int, k: int|
        0 <= j < k < samples.len() ==> comes_before(#[trigger] samples[j], #[trigger] samples[k])
}

/// Whether `sample` is one of the samples.
pub open spec fn holds(samples: Seq<Sample>, sample: Sample) -> bool {
    exists|k: int| 0 <= k < samples.len() && #[trigger] samples[k] == sample
}

/// Two ascending runs of samples with the same members agree at every
/// place that both have.
proof fn lemma_ascending_same_at(first: Seq<Sample>, second: Seq<Sample>, k: int)
    requires
        ascending(first),
        ascending(second),
        forall|i: int| 0 <= i < first.len() ==> holds(second, #[trigger] first[i]),
        forall|i: int| 0 <= i < second.len() ==> holds(first, #[trigger] second[i]),
        0 <= k < first.len(),
        k < second.len(),
    ensures
        first[k] == second[k],
    decreases k,
{
    assert(holds(second, first[k]));
    let m = choose|m: int| 0 <= m < second.len() && #[trigger] second[m] == first[k];
    assert(holds(first, second[k]));
    let n = choose|n: int| 0 <= n < first.len() && #[trigger] first[n] == second[k];
    if m < k {
        lemma_ascending_same_at(first, second, m);
        assert(comes_before(first[m], first[k]));
    } else if n < k {
        lemma_ascending_same_at(first, second, n);
        assert(comes_before(second[n], second[k]));
    } else if m > k && n > k {
        assert(comes_before(second[k], second[m]));
        assert(comes_before(first[k], first[n]));
    }
}

/// Two ascending runs of samples with the same members are the same run.
pub proof fn lemma_ascending_same_members(first: Seq<Sample>, second: Seq<Sample>)
    requires
        ascending(first),
        ascending(second),
        forall|i: int| 0 <= i < first.len() ==> holds(second, #[trigger] first[i]),
        forall|i: int| 0 <= i < second.len() ==> holds(first, #[trigger] second[i]),
    ensures
        first == second,
{
    if first.len() > second.len() {
        let k = second.len() as int;
        assert(holds(second, first[k]));
        let m = choose|m: int| 0 <= m < second.len() && #[trigger] second[m] == first[k];
        lemma_ascending_same_at(first, second, m);
        assert(comes_before(first[m], first[k]));
    }
    if second.len() > first.len() {
        let k = first.len() as int;
        assert(holds(first, second[k]));
        let m = choose|m: int| 0 <= m < first.len() && #[trigger] first[m] == second[k];
        lemma_ascending_same_at(first, second, m);
        assert(comes_before(second[m], second[k]));
    }
    assert forall|k: int| 0 <= k < first.len() implies first[k] == second[k] by {
        lemma_ascending_same_at(first, second, k);
    }
    assert(first =~= second);
}

/// One coverage of a triangle stands in ascending order and holds no sample
/// that another lacks.
proof fn lemma_coverage_members(
    first: Seq<Sample>,
    second: Seq<Sample>,
    t: Triangle,
    index: usize,
    width: int,
    height: int,
)
    requires
        is_coverage(first, t, index, width, height),
        is_coverage(second, t, index, width, height),
    ensures
        ascending(first),
        forall|i: int| 0 <= i < first.len() ==> holds(second, #[trigger] first[i]),
{
    assert forall|j: int, k: int| 0 <= j < k < first.len() implies comes_before(
        #[trigger] first[j],
        #[trigger] first[k],
    ) by {
        assert(first[j].triangle == index && first[k].triangle == index);
    }
    assert forall|i: int| 0 <= i < first.len() implies holds(second, #[trigger] first[i]) by {
        let s = first[i];
        assert(t.covers(s.x as int, s.y as int));
        assert(has_pixel(second, s.x as int, s.y as int));
        let m = choose|m: int|
            0 <= m < second.len() && (#[trigger] second[m]).x == s.x as int && second[m].y
                == s.y as int;
        assert(second[m] == t.sample_at(index, second[m].x as int, second[m].y as int));
    }
}

/// A triangle has one coverage only: rasterizing it again gives the same
/// samples in the same order.
pub proof fn lemma_coverage_unique(
    first: Seq<Sample>,
    second: Seq<Sample>,
    t: Triangle,
    index: usize,
    width: int,
    height: int,
)
    requires
        is_coverage(first, t, index, width, height),
        is_coverage(second, t, index, width, height),
    ensures
        first == second,
{
    lemma_coverage_members(first, second, t, index, width, height);
    lemma_coverage_members(second, first, t, index, width, height);
    lemma_ascending_same_members(first, second);
}

/// One coverage of a draw call holds no sample that another lacks.
proof fn lemma_mesh_coverage_members(
    first: Seq<Sample>,
    second: Seq<Sample>,
    triangles: Seq<Triangle>,
    width: int,
    height: int,
)
    requires
        is_mesh_coverage(first, triangles, width, height),
        is_mesh_coverage(second, triangles, width, height),
    ensures
        ascending(first),
        forall|i: int| 0 <= i < first.len() ==> holds(second, #[trigger] first[i]),
{
    assert forall|i: int| 0 <= i < first.len() implies holds(second, #[trigger] first[i]) by {
        let s = first[i];
        let t = triangles[s.triangle as int];
        assert(t.covers(s.x as int, s.y as int));
        assert(has_sample(second, s.triangle as int, s.x as int, s.y as int));
        let m = choose|m: int|
            0 <= m < second.len() && (#[trigger] second[m]).triangle == s.triangle as int
                && second[m].x == s.x as int && second[m].y == s.y as int;
        assert(second[m] == triangles[second[m].triangle as int].sample_at(
            second[m].triangle,
            second[m].x as int,
            second[m].y as int,
        ));
    }
}

/// A draw call has one coverage only: rasterizing its triangles again
/// gives the same samples in the same order.
pub proof fn lemma_mesh_coverage_unique(
    first: Seq<Sample>,
    second: Seq<Sample>,
    triangles: Seq<Triangle>,
    width: int,
    height: int,
)
    requires
        is_mesh_coverage(first, triangles, width, height),
        is_mesh_coverage(second, triangles, width, height),
    ensures
        first == second,
{
    lemma_mesh_coverage_members(first, second, triangles, width, height);
    lemma_mesh_coverage_members(second, first, triangles, width, height);
    lemma_ascending_same_members(first, second);
}

/// A draw call without triangles has no samples.
pub proof fn lemma_no_triangles_no_samples(samples: Seq<Sample>, width: int, height: int)
    requires
        is_mesh_coverage(samples, Seq::<Triangle>::empty(), width, height),
    ensures
        samples.len() == 0,
{
    if samples.len() > 0 {
        assert(samples[0].triangle < 0);
    }
}

} // verus!
