use vstd::prelude::*;
use crate::color::Color;
use crate::framebuffer::Framebuffer;
use crate::grid::{lemma_pixels_determine_grid, Grid};
use crate::line::on_line;

verus! {

/// Whether pixel `(x, y)` lies on side number `k` of the closed path
/// through `points`: the line from point `k` to the point after it, which
/// for the last point is the first one.
pub open spec fn on_side(points: Seq<(i32, i32)>, k: int, x: int, y: int) -> bool {
    let from = points[k];
    let to = points[if k + 1 < points.len() { k + 1 } else { 0 }];
    on_line(from.0 as int, from.1 as int, to.0 as int, to.1 as int, x, y)
}

/// Whether pixel `(x, y)` lies on one of the first `count` sides of the
/// closed path through `points`.
pub open spec fn on_path_before(points: Seq<(i32, i32)>, count: int, x: int, y: int) -> bool {
    exists|k: int| 0 <= k < count && #[trigger] on_side(points, k, x, y)
}

/// Whether pixel `(x, y)` lies on the closed path through `points`. A path
/// has as many sides as points; without points it has no pixel.
pub open spec fn on_path(points: Seq<(i32, i32)>, x: int, y: int) -> bool {
    on_path_before(points, points.len() as int, x, y)
}

impl Grid {
    /// Whether this grid is `start` with the first `count` sides of the
    /// closed path through `points` written through the depth test, all
    /// with one colour and one depth: a pixel on one of them holds that
    /// colour and depth if the depth is strictly nearer than what `start`
    /// held there, and every other pixel is as in `start`.
    pub open spec fn has_path_prefix(
        self,
        start: Grid,
        points: Seq<(i32, i32)>,
        count: int,
        color: Color,
        depth: u32,
    ) -> bool {
        &&& self.wf()
        &&& self.width == start.width
        &&& self.height == start.height
        &&& self.background == start.background
        &&& self.current == start.current
        &&& forall|px: int, py: int|
            start.contains(px, py) ==> #[trigger] self.pixel(px, py) == if on_path_before(
                points,
                count,
                px,
                py,
            ) && depth < start.depth_at(px, py) {
                (color, depth)
            } else {
                start.pixel(px, py)
            }
    }

    /// Whether this grid is `start` with the whole closed path through
    /// `points` written through the depth test.
    pub open spec fn has_path(
        self,
        start: Grid,
        points: Seq<(i32, i32)>,
        color: Color,
        depth: u32,
    ) -> bool {
        self.has_path_prefix(start, points, points.len() as int, color, depth)
    }
}

/// Drawing side number `count` of a path onto a grid that holds the first
/// `count` sides gives the grid that holds the first `count + 1`.
pub proof fn lemma_path_prefix_next(
    start: Grid,
    s: Grid,
    t: Grid,
    points: Seq<(i32, i32)>,
    count: int,
    color: Color,
    depth: u32,
)
    requires
        0 <= count < points.len(),
        s.has_path_prefix(start, points, count, color, depth),
        ({
            let from = points[count];
            let to = points[if count + 1 < points.len() { count + 1 } else { 0 }];
            t.has_line(s, from.0 as int, from.1 as int, to.0 as int, to.1 as int, color, depth)
        }),
    ensures
        t.has_path_prefix(start, points, count + 1, color, depth),
{
    assert forall|px: int, py: int| start.contains(px, py) implies #[trigger] t.pixel(px, py)
        == if on_path_before(points, count + 1, px, py) && depth < start.depth_at(px, py) {
        (color, depth)
    } else {
        start.pixel(px, py)
    } by {
        let was = on_path_before(points, count, px, py);
        let is = on_path_before(points, count + 1, px, py);
        let side = on_side(points, count, px, py);
        assert(s.contains(px, py));
        assert(s.pixel(px, py) == if was && depth < start.depth_at(px, py) {
            (color, depth)
        } else {
            start.pixel(px, py)
        });
        assert(t.pixel(px, py) == if side && depth < s.depth_at(px, py) {
            (color, depth)
        } else {
            s.pixel(px, py)
        });
        if side {
            assert(is);
        }
        if was {
            let k = choose|k: int| 0 <= k < count && #[trigger] on_side(points, k, px, py);
            assert(k < count + 1);
            assert(is);
        }
        if is {
            let k = choose|k: int| 0 <= k < count + 1 && #[trigger] on_side(points, k, px, py);
            if k < count {
                assert(was);
            } else {
                assert(side);
            }
        }
    }
}

/// There is one grid only that holds a given path drawn onto a given grid.
pub proof fn lemma_path_result_unique(
    start: Grid,
    s: Grid,
    t: Grid,
    points: Seq<(i32, i32)>,
    color: Color,
    depth: u32,
)
    requires
        s.has_path(start, points, color, depth),
        t.has_path(start, points, color, depth),
    ensures
        s == t,
{
    assert forall|x: int, y: int| s.contains(x, y) implies #[trigger] s.pixel(x, y) == t.pixel(
        x,
        y,
    ) by {
        assert(start.contains(x, y));
    }
    lemma_pixels_determine_grid(s, t);
}

/// Draws the closed path through `points`: a line from each point to the
/// next and one from the last back to the first, every pixel with the one
/// `color` and the one `depth`, each through the depth test. A single point
/// gives a single pixel; no points give nothing.
pub fn draw_closed_path(
    framebuffer: &mut Framebuffer,
    points: &Vec<(i32, i32)>,
    color: Color,
    depth: u32,
)
    ensures
        final(framebuffer)@.has_path(old(framebuffer)@, points@, color, depth),
        points@.len() == 0 ==> final(framebuffer)@ == old(framebuffer)@,
{
    let n: usize = points.len();
    proof {
        use_type_invariant(&*framebuffer);
    }
    let mut k: usize = 0;
    while k < n
        invariant
            n == points@.len(),
            k <= n,
            framebuffer@.has_path_prefix(old(framebuffer)@, points@, k as int, color, depth),
            n == 0 ==> framebuffer@ == old(framebuffer)@,
        decreases n - k,
    {
        let from = points[k];
        let to = if k + 1 < n { points[k + 1] } else { points[0] };
        let ghost before = framebuffer@;
        framebuffer.draw_line_with_depth(from.0, from.1, to.0, to.1, color, depth);
        proof {
            lemma_path_prefix_next(
                old(framebuffer)@,
                before,
                framebuffer@,
                points@,
                k as int,
                color,
                depth,
            );
        }
        k += 1;
    }
}

} // verus!
