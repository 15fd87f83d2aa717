use vstd::prelude::*;
use vstd::arithmetic::div_mod::{lemma_fundamental_div_mod, lemma_fundamental_div_mod_converse};
use crate::color::Color;
use crate::grid::{lemma_pixels_determine_grid, lemma_plot_pixel, Grid};

verus! {

/// The absolute value of an integer.
pub open spec fn magnitude(v: int) -> int {
    if v < 0 {
        -v
    } else {
        v
    }
}

/// The number of steps of the line from `(x0, y0)` to `(x1, y1)`: its extent
/// along its longer axis. The line has one pixel more than it has steps.
pub open spec fn line_steps(x0: int, y0: int, x1: int, y1: int) -> int {
    if magnitude(x1 - x0) >= magnitude(y1 - y0) {
        magnitude(x1 - x0)
    } else {
        magnitude(y1 - y0)
    }
}

/// `a / n` rounded to the nearest integer, halves rounded up.
pub open spec fn div_round(a: int, n: int) -> int
    recommends
        n > 0,
{
    (2 * a + n) / (2 * n)
}

/// Pixel number `i` of the line from `(x0, y0)` to `(x1, y1)`: the line
/// advances one pixel per step along its longer axis and takes, along the
/// other axis, the pixel nearest to the ideal line.
pub open spec fn line_pixel(x0: int, y0: int, x1: int, y1: int, i: int) -> (int, int) {
    let n = line_steps(x0, y0, x1, y1);
    if n == 0 {
        (x0, y0)
    } else {
        (x0 + div_round(i * (x1 - x0), n), y0 + div_round(i * (y1 - y0), n))
    }
}

/// Whether `(x, y)` is among the first `count` pixels of the line.
pub open spec fn on_line_before(
    x0: int,
    y0: int,
    x1: int,
    y1: int,
    count: int,
    x: int,
    y: int,
) -> bool {
    exists|i: int| 0 <= i < count && #[trigger] line_pixel(x0, y0, x1, y1, i) == (x, y)
}

/// Whether `(x, y)` is a pixel of the line from `(x0, y0)` to `(x1, y1)`.
pub open spec fn on_line(x0: int, y0: int, x1: int, y1: int, x: int, y: int) -> bool {
    on_line_before(x0, y0, x1, y1, line_steps(x0, y0, x1, y1) + 1, x, y)
}

/// A quotient and a remainder that add up to `2 * a + n` are those of the
/// rounded division.
pub proof fn lemma_div_round_is(a: int, n: int, q: int, r: int)
    requires
        n > 0,
        0 <= r < 2 * n,
        2 * a + n == q * (2 * n) + r,
    ensures
        q == div_round(a, n),
{
    lemma_fundamental_div_mod_converse(2 * a + n, 2 * n, q, r);
}

/// A rounded share `i * d / n` of an extent `d` lies between zero and `d`
/// when `i` lies between zero and `n`, and is exact where `d` is `n` or
/// `-n`.
pub proof fn lemma_div_round_between(n: int, d: int, i: int)
    requires
        n > 0,
        0 <= i <= n,
        -n <= d <= n,
    ensures
        d >= 0 ==> 0 <= div_round(i * d, n) <= d,
        d <= 0 ==> d <= div_round(i * d, n) <= 0,
        d == n ==> div_round(i * d, n) == i,
        d == -n ==> div_round(i * d, n) == -i,
        i == 0 ==> div_round(i * d, n) == 0,
        i == n ==> div_round(i * d, n) == d,
{
    let a = i * d;
    let q = div_round(a, n);
    let r = (2 * a + n) % (2 * n);
    lemma_fundamental_div_mod(2 * a + n, 2 * n);
    assert(2 * a + n == (2 * n) * q + r);
    assert(0 <= r < 2 * n);
    if d >= 0 {
        assert(0 <= i * d <= n * d) by (nonlinear_arith)
            requires
                0 <= i <= n,
                d >= 0,
        ;
        assert(q >= 0) by (nonlinear_arith)
            requires
                2 * a + n == (2 * n) * q + r,
                r < 2 * n,
                a >= 0,
                n > 0,
        ;
        assert(q <= d) by (nonlinear_arith)
            requires
                2 * a + n == (2 * n) * q + r,
                r >= 0,
                a <= n * d,
                n > 0,
        ;
    }
    if d <= 0 {
        assert(n * d <= i * d <= 0) by (nonlinear_arith)
            requires
                0 <= i <= n,
                d <= 0,
        ;
        assert(q <= 0) by (nonlinear_arith)
            requires
                2 * a + n == (2 * n) * q + r,
                r >= 0,
                a <= 0,
                n > 0,
        ;
        assert(q >= d) by (nonlinear_arith)
            requires
                2 * a + n == (2 * n) * q + r,
                r < 2 * n,
                a >= n * d,
                n > 0,
        ;
    }
    if d == n {
        assert(2 * (i * n) + n == i * (2 * n) + n) by (nonlinear_arith);
        lemma_div_round_is(a, n, i, n);
    }
    if d == -n {
        assert(2 * (i * (-n)) + n == (-i) * (2 * n) + n) by (nonlinear_arith);
        lemma_div_round_is(a, n, -i, n);
    }
    if i == 0 {
        assert(0 * d == 0);
        lemma_div_round_is(a, n, 0, n);
    }
    if i == n {
        assert(2 * (n * d) + n == d * (2 * n) + n) by (nonlinear_arith);
        lemma_div_round_is(a, n, d, n);
    }
}

/// A line starts at its first end point and ends at its second.
pub proof fn lemma_line_ends(x0: int, y0: int, x1: int, y1: int)
    ensures
        line_pixel(x0, y0, x1, y1, 0) == (x0, y0),
        line_pixel(x0, y0, x1, y1, line_steps(x0, y0, x1, y1)) == (x1, y1),
        on_line(x0, y0, x1, y1, x0, y0),
        on_line(x0, y0, x1, y1, x1, y1),
{
    let n = line_steps(x0, y0, x1, y1);
    if n > 0 {
        lemma_div_round_between(n, x1 - x0, 0);
        lemma_div_round_between(n, y1 - y0, 0);
        lemma_div_round_between(n, x1 - x0, n);
        lemma_div_round_between(n, y1 - y0, n);
    }
    assert(line_pixel(x0, y0, x1, y1, 0) == (x0, y0));
    assert(line_pixel(x0, y0, x1, y1, n) == (x1, y1));
}

/// Every pixel of a line lies in the rectangle that its end points span.
pub proof fn lemma_line_pixel_between(x0: int, y0: int, x1: int, y1: int, i: int)
    requires
        0 <= i <= line_steps(x0, y0, x1, y1),
    ensures
        x0 <= x1 ==> x0 <= line_pixel(x0, y0, x1, y1, i).0 <= x1,
        x1 <= x0 ==> x1 <= line_pixel(x0, y0, x1, y1, i).0 <= x0,
        y0 <= y1 ==> y0 <= line_pixel(x0, y0, x1, y1, i).1 <= y1,
        y1 <= y0 ==> y1 <= line_pixel(x0, y0, x1, y1, i).1 <= y0,
{
    let n = line_steps(x0, y0, x1, y1);
    if n > 0 {
        lemma_div_round_between(n, x1 - x0, i);
        lemma_div_round_between(n, y1 - y0, i);
    }
}

/// From one step to the next a rounded share of an extent `d` moves by at
/// most one, and never against the sign of `d`.
pub proof fn lemma_div_round_step(n: int, d: int, i: int)
    requires
        n > 0,
        -n <= d <= n,
    ensures
        d >= 0 ==> 0 <= div_round((i + 1) * d, n) - div_round(i * d, n) <= 1,
        d <= 0 ==> -1 <= div_round((i + 1) * d, n) - div_round(i * d, n) <= 0,
{
    let a = i * d;
    let q = div_round(a, n);
    let r = (2 * a + n) % (2 * n);
    lemma_fundamental_div_mod(2 * a + n, 2 * n);
    assert(2 * a + n == (2 * n) * q + r);
    assert((2 * n) * q == q * (2 * n)) by (nonlinear_arith);
    assert((i + 1) * d == i * d + d) by (nonlinear_arith);
    assert((q + 1) * (2 * n) == q * (2 * n) + 2 * n) by (nonlinear_arith);
    assert((q - 1) * (2 * n) == q * (2 * n) - 2 * n) by (nonlinear_arith);
    let next = r + 2 * d;
    if next >= 2 * n {
        lemma_div_round_is((i + 1) * d, n, q + 1, next - 2 * n);
    } else if next < 0 {
        lemma_div_round_is((i + 1) * d, n, q - 1, next + 2 * n);
    } else {
        lemma_div_round_is((i + 1) * d, n, q, next);
    }
}

/// A line has no gaps: each pixel touches the next, by a side or by a
/// corner, and the two are never the same pixel.
pub proof fn lemma_line_connected(x0: int, y0: int, x1: int, y1: int, i: int)
    requires
        0 <= i < line_steps(x0, y0, x1, y1),
    ensures
        magnitude(line_pixel(x0, y0, x1, y1, i + 1).0 - line_pixel(x0, y0, x1, y1, i).0) <= 1,
        magnitude(line_pixel(x0, y0, x1, y1, i + 1).1 - line_pixel(x0, y0, x1, y1, i).1) <= 1,
        line_pixel(x0, y0, x1, y1, i + 1) != line_pixel(x0, y0, x1, y1, i),
{
    let n = line_steps(x0, y0, x1, y1);
    lemma_div_round_step(n, x1 - x0, i);
    lemma_div_round_step(n, y1 - y0, i);
    lemma_div_round_between(n, x1 - x0, i);
    lemma_div_round_between(n, x1 - x0, i + 1);
    lemma_div_round_between(n, y1 - y0, i);
    lemma_div_round_between(n, y1 - y0, i + 1);
}

impl Grid {
    /// Whether this grid is `start` with the first `count` pixels of the
    /// line from `(x0, y0)` to `(x1, y1)` written through the depth test,
    /// all with one colour and one depth: a pixel among them holds that
    /// colour and depth if the depth is strictly nearer than what `start`
    /// held there, and every other pixel is as in `start`.
    pub open spec fn has_line_prefix(
        self,
        start: Grid,
        x0: int,
        y0: int,
        x1: int,
        y1: int,
        count: int,
        color: Color,
        depth: u32,
    ) -> bool {
        &&& self.wf()
        &&& self.width == start.width
        &&& self.height == start.height
        &&& self.background == start.background
        &&& self.current == start.current
        &&& forall|px: int, py: int|
            start.contains(px, py) ==> #[trigger] self.pixel(px, py) == if on_line_before(
                x0,
                y0,
                x1,
                y1,
                count,
                px,
                py,
            ) && depth < start.depth_at(px, py) {
                (color, depth)
            } else {
                start.pixel(px, py)
            }
    }

    /// Whether this grid is `start` with the whole line from `(x0, y0)` to
    /// `(x1, y1)` written through the depth test.
    pub open spec fn has_line(
        self,
        start: Grid,
        x0: int,
        y0: int,
        x1: int,
        y1: int,
        color: Color,
        depth: u32,
    ) -> bool {
        self.has_line_prefix(start, x0, y0, x1, y1, line_steps(x0, y0, x1, y1) + 1, color, depth)
    }
}

/// A grid is itself with no pixel of a line written.
pub proof fn lemma_line_prefix_none(
    s: Grid,
    x0: int,
    y0: int,
    x1: int,
    y1: int,
    color: Color,
    depth: u32,
)
    requires
        s.wf(),
    ensures
        s.has_line_prefix(s, x0, y0, x1, y1, 0, color, depth),
{
}

/// Writing pixel number `count` of a line to a grid that holds the first
/// `count` pixels gives the grid that holds the first `count + 1`.
pub proof fn lemma_line_prefix_next(
    start: Grid,
    s: Grid,
    x0: int,
    y0: int,
    x1: int,
    y1: int,
    count: int,
    color: Color,
    depth: u32,
)
    requires
        count >= 0,
        s.has_line_prefix(start, x0, y0, x1, y1, count, color, depth),
    ensures
        s.plot(
            line_pixel(x0, y0, x1, y1, count).0,
            line_pixel(x0, y0, x1, y1, count).1,
            color,
            depth,
        ).has_line_prefix(start, x0, y0, x1, y1, count + 1, color, depth),
{
    let (x, y) = line_pixel(x0, y0, x1, y1, count);
    let t = s.plot(x, y, color, depth);
    assert forall|px: int, py: int| start.contains(px, py) implies #[trigger] t.pixel(px, py)
        == if on_line_before(x0, y0, x1, y1, count + 1, px, py) && depth < start.depth_at(px, py) {
        (color, depth)
    } else {
        start.pixel(px, py)
    } by {
        lemma_plot_pixel(s, x, y, color, depth, px, py);
        let was = on_line_before(x0, y0, x1, y1, count, px, py);
        let is = on_line_before(x0, y0, x1, y1, count + 1, px, py);
        assert(s.pixel(px, py) == if was && depth < start.depth_at(px, py) {
            (color, depth)
        } else {
            start.pixel(px, py)
        });
        if px == x && py == y {
            assert(line_pixel(x0, y0, x1, y1, count) == (px, py));
            assert(is);
        } else {
            if is {
                let k = choose|k: int|
                    0 <= k < count + 1 && #[trigger] line_pixel(x0, y0, x1, y1, k) == (px, py);
                assert(k < count);
                assert(was);
            }
            if was {
                let k = choose|k: int|
                    0 <= k < count && #[trigger] line_pixel(x0, y0, x1, y1, k) == (px, py);
                assert(k < count + 1);
                assert(is);
            }
        }
    }
    if s.contains(x, y) {
        lemma_plot_pixel(s, x, y, color, depth, x, y);
    }
}

/// Where an axis that starts at `start` stands after `k` steps of one
/// pixel, forwards or backwards.
pub open spec fn axis_at(start: int, forward: bool, k: int) -> int {
    if forward {
        start + k
    } else {
        start - k
    }
}

/// Along its longer axis a line moves by exactly one pixel per step.
pub proof fn lemma_line_major(x0: int, y0: int, x1: int, y1: int, i: int)
    requires
        0 <= i <= line_steps(x0, y0, x1, y1),
        line_steps(x0, y0, x1, y1) > 0,
    ensures
        magnitude(x1 - x0) >= magnitude(y1 - y0) ==> line_pixel(x0, y0, x1, y1, i).0 == axis_at(
            x0,
            x1 >= x0,
            i,
        ),
        magnitude(x1 - x0) < magnitude(y1 - y0) ==> line_pixel(x0, y0, x1, y1, i).1 == axis_at(
            y0,
            y1 >= y0,
            i,
        ),
{
    let n = line_steps(x0, y0, x1, y1);
    lemma_div_round_between(n, x1 - x0, i);
    lemma_div_round_between(n, y1 - y0, i);
}

/// Pixels of the line that lie outside the grid leave no trace: a grid
/// that holds the first `count` pixels of a line also holds the first
/// `next`, when the pixels in between all lie outside.
pub proof fn lemma_line_prefix_skip(
    start: Grid,
    s: Grid,
    x0: int,
    y0: int,
    x1: int,
    y1: int,
    count: int,
    next: int,
    color: Color,
    depth: u32,
)
    requires
        count <= next,
        s.has_line_prefix(start, x0, y0, x1, y1, count, color, depth),
        forall|k: int|
            count <= k < next ==> !start.contains(
                (#[trigger] line_pixel(x0, y0, x1, y1, k)).0,
                line_pixel(x0, y0, x1, y1, k).1,
            ),
    ensures
        s.has_line_prefix(start, x0, y0, x1, y1, next, color, depth),
{
    assert forall|px: int, py: int| start.contains(px, py) implies #[trigger] s.pixel(px, py)
        == if on_line_before(x0, y0, x1, y1, next, px, py) && depth < start.depth_at(px, py) {
        (color, depth)
    } else {
        start.pixel(px, py)
    } by {
        let was = on_line_before(x0, y0, x1, y1, count, px, py);
        let is = on_line_before(x0, y0, x1, y1, next, px, py);
        if was {
            let k = choose|k: int|
                0 <= k < count && #[trigger] line_pixel(x0, y0, x1, y1, k) == (px, py);
            assert(0 <= k < next);
        }
        if is {
            let k = choose|k: int|
                0 <= k < next && #[trigger] line_pixel(x0, y0, x1, y1, k) == (px, py);
            assert(k < count);
        }
    }
}

/// There is one grid only that holds a given line drawn onto a given grid.
pub proof fn lemma_line_result_unique(
    start: Grid,
    s: Grid,
    t: Grid,
    x0: int,
    y0: int,
    x1: int,
    y1: int,
    color: Color,
    depth: u32,
)
    requires
        s.has_line(start, x0, y0, x1, y1, color, depth),
        t.has_line(start, x0, y0, x1, y1, color, depth),
    ensures
        s == t,
{
    assert forall|x: int, y: int| s.contains(x, y) implies #[trigger] s.pixel(x, y) == t.pixel(
        x,
        y,
    ) by {
        assert(start.contains(x, y));
    }
    lemma_pixels_determine_grid(s, t);
}

} // verus!
