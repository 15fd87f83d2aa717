use vstd::prelude::*;
use vstd::arithmetic::div_mod::{
    lemma_div_pos_is_pos, lemma_fundamental_div_mod, lemma_mod_bound, lemma_multiply_divide_lt,
};
use crate::color::Color;
use crate::depth::DEPTH_INFINITE;

verus! {

/// The mathematical model of a framebuffer: two row-major grids of the same
/// dimensions, one of colours and one of depths, plus the two configured
/// colours.
pub struct Grid {
    pub width: nat,
    pub height: nat,
    pub color: Seq<Color>,
    pub depth: Seq<u32>,
    pub background: Color,
    pub current: Color,
}

impl Grid {
    /// Both grids hold exactly `width * height` entries.
    pub open spec fn wf(self) -> bool {
        &&& self.color.len() == self.width * self.height
        &&& self.depth.len() == self.width * self.height
    }

    /// Whether `(x, y)` names a pixel of the grid.
    pub open spec fn contains(self, x: int, y: int) -> bool {
        0 <= x < self.width && 0 <= y < self.height
    }

    /// The row-major position of pixel `(x, y)`.
    pub open spec fn index(self, x: int, y: int) -> int {
        y * self.width + x
    }

    /// The colour of pixel `(x, y)`.
    pub open spec fn color_at(self, x: int, y: int) -> Color
        recommends
            self.contains(x, y),
    {
        self.color[self.index(x, y)]
    }

    /// The depth of pixel `(x, y)`.
    pub open spec fn depth_at(self, x: int, y: int) -> u32
        recommends
            self.contains(x, y),
    {
        self.depth[self.index(x, y)]
    }

    /// The colour and the depth of pixel `(x, y)`.
    pub open spec fn pixel(self, x: int, y: int) -> (Color, u32)
        recommends
            self.contains(x, y),
    {
        (self.color_at(x, y), self.depth_at(x, y))
    }

    /// The grid after a clear: every colour is the background colour and
    /// every depth is infinite.
    pub open spec fn cleared(self) -> Grid {
        Grid {
            color: Seq::new(self.width * self.height, |i: int| self.background),
            depth: Seq::new(self.width * self.height, |i: int| DEPTH_INFINITE),
            ..self
        }
    }

    /// Whether a write of `depth` to `(x, y)` passes the depth test: the
    /// pixel exists and `depth` is strictly nearer than what it holds.
    pub open spec fn accepts(self, x: int, y: int, depth: u32) -> bool {
        self.contains(x, y) && depth < self.depth_at(x, y)
    }

    /// The grid after a depth-tested write of one pixel.
    pub open spec fn plot(self, x: int, y: int, color: Color, depth: u32) -> Grid {
        if self.accepts(x, y, depth) {
            Grid {
                color: self.color.update(self.index(x, y), color),
                depth: self.depth.update(self.index(x, y), depth),
                ..self
            }
        } else {
            self
        }
    }
}

/// Row-major indexing stays inside the grid.
pub proof fn lemma_index_in_range(width: nat, height: nat, x: int, y: int)
    requires
        0 <= x < width,
        0 <= y < height,
    ensures
        0 <= y * width + x < width * height,
{
    assert(y * width >= 0) by (nonlinear_arith)
        requires
            y >= 0,
            width >= 0,
    ;
    assert((y + 1) * width <= height * width) by (nonlinear_arith)
        requires
            y + 1 <= height,
            width >= 0,
    ;
    assert((y + 1) * width == y * width + width) by (nonlinear_arith);
    assert(height * width == width * height) by (nonlinear_arith);
}

/// Two pixels of the grid share a row-major position only if they are the
/// same pixel.
pub proof fn lemma_index_injective(width: nat, x1: int, y1: int, x2: int, y2: int)
    requires
        0 <= x1 < width,
        0 <= x2 < width,
        y1 * width + x1 == y2 * width + x2,
    ensures
        x1 == x2,
        y1 == y2,
{
    if y1 < y2 {
        assert((y1 + 1) * width <= y2 * width) by (nonlinear_arith)
            requires
                y1 + 1 <= y2,
                width >= 0,
        ;
        assert((y1 + 1) * width == y1 * width + width) by (nonlinear_arith);
    } else if y2 < y1 {
        assert((y2 + 1) * width <= y1 * width) by (nonlinear_arith)
            requires
                y2 + 1 <= y1,
                width >= 0,
        ;
        assert((y2 + 1) * width == y2 * width + width) by (nonlinear_arith);
    }
}

/// Every place of a grid is the row-major position of one of its pixels.
pub proof fn lemma_index_covers_grid(width: nat, height: nat, i: int)
    requires
        0 <= i < width * height,
    ensures
        width > 0,
        0 <= i % (width as int) < width,
        0 <= i / (width as int) < height,
        (i / (width as int)) * width + i % (width as int) == i,
{
    if width == 0 {
        assert(width * height == 0) by (nonlinear_arith)
            requires
                width == 0,
        ;
    }
    let w = width as int;
    lemma_fundamental_div_mod(i, w);
    lemma_mod_bound(i, w);
    lemma_div_pos_is_pos(i, w);
    lemma_multiply_divide_lt(i, w, height as int);
    assert(w * (i / w) == (i / w) * w) by (nonlinear_arith);
}

/// A well-formed grid is known by its dimensions, its two configured
/// colours and the colour and depth of each of its pixels.
pub proof fn lemma_pixels_determine_grid(s: Grid, t: Grid)
    requires
        s.wf(),
        t.wf(),
        s.width == t.width,
        s.height == t.height,
        s.background == t.background,
        s.current == t.current,
        forall|x: int, y: int| s.contains(x, y) ==> #[trigger] s.pixel(x, y) == t.pixel(x, y),
    ensures
        s == t,
{
    assert forall|i: int| 0 <= i < s.color.len() implies s.color[i] == t.color[i] && s.depth[i]
        == t.depth[i] by {
        lemma_index_covers_grid(s.width, s.height, i);
        let x = i % (s.width as int);
        let y = i / (s.width as int);
        assert(s.contains(x, y));
        assert(s.pixel(x, y) == t.pixel(x, y));
        assert(s.index(x, y) == i);
    }
    assert(s.color =~= t.color);
    assert(s.depth =~= t.depth);
}

/// What a depth-tested write at `(x, y)` does to any pixel `(px, py)` of a
/// well-formed grid: the written pixel takes the new colour and depth when
/// the new depth is strictly nearer, and every other pixel stays as it was.
pub proof fn lemma_plot_pixel(
    s: Grid,
    x: int,
    y: int,
    color: Color,
    depth: u32,
    px: int,
    py: int,
)
    requires
        s.wf(),
        s.contains(px, py),
    ensures
        s.plot(x, y, color, depth).wf(),
        s.plot(x, y, color, depth).width == s.width,
        s.plot(x, y, color, depth).height == s.height,
        s.plot(x, y, color, depth).background == s.background,
        s.plot(x, y, color, depth).current == s.current,
        (px == x && py == y && depth < s.depth_at(x, y)) ==> {
            &&& s.plot(x, y, color, depth).color_at(px, py) == color
            &&& s.plot(x, y, color, depth).depth_at(px, py) == depth
        },
        !(px == x && py == y && depth < s.depth_at(x, y)) ==> {
            &&& s.plot(x, y, color, depth).color_at(px, py) == s.color_at(px, py)
            &&& s.plot(x, y, color, depth).depth_at(px, py) == s.depth_at(px, py)
        },
{
    lemma_index_in_range(s.width, s.height, px, py);
    if s.accepts(x, y, depth) {
        lemma_index_in_range(s.width, s.height, x, y);
        if !(px == x && py == y) {
            if s.index(px, py) == s.index(x, y) {
                lemma_index_injective(s.width, px, py, x, y);
            }
        }
    }
}

/// A write that names no pixel of the grid changes nothing.
pub proof fn lemma_plot_outside(s: Grid, x: int, y: int, color: Color, depth: u32)
    requires
        !s.contains(x, y),
    ensures
        s.plot(x, y, color, depth) == s,
{
}

/// Of two writes to one pixel with different depths the nearer one wins,
/// whichever comes first: both orders leave the grid that the nearer write
/// alone would leave.
pub proof fn lemma_nearer_write_wins(
    s: Grid,
    x: int,
    y: int,
    near_color: Color,
    near_depth: u32,
    far_color: Color,
    far_depth: u32,
)
    requires
        s.wf(),
        near_depth < far_depth,
    ensures
        s.plot(x, y, near_color, near_depth).plot(x, y, far_color, far_depth) == s.plot(
            x,
            y,
            near_color,
            near_depth,
        ),
        s.plot(x, y, far_color, far_depth).plot(x, y, near_color, near_depth) == s.plot(
            x,
            y,
            near_color,
            near_depth,
        ),
{
    if s.contains(x, y) {
        lemma_index_in_range(s.width, s.height, x, y);
        let i = s.index(x, y);
        let far_first = s.plot(x, y, far_color, far_depth);
        let both = far_first.plot(x, y, near_color, near_depth);
        let near_only = s.plot(x, y, near_color, near_depth);
        assert(both.color =~= near_only.color);
        assert(both.depth =~= near_only.depth);
    }
}

/// Of two writes to one pixel with the same depth the first one stays: the
/// second changes nothing.
pub proof fn lemma_equal_depth_first_wins(
    s: Grid,
    x: int,
    y: int,
    first_color: Color,
    second_color: Color,
    depth: u32,
)
    requires
        s.wf(),
    ensures
        s.plot(x, y, first_color, depth).plot(x, y, second_color, depth) == s.plot(
            x,
            y,
            first_color,
            depth,
        ),
{
    if s.contains(x, y) {
        lemma_index_in_range(s.width, s.height, x, y);
    }
}

/// After a clear every pixel holds the background colour and the infinite
/// depth, so the first write of a finite depth to any pixel is accepted.
pub proof fn lemma_first_write_after_clear(s: Grid, x: int, y: int, color: Color, depth: u32)
    requires
        s.contains(x, y),
        depth < DEPTH_INFINITE,
    ensures
        s.cleared().wf(),
        s.cleared().color_at(x, y) == s.background,
        s.cleared().depth_at(x, y) == DEPTH_INFINITE,
        s.cleared().accepts(x, y, depth),
        s.cleared().plot(x, y, color, depth).color_at(x, y) == color,
        s.cleared().plot(x, y, color, depth).depth_at(x, y) == depth,
{
    lemma_index_in_range(s.width, s.height, x, y);
}

} // verus!
