use vstd::prelude::*;
use crate::color::Color;
use crate::depth::DEPTH_INFINITE;
use crate::grid::{lemma_index_in_range, Grid};
use vstd::arithmetic::div_mod::{
    lemma_fundamental_div_mod, lemma_fundamental_div_mod_converse, lemma_mod_bound,
};
use crate::line::{
    axis_at, div_round, lemma_div_round_between, lemma_div_round_is, lemma_line_major,
    lemma_line_prefix_next, lemma_line_prefix_none, lemma_line_prefix_skip, line_pixel,
    line_steps,
};

verus! {

/// A colour buffer and a depth buffer of the same fixed dimensions. A pixel
/// is overwritten only by a write that is strictly nearer than what it
/// holds, so among writes of equal depth the first one stays.
pub struct Framebuffer {
    width: usize,
    height: usize,
    color_buffer: Vec<Color>,
    depth_buffer: Vec<u32>,
    background_color: Color,
    current_color: Color,
}

impl View for Framebuffer {
    type V = Grid;

    closed spec fn view(&self) -> Grid {
        Grid {
            width: self.width as nat,
            height: self.height as nat,
            color: self.color_buffer@,
            depth: self.depth_buffer@,
            background: self.background_color,
            current: self.current_color,
        }
    }
}

impl Framebuffer {
    /// Every framebuffer has a well-formed grid: the two buffers have the
    /// dimensions that it was made with.
    #[verifier::type_invariant]
    pub open spec fn inv(self) -> bool {
        self@.wf()
    }

    /// A framebuffer of the given dimensions, cleared to black.
    pub fn new(width: usize, height: usize) -> (fb: Framebuffer)
        requires
            width * height <= usize::MAX,
        ensures
            fb@.wf(),
            fb@.width == width,
            fb@.height == height,
            fb@.background == (Color { r: 0, g: 0, b: 0, a: 255 }),
            fb@.current == (Color { r: 255, g: 255, b: 255, a: 255 }),
            fb@ == fb@.cleared(),
    {
        let background = Color { r: 0, g: 0, b: 0, a: 255 };
        let n: usize = width * height;
        let color_buffer: Vec<Color> = vec![background; n];
        let depth_buffer: Vec<u32> = vec![DEPTH_INFINITE; n];
        let fb = Framebuffer {
            width,
            height,
            color_buffer,
            depth_buffer,
            background_color: background,
            current_color: Color { r: 255, g: 255, b: 255, a: 255 },
        };
        assert(fb@.color =~= fb@.cleared().color);
        assert(fb@.depth =~= fb@.cleared().depth);
        fb
    }

    /// The number of pixels in a row.
    pub fn width(&self) -> (w: usize)
        ensures
            w == self@.width,
    {
        self.width
    }

    /// The number of rows.
    pub fn height(&self) -> (h: usize)
        ensures
            h == self@.height,
    {
        self.height
    }

    /// The colour that a clear fills the grid with.
    pub fn background_color(&self) -> (c: Color)
        ensures
            c == self@.background,
    {
        self.background_color
    }

    /// The colour set aside for drawing that names no colour of its own.
    pub fn current_color(&self) -> (c: Color)
        ensures
            c == self@.current,
    {
        self.current_color
    }

    /// Sets the colour that the next clear fills the grid with. No pixel
    /// changes.
    pub fn set_background_color(&mut self, color: Color)
        ensures
            final(self)@ == (Grid { background: color, ..old(self)@ }),
            final(self)@.wf(),
    {
        proof {
            use_type_invariant(&*self);
        }
        self.background_color = color;
    }

    /// Sets the current drawing colour. No pixel changes.
    pub fn set_current_color(&mut self, color: Color)
        ensures
            final(self)@ == (Grid { current: color, ..old(self)@ }),
            final(self)@.wf(),
    {
        proof {
            use_type_invariant(&*self);
        }
        self.current_color = color;
    }

    /// The place of pixel `(x, y)` in the two buffers, or `None` where the
    /// grid has no such pixel.
    fn position(&self, x: i32, y: i32) -> (place: Option<usize>)
        ensures
            self@.contains(x as int, y as int) <==> place.is_some(),
            place.is_some() ==> place.unwrap() == self@.index(x as int, y as int),
            place.is_some() ==> place.unwrap() < self@.color.len(),
            place.is_some() ==> place.unwrap() < self@.depth.len(),
    {
        proof {
            use_type_invariant(self);
        }
        if x < 0 || y < 0 {
            return None;
        }
        let ux: usize = x as usize;
        let uy: usize = y as usize;
        if ux >= self.width || uy >= self.height {
            return None;
        }
        proof {
            lemma_index_in_range(self.width as nat, self.height as nat, ux as int, uy as int);
            assert(self.width * self.height == self.color_buffer.len());
        }
        Some(uy * self.width + ux)
    }

    /// The colour of pixel `(x, y)`, or `None` where the grid has no such
    /// pixel.
    pub fn get_color(&self, x: i32, y: i32) -> (c: Option<Color>)
        ensures
            c == (if self@.contains(x as int, y as int) {
                Some(self@.color_at(x as int, y as int))
            } else {
                None
            }),
    {
        match self.position(x, y) {
            Some(place) => Some(self.color_buffer[place]),
            None => None,
        }
    }

    /// The depth of pixel `(x, y)`, or `None` where the grid has no such
    /// pixel.
    pub fn get_depth(&self, x: i32, y: i32) -> (d: Option<u32>)
        ensures
            d == (if self@.contains(x as int, y as int) {
                Some(self@.depth_at(x as int, y as int))
            } else {
                None
            }),
    {
        match self.position(x, y) {
            Some(place) => Some(self.depth_buffer[place]),
            None => None,
        }
    }

    /// The colour grid in row-major order, as a display surface takes it.
    pub fn color_buffer(&self) -> (pixels: &Vec<Color>)
        ensures
            pixels@ == self@.color,
            pixels@.len() == self@.width * self@.height,
    {
        proof {
            use_type_invariant(self);
        }
        &self.color_buffer
    }

    /// Resets every pixel to the background colour and to infinite depth.
    pub fn clear(&mut self)
        ensures
            final(self)@ == old(self)@.cleared(),
            final(self)@.wf(),
    {
        proof {
            use_type_invariant(&*self);
        }
        let n: usize = self.color_buffer.len();
        let mut i: usize = 0;
        while i < n
            invariant
                i <= n,
                n == self.width * self.height,
                self.color_buffer@.len() == n,
                self.depth_buffer@.len() == n,
                self.width == old(self).width,
                self.height == old(self).height,
                self.background_color == old(self).background_color,
                self.current_color == old(self).current_color,
                forall|j: int| 0 <= j < i ==> self.color_buffer@[j] == self.background_color,
                forall|j: int| 0 <= j < i ==> self.depth_buffer@[j] == DEPTH_INFINITE,
            decreases n - i,
        {
            self.color_buffer[i] = self.background_color;
            self.depth_buffer[i] = DEPTH_INFINITE;
            i += 1;
        }
        assert(self@.color =~= old(self)@.cleared().color);
        assert(self@.depth =~= old(self)@.cleared().depth);
    }

    /// Writes `color` at `(x, y)` if the pixel exists and `depth` is strictly
    /// nearer than the depth it holds; otherwise changes nothing. A depth
    /// equal to the one held does not overwrite: of equal depths the first
    /// stays.
    pub fn point(&mut self, x: i32, y: i32, color: Color, depth: u32)
        ensures
            final(self)@ == old(self)@.plot(x as int, y as int, color, depth),
            !old(self)@.contains(x as int, y as int) ==> final(self)@ == old(self)@,
            final(self)@.wf(),
    {
        proof {
            use_type_invariant(&*self);
        }
        match self.position(x, y) {
            Some(place) => {
                if depth < self.depth_buffer[place] {
                    self.depth_buffer[place] = depth;
                    self.color_buffer[place] = color;
                }
            },
            None => {},
        }
    }

    /// Draws the line from `(x0, y0)` to `(x1, y1)`: every pixel of the line
    /// is written with the one `color` and the one `depth`, each through the
    /// depth test of `point`. Pixels of the line outside the grid are
    /// skipped; no other pixel changes. The work grows with the part of the
    /// line that can lie inside the grid, not with its whole length.
    pub fn draw_line_with_depth(
        &mut self,
        x0: i32,
        y0: i32,
        x1: i32,
        y1: i32,
        color: Color,
        depth: u32,
    )
        ensures
            final(self)@.has_line(
                old(self)@,
                x0 as int,
                y0 as int,
                x1 as int,
                y1 as int,
                color,
                depth,
            ),
    {
        proof {
            use_type_invariant(&*self);
            lemma_line_prefix_none(self@, x0 as int, y0 as int, x1 as int, y1 as int, color, depth);
        }
        let ghost (gx0, gy0, gx1, gy1) = (x0 as int, y0 as int, x1 as int, y1 as int);
        let dx: i64 = x1 as i64 - x0 as i64;
        let dy: i64 = y1 as i64 - y0 as i64;
        let adx: i64 = if dx < 0 { -dx } else { dx };
        let ady: i64 = if dy < 0 { -dy } else { dy };
        let n: i64 = if adx >= ady { adx } else { ady };
        assert(n == line_steps(gx0, gy0, gx1, gy1));
        if n == 0 {
            proof {
                lemma_line_prefix_next(old(self)@, self@, gx0, gy0, gx1, gy1, 0, color, depth);
            }
            self.point(x0, y0, color, depth);
            return ;
        }
        let (first, last) = if adx >= ady {
            steps_inside(x0, dx >= 0, n, self.width)
        } else {
            steps_inside(y0, dy >= 0, n, self.height)
        };
        proof {
            assert forall|k: int| 0 <= k <= n && !(first <= k <= last) implies !old(
                self,
            )@.contains(
                (#[trigger] line_pixel(gx0, gy0, gx1, gy1, k)).0,
                line_pixel(gx0, gy0, gx1, gy1, k).1,
            ) by {
                lemma_line_major(gx0, gy0, gx1, gy1, k);
                assert(axis_at(gx0, dx >= 0, k) == axis_at(gx0, dx >= 0, k));
                assert(axis_at(gy0, dy >= 0, k) == axis_at(gy0, dy >= 0, k));
            }
            lemma_line_prefix_skip(
                old(self)@,
                self@,
                gx0,
                gy0,
                gx1,
                gy1,
                0,
                first as int,
                color,
                depth,
            );
        }
        let (mut qx, mut rx) = share(first, dx, n);
        let (mut qy, mut ry) = share(first, dy, n);
        let mut i: i64 = first;
        while i <= last
            invariant
                0 < n < 0x1_0000_0000,
                n == line_steps(gx0, gy0, gx1, gy1),
                gx0 == x0 && gy0 == y0 && gx1 == x1 && gy1 == y1,
                dx == x1 - x0,
                dy == y1 - y0,
                -n <= dx <= n,
                -n <= dy <= n,
                0 <= first <= i <= last + 1 <= n + 1,
                -n - 1 <= qx <= n + 1,
                -n - 1 <= qy <= n + 1,
                0 <= rx < 2 * n,
                0 <= ry < 2 * n,
                2 * (i * dx) + n == qx * (2 * n) + rx,
                2 * (i * dy) + n == qy * (2 * n) + ry,
                self@.has_line_prefix(old(self)@, gx0, gy0, gx1, gy1, i as int, color, depth),
            decreases last + 1 - i,
        {
            proof {
                lemma_div_round_is(i * dx, n as int, qx as int, rx as int);
                lemma_div_round_is(i * dy, n as int, qy as int, ry as int);
                lemma_div_round_between(n as int, dx as int, i as int);
                lemma_div_round_between(n as int, dy as int, i as int);
                lemma_line_prefix_next(
                    old(self)@,
                    self@,
                    gx0,
                    gy0,
                    gx1,
                    gy1,
                    i as int,
                    color,
                    depth,
                );
            }
            let x: i32 = (x0 as i64 + qx) as i32;
            let y: i32 = (y0 as i64 + qy) as i32;
            self.point(x, y, color, depth);
            let (next_qx, next_rx) = advance(i, qx, rx, dx, n);
            let (next_qy, next_ry) = advance(i, qy, ry, dy, n);
            qx = next_qx;
            rx = next_rx;
            qy = next_qy;
            ry = next_ry;
            i += 1;
        }
        proof {
            lemma_line_prefix_skip(
                old(self)@,
                self@,
                gx0,
                gy0,
                gx1,
                gy1,
                i as int,
                n + 1,
                color,
                depth,
            );
        }
    }
}

/// The steps of a line whose pixel can lie inside the grid, as the first
/// and the last of them: those at which the line's longer axis, which
/// starts at `start` and moves by one pixel per step for `n` steps,
/// forwards or backwards, is inside `0 .. size`. Where there is none, the
/// first comes after the last.
fn steps_inside(start: i32, forward: bool, n: i64, size: usize) -> (steps: (i64, i64))
    requires
        0 < n < 0x1_0000_0000,
        forward ==> start + n <= i32::MAX,
        !forward ==> start - n >= i32::MIN,
    ensures
        0 <= steps.0 <= steps.1 + 1 <= n + 1,
        steps.0 <= n,
        forall|k: int|
            0 <= k <= n && !(steps.0 <= k <= steps.1) ==> !(0 <= #[trigger] axis_at(
                start as int,
                forward,
                k,
            ) < size),
{
    let limit: i64 = if size > 0x8000_0000 {
        0x8000_0000
    } else {
        size as i64
    };
    let from: i64 = start as i64;
    // The axis is inside from step `low` to step `high`.
    let (low, high) = if forward {
        (-from, limit - 1 - from)
    } else {
        (from - limit + 1, from)
    };
    let first: i64 = if low < 0 { 0 } else { low };
    let last: i64 = if high > n { n } else { high };
    if first > last {
        (0, -1)
    } else {
        (first, last)
    }
}

/// The rounded share `i * d / n` of the extent `d` at step `i`, as the
/// quotient and the remainder that `advance` carries on.
fn share(i: i64, d: i64, n: i64) -> (parts: (i64, i64))
    requires
        0 < n < 0x1_0000_0000,
        -n <= d <= n,
        0 <= i <= n,
    ensures
        -n - 1 <= parts.0 <= n + 1,
        0 <= parts.1 < 2 * n,
        2 * (i * d) + n == parts.0 * (2 * n) + parts.1,
{
    let modulus: i128 = 2 * (n as i128);
    assert(-0x1_0000_0000_0000_0000 <= i * d <= 0x1_0000_0000_0000_0000) by (nonlinear_arith)
        requires
            0 <= i <= 0x1_0000_0000,
            -0x1_0000_0000 <= d <= 0x1_0000_0000,
    ;
    let total: i128 = 2 * ((i as i128) * (d as i128)) + n as i128;
    proof {
        lemma_div_round_between(n as int, d as int, i as int);
        lemma_fundamental_div_mod(total as int, modulus as int);
        lemma_mod_bound(total as int, modulus as int);
        assert(total as int / modulus as int == div_round(i * d, n as int));
        assert(modulus * (total as int / modulus as int) == (total as int / modulus as int)
            * modulus) by (nonlinear_arith);
    }
    if total >= 0 {
        let q: i128 = total / modulus;
        let r: i128 = total % modulus;
        (q as i64, r as i64)
    } else {
        let turned: i128 = -total;
        let q: i128 = turned / modulus;
        let r: i128 = turned % modulus;
        proof {
            lemma_fundamental_div_mod(turned as int, modulus as int);
            lemma_mod_bound(turned as int, modulus as int);
            assert(modulus * q == q * modulus) by (nonlinear_arith);
            assert((-q) * modulus == -(q * modulus)) by (nonlinear_arith);
            assert((-q - 1) * modulus == -(q * modulus) - modulus) by (nonlinear_arith);
            if r == 0 {
                lemma_fundamental_div_mod_converse(total as int, modulus as int, -q, 0);
            } else {
                lemma_fundamental_div_mod_converse(
                    total as int,
                    modulus as int,
                    -q - 1,
                    modulus - r,
                );
            }
        }
        if r == 0 {
            ((-q) as i64, 0)
        } else {
            ((-q - 1) as i64, (modulus - r) as i64)
        }
    }
}

/// One step of a line along one axis. The line keeps, for its step `i` and
/// the axis' extent `d`, the rounded share `i * d / n` as a quotient `q`
/// and a remainder `r` with `2 * i * d + n == q * 2 * n + r`; this gives
/// the two for step `i + 1`, with no division.
fn advance(i: i64, q: i64, r: i64, d: i64, n: i64) -> (next: (i64, i64))
    requires
        0 < n < 0x1_0000_0000,
        -n <= d <= n,
        0 <= i <= n,
        0 <= r < 2 * n,
        2 * (i * d) + n == q * (2 * n) + r,
    ensures
        -n - 1 <= next.0 <= n + 1,
        0 <= next.1 < 2 * n,
        2 * ((i + 1) * d) + n == next.0 * (2 * n) + next.1,
{
    proof {
        lemma_div_round_is(i * d, n as int, q as int, r as int);
        lemma_div_round_between(n as int, d as int, i as int);
    }
    proof {
        assert((i + 1) * d == i * d + d) by (nonlinear_arith);
        assert((q + 1) * (2 * n) == q * (2 * n) + 2 * n) by (nonlinear_arith);
        assert((q - 1) * (2 * n) == q * (2 * n) - 2 * n) by (nonlinear_arith);
    }
    let moved: i64 = r + 2 * d;
    if moved >= 2 * n {
        (q + 1, moved - 2 * n)
    } else if moved < 0 {
        (q - 1, moved + 2 * n)
    } else {
        (q, moved)
    }
}

} // verus!
