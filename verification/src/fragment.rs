use vstd::prelude::*;
use crate::color::Color;
use crate::framebuffer::Framebuffer;
use crate::grid::{lemma_plot_pixel, Grid};

verus! {

/// One shaded sample on its way to the framebuffer: the pixel it falls on,
/// its final colour and its depth.
#[derive(Clone, Copy, Debug, PartialEq, Eq, Structural)]
pub struct Fragment {
    pub x: i32,
    pub y: i32,
    pub color: Color,
    pub depth: u32,
}

impl Fragment {
    /// Whether the fragment falls on pixel `(x, y)`.
    pub open spec fn at(self, x: int, y: int) -> bool {
        self.x == x && self.y == y
    }
}

impl Grid {
    /// The grid after a depth-tested write of one fragment.
    pub open spec fn plot_fragment(self, fragment: Fragment) -> Grid {
        self.plot(fragment.x as int, fragment.y as int, fragment.color, fragment.depth)
    }

    /// The grid after depth-tested writes of all the fragments, first to
    /// last.
    pub open spec fn plot_all(self, fragments: Seq<Fragment>) -> Grid
        decreases fragments.len(),
    {
        if fragments.len() == 0 {
            self
        } else {
            self.plot_all(fragments.drop_last()).plot_fragment(fragments.last())
        }
    }
}

/// Writing no fragments leaves the grid as it was.
pub proof fn lemma_plot_all_empty(s: Grid)
    ensures
        s.plot_all(Seq::<Fragment>::empty()) == s,
{
}

/// A run of depth-tested writes keeps the grid well formed and keeps its
/// dimensions and its two configured colours.
pub proof fn lemma_plot_all_frame(s: Grid, fragments: Seq<Fragment>)
    requires
        s.wf(),
    ensures
        s.plot_all(fragments).wf(),
        s.plot_all(fragments).width == s.width,
        s.plot_all(fragments).height == s.height,
        s.plot_all(fragments).background == s.background,
        s.plot_all(fragments).current == s.current,
    decreases fragments.len(),
{
    if fragments.len() > 0 {
        lemma_plot_all_frame(s, fragments.drop_last());
        let mid = s.plot_all(fragments.drop_last());
        let last = fragments.last();
        if mid.contains(last.x as int, last.y as int) {
            lemma_plot_pixel(
                mid,
                last.x as int,
                last.y as int,
                last.color,
                last.depth,
                last.x as int,
                last.y as int,
            );
        }
    }
}

/// What a run of depth-tested writes leaves in pixel `(x, y)`: the smallest
/// depth among what the pixel held and the fragments that fell on it, with
/// the colour that came with that depth. Where several fragments share the
/// smallest depth, the colour is that of the first of them; where none is
/// strictly nearer than what the pixel held, the pixel is unchanged.
pub proof fn lemma_plot_all_pixel(s: Grid, fragments: Seq<Fragment>, x: int, y: int)
    requires
        s.wf(),
        s.contains(x, y),
    ensures
        s.plot_all(fragments).wf(),
        s.plot_all(fragments).width == s.width,
        s.plot_all(fragments).height == s.height,
        s.plot_all(fragments).background == s.background,
        s.plot_all(fragments).current == s.current,
        s.plot_all(fragments).depth_at(x, y) <= s.depth_at(x, y),
        forall|i: int|
            0 <= i < fragments.len() && (#[trigger] fragments[i]).at(x, y) ==> s.plot_all(
                fragments,
            ).depth_at(x, y) <= fragments[i].depth,
        s.plot_all(fragments).depth_at(x, y) == s.depth_at(x, y) ==> s.plot_all(
            fragments,
        ).color_at(x, y) == s.color_at(x, y),
        s.plot_all(fragments).depth_at(x, y) < s.depth_at(x, y) ==> exists|i: int|
            {
                &&& 0 <= i < fragments.len()
                &&& (#[trigger] fragments[i]).at(x, y)
                &&& fragments[i].depth == s.plot_all(fragments).depth_at(x, y)
                &&& fragments[i].color == s.plot_all(fragments).color_at(x, y)
                &&& forall|j: int|
                    0 <= j < i && (#[trigger] fragments[j]).at(x, y) ==> fragments[j].depth
                        > fragments[i].depth
            },
    decreases fragments.len(),
{
    if fragments.len() > 0 {
        let before = fragments.drop_last();
        let last = fragments.last();
        let mid = s.plot_all(before);
        let after = s.plot_all(fragments);
        lemma_plot_all_pixel(s, before, x, y);
        lemma_plot_pixel(mid, last.x as int, last.y as int, last.color, last.depth, x, y);
        assert(after == mid.plot(last.x as int, last.y as int, last.color, last.depth));
        assert forall|i: int| 0 <= i < fragments.len() && (#[trigger] fragments[i]).at(x, y)
            implies after.depth_at(x, y) <= fragments[i].depth by {
            if i < before.len() {
                assert(before[i] == fragments[i]);
            }
        }
        if after.depth_at(x, y) < s.depth_at(x, y) {
            if last.at(x, y) && last.depth < mid.depth_at(x, y) {
                let w = fragments.len() - 1;
                assert forall|j: int| 0 <= j < w && (#[trigger] fragments[j]).at(x, y)
                    implies fragments[j].depth > fragments[w].depth by {
                    assert(before[j] == fragments[j]);
                }
                assert(fragments[w].at(x, y));
            } else {
                let w = choose|i: int|
                    {
                        &&& 0 <= i < before.len()
                        &&& (#[trigger] before[i]).at(x, y)
                        &&& before[i].depth == mid.depth_at(x, y)
                        &&& before[i].color == mid.color_at(x, y)
                        &&& forall|j: int|
                            0 <= j < i && (#[trigger] before[j]).at(x, y) ==> before[j].depth
                                > before[i].depth
                    };
                assert(fragments[w] == before[w]);
                assert forall|j: int| 0 <= j < w && (#[trigger] fragments[j]).at(x, y)
                    implies fragments[j].depth > fragments[w].depth by {
                    assert(before[j] == fragments[j]);
                }
                assert(fragments[w].at(x, y));
            }
        }
    }
}

/// Writes the fragments of one draw call to the framebuffer, first to last,
/// each through the depth test. With no fragments nothing changes.
pub fn write_fragments(framebuffer: &mut Framebuffer, fragments: &Vec<Fragment>)
    ensures
        final(framebuffer)@ == old(framebuffer)@.plot_all(fragments@),
        fragments@.len() == 0 ==> final(framebuffer)@ == old(framebuffer)@,
        final(framebuffer)@.wf(),
        final(framebuffer)@.width == old(framebuffer)@.width,
        final(framebuffer)@.height == old(framebuffer)@.height,
        final(framebuffer)@.background == old(framebuffer)@.background,
        final(framebuffer)@.current == old(framebuffer)@.current,
{
    proof {
        use_type_invariant(&*framebuffer);
        lemma_plot_all_frame(framebuffer@, fragments@);
    }
    let n: usize = fragments.len();
    let mut i: usize = 0;
    assert(fragments@.take(0).len() == 0);
    while i < n
        invariant
            i <= n,
            n == fragments@.len(),
            framebuffer@.wf(),
            framebuffer@ == old(framebuffer)@.plot_all(fragments@.take(i as int)),
        decreases n - i,
    {
        let fragment = fragments[i];
        framebuffer.point(fragment.x, fragment.y, fragment.color, fragment.depth);
        proof {
            let next = fragments@.take(i + 1);
            assert(next.drop_last() =~= fragments@.take(i as int));
            assert(next.last() == fragment);
        }
        i += 1;
    }
    assert(fragments@.take(n as int) =~= fragments@);
}

} // verus!
