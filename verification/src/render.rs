use vstd::prelude::*;
use crate::assembly::{assemble, assembled, ScreenPoint, Triangle};
use crate::color::Color;
use crate::fragment::{write_fragments, Fragment};
use crate::framebuffer::Framebuffer;
use crate::grid::Grid;
use crate::raster::rasterize;
use crate::sample::{
    is_mesh_coverage, lemma_mesh_coverage_unique, lemma_no_triangles_no_samples, Sample,
};
use crate::shader::{shader_named, ShaderKind};

verus! {

/// Whether `fragments` are what `shade` makes of `samples` with the shader
/// `kind`: one fragment for each sample, in order and on the same pixel,
/// with a colour and a depth that `shade` returns for the sample.
pub open spec fn shaded_by<F: Fn(ShaderKind, Sample) -> (Color, u32)>(
    shade: F,
    kind: ShaderKind,
    samples: Seq<Sample>,
    fragments: Seq<Fragment>,
) -> bool {
    &&& fragments.len() == samples.len()
    &&& forall|i: int|
        0 <= i < samples.len() ==> {
            &&& (#[trigger] fragments[i]).x == samples[i].x
            &&& fragments[i].y == samples[i].y
            &&& call_ensures(shade, (kind, samples[i]), (fragments[i].color, fragments[i].depth))
        }
}

/// Whether `after` is the grid `before` with one mesh drawn: the vertices
/// are assembled into triangles, the triangles are rasterized on the grid,
/// every sample is shaded, and the fragments are written through the depth
/// test, in that order.
pub open spec fn is_draw_call<F: Fn(ShaderKind, Sample) -> (Color, u32)>(
    before: Grid,
    after: Grid,
    vertices: Seq<ScreenPoint>,
    kind: ShaderKind,
    shade: F,
) -> bool {
    exists|samples: Seq<Sample>, fragments: Seq<Fragment>|
        {
            &&& is_mesh_coverage(
                samples,
                assembled(vertices),
                before.width as int,
                before.height as int,
            )
            &&& #[trigger] shaded_by(shade, kind, samples, fragments)
            &&& after == before.plot_all(fragments)
        }
}

/// A draw call with fewer than three vertices leaves the grid as it was:
/// the vertices assemble to no triangle, no triangle rasterizes to no
/// sample, and without samples there is no fragment to write.
pub proof fn lemma_draw_call_without_triangle<F: Fn(ShaderKind, Sample) -> (Color, u32)>(
    before: Grid,
    after: Grid,
    vertices: Seq<ScreenPoint>,
    kind: ShaderKind,
    shade: F,
)
    requires
        is_draw_call(before, after, vertices, kind, shade),
        vertices.len() < 3,
    ensures
        after == before,
{
    let (samples, fragments) = choose|samples: Seq<Sample>, fragments: Seq<Fragment>|
        {
            &&& is_mesh_coverage(
                samples,
                assembled(vertices),
                before.width as int,
                before.height as int,
            )
            &&& #[trigger] shaded_by(shade, kind, samples, fragments)
            &&& after == before.plot_all(fragments)
        };
    assert(assembled(vertices) =~= Seq::<Triangle>::empty());
    lemma_no_triangles_no_samples(samples, before.width as int, before.height as int);
}

/// With a shader that returns one colour and one depth only for each
/// sample, a draw call has one outcome only: drawing the same mesh onto the
/// same grid again gives the same grid.
pub proof fn lemma_draw_call_deterministic<F: Fn(ShaderKind, Sample) -> (Color, u32)>(
    before: Grid,
    first: Grid,
    second: Grid,
    vertices: Seq<ScreenPoint>,
    kind: ShaderKind,
    shade: F,
)
    requires
        is_draw_call(before, first, vertices, kind, shade),
        is_draw_call(before, second, vertices, kind, shade),
        forall|sample: Sample, one: (Color, u32), other: (Color, u32)|
            call_ensures(shade, (kind, sample), one) && call_ensures(shade, (kind, sample), other)
                ==> one == other,
    ensures
        first == second,
{
    let (samples1, fragments1) = choose|samples: Seq<Sample>, fragments: Seq<Fragment>|
        {
            &&& is_mesh_coverage(
                samples,
                assembled(vertices),
                before.width as int,
                before.height as int,
            )
            &&& #[trigger] shaded_by(shade, kind, samples, fragments)
            &&& first == before.plot_all(fragments)
        };
    let (samples2, fragments2) = choose|samples: Seq<Sample>, fragments: Seq<Fragment>|
        {
            &&& is_mesh_coverage(
                samples,
                assembled(vertices),
                before.width as int,
                before.height as int,
            )
            &&& #[trigger] shaded_by(shade, kind, samples, fragments)
            &&& second == before.plot_all(fragments)
        };
    lemma_mesh_coverage_unique(
        samples1,
        samples2,
        assembled(vertices),
        before.width as int,
        before.height as int,
    );
    assert forall|i: int| 0 <= i < fragments1.len() implies fragments1[i] == fragments2[i] by {
        let f1 = fragments1[i];
        let f2 = fragments2[i];
        assert(call_ensures(shade, (kind, samples1[i]), (f1.color, f1.depth)));
        assert(call_ensures(shade, (kind, samples1[i]), (f2.color, f2.depth)));
        assert((f1.color, f1.depth) == (f2.color, f2.depth));
    }
    assert(fragments1 =~= fragments2);
}

/// Draws one mesh. The vertices, already in screen space, are assembled
/// into triangles and rasterized on the framebuffer's grid; `shader` selects
/// the shader by name, an unknown name the default one; `shade` is called
/// once for each sample, in order, with the selected shader, and returns
/// the sample's colour and depth; the fragments are then written through
/// the depth test. Fewer than three vertices draw nothing.
///
/// Every sample that `shade` is called with names a triangle of the mesh
/// and has weights that can be divided by their sum, so `shade` need accept
/// no others.
pub fn render<F: Fn(ShaderKind, Sample) -> (Color, u32)>(
    framebuffer: &mut Framebuffer,
    vertices: &Vec<ScreenPoint>,
    shader: &str,
    shade: F,
)
    requires
        forall|sample: Sample|
            sample.weighted() && sample.triangle < vertices@.len() / 3 ==> call_requires(
                shade,
                (shader_named(shader@), sample),
            ),
    ensures
        is_draw_call(
            old(framebuffer)@,
            final(framebuffer)@,
            vertices@,
            shader_named(shader@),
            shade,
        ),
        vertices@.len() < 3 ==> final(framebuffer)@ == old(framebuffer)@,
        final(framebuffer)@.wf(),
        final(framebuffer)@.width == old(framebuffer)@.width,
        final(framebuffer)@.height == old(framebuffer)@.height,
        final(framebuffer)@.background == old(framebuffer)@.background,
        final(framebuffer)@.current == old(framebuffer)@.current,
{
    let triangles = assemble(vertices);
    let samples = rasterize(&triangles, framebuffer.width(), framebuffer.height());
    let kind = ShaderKind::from_name(shader);
    let n: usize = samples.len();
    let mut fragments: Vec<Fragment> = Vec::new();
    let mut i: usize = 0;
    while i < n
        invariant
            n == samples@.len(),
            i <= n,
            kind == shader_named(shader@),
            forall|k: int|
                0 <= k < n ==> (#[trigger] samples@[k]).weighted() && samples@[k].triangle
                    < vertices@.len() / 3,
            forall|sample: Sample|
                sample.weighted() && sample.triangle < vertices@.len() / 3 ==> call_requires(
                    shade,
                    (kind, sample),
                ),
            shaded_by(shade, kind, samples@.take(i as int), fragments@),
        decreases n - i,
    {
        let sample = samples[i];
        let (color, depth) = shade(kind, sample);
        fragments.push(Fragment { x: sample.x, y: sample.y, color, depth });
        proof {
            assert(samples@.take(i + 1)[i as int] == sample);
            assert forall|k: int| 0 <= k < i + 1 implies {
                &&& (#[trigger] fragments@[k]).x == samples@.take(i + 1)[k].x
                &&& fragments@[k].y == samples@.take(i + 1)[k].y
                &&& call_ensures(
                    shade,
                    (kind, samples@.take(i + 1)[k]),
                    (fragments@[k].color, fragments@[k].depth),
                )
            } by {
                if k < i {
                    assert(samples@.take(i + 1)[k] == samples@.take(i as int)[k]);
                }
            }
        }
        i += 1;
    }
    assert(samples@.take(n as int) =~= samples@);
    write_fragments(framebuffer, &fragments);
}

} // verus!
