use vstd::prelude::*;

verus! {

/// A point of the screen in fixed point: 256 units to the pixel, so that
/// pixel `(px, py)` spans `256 * px .. 256 * (px + 1)` on each axis.
#[derive(Clone, Copy, Debug, PartialEq, Eq, Structural)]
pub struct ScreenPoint {
    pub x: i32,
    pub y: i32,
}

/// Three transformed vertices, as they reach the rasterizer.
#[derive(Clone, Copy, Debug, PartialEq, Eq, Structural)]
pub struct Triangle {
    pub a: ScreenPoint,
    pub b: ScreenPoint,
    pub c: ScreenPoint,
}

/// The triangles that a flat list of vertices holds: one for every complete
/// run of three, in order. One or two vertices left over at the end form no
/// triangle.
pub open spec fn assembled(vertices: Seq<ScreenPoint>) -> Seq<Triangle> {
    Seq::new(
        (vertices.len() / 3) as nat,
        |k: int|
            Triangle { a: vertices[3 * k], b: vertices[3 * k + 1], c: vertices[3 * k + 2] },
    )
}

/// Groups every three consecutive vertices into a triangle and drops what is
/// left over at the end.
pub fn assemble(vertices: &Vec<ScreenPoint>) -> (triangles: Vec<Triangle>)
    ensures
        triangles@ == assembled(vertices@),
        triangles@.len() == vertices@.len() / 3,
{
    let n: usize = vertices.len();
    let mut triangles: Vec<Triangle> = Vec::new();
    let mut i: usize = 0;
    while n - i >= 3
        invariant
            n == vertices@.len(),
            i <= n,
            i == 3 * triangles@.len(),
            forall|k: int|
                0 <= k < triangles@.len() ==> triangles@[k] == (Triangle {
                    a: vertices@[3 * k],
                    b: vertices@[3 * k + 1],
                    c: vertices@[3 * k + 2],
                }),
        decreases n - i,
    {
        triangles.push(Triangle { a: vertices[i], b: vertices[i + 1], c: vertices[i + 2] });
        i += 3;
    }
    assert(triangles@ =~= assembled(vertices@));
    triangles
}

} // verus!
