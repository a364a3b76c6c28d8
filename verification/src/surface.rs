//! From a shape to the mesh of its surface: sample directions, take the
//! support point along each, wrap the points in their convex hull, and shade
//! the hull flat.

use vstd::prelude::*;
use crate::cloud::generate as sample_surface;
use crate::determinant::V3;
use crate::hull::{ConvexHull, HullError, flat};
use crate::mesh::{Mesh, to_mesh};
use crate::sampler::direction;
use crate::shape::SupportShape;
use crate::vec3::Vec3;

verus! {

/// Why a shape has no surface mesh.
#[derive(Clone, Copy, Debug, PartialEq, Eq, Structural)]
pub enum SurfaceError {
    /// Fewer than two samples were asked for.
    InvalidSampleCount,
    /// Fewer than four samples were asked for.
    InsufficientPoints,
    /// All sampled points lie in one plane.
    DegenerateInput,
}

/// The lattice point with the coordinates of `v`.
pub open spec fn lattice(v: V3) -> Vec3 {
    Vec3 { x: v.x as i64, y: v.y as i64, z: v.z as i64 }
}

/// The `n` sample points of the surface of `shape`.
pub open spec fn surface_points(shape: SupportShape, n: int) -> Seq<Vec3> {
    Seq::new(n as nat, |i: int| lattice(shape.support_toward(direction(i, n))))
}

/// The mesh `m` shows some hull of `points`.
pub open spec fn shows_hull_of(m: Mesh, points: Seq<Vec3>) -> bool {
    exists|h: ConvexHull| #[trigger] h.hull_of(points) && m.flat_shades(h.vertices@, h.faces@)
}

/// The flat-shaded mesh of the convex hull of `samples` points of the
/// surface of `shape`.
pub fn surface_mesh(shape: &SupportShape, samples: usize) -> (r: Result<Mesh, SurfaceError>)
    requires
        shape.wf(),
    ensures
        (r matches Err(e) && e == SurfaceError::InvalidSampleCount) <==> samples < 2,
        (r matches Err(e) && e == SurfaceError::InsufficientPoints) <==> 2 <= samples < 4,
        (r matches Err(e) && e == SurfaceError::DegenerateInput) <==> (samples >= 4 && flat(
            surface_points(*shape, samples as int),
        )),
        r matches Ok(m) ==> shows_hull_of(m, surface_points(*shape, samples as int)),
{
    let points = match sample_surface(shape, samples) {
        Ok(points) => points,
        Err(_) => {
            return Err(SurfaceError::InvalidSampleCount);
        },
    };
    assert(points@ =~= surface_points(*shape, samples as int));
    match ConvexHull::build(&points) {
        Ok(hull) => {
            let ghost h = hull;
            let mesh = to_mesh(hull);
            assert(h.hull_of(points@) && mesh.flat_shades(h.vertices@, h.faces@));
            Ok(mesh)
        },
        Err(HullError::InsufficientPoints) => Err(SurfaceError::InsufficientPoints),
        Err(HullError::DegenerateInput) => Err(SurfaceError::DegenerateInput),
    }
}

} // verus!
