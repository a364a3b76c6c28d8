//! Point clouds on the surface of a shape.

use vstd::prelude::*;
use crate::sampler::{generate as sample, direction, SampleError};
use crate::shape::SupportShape;
use crate::unit::within;
use crate::vec3::{Vec3, ONE, all_in_range};

verus! {

/// The support point of `shape` along each of `directions`, in their order.
/// Directions that lead to the same point give that point again.
pub fn support_points(shape: &SupportShape, directions: &Vec<Vec3>) -> (r: Vec<Vec3>)
    requires
        shape.wf(),
        forall|i: int| 0 <= i < directions.len() ==> within((#[trigger] directions[i])@, ONE as int),
    ensures
        r.len() == directions.len(),
        forall|i: int|
            0 <= i < r.len() ==> (#[trigger] r[i])@ == shape.support_toward(directions[i]@),
        all_in_range(r@),
{
    let mut out: Vec<Vec3> = Vec::new();
    let mut i: usize = 0;
    while i < directions.len()
        invariant
            i <= directions.len(),
            out.len() == i,
            shape.wf(),
            forall|k: int|
                0 <= k < directions.len() ==> within((#[trigger] directions[k])@, ONE as int),
            forall|k: int|
                0 <= k < i ==> (#[trigger] out[k])@ == shape.support_toward(directions[k]@),
            all_in_range(out@),
        decreases directions.len() - i,
    {
        let p = shape.support_point_toward(&directions[i]);
        out.push(p);
        i = i + 1;
    }
    out
}

/// `n` points of the surface of `shape`: its support points along the `n`
/// sample directions.
pub fn generate(shape: &SupportShape, n: usize) -> (r: Result<Vec<Vec3>, SampleError>)
    requires
        shape.wf(),
    ensures
        r is Err <==> n < 2,
        r matches Ok(v) ==> v.len() == n && all_in_range(v@) && forall|i: int|
            0 <= i < n ==> (#[trigger] v[i])@ == shape.support_toward(direction(i, n as int)),
{
    match sample(n) {
        Ok(directions) => Ok(support_points(shape, &directions)),
        Err(e) => Err(e),
    }
}

} // verus!
