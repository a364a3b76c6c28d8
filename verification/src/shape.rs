//! Convex shapes given by their support maps.

use vstd::prelude::*;
use crate::arith::{
    lemma_square_order, lemma_sq_mul, lemma_mul_le, lemma_square_strict, lemma_nonneg, lemma_sum3,
    lemma_product_bound,
};
use crate::determinant::V3;
use crate::unit::{unit_of, unit_vector, within, magnitude};
use crate::vec3::{Vec3, ONE};

verus! {

/// Largest radius, extent or coordinate of a shape's parameters.
pub const SHAPE_MAX: i64 = 536_870_912;

/// `c * r / ONE`, rounded toward zero: the fixed-point product of a
/// direction coordinate and a length.
pub open spec fn times(c: int, r: int) -> int {
    if c >= 0 {
        (c * r) / (ONE as int)
    } else {
        -(((-c) * r) / (ONE as int))
    }
}

/// The direction `d` scaled to the length `r`.
pub open spec fn radial(d: V3, r: int) -> V3 {
    V3 { x: times(d.x, r), y: times(d.y, r), z: times(d.z, r) }
}

/// `0 <= r <= SHAPE_MAX`.
pub open spec fn length_ok(r: int) -> bool {
    0 <= r <= SHAPE_MAX
}

/// A line segment from `a` to `b`.
#[derive(Clone, Copy, Debug, PartialEq, Eq, Structural)]
pub struct Segment {
    pub a: Vec3,
    pub b: Vec3,
}

impl Segment {
    /// Both ends are within `SHAPE_MAX` of the origin in every coordinate.
    pub open spec fn wf(&self) -> bool {
        within(self.a@, SHAPE_MAX as int) && within(self.b@, SHAPE_MAX as int)
    }

    /// The end that lies farther along `d`; the end `a` on a tie if
    /// `a_on_tie`, else the end `b`.
    pub open spec fn far_end(&self, d: V3, a_on_tie: bool) -> V3 {
        if d.dot(self.a@) > d.dot(self.b@) || (a_on_tie && d.dot(self.a@) == d.dot(self.b@)) {
            self.a@
        } else {
            self.b@
        }
    }
}

/// Two balls of different radii around the ends of a segment, and what lies
/// between them. Its support map picks a ball by the end of the segment that
/// lies farther along the direction; this is exact only while neither ball
/// hides the other's silhouette, and is otherwise an approximation.
#[derive(Clone, Copy, Debug, PartialEq, Eq, Structural)]
pub struct TaperedCapsule {
    pub radius_a: i64,
    pub radius_b: i64,
    pub segment: Segment,
}

/// A convex shape.
#[derive(Clone, Copy, Debug, PartialEq, Eq, Structural)]
pub enum SupportShape {
    /// A ball around the origin.
    Ball { radius: i64 },
    /// A box around the origin with the given half extents.
    Cuboid { half_extents: Vec3 },
    /// All points within `radius` of a segment.
    Capsule { segment: Segment, radius: i64 },
    /// A cone with its apex at `(0, half_height, 0)` and its base, a disc of
    /// the given radius, at height `-half_height`.
    Cone { half_height: i64, radius: i64 },
    /// A tapered capsule.
    Tapered { capsule: TaperedCapsule },
}

/// The support point of a box.
pub open spec fn cuboid_support(h: V3, d: V3) -> V3 {
    V3 {
        x: if d.x >= 0 {
            h.x
        } else {
            -h.x
        },
        y: if d.y >= 0 {
            h.y
        } else {
            -h.y
        },
        z: if d.z >= 0 {
            h.z
        } else {
            -h.z
        },
    }
}

/// The point of the rim of a cone's base that lies farthest along `d`.
pub open spec fn cone_rim(h: int, r: int, d: V3) -> V3 {
    let out = unit_of(V3 { x: d.x, y: 0, z: d.z });
    V3 { x: times(out.x, r), y: -h, z: times(out.z, r) }
}

/// The support point of a cone: the apex or a point of the base.
pub open spec fn cone_support(h: int, r: int, d: V3) -> V3 {
    if d.x == 0 && d.z == 0 {
        V3 {
            x: 0,
            y: if d.y >= 0 {
                h
            } else {
                -h
            },
            z: 0,
        }
    } else if d.dot(cone_rim(h, r, d)) < d.y * h {
        V3 { x: 0, y: h, z: 0 }
    } else {
        cone_rim(h, r, d)
    }
}

impl TaperedCapsule {
    /// The segment is well formed and the radii are lengths of at most
    /// `SHAPE_MAX`.
    pub open spec fn wf(&self) -> bool {
        self.segment.wf() && length_ok(self.radius_a as int) && length_ok(self.radius_b as int)
    }

    /// The support point along the unit direction `d`.
    pub open spec fn support_toward(&self, d: V3) -> V3 {
        if d.dot(self.segment.a@) > d.dot(self.segment.b@) {
            self.segment.a@.plus(radial(d, self.radius_a as int))
        } else {
            self.segment.b@.plus(radial(d, self.radius_b as int))
        }
    }

    /// The support point along `d`, which need not have unit length.
    pub open spec fn support(&self, d: V3) -> V3 {
        self.support_toward(unit_of(d))
    }
}

impl SupportShape {
    /// The parameters are lengths and points of at most `SHAPE_MAX`.
    pub open spec fn wf(&self) -> bool {
        match *self {
            SupportShape::Ball { radius } => length_ok(radius as int),
            SupportShape::Cuboid { half_extents } => length_ok(half_extents.x as int) && length_ok(
                half_extents.y as int,
            ) && length_ok(half_extents.z as int),
            SupportShape::Capsule { segment, radius } => segment.wf() && length_ok(radius as int),
            SupportShape::Cone { half_height, radius } => length_ok(half_height as int)
                && length_ok(radius as int),
            SupportShape::Tapered { capsule } => capsule.wf(),
        }
    }

    /// The support point along the unit direction `d`.
    pub open spec fn support_toward(&self, d: V3) -> V3 {
        match *self {
            SupportShape::Ball { radius } => radial(d, radius as int),
            SupportShape::Cuboid { half_extents } => cuboid_support(half_extents@, d),
            SupportShape::Capsule { segment, radius } => segment.far_end(d, true).plus(
                radial(d, radius as int),
            ),
            SupportShape::Cone { half_height, radius } => cone_support(
                half_height as int,
                radius as int,
                d,
            ),
            SupportShape::Tapered { capsule } => capsule.support_toward(d),
        }
    }

    /// The support point along `d`, which need not have unit length.
    pub open spec fn support(&self, d: V3) -> V3 {
        self.support_toward(unit_of(d))
    }
}

/// The fixed-point product of a direction coordinate and a length.
pub fn fixed_mul(c: i64, r: i64) -> (p: i64)
    requires
        -ONE <= c <= ONE,
        length_ok(r as int),
    ensures
        p == times(c as int, r as int),
        -r <= p <= r,
{
    if c >= 0 {
        proof {
            lemma_mul_le(c as int, ONE as int, r as int);
            lemma_nonneg(c as int, r as int);
        }
        (c * r) / ONE
    } else {
        proof {
            lemma_mul_le(-c as int, ONE as int, r as int);
            lemma_nonneg(-c as int, r as int);
        }
        -(((-c) * r) / ONE)
    }
}

/// The unit direction `d` scaled to the length `r`.
pub fn scale(d: &Vec3, r: i64) -> (p: Vec3)
    requires
        within(d@, ONE as int),
        length_ok(r as int),
    ensures
        p@ == radial(d@, r as int),
        within(p@, r as int),
{
    Vec3 { x: fixed_mul(d.x, r), y: fixed_mul(d.y, r), z: fixed_mul(d.z, r) }
}

/// The dot product of a unit direction and a point.
pub fn along(d: &Vec3, p: &Vec3) -> (r: i64)
    requires
        within(d@, ONE as int),
        within(p@, SHAPE_MAX as int),
    ensures
        r == d@.dot(p@),
{
    proof {
        lemma_product_bound(d.x as int, p.x as int, ONE as int, SHAPE_MAX as int);
        lemma_product_bound(d.y as int, p.y as int, ONE as int, SHAPE_MAX as int);
        lemma_product_bound(d.z as int, p.z as int, ONE as int, SHAPE_MAX as int);
    }
    d.x * p.x + d.y * p.y + d.z * p.z
}

/// The sum of a point and an offset.
fn shifted(p: &Vec3, o: &Vec3) -> (r: Vec3)
    requires
        within(p@, SHAPE_MAX as int),
        within(o@, SHAPE_MAX as int),
    ensures
        r@ == p@.plus(o@),
        r.in_range(),
{
    Vec3 { x: p.x + o.x, y: p.y + o.y, z: p.z + o.z }
}

fn signed_extent(h: i64, c: i64) -> (r: i64)
    requires
        length_ok(h as int),
    ensures
        r == if c >= 0 {
            h as int
        } else {
            -h
        },
{
    if c >= 0 {
        h
    } else {
        -h
    }
}

impl TaperedCapsule {
    /// The support point along the unit direction `dir`.
    pub fn local_support_point_toward(&self, dir: &Vec3) -> (r: Vec3)
        requires
            self.wf(),
            within(dir@, ONE as int),
        ensures
            r@ == self.support_toward(dir@),
            r.in_range(),
    {
        if along(dir, &self.segment.a) > along(dir, &self.segment.b) {
            shifted(&self.segment.a, &scale(dir, self.radius_a))
        } else {
            shifted(&self.segment.b, &scale(dir, self.radius_b))
        }
    }

    /// The support point along `dir`, which is first scaled to unit length;
    /// the zero vector stands for the fallback axis.
    pub fn local_support_point(&self, dir: &Vec3) -> (r: Vec3)
        requires
            self.wf(),
        ensures
            r@ == self.support(dir@),
            r.in_range(),
    {
        let unit = unit_vector(dir.x as i128, dir.y as i128, dir.z as i128);
        self.local_support_point_toward(&unit)
    }
}

impl SupportShape {
    /// The support point along the unit direction `dir`: a point of the
    /// shape that lies as far along `dir` as any.
    pub fn support_point_toward(&self, dir: &Vec3) -> (r: Vec3)
        requires
            self.wf(),
            within(dir@, ONE as int),
        ensures
            r@ == self.support_toward(dir@),
            r.in_range(),
    {
        match self {
            SupportShape::Ball { radius } => scale(dir, *radius),
            SupportShape::Cuboid { half_extents } => Vec3 {
                x: signed_extent(half_extents.x, dir.x),
                y: signed_extent(half_extents.y, dir.y),
                z: signed_extent(half_extents.z, dir.z),
            },
            SupportShape::Capsule { segment, radius } => {
                if along(dir, &segment.a) >= along(dir, &segment.b) {
                    shifted(&segment.a, &scale(dir, *radius))
                } else {
                    shifted(&segment.b, &scale(dir, *radius))
                }
            },
            SupportShape::Cone { half_height, radius } => {
                let h = *half_height;
                if dir.x == 0 && dir.z == 0 {
                    Vec3 { x: 0, y: signed_extent(h, dir.y), z: 0 }
                } else {
                    let out = unit_vector(dir.x as i128, 0, dir.z as i128);
                    let rim = Vec3 { x: fixed_mul(out.x, *radius), y: -h, z: fixed_mul(out.z, *radius) };
                    proof {
                        lemma_product_bound(dir.y as int, h as int, ONE as int, SHAPE_MAX as int);
                    }
                    if along(dir, &rim) < dir.y * h {
                        Vec3 { x: 0, y: h, z: 0 }
                    } else {
                        rim
                    }
                }
            },
            SupportShape::Tapered { capsule } => capsule.local_support_point_toward(dir),
        }
    }

    /// The support point along `dir`, which is first scaled to unit length;
    /// the zero vector stands for the fallback axis.
    pub fn support_point(&self, dir: &Vec3) -> (r: Vec3)
        requires
            self.wf(),
        ensures
            r@ == self.support(dir@),
            r.in_range(),
    {
        let unit = unit_vector(dir.x as i128, dir.y as i128, dir.z as i128);
        self.support_point_toward(&unit)
    }
}

/// The vector of the magnitudes of the coordinates of `s`, each plus one.
pub open spec fn padded(s: V3) -> V3 {
    V3 { x: magnitude(s.x) + 1, y: magnitude(s.y) + 1, z: magnitude(s.z) + 1 }
}

/// One coordinate of the ball law: `q = |times(c, r)|` is caught by
/// `(q ONE)^2 <= (c r)^2 < ((q + 1) ONE)^2`.
proof fn lemma_times_square(c: int, r: int)
    requires
        r >= 0,
    ensures
        ({
            let q = magnitude(times(c, r));
            &&& times(c, r) * times(c, r) == q * q
            &&& (ONE * ONE) * (q * q) <= (r * r) * (c * c)
            &&& (r * r) * (c * c) < (ONE * ONE) * ((q + 1) * (q + 1))
        }),
{
    let a = magnitude(c);
    let o = ONE as int;
    let q = (a * r) / o;
    lemma_nonneg(a, r);
    lemma_nonneg(q, o);
    assert(magnitude(times(c, r)) == q);
    // squares do not tell a number from its negative
    lemma_sq_mul(times(c, r), 1);
    lemma_sq_mul(c, 1);
    assert(times(c, r) * times(c, r) == q * q);
    assert(c * c == a * a);
    // the quotient, squared
    assert(q * o <= a * r < (q + 1) * o);
    lemma_square_order(q * o, a * r);
    lemma_square_strict(a * r, (q + 1) * o);
    assert((q * o) * (q * o) == (o * o) * (q * q)) by (nonlinear_arith);
    assert((a * r) * (a * r) == (r * r) * (a * a)) by (nonlinear_arith);
    assert(((q + 1) * o) * ((q + 1) * o) == (o * o) * ((q + 1) * (q + 1))) by (nonlinear_arith);
}

/// The support point of a ball of radius `r` along `d` is as long as `d`
/// scaled by `r`, up to one lattice step per coordinate: with `s` the
/// support point, `ONE |s| <= r |d| < ONE |padded(s)|`, here in squares. For
/// a unit direction the length of the support point is therefore `r` up to
/// rounding.
pub proof fn lemma_ball_support_length(r: int, d: V3)
    requires
        r >= 0,
    ensures
        (ONE * ONE) * radial(d, r).norm2() <= (r * r) * d.norm2(),
        (r * r) * d.norm2() < (ONE * ONE) * padded(radial(d, r)).norm2(),
{
    let s = radial(d, r);
    lemma_times_square(d.x, r);
    lemma_times_square(d.y, r);
    lemma_times_square(d.z, r);
    let p = padded(s);
    lemma_sum3(ONE * ONE, s.x * s.x, s.y * s.y, s.z * s.z);
    lemma_sum3(r * r, d.x * d.x, d.y * d.y, d.z * d.z);
    lemma_sum3(ONE * ONE, p.x * p.x, p.y * p.y, p.z * p.z);
}

/// Every coordinate of a box's support point is the half extent of its
/// axis or the negative of it.
pub proof fn lemma_cuboid_support_corner(h: V3, d: V3)
    ensures
        cuboid_support(h, d).x == h.x || cuboid_support(h, d).x == -h.x,
        cuboid_support(h, d).y == h.y || cuboid_support(h, d).y == -h.y,
        cuboid_support(h, d).z == h.z || cuboid_support(h, d).z == -h.z,
{
}

proof fn lemma_farthest_coordinate(d: int, q: int, h: int)
    by (nonlinear_arith)
    requires
        -h <= q <= h,
    ensures
        d >= 0 ==> d * q <= d * h,
        d < 0 ==> d * q <= d * (-h),
{
}

/// No point of a box lies farther along `d` than the box's support point.
pub proof fn lemma_cuboid_support_farthest(h: V3, d: V3, q: V3)
    requires
        -h.x <= q.x <= h.x,
        -h.y <= q.y <= h.y,
        -h.z <= q.z <= h.z,
    ensures
        d.dot(q) <= d.dot(cuboid_support(h, d)),
{
    lemma_farthest_coordinate(d.x, q.x, h.x);
    lemma_farthest_coordinate(d.y, q.y, h.y);
    lemma_farthest_coordinate(d.z, q.z, h.z);
}

} // verus!
