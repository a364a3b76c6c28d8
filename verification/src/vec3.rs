//! Lattice points with machine coordinates, and the exact orientation test.

use vstd::prelude::*;
use crate::arith::lemma_product_bound;
use crate::determinant::{V3, orient, lemma_det_cycle};

verus! {

/// The fixed-point unit: a coordinate `c` stands for the real number `c / ONE`.
pub const ONE: i64 = 1_048_576;

/// Largest magnitude of a coordinate for which every predicate of this crate
/// stays inside 128-bit arithmetic.
pub const COORD_MAX: i64 = 1_073_741_824;

/// A point or vector of the lattice.
#[derive(Clone, Copy, Debug, PartialEq, Eq, Structural)]
pub struct Vec3 {
    pub x: i64,
    pub y: i64,
    pub z: i64,
}

impl View for Vec3 {
    type V = V3;

    open spec fn view(&self) -> V3 {
        V3 { x: self.x as int, y: self.y as int, z: self.z as int }
    }
}

/// `-COORD_MAX <= c <= COORD_MAX`.
pub open spec fn coord_ok(c: int) -> bool {
    -COORD_MAX <= c <= COORD_MAX
}

impl Vec3 {
    /// All three coordinates are within `COORD_MAX` of zero.
    pub open spec fn in_range(&self) -> bool {
        coord_ok(self.x as int) && coord_ok(self.y as int) && coord_ok(self.z as int)
    }

    /// The point with the coordinates `x`, `y`, `z`.
    pub fn new(x: i64, y: i64, z: i64) -> (r: Vec3)
        ensures
            r.x == x,
            r.y == y,
            r.z == z,
    {
        Vec3 { x, y, z }
    }

    /// Whether the point can be used with the exact predicates.
    pub fn is_in_range(&self) -> (r: bool)
        ensures
            r == self.in_range(),
    {
        -COORD_MAX <= self.x && self.x <= COORD_MAX && -COORD_MAX <= self.y && self.y <= COORD_MAX
            && -COORD_MAX <= self.z && self.z <= COORD_MAX
    }
}

/// Every point of the sequence is in range.
pub open spec fn all_in_range(points: Seq<Vec3>) -> bool {
    forall|i: int| 0 <= i < points.len() ==> (#[trigger] points[i]).in_range()
}

/// Whether every point of `points` is in range.
pub fn check_in_range(points: &Vec<Vec3>) -> (r: bool)
    ensures
        r == all_in_range(points@),
{
    let mut i: usize = 0;
    while i < points.len()
        invariant
            i <= points.len(),
            forall|j: int| 0 <= j < i ==> (#[trigger] points@[j]).in_range(),
        decreases points.len() - i,
    {
        if !points[i].is_in_range() {
            return false;
        }
        i = i + 1;
    }
    true
}

/// The cross product `(b - a) x (c - a)`, exactly.
pub fn edge_cross(a: &Vec3, b: &Vec3, c: &Vec3) -> (r: (i128, i128, i128))
    requires
        a.in_range(),
        b.in_range(),
        c.in_range(),
    ensures
        r.0 == b@.minus(a@).cross(c@.minus(a@)).x,
        r.1 == b@.minus(a@).cross(c@.minus(a@)).y,
        r.2 == b@.minus(a@).cross(c@.minus(a@)).z,
        -0x8000_0000_0000_0000 <= r.0 <= 0x8000_0000_0000_0000,
        -0x8000_0000_0000_0000 <= r.1 <= 0x8000_0000_0000_0000,
        -0x8000_0000_0000_0000 <= r.2 <= 0x8000_0000_0000_0000,
{
    let ux: i128 = (b.x - a.x) as i128;
    let uy: i128 = (b.y - a.y) as i128;
    let uz: i128 = (b.z - a.z) as i128;
    let vx: i128 = (c.x - a.x) as i128;
    let vy: i128 = (c.y - a.y) as i128;
    let vz: i128 = (c.z - a.z) as i128;
    proof {
        let m: int = 0x8000_0000;
        lemma_product_bound(uy as int, vz as int, m, m);
        lemma_product_bound(uz as int, vy as int, m, m);
        lemma_product_bound(uz as int, vx as int, m, m);
        lemma_product_bound(ux as int, vz as int, m, m);
        lemma_product_bound(ux as int, vy as int, m, m);
        lemma_product_bound(uy as int, vx as int, m, m);
        assert(m * m == 0x4000_0000_0000_0000) by (nonlinear_arith)
            requires
                m == 0x8000_0000,
        ;
    }
    (uy * vz - uz * vy, uz * vx - ux * vz, ux * vy - uy * vx)
}

/// The orientation of `d` against the triangle `a b c`: positive in front of
/// it (on the side its normal points to), negative behind it, zero in its
/// plane.
pub fn orientation(a: &Vec3, b: &Vec3, c: &Vec3, d: &Vec3) -> (r: i128)
    requires
        a.in_range(),
        b.in_range(),
        c.in_range(),
        d.in_range(),
    ensures
        r == orient(a@, b@, c@, d@),
{
    let n = edge_cross(a, b, c);
    let wx: i128 = (d.x - a.x) as i128;
    let wy: i128 = (d.y - a.y) as i128;
    let wz: i128 = (d.z - a.z) as i128;
    proof {
        let m: int = 0x8000_0000;
        let k: int = 0x8000_0000_0000_0000;
        lemma_product_bound(wx as int, n.0 as int, m, k);
        lemma_product_bound(wy as int, n.1 as int, m, k);
        lemma_product_bound(wz as int, n.2 as int, m, k);
        assert(m * k == 0x4000_0000_0000_0000_0000_0000) by (nonlinear_arith)
            requires
                m == 0x8000_0000,
                k == 0x8000_0000_0000_0000,
        ;
        lemma_det_cycle(d@.minus(a@), b@.minus(a@), c@.minus(a@));
    }
    wx * n.0 + wy * n.1 + wz * n.2
}

} // verus!
