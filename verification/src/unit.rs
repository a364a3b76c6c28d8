//! Scaling a vector to unit length in fixed point.

use vstd::prelude::*;
use crate::arith::{
    lemma_square_order, lemma_sq_mul, lemma_mul_le, lemma_mul_lt, lemma_square_strict,
    lemma_nonneg, lemma_sum3, lemma_square_plus_one,
};
use crate::determinant::V3;
use crate::root::{isqrt, sqrt_floor, is_sqrt, lemma_sqrt_exists};
use crate::vec3::{Vec3, ONE};

verus! {

/// Largest magnitude of a coordinate that `unit_vector` accepts.
pub const WIDE_MAX: i128 = 0x8000_0000_0000_0000;

/// Coordinates up to this magnitude are scaled up by `ONE` before the square
/// root is taken, so that short vectors lose no precision.
pub const FINE_MAX: i128 = 0x800_0000_0000;

/// The direction that stands in for the zero vector.
pub open spec fn fallback_axis() -> V3 {
    V3 { x: 0, y: ONE as int, z: 0 }
}

/// The absolute value.
pub open spec fn magnitude(c: int) -> int {
    if c >= 0 {
        c
    } else {
        -c
    }
}

/// All coordinates are within `m` of zero.
pub open spec fn within(w: V3, m: int) -> bool {
    magnitude(w.x) <= m && magnitude(w.y) <= m && magnitude(w.z) <= m
}

/// The factor by which a vector is scaled up before its length is taken.
pub open spec fn lift(w: V3) -> int {
    if within(w, FINE_MAX as int) {
        ONE as int
    } else {
        1
    }
}

/// `c * ONE / l`, rounded toward zero.
pub open spec fn toward(c: int, l: int) -> int {
    if c >= 0 {
        (c * ONE) / l
    } else {
        -(((-c) * ONE) / l)
    }
}

/// The vector of length `ONE` in the direction of `w`, each coordinate
/// rounded toward zero; the fallback axis if `w` is zero.
pub open spec fn unit_of(w: V3) -> V3 {
    if w.is_zero() {
        fallback_axis()
    } else {
        let v = w.scaled(lift(w));
        let l = sqrt_floor(v.norm2());
        V3 { x: toward(v.x, l), y: toward(v.y, l), z: toward(v.z, l) }
    }
}

/// The squared length is `ONE * ONE` up to a few parts in a million.
pub open spec fn near_unit(u: V3) -> bool {
    ONE * ONE - 6 * ONE - 3 < u.norm2() < (ONE + 1) * (ONE + 1)
}

/// The quotient and the bounds it is caught between.
proof fn lemma_quotient(x: int, l: int)
    by (nonlinear_arith)
    requires
        x >= 0,
        l > 0,
    ensures
        0 <= x / l,
        (x / l) * l <= x < (x / l) * l + l,
{
}

/// The heart of the unit-length law, on the magnitudes of the coordinates:
/// `a` is the vector, `l` its length rounded down, `q` the quotients.
proof fn lemma_unit_bounds(a1: int, a2: int, a3: int, q1: int, q2: int, q3: int, l: int, o: int)
    requires
        0 <= q1 <= o,
        0 <= q2 <= o,
        0 <= q3 <= o,
        0 <= a1,
        0 <= a2,
        0 <= a3,
        q1 * l <= a1 * o < q1 * l + l,
        q2 * l <= a2 * o < q2 * l + l,
        q3 * l <= a3 * o < q3 * l + l,
        l * l <= a1 * a1 + a2 * a2 + a3 * a3 < (l + 1) * (l + 1),
        0 < o <= l,
    ensures
        o * o - 6 * o - 3 < q1 * q1 + q2 * q2 + q3 * q3 < (o + 1) * (o + 1),
{
    let qq = q1 * q1 + q2 * q2 + q3 * q3;
    let aa = a1 * a1 + a2 * a2 + a3 * a3;
    let ll = l * l;
    let oo = o * o;
    lemma_nonneg(q1, l);
    lemma_nonneg(q2, l);
    lemma_nonneg(q3, l);
    lemma_nonneg(a1, o);
    lemma_nonneg(a2, o);
    lemma_nonneg(a3, o);
    // upper bound
    lemma_square_order(q1 * l, a1 * o);
    lemma_square_order(q2 * l, a2 * o);
    lemma_square_order(q3 * l, a3 * o);
    lemma_sq_mul(q1, l);
    lemma_sq_mul(q2, l);
    lemma_sq_mul(q3, l);
    lemma_sq_mul(a1, o);
    lemma_sq_mul(a2, o);
    lemma_sq_mul(a3, o);
    lemma_sum3(ll, q1 * q1, q2 * q2, q3 * q3);
    lemma_sum3(oo, a1 * a1, a2 * a2, a3 * a3);
    assert(qq * ll <= aa * oo);
    lemma_square_strict(0, o);
    lemma_mul_lt(aa, (l + 1) * (l + 1), oo);
    lemma_sq_mul(l + 1, o);
    lemma_sq_mul(o + 1, l);
    assert(qq * ll < ((l + 1) * o) * ((l + 1) * o));
    if qq >= (o + 1) * (o + 1) {
        lemma_nonneg(l, l);
        lemma_mul_le((o + 1) * (o + 1), qq, ll);
        assert((l + 1) * o <= (o + 1) * l) by (nonlinear_arith)
            requires
                o <= l,
        ;
        lemma_nonneg(l + 1, o);
        lemma_square_order((l + 1) * o, (o + 1) * l);
        assert(false);
    }
    // lower bound
    assert((q1 + 1) * l == q1 * l + l) by (nonlinear_arith);
    assert((q2 + 1) * l == q2 * l + l) by (nonlinear_arith);
    assert((q3 + 1) * l == q3 * l + l) by (nonlinear_arith);
    lemma_square_strict(a1 * o, (q1 + 1) * l);
    lemma_square_strict(a2 * o, (q2 + 1) * l);
    lemma_square_strict(a3 * o, (q3 + 1) * l);
    lemma_sq_mul(q1 + 1, l);
    lemma_sq_mul(q2 + 1, l);
    lemma_sq_mul(q3 + 1, l);
    let pp = (q1 + 1) * (q1 + 1) + (q2 + 1) * (q2 + 1) + (q3 + 1) * (q3 + 1);
    lemma_sum3(ll, (q1 + 1) * (q1 + 1), (q2 + 1) * (q2 + 1), (q3 + 1) * (q3 + 1));
    assert(aa * oo < pp * ll);
    lemma_mul_le(ll, aa, oo);
    assert(ll * oo < pp * ll);
    if pp <= oo {
        lemma_mul_le(pp, oo, ll);
        assert(false);
    }
    lemma_square_plus_one(q1);
    lemma_square_plus_one(q2);
    lemma_square_plus_one(q3);
}

proof fn lemma_magnitude_scaled(s: int, c: int)
    by (nonlinear_arith)
    requires
        s > 0,
    ensures
        magnitude(s * c) == s * magnitude(c),
        magnitude(s * c) * magnitude(s * c) == (s * c) * (s * c),
        c > 0 ==> s * c > 0,
        c < 0 ==> s * c < 0,
        c == 0 ==> s * c == 0,
{
}

proof fn lemma_quotient_cap(a: int, l: int, o: int)
    by (nonlinear_arith)
    requires
        0 <= a <= l,
        0 < l,
        0 < o,
    ensures
        (a * o) / l <= o,
{
    assert(((a * o) / l) * l <= a * o);
    assert(a * o <= l * o);
    if (a * o) / l >= o + 1 {
        assert(((a * o) / l) * l >= (o + 1) * l);
    }
}

/// What is known of the parts of `unit_of(w)` for a nonzero `w`: the lifted
/// vector has at least length `ONE`, and each coordinate of the result is a
/// quotient of magnitude at most `ONE`.
proof fn lemma_unit_parts(w: V3)
    requires
        !w.is_zero(),
    ensures
        ({
            let v = w.scaled(lift(w));
            let l = sqrt_floor(v.norm2());
            &&& is_sqrt(v.norm2(), l)
            &&& l >= ONE
            &&& magnitude(v.x) <= l
            &&& magnitude(v.y) <= l
            &&& magnitude(v.z) <= l
            &&& magnitude(toward(v.x, l)) == (magnitude(v.x) * ONE) / l
            &&& magnitude(toward(v.y, l)) == (magnitude(v.y) * ONE) / l
            &&& magnitude(toward(v.z, l)) == (magnitude(v.z) * ONE) / l
        }),
        within(unit_of(w), ONE as int),
        near_unit(unit_of(w)),
{
    let s = lift(w);
    let v = w.scaled(s);
    let n = v.norm2();
    let a1 = magnitude(v.x);
    let a2 = magnitude(v.y);
    let a3 = magnitude(v.z);
    lemma_magnitude_scaled(s, w.x);
    lemma_magnitude_scaled(s, w.y);
    lemma_magnitude_scaled(s, w.z);
    assert(n == a1 * a1 + a2 * a2 + a3 * a3);
    lemma_nonneg(a1, a1);
    lemma_nonneg(a2, a2);
    lemma_nonneg(a3, a3);
    lemma_sqrt_exists(n);
    let l = sqrt_floor(n);
    // some coordinate is at least ONE long
    let o = ONE as int;
    assert(a1 >= o || a2 >= o || a3 >= o) by {
        if s == 1 {
            assert(!within(w, FINE_MAX as int));
        } else {
            assert(magnitude(w.x) >= 1 || magnitude(w.y) >= 1 || magnitude(w.z) >= 1);
            if magnitude(w.x) >= 1 {
                lemma_mul_le(1, magnitude(w.x), o);
                assert(a1 >= o);
            } else if magnitude(w.y) >= 1 {
                lemma_mul_le(1, magnitude(w.y), o);
                assert(a2 >= o);
            } else {
                lemma_mul_le(1, magnitude(w.z), o);
                assert(a3 >= o);
            }
        }
    }
    if a1 >= o {
        lemma_square_order(o, a1);
    }
    if a2 >= o {
        lemma_square_order(o, a2);
    }
    if a3 >= o {
        lemma_square_order(o, a3);
    }
    assert(n >= o * o);
    if l < o {
        lemma_square_order(l + 1, o);
        assert(false);
    }
    if a1 > l {
        lemma_square_order(l + 1, a1);
        assert(false);
    }
    if a2 > l {
        lemma_square_order(l + 1, a2);
        assert(false);
    }
    if a3 > l {
        lemma_square_order(l + 1, a3);
        assert(false);
    }
    let q1 = (a1 * o) / l;
    let q2 = (a2 * o) / l;
    let q3 = (a3 * o) / l;
    lemma_nonneg(a1, o);
    lemma_nonneg(a2, o);
    lemma_nonneg(a3, o);
    lemma_quotient(a1 * o, l);
    lemma_quotient(a2 * o, l);
    lemma_quotient(a3 * o, l);
    lemma_quotient_cap(a1, l, o);
    lemma_quotient_cap(a2, l, o);
    lemma_quotient_cap(a3, l, o);
    lemma_unit_bounds(a1, a2, a3, q1, q2, q3, l, o);
    let u = unit_of(w);
    assert(u == V3 { x: toward(v.x, l), y: toward(v.y, l), z: toward(v.z, l) });
    assert(magnitude(u.x) == q1);
    assert(magnitude(u.y) == q2);
    assert(magnitude(u.z) == q3);
    lemma_sq_mul(u.x, 1);
    lemma_sq_mul(u.y, 1);
    lemma_sq_mul(u.z, 1);
    assert(u.x * u.x == q1 * q1);
    assert(u.y * u.y == q2 * q2);
    assert(u.z * u.z == q3 * q3);
    assert(o * o - 6 * o - 3 == ONE * ONE - 6 * ONE - 3);
    assert((o + 1) * (o + 1) == (ONE + 1) * (ONE + 1));
}

/// Scaling to unit length gives a vector whose squared length is `ONE * ONE`
/// up to a few parts in a million, whatever the input.
pub proof fn lemma_unit_length(w: V3)
    ensures
        within(unit_of(w), ONE as int),
        near_unit(unit_of(w)),
{
    if w.is_zero() {
        assert(unit_of(w) == fallback_axis());
        assert(unit_of(w).norm2() == ONE * ONE);
    } else {
        lemma_unit_parts(w);
    }
}

fn size(c: i128) -> (r: u128)
    requires
        -WIDE_MAX <= c <= WIDE_MAX,
    ensures
        r == magnitude(c as int),
{
    if c < 0 {
        (-c) as u128
    } else {
        c as u128
    }
}

fn signed(q: u128, c: i128) -> (r: i64)
    requires
        q <= ONE,
    ensures
        r == if c >= 0 {
            q as int
        } else {
            -(q as int)
        },
{
    if c >= 0 {
        q as i64
    } else {
        -(q as i64)
    }
}

/// The vector of length `ONE` in the direction of `(wx, wy, wz)`, or the
/// fallback axis if that is the zero vector.
pub fn unit_vector(wx: i128, wy: i128, wz: i128) -> (r: Vec3)
    requires
        within(V3 { x: wx as int, y: wy as int, z: wz as int }, WIDE_MAX as int),
    ensures
        r@ == unit_of(V3 { x: wx as int, y: wy as int, z: wz as int }),
        within(r@, ONE as int),
        near_unit(r@),
{
    let ghost w = V3 { x: wx as int, y: wy as int, z: wz as int };
    proof {
        lemma_unit_length(w);
    }
    if wx == 0 && wy == 0 && wz == 0 {
        return Vec3 { x: 0, y: ONE, z: 0 };
    }
    let ax = size(wx);
    let ay = size(wy);
    let az = size(wz);
    let fine = ax <= FINE_MAX as u128 && ay <= FINE_MAX as u128 && az <= FINE_MAX as u128;
    let s: u128 = if fine {
        ONE as u128
    } else {
        1
    };
    proof {
        assert(s == lift(w));
        lemma_mul_le(ax as int, if fine { FINE_MAX as int } else { WIDE_MAX as int }, s as int);
        lemma_mul_le(ay as int, if fine { FINE_MAX as int } else { WIDE_MAX as int }, s as int);
        lemma_mul_le(az as int, if fine { FINE_MAX as int } else { WIDE_MAX as int }, s as int);
    }
    let vx = ax * s;
    let vy = ay * s;
    let vz = az * s;
    proof {
        let m = WIDE_MAX as int;
        lemma_square_order(vx as int, m);
        lemma_square_order(vy as int, m);
        lemma_square_order(vz as int, m);
        assert(m * m == 0x4000_0000_0000_0000_0000_0000_0000_0000int) by (nonlinear_arith)
            requires
                m == 0x8000_0000_0000_0000int,
        ;
        lemma_unit_parts(w);
        lemma_magnitude_scaled(s as int, w.x);
        lemma_magnitude_scaled(s as int, w.y);
        lemma_magnitude_scaled(s as int, w.z);
    }
    let sum = vx * vx + vy * vy + vz * vz;
    let l = isqrt(sum) as u128;
    proof {
        let v = w.scaled(lift(w));
        assert(sum == v.norm2());
        assert(l == sqrt_floor(v.norm2()));
        lemma_mul_le(vx as int, WIDE_MAX as int, ONE as int);
        lemma_mul_le(vy as int, WIDE_MAX as int, ONE as int);
        lemma_mul_le(vz as int, WIDE_MAX as int, ONE as int);
    }
    let qx = (vx * (ONE as u128)) / l;
    let qy = (vy * (ONE as u128)) / l;
    let qz = (vz * (ONE as u128)) / l;
    proof {
        lemma_quotient_cap(vx as int, l as int, ONE as int);
        lemma_quotient_cap(vy as int, l as int, ONE as int);
        lemma_quotient_cap(vz as int, l as int, ONE as int);
    }
    Vec3 { x: signed(qx, wx), y: signed(qy, wy), z: signed(qz, wz) }
}

} // verus!
