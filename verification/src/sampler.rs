//! Directions spread evenly over the unit sphere by the golden angle.

use vstd::prelude::*;
use crate::arith::{lemma_square_order, lemma_product_bound};
use crate::determinant::V3;
use crate::root::{isqrt, sqrt_floor};
use crate::unit::{unit_of, unit_vector, within, near_unit, lemma_unit_length};
use crate::vec3::{Vec3, ONE};

verus! {

/// The cosine of the golden angle `pi (sqrt(5) - 1)`, in fixed point.
pub const GOLDEN_COS: i64 = -773_187;

/// The sine of the golden angle, in fixed point.
pub const GOLDEN_SIN: i64 = -708_303;

/// Why no directions were sampled.
#[derive(Clone, Copy, Debug, PartialEq, Eq, Structural)]
pub enum SampleError {
    /// Fewer than two samples were asked for.
    InvalidSampleCount,
}

/// A point of the unit circle: the cosine and the sine of an angle, in fixed
/// point.
pub struct Turn {
    pub cos: int,
    pub sin: int,
}

/// The point of the unit circle with cosine `c` and sine `s`.
pub open spec fn turn(c: int, s: int) -> Turn {
    Turn { cos: c, sin: s }
}

/// The angle of `t` plus one golden angle, brought back to unit length.
pub open spec fn advance(t: Turn) -> Turn {
    let u = unit_of(
        V3 {
            x: t.cos * GOLDEN_COS - t.sin * GOLDEN_SIN,
            y: 0,
            z: t.sin * GOLDEN_COS + t.cos * GOLDEN_SIN,
        },
    );
    Turn { cos: u.x, sin: u.z }
}

/// The cosine and sine of `i` golden angles.
pub open spec fn spin(i: nat) -> Turn
    decreases i,
{
    if i == 0 {
        turn(ONE as int, 0)
    } else {
        advance(spin((i - 1) as nat))
    }
}

/// The height of sample `i` of `n`: from `ONE` for the first down to `-ONE`
/// for the last, in equal steps.
pub open spec fn height(i: int, n: int) -> int {
    ONE - (2 * i * ONE) / (n - 1)
}

/// The radius of the circle in which the unit sphere meets the plane at
/// height `y`.
pub open spec fn ring(y: int) -> int {
    sqrt_floor(ONE * ONE - y * y)
}

/// Sample `i` of `n`: the point at height `height(i, n)`, turned by `i`
/// golden angles about the vertical axis, at unit length.
pub open spec fn direction(i: int, n: int) -> V3 {
    let t = spin(i as nat);
    let y = height(i, n);
    let r = ring(y);
    unit_of(V3 { x: t.cos * r, y: y * ONE, z: t.sin * r })
}

/// Every sample has unit length.
pub proof fn lemma_direction_unit(i: int, n: int)
    ensures
        near_unit(direction(i, n)),
        within(direction(i, n), ONE as int),
{
    let t = spin(i as nat);
    let y = height(i, n);
    let r = ring(y);
    lemma_unit_length(V3 { x: t.cos * r, y: y * ONE, z: t.sin * r });
}

fn next_turn(c: i64, s: i64) -> (r: (i64, i64))
    requires
        -ONE <= c <= ONE,
        -ONE <= s <= ONE,
    ensures
        turn(r.0 as int, r.1 as int) == advance(turn(c as int, s as int)),
        -ONE <= r.0 <= ONE,
        -ONE <= r.1 <= ONE,
{
    proof {
        lemma_product_bound(c as int, GOLDEN_COS as int, ONE as int, ONE as int);
        lemma_product_bound(s as int, GOLDEN_SIN as int, ONE as int, ONE as int);
        lemma_product_bound(s as int, GOLDEN_COS as int, ONE as int, ONE as int);
        lemma_product_bound(c as int, GOLDEN_SIN as int, ONE as int, ONE as int);
    }
    let x: i64 = c * GOLDEN_COS - s * GOLDEN_SIN;
    let z: i64 = s * GOLDEN_COS + c * GOLDEN_SIN;
    let u = unit_vector(x as i128, 0, z as i128);
    (u.x, u.z)
}

fn sample_height(i: usize, n: usize) -> (y: i64)
    requires
        i < n,
        n >= 2,
    ensures
        y == height(i as int, n as int),
        -ONE <= y <= ONE,
{
    let num: u128 = 2 * (i as u128) * (ONE as u128);
    let den: u128 = (n - 1) as u128;
    let q: u128 = num / den;
    proof {
        assert(num <= 2 * ONE * den) by (nonlinear_arith)
            requires
                num == 2 * i * ONE,
                i <= den,
        ;
        assert(q <= 2 * ONE) by (nonlinear_arith)
            requires
                q == num / den,
                num <= 2 * ONE * den,
                den > 0,
        ;
    }
    ONE - (q as i64)
}

fn sample_ring(y: i64) -> (r: i64)
    requires
        -ONE <= y <= ONE,
    ensures
        r == ring(y as int),
        0 <= r <= ONE,
{
    proof {
        lemma_product_bound(y as int, y as int, ONE as int, ONE as int);
        assert(y * y >= 0) by (nonlinear_arith);
    }
    let rest: i64 = ONE * ONE - y * y;
    let r = isqrt(rest as u128);
    proof {
        if r > ONE {
            lemma_square_order(ONE + 1, r as int);
            assert(false);
        }
    }
    r as i64
}

/// `n` directions spread evenly over the unit sphere, from straight up to
/// straight down. The same `n` gives the same directions, and each has unit
/// length. Fewer than two samples are refused.
pub fn generate(n: usize) -> (r: Result<Vec<Vec3>, SampleError>)
    ensures
        r is Err <==> n < 2,
        r matches Ok(v) ==> v.len() == n && forall|i: int|
            0 <= i < n ==> (#[trigger] v[i])@ == direction(i, n as int) && near_unit(v[i]@)
                && within(v[i]@, ONE as int),
{
    if n < 2 {
        return Err(SampleError::InvalidSampleCount);
    }
    let mut out: Vec<Vec3> = Vec::new();
    let mut c: i64 = ONE;
    let mut s: i64 = 0;
    let mut i: usize = 0;
    while i < n
        invariant
            i <= n,
            n >= 2,
            out.len() == i,
            -ONE <= c <= ONE,
            -ONE <= s <= ONE,
            turn(c as int, s as int) == spin(i as nat),
            forall|k: int|
                0 <= k < i ==> (#[trigger] out[k])@ == direction(k, n as int) && near_unit(out[k]@)
                    && within(out[k]@, ONE as int),
        decreases n - i,
    {
        let y = sample_height(i, n);
        let r = sample_ring(y);
        proof {
            lemma_product_bound(c as int, r as int, ONE as int, ONE as int);
            lemma_product_bound(s as int, r as int, ONE as int, ONE as int);
            lemma_product_bound(y as int, ONE as int, ONE as int, ONE as int);
        }
        let d = unit_vector((c * r) as i128, (y * ONE) as i128, (s * r) as i128);
        out.push(d);
        let t = next_turn(c, s);
        c = t.0;
        s = t.1;
        i = i + 1;
    }
    Ok(out)
}

} // verus!
