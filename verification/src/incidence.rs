//! Points on a common line or in a common plane: what the orientation test
//! says of them.

use vstd::prelude::*;
use crate::arith::{lemma_mul3, lemma_dist, lemma_mul_zero, lemma_sign_product};
use crate::determinant::{
    V3, det, orient, lemma_det_cycle, lemma_det_sub, lemma_det_scale, lemma_det_repeat,
    lemma_dot_linear, lemma_dot_commutes, lemma_cramer, lemma_square_positive,
};

verus! {

/// The normal of the triangle `a b c`, not scaled.
pub open spec fn plane_normal(a: V3, b: V3, c: V3) -> V3 {
    b.minus(a).cross(c.minus(a))
}

/// The orientation of `q` against a triangle is the dot product of the
/// vector from the first corner to `q` with the triangle's normal.
pub proof fn lemma_orient_is_dot(a: V3, b: V3, c: V3, q: V3)
    ensures
        orient(a, b, c, q) == q.minus(a).dot(plane_normal(a, b, c)),
{
    lemma_det_cycle(q.minus(a), b.minus(a), c.minus(a));
}

/// The orientation against a fixed triangle is an affine function of the
/// point: between two points it changes by the dot product of their
/// difference with the triangle's normal.
pub proof fn lemma_orient_step(a: V3, b: V3, c: V3, q: V3, r: V3)
    ensures
        orient(a, b, c, r) - orient(a, b, c, q) == r.minus(q).dot(plane_normal(a, b, c)),
{
    lemma_orient_is_dot(a, b, c, q);
    lemma_orient_is_dot(a, b, c, r);
    lemma_dot_linear(r.minus(a), q.minus(a), 0, plane_normal(a, b, c));
    assert(r.minus(a).minus(q.minus(a)) == r.minus(q));
}

/// `c` lies on the segment from `s` to `e`, strictly between its ends.
pub open spec fn inside(s: V3, e: V3, c: V3) -> bool {
    let d = e.minus(s);
    let r = c.minus(s);
    d.cross(r).is_zero() && 0 < r.dot(d) < d.dot(d)
}

/// One coordinate of `(d . d) r - (r . d) d = d x (r x d)`.
proof fn lemma_double_cross(dx: int, dy: int, dz: int, rx: int, ry: int, rz: int)
    ensures
        (dx * dx + dy * dy + dz * dz) * rx - (rx * dx + ry * dy + rz * dz) * dx == dy * (dy * rx
            - dx * ry) + dz * (dz * rx - dx * rz),
{
    lemma_dist(rx, dx * dx + dy * dy, dz * dz);
    lemma_dist(rx, dx * dx, dy * dy);
    lemma_dist(dx, rx * dx + ry * dy, rz * dz);
    lemma_dist(dx, rx * dx, ry * dy);
    lemma_dist(dy, dy * rx, dx * ry);
    lemma_dist(dz, dz * rx, dx * rz);
    lemma_mul3(dx, dx, rx);
    lemma_mul3(rx, dx, dx);
    lemma_mul3(dy, dy, rx);
    lemma_mul3(rx, dy, dy);
    lemma_mul3(dz, dz, rx);
    lemma_mul3(rx, dz, dz);
    lemma_mul3(ry, dy, dx);
    lemma_mul3(dx, ry, dy);
    lemma_mul3(dy, dx, ry);
    lemma_mul3(rz, dz, dx);
    lemma_mul3(dx, rz, dz);
    lemma_mul3(dz, dx, rz);
}

/// For parallel vectors, `(d . d) r = (r . d) d`.
proof fn lemma_parallel(d: V3, r: V3)
    requires
        d.cross(r).is_zero(),
    ensures
        r.scaled(d.dot(d)) == d.scaled(r.dot(d)),
{
    lemma_double_cross(d.x, d.y, d.z, r.x, r.y, r.z);
    lemma_double_cross(d.y, d.z, d.x, r.y, r.z, r.x);
    lemma_double_cross(d.z, d.x, d.y, r.z, r.x, r.y);
    assert(d.x * r.y - d.y * r.x == 0);
    assert(d.y * r.z - d.z * r.y == 0);
    assert(d.z * r.x - d.x * r.z == 0);
    lemma_mul_zero(d.y, d.y * r.x - d.x * r.y);
    lemma_mul_zero(d.z, d.z * r.x - d.x * r.z);
    lemma_mul_zero(d.x, d.x * r.y - d.y * r.x);
    lemma_mul_zero(d.z, d.z * r.y - d.y * r.z);
    lemma_mul_zero(d.x, d.x * r.z - d.z * r.x);
    lemma_mul_zero(d.y, d.y * r.z - d.z * r.y);
    assert(d.dot(d) * r.x == r.dot(d) * d.x);
    assert(d.dot(d) * r.y == r.dot(d) * d.y);
    assert(d.dot(d) * r.z == r.dot(d) * d.z);
}

/// Along a segment the orientation against a fixed triangle is weighted
/// between its values at the ends: with `m = |e - s|^2` and
/// `k = (c - s) . (e - s)`, `m T(c) = (m - k) T(s) + k T(e)`.
pub proof fn lemma_inside_weighs(s: V3, e: V3, c: V3, a: V3, b: V3, z: V3)
    requires
        inside(s, e, c),
    ensures
        ({
            let m = e.minus(s).dot(e.minus(s));
            let k = c.minus(s).dot(e.minus(s));
            &&& 0 < k < m
            &&& m * orient(a, b, z, c) == (m - k) * orient(a, b, z, s) + k * orient(a, b, z, e)
        }),
{
    let d = e.minus(s);
    let r = c.minus(s);
    let n = plane_normal(a, b, z);
    let m = d.dot(d);
    let k = r.dot(d);
    lemma_parallel(d, r);
    lemma_orient_step(a, b, z, s, c);
    lemma_orient_step(a, b, z, s, e);
    lemma_dot_linear(r, r, m, n);
    lemma_dot_linear(d, d, k, n);
    let tc = orient(a, b, z, c);
    let ts = orient(a, b, z, s);
    let te = orient(a, b, z, e);
    assert(m * (tc - ts) == k * (te - ts));
    lemma_dist(m, tc, ts);
    lemma_dist(k, te, ts);
    lemma_dist(ts, m, k);
}

proof fn lemma_weigh_signs(m: int, k: int, tc: int, ts: int, te: int)
    by (nonlinear_arith)
    requires
        0 < k < m,
        m * tc == (m - k) * ts + k * te,
    ensures
        ts <= 0 && te <= 0 ==> tc <= 0,
        ts == 0 && te > 0 ==> tc > 0,
        ts > 0 && te == 0 ==> tc > 0,
{
}

/// A point strictly inside a segment is behind every triangle that both
/// ends are behind, and in front of every triangle that has one end in its
/// plane and the other in front.
pub proof fn lemma_inside_sides(s: V3, e: V3, c: V3, a: V3, b: V3, z: V3)
    requires
        inside(s, e, c),
    ensures
        orient(a, b, z, s) <= 0 && orient(a, b, z, e) <= 0 ==> orient(a, b, z, c) <= 0,
        orient(a, b, z, s) == 0 && orient(a, b, z, e) > 0 ==> orient(a, b, z, c) > 0,
        orient(a, b, z, s) > 0 && orient(a, b, z, e) == 0 ==> orient(a, b, z, c) > 0,
{
    lemma_inside_weighs(s, e, c, a, b, z);
    let m = e.minus(s).dot(e.minus(s));
    let k = c.minus(s).dot(e.minus(s));
    lemma_weigh_signs(m, k, orient(a, b, z, c), orient(a, b, z, s), orient(a, b, z, e));
}

/// The dot product of a combination of three vectors.
proof fn lemma_combination(a: V3, b: V3, n: V3, x: int, y: int, z: int, g: V3)
    ensures
        a.scaled(x).plus(b.scaled(y)).plus(n.scaled(z)).dot(g) == x * a.dot(g) + y * b.dot(g) + z
            * n.dot(g),
{
    lemma_dot_linear(a.scaled(x).plus(b.scaled(y)), n.scaled(z), 0, g);
    lemma_dot_linear(a.scaled(x), b.scaled(y), 0, g);
    lemma_dot_linear(a, a, x, g);
    lemma_dot_linear(b, b, y, g);
    lemma_dot_linear(n, n, z, g);
}

/// The determinant of a combination of three vectors with two more.
proof fn lemma_combination_det(a: V3, b: V3, n: V3, x: int, y: int, z: int, g: V3, h: V3)
    ensures
        det(a.scaled(x).plus(b.scaled(y)).plus(n.scaled(z)), g, h) == x * det(a, g, h) + y * det(
            b,
            g,
            h,
        ) + z * det(n, g, h),
{
    lemma_det_sub(a.scaled(x).plus(b.scaled(y)), n.scaled(z), g, h);
    lemma_det_sub(a.scaled(x), b.scaled(y), g, h);
    lemma_det_scale(x, a, g, h);
    lemma_det_scale(y, b, g, h);
    lemma_det_scale(z, n, g, h);
}

proof fn lemma_cancel(l: int, x: int, y: int)
    by (nonlinear_arith)
    requires
        l != 0,
        l * x == l * y,
    ensures
        x == y,
{
}

proof fn lemma_scale_order(l: int, k: int, m: int)
    by (nonlinear_arith)
    requires
        m > 0,
    ensures
        k < l ==> k * m < l * m,
        k > l ==> k * m > l * m,
        k == l ==> k * m == l * m,
{
}

proof fn lemma_cancel_order(l: int, x: int, y: int)
    by (nonlinear_arith)
    requires
        l > 0,
    ensures
        l * x < l * y ==> x < y,
        l * x > 0 ==> x > 0,
        l * x <= 0 ==> x <= 0,
        l * x >= 0 ==> x >= 0,
{
}

/// If `l w = k a` with `l, k > 0` and `a` not zero, then `w` lies on the
/// ray of `a`: it is `a`, or one of the two is strictly shorter than the other.
proof fn lemma_ray_order(v: V3, u1: V3, u2: V3, l: int, k: int)
    requires
        l > 0,
        k > 0,
        !u1.minus(v).is_zero(),
        u2.minus(v).scaled(l) == u1.minus(v).scaled(k),
    ensures
        u1 == u2 || inside(v, u1, u2) || inside(v, u2, u1),
{
    let a = u1.minus(v);
    let w = u2.minus(v);
    assert(l * w.x == k * a.x);
    assert(l * w.y == k * a.y);
    assert(l * w.z == k * a.z);
    // the cross product vanishes
    let c = a.cross(w);
    assert(l * c.x == 0) by {
        lemma_dist(l, a.y * w.z, a.z * w.y);
        lemma_mul3(l, a.y, w.z);
        lemma_mul3(l, a.z, w.y);
        lemma_mul3(a.y, k, a.z);
        lemma_mul3(a.z, k, a.y);
    }
    assert(l * c.y == 0) by {
        lemma_dist(l, a.z * w.x, a.x * w.z);
        lemma_mul3(l, a.z, w.x);
        lemma_mul3(l, a.x, w.z);
        lemma_mul3(a.z, k, a.x);
        lemma_mul3(a.x, k, a.z);
    }
    assert(l * c.z == 0) by {
        lemma_dist(l, a.x * w.y, a.y * w.x);
        lemma_mul3(l, a.x, w.y);
        lemma_mul3(l, a.y, w.x);
        lemma_mul3(a.x, k, a.y);
        lemma_mul3(a.y, k, a.x);
    }
    lemma_cancel(l, c.x, 0);
    lemma_cancel(l, c.y, 0);
    lemma_cancel(l, c.z, 0);
    assert(c.is_zero());
    let cw = w.cross(a);
    assert(cw.x == -c.x && cw.y == -c.y && cw.z == -c.z);
    // the dot products
    lemma_dot_linear(w, w, l, a);
    lemma_dot_linear(a, a, k, a);
    lemma_dot_linear(w, w, l, w);
    lemma_dot_linear(a, a, k, w);
    lemma_dot_commutes(a, w);
    lemma_square_positive(a);
    let aa = a.dot(a);
    let wa = w.dot(a);
    let ww = w.dot(w);
    assert(l * wa == k * aa);
    assert(l * ww == k * wa);
    lemma_sign_product(k, aa);
    lemma_cancel_order(l, wa, 0);
    assert(wa > 0);
    if k < l {
        lemma_scale_order(l, k, aa);
        lemma_cancel_order(l, wa, aa);
        assert(inside(v, u1, u2));
    } else if k > l {
        lemma_scale_order(l, k, wa);
        lemma_cancel_order(l, wa, ww);
        assert(inside(v, u2, u1));
    } else {
        lemma_cancel(l, w.x, a.x);
        lemma_cancel(l, w.y, a.y);
        lemma_cancel(l, w.z, a.z);
        assert(u1 == u2);
    }
}

proof fn lemma_beta_sign(l: int, wg: int, beta: int, bg: int)
    by (nonlinear_arith)
    requires
        l > 0,
        bg > 0,
        l * wg == beta * bg,
    ensures
        wg <= 0 ==> beta <= 0,
        wg == 0 ==> beta == 0,
        wg >= 0 ==> beta >= 0,
{
}

proof fn lemma_alpha_sign(l: int, n2: int, alpha: int, n1: int)
    by (nonlinear_arith)
    requires
        l > 0,
        l * n2 == alpha * n1,
        (n1 >= 0 && n2 > 0) || (n1 <= 0 && n2 < 0),
    ensures
        alpha > 0,
{
}

proof fn lemma_balance(alpha: int, ag: int, beta: int, bg: int)
    by (nonlinear_arith)
    requires
        alpha > 0,
        ag <= 0,
        beta <= 0,
        bg > 0,
        0 == alpha * ag + beta * bg,
    ensures
        beta == 0,
{
}

/// Two triangles `v u1 p` and `v u2 p` in one plane, wound the same way, whose
/// sides `v u1` and `v u2` each lie in a plane that has `p` strictly in front
/// and the other triangle's corner not in front: then `u1` and `u2` lie on
/// one ray from `v`.
///
/// The first of those planes is that of `x1 y1 z1`, the second that of
/// `x2 y2 z2`; `t` is a point that tells the winding.
pub proof fn lemma_same_ray(
    v: V3, p: V3, u1: V3, u2: V3,
    x1: V3, y1: V3, z1: V3,
    x2: V3, y2: V3, z2: V3,
    t: V3,
)
    requires
        orient(v, u1, p, u2) == 0,
        !plane_normal(v, u1, p).is_zero(),
        orient(x1, y1, z1, v) == 0,
        orient(x1, y1, z1, u1) == 0,
        orient(x1, y1, z1, p) > 0,
        orient(x1, y1, z1, u2) <= 0,
        orient(x2, y2, z2, v) == 0,
        orient(x2, y2, z2, u2) == 0,
        orient(x2, y2, z2, p) > 0,
        orient(x2, y2, z2, u1) <= 0,
        (orient(v, u1, p, t) >= 0 && orient(v, u2, p, t) > 0) || (orient(v, u1, p, t) <= 0
            && orient(v, u2, p, t) < 0),
    ensures
        u1 == u2 || inside(v, u1, u2) || inside(v, u2, u1),
{
    let a = u1.minus(v);
    let b = p.minus(v);
    let w = u2.minus(v);
    let r = t.minus(v);
    let n = a.cross(b);
    assert(n == plane_normal(v, u1, p));
    let alpha = det(w, b, n);
    let beta = det(w, n, a);
    let gamma = det(w, a, b);
    let l = det(a, b, n);
    lemma_cramer(w, a, b, n);
    let mix = a.scaled(alpha).plus(b.scaled(beta)).plus(n.scaled(gamma));
    assert(mix == w.scaled(l));
    // the three vectors lie in one plane
    lemma_det_cycle(a, b, w);
    assert(gamma == 0);
    // l is the squared length of the normal
    lemma_det_cycle(a, b, n);
    assert(l == n.dot(n));
    lemma_square_positive(n);
    assert(l > 0);
    // the first plane
    let g1 = plane_normal(x1, y1, z1);
    lemma_orient_step(x1, y1, z1, v, u1);
    lemma_orient_step(x1, y1, z1, v, p);
    lemma_orient_step(x1, y1, z1, v, u2);
    lemma_combination(a, b, n, alpha, beta, gamma, g1);
    lemma_dot_linear(w, w, l, g1);
    lemma_mul_zero(alpha, a.dot(g1));
    lemma_mul_zero(n.dot(g1), gamma);
    assert(l * w.dot(g1) == beta * b.dot(g1));
    lemma_beta_sign(l, w.dot(g1), beta, b.dot(g1));
    assert(beta <= 0);
    // the winding
    lemma_combination_det(a, b, n, alpha, beta, gamma, b, r);
    lemma_det_scale(l, w, b, r);
    lemma_det_repeat(b, r);
    lemma_mul_zero(beta, det(b, b, r));
    lemma_mul_zero(det(n, b, r), gamma);
    assert(orient(v, u1, p, t) == det(a, b, r));
    assert(orient(v, u2, p, t) == det(w, b, r));
    assert(l * det(w, b, r) == alpha * det(a, b, r));
    lemma_alpha_sign(l, det(w, b, r), alpha, det(a, b, r));
    assert(alpha > 0);
    // the second plane
    let g2 = plane_normal(x2, y2, z2);
    lemma_orient_step(x2, y2, z2, v, u1);
    lemma_orient_step(x2, y2, z2, v, p);
    lemma_orient_step(x2, y2, z2, v, u2);
    lemma_combination(a, b, n, alpha, beta, gamma, g2);
    lemma_dot_linear(w, w, l, g2);
    lemma_mul_zero(l, w.dot(g2));
    lemma_mul_zero(n.dot(g2), gamma);
    assert(0 == alpha * a.dot(g2) + beta * b.dot(g2));
    lemma_balance(alpha, a.dot(g2), beta, b.dot(g2));
    assert(beta == 0);
    // so l w = alpha a
    assert(w.scaled(l) == a.scaled(alpha)) by {
        assert(beta * b.x == 0 && beta * b.y == 0 && beta * b.z == 0);
        assert(gamma * n.x == 0 && gamma * n.y == 0 && gamma * n.z == 0);
    }
    assert(!a.is_zero()) by {
        if a.is_zero() {
            lemma_mul_zero(b.x, a.x);
            lemma_mul_zero(b.y, a.y);
            lemma_mul_zero(b.z, a.z);
            assert(n.is_zero());
        }
    }
    lemma_ray_order(v, u1, u2, l, alpha);
}

/// A triangle that has a point strictly on one side has a normal.
pub proof fn lemma_orient_needs_normal(a: V3, b: V3, c: V3, q: V3)
    requires
        orient(a, b, c, q) != 0,
    ensures
        !plane_normal(a, b, c).is_zero(),
{
    lemma_orient_is_dot(a, b, c, q);
    let r = q.minus(a);
    let n = plane_normal(a, b, c);
    if n.is_zero() {
        lemma_mul_zero(r.x, n.x);
        lemma_mul_zero(r.y, n.y);
        lemma_mul_zero(r.z, n.z);
    }
}

/// Neither end of a segment is strictly inside it.
pub proof fn lemma_inside_not_end(s: V3, e: V3)
    ensures
        !inside(s, e, s),
        !inside(s, e, e),
{
    let d = e.minus(s);
    let r = s.minus(s);
    assert(r.dot(d) == 0) by {
        lemma_mul_zero(d.x, r.x);
        lemma_mul_zero(d.y, r.y);
        lemma_mul_zero(d.z, r.z);
    }
}

/// Three points of which one is strictly inside the segment of the other
/// two span no volume with any fourth.
pub proof fn lemma_inside_flat(s: V3, e: V3, c: V3, z: V3)
    requires
        inside(s, e, c),
    ensures
        orient(s, e, c, z) == 0,
{
    if orient(s, e, c, z) != 0 {
        lemma_orient_needs_normal(s, e, c, z);
        assert(plane_normal(s, e, c) == e.minus(s).cross(c.minus(s)));
    }
}

} // verus!
