//! Determinants of integer vectors and the identities the hull proofs rest on.

use vstd::prelude::*;
use crate::arith::{
    lemma_mul3, lemma_dist, lemma_mul_zero, lemma_sign_product, lemma_neg_mul, lemma_zero_factor,
};

verus! {

/// A vector with unbounded integer coordinates: the mathematical model of a
/// lattice point.
pub struct V3 {
    pub x: int,
    pub y: int,
    pub z: int,
}

impl V3 {
    /// The sum of two vectors.
    pub open spec fn plus(self, o: V3) -> V3 {
        V3 { x: self.x + o.x, y: self.y + o.y, z: self.z + o.z }
    }

    /// The difference of two vectors.
    pub open spec fn minus(self, o: V3) -> V3 {
        V3 { x: self.x - o.x, y: self.y - o.y, z: self.z - o.z }
    }

    /// The vector `k` times as long.
    pub open spec fn scaled(self, k: int) -> V3 {
        V3 { x: k * self.x, y: k * self.y, z: k * self.z }
    }

    /// The dot product.
    pub open spec fn dot(self, o: V3) -> int {
        self.x * o.x + self.y * o.y + self.z * o.z
    }

    /// The cross product.
    pub open spec fn cross(self, o: V3) -> V3 {
        V3 {
            x: self.y * o.z - self.z * o.y,
            y: self.z * o.x - self.x * o.z,
            z: self.x * o.y - self.y * o.x,
        }
    }

    /// All coordinates are zero.
    pub open spec fn is_zero(self) -> bool {
        self.x == 0 && self.y == 0 && self.z == 0
    }

    /// The squared length.
    pub open spec fn norm2(self) -> int {
        self.dot(self)
    }
}

/// The determinant with rows `u`, `v`, `w`, which is `u . (v x w)`.
pub open spec fn det(u: V3, v: V3, w: V3) -> int {
    u.x * (v.y * w.z - v.z * w.y) + u.y * (v.z * w.x - v.x * w.z) + u.z * (v.x * w.y - v.y * w.x)
}

/// Six times the signed volume of the tetrahedron `a b c d`: positive when `d`
/// lies on the side of the plane `a b c` that the normal `(b - a) x (c - a)`
/// points to.
pub open spec fn orient(a: V3, b: V3, c: V3, d: V3) -> int {
    det(b.minus(a), c.minus(a), d.minus(a))
}

/// Writes the determinant out as its six signed monomials.
pub proof fn lemma_det_monomials(u: V3, v: V3, w: V3)
    ensures
        det(u, v, w) == u.x * (v.y * w.z) - u.x * (v.z * w.y) + u.y * (v.z * w.x) - u.y * (v.x
            * w.z) + u.z * (v.x * w.y) - u.z * (v.y * w.x),
{
    lemma_dist(u.x, v.y * w.z, v.z * w.y);
    lemma_dist(u.y, v.z * w.x, v.x * w.z);
    lemma_dist(u.z, v.x * w.y, v.y * w.x);
}

/// Rotating the rows keeps the determinant.
pub proof fn lemma_det_cycle(u: V3, v: V3, w: V3)
    ensures
        det(u, v, w) == det(v, w, u),
        det(u, v, w) == det(w, u, v),
{
    lemma_det_monomials(u, v, w);
    lemma_det_monomials(v, w, u);
    lemma_det_monomials(w, u, v);
    lemma_mul3(u.x, v.y, w.z);
    lemma_mul3(u.x, v.z, w.y);
    lemma_mul3(u.y, v.z, w.x);
    lemma_mul3(u.y, v.x, w.z);
    lemma_mul3(u.z, v.x, w.y);
    lemma_mul3(u.z, v.y, w.x);
    lemma_mul3(v.x, w.y, u.z);
    lemma_mul3(v.x, w.z, u.y);
    lemma_mul3(v.y, w.z, u.x);
    lemma_mul3(v.y, w.x, u.z);
    lemma_mul3(v.z, w.x, u.y);
    lemma_mul3(v.z, w.y, u.x);
    lemma_mul3(w.x, u.y, v.z);
    lemma_mul3(w.x, u.z, v.y);
    lemma_mul3(w.y, u.z, v.x);
    lemma_mul3(w.y, u.x, v.z);
    lemma_mul3(w.z, u.x, v.y);
    lemma_mul3(w.z, u.y, v.x);
}

/// Exchanging two rows negates the determinant.
pub proof fn lemma_det_swap(u: V3, v: V3, w: V3)
    ensures
        det(v, u, w) == -det(u, v, w),
        det(u, w, v) == -det(u, v, w),
        det(w, v, u) == -det(u, v, w),
{
    lemma_det_monomials(u, v, w);
    lemma_det_monomials(v, u, w);
    lemma_mul3(u.x, v.y, w.z);
    lemma_mul3(u.x, v.z, w.y);
    lemma_mul3(u.y, v.z, w.x);
    lemma_mul3(u.y, v.x, w.z);
    lemma_mul3(u.z, v.x, w.y);
    lemma_mul3(u.z, v.y, w.x);
    lemma_mul3(v.x, u.y, w.z);
    lemma_mul3(v.x, u.z, w.y);
    lemma_mul3(v.y, u.z, w.x);
    lemma_mul3(v.y, u.x, w.z);
    lemma_mul3(v.z, u.x, w.y);
    lemma_mul3(v.z, u.y, w.x);
    assert(det(v, u, w) == -det(u, v, w));
    lemma_det_cycle(u, w, v);
    lemma_det_cycle(v, u, w);
    lemma_det_cycle(w, v, u);
    lemma_det_cycle(u, v, w);
}

/// A determinant with two equal rows vanishes.
pub proof fn lemma_det_repeat(u: V3, w: V3)
    ensures
        det(u, u, w) == 0,
        det(u, w, u) == 0,
        det(w, u, u) == 0,
{
    lemma_det_swap(u, u, w);
    lemma_det_cycle(u, u, w);
}

/// The determinant is additive in its first row.
pub proof fn lemma_det_sub(u: V3, s: V3, v: V3, w: V3)
    ensures
        det(u.minus(s), v, w) == det(u, v, w) - det(s, v, w),
        det(u.plus(s), v, w) == det(u, v, w) + det(s, v, w),
{
    lemma_dist(v.y * w.z - v.z * w.y, u.x, s.x);
    lemma_dist(v.z * w.x - v.x * w.z, u.y, s.y);
    lemma_dist(v.x * w.y - v.y * w.x, u.z, s.z);
}

/// The determinant is homogeneous in its first row.
pub proof fn lemma_det_scale(k: int, u: V3, v: V3, w: V3)
    ensures
        det(u.scaled(k), v, w) == k * det(u, v, w),
{
    let m1 = v.y * w.z - v.z * w.y;
    let m2 = v.z * w.x - v.x * w.z;
    let m3 = v.x * w.y - v.y * w.x;
    lemma_mul3(k, u.x, m1);
    lemma_mul3(k, u.y, m2);
    lemma_mul3(k, u.z, m3);
    lemma_dist(k, u.x * m1, u.y * m2);
    lemma_dist(k, u.x * m1 + u.y * m2, u.z * m3);
}

/// The determinant is additive in its second and third rows too.
pub proof fn lemma_det_sub_rows(u: V3, v: V3, w: V3, s: V3)
    ensures
        det(u, v.minus(s), w) == det(u, v, w) - det(u, s, w),
        det(u, v, w.minus(s)) == det(u, v, w) - det(u, v, s),
{
    lemma_det_cycle(u, v.minus(s), w);
    lemma_det_sub(v, s, w, u);
    lemma_det_cycle(u, v, w);
    lemma_det_cycle(u, s, w);
    lemma_det_cycle(u, v, w.minus(s));
    lemma_det_sub(w, s, u, v);
    lemma_det_cycle(u, v, s);
}

/// The determinant of a matrix is that of its transpose.
pub proof fn lemma_det_transpose(p: V3, w: V3, x: V3)
    ensures
        det(V3 { x: p.x, y: w.x, z: x.x }, V3 { x: p.y, y: w.y, z: x.y }, V3 {
            x: p.z,
            y: w.z,
            z: x.z,
        }) == det(p, w, x),
{
    let cx = V3 { x: p.x, y: w.x, z: x.x };
    let cy = V3 { x: p.y, y: w.y, z: x.y };
    let cz = V3 { x: p.z, y: w.z, z: x.z };
    lemma_det_monomials(cx, cy, cz);
    lemma_det_monomials(p, w, x);
    lemma_mul3(p.x, w.y, x.z);
    lemma_mul3(p.x, x.y, w.z);
    lemma_mul3(w.x, x.y, p.z);
    lemma_mul3(w.x, p.y, x.z);
    lemma_mul3(x.x, p.y, w.z);
    lemma_mul3(x.x, w.y, p.z);
    lemma_mul3(p.x, w.z, x.y);
    lemma_mul3(p.y, w.z, x.x);
    lemma_mul3(p.y, w.x, x.z);
    lemma_mul3(p.z, w.x, x.y);
    lemma_mul3(p.z, w.y, x.x);
}

/// Regroups a sum of three products of a three-term sum by the outer factors.
proof fn lemma_regroup(
    e1: int, e2: int, e3: int,
    a1: int, a2: int, a3: int,
    b1: int, b2: int, b3: int,
    c1: int, c2: int, c3: int,
    p: int, w: int, x: int,
)
    ensures
        (e1 * a1 + e2 * a2 + e3 * a3) * p + (e1 * b1 + e2 * b2 + e3 * b3) * w + (e1 * c1 + e2 * c2
            + e3 * c3) * x == e1 * (p * a1 + w * b1 + x * c1) + e2 * (p * a2 + w * b2 + x * c2)
            + e3 * (p * a3 + w * b3 + x * c3),
{
    lemma_dist(p, e1 * a1 + e2 * a2, e3 * a3);
    lemma_dist(p, e1 * a1, e2 * a2);
    lemma_dist(w, e1 * b1 + e2 * b2, e3 * b3);
    lemma_dist(w, e1 * b1, e2 * b2);
    lemma_dist(x, e1 * c1 + e2 * c2, e3 * c3);
    lemma_dist(x, e1 * c1, e2 * c2);
    lemma_mul3(e1, a1, p);
    lemma_mul3(e2, a2, p);
    lemma_mul3(e3, a3, p);
    lemma_mul3(e1, b1, w);
    lemma_mul3(e2, b2, w);
    lemma_mul3(e3, b3, w);
    lemma_mul3(e1, c1, x);
    lemma_mul3(e2, c2, x);
    lemma_mul3(e3, c3, x);
    lemma_dist(e1, p * a1 + w * b1, x * c1);
    lemma_dist(e1, p * a1, w * b1);
    lemma_dist(e2, p * a2 + w * b2, x * c2);
    lemma_dist(e2, p * a2, w * b2);
    lemma_dist(e3, p * a3 + w * b3, x * c3);
    lemma_dist(e3, p * a3, w * b3);
}

/// Cramer's rule: `det(p, w, x) e = det(e, w, x) p + det(e, x, p) w + det(e, p, w) x`.
pub proof fn lemma_cramer(e: V3, p: V3, w: V3, x: V3)
    ensures
        p.scaled(det(e, w, x)).plus(w.scaled(det(e, x, p))).plus(x.scaled(det(e, p, w)))
            == e.scaled(det(p, w, x)),
{
    let k = det(p, w, x);
    let cx = V3 { x: p.x, y: w.x, z: x.x };
    let cy = V3 { x: p.y, y: w.y, z: x.y };
    let cz = V3 { x: p.z, y: w.z, z: x.z };
    let cp = w.cross(x);
    let cw = x.cross(p);
    let cq = p.cross(w);
    lemma_det_transpose(p, w, x);
    lemma_det_cycle(cx, cy, cz);
    lemma_det_repeat(cx, cy);
    lemma_det_repeat(cx, cz);
    lemma_det_repeat(cy, cx);
    lemma_det_repeat(cy, cz);
    lemma_det_repeat(cz, cx);
    lemma_det_repeat(cz, cy);
    // the determinants with `e` as dot products with the cofactors
    assert(det(e, w, x) == e.x * cp.x + e.y * cp.y + e.z * cp.z);
    assert(det(e, x, p) == e.x * cw.x + e.y * cw.y + e.z * cw.z);
    assert(det(e, p, w) == e.x * cq.x + e.y * cq.y + e.z * cq.z);
    assert(det(cx, cy, cz) == k);
    // first coordinate
    lemma_regroup(e.x, e.y, e.z, cp.x, cp.y, cp.z, cw.x, cw.y, cw.z, cq.x, cq.y, cq.z, p.x, w.x, x.x);
    assert(p.x * cp.x + w.x * cw.x + x.x * cq.x == det(cx, cy, cz));
    assert(p.x * cp.y + w.x * cw.y + x.x * cq.y == det(cx, cz, cx));
    assert(p.x * cp.z + w.x * cw.z + x.x * cq.z == det(cx, cx, cy));
    assert(e.x * (p.x * cp.x + w.x * cw.x + x.x * cq.x) == e.x * k);
    lemma_mul_zero(e.y, det(cx, cz, cx));
    assert(e.y * (p.x * cp.y + w.x * cw.y + x.x * cq.y) == 0);
    lemma_mul_zero(e.z, det(cx, cx, cy));
    assert(e.z * (p.x * cp.z + w.x * cw.z + x.x * cq.z) == 0);
    assert(det(e, w, x) * p.x + det(e, x, p) * w.x + det(e, p, w) * x.x == k * e.x);
    // second coordinate
    lemma_regroup(e.x, e.y, e.z, cp.x, cp.y, cp.z, cw.x, cw.y, cw.z, cq.x, cq.y, cq.z, p.y, w.y, x.y);
    assert(p.y * cp.x + w.y * cw.x + x.y * cq.x == det(cy, cy, cz));
    assert(p.y * cp.y + w.y * cw.y + x.y * cq.y == det(cy, cz, cx));
    assert(p.y * cp.z + w.y * cw.z + x.y * cq.z == det(cy, cx, cy));
    lemma_mul_zero(e.x, det(cy, cy, cz));
    assert(e.x * (p.y * cp.x + w.y * cw.x + x.y * cq.x) == 0);
    assert(e.y * (p.y * cp.y + w.y * cw.y + x.y * cq.y) == e.y * k);
    lemma_mul_zero(e.z, det(cy, cx, cy));
    assert(e.z * (p.y * cp.z + w.y * cw.z + x.y * cq.z) == 0);
    assert(det(e, w, x) * p.y + det(e, x, p) * w.y + det(e, p, w) * x.y == k * e.y);
    // third coordinate
    lemma_regroup(e.x, e.y, e.z, cp.x, cp.y, cp.z, cw.x, cw.y, cw.z, cq.x, cq.y, cq.z, p.z, w.z, x.z);
    assert(p.z * cp.x + w.z * cw.x + x.z * cq.x == det(cz, cy, cz));
    assert(p.z * cp.y + w.z * cw.y + x.z * cq.y == det(cz, cz, cx));
    assert(p.z * cp.z + w.z * cw.z + x.z * cq.z == det(cz, cx, cy));
    lemma_mul_zero(e.x, det(cz, cy, cz));
    assert(e.x * (p.z * cp.x + w.z * cw.x + x.z * cq.x) == 0);
    lemma_mul_zero(e.y, det(cz, cz, cx));
    assert(e.y * (p.z * cp.y + w.z * cw.y + x.z * cq.y) == 0);
    assert(e.z * (p.z * cp.z + w.z * cw.z + x.z * cq.z) == e.z * k);
    assert(det(e, w, x) * p.z + det(e, x, p) * w.z + det(e, p, w) * x.z == k * e.z);
}

/// The three-term relation between determinants that share a row: for any
/// five vectors, `[e w x][e p q] + [e x p][e w q] + [e p w][e x q] = 0`.
pub proof fn lemma_three_term(e: V3, p: V3, w: V3, x: V3, q: V3)
    ensures
        det(e, w, x) * det(e, p, q) + det(e, x, p) * det(e, w, q) + det(e, p, w) * det(e, x, q)
            == 0,
{
    let a = det(e, w, x);
    let b = det(e, x, p);
    let c = det(e, p, w);
    let k = det(p, w, x);
    let mix = p.scaled(a).plus(w.scaled(b)).plus(x.scaled(c));
    lemma_cramer(e, p, w, x);
    lemma_det_sub(p.scaled(a).plus(w.scaled(b)), x.scaled(c), q, e);
    lemma_det_sub(p.scaled(a), w.scaled(b), q, e);
    lemma_det_scale(a, p, q, e);
    lemma_det_scale(b, w, q, e);
    lemma_det_scale(c, x, q, e);
    lemma_det_scale(k, e, q, e);
    lemma_det_repeat(e, q);
    lemma_mul_zero(k, det(e, q, e));
    lemma_det_cycle(e, p, q);
    lemma_det_cycle(e, w, q);
    lemma_det_cycle(e, x, q);
    assert(det(mix, q, e) == 0);
}

/// The orientation of four points as an alternating sum of determinants of
/// the points themselves.
pub proof fn lemma_orient_expand(a: V3, b: V3, c: V3, d: V3)
    ensures
        orient(a, b, c, d) == det(b, c, d) - det(a, c, d) + det(a, b, d) - det(a, b, c),
{
    let cc = c.minus(a);
    let dd = d.minus(a);
    lemma_det_sub(b, a, cc, dd);
    lemma_det_sub_rows(b, c, dd, a);
    lemma_det_sub_rows(b, c, d, a);
    lemma_det_sub_rows(b, a, d, a);
    lemma_det_sub_rows(a, c, dd, a);
    lemma_det_sub_rows(a, c, d, a);
    lemma_det_sub_rows(a, a, d, a);
    lemma_det_repeat(a, b);
    lemma_det_repeat(a, c);
    lemma_det_repeat(a, d);
    lemma_det_repeat(a, a);
    lemma_det_cycle(a, b, c);
    lemma_det_swap(a, b, d);
}

/// How the orientation changes when its four points are permuted: even
/// permutations keep it, odd ones negate it.
pub proof fn lemma_orient_permute(a: V3, b: V3, c: V3, d: V3)
    ensures
        orient(b, c, a, d) == orient(a, b, c, d),
        orient(c, a, b, d) == orient(a, b, c, d),
        orient(b, a, c, d) == -orient(a, b, c, d),
        orient(a, b, d, c) == -orient(a, b, c, d),
        orient(a, d, b, c) == orient(a, b, c, d),
        orient(b, d, c, a) == orient(a, b, c, d),
        orient(a, c, d, b) == orient(a, b, c, d),
{
    lemma_orient_expand(a, b, c, d);
    lemma_orient_expand(b, c, a, d);
    lemma_orient_expand(c, a, b, d);
    lemma_orient_expand(b, a, c, d);
    lemma_orient_expand(a, b, d, c);
    lemma_orient_expand(a, d, b, c);
    lemma_orient_expand(b, d, c, a);
    lemma_orient_expand(a, c, d, b);
    lemma_det_cycle(a, b, c);
    lemma_det_swap(a, b, c);
    lemma_det_cycle(a, b, d);
    lemma_det_swap(a, b, d);
    lemma_det_cycle(a, c, d);
    lemma_det_swap(a, c, d);
    lemma_det_cycle(b, c, d);
    lemma_det_swap(b, c, d);
}

/// Each corner of a triangle lies in the triangle's plane.
pub proof fn lemma_orient_corner(a: V3, b: V3, c: V3)
    ensures
        orient(a, b, c, a) == 0,
        orient(a, b, c, b) == 0,
        orient(a, b, c, c) == 0,
{
    lemma_orient_expand(a, b, c, a);
    lemma_orient_expand(a, b, c, b);
    lemma_orient_expand(a, b, c, c);
    lemma_det_repeat(a, b);
    lemma_det_repeat(a, c);
    lemma_det_repeat(b, a);
    lemma_det_repeat(b, c);
    lemma_det_repeat(c, a);
    lemma_det_repeat(c, b);
    lemma_det_cycle(a, b, c);
    lemma_det_swap(a, b, c);
}

/// The relation between the planes of three triangles hinged on the edge
/// `u v`: writing `F` for `v u w`, `G` for `u v x` and `N` for `u v p`,
/// `-F(x) N(q) = G(p) F(q) - F(p) G(q)` at every point `q`.
pub proof fn lemma_hinge(u: V3, v: V3, w: V3, x: V3, p: V3, q: V3)
    ensures
        -orient(v, u, w, x) * orient(u, v, p, q) == orient(u, v, x, p) * orient(v, u, w, q)
            - orient(v, u, w, p) * orient(u, v, x, q),
{
    let e = v.minus(u);
    let pp = p.minus(u);
    let ww = w.minus(u);
    let xx = x.minus(u);
    let qq = q.minus(u);
    lemma_three_term(e, pp, ww, xx, qq);
    lemma_orient_permute(u, v, w, x);
    lemma_orient_permute(u, v, w, q);
    lemma_orient_permute(u, v, w, p);
    lemma_det_swap(e, xx, pp);
    lemma_det_swap(e, pp, ww);
    let fx = orient(v, u, w, x);
    let fq = orient(v, u, w, q);
    let fp = orient(v, u, w, p);
    let gp = orient(u, v, x, p);
    let gq = orient(u, v, x, q);
    let n = orient(u, v, p, q);
    assert(det(e, ww, xx) == -fx);
    assert(det(e, pp, qq) == n);
    assert(det(e, xx, pp) == gp);
    assert(det(e, ww, qq) == -fq);
    assert(det(e, pp, ww) == fp);
    assert(det(e, xx, qq) == gq);
    assert((-fx) * n + gp * (-fq) + fp * gq == 0);
    lemma_neg_mul(gp, fq);
}

/// A new triangle on a horizon edge leaves behind it every point that the two
/// old triangles on that edge left behind them. `F = v u w` is the triangle
/// that stays, `G = u v x` the one that `p` sees, and `u v p` the new one.
pub proof fn lemma_horizon_face(u: V3, v: V3, w: V3, x: V3, p: V3, q: V3)
    requires
        orient(v, u, w, x) < 0,
        orient(u, v, x, p) > 0,
        orient(v, u, w, p) <= 0,
        orient(v, u, w, q) <= 0,
        orient(u, v, x, q) <= 0,
    ensures
        orient(u, v, p, q) <= 0,
        orient(v, u, w, q) < 0 ==> orient(u, v, p, q) < 0,
{
    let fx = orient(v, u, w, x);
    let fq = orient(v, u, w, q);
    let fp = orient(v, u, w, p);
    let gp = orient(u, v, x, p);
    let gq = orient(u, v, x, q);
    let n = orient(u, v, p, q);
    lemma_hinge(u, v, w, x, p, q);
    lemma_sign_product(fq, gp);
    lemma_sign_product(fp, gq);
    lemma_sign_product(n, -fx);
    lemma_sign_product(-n, -fx);
    lemma_neg_mul(n, -fx);
    lemma_neg_mul(fx, n);
    assert(-fx * n == gp * fq - fp * gq);
    if n > 0 {
        assert(n * (-fx) > 0);
        assert(false);
    }
    if fq < 0 && n == 0 {
        lemma_mul_zero(-fx, n);
        assert(false);
    }
}

/// Two triangles on a common edge, one seen from `p` and one not, are not
/// coplanar, provided some point lies strictly behind the unseen one and not
/// in front of the seen one.
pub proof fn lemma_hinge_bends(u: V3, v: V3, w: V3, x: V3, p: V3, t: V3)
    requires
        orient(v, u, w, x) <= 0,
        orient(u, v, x, p) > 0,
        orient(v, u, w, p) <= 0,
        orient(v, u, w, t) < 0,
        orient(u, v, x, t) <= 0,
    ensures
        orient(v, u, w, x) < 0,
{
    let fx = orient(v, u, w, x);
    let ft = orient(v, u, w, t);
    let fp = orient(v, u, w, p);
    let gp = orient(u, v, x, p);
    let gt = orient(u, v, x, t);
    let n = orient(u, v, p, t);
    lemma_hinge(u, v, w, x, p, t);
    lemma_sign_product(ft, gp);
    lemma_sign_product(fp, gt);
    if fx == 0 {
        lemma_mul_zero(n, -fx);
        assert(false);
    }
}

/// The dot product does not depend on the order of its arguments.
pub proof fn lemma_dot_commutes(u: V3, v: V3)
    by (nonlinear_arith)
    ensures
        u.dot(v) == v.dot(u),
{
}

/// The dot product is linear in its first argument.
pub proof fn lemma_dot_linear(u: V3, v: V3, k: int, n: V3)
    ensures
        u.plus(v).dot(n) == u.dot(n) + v.dot(n),
        u.minus(v).dot(n) == u.dot(n) - v.dot(n),
        u.scaled(k).dot(n) == k * u.dot(n),
{
    lemma_dist(n.x, u.x, v.x);
    lemma_dist(n.y, u.y, v.y);
    lemma_dist(n.z, u.z, v.z);
    lemma_mul3(k, u.x, n.x);
    lemma_mul3(k, u.y, n.y);
    lemma_mul3(k, u.z, n.z);
    lemma_dist(k, u.x * n.x + u.y * n.y, u.z * n.z);
    lemma_dist(k, u.x * n.x, u.y * n.y);
}

/// A vector other than zero has a positive squared length.
pub proof fn lemma_square_positive(n: V3)
    by (nonlinear_arith)
    requires
        !n.is_zero(),
    ensures
        n.x * n.x + n.y * n.y + n.z * n.z > 0,
{
}

/// Three vectors orthogonal to one nonzero vector have determinant zero.
pub proof fn lemma_det_orthogonal(n: V3, r: V3, s: V3, t: V3)
    requires
        !n.is_zero(),
        r.dot(n) == 0,
        s.dot(n) == 0,
        t.dot(n) == 0,
    ensures
        det(r, s, t) == 0,
{
    let a = det(n, s, t);
    let b = det(n, t, r);
    let c = det(n, r, s);
    let k = det(r, s, t);
    lemma_cramer(n, r, s, t);
    lemma_dot_linear(r.scaled(a).plus(s.scaled(b)), t.scaled(c), 0, n);
    lemma_dot_linear(r.scaled(a), s.scaled(b), 0, n);
    lemma_dot_linear(r, r, a, n);
    lemma_dot_linear(s, s, b, n);
    lemma_dot_linear(t, t, c, n);
    lemma_dot_linear(n, n, k, n);
    lemma_mul_zero(a, r.dot(n));
    lemma_mul_zero(b, s.dot(n));
    lemma_mul_zero(c, t.dot(n));
    lemma_square_positive(n);
    assert(k * n.dot(n) == 0);
    lemma_zero_factor(k, n.dot(n));
}

/// Four points of one plane have orientation zero. The plane is the one
/// through `o` with the nonzero normal `n`.
pub proof fn lemma_plane_orient(n: V3, o: V3, a: V3, b: V3, c: V3, d: V3)
    requires
        !n.is_zero(),
        a.minus(o).dot(n) == 0,
        b.minus(o).dot(n) == 0,
        c.minus(o).dot(n) == 0,
        d.minus(o).dot(n) == 0,
    ensures
        orient(a, b, c, d) == 0,
{
    lemma_dot_linear(b.minus(o), a.minus(o), 0, n);
    lemma_dot_linear(c.minus(o), a.minus(o), 0, n);
    lemma_dot_linear(d.minus(o), a.minus(o), 0, n);
    assert(b.minus(o).minus(a.minus(o)) == b.minus(a));
    assert(c.minus(o).minus(a.minus(o)) == c.minus(a));
    assert(d.minus(o).minus(a.minus(o)) == d.minus(a));
    lemma_det_orthogonal(n, b.minus(a), c.minus(a), d.minus(a));
}

/// Four points of which two coincide have orientation zero.
pub proof fn lemma_orient_repeat(a: V3, b: V3, c: V3, d: V3)
    requires
        a == b || a == c || a == d || b == c || b == d || c == d,
    ensures
        orient(a, b, c, d) == 0,
{
    lemma_orient_corner(a, b, c);
    lemma_orient_permute(a, c, d, a);
    lemma_orient_permute(a, b, d, a);
    lemma_orient_permute(b, a, d, b);
    lemma_orient_corner(a, b, d);
    lemma_orient_corner(a, c, d);
    lemma_orient_corner(b, a, d);
    lemma_orient_permute(a, b, c, d);
}

/// The four points `w x y z` are the four points `a b c d` in some order.
pub open spec fn shuffled(a: V3, b: V3, c: V3, d: V3, w: V3, x: V3, y: V3, z: V3) -> bool {
    (w == a && x == b && y == c && z == d) || (w == a && x == b && y == d && z == c) || (w == a && x == c && y == b && z == d) || (w == a && x == c && y == d && z == b) || (w == a && x == d && y == b && z == c) || (w == a && x == d && y == c && z == b) || (w == b && x == a && y == c && z == d) || (w == b && x == a && y == d && z == c) || (w == b && x == c && y == a && z == d) || (w == b && x == c && y == d && z == a) || (w == b && x == d && y == a && z == c) || (w == b && x == d && y == c && z == a) || (w == c && x == a && y == b && z == d) || (w == c && x == a && y == d && z == b) || (w == c && x == b && y == a && z == d) || (w == c && x == b && y == d && z == a) || (w == c && x == d && y == a && z == b) || (w == c && x == d && y == b && z == a) || (w == d && x == a && y == b && z == c) || (w == d && x == a && y == c && z == b) || (w == d && x == b && y == a && z == c) || (w == d && x == b && y == c && z == a) || (w == d && x == c && y == a && z == b) || (w == d && x == c && y == b && z == a)
}

/// In whatever order four points are taken, their orientation is the same
/// up to its sign.
pub proof fn lemma_orient_shuffled(a: V3, b: V3, c: V3, d: V3, w: V3, x: V3, y: V3, z: V3)
    requires
        shuffled(a, b, c, d, w, x, y, z),
    ensures
        orient(w, x, y, z) == orient(a, b, c, d) || orient(w, x, y, z) == -orient(a, b, c, d),
{
    lemma_orient_permute(a, b, c, d);
    lemma_orient_permute(a, b, d, c);
    lemma_orient_permute(a, c, b, d);
    lemma_orient_permute(a, c, d, b);
    lemma_orient_permute(a, d, b, c);
    lemma_orient_permute(a, d, c, b);
    lemma_orient_permute(b, a, c, d);
    lemma_orient_permute(b, a, d, c);
    lemma_orient_permute(b, c, a, d);
    lemma_orient_permute(b, c, d, a);
    lemma_orient_permute(b, d, a, c);
    lemma_orient_permute(b, d, c, a);
    lemma_orient_permute(c, a, b, d);
    lemma_orient_permute(c, a, d, b);
    lemma_orient_permute(c, b, a, d);
    lemma_orient_permute(c, b, d, a);
    lemma_orient_permute(c, d, a, b);
    lemma_orient_permute(c, d, b, a);
    lemma_orient_permute(d, a, b, c);
    lemma_orient_permute(d, a, c, b);
    lemma_orient_permute(d, b, a, c);
    lemma_orient_permute(d, b, c, a);
    lemma_orient_permute(d, c, a, b);
    lemma_orient_permute(d, c, b, a);
}

} // verus!
