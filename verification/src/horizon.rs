//! The rim of the faces that a new point sees: why it is a simple loop, and
//! why the faces built on it close the hull again.

use vstd::prelude::*;
use crate::determinant::{
    V3, orient, lemma_orient_permute, lemma_orient_corner, lemma_orient_expand, lemma_det_cycle,
    lemma_det_swap,
};
use crate::pairing::{weights, weight, lemma_weights_cancel};
use crate::hull::{Face, Seed, side, sound, seen, seed_ok, corners_apart, stays, lemma_new_face};
use crate::incidence::{
    inside, plane_normal, lemma_same_ray, lemma_orient_needs_normal, lemma_inside_sides,
    lemma_inside_not_end,
};
use crate::shell::{
    shell, tight, closed, paired, proper, all_proper, rim, marked_edge, plain_edge,
    lemma_rim_continues, lemma_rim_begins,
};
use crate::vec3::Vec3;

verus! {

/// No corner of a face lies strictly inside a side of a face.
pub open spec fn seamless(points: Seq<Vec3>, faces: Seq<Face>) -> bool {
    forall|f: int, g: int, u: int, v: int, c: int|
        0 <= f < faces.len() && 0 <= g < faces.len() && #[trigger] faces[f].has_edge(u, v)
            && #[trigger] faces[g].has_corner(c) ==> !inside(points[u]@, points[v]@, points[c]@)
}

/// What holds of the faces before the point `i` is absorbed, with `vis`
/// marking the faces that see it.
pub open spec fn ready(
    points: Seq<Vec3>,
    seed: Seed,
    i: int,
    faces: Seq<Face>,
    vis: Seq<bool>,
) -> bool {
    &&& 0 <= i < points.len()
    &&& seed_ok(points.len() as int, seed)
    &&& vis.len() == faces.len()
    &&& forall|f: int| 0 <= f < faces.len() ==> sound(points, seed, i, #[trigger] faces[f])
    &&& forall|g: int|
        0 <= g < faces.len() ==> vis[g] == (side(points, #[trigger] faces[g], points[i]@) > 0)
    &&& corners_apart(points, faces)
    &&& shell(faces)
    &&& seamless(points, faces)
}

/// Each corner of a face lies in the plane of the face.
proof fn lemma_corner_in_plane(points: Seq<Vec3>, f: Face, c: int)
    requires
        f.has_corner(c),
    ensures
        side(points, f, points[c]@) == 0,
{
    lemma_orient_corner(points[f.a as int]@, points[f.b as int]@, points[f.c as int]@);
}

/// Two faces that see the new point and have a corner `v` in common, with
/// further corners `u1` and `u2`: if the triangles `v u1 p` and `v u2 p` lie
/// in one plane and are wound the same way, then `u1` is `u2`.
proof fn lemma_no_fork(
    points: Seq<Vec3>,
    seed: Seed,
    i: int,
    faces: Seq<Face>,
    vis: Seq<bool>,
    g1: int,
    g2: int,
    v: int,
    u1: int,
    u2: int,
    t: int,
)
    requires
        ready(points, seed, i, faces, vis),
        0 <= g1 < faces.len(),
        0 <= g2 < faces.len(),
        vis[g1],
        vis[g2],
        faces[g1].has_edge(u1, v) || faces[g1].has_edge(v, u1),
        faces[g2].has_edge(u2, v) || faces[g2].has_edge(v, u2),
        paired(faces, u1, v),
        paired(faces, v, u1),
        paired(faces, u2, v),
        paired(faces, v, u2),
        0 <= t < points.len(),
        orient(points[v]@, points[u1]@, points[i]@, points[u2]@) == 0,
        !plane_normal(points[v]@, points[u1]@, points[i]@).is_zero(),
        (orient(points[v]@, points[u1]@, points[i]@, points[t]@) >= 0 && orient(
            points[v]@,
            points[u2]@,
            points[i]@,
            points[t]@,
        ) > 0) || (orient(points[v]@, points[u1]@, points[i]@, points[t]@) <= 0 && orient(
            points[v]@,
            points[u2]@,
            points[i]@,
            points[t]@,
        ) < 0),
    ensures
        u1 == u2,
{
    let n = points.len() as int;
    let pv = points[v]@;
    let far1 = points[u1]@;
    let far2 = points[u2]@;
    let p = points[i]@;
    let f1 = faces[g1];
    let f2 = faces[g2];
    assert(sound(points, seed, i, f1));
    assert(sound(points, seed, i, f2));
    assert(f1.has_corner(u1) && f1.has_corner(v));
    assert(f2.has_corner(u2) && f2.has_corner(v));
    assert(seen(n, seed, i, u1));
    assert(seen(n, seed, i, u2));
    lemma_corner_in_plane(points, f1, u1);
    lemma_corner_in_plane(points, f1, v);
    lemma_corner_in_plane(points, f2, u2);
    lemma_corner_in_plane(points, f2, v);
    assert(side(points, f1, points[u2]@) <= 0);
    assert(side(points, f2, points[u1]@) <= 0);
    lemma_same_ray(
        pv,
        p,
        far1,
        far2,
        points[f1.a as int]@,
        points[f1.b as int]@,
        points[f1.c as int]@,
        points[f2.a as int]@,
        points[f2.b as int]@,
        points[f2.c as int]@,
        points[t]@,
    );
    if u1 != u2 {
        // different corners are different points
        assert(far1 != far2);
        let h1 = choose|h: int| 0 <= h < faces.len() && (#[trigger] faces[h]).has_edge(v, u1);
        let h2 = choose|h: int| 0 <= h < faces.len() && (#[trigger] faces[h]).has_edge(v, u2);
        assert(faces[h1].has_edge(v, u1));
        assert(faces[h2].has_edge(v, u2));
        assert(!inside(pv, far1, far2));
        assert(!inside(pv, far2, far1));
        assert(false);
    }
}

/// The rim runs into a corner along one side only.
pub(crate) proof fn lemma_rim_in_once(
    points: Seq<Vec3>,
    seed: Seed,
    i: usize,
    faces: Seq<Face>,
    vis: Seq<bool>,
    u1: usize,
    u2: usize,
    v: usize,
)
    requires
        ready(points, seed, i as int, faces, vis),
        rim(faces, vis, u1 as int, v as int),
        rim(faces, vis, u2 as int, v as int),
    ensures
        u1 == u2,
{
    let n = points.len() as int;
    let g1 = choose|g: int| 0 <= g < faces.len() && vis[g] && (#[trigger] faces[g]).has_edge(u1 as int, v as int);
    let h1 = choose|h: int| 0 <= h < faces.len() && !vis[h] && (#[trigger] faces[h]).has_edge(v as int, u1 as int);
    let g2 = choose|g: int| 0 <= g < faces.len() && vis[g] && (#[trigger] faces[g]).has_edge(u2 as int, v as int);
    let h2 = choose|h: int| 0 <= h < faces.len() && !vis[h] && (#[trigger] faces[h]).has_edge(v as int, u2 as int);
    lemma_new_face(points, seed, i, faces[g1], faces[h1], u1, v);
    lemma_new_face(points, seed, i, faces[g2], faces[h2], u2, v);
    let n1 = Face { a: u1, b: v, c: i };
    let n2 = Face { a: u2, b: v, c: i };
    let pv = points[v as int]@;
    let far1 = points[u1 as int]@;
    let far2 = points[u2 as int]@;
    let p = points[i as int]@;
    assert(sound(points, seed, i as int, faces[g1]));
    assert(sound(points, seed, i as int, faces[g2]));
    assert(faces[g1].has_corner(u1 as int));
    assert(faces[g2].has_corner(u2 as int));
    assert(seen(n, seed, i + 1, u1 as int));
    assert(seen(n, seed, i + 1, u2 as int));
    assert(side(points, n1, points[u2 as int]@) <= 0);
    assert(side(points, n2, points[u1 as int]@) <= 0);
    lemma_orient_permute(far1, pv, p, far2);
    lemma_orient_permute(pv, far2, p, far1);
    assert(orient(pv, far1, p, far2) == 0);
    // a seed point behind each of the two new faces
    let t1 = if side(points, n1, points[seed.a]@) < 0 {
        seed.a
    } else if side(points, n1, points[seed.b]@) < 0 {
        seed.b
    } else if side(points, n1, points[seed.c]@) < 0 {
        seed.c
    } else {
        seed.d
    };
    let t2 = if side(points, n2, points[seed.a]@) < 0 {
        seed.a
    } else if side(points, n2, points[seed.b]@) < 0 {
        seed.b
    } else if side(points, n2, points[seed.c]@) < 0 {
        seed.c
    } else {
        seed.d
    };
    assert(seen(n, seed, i + 1, t2));
    assert(side(points, n1, points[t2]@) <= 0);
    lemma_orient_permute(far1, pv, p, points[t1]@);
    lemma_orient_permute(far1, pv, p, points[t2]@);
    lemma_orient_permute(far2, pv, p, points[t2]@);
    lemma_orient_needs_normal(pv, far1, p, points[t1]@);
    assert(paired(faces, u1 as int, v as int));
    assert(paired(faces, v as int, u1 as int));
    assert(paired(faces, u2 as int, v as int));
    assert(paired(faces, v as int, u2 as int));
    lemma_no_fork(points, seed, i as int, faces, vis, g1, g2, v as int, u1 as int, u2 as int, t2);
}

/// The rim runs out of a corner along one side only.
pub(crate) proof fn lemma_rim_out_once(
    points: Seq<Vec3>,
    seed: Seed,
    i: usize,
    faces: Seq<Face>,
    vis: Seq<bool>,
    u1: usize,
    u2: usize,
    v: usize,
)
    requires
        ready(points, seed, i as int, faces, vis),
        rim(faces, vis, v as int, u1 as int),
        rim(faces, vis, v as int, u2 as int),
    ensures
        u1 == u2,
{
    let n = points.len() as int;
    let g1 = choose|g: int| 0 <= g < faces.len() && vis[g] && (#[trigger] faces[g]).has_edge(v as int, u1 as int);
    let h1 = choose|h: int| 0 <= h < faces.len() && !vis[h] && (#[trigger] faces[h]).has_edge(u1 as int, v as int);
    let g2 = choose|g: int| 0 <= g < faces.len() && vis[g] && (#[trigger] faces[g]).has_edge(v as int, u2 as int);
    let h2 = choose|h: int| 0 <= h < faces.len() && !vis[h] && (#[trigger] faces[h]).has_edge(u2 as int, v as int);
    lemma_new_face(points, seed, i, faces[g1], faces[h1], v, u1);
    lemma_new_face(points, seed, i, faces[g2], faces[h2], v, u2);
    let n1 = Face { a: v, b: u1, c: i };
    let n2 = Face { a: v, b: u2, c: i };
    let pv = points[v as int]@;
    let far1 = points[u1 as int]@;
    let far2 = points[u2 as int]@;
    let p = points[i as int]@;
    assert(sound(points, seed, i as int, faces[g1]));
    assert(sound(points, seed, i as int, faces[g2]));
    assert(faces[g1].has_corner(u1 as int));
    assert(faces[g2].has_corner(u2 as int));
    assert(seen(n, seed, i + 1, u1 as int));
    assert(seen(n, seed, i + 1, u2 as int));
    assert(side(points, n1, points[u2 as int]@) <= 0);
    assert(side(points, n2, points[u1 as int]@) <= 0);
    lemma_orient_permute(pv, far1, p, far2);
    lemma_orient_permute(pv, far2, far1, p);
    assert(orient(pv, far1, p, far2) == 0);
    let t1 = if side(points, n1, points[seed.a]@) < 0 {
        seed.a
    } else if side(points, n1, points[seed.b]@) < 0 {
        seed.b
    } else if side(points, n1, points[seed.c]@) < 0 {
        seed.c
    } else {
        seed.d
    };
    let t2 = if side(points, n2, points[seed.a]@) < 0 {
        seed.a
    } else if side(points, n2, points[seed.b]@) < 0 {
        seed.b
    } else if side(points, n2, points[seed.c]@) < 0 {
        seed.c
    } else {
        seed.d
    };
    assert(seen(n, seed, i + 1, t2));
    assert(side(points, n1, points[t2]@) <= 0);
    lemma_orient_needs_normal(pv, far1, p, points[t1]@);
    assert(paired(faces, u1 as int, v as int));
    assert(paired(faces, v as int, u1 as int));
    assert(paired(faces, u2 as int, v as int));
    assert(paired(faces, v as int, u2 as int));
    lemma_no_fork(points, seed, i as int, faces, vis, g1, g2, v as int, u1 as int, u2 as int, t2);
}

/// `f` is one of the faces `out`.
pub open spec fn has_face(out: Seq<Face>, f: Face) -> bool {
    exists|e: int| 0 <= e < out.len() && #[trigger] out[e] == f
}

/// `out` is what absorbing the point `i` leaves of `faces`: first the faces
/// that do not see the point, then one face from each side of the rim to the
/// point, and none twice.
pub open spec fn absorbed(
    faces: Seq<Face>,
    vis: Seq<bool>,
    i: usize,
    out: Seq<Face>,
    kept: int,
) -> bool {
    &&& 0 <= kept <= out.len()
    &&& forall|e: int| 0 <= e < kept ==> stays(faces, vis, #[trigger] out[e])
    &&& forall|e: int|
        kept <= e < out.len() ==> (#[trigger] out[e]).c == i && rim(
            faces,
            vis,
            out[e].a as int,
            out[e].b as int,
        )
    &&& forall|d: int| 0 <= d < faces.len() && !vis[d] ==> has_face(out, #[trigger] faces[d])
    &&& forall|u: usize, v: usize| #[trigger]
        rim(faces, vis, u as int, v as int) ==> has_face(out, Face { a: u, b: v, c: i })
    &&& forall|e1: int, e2: int|
        0 <= e1 < e2 < out.len() ==> #[trigger] out[e1] != #[trigger] out[e2]
}

/// Some face sees the new point.
pub open spec fn some_marked(vis: Seq<bool>) -> bool {
    exists|g: int| 0 <= g < vis.len() && vis[g]
}

/// A point that some face sees is no corner of a face yet.
pub(crate) proof fn lemma_new_corner(points: Seq<Vec3>, seed: Seed, i: int, faces: Seq<Face>, vis: Seq<bool>)
    requires
        ready(points, seed, i, faces, vis),
        some_marked(vis),
    ensures
        forall|f: int| 0 <= f < faces.len() ==> !(#[trigger] faces[f]).has_corner(i),
{
    let g = choose|g: int| 0 <= g < vis.len() && vis[g];
    assert(sound(points, seed, i, faces[g]));
    assert forall|f: int| 0 <= f < faces.len() implies !(#[trigger] faces[f]).has_corner(i) by {
        if faces[f].has_corner(i) {
            assert(sound(points, seed, i, faces[f]));
            assert(seen(points.len() as int, seed, i, i));
            assert(side(points, faces[g], points[i]@) <= 0);
        }
    }
}

/// The corners of a side of the rim are corners of old faces, and differ.
proof fn lemma_rim_corners(faces: Seq<Face>, vis: Seq<bool>, u: int, v: int)
    requires
        all_proper(faces),
        rim(faces, vis, u, v),
    ensures
        u != v,
        exists|g: int|
            0 <= g < faces.len() && (#[trigger] faces[g]).has_corner(u) && faces[g].has_corner(v),
{
    let g = choose|g: int| 0 <= g < faces.len() && vis[g] && (#[trigger] faces[g]).has_edge(u, v);
    assert(proper(faces[g]));
    assert(faces[g].has_corner(u) && faces[g].has_corner(v));
}

/// The faces that absorbing leaves have three different corners each.
pub(crate) proof fn lemma_out_proper(
    points: Seq<Vec3>,
    seed: Seed,
    i: usize,
    faces: Seq<Face>,
    vis: Seq<bool>,
    out: Seq<Face>,
    kept: int,
)
    requires
        ready(points, seed, i as int, faces, vis),
        some_marked(vis),
        absorbed(faces, vis, i, out, kept),
    ensures
        all_proper(out),
{
    lemma_new_corner(points, seed, i as int, faces, vis);
    assert forall|e: int| 0 <= e < out.len() implies proper(#[trigger] out[e]) by {
        if e < kept {
            assert(stays(faces, vis, out[e]));
            let d = choose|d: int| 0 <= d < faces.len() && !vis[d] && #[trigger] faces[d] == out[e];
            assert(proper(faces[d]));
        } else {
            lemma_rim_corners(faces, vis, out[e].a as int, out[e].b as int);
        }
    }
}

/// Of the faces that absorbing leaves, no two run along the same side in
/// the same direction.
pub(crate) proof fn lemma_out_tight(
    points: Seq<Vec3>,
    seed: Seed,
    i: usize,
    faces: Seq<Face>,
    vis: Seq<bool>,
    out: Seq<Face>,
    kept: int,
)
    requires
        ready(points, seed, i as int, faces, vis),
        some_marked(vis),
        absorbed(faces, vis, i, out, kept),
    ensures
        tight(out),
{
    lemma_new_corner(points, seed, i as int, faces, vis);
    assert forall|e1: int, e2: int, u: int, v: int|
        0 <= e1 < out.len() && 0 <= e2 < out.len() && #[trigger] out[e1].has_edge(u, v)
            && #[trigger] out[e2].has_edge(u, v) implies e1 == e2 by {
        if e1 < kept && e2 < kept {
            assert(stays(faces, vis, out[e1]));
            assert(stays(faces, vis, out[e2]));
            let d1 = choose|d: int| 0 <= d < faces.len() && !vis[d] && #[trigger] faces[d] == out[e1];
            let d2 = choose|d: int| 0 <= d < faces.len() && !vis[d] && #[trigger] faces[d] == out[e2];
            assert(faces[d1].has_edge(u, v));
            assert(faces[d2].has_edge(u, v));
            assert(d1 == d2);
            if e1 < e2 {
                assert(out[e1] != out[e2]);
            }
            if e2 < e1 {
                assert(out[e2] != out[e1]);
            }
        } else if e1 < kept || e2 < kept {
            let (k, m) = if e1 < kept {
                (e1, e2)
            } else {
                (e2, e1)
            };
            assert(stays(faces, vis, out[k]));
            let d = choose|d: int| 0 <= d < faces.len() && !vis[d] && #[trigger] faces[d] == out[k];
            assert(faces[d].has_edge(u, v));
            assert(faces[d].has_corner(u) && faces[d].has_corner(v));
            assert(u != i && v != i);
            assert(out[m].a == u && out[m].b == v);
            let g = choose|g: int|
                0 <= g < faces.len() && vis[g] && (#[trigger] faces[g]).has_edge(u, v);
            assert(faces[g].has_edge(u, v));
            assert(g == d);
            assert(false);
        } else {
            let f1 = out[e1];
            let f2 = out[e2];
            lemma_rim_corners(faces, vis, f1.a as int, f1.b as int);
            lemma_rim_corners(faces, vis, f2.a as int, f2.b as int);
            assert(f1.a != i && f1.b != i && f2.a != i && f2.b != i);
            if f1.a == u && f1.b == v {
                assert(f2.a == u && f2.b == v);
            } else if f1.b == u {
                assert(v == i);
                assert(f2.b == u);
                lemma_rim_in_once(points, seed, i, faces, vis, f1.a, f2.a, f1.b);
            } else {
                assert(u == i && f1.a == v);
                assert(f2.a == v);
                lemma_rim_out_once(points, seed, i, faces, vis, f1.b, f2.b, f1.a);
            }
            assert(f1 == f2);
            if e1 < e2 {
                assert(out[e1] != out[e2]);
            }
            if e2 < e1 {
                assert(out[e2] != out[e1]);
            }
        }
    }
}

/// Along every side of the faces that absorbing leaves, one of them runs
/// the other way.
pub(crate) proof fn lemma_out_closed(
    points: Seq<Vec3>,
    seed: Seed,
    i: usize,
    faces: Seq<Face>,
    vis: Seq<bool>,
    out: Seq<Face>,
    kept: int,
)
    requires
        ready(points, seed, i as int, faces, vis),
        some_marked(vis),
        absorbed(faces, vis, i, out, kept),
    ensures
        closed(out),
{
    assert forall|e: int, u: int, v: int|
        0 <= e < out.len() && #[trigger] out[e].has_edge(u, v) implies paired(out, v, u) by {
        if e < kept {
            assert(stays(faces, vis, out[e]));
            let d = choose|d: int| 0 <= d < faces.len() && !vis[d] && #[trigger] faces[d] == out[e];
            assert(faces[d].has_edge(u, v));
            assert(paired(faces, v, u));
            let g = choose|g: int| 0 <= g < faces.len() && (#[trigger] faces[g]).has_edge(v, u);
            if vis[g] {
                assert(rim(faces, vis, v, u));
                lemma_made(faces, vis, i, out, kept, v, u);
            } else {
                assert(has_face(out, faces[g]));
                let e2 = choose|e2: int| 0 <= e2 < out.len() && #[trigger] out[e2] == faces[g];
                assert(out[e2].has_edge(v, u));
            }
        } else {
            let f = out[e];
            assert(rim(faces, vis, f.a as int, f.b as int));
            if f.a == u && f.b == v {
                let h = choose|h: int|
                    0 <= h < faces.len() && !vis[h] && (#[trigger] faces[h]).has_edge(v, u);
                assert(has_face(out, faces[h]));
                let e2 = choose|e2: int| 0 <= e2 < out.len() && #[trigger] out[e2] == faces[h];
                assert(out[e2].has_edge(v, u));
            } else if f.b == u && f.c == v {
                // the rim runs on from the corner u
                lemma_rim_continues(faces, vis, f.a as int, f.b as int);
                let w = choose|w: int| rim(faces, vis, f.b as int, w);
                lemma_made(faces, vis, i, out, kept, u, w);
                let e2 = choose|e2: int|
                    0 <= e2 < out.len() && (#[trigger] out[e2]).a == u && out[e2].b == w
                        && out[e2].c == i;
                assert(out[e2].has_edge(v, u));
            } else {
                // the rim has run into the corner v
                lemma_rim_begins(faces, vis, f.a as int, f.b as int);
                let w = choose|w: int| rim(faces, vis, w, f.a as int);
                lemma_made(faces, vis, i, out, kept, w, v);
                let e2 = choose|e2: int|
                    0 <= e2 < out.len() && (#[trigger] out[e2]).a == w && out[e2].b == v
                        && out[e2].c == i;
                assert(out[e2].has_edge(v, u));
            }
        }
    }
}

/// Each side of the rim has its face to the new point.
proof fn lemma_made(
    faces: Seq<Face>,
    vis: Seq<bool>,
    i: usize,
    out: Seq<Face>,
    kept: int,
    u: int,
    v: int,
)
    requires
        absorbed(faces, vis, i, out, kept),
        rim(faces, vis, u, v),
    ensures
        exists|e: int|
            0 <= e < out.len() && (#[trigger] out[e]).a == u && out[e].b == v && out[e].c == i,
        paired(out, u, v),
{
    let g = choose|g: int| 0 <= g < faces.len() && vis[g] && (#[trigger] faces[g]).has_edge(u, v);
    assert(faces[g].has_corner(u) && faces[g].has_corner(v));
    let uu: usize = if faces[g].a == u {
        faces[g].a
    } else if faces[g].b == u {
        faces[g].b
    } else {
        faces[g].c
    };
    let vv: usize = if faces[g].a == v {
        faces[g].a
    } else if faces[g].b == v {
        faces[g].b
    } else {
        faces[g].c
    };
    assert(rim(faces, vis, uu as int, vv as int));
    assert(has_face(out, Face { a: uu, b: vv, c: i }));
    let e = choose|e: int| 0 <= e < out.len() && #[trigger] out[e] == (Face { a: uu, b: vv, c: i });
    assert(out[e].a == u && out[e].b == v && out[e].c == i);
    assert(out[e].has_edge(u, v));
}

/// Where each corner of the faces `out` comes from: it is the new point or
/// a corner of an old face; and a corner of a new face other than the new
/// point is a corner of an old face that sees the new point.
proof fn lemma_out_corner(
    points: Seq<Vec3>,
    seed: Seed,
    i: usize,
    faces: Seq<Face>,
    vis: Seq<bool>,
    out: Seq<Face>,
    kept: int,
    e: int,
    c: int,
)
    requires
        ready(points, seed, i as int, faces, vis),
        absorbed(faces, vis, i, out, kept),
        0 <= e < out.len(),
        out[e].has_corner(c),
    ensures
        c == i || seen(points.len() as int, seed, i as int, c),
        c == i || exists|g: int| 0 <= g < faces.len() && (#[trigger] faces[g]).has_corner(c),
        e >= kept && c != i ==> exists|g: int|
            0 <= g < faces.len() && vis[g] && (#[trigger] faces[g]).has_corner(c),
{
    if e < kept {
        assert(stays(faces, vis, out[e]));
        let d = choose|d: int| 0 <= d < faces.len() && !vis[d] && #[trigger] faces[d] == out[e];
        assert(sound(points, seed, i as int, faces[d]));
        assert(faces[d].has_corner(c));
    } else if c != i {
        let f = out[e];
        assert(rim(faces, vis, f.a as int, f.b as int));
        let g = choose|g: int|
            0 <= g < faces.len() && vis[g] && (#[trigger] faces[g]).has_edge(f.a as int, f.b as int);
        assert(sound(points, seed, i as int, faces[g]));
        assert(faces[g].has_corner(c));
    }
}

/// Of the faces that absorbing leaves, no corner lies strictly inside a
/// side.
pub(crate) proof fn lemma_out_seamless(
    points: Seq<Vec3>,
    seed: Seed,
    i: usize,
    faces: Seq<Face>,
    vis: Seq<bool>,
    out: Seq<Face>,
    kept: int,
)
    requires
        ready(points, seed, i as int, faces, vis),
        some_marked(vis),
        absorbed(faces, vis, i, out, kept),
    ensures
        seamless(points, out),
{
    let n = points.len() as int;
    let p = points[i as int]@;
    let g0 = choose|g: int| 0 <= g < vis.len() && vis[g];
    assert(sound(points, seed, i as int, faces[g0]));
    assert forall|e1: int, e2: int, u: int, v: int, c: int|
        0 <= e1 < out.len() && 0 <= e2 < out.len() && #[trigger] out[e1].has_edge(u, v)
            && #[trigger] out[e2].has_corner(c) implies !inside(
        points[u]@,
        points[v]@,
        points[c]@,
    ) by {
        assert(out[e1].has_corner(u) && out[e1].has_corner(v));
        lemma_out_corner(points, seed, i, faces, vis, out, kept, e1, u);
        lemma_out_corner(points, seed, i, faces, vis, out, kept, e1, v);
        lemma_out_corner(points, seed, i, faces, vis, out, kept, e2, c);
        if inside(points[u]@, points[v]@, points[c]@) {
            if u != i && v != i {
                if c == i {
                    // the new point would be behind the face that sees it
                    let f0 = faces[g0];
                    assert(side(points, f0, points[u]@) <= 0);
                    assert(side(points, f0, points[v]@) <= 0);
                    lemma_inside_sides(
                        points[u]@,
                        points[v]@,
                        p,
                        points[f0.a as int]@,
                        points[f0.b as int]@,
                        points[f0.c as int]@,
                    );
                    assert(false);
                } else {
                    // an old side and an old corner
                    let gc = choose|g: int|
                        0 <= g < faces.len() && (#[trigger] faces[g]).has_corner(c);
                    if e1 < kept {
                        assert(stays(faces, vis, out[e1]));
                        let d = choose|d: int|
                            0 <= d < faces.len() && !vis[d] && #[trigger] faces[d] == out[e1];
                        assert(faces[d].has_edge(u, v));
                        assert(faces[gc].has_corner(c));
                        assert(false);
                    } else {
                        let f = out[e1];
                        assert(f.a == u && f.b == v);
                        let g = choose|g: int|
                            0 <= g < faces.len() && vis[g] && (#[trigger] faces[g]).has_edge(u, v);
                        assert(faces[g].has_edge(u, v));
                        assert(faces[gc].has_corner(c));
                        assert(false);
                    }
                }
            } else {
                // a side to the new point
                lemma_inside_not_end(points[u]@, points[v]@);
                assert(c != i);
                let w = if u == i {
                    v
                } else {
                    u
                };
                assert(w != i);
                assert(e1 >= kept) by {
                    if e1 < kept {
                        lemma_new_corner(points, seed, i as int, faces, vis);
                        assert(stays(faces, vis, out[e1]));
                        let d = choose|d: int|
                            0 <= d < faces.len() && !vis[d] && #[trigger] faces[d] == out[e1];
                        assert(faces[d].has_corner(i as int));
                    }
                }
                let g = choose|g: int|
                    0 <= g < faces.len() && vis[g] && (#[trigger] faces[g]).has_corner(w);
                let fg = faces[g];
                assert(sound(points, seed, i as int, fg));
                lemma_corner_in_plane(points, fg, w);
                assert(side(points, fg, points[c]@) <= 0);
                lemma_inside_sides(
                    points[u]@,
                    points[v]@,
                    points[c]@,
                    points[fg.a as int]@,
                    points[fg.b as int]@,
                    points[fg.c as int]@,
                );
                assert(false);
            }
        }
    }
}

/// The side from `u` to `v` is one of the first `s` sides of `f`.
pub open spec fn early(f: Face, s: int, u: int, v: int) -> bool {
    (s >= 1 && f.a == u && f.b == v) || (s >= 2 && f.b == u && f.c == v) || (s >= 3 && f.c == u
        && f.a == v)
}

/// The side from `u` to `v` has had its turn: it is a side of a face that
/// sees the new point and comes before the face `g`, or one of the first `s`
/// sides of the face `g`, which sees the new point too.
pub open spec fn done_edge(faces: Seq<Face>, vis: Seq<bool>, g: int, s: int, u: int, v: int) -> bool {
    exists|k: int|
        0 <= k < faces.len() && vis[k] && ((k < g && (#[trigger] faces[k]).has_edge(u, v)) || (k
            == g && early(faces[k], s, u, v)))
}

/// What holds of the faces `out` while the new faces are built, when the
/// sides before side `s` of face `g` have had their turn.
pub open spec fn building(
    faces: Seq<Face>,
    vis: Seq<bool>,
    i: usize,
    out: Seq<Face>,
    kept: int,
    g: int,
    s: int,
) -> bool {
    &&& 0 <= kept <= out.len()
    &&& forall|e: int| 0 <= e < kept ==> stays(faces, vis, #[trigger] out[e])
    &&& forall|e: int|
        kept <= e < out.len() ==> (#[trigger] out[e]).c == i && rim(
            faces,
            vis,
            out[e].a as int,
            out[e].b as int,
        ) && done_edge(faces, vis, g, s, out[e].a as int, out[e].b as int)
    &&& forall|d: int| 0 <= d < faces.len() && !vis[d] ==> has_face(out, #[trigger] faces[d])
    &&& forall|u: usize, v: usize| #[trigger]
        done_edge(faces, vis, g, s, u as int, v as int) && plain_edge(faces, vis, v as int, u as int)
            ==> has_face(out, Face { a: u, b: v, c: i })
    &&& forall|e1: int, e2: int|
        0 <= e1 < e2 < out.len() ==> #[trigger] out[e1] != #[trigger] out[e2]
}

/// A face that is among `out` is among `out` with one more face.
proof fn lemma_has_face_push(out: Seq<Face>, f: Face, x: Face)
    requires
        has_face(out, x),
    ensures
        has_face(out.push(f), x),
{
    let e = choose|e: int| 0 <= e < out.len() && #[trigger] out[e] == x;
    assert(out.push(f)[e] == x);
}

/// Building goes on from one place to another where the same sides have
/// had their turn.
proof fn lemma_building_moves(
    faces: Seq<Face>,
    vis: Seq<bool>,
    i: usize,
    out: Seq<Face>,
    kept: int,
    g: int,
    s: int,
    g2: int,
    s2: int,
)
    requires
        building(faces, vis, i, out, kept, g, s),
        forall|u: int, v: int| #[trigger]
            done_edge(faces, vis, g2, s2, u, v) == done_edge(faces, vis, g, s, u, v),
    ensures
        building(faces, vis, i, out, kept, g2, s2),
{
    assert forall|e: int| kept <= e < out.len() implies (#[trigger] out[e]).c == i && rim(
        faces,
        vis,
        out[e].a as int,
        out[e].b as int,
    ) && done_edge(faces, vis, g2, s2, out[e].a as int, out[e].b as int) by {
        assert(done_edge(faces, vis, g, s, out[e].a as int, out[e].b as int));
    }
    assert forall|u: usize, v: usize| #[trigger]
        done_edge(faces, vis, g2, s2, u as int, v as int) && plain_edge(
            faces,
            vis,
            v as int,
            u as int,
        ) implies has_face(out, Face { a: u, b: v, c: i }) by {
        assert(done_edge(faces, vis, g, s, u as int, v as int));
    }
}

/// After the last side of a face that sees the new point comes the first
/// side of the next face.
pub(crate) proof fn lemma_next_face(
    faces: Seq<Face>,
    vis: Seq<bool>,
    i: usize,
    out: Seq<Face>,
    kept: int,
    g: int,
)
    requires
        0 <= g < faces.len(),
        vis.len() == faces.len(),
        vis[g] ==> building(faces, vis, i, out, kept, g, 3),
        !vis[g] ==> building(faces, vis, i, out, kept, g, 0),
    ensures
        building(faces, vis, i, out, kept, g + 1, 0),
{
    let s = if vis[g] {
        3int
    } else {
        0int
    };
    assert forall|u: int, v: int| #[trigger]
        done_edge(faces, vis, g + 1, 0, u, v) == done_edge(faces, vis, g, s, u, v) by {
        if done_edge(faces, vis, g + 1, 0, u, v) {
            let k = choose|k: int|
                0 <= k < faces.len() && vis[k] && ((k < g + 1 && (#[trigger] faces[k]).has_edge(
                    u,
                    v,
                )) || (k == g + 1 && early(faces[k], 0, u, v)));
            assert(faces[k].has_edge(u, v));
            assert(done_edge(faces, vis, g, s, u, v));
        }
        if done_edge(faces, vis, g, s, u, v) {
            let k = choose|k: int|
                0 <= k < faces.len() && vis[k] && ((k < g && (#[trigger] faces[k]).has_edge(u, v))
                    || (k == g && early(faces[k], s, u, v)));
            assert(faces[k].has_edge(u, v));
            assert(done_edge(faces, vis, g + 1, 0, u, v));
        }
    }
    lemma_building_moves(faces, vis, i, out, kept, g, s, g + 1, 0);
}

/// A side that no face without a mark runs back along gets no new face.
pub(crate) proof fn lemma_step_skip(
    faces: Seq<Face>,
    vis: Seq<bool>,
    i: usize,
    out: Seq<Face>,
    kept: int,
    g: int,
    s: int,
)
    requires
        0 <= g < faces.len(),
        vis.len() == faces.len(),
        vis[g],
        0 <= s < 3,
        building(faces, vis, i, out, kept, g, s),
        !plain_edge(
            faces,
            vis,
            faces[g].rotated(s).b as int,
            faces[g].rotated(s).a as int,
        ),
    ensures
        building(faces, vis, i, out, kept, g, s + 1),
{
    let r = faces[g].rotated(s);
    assert forall|e: int| kept <= e < out.len() implies (#[trigger] out[e]).c == i && rim(
        faces,
        vis,
        out[e].a as int,
        out[e].b as int,
    ) && done_edge(faces, vis, g, s + 1, out[e].a as int, out[e].b as int) by {
        lemma_done_grows(faces, vis, g, s, out[e].a as int, out[e].b as int);
    }
    assert forall|u: usize, v: usize| #[trigger]
        done_edge(faces, vis, g, s + 1, u as int, v as int) && plain_edge(
            faces,
            vis,
            v as int,
            u as int,
        ) implies has_face(out, Face { a: u, b: v, c: i }) by {
        lemma_done_grows(faces, vis, g, s, u as int, v as int);
        assert(done_edge(faces, vis, g, s, u as int, v as int));
    }
}

/// From one side of a face to the next, one more side has had its turn.
proof fn lemma_done_grows(faces: Seq<Face>, vis: Seq<bool>, g: int, s: int, u: int, v: int)
    requires
        0 <= g < faces.len(),
        vis.len() == faces.len(),
        vis[g],
        0 <= s < 3,
    ensures
        done_edge(faces, vis, g, s + 1, u, v) == (done_edge(faces, vis, g, s, u, v) || (faces[g]
            .rotated(s).a == u && faces[g].rotated(s).b == v)),
{
    if done_edge(faces, vis, g, s + 1, u, v) {
        let k = choose|k: int|
            0 <= k < faces.len() && vis[k] && ((k < g && (#[trigger] faces[k]).has_edge(u, v))
                || (k == g && early(faces[k], s + 1, u, v)));
        if !(faces[g].rotated(s).a == u && faces[g].rotated(s).b == v) {
            assert((k < g && faces[k].has_edge(u, v)) || (k == g && early(faces[k], s, u, v)));
            assert(done_edge(faces, vis, g, s, u, v));
        }
    }
    if done_edge(faces, vis, g, s, u, v) {
        let k = choose|k: int|
            0 <= k < faces.len() && vis[k] && ((k < g && (#[trigger] faces[k]).has_edge(u, v))
                || (k == g && early(faces[k], s, u, v)));
        assert((k < g && faces[k].has_edge(u, v)) || (k == g && early(faces[k], s + 1, u, v)));
        assert(done_edge(faces, vis, g, s + 1, u, v));
    }
    if faces[g].rotated(s).a == u && faces[g].rotated(s).b == v {
        assert(early(faces[g], s + 1, u, v));
        assert(done_edge(faces, vis, g, s + 1, u, v));
    }
}

/// A side of the rim gets its face to the new point.
pub(crate) proof fn lemma_step_push(
    points: Seq<Vec3>,
    seed: Seed,
    i: usize,
    faces: Seq<Face>,
    vis: Seq<bool>,
    out: Seq<Face>,
    kept: int,
    g: int,
    s: int,
)
    requires
        ready(points, seed, i as int, faces, vis),
        0 <= g < faces.len(),
        vis[g],
        0 <= s < 3,
        building(faces, vis, i, out, kept, g, s),
        plain_edge(faces, vis, faces[g].rotated(s).b as int, faces[g].rotated(s).a as int),
    ensures
        building(
            faces,
            vis,
            i,
            out.push(Face { a: faces[g].rotated(s).a, b: faces[g].rotated(s).b, c: i }),
            kept,
            g,
            s + 1,
        ),
{
    let r = faces[g].rotated(s);
    let nf = Face { a: r.a, b: r.b, c: i };
    let next = out.push(nf);
    assert(some_marked(vis));
    lemma_new_corner(points, seed, i as int, faces, vis);
    assert(faces[g].has_edge(r.a as int, r.b as int));
    assert(marked_edge(faces, vis, r.a as int, r.b as int));
    assert(rim(faces, vis, r.a as int, r.b as int));
    assert(proper(faces[g]));
    assert forall|e: int| 0 <= e < kept implies stays(faces, vis, #[trigger] next[e]) by {
        assert(next[e] == out[e]);
    }
    assert forall|e: int| kept <= e < next.len() implies (#[trigger] next[e]).c == i && rim(
        faces,
        vis,
        next[e].a as int,
        next[e].b as int,
    ) && done_edge(faces, vis, g, s + 1, next[e].a as int, next[e].b as int) by {
        lemma_done_grows(faces, vis, g, s, next[e].a as int, next[e].b as int);
        if e < out.len() {
            assert(next[e] == out[e]);
        }
    }
    assert forall|d: int| 0 <= d < faces.len() && !vis[d] implies has_face(
        next,
        #[trigger] faces[d],
    ) by {
        lemma_has_face_push(out, nf, faces[d]);
    }
    assert forall|u: usize, v: usize| #[trigger]
        done_edge(faces, vis, g, s + 1, u as int, v as int) && plain_edge(
            faces,
            vis,
            v as int,
            u as int,
        ) implies has_face(next, Face { a: u, b: v, c: i }) by {
        lemma_done_grows(faces, vis, g, s, u as int, v as int);
        if done_edge(faces, vis, g, s, u as int, v as int) {
            lemma_has_face_push(out, nf, Face { a: u, b: v, c: i });
        } else {
            assert(next[out.len() as int] == nf);
            assert(nf == Face { a: u, b: v, c: i });
        }
    }
    assert forall|e1: int, e2: int| 0 <= e1 < e2 < next.len() implies #[trigger] next[e1]
        != #[trigger] next[e2] by {
        assert(next[e1] == out[e1]);
        if e2 < out.len() {
            assert(next[e2] == out[e2]);
        } else {
            if out[e1] == nf {
                if e1 < kept {
                    assert(stays(faces, vis, out[e1]));
                    let d = choose|d: int|
                        0 <= d < faces.len() && !vis[d] && #[trigger] faces[d] == out[e1];
                    assert(faces[d].has_corner(i as int));
                    assert(false);
                } else {
                    assert(done_edge(faces, vis, g, s, r.a as int, r.b as int));
                    let k = choose|k: int|
                        0 <= k < faces.len() && vis[k] && ((k < g && (#[trigger] faces[k]).has_edge(
                            r.a as int,
                            r.b as int,
                        )) || (k == g && early(faces[k], s, r.a as int, r.b as int)));
                    if k < g {
                        assert(faces[k].has_edge(r.a as int, r.b as int));
                        assert(k == g);
                    }
                    assert(false);
                }
            }
        }
    }
}

/// When every side has had its turn, the faces are as absorbing leaves
/// them.
pub(crate) proof fn lemma_built(faces: Seq<Face>, vis: Seq<bool>, i: usize, out: Seq<Face>, kept: int)
    requires
        vis.len() == faces.len(),
        building(faces, vis, i, out, kept, faces.len() as int, 0),
    ensures
        absorbed(faces, vis, i, out, kept),
{
    assert forall|u: usize, v: usize| #[trigger]
        rim(faces, vis, u as int, v as int) implies has_face(out, Face { a: u, b: v, c: i }) by {
        let k = choose|k: int|
            0 <= k < faces.len() && vis[k] && (#[trigger] faces[k]).has_edge(u as int, v as int);
        assert(faces[k].has_edge(u as int, v as int));
        assert(done_edge(faces, vis, faces.len() as int, 0, u as int, v as int));
    }
}

/// `f` is one of the first `k` faces and does not see the new point.
pub open spec fn taken(faces: Seq<Face>, vis: Seq<bool>, k: int, f: Face) -> bool {
    exists|d: int| 0 <= d < k && d < faces.len() && !vis[d] && #[trigger] faces[d] == f
}

/// What holds of the faces `out` while the faces that do not see the new
/// point are taken over, when the first `k` faces have had their turn.
pub open spec fn keeping(faces: Seq<Face>, vis: Seq<bool>, out: Seq<Face>, k: int) -> bool {
    &&& forall|e: int| 0 <= e < out.len() ==> taken(faces, vis, k, #[trigger] out[e])
    &&& forall|d: int| 0 <= d < k && d < faces.len() && !vis[d] ==> has_face(out, #[trigger] faces[d])
    &&& forall|e1: int, e2: int|
        0 <= e1 < e2 < out.len() ==> #[trigger] out[e1] != #[trigger] out[e2]
}

/// A face that sees the new point is not taken over.
pub(crate) proof fn lemma_keep_skip(faces: Seq<Face>, vis: Seq<bool>, out: Seq<Face>, k: int)
    requires
        0 <= k < faces.len(),
        vis.len() == faces.len(),
        keeping(faces, vis, out, k),
        vis[k],
    ensures
        keeping(faces, vis, out, k + 1),
{
    assert forall|e: int| 0 <= e < out.len() implies taken(faces, vis, k + 1, #[trigger] out[e]) by {
        assert(taken(faces, vis, k, out[e]));
        let d = choose|d: int| 0 <= d < k && d < faces.len() && !vis[d] && #[trigger] faces[d] == out[e];
        assert(0 <= d < k + 1 && faces[d] == out[e]);
    }
}

/// A face that does not see the new point is taken over.
pub(crate) proof fn lemma_keep_push(faces: Seq<Face>, vis: Seq<bool>, out: Seq<Face>, k: int)
    requires
        0 <= k < faces.len(),
        vis.len() == faces.len(),
        tight(faces),
        keeping(faces, vis, out, k),
        !vis[k],
    ensures
        keeping(faces, vis, out.push(faces[k]), k + 1),
{
    let next = out.push(faces[k]);
    assert forall|e: int| 0 <= e < next.len() implies taken(faces, vis, k + 1, #[trigger] next[e]) by {
        if e < out.len() {
            assert(next[e] == out[e]);
            assert(taken(faces, vis, k, out[e]));
            let d = choose|d: int|
                0 <= d < k && d < faces.len() && !vis[d] && #[trigger] faces[d] == out[e];
            assert(0 <= d < k + 1 && faces[d] == next[e]);
        } else {
            assert(faces[k] == next[e]);
        }
    }
    assert forall|d: int| 0 <= d < k + 1 && d < faces.len() && !vis[d] implies has_face(
        next,
        #[trigger] faces[d],
    ) by {
        if d < k {
            lemma_has_face_push(out, faces[k], faces[d]);
        } else {
            assert(next[out.len() as int] == faces[k]);
        }
    }
    assert forall|e1: int, e2: int| 0 <= e1 < e2 < next.len() implies #[trigger] next[e1]
        != #[trigger] next[e2] by {
        assert(next[e1] == out[e1]);
        if e2 < out.len() {
            assert(next[e2] == out[e2]);
        } else if out[e1] == faces[k] {
            assert(taken(faces, vis, k, out[e1]));
            let d = choose|d: int|
                0 <= d < k && d < faces.len() && !vis[d] && #[trigger] faces[d] == out[e1];
            assert(faces[d].has_edge(faces[k].a as int, faces[k].b as int));
            assert(faces[k].has_edge(faces[k].a as int, faces[k].b as int));
            assert(false);
        }
    }
}

/// Once the faces that do not see the new point are taken over, building
/// starts.
pub(crate) proof fn lemma_kept(faces: Seq<Face>, vis: Seq<bool>, i: usize, out: Seq<Face>)
    requires
        vis.len() == faces.len(),
        keeping(faces, vis, out, faces.len() as int),
    ensures
        building(faces, vis, i, out, out.len() as int, 0, 0),
{
    assert forall|e: int| 0 <= e < out.len() implies stays(faces, vis, #[trigger] out[e]) by {
        assert(taken(faces, vis, faces.len() as int, out[e]));
        let d = choose|d: int|
            0 <= d < faces.len() && d < faces.len() && !vis[d] && #[trigger] faces[d] == out[e];
        assert(faces[d] == out[e]);
    }
}

/// The sum of the orientations of `q` against the first `k` faces. For a
/// shell it is minus six times the volume that the faces enclose.
pub open spec fn behind_sum(points: Seq<Vec3>, faces: Seq<Face>, q: V3, k: int) -> int
    decreases k,
{
    if k <= 0 {
        0
    } else {
        behind_sum(points, faces, q, k - 1) + side(points, faces[k - 1], q)
    }
}

/// From `p` to `q` the orientation against a triangle changes by the
/// orientations of `q` against the three triangles from the sides to `p`.
proof fn lemma_face_step(a: V3, b: V3, c: V3, p: V3, q: V3)
    ensures
        orient(a, b, c, q) - orient(a, b, c, p) == orient(a, b, p, q) + orient(b, c, p, q)
            + orient(c, a, p, q),
{
    lemma_orient_expand(a, b, c, q);
    lemma_orient_expand(a, b, c, p);
    lemma_orient_expand(a, b, p, q);
    lemma_orient_expand(b, c, p, q);
    lemma_orient_expand(c, a, p, q);
    lemma_det_cycle(c, a, q);
    lemma_det_swap(a, c, q);
    lemma_det_cycle(c, a, p);
    lemma_det_swap(a, c, p);
    lemma_det_swap(c, a, q);
    lemma_det_swap(c, a, p);
}

/// The sum of the orientations of a point against the faces of a shell
/// does not depend on the point.
pub proof fn lemma_volume(points: Seq<Vec3>, faces: Seq<Face>, p: V3, q: V3)
    requires
        shell(faces),
    ensures
        behind_sum(points, faces, p, faces.len() as int) == behind_sum(
            points,
            faces,
            q,
            faces.len() as int,
        ),
{
    let w = |u: int, v: int| orient(points[u]@, points[v]@, p, q);
    assert forall|u: int, v: int| #[trigger] w(u, v) == -w(v, u) by {
        lemma_orient_permute(points[u]@, points[v]@, p, q);
    }
    lemma_weights_cancel(faces, w);
    lemma_volume_steps(points, faces, p, q, w, faces.len() as int);
}

proof fn lemma_volume_steps(
    points: Seq<Vec3>,
    faces: Seq<Face>,
    p: V3,
    q: V3,
    w: spec_fn(int, int) -> int,
    k: int,
)
    requires
        0 <= k <= faces.len(),
        forall|u: int, v: int| #[trigger] w(u, v) == orient(points[u]@, points[v]@, p, q),
    ensures
        behind_sum(points, faces, q, k) - behind_sum(points, faces, p, k) == weights(
            faces,
            w,
            3 * k,
        ),
    decreases k,
{
    if k > 0 {
        lemma_volume_steps(points, faces, p, q, w, k - 1);
        let f = faces[k - 1];
        let a = points[f.a as int]@;
        let b = points[f.b as int]@;
        let c = points[f.c as int]@;
        lemma_face_step(a, b, c, p, q);
        let m = 3 * (k - 1);
        assert(weights(faces, w, m + 1) == weights(faces, w, m) + weight(faces, w, m));
        assert(weights(faces, w, m + 2) == weights(faces, w, m + 1) + weight(faces, w, m + 1));
        assert(weights(faces, w, m + 3) == weights(faces, w, m + 2) + weight(faces, w, m + 2));
        assert(m / 3 == k - 1 && (m + 1) / 3 == k - 1 && (m + 2) / 3 == k - 1);
        assert(m % 3 == 0 && (m + 1) % 3 == 1 && (m + 2) % 3 == 2);
        assert(weight(faces, w, m) == w(f.a as int, f.b as int));
        assert(weight(faces, w, m + 1) == w(f.b as int, f.c as int));
        assert(weight(faces, w, m + 2) == w(f.c as int, f.a as int));
    }
}

proof fn lemma_sum_front(points: Seq<Vec3>, faces: Seq<Face>, q: V3, k: int)
    requires
        0 < k <= faces.len(),
        forall|g: int| 0 <= g < faces.len() ==> side(points, #[trigger] faces[g], q) > 0,
    ensures
        behind_sum(points, faces, q, k) > 0,
    decreases k,
{
    assert(side(points, faces[k - 1], q) > 0);
    if k > 1 {
        lemma_sum_front(points, faces, q, k - 1);
    } else {
        assert(behind_sum(points, faces, q, 0) == 0);
    }
}

proof fn lemma_sum_behind(points: Seq<Vec3>, faces: Seq<Face>, q: V3, k: int)
    requires
        0 <= k <= faces.len(),
        forall|g: int| 0 <= g < faces.len() ==> side(points, #[trigger] faces[g], q) <= 0,
    ensures
        behind_sum(points, faces, q, k) <= 0,
    decreases k,
{
    if k > 0 {
        assert(side(points, faces[k - 1], q) <= 0);
        lemma_sum_behind(points, faces, q, k - 1);
    }
}

/// No point is in front of all faces of a hull under construction.
pub(crate) proof fn lemma_some_hidden(
    points: Seq<Vec3>,
    seed: Seed,
    i: int,
    faces: Seq<Face>,
    vis: Seq<bool>,
)
    requires
        ready(points, seed, i, faces, vis),
        faces.len() > 0,
    ensures
        exists|d: int| 0 <= d < faces.len() && !vis[d],
{
    if forall|d: int| 0 <= d < faces.len() ==> vis[d] {
        let p = points[i]@;
        let t = points[seed.a]@;
        assert forall|g: int| 0 <= g < faces.len() implies side(points, #[trigger] faces[g], p)
            > 0 by {
            assert(vis[g]);
        }
        assert forall|g: int| 0 <= g < faces.len() implies side(points, #[trigger] faces[g], t)
            <= 0 by {
            assert(sound(points, seed, i, faces[g]));
            assert(seen(points.len() as int, seed, i, seed.a));
        }
        lemma_volume(points, faces, p, t);
        lemma_sum_front(points, faces, p, faces.len() as int);
        lemma_sum_behind(points, faces, t, faces.len() as int);
        assert(false);
    }
}

} // verus!
