//! Convex hulls of lattice point clouds.
//!
//! The hull is built incrementally. It starts as a tetrahedron on four points
//! that span a volume. Then each point is absorbed in turn: if some faces see
//! it, that is, have it strictly in front of them, those faces go, and every
//! side that they shared with a face that stays gets a new face to the point.
//! Whether a face sees a point is decided by the sign of an exact determinant,
//! so points in a common plane or on a common line need no special care and
//! no tolerance.

use vstd::prelude::*;
use crate::arith::{lemma_dist, lemma_mul_zero};
use crate::determinant::{
    V3, orient, lemma_orient_permute, lemma_orient_corner, lemma_orient_repeat,
    lemma_horizon_face, lemma_hinge_bends, lemma_plane_orient, lemma_det_cycle, lemma_dot_linear,
    lemma_dot_commutes, lemma_orient_shuffled,
};
use crate::horizon::{
    ready, seamless, some_marked, building, keeping, lemma_keep_push, lemma_keep_skip, lemma_kept,
    lemma_step_push, lemma_step_skip, lemma_next_face, lemma_built, lemma_out_proper,
    lemma_out_tight, lemma_out_closed, lemma_out_seamless, lemma_some_hidden, has_face,
    behind_sum, lemma_volume,
};
use crate::incidence::{inside, lemma_inside_not_end, lemma_inside_flat};
use crate::shell::{shell, rim, plain_edge, all_proper, tight, closed, paired, proper};
use crate::vec3::{Vec3, all_in_range, orientation, edge_cross};

verus! {

/// A triangle, as three indices into a list of points. Its front is the side
/// from which the corners `a`, `b`, `c` appear counter-clockwise.
#[derive(Clone, Copy, Debug, PartialEq, Eq, Structural)]
pub struct Face {
    pub a: usize,
    pub b: usize,
    pub c: usize,
}

impl Face {
    /// All three corners are indices below `n`.
    pub open spec fn in_bounds(self, n: int) -> bool {
        self.a < n && self.b < n && self.c < n
    }

    /// `v` is one of the corners.
    pub open spec fn has_corner(self, v: int) -> bool {
        self.a == v || self.b == v || self.c == v
    }

    /// The triangle runs from `from` to `to` along one of its sides.
    pub open spec fn has_edge(self, from: int, to: int) -> bool {
        (self.a == from && self.b == to) || (self.b == from && self.c == to) || (self.c == from
            && self.a == to)
    }

    /// The corner that follows the side `from`-`to`.
    pub open spec fn opposite(self, from: int, to: int) -> int {
        if self.a == from && self.b == to {
            self.c as int
        } else if self.b == from && self.c == to {
            self.a as int
        } else {
            self.b as int
        }
    }

    /// The same triangle, starting at corner `k`.
    pub open spec fn rotated(self, k: int) -> Face {
        if k == 0 {
            self
        } else if k == 1 {
            Face { a: self.b, b: self.c, c: self.a }
        } else {
            Face { a: self.c, b: self.a, c: self.b }
        }
    }

    /// The same triangle, starting at corner `k`.
    pub fn turn(&self, k: usize) -> (r: Face)
        requires
            k < 3,
        ensures
            r == self.rotated(k as int),
    {
        if k == 0 {
            *self
        } else if k == 1 {
            Face { a: self.b, b: self.c, c: self.a }
        } else {
            Face { a: self.c, b: self.a, c: self.b }
        }
    }

    /// Whether the triangle runs from `from` to `to` along one of its sides.
    pub fn runs_along(&self, from: usize, to: usize) -> (r: bool)
        ensures
            r == self.has_edge(from as int, to as int),
    {
        (self.a == from && self.b == to) || (self.b == from && self.c == to) || (self.c == from
            && self.a == to)
    }
}

/// The orientation of `q` against the triangle `f` over `points`.
pub open spec fn side(points: Seq<Vec3>, f: Face, q: V3) -> int {
    orient(points[f.a as int]@, points[f.b as int]@, points[f.c as int]@, q)
}

/// No four of the points span a volume.
pub open spec fn flat(points: Seq<Vec3>) -> bool {
    forall|i: int, j: int, k: int, l: int|
        0 <= i < points.len() && 0 <= j < points.len() && 0 <= k < points.len() && 0 <= l
            < points.len() ==> #[trigger] orient(points[i]@, points[j]@, points[k]@, points[l]@)
            == 0
}

/// Why a point cloud has no convex hull.
#[derive(Clone, Copy, Debug, PartialEq, Eq, Structural)]
pub enum HullError {
    /// Fewer than four points were given.
    InsufficientPoints,
    /// All points lie in one plane.
    DegenerateInput,
}

/// A convex polyhedron: its corner points and its triangles, wound so that
/// their fronts face outward.
#[derive(Debug)]
pub struct ConvexHull {
    pub vertices: Vec<Vec3>,
    pub faces: Vec<Face>,
}

impl ConvexHull {
    /// The vertices are in range and the faces index into them.
    pub open spec fn wf(&self) -> bool {
        all_in_range(self.vertices@) && forall|f: int|
            0 <= f < self.faces.len() ==> (#[trigger] self.faces[f]).in_bounds(
                self.vertices.len() as int,
            )
    }

    /// `q` is in front of no face.
    pub open spec fn encloses(&self, q: V3) -> bool {
        forall|f: int|
            0 <= f < self.faces.len() ==> #[trigger] side(self.vertices@, self.faces[f], q) <= 0
    }

    /// Every vertex is in front of no face.
    pub open spec fn convex(&self) -> bool {
        forall|v: int| 0 <= v < self.vertices.len() ==> self.encloses(#[trigger] self.vertices[v]@)
    }

    /// Some face has the vertex `v` as a corner.
    pub open spec fn uses(&self, v: int) -> bool {
        used_in(self.faces@, v)
    }

    /// Every vertex is a corner of some face.
    pub open spec fn compact(&self) -> bool {
        forall|v: int| 0 <= v < self.vertices.len() ==> #[trigger] self.uses(v)
    }

    /// No two vertices are the same point.
    pub open spec fn distinct(&self) -> bool {
        forall|v: int, w: int|
            0 <= v < w < self.vertices.len() ==> #[trigger] self.vertices[v]@
                != #[trigger] self.vertices[w]@
    }

    /// One of `points` lies strictly behind the face `f`.
    pub open spec fn backed(&self, f: int, points: Seq<Vec3>) -> bool {
        exists|j: int|
            0 <= j < points.len() && #[trigger] side(self.vertices@, self.faces[f], points[j]@)
                < 0
    }

    /// The polyhedron is a hull of `points`: its vertices are among them,
    /// each once and each a corner of a face; its faces form a closed shell
    /// in which no corner lies inside a side; it encloses all the points; and
    /// behind each face lies one of them, strictly.
    pub open spec fn hull_of(&self, points: Seq<Vec3>) -> bool {
        &&& self.wf()
        &&& self.compact()
        &&& self.distinct()
        &&& self.faces.len() > 0
        &&& shell(self.faces@)
        &&& seamless(self.vertices@, self.faces@)
        &&& forall|v: int|
            0 <= v < self.vertices.len() ==> among(points, #[trigger] self.vertices[v])
        &&& forall|j: int| 0 <= j < points.len() ==> self.encloses(#[trigger] points[j]@)
        &&& forall|f: int| 0 <= f < self.faces.len() ==> #[trigger] self.backed(f, points)
    }
}

/// Some face of `faces` has `v` as a corner.
pub open spec fn used_in(faces: Seq<Face>, v: int) -> bool {
    exists|f: int| 0 <= f < faces.len() && (#[trigger] faces[f]).has_corner(v)
}

/// `p` is one of `points`.
pub open spec fn among(points: Seq<Vec3>, p: Vec3) -> bool {
    exists|j: int| 0 <= j < points.len() && #[trigger] points[j] == p
}

/// The four points the construction starts from.
pub struct Seed {
    pub a: int,
    pub b: int,
    pub c: int,
    pub d: int,
}

/// `j` is a seed point or one of the first `done` points.
pub open spec fn seen(n: int, seed: Seed, done: int, j: int) -> bool {
    0 <= j < n && (j < done || j == seed.a || j == seed.b || j == seed.c || j == seed.d)
}

/// The seed points are among the `n` points.
pub open spec fn seed_ok(n: int, seed: Seed) -> bool {
    0 <= seed.a < n && 0 <= seed.b < n && 0 <= seed.c < n && 0 <= seed.d < n
}

/// What the construction keeps true of each face once the first `done`
/// points are absorbed: its corners are seen, no seen point is in front of
/// it, and a seed point is strictly behind it.
pub open spec fn sound(points: Seq<Vec3>, seed: Seed, done: int, f: Face) -> bool {
    &&& seen(points.len() as int, seed, done, f.a as int)
    &&& seen(points.len() as int, seed, done, f.b as int)
    &&& seen(points.len() as int, seed, done, f.c as int)
    &&& forall|j: int|
        seen(points.len() as int, seed, done, j) ==> #[trigger] side(points, f, points[j]@) <= 0
    &&& (side(points, f, points[seed.a]@) < 0 || side(points, f, points[seed.b]@) < 0 || side(
        points,
        f,
        points[seed.c]@,
    ) < 0 || side(points, f, points[seed.d]@) < 0)
}

/// Corners with different indices are different points, over all faces.
pub open spec fn corners_apart(points: Seq<Vec3>, faces: Seq<Face>) -> bool {
    forall|f: int, g: int, v: int, w: int|
        0 <= f < faces.len() && 0 <= g < faces.len() && #[trigger] faces[f].has_corner(v)
            && #[trigger] faces[g].has_corner(w) && v != w ==> points[v]@ != points[w]@
}

/// `f` is one of the faces that the new point does not see.
pub open spec fn stays(faces: Seq<Face>, vis: Seq<bool>, f: Face) -> bool {
    exists|d: int| 0 <= d < faces.len() && !vis[d] && #[trigger] faces[d] == f
}

/// The first two corners of `f` are corners of one face that the new point
/// sees.
pub open spec fn spans(faces: Seq<Face>, vis: Seq<bool>, f: Face) -> bool {
    exists|d: int|
        0 <= d < faces.len() && vis[d] && (#[trigger] faces[d]).has_corner(f.a as int)
            && faces[d].has_corner(f.b as int)
}

proof fn lemma_side_by_edge(points: Seq<Vec3>, g: Face, u: int, v: int, q: V3)
    requires
        g.has_edge(u, v),
    ensures
        side(points, g, q) == orient(points[u]@, points[v]@, points[g.opposite(u, v)]@, q),
{
    lemma_orient_permute(points[g.a as int]@, points[g.b as int]@, points[g.c as int]@, q);
}

proof fn lemma_keep(points: Seq<Vec3>, seed: Seed, i: int, f: Face)
    requires
        0 <= i < points.len(),
        sound(points, seed, i, f),
        side(points, f, points[i]@) <= 0,
    ensures
        sound(points, seed, i + 1, f),
{
    assert forall|j: int| seen(points.len() as int, seed, i + 1, j) implies #[trigger] side(
        points,
        f,
        points[j]@,
    ) <= 0 by {
        if j != i {
            assert(seen(points.len() as int, seed, i, j));
        }
    }
}

/// The face from a side of the rim to the new point is sound: `g` is the
/// face that sees the point and runs from `u` to `v`, `h` the face that does
/// not see it and runs back.
pub(crate) proof fn lemma_new_face(points: Seq<Vec3>, seed: Seed, i: usize, g: Face, h: Face, u: usize, v: usize)
    requires
        0 <= i < points.len(),
        seed_ok(points.len() as int, seed),
        sound(points, seed, i as int, g),
        sound(points, seed, i as int, h),
        side(points, g, points[i as int]@) > 0,
        side(points, h, points[i as int]@) <= 0,
        g.has_edge(u as int, v as int),
        h.has_edge(v as int, u as int),
    ensures
        sound(points, seed, i + 1, Face { a: u, b: v, c: i }),
{
    let n = points.len() as int;
    let nf = Face { a: u, b: v, c: i };
    let x = g.opposite(u as int, v as int);
    let w = h.opposite(v as int, u as int);
    let pu = points[u as int]@;
    let pv = points[v as int]@;
    let px = points[x]@;
    let pw = points[w]@;
    let p = points[i as int]@;
    assert(seen(n, seed, i as int, x));
    lemma_side_by_edge(points, g, u as int, v as int, p);
    lemma_side_by_edge(points, h, v as int, u as int, p);
    lemma_side_by_edge(points, h, v as int, u as int, px);
    assert(side(points, h, points[x]@) <= 0);
    // a seed point strictly behind the face that stays
    let t = if side(points, h, points[seed.a]@) < 0 {
        seed.a
    } else if side(points, h, points[seed.b]@) < 0 {
        seed.b
    } else if side(points, h, points[seed.c]@) < 0 {
        seed.c
    } else {
        seed.d
    };
    let pt = points[t]@;
    assert(seen(n, seed, i as int, t));
    assert(side(points, h, points[t]@) < 0);
    assert(side(points, g, points[t]@) <= 0);
    lemma_side_by_edge(points, g, u as int, v as int, pt);
    lemma_side_by_edge(points, h, v as int, u as int, pt);
    lemma_hinge_bends(pu, pv, pw, px, p, pt);
    lemma_horizon_face(pu, pv, pw, px, p, pt);
    assert(side(points, nf, points[t]@) < 0);
    assert forall|j: int| seen(n, seed, i + 1, j) implies #[trigger] side(points, nf, points[j]@)
        <= 0 by {
        let q = points[j]@;
        if j == i {
            lemma_orient_corner(pu, pv, p);
        } else {
            assert(seen(n, seed, i as int, j));
            assert(side(points, g, points[j]@) <= 0);
            assert(side(points, h, points[j]@) <= 0);
            lemma_side_by_edge(points, g, u as int, v as int, q);
            lemma_side_by_edge(points, h, v as int, u as int, q);
            lemma_horizon_face(pu, pv, pw, px, p, q);
        }
    }
}

/// The index of a face that `p` does not see and that runs from `from` to
/// `to`, if there is one.
fn find_hidden(faces: &Vec<Face>, vis: &Vec<bool>, from: usize, to: usize) -> (r: Option<usize>)
    requires
        vis.len() == faces.len(),
    ensures
        match r {
            Some(h) => h < faces.len() && !vis[h as int] && faces[h as int].has_edge(
                from as int,
                to as int,
            ),
            None => forall|h: int|
                0 <= h < faces.len() && !vis[h] ==> !(#[trigger] faces[h]).has_edge(
                    from as int,
                    to as int,
                ),
        },
{
    let mut h: usize = 0;
    while h < faces.len()
        invariant
            h <= faces.len(),
            vis.len() == faces.len(),
            forall|k: int|
                0 <= k < h && !vis[k] ==> !(#[trigger] faces[k]).has_edge(from as int, to as int),
        decreases faces.len() - h,
    {
        if !vis[h] && faces[h].runs_along(from, to) {
            return Some(h);
        }
        h = h + 1;
    }
    None
}

/// Takes the point `i` into the hull: the faces that see it go, and each side
/// they shared with a face that stays gets a new face to the point.
#[verifier::loop_isolation(false)]
fn absorb(points: &Vec<Vec3>, faces: Vec<Face>, i: usize, Ghost(seed): Ghost<Seed>) -> (out: Vec<
    Face,
>)
    requires
        all_in_range(points@),
        i < points.len(),
        seed_ok(points.len() as int, seed),
        forall|f: int| 0 <= f < faces.len() ==> sound(points@, seed, i as int, #[trigger] faces[f]),
        corners_apart(points@, faces@),
        shell(faces@),
        seamless(points@, faces@),
        faces.len() > 0,
    ensures
        forall|f: int| 0 <= f < out.len() ==> sound(points@, seed, i + 1, #[trigger] out[f]),
        corners_apart(points@, out@),
        shell(out@),
        seamless(points@, out@),
        out.len() > 0,
{
    let count = faces.len();
    let mut vis: Vec<bool> = Vec::new();
    let mut any = false;
    let ghost mut first: int = 0;
    let mut f: usize = 0;
    while f < count
        invariant
            f <= count,
            vis.len() == f,
            forall|g: int|
                0 <= g < f ==> vis[g] == (side(points@, #[trigger] faces[g], points[i as int]@)
                    > 0),
            !any ==> forall|g: int| 0 <= g < f ==> !vis[g],
            any ==> 0 <= first < f && vis[first],
        decreases count - f,
    {
        let fc = faces[f];
        assert(sound(points@, seed, i as int, faces[f as int]));
        let o = orientation(&points[fc.a], &points[fc.b], &points[fc.c], &points[i]);
        vis.push(o > 0);
        if o > 0 {
            any = true;
            proof {
                first = f as int;
            }
        }
        f = f + 1;
    }
    if !any {
        proof {
            assert forall|g: int| 0 <= g < faces.len() implies sound(
                points@,
                seed,
                i + 1,
                #[trigger] faces[g],
            ) by {
                lemma_keep(points@, seed, i as int, faces[g]);
            }
        }
        return faces;
    }
    assert(ready(points@, seed, i as int, faces@, vis@));
    assert(some_marked(vis@));
    let mut out: Vec<Face> = Vec::new();
    let mut k: usize = 0;
    while k < count
        invariant
            k <= count,
            forall|g: int| 0 <= g < out.len() ==> sound(points@, seed, i + 1, #[trigger] out[g]),
            keeping(faces@, vis@, out@, k as int),
        decreases count - k,
    {
        if !vis[k] {
            proof {
                lemma_keep(points@, seed, i as int, faces[k as int]);
                lemma_keep_push(faces@, vis@, out@, k as int);
            }
            out.push(faces[k]);
        } else {
            proof {
                lemma_keep_skip(faces@, vis@, out@, k as int);
            }
        }
        k = k + 1;
    }
    let ghost kept = out.len() as int;
    proof {
        lemma_kept(faces@, vis@, i, out@);
        lemma_some_hidden(points@, seed, i as int, faces@, vis@);
        let d = choose|d: int| 0 <= d < faces.len() && !vis[d];
        assert(has_face(out@, faces[d]));
        assert(kept > 0);
    }
    let mut g: usize = 0;
    while g < count
        invariant
            g <= count,
            kept > 0,
            forall|e: int| 0 <= e < out.len() ==> sound(points@, seed, i + 1, #[trigger] out[e]),
            building(faces@, vis@, i, out@, kept, g as int, 0),
        decreases count - g,
    {
        if vis[g] {
            let mut s: usize = 0;
            while s < 3
                invariant
                    s <= 3,
                    g < count,
                    vis[g as int],
                    forall|e: int|
                        0 <= e < out.len() ==> sound(points@, seed, i + 1, #[trigger] out[e]),
                    building(faces@, vis@, i, out@, kept, g as int, s as int),
                decreases 3 - s,
            {
                let r = faces[g].turn(s);
                match find_hidden(&faces, &vis, r.b, r.a) {
                    Some(h) => {
                        proof {
                            assert(faces[g as int].has_edge(r.a as int, r.b as int));
                            lemma_new_face(
                                points@,
                                seed,
                                i,
                                faces[g as int],
                                faces[h as int],
                                r.a,
                                r.b,
                            );
                            assert(plain_edge(faces@, vis@, r.b as int, r.a as int));
                            lemma_step_push(
                                points@,
                                seed,
                                i,
                                faces@,
                                vis@,
                                out@,
                                kept,
                                g as int,
                                s as int,
                            );
                        }
                        out.push(Face { a: r.a, b: r.b, c: i });
                    },
                    None => {
                        proof {
                            lemma_step_skip(faces@, vis@, i, out@, kept, g as int, s as int);
                        }
                    },
                }
                s = s + 1;
            }
        }
        proof {
            lemma_next_face(faces@, vis@, i, out@, kept, g as int);
        }
        g = g + 1;
    }
    proof {
        lemma_built(faces@, vis@, i, out@, kept);
        lemma_out_proper(points@, seed, i, faces@, vis@, out@, kept);
        lemma_out_tight(points@, seed, i, faces@, vis@, out@, kept);
        lemma_out_closed(points@, seed, i, faces@, vis@, out@, kept);
        lemma_out_seamless(points@, seed, i, faces@, vis@, out@, kept);
        assert forall|e: int| kept <= e < out.len() implies (#[trigger] out[e]).c == i && spans(
            faces@,
            vis@,
            out[e],
        ) by {
            assert(rim(faces@, vis@, out[e].a as int, out[e].b as int));
            let d = choose|d: int|
                0 <= d < faces.len() && vis[d] && (#[trigger] faces[d]).has_edge(
                    out[e].a as int,
                    out[e].b as int,
                );
            assert(faces[d].has_corner(out[e].a as int) && faces[d].has_corner(out[e].b as int));
        }
        lemma_corners_apart(points@, seed, i, faces@, vis@, out@, kept);
    }
    out
}

proof fn lemma_corners_apart(
    points: Seq<Vec3>,
    seed: Seed,
    i: usize,
    faces: Seq<Face>,
    vis: Seq<bool>,
    out: Seq<Face>,
    kept: int,
)
    requires
        0 <= i < points.len(),
        vis.len() == faces.len(),
        0 <= kept <= out.len(),
        corners_apart(points, faces),
        forall|f: int| 0 <= f < faces.len() ==> sound(points, seed, i as int, #[trigger] faces[f]),
        forall|g: int|
            0 <= g < faces.len() ==> vis[g] == (side(points, #[trigger] faces[g], points[i as int]@)
                > 0),
        forall|e: int| 0 <= e < kept ==> stays(faces, vis, #[trigger] out[e]),
        forall|e: int|
            kept <= e < out.len() ==> (#[trigger] out[e]).c == i && spans(faces, vis, out[e]),
        exists|d: int| 0 <= d < faces.len() && vis[d],
    ensures
        corners_apart(points, out),
{
    let n = points.len() as int;
    // the new point is in front of some face, so it is none of the seen points
    let dv = choose|d: int| 0 <= d < faces.len() && vis[d];
    assert(sound(points, seed, i as int, faces[dv]));
    assert(side(points, faces[dv], points[i as int]@) > 0);
    assert forall|j: int| seen(n, seed, i as int, j) && j != i implies points[j]@ != points[i as int]@ by {
        assert(side(points, faces[dv], points[j]@) <= 0);
    }
    // every corner of an old face is a seen point
    assert forall|f: int, g: int, v: int, w: int|
        0 <= f < out.len() && 0 <= g < out.len() && #[trigger] out[f].has_corner(v)
            && #[trigger] out[g].has_corner(w) && v != w implies points[v]@ != points[w]@ by {
        // each corner is the new point or a corner of an old face
        assert(f < kept ==> stays(faces, vis, out[f]));
        assert(f >= kept ==> spans(faces, vis, out[f]));
        assert(g < kept ==> stays(faces, vis, out[g]));
        assert(g >= kept ==> spans(faces, vis, out[g]));
        let fo = if f < kept {
            choose|d: int| 0 <= d < faces.len() && !vis[d] && #[trigger] faces[d] == out[f]
        } else {
            choose|d: int|
                0 <= d < faces.len() && vis[d] && (#[trigger] faces[d]).has_corner(out[f].a as int)
                    && faces[d].has_corner(out[f].b as int)
        };
        let go = if g < kept {
            choose|d: int| 0 <= d < faces.len() && !vis[d] && #[trigger] faces[d] == out[g]
        } else {
            choose|d: int|
                0 <= d < faces.len() && vis[d] && (#[trigger] faces[d]).has_corner(out[g].a as int)
                    && faces[d].has_corner(out[g].b as int)
        };
        assert(sound(points, seed, i as int, faces[fo]));
        assert(sound(points, seed, i as int, faces[go]));
        if v == i && f >= kept && out[f].c == v {
            // w is a seen point other than i
            if g < kept {
                assert(faces[go].has_corner(w));
            } else {
                assert(faces[go].has_corner(w));
            }
            assert(seen(n, seed, i as int, w));
        } else if w == i && g >= kept && out[g].c == w {
            assert(faces[fo].has_corner(v));
            assert(seen(n, seed, i as int, v));
        } else {
            assert(faces[fo].has_corner(v));
            assert(faces[go].has_corner(w));
        }
    }
}

fn differ(a: &Vec3, b: &Vec3) -> (r: bool)
    ensures
        r == (a@ != b@),
{
    a.x != b.x || a.y != b.y || a.z != b.z
}

/// The first point that is not the point 0.
fn find_second(points: &Vec<Vec3>) -> (r: Option<usize>)
    requires
        points.len() > 0,
    ensures
        match r {
            Some(j) => j < points.len() && points[j as int]@ != points[0]@,
            None => forall|j: int| 0 <= j < points.len() ==> (#[trigger] points[j])@ == points[0]@,
        },
{
    let mut j: usize = 0;
    while j < points.len()
        invariant
            j <= points.len(),
            points.len() > 0,
            forall|k: int| 0 <= k < j ==> (#[trigger] points[k])@ == points[0]@,
        decreases points.len() - j,
    {
        if differ(&points[j], &points[0]) {
            return Some(j);
        }
        j = j + 1;
    }
    None
}

/// The cross product of the vectors from point 0 to the points `i` and `j`.
pub open spec fn spread(points: Seq<Vec3>, i: int, j: int) -> V3 {
    points[i]@.minus(points[0]@).cross(points[j]@.minus(points[0]@))
}

/// The first point off the line through the points 0 and `i`.
fn find_third(points: &Vec<Vec3>, i: usize) -> (r: Option<usize>)
    requires
        all_in_range(points@),
        i < points.len(),
    ensures
        match r {
            Some(j) => j < points.len() && !spread(points@, i as int, j as int).is_zero(),
            None => forall|j: int|
                0 <= j < points.len() ==> (#[trigger] spread(points@, i as int, j)).is_zero(),
        },
{
    let mut j: usize = 0;
    while j < points.len()
        invariant
            j <= points.len(),
            i < points.len(),
            all_in_range(points@),
            forall|k: int| 0 <= k < j ==> (#[trigger] spread(points@, i as int, k)).is_zero(),
        decreases points.len() - j,
    {
        let n = edge_cross(&points[0], &points[i], &points[j]);
        if n.0 != 0 || n.1 != 0 || n.2 != 0 {
            return Some(j);
        }
        j = j + 1;
    }
    None
}

/// The first point off the plane through the points 0, `i` and `k`.
fn find_fourth(points: &Vec<Vec3>, i: usize, k: usize) -> (r: Option<usize>)
    requires
        all_in_range(points@),
        i < points.len(),
        k < points.len(),
    ensures
        match r {
            Some(j) => j < points.len() && orient(
                points[0]@,
                points[i as int]@,
                points[k as int]@,
                points[j as int]@,
            ) != 0,
            None => forall|j: int|
                0 <= j < points.len() ==> orient(
                    points[0]@,
                    points[i as int]@,
                    points[k as int]@,
                    (#[trigger] points[j])@,
                ) == 0,
        },
{
    let mut j: usize = 0;
    while j < points.len()
        invariant
            j <= points.len(),
            i < points.len(),
            k < points.len(),
            all_in_range(points@),
            forall|m: int|
                0 <= m < j ==> orient(
                    points[0]@,
                    points[i as int]@,
                    points[k as int]@,
                    (#[trigger] points[m])@,
                ) == 0,
        decreases points.len() - j,
    {
        if orientation(&points[0], &points[i], &points[k], &points[j]) != 0 {
            return Some(j);
        }
        j = j + 1;
    }
    None
}

proof fn lemma_flat_point(points: Seq<Vec3>)
    requires
        points.len() > 0,
        forall|j: int| 0 <= j < points.len() ==> (#[trigger] points[j])@ == points[0]@,
    ensures
        flat(points),
{
    assert forall|i: int, j: int, k: int, l: int|
        0 <= i < points.len() && 0 <= j < points.len() && 0 <= k < points.len() && 0 <= l
            < points.len() implies #[trigger] orient(
        points[i]@,
        points[j]@,
        points[k]@,
        points[l]@,
    ) == 0 by {
        lemma_orient_repeat(points[i]@, points[j]@, points[k]@, points[l]@);
    }
}

/// Points that all lie in one plane are flat. The plane is the one through
/// the point 0 with the nonzero normal `n`.
proof fn lemma_flat_normal(points: Seq<Vec3>, n: V3)
    requires
        points.len() > 0,
        !n.is_zero(),
        forall|j: int|
            0 <= j < points.len() ==> (#[trigger] points[j])@.minus(points[0]@).dot(n) == 0,
    ensures
        flat(points),
{
    assert forall|i: int, j: int, k: int, l: int|
        0 <= i < points.len() && 0 <= j < points.len() && 0 <= k < points.len() && 0 <= l
            < points.len() implies #[trigger] orient(
        points[i]@,
        points[j]@,
        points[k]@,
        points[l]@,
    ) == 0 by {
        lemma_plane_orient(n, points[0]@, points[i]@, points[j]@, points[k]@, points[l]@);
    }
}

proof fn lemma_twist(rx: int, ry: int, rz: int, ex: int, ey: int, ez: int)
    by (nonlinear_arith)
    ensures
        rx * (-ey) + ry * ex + rz * 0 == ex * ry - ey * rx,
        rx * 0 + ry * (-ez) + rz * ey == ey * rz - ez * ry,
        rx * ez + ry * 0 + rz * (-ex) == ez * rx - ex * rz,
{
}

proof fn lemma_flat_line(points: Seq<Vec3>, i: int)
    requires
        0 <= i < points.len(),
        points[i]@ != points[0]@,
        forall|j: int| 0 <= j < points.len() ==> (#[trigger] spread(points, i, j)).is_zero(),
    ensures
        flat(points),
{
    let e = points[i]@.minus(points[0]@);
    let n = if e.x != 0 {
        V3 { x: -e.y, y: e.x, z: 0 }
    } else if e.y != 0 {
        V3 { x: 0, y: -e.z, z: e.y }
    } else {
        V3 { x: e.z, y: 0, z: -e.x }
    };
    assert(!n.is_zero());
    assert forall|j: int| 0 <= j < points.len() implies (#[trigger] points[j])@.minus(
        points[0]@,
    ).dot(n) == 0 by {
        let r = points[j]@.minus(points[0]@);
        let c = e.cross(r);
        assert(c == spread(points, i, j));
        assert(c.is_zero());
        lemma_twist(r.x, r.y, r.z, e.x, e.y, e.z);
    }
    lemma_flat_normal(points, n);
}

proof fn lemma_flat_plane(points: Seq<Vec3>, i: int, k: int)
    requires
        0 <= i < points.len(),
        0 <= k < points.len(),
        !spread(points, i, k).is_zero(),
        forall|j: int|
            0 <= j < points.len() ==> orient(
                points[0]@,
                points[i]@,
                points[k]@,
                (#[trigger] points[j])@,
            ) == 0,
    ensures
        flat(points),
{
    let n = spread(points, i, k);
    assert forall|j: int| 0 <= j < points.len() implies (#[trigger] points[j])@.minus(
        points[0]@,
    ).dot(n) == 0 by {
        lemma_det_cycle(
            points[j]@.minus(points[0]@),
            points[i]@.minus(points[0]@),
            points[k]@.minus(points[0]@),
        );
    }
    lemma_flat_normal(points, n);
}

/// The four faces of the seed tetrahedron.
pub open spec fn seed_faces(a: usize, b: usize, c: usize, d: usize) -> Seq<Face> {
    seq![
        Face { a: a, b: b, c: c },
        Face { a: a, b: d, c: b },
        Face { a: b, b: d, c: c },
        Face { a: a, b: c, c: d },
    ]
}

proof fn lemma_seed_faces(points: Seq<Vec3>, a: usize, b: usize, c: usize, d: usize)
    requires
        a < points.len(),
        b < points.len(),
        c < points.len(),
        d < points.len(),
        orient(points[a as int]@, points[b as int]@, points[c as int]@, points[d as int]@) < 0,
    ensures
        forall|f: int|
            0 <= f < 4 ==> sound(
                points,
                Seed { a: a as int, b: b as int, c: c as int, d: d as int },
                0,
                #[trigger] seed_faces(a, b, c, d)[f],
            ),
        corners_apart(points, seed_faces(a, b, c, d)),
        shell(seed_faces(a, b, c, d)),
        seamless(points, seed_faces(a, b, c, d)),
{
    let seed = Seed { a: a as int, b: b as int, c: c as int, d: d as int };
    let pa = points[a as int]@;
    let pb = points[b as int]@;
    let pc = points[c as int]@;
    let pd = points[d as int]@;
    let fs = seed_faces(a, b, c, d);
    lemma_orient_permute(pa, pb, pc, pd);
    lemma_orient_corner(pa, pb, pc);
    lemma_orient_corner(pa, pd, pb);
    lemma_orient_corner(pb, pd, pc);
    lemma_orient_corner(pa, pc, pd);
    assert(sound(points, seed, 0, fs[0]));
    assert(sound(points, seed, 0, fs[1]));
    assert(sound(points, seed, 0, fs[2]));
    assert(sound(points, seed, 0, fs[3]));
    if pa == pb || pa == pc || pa == pd || pb == pc || pb == pd || pc == pd {
        lemma_orient_repeat(pa, pb, pc, pd);
    }
    assert(a != b && a != c && a != d && b != c && b != d && c != d);
    assert(all_proper(fs));
    assert(tight(fs)) by {
        assert forall|f: int, g: int, u: int, v: int|
            0 <= f < fs.len() && 0 <= g < fs.len() && #[trigger] fs[f].has_edge(u, v)
                && #[trigger] fs[g].has_edge(u, v) implies f == g by {
            assert(f == 0 || f == 1 || f == 2 || f == 3);
            assert(g == 0 || g == 1 || g == 2 || g == 3);
        }
    }
    assert(closed(fs)) by {
        assert forall|f: int, u: int, v: int|
            0 <= f < fs.len() && #[trigger] fs[f].has_edge(u, v) implies paired(fs, v, u) by {
            assert(f == 0 || f == 1 || f == 2 || f == 3);
            assert(fs[0].has_edge(a as int, b as int) && fs[0].has_edge(b as int, c as int)
                && fs[0].has_edge(c as int, a as int));
            assert(fs[1].has_edge(a as int, d as int) && fs[1].has_edge(d as int, b as int)
                && fs[1].has_edge(b as int, a as int));
            assert(fs[2].has_edge(b as int, d as int) && fs[2].has_edge(d as int, c as int)
                && fs[2].has_edge(c as int, b as int));
            assert(fs[3].has_edge(a as int, c as int) && fs[3].has_edge(c as int, d as int)
                && fs[3].has_edge(d as int, a as int));
        }
    }
    assert(seamless(points, fs)) by {
        assert forall|f: int, g: int, u: int, v: int, k: int|
            0 <= f < fs.len() && 0 <= g < fs.len() && #[trigger] fs[f].has_edge(u, v)
                && #[trigger] fs[g].has_corner(k) implies !inside(
            points[u]@,
            points[v]@,
            points[k]@,
        ) by {
            assert(f == 0 || f == 1 || f == 2 || f == 3);
            assert(g == 0 || g == 1 || g == 2 || g == 3);
            lemma_inside_not_end(points[u]@, points[v]@);
            if inside(points[u]@, points[v]@, points[k]@) {
                assert(k != u && k != v && u != v);
                let z = if u != a && v != a && k != a {
                    a
                } else if u != b && v != b && k != b {
                    b
                } else if u != c && v != c && k != c {
                    c
                } else {
                    d
                };
                lemma_inside_flat(points[u]@, points[v]@, points[k]@, points[z as int]@);
                lemma_orient_shuffled(
                    pa,
                    pb,
                    pc,
                    pd,
                    points[u]@,
                    points[v]@,
                    points[k]@,
                    points[z as int]@,
                );
                assert(false);
            }
        }
    }
}

/// The vertex list `vertices` holds, once each, the points that `slots`
/// marks as placed, and `origin` leads from each vertex back to its point.
pub open spec fn packed(
    points: Seq<Vec3>,
    slots: Seq<Option<usize>>,
    vertices: Seq<Vec3>,
    origin: Seq<int>,
) -> bool {
    &&& slots.len() == points.len()
    &&& origin.len() == vertices.len()
    &&& forall|i: int|
        0 <= i < slots.len() ==> ((#[trigger] slots[i]) matches Some(v) ==> v < vertices.len()
            && origin[v as int] == i)
    &&& forall|v: int|
        0 <= v < vertices.len() ==> 0 <= #[trigger] origin[v] < points.len() && (slots[origin[v]]
            matches Some(w) && w == v) && vertices[v] == points[origin[v]]
}

/// The vertex that stands for the point `i`, added if it is not there yet.
fn place(
    points: &Vec<Vec3>,
    slots: &mut Vec<Option<usize>>,
    vertices: &mut Vec<Vec3>,
    i: usize,
    Ghost(origin): Ghost<Seq<int>>,
) -> (r: (usize, Ghost<Seq<int>>))
    requires
        i < points.len(),
        packed(points@, old(slots)@, old(vertices)@, origin),
    ensures
        packed(points@, final(slots)@, final(vertices)@, r.1@),
        r.0 < final(vertices).len(),
        r.1@[r.0 as int] == i,
        origin.len() <= r.1@.len(),
        forall|v: int| 0 <= v < origin.len() ==> r.1@[v] == origin[v],
        final(vertices).len() == old(vertices).len() || (final(vertices).len() == old(
            vertices,
        ).len() + 1 && r.0 == old(vertices).len()),
{
    match slots[i] {
        Some(v) => (v, Ghost(origin)),
        None => {
            let v = vertices.len();
            vertices.push(points[i]);
            slots.set(i, Some(v));
            (v, Ghost(origin.push(i as int)))
        },
    }
}

/// There are no more vertices than points.
proof fn lemma_packed_count(
    points: Seq<Vec3>,
    slots: Seq<Option<usize>>,
    vertices: Seq<Vec3>,
    origin: Seq<int>,
)
    requires
        packed(points, slots, vertices, origin),
    ensures
        vertices.len() <= points.len(),
{
    // origin maps the vertices one-to-one into the points
    let dom = vstd::set_lib::set_int_range(0, origin.len() as int);
    let image = dom.map(|k: int| origin[k]);
    let all = vstd::set_lib::set_int_range(0, points.len() as int);
    vstd::set_lib::lemma_int_range(0, origin.len() as int);
    vstd::set_lib::lemma_int_range(0, points.len() as int);
    assert(image.subset_of(all)) by {
        assert forall|x: int| image.contains(x) implies all.contains(x) by {
            let k = choose|k: int| dom.contains(k) && origin[k] == x;
            assert(slots[origin[k]] is Some);
        }
    }
    assert(vstd::relations::injective_on(|k: int| origin[k], dom)) by {
        assert forall|x: int, y: int|
            dom.contains(x) && dom.contains(y) && origin[x] == origin[y] implies x == y by {
            assert(slots[origin[x]] is Some);
            assert(slots[origin[y]] is Some);
        }
    }
    vstd::set_lib::lemma_map_size(dom, image, |k: int| origin[k]);
    vstd::set_lib::lemma_len_subset(image, all);
}

/// `out` is `faces` with each corner renamed from a point to the vertex
/// that stands for it.
pub open spec fn renamed(faces: Seq<Face>, out: Seq<Face>, origin: Seq<int>) -> bool {
    &&& out.len() == faces.len()
    &&& forall|f: int|
        0 <= f < out.len() ==> (#[trigger] out[f]).in_bounds(origin.len() as int)
            && origin[out[f].a as int] == faces[f].a && origin[out[f].b as int] == faces[f].b
            && origin[out[f].c as int] == faces[f].c
}

/// Renaming the corners of a shell one to one leaves a shell.
proof fn lemma_renamed_shell(faces: Seq<Face>, out: Seq<Face>, origin: Seq<int>)
    requires
        renamed(faces, out, origin),
        forall|v: int, w: int|
            0 <= v < w < origin.len() ==> #[trigger] origin[v] != #[trigger] origin[w],
        shell(faces),
    ensures
        shell(out),
{
    assert forall|f: int, u: int, v: int| 0 <= f < out.len() && #[trigger] out[f].has_edge(
        u,
        v,
    ) implies faces[f].has_edge(origin[u], origin[v]) && 0 <= u < origin.len() && 0 <= v
        < origin.len() by {
        assert(out[f].in_bounds(origin.len() as int));
    }
    assert forall|f: int| 0 <= f < out.len() implies proper(#[trigger] out[f]) by {
        assert(out[f].in_bounds(origin.len() as int));
        assert(proper(faces[f]));
    }
    assert forall|f: int, g: int, u: int, v: int|
        0 <= f < out.len() && 0 <= g < out.len() && #[trigger] out[f].has_edge(u, v)
            && #[trigger] out[g].has_edge(u, v) implies f == g by {
        assert(faces[f].has_edge(origin[u], origin[v]));
        assert(faces[g].has_edge(origin[u], origin[v]));
    }
    assert forall|f: int, u: int, v: int|
        0 <= f < out.len() && #[trigger] out[f].has_edge(u, v) implies paired(out, v, u) by {
        assert(faces[f].has_edge(origin[u], origin[v]));
        assert(paired(faces, origin[v], origin[u]));
        let g = choose|g: int|
            0 <= g < faces.len() && (#[trigger] faces[g]).has_edge(origin[v], origin[u]);
        assert(out[g].in_bounds(origin.len() as int));
        let x = if faces[g].a == origin[v] && faces[g].b == origin[u] {
            (out[g].a, out[g].b)
        } else if faces[g].b == origin[v] && faces[g].c == origin[u] {
            (out[g].b, out[g].c)
        } else {
            (out[g].c, out[g].a)
        };
        assert(origin[x.0 as int] == origin[v]);
        assert(origin[x.1 as int] == origin[u]);
        assert(x.0 == v) by {
            if x.0 < v {
                assert(origin[x.0 as int] != origin[v]);
            }
            if v < x.0 {
                assert(origin[v] != origin[x.0 as int]);
            }
        }
        assert(x.1 == u) by {
            if x.1 < u {
                assert(origin[x.1 as int] != origin[u]);
            }
            if u < x.1 {
                assert(origin[u] != origin[x.1 as int]);
            }
        }
        assert(out[g].has_edge(v, u));
    }
}

/// Gathers the points that the faces use into a vertex list of their own.
#[verifier::loop_isolation(false)]
fn pack(points: &Vec<Vec3>, faces: &Vec<Face>) -> (r: (ConvexHull, Ghost<Seq<int>>))
    requires
        forall|f: int| 0 <= f < faces.len() ==> (#[trigger] faces[f]).in_bounds(points.len() as int),
    ensures
        r.1@.len() == r.0.vertices.len(),
        r.0.vertices.len() <= points.len(),
        forall|v: int|
            0 <= v < r.0.vertices.len() ==> 0 <= #[trigger] r.1@[v] < points.len()
                && r.0.vertices[v] == points[r.1@[v]],
        forall|v: int, w: int|
            0 <= v < w < r.0.vertices.len() ==> #[trigger] r.1@[v] != #[trigger] r.1@[w],
        renamed(faces@, r.0.faces@, r.1@),
        r.0.compact(),
        shell(faces@) ==> shell(r.0.faces@),
        seamless(points@, faces@) ==> seamless(r.0.vertices@, r.0.faces@),
{
    let mut slots: Vec<Option<usize>> = Vec::new();
    let mut k: usize = 0;
    while k < points.len()
        invariant
            k <= points.len(),
            slots.len() == k,
            forall|j: int| 0 <= j < k ==> (#[trigger] slots[j]) is None,
        decreases points.len() - k,
    {
        slots.push(None);
        k = k + 1;
    }
    let mut vertices: Vec<Vec3> = Vec::new();
    let mut out: Vec<Face> = Vec::new();
    let ghost mut origin: Seq<int> = Seq::empty();
    let mut f: usize = 0;
    while f < faces.len()
        invariant
            f <= faces.len(),
            out.len() == f,
            packed(points@, slots@, vertices@, origin),
            forall|g: int|
                0 <= g < f ==> (#[trigger] out[g]).in_bounds(origin.len() as int)
                    && origin[out[g].a as int] == faces[g].a && origin[out[g].b as int]
                    == faces[g].b && origin[out[g].c as int] == faces[g].c,
            forall|v: int| 0 <= v < vertices.len() ==> #[trigger] used_in(out@, v),
        decreases faces.len() - f,
    {
        let fc = faces[f];
        let ghost before = out@;
        let ghost len0 = vertices.len();
        let (a, oa) = place(points, &mut slots, &mut vertices, fc.a, Ghost(origin));
        let (b, ob) = place(points, &mut slots, &mut vertices, fc.b, oa);
        let (c, oc) = place(points, &mut slots, &mut vertices, fc.c, ob);
        proof {
            origin = oc@;
        }
        out.push(Face { a, b, c });
        proof {
            assert forall|v: int| 0 <= v < vertices.len() implies #[trigger] used_in(out@, v) by {
                if v < len0 {
                    assert(used_in(before, v));
                    let g = choose|g: int| 0 <= g < before.len() && (#[trigger] before[g]).has_corner(v);
                    assert(out@[g] == before[g]);
                } else {
                    assert(out@[f as int].has_corner(v));
                }
            }
        }
        f = f + 1;
    }
    proof {
        lemma_packed_count(points@, slots@, vertices@, origin);
        assert forall|v: int, w: int| 0 <= v < w < vertices.len() implies #[trigger] origin[v]
            != #[trigger] origin[w] by {
            assert(slots[origin[v]] is Some);
            assert(slots[origin[w]] is Some);
        }
        if shell(faces@) {
            lemma_renamed_shell(faces@, out@, origin);
        }
        if seamless(points@, faces@) {
            assert forall|f: int, g: int, u: int, v: int, c: int|
                0 <= f < out.len() && 0 <= g < out.len() && #[trigger] out[f].has_edge(u, v)
                    && #[trigger] out[g].has_corner(c) implies !inside(
                vertices[u]@,
                vertices[v]@,
                vertices[c]@,
            ) by {
                assert(out[f].in_bounds(origin.len() as int));
                assert(out[g].in_bounds(origin.len() as int));
                assert(faces[f].has_edge(origin[u], origin[v]));
                assert(faces[g].has_corner(origin[c]));
            }
        }
    }
    (ConvexHull { vertices, faces: out }, Ghost(origin))
}

impl ConvexHull {
    /// The convex hull of `points`.
    ///
    /// Fails with `InsufficientPoints` on fewer than four points, and with
    /// `DegenerateInput` on four or more that all lie in one plane. Otherwise
    /// the result is a hull of the points: its vertices are input points, each
    /// once; no input point is in front of a face; each face has an input
    /// point strictly behind it, so that it is a proper triangle that faces
    /// outward; and the faces close up, each side shared by exactly two faces
    /// that run along it in opposite directions.
    #[verifier::loop_isolation(false)]
    pub fn build(points: &Vec<Vec3>) -> (r: Result<ConvexHull, HullError>)
        requires
            all_in_range(points@),
        ensures
            (r matches Err(e) && e == HullError::InsufficientPoints) <==> points.len() < 4,
            (r matches Err(e) && e == HullError::DegenerateInput) <==> (points.len() >= 4 && flat(
                points@,
            )),
            r matches Ok(h) ==> h.hull_of(points@) && h.vertices.len() <= points.len(),
    {
        if points.len() < 4 {
            return Err(HullError::InsufficientPoints);
        }
        let i1 = match find_second(points) {
            Some(j) => j,
            None => {
                proof {
                    lemma_flat_point(points@);
                }
                return Err(HullError::DegenerateInput);
            },
        };
        let i2 = match find_third(points, i1) {
            Some(j) => j,
            None => {
                proof {
                    lemma_flat_line(points@, i1 as int);
                }
                return Err(HullError::DegenerateInput);
            },
        };
        let i3 = match find_fourth(points, i1, i2) {
            Some(j) => j,
            None => {
                proof {
                    lemma_flat_plane(points@, i1 as int, i2 as int);
                }
                return Err(HullError::DegenerateInput);
            },
        };
        assert(!flat(points@));
        let o = orientation(&points[0], &points[i1], &points[i2], &points[i3]);
        let (a, b) = if o < 0 {
            (0, i1)
        } else {
            (i1, 0)
        };
        let ghost seed = Seed { a: a as int, b: b as int, c: i2 as int, d: i3 as int };
        let mut faces: Vec<Face> = Vec::new();
        faces.push(Face { a: a, b: b, c: i2 });
        faces.push(Face { a: a, b: i3, c: b });
        faces.push(Face { a: b, b: i3, c: i2 });
        faces.push(Face { a: a, b: i2, c: i3 });
        proof {
            lemma_orient_permute(points[0]@, points[i1 as int]@, points[i2 as int]@, points[i3 as int]@);
            lemma_seed_faces(points@, a, b, i2, i3);
            assert(faces@ =~= seed_faces(a, b, i2, i3));
        }
        let mut i: usize = 0;
        while i < points.len()
            invariant
                i <= points.len(),
                forall|f: int|
                    0 <= f < faces.len() ==> sound(points@, seed, i as int, #[trigger] faces[f]),
                corners_apart(points@, faces@),
                shell(faces@),
                seamless(points@, faces@),
                faces.len() > 0,
            decreases points.len() - i,
        {
            faces = absorb(points, faces, i, Ghost(seed));
            i = i + 1;
        }
        let (hull, origin) = pack(points, &faces);
        proof {
            let n = points.len() as int;
            assert forall|f: int, q: V3| 0 <= f < hull.faces.len() implies #[trigger] side(
                hull.vertices@,
                hull.faces[f],
                q,
            ) == side(points@, faces[f], q) by {
                assert(hull.faces[f].in_bounds(origin@.len() as int));
            }
            assert forall|j: int| 0 <= j < points.len() implies hull.encloses(
                #[trigger] points[j]@,
            ) by {
                assert forall|f: int| 0 <= f < hull.faces.len() implies #[trigger] side(
                    hull.vertices@,
                    hull.faces[f],
                    points[j]@,
                ) <= 0 by {
                    assert(sound(points@, seed, n, faces[f]));
                    assert(seen(n, seed, n, j));
                    assert(side(points@, faces[f], points[j]@) <= 0);
                }
            }
            assert forall|f: int| 0 <= f < hull.faces.len() implies #[trigger] hull.backed(
                f,
                points@,
            ) by {
                assert(sound(points@, seed, n, faces[f]));
                let t = if side(points@, faces[f], points[seed.a]@) < 0 {
                    seed.a
                } else if side(points@, faces[f], points[seed.b]@) < 0 {
                    seed.b
                } else if side(points@, faces[f], points[seed.c]@) < 0 {
                    seed.c
                } else {
                    seed.d
                };
                assert(side(hull.vertices@, hull.faces[f], points[t]@) < 0);
            }
            assert forall|v: int| 0 <= v < hull.vertices.len() implies among(
                points@,
                #[trigger] hull.vertices[v],
            ) by {
                assert(points[origin@[v]] == hull.vertices[v]);
            }
            assert forall|v: int, w: int| 0 <= v < w < hull.vertices.len() implies #[trigger] hull.vertices[v]@
                != #[trigger] hull.vertices[w]@ by {
                assert(hull.uses(v));
                assert(hull.uses(w));
                let g = choose|g: int| 0 <= g < hull.faces.len() && (#[trigger] hull.faces[g]).has_corner(v);
                let h = choose|h: int| 0 <= h < hull.faces.len() && (#[trigger] hull.faces[h]).has_corner(w);
                assert(faces[g].has_corner(origin@[v]));
                assert(faces[h].has_corner(origin@[w]));
                assert(origin@[v] != origin@[w]);
            }
            assert(all_in_range(hull.vertices@)) by {
                assert forall|v: int| 0 <= v < hull.vertices.len() implies (#[trigger] hull.vertices[v]).in_range() by {
                    assert(points[origin@[v]] == hull.vertices[v]);
                }
            }
        }
        Ok(hull)
    }
}

/// The normal of the triangle `f` over `points`, not scaled: the cross
/// product of its first two edges.
pub open spec fn normal(points: Seq<Vec3>, f: Face) -> V3 {
    points[f.b as int]@.minus(points[f.a as int]@).cross(
        points[f.c as int]@.minus(points[f.a as int]@),
    )
}

/// The orientation of `q` against a triangle is the dot product of the
/// triangle's normal with the vector from its first corner to `q`.
pub proof fn lemma_side_is_dot(points: Seq<Vec3>, f: Face, q: V3)
    ensures
        side(points, f, q) == q.minus(points[f.a as int]@).dot(normal(points, f)),
{
    lemma_det_cycle(
        q.minus(points[f.a as int]@),
        points[f.b as int]@.minus(points[f.a as int]@),
        points[f.c as int]@.minus(points[f.a as int]@),
    );
}

/// A triangle that has a point strictly on one side has a normal, that is,
/// its corners are not on one line.
pub proof fn lemma_side_needs_normal(points: Seq<Vec3>, f: Face, q: V3)
    requires
        side(points, f, q) != 0,
    ensures
        !normal(points, f).is_zero(),
{
    lemma_side_is_dot(points, f, q);
    let r = q.minus(points[f.a as int]@);
    let n = normal(points, f);
    if n.is_zero() {
        lemma_mul_zero(r.x, n.x);
        lemma_mul_zero(r.y, n.y);
        lemma_mul_zero(r.z, n.z);
    }
}

/// The sum of the points.
pub open spec fn total(points: Seq<Vec3>) -> V3
    decreases points.len(),
{
    if points.len() == 0 {
        V3 { x: 0, y: 0, z: 0 }
    } else {
        total(points.drop_last()).plus(points.last()@)
    }
}

impl ConvexHull {
    /// No face has its three corners on one line.
    pub open spec fn solid(&self) -> bool {
        forall|f: int|
            0 <= f < self.faces.len() ==> !(#[trigger] normal(self.vertices@, self.faces[f]))
                .is_zero()
    }

    /// A hull of a point cloud is convex and solid.
    pub proof fn lemma_hull_is_convex(&self, points: Seq<Vec3>)
        requires
            self.hull_of(points),
        ensures
            self.convex(),
            self.solid(),
    {
        assert forall|v: int| 0 <= v < self.vertices.len() implies self.encloses(
            #[trigger] self.vertices[v]@,
        ) by {
            assert(among(points, self.vertices[v]));
            let j = choose|j: int| 0 <= j < points.len() && #[trigger] points[j] == self.vertices[v];
            assert(self.encloses(points[j]@));
        }
        assert forall|f: int| 0 <= f < self.faces.len() implies !(#[trigger] normal(
            self.vertices@,
            self.faces[f],
        )).is_zero() by {
            assert(self.backed(f, points));
            let j = choose|j: int|
                0 <= j < points.len() && #[trigger] side(self.vertices@, self.faces[f], points[j]@)
                    < 0;
            lemma_side_needs_normal(self.vertices@, self.faces[f], points[j]@);
        }
    }

    /// Every face of a convex hull is wound outward: its normal, dotted
    /// with the vector from the centroid of the vertices to any corner of the
    /// face, is not negative. With `m` vertices and `t` their sum, the centroid
    /// is `t / m`, and the statement is `m (n . p) - n . t >= 0` for each
    /// corner `p`.
    pub proof fn lemma_outward_winding(&self, f: int)
        requires
            self.wf(),
            self.convex(),
            0 <= f < self.faces.len(),
        ensures
            ({
                let n = normal(self.vertices@, self.faces[f]);
                let t = total(self.vertices@);
                let m = self.vertices.len() as int;
                &&& m * n.dot(self.vertices[self.faces[f].a as int]@) - n.dot(t) >= 0
                &&& m * n.dot(self.vertices[self.faces[f].b as int]@) - n.dot(t) >= 0
                &&& m * n.dot(self.vertices[self.faces[f].c as int]@) - n.dot(t) >= 0
            }),
    {
        let vs = self.vertices@;
        let face = self.faces[f];
        let n = normal(vs, face);
        let a = vs[face.a as int]@;
        let b = vs[face.b as int]@;
        let c = vs[face.c as int]@;
        assert(face.in_bounds(vs.len() as int));
        assert forall|v: int| 0 <= v < vs.len() implies side(vs, face, #[trigger] vs[v]@) <= 0 by {
            assert(self.encloses(vs[v]@));
        }
        lemma_sum_behind(vs, face, vs.len() as int);
        assert(vs.subrange(0, vs.len() as int) =~= vs);
        // the three corners lie in one plane across the normal
        lemma_side_is_dot(vs, face, b);
        lemma_side_is_dot(vs, face, c);
        lemma_orient_corner(a, b, c);
        lemma_dot_linear(b, a, 0, n);
        lemma_dot_linear(c, a, 0, n);
        lemma_dot_commutes(n, a);
        lemma_dot_commutes(n, b);
        lemma_dot_commutes(n, c);
        let m = vs.len() as int;
        assert(b.dot(n) == a.dot(n));
        assert(c.dot(n) == a.dot(n));
        assert(m * n.dot(b) == m * n.dot(a));
        assert(m * n.dot(c) == m * n.dot(a));
    }
}

/// With all points behind the triangle `f` or in its plane, the normal
/// dotted with the sum of the first `k` points is at most `k` times the
/// normal dotted with the first corner.
proof fn lemma_sum_behind(points: Seq<Vec3>, f: Face, k: int)
    requires
        0 <= k <= points.len(),
        f.in_bounds(points.len() as int),
        forall|v: int| 0 <= v < points.len() ==> side(points, f, #[trigger] points[v]@) <= 0,
    ensures
        k * normal(points, f).dot(points[f.a as int]@) - normal(points, f).dot(
            total(points.subrange(0, k)),
        ) >= 0,
    decreases k,
{
    let n = normal(points, f);
    let a = points[f.a as int]@;
    if k == 0 {
        assert(total(points.subrange(0, 0)) == V3 { x: 0, y: 0, z: 0 });
        assert(n.dot(V3 { x: 0, y: 0, z: 0 }) == 0) by (nonlinear_arith);
        assert(0 * n.dot(a) == 0);
    } else {
        lemma_sum_behind(points, f, k - 1);
        let head = points.subrange(0, k - 1);
        let full = points.subrange(0, k);
        assert(full.drop_last() =~= head);
        assert(full.last() == points[k - 1]);
        let q = points[k - 1]@;
        assert(total(full) == total(head).plus(q));
        lemma_dot_linear(total(head), q, 0, n);
        lemma_side_is_dot(points, f, q);
        lemma_dot_linear(q, a, 0, n);
        assert(side(points, f, q) <= 0);
        let s = total(head);
        lemma_dot_commutes(n, s.plus(q));
        lemma_dot_commutes(n, s);
        lemma_dot_commutes(n, a);
        lemma_dist(n.dot(a), k - 1, 1);
    }
}

impl ConvexHull {
    /// A hull encloses a volume: the orientations of any point against
    /// its faces sum to the same negative number, minus six times the volume.
    pub proof fn lemma_encloses_volume(&self, points: Seq<Vec3>, q: V3)
        requires
            self.hull_of(points),
        ensures
            behind_sum(self.vertices@, self.faces@, q, self.faces.len() as int) < 0,
    {
        let vs = self.vertices@;
        let fs = self.faces@;
        assert(self.backed(0, points));
        let j = choose|j: int| 0 <= j < points.len() && #[trigger] side(vs, fs[0], points[j]@) < 0;
        let t = points[j]@;
        assert(self.encloses(points[j]@));
        lemma_volume(vs, fs, q, t);
        lemma_sum_strictly_behind(vs, fs, t, fs.len() as int);
    }

    /// A hull has at least four faces.
    pub proof fn lemma_four_faces(&self, points: Seq<Vec3>)
        requires
            self.hull_of(points),
        ensures
            self.faces.len() >= 4,
    {
        let vs = self.vertices@;
        let fs = self.faces@;
        let f = fs[0];
        assert(proper(f));
        assert(f.has_edge(f.a as int, f.b as int));
        assert(f.has_edge(f.b as int, f.c as int));
        assert(f.has_edge(f.c as int, f.a as int));
        assert(paired(fs, f.b as int, f.a as int));
        assert(paired(fs, f.c as int, f.b as int));
        assert(paired(fs, f.a as int, f.c as int));
        let g1 = choose|g: int| 0 <= g < fs.len() && (#[trigger] fs[g]).has_edge(f.b as int, f.a as int);
        let g2 = choose|g: int| 0 <= g < fs.len() && (#[trigger] fs[g]).has_edge(f.c as int, f.b as int);
        let g3 = choose|g: int| 0 <= g < fs.len() && (#[trigger] fs[g]).has_edge(f.a as int, f.c as int);
        assert(proper(fs[g1]) && proper(fs[g2]) && proper(fs[g3]));
        // a face that runs back along two sides of f is f turned over,
        // and would have in front of it the point that f has behind it
        assert(self.backed(0, points));
        let j = choose|j: int| 0 <= j < points.len() && #[trigger] side(vs, f, points[j]@) < 0;
        let t = points[j]@;
        assert(self.encloses(points[j]@));
        lemma_orient_permute(vs[f.a as int]@, vs[f.b as int]@, vs[f.c as int]@, t);
        lemma_orient_permute(vs[f.b as int]@, vs[f.a as int]@, vs[f.c as int]@, t);
        assert(side(vs, fs[g1], t) <= 0);
        assert(side(vs, fs[g2], t) <= 0);
        assert(side(vs, fs[g3], t) <= 0);
        assert(g1 != 0 && g2 != 0 && g3 != 0);
        assert(g1 != g2);
        assert(g2 != g3);
        assert(g1 != g3);
    }
}

proof fn lemma_sum_strictly_behind(points: Seq<Vec3>, faces: Seq<Face>, q: V3, k: int)
    requires
        0 < k <= faces.len(),
        forall|g: int| 0 <= g < faces.len() ==> side(points, #[trigger] faces[g], q) <= 0,
        side(points, faces[0], q) < 0,
    ensures
        behind_sum(points, faces, q, k) < 0,
    decreases k,
{
    assert(side(points, faces[k - 1], q) <= 0);
    if k > 1 {
        lemma_sum_strictly_behind(points, faces, q, k - 1);
    } else {
        assert(behind_sum(points, faces, q, 0) == 0);
    }
}

} // verus!
