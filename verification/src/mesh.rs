//! Flat-shaded triangle meshes.

use vstd::prelude::*;
use crate::determinant::V3;
use crate::hull::{ConvexHull, Face, normal};
use crate::unit::{unit_of, unit_vector, near_unit, lemma_unit_length};
use crate::vec3::{Vec3, all_in_range, edge_cross};

verus! {

/// Triangles over a shared list of vertices.
#[derive(Debug)]
pub struct TriMesh {
    pub vertices: Vec<Vec3>,
    pub indices: Vec<Face>,
}

impl TriMesh {
    /// The vertices are in range and the triangles index into them.
    pub open spec fn wf(&self) -> bool {
        all_in_range(self.vertices@) && forall|f: int|
            0 <= f < self.indices.len() ==> (#[trigger] self.indices[f]).in_bounds(
                self.vertices.len() as int,
            )
    }
}

/// A mesh ready for drawing: every triangle has three positions of its own,
/// each with the triangle's normal, and the index buffer counts them off.
#[derive(Debug)]
pub struct Mesh {
    pub positions: Vec<Vec3>,
    pub normals: Vec<Vec3>,
    pub indices: Vec<usize>,
}

/// The normal of the triangle `f` over `points` at unit length; the fallback
/// axis if its corners lie on one line.
pub open spec fn unit_normal(points: Seq<Vec3>, f: Face) -> V3 {
    unit_of(normal(points, f))
}

impl Mesh {
    /// The number of triangles.
    pub open spec fn triangles(&self) -> int {
        self.indices.len() as int / 3
    }

    /// The mesh shows the triangles `faces` over `vertices` with flat
    /// shading: triangle `f` takes the positions `3 f`, `3 f + 1` and
    /// `3 f + 2`, which hold its corners in order and all carry its unit
    /// normal, and index `i` of the index buffer is `i`.
    pub open spec fn flat_shades(&self, vertices: Seq<Vec3>, faces: Seq<Face>) -> bool {
        &&& self.positions.len() == 3 * faces.len()
        &&& self.normals.len() == 3 * faces.len()
        &&& self.indices.len() == 3 * faces.len()
        &&& forall|i: int| 0 <= i < self.indices.len() ==> #[trigger] self.indices[i] == i
        &&& forall|f: int|
            0 <= f < faces.len() ==> {
                &&& self.positions[3 * f] == vertices[(#[trigger] faces[f]).a as int]
                &&& self.positions[3 * f + 1] == vertices[faces[f].b as int]
                &&& self.positions[3 * f + 2] == vertices[faces[f].c as int]
                &&& self.normals[3 * f]@ == unit_normal(vertices, faces[f])
                &&& self.normals[3 * f + 1]@ == unit_normal(vertices, faces[f])
                &&& self.normals[3 * f + 2]@ == unit_normal(vertices, faces[f])
            }
    }

    /// The triangle `t` of the mesh has its three corners on no line.
    pub open spec fn proper_triangle(&self, t: int) -> bool {
        !self.positions[3 * t + 1]@.minus(self.positions[3 * t]@).cross(
            self.positions[3 * t + 2]@.minus(self.positions[3 * t]@),
        ).is_zero()
    }

    /// The counts of a flat-shaded mesh agree: as many normals as positions,
    /// three of each per triangle; the three indices of a triangle differ;
    /// and every normal has unit length.
    pub proof fn lemma_counts(&self, vertices: Seq<Vec3>, faces: Seq<Face>)
        requires
            self.flat_shades(vertices, faces),
        ensures
            self.triangles() == faces.len(),
            self.positions.len() == self.normals.len(),
            self.positions.len() == 3 * self.triangles(),
            forall|t: int|
                0 <= t < self.triangles() ==> self.indices[3 * t] != self.indices[3 * t + 1]
                    && self.indices[3 * t + 1] != self.indices[3 * t + 2] && #[trigger] self.indices[3
                    * t] != self.indices[3 * t + 2],
            forall|i: int| 0 <= i < self.normals.len() ==> near_unit(#[trigger] self.normals[i]@),
    {
        assert forall|i: int| 0 <= i < self.normals.len() implies near_unit(
            #[trigger] self.normals[i]@,
        ) by {
            let f = i / 3;
            assert(0 <= f < faces.len());
            assert(i == 3 * f || i == 3 * f + 1 || i == 3 * f + 2);
            let face = faces[f];
            lemma_unit_length(normal(vertices, face));
        }
    }

    /// A flat-shaded mesh of a solid hull has no triangle with its corners
    /// on one line.
    pub proof fn lemma_proper_triangles(&self, hull: ConvexHull)
        requires
            self.flat_shades(hull.vertices@, hull.faces@),
            hull.solid(),
        ensures
            forall|t: int| 0 <= t < self.triangles() ==> #[trigger] self.proper_triangle(t),
    {
        assert forall|t: int| 0 <= t < self.triangles() implies #[trigger] self.proper_triangle(
            t,
        ) by {
            let face = hull.faces[t];
            assert(!normal(hull.vertices@, hull.faces[t]).is_zero());
        }
    }
}

/// The mesh that shows the triangles of `trimesh` with flat shading.
pub fn trimesh_to_mesh(trimesh: &TriMesh) -> (mesh: Mesh)
    requires
        trimesh.wf(),
    ensures
        mesh.flat_shades(trimesh.vertices@, trimesh.indices@),
{
    let mut positions: Vec<Vec3> = Vec::new();
    let mut normals: Vec<Vec3> = Vec::new();
    let mut indices: Vec<usize> = Vec::new();
    let mut f: usize = 0;
    while f < trimesh.indices.len()
        invariant
            f <= trimesh.indices.len(),
            trimesh.wf(),
            positions.len() == 3 * f,
            normals.len() == 3 * f,
            indices.len() == 3 * f,
            forall|i: int| 0 <= i < indices.len() ==> #[trigger] indices[i] == i,
            forall|g: int|
                0 <= g < f ==> {
                    &&& positions[3 * g] == trimesh.vertices[(#[trigger] trimesh.indices[g]).a as int]
                    &&& positions[3 * g + 1] == trimesh.vertices[trimesh.indices[g].b as int]
                    &&& positions[3 * g + 2] == trimesh.vertices[trimesh.indices[g].c as int]
                    &&& normals[3 * g]@ == unit_normal(trimesh.vertices@, trimesh.indices[g])
                    &&& normals[3 * g + 1]@ == unit_normal(trimesh.vertices@, trimesh.indices[g])
                    &&& normals[3 * g + 2]@ == unit_normal(trimesh.vertices@, trimesh.indices[g])
                },
        decreases trimesh.indices.len() - f,
    {
        let face = trimesh.indices[f];
        assert(trimesh.indices[f as int].in_bounds(trimesh.vertices.len() as int));
        let a = trimesh.vertices[face.a];
        let b = trimesh.vertices[face.b];
        let c = trimesh.vertices[face.c];
        let n = edge_cross(&a, &b, &c);
        let u = unit_vector(n.0, n.1, n.2);
        positions.push(a);
        positions.push(b);
        positions.push(c);
        normals.push(u);
        normals.push(u);
        normals.push(u);
        let top = positions.len();
        indices.push(top - 3);
        indices.push(top - 2);
        indices.push(top - 1);
        f = f + 1;
    }
    Mesh { positions, normals, indices }
}

/// The flat-shaded mesh of a convex hull.
pub fn to_mesh(hull: ConvexHull) -> (mesh: Mesh)
    requires
        hull.wf(),
    ensures
        mesh.flat_shades(hull.vertices@, hull.faces@),
{
    let trimesh = TriMesh { vertices: hull.vertices, indices: hull.faces };
    trimesh_to_mesh(&trimesh)
}

} // verus!
