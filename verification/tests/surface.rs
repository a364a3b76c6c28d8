use support_hull::cloud;
use support_hull::hull::{ConvexHull, Face};
use support_hull::mesh::{to_mesh, trimesh_to_mesh, TriMesh};
use support_hull::shape::{Segment, SupportShape, TaperedCapsule};
use support_hull::surface::{surface_mesh, SurfaceError};
use support_hull::vec3::{orientation, Vec3, ONE};

const HALF: i64 = ONE / 2;

fn length(v: &Vec3) -> f64 {
    ((v.x * v.x + v.y * v.y + v.z * v.z) as f64).sqrt() / ONE as f64
}

#[test]
fn ball_of_five_hundred_samples() {
    let ball = SupportShape::Ball { radius: HALF };
    let points = cloud::generate(&ball, 500).unwrap();
    let hull = ConvexHull::build(&points).unwrap();
    assert!(hull.vertices.len() <= 500);
    for v in &hull.vertices {
        assert!((length(v) - 0.5).abs() < 1e-4);
    }
    let origin = Vec3::new(0, 0, 0);
    for f in &hull.faces {
        let (a, b, c) = (hull.vertices[f.a], hull.vertices[f.b], hull.vertices[f.c]);
        assert!(orientation(&a, &b, &c, &origin) < 0);
        for p in &points {
            assert!(orientation(&a, &b, &c, p) <= 0);
        }
    }
    assert_eq!(hull.faces.len(), 2 * hull.vertices.len() - 4);
}

#[test]
fn box_of_five_hundred_samples() {
    let cuboid = SupportShape::Cuboid { half_extents: Vec3::new(HALF, HALF, HALF) };
    let points = cloud::generate(&cuboid, 500).unwrap();
    let hull = ConvexHull::build(&points).unwrap();
    assert_eq!(hull.vertices.len(), 8);
    assert_eq!(hull.faces.len(), 12);
    let mut corners = hull.vertices.clone();
    corners.sort_by_key(|p| (p.x, p.y, p.z));
    let mut expected = Vec::new();
    for x in [-HALF, HALF] {
        for y in [-HALF, HALF] {
            for z in [-HALF, HALF] {
                expected.push(Vec3::new(x, y, z));
            }
        }
    }
    assert_eq!(corners, expected);
}

#[test]
fn too_few_or_flat_points_give_no_hull() {
    let ball = SupportShape::Ball { radius: HALF };
    assert_eq!(surface_mesh(&ball, 0).err(), Some(SurfaceError::InvalidSampleCount));
    assert_eq!(surface_mesh(&ball, 1).err(), Some(SurfaceError::InvalidSampleCount));
    assert_eq!(surface_mesh(&ball, 2).err(), Some(SurfaceError::InsufficientPoints));
    assert_eq!(surface_mesh(&ball, 3).err(), Some(SurfaceError::InsufficientPoints));
    // a ball of radius zero is a single point
    let dot = SupportShape::Ball { radius: 0 };
    assert_eq!(surface_mesh(&dot, 100).err(), Some(SurfaceError::DegenerateInput));
    // a box without depth is a rectangle
    let sheet = SupportShape::Cuboid { half_extents: Vec3::new(HALF, HALF, 0) };
    assert_eq!(surface_mesh(&sheet, 100).err(), Some(SurfaceError::DegenerateInput));
    assert!(surface_mesh(&ball, 100).is_ok());
}

#[test]
fn mesh_of_a_tetrahedron() {
    let trimesh = TriMesh {
        vertices: vec![
            Vec3::new(0, 0, 0),
            Vec3::new(ONE, 0, 0),
            Vec3::new(0, ONE, 0),
            Vec3::new(0, 0, ONE),
        ],
        indices: vec![
            Face { a: 0, b: 2, c: 1 },
            Face { a: 0, b: 1, c: 3 },
            Face { a: 0, b: 3, c: 2 },
            Face { a: 1, b: 2, c: 3 },
        ],
    };
    let mesh = trimesh_to_mesh(&trimesh);
    assert_eq!(mesh.positions.len(), 12);
    assert_eq!(mesh.normals.len(), 12);
    assert_eq!(mesh.indices, (0..12).collect::<Vec<usize>>());
    assert_eq!(
        &mesh.positions[0..3],
        &[Vec3::new(0, 0, 0), Vec3::new(0, ONE, 0), Vec3::new(ONE, 0, 0)]
    );
    assert_eq!(&mesh.normals[0..3], &[Vec3::new(0, 0, -ONE); 3]);
    assert_eq!(&mesh.normals[3..6], &[Vec3::new(0, -ONE, 0); 3]);
    assert_eq!(&mesh.normals[6..9], &[Vec3::new(-ONE, 0, 0); 3]);
    assert_eq!(&mesh.normals[9..12], &[Vec3::new(605_395, 605_395, 605_395); 3]);
}

#[test]
fn mesh_of_a_flat_triangle_has_the_fallback_normal() {
    let trimesh = TriMesh {
        vertices: vec![Vec3::new(0, 0, 0), Vec3::new(5, 5, 5), Vec3::new(9, 9, 9)],
        indices: vec![Face { a: 0, b: 1, c: 2 }],
    };
    let mesh = trimesh_to_mesh(&trimesh);
    assert_eq!(mesh.normals, vec![Vec3::new(0, ONE, 0); 3]);
}

#[test]
fn mesh_of_no_triangles_is_empty() {
    let trimesh = TriMesh { vertices: vec![Vec3::new(1, 2, 3)], indices: Vec::new() };
    let mesh = trimesh_to_mesh(&trimesh);
    assert!(mesh.positions.is_empty() && mesh.normals.is_empty() && mesh.indices.is_empty());
}

#[test]
fn mesh_counts_agree_and_triangles_are_proper() {
    let shapes = [
        SupportShape::Ball { radius: HALF },
        SupportShape::Cuboid { half_extents: Vec3::new(HALF, HALF, HALF) },
        SupportShape::Capsule {
            segment: Segment { a: Vec3::new(0, HALF, 0), b: Vec3::new(0, -HALF, 0) },
            radius: HALF,
        },
        SupportShape::Cone { half_height: HALF, radius: HALF },
        SupportShape::Tapered {
            capsule: TaperedCapsule {
                radius_a: HALF,
                radius_b: 209_715,
                segment: Segment { a: Vec3::new(0, HALF, 0), b: Vec3::new(0, -HALF, 0) },
            },
        },
    ];
    for shape in &shapes {
        let mesh = surface_mesh(shape, 200).unwrap();
        assert_eq!(mesh.positions.len(), mesh.normals.len());
        assert_eq!(mesh.positions.len(), mesh.indices.len());
        assert_eq!(mesh.positions.len() % 3, 0);
        for (i, index) in mesh.indices.iter().enumerate() {
            assert_eq!(*index, i);
        }
        for t in 0..mesh.positions.len() / 3 {
            let (a, b, c) = (mesh.positions[3 * t], mesh.positions[3 * t + 1], mesh.positions[3 * t + 2]);
            let n = support_hull::vec3::edge_cross(&a, &b, &c);
            assert!(n != (0, 0, 0));
            let u = mesh.normals[3 * t];
            assert_eq!(u, mesh.normals[3 * t + 1]);
            assert_eq!(u, mesh.normals[3 * t + 2]);
            assert!((length(&u) - 1.0).abs() < 1e-5);
            // the unit normal points the way of the cross product
            assert!(n.0 * u.x as i128 + n.1 * u.y as i128 + n.2 * u.z as i128 > 0);
        }
    }
}

#[test]
fn mesh_repeats_the_hull_corner_by_corner() {
    let points = vec![
        Vec3::new(0, 0, 0),
        Vec3::new(ONE, 0, 0),
        Vec3::new(0, ONE, 0),
        Vec3::new(0, 0, ONE),
        Vec3::new(ONE, ONE, ONE),
    ];
    let hull = ConvexHull::build(&points).unwrap();
    let vertices = hull.vertices.clone();
    let faces = hull.faces.clone();
    let mesh = to_mesh(hull);
    assert_eq!(mesh.positions.len(), 3 * faces.len());
    for (f, face) in faces.iter().enumerate() {
        assert_eq!(mesh.positions[3 * f], vertices[face.a]);
        assert_eq!(mesh.positions[3 * f + 1], vertices[face.b]);
        assert_eq!(mesh.positions[3 * f + 2], vertices[face.c]);
    }
}
