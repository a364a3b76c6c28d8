use parry3d::math::{Point, Real, Vector};
use parry3d::shape::{Ball, Capsule, Cone, Cuboid, SupportMap};
use parry3d::transformation::convex_hull;
use support_hull::cloud;
use support_hull::hull::ConvexHull;
use support_hull::sampler;
use support_hull::shape::{Segment, SupportShape};
use support_hull::vec3::{Vec3, ONE};

const HALF: i64 = ONE / 2;

fn as_real(c: i64) -> Real {
    (c as f64 / ONE as f64) as Real
}

fn point(p: &Vec3) -> Point<Real> {
    Point::new(as_real(p.x), as_real(p.y), as_real(p.z))
}

fn close(a: &Point<Real>, b: &Point<Real>) -> bool {
    (a - b).norm() < 1e-4
}

/// Six times the volume inside a closed triangle mesh.
fn volume6(vertices: &[Point<Real>], faces: &[[u32; 3]]) -> f64 {
    let mut sum = 0.0f64;
    for f in faces {
        let a = vertices[f[0] as usize].coords.cast::<f64>();
        let b = vertices[f[1] as usize].coords.cast::<f64>();
        let c = vertices[f[2] as usize].coords.cast::<f64>();
        sum += a.dot(&b.cross(&c));
    }
    sum
}

fn directions() -> Vec<Vec3> {
    sampler::generate(200).unwrap()
}

#[test]
fn ball_support_agrees_with_parry() {
    let fixed = SupportShape::Ball { radius: HALF };
    let float = Ball::new(0.5);
    for d in directions() {
        let dir = Vector::new(as_real(d.x), as_real(d.y), as_real(d.z));
        assert!(close(&point(&fixed.support_point(&d)), &float.local_support_point(&dir)));
    }
}

#[test]
fn box_support_agrees_with_parry() {
    let fixed = SupportShape::Cuboid { half_extents: Vec3::new(HALF, ONE, HALF / 2) };
    let float = Cuboid::new(Vector::new(0.5, 1.0, 0.25));
    for d in directions() {
        let dir = Vector::new(as_real(d.x), as_real(d.y), as_real(d.z));
        assert!(close(&point(&fixed.support_point(&d)), &float.local_support_point(&dir)));
    }
}

#[test]
fn capsule_support_agrees_with_parry() {
    let fixed = SupportShape::Capsule {
        segment: Segment { a: Vec3::new(0, HALF, 0), b: Vec3::new(HALF, -HALF, 0) },
        radius: HALF / 2,
    };
    let float = Capsule::new(Point::new(0.0, 0.5, 0.0), Point::new(0.5, -0.5, 0.0), 0.25);
    for d in directions() {
        // where both ends lie equally far along the direction, either may be taken
        if (d.x * HALF - 2 * d.y * HALF).abs() < ONE {
            continue;
        }
        let dir = Vector::new(as_real(d.x), as_real(d.y), as_real(d.z));
        assert!(close(&point(&fixed.support_point(&d)), &float.local_support_point(&dir)));
    }
}

#[test]
fn cone_support_agrees_with_parry() {
    let fixed = SupportShape::Cone { half_height: HALF, radius: HALF / 2 };
    let float = Cone::new(0.5, 0.25);
    let mut compared = 0;
    for d in directions() {
        let dir = Vector::new(as_real(d.x), as_real(d.y), as_real(d.z));
        let ours = point(&fixed.support_point(&d));
        let theirs = float.local_support_point(&dir);
        // near the direction in which apex and rim lie equally far, either may be taken
        if (dir.dot(&ours.coords) - dir.dot(&theirs.coords)).abs() < 1e-4 && !close(&ours, &theirs) {
            continue;
        }
        assert!(close(&ours, &theirs));
        compared += 1;
    }
    assert!(compared > 150);
}

#[test]
fn box_hull_agrees_with_parry() {
    let cuboid = SupportShape::Cuboid { half_extents: Vec3::new(HALF, HALF, HALF) };
    let cloud = cloud::generate(&cuboid, 500).unwrap();
    let ours = ConvexHull::build(&cloud).unwrap();
    let floats: Vec<Point<Real>> = cloud.iter().map(point).collect();
    let (vertices, faces) = convex_hull(&floats);
    assert_eq!(ours.vertices.len(), vertices.len());
    assert_eq!(ours.faces.len(), faces.len());
    assert!((volume6(&vertices, &faces) - 6.0).abs() < 1e-3);
}

#[test]
fn ball_hull_agrees_with_parry() {
    let ball = SupportShape::Ball { radius: HALF };
    let cloud = cloud::generate(&ball, 500).unwrap();
    let ours = ConvexHull::build(&cloud).unwrap();
    let our_vertices: Vec<Point<Real>> = ours.vertices.iter().map(point).collect();
    let our_faces: Vec<[u32; 3]> =
        ours.faces.iter().map(|f| [f.a as u32, f.b as u32, f.c as u32]).collect();
    let floats: Vec<Point<Real>> = cloud.iter().map(point).collect();
    let (vertices, faces) = convex_hull(&floats);
    let ours6 = volume6(&our_vertices, &our_faces);
    let theirs6 = volume6(&vertices, &faces);
    assert!(ours6 > 0.0);
    assert!((ours6 - theirs6).abs() < 1e-3 * theirs6);
    // close to the volume of the ball itself
    let ball6 = 6.0 * 4.0 / 3.0 * std::f64::consts::PI * 0.125;
    assert!(ours6 < ball6 && ours6 > 0.95 * ball6);
}
