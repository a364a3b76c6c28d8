use support_hull::hull::{ConvexHull, Face, HullError};
use support_hull::vec3::{check_in_range, orientation, Vec3, COORD_MAX};

fn cube_corners(h: i64) -> Vec<Vec3> {
    let mut v = Vec::new();
    for &x in &[-h, h] {
        for &y in &[-h, h] {
            for &z in &[-h, h] {
                v.push(Vec3::new(x, y, z));
            }
        }
    }
    v
}

/// A fixed sequence of scattered points, the same on every run.
fn scattered(count: usize, span: i64) -> Vec<Vec3> {
    let mut state: u64 = 0x2545_F491_4F6C_DD1D;
    let mut next = || {
        state ^= state << 13;
        state ^= state >> 7;
        state ^= state << 17;
        (state % (2 * span as u64 + 1)) as i64 - span
    };
    let mut v = Vec::new();
    for _ in 0..count {
        let x = next();
        let y = next();
        let z = next();
        v.push(Vec3::new(x, y, z));
    }
    v
}

fn corners(hull: &ConvexHull, f: &Face) -> (Vec3, Vec3, Vec3) {
    (hull.vertices[f.a], hull.vertices[f.b], hull.vertices[f.c])
}

/// Every side of every face is a side of exactly one other face, run the
/// other way.
fn is_closed(hull: &ConvexHull) -> bool {
    let mut edges = Vec::new();
    for f in &hull.faces {
        edges.push((f.a, f.b));
        edges.push((f.b, f.c));
        edges.push((f.c, f.a));
    }
    edges.iter().all(|&(u, v)| {
        edges.iter().filter(|&&e| e == (v, u)).count() == 1
            && edges.iter().filter(|&&e| e == (u, v)).count() == 1
    })
}

fn encloses_all(hull: &ConvexHull, points: &[Vec3]) -> bool {
    hull.faces.iter().all(|f| {
        let (a, b, c) = corners(hull, f);
        points.iter().all(|p| orientation(&a, &b, &c, p) <= 0)
    })
}

#[test]
fn fewer_than_four_points_is_insufficient() {
    let pts = vec![Vec3::new(0, 0, 0), Vec3::new(1, 0, 0), Vec3::new(0, 1, 0)];
    assert_eq!(ConvexHull::build(&pts).err(), Some(HullError::InsufficientPoints));
    assert_eq!(ConvexHull::build(&Vec::new()).err(), Some(HullError::InsufficientPoints));
}

#[test]
fn three_coplanar_points_are_insufficient_not_degenerate() {
    let pts = vec![Vec3::new(0, 0, 0), Vec3::new(0, 0, 0), Vec3::new(0, 0, 0)];
    assert_eq!(ConvexHull::build(&pts).err(), Some(HullError::InsufficientPoints));
}

#[test]
fn coplanar_points_are_degenerate() {
    let pts = vec![
        Vec3::new(0, 0, 5),
        Vec3::new(10, 0, 5),
        Vec3::new(0, 10, 5),
        Vec3::new(10, 10, 5),
        Vec3::new(3, 4, 5),
    ];
    assert_eq!(ConvexHull::build(&pts).err(), Some(HullError::DegenerateInput));
}

#[test]
fn collinear_points_are_degenerate() {
    let pts: Vec<Vec3> = (0..6).map(|i| Vec3::new(i, 2 * i, -3 * i)).collect();
    assert_eq!(ConvexHull::build(&pts).err(), Some(HullError::DegenerateInput));
}

#[test]
fn coincident_points_are_degenerate() {
    let pts = vec![Vec3::new(7, 7, 7); 5];
    assert_eq!(ConvexHull::build(&pts).err(), Some(HullError::DegenerateInput));
}

#[test]
fn tilted_plane_is_degenerate() {
    // x + y + z = 0
    let pts = vec![
        Vec3::new(1, -1, 0),
        Vec3::new(0, 1, -1),
        Vec3::new(-1, 0, 1),
        Vec3::new(2, -1, -1),
        Vec3::new(5, -2, -3),
    ];
    assert_eq!(ConvexHull::build(&pts).err(), Some(HullError::DegenerateInput));
}

#[test]
fn tetrahedron_is_its_own_hull() {
    let pts = vec![
        Vec3::new(0, 0, 0),
        Vec3::new(10, 0, 0),
        Vec3::new(0, 10, 0),
        Vec3::new(0, 0, 10),
    ];
    let hull = ConvexHull::build(&pts).unwrap();
    assert_eq!(hull.vertices.len(), 4);
    assert_eq!(hull.faces.len(), 4);
    assert!(is_closed(&hull));
    assert!(encloses_all(&hull, &pts));
}

#[test]
fn tetrahedron_of_either_handedness() {
    let pts = vec![
        Vec3::new(0, 0, 0),
        Vec3::new(0, 10, 0),
        Vec3::new(10, 0, 0),
        Vec3::new(0, 0, 10),
    ];
    let hull = ConvexHull::build(&pts).unwrap();
    assert_eq!(hull.faces.len(), 4);
    assert!(is_closed(&hull));
    assert!(encloses_all(&hull, &pts));
    // the point in the middle is strictly behind every face
    let mid = Vec3::new(2, 2, 2);
    for f in &hull.faces {
        let (a, b, c) = corners(&hull, f);
        assert!(orientation(&a, &b, &c, &mid) < 0);
    }
}

#[test]
fn inner_points_are_not_vertices() {
    let mut pts = vec![
        Vec3::new(0, 0, 0),
        Vec3::new(100, 0, 0),
        Vec3::new(0, 100, 0),
        Vec3::new(0, 0, 100),
    ];
    pts.push(Vec3::new(10, 10, 10));
    pts.push(Vec3::new(50, 50, 0));
    pts.push(Vec3::new(0, 0, 0));
    let hull = ConvexHull::build(&pts).unwrap();
    assert_eq!(hull.vertices.len(), 4);
    assert_eq!(hull.faces.len(), 4);
}

#[test]
fn cube_has_eight_vertices_and_twelve_faces() {
    let mut pts = cube_corners(524_288);
    pts.extend(cube_corners(524_288));
    pts.push(Vec3::new(0, 0, 0));
    let hull = ConvexHull::build(&pts).unwrap();
    assert_eq!(hull.vertices.len(), 8);
    assert_eq!(hull.faces.len(), 12);
    assert!(is_closed(&hull));
    assert!(encloses_all(&hull, &pts));
    for v in &hull.vertices {
        assert_eq!(v.x.abs(), 524_288);
        assert_eq!(v.y.abs(), 524_288);
        assert_eq!(v.z.abs(), 524_288);
    }
}

#[test]
fn points_on_sides_and_faces_taken_first() {
    let h = 1000;
    let mut pts = Vec::new();
    // middles of sides and faces, and the centre, before the corners
    for &x in &[-h, 0, h] {
        for &y in &[-h, 0, h] {
            for &z in &[-h, 0, h] {
                if x == 0 || y == 0 || z == 0 {
                    pts.push(Vec3::new(x, y, z));
                }
            }
        }
    }
    pts.extend(cube_corners(h));
    let hull = ConvexHull::build(&pts).unwrap();
    assert!(is_closed(&hull));
    assert!(encloses_all(&hull, &pts));
    assert_eq!(hull.faces.len(), 2 * hull.vertices.len() - 4);
    for corner in cube_corners(h) {
        assert!(hull.vertices.contains(&corner));
    }
    // no corner of a face lies strictly inside a side of a face
    for f in &hull.faces {
        for (u, v) in [(f.a, f.b), (f.b, f.c), (f.c, f.a)] {
            let (s, e) = (hull.vertices[u], hull.vertices[v]);
            for c in &hull.vertices {
                let d = (e.x - s.x, e.y - s.y, e.z - s.z);
                let r = (c.x - s.x, c.y - s.y, c.z - s.z);
                let cross = (d.1 * r.2 - d.2 * r.1, d.2 * r.0 - d.0 * r.2, d.0 * r.1 - d.1 * r.0);
                let along = r.0 * d.0 + r.1 * d.1 + r.2 * d.2;
                let whole = d.0 * d.0 + d.1 * d.1 + d.2 * d.2;
                assert!(!(cross == (0, 0, 0) && 0 < along && along < whole));
            }
        }
    }
}

#[test]
fn hull_at_the_edge_of_the_range() {
    let pts = cube_corners(COORD_MAX);
    assert!(check_in_range(&pts));
    let hull = ConvexHull::build(&pts).unwrap();
    assert_eq!(hull.vertices.len(), 8);
    assert_eq!(hull.faces.len(), 12);
    assert!(encloses_all(&hull, &pts));
}

#[test]
fn points_out_of_range_are_recognised() {
    let pts = vec![Vec3::new(COORD_MAX + 1, 0, 0)];
    assert!(!check_in_range(&pts));
    assert!(!Vec3::new(0, -COORD_MAX - 1, 0).is_in_range());
    assert!(Vec3::new(COORD_MAX, -COORD_MAX, 0).is_in_range());
}

#[test]
fn every_input_point_is_on_or_inside_the_hull() {
    let pts = scattered(300, 1_000_000);
    let hull = ConvexHull::build(&pts).unwrap();
    assert!(encloses_all(&hull, &pts));
    assert!(is_closed(&hull));
    assert!(hull.vertices.len() <= pts.len());
    // Euler's formula for a closed triangulated surface
    assert_eq!(hull.faces.len(), 2 * hull.vertices.len() - 4);
}

#[test]
fn hull_vertices_are_distinct_input_points() {
    let mut pts = scattered(100, 50);
    let copy = pts.clone();
    pts.extend(copy);
    let hull = ConvexHull::build(&pts).unwrap();
    for (i, v) in hull.vertices.iter().enumerate() {
        assert!(pts.contains(v));
        assert!(!hull.vertices[..i].contains(v));
        assert!(hull.faces.iter().any(|f| f.a == i || f.b == i || f.c == i));
    }
}

#[test]
fn faces_are_wound_outward() {
    let pts = scattered(200, 100_000);
    let hull = ConvexHull::build(&pts).unwrap();
    let m = hull.vertices.len() as i128;
    let mut sum = (0i128, 0i128, 0i128);
    for v in &hull.vertices {
        sum.0 += v.x as i128;
        sum.1 += v.y as i128;
        sum.2 += v.z as i128;
    }
    for f in &hull.faces {
        let (a, b, c) = corners(&hull, f);
        let n = support_hull::vec3::edge_cross(&a, &b, &c);
        assert!(n != (0, 0, 0));
        for p in [a, b, c] {
            // normal . (p - centroid), times the number of vertices
            let d = n.0 * (m * p.x as i128 - sum.0)
                + n.1 * (m * p.y as i128 - sum.1)
                + n.2 * (m * p.z as i128 - sum.2);
            assert!(d >= 0);
        }
    }
}

#[test]
fn orientation_of_known_points() {
    let a = Vec3::new(0, 0, 0);
    let b = Vec3::new(1, 0, 0);
    let c = Vec3::new(0, 1, 0);
    assert_eq!(orientation(&a, &b, &c, &Vec3::new(0, 0, 1)), 1);
    assert_eq!(orientation(&a, &b, &c, &Vec3::new(0, 0, -3)), -3);
    assert_eq!(orientation(&a, &b, &c, &Vec3::new(5, 7, 0)), 0);
    assert_eq!(orientation(&a, &c, &b, &Vec3::new(0, 0, 1)), -1);
    let m = COORD_MAX;
    let big = orientation(
        &Vec3::new(-m, -m, -m),
        &Vec3::new(m, -m, -m),
        &Vec3::new(-m, m, -m),
        &Vec3::new(-m, -m, m),
    );
    assert_eq!(big, 8 * (m as i128) * (m as i128) * (m as i128));
}

#[test]
fn face_turns_and_sides() {
    let f = Face { a: 1, b: 2, c: 3 };
    assert_eq!(f.turn(0), Face { a: 1, b: 2, c: 3 });
    assert_eq!(f.turn(1), Face { a: 2, b: 3, c: 1 });
    assert_eq!(f.turn(2), Face { a: 3, b: 1, c: 2 });
    assert!(f.runs_along(1, 2) && f.runs_along(2, 3) && f.runs_along(3, 1));
    assert!(!f.runs_along(2, 1) && !f.runs_along(1, 3) && !f.runs_along(1, 1));
}
