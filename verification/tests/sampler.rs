use support_hull::cloud;
use support_hull::sampler::{generate, SampleError, GOLDEN_COS, GOLDEN_SIN};
use support_hull::shape::SupportShape;
use support_hull::vec3::{Vec3, ONE};

#[test]
fn fewer_than_two_samples_are_refused() {
    assert_eq!(generate(0), Err(SampleError::InvalidSampleCount));
    assert_eq!(generate(1), Err(SampleError::InvalidSampleCount));
    assert!(generate(2).is_ok());
    let ball = SupportShape::Ball { radius: ONE };
    assert_eq!(cloud::generate(&ball, 1), Err(SampleError::InvalidSampleCount));
}

#[test]
fn two_samples_are_the_poles() {
    assert_eq!(generate(2).unwrap(), vec![Vec3::new(0, ONE, 0), Vec3::new(0, -ONE, 0)]);
}

#[test]
fn five_samples_are_as_computed_by_hand() {
    let expected = vec![
        Vec3::new(0, 1_048_576, 0),
        Vec3::new(-669_599, 524_288, -613_408),
        Vec3::new(91_671, 0, 1_044_561),
        Vec3::new(552_520, -524_288, -720_662),
        Vec3::new(0, -1_048_576, 0),
    ];
    assert_eq!(generate(5).unwrap(), expected);
}

#[test]
fn the_golden_angle_is_pi_times_root_five_minus_one() {
    let angle = std::f64::consts::PI * (5.0f64.sqrt() - 1.0);
    assert_eq!(GOLDEN_COS, (angle.cos() * ONE as f64).round() as i64);
    assert_eq!(GOLDEN_SIN, (angle.sin() * ONE as f64).round() as i64);
}

#[test]
fn the_same_count_gives_the_same_directions() {
    assert_eq!(generate(500).unwrap(), generate(500).unwrap());
    assert_eq!(generate(17).unwrap(), generate(17).unwrap());
}

#[test]
fn directions_have_unit_length() {
    let dirs = generate(500).unwrap();
    assert_eq!(dirs.len(), 500);
    for d in &dirs {
        let n = ((d.x * d.x + d.y * d.y + d.z * d.z) as f64).sqrt() / ONE as f64;
        assert!((n - 1.0).abs() < 1e-5);
    }
}

#[test]
fn directions_follow_the_golden_spiral() {
    let n = 500;
    let angle = std::f64::consts::PI * (5.0f64.sqrt() - 1.0);
    let dirs = generate(n).unwrap();
    for (i, d) in dirs.iter().enumerate() {
        let y = 1.0 - 2.0 * i as f64 / (n - 1) as f64;
        let r = (1.0 - y * y).sqrt();
        let x = (angle * i as f64).cos() * r;
        let z = (angle * i as f64).sin() * r;
        assert!((d.x as f64 / ONE as f64 - x).abs() < 1e-3);
        assert!((d.y as f64 / ONE as f64 - y).abs() < 1e-3);
        assert!((d.z as f64 / ONE as f64 - z).abs() < 1e-3);
    }
}

#[test]
fn cloud_holds_one_support_point_per_direction() {
    let ball = SupportShape::Ball { radius: ONE / 2 };
    let dirs = generate(5).unwrap();
    let points = cloud::generate(&ball, 5).unwrap();
    assert_eq!(points.len(), 5);
    for (d, p) in dirs.iter().zip(points.iter()) {
        assert_eq!(*p, ball.support_point_toward(d));
    }
    assert_eq!(points[1], Vec3::new(-334_799, 262_144, -306_704));
    assert_eq!(cloud::support_points(&ball, &dirs), points);
}

#[test]
fn cloud_keeps_repeated_points() {
    let h = ONE / 2;
    let cuboid = SupportShape::Cuboid { half_extents: Vec3::new(h, h, h) };
    let points = cloud::generate(&cuboid, 500).unwrap();
    assert_eq!(points.len(), 500);
    let mut distinct = points.clone();
    distinct.sort_by_key(|p| (p.x, p.y, p.z));
    distinct.dedup();
    assert_eq!(distinct.len(), 8);
}
