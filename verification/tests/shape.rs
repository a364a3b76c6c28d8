use support_hull::shape::{fixed_mul, scale, along, Segment, SupportShape, TaperedCapsule, SHAPE_MAX};
use support_hull::vec3::{Vec3, ONE};

const HALF: i64 = ONE / 2;

fn upright() -> Segment {
    Segment { a: Vec3::new(0, HALF, 0), b: Vec3::new(0, -HALF, 0) }
}

#[test]
fn fixed_point_products_round_toward_zero() {
    assert_eq!(fixed_mul(ONE, 12345), 12345);
    assert_eq!(fixed_mul(-ONE, 12345), -12345);
    assert_eq!(fixed_mul(HALF, 5), 2);
    assert_eq!(fixed_mul(-HALF, 5), -2);
    assert_eq!(fixed_mul(0, SHAPE_MAX), 0);
    assert_eq!(fixed_mul(ONE, SHAPE_MAX), SHAPE_MAX);
    assert_eq!(fixed_mul(-669_599, HALF), -334_799);
    assert_eq!(fixed_mul(1, 1), 0);
    assert_eq!(fixed_mul(-1, 1), 0);
}

#[test]
fn scale_and_along() {
    let d = Vec3::new(-669_599, 524_288, -613_408);
    assert_eq!(scale(&d, HALF), Vec3::new(-334_799, 262_144, -306_704));
    assert_eq!(along(&d, &Vec3::new(1, 2, 3)), -669_599 + 2 * 524_288 - 3 * 613_408);
}

#[test]
fn ball_support_is_the_scaled_direction() {
    let ball = SupportShape::Ball { radius: HALF };
    assert_eq!(ball.support_point_toward(&Vec3::new(ONE, 0, 0)), Vec3::new(HALF, 0, 0));
    assert_eq!(ball.support_point_toward(&Vec3::new(0, -ONE, 0)), Vec3::new(0, -HALF, 0));
    assert_eq!(ball.support_point(&Vec3::new(3, 4, 0)), Vec3::new(314_572, 419_430, 0));
}

#[test]
fn ball_support_has_the_length_of_the_radius() {
    let radius = HALF;
    let ball = SupportShape::Ball { radius };
    for dir in [Vec3::new(1, 2, 3), Vec3::new(-9, 1, 0), Vec3::new(5, -5, 5), Vec3::new(0, 0, -1)] {
        let s = ball.support_point(&dir);
        let len = ((s.x * s.x + s.y * s.y + s.z * s.z) as f64).sqrt();
        assert!((len / ONE as f64 - 0.5).abs() < 1e-5);
    }
}

#[test]
fn box_support_is_a_corner() {
    let h = Vec3::new(HALF, 2 * HALF, 3 * HALF);
    let cuboid = SupportShape::Cuboid { half_extents: h };
    assert_eq!(cuboid.support_point(&Vec3::new(1, 1, 1)), Vec3::new(HALF, 2 * HALF, 3 * HALF));
    assert_eq!(cuboid.support_point(&Vec3::new(-1, 1, -1)), Vec3::new(-HALF, 2 * HALF, -3 * HALF));
    assert_eq!(cuboid.support_point(&Vec3::new(0, -1, 0)), Vec3::new(HALF, -2 * HALF, 3 * HALF));
    for dir in [Vec3::new(7, -3, 2), Vec3::new(-1, -1, -1), Vec3::new(0, 0, 9)] {
        let s = cuboid.support_point(&dir);
        assert!(s.x.abs() == h.x && s.y.abs() == h.y && s.z.abs() == h.z);
    }
}

#[test]
fn zero_direction_means_the_vertical_axis() {
    let ball = SupportShape::Ball { radius: 1000 };
    assert_eq!(ball.support_point(&Vec3::new(0, 0, 0)), Vec3::new(0, 1000, 0));
    let cone = SupportShape::Cone { half_height: 300, radius: 200 };
    assert_eq!(cone.support_point(&Vec3::new(0, 0, 0)), Vec3::new(0, 300, 0));
}

#[test]
fn capsule_support_picks_an_end_and_adds_the_radius() {
    let capsule = SupportShape::Capsule { segment: upright(), radius: HALF };
    assert_eq!(capsule.support_point_toward(&Vec3::new(0, ONE, 0)), Vec3::new(0, ONE, 0));
    assert_eq!(capsule.support_point_toward(&Vec3::new(0, -ONE, 0)), Vec3::new(0, -ONE, 0));
    // on a tie the end `a`
    assert_eq!(capsule.support_point_toward(&Vec3::new(ONE, 0, 0)), Vec3::new(HALF, HALF, 0));
}

#[test]
fn tapered_capsule_support_picks_a_ball() {
    let tapered = TaperedCapsule { radius_a: HALF, radius_b: 209_715, segment: upright() };
    assert_eq!(tapered.local_support_point_toward(&Vec3::new(0, ONE, 0)), Vec3::new(0, ONE, 0));
    assert_eq!(
        tapered.local_support_point_toward(&Vec3::new(0, -ONE, 0)),
        Vec3::new(0, -HALF - 209_715, 0)
    );
    // on a tie the end `b`
    assert_eq!(
        tapered.local_support_point_toward(&Vec3::new(ONE, 0, 0)),
        Vec3::new(209_715, -HALF, 0)
    );
    assert_eq!(tapered.local_support_point(&Vec3::new(0, 5, 0)), Vec3::new(0, ONE, 0));
    assert_eq!(tapered.local_support_point(&Vec3::new(0, 0, 0)), Vec3::new(0, ONE, 0));
    let shape = SupportShape::Tapered { capsule: tapered };
    assert_eq!(shape.support_point(&Vec3::new(0, -2, 0)), Vec3::new(0, -HALF - 209_715, 0));
}

#[test]
fn cone_support_is_the_apex_or_the_rim() {
    let cone = SupportShape::Cone { half_height: HALF, radius: HALF };
    assert_eq!(cone.support_point(&Vec3::new(0, 1, 0)), Vec3::new(0, HALF, 0));
    assert_eq!(cone.support_point(&Vec3::new(0, -1, 0)), Vec3::new(0, -HALF, 0));
    assert_eq!(cone.support_point(&Vec3::new(1, 0, 0)), Vec3::new(HALF, -HALF, 0));
    assert_eq!(cone.support_point(&Vec3::new(0, 0, -1)), Vec3::new(0, -HALF, -HALF));
    // mostly upward: the apex
    assert_eq!(cone.support_point(&Vec3::new(1, 10, 0)), Vec3::new(0, HALF, 0));
    // mostly sideways: the rim
    assert_eq!(cone.support_point(&Vec3::new(10, 1, 0)), Vec3::new(HALF, -HALF, 0));
}
