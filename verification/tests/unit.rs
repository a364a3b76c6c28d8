use support_hull::root::isqrt;
use support_hull::unit::unit_vector;
use support_hull::vec3::{Vec3, ONE};

fn norm2(v: &Vec3) -> i128 {
    (v.x as i128).pow(2) + (v.y as i128).pow(2) + (v.z as i128).pow(2)
}

#[test]
fn square_roots_round_down() {
    assert_eq!(isqrt(0), 0);
    assert_eq!(isqrt(1), 1);
    assert_eq!(isqrt(3), 1);
    assert_eq!(isqrt(4), 2);
    assert_eq!(isqrt(99), 9);
    assert_eq!(isqrt(100), 10);
    assert_eq!(isqrt(1 << 40), 1 << 20);
    assert_eq!(isqrt((1 << 40) - 1), (1 << 20) - 1);
    assert_eq!(isqrt(u128::MAX), u64::MAX);
    assert_eq!(isqrt(825_240_000_000), 908_427);
}

#[test]
fn unit_vector_of_known_vectors() {
    assert_eq!(unit_vector(3, 4, 0), Vec3::new(629_145, 838_860, 0));
    assert_eq!(unit_vector(1, 1, 1), Vec3::new(605_395, 605_395, 605_395));
    assert_eq!(unit_vector(-7, 0, 0), Vec3::new(-ONE, 0, 0));
    assert_eq!(unit_vector(1 << 62, 0, -(1 << 62)), Vec3::new(741_455, 0, -741_455));
}

#[test]
fn zero_vector_falls_back_to_the_vertical_axis() {
    assert_eq!(unit_vector(0, 0, 0), Vec3::new(0, ONE, 0));
}

#[test]
fn unit_vectors_have_unit_length() {
    let one = ONE as i128;
    let inputs: [(i128, i128, i128); 7] = [
        (1, 0, 0),
        (1, 2, 3),
        (-5, 4, -3),
        (1 << 43, 1, 1),
        ((1 << 43) + 1, -1, 1),
        (1 << 63, 1 << 63, 1 << 63),
        (-(1 << 63), 12345, 1 << 50),
    ];
    for (x, y, z) in inputs {
        let u = unit_vector(x, y, z);
        let n = norm2(&u);
        assert!(one * one - 6 * one - 3 < n && n < (one + 1) * (one + 1));
        assert!(u.x.abs() <= ONE && u.y.abs() <= ONE && u.z.abs() <= ONE);
        let len = (n as f64).sqrt() / ONE as f64;
        assert!((len - 1.0).abs() < 1e-5);
    }
}
