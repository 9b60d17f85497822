use raytracer::fixed::div_floor;
use raytracer::fixed::isqrt;
use raytracer::fixed::mul_div;
use raytracer::fixed::SCALE;
use raytracer::ray::Ray;
use raytracer::vec3::Vec3;

#[test]
fn isqrt_rounds_down() {
    assert_eq!(isqrt(0), 0);
    assert_eq!(isqrt(1), 1);
    assert_eq!(isqrt(3), 1);
    assert_eq!(isqrt(4), 2);
    assert_eq!(isqrt(99), 9);
    assert_eq!(isqrt(100), 10);
    assert_eq!(isqrt(1_000_000_000_000), 1_000_000);
    assert_eq!(isqrt(999_999_999_999), 999_999);
    assert_eq!(isqrt(u128::MAX), u64::MAX);
}

#[test]
fn isqrt_brackets_its_argument() {
    let mut n: u128 = 1;
    for _ in 0..120 {
        let r = isqrt(n) as u128;
        assert!(r * r <= n);
        assert!(n < (r + 1) * (r + 1));
        n = n * 2 + 1;
    }
}

#[test]
fn div_floor_rounds_towards_minus_infinity() {
    assert_eq!(div_floor(7, 2), 3);
    assert_eq!(div_floor(-7, 2), -4);
    assert_eq!(div_floor(-8, 2), -4);
    assert_eq!(div_floor(-1, 1_000_000), -1);
    assert_eq!(div_floor(0, 5), 0);
    assert_eq!(div_floor(i128::MIN, 1), i128::MIN);
    assert_eq!(div_floor(i128::MIN, 2), i128::MIN / 2);
    assert_eq!(div_floor(i128::MAX, i128::MAX), 1);
}

#[test]
fn mul_div_forms_the_product_exactly() {
    assert_eq!(mul_div(3 * SCALE, 2 * SCALE, SCALE), (6 * SCALE) as i128);
    assert_eq!(mul_div(i64::MAX, i64::MAX, 1), (i64::MAX as i128) * (i64::MAX as i128));
    assert_eq!(mul_div(i64::MIN, i64::MIN, 1), (i64::MIN as i128) * (i64::MIN as i128));
    assert_eq!(mul_div(-1, 1, SCALE), -1);
    assert_eq!(mul_div(1, 1, SCALE), 0);
}

#[test]
fn vectors_add_and_subtract_by_component() {
    let a = Vec3::new(1, -2, 3);
    let b = Vec3::new(10, 20, -30);
    assert_eq!(a.plus(b), Vec3::new(11, 18, -27));
    assert_eq!(a.minus(b), Vec3::new(-9, -22, 33));
    assert_eq!(a.negated(), Vec3::new(-1, 2, -3));
}

#[test]
fn dot_and_norm_are_exact() {
    let a = Vec3::new(3 * SCALE, 4 * SCALE, 0);
    let b = Vec3::new(-SCALE, 2 * SCALE, 7);
    assert_eq!(a.dot(b), 5_000_000_000_000);
    assert_eq!(a.norm_squared(), 25_000_000_000_000);
    assert_eq!(a.norm(), 5 * SCALE);
    assert_eq!(Vec3::new(1, 1, 1).norm(), 1);
    assert_eq!(Vec3::new(0, 0, 0).norm(), 0);
}

#[test]
fn dot_takes_the_largest_components() {
    let limit: i64 = 0x4000_0000_0000_0000;
    let a = Vec3::new(limit, -limit, limit);
    assert_eq!(a.norm_squared(), 3 * (limit as i128) * (limit as i128));
    assert_eq!(a.dot(a.negated()), -3 * (limit as i128) * (limit as i128));
    let r = a.norm() as i128;
    assert!(r * r <= a.norm_squared());
    assert!(a.norm_squared() < (r + 1) * (r + 1));
}

#[test]
fn scaling_rounds_each_component_down() {
    let v = Vec3::new(SCALE, -SCALE, 3);
    assert_eq!(v.scaled(SCALE / 2), Vec3::new(500_000, -500_000, 1));
    assert_eq!(v.scaled(-SCALE / 2), Vec3::new(-500_000, 500_000, -2));
    assert_eq!(v.divided(2 * SCALE), Vec3::new(500_000, -500_000, 1));
    assert_eq!(v.divided(3 * SCALE), Vec3::new(333_333, -333_334, 1));
    assert_eq!(Vec3::new(5, -5, 0).halved(), Vec3::new(2, -3, 0));
}

#[test]
fn normalized_axis_is_exact() {
    assert_eq!(Vec3::new(0, -3 * SCALE, 0).normalized(), Vec3::new(0, -SCALE, 0));
    assert_eq!(Vec3::new(7, 0, 0).normalized(), Vec3::new(SCALE, 0, 0));
    assert_eq!(Vec3::new(0, 0, 0).normalized(), Vec3::new(0, 0, 0));
}

#[test]
fn normalized_components_stay_within_one() {
    let v = Vec3::new(3 * SCALE, 4 * SCALE, 0).normalized();
    assert_eq!(v, Vec3::new(600_000, 800_000, 0));
    let w = Vec3::new(SCALE, SCALE, 0).normalized();
    assert_eq!(w, Vec3::new(707_107, 707_107, 0));
    let big = Vec3::new(0x4000_0000_0000_0000, -0x4000_0000_0000_0000, 1).normalized();
    assert!(-SCALE <= big.x && big.x <= SCALE);
    assert!(-SCALE <= big.y && big.y <= SCALE);
    assert!(-SCALE <= big.z && big.z <= SCALE);
}

#[test]
fn ray_at_walks_along_the_direction() {
    let ray = Ray {
        origin: Vec3::new(SCALE, 2 * SCALE, 3 * SCALE),
        direction: Vec3::new(2 * SCALE, 0, -SCALE),
    };
    assert_eq!(ray.at(0), ray.origin);
    assert_eq!(ray.at(SCALE), Vec3::new(3 * SCALE, 2 * SCALE, 2 * SCALE));
    assert_eq!(ray.at(SCALE / 2), Vec3::new(2 * SCALE, 2 * SCALE, 2_500_000));
    assert_eq!(ray.at(-SCALE), Vec3::new(-SCALE, 2 * SCALE, 4 * SCALE));
    assert_eq!(ray.at(1), Vec3::new(SCALE + 2, 2 * SCALE, 3 * SCALE - 1));
}

#[test]
fn ray_limits_are_checked() {
    let inside = Ray {
        origin: Vec3::new(16_001_000_000, 0, -16_001_000_000),
        direction: Vec3::new(64_000_000, -64_000_000, 0),
    };
    assert!(inside.is_wf());
    let far = Ray { origin: Vec3::new(16_001_000_001, 0, 0), direction: Vec3::new(0, 0, 1) };
    assert!(!far.is_wf());
    let fast = Ray { origin: Vec3::new(0, 0, 0), direction: Vec3::new(0, -64_000_001, 0) };
    assert!(!fast.is_wf());
}
