use raytracer::camera::Camera;
use raytracer::fixed::SCALE;
use raytracer::ray::Ray;
use raytracer::vec3::Vec3;

const WIDE: i64 = 1_777_777;

#[test]
fn camera_geometry_follows_the_aspect_ratio() {
    let camera = Camera::new(WIDE);
    assert_eq!(camera.origin, Vec3::new(0, 0, 0));
    assert_eq!(camera.horizontal, Vec3::new(3_555_554, 0, 0));
    assert_eq!(camera.vertical, Vec3::new(0, 2 * SCALE, 0));
    assert_eq!(camera.lower_left_corner, Vec3::new(-WIDE, -SCALE, -SCALE));
    assert!(camera.is_wf());
}

#[test]
fn square_camera_is_symmetric() {
    let camera = Camera::new(SCALE);
    assert_eq!(camera.horizontal, Vec3::new(2 * SCALE, 0, 0));
    assert_eq!(camera.lower_left_corner, Vec3::new(-SCALE, -SCALE, -SCALE));
    assert_eq!(camera.get_ray(0, 0).direction, Vec3::new(-SCALE, -SCALE, -SCALE));
    assert_eq!(camera.get_ray(SCALE, SCALE).direction, Vec3::new(SCALE, SCALE, -SCALE));
}

#[test]
fn widest_and_mirrored_cameras_are_well_formed() {
    assert!(Camera::new(6 * SCALE).is_wf());
    assert!(Camera::new(-6 * SCALE).is_wf());
    assert!(Camera::new(0).is_wf());
    assert_eq!(Camera::new(-SCALE).lower_left_corner, Vec3::new(SCALE, -SCALE, -SCALE));
    let ray = Camera::new(6 * SCALE).get_ray(2 * SCALE, 2 * SCALE);
    assert_eq!(ray.direction, Vec3::new(18 * SCALE, 3 * SCALE, -SCALE));
    assert!(ray.is_wf());
}

#[test]
fn any_ratio_whose_double_fits_makes_a_camera() {
    let wide = Camera::new(100 * SCALE);
    assert_eq!(wide.horizontal, Vec3::new(200 * SCALE, 0, 0));
    assert_eq!(wide.lower_left_corner, Vec3::new(-100 * SCALE, -SCALE, -SCALE));
    assert!(!wide.is_wf());
    assert!(!Camera::new(6 * SCALE + 1).is_wf());
    let widest = Camera::new(i64::MAX / 2);
    assert_eq!(widest.horizontal, Vec3::new(i64::MAX - 1, 0, 0));
    assert_eq!(widest.lower_left_corner, Vec3::new(-(i64::MAX / 2), -SCALE, -SCALE));
    let mirrored = Camera::new(i64::MIN / 2);
    assert_eq!(mirrored.horizontal, Vec3::new(i64::MIN, 0, 0));
    assert_eq!(mirrored.lower_left_corner, Vec3::new(-(i64::MIN / 2), -SCALE, -SCALE));
}

#[test]
fn rays_pass_through_the_viewport() {
    let camera = Camera::new(WIDE);
    let origin = Vec3::new(0, 0, 0);
    let through = |u: i64, v: i64, x: i64, y: i64| {
        assert_eq!(camera.get_ray(u, v), Ray { origin, direction: Vec3::new(x, y, -SCALE) });
    };
    through(0, 0, -WIDE, -SCALE);
    through(SCALE, SCALE, WIDE, SCALE);
    through(SCALE / 2, SCALE / 2, 0, 0);
    through(333_333, 777_777, -592_594, 555_554);
    assert_eq!(camera.get_ray(SCALE, 0).direction, Vec3::new(WIDE, -SCALE, -SCALE));
    assert_eq!(camera.get_ray(0, SCALE).direction, Vec3::new(-WIDE, SCALE, -SCALE));
}

#[test]
fn rays_are_cast_beyond_the_viewport_too() {
    let camera = Camera::new(SCALE);
    let out = camera.get_ray(10 * SCALE, -7 * SCALE);
    assert_eq!(out.direction, Vec3::new(19 * SCALE, -15 * SCALE, -SCALE));
    assert!(out.is_wf());
    let far = camera.get_ray(1_000 * SCALE, 0);
    assert_eq!(far.direction, Vec3::new(1_999 * SCALE, -SCALE, -SCALE));
    assert!(!far.is_wf());
    let wide = Camera::new(100 * SCALE);
    assert_eq!(wide.get_ray(SCALE, SCALE).direction, Vec3::new(100 * SCALE, SCALE, -SCALE));
    assert_eq!(wide.get_ray(SCALE / 2, SCALE / 2).direction, Vec3::new(0, 0, -SCALE));
}

#[test]
fn camera_elsewhere_casts_from_its_origin() {
    let camera = Camera {
        origin: Vec3::new(SCALE, 2 * SCALE, 3 * SCALE),
        horizontal: Vec3::new(0, 0, -4 * SCALE),
        vertical: Vec3::new(0, 2 * SCALE, 0),
        lower_left_corner: Vec3::new(2 * SCALE, SCALE, 5 * SCALE),
    };
    assert!(camera.is_wf());
    let ray = camera.get_ray(SCALE / 4, SCALE);
    assert_eq!(ray.origin, camera.origin);
    assert_eq!(ray.direction, Vec3::new(SCALE, SCALE, SCALE));
    assert!(ray.is_wf());
}

#[test]
fn camera_limits_are_checked() {
    let mut camera = Camera::new(SCALE);
    camera.horizontal = Vec3::new(12_000_001, 0, 0);
    assert!(!camera.is_wf());
    camera.horizontal = Vec3::new(12_000_000, 0, 0);
    assert!(camera.is_wf());
    camera.lower_left_corner = Vec3::new(0, 16_000_001, 0);
    assert!(!camera.is_wf());
    camera.origin = Vec3::new(0, 16_001_000_000, 0);
    camera.lower_left_corner = Vec3::new(0, 16_017_000_000, 0);
    assert!(camera.is_wf());
    camera.origin = Vec3::new(0, 16_001_000_001, 0);
    assert!(!camera.is_wf());
    camera.origin = Vec3::new(i64::MIN, 0, 0);
    camera.lower_left_corner = Vec3::new(i64::MAX, 0, 0);
    assert!(!camera.is_wf());
}
