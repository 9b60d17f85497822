use raytracer::fixed::SCALE;
use raytracer::hit::HitRecord;
use raytracer::hit::Hittable;
use raytracer::ray::Ray;
use raytracer::sphere::Sphere;
use raytracer::vec3::Vec3;

const FAR: i64 = 1_000_000_000;

fn unit_sphere_ahead() -> Sphere {
    Sphere { center: Vec3::new(0, 0, -SCALE), radius: SCALE / 2 }
}

fn ray(origin: (i64, i64, i64), direction: (i64, i64, i64)) -> Ray {
    Ray {
        origin: Vec3::new(origin.0, origin.1, origin.2),
        direction: Vec3::new(direction.0, direction.1, direction.2),
    }
}

#[test]
fn hit_on_the_axis_is_exact() {
    let sphere = unit_sphere_ahead();
    let hit = sphere.hit(&ray((0, 0, 0), (0, 0, -SCALE)), 0, FAR).unwrap();
    assert_eq!(hit.t, 500_000);
    assert_eq!(hit.p, Vec3::new(0, 0, -500_000));
    assert_eq!(hit.normal, Vec3::new(0, 0, SCALE));
    assert!(hit.front_face);
    let from_centre = hit.p.minus(sphere.center);
    assert_eq!(from_centre.norm(), sphere.radius);
}

#[test]
fn oblique_hit_lies_on_the_surface() {
    let sphere = unit_sphere_ahead();
    let r = ray((0, 0, 0), (100_000, 200_000, -SCALE));
    let hit = sphere.hit(&r, 0, FAR).unwrap();
    assert_eq!(hit.t, 513_355);
    assert_eq!(hit.p, Vec3::new(51_335, 102_671, -513_355));
    assert_eq!(hit.normal, Vec3::new(102_670, 205_342, 973_290));
    assert!(hit.front_face);
    let distance = hit.p.minus(sphere.center).norm();
    assert!((distance - sphere.radius).abs() <= 2);
    assert!((hit.normal.norm() - SCALE).abs() <= 4);
    assert_eq!(r.at(hit.t), hit.p);
}

#[test]
fn direction_length_scales_the_parameter() {
    let sphere = unit_sphere_ahead();
    let slow = sphere.hit(&ray((0, 0, 0), (0, 0, -SCALE / 4)), 0, FAR).unwrap();
    assert_eq!(slow.t, 2_000_000);
    assert_eq!(slow.p, Vec3::new(0, 0, -500_000));
    let fast = sphere.hit(&ray((0, 0, 0), (0, 0, -4 * SCALE)), 0, FAR).unwrap();
    assert_eq!(fast.t, 125_000);
    assert_eq!(fast.p, Vec3::new(0, 0, -500_000));
}

#[test]
fn ray_that_passes_by_misses() {
    let sphere = unit_sphere_ahead();
    assert_eq!(sphere.hit(&ray((SCALE / 2 + 1, 0, 0), (0, 0, -SCALE)), 0, FAR), None);
    assert_eq!(sphere.hit(&ray((0, 0, 0), (0, SCALE, 0)), 0, FAR), None);
    assert_eq!(sphere.hit(&ray((0, 0, 0), (SCALE, SCALE, -SCALE)), 0, FAR), None);
    assert_eq!(sphere.hit(&ray((0, 3 * SCALE, 0), (0, 0, -SCALE)), -FAR, FAR), None);
}

#[test]
fn tangent_ray_touches_once() {
    let sphere = unit_sphere_ahead();
    let hit = sphere.hit(&ray((SCALE / 2, 0, 0), (0, 0, -SCALE)), 0, FAR).unwrap();
    assert_eq!(hit.t, SCALE);
    assert_eq!(hit.p, Vec3::new(SCALE / 2, 0, -SCALE));
    assert_eq!(hit.normal, Vec3::new(-SCALE, 0, 0));
    assert!(!hit.front_face);
}

#[test]
fn sphere_behind_the_ray_is_out_of_range() {
    let sphere = unit_sphere_ahead();
    let away = ray((0, 0, 0), (0, 0, SCALE));
    assert_eq!(sphere.hit(&away, 0, FAR), None);
    let behind = sphere.hit(&away, -FAR, FAR).unwrap();
    assert_eq!(behind.t, -1_500_000);
    assert_eq!(behind.p, Vec3::new(0, 0, -1_500_000));
    assert_eq!(behind.normal, Vec3::new(0, 0, -SCALE));
    assert!(behind.front_face);
}

#[test]
fn far_root_is_taken_when_the_near_one_is_out_of_range() {
    let sphere = unit_sphere_ahead();
    let r = ray((0, 0, 0), (0, 0, -SCALE));
    let far = sphere.hit(&r, 500_001, FAR).unwrap();
    assert_eq!(far.t, 1_500_000);
    assert_eq!(far.p, Vec3::new(0, 0, -1_500_000));
    assert_eq!(far.normal, Vec3::new(0, 0, SCALE));
    assert!(!far.front_face);
    let near = sphere.hit(&r, 500_000, FAR).unwrap();
    assert_eq!(near.t, 500_000);
}

#[test]
fn range_ends_are_part_of_the_range() {
    let sphere = unit_sphere_ahead();
    let r = ray((0, 0, 0), (0, 0, -SCALE));
    assert_eq!(sphere.hit(&r, 0, 500_000).unwrap().t, 500_000);
    assert_eq!(sphere.hit(&r, 0, 499_999), None);
    assert_eq!(sphere.hit(&r, 500_001, 1_499_999), None);
    assert_eq!(sphere.hit(&r, 500_001, 1_500_000).unwrap().t, 1_500_000);
    assert_eq!(sphere.hit(&r, 1_500_001, FAR), None);
    assert_eq!(sphere.hit(&r, FAR, 0), None);
}

#[test]
fn hit_from_inside_turns_the_normal() {
    let sphere = unit_sphere_ahead();
    let r = ray((0, 0, -SCALE), (0, SCALE, 0));
    let hit = sphere.hit(&r, 0, FAR).unwrap();
    assert_eq!(hit.t, 500_000);
    assert_eq!(hit.p, Vec3::new(0, 500_000, -SCALE));
    assert_eq!(hit.normal, Vec3::new(0, -SCALE, 0));
    assert!(!hit.front_face);
}

#[test]
fn ray_without_direction_hits_nothing() {
    let sphere = unit_sphere_ahead();
    assert_eq!(sphere.hit(&ray((0, 0, 0), (0, 0, 0)), -FAR, FAR), None);
    assert_eq!(sphere.hit(&ray((0, 0, -SCALE), (0, 0, 0)), -FAR, FAR), None);
}

#[test]
fn normal_faces_against_the_ray() {
    let spheres = [
        unit_sphere_ahead(),
        Sphere { center: Vec3::new(0, -100_500_000, -SCALE), radius: 100 * SCALE },
        Sphere { center: Vec3::new(300_000, 100_000, -2 * SCALE), radius: 3 },
        Sphere { center: Vec3::new(300_000, 100_000, -2 * SCALE), radius: 260 },
        Sphere { center: Vec3::new(0, 0, -SCALE), radius: 261 },
        Sphere {
            center: Vec3::new(8_000_000_000, -8_000_000_000, 8_000_000_000),
            radius: 8_000_000_000,
        },
    ];
    let origins = [
        (0, 0, 0),
        (0, 0, -SCALE),
        (250_000, -100_000, -900_000),
        (16_001_000_000, 16_001_000_000, -16_001_000_000),
    ];
    let directions = [
        (0, 0, -SCALE),
        (0, -SCALE, -SCALE),
        (123_456, -654_321, -SCALE),
        (-64_000_000, 64_000_000, -64_000_000),
        (1, 0, 0),
        (300_000, 100_000, -2 * SCALE),
        (-3, 2, 1),
    ];
    let mut hits = 0;
    for sphere in spheres.iter() {
        assert!(sphere.is_wf());
        for o in origins.iter() {
            for d in directions.iter() {
                let r = ray(*o, *d);
                assert!(r.is_wf());
                for range in [(0, FAR), (-FAR, FAR), (i64::MIN, i64::MAX)].iter() {
                    if let Some(hit) = sphere.hit(&r, range.0, range.1) {
                        hits += 1;
                        assert!(r.direction.dot(hit.normal) <= 0);
                        assert!(range.0 <= hit.t && hit.t <= range.1);
                        assert_eq!(hit.p, r.at(hit.t));
                        let gap = hit.p.minus(sphere.center);
                        let reach = sphere.radius + 128;
                        assert!(gap.x.abs() <= reach);
                        assert!(gap.y.abs() <= reach);
                        assert!(gap.z.abs() <= reach);
                        let radius = sphere.radius as i128;
                        let outer = radius + 260;
                        assert!(gap.norm_squared() <= outer * outer);
                        if radius >= 260 {
                            let inner = radius - 260;
                            assert!(inner * inner <= gap.norm_squared());
                        }
                        let scaled = radius * radius * hit.normal.norm_squared();
                        let most = 1_000_000 * (radius + 260) + 2 * radius;
                        assert!(scaled <= most * most);
                        if radius > 260 {
                            let least = 1_000_000 * (radius - 260) - 2 * radius;
                            assert!(least * least <= scaled);
                        }
                        assert!(hit.normal.x.abs() <= 63_000_000);
                        assert!(hit.normal.y.abs() <= 63_000_000);
                        assert!(hit.normal.z.abs() <= 63_000_000);
                    }
                }
            }
        }
    }
    assert!(hits > 20);
}

#[test]
fn record_is_built_with_the_facing_rule() {
    let r = ray((0, 0, 0), (0, 0, -SCALE));
    let p = Vec3::new(1, 2, 3);
    let front = HitRecord::from(&r, p, 7, Vec3::new(0, 0, SCALE));
    assert_eq!(front, HitRecord { p, normal: Vec3::new(0, 0, SCALE), t: 7, front_face: true });
    let back = HitRecord::from(&r, p, 7, Vec3::new(0, 0, -SCALE));
    assert_eq!(back, HitRecord { p, normal: Vec3::new(0, 0, SCALE), t: 7, front_face: false });
    let grazing = HitRecord::from(&r, p, 7, Vec3::new(SCALE, 0, 0));
    assert_eq!(grazing, HitRecord { p, normal: Vec3::new(-SCALE, 0, 0), t: 7, front_face: false });
}

#[test]
fn spheres_are_made_within_the_limits_only() {
    let centre = Vec3::new(0, 0, -SCALE);
    assert_eq!(Sphere::new(centre, SCALE / 2), Some(Sphere { center: centre, radius: SCALE / 2 }));
    assert_eq!(Sphere::new(centre, 3), Some(Sphere { center: centre, radius: 3 }));
    assert_eq!(Sphere::new(centre, 2), None);
    assert_eq!(Sphere::new(centre, 0), None);
    assert_eq!(Sphere::new(centre, -SCALE), None);
    assert_eq!(Sphere::new(centre, 8_000_000_001), None);
    assert_eq!(Sphere::new(Vec3::new(8_000_000_001, 0, 0), SCALE), None);
    assert!(Sphere::new(Vec3::new(8_000_000_000, -8_000_000_000, 0), 8_000_000_000).is_some());
}
