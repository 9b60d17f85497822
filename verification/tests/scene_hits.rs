use raytracer::fixed::SCALE;
use raytracer::hit::Hittable;
use raytracer::ray::Ray;
use raytracer::scene::Objects;
use raytracer::sphere::Sphere;
use raytracer::vec3::Vec3;

const FAR: i64 = 1_000_000_000;

fn sphere(x: i64, y: i64, z: i64, radius: i64) -> Sphere {
    Sphere { center: Vec3::new(x, y, z), radius }
}

fn along_minus_z() -> Ray {
    Ray { origin: Vec3::new(0, 0, 0), direction: Vec3::new(0, 0, -SCALE) }
}

#[test]
fn nearer_of_two_spheres_is_reported() {
    let first = sphere(0, 0, -SCALE, SCALE / 2);
    let second = sphere(0, 0, -2 * SCALE, SCALE / 2);
    let ray = along_minus_z();
    let expected = first.hit(&ray, 0, FAR);
    assert_eq!(expected.unwrap().t, 500_000);
    assert_eq!(expected.unwrap().p, Vec3::new(0, 0, -500_000));
    let world = Objects::new(vec![first, second]);
    assert_eq!(world.hit(&ray, 0, FAR), expected);
    let swapped = Objects::new(vec![second, first]);
    assert_eq!(swapped.hit(&ray, 0, FAR), expected);
}

#[test]
fn overlapping_spheres_report_the_first_surface() {
    let a = sphere(0, 0, -SCALE, SCALE / 2);
    let b = sphere(0, 0, -1_200_000, SCALE / 2);
    let ray = along_minus_z();
    for world in [Objects::new(vec![a, b]), Objects::new(vec![b, a])].iter() {
        let hit = world.hit(&ray, 0, FAR).unwrap();
        assert_eq!(hit.t, 500_000);
        assert_eq!(hit.normal, Vec3::new(0, 0, SCALE));
    }
    for world in [Objects::new(vec![a, b]), Objects::new(vec![b, a])].iter() {
        let hit = world.hit(&ray, 600_000, FAR).unwrap();
        assert_eq!(hit.t, 700_000);
        assert!(hit.front_face);
    }
}

#[test]
fn empty_scene_is_never_hit() {
    let world: Objects<Sphere> = Objects::new(vec![]);
    assert_eq!(world.hit(&along_minus_z(), -FAR, FAR), None);
}

#[test]
fn scene_that_the_ray_passes_is_not_hit() {
    let world = Objects::new(vec![
        sphere(3 * SCALE, 0, -SCALE, SCALE / 2),
        sphere(0, 3 * SCALE, -SCALE, SCALE),
    ]);
    assert_eq!(world.hit(&along_minus_z(), 0, FAR), None);
}

#[test]
fn range_is_applied_to_every_member() {
    let world = Objects::new(vec![
        sphere(0, 0, -SCALE, SCALE / 2),
        sphere(0, 0, -3 * SCALE, SCALE / 2),
    ]);
    let ray = along_minus_z();
    assert_eq!(world.hit(&ray, 0, FAR).unwrap().t, 500_000);
    assert_eq!(world.hit(&ray, 500_001, FAR).unwrap().t, 1_500_000);
    assert_eq!(world.hit(&ray, 1_500_001, FAR).unwrap().t, 2_500_000);
    assert_eq!(world.hit(&ray, 2_500_001, FAR).unwrap().t, 3_500_000);
    assert_eq!(world.hit(&ray, 3_500_001, FAR), None);
    assert_eq!(world.hit(&ray, 0, 499_999), None);
}

#[test]
fn of_equally_near_hits_the_last_member_wins() {
    let touching = sphere(0, 0, 0, SCALE / 2);
    let mirrored = sphere(0, 0, -SCALE, SCALE / 2);
    let from_between = Ray { origin: Vec3::new(0, 0, -500_000), direction: Vec3::new(SCALE, 0, 0) };
    let a = touching.hit(&from_between, -FAR, FAR).unwrap();
    let b = mirrored.hit(&from_between, -FAR, FAR).unwrap();
    assert_eq!(a.t, 0);
    assert_eq!(b.t, 0);
    assert_ne!(a.normal, b.normal);
    assert_eq!(Objects::new(vec![touching, mirrored]).hit(&from_between, -FAR, FAR), Some(b));
    assert_eq!(Objects::new(vec![mirrored, touching]).hit(&from_between, -FAR, FAR), Some(a));
}

#[test]
fn scenes_nest() {
    let near = Objects::new(vec![sphere(0, 0, -SCALE, SCALE / 2)]);
    let far = Objects::new(vec![
        sphere(0, 0, -4 * SCALE, SCALE / 2),
        sphere(0, 0, -2 * SCALE, SCALE / 4),
    ]);
    let ray = along_minus_z();
    assert_eq!(far.hit(&ray, 0, FAR).unwrap().t, 1_750_000);
    let world = Objects::new(vec![far, near]);
    assert_eq!(world.hit(&ray, 0, FAR).unwrap().t, 500_000);
    assert_eq!(world.hit(&ray, 1_500_001, FAR).unwrap().t, 1_750_000);
}

#[test]
fn scene_hit_is_the_least_of_its_members_hits() {
    let members = vec![
        sphere(0, -100_500_000, -SCALE, 100 * SCALE),
        sphere(0, 0, -SCALE, SCALE / 2),
        sphere(SCALE, 0, -SCALE, SCALE / 2),
        sphere(-SCALE, 200_000, -1_500_000, 700_000),
    ];
    let world = Objects::new(members.clone());
    let mut seen = 0;
    for dx in -8..=8 {
        for dy in -8..=8 {
            let ray = Ray {
                origin: Vec3::new(0, 0, 0),
                direction: Vec3::new(dx * 250_000, dy * 125_000, -SCALE),
            };
            let mut least: Option<i64> = None;
            for member in members.iter() {
                if let Some(hit) = member.hit(&ray, 0, FAR) {
                    least = Some(match least {
                        Some(t) if t <= hit.t => t,
                        _ => hit.t,
                    });
                }
            }
            let found = world.hit(&ray, 0, FAR);
            assert_eq!(found.map(|hit| hit.t), least);
            if let Some(hit) = found {
                seen += 1;
                assert!(members.iter().any(|member| member.hit(&ray, 0, FAR) == Some(hit)));
            }
        }
    }
    assert!(seen > 50);
}
