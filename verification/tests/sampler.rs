use raytracer::camera::Camera;
use raytracer::fixed::SCALE;
use raytracer::render::image_height;
use raytracer::render::pixel;
use raytracer::render::sample_coordinate;
use raytracer::render::Frame;
use raytracer::scene::Objects;
use raytracer::shade::background;
use raytracer::sphere::Sphere;
use raytracer::vec3::Vec3;

const WIDE: i64 = 1_777_777;

fn world() -> Objects<Sphere> {
    Objects::new(vec![
        Sphere { center: Vec3::new(0, 0, -SCALE), radius: SCALE / 2 },
        Sphere { center: Vec3::new(0, -100_500_000, -SCALE), radius: 100 * SCALE },
    ])
}

fn frame(width: i32, height: i32, samples: i32, depth: i32) -> Frame {
    Frame {
        camera: Camera::new(WIDE),
        image_width: width,
        image_height: height,
        samples_per_pixel: samples,
        max_depth: depth,
    }
}

#[test]
fn channels_are_clamped_and_quantised() {
    assert_eq!(pixel(&Vec3::new(0, 1, SCALE / 2), 1), (0, 0, 128));
    assert_eq!(pixel(&Vec3::new(999_000, SCALE, 2 * SCALE), 1), (255, 255, 255));
    assert_eq!(pixel(&Vec3::new(-5, 3_906, 3_907), 1), (0, 0, 1));
    assert_eq!(pixel(&Vec3::new(998_999, 996_093, 996_094), 1), (255, 254, 255));
    assert_eq!(pixel(&Vec3::new(i64::MIN, i64::MAX, 0), 1), (0, 255, 0));
}

#[test]
fn sum_is_averaged_over_the_samples() {
    assert_eq!(pixel(&Vec3::new(150 * SCALE, 50 * SCALE, 0), 100), (255, 128, 0));
    assert_eq!(pixel(&Vec3::new(7, -7, 1_000_000), 2), (0, 0, 128));
    assert_eq!(pixel(&Vec3::new(3 * 3_907, 3 * 3_907 - 1, 0), 3), (1, 0, 0));
    assert_eq!(pixel(&Vec3::new(i64::MAX, i64::MIN, 1), i32::MAX), (255, 0, 0));
}

#[test]
fn single_sample_pixel_is_the_colour_of_the_sample() {
    let world = world();
    let f = frame(4, 3, 1, 5);
    let offsets = vec![Vec3::new(0, 0, 0); 5];
    let u = sample_coordinate(1, 250_000, f.image_width);
    let v = sample_coordinate(2, 750_000, f.image_height);
    assert_eq!(u, 416_666);
    assert_eq!(v, 1_375_000);
    let to_sky = f.camera.get_ray(u, v);
    assert_eq!(to_sky.origin, Vec3::new(0, 0, 0));
    assert_eq!(to_sky.direction, Vec3::new(-296_299, 1_750_000, -SCALE));
    let sky = to_sky.color_along(&world, f.max_depth, &offsets, 0);
    assert_eq!(sky, Vec3::new(535_247, 721_148, 1_000_000));
    assert_eq!(to_sky.color_along(&world, f.max_depth, &offsets, 0), sky);
    assert_eq!(pixel(&sky, f.samples_per_pixel), (137, 184, 255));
    let to_ground =
        f.camera.get_ray(sample_coordinate(0, 250_000, 4), sample_coordinate(0, 750_000, 3));
    assert_eq!(to_ground.direction, Vec3::new(-1_481_483, -250_000, -SCALE));
    let ground = to_ground.color_along(&world, f.max_depth, &offsets, 0);
    assert_eq!(ground, Vec3::new(250_079, 350_047, 500_000));
    assert_eq!(pixel(&ground, f.samples_per_pixel), (64, 89, 128));
    assert_eq!(pixel(&ground.plus(ground), 2), (64, 89, 128));
    assert_eq!(pixel(&ground.plus(sky), 2), (100, 137, 192));
}

#[test]
fn image_height_is_rounded_to_the_nearest_row() {
    assert_eq!(image_height(1024, WIDE), 576);
    assert_eq!(image_height(400, WIDE), 225);
    assert_eq!(image_height(3, 2 * SCALE), 2);
    assert_eq!(image_height(1, 2 * SCALE), 1);
    assert_eq!(image_height(1, 2 * SCALE + 1), 0);
    assert_eq!(image_height(0, SCALE), 0);
    assert_eq!(image_height(100, SCALE), 100);
    assert_eq!(image_height(100, 3 * SCALE), 33);
    assert_eq!(image_height(200, 3 * SCALE), 67);
    assert_eq!(image_height(i32::MAX, 1), (i32::MAX as i64) * SCALE);
    assert_eq!(image_height(i32::MAX, i64::MAX), 0);
}

#[test]
fn sample_coordinates_span_the_viewport() {
    assert_eq!(sample_coordinate(0, 0, 2), 0);
    assert_eq!(sample_coordinate(1, 0, 2), SCALE);
    assert_eq!(sample_coordinate(1, 999_999, 2), 1_999_999);
    assert_eq!(sample_coordinate(0, 500_000, 1024), 488);
    assert_eq!(sample_coordinate(1023, 0, 1024), SCALE);
    assert_eq!(sample_coordinate(512, 250_000, 1024), 500_733);
    assert_eq!(sample_coordinate(i32::MAX - 1, 999_999, i32::MAX), SCALE);
}

#[test]
fn frame_limits_are_checked() {
    assert!(frame(2, 2, 1, 0).is_wf());
    assert!(frame(1024, 576, 100, 50).is_wf());
    assert!(!frame(1, 2, 1, 0).is_wf());
    assert!(!frame(2, 1, 1, 0).is_wf());
    assert!(!frame(2, 2, 0, 0).is_wf());
    assert!(frame(2, 2, 1, -3).is_wf());
}

#[test]
fn samples_are_colours() {
    let world = world();
    let f = frame(8, 5, 3, 4);
    let mut rng = rand::thread_rng();
    for j in 0..f.image_height {
        for i in 0..f.image_width {
            let c = f.sample(&world, i, j, &mut rng);
            assert!(0 <= c.x && c.x <= SCALE);
            assert!(0 <= c.y && c.y <= SCALE);
            assert!(0 <= c.z && c.z <= SCALE);
        }
    }
}

#[test]
fn image_has_a_pixel_for_each_column_of_each_row() {
    let world = world();
    let f = frame(16, 9, 4, 6);
    let mut rng = rand::thread_rng();
    let pixels = f.render(&world, &mut rng);
    assert_eq!(pixels.len(), 16 * 9);
}

#[test]
fn without_depth_the_image_is_black() {
    let world = world();
    let f = frame(5, 4, 3, 0);
    let mut rng = rand::thread_rng();
    assert_eq!(f.render(&world, &mut rng), vec![(0u8, 0u8, 0u8); 20]);
    assert_eq!(f.render_pixel(&world, 4, 3, &mut rng), (0, 0, 0));
}

#[test]
fn rows_run_from_the_top_of_the_image_down() {
    let empty: Objects<Sphere> = Objects::new(vec![]);
    let f = frame(6, 5, 8, 3);
    let mut rng = rand::thread_rng();
    let pixels = f.render(&empty, &mut rng);
    assert_eq!(pixels.len(), 30);
    let jitters = [0, 250_000, 500_000, 750_000, 999_999];
    for row in 0..5usize {
        for col in 0..6usize {
            let (r, g, b) = pixels[row * 6 + col];
            assert_eq!(b, 255);
            let j = 4 - row as i32;
            let mut least = (255u8, 255u8);
            let mut most = (0u8, 0u8);
            for ju in jitters.iter() {
                for jv in jitters.iter() {
                    let u = sample_coordinate(col as i32, *ju, 6);
                    let v = sample_coordinate(j, *jv, 5);
                    let seen = pixel(&background(f.camera.get_ray(u, v).direction), 1);
                    least = (least.0.min(seen.0), least.1.min(seen.1));
                    most = (most.0.max(seen.0), most.1.max(seen.1));
                }
            }
            assert!(i32::from(least.0) - 1 <= i32::from(r) && i32::from(r) <= i32::from(most.0) + 1);
            assert!(i32::from(least.1) - 1 <= i32::from(g) && i32::from(g) <= i32::from(most.1) + 1);
        }
    }
    let top_left = pixels[0];
    let bottom_left = pixels[24];
    assert!(top_left.0 < bottom_left.0);
    assert!(top_left.1 < bottom_left.1);
}

#[test]
fn pixels_are_averages_of_their_samples() {
    let world = world();
    let mut rng = rand::thread_rng();
    let f = frame(65, 37, 4, 1);
    let pixels = f.render(&world, &mut rng);
    assert_eq!(pixels.len(), 65 * 37);
    let centre = pixels[18 * 65 + 32];
    assert_eq!(centre, (0, 0, 0));
    let sky = pixels[32];
    assert_eq!(sky.2, 255);
    assert!(sky.0 >= 127);
    assert_eq!(f.render_pixel(&world, 32, 18, &mut rng), (0, 0, 0));
}
