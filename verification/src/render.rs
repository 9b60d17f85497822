//! The sampler: from a camera and a scene to a grid of pixels.
//!
//! Each pixel averages the colours of several rays through its footprint,
//! each ray jittered by a random fraction of a pixel, and each colour is
//! quantised to three bytes.

use crate::camera::Camera;
use crate::camera::UV_LIMIT;
use crate::fixed::div_floor;
use crate::fixed::SCALE;
use crate::hit::Hittable;
use crate::ray::RayView;
use crate::sampling::unit_fraction;
use crate::shade::bounce_offsets;
use crate::shade::is_color;
use crate::shade::radiance;
use crate::vec3::Vec3;
use crate::vec3::Vec3View;
use rand::rngs::ThreadRng;
use vstd::arithmetic::div_mod::lemma_fundamental_div_mod;
use vstd::arithmetic::div_mod::lemma_fundamental_div_mod_converse;
use vstd::arithmetic::div_mod::lemma_mod_bound;
use vstd::prelude::*;

verus! {

/// The largest value of a channel that is quantised as it is: 0.999.
pub const CHANNEL_CAP: i64 = 999_000;

/// A channel brought into the range from zero to `CHANNEL_CAP`.
pub open spec fn clamp_channel(c: int) -> int {
    if c < 0 {
        0
    } else if c > CHANNEL_CAP {
        CHANNEL_CAP as int
    } else {
        c
    }
}

/// The byte of a channel: 256 times the clamped channel, rounded down.
pub open spec fn quantize_channel(c: int) -> int {
    (256 * clamp_channel(c)) / (SCALE as int)
}

/// The three bytes of the pixel whose samples add up to `sum`: each channel
/// of the sum is divided by the number of samples, clamped and quantised.
pub open spec fn pixel_spec(sum: Vec3View, samples: int) -> (u8, u8, u8) {
    (
        quantize_channel(sum.x / samples) as u8,
        quantize_channel(sum.y / samples) as u8,
        quantize_channel(sum.z / samples) as u8,
    )
}

/// The byte of a channel is a byte.
pub proof fn lemma_quantize_channel_is_byte(c: int)
    ensures
        0 <= quantize_channel(c) <= 255,
{
    let k = clamp_channel(c);
    lemma_fundamental_div_mod(256 * k, SCALE as int);
    lemma_mod_bound(256 * k, SCALE as int);
}

/// One channel of a pixel: the sum over the samples, averaged, clamped and quantised.
fn quantize(sum: i64, samples_per_pixel: i32) -> (byte: u8)
    requires
        samples_per_pixel > 0,
    ensures
        byte == quantize_channel((sum as int) / (samples_per_pixel as int)),
{
    let mean: i128 = div_floor(sum as i128, samples_per_pixel as i128);
    let clamped: i128 = if mean < 0 {
        0
    } else if mean > CHANNEL_CAP as i128 {
        CHANNEL_CAP as i128
    } else {
        mean
    };
    proof {
        lemma_quantize_channel_is_byte((sum as int) / (samples_per_pixel as int));
    }
    ((256 * clamped) / (SCALE as i128)) as u8
}

/// The three bytes of the pixel whose samples add up to `sum`.
pub fn pixel(sum: &Vec3, samples_per_pixel: i32) -> (bytes: (u8, u8, u8))
    requires
        samples_per_pixel > 0,
    ensures
        bytes == pixel_spec(sum@, samples_per_pixel as int),
{
    (
        quantize(sum.x, samples_per_pixel),
        quantize(sum.y, samples_per_pixel),
        quantize(sum.z, samples_per_pixel),
    )
}

/// The height of an image of the given width and aspect ratio (width over
/// height): the width divided by the ratio, rounded to the nearest whole
/// number, a half upwards.
pub open spec fn image_height_spec(image_width: int, aspect_ratio: int) -> int {
    (2 * (image_width * SCALE) + aspect_ratio) / (2 * aspect_ratio)
}

/// The height of an image of the given width and aspect ratio.
pub fn image_height(image_width: i32, aspect_ratio: i64) -> (height: i64)
    requires
        0 <= image_width,
        0 < aspect_ratio,
    ensures
        height == image_height_spec(image_width as int, aspect_ratio as int),
        0 <= height,
{
    assert(0 <= image_width * SCALE <= 0x8000_0000 * 1_000_000) by (nonlinear_arith)
        requires
            0 <= image_width <= 0x8000_0000,
            SCALE == 1_000_000,
    ;
    let numerator: i128 = 2 * ((image_width as i128) * (SCALE as i128)) + aspect_ratio as i128;
    let denominator: i128 = 2 * (aspect_ratio as i128);
    proof {
        lemma_fundamental_div_mod(numerator as int, denominator as int);
        lemma_mod_bound(numerator as int, denominator as int);
        let q = (numerator as int) / (denominator as int);
        let ws = image_width * SCALE;
        assert(q <= ws) by (nonlinear_arith)
            requires
                (2 * aspect_ratio) * q <= 2 * ws + aspect_ratio,
                aspect_ratio >= 1,
                ws >= 0,
        ;
        assert(0 <= q) by (nonlinear_arith)
            requires
                denominator * q + denominator > 0,
                denominator >= 1,
        ;
    }
    (numerator / denominator) as i64
}

/// The viewport coordinate of a sample in the pixel column (or row) `index`
/// of `extent`, `jitter` of a pixel from the pixel's start.
pub open spec fn sample_coordinate_spec(index: int, jitter: int, extent: int) -> int {
    (index * SCALE + jitter) / (extent - 1)
}

/// The viewport coordinate of a sample in the pixel column (or row) `index`
/// of `extent`, `jitter` of a pixel from the pixel's start.
pub fn sample_coordinate(index: i32, jitter: i64, extent: i32) -> (u: i64)
    requires
        2 <= extent,
        0 <= index < extent,
        0 <= jitter < SCALE,
    ensures
        u == sample_coordinate_spec(index as int, jitter as int, extent as int),
        0 <= u < UV_LIMIT,
{
    let numerator: i64 = (index as i64) * SCALE + jitter;
    let denominator: i64 = (extent - 1) as i64;
    proof {
        lemma_fundamental_div_mod(numerator as int, denominator as int);
        lemma_mod_bound(numerator as int, denominator as int);
        let q = (numerator as int) / (denominator as int);
        assert(numerator < denominator * UV_LIMIT) by (nonlinear_arith)
            requires
                numerator < (denominator + 1) * 1_000_000,
                denominator >= 1,
                UV_LIMIT == 2_000_000,
        ;
        assert(q < UV_LIMIT) by (nonlinear_arith)
            requires
                denominator * q <= numerator,
                numerator < denominator * UV_LIMIT,
                denominator >= 1,
        ;
        assert(0 <= q) by (nonlinear_arith)
            requires
                denominator * q + denominator > 0,
                denominator >= 1,
        ;
    }
    numerator / denominator
}

/// What chance decides of one sample: the jitter along each axis, and the
/// offsets that scatter the bounces of its ray.
pub struct SampleDraw {
    pub jitter_u: int,
    pub jitter_v: int,
    pub offsets: Seq<Vec3View>,
}

impl SampleDraw {
    /// The jitters are fractions of a pixel and the offsets are those of a
    /// path of at most `depth` bounces.
    pub open spec fn valid(self, depth: int) -> bool {
        &&& 0 <= self.jitter_u < SCALE
        &&& 0 <= self.jitter_v < SCALE
        &&& bounce_offsets(self.offsets, depth)
    }
}

/// The frame that is rendered: the camera's image, its size in pixels, the
/// number of samples that each pixel averages and the budget of bounces of
/// each ray.
#[derive(Clone, Copy, Debug, PartialEq, Eq, Structural)]
pub struct Frame {
    pub camera: Camera,
    pub image_width: i32,
    pub image_height: i32,
    pub samples_per_pixel: i32,
    pub max_depth: i32,
}

impl Frame {
    /// The camera is well-formed, the image has at least two columns and
    /// two rows, and each pixel has at least one sample.
    pub open spec fn wf(&self) -> bool {
        &&& self.camera.wf()
        &&& 2 <= self.image_width
        &&& 2 <= self.image_height
        &&& 1 <= self.samples_per_pixel
    }

    /// Whether the frame is well-formed.
    pub fn is_wf(&self) -> (ok: bool)
        ensures
            ok == self.wf(),
    {
        self.camera.is_wf() && 2 <= self.image_width && 2 <= self.image_height && 1
            <= self.samples_per_pixel
    }

    /// The ray of the sample that `draw` decides in the pixel of column `i`
    /// and row `j`, rows counted from the bottom.
    pub open spec fn sample_ray(&self, i: int, j: int, draw: SampleDraw) -> RayView {
        self.camera.ray_spec(
            sample_coordinate_spec(i, draw.jitter_u, self.image_width as int),
            sample_coordinate_spec(j, draw.jitter_v, self.image_height as int),
        )
    }

    /// The colour of the sample that `draw` decides in the pixel `(i, j)`.
    pub open spec fn sample_color<H: Hittable>(
        &self,
        world: &H,
        i: int,
        j: int,
        draw: SampleDraw,
    ) -> Vec3View {
        radiance(world, self.sample_ray(i, j, draw), self.max_depth as int, draw.offsets)
    }

    /// The sum of the colours of the samples that `draws` decide in the pixel `(i, j)`.
    pub open spec fn sample_sum<H: Hittable>(
        &self,
        world: &H,
        i: int,
        j: int,
        draws: Seq<SampleDraw>,
    ) -> Vec3View
        decreases draws.len(),
    {
        if draws.len() == 0 {
            Vec3View { x: 0, y: 0, z: 0 }
        } else {
            self.sample_sum(world, i, j, draws.drop_last()).plus(
                self.sample_color(world, i, j, draws.last()),
            )
        }
    }

    /// The bytes of the pixel `(i, j)` when `draws` decide its samples.
    pub open spec fn pixel_of<H: Hittable>(
        &self,
        world: &H,
        i: int,
        j: int,
        draws: Seq<SampleDraw>,
    ) -> (u8, u8, u8) {
        pixel_spec(self.sample_sum(world, i, j, draws), draws.len() as int)
    }

    /// `bytes` is what some valid draws, one for each sample, make of the
    /// pixel `(i, j)`.
    pub open spec fn is_pixel<H: Hittable>(
        &self,
        world: &H,
        i: int,
        j: int,
        bytes: (u8, u8, u8),
    ) -> bool {
        exists|draws: Seq<SampleDraw>|
            {
                &&& draws.len() == self.samples_per_pixel
                &&& forall|k: int|
                    0 <= k < draws.len() ==> (#[trigger] draws[k]).valid(self.max_depth as int)
                &&& bytes == #[trigger] self.pixel_of(world, i, j, draws)
            }
    }

    /// `pixels` is an image of the frame: one pixel for each column of each
    /// row, row by row from the top row down and from left to right in each.
    pub open spec fn is_image<H: Hittable>(&self, world: &H, pixels: Seq<(u8, u8, u8)>) -> bool {
        &&& pixels.len() == self.image_width * self.image_height
        &&& forall|n: int|
            0 <= n < pixels.len() ==> self.is_pixel(
                world,
                n % (self.image_width as int),
                self.image_height - 1 - n / (self.image_width as int),
                #[trigger] pixels[n],
            )
    }

    /// The sum of the colours of samples has channels between zero and the
    /// number of samples.
    pub proof fn lemma_sample_sum_bounds<H: Hittable>(
        &self,
        world: &H,
        i: int,
        j: int,
        draws: Seq<SampleDraw>,
    )
        ensures
            0 <= self.sample_sum(world, i, j, draws).x <= draws.len() * SCALE,
            0 <= self.sample_sum(world, i, j, draws).y <= draws.len() * SCALE,
            0 <= self.sample_sum(world, i, j, draws).z <= draws.len() * SCALE,
        decreases draws.len(),
    {
        if draws.len() > 0 {
            self.lemma_sample_sum_bounds(world, i, j, draws.drop_last());
            crate::shade::lemma_radiance_is_color(
                world,
                self.sample_ray(i, j, draws.last()),
                self.max_depth as int,
                draws.last().offsets,
            );
            assert((draws.len() - 1) * SCALE + SCALE == draws.len() * SCALE) by (nonlinear_arith);
        }
    }

    /// With one sample for a pixel, the pixel is the quantised colour of
    /// that sample itself.
    pub proof fn lemma_single_sample<H: Hittable>(
        &self,
        world: &H,
        i: int,
        j: int,
        draw: SampleDraw,
    )
        ensures
            self.sample_sum(world, i, j, seq![draw]) == self.sample_color(world, i, j, draw),
            self.pixel_of(world, i, j, seq![draw]) == (
                quantize_channel(self.sample_color(world, i, j, draw).x) as u8,
                quantize_channel(self.sample_color(world, i, j, draw).y) as u8,
                quantize_channel(self.sample_color(world, i, j, draw).z) as u8,
            ),
    {
        let draws = seq![draw];
        assert(draws.drop_last().len() == 0);
        assert(draws.last() == draw);
        assert(self.sample_sum(world, i, j, draws.drop_last()) == Vec3View { x: 0, y: 0, z: 0 });
    }

    /// The colour of one sample of the pixel `(i, j)`: a ray through a
    /// random point of the pixel's footprint, followed through the scene.
    pub fn sample<H: Hittable>(&self, world: &H, i: i32, j: i32, rng: &mut ThreadRng) -> (c: Vec3)
        requires
            self.wf(),
            world.wf(),
            0 <= i < self.image_width,
            0 <= j < self.image_height,
        ensures
            exists|draw: SampleDraw| #[trigger]
                draw.valid(self.max_depth as int) && c@ == self.sample_color(
                    world,
                    i as int,
                    j as int,
                    draw,
                ),
            is_color(c@),
    {
        let jitter_u: i64 = unit_fraction(rng);
        let jitter_v: i64 = unit_fraction(rng);
        let u: i64 = sample_coordinate(i, jitter_u, self.image_width);
        let v: i64 = sample_coordinate(j, jitter_v, self.image_height);
        proof {
            self.camera.lemma_ray_is_wf(u as int, v as int);
        }
        let ray = self.camera.get_ray(u, v);
        let c = ray.color(world, self.max_depth, rng);
        proof {
            let offsets = choose|offsets: Seq<Vec3View>| #[trigger]
                bounce_offsets(offsets, self.max_depth as int) && c@ == radiance(
                    world,
                    ray@,
                    self.max_depth as int,
                    offsets,
                );
            let draw = SampleDraw { jitter_u: jitter_u as int, jitter_v: jitter_v as int, offsets };
            assert(draw.valid(self.max_depth as int));
            assert(c@ == self.sample_color(world, i as int, j as int, draw));
        }
        c
    }

    /// The pixel `(i, j)`: the average of its samples, quantised.
    pub fn render_pixel<H: Hittable>(
        &self,
        world: &H,
        i: i32,
        j: i32,
        rng: &mut ThreadRng,
    ) -> (bytes: (u8, u8, u8))
        requires
            self.wf(),
            world.wf(),
            0 <= i < self.image_width,
            0 <= j < self.image_height,
        ensures
            self.is_pixel(world, i as int, j as int, bytes),
    {
        let samples_per_pixel: i32 = self.samples_per_pixel;
        let mut pixel_color = Vec3::new(0, 0, 0);
        let ghost mut draws: Seq<SampleDraw> = Seq::empty();
        let mut taken: i32 = 0;
        while taken < samples_per_pixel
            invariant
                self.wf(),
                world.wf(),
                0 <= i < self.image_width,
                0 <= j < self.image_height,
                samples_per_pixel == self.samples_per_pixel,
                0 <= taken <= samples_per_pixel,
                draws.len() == taken,
                forall|k: int|
                    0 <= k < draws.len() ==> (#[trigger] draws[k]).valid(self.max_depth as int),
                pixel_color@ == self.sample_sum(world, i as int, j as int, draws),
            decreases samples_per_pixel - taken,
        {
            let c = self.sample(world, i, j, rng);
            proof {
                let draw = choose|draw: SampleDraw| #[trigger]
                    draw.valid(self.max_depth as int) && c@ == self.sample_color(
                        world,
                        i as int,
                        j as int,
                        draw,
                    );
                let longer = draws.push(draw);
                assert(longer.drop_last() == draws);
                assert(longer.last() == draw);
                self.lemma_sample_sum_bounds(world, i as int, j as int, draws);
                assert(draws.len() * SCALE <= 0x8000_0000 * SCALE) by (nonlinear_arith)
                    requires
                        draws.len() <= 0x8000_0000,
                        SCALE == 1_000_000,
                ;
                draws = longer;
            }
            pixel_color = pixel_color.plus(c);
            taken = taken + 1;
        }
        let bytes = pixel(&pixel_color, samples_per_pixel);
        assert(bytes == self.pixel_of(world, i as int, j as int, draws));
        bytes
    }

    /// The image of the frame: its pixels row by row, from the top row down
    /// and from left to right in each row.
    pub fn render<H: Hittable>(&self, world: &H, rng: &mut ThreadRng) -> (pixels: Vec<(u8, u8, u8)>)
        requires
            self.wf(),
            world.wf(),
        ensures
            self.is_image(world, pixels@),
    {
        let mut pixels: Vec<(u8, u8, u8)> = Vec::new();
        let width: i32 = self.image_width;
        let height: i32 = self.image_height;
        let mut row: i32 = 0;
        while row < height
            invariant
                self.wf(),
                world.wf(),
                width == self.image_width,
                height == self.image_height,
                0 <= row <= height,
                pixels@.len() == row * width,
                forall|n: int|
                    0 <= n < pixels@.len() ==> self.is_pixel(
                        world,
                        n % (width as int),
                        height - 1 - n / (width as int),
                        #[trigger] pixels@[n],
                    ),
            decreases height - row,
        {
            let j: i32 = height - 1 - row;
            let mut i: i32 = 0;
            while i < width
                invariant
                    self.wf(),
                    world.wf(),
                    width == self.image_width,
                    height == self.image_height,
                        0 <= row < height,
                    j == height - 1 - row,
                    0 <= i <= width,
                    pixels@.len() == row * width + i,
                    forall|n: int|
                        0 <= n < pixels@.len() ==> self.is_pixel(
                            world,
                            n % (width as int),
                            height - 1 - n / (width as int),
                            #[trigger] pixels@[n],
                        ),
                decreases width - i,
            {
                let bytes = self.render_pixel(world, i, j, rng);
                proof {
                    let n = pixels@.len() as int;
                    assert(n == width * row + i) by (nonlinear_arith)
                        requires
                            n == row * width + i,
                    ;
                    lemma_fundamental_div_mod_converse(n, width as int, row as int, i as int);
                }
                pixels.push(bytes);
                i = i + 1;
            }
            proof {
                assert(row * width + width == (row + 1) * width) by (nonlinear_arith);
            }
            row = row + 1;
        }
        proof {
            assert(row * width == self.image_width * self.image_height) by (nonlinear_arith)
                requires
                    row == height,
                    width == self.image_width,
                    height == self.image_height,
            ;
        }
        pixels
    }
}

} // verus!
