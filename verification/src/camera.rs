//! The camera: from viewport coordinates to rays.

use crate::fixed::mul_div;
use crate::fixed::SCALE;
use crate::quadratic::lemma_div_within;
use crate::ray::Ray;
use crate::ray::RayView;
use crate::ray::POS_LIMIT;
use crate::vec3::Vec3;
use crate::vec3::Vec3View;
use vstd::prelude::*;

verus! {

/// Largest magnitude of an aspect ratio (width over height) of a
/// well-formed camera: 6.
pub const ASPECT_LIMIT: i64 = 6_000_000;

/// Largest magnitude of a component of the viewport's two extent vectors: 12 units.
pub const EXTENT_LIMIT: i64 = 12_000_000;

/// Largest magnitude of a component of the vector from the camera's origin
/// to the viewport's lower left corner: 16 units.
pub const CORNER_LIMIT: i64 = 16_000_000;

/// Largest magnitude of a viewport coordinate: 2. The viewport itself spans
/// the coordinates from 0 to 1; a jittered sample may fall just outside.
pub const UV_LIMIT: i64 = 2_000_000;

/// Height of the viewport: 2 units.
pub const VIEWPORT_HEIGHT: i64 = 2_000_000;

/// Distance from the camera's origin to the viewport: 1 unit.
pub const FOCAL_LENGTH: i64 = 1_000_000;

/// A camera: its origin, and the viewport as a corner and two extent vectors.
#[derive(Clone, Copy, Debug, PartialEq, Eq, Structural)]
pub struct Camera {
    pub origin: Vec3,
    pub horizontal: Vec3,
    pub vertical: Vec3,
    pub lower_left_corner: Vec3,
}

impl Camera {
    /// The geometry lies within the limits in which every ray of the camera
    /// is a ray that the intersection tests take.
    pub open spec fn wf(&self) -> bool {
        &&& self.origin@.within(POS_LIMIT as int)
        &&& self.horizontal@.within(EXTENT_LIMIT as int)
        &&& self.vertical@.within(EXTENT_LIMIT as int)
        &&& self.lower_left_corner@.minus(self.origin@).within(CORNER_LIMIT as int)
    }

    /// Whether the geometry lies within the limits of a well-formed camera.
    pub fn is_wf(&self) -> (ok: bool)
        ensures
            ok == self.wf(),
    {
        let o = self.origin;
        let h = self.horizontal;
        let v = self.vertical;
        let c = self.lower_left_corner;
        if !(-POS_LIMIT <= o.x && o.x <= POS_LIMIT && -POS_LIMIT <= o.y && o.y <= POS_LIMIT
            && -POS_LIMIT <= o.z && o.z <= POS_LIMIT) {
            return false;
        }
        if !(-EXTENT_LIMIT <= h.x && h.x <= EXTENT_LIMIT && -EXTENT_LIMIT <= h.y && h.y
            <= EXTENT_LIMIT && -EXTENT_LIMIT <= h.z && h.z <= EXTENT_LIMIT) {
            return false;
        }
        if !(-EXTENT_LIMIT <= v.x && v.x <= EXTENT_LIMIT && -EXTENT_LIMIT <= v.y && v.y
            <= EXTENT_LIMIT && -EXTENT_LIMIT <= v.z && v.z <= EXTENT_LIMIT) {
            return false;
        }
        let dx: i128 = c.x as i128 - o.x as i128;
        let dy: i128 = c.y as i128 - o.y as i128;
        let dz: i128 = c.z as i128 - o.z as i128;
        let limit: i128 = CORNER_LIMIT as i128;
        -limit <= dx && dx <= limit && -limit <= dy && dy <= limit && -limit <= dz && dz <= limit
    }

    /// The geometry of the camera of the given aspect ratio: it looks from
    /// the origin along the negative z axis at a viewport two units high,
    /// one unit away and centred on the axis.
    pub open spec fn of_aspect(aspect_ratio: int) -> Camera {
        Camera {
            origin: Vec3 { x: 0, y: 0, z: 0 },
            horizontal: Vec3 { x: (2 * aspect_ratio) as i64, y: 0, z: 0 },
            vertical: Vec3 { x: 0, y: VIEWPORT_HEIGHT, z: 0 },
            lower_left_corner: Vec3 {
                x: (-aspect_ratio) as i64,
                y: (-(VIEWPORT_HEIGHT / 2)) as i64,
                z: (-FOCAL_LENGTH) as i64,
            },
        }
    }

    /// The ray from the origin through the point of the viewport at the
    /// coordinates `u` (left to right) and `v` (bottom to top).
    pub open spec fn ray_spec(&self, u: int, v: int) -> RayView {
        RayView {
            origin: self.origin@,
            direction: self.lower_left_corner@.plus(self.horizontal@.scaled(u)).plus(
                self.vertical@.scaled(v),
            ).minus(self.origin@),
        }
    }

    /// The camera of the given aspect ratio. The width of its viewport,
    /// twice the ratio, has to be a 64-bit raw value; the camera is
    /// well-formed where the ratio is at most `ASPECT_LIMIT` in magnitude.
    pub fn new(aspect_ratio: i64) -> (camera: Camera)
        requires
            i64::MIN <= 2 * aspect_ratio <= i64::MAX,
        ensures
            camera == Camera::of_aspect(aspect_ratio as int),
            -ASPECT_LIMIT <= aspect_ratio <= ASPECT_LIMIT ==> camera.wf(),
    {
        let viewport_height: i64 = VIEWPORT_HEIGHT;
        assert((aspect_ratio * viewport_height) / (SCALE as int) == 2 * aspect_ratio) by {
            assert(aspect_ratio * viewport_height == 2_000_000 * aspect_ratio);
            assert((2_000_000 * aspect_ratio) / 1_000_000 == 2 * aspect_ratio);
        }
        let viewport_width: i64 = mul_div(aspect_ratio, viewport_height, SCALE) as i64;
        let focal_length: i64 = FOCAL_LENGTH;
        let origin = Vec3::new(0, 0, 0);
        let horizontal = Vec3::new(viewport_width, 0, 0);
        let vertical = Vec3::new(0, viewport_height, 0);
        let lower_left_corner = origin.minus(horizontal.halved()).minus(vertical.halved()).minus(
            Vec3::new(0, 0, focal_length),
        );
        Camera { origin, horizontal, vertical, lower_left_corner }
    }

    /// A well-formed camera casts well-formed rays through the points of
    /// its viewport, and somewhat beyond: at every coordinate up to
    /// `UV_LIMIT` in magnitude.
    pub proof fn lemma_ray_is_wf(&self, u: int, v: int)
        requires
            self.wf(),
            -UV_LIMIT <= u <= UV_LIMIT,
            -UV_LIMIT <= v <= UV_LIMIT,
        ensures
            self.ray_spec(u, v).wf(),
            self.ray_spec(u, v).direction.fits(),
    {
        lemma_scaled_within(self.horizontal@, u);
        lemma_scaled_within(self.vertical@, v);
    }

    /// The ray from the origin through the point of the viewport at the
    /// coordinates `u` and `v`. The direction has to be a vector of 64-bit
    /// raw values; the ray is well-formed where `lemma_ray_is_wf` says so.
    pub fn get_ray(&self, u: i64, v: i64) -> (ray: Ray)
        requires
            self.ray_spec(u as int, v as int).direction.fits(),
        ensures
            ray@ == self.ray_spec(u as int, v as int),
            self.wf() && -UV_LIMIT <= u <= UV_LIMIT && -UV_LIMIT <= v <= UV_LIMIT
                ==> ray.wf(),
    {
        proof {
            if self.wf() && -UV_LIMIT <= u <= UV_LIMIT && -UV_LIMIT <= v <= UV_LIMIT {
                self.lemma_ray_is_wf(u as int, v as int);
            }
        }
        let x: i128 = along(self.lower_left_corner.x, self.horizontal.x, self.vertical.x, u, v)
            - self.origin.x as i128;
        let y: i128 = along(self.lower_left_corner.y, self.horizontal.y, self.vertical.y, u, v)
            - self.origin.y as i128;
        let z: i128 = along(self.lower_left_corner.z, self.horizontal.z, self.vertical.z, u, v)
            - self.origin.z as i128;
        Ray { origin: self.origin, direction: Vec3 { x: x as i64, y: y as i64, z: z as i64 } }
    }
}

/// One coordinate of the point of the viewport at `u` and `v`: that of the
/// corner, and `u` and `v` times those of the two extents.
fn along(corner: i64, horizontal: i64, vertical: i64, u: i64, v: i64) -> (c: i128)
    ensures
        c == corner + (u * horizontal) / (SCALE as int) + (v * vertical) / (SCALE as int),
        -0x1000_0000_0000_0000_0000_0000_0000_0000 <= c,
        c <= 0x1000_0000_0000_0000_0000_0000_0000_0000,
{
    proof {
        let word: int = 0x8000_0000_0000_0000;
        let wide: int = 0x0800_0000_0000_0000_0000_0000_0000_0000;
        crate::vec3::lemma_product_bound(u as int, horizontal as int, word, word);
        crate::vec3::lemma_product_bound(v as int, vertical as int, word, word);
        assert(word * word == 0x4000_0000_0000_0000_0000_0000_0000_0000) by (nonlinear_arith)
            requires
                word == 0x8000_0000_0000_0000,
        ;
        lemma_div_within(u * horizontal, SCALE as int, wide);
        lemma_div_within(v * vertical, SCALE as int, wide);
    }
    corner as i128 + mul_div(u, horizontal, SCALE) + mul_div(v, vertical, SCALE)
}

/// An extent vector scaled by a viewport coordinate stays within 24 units.
proof fn lemma_scaled_within(extent: Vec3View, k: int)
    requires
        extent.within(EXTENT_LIMIT as int),
        -UV_LIMIT <= k <= UV_LIMIT,
    ensures
        extent.scaled(k).within(24_000_000),
{
    lemma_scaled_component(extent.x, k);
    lemma_scaled_component(extent.y, k);
    lemma_scaled_component(extent.z, k);
}

/// One component of an extent vector scaled by a viewport coordinate.
proof fn lemma_scaled_component(c: int, k: int)
    requires
        -EXTENT_LIMIT <= c <= EXTENT_LIMIT,
        -UV_LIMIT <= k <= UV_LIMIT,
    ensures
        -24_000_000 <= (k * c) / (SCALE as int) <= 24_000_000,
{
    crate::vec3::lemma_product_bound(k, c, UV_LIMIT as int, EXTENT_LIMIT as int);
    lemma_div_within(k * c, SCALE as int, 24_000_000);
}

} // verus!
