//! Rays: an origin and a direction, and the point at a given parameter.

use crate::fixed::mul_div;
use crate::fixed::SCALE;
use crate::vec3::Vec3;
use crate::vec3::Vec3View;
use vstd::prelude::*;

verus! {

/// Largest magnitude of a coordinate of a ray's origin: 16001 units.
pub const POS_LIMIT: i64 = 16_001_000_000;

/// Largest magnitude of a component of a ray's direction: 64 units.
pub const DIR_LIMIT: i64 = 64_000_000;

/// The mathematical value of a `Ray`.
pub struct RayView {
    pub origin: Vec3View,
    pub direction: Vec3View,
}

impl RayView {
    /// The point of the ray at parameter `t`: the origin plus `t` times the direction.
    pub open spec fn at(self, t: int) -> Vec3View {
        self.origin.plus(self.direction.scaled(t))
    }

    /// Origin and direction lie within the limits that the intersection tests work in.
    pub open spec fn wf(self) -> bool {
        &&& self.origin.within(POS_LIMIT as int)
        &&& self.direction.within(DIR_LIMIT as int)
    }
}

/// A ray. The direction is not normalised: its length scales the parameter.
#[derive(Clone, Copy, Debug, PartialEq, Eq, Structural)]
pub struct Ray {
    pub origin: Vec3,
    pub direction: Vec3,
}

impl View for Ray {
    type V = RayView;

    open spec fn view(&self) -> RayView {
        RayView { origin: self.origin@, direction: self.direction@ }
    }
}

impl Ray {
    /// Origin and direction lie within the limits that the intersection tests work in.
    pub open spec fn wf(&self) -> bool {
        self@.wf()
    }

    /// Whether origin and direction lie within the limits of the intersection tests.
    pub fn is_wf(&self) -> (ok: bool)
        ensures
            ok == self.wf(),
    {
        -POS_LIMIT <= self.origin.x && self.origin.x <= POS_LIMIT
            && -POS_LIMIT <= self.origin.y && self.origin.y <= POS_LIMIT
            && -POS_LIMIT <= self.origin.z && self.origin.z <= POS_LIMIT
            && -DIR_LIMIT <= self.direction.x && self.direction.x <= DIR_LIMIT
            && -DIR_LIMIT <= self.direction.y && self.direction.y <= DIR_LIMIT
            && -DIR_LIMIT <= self.direction.z && self.direction.z <= DIR_LIMIT
    }

    /// The point of the ray at parameter `t`.
    pub fn at(&self, t: i64) -> (p: Vec3)
        requires
            self@.at(t as int).fits(),
        ensures
            p@ == self@.at(t as int),
    {
        let dx: i128 = mul_div(t, self.direction.x, SCALE);
        let dy: i128 = mul_div(t, self.direction.y, SCALE);
        let dz: i128 = mul_div(t, self.direction.z, SCALE);
        let x: i128 = self.origin.x as i128 + dx;
        let y: i128 = self.origin.y as i128 + dy;
        let z: i128 = self.origin.z as i128 + dz;
        Vec3 { x: x as i64, y: y as i64, z: z as i64 }
    }
}

} // verus!
