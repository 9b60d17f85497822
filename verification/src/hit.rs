//! Hit records and the capability of being hit by a ray.

use crate::ray::Ray;
use crate::ray::RayView;
use crate::ray::POS_LIMIT;
use crate::vec3::Vec3;
use crate::vec3::Vec3View;
use crate::vec3::DOT_LIMIT;
use vstd::prelude::*;

verus! {

/// Largest magnitude of a component of a reported surface normal: 63 units.
/// A normal plus a vector of the unit ball is then still a direction of a ray.
pub const NORMAL_LIMIT: i64 = 63_000_000;

/// The mathematical value of a `HitRecord`.
pub struct HitView {
    pub p: Vec3View,
    pub normal: Vec3View,
    pub t: int,
    pub front_face: bool,
}

impl HitView {
    /// The record of a hit at `p`, parameter `t`, on a surface whose outward
    /// normal there is `outward`: the reported normal is the outward normal when
    /// the ray comes from outside, and its opposite otherwise.
    pub open spec fn facing(ray: RayView, p: Vec3View, t: int, outward: Vec3View) -> HitView {
        let front_face = ray.direction.dot(outward) < 0;
        HitView {
            p,
            normal: if front_face {
                outward
            } else {
                outward.negated()
            },
            t,
            front_face,
        }
    }

    /// The hit point can start a ray, and the normal is short enough to scatter from.
    pub open spec fn wf(self) -> bool {
        &&& self.p.within(POS_LIMIT as int)
        &&& self.normal.within(NORMAL_LIMIT as int)
    }
}

/// The result of a successful intersection test.
#[derive(Clone, Copy, Debug, PartialEq, Eq, Structural)]
pub struct HitRecord {
    /// Where the ray meets the surface.
    pub p: Vec3,
    /// The surface normal there, turned against the incoming ray.
    pub normal: Vec3,
    /// The ray parameter of the hit.
    pub t: i64,
    /// Whether the ray came from outside the surface.
    pub front_face: bool,
}

impl View for HitRecord {
    type V = HitView;

    open spec fn view(&self) -> HitView {
        HitView { p: self.p@, normal: self.normal@, t: self.t as int, front_face: self.front_face }
    }
}

/// The mathematical value of an optional hit record.
pub open spec fn hit_view(r: Option<HitRecord>) -> Option<HitView> {
    match r {
        Some(h) => Some(h@),
        None => None,
    }
}

/// The hit, unless it lies beyond `bound`.
pub open spec fn no_farther_than(hit: Option<HitView>, bound: int) -> Option<HitView> {
    match hit {
        Some(h) => if h.t <= bound {
            Some(h)
        } else {
            None
        },
        None => None,
    }
}

/// The reported normal never points along the ray: whichever side is hit, the
/// dot product of the ray's direction with the normal is at most zero.
pub proof fn lemma_normal_faces_ray(ray: RayView, p: Vec3View, t: int, outward: Vec3View)
    ensures
        ray.direction.dot(HitView::facing(ray, p, t, outward).normal) <= 0,
        HitView::facing(ray, p, t, outward).front_face <==> ray.direction.dot(outward) < 0,
{
    let d = ray.direction;
    let n = outward;
    assert(d.x * (-n.x) + d.y * (-n.y) + d.z * (-n.z) == -(d.x * n.x + d.y * n.y + d.z * n.z))
        by (nonlinear_arith);
}

impl HitRecord {
    /// Builds the record of a hit at `p`, parameter `t`, from the surface's
    /// outward normal, turning the normal against the ray.
    pub fn from(ray: &Ray, p: Vec3, t: i64, outward_normal: Vec3) -> (r: HitRecord)
        requires
            ray.direction@.within(DOT_LIMIT as int),
            outward_normal@.within(DOT_LIMIT as int),
        ensures
            r@ == HitView::facing(ray@, p@, t as int, outward_normal@),
            ray@.direction.dot(r@.normal) <= 0,
    {
        proof {
            lemma_normal_faces_ray(ray@, p@, t as int, outward_normal@);
        }
        let front_face = ray.direction.dot(outward_normal) < 0;
        HitRecord {
            p,
            normal: if front_face {
                outward_normal
            } else {
                outward_normal.negated()
            },
            t,
            front_face,
        }
    }
}

/// Anything that can report whether and where a ray meets it.
///
/// `hit_spec` is the mathematical answer; `hit` computes it. The two laws are
/// what an aggregate needs from its members to pick the nearest hit while it
/// narrows the search range.
pub trait Hittable {
    /// The shape lies within the limits that its intersection test works in.
    spec fn wf(&self) -> bool;

    /// The hit of `ray` on this shape with parameter in `[t_min, t_max]`, if any.
    spec fn hit_spec(&self, ray: RayView, t_min: int, t_max: int) -> Option<HitView>;

    /// Tests `ray` against this shape for a hit with parameter in `[t_min, t_max]`.
    /// The normal of a hit faces against the ray.
    fn hit(&self, ray: &Ray, t_min: i64, t_max: i64) -> (r: Option<HitRecord>)
        requires
            self.wf(),
            ray.wf(),
        ensures
            hit_view(r) == self.hit_spec(ray@, t_min as int, t_max as int),
            r matches Some(h) ==> {
                &&& t_min <= h.t <= t_max
                &&& h@.wf()
                &&& ray@.direction.dot(h@.normal) <= 0
            },
    ;

    /// A hit lies in the range asked for, is well-formed, and its normal
    /// faces against the ray.
    proof fn lemma_hit_sound(&self, ray: RayView, t_min: int, t_max: int)
        requires
            self.wf(),
            ray.wf(),
        ensures
            self.hit_spec(ray, t_min, t_max) matches Some(h) ==> {
                &&& t_min <= h.t <= t_max
                &&& h.wf()
                &&& ray.direction.dot(h.normal) <= 0
            },
    ;

    /// A range that ends at the largest parameter has no far end: no hit
    /// lies beyond it, so a longer range finds the same.
    proof fn lemma_hit_far_end(&self, ray: RayView, t_min: int, t_max: int)
        requires
            self.wf(),
            ray.wf(),
            t_max >= i64::MAX,
        ensures
            self.hit_spec(ray, t_min, t_max) == self.hit_spec(ray, t_min, i64::MAX as int),
    ;

    /// Lowering the upper end of the range keeps the hit if it is still in
    /// range, and finds no other.
    proof fn lemma_hit_narrowed(&self, ray: RayView, t_min: int, t_max: int, bound: int)
        requires
            self.wf(),
            ray.wf(),
            bound <= t_max,
        ensures
            self.hit_spec(ray, t_min, bound) == no_farther_than(
                self.hit_spec(ray, t_min, t_max),
                bound,
            ),
    ;
}

} // verus!
