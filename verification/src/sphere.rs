//! Spheres, and the closed-form test of a ray against one.

use crate::fixed::div_floor;
use crate::fixed::floor_sqrt;
use crate::fixed::isqrt;
use crate::fixed::lemma_floor_sqrt;
use crate::fixed::SCALE;
use crate::hit::lemma_normal_faces_ray;
use crate::hit::HitRecord;
use crate::hit::HitView;
use crate::hit::Hittable;
use crate::hit::NORMAL_LIMIT;
use crate::quadratic::combined;
use crate::quadratic::lemma_abs_le;
use crate::quadratic::lemma_cauchy_schwarz;
use crate::quadratic::lemma_combined_norm_sq;
use crate::quadratic::lemma_div_within;
use crate::quadratic::lemma_triangle;
use crate::quadratic::lemma_triangle_below;
use crate::quadratic::lemma_square_le;
use crate::quadratic::lemma_swap_factors;
use crate::quadratic::lemma_rounded_root_at_most;
use crate::quadratic::lemma_rounded_root_is_near;
use crate::ray::Ray;
use crate::ray::RayView;
use crate::ray::DIR_LIMIT;
use crate::ray::POS_LIMIT;
use crate::vec3::lemma_dot_bound;
use crate::vec3::lemma_product_bound;
use crate::vec3::lemma_square_le_norm_sq;
use crate::vec3::Vec3;
use crate::vec3::Vec3View;
use vstd::arithmetic::div_mod::lemma_div_is_ordered;
use vstd::arithmetic::div_mod::lemma_fundamental_div_mod;
use vstd::arithmetic::div_mod::lemma_hoist_over_denominator;
use vstd::prelude::*;

verus! {

/// Largest magnitude of a coordinate of a sphere's centre: 8000 units.
pub const CENTER_LIMIT: i64 = 8_000_000_000;

/// Largest radius of a sphere: 8000 units.
pub const RADIUS_LIMIT: i64 = 8_000_000_000;

/// Smallest radius of a sphere: 3 raw units. The normal at the rounded hit
/// point of a smaller sphere could be too long to scatter a ray from.
///
/// A sphere this small is admitted, but the grid does not resolve it: see
/// `Sphere::resolved` for what is promised only of larger ones.
pub const MIN_RADIUS: i64 = 3;

/// How far beyond the radius, in raw units and along each axis, the rounded
/// hit point may lie from the centre.
pub const HIT_SLACK: i64 = 128;

/// No root of a well-formed sphere and ray lies beyond this parameter: 56002
/// million units, which a ray of the shortest direction needs to cross the
/// farthest sphere.
pub const ROOT_LIMIT: i64 = 56_002_000_000_000_000;

/// How far, in raw units, the reported point of a hit may lie from the
/// sphere's surface.
pub const HIT_TOLERANCE: i64 = 260;

/// A sphere: the points at distance `radius` from `center`.
#[derive(Clone, Copy, Debug, PartialEq, Eq, Structural)]
pub struct Sphere {
    pub center: Vec3,
    pub radius: i64,
}

impl Sphere {
    /// The vector from the centre to the ray's origin.
    pub open spec fn offset(&self, ray: RayView) -> Vec3View {
        ray.origin.minus(self.center@)
    }

    /// Half the linear coefficient of the quadratic: the offset dotted with the direction.
    pub open spec fn half_b(&self, ray: RayView) -> int {
        self.offset(ray).dot(ray.direction)
    }

    /// The constant coefficient of the quadratic: the squared offset less the squared radius.
    pub open spec fn quad_c(&self, ray: RayView) -> int {
        self.offset(ray).norm_sq() - self.radius * self.radius
    }

    /// A quarter of the quadratic's discriminant. The ray's line misses the
    /// sphere exactly when it is negative.
    pub open spec fn discriminant(&self, ray: RayView) -> int {
        self.half_b(ray) * self.half_b(ray) - ray.direction.norm_sq() * self.quad_c(ray)
    }

    /// The smaller root of the quadratic, rounded down to a raw unit of the parameter.
    pub open spec fn near_root(&self, ray: RayView) -> int {
        ((-self.half_b(ray) - floor_sqrt(self.discriminant(ray))) * SCALE)
            / ray.direction.norm_sq()
    }

    /// The larger root of the quadratic, rounded down to a raw unit of the parameter.
    pub open spec fn far_root(&self, ray: RayView) -> int {
        ((-self.half_b(ray) + floor_sqrt(self.discriminant(ray))) * SCALE)
            / ray.direction.norm_sq()
    }

    /// The parameter at which the ray hits: the smaller root if it lies in
    /// `[t_min, t_max]`, else the larger root if that does. A ray without a
    /// direction hits nothing.
    pub open spec fn hit_parameter(&self, ray: RayView, t_min: int, t_max: int) -> Option<int> {
        if ray.direction.norm_sq() == 0 || self.discriminant(ray) < 0 {
            None
        } else if t_min <= self.near_root(ray) <= t_max {
            Some(self.near_root(ray))
        } else if t_min <= self.far_root(ray) <= t_max {
            Some(self.far_root(ray))
        } else {
            None
        }
    }

    /// The grid resolves the sphere: its radius is larger than the tolerance
    /// of a hit point, `HIT_TOLERANCE` raw units.
    ///
    /// Of every well-formed sphere a hit keeps to the contract of `hit`: the
    /// rounded root, the point of the ray there, the normal and the facing
    /// formed from that rounded point, the normal against the ray. Of a
    /// resolved sphere the hit point also lies no nearer to the centre than
    /// the tolerance allows, and the normal is no shorter than a unit one by
    /// more than the tolerance allows. Of a sphere that is not resolved
    /// neither is promised: the rounding is as large as the sphere, and the
    /// normal may be much shorter or longer than a unit one. The facing is in
    /// every case that of the rounded point; it may differ from that of the
    /// exact geometry where the ray grazes the surface, and anywhere on a
    /// sphere that is not resolved.
    pub open spec fn resolved(&self) -> bool {
        self.radius > HIT_TOLERANCE
    }

    /// The outward normal at the point `p` of the surface: the vector from the
    /// centre to `p`, divided by the radius.
    pub open spec fn outward_normal(&self, p: Vec3View) -> Vec3View {
        p.minus(self.center@).divided(self.radius as int)
    }

    /// The record of the hit at parameter `t`.
    pub open spec fn record_at(&self, ray: RayView, t: int) -> HitView {
        HitView::facing(ray, ray.at(t), t, self.outward_normal(ray.at(t)))
    }

    /// The sphere of the given centre and radius, if they lie within the
    /// limits of the intersection test.
    pub fn new(center: Vec3, radius: i64) -> (r: Option<Sphere>)
        ensures
            r == if (Sphere { center, radius }).wf() {
                Some(Sphere { center, radius })
            } else {
                None
            },
    {
        let sphere = Sphere { center, radius };
        if sphere.is_wf() {
            Some(sphere)
        } else {
            None
        }
    }

    /// Whether the centre and the radius lie within the limits of the intersection test.
    pub fn is_wf(&self) -> (ok: bool)
        ensures
            ok == self.wf(),
    {
        -CENTER_LIMIT <= self.center.x && self.center.x <= CENTER_LIMIT && -CENTER_LIMIT
            <= self.center.y && self.center.y <= CENTER_LIMIT && -CENTER_LIMIT <= self.center.z
            && self.center.z <= CENTER_LIMIT && MIN_RADIUS <= self.radius && self.radius
            <= RADIUS_LIMIT
    }

    /// At either rounded root `t`, the vector from the centre to the reported
    /// point is `SCALE * offset + t * direction`, divided by `SCALE` and rounded
    /// down; and that undivided vector is about `SCALE * radius` long: at most
    /// 128 units longer, and at least as long as 258 units less would be.
    proof fn lemma_root_vector(&self, ray: RayView, t: int)
        requires
            self.wf(),
            ray.wf(),
            ray.direction.norm_sq() > 0,
            self.discriminant(ray) >= 0,
            t == self.near_root(ray) || t == self.far_root(ray),
        ensures
            ({
                let w = combined(self.offset(ray), ray.direction, SCALE as int, t);
                let gap = ray.at(t).minus(self.center@);
                let reach = 1_000_000 * self.radius + 128_000_000;
                &&& gap.x == w.x / (SCALE as int)
                &&& gap.y == w.y / (SCALE as int)
                &&& gap.z == w.z / (SCALE as int)
                &&& w.norm_sq() <= reach * reach
                &&& w.norm_sq() >= 1_000_000_000_000 * (self.radius * self.radius - 258
                    * self.radius)
            }),
    {
        let oc = self.offset(ray);
        let d = ray.direction;
        let a = d.norm_sq();
        let h = self.half_b(ray);
        let q = oc.norm_sq();
        let r = self.radius as int;
        let rr = r * r;
        let disc = self.discriminant(ray);
        let s = floor_sqrt(disc);
        let m: int = SCALE as int;
        // twice DIR_LIMIT: no direction is longer
        let k: int = 128_000_000;
        let num = if t == self.near_root(ray) {
            (-h - s) * m
        } else {
            (-h + s) * m
        };
        lemma_floor_sqrt(disc);
        lemma_dot_bound(d, d, DIR_LIMIT as int, DIR_LIMIT as int);
        assert(DIR_LIMIT * DIR_LIMIT == 4_096_000_000_000_000) by (nonlinear_arith)
            requires
                DIR_LIMIT == 64_000_000,
        ;
        assert(k * k == 16_384_000_000_000_000) by (nonlinear_arith)
            requires
                k == 128_000_000,
        ;
        lemma_cauchy_schwarz(oc, d);
        assert(q * a == a * q) by (nonlinear_arith);
        lemma_rounded_root_is_near(a, h, q, r, s, m, k, num, t);
        lemma_combined_norm_sq(oc, d, m, t);
        lemma_hoist_over_denominator(t * d.x, oc.x, m as nat);
        lemma_hoist_over_denominator(t * d.y, oc.y, m as nat);
        lemma_hoist_over_denominator(t * d.z, oc.z, m as nat);
        assert((m * m) * rr - 2 * ((k * r) * m) - 2 * (r * (m * m)) == 1_000_000_000_000 * (rr
            - 258 * r)) by (nonlinear_arith)
            requires
                m == 1_000_000,
                k == 128_000_000,
        ;
    }

    /// The point that either rounded root gives lies within `HIT_SLACK` raw
    /// units of the sphere's bounding box, and the outward normal there is
    /// shorter than `NORMAL_LIMIT` along each axis.
    pub proof fn lemma_root_point_is_near(&self, ray: RayView, t: int)
        requires
            self.wf(),
            ray.wf(),
            ray.direction.norm_sq() > 0,
            self.discriminant(ray) >= 0,
            t == self.near_root(ray) || t == self.far_root(ray),
        ensures
            ray.at(t).minus(self.center@).within(self.radius + HIT_SLACK),
            ray.at(t).within(POS_LIMIT as int),
            self.outward_normal(ray.at(t)).within(NORMAL_LIMIT as int),
    {
        let r = self.radius as int;
        let m = SCALE as int;
        self.lemma_root_vector(ray, t);
        let w = combined(self.offset(ray), ray.direction, m, t);
        let reach = 1_000_000 * r + 128_000_000;
        lemma_square_le_norm_sq(w);
        lemma_abs_le(w.x, reach);
        lemma_abs_le(w.y, reach);
        lemma_abs_le(w.z, reach);
        lemma_div_within(w.x, m, r + HIT_SLACK);
        lemma_div_within(w.y, m, r + HIT_SLACK);
        lemma_div_within(w.z, m, r + HIT_SLACK);
        let gap = ray.at(t).minus(self.center@);
        lemma_div_within(gap.x * SCALE, r, NORMAL_LIMIT as int);
        lemma_div_within(gap.y * SCALE, r, NORMAL_LIMIT as int);
        lemma_div_within(gap.z * SCALE, r, NORMAL_LIMIT as int);
    }

    /// At either rounded root, the distance of the reported point from the
    /// centre differs from the radius by at most `HIT_TOLERANCE` raw units.
    proof fn lemma_root_point_on_surface(&self, ray: RayView, t: int)
        requires
            self.wf(),
            ray.wf(),
            ray.direction.norm_sq() > 0,
            self.discriminant(ray) >= 0,
            t == self.near_root(ray) || t == self.far_root(ray),
        ensures
            ({
                let gap = ray.at(t).minus(self.center@);
                &&& gap.norm_sq() <= (self.radius + 130) * (self.radius + 130)
                &&& self.radius >= HIT_TOLERANCE ==> gap.norm_sq() >= (self.radius - HIT_TOLERANCE)
                    * (self.radius - HIT_TOLERANCE)
            }),
    {
        let r = self.radius as int;
        let rr = r * r;
        let m: int = 1_000_000;
        self.lemma_root_vector(ray, t);
        let w = combined(self.offset(ray), ray.direction, m, t);
        let gap = ray.at(t).minus(self.center@);
        // w = m * gap + rest, with every component of rest in [0, m)
        let rest = Vec3View { x: w.x % m, y: w.y % m, z: w.z % m };
        let scaled_gap = Vec3View { x: m * gap.x, y: m * gap.y, z: m * gap.z };
        assert(scaled_gap == w.minus(rest));
        lemma_square_le(rest.x, m - 1);
        lemma_square_le(rest.y, m - 1);
        lemma_square_le(rest.z, m - 1);
        let reach = 1_000_000 * r + 128_000_000;
        lemma_triangle(w, rest, reach, 2 * m);
        // the squared length of m * gap is m^2 times that of gap
        lemma_swap_factors(m, gap.x, m, gap.x);
        lemma_swap_factors(m, gap.y, m, gap.y);
        lemma_swap_factors(m, gap.z, m, gap.z);
        let g = gap.norm_sq();
        let mm: int = 1_000_000_000_000;
        let (gx, gy, gz) = (gap.x * gap.x, gap.y * gap.y, gap.z * gap.z);
        assert(mm * (gx + gy + gz) == mm * gx + mm * gy + mm * gz) by (nonlinear_arith);
        assert(scaled_gap.norm_sq() == mm * g);
        assert((reach + 2 * m) * (reach + 2 * m) == mm * ((r + 130) * (r + 130)))
            by (nonlinear_arith)
            requires
                reach == 1_000_000 * r + 128_000_000,
                m == 1_000_000,
                mm == 1_000_000_000_000,
        ;
        assert(g <= (r + 130) * (r + 130)) by (nonlinear_arith)
            requires
                mm * g <= mm * ((r + 130) * (r + 130)),
                mm > 0,
        ;
        if r >= HIT_TOLERANCE {
            let least = 1_000_000 * r - 258_000_000;
            assert(least * least <= mm * (rr - 258 * r)) by (nonlinear_arith)
                requires
                    least == 1_000_000 * r - 258_000_000,
                    mm == 1_000_000_000_000,
                    rr == r * r,
                    r >= 258,
            ;
            lemma_triangle_below(w, rest, least, 2 * m);
            assert((least - 2 * m) * (least - 2 * m) == mm * ((r - 260) * (r - 260)))
                by (nonlinear_arith)
                requires
                    least == 1_000_000 * r - 258_000_000,
                    m == 1_000_000,
                    mm == 1_000_000_000_000,
            ;
            assert(g >= (r - 260) * (r - 260)) by (nonlinear_arith)
                requires
                    mm * g >= mm * ((r - 260) * (r - 260)),
                    mm > 0,
            ;
        }
    }

    /// A hit lies on the surface, to within the tolerance: the reported point
    /// is the point of the ray at the reported parameter, and its distance
    /// from the centre exceeds the radius by at most `HIT_TOLERANCE` raw
    /// units. On a sphere that the grid resolves it also falls short of the
    /// radius by at most as much.
    pub proof fn lemma_hit_point_on_surface(&self, ray: RayView, t_min: int, t_max: int)
        requires
            self.wf(),
            ray.wf(),
            self.hit_spec(ray, t_min, t_max) is Some,
        ensures
            ({
                let hit = self.hit_spec(ray, t_min, t_max).unwrap();
                let gap = hit.p.minus(self.center@);
                &&& hit.p == ray.at(hit.t)
                &&& gap.norm_sq() <= (self.radius + HIT_TOLERANCE) * (self.radius + HIT_TOLERANCE)
                &&& self.resolved() ==> {
                    let inner = self.radius - HIT_TOLERANCE;
                    gap.norm_sq() >= inner * inner
                }
            }),
    {
        let t = self.hit_parameter(ray, t_min, t_max).unwrap();
        let r = self.radius as int;
        lemma_square_le_norm_sq(ray.direction);
        self.lemma_root_point_on_surface(ray, t);
        assert((r + 130) * (r + 130) <= (r + 260) * (r + 260)) by (nonlinear_arith)
            requires
                r >= 0,
        ;
    }

    /// The normal of a hit has unit length, to within the tolerance: its
    /// length exceeds one by at most `HIT_TOLERANCE` over the radius, and
    /// two raw units. On a sphere that the grid resolves it also falls short
    /// of one by at most as much. The bounds are stated of the normal's
    /// length times the radius.
    pub proof fn lemma_hit_normal_is_unit(&self, ray: RayView, t_min: int, t_max: int)
        requires
            self.wf(),
            ray.wf(),
            self.hit_spec(ray, t_min, t_max) is Some,
        ensures
            ({
                let normal = self.hit_spec(ray, t_min, t_max).unwrap().normal;
                let r = self.radius as int;
                let most = SCALE * (r + HIT_TOLERANCE) + 2 * r;
                let least = SCALE * (r - HIT_TOLERANCE) - 2 * r;
                &&& (r * r) * normal.norm_sq() <= most * most
                &&& self.resolved() ==> (r * r) * normal.norm_sq() >= least * least
            }),
    {
        let t = self.hit_parameter(ray, t_min, t_max).unwrap();
        let r = self.radius as int;
        let m: int = 1_000_000;
        let mm: int = 1_000_000_000_000;
        lemma_square_le_norm_sq(ray.direction);
        self.lemma_root_point_on_surface(ray, t);
        let gap = ray.at(t).minus(self.center@);
        let out = self.outward_normal(ray.at(t));
        let normal = self.hit_spec(ray, t_min, t_max).unwrap().normal;
        assert(normal.norm_sq() == out.norm_sq()) by {
            assert((-out.x) * (-out.x) == out.x * out.x) by (nonlinear_arith);
            assert((-out.y) * (-out.y) == out.y * out.y) by (nonlinear_arith);
            assert((-out.z) * (-out.z) == out.z * out.z) by (nonlinear_arith);
        }
        // gap * m = r * out + rest, with every component of rest in [0, r)
        let scaled_gap = Vec3View { x: gap.x * m, y: gap.y * m, z: gap.z * m };
        let rest = Vec3View { x: (gap.x * m) % r, y: (gap.y * m) % r, z: (gap.z * m) % r };
        let scaled_out = Vec3View { x: r * out.x, y: r * out.y, z: r * out.z };
        lemma_fundamental_div_mod(gap.x * m, r);
        lemma_fundamental_div_mod(gap.y * m, r);
        lemma_fundamental_div_mod(gap.z * m, r);
        assert(scaled_out == scaled_gap.minus(rest));
        lemma_square_le(rest.x, r - 1);
        lemma_square_le(rest.y, r - 1);
        lemma_square_le(rest.z, r - 1);
        assert(3 * ((r - 1) * (r - 1)) <= (2 * r) * (2 * r)) by (nonlinear_arith)
            requires
                r >= 1,
        ;
        // the squared lengths of the scaled vectors
        let g = gap.norm_sq();
        let (gx, gy, gz) = (gap.x * gap.x, gap.y * gap.y, gap.z * gap.z);
        lemma_swap_factors(gap.x, m, gap.x, m);
        lemma_swap_factors(gap.y, m, gap.y, m);
        lemma_swap_factors(gap.z, m, gap.z, m);
        assert(m * m == mm);
        assert((gx + gy + gz) * mm == gx * mm + gy * mm + gz * mm) by (nonlinear_arith);
        assert(scaled_gap.norm_sq() == g * mm);
        let o = out.norm_sq();
        let rr = r * r;
        let (ox, oy, oz) = (out.x * out.x, out.y * out.y, out.z * out.z);
        lemma_swap_factors(r, out.x, r, out.x);
        lemma_swap_factors(r, out.y, r, out.y);
        lemma_swap_factors(r, out.z, r, out.z);
        assert(rr * (ox + oy + oz) == rr * ox + rr * oy + rr * oz) by (nonlinear_arith);
        assert(scaled_out.norm_sq() == rr * o);
        // from above
        let far = 1_000_000 * (r + 130);
        assert(g * mm <= far * far) by (nonlinear_arith)
            requires
                g <= (r + 130) * (r + 130),
                far == 1_000_000 * (r + 130),
                mm == 1_000_000_000_000,
        ;
        lemma_triangle(scaled_gap, rest, far, 2 * r);
        let most = SCALE * (r + HIT_TOLERANCE) + 2 * r;
        lemma_square_le(far + 2 * r, most);
        // from below
        if r > HIT_TOLERANCE {
            let near = 1_000_000 * (r - 260);
            assert(g * mm >= near * near) by (nonlinear_arith)
                requires
                    g >= (r - 260) * (r - 260),
                    near == 1_000_000 * (r - 260),
                    mm == 1_000_000_000_000,
            ;
            lemma_triangle_below(scaled_gap, rest, near, 2 * r);
        }
    }

    /// Neither root lies beyond `ROOT_LIMIT`, far below the largest parameter.
    pub proof fn lemma_roots_in_reach(&self, ray: RayView)
        requires
            self.wf(),
            ray.wf(),
            ray.direction.norm_sq() > 0,
            self.discriminant(ray) >= 0,
        ensures
            self.near_root(ray) <= ROOT_LIMIT,
            self.far_root(ray) <= ROOT_LIMIT,
    {
        let oc = self.offset(ray);
        let d = ray.direction;
        let a = d.norm_sq();
        let h = self.half_b(ray);
        let q = oc.norm_sq();
        let r = self.radius as int;
        let s = floor_sqrt(self.discriminant(ray));
        let m: int = SCALE as int;
        // twice the largest offset along an axis: no offset is longer
        let b: int = 48_002_000_000;
        lemma_floor_sqrt(self.discriminant(ray));
        lemma_dot_bound(oc, oc, 24_001_000_000, 24_001_000_000);
        assert(b * b == 2_304_192_004_000_000_000_000) by (nonlinear_arith)
            requires
                b == 48_002_000_000,
        ;
        lemma_cauchy_schwarz(oc, d);
        assert(q * a == a * q) by (nonlinear_arith);
        lemma_rounded_root_at_most(a, h, q, r, s, m, b, (-h - s) * m);
        lemma_rounded_root_at_most(a, h, q, r, s, m, b, (-h + s) * m);
    }

    /// The smaller root is not larger than the larger root.
    pub proof fn lemma_roots_ordered(&self, ray: RayView)
        requires
            ray.direction.norm_sq() > 0,
            self.discriminant(ray) >= 0,
        ensures
            self.near_root(ray) <= self.far_root(ray),
    {
        let h = self.half_b(ray);
        let s = floor_sqrt(self.discriminant(ray));
        lemma_floor_sqrt(self.discriminant(ray));
        lemma_div_is_ordered((-h - s) * SCALE, (-h + s) * SCALE, ray.direction.norm_sq());
    }

    /// A ray whose line stays farther from the centre than the radius hits
    /// nothing. The point of the line at the parameter `p / n` is
    /// `origin + (p / n) * direction`; it lies outside the sphere when
    /// `n * offset + p * direction` is longer than `n * radius`. If that holds
    /// of every point of the line, the test finds no hit, in any range.
    pub proof fn lemma_miss(&self, ray: RayView, t_min: int, t_max: int)
        requires
            forall|p: int, n: int|
                n > 0 ==> #[trigger] combined(self.offset(ray), ray.direction, n, p).norm_sq() > (n
                    * n) * (self.radius * self.radius),
        ensures
            self.hit_spec(ray, t_min, t_max) is None,
    {
        let oc = self.offset(ray);
        let d = ray.direction;
        let a = d.norm_sq();
        let h = self.half_b(ray);
        let q = oc.norm_sq();
        let rr = self.radius * self.radius;
        lemma_square_le_norm_sq(d);
        if a > 0 && self.discriminant(ray) >= 0 {
            // the point of closest approach, at the parameter -h / a
            let w = combined(oc, d, a, -h);
            assert(w.norm_sq() > (a * a) * rr);
            lemma_combined_norm_sq(oc, d, a, -h);
            let ah = a * (-h);
            let hh = h * h;
            assert(ah * h == -(a * hh)) by (nonlinear_arith)
                requires
                    ah == a * (-h),
                    hh == h * h,
            ;
            assert(((-h) * (-h)) * a == a * hh) by (nonlinear_arith)
                requires
                    hh == h * h,
            ;
            assert((a * a) * q == a * (a * q)) by (nonlinear_arith);
            assert((a * a) * rr == a * (a * rr)) by (nonlinear_arith);
            assert(a * (a * q) - a * hh == a * (a * q - hh)) by (nonlinear_arith);
            assert(a * (q - rr) == a * q - a * rr) by (nonlinear_arith);
            assert(a * (a * q - hh) <= a * (a * rr)) by (nonlinear_arith)
                requires
                    a * q - hh <= a * rr,
                    a > 0,
            ;
        }
    }
}

impl Hittable for Sphere {
    /// The centre and the radius lie within the limits of the intersection
    /// test. That admits spheres down to `MIN_RADIUS`, smaller than the
    /// tolerance of a hit point: that a hit lies no deeper inside than the
    /// tolerance, and that its normal is no shorter than a unit one by more
    /// than the tolerance allows, is not promised of them (see `resolved`).
    open spec fn wf(&self) -> bool {
        &&& self.center@.within(CENTER_LIMIT as int)
        &&& MIN_RADIUS <= self.radius <= RADIUS_LIMIT
    }

    open spec fn hit_spec(&self, ray: RayView, t_min: int, t_max: int) -> Option<HitView> {
        match self.hit_parameter(ray, t_min, t_max) {
            Some(t) => Some(self.record_at(ray, t)),
            None => None,
        }
    }

    /// Solves the quadratic of the ray and the sphere in closed form, and
    /// reports the nearest of its roots that lies in `[t_min, t_max]`.
    fn hit(&self, ray: &Ray, t_min: i64, t_max: i64) -> (r: Option<HitRecord>) {
        let oc = ray.origin.minus(self.center);
        proof {
            self.lemma_hit_sound(ray@, t_min as int, t_max as int);
            lemma_dot_bound(ray.direction@, ray.direction@, DIR_LIMIT as int, DIR_LIMIT as int);
            lemma_dot_bound(oc@, ray.direction@, 24_001_000_000, DIR_LIMIT as int);
            lemma_dot_bound(oc@, oc@, 24_001_000_000, 24_001_000_000);
            lemma_square_le_norm_sq(oc@);
            lemma_square_le_norm_sq(ray.direction@);
            let r = self.radius as int;
            lemma_product_bound(r, r, RADIUS_LIMIT as int, RADIUS_LIMIT as int);
        }
        let a: i128 = ray.direction.norm_squared();
        let half_b: i128 = oc.dot(ray.direction);
        let radius: i128 = self.radius as i128;
        let c: i128 = oc.norm_squared() - radius * radius;
        if a == 0 {
            return None;
        }
        proof {
            let h_limit: int = 4_608_192_000_000_000_000;
            lemma_product_bound(half_b as int, half_b as int, h_limit, h_limit);
            let a_limit: int = 12_288_000_000_000_000;
            let c_limit: int = 1_728_144_003_000_000_000_000;
            lemma_product_bound(a as int, c as int, a_limit, c_limit);
        }
        let discriminant: i128 = half_b * half_b - a * c;
        if discriminant < 0 {
            return None;
        }
        let s: i128 = isqrt(discriminant as u128) as i128;
        let scale: i128 = SCALE as i128;
        // Find the nearest root that lies in the acceptable range.
        let mut root: i128 = div_floor((-half_b - s) * scale, a);
        if root < t_min as i128 || (t_max as i128) < root {
            root = div_floor((-half_b + s) * scale, a);
            if root < t_min as i128 || (t_max as i128) < root {
                return None;
            }
        }
        let t: i64 = root as i64;
        proof {
            self.lemma_root_point_is_near(ray@, t as int);
        }
        let p = ray.at(t);
        let outward = p.minus(self.center).divided(self.radius);
        Some(HitRecord::from(ray, p, t, outward))
    }

    proof fn lemma_hit_sound(&self, ray: RayView, t_min: int, t_max: int) {
        lemma_square_le_norm_sq(ray.direction);
        match self.hit_parameter(ray, t_min, t_max) {
            Some(t) => {
                self.lemma_root_point_is_near(ray, t);
                lemma_normal_faces_ray(ray, ray.at(t), t, self.outward_normal(ray.at(t)));
            },
            None => {},
        }
    }

    proof fn lemma_hit_far_end(&self, ray: RayView, t_min: int, t_max: int) {
        lemma_square_le_norm_sq(ray.direction);
        if ray.direction.norm_sq() > 0 && self.discriminant(ray) >= 0 {
            self.lemma_roots_in_reach(ray);
        }
    }

    proof fn lemma_hit_narrowed(&self, ray: RayView, t_min: int, t_max: int, bound: int) {
        lemma_square_le_norm_sq(ray.direction);
        if ray.direction.norm_sq() > 0 && self.discriminant(ray) >= 0 {
            self.lemma_roots_ordered(ray);
        }
    }
}

} // verus!
