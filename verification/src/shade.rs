//! The integrator: the colour that a ray gathers from a scene.
//!
//! A ray that meets nothing takes the colour of the sky behind it. A ray
//! that meets a surface is scattered from it in a random direction, and
//! takes half the colour that the scattered ray gathers. A budget of
//! bounces ends every path: a ray that has none left gathers black.

use crate::fixed::SCALE;
use crate::hit::HitRecord;
use crate::hit::HitView;
use crate::hit::Hittable;
use crate::ray::Ray;
use crate::ray::RayView;
use crate::sampling::in_unit_ball;
use crate::sampling::lemma_centre_in_unit_ball;
use crate::sampling::lemma_unit_ball_within;
use crate::sampling::random_in_unit_sphere;
use crate::vec3::lemma_component_le_norm;
use crate::vec3::lemma_unit_component;
use crate::vec3::Vec3;
use crate::vec3::Vec3View;
use crate::vec3::DOT_LIMIT;
use rand::rngs::ThreadRng;
use vstd::arithmetic::div_mod::lemma_fundamental_div_mod;
use vstd::arithmetic::div_mod::lemma_mod_bound;
use vstd::prelude::*;

verus! {

/// The far end of the range in which a ray is tested against the scene: the
/// largest parameter there is, so that the range has no far end.
pub const T_MAX: i64 = i64::MAX;

/// No light.
pub open spec fn black() -> Vec3View {
    Vec3View { x: 0, y: 0, z: 0 }
}

/// White, the colour of the background straight down.
pub open spec fn white() -> Vec3View {
    Vec3View { x: SCALE as int, y: SCALE as int, z: SCALE as int }
}

/// Sky blue, (0.5, 0.7, 1.0), the colour of the background straight up.
pub open spec fn sky_blue() -> Vec3View {
    Vec3View { x: 500_000, y: 700_000, z: 1_000_000 }
}

/// Every channel lies between zero and one.
pub open spec fn is_color(c: Vec3View) -> bool {
    &&& 0 <= c.x <= SCALE
    &&& 0 <= c.y <= SCALE
    &&& 0 <= c.z <= SCALE
}

/// Where in the gradient a direction looks: half of one plus the height of
/// the direction brought to unit length. Zero is straight down, one straight up.
pub open spec fn gradient_parameter(direction: Vec3View) -> int {
    (direction.normalized().y + SCALE) / 2
}

/// The colour of the background in a direction: white and sky blue, blended
/// by the gradient parameter.
pub open spec fn background_spec(direction: Vec3View) -> Vec3View {
    let t = gradient_parameter(direction);
    white().scaled(SCALE - t).plus(sky_blue().scaled(t))
}

/// The ray that leaves a hit towards the point one normal and one offset
/// away from it.
pub open spec fn scatter_spec(hit: HitView, offset: Vec3View) -> RayView {
    RayView { origin: hit.p, direction: hit.p.plus(hit.normal).plus(offset).minus(hit.p) }
}

/// The offsets of a path of at most `depth` bounces: one for each bounce,
/// each strictly inside the unit ball.
pub open spec fn bounce_offsets(offsets: Seq<Vec3View>, depth: int) -> bool {
    &&& offsets.len() >= depth
    &&& forall|i: int| 0 <= i < offsets.len() ==> in_unit_ball(#[trigger] offsets[i])
}

/// The colour that `ray` gathers from `world` with `depth` bounces left,
/// when the bounces are scattered by `offsets`, in their order.
pub open spec fn radiance<H: Hittable>(
    world: &H,
    ray: RayView,
    depth: int,
    offsets: Seq<Vec3View>,
) -> Vec3View
    decreases depth,
{
    if depth <= 0 {
        black()
    } else {
        match world.hit_spec(ray, 0, T_MAX as int) {
            Some(hit) => radiance(
                world,
                scatter_spec(hit, offsets[0]),
                depth - 1,
                offsets.skip(1),
            ).halved(),
            None => background_spec(ray.direction),
        }
    }
}

/// The mathematical values of a sequence of vectors.
pub open spec fn views(vectors: Seq<Vec3>) -> Seq<Vec3View> {
    vectors.map_values(|v: Vec3| v@)
}

/// `b <= w / m` when `m * b <= w`, for a positive `m`.
proof fn lemma_div_at_least(w: int, m: int, b: int)
    requires
        0 < m,
        m * b <= w,
    ensures
        b <= w / m,
{
    lemma_fundamental_div_mod(w, m);
    lemma_mod_bound(w, m);
    let q = w / m;
    assert(b <= q) by (nonlinear_arith)
        requires
            m * b < m * q + m,
            0 < m,
    ;
}

/// `w / m <= b` when `w <= m * b`, for a positive `m`.
proof fn lemma_div_at_most(w: int, m: int, b: int)
    requires
        0 < m,
        w <= m * b,
    ensures
        w / m <= b,
{
    lemma_fundamental_div_mod(w, m);
    lemma_mod_bound(w, m);
    let q = w / m;
    assert(q <= b) by (nonlinear_arith)
        requires
            m * q <= m * b,
            0 < m,
    ;
}

/// One channel of the gradient: between the sky's channel `k` and white's,
/// white at parameter zero and the sky's at parameter one.
proof fn lemma_blend_channel(t: int, k: int)
    requires
        0 <= t <= SCALE,
        0 <= k <= SCALE,
    ensures
        ((SCALE - t) * SCALE) / (SCALE as int) == SCALE - t,
        k <= (SCALE - t) + (t * k) / (SCALE as int) <= SCALE,
        0 <= (t * k) / (SCALE as int) <= k,
        t == 0 ==> (t * k) / (SCALE as int) == 0,
        t == SCALE ==> (t * k) / (SCALE as int) == k,
{
    let m = SCALE as int;
    assert((m - t) * m == m * (m - t)) by (nonlinear_arith);
    lemma_div_at_least((m - t) * m, m, m - t);
    lemma_div_at_most((m - t) * m, m, m - t);
    assert(t * k <= m * t) by (nonlinear_arith)
        requires
            0 <= t,
            k <= m,
    ;
    lemma_div_at_most(t * k, m, t);
    assert(t * k <= m * k) by (nonlinear_arith)
        requires
            0 <= k,
            t <= m,
    ;
    lemma_div_at_most(t * k, m, k);
    assert(0 <= t * k) by (nonlinear_arith)
        requires
            0 <= t,
            0 <= k,
    ;
    lemma_div_at_least(t * k, m, 0);
    assert(m * (k + t - m) <= t * k) by (nonlinear_arith)
        requires
            0 <= t <= m,
            0 <= k <= m,
    ;
    lemma_div_at_least(t * k, m, k + t - m);
    if t == m {
        assert(t * k == m * k);
        lemma_div_at_least(t * k, m, k);
    }
    if t == 0 {
        assert(t * k == 0) by (nonlinear_arith)
            requires
                t == 0,
        ;
    }
}

/// The gradient parameter of any direction lies between zero and one.
pub proof fn lemma_gradient_parameter_bounds(direction: Vec3View)
    ensures
        0 <= gradient_parameter(direction) <= SCALE,
        -SCALE <= direction.normalized().y <= SCALE,
        direction.normalized().y == -SCALE ==> gradient_parameter(direction) == 0,
        direction.normalized().y == SCALE ==> gradient_parameter(direction) == SCALE,
{
    lemma_component_le_norm(direction);
    if direction.norm() != 0 {
        lemma_unit_component(direction.y, direction.norm());
    }
}

/// In every direction each channel of the background lies between that of
/// sky blue and that of white; the background is exactly white where the
/// unit direction points straight down, and exactly sky blue where it
/// points straight up.
pub proof fn lemma_background_bounds(direction: Vec3View)
    ensures
        sky_blue().x <= background_spec(direction).x <= white().x,
        sky_blue().y <= background_spec(direction).y <= white().y,
        sky_blue().z <= background_spec(direction).z <= white().z,
        is_color(background_spec(direction)),
        direction.normalized().y == -SCALE ==> background_spec(direction) == white(),
        direction.normalized().y == SCALE ==> background_spec(direction) == sky_blue(),
{
    lemma_gradient_parameter_bounds(direction);
    let t = gradient_parameter(direction);
    lemma_blend_channel(t, sky_blue().x);
    lemma_blend_channel(t, sky_blue().y);
    lemma_blend_channel(t, sky_blue().z);
}

/// Whatever the ray, the scene and the offsets, the gathered colour has
/// every channel between zero and one.
pub proof fn lemma_radiance_is_color<H: Hittable>(
    world: &H,
    ray: RayView,
    depth: int,
    offsets: Seq<Vec3View>,
)
    ensures
        is_color(radiance(world, ray, depth, offsets)),
    decreases depth,
{
    if depth > 0 {
        match world.hit_spec(ray, 0, T_MAX as int) {
            Some(hit) => {
                lemma_radiance_is_color(
                    world,
                    scatter_spec(hit, offsets[0]),
                    depth - 1,
                    offsets.skip(1),
                );
            },
            None => {
                lemma_background_bounds(ray.direction);
            },
        }
    }
}

/// The integrator asks the scene without a far end: however far beyond
/// `T_MAX` the range is taken, the scene is hit where it is hit up to `T_MAX`.
pub proof fn lemma_no_far_end<H: Hittable>(world: &H, ray: RayView, t_max: int)
    requires
        world.wf(),
        ray.wf(),
        t_max >= T_MAX,
    ensures
        world.hit_spec(ray, 0, t_max) == world.hit_spec(ray, 0, T_MAX as int),
{
    world.lemma_hit_far_end(ray, 0, t_max);
}

/// With no bounce left the gathered colour is exactly black, for any ray,
/// scene and offsets.
pub proof fn lemma_no_depth_is_black<H: Hittable>(
    world: &H,
    ray: RayView,
    depth: int,
    offsets: Seq<Vec3View>,
)
    requires
        depth <= 0,
    ensures
        radiance(world, ray, depth, offsets) == black(),
{
}

/// A ray that meets nothing, with a bounce left, gathers the background of
/// its direction, whatever the offsets. Each channel of that colour lies
/// between that of sky blue and that of white; the colour is exactly white
/// where the unit direction points straight down, and exactly sky blue
/// where it points straight up.
pub proof fn lemma_miss_is_background<H: Hittable>(
    world: &H,
    ray: RayView,
    depth: int,
    offsets: Seq<Vec3View>,
)
    requires
        depth > 0,
        world.hit_spec(ray, 0, T_MAX as int) is None,
    ensures
        radiance(world, ray, depth, offsets) == background_spec(ray.direction),
        sky_blue().x <= radiance(world, ray, depth, offsets).x <= white().x,
        sky_blue().y <= radiance(world, ray, depth, offsets).y <= white().y,
        sky_blue().z <= radiance(world, ray, depth, offsets).z <= white().z,
        ray.direction.normalized().y == -SCALE ==> radiance(world, ray, depth, offsets) == white(),
        ray.direction.normalized().y == SCALE ==> radiance(world, ray, depth, offsets)
            == sky_blue(),
{
    lemma_background_bounds(ray.direction);
}

/// The colour of the background in a direction.
pub fn background(direction: Vec3) -> (c: Vec3)
    requires
        direction@.within(DOT_LIMIT as int),
    ensures
        c@ == background_spec(direction@),
        is_color(c@),
{
    proof {
        lemma_background_bounds(direction@);
        lemma_gradient_parameter_bounds(direction@);
        let t = gradient_parameter(direction@);
        lemma_blend_channel(t, sky_blue().x);
        lemma_blend_channel(t, sky_blue().y);
        lemma_blend_channel(t, sky_blue().z);
    }
    let unit_direction = direction.normalized();
    let t: i64 = (unit_direction.y + SCALE) / 2;
    let white = Vec3::new(SCALE, SCALE, SCALE);
    let sky = Vec3::new(500_000, 700_000, 1_000_000);
    white.scaled(SCALE - t).plus(sky.scaled(t))
}

/// The ray that leaves a hit towards the point one normal and one offset
/// away from it.
pub fn scatter(hit: &HitRecord, offset: Vec3) -> (ray: Ray)
    requires
        hit@.wf(),
        in_unit_ball(offset@),
    ensures
        ray@ == scatter_spec(hit@, offset@),
        ray.wf(),
{
    proof {
        lemma_unit_ball_within(offset@);
    }
    let target = hit.p.plus(hit.normal).plus(offset);
    Ray { origin: hit.p, direction: target.minus(hit.p) }
}

impl Ray {
    /// The colour that the ray gathers from `world` with `depth` bounces
    /// left, each bounce scattered by a fresh random offset.
    pub fn color<H: Hittable>(&self, world: &H, depth: i32, rng: &mut ThreadRng) -> (c: Vec3)
        requires
            self.wf(),
            world.wf(),
        ensures
            exists|offsets: Seq<Vec3View>| #[trigger]
                bounce_offsets(offsets, depth as int) && c@ == radiance(
                    world,
                    self@,
                    depth as int,
                    offsets,
                ),
            depth <= 0 ==> c@ == black(),
            is_color(c@),
        decreases depth,
    {
        if depth <= 0 {
            proof {
                let none = Seq::<Vec3View>::empty();
                assert(bounce_offsets(none, depth as int));
            }
            return Vec3::new(0, 0, 0);
        }
        if let Some(hit) = world.hit(self, 0, T_MAX) {
            let offset = random_in_unit_sphere(rng);
            let scattered = scatter(&hit, offset);
            let gathered = scattered.color(world, depth - 1, rng);
            proof {
                let rest = choose|offsets: Seq<Vec3View>| #[trigger]
                    bounce_offsets(offsets, depth - 1) && gathered@ == radiance(
                        world,
                        scattered@,
                        depth - 1,
                        offsets,
                    );
                let offsets = seq![offset@] + rest;
                assert(offsets[0] == offset@);
                assert(offsets.skip(1) =~= rest);
                assert(bounce_offsets(offsets, depth as int)) by {
                    assert forall|i: int| 0 <= i < offsets.len() implies in_unit_ball(
                        #[trigger] offsets[i],
                    ) by {
                        if i > 0 {
                            assert(offsets[i] == rest[i - 1]);
                        }
                    }
                }
                assert(gathered@.halved() == radiance(world, self@, depth as int, offsets));
                lemma_radiance_is_color(world, self@, depth as int, offsets);
            }
            return gathered.halved();
        }
        proof {
            let zeros = Seq::new(depth as nat, |i: int| black());
            lemma_centre_in_unit_ball();
            assert(bounce_offsets(zeros, depth as int));
            assert(background_spec(self@.direction) == radiance(world, self@, depth as int, zeros));
        }
        background(self.direction)
    }

    /// The colour that the ray gathers from `world` with `depth` bounces
    /// left, the bounces scattered by the given offsets from index `from` on.
    pub fn color_along<H: Hittable>(
        &self,
        world: &H,
        depth: i32,
        offsets: &Vec<Vec3>,
        from: usize,
    ) -> (c: Vec3)
        requires
            self.wf(),
            world.wf(),
            from <= offsets.len(),
            bounce_offsets(views(offsets@).skip(from as int), depth as int),
        ensures
            c@ == radiance(world, self@, depth as int, views(offsets@).skip(from as int)),
            depth <= 0 ==> c@ == black(),
            is_color(c@),
        decreases depth,
    {
        proof {
            lemma_radiance_is_color(world, self@, depth as int, views(offsets@).skip(from as int));
        }
        if depth <= 0 {
            return Vec3::new(0, 0, 0);
        }
        if let Some(hit) = world.hit(self, 0, T_MAX) {
            let ghost rest = views(offsets@).skip(from as int);
            assert(rest.len() >= 1);
            let offset = offsets[from];
            assert(rest[0] == offset@);
            assert(in_unit_ball(rest[0]));
            let scattered = scatter(&hit, offset);
            proof {
                assert(rest.skip(1) =~= views(offsets@).skip(from as int + 1));
                assert(bounce_offsets(rest.skip(1), depth - 1)) by {
                    assert forall|i: int| 0 <= i < rest.skip(1).len() implies in_unit_ball(
                        #[trigger] rest.skip(1)[i],
                    ) by {
                        assert(rest.skip(1)[i] == rest[i + 1]);
                    }
                }
            }
            let gathered = scattered.color_along(world, depth - 1, offsets, from + 1);
            return gathered.halved();
        }
        background(self.direction)
    }
}

} // verus!
