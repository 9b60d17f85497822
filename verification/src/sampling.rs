//! Random numbers: uniform fractions and points of the unit ball.

use crate::fixed::SCALE;
use crate::vec3::lemma_square_le_norm_sq;
use crate::vec3::Vec3;
use crate::vec3::Vec3View;
use rand::rngs::ThreadRng;
use vstd::prelude::*;

verus! {

/// The thread-local generator `rand::rngs::ThreadRng`. Nothing is known of
/// its state, and nothing is claimed of it.
#[verifier::external_type_specification]
#[verifier::external_body]
pub struct ExThreadRng(rand::rngs::ThreadRng);

/// Draws one number with `rand::Rng::gen_range` from the half-open range
/// that starts at zero and ends before `bound`. The range is not empty, so
/// the call does not panic for its arguments; the generator panics if the
/// operating system fails it when it reseeds. All that is assumed of the
/// number drawn is that it lies in the range, as `rand` promises of a draw.
#[verifier::external_body]
fn draw_below(rng: &mut ThreadRng, bound: i64) -> (r: i64)
    requires
        0 < bound,
    ensures
        0 <= r < bound,
{
    rand::Rng::gen_range(rng, 0..bound)
}

/// The vector lies strictly inside the ball of radius one round the origin.
pub open spec fn in_unit_ball(v: Vec3View) -> bool {
    v.norm_sq() < SCALE * SCALE
}

/// The candidate point that three fractions of `[0, 1)` stand for: each is
/// stretched to `[-1, 1)`.
pub open spec fn candidate(fx: int, fy: int, fz: int) -> Vec3View {
    Vec3View { x: 2 * fx - SCALE, y: 2 * fy - SCALE, z: 2 * fz - SCALE }
}

/// A vector strictly inside the unit ball has components strictly between -1 and 1.
pub proof fn lemma_unit_ball_within(v: Vec3View)
    requires
        in_unit_ball(v),
    ensures
        v.within(SCALE - 1),
{
    lemma_square_le_norm_sq(v);
    assert(SCALE * SCALE == 1_000_000_000_000) by (nonlinear_arith)
        requires
            SCALE == 1_000_000,
    ;
    lemma_below_one(v.x);
    lemma_below_one(v.y);
    lemma_below_one(v.z);
}

/// The centre of the unit ball lies inside it.
pub proof fn lemma_centre_in_unit_ball()
    ensures
        in_unit_ball(Vec3View { x: 0, y: 0, z: 0 }),
{
    let zero: int = 0;
    assert(zero * zero + zero * zero + zero * zero < SCALE * SCALE) by (nonlinear_arith)
        requires
            zero == 0,
            SCALE == 1_000_000,
    ;
}

/// A number whose square is below one lies strictly between -1 and 1.
proof fn lemma_below_one(c: int)
    requires
        c * c < 1_000_000_000_000,
    ensures
        -1_000_000 < c < 1_000_000,
{
    if c >= 1_000_000 {
        assert(c * c >= 1_000_000_000_000) by (nonlinear_arith)
            requires
                c >= 1_000_000,
        ;
    } else if c <= -1_000_000 {
        assert(c * c >= 1_000_000_000_000) by (nonlinear_arith)
            requires
                c <= -1_000_000,
        ;
    }
}

/// A uniform fraction: a fixed-point value in `[0, 1)`.
pub fn unit_fraction(rng: &mut ThreadRng) -> (f: i64)
    ensures
        0 <= f < SCALE,
{
    draw_below(rng, SCALE)
}

/// Decides on one candidate of the rejection sampler: the point that the
/// three fractions stand for is accepted exactly when it lies strictly
/// inside the unit ball.
pub fn unit_ball_candidate(fx: i64, fy: i64, fz: i64) -> (r: Option<Vec3>)
    requires
        0 <= fx < SCALE,
        0 <= fy < SCALE,
        0 <= fz < SCALE,
    ensures
        r matches Some(v) ==> v@ == candidate(fx as int, fy as int, fz as int) && in_unit_ball(v@),
        r is Some <==> in_unit_ball(candidate(fx as int, fy as int, fz as int)),
{
    let v = Vec3::new(2 * fx - SCALE, 2 * fy - SCALE, 2 * fz - SCALE);
    assert(SCALE * SCALE == 1_000_000_000_000) by (nonlinear_arith)
        requires
            SCALE == 1_000_000,
    ;
    let limit: i128 = (SCALE as i128) * (SCALE as i128);
    if v.norm_squared() < limit {
        Some(v)
    } else {
        None
    }
}

/// A random point strictly inside the unit ball, by rejection: candidates
/// are drawn from the cube round the ball until one lies inside it.
/// A candidate is rejected with probability below one half. The count of
/// rejections is bounded, at `u64::MAX`, only so that the loop is known to
/// end; should the bound ever be reached, the centre of the ball is returned,
/// which is the candidate of three fractions of one half.
pub fn random_in_unit_sphere(rng: &mut ThreadRng) -> (v: Vec3)
    ensures
        in_unit_ball(v@),
        is_accepted_candidate(v@),
{
    let mut rejected: u64 = 0;
    while rejected < u64::MAX
        decreases u64::MAX - rejected,
    {
        let fx: i64 = unit_fraction(rng);
        let fy: i64 = unit_fraction(rng);
        let fz: i64 = unit_fraction(rng);
        if let Some(v) = unit_ball_candidate(fx, fy, fz) {
            assert(v@ == candidate(fx as int, fy as int, fz as int));
            return v;
        }
        rejected = rejected + 1;
    }
    proof {
        lemma_centre_in_unit_ball();
        assert(Vec3View { x: 0, y: 0, z: 0 } == candidate(500_000, 500_000, 500_000));
    }
    Vec3::new(0, 0, 0)
}

/// The vector is a point that the rejection sampler accepts: the candidate
/// of some three fractions of `[0, 1)`, strictly inside the unit ball.
pub open spec fn is_accepted_candidate(v: Vec3View) -> bool {
    exists|fx: int, fy: int, fz: int|
        {
            &&& 0 <= fx < SCALE
            &&& 0 <= fy < SCALE
            &&& 0 <= fz < SCALE
            &&& v == #[trigger] candidate(fx, fy, fz)
            &&& in_unit_ball(v)
        }
}

} // verus!
