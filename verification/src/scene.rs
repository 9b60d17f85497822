//! The scene: an ordered collection of shapes, itself a shape.
//!
//! A ray hits the collection where it hits the nearest of its members.

use crate::hit::hit_view;
use crate::hit::no_farther_than;
use crate::hit::HitRecord;
use crate::hit::HitView;
use crate::hit::Hittable;
use crate::ray::Ray;
use crate::ray::RayView;
use vstd::prelude::*;

verus! {

/// The nearer of two optional hits; of two equally near hits, the second.
pub open spec fn nearer(first: Option<HitView>, second: Option<HitView>) -> Option<HitView> {
    match (first, second) {
        (_, None) => first,
        (None, Some(h)) => Some(h),
        (Some(b), Some(h)) => if h.t <= b.t {
            Some(h)
        } else {
            Some(b)
        },
    }
}

/// The nearest of the hits of `ray` on the members of `objects` with
/// parameter in `[t_min, t_max]`; of equally near hits, that of the last member.
pub open spec fn nearest_hit<H: Hittable>(
    objects: Seq<H>,
    ray: RayView,
    t_min: int,
    t_max: int,
) -> Option<HitView>
    decreases objects.len(),
{
    if objects.len() == 0 {
        None
    } else {
        nearer(
            nearest_hit(objects.drop_last(), ray, t_min, t_max),
            objects.last().hit_spec(ray, t_min, t_max),
        )
    }
}

/// Every member lies within the limits of its intersection test.
pub open spec fn all_wf<H: Hittable>(objects: Seq<H>) -> bool {
    forall|i: int| 0 <= i < objects.len() ==> (#[trigger] objects[i]).wf()
}

/// The nearest hit is the hit of some member, and there is none exactly when
/// no member is hit.
pub proof fn lemma_nearest_is_a_member<H: Hittable>(
    objects: Seq<H>,
    ray: RayView,
    t_min: int,
    t_max: int,
)
    ensures
        nearest_hit(objects, ray, t_min, t_max) is Some ==> exists|i: int|
            0 <= i < objects.len() && (#[trigger] objects[i]).hit_spec(ray, t_min, t_max)
                == nearest_hit(objects, ray, t_min, t_max),
        nearest_hit(objects, ray, t_min, t_max) is None ==> forall|i: int|
            0 <= i < objects.len() ==> (#[trigger] objects[i]).hit_spec(ray, t_min, t_max) is None,
    decreases objects.len(),
{
    if objects.len() > 0 {
        let rest = objects.drop_last();
        lemma_nearest_is_a_member(rest, ray, t_min, t_max);
        let whole = nearest_hit(objects, ray, t_min, t_max);
        let before = nearest_hit(rest, ray, t_min, t_max);
        let last = objects.last().hit_spec(ray, t_min, t_max);
        if whole is Some {
            if whole == last {
                assert(objects[objects.len() - 1].hit_spec(ray, t_min, t_max) == whole);
            } else {
                assert(whole == before);
                let i = choose|i: int|
                    0 <= i < rest.len() && (#[trigger] rest[i]).hit_spec(ray, t_min, t_max)
                        == before;
                assert(objects[i] == rest[i]);
                assert(objects[i].hit_spec(ray, t_min, t_max) == whole);
            }
        } else {
            assert forall|i: int| 0 <= i < objects.len() implies (#[trigger] objects[i]).hit_spec(
                ray,
                t_min,
                t_max,
            ) is None by {
                if i < rest.len() {
                    assert(objects[i] == rest[i]);
                }
            }
        }
    }
}

/// No member is hit nearer than the collection's nearest hit, in whatever
/// order the members stand.
pub proof fn lemma_nearest_is_minimal<H: Hittable>(
    objects: Seq<H>,
    ray: RayView,
    t_min: int,
    t_max: int,
    i: int,
)
    requires
        0 <= i < objects.len(),
        objects[i].hit_spec(ray, t_min, t_max) is Some,
    ensures
        nearest_hit(objects, ray, t_min, t_max) is Some,
        nearest_hit(objects, ray, t_min, t_max).unwrap().t <= objects[i].hit_spec(
            ray,
            t_min,
            t_max,
        ).unwrap().t,
    decreases objects.len(),
{
    let rest = objects.drop_last();
    if i < rest.len() {
        assert(objects[i] == rest[i]);
        lemma_nearest_is_minimal(rest, ray, t_min, t_max, i);
    }
}

/// The order of the members does not matter to how near the nearest hit is:
/// two collections with the same members, in any order and any number of
/// times, are hit at the same parameter or not at all.
pub proof fn lemma_nearest_ignores_order<H: Hittable>(
    first: Seq<H>,
    second: Seq<H>,
    ray: RayView,
    t_min: int,
    t_max: int,
)
    requires
        forall|i: int| 0 <= i < first.len() ==> second.contains(#[trigger] first[i]),
        forall|j: int| 0 <= j < second.len() ==> first.contains(#[trigger] second[j]),
    ensures
        nearest_hit(first, ray, t_min, t_max) is Some <==> nearest_hit(second, ray, t_min, t_max)
            is Some,
        nearest_hit(first, ray, t_min, t_max) is Some ==> nearest_hit(
            first,
            ray,
            t_min,
            t_max,
        ).unwrap().t == nearest_hit(second, ray, t_min, t_max).unwrap().t,
{
    lemma_nearest_reaches(first, second, ray, t_min, t_max);
    lemma_nearest_reaches(second, first, ray, t_min, t_max);
}

/// If every member of `first` is a member of `second`, then `second` is hit
/// wherever `first` is, and no farther.
proof fn lemma_nearest_reaches<H: Hittable>(
    first: Seq<H>,
    second: Seq<H>,
    ray: RayView,
    t_min: int,
    t_max: int,
)
    requires
        forall|i: int| 0 <= i < first.len() ==> second.contains(#[trigger] first[i]),
    ensures
        nearest_hit(first, ray, t_min, t_max) is Some ==> nearest_hit(second, ray, t_min, t_max)
            is Some && nearest_hit(second, ray, t_min, t_max).unwrap().t <= nearest_hit(
            first,
            ray,
            t_min,
            t_max,
        ).unwrap().t,
{
    let found = nearest_hit(first, ray, t_min, t_max);
    if found is Some {
        lemma_nearest_is_a_member(first, ray, t_min, t_max);
        let i = choose|i: int|
            0 <= i < first.len() && (#[trigger] first[i]).hit_spec(ray, t_min, t_max) == found;
        assert(second.contains(first[i]));
        let j = choose|j: int| 0 <= j < second.len() && second[j] == first[i];
        lemma_nearest_is_minimal(second, ray, t_min, t_max, j);
    }
}

/// A hit of the collection lies in the range asked for, is well-formed, and
/// its normal faces against the ray.
pub proof fn lemma_nearest_sound<H: Hittable>(
    objects: Seq<H>,
    ray: RayView,
    t_min: int,
    t_max: int,
)
    requires
        all_wf(objects),
        ray.wf(),
    ensures
        nearest_hit(objects, ray, t_min, t_max) matches Some(h) ==> {
            &&& t_min <= h.t <= t_max
            &&& h.wf()
            &&& ray.direction.dot(h.normal) <= 0
        },
    decreases objects.len(),
{
    if objects.len() > 0 {
        let rest = objects.drop_last();
        assert forall|i: int| 0 <= i < rest.len() implies (#[trigger] rest[i]).wf() by {
            assert(rest[i] == objects[i]);
        }
        lemma_nearest_sound(rest, ray, t_min, t_max);
        objects.last().lemma_hit_sound(ray, t_min, t_max);
    }
}

/// Lowering the upper end of the range keeps the nearest hit if it is still
/// in range, and finds no other.
pub proof fn lemma_nearest_narrowed<H: Hittable>(
    objects: Seq<H>,
    ray: RayView,
    t_min: int,
    t_max: int,
    bound: int,
)
    requires
        all_wf(objects),
        ray.wf(),
        bound <= t_max,
    ensures
        nearest_hit(objects, ray, t_min, bound) == no_farther_than(
            nearest_hit(objects, ray, t_min, t_max),
            bound,
        ),
    decreases objects.len(),
{
    if objects.len() > 0 {
        let rest = objects.drop_last();
        assert forall|i: int| 0 <= i < rest.len() implies (#[trigger] rest[i]).wf() by {
            assert(rest[i] == objects[i]);
        }
        lemma_nearest_narrowed(rest, ray, t_min, t_max, bound);
        objects.last().lemma_hit_narrowed(ray, t_min, t_max, bound);
    }
}

/// A range that ends at the largest parameter has no far end for the
/// collection, as it has none for its members.
pub proof fn lemma_nearest_far_end<H: Hittable>(
    objects: Seq<H>,
    ray: RayView,
    t_min: int,
    t_max: int,
)
    requires
        all_wf(objects),
        ray.wf(),
        t_max >= i64::MAX,
    ensures
        nearest_hit(objects, ray, t_min, t_max) == nearest_hit(
            objects,
            ray,
            t_min,
            i64::MAX as int,
        ),
    decreases objects.len(),
{
    if objects.len() > 0 {
        let rest = objects.drop_last();
        assert forall|i: int| 0 <= i < rest.len() implies (#[trigger] rest[i]).wf() by {
            assert(rest[i] == objects[i]);
        }
        lemma_nearest_far_end(rest, ray, t_min, t_max);
        objects.last().lemma_hit_far_end(ray, t_min, t_max);
    }
}

/// An ordered collection of shapes.
pub struct Objects<H: Hittable> {
    pub objects: Vec<H>,
}

impl<H: Hittable> Objects<H> {
    /// The collection of the given shapes, in their order.
    pub fn new(objects: Vec<H>) -> (r: Objects<H>)
        ensures
            r.objects@ == objects@,
    {
        Objects { objects }
    }
}

impl<H: Hittable> Hittable for Objects<H> {
    open spec fn wf(&self) -> bool {
        all_wf(self.objects@)
    }

    open spec fn hit_spec(&self, ray: RayView, t_min: int, t_max: int) -> Option<HitView> {
        nearest_hit(self.objects@, ray, t_min, t_max)
    }

    /// Scans the members in their order, each in the range that ends at the
    /// nearest hit found so far.
    fn hit(&self, ray: &Ray, t_min: i64, t_max: i64) -> (r: Option<HitRecord>) {
        let mut closest_so_far: i64 = t_max;
        let mut closest_hit: Option<HitRecord> = None;
        let n: usize = self.objects.len();
        let mut i: usize = 0;
        while i < n
            invariant
                i <= n,
                n == self.objects@.len(),
                all_wf(self.objects@),
                ray.wf(),
                closest_so_far <= t_max,
                closest_hit matches Some(h) ==> closest_so_far == h.t,
                closest_hit is None ==> closest_so_far == t_max,
                hit_view(closest_hit) == nearest_hit(
                    self.objects@.take(i as int),
                    ray@,
                    t_min as int,
                    t_max as int,
                ),
            decreases n - i,
        {
            let object = &self.objects[i];
            proof {
                let seen = self.objects@.take(i as int + 1);
                assert(seen.drop_last() == self.objects@.take(i as int));
                assert(seen.last() == self.objects@[i as int]);
                object.lemma_hit_sound(ray@, t_min as int, t_max as int);
                object.lemma_hit_narrowed(
                    ray@,
                    t_min as int,
                    t_max as int,
                    closest_so_far as int,
                );
            }
            if let Some(hit) = object.hit(ray, t_min, closest_so_far) {
                closest_so_far = hit.t;
                closest_hit = Some(hit);
            }
            i = i + 1;
        }
        proof {
            assert(self.objects@.take(n as int) == self.objects@);
            self.lemma_hit_sound(ray@, t_min as int, t_max as int);
        }
        closest_hit
    }

    proof fn lemma_hit_sound(&self, ray: RayView, t_min: int, t_max: int) {
        lemma_nearest_sound(self.objects@, ray, t_min, t_max);
    }

    proof fn lemma_hit_far_end(&self, ray: RayView, t_min: int, t_max: int) {
        lemma_nearest_far_end(self.objects@, ray, t_min, t_max);
    }

    proof fn lemma_hit_narrowed(&self, ray: RayView, t_min: int, t_max: int, bound: int) {
        lemma_nearest_narrowed(self.objects@, ray, t_min, t_max, bound);
    }
}

} // verus!
