//! Integer facts about the quadratic that a ray and a sphere form.
//!
//! With `oc` the vector from the sphere's centre to the ray's origin and `d`
//! the ray's direction, the ray meets the sphere of radius `r` at the
//! parameters `t` with `a t^2 + 2 h t + c = 0`, where `a = |d|^2`,
//! `h = oc . d` and `c = |oc|^2 - r^2`. The lemmas here bound how far from
//! the sphere's surface the point lies that a rounded root gives.

use crate::vec3::Vec3View;
use vstd::arithmetic::div_mod::lemma_fundamental_div_mod;
use vstd::arithmetic::div_mod::lemma_mod_bound;
use vstd::prelude::*;

verus! {

/// `(x y)(z w) = (x w)(z y)`: the factors of a product of two products may be paired anew.
pub proof fn lemma_swap_factors(x: int, y: int, z: int, w: int)
    ensures
        (x * y) * (z * w) == (x * w) * (z * y),
        (x * y) * (z * w) == (x * z) * (y * w),
{
    assert((x * y) * (z * w) == (x * w) * (z * y)) by (nonlinear_arith);
    assert((x * y) * (z * w) == (x * z) * (y * w)) by (nonlinear_arith);
}

/// `p^2 + q^2 >= 2 p q`.
pub proof fn lemma_two_squares(p: int, q: int)
    ensures
        p * p + q * q >= 2 * (p * q),
{
    assert(p * p + q * q - 2 * (p * q) == (p - q) * (p - q)) by (nonlinear_arith);
    assert((p - q) * (p - q) >= 0) by (nonlinear_arith);
}

/// The product of two sums of three terms, term by term.
pub proof fn lemma_product_of_sums(x1: int, x2: int, x3: int, y1: int, y2: int, y3: int)
    ensures
        (x1 + x2 + x3) * (y1 + y2 + y3) == x1 * y1 + x1 * y2 + x1 * y3 + x2 * y1 + x2 * y2 + x2 * y3
            + x3 * y1 + x3 * y2 + x3 * y3,
{
    assert((x1 + x2 + x3) * (y1 + y2 + y3) == x1 * y1 + x1 * y2 + x1 * y3 + x2 * y1 + x2 * y2 + x2
        * y3 + x3 * y1 + x3 * y2 + x3 * y3) by (nonlinear_arith);
}

/// The square of a dot product is at most the product of the squared lengths.
pub proof fn lemma_cauchy_schwarz(v: Vec3View, w: Vec3View)
    ensures
        v.dot(w) * v.dot(w) <= v.norm_sq() * w.norm_sq(),
{
    let a11 = v.x * w.x;
    let a12 = v.x * w.y;
    let a13 = v.x * w.z;
    let a21 = v.y * w.x;
    let a22 = v.y * w.y;
    let a23 = v.y * w.z;
    let a31 = v.z * w.x;
    let a32 = v.z * w.y;
    let a33 = v.z * w.z;
    lemma_product_of_sums(v.x * v.x, v.y * v.y, v.z * v.z, w.x * w.x, w.y * w.y, w.z * w.z);
    lemma_swap_factors(v.x, v.x, w.x, w.x);
    lemma_swap_factors(v.x, v.x, w.y, w.y);
    lemma_swap_factors(v.x, v.x, w.z, w.z);
    lemma_swap_factors(v.y, v.y, w.x, w.x);
    lemma_swap_factors(v.y, v.y, w.y, w.y);
    lemma_swap_factors(v.y, v.y, w.z, w.z);
    lemma_swap_factors(v.z, v.z, w.x, w.x);
    lemma_swap_factors(v.z, v.z, w.y, w.y);
    lemma_swap_factors(v.z, v.z, w.z, w.z);
    assert(v.norm_sq() * w.norm_sq() == a11 * a11 + a12 * a12 + a13 * a13 + a21 * a21 + a22 * a22
        + a23 * a23 + a31 * a31 + a32 * a32 + a33 * a33);
    lemma_product_of_sums(a11, a22, a33, a11, a22, a33);
    lemma_swap_factors(v.x, w.x, v.y, w.y);
    lemma_swap_factors(v.x, w.x, v.z, w.z);
    lemma_swap_factors(v.y, w.y, v.z, w.z);
    lemma_swap_factors(v.y, w.y, v.x, w.x);
    lemma_swap_factors(v.z, w.z, v.x, w.x);
    lemma_swap_factors(v.z, w.z, v.y, w.y);
    assert(a11 * a22 == a12 * a21);
    assert(a22 * a11 == a21 * a12);
    assert(a11 * a33 == a13 * a31);
    assert(a33 * a11 == a31 * a13);
    assert(a22 * a33 == a23 * a32);
    assert(a33 * a22 == a32 * a23);
    assert(a21 * a12 == a12 * a21) by (nonlinear_arith);
    assert(a31 * a13 == a13 * a31) by (nonlinear_arith);
    assert(a32 * a23 == a23 * a32) by (nonlinear_arith);
    assert(v.dot(w) * v.dot(w) == a11 * a11 + a22 * a22 + a33 * a33 + 2 * (a12 * a21) + 2 * (a13
        * a31) + 2 * (a23 * a32));
    lemma_two_squares(a12, a21);
    lemma_two_squares(a13, a31);
    lemma_two_squares(a23, a32);
}

/// The vector `m * oc + t * d`, exactly.
pub open spec fn combined(oc: Vec3View, d: Vec3View, m: int, t: int) -> Vec3View {
    Vec3View { x: m * oc.x + t * d.x, y: m * oc.y + t * d.y, z: m * oc.z + t * d.z }
}

/// `(m p + t q)^2 = m^2 p^2 + 2 m t (p q) + t^2 q^2`.
pub proof fn lemma_binomial_square(p: int, q: int, m: int, t: int)
    ensures
        (m * p + t * q) * (m * p + t * q) == (m * m) * (p * p) + 2 * ((m * t) * (p * q)) + (t * t)
            * (q * q),
{
    let x = m * p;
    let y = t * q;
    assert((x + y) * (x + y) == x * x + 2 * (x * y) + y * y) by (nonlinear_arith);
    lemma_swap_factors(m, p, m, p);
    lemma_swap_factors(m, p, t, q);
    lemma_swap_factors(t, q, t, q);
}

/// The squared length of `m * oc + t * d`, expanded.
pub proof fn lemma_combined_norm_sq(oc: Vec3View, d: Vec3View, m: int, t: int)
    ensures
        combined(oc, d, m, t).norm_sq() == (m * m) * oc.norm_sq() + 2 * ((m * t) * oc.dot(d)) + (t
            * t) * d.norm_sq(),
{
    lemma_binomial_square(oc.x, d.x, m, t);
    lemma_binomial_square(oc.y, d.y, m, t);
    lemma_binomial_square(oc.z, d.z, m, t);
    let mm = m * m;
    let mt = m * t;
    let tt = t * t;
    assert(mm * (oc.x * oc.x + oc.y * oc.y + oc.z * oc.z) == mm * (oc.x * oc.x) + mm * (oc.y
        * oc.y) + mm * (oc.z * oc.z)) by (nonlinear_arith);
    assert(mt * (oc.x * d.x + oc.y * d.y + oc.z * d.z) == mt * (oc.x * d.x) + mt * (oc.y * d.y)
        + mt * (oc.z * d.z)) by (nonlinear_arith);
    assert(tt * (d.x * d.x + d.y * d.y + d.z * d.z) == tt * (d.x * d.x) + tt * (d.y * d.y) + tt
        * (d.z * d.z)) by (nonlinear_arith);
}

/// A number between `-b` and `b` has a square of at most `b^2`.
pub proof fn lemma_square_le(u: int, b: int)
    requires
        -b <= u <= b,
    ensures
        u * u <= b * b,
{
    assert(u * u <= b * b) by (nonlinear_arith)
        requires
            -b <= u <= b,
    ;
}

/// A number whose square is at most `b^2`, with `b >= 0`, lies between `-b` and `b`.
pub proof fn lemma_abs_le(u: int, b: int)
    requires
        0 <= b,
        u * u <= b * b,
    ensures
        -b <= u <= b,
{
    if u > b {
        assert(u * u > b * b) by (nonlinear_arith)
            requires
                0 <= b < u,
        ;
    } else if u < -b {
        assert(u * u > b * b) by (nonlinear_arith)
            requires
                0 <= b < -u,
        ;
    }
}

/// Flooring division by `m > 0` keeps a number within `b` if it was within `m * b`.
pub proof fn lemma_div_within(w: int, m: int, b: int)
    requires
        0 < m,
        -(m * b) <= w <= m * b,
    ensures
        -b <= w / m <= b,
{
    lemma_fundamental_div_mod(w, m);
    lemma_mod_bound(w, m);
    let q = w / m;
    assert(q <= b) by (nonlinear_arith)
        requires
            m * q <= m * b,
            0 < m,
    ;
    assert(-b <= q) by (nonlinear_arith)
        requires
            -(m * b) < m * q + m,
            0 < m,
    ;
}

/// The point that a rounded root of the quadratic gives lies close to the sphere.
///
/// Here `q = |oc|^2`, `s` is the floor square root of the discriminant, `num`
/// is the numerator of either root times the scale `m`, and `t` the root,
/// rounded down. Then `m * oc + t * d`, which is `m` times the vector from
/// the centre to the point at `t`, is no longer than `m * r + k`, for any `k`
/// with `a <= k^2`, and its squared length falls short of `(m * r)^2` by at
/// most `2 * r * m * (k + m)`.
pub proof fn lemma_rounded_root_is_near(
    a: int,
    h: int,
    q: int,
    r: int,
    s: int,
    m: int,
    k: int,
    num: int,
    t: int,
)
    requires
        0 < a <= k * k,
        0 < m,
        0 <= r,
        0 <= s,
        0 <= k,
        h * h <= a * q,
        s * s <= h * h - a * (q - r * r) < (s + 1) * (s + 1),
        num == (-h - s) * m || num == (-h + s) * m,
        t == num / a,
    ensures
        (m * m) * q + 2 * ((m * t) * h) + (t * t) * a <= (m * r + k) * (m * r + k),
        (m * m) * q + 2 * ((m * t) * h) + (t * t) * a >= (m * m) * (r * r) - 2 * ((k * r) * m) - 2
            * (r * (m * m)),
{
    let rr = r * r;
    let disc = h * h - a * (q - rr);
    let at = a * t;
    let mh = m * h;
    let sm = s * m;
    let u = at + mh;
    let big = (m * m) * q + 2 * ((m * t) * h) + (t * t) * a;
    lemma_fundamental_div_mod(num, a);
    lemma_mod_bound(num, a);
    assert(at <= num < at + a);
    assert((-h - s) * m == -mh - sm) by (nonlinear_arith)
        requires
            mh == m * h,
            sm == s * m,
    ;
    assert((-h + s) * m == -mh + sm) by (nonlinear_arith)
        requires
            mh == m * h,
            sm == s * m,
    ;
    assert(0 <= sm) by (nonlinear_arith)
        requires
            0 <= s,
            0 < m,
            sm == s * m,
    ;
    assert(-(sm + a) <= u <= sm + a);
    lemma_square_le(u, sm + a);
    // a * big = u^2 + m^2 (a r^2 - disc)
    assert(u * u == at * at + 2 * (at * mh) + mh * mh) by (nonlinear_arith)
        requires
            u == at + mh,
    ;
    lemma_swap_factors(a, t, a, t);
    assert(at * at == (a * a) * (t * t));
    assert((a * a) * (t * t) == a * ((t * t) * a)) by (nonlinear_arith);
    lemma_swap_factors(a, t, m, h);
    assert(at * mh == (a * m) * (t * h));
    assert((a * m) * (t * h) == a * ((m * t) * h)) by (nonlinear_arith);
    lemma_swap_factors(m, h, m, h);
    assert(mh * mh == (m * m) * (h * h));
    let mm = m * m;
    let hh = h * h;
    let aq = a * q;
    let arr = a * rr;
    assert(a * (q - rr) == aq - arr) by (nonlinear_arith)
        requires
            aq == a * q,
            arr == a * rr,
    ;
    assert(disc == hh - aq + arr);
    assert(mm * (arr - disc) == mm * aq - mm * hh) by (nonlinear_arith)
        requires
            disc == hh - aq + arr,
    ;
    assert(mm * aq == a * (mm * q)) by (nonlinear_arith)
        requires
            aq == a * q,
    ;
    assert(a * big == a * (mm * q) + 2 * (a * ((m * t) * h)) + a * ((t * t) * a))
        by (nonlinear_arith)
        requires
            big == mm * q + 2 * ((m * t) * h) + (t * t) * a,
    ;
    assert(a * big == u * u + mm * (arr - disc));
    // u^2 <= (s m + a)^2, and s^2 <= disc
    assert((sm + a) * (sm + a) == sm * sm + 2 * (sm * a) + a * a) by (nonlinear_arith);
    lemma_swap_factors(s, m, s, m);
    assert(sm * sm == (s * s) * mm) by (nonlinear_arith)
        requires
            sm * sm == (s * s) * (m * m),
            mm == m * m,
    ;
    assert((s * s) * mm <= mm * disc) by (nonlinear_arith)
        requires
            s * s <= disc,
            0 <= mm,
    ;
    assert(mm * (arr - disc) == mm * arr - mm * disc) by (nonlinear_arith);
    let mid = 2 * sm + a + mm * rr;
    assert(a * mid == 2 * (sm * a) + a * a + mm * arr) by (nonlinear_arith)
        requires
            mid == 2 * sm + a + mm * rr,
            arr == a * rr,
    ;
    assert(a * big <= a * mid);
    assert(big <= mid) by (nonlinear_arith)
        requires
            a * big <= a * mid,
            0 < a,
    ;
    // the root of the discriminant is at most k * r
    assert(hh <= aq);
    assert(disc <= arr);
    let kr = k * r;
    assert(arr <= kr * kr) by (nonlinear_arith)
        requires
            0 < a <= k * k,
            0 <= rr,
            arr == a * rr,
            rr == r * r,
            kr == k * r,
    ;
    assert(0 <= kr) by (nonlinear_arith)
        requires
            0 <= k,
            0 <= r,
            kr == k * r,
    ;
    lemma_abs_le(s, kr);
    assert(sm <= kr * m) by (nonlinear_arith)
        requires
            s <= kr,
            0 < m,
            sm == s * m,
    ;
    let mr = m * r;
    assert((mr + k) * (mr + k) == mr * mr + 2 * (mr * k) + k * k) by (nonlinear_arith);
    lemma_swap_factors(m, r, m, r);
    assert(mr * mr == mm * rr);
    assert(mr * k == kr * m) by (nonlinear_arith)
        requires
            mr == m * r,
            kr == k * r,
    ;
    // from below: u^2 >= (s m)^2 - 2 (s m) a, and disc <= s^2 + 2 s
    let sma = sm * a;
    assert(0 <= sma) by (nonlinear_arith)
        requires
            0 <= sm,
            0 < a,
            sma == sm * a,
    ;
    if u <= -sm {
        assert(u * u >= sm * sm) by (nonlinear_arith)
            requires
                u <= -sm,
                0 <= sm,
        ;
    } else if sm >= a {
        assert(u * u >= (sm - a) * (sm - a)) by (nonlinear_arith)
            requires
                0 <= sm - a <= u,
        ;
        assert((sm - a) * (sm - a) == sm * sm - 2 * sma + a * a) by (nonlinear_arith)
            requires
                sma == sm * a,
        ;
        assert(0 <= a * a) by (nonlinear_arith);
    } else {
        assert(sm * sm <= sma) by (nonlinear_arith)
            requires
                0 <= sm < a,
                sma == sm * a,
        ;
        assert(0 <= u * u) by (nonlinear_arith);
    }
    assert(u * u >= sm * sm - 2 * sma);
    let smm = s * mm;
    assert((s + 1) * (s + 1) == s * s + 2 * s + 1) by (nonlinear_arith);
    assert(mm * disc <= (s * s) * mm + 2 * smm) by (nonlinear_arith)
        requires
            disc <= s * s + 2 * s,
            0 <= mm,
            smm == s * mm,
    ;
    assert(a * big >= mm * arr - 2 * sma - 2 * smm);
    let ar = a * r;
    assert(arr <= ar * ar) by (nonlinear_arith)
        requires
            1 <= a,
            0 <= rr,
            arr == a * rr,
            rr == r * r,
            ar == a * r,
    ;
    assert(0 <= ar) by (nonlinear_arith)
        requires
            0 < a,
            0 <= r,
            ar == a * r,
    ;
    lemma_abs_le(s, ar);
    assert(smm <= a * (r * mm)) by (nonlinear_arith)
        requires
            s <= ar,
            ar == a * r,
            0 <= mm,
            smm == s * mm,
    ;
    assert(sma <= a * (kr * m)) by (nonlinear_arith)
        requires
            sm <= kr * m,
            0 < a,
            sma == sm * a,
    ;
    let low = mm * rr - 2 * (kr * m) - 2 * (r * mm);
    assert(a * low == mm * arr - 2 * (a * (kr * m)) - 2 * (a * (r * mm))) by (nonlinear_arith)
        requires
            low == mm * rr - 2 * (kr * m) - 2 * (r * mm),
            arr == a * rr,
    ;
    assert(a * low <= a * big);
    assert(low <= big) by (nonlinear_arith)
        requires
            a * low <= a * big,
            0 < a,
    ;
}

/// The squared length of a difference, expanded.
pub proof fn lemma_minus_norm_sq(v: Vec3View, w: Vec3View)
    ensures
        v.minus(w).norm_sq() == v.norm_sq() - 2 * v.dot(w) + w.norm_sq(),
{
    assert((v.x - w.x) * (v.x - w.x) == v.x * v.x - 2 * (v.x * w.x) + w.x * w.x)
        by (nonlinear_arith);
    assert((v.y - w.y) * (v.y - w.y) == v.y * v.y - 2 * (v.y * w.y) + w.y * w.y)
        by (nonlinear_arith);
    assert((v.z - w.z) * (v.z - w.z) == v.z * v.z - 2 * (v.z * w.z) + w.z * w.z)
        by (nonlinear_arith);
}

/// The dot product of a vector no longer than `b` with one no longer than `c`
/// lies between `-b * c` and `b * c`.
pub proof fn lemma_dot_le_lengths(v: Vec3View, w: Vec3View, b: int, c: int)
    requires
        0 <= b,
        0 <= c,
        v.norm_sq() <= b * b,
        w.norm_sq() <= c * c,
    ensures
        -(b * c) <= v.dot(w) <= b * c,
{
    lemma_cauchy_schwarz(v, w);
    crate::vec3::lemma_square_le_norm_sq(v);
    crate::vec3::lemma_square_le_norm_sq(w);
    let x = v.norm_sq();
    let y = w.norm_sq();
    let bb = b * b;
    let cc = c * c;
    assert(x * y <= bb * cc) by (nonlinear_arith)
        requires
            0 <= x <= bb,
            0 <= y <= cc,
    ;
    lemma_swap_factors(b, b, c, c);
    assert(bb * cc == (b * c) * (b * c));
    assert(0 <= b * c) by (nonlinear_arith)
        requires
            0 <= b,
            0 <= c,
    ;
    lemma_abs_le(v.dot(w), b * c);
}

/// Neither rounded root of the quadratic lies beyond `(b + r) * m`, where `b`
/// bounds the length of `oc`: the ray has left the sphere by then, however
/// short its direction is.
pub proof fn lemma_rounded_root_at_most(
    a: int,
    h: int,
    q: int,
    r: int,
    s: int,
    m: int,
    b: int,
    num: int,
)
    requires
        0 < a,
        0 < m,
        0 <= r,
        0 <= s,
        0 <= b,
        h * h <= a * q,
        q <= b * b,
        s * s <= h * h - a * (q - r * r),
        num == (-h - s) * m || num == (-h + s) * m,
    ensures
        num / a <= (b + r) * m,
{
    let rr = r * r;
    let ab = a * b;
    let ar = a * r;
    // |h| <= a b
    assert(a * q <= ab * ab) by (nonlinear_arith)
        requires
            1 <= a,
            q <= b * b,
            ab == a * b,
    ;
    assert(0 <= ab) by (nonlinear_arith)
        requires
            0 < a,
            0 <= b,
            ab == a * b,
    ;
    lemma_abs_le(h, ab);
    // s <= a r
    assert(a * (q - rr) == a * q - a * rr) by (nonlinear_arith);
    assert(a * rr <= ar * ar) by (nonlinear_arith)
        requires
            1 <= a,
            0 <= rr,
            rr == r * r,
            ar == a * r,
    ;
    assert(0 <= ar) by (nonlinear_arith)
        requires
            0 < a,
            0 <= r,
            ar == a * r,
    ;
    lemma_abs_le(s, ar);
    let top = (b + r) * m;
    assert(num <= a * top) by (nonlinear_arith)
        requires
            num == (-h - s) * m || num == (-h + s) * m,
            -ab <= h <= ab,
            0 <= s <= ar,
            ab == a * b,
            ar == a * r,
            top == (b + r) * m,
            0 < m,
    ;
    lemma_fundamental_div_mod(num, a);
    lemma_mod_bound(num, a);
    let quot = num / a;
    assert(quot <= top) by (nonlinear_arith)
        requires
            a * quot <= a * top,
            0 < a,
    ;
}

/// The triangle inequality: a vector no longer than `u`, less one no longer
/// than `c`, is no longer than `u + c`.
pub proof fn lemma_triangle(v: Vec3View, w: Vec3View, u: int, c: int)
    requires
        0 <= u,
        0 <= c,
        v.norm_sq() <= u * u,
        w.norm_sq() <= c * c,
    ensures
        v.minus(w).norm_sq() <= (u + c) * (u + c),
{
    lemma_minus_norm_sq(v, w);
    lemma_dot_le_lengths(v, w, u, c);
    assert((u + c) * (u + c) == u * u + 2 * (u * c) + c * c) by (nonlinear_arith);
}

/// The triangle inequality, from below: a vector at least as long as `l`,
/// less one no longer than `c`, is at least as long as `l - c`.
pub proof fn lemma_triangle_below(v: Vec3View, w: Vec3View, l: int, c: int)
    requires
        0 <= c <= l,
        v.norm_sq() >= l * l,
        w.norm_sq() <= c * c,
    ensures
        v.minus(w).norm_sq() >= (l - c) * (l - c),
{
    let z = v.minus(w);
    let b = l - c;
    if z.norm_sq() < b * b {
        // then v = z + w would be shorter than l
        let back = w.negated();
        assert(z.minus(back) == v);
        assert(back.norm_sq() == w.norm_sq()) by {
            assert((-w.x) * (-w.x) == w.x * w.x) by (nonlinear_arith);
            assert((-w.y) * (-w.y) == w.y * w.y) by (nonlinear_arith);
            assert((-w.z) * (-w.z) == w.z * w.z) by (nonlinear_arith);
        }
        lemma_minus_norm_sq(z, back);
        lemma_dot_le_lengths(z, back, b, c);
        assert(l * l == b * b + 2 * (b * c) + c * c) by (nonlinear_arith)
            requires
                b == l - c,
        ;
        assert(false);
    }
}

} // verus!
