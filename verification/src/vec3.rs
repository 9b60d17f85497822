//! Three-component vectors over fixed-point scalars.
//!
//! `Vec3` is the executable vector of three 64-bit raw values; `Vec3View` is
//! its mathematical value, a vector of three unbounded integers. A vector is
//! used as a point, as a direction and as a linear colour alike.

use crate::fixed::div_floor;
use crate::fixed::floor_sqrt;
use crate::fixed::isqrt;
use crate::fixed::lemma_floor_sqrt;
use crate::fixed::mul_div;
use crate::fixed::SCALE;
use vstd::prelude::*;

verus! {

/// Largest magnitude of a component for which dot products and norms are
/// formed: three products of such components still fit in 128 bits.
pub const DOT_LIMIT: i64 = 0x4000_0000_0000_0000;

/// The mathematical value of a `Vec3`.
pub struct Vec3View {
    pub x: int,
    pub y: int,
    pub z: int,
}

impl Vec3View {
    /// The vector of the three given components.
    pub open spec fn new(x: int, y: int, z: int) -> Vec3View {
        Vec3View { x, y, z }
    }

    /// Componentwise sum.
    pub open spec fn plus(self, other: Vec3View) -> Vec3View {
        Vec3View { x: self.x + other.x, y: self.y + other.y, z: self.z + other.z }
    }

    /// Componentwise difference.
    pub open spec fn minus(self, other: Vec3View) -> Vec3View {
        Vec3View { x: self.x - other.x, y: self.y - other.y, z: self.z - other.z }
    }

    /// The opposite vector.
    pub open spec fn negated(self) -> Vec3View {
        Vec3View { x: -self.x, y: -self.y, z: -self.z }
    }

    /// Dot product, exact: the result carries the scale twice.
    pub open spec fn dot(self, other: Vec3View) -> int {
        self.x * other.x + self.y * other.y + self.z * other.z
    }

    /// Squared length, exact: the result carries the scale twice.
    pub open spec fn norm_sq(self) -> int {
        self.dot(self)
    }

    /// Length, rounded down to a raw unit.
    pub open spec fn norm(self) -> int {
        floor_sqrt(self.norm_sq())
    }

    /// The vector times the fixed-point scalar `k`, each component rounded down.
    pub open spec fn scaled(self, k: int) -> Vec3View {
        Vec3View {
            x: (k * self.x) / (SCALE as int),
            y: (k * self.y) / (SCALE as int),
            z: (k * self.z) / (SCALE as int),
        }
    }

    /// The vector divided by the fixed-point scalar `d`, each component rounded down.
    pub open spec fn divided(self, d: int) -> Vec3View {
        Vec3View {
            x: (self.x * SCALE) / d,
            y: (self.y * SCALE) / d,
            z: (self.z * SCALE) / d,
        }
    }

    /// Half the vector, each component rounded down.
    pub open spec fn halved(self) -> Vec3View {
        Vec3View { x: self.x / 2, y: self.y / 2, z: self.z / 2 }
    }

    /// The vector brought to unit length; the zero vector stays zero.
    pub open spec fn normalized(self) -> Vec3View {
        if self.norm() == 0 {
            Vec3View { x: 0, y: 0, z: 0 }
        } else {
            self.divided(self.norm())
        }
    }

    /// Every component lies between `-bound` and `bound`.
    pub open spec fn within(self, bound: int) -> bool {
        &&& -bound <= self.x <= bound
        &&& -bound <= self.y <= bound
        &&& -bound <= self.z <= bound
    }

    /// Every component is a 64-bit raw value.
    pub open spec fn fits(self) -> bool {
        &&& i64::MIN <= self.x <= i64::MAX
        &&& i64::MIN <= self.y <= i64::MAX
        &&& i64::MIN <= self.z <= i64::MAX
    }
}

/// A vector of three fixed-point components.
#[derive(Clone, Copy, Debug, PartialEq, Eq, Structural)]
pub struct Vec3 {
    pub x: i64,
    pub y: i64,
    pub z: i64,
}

impl View for Vec3 {
    type V = Vec3View;

    open spec fn view(&self) -> Vec3View {
        Vec3View { x: self.x as int, y: self.y as int, z: self.z as int }
    }
}

/// The square of a number is at most the sum of three squares that holds it.
pub proof fn lemma_square_le_norm_sq(v: Vec3View)
    ensures
        0 <= v.x * v.x <= v.norm_sq(),
        0 <= v.y * v.y <= v.norm_sq(),
        0 <= v.z * v.z <= v.norm_sq(),
{
    assert(0 <= v.x * v.x) by (nonlinear_arith);
    assert(0 <= v.y * v.y) by (nonlinear_arith);
    assert(0 <= v.z * v.z) by (nonlinear_arith);
}

/// A product of two numbers of bounded magnitude is bounded by the product of the bounds.
pub proof fn lemma_product_bound(a: int, b: int, m: int, n: int)
    requires
        -m <= a <= m,
        -n <= b <= n,
    ensures
        -(m * n) <= a * b <= m * n,
{
    assert(-(m * n) <= a * b <= m * n) by (nonlinear_arith)
        requires
            -m <= a <= m,
            -n <= b <= n,
    ;
}

/// The square of `DOT_LIMIT`: three of them still fit in 128 bits.
proof fn lemma_dot_limit_squared()
    ensures
        DOT_LIMIT * DOT_LIMIT == 0x1000_0000_0000_0000_0000_0000_0000_0000,
{
    assert(DOT_LIMIT * DOT_LIMIT == 0x1000_0000_0000_0000_0000_0000_0000_0000) by (nonlinear_arith)
        requires
            DOT_LIMIT == 0x4000_0000_0000_0000,
    ;
}

/// The dot product of two bounded vectors is bounded by three times the product of the bounds.
pub proof fn lemma_dot_bound(v: Vec3View, w: Vec3View, m: int, n: int)
    requires
        v.within(m),
        w.within(n),
    ensures
        -3 * (m * n) <= v.dot(w) <= 3 * (m * n),
{
    lemma_product_bound(v.x, w.x, m, n);
    lemma_product_bound(v.y, w.y, m, n);
    lemma_product_bound(v.z, w.z, m, n);
}

/// No component of a vector exceeds its length.
pub proof fn lemma_component_le_norm(v: Vec3View)
    ensures
        v.within(v.norm()),
        0 <= v.norm(),
{
    lemma_square_le_norm_sq(v);
    lemma_floor_sqrt(v.norm_sq());
    let n = v.norm();
    lemma_abs_le_root(v.x, v.norm_sq(), n);
    lemma_abs_le_root(v.y, v.norm_sq(), n);
    lemma_abs_le_root(v.z, v.norm_sq(), n);
}

/// A number whose square is at most `s` is at most the floor square root of `s` in magnitude.
pub proof fn lemma_abs_le_root(a: int, s: int, r: int)
    requires
        a * a <= s,
        0 <= r,
        s < (r + 1) * (r + 1),
    ensures
        -r <= a <= r,
{
    if a > r {
        assert((r + 1) * (r + 1) <= a * a) by (nonlinear_arith)
            requires
                0 <= r + 1 <= a,
        ;
    } else if a < -r {
        assert((r + 1) * (r + 1) <= a * a) by (nonlinear_arith)
            requires
                0 <= r + 1 <= -a,
        ;
    }
}

impl Vec3 {
    /// The vector of the three given components.
    pub fn new(x: i64, y: i64, z: i64) -> (r: Vec3)
        ensures
            r@ == Vec3View::new(x as int, y as int, z as int),
            r.x == x,
            r.y == y,
            r.z == z,
    {
        Vec3 { x, y, z }
    }

    /// Componentwise sum.
    pub fn plus(self, other: Vec3) -> (r: Vec3)
        requires
            self@.plus(other@).fits(),
        ensures
            r@ == self@.plus(other@),
    {
        Vec3 { x: self.x + other.x, y: self.y + other.y, z: self.z + other.z }
    }

    /// Componentwise difference.
    pub fn minus(self, other: Vec3) -> (r: Vec3)
        requires
            self@.minus(other@).fits(),
        ensures
            r@ == self@.minus(other@),
    {
        Vec3 { x: self.x - other.x, y: self.y - other.y, z: self.z - other.z }
    }

    /// The opposite vector.
    pub fn negated(self) -> (r: Vec3)
        requires
            self@.negated().fits(),
        ensures
            r@ == self@.negated(),
    {
        Vec3 { x: -self.x, y: -self.y, z: -self.z }
    }

    /// Dot product, exact.
    pub fn dot(self, other: Vec3) -> (r: i128)
        requires
            self@.within(DOT_LIMIT as int),
            other@.within(DOT_LIMIT as int),
        ensures
            r == self@.dot(other@),
    {
        proof {
            let limit = DOT_LIMIT as int;
            lemma_product_bound(self.x as int, other.x as int, limit, limit);
            lemma_product_bound(self.y as int, other.y as int, limit, limit);
            lemma_product_bound(self.z as int, other.z as int, limit, limit);
            lemma_dot_limit_squared();
        }
        let xx: i128 = (self.x as i128) * (other.x as i128);
        let yy: i128 = (self.y as i128) * (other.y as i128);
        let zz: i128 = (self.z as i128) * (other.z as i128);
        xx + yy + zz
    }

    /// Squared length, exact.
    pub fn norm_squared(self) -> (r: i128)
        requires
            self@.within(DOT_LIMIT as int),
        ensures
            r == self@.norm_sq(),
            r >= 0,
    {
        proof {
            lemma_square_le_norm_sq(self@);
        }
        self.dot(self)
    }

    /// Length, rounded down to a raw unit.
    pub fn norm(self) -> (r: i64)
        requires
            self@.within(DOT_LIMIT as int),
        ensures
            r == self@.norm(),
            r >= 0,
    {
        let sq: i128 = self.norm_squared();
        let root: u64 = isqrt(sq as u128);
        proof {
            lemma_dot_bound(self@, self@, DOT_LIMIT as int, DOT_LIMIT as int);
            lemma_dot_limit_squared();
            if root >= 0x8000_0000_0000_0000 {
                assert(root * root >= 0x4000_0000_0000_0000_0000_0000_0000_0000)
                    by (nonlinear_arith)
                    requires
                        root >= 0x8000_0000_0000_0000,
                ;
            }
        }
        root as i64
    }

    /// The vector times the fixed-point scalar `k`, each component rounded down.
    pub fn scaled(self, k: i64) -> (r: Vec3)
        requires
            self@.scaled(k as int).fits(),
        ensures
            r@ == self@.scaled(k as int),
    {
        let x: i128 = mul_div(k, self.x, SCALE);
        let y: i128 = mul_div(k, self.y, SCALE);
        let z: i128 = mul_div(k, self.z, SCALE);
        Vec3 { x: x as i64, y: y as i64, z: z as i64 }
    }

    /// The vector divided by the positive fixed-point scalar `d`, each component rounded down.
    pub fn divided(self, d: i64) -> (r: Vec3)
        requires
            d > 0,
            self@.divided(d as int).fits(),
        ensures
            r@ == self@.divided(d as int),
    {
        let x: i128 = mul_div(self.x, SCALE, d);
        let y: i128 = mul_div(self.y, SCALE, d);
        let z: i128 = mul_div(self.z, SCALE, d);
        Vec3 { x: x as i64, y: y as i64, z: z as i64 }
    }

    /// Half the vector, each component rounded down.
    pub fn halved(self) -> (r: Vec3)
        ensures
            r@ == self@.halved(),
    {
        let x: i128 = div_floor(self.x as i128, 2);
        let y: i128 = div_floor(self.y as i128, 2);
        let z: i128 = div_floor(self.z as i128, 2);
        Vec3 { x: x as i64, y: y as i64, z: z as i64 }
    }

    /// The vector brought to unit length; the zero vector stays zero.
    pub fn normalized(self) -> (r: Vec3)
        requires
            self@.within(DOT_LIMIT as int),
        ensures
            r@ == self@.normalized(),
            r@.within(SCALE as int),
    {
        let len: i64 = self.norm();
        if len == 0 {
            Vec3 { x: 0, y: 0, z: 0 }
        } else {
            proof {
                lemma_component_le_norm(self@);
                lemma_unit_component(self.x as int, len as int);
                lemma_unit_component(self.y as int, len as int);
                lemma_unit_component(self.z as int, len as int);
            }
            self.divided(len)
        }
    }
}

/// A component no longer than the length `len` becomes at most one when divided by it.
pub proof fn lemma_unit_component(c: int, len: int)
    requires
        0 < len,
        -len <= c <= len,
    ensures
        -SCALE <= (c * SCALE) / len <= SCALE,
{
    let q = (c * SCALE) / len;
    vstd::arithmetic::div_mod::lemma_fundamental_div_mod(c * SCALE, len);
    vstd::arithmetic::div_mod::lemma_mod_bound(c * SCALE, len);
    assert(len * q <= c * SCALE < len * q + len);
    assert(c * SCALE <= len * SCALE) by (nonlinear_arith)
        requires
            c <= len,
    ;
    assert(-(len * SCALE) <= c * SCALE) by (nonlinear_arith)
        requires
            -len <= c,
    ;
    assert(q <= SCALE) by (nonlinear_arith)
        requires
            len * q <= len * SCALE,
            0 < len,
    ;
    assert(-SCALE <= q) by (nonlinear_arith)
        requires
            -(len * SCALE) < len * q + len,
            0 < len,
    ;
}

} // verus!
