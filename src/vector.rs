//! Three-component fixed-point vectors.
use vstd::prelude::*;
use vstd::arithmetic::div_mod::lemma_fundamental_div_mod;
use crate::fixed::{floor_div, floor_sqrt, is_floor_sqrt, LIMIT, ONE, SPAN};

verus! {

/// A point, direction or colour; each component is a raw fixed-point value.
#[derive(Clone, Copy, Debug, PartialEq, Eq, Structural)]
pub struct Vector {
    pub x: i64,
    pub y: i64,
    pub z: i64,
}

/// Dot product of the raw components (a value in units of `ONE * ONE`).
pub open spec fn dot_of(a: Vector, b: Vector) -> int {
    a.x * b.x + a.y * b.y + a.z * b.z
}

/// The square root of `n`, rounded down.
pub open spec fn sqrt_of(n: int) -> int {
    choose|r: int| is_floor_sqrt(n, r)
}

/// Length of `v` in raw units, rounded down.
pub open spec fn length_of(v: Vector) -> int {
    sqrt_of(dot_of(v, v))
}

/// One component of `v` scaled to unit length, rounded down.
pub open spec fn unit_component(c: int, len: int) -> int {
    if len == 0 { 0 } else { (c * ONE) / len }
}

/// `v` scaled to unit length; the zero vector stays zero.
pub open spec fn normalized(v: Vector) -> Vector {
    Vector {
        x: unit_component(v.x as int, length_of(v)) as i64,
        y: unit_component(v.y as int, length_of(v)) as i64,
        z: unit_component(v.z as int, length_of(v)) as i64,
    }
}

/// One component of the mirror image of `v` about the normal `n`.
pub open spec fn reflect_component(v: Vector, n: Vector, vc: int, nc: int) -> int {
    vc - (2 * dot_of(v, n) * nc) / (ONE * ONE)
}

/// `v - 2 * dot(v, n) * n`, with the product rounded down.
pub open spec fn reflected(v: Vector, n: Vector) -> Vector {
    Vector {
        x: reflect_component(v, n, v.x as int, n.x as int) as i64,
        y: reflect_component(v, n, v.y as int, n.y as int) as i64,
        z: reflect_component(v, n, v.z as int, n.z as int) as i64,
    }
}

/// Every non-negative integer has a rounded-down square root.
pub proof fn lemma_sqrt_of(n: int)
    requires
        0 <= n,
    ensures
        is_floor_sqrt(n, sqrt_of(n)),
    decreases n,
{
    if n == 0 {
        assert(is_floor_sqrt(0, 0));
    } else {
        lemma_sqrt_of(n - 1);
        let p = sqrt_of(n - 1);
        if (p + 1) * (p + 1) <= n {
            assert(n < (p + 2) * (p + 2)) by (nonlinear_arith)
                requires n - 1 < (p + 1) * (p + 1), p >= 0;
            assert(is_floor_sqrt(n, p + 1));
        } else {
            assert(is_floor_sqrt(n, p));
        }
    }
}

pub proof fn lemma_floor_sqrt_unique(n: int, r1: int, r2: int)
    requires
        is_floor_sqrt(n, r1),
        is_floor_sqrt(n, r2),
    ensures
        r1 == r2,
{
    if r1 < r2 {
        assert((r1 + 1) * (r1 + 1) <= r2 * r2) by (nonlinear_arith)
            requires 0 <= r1, r1 + 1 <= r2;
    } else if r2 < r1 {
        assert((r2 + 1) * (r2 + 1) <= r1 * r1) by (nonlinear_arith)
            requires 0 <= r2, r2 + 1 <= r1;
    }
}

/// Integer square root, stated through `sqrt_of`.
pub fn sqrt_floor(n: u128) -> (r: u128)
    ensures
        r == sqrt_of(n as int),
        is_floor_sqrt(n as int, r as int),
{
    let r = floor_sqrt(n);
    proof {
        let s = sqrt_of(n as int);
        assert(is_floor_sqrt(n as int, s));
        lemma_floor_sqrt_unique(n as int, r as int, s);
    }
    r
}

/// Division by a positive `d` keeps a value within `m * d` inside `m`.
pub proof fn lemma_div_within(n: int, d: int, m: int)
    requires
        d > 0,
        m >= 0,
        -m * d <= n <= m * d,
    ensures
        -m <= n / d <= m,
{
    lemma_fundamental_div_mod(n, d);
    let q = n / d;
    let r = n % d;
    if q > m {
        assert(n >= (m + 1) * d) by (nonlinear_arith)
            requires n == d * q + r, 0 <= r, q >= m + 1, d > 0;
        assert((m + 1) * d > m * d) by (nonlinear_arith)
            requires d > 0;
    }
    if q < -m {
        assert(n <= (-m - 1) * d + d - 1) by (nonlinear_arith)
            requires n == d * q + r, r < d, q <= -m - 1, d > 0;
        assert((-m - 1) * d + d - 1 < -m * d) by (nonlinear_arith)
            requires d > 0;
    }
}

/// A component of `v` is no longer than the rounded-down length of `v`.
proof fn lemma_component_within_length(c: int, dd: int, len: int)
    requires
        0 <= len,
        c * c <= dd,
        dd < (len + 1) * (len + 1),
    ensures
        -len <= c <= len,
{
    if c > len {
        assert(c * c >= (len + 1) * (len + 1)) by (nonlinear_arith)
            requires c >= len + 1, len >= 0;
    }
    if c < -len {
        assert(c * c >= (len + 1) * (len + 1)) by (nonlinear_arith)
            requires -c >= len + 1, len >= 0;
    }
}

impl Vector {
    /// Every component has magnitude at most `m`.
    pub open spec fn within(&self, m: int) -> bool {
        -m <= self.x <= m && -m <= self.y <= m && -m <= self.z <= m
    }

    /// Every component has magnitude at most `LIMIT`.
    pub open spec fn in_range(&self) -> bool {
        self.within(LIMIT as int)
    }

    /// Whether `in_range` holds.
    pub fn is_in_range(&self) -> (b: bool)
        ensures
            b == self.in_range(),
    {
        -LIMIT <= self.x && self.x <= LIMIT && -LIMIT <= self.y && self.y <= LIMIT && -LIMIT <= self.z
            && self.z <= LIMIT
    }

    pub fn new(x: i64, y: i64, z: i64) -> (v: Vector)
        ensures
            v == (Vector { x, y, z }),
    {
        Vector { x, y, z }
    }

    /// The origin.
    pub fn origin() -> (v: Vector)
        ensures
            v == (Vector { x: 0, y: 0, z: 0 }),
    {
        Vector { x: 0, y: 0, z: 0 }
    }

    /// The vector whose components are all one.
    pub fn one() -> (v: Vector)
        ensures
            v == (Vector { x: ONE, y: ONE, z: ONE }),
    {
        Vector { x: ONE, y: ONE, z: ONE }
    }

    pub fn add(&self, o: &Vector) -> (v: Vector)
        requires
            self.within(SPAN as int),
            o.within(SPAN as int),
        ensures
            v.x == self.x + o.x,
            v.y == self.y + o.y,
            v.z == self.z + o.z,
    {
        Vector { x: self.x + o.x, y: self.y + o.y, z: self.z + o.z }
    }

    pub fn sub(&self, o: &Vector) -> (v: Vector)
        requires
            self.within(SPAN as int),
            o.within(SPAN as int),
        ensures
            v.x == self.x - o.x,
            v.y == self.y - o.y,
            v.z == self.z - o.z,
    {
        Vector { x: self.x - o.x, y: self.y - o.y, z: self.z - o.z }
    }

    /// Dot product, in units of `ONE * ONE`.
    pub fn dot(&self, o: &Vector) -> (d: i128)
        requires
            self.within(SPAN as int),
            o.within(SPAN as int),
        ensures
            d == dot_of(*self, *o),
    {
        let (ax, ay, az) = (self.x as i128, self.y as i128, self.z as i128);
        let (bx, by, bz) = (o.x as i128, o.y as i128, o.z as i128);
        assert(-SPAN * SPAN <= ax * bx <= SPAN * SPAN) by (nonlinear_arith)
            requires -SPAN <= ax <= SPAN, -SPAN <= bx <= SPAN;
        assert(-SPAN * SPAN <= ay * by <= SPAN * SPAN) by (nonlinear_arith)
            requires -SPAN <= ay <= SPAN, -SPAN <= by <= SPAN;
        assert(-SPAN * SPAN <= az * bz <= SPAN * SPAN) by (nonlinear_arith)
            requires -SPAN <= az <= SPAN, -SPAN <= bz <= SPAN;
        ax * bx + ay * by + az * bz
    }
    /// The rounded-down length of this vector, in raw units.
    pub fn length(&self) -> (l: i128)
        requires
            self.in_range(),
        ensures
            l == length_of(*self),
            is_floor_sqrt(dot_of(*self, *self), l as int),
            0 <= l <= LIMIT * 2,
    {
        let dd = self.dot(self);
        proof {
            assert(dd <= 3 * LIMIT * LIMIT) by (nonlinear_arith)
                requires dd == dot_of(*self, *self), self.in_range();
            assert(dd >= 0) by (nonlinear_arith)
                requires dd == dot_of(*self, *self);
        }
        let l = sqrt_floor(dd as u128);
        proof {
            if l > LIMIT * 2 {
                assert((l as int) * (l as int) > 3 * LIMIT * LIMIT) by (nonlinear_arith)
                    requires l > LIMIT * 2;
            }
        }
        l as i128
    }

    /// This vector scaled to unit length, each component rounded down; zero stays zero.
    pub fn normalize(&self) -> (v: Vector)
        requires
            self.in_range(),
        ensures
            v == normalized(*self),
            v.within(ONE as int),
    {
        let len = self.length();
        if len == 0 {
            return Vector { x: 0, y: 0, z: 0 };
        }
        proof {
            let dd = dot_of(*self, *self);
            assert(is_floor_sqrt(dd, len as int));
            let (x, y, z) = (self.x as int, self.y as int, self.z as int);
            assert(x * x <= dd && y * y <= dd && z * z <= dd) by (nonlinear_arith)
                requires dd == x * x + y * y + z * z;
            lemma_component_within_length(x, dd, len as int);
            lemma_component_within_length(y, dd, len as int);
            lemma_component_within_length(z, dd, len as int);
            assert(-ONE * len <= x * ONE <= ONE * len) by (nonlinear_arith)
                requires -len <= x <= len;
            assert(-ONE * len <= y * ONE <= ONE * len) by (nonlinear_arith)
                requires -len <= y <= len;
            assert(-ONE * len <= z * ONE <= ONE * len) by (nonlinear_arith)
                requires -len <= z <= len;
            lemma_div_within(x * ONE, len as int, ONE as int);
            lemma_div_within(y * ONE, len as int, ONE as int);
            lemma_div_within(z * ONE, len as int, ONE as int);
        }
        let x = floor_div(self.x as i128 * ONE as i128, len);
        let y = floor_div(self.y as i128 * ONE as i128, len);
        let z = floor_div(self.z as i128 * ONE as i128, len);
        Vector { x: x as i64, y: y as i64, z: z as i64 }
    }

    /// Mirror image of this vector about the normal `n`: `v - 2 * dot(v, n) * n`.
    pub fn reflect(&self, n: &Vector) -> (v: Vector)
        requires
            self.in_range(),
            n.in_range(),
        ensures
            v == reflected(*self, *n),
    {
        let d = self.dot(n);
        proof {
            assert(-3 * LIMIT * LIMIT <= d <= 3 * LIMIT * LIMIT) by (nonlinear_arith)
                requires d == dot_of(*self, *n), self.in_range(), n.in_range();
        }
        let k: i128 = 2 * d;
        let x = self.x as i128 - reflect_term(k, n.x);
        let y = self.y as i128 - reflect_term(k, n.y);
        let z = self.z as i128 - reflect_term(k, n.z);
        Vector { x: x as i64, y: y as i64, z: z as i64 }
    }
}

/// `(k * c) / (ONE * ONE)`, rounded down.
fn reflect_term(k: i128, c: i64) -> (t: i128)
    requires
        -6 * LIMIT * LIMIT <= k <= 6 * LIMIT * LIMIT,
        -LIMIT <= c <= LIMIT,
    ensures
        t == (k * c) / (ONE * ONE),
        -(6 * LIMIT * LIMIT / 16) <= t <= 6 * LIMIT * LIMIT / 16,
{
    proof {
        assert(-6 * LIMIT * LIMIT * LIMIT <= k * c <= 6 * LIMIT * LIMIT * LIMIT) by (nonlinear_arith)
            requires -6 * LIMIT * LIMIT <= k <= 6 * LIMIT * LIMIT, -LIMIT <= c <= LIMIT;
        lemma_div_within(k * c, ONE * ONE, 6 * LIMIT * LIMIT / 16);
    }
    floor_div(k * c as i128, (ONE * ONE) as i128)
}

} // verus!
