//! Rays: an origin and a direction, parametrised as `origin + t * direction`.
use vstd::prelude::*;
use crate::fixed::{floor_div, LIMIT, ONE, REACH};
use crate::vector::{lemma_div_within, Vector};

verus! {

#[derive(Clone, Copy, Debug, PartialEq, Eq, Structural)]
pub struct Ray {
    pub origin: Vector,
    pub direction: Vector,
}

/// One component of the point at parameter `t`: `o + d * t`, rounded down.
pub open spec fn along(o: int, d: int, t: int) -> int {
    o + (d * t) / (ONE as int)
}

/// The point of `r` at parameter `t` (a raw fixed-point value).
pub open spec fn point_on(r: Ray, t: int) -> Vector {
    Vector {
        x: along(r.origin.x as int, r.direction.x as int, t) as i64,
        y: along(r.origin.y as int, r.direction.y as int, t) as i64,
        z: along(r.origin.z as int, r.direction.z as int, t) as i64,
    }
}

impl Ray {
    /// Origin and direction both have components of magnitude at most `LIMIT`.
    pub open spec fn in_range(&self) -> bool {
        self.origin.in_range() && self.direction.in_range()
    }

    /// Whether `in_range` holds.
    pub fn is_in_range(&self) -> (b: bool)
        ensures
            b == self.in_range(),
    {
        self.origin.is_in_range() && self.direction.is_in_range()
    }

    pub fn new(origin: Vector, direction: Vector) -> (r: Ray)
        ensures
            r == (Ray { origin, direction }),
    {
        Ray { origin, direction }
    }

    /// The point `origin + t * direction`.
    pub fn point_at(&self, t: i64) -> (p: Vector)
        requires
            self.in_range(),
            -LIMIT <= t <= LIMIT,
        ensures
            p == point_on(*self, t as int),
            p.within(REACH as int),
    {
        let x = along_exec(self.origin.x, self.direction.x, t);
        let y = along_exec(self.origin.y, self.direction.y, t);
        let z = along_exec(self.origin.z, self.direction.z, t);
        Vector { x, y, z }
    }
}

fn along_exec(o: i64, d: i64, t: i64) -> (p: i64)
    requires
        -LIMIT <= o <= LIMIT,
        -LIMIT <= d <= LIMIT,
        -LIMIT <= t <= LIMIT,
    ensures
        p == along(o as int, d as int, t as int),
        -REACH <= p <= REACH,
{
    proof {
        assert(-LIMIT * LIMIT <= d * t <= LIMIT * LIMIT) by (nonlinear_arith)
            requires -LIMIT <= d <= LIMIT, -LIMIT <= t <= LIMIT;
        lemma_div_within(d * t, ONE as int, LIMIT * LIMIT / (ONE as int));
    }
    let q = floor_div(d as i128 * t as i128, ONE as i128);
    (o as i128 + q) as i64
}

} // verus!
