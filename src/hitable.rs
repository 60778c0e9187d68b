//! Intersection of rays with spheres and with ordered collections of objects.
use vstd::prelude::*;
use std::sync::Arc;
use vstd::arithmetic::div_mod::lemma_div_is_ordered;
use crate::fixed::{floor_div, LIMIT, ONE, REACH};
use crate::material::{Lambertian, Surface};
use crate::ray::{point_on, Ray};
use crate::vector::{dot_of, lemma_div_within, lemma_sqrt_of, sqrt_floor, sqrt_of, Vector};

verus! {

/// Outcome of testing a ray against geometry.
#[derive(Clone, Debug)]
pub enum Intersection {
    Miss,
    Hit { t: i64, position: Vector, normal: Vector, material: Arc<Surface> },
}

impl Intersection {
    /// Position and normal are small enough for a material to scatter from.
    pub open spec fn scatterable(&self) -> bool {
        match *self {
            Intersection::Miss => true,
            Intersection::Hit { position, normal, .. } => position.in_range() && normal.in_range(),
        }
    }

    /// Whether `scatterable` holds.
    pub fn is_scatterable(&self) -> (b: bool)
        ensures
            b == self.scatterable(),
    {
        match self {
            Intersection::Miss => true,
            Intersection::Hit { position, normal, .. } => position.is_in_range() && normal.is_in_range(),
        }
    }
}

/// A ray that `Hitable::hit` accepts: components within `LIMIT`, direction not zero.
pub open spec fn ray_accepted(r: Ray) -> bool {
    r.in_range() && r.direction != (Vector { x: 0, y: 0, z: 0 })
}

/// Something a ray can be tested against.
pub trait Hitable {
    /// The object is well formed.
    spec fn hitable_wf(&self) -> bool;

    /// The intersection reported for ray `r` on the open interval `(t_min, t_max)`.
    spec fn hit_of(&self, r: Ray, t_min: int, t_max: int) -> Intersection;

    /// Tests `r` against this object on the open parameter interval `(t_min, t_max)`.
    fn hit(&self, r: &Ray, t_min: i64, t_max: i64) -> (res: Intersection)
        requires
            self.hitable_wf(),
            ray_accepted(*r),
            -LIMIT <= t_min,
            t_max <= LIMIT,
        ensures
            res == self.hit_of(*r, t_min as int, t_max as int),
            res matches Intersection::Hit { t, .. } ==> t_min < t < t_max,
    ;
}

/// A sphere; `radius` is a raw fixed-point value.
#[derive(Clone, Debug)]
pub struct Sphere {
    pub center: Vector,
    pub radius: i64,
    pub material: Arc<Surface>,
}

/// `origin - center`.
pub open spec fn offset_of(s: Sphere, r: Ray) -> Vector {
    Vector {
        x: (r.origin.x - s.center.x) as i64,
        y: (r.origin.y - s.center.y) as i64,
        z: (r.origin.z - s.center.z) as i64,
    }
}

/// Quadratic coefficient `dot(direction, direction)`.
pub open spec fn coef_a(r: Ray) -> int {
    dot_of(r.direction, r.direction)
}

/// Half of the linear coefficient: `dot(origin - center, direction)`.
pub open spec fn coef_b(s: Sphere, r: Ray) -> int {
    dot_of(offset_of(s, r), r.direction)
}

/// Constant coefficient: `dot(origin - center, origin - center) - radius * radius`.
pub open spec fn coef_c(s: Sphere, r: Ray) -> int {
    dot_of(offset_of(s, r), offset_of(s, r)) - s.radius * s.radius
}

/// `b * b - a * c` of the half-b quadratic.
pub open spec fn discriminant(s: Sphere, r: Ray) -> int {
    coef_b(s, r) * coef_b(s, r) - coef_a(r) * coef_c(s, r)
}

/// The smaller root `(-b - sqrt(disc)) / a`, as a raw parameter rounded down.
pub open spec fn near_root(s: Sphere, r: Ray) -> int {
    ((-coef_b(s, r) - sqrt_of(discriminant(s, r))) * ONE) / coef_a(r)
}

/// The larger root `(-b + sqrt(disc)) / a`, as a raw parameter rounded down.
pub open spec fn far_root(s: Sphere, r: Ray) -> int {
    ((-coef_b(s, r) + sqrt_of(discriminant(s, r))) * ONE) / coef_a(r)
}

/// `(p - center) / radius`, each component rounded down.
pub open spec fn normal_at(s: Sphere, p: Vector) -> Vector {
    Vector {
        x: (((p.x - s.center.x) * ONE) / (s.radius as int)) as i64,
        y: (((p.y - s.center.y) * ONE) / (s.radius as int)) as i64,
        z: (((p.z - s.center.z) * ONE) / (s.radius as int)) as i64,
    }
}

/// The hit record of `s` at parameter `t` of `r`.
pub open spec fn sphere_hit_at(s: Sphere, r: Ray, t: int) -> Intersection {
    Intersection::Hit {
        t: t as i64,
        position: point_on(r, t),
        normal: normal_at(s, point_on(r, t)),
        material: s.material,
    }
}

/// Strictly inside the open interval `(lo, hi)`.
pub open spec fn inside(t: int, lo: int, hi: int) -> bool {
    lo < t && t < hi
}

/// The intersection of `r` with `s`: none unless the discriminant is strictly positive,
/// then the smaller root if it lies inside `(t_min, t_max)`, else the larger one if it does.
pub open spec fn sphere_hit(s: Sphere, r: Ray, t_min: int, t_max: int) -> Intersection {
    if discriminant(s, r) <= 0 {
        Intersection::Miss
    } else if inside(near_root(s, r), t_min, t_max) {
        sphere_hit_at(s, r, near_root(s, r))
    } else if inside(far_root(s, r), t_min, t_max) {
        sphere_hit_at(s, r, far_root(s, r))
    } else {
        Intersection::Miss
    }
}

impl Sphere {
    /// Centre within `LIMIT` and a radius in `1..=LIMIT`.
    pub open spec fn wf(&self) -> bool {
        self.center.in_range() && 0 < self.radius <= LIMIT
    }

    /// Whether `wf` holds.
    pub fn is_wf(&self) -> (b: bool)
        ensures
            b == self.wf(),
    {
        self.center.is_in_range() && 0 < self.radius && self.radius <= LIMIT
    }

    pub fn new(center: Vector, radius: i64, material: Arc<Surface>) -> (s: Sphere)
        ensures
            s == (Sphere { center, radius, material }),
    {
        Sphere { center, radius, material }
    }

    /// The hit record at root `t`, which lies strictly inside the accepted interval.
    fn hit_at(&self, r: &Ray, t: i64) -> (res: Intersection)
        requires
            self.wf(),
            r.in_range(),
            -LIMIT <= t <= LIMIT,
        ensures
            res == sphere_hit_at(*self, *r, t as int),
    {
        let position = r.point_at(t);
        let nx = self.normal_component(position.x, self.center.x);
        let ny = self.normal_component(position.y, self.center.y);
        let nz = self.normal_component(position.z, self.center.z);
        Intersection::Hit {
            t,
            position,
            normal: Vector { x: nx, y: ny, z: nz },
            material: self.material.clone(),
        }
    }

    /// `((p - c) * ONE) / radius`, rounded down.
    fn normal_component(&self, p: i64, c: i64) -> (n: i64)
        requires
            self.wf(),
            -REACH <= p <= REACH,
            -LIMIT <= c <= LIMIT,
        ensures
            n == ((p - c) * ONE) / (self.radius as int),
    {
        let delta: i128 = p as i128 - c as i128;
        proof {
            assert(-2 * REACH * ONE <= delta * ONE <= 2 * REACH * ONE) by (nonlinear_arith)
                requires -2 * REACH <= delta <= 2 * REACH;
        }
        let m: i128 = delta * ONE as i128;
        proof {
            assert(-(2 * REACH * ONE) * self.radius <= m <= (2 * REACH * ONE) * self.radius) by (nonlinear_arith)
                requires -2 * REACH * ONE <= m <= 2 * REACH * ONE, self.radius >= 1;
            lemma_div_within(m as int, self.radius as int, 2 * REACH * ONE);
        }
        floor_div(m, self.radius as i128) as i64
    }
}

impl Default for Sphere {
    /// The unit sphere at the origin, diffuse with albedo one.
    fn default() -> (s: Sphere)
        ensures
            s.center == (Vector { x: 0, y: 0, z: 0 }),
            s.radius == ONE,
            *s.material == Surface::Diffuse(Lambertian { albedo: Vector { x: ONE, y: ONE, z: ONE } }),
            s.wf(),
    {
        Sphere {
            center: Vector::origin(),
            radius: ONE,
            material: Arc::new(Surface::Diffuse(Lambertian { albedo: Vector::one() })),
        }
    }
}

impl Hitable for Sphere {
    open spec fn hitable_wf(&self) -> bool {
        self.wf()
    }

    open spec fn hit_of(&self, r: Ray, t_min: int, t_max: int) -> Intersection {
        sphere_hit(*self, r, t_min, t_max)
    }

    fn hit(&self, r: &Ray, t_min: i64, t_max: i64) -> (res: Intersection)
        ensures
            discriminant(*self, *r) <= 0 ==> res is Miss,
    {
        let oc = r.origin.sub(&self.center);
        let a = r.direction.dot(&r.direction);
        let b = oc.dot(&r.direction);
        let cc = oc.dot(&oc);
        proof {
            assert(offset_of(*self, *r) == oc);
            lemma_coefficient_bounds(*self, *r);
        }
        let c = cc - self.radius as i128 * self.radius as i128;
        proof {
            let l = LIMIT as int;
            assert(0 <= b * b <= 36 * l * l * l * l) by (nonlinear_arith)
                requires -6 * l * l <= b <= 6 * l * l;
            assert(-3 * l * l * l * l <= a * c <= 36 * l * l * l * l) by (nonlinear_arith)
                requires 0 < a <= 3 * l * l, -l * l <= c <= 12 * l * l;
        }
        let discriminant = b * b - a * c;
        if discriminant <= 0 {
            return Intersection::Miss;
        }
        let root_u = sqrt_floor(discriminant as u128);
        proof {
            lemma_root_bound(discriminant as int, root_u as int);
        }
        let root = root_u as i128;
        proof {
            let l = LIMIT as int;
            assert(-16 * l * l * ONE <= (-b - root) * ONE <= 16 * l * l * ONE) by (nonlinear_arith)
                requires -6 * l * l <= b <= 6 * l * l, 0 <= root <= 9 * l * l;
            assert(-16 * l * l * ONE <= (-b + root) * ONE <= 16 * l * l * ONE) by (nonlinear_arith)
                requires -6 * l * l <= b <= 6 * l * l, 0 <= root <= 9 * l * l;
        }
        let near = floor_div((-b - root) * ONE as i128, a);
        if (t_min as i128) < near && near < (t_max as i128) {
            return self.hit_at(r, near as i64);
        }
        let far = floor_div((-b + root) * ONE as i128, a);
        if (t_min as i128) < far && far < (t_max as i128) {
            return self.hit_at(r, far as i64);
        }
        Intersection::Miss
    }
}

/// Bounds on the quadratic's coefficients for an accepted ray and a well-formed sphere.
proof fn lemma_coefficient_bounds(s: Sphere, r: Ray)
    requires
        s.wf(),
        ray_accepted(r),
    ensures
        0 < coef_a(r) <= 3 * LIMIT * LIMIT,
        -6 * LIMIT * LIMIT <= coef_b(s, r) <= 6 * LIMIT * LIMIT,
        -LIMIT * LIMIT <= coef_c(s, r) <= 12 * LIMIT * LIMIT,
        0 <= dot_of(offset_of(s, r), offset_of(s, r)) <= 12 * LIMIT * LIMIT,
        discriminant(s, r) <= 72 * LIMIT * LIMIT * LIMIT * LIMIT,
{
    let d = r.direction;
    let o = offset_of(s, r);
    let (dx, dy, dz) = (d.x as int, d.y as int, d.z as int);
    let (ox, oy, oz) = (o.x as int, o.y as int, o.z as int);
    let l = LIMIT as int;
    assert(0 < dx * dx + dy * dy + dz * dz <= 3 * l * l) by (nonlinear_arith)
        requires -l <= dx <= l, -l <= dy <= l, -l <= dz <= l, dx != 0 || dy != 0 || dz != 0;
    assert(-6 * l * l <= ox * dx + oy * dy + oz * dz <= 6 * l * l) by (nonlinear_arith)
        requires -l <= dx <= l, -l <= dy <= l, -l <= dz <= l,
            -2 * l <= ox <= 2 * l, -2 * l <= oy <= 2 * l, -2 * l <= oz <= 2 * l;
    assert(0 <= ox * ox + oy * oy + oz * oz <= 12 * l * l) by (nonlinear_arith)
        requires -2 * l <= ox <= 2 * l, -2 * l <= oy <= 2 * l, -2 * l <= oz <= 2 * l;
    assert(0 < s.radius * s.radius <= l * l) by (nonlinear_arith)
        requires 0 < s.radius <= l;
    let (a, b, c) = (coef_a(r), coef_b(s, r), coef_c(s, r));
    assert(b * b - a * c <= 72 * l * l * l * l) by (nonlinear_arith)
        requires 0 < a <= 3 * l * l, -6 * l * l <= b <= 6 * l * l, -l * l <= c <= 12 * l * l;
}

/// The rounded-down square root of a discriminant of an accepted ray stays below `9 * LIMIT * LIMIT`.
proof fn lemma_root_bound(disc: int, root: int)
    requires
        0 < disc <= 72 * LIMIT * LIMIT * LIMIT * LIMIT,
        0 <= root,
        root * root <= disc,
    ensures
        root <= 9 * LIMIT * LIMIT,
{
    let l = LIMIT as int;
    if root > 9 * l * l {
        assert(root * root > 81 * l * l * l * l) by (nonlinear_arith)
            requires root > 9 * l * l, l > 0;
    }
}

/// An ordered collection of objects; a ray's intersection is the nearest among theirs.
#[derive(Debug)]
pub struct HitableList<H> {
    pub items: Vec<H>,
}

/// The scan of the first `n` items: the best hit so far and the upper bound it leaves.
/// Each item is queried on `(t_min, closest)`; a hit replaces the best one only when its
/// parameter is strictly smaller than `closest`, so of equal parameters the first one stays.
pub open spec fn scan<H: Hitable>(items: Seq<H>, r: Ray, t_min: int, t_max: int, n: nat) -> (Intersection, int)
    decreases n,
{
    if n == 0 {
        (Intersection::Miss, t_max)
    } else {
        let (best, closest) = scan(items, r, t_min, t_max, (n - 1) as nat);
        let found = items[n - 1].hit_of(r, t_min, closest);
        match found {
            Intersection::Hit { t, .. } => if t < closest { (found, t as int) } else { (best, closest) },
            Intersection::Miss => (best, closest),
        }
    }
}

/// The nearest hit among `items`, scanned in order.
pub open spec fn nearest_hit<H: Hitable>(items: Seq<H>, r: Ray, t_min: int, t_max: int) -> Intersection {
    scan(items, r, t_min, t_max, items.len()).0
}

impl<H> HitableList<H> {
    /// An empty collection.
    pub fn new() -> (l: HitableList<H>)
        ensures
            l.items@ == Seq::<H>::empty(),
    {
        HitableList { items: Vec::new() }
    }
}

impl<H: Hitable> Hitable for HitableList<H> {
    open spec fn hitable_wf(&self) -> bool {
        forall|i: int| 0 <= i < self.items@.len() ==> #[trigger] self.items@[i].hitable_wf()
    }

    open spec fn hit_of(&self, r: Ray, t_min: int, t_max: int) -> Intersection {
        nearest_hit(self.items@, r, t_min, t_max)
    }

    fn hit(&self, r: &Ray, t_min: i64, t_max: i64) -> (res: Intersection) {
        let mut intersect = Intersection::Miss;
        let mut closest_so_far: i64 = t_max;
        let mut i: usize = 0;
        while i < self.items.len()
            invariant
                self.hitable_wf(),
                ray_accepted(*r),
                -LIMIT <= t_min,
                t_max <= LIMIT,
                0 <= i <= self.items@.len(),
                (intersect, closest_so_far as int) == scan(self.items@, *r, t_min as int, t_max as int, i as nat),
                closest_so_far <= t_max,
                intersect matches Intersection::Hit { t, .. } ==> t_min < t && t == closest_so_far && t < t_max,
            decreases self.items@.len() - i,
        {
            let found = self.items[i].hit(r, t_min, closest_so_far);
            match found {
                Intersection::Hit { t, .. } => {
                    if t < closest_so_far {
                        closest_so_far = t;
                        intersect = found;
                    }
                },
                Intersection::Miss => {},
            }
            i = i + 1;
        }
        intersect
    }
}

/// The larger root is never below the smaller one.
proof fn lemma_roots_ordered(s: Sphere, r: Ray)
    requires
        s.wf(),
        ray_accepted(r),
        discriminant(s, r) > 0,
    ensures
        near_root(s, r) <= far_root(s, r),
{
    lemma_coefficient_bounds(s, r);
    let b = coef_b(s, r);
    let q = sqrt_of(discriminant(s, r));
    let n = discriminant(s, r);
    lemma_sqrt_of(n);
    assert((-b - q) * ONE <= (-b + q) * ONE) by (nonlinear_arith)
        requires q >= 0;
    lemma_div_is_ordered((-b - q) * ONE, (-b + q) * ONE, coef_a(r));
}

/// Narrowing the upper end of the interval to `hi` keeps a hit below `hi` and loses
/// any other; a miss stays a miss.
proof fn lemma_sphere_hit_narrowed(s: Sphere, r: Ray, t_min: int, t_max: int, hi: int)
    requires
        s.wf(),
        ray_accepted(r),
        -LIMIT <= t_min,
        t_max <= LIMIT,
        hi <= t_max,
    ensures
        match sphere_hit(s, r, t_min, t_max) {
            Intersection::Hit { t, .. } => {
                &&& t_min < t < t_max
                &&& t < hi ==> sphere_hit(s, r, t_min, hi) == sphere_hit(s, r, t_min, t_max)
                &&& t >= hi ==> sphere_hit(s, r, t_min, hi) is Miss
            },
            Intersection::Miss => sphere_hit(s, r, t_min, hi) is Miss,
        },
{
    if discriminant(s, r) > 0 {
        lemma_roots_ordered(s, r);
    }
}

/// What the scan of the first `n` items has found: a miss only when no item is hit, and
/// otherwise the hit of one of them, at a parameter no larger than any item's hit.
pub open spec fn scan_found_nearest(items: Seq<Sphere>, r: Ray, t_min: int, t_max: int, n: nat) -> bool {
    let (best, closest) = scan(items, r, t_min, t_max, n);
    match best {
        Intersection::Miss => closest == t_max && forall|i: int| 0 <= i < n ==>
            #[trigger] sphere_hit(items[i], r, t_min, t_max) is Miss,
        Intersection::Hit { t, .. } => {
            &&& closest == t
            &&& t_min < t < t_max
            &&& exists|i: int| 0 <= i < n && best == #[trigger] sphere_hit(items[i], r, t_min, t_max)
            &&& forall|i: int| 0 <= i < n ==> match #[trigger] sphere_hit(items[i], r, t_min, t_max) {
                Intersection::Hit { t: u, .. } => t <= u,
                Intersection::Miss => true,
            }
        },
    }
}

proof fn lemma_scan_finds_nearest(items: Seq<Sphere>, r: Ray, t_min: int, t_max: int, n: nat)
    requires
        n <= items.len(),
        forall|i: int| 0 <= i < items.len() ==> #[trigger] items[i].wf(),
        ray_accepted(r),
        -LIMIT <= t_min,
        t_max <= LIMIT,
    ensures
        scan_found_nearest(items, r, t_min, t_max, n),
    decreases n,
{
    if n > 0 {
        let m = (n - 1) as nat;
        lemma_scan_finds_nearest(items, r, t_min, t_max, m);
        let (best, closest) = scan(items, r, t_min, t_max, m);
        let k = items[m as int];
        assert(k.wf());
        lemma_sphere_hit_narrowed(k, r, t_min, t_max, closest);
        let full = sphere_hit(k, r, t_min, t_max);
        let (best2, closest2) = scan(items, r, t_min, t_max, n);
        match best2 {
            Intersection::Miss => {
                assert forall|i: int| 0 <= i < n implies #[trigger] sphere_hit(items[i], r, t_min, t_max) is Miss by {
                    if i < m {
                    }
                }
            },
            Intersection::Hit { t, .. } => {
                assert forall|i: int| 0 <= i < n implies match #[trigger] sphere_hit(items[i], r, t_min, t_max) {
                    Intersection::Hit { t: u, .. } => t <= u,
                    Intersection::Miss => true,
                } by {
                    if i < m {
                    }
                }
                if best2 == full {
                    assert(best2 == sphere_hit(items[m as int], r, t_min, t_max));
                } else {
                    let j = choose|j: int| 0 <= j < m && best == #[trigger] sphere_hit(items[j], r, t_min, t_max);
                    assert(best2 == sphere_hit(items[j], r, t_min, t_max));
                }
            },
        }
    }
}

/// A collection of spheres reports a miss exactly when no sphere is hit on the interval;
/// otherwise it reports the hit of one of its spheres, taken on the whole interval, whose
/// parameter is no larger than that of any sphere's hit.
pub proof fn lemma_nearest_hit_is_nearest(items: Seq<Sphere>, r: Ray, t_min: int, t_max: int)
    requires
        forall|i: int| 0 <= i < items.len() ==> #[trigger] items[i].wf(),
        ray_accepted(r),
        -LIMIT <= t_min,
        t_max <= LIMIT,
    ensures
        nearest_hit(items, r, t_min, t_max) is Miss <==> forall|i: int| 0 <= i < items.len() ==>
            #[trigger] sphere_hit(items[i], r, t_min, t_max) is Miss,
        nearest_hit(items, r, t_min, t_max) is Hit ==> exists|i: int| 0 <= i < items.len()
            && nearest_hit(items, r, t_min, t_max) == #[trigger] sphere_hit(items[i], r, t_min, t_max),
        nearest_hit(items, r, t_min, t_max) matches Intersection::Hit { t, .. } ==> forall|i: int|
            0 <= i < items.len() ==> match #[trigger] sphere_hit(items[i], r, t_min, t_max) {
                Intersection::Hit { t: u, .. } => t <= u,
                Intersection::Miss => true,
            },
{
    lemma_scan_finds_nearest(items, r, t_min, t_max, items.len());
    if nearest_hit(items, r, t_min, t_max) is Hit {
        let j = choose|j: int| 0 <= j < items.len()
            && nearest_hit(items, r, t_min, t_max) == #[trigger] sphere_hit(items[j], r, t_min, t_max);
        assert(!(sphere_hit(items[j], r, t_min, t_max) is Miss));
    }
}

/// Of two spheres that a ray hits at different parameters, a collection holding both
/// reports the nearer hit, in either order of insertion.
pub proof fn lemma_nearest_of_two_either_order(a: Sphere, b: Sphere, r: Ray, t_min: int, t_max: int)
    requires
        a.wf(),
        b.wf(),
        ray_accepted(r),
        -LIMIT <= t_min,
        t_max <= LIMIT,
        sphere_hit(a, r, t_min, t_max) matches Intersection::Hit { t: ta, .. }
            && sphere_hit(b, r, t_min, t_max) matches Intersection::Hit { t: tb, .. } && ta < tb,
    ensures
        nearest_hit(seq![a, b], r, t_min, t_max) == sphere_hit(a, r, t_min, t_max),
        nearest_hit(seq![b, a], r, t_min, t_max) == sphere_hit(a, r, t_min, t_max),
{
    let ab = seq![a, b];
    let ba = seq![b, a];
    assert(ab[0] == a && ab[1] == b);
    assert(ba[0] == b && ba[1] == a);
    lemma_nearest_hit_is_nearest(ab, r, t_min, t_max);
    lemma_nearest_hit_is_nearest(ba, r, t_min, t_max);
    assert(!(sphere_hit(ab[0], r, t_min, t_max) is Miss));
    assert(!(sphere_hit(ba[0], r, t_min, t_max) is Miss));
}

} // verus!
