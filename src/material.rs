//! Surface materials: how a ray that hits a surface is scattered or absorbed.
use vstd::prelude::*;
use crate::fixed::{LIMIT, ONE, SPAN};
use crate::hitable::Intersection;
use crate::ray::Ray;
use crate::vector::{dot_of, normalized, reflected, Vector};

verus! {

/// Diffuse reflectance.
#[derive(Clone, Copy, Debug, PartialEq, Eq, Structural)]
pub struct Lambertian {
    pub albedo: Vector,
}

/// Mirror reflectance.
#[derive(Clone, Copy, Debug, PartialEq, Eq, Structural)]
pub struct Metallic {
    pub albedo: Vector,
}

/// The materials a surface can be made of.
#[derive(Clone, Copy, Debug, PartialEq, Eq, Structural)]
pub enum Surface {
    Diffuse(Lambertian),
    Mirror(Metallic),
}

/// What a material does with a ray that hits it.
pub trait Material {
    /// The scattered ray, or `None` when the ray is absorbed.
    spec fn scattered(&self, incident: Ray, intersection: Intersection, sample: Vector) -> Option<Ray>;

    /// The attenuation left after scattering, given the one held before.
    spec fn attenuated(&self, intersection: Intersection, before: Vector) -> Vector;

    /// Scatters `incident` at `intersection`. `sample` is a point of the unit ball, used
    /// by materials that scatter at random. On a hit, `attenuation` receives the colour
    /// the surface keeps; on a miss it is left alone and nothing is scattered.
    fn scatter(&self, incident: &Ray, intersection: &Intersection, sample: Vector, attenuation: &mut Vector) -> (r: Option<Ray>)
        requires
            incident.in_range(),
            intersection.scatterable(),
            sample.within(ONE as int),
        ensures
            r == self.scattered(*incident, *intersection, sample),
            *final(attenuation) == self.attenuated(*intersection, *old(attenuation)),
            intersection is Miss ==> r is None && *final(attenuation) == *old(attenuation),
    ;
}

/// The point a diffuse surface scatters towards: `position + normal + sample`.
pub open spec fn diffuse_target(position: Vector, normal: Vector, sample: Vector) -> Vector {
    Vector {
        x: (position.x + normal.x + sample.x) as i64,
        y: (position.y + normal.y + sample.y) as i64,
        z: (position.z + normal.z + sample.z) as i64,
    }
}

/// `b - a`, componentwise.
pub open spec fn difference(b: Vector, a: Vector) -> Vector {
    Vector { x: (b.x - a.x) as i64, y: (b.y - a.y) as i64, z: (b.z - a.z) as i64 }
}

/// The albedo on a hit, `before` on a miss.
pub open spec fn kept_colour(albedo: Vector, intersection: Intersection, before: Vector) -> Vector {
    match intersection {
        Intersection::Hit { .. } => albedo,
        Intersection::Miss => before,
    }
}

/// A diffuse scatter: from the hit position towards `position + normal + sample`.
pub open spec fn diffuse_scatter(intersection: Intersection, sample: Vector) -> Option<Ray> {
    match intersection {
        Intersection::Hit { position, normal, .. } => Some(
            Ray { origin: position, direction: difference(diffuse_target(position, normal, sample), position) },
        ),
        Intersection::Miss => None,
    }
}

/// The mirror direction of `incident` about the hit normal, from the normalised incident direction.
pub open spec fn mirror_direction(incident: Ray, normal: Vector) -> Vector {
    reflected(normalized(incident.direction), normal)
}

/// A mirror scatter: the reflected ray when it leaves the surface (`dot(reflected, normal) > 0`),
/// otherwise absorbed.
pub open spec fn mirror_scatter(incident: Ray, intersection: Intersection) -> Option<Ray> {
    match intersection {
        Intersection::Hit { position, normal, .. } => {
            let dir = mirror_direction(incident, normal);
            if dot_of(dir, normal) > 0 {
                Some(Ray { origin: position, direction: dir })
            } else {
                None
            }
        },
        Intersection::Miss => None,
    }
}

impl Material for Lambertian {
    open spec fn scattered(&self, incident: Ray, intersection: Intersection, sample: Vector) -> Option<Ray> {
        diffuse_scatter(intersection, sample)
    }

    open spec fn attenuated(&self, intersection: Intersection, before: Vector) -> Vector {
        kept_colour(self.albedo, intersection, before)
    }

    fn scatter(&self, incident: &Ray, intersection: &Intersection, sample: Vector, attenuation: &mut Vector) -> (r: Option<Ray>)
        ensures
            *intersection matches Intersection::Hit { position, .. } ==> r matches Some(s) && s.origin == position
                && *final(attenuation) == self.albedo,
    {
        match intersection {
            Intersection::Hit { position, normal, .. } => {
                let target = position.add(normal).add(&sample);
                let scattered = Ray { origin: *position, direction: target.sub(position) };
                *attenuation = self.albedo;
                Some(scattered)
            },
            Intersection::Miss => None,
        }
    }
}

impl Material for Metallic {
    open spec fn scattered(&self, incident: Ray, intersection: Intersection, sample: Vector) -> Option<Ray> {
        mirror_scatter(incident, intersection)
    }

    open spec fn attenuated(&self, intersection: Intersection, before: Vector) -> Vector {
        kept_colour(self.albedo, intersection, before)
    }

    fn scatter(&self, incident: &Ray, intersection: &Intersection, sample: Vector, attenuation: &mut Vector) -> (r: Option<Ray>)
        ensures
            *intersection matches Intersection::Hit { position, normal, .. } ==> {
                &&& *final(attenuation) == self.albedo
                &&& (r is Some <==> dot_of(mirror_direction(*incident, normal), normal) > 0)
                &&& r matches Some(s) ==> s.origin == position && s.direction == mirror_direction(*incident, normal)
            },
    {
        match intersection {
            Intersection::Hit { position, normal, .. } => {
                let unit = incident.direction.normalize();
                let reflected = unit.reflect(normal);
                proof {
                    lemma_unit_reflection_within(unit, *normal);
                }
                let scattered = Ray { origin: *position, direction: reflected };
                *attenuation = self.albedo;
                if scattered.direction.dot(normal) > 0 {
                    return Some(scattered);
                }
                None
            },
            Intersection::Miss => None,
        }
    }
}

/// Reflecting a vector of length at most one about a normal within `LIMIT` stays within `SPAN`.
proof fn lemma_unit_reflection_within(v: Vector, n: Vector)
    requires
        v.within(ONE as int),
        n.in_range(),
    ensures
        reflected(v, n).within(SPAN as int),
{
    let l = LIMIT as int;
    let one = ONE as int;
    let d = dot_of(v, n);
    assert(-3 * one * l <= d <= 3 * one * l) by (nonlinear_arith)
        requires d == v.x * n.x + v.y * n.y + v.z * n.z,
            -one <= v.x <= one, -one <= v.y <= one, -one <= v.z <= one,
            -l <= n.x <= l, -l <= n.y <= l, -l <= n.z <= l;
    lemma_reflect_term_within(d, n.x as int);
    lemma_reflect_term_within(d, n.y as int);
    lemma_reflect_term_within(d, n.z as int);
}

proof fn lemma_reflect_term_within(d: int, c: int)
    requires
        -3 * ONE * LIMIT <= d <= 3 * ONE * LIMIT,
        -LIMIT <= c <= LIMIT,
    ensures
        -(SPAN - ONE) <= (2 * d * c) / (ONE * ONE) <= SPAN - ONE,
{
    let l = LIMIT as int;
    let one = ONE as int;
    assert(-6 * one * l * l <= 2 * d * c <= 6 * one * l * l) by (nonlinear_arith)
        requires -3 * one * l <= d <= 3 * one * l, -l <= c <= l, one > 0;
    crate::vector::lemma_div_within(2 * d * c, one * one, (SPAN - ONE) as int);
}

impl Material for Surface {
    open spec fn scattered(&self, incident: Ray, intersection: Intersection, sample: Vector) -> Option<Ray> {
        match *self {
            Surface::Diffuse(m) => m.scattered(incident, intersection, sample),
            Surface::Mirror(m) => m.scattered(incident, intersection, sample),
        }
    }

    open spec fn attenuated(&self, intersection: Intersection, before: Vector) -> Vector {
        match *self {
            Surface::Diffuse(m) => m.attenuated(intersection, before),
            Surface::Mirror(m) => m.attenuated(intersection, before),
        }
    }

    fn scatter(&self, incident: &Ray, intersection: &Intersection, sample: Vector, attenuation: &mut Vector) -> (r: Option<Ray>) {
        match self {
            Surface::Diffuse(m) => m.scatter(incident, intersection, sample, attenuation),
            Surface::Mirror(m) => m.scatter(incident, intersection, sample, attenuation),
        }
    }
}

/// Squared length of `v`, in units of `ONE * ONE`.
pub open spec fn squared_length(v: Vector) -> int {
    dot_of(v, v)
}

/// The candidate a draw of three random words stands for: each word, taken modulo
/// `2 * ONE`, is shifted to a coordinate in `[-ONE, ONE)`, so that uniform words give a
/// uniform point of the cube `[-1, 1)^3`.
pub open spec fn cube_point(x: u32, y: u32, z: u32) -> Vector {
    Vector {
        x: ((x as int % (2 * ONE)) - ONE) as i64,
        y: ((y as int % (2 * ONE)) - ONE) as i64,
        z: ((z as int % (2 * ONE)) - ONE) as i64,
    }
}

/// One round of rejection sampling of the unit ball: the cube point of the draw when it
/// lies strictly inside the unit ball, `None` when it must be drawn again.
pub fn unit_sphere_candidate(x: u32, y: u32, z: u32) -> (p: Option<Vector>)
    ensures
        p is Some <==> squared_length(cube_point(x, y, z)) < ONE * ONE,
        p matches Some(v) ==> v == cube_point(x, y, z) && squared_length(v) < ONE * ONE && v.within(ONE as int),
{
    let c = Vector {
        x: (x % 131072) as i64 - ONE,
        y: (y % 131072) as i64 - ONE,
        z: (z % 131072) as i64 - ONE,
    };
    if c.dot(&c) < (ONE as i128) * (ONE as i128) {
        Some(c)
    } else {
        None
    }
}

} // verus!
