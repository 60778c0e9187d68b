use raytracer::fixed::{floor_div, floor_sqrt, ONE};
use raytracer::hitable::{Hitable, HitableList, Intersection, Sphere};
use raytracer::material::{unit_sphere_candidate, Lambertian, Material, Metallic, Surface};
use raytracer::ray::Ray;
use raytracer::vector::Vector;
use std::sync::Arc;

fn v(x: i64, y: i64, z: i64) -> Vector {
    Vector::new(x * ONE, y * ONE, z * ONE)
}

fn unit_sphere() -> Sphere {
    Sphere::default()
}

fn sphere_at(z: i64, radius: i64) -> Sphere {
    let material = Arc::new(Surface::Diffuse(Lambertian { albedo: Vector::one() }));
    Sphere::new(v(0, 0, z), radius * ONE, material)
}

fn expect_hit(i: &Intersection) -> (i64, Vector, Vector) {
    match i {
        Intersection::Hit { t, position, normal, .. } => (*t, *position, *normal),
        Intersection::Miss => panic!("expected a hit"),
    }
}

#[test]
fn sphere_hit_at_four() {
    let ray = Ray::new(v(0, 0, -5), v(0, 0, 1));
    let hit = unit_sphere().hit(&ray, 0, 1000 * ONE);
    let (t, position, normal) = expect_hit(&hit);
    assert_eq!(t, 4 * ONE);
    assert_eq!(position, v(0, 0, -1));
    assert_eq!(normal, v(0, 0, -1));
}

#[test]
fn sphere_miss_parallel_offset() {
    let ray = Ray::new(v(0, 0, -5), v(1, 0, 0));
    assert!(matches!(unit_sphere().hit(&ray, 0, 1000 * ONE), Intersection::Miss));
}

#[test]
fn tangent_ray_misses() {
    let ray = Ray::new(v(1, 0, -5), v(0, 0, 1));
    assert!(matches!(unit_sphere().hit(&ray, 0, 1000 * ONE), Intersection::Miss));
}

#[test]
fn interval_below_root_misses() {
    let ray = Ray::new(v(0, 0, -5), v(0, 0, 1));
    assert!(matches!(unit_sphere().hit(&ray, 0, 3 * ONE), Intersection::Miss));
}

#[test]
fn interval_between_roots_misses() {
    let ray = Ray::new(v(0, 0, -5), v(0, 0, 1));
    assert!(matches!(unit_sphere().hit(&ray, 5 * ONE, 6 * ONE), Intersection::Miss));
}

#[test]
fn interval_above_near_root_takes_far_root() {
    let ray = Ray::new(v(0, 0, -5), v(0, 0, 1));
    let (t, position, normal) = expect_hit(&unit_sphere().hit(&ray, 5 * ONE, 1000 * ONE));
    assert_eq!(t, 6 * ONE);
    assert_eq!(position, v(0, 0, 1));
    assert_eq!(normal, v(0, 0, 1));
}

#[test]
fn unnormalised_direction_gives_scaled_parameter() {
    let ray = Ray::new(v(0, 0, -5), v(0, 0, 2));
    let (t, position, _) = expect_hit(&unit_sphere().hit(&ray, 0, 1000 * ONE));
    assert_eq!(t, 2 * ONE);
    assert_eq!(position, v(0, 0, -1));
}

#[test]
fn normal_divides_by_radius() {
    let ray = Ray::new(v(0, 0, -10), v(0, 0, 1));
    let (t, position, normal) = expect_hit(&sphere_at(0, 2).hit(&ray, 0, 1000 * ONE));
    assert_eq!(t, 8 * ONE);
    assert_eq!(position, v(0, 0, -2));
    assert_eq!(normal, v(0, 0, -1));
}

#[test]
fn nearest_hit_either_order() {
    let ray = Ray::new(v(0, 0, -5), v(0, 0, 1));
    let near = sphere_at(0, 1);
    let far = sphere_at(10, 1);
    let mut first = HitableList::new();
    first.items.push(near.clone());
    first.items.push(far.clone());
    let mut second = HitableList::new();
    second.items.push(far);
    second.items.push(near);
    for list in [&first, &second] {
        let (t, position, _) = expect_hit(&list.hit(&ray, 0, 1000 * ONE));
        assert_eq!(t, 4 * ONE);
        assert_eq!(position, v(0, 0, -1));
    }
}

#[test]
fn empty_list_misses() {
    let list: HitableList<Sphere> = HitableList::new();
    let ray = Ray::new(v(0, 0, -5), v(0, 0, 1));
    assert!(matches!(list.hit(&ray, 0, 1000 * ONE), Intersection::Miss));
}

#[test]
fn equal_distances_keep_first_material() {
    let ray = Ray::new(v(0, 0, -5), v(0, 0, 1));
    let red = Arc::new(Surface::Diffuse(Lambertian { albedo: Vector::new(ONE, 0, 0) }));
    let blue = Arc::new(Surface::Mirror(Metallic { albedo: Vector::new(0, 0, ONE) }));
    let mut list = HitableList::new();
    list.items.push(Sphere::new(v(0, 0, 0), ONE, red));
    list.items.push(Sphere::new(v(0, 0, 0), ONE, blue));
    match list.hit(&ray, 0, 1000 * ONE) {
        Intersection::Hit { material, .. } => {
            assert_eq!(*material, Surface::Diffuse(Lambertian { albedo: Vector::new(ONE, 0, 0) }))
        }
        Intersection::Miss => panic!("expected a hit"),
    }
}

fn hit_on_plane_z(position: Vector) -> Intersection {
    Intersection::Hit {
        t: ONE,
        position,
        normal: v(0, 0, -1),
        material: Arc::new(Surface::Mirror(Metallic { albedo: Vector::one() })),
    }
}

#[test]
fn lambertian_scatters_from_hit_position() {
    let albedo = Vector::new(ONE / 2, ONE / 4, ONE);
    let m = Lambertian { albedo };
    let incident = Ray::new(v(0, 0, -5), v(0, 0, 1));
    let hit = hit_on_plane_z(v(0, 0, -1));
    let sample = Vector::new(ONE / 2, -ONE / 4, 0);
    let mut attenuation = Vector::origin();
    let scattered = m.scatter(&incident, &hit, sample, &mut attenuation).expect("diffuse always scatters");
    assert_eq!(scattered.origin, v(0, 0, -1));
    assert_eq!(scattered.direction, Vector::new(ONE / 2, -ONE / 4, -ONE));
    assert_eq!(attenuation, albedo);
}

#[test]
fn lambertian_miss_leaves_attenuation() {
    let m = Lambertian { albedo: Vector::one() };
    let incident = Ray::new(v(0, 0, -5), v(0, 0, 1));
    let mut attenuation = Vector::new(7, 8, 9);
    assert!(m.scatter(&incident, &Intersection::Miss, Vector::origin(), &mut attenuation).is_none());
    assert_eq!(attenuation, Vector::new(7, 8, 9));
}

#[test]
fn metallic_reflects_head_on() {
    let albedo = Vector::new(ONE, ONE / 2, 0);
    let m = Metallic { albedo };
    let incident = Ray::new(v(0, 0, -5), v(0, 0, 3));
    let hit = hit_on_plane_z(v(0, 0, -1));
    let mut attenuation = Vector::origin();
    let scattered = m.scatter(&incident, &hit, Vector::origin(), &mut attenuation).expect("reflects");
    assert_eq!(scattered.origin, v(0, 0, -1));
    assert_eq!(scattered.direction, v(0, 0, -1));
    assert_eq!(attenuation, albedo);
}

#[test]
fn metallic_reflects_oblique() {
    let m = Metallic { albedo: Vector::one() };
    let incident = Ray::new(v(-3, 0, -4), v(3, 0, 4));
    let hit = hit_on_plane_z(v(0, 0, 0));
    let mut attenuation = Vector::origin();
    let scattered = m.scatter(&incident, &hit, Vector::origin(), &mut attenuation).expect("reflects");
    // unit incident (0.6, 0, 0.8); mirrored about (0, 0, -1) gives (0.6, 0, -0.8)
    let unit_x = floor_div(3 * ONE as i128 * ONE as i128, 5 * ONE as i128) as i64;
    let unit_z = floor_div(4 * ONE as i128 * ONE as i128, 5 * ONE as i128) as i64;
    assert_eq!(scattered.direction, Vector::new(unit_x, 0, -unit_z));
}

#[test]
fn metallic_grazing_is_absorbed() {
    let albedo = Vector::new(ONE / 3, ONE / 3, ONE / 3);
    let m = Metallic { albedo };
    let incident = Ray::new(v(-5, 0, 0), v(1, 0, 0));
    let hit = hit_on_plane_z(v(0, 0, 0));
    let mut attenuation = Vector::origin();
    assert!(m.scatter(&incident, &hit, Vector::origin(), &mut attenuation).is_none());
    assert_eq!(attenuation, albedo);
}

#[test]
fn metallic_from_behind_is_absorbed() {
    let m = Metallic { albedo: Vector::one() };
    let incident = Ray::new(v(0, 0, 5), v(0, 0, -1));
    let hit = hit_on_plane_z(v(0, 0, 0));
    let mut attenuation = Vector::origin();
    assert!(m.scatter(&incident, &hit, Vector::origin(), &mut attenuation).is_none());
}

#[test]
fn surface_dispatches_to_its_material() {
    let incident = Ray::new(v(0, 0, -5), v(0, 0, 1));
    let hit = hit_on_plane_z(v(0, 0, -1));
    let diffuse = Surface::Diffuse(Lambertian { albedo: Vector::one() });
    let mut attenuation = Vector::origin();
    let s = diffuse.scatter(&incident, &hit, Vector::new(0, ONE / 2, 0), &mut attenuation).unwrap();
    assert_eq!(s.direction, Vector::new(0, ONE / 2, -ONE));
    let mirror = Surface::Mirror(Metallic { albedo: Vector::one() });
    let s = mirror.scatter(&incident, &hit, Vector::origin(), &mut attenuation).unwrap();
    assert_eq!(s.direction, v(0, 0, -1));
}

#[test]
fn candidate_inside_and_outside_ball() {
    // word 65536 maps to coordinate 0, word 0 to -ONE
    assert_eq!(unit_sphere_candidate(65536, 65536, 65536), Some(Vector::origin()));
    assert_eq!(unit_sphere_candidate(0, 65536, 65536), None);
    assert_eq!(unit_sphere_candidate(0, 0, 0), None);
    assert_eq!(unit_sphere_candidate(65536 + 131072, 65536 + 100, 65536), Some(Vector::new(0, 100, 0)));
}

#[test]
fn sampled_points_lie_in_ball_and_spread_over_octants() {
    let mut state: u64 = 0x9E37_79B9_7F4A_7C15;
    let mut next = || {
        state ^= state << 13;
        state ^= state >> 7;
        state ^= state << 17;
        (state >> 32) as u32
    };
    let mut octants = [0u32; 8];
    let mut accepted = 0;
    while accepted < 8000 {
        if let Some(p) = unit_sphere_candidate(next(), next(), next()) {
            let sq = p.x as i128 * p.x as i128 + p.y as i128 * p.y as i128 + p.z as i128 * p.z as i128;
            assert!(sq < ONE as i128 * ONE as i128);
            let o = (p.x >= 0) as usize + 2 * (p.y >= 0) as usize + 4 * (p.z >= 0) as usize;
            octants[o] += 1;
            accepted += 1;
        }
    }
    for count in octants {
        assert!(count > 700 && count < 1300, "octant count {count}");
    }
}

#[test]
fn floor_sqrt_and_floor_div_round_down() {
    assert_eq!(floor_sqrt(0), 0);
    assert_eq!(floor_sqrt(24), 4);
    assert_eq!(floor_sqrt(25), 5);
    assert_eq!(floor_sqrt(u128::MAX), u64::MAX as u128);
    assert_eq!(floor_div(-7, 2), -4);
    assert_eq!(floor_div(7, 2), 3);
    assert_eq!(floor_div(-6, 3), -2);
}

#[test]
fn vector_operations() {
    let a = Vector::new(3, -4, 12);
    assert_eq!(a.length(), 13);
    assert_eq!(a.dot(&Vector::new(1, 1, 1)), 11);
    assert_eq!(a.add(&Vector::new(1, 1, 1)), Vector::new(4, -3, 13));
    assert_eq!(a.sub(&Vector::new(1, 1, 1)), Vector::new(2, -5, 11));
    assert_eq!(Vector::new(0, 0, 5).normalize(), Vector::new(0, 0, ONE));
    assert_eq!(Vector::origin().normalize(), Vector::origin());
    assert_eq!(Vector::new(ONE, -ONE, 0).reflect(&Vector::new(0, ONE, 0)), Vector::new(ONE, ONE, 0));
    assert_eq!(Ray::new(v(1, 2, 3), v(0, 1, 0)).point_at(ONE / 2), Vector::new(ONE, 2 * ONE + ONE / 2, 3 * ONE));
}
