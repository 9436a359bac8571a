use code_for_next_week_in_rust::aabb::Aabb;
use code_for_next_week_in_rust::common::{clamp, random_int, MIN_EXTENT, UNITS_PER_WORLD};
use code_for_next_week_in_rust::interval::Interval;
use code_for_next_week_in_rust::ray::Ray;
use code_for_next_week_in_rust::vec3::{isqrt, unit_vector, Vec3};

fn cube(lo: i64, hi: i64) -> Aabb {
    Aabb::new(Interval::new(lo, hi), Interval::new(lo, hi), Interval::new(lo, hi))
}

#[test]
fn interval_hull_encloses_both() {
    let h = Interval::from_intervals(Interval::new(1, 5), Interval::new(3, 9));
    assert_eq!(h, Interval::new(1, 9));
    let h2 = Interval::from_intervals(Interval::new(3, 9), Interval::new(1, 5));
    assert_eq!(h, h2);
}

#[test]
fn interval_empty_is_identity_of_hull() {
    let a = Interval::new(-4, 7);
    assert_eq!(Interval::from_intervals(Interval::empty(), a), a);
    assert_eq!(Interval::default(), Interval::empty());
}

#[test]
fn interval_size_contains_surrounds() {
    let a = Interval::new(2, 6);
    assert_eq!(a.size(), 4);
    assert!(a.contains(2) && a.contains(6) && !a.contains(7));
    assert!(a.surrounds(3) && !a.surrounds(2));
    assert_eq!(Interval::empty().size(), -(u64::MAX as i128));
    assert!(!Interval::empty().contains(0));
    assert!(Interval::universe().contains(i64::MIN));
}

#[test]
fn interval_expand_pads_half_on_each_side() {
    assert_eq!(Interval::new(0, 0).expand(2), Interval::new(-1, 1));
    assert_eq!(Interval::new(10, 20).expand(7), Interval::new(7, 23));
    assert_eq!(Interval::new(i64::MIN, i64::MAX).expand(10), Interval::new(i64::MIN, i64::MAX));
}

#[test]
fn interval_add_saturates_like_infinity() {
    assert_eq!(Interval::new(1, 2).add(10), Interval::new(11, 12));
    assert_eq!(Interval::empty().add(5), Interval::new(i64::MAX, i64::MIN + 5));
    assert_eq!(Interval::universe().add(-3), Interval::new(i64::MIN, i64::MAX - 3));
}

#[test]
fn aabb_from_points_orders_and_pads() {
    let b = Aabb::from_points(Vec3::new(0, 0, 0), Vec3::new(10, -5, 0));
    assert_eq!(b.x, Interval::new(0, 10));
    assert_eq!(b.y, Interval::new(-5, 0));
    assert_eq!(b.z, Interval::new(-1, 1));
    assert_eq!(MIN_EXTENT, 2);
}

#[test]
fn aabb_from_intervals_pads_thin_axes_only() {
    let b = Aabb::from_intervals(Interval::new(0, 1), Interval::new(0, 2), Interval::new(5, 5));
    assert_eq!(b.x, Interval::new(-1, 2));
    assert_eq!(b.y, Interval::new(0, 2));
    assert_eq!(b.z, Interval::new(4, 6));
}

#[test]
fn aabb_from_aabbs_is_the_hull() {
    let a = cube(0, 10);
    let b = Aabb::new(Interval::new(5, 20), Interval::new(-3, 4), Interval::new(1, 2));
    let h = Aabb::from_aabbs(a, b);
    assert_eq!(h.x, Interval::new(0, 20));
    assert_eq!(h.y, Interval::new(-3, 10));
    assert_eq!(h.z, Interval::new(0, 10));
    assert_eq!(Aabb::from_aabbs(Aabb::empty(), a), a);
    assert_eq!(Aabb::from_aabbs(a, b), Aabb::from_aabbs(b, a));
}

#[test]
fn aabb_axis_interval_picks_axis() {
    let b = Aabb::new(Interval::new(0, 1), Interval::new(2, 3), Interval::new(4, 5));
    assert_eq!(b.axis_interval(0), Interval::new(0, 1));
    assert_eq!(b.axis_interval(1), Interval::new(2, 3));
    assert_eq!(b.axis_interval(2), Interval::new(4, 5));
    assert_eq!(b.axis_interval(7), Interval::new(4, 5));
}

#[test]
fn aabb_longest_axis_with_ties_to_later_axis() {
    let b = Aabb::new(Interval::new(0, 10), Interval::new(0, 5), Interval::new(0, 2));
    assert_eq!(b.longest_axis(), 0);
    let b = Aabb::new(Interval::new(0, 1), Interval::new(0, 5), Interval::new(0, 2));
    assert_eq!(b.longest_axis(), 1);
    assert_eq!(cube(0, 3).longest_axis(), 2);
    let b = Aabb::new(Interval::new(0, 5), Interval::new(0, 5), Interval::new(0, 2));
    assert_eq!(b.longest_axis(), 1);
}

#[test]
fn aabb_add_moves_and_pads() {
    let b = cube(0, 10).add(Vec3::new(5, -5, 0));
    assert_eq!(b.x, Interval::new(5, 15));
    assert_eq!(b.y, Interval::new(-5, 5));
    assert_eq!(b.z, Interval::new(0, 10));
    let thin = Aabb::new(Interval::new(0, 0), Interval::new(0, 10), Interval::new(0, 10)).add(Vec3::new(3, 0, 0));
    assert_eq!(thin.x, Interval::new(2, 4));
}

#[test]
fn aabb_hit_along_an_axis() {
    let b = cube(0, 10);
    let r = Ray::new(Vec3::new(-5, 5, 5), Vec3::new(1, 0, 0), 0);
    // entering at t = 5, i.e. parameter 5 * UNITS_PER_WORLD
    assert!(b.hit(&r, Interval::new(0, 50 * UNITS_PER_WORLD)));
    assert!(!b.hit(&r, Interval::new(0, 5 * UNITS_PER_WORLD)));
    assert!(b.hit(&r, Interval::new(0, 5 * UNITS_PER_WORLD + 1)));
    // leaving at t = 15
    assert!(!b.hit(&r, Interval::new(15 * UNITS_PER_WORLD, 20 * UNITS_PER_WORLD)));
    assert!(b.hit(&r, Interval::new(15 * UNITS_PER_WORLD - 1, 20 * UNITS_PER_WORLD)));
}

#[test]
fn aabb_hit_backwards_ray_misses() {
    let b = cube(0, 10);
    let r = Ray::new(Vec3::new(-5, 5, 5), Vec3::new(-1, 0, 0), 0);
    assert!(!b.hit(&r, Interval::new(0, i64::MAX)));
    assert!(b.hit(&r, Interval::new(i64::MIN, 0)));
}

#[test]
fn aabb_hit_grazing_face_misses() {
    let b = cube(0, 10);
    let along_face = Ray::new(Vec3::new(-5, 0, 5), Vec3::new(1, 0, 0), 0);
    assert!(!b.hit(&along_face, Interval::universe()));
    let inside_parallel = Ray::new(Vec3::new(-5, 1, 5), Vec3::new(1, 0, 0), 0);
    assert!(b.hit(&inside_parallel, Interval::universe()));
}

#[test]
fn aabb_hit_diagonal_ray() {
    let b = cube(0, 10);
    let r = Ray::new(Vec3::new(-10, -10, -10), Vec3::new(1, 1, 1), 0);
    assert!(b.hit(&r, Interval::new(0, 20 * UNITS_PER_WORLD)));
    let skew = Ray::new(Vec3::new(-10, 30, 5), Vec3::new(1, -1, 0), 0);
    // x enters at 10 and leaves at 20, y enters at 20: they only touch
    assert!(!b.hit(&skew, Interval::universe()));
    let skew2 = Ray::new(Vec3::new(-10, 29, 5), Vec3::new(1, -1, 0), 0);
    assert!(b.hit(&skew2, Interval::universe()));
}

#[test]
fn aabb_hit_empty_range_misses() {
    let b = cube(0, 10);
    let r = Ray::new(Vec3::new(5, 5, 5), Vec3::new(0, 0, 0), 0);
    assert!(b.hit(&r, Interval::new(0, 1)));
    assert!(!b.hit(&r, Interval::new(1, 1)));
    assert!(!b.hit(&r, Interval::new(2, 1)));
}

#[test]
fn aabb_hit_flat_box_misses() {
    let flat = Aabb::new(Interval::new(0, 10), Interval::new(3, 3), Interval::new(0, 10));
    let r = Ray::new(Vec3::new(5, -5, 5), Vec3::new(0, 1, 0), 0);
    assert!(!flat.hit(&r, Interval::universe()));
    let padded = Aabb::from_intervals(Interval::new(0, 10), Interval::new(3, 3), Interval::new(0, 10));
    assert!(padded.hit(&r, Interval::universe()));
}

#[test]
fn aabb_hit_empty_box_passes_every_ray() {
    let r = Ray::new(Vec3::new(1, 2, 3), Vec3::new(4, 5, 6), 0);
    assert!(Aabb::empty().hit(&r, Interval::new(0, 10)));
}

#[test]
fn aabb_hit_enclosing_box_also_hit() {
    let inner = cube(0, 10);
    let outer = Aabb::from_aabbs(inner, cube(50, 60));
    let r = Ray::new(Vec3::new(5, -20, 5), Vec3::new(0, 3, 0), 0);
    assert!(inner.hit(&r, Interval::new(0, 10 * UNITS_PER_WORLD)));
    assert!(outer.hit(&r, Interval::new(0, 10 * UNITS_PER_WORLD)));
}

#[test]
fn aabb_hit_translated_box_matches_moved_ray() {
    let b = cube(0, 10);
    let off = Vec3::new(100, -50, 7);
    let moved = b.add(off);
    let r = Ray::new(Vec3::new(95, -45, 20), Vec3::new(1, 0, -1), 0);
    let back = Ray::new(Vec3::new(95 - 100, -45 + 50, 20 - 7), Vec3::new(1, 0, -1), 0);
    for tmax in [0i64, 20000, 60000, 100000, 200000, 400000] {
        let range = Interval::new(0, tmax);
        assert_eq!(moved.hit(&r, range), b.hit(&back, range));
    }
}

#[test]
fn clamp_cases() {
    assert_eq!(clamp(5, 0, 3), 3);
    assert_eq!(clamp(-1, 0, 3), 0);
    assert_eq!(clamp(2, 0, 3), 2);
    assert_eq!(clamp(3, 5, 1), 5);
    assert_eq!(clamp(clamp(9, 0, 3), 0, 3), clamp(9, 0, 3));
}

#[test]
fn random_int_stays_in_range_and_varies() {
    assert_eq!(random_int(3, 3), 3);
    let mut seen_low = false;
    let mut seen_high = false;
    for _ in 0..400 {
        let r = random_int(-2, 2);
        assert!((-2..=2).contains(&r));
        if r == -2 {
            seen_low = true;
        }
        if r == 2 {
            seen_high = true;
        }
    }
    assert!(seen_low && seen_high);
}

#[test]
fn vec3_accessors() {
    let mut v = Vec3::new(1, 2, 3);
    assert_eq!((v.x(), v.y(), v.z()), (1, 2, 3));
    assert_eq!(v.get_index(2), 3);
    v.set_index(1, 9);
    assert_eq!(v, Vec3::new(1, 9, 3));
    assert_eq!(v.length_squared(), 1 + 81 + 9);
    assert_eq!(Vec3::new(3, 4, 0).length(), 5);
    assert_eq!(Vec3::zero(), Vec3::new(0, 0, 0));
}

#[test]
fn isqrt_values() {
    assert_eq!(isqrt(0), 0);
    assert_eq!(isqrt(10), 3);
    assert_eq!(isqrt(16), 4);
    assert_eq!(isqrt(u64::MAX), 4294967295);
}

#[test]
fn unit_vector_scales_to_one_world_unit() {
    assert_eq!(unit_vector(Vec3::new(3, 4, 0)), Vec3::new(12000, 16000, 0));
    assert_eq!(unit_vector(Vec3::new(0, -7, 0)), Vec3::new(0, -20000, 0));
    assert_eq!(unit_vector(Vec3::new(1, 1, 1)), Vec3::new(11547, 11547, 11547));
    assert_eq!(unit_vector(Vec3::new(-1, 0, 1)), Vec3::new(-14142, 0, 14142));
}

#[test]
fn random_range_components_in_bounds() {
    for _ in 0..50 {
        let v = Vec3::random_range(-3, 3);
        assert!((-3..=3).contains(&v.x()) && (-3..=3).contains(&v.y()) && (-3..=3).contains(&v.z()));
    }
}

#[test]
fn aabb_plus_offset_either_side_gives_the_same_box() {
    let b = Aabb::new(Interval::new(0, 10), Interval::new(5, 5), Interval::new(-3, 4));
    let v = Vec3::new(100, -20, 7);
    let r1 = b + v;
    let r2 = v + b;
    assert_eq!(r1, r2);
    assert_eq!(r1, b.add(v));
    assert_eq!(r1.x, Interval::new(100, 110));
    assert_eq!(r1.y, Interval::new(-16, -14));
    assert_eq!(r1.z, Interval::new(4, 11));
}

#[test]
fn aabb_default_is_empty() {
    assert_eq!(Aabb::default(), Aabb::empty());
}

#[test]
fn random_int_reversed_range_draws_the_other_way() {
    for _ in 0..200 {
        let r = random_int(5, 2);
        assert!(3 <= r && r <= 5);
    }
    assert_eq!(random_int(4, 3), 4);
}
