use code_for_next_week_in_rust::common::UNITS_PER_WORLD;
use code_for_next_week_in_rust::perlin::{Perlin, POINT_COUNT};
use code_for_next_week_in_rust::vec3::Vec3;

#[test]
fn perlin_noise_vanishes_on_lattice() {
    let p = Perlin::new();
    for (x, y, z) in [(0, 0, 0), (1, 2, 3), (-4, 7, -1), (100, -100, 5)] {
        let q = Vec3::new(x * UNITS_PER_WORLD as i32, y * UNITS_PER_WORLD as i32, z * UNITS_PER_WORLD as i32);
        assert_eq!(p.noise(&q), 0);
    }
}

#[test]
fn perlin_noise_is_bounded() {
    let p = Perlin::new();
    for k in 0..200i32 {
        let q = Vec3::new(k * 1237 - 90000, k * 731, -k * 2999);
        let n = p.noise(&q);
        assert!(n.abs() <= 3 * UNITS_PER_WORLD);
    }
}

#[test]
fn perlin_noise_repeats_every_period() {
    let p = Perlin::new();
    let period = (POINT_COUNT as i32) * UNITS_PER_WORLD as i32;
    for k in 0..50i32 {
        let q = Vec3::new(k * 3331 - 70000, k * 517 + 11, -k * 777);
        let shifted = Vec3::new(q.x() + period, q.y() - period, q.z());
        assert_eq!(p.noise(&q), p.noise(&shifted));
    }
}

#[test]
fn perlin_turbulence_non_negative_and_periodic() {
    let p = Perlin::new();
    let period = (POINT_COUNT as i32) * UNITS_PER_WORLD as i32;
    for k in 0..30i32 {
        let q = Vec3::new(k * 4001 - 50000, k * 97, k * 1313);
        let t = p.turbulence(&q, 7);
        assert!(t >= 0);
        let shifted = Vec3::new(q.x() - 3 * period, q.y(), q.z() + period);
        assert_eq!(t, p.turbulence(&shifted, 7));
    }
}

#[test]
fn perlin_turbulence_one_octave_is_noise_magnitude() {
    let p = Perlin::new();
    let q = Vec3::new(12345, 6789, 1011);
    assert_eq!(p.turbulence(&q, 1), p.noise(&q).abs());
}

#[test]
fn perlin_turbulence_of_no_octave_is_zero() {
    let p = Perlin::new();
    assert_eq!(p.turbulence(&Vec3::new(12345, 6789, 1011), 0), 0);
}

#[test]
fn perlin_turbulence_vanishes_on_lattice_at_any_depth() {
    let p = Perlin::new();
    let u = UNITS_PER_WORLD as i32;
    for depth in [1usize, 7, 12, 60] {
        assert_eq!(p.turbulence(&Vec3::new(3 * u, -2 * u, 40 * u), depth), 0);
    }
}

#[test]
fn perlin_turbulence_deep_octaves_add_nothing() {
    let p = Perlin::new();
    let q = Vec3::new(-98765, 43210, 777);
    assert_eq!(p.turbulence(&q, 48), p.turbulence(&q, 200));
}
