use gravsim::error::SimError;
use gravsim::fixed::{Fixed, SCALE};
use gravsim::generator::{
    Generator, ANCHOR_MASS, MAX_DISTANCE, MAX_MASS, MAX_PARTICLES, MAX_SPEED, MIN_DISTANCE, MIN_MASS,
    MIN_PARTICLES, REACH,
};
use gravsim::particle::{Color, Particle};
use gravsim::vector::Vec2;
use gravsim::viewport::ViewportFitter;
use rand::rngs::StdRng;
use rand::SeedableRng;

fn fx(raw: i64) -> Fixed {
    Fixed::from_raw(raw).unwrap()
}

fn vec2(x: i64, y: i64) -> Vec2 {
    Vec2::new(fx(x), fx(y))
}

fn length(v: Vec2) -> f64 {
    let x = v.x.raw() as f64;
    let y = v.y.raw() as f64;
    (x * x + y * y).sqrt()
}

fn radius_matches_mass(p: &Particle) -> bool {
    let r = p.radius().raw() as i128;
    let m = p.mass().raw() as i128;
    r >= 0 && r * r <= 4 * 65_536 * m && 4 * 65_536 * m < (r + 1) * (r + 1)
}

#[test]
fn the_bounds_are_the_documented_ones() {
    assert_eq!(MIN_PARTICLES, 500);
    assert_eq!(MAX_PARTICLES, 1000);
    assert_eq!(MIN_DISTANCE, 100 * SCALE);
    assert_eq!(MAX_DISTANCE, 1500 * SCALE);
    assert_eq!(MAX_SPEED, SCALE);
    assert_eq!(MIN_MASS, 10 * SCALE);
    assert_eq!(MAX_MASS, 15 * SCALE);
    assert_eq!(ANCHOR_MASS, 1000 * SCALE);
    assert_eq!(REACH, 1 << 30);
}

#[test]
fn unit_direction_of_accepted_points() {
    assert_eq!(Generator::unit_direction(600_000_000, 800_000_000), Some(vec2(39_321, 52_428)));
    assert_eq!(Generator::unit_direction(-600_000_000, 800_000_000), Some(vec2(-39_321, 52_428)));
    assert_eq!(Generator::unit_direction(REACH, 0), Some(vec2(SCALE, 0)));
    assert_eq!(Generator::unit_direction(0, -REACH), Some(vec2(0, -SCALE)));
    assert_eq!(Generator::unit_direction(REACH / 2, 0), Some(vec2(SCALE, 0)));
}

#[test]
fn unit_direction_refuses_points_outside_the_ring() {
    assert_eq!(Generator::unit_direction(0, 0), None);
    assert_eq!(Generator::unit_direction(3, 4), None);
    assert_eq!(Generator::unit_direction(REACH / 2 - 1, 0), None);
    assert_eq!(Generator::unit_direction(REACH, 1), None);
    assert_eq!(Generator::unit_direction(REACH, REACH), None);
    assert_eq!(Generator::unit_direction(REACH + 1, 0), None);
    assert_eq!(Generator::unit_direction(0, -REACH - 1), None);
    assert_eq!(Generator::unit_direction(i64::MAX, i64::MIN), None);
}

#[test]
fn random_directions_have_length_one() {
    let mut rng = StdRng::seed_from_u64(3);
    let mut quadrants = [0usize; 4];
    for _ in 0..400 {
        let v = Generator::random_direction(&mut rng);
        assert!((length(v) / 65_536.0 - 1.0).abs() < 1e-3);
        let squares = v.x.raw() * v.x.raw() + v.y.raw() * v.y.raw();
        assert!(squares > SCALE * SCALE - 4 * SCALE - 2 && squares <= SCALE * SCALE + 24);
        assert!(v.x.raw().abs() <= SCALE && v.y.raw().abs() <= SCALE);
        let q = (if v.x.raw() < 0 { 1 } else { 0 }) + (if v.y.raw() < 0 { 2 } else { 0 });
        quadrants[q] += 1;
    }
    assert!(quadrants.iter().all(|&n| n > 50));
}

#[test]
fn orbiting_particle_of_given_draws() {
    let p = Generator::orbiting_particle(
        Fixed::from_int(1000),
        vec2(39_321, 52_428),
        fx(SCALE / 2),
        Fixed::from_int(12),
    )
    .unwrap();
    assert_eq!(p.position(), vec2(39_321_000, 52_428_000));
    assert_eq!(p.velocity(), vec2(26_214, -19_660));
    assert_eq!(p.acceleration(), Vec2::zero());
    assert_eq!(p.mass().raw(), 12 * SCALE);
    assert_eq!(p.radius().raw(), 454_046);
    assert_eq!(p.color(), Color::white());
    let q = Generator::orbiting_particle(
        Fixed::from_int(1000),
        vec2(-39_321, 52_428),
        fx(SCALE / 2),
        Fixed::from_int(12),
    )
    .unwrap();
    assert_eq!(q.position(), vec2(-39_321_000, 52_428_000));
    assert_eq!(q.velocity(), vec2(26_214, 19_660));
}

#[test]
fn orbiting_particle_refuses_a_mass_that_is_not_positive() {
    let made = Generator::orbiting_particle(Fixed::from_int(1000), vec2(SCALE, 0), fx(1), fx(0));
    assert_eq!(made.unwrap_err(), SimError::NonPositiveMass);
}

#[test]
fn the_anchor_rests_at_the_origin() {
    let a = Generator::anchor();
    assert_eq!(a.position(), Vec2::zero());
    assert_eq!(a.velocity(), Vec2::zero());
    assert_eq!(a.acceleration(), Vec2::zero());
    assert_eq!(a.mass().raw(), 1000 * SCALE);
    assert_eq!(a.radius().raw(), 4_144_860);
    assert_eq!(a.color(), Color::white());
    assert!(a.with_radius(fx(4_144_860)).is_ok());
}

#[test]
fn a_new_world_has_orbiters_and_the_anchor_behind_them() {
    for seed in [0u64, 1, 2, 99] {
        let mut rng = StdRng::seed_from_u64(seed);
        let w = Generator::new_world(&mut rng);
        let n = w.len();
        assert!(n > 500 && n <= 1000, "n = {}", n);
        let ps = w.particles();
        let anchor = ps[n - 1];
        assert_eq!(anchor.position(), Vec2::zero());
        assert_eq!(anchor.velocity(), Vec2::zero());
        assert_eq!(anchor.mass().raw(), ANCHOR_MASS);
        for p in &ps[..n - 1] {
            assert!(p.mass().raw() >= MIN_MASS && p.mass().raw() < MAX_MASS);
            assert!(radius_matches_mass(p));
            assert_eq!(p.acceleration(), Vec2::zero());
            assert_eq!(p.color(), Color::white());
            let d = length(p.position());
            assert!(d > MIN_DISTANCE as f64 - 8.0 && d < MAX_DISTANCE as f64 + 8.0, "d = {}", d);
            let s = length(p.velocity());
            assert!(s < MAX_SPEED as f64 + 2.0, "s = {}", s);
            let px = p.position().x.raw() as f64;
            let py = p.position().y.raw() as f64;
            let vx = p.velocity().x.raw() as f64;
            let vy = p.velocity().y.raw() as f64;
            let cosine = (px * vx + py * vy) / (d * s.max(1.0));
            assert!(cosine.abs() < 1e-3 || s < 2_000.0, "cosine = {}", cosine);
        }
    }
}

#[test]
fn the_draws_differ_from_particle_to_particle_and_from_seed_to_seed() {
    let mut rng = StdRng::seed_from_u64(7);
    let w = Generator::new_world(&mut rng);
    let ps = w.particles();
    let n = w.len();
    let first = ps[0];
    assert!(ps[..n - 1].iter().any(|p| p.mass() != first.mass()));
    assert!(ps[..n - 1].iter().any(|p| p.position() != first.position()));
    assert!(ps[..n - 1].iter().any(|p| p.velocity() != first.velocity()));
    assert!(ps[..n - 1].iter().any(|p| p.mass().raw() > MIN_MASS));
    assert!(ps[..n - 1].iter().any(|p| length(p.position()) > 2.0 * MIN_DISTANCE as f64));
    let mut other = StdRng::seed_from_u64(8);
    let v = Generator::new_world(&mut other);
    assert!(v.len() != w.len() || v.particles()[0].position() != first.position());
    let counts: Vec<usize> = (0..20u64)
        .map(|seed| Generator::new_world(&mut StdRng::seed_from_u64(seed)).len())
        .collect();
    assert!(counts.iter().any(|&c| c != counts[0]));
    assert!(counts.iter().any(|&c| c > 501));
}

#[test]
fn the_same_seed_gives_the_same_world() {
    let a = Generator::new_world(&mut StdRng::seed_from_u64(42));
    let b = Generator::new_world(&mut StdRng::seed_from_u64(42));
    assert_eq!(a.len(), b.len());
    for (p, q) in a.particles().iter().zip(b.particles().iter()) {
        assert_eq!(p.position(), q.position());
        assert_eq!(p.velocity(), q.velocity());
        assert_eq!(p.mass(), q.mass());
    }
}

#[test]
fn a_new_world_runs_and_fits_the_display() {
    let mut rng = StdRng::seed_from_u64(5);
    let mut w = Generator::new_world(&mut rng);
    let total = w.total_mass();
    for _ in 0..2 {
        assert_eq!(w.step(Fixed::from_int(10)), Ok(()));
        assert_eq!(w.total_mass(), total);
    }
    let (scale, _) = ViewportFitter::fit(w.particles(), Fixed::from_int(800), Fixed::from_int(600)).unwrap();
    assert!(scale.raw() > 0);
    assert!(scale.raw() < SCALE);
}
