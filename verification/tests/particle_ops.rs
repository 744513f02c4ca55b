use gravsim::error::SimError;
use gravsim::fixed::{Fixed, LIMIT, SCALE};
use gravsim::particle::{Color, Particle};
use gravsim::vector::Vec2;

fn fx(raw: i64) -> Fixed {
    Fixed::from_raw(raw).unwrap()
}

fn vec2(x: i64, y: i64) -> Vec2 {
    Vec2::new(fx(x), fx(y))
}

fn units(x: i64, y: i64) -> Vec2 {
    vec2(x * SCALE, y * SCALE)
}

fn particle(position: Vec2, velocity: Vec2, mass_raw: i64) -> Particle {
    Particle::new(position, velocity, fx(mass_raw)).unwrap()
}

fn radius_matches_mass(p: &Particle) -> bool {
    let r = p.radius().raw() as i128;
    let m = p.mass().raw() as i128;
    r >= 0 && r * r <= 4 * 65_536 * m && 4 * 65_536 * m < (r + 1) * (r + 1)
}

#[test]
fn new_particle_has_the_given_state_and_a_derived_radius() {
    let p = particle(units(3, -4), vec2(7, -9), 10 * SCALE);
    assert_eq!(p.position(), units(3, -4));
    assert_eq!(p.velocity(), vec2(7, -9));
    assert_eq!(p.acceleration(), Vec2::zero());
    assert_eq!(p.mass().raw(), 655_360);
    assert_eq!(p.radius().raw(), 414_486);
    assert_eq!(p.color(), Color::white());
    assert_eq!(Color::white(), Color { r: 255, g: 255, b: 255, a: 255 });
}

#[test]
fn radius_is_twice_the_root_of_the_mass() {
    assert_eq!(particle(units(0, 0), units(0, 0), SCALE).radius().raw(), 2 * SCALE);
    assert_eq!(particle(units(0, 0), units(0, 0), 4 * SCALE).radius().raw(), 4 * SCALE);
    assert_eq!(particle(units(0, 0), units(0, 0), 20 * SCALE).radius().raw(), 586_171);
    assert_eq!(particle(units(0, 0), units(0, 0), 1000 * SCALE).radius().raw(), 4_144_860);
    assert_eq!(particle(units(0, 0), units(0, 0), 1).radius().raw(), 512);
    let r = particle(units(0, 0), units(0, 0), 10 * SCALE).radius().raw() as f64 / 65_536.0;
    assert!((r - 2.0 * 10.0f64.sqrt()).abs() < 1e-4);
}

#[test]
fn radius_is_consistent_at_the_largest_mass() {
    let p = particle(units(0, 0), units(0, 0), LIMIT);
    assert!(radius_matches_mass(&p));
}

#[test]
fn new_refuses_a_mass_that_is_not_positive() {
    assert_eq!(
        Particle::new(units(0, 0), units(0, 0), fx(0)).unwrap_err(),
        SimError::NonPositiveMass
    );
    assert_eq!(
        Particle::new(units(0, 0), units(0, 0), fx(-1)).unwrap_err(),
        SimError::NonPositiveMass
    );
    assert!(Particle::new(units(0, 0), units(0, 0), fx(1)).is_ok());
}

#[test]
fn builders_replace_one_field_each() {
    let p = particle(units(1, 2), units(3, 4), 10 * SCALE);
    let red = Color { r: 200, g: 10, b: 20, a: 255 };
    let q = p
        .with_position(units(5, 6))
        .with_velocity(units(-7, 8))
        .with_acceleration(vec2(11, -12))
        .with_color(red);
    assert_eq!(q.position(), units(5, 6));
    assert_eq!(q.velocity(), units(-7, 8));
    assert_eq!(q.acceleration(), vec2(11, -12));
    assert_eq!(q.color(), red);
    assert_eq!(q.mass(), p.mass());
    assert_eq!(q.radius(), p.radius());
    assert_eq!(p.position(), units(1, 2));
}

#[test]
fn with_mass_brings_the_radius_along() {
    let p = particle(units(1, 2), units(3, 4), 10 * SCALE);
    let q = p.with_mass(fx(1000 * SCALE)).unwrap();
    assert_eq!(q.mass().raw(), 65_536_000);
    assert_eq!(q.radius().raw(), 4_144_860);
    assert_eq!(q.position(), p.position());
    assert_eq!(q.velocity(), p.velocity());
    assert!(radius_matches_mass(&q));
    assert_eq!(p.with_mass(fx(0)).unwrap_err(), SimError::NonPositiveMass);
    assert_eq!(p.with_mass(fx(-5)).unwrap_err(), SimError::NonPositiveMass);
}

#[test]
fn with_radius_confirms_the_right_radius_and_refuses_any_other() {
    let p = particle(units(0, 0), units(0, 0), 1000 * SCALE);
    let same = p.with_radius(fx(4_144_860)).unwrap();
    assert_eq!(same.radius().raw(), 4_144_860);
    assert_eq!(same.mass(), p.mass());
    assert_eq!(p.with_radius(fx(4_144_861)).unwrap_err(), SimError::InconsistentRadius);
    assert_eq!(p.with_radius(fx(4_144_859)).unwrap_err(), SimError::InconsistentRadius);
    assert_eq!(p.with_radius(fx(0)).unwrap_err(), SimError::InconsistentRadius);
}

#[test]
fn collision_at_and_beyond_the_sum_of_the_radii() {
    let a = particle(units(0, 0), units(0, 0), SCALE);
    let touching = particle(vec2(4 * SCALE, 0), units(0, 0), SCALE);
    let apart = particle(vec2(4 * SCALE + 1, 0), units(0, 0), SCALE);
    assert!(a.is_colliding_with(&touching));
    assert!(!a.is_colliding_with(&apart));
    let diagonal_in = particle(units(3, 4), units(0, 0), 3 * SCALE);
    let diagonal_out = particle(units(3, 4), units(0, 0), 2 * SCALE);
    assert!(a.is_colliding_with(&diagonal_in));
    assert!(!a.is_colliding_with(&diagonal_out));
}

#[test]
fn collision_is_symmetric() {
    let masses = [1, SCALE, 10 * SCALE, 1000 * SCALE];
    let places = [units(0, 0), units(3, 4), units(-20, 7), units(64, -64), vec2(1, -1)];
    for &m1 in &masses {
        for &m2 in &masses {
            for &p1 in &places {
                for &p2 in &places {
                    let a = particle(p1, units(0, 0), m1);
                    let b = particle(p2, units(0, 0), m2);
                    assert_eq!(a.is_colliding_with(&b), b.is_colliding_with(&a));
                }
            }
        }
    }
}

#[test]
fn collision_at_the_far_corners_of_the_range() {
    let a = particle(vec2(-LIMIT, -LIMIT), units(0, 0), SCALE);
    let b = particle(vec2(LIMIT, LIMIT), units(0, 0), LIMIT);
    assert!(!a.is_colliding_with(&b));
    assert!(!b.is_colliding_with(&a));
    assert!(a.is_colliding_with(&a));
}

#[test]
fn merge_takes_the_weighted_means_and_adds_the_masses() {
    let mut a = particle(units(0, 0), units(2, 0), SCALE);
    let b = particle(units(4, 8), units(-2, 4), 3 * SCALE);
    assert_eq!(a.merge_with(&b), Ok(()));
    assert_eq!(a.position(), units(3, 6));
    assert_eq!(a.velocity(), units(-1, 3));
    assert_eq!(a.mass().raw(), 4 * SCALE);
    assert_eq!(a.radius().raw(), 4 * SCALE);
}

#[test]
fn merge_rounds_toward_zero() {
    let mut a = particle(vec2(10, -10), vec2(1, -1), 7);
    let b = particle(vec2(-3, 3), vec2(2, -2), 5);
    assert_eq!(a.merge_with(&b), Ok(()));
    assert_eq!(a.position(), vec2(4, -4));
    assert_eq!(a.velocity(), vec2(1, -1));
    assert_eq!(a.mass().raw(), 12);
}

#[test]
fn merge_keeps_the_acceleration_and_colour_of_the_absorbing_particle() {
    let blue = Color { r: 0, g: 0, b: 255, a: 255 };
    let green = Color { r: 0, g: 255, b: 0, a: 255 };
    let mut a = particle(units(0, 0), units(0, 0), SCALE)
        .with_color(blue)
        .with_acceleration(vec2(5, 6));
    let b = particle(units(1, 0), units(0, 0), SCALE)
        .with_color(green)
        .with_acceleration(vec2(7, 8));
    assert_eq!(a.merge_with(&b), Ok(()));
    assert_eq!(a.color(), blue);
    assert_eq!(a.acceleration(), vec2(5, 6));
}

#[test]
fn merge_conserves_mass_and_momentum() {
    let cases = [
        (units(0, 0), vec2(12_345, -777), 10 * SCALE, units(5, 1), vec2(-999, 31), 13 * SCALE + 7),
        (units(-9, 2), vec2(1, 1), 1, units(9, -2), vec2(-65_536, 65_535), 1000 * SCALE),
        (vec2(LIMIT, -LIMIT), vec2(LIMIT, LIMIT), LIMIT / 2, vec2(LIMIT, LIMIT), vec2(-LIMIT, 3), LIMIT / 2),
    ];
    for (p1, v1, m1, p2, v2, m2) in cases {
        let mut a = particle(p1, v1, m1);
        let b = particle(p2, v2, m2);
        assert_eq!(a.merge_with(&b), Ok(()));
        let m = (m1 + m2) as i128;
        assert_eq!(a.mass().raw() as i128, m);
        let before_x = v1.x.raw() as i128 * m1 as i128 + v2.x.raw() as i128 * m2 as i128;
        let before_y = v1.y.raw() as i128 * m1 as i128 + v2.y.raw() as i128 * m2 as i128;
        assert!((a.velocity().x.raw() as i128 * m - before_x).abs() < m);
        assert!((a.velocity().y.raw() as i128 * m - before_y).abs() < m);
        let centre_x = p1.x.raw() as i128 * m1 as i128 + p2.x.raw() as i128 * m2 as i128;
        assert!((a.position().x.raw() as i128 * m - centre_x).abs() < m);
        assert!(radius_matches_mass(&a));
    }
}

#[test]
fn merge_does_not_depend_on_who_absorbs_whom() {
    let a = particle(units(-3, 8), vec2(500, -20), 11 * SCALE + 3);
    let b = particle(units(40, 1), vec2(-7, 900), 14 * SCALE);
    let mut ab = a;
    let mut ba = b;
    assert_eq!(ab.merge_with(&b), Ok(()));
    assert_eq!(ba.merge_with(&a), Ok(()));
    assert_eq!(ab.position(), ba.position());
    assert_eq!(ab.velocity(), ba.velocity());
    assert_eq!(ab.mass(), ba.mass());
    assert_eq!(ab.radius(), ba.radius());
}

#[test]
fn merge_refuses_a_mass_beyond_the_limit_and_changes_nothing() {
    let mut a = particle(units(1, 2), units(3, 4), LIMIT);
    let b = particle(units(5, 6), units(7, 8), 1);
    assert_eq!(a.merge_with(&b), Err(SimError::MassOverflow));
    assert_eq!(a.position(), units(1, 2));
    assert_eq!(a.velocity(), units(3, 4));
    assert_eq!(a.mass().raw(), LIMIT);
    let mut c = particle(units(1, 2), units(3, 4), LIMIT - 1);
    assert_eq!(c.merge_with(&b), Ok(()));
    assert_eq!(c.mass().raw(), LIMIT);
}

#[test]
fn acceleration_is_the_other_mass_over_the_squared_distance() {
    let light = particle(units(0, 0), units(0, 0), 10 * SCALE);
    let heavy = particle(units(1000, 0), units(0, 0), 1000 * SCALE);
    assert_eq!(light.acceleration_toward(&heavy), Ok(vec2(65, 0)));
    assert_eq!(heavy.acceleration_toward(&light), Ok(vec2(0, 0)));
    let near = particle(units(5, 0), units(0, 0), 10 * SCALE);
    assert_eq!(light.acceleration_toward(&near), Ok(vec2(26_214, 0)));
    assert_eq!(near.acceleration_toward(&light), Ok(vec2(-26_214, 0)));
}

#[test]
fn acceleration_points_along_the_displacement() {
    let a = particle(units(0, 0), units(0, 0), SCALE);
    let b = particle(units(3, 4), units(0, 0), 100 * SCALE);
    assert_eq!(a.acceleration_toward(&b), Ok(vec2(157_286, 209_715)));
    let c = particle(units(-3, -4), units(0, 0), 100 * SCALE);
    assert_eq!(a.acceleration_toward(&c), Ok(vec2(-157_286, -209_715)));
    let d = particle(units(3, -4), units(0, 0), 100 * SCALE);
    assert_eq!(a.acceleration_toward(&d), Ok(vec2(157_286, -209_715)));
}

#[test]
fn acceleration_does_not_depend_on_the_own_mass() {
    let other = particle(units(30, -40), units(0, 0), 77 * SCALE);
    let light = particle(units(1, 1), units(0, 0), 1);
    let heavy = particle(units(1, 1), units(0, 0), LIMIT);
    assert_eq!(light.acceleration_toward(&other), heavy.acceleration_toward(&other));
}

#[test]
fn acceleration_saturates_between_very_close_heavy_particles() {
    let a = particle(vec2(0, 0), units(0, 0), SCALE);
    let b = particle(vec2(1, 0), units(0, 0), LIMIT);
    assert_eq!(a.acceleration_toward(&b), Ok(vec2(LIMIT, 0)));
    assert_eq!(b.acceleration_toward(&a), Ok(vec2(-LIMIT, 0)));
}

#[test]
fn acceleration_fails_between_coincident_particles() {
    let a = particle(units(7, -7), units(1, 0), SCALE);
    let b = particle(units(7, -7), units(0, 1), 5 * SCALE);
    assert_eq!(a.acceleration_toward(&b), Err(SimError::DegenerateDistance));
    assert_eq!(b.acceleration_toward(&a), Err(SimError::DegenerateDistance));
    assert_eq!(a.acceleration_toward(&a), Err(SimError::DegenerateDistance));
}

#[test]
fn compute_acceleration_overwrites_what_was_there() {
    let mut a = particle(units(0, 0), units(0, 0), SCALE);
    let first = particle(units(3, 4), units(0, 0), 100 * SCALE);
    let second = particle(units(-5, 0), units(0, 0), 10 * SCALE);
    assert_eq!(a.compute_acceleration_from(&first), Ok(()));
    assert_eq!(a.acceleration(), vec2(157_286, 209_715));
    assert_eq!(a.compute_acceleration_from(&second), Ok(()));
    assert_eq!(a.acceleration(), vec2(-26_214, 0));
    assert_eq!(a.position(), units(0, 0));
    assert_eq!(a.velocity(), units(0, 0));
    assert_eq!(a.mass().raw(), SCALE);
}

#[test]
fn compute_acceleration_fails_on_coincidence_and_changes_nothing() {
    let mut a = particle(units(2, 2), units(0, 0), SCALE).with_acceleration(vec2(9, 9));
    let b = particle(units(2, 2), units(0, 0), SCALE);
    assert_eq!(a.compute_acceleration_from(&b), Err(SimError::DegenerateDistance));
    assert_eq!(a.acceleration(), vec2(9, 9));
}

#[test]
fn integrate_moves_the_velocity_first_and_then_the_position() {
    let mut p = particle(units(0, 0), units(1, 0), SCALE).with_acceleration(units(2, -4));
    p.integrate(fx(SCALE / 2));
    assert_eq!(p.velocity(), units(2, -2));
    assert_eq!(p.position(), units(1, -1));
    assert_eq!(p.acceleration(), units(2, -4));
    assert_eq!(p.mass().raw(), SCALE);
}

#[test]
fn integrate_with_a_tick_of_ten() {
    let mut p = particle(units(100, 0), vec2(0, 32_768), 10 * SCALE).with_acceleration(vec2(-655, 0));
    p.integrate(Fixed::from_int(10));
    assert_eq!(p.velocity(), vec2(-6_550, 32_768));
    assert_eq!(p.position(), vec2(100 * SCALE - 65_500, 327_680));
}

#[test]
fn integrate_rounds_each_product_toward_zero() {
    let mut p = particle(vec2(0, 0), vec2(0, 0), SCALE).with_acceleration(vec2(3, -3));
    p.integrate(fx(SCALE / 2));
    assert_eq!(p.velocity(), vec2(1, -1));
    assert_eq!(p.position(), vec2(0, 0));
}

#[test]
fn integrate_stays_at_the_edge_of_the_range() {
    let mut p = particle(vec2(LIMIT - 5, -LIMIT + 5), vec2(LIMIT, -LIMIT), SCALE)
        .with_acceleration(vec2(LIMIT, -LIMIT));
    p.integrate(Fixed::from_int(10));
    assert_eq!(p.velocity(), vec2(LIMIT, -LIMIT));
    assert_eq!(p.position(), vec2(LIMIT, -LIMIT));
    assert!(radius_matches_mass(&p));
}

#[test]
fn integrate_with_a_zero_tick_changes_nothing() {
    let mut p = particle(units(3, 4), units(5, 6), SCALE).with_acceleration(units(7, 8));
    p.integrate(Fixed::zero());
    assert_eq!(p.position(), units(3, 4));
    assert_eq!(p.velocity(), units(5, 6));
}
