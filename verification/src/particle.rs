//! Particles: their data and the physical operations on one or two of them.

use vstd::prelude::*;
use vstd::arithmetic::div_mod::lemma_div_denominator;
use crate::error::SimError;
use crate::fixed::lemma_int_sqrt_bounds;
use crate::fixed::{clamp, div_toward_zero, int_sqrt, isqrt, scaled_product, Fixed, LIMIT, SCALE};
use crate::vector::{Vec2, Vector};

verus! {

/// A display colour. It plays no part in the physics.
#[derive(Clone, Copy, Debug, PartialEq, Eq, Structural)]
pub struct Color {
    pub r: u8,
    pub g: u8,
    pub b: u8,
    pub a: u8,
}

impl Color {
    /// Opaque white, the colour of a new particle.
    pub open spec fn spec_white() -> Color {
        Color { r: 255, g: 255, b: 255, a: 255 }
    }

    /// Opaque white, the colour of a new particle.
    #[verifier::when_used_as_spec(spec_white)]
    pub fn white() -> (c: Color)
        ensures
            c == Color::spec_white(),
    {
        Color { r: 255, g: 255, b: 255, a: 255 }
    }
}

/// The mathematical model of a [`Particle`], in raw counts.
pub struct Body {
    pub position: Vector,
    pub velocity: Vector,
    pub acceleration: Vector,
    pub mass: int,
    pub radius: int,
    pub color: Color,
}

/// The radius of a body of the given mass: twice the square root of the mass,
/// rounded down to the resolution. In raw counts, `2 * sqrt(mass / SCALE) * SCALE`
/// is the square root of `4 * SCALE * mass`.
pub open spec fn radius_of(mass: int) -> int {
    int_sqrt((4 * SCALE * mass) as nat) as int
}

impl Body {
    /// What holds of every particle: representable components, a positive
    /// mass, and the radius that the mass determines.
    pub open spec fn well_formed(self) -> bool {
        &&& self.position.in_range()
        &&& self.velocity.in_range()
        &&& self.acceleration.in_range()
        &&& 0 < self.mass <= LIMIT
        &&& self.radius == radius_of(self.mass)
    }
}

/// The square of the Euclidean distance between two points.
pub open spec fn distance_squared(a: Vector, b: Vector) -> int {
    (b.x - a.x) * (b.x - a.x) + (b.y - a.y) * (b.y - a.y)
}

/// Whether two bodies touch: their distance is at most the sum of their radii.
/// Both sides are squared, which changes nothing between non-negative numbers.
pub open spec fn colliding(a: Body, b: Body) -> bool {
    distance_squared(a.position, b.position) <= (a.radius + b.radius) * (a.radius + b.radius)
}

/// The mean of `x1` and `x2` weighted by the masses, rounded toward zero.
pub open spec fn weighted_mean(x1: int, m1: int, x2: int, m2: int) -> int {
    div_toward_zero(x1 * m1 + x2 * m2, m1 + m2)
}

/// The mass-weighted mean of two vectors.
pub open spec fn weighted_mean_vector(v1: Vector, m1: int, v2: Vector, m2: int) -> Vector {
    Vector { x: weighted_mean(v1.x, m1, v2.x, m2), y: weighted_mean(v1.y, m1, v2.y, m2) }
}

/// The body that `a` becomes when it absorbs `b`.
pub open spec fn merged(a: Body, b: Body) -> Body {
    Body {
        position: weighted_mean_vector(a.position, a.mass, b.position, b.mass),
        velocity: weighted_mean_vector(a.velocity, a.mass, b.velocity, b.mass),
        acceleration: a.acceleration,
        mass: a.mass + b.mass,
        radius: radius_of(a.mass + b.mass),
        color: a.color,
    }
}

/// One component of the acceleration that a mass induces at a displacement
/// whose squared length is `d2`: `G * mass * delta / distance^3` with `G = 1`,
/// rounded toward zero, saturated, and with the sign of `delta`.
pub open spec fn pull_component(mass: int, delta: int, d2: int) -> int {
    let magnitude = clamp(
        (mass * SCALE * SCALE * (if delta < 0 { -delta } else { delta })) / (d2 * int_sqrt(d2 as nat)),
    );
    if delta < 0 {
        -magnitude
    } else {
        magnitude
    }
}

/// The acceleration of `a` induced by `b` alone. The force
/// `G * a.mass * b.mass / distance^2` along the unit vector toward `b`,
/// divided by `a.mass`, leaves `b.mass / distance^2` along that unit vector.
/// Meaningful only where the positions differ.
pub open spec fn pull(a: Body, b: Body) -> Vector {
    let d2 = distance_squared(a.position, b.position);
    Vector {
        x: pull_component(b.mass, b.position.x - a.position.x, d2),
        y: pull_component(b.mass, b.position.y - a.position.y, d2),
    }
}

/// The body after one semi-implicit Euler step: the velocity moves by the
/// acceleration first, then the position by the new velocity.
pub open spec fn integrated(b: Body, dt: int) -> Body {
    let vx = clamp(b.velocity.x + scaled_product(b.acceleration.x, dt));
    let vy = clamp(b.velocity.y + scaled_product(b.acceleration.y, dt));
    Body {
        position: Vector {
            x: clamp(b.position.x + scaled_product(vx, dt)),
            y: clamp(b.position.y + scaled_product(vy, dt)),
        },
        velocity: Vector { x: vx, y: vy },
        ..b
    }
}

/// The radius of a representable mass is far below the representable limit.
pub proof fn lemma_radius_bound(mass: int)
    requires
        0 < mass <= LIMIT,
    ensures
        0 <= radius_of(mass) < 0x2_0000_0000,
{
    let n = (4 * SCALE * mass) as nat;
    let r = int_sqrt(n);
    lemma_int_sqrt_bounds(n);
    assert(4 * SCALE * mass == 262144 * mass) by (nonlinear_arith)
        requires
            SCALE == 65536,
    ;
    if r >= 0x2_0000_0000 {
        assert(r * r >= 0x2_0000_0000 * 0x2_0000_0000) by (nonlinear_arith)
            requires
                r >= 0x2_0000_0000,
        ;
    }
}

/// A weighted mean lies within the bound that holds of both values.
pub proof fn lemma_weighted_mean_bound(x1: int, m1: int, x2: int, m2: int, bound: int)
    requires
        -bound <= x1 <= bound,
        -bound <= x2 <= bound,
        m1 > 0,
        m2 > 0,
    ensures
        -bound <= weighted_mean(x1, m1, x2, m2) <= bound,
{
    let n = x1 * m1 + x2 * m2;
    let m = m1 + m2;
    assert(-(bound * m) <= n <= bound * m) by (nonlinear_arith)
        requires
            n == x1 * m1 + x2 * m2,
            m == m1 + m2,
            -bound <= x1 <= bound,
            -bound <= x2 <= bound,
            m1 > 0,
            m2 > 0,
    ;
    if n >= 0 {
        assert(n / m <= bound) by (nonlinear_arith)
            requires
                0 <= n <= bound * m,
                m > 0,
        ;
        assert(n / m >= 0) by (nonlinear_arith)
            requires
                0 <= n,
                m > 0,
        ;
    } else {
        assert((-n) / m <= bound) by (nonlinear_arith)
            requires
                0 <= -n <= bound * m,
                m > 0,
        ;
        assert((-n) / m >= 0) by (nonlinear_arith)
            requires
                0 <= -n,
                m > 0,
        ;
    }
}

/// A point mass.
#[derive(Clone, Copy, Debug)]
pub struct Particle {
    position: Vec2,
    velocity: Vec2,
    acceleration: Vec2,
    mass: Fixed,
    radius: Fixed,
    color: Color,
}

impl View for Particle {
    type V = Body;

    closed spec fn view(&self) -> Body {
        Body {
            position: self.position@,
            velocity: self.velocity@,
            acceleration: self.acceleration@,
            mass: self.mass@,
            radius: self.radius@,
            color: self.color,
        }
    }
}

/// The radius that belongs to a mass.
fn radius_for(mass: Fixed) -> (r: Fixed)
    requires
        mass@ > 0,
    ensures
        r@ == radius_of(mass@),
{
    let m = mass.raw();
    proof {
        lemma_radius_bound(m as int);
        assert(4 * SCALE * m == 262144 * m) by (nonlinear_arith)
            requires
                SCALE == 65536,
        ;
    }
    let n: u128 = 262144 * (m as u128);
    let r = isqrt(n);
    Fixed::saturating(r as i128)
}

/// The weighted mean of two raw counts.
fn mean_of(x1: Fixed, m1: Fixed, x2: Fixed, m2: Fixed) -> (r: Fixed)
    requires
        m1@ > 0,
        m2@ > 0,
    ensures
        r@ == weighted_mean(x1@, m1@, x2@, m2@),
{
    let a: i128 = x1.raw() as i128;
    let b: i128 = x2.raw() as i128;
    let p: i128 = m1.raw() as i128;
    let q: i128 = m2.raw() as i128;
    proof {
        lemma_weighted_mean_bound(a as int, p as int, b as int, q as int, LIMIT as int);
        assert(-(LIMIT * LIMIT) <= a * p <= LIMIT * LIMIT) by (nonlinear_arith)
            requires
                -LIMIT <= a <= LIMIT,
                0 < p <= LIMIT,
        ;
        assert(-(LIMIT * LIMIT) <= b * q <= LIMIT * LIMIT) by (nonlinear_arith)
            requires
                -LIMIT <= b <= LIMIT,
                0 < q <= LIMIT,
        ;
    }
    let n: i128 = a * p + b * q;
    Fixed::saturating(n / (p + q))
}

/// One component of the pull of a mass, from the displacement `delta`, the
/// squared distance `d2` and its integer square root `d`.
fn pull_along(mass: Fixed, delta: i128, d2: u128, d: u128) -> (r: Fixed)
    requires
        mass@ > 0,
        -2 * LIMIT <= delta <= 2 * LIMIT,
        d2 > 0,
        d == int_sqrt(d2 as nat),
    ensures
        r@ == pull_component(mass@, delta as int, d2 as int),
{
    let m: u128 = mass.raw() as u128;
    let size: u128 = if delta < 0 {
        (-delta) as u128
    } else {
        delta as u128
    };
    proof {
        lemma_int_sqrt_bounds(d2 as nat);
        assert(d > 0) by (nonlinear_arith)
            requires
                d2 > 0,
                d2 < (d + 1) * (d + 1),
                d >= 0,
        ;
    }
    let unit: u128 = m * 0x1_0000_0000;
    proof {
        assert(unit == m * SCALE * SCALE) by (nonlinear_arith)
            requires
                unit == m * 0x1_0000_0000,
                SCALE == 65536,
        ;
        assert(0 <= unit * size <= 0x8000_0000_0000_0000_0000_0000_0000_0000) by (nonlinear_arith)
            requires
                0 <= unit <= 0x8000_0000_0000_0000_0000,
                0 <= size <= 0x1_0000_0000_0000,
        ;
        lemma_div_denominator((unit * size) as int, d2 as int, d as int);
    }
    let numerator: u128 = unit * size;
    let quotient: u128 = (numerator / d2) / d;
    let magnitude: i128 = if quotient > LIMIT as u128 {
        LIMIT as i128
    } else {
        quotient as i128
    };
    if delta < 0 {
        Fixed::saturating(-magnitude)
    } else {
        Fixed::saturating(magnitude)
    }
}

/// The sum of a raw count and the fixed-point product of two others, saturated.
fn advance(x: Fixed, rate: Fixed, dt: Fixed) -> (r: Fixed)
    ensures
        r@ == clamp(x@ + scaled_product(rate@, dt@)),
{
    let a: i128 = rate.raw() as i128;
    let t: i128 = dt.raw() as i128;
    proof {
        assert(-(LIMIT * LIMIT) <= a * t <= LIMIT * LIMIT) by (nonlinear_arith)
            requires
                -LIMIT <= a <= LIMIT,
                -LIMIT <= t <= LIMIT,
        ;
    }
    let step: i128 = (a * t) / (SCALE as i128);
    Fixed::saturating(x.raw() as i128 + step)
}

impl Particle {
    #[verifier::type_invariant]
    pub open spec fn inv(self) -> bool {
        self@.well_formed()
    }

    /// A white particle at rest in its own frame: the given position, velocity
    /// and mass, no acceleration, and the radius that the mass determines.
    /// A mass that is not positive is refused.
    pub fn new(position: Vec2, velocity: Vec2, mass: Fixed) -> (r: Result<Particle, SimError>)
        ensures
            mass@ > 0 ==> r.is_ok() && r.unwrap()@ == (Body {
                position: position@,
                velocity: velocity@,
                acceleration: Vector::zero(),
                mass: mass@,
                radius: radius_of(mass@),
                color: Color::white(),
            }) && r.unwrap()@.well_formed(),
            mass@ <= 0 ==> r == Err::<Particle, SimError>(SimError::NonPositiveMass),
    {
        if mass.raw() <= 0 {
            return Err(SimError::NonPositiveMass);
        }
        let radius = radius_for(mass);
        let acceleration = Vec2::zero();
        proof {
            use_type_invariant(&position.x);
            use_type_invariant(&position.y);
            use_type_invariant(&velocity.x);
            use_type_invariant(&velocity.y);
        }
        Ok(Particle { position, velocity, acceleration, mass, radius, color: Color::white() })
    }

    /// The same particle at another position.
    pub fn with_position(self, position: Vec2) -> (p: Particle)
        ensures
            p@ == (Body { position: position@, ..self@ }),
            p@.well_formed(),
    {
        proof {
            use_type_invariant(&self);
            use_type_invariant(&position.x);
            use_type_invariant(&position.y);
        }
        Particle { position, ..self }
    }

    /// The same particle with another velocity.
    pub fn with_velocity(self, velocity: Vec2) -> (p: Particle)
        ensures
            p@ == (Body { velocity: velocity@, ..self@ }),
            p@.well_formed(),
    {
        proof {
            use_type_invariant(&self);
            use_type_invariant(&velocity.x);
            use_type_invariant(&velocity.y);
        }
        Particle { velocity, ..self }
    }

    /// The same particle with another acceleration.
    pub fn with_acceleration(self, acceleration: Vec2) -> (p: Particle)
        ensures
            p@ == (Body { acceleration: acceleration@, ..self@ }),
            p@.well_formed(),
    {
        proof {
            use_type_invariant(&self);
            use_type_invariant(&acceleration.x);
            use_type_invariant(&acceleration.y);
        }
        Particle { acceleration, ..self }
    }

    /// The same particle with another mass, and with the radius that this mass
    /// determines. A mass that is not positive is refused.
    pub fn with_mass(self, mass: Fixed) -> (r: Result<Particle, SimError>)
        ensures
            mass@ > 0 ==> r.is_ok() && r.unwrap()@ == (Body {
                mass: mass@,
                radius: radius_of(mass@),
                ..self@
            }) && r.unwrap()@.well_formed(),
            mass@ <= 0 ==> r == Err::<Particle, SimError>(SimError::NonPositiveMass),
    {
        if mass.raw() <= 0 {
            return Err(SimError::NonPositiveMass);
        }
        proof {
            use_type_invariant(&self);
        }
        let radius = radius_for(mass);
        Ok(Particle { mass, radius, ..self })
    }

    /// Confirms a radius stated by the caller: the particle comes back
    /// unchanged if the radius is the one its mass determines, and the radius
    /// is refused otherwise. The radius is never set apart from the mass.
    pub fn with_radius(self, radius: Fixed) -> (r: Result<Particle, SimError>)
        ensures
            radius@ == radius_of(self@.mass) ==> r.is_ok() && r.unwrap()@ == self@,
            radius@ != radius_of(self@.mass) ==> r == Err::<Particle, SimError>(
                SimError::InconsistentRadius,
            ),
    {
        proof {
            use_type_invariant(&self);
        }
        if radius.raw() == self.radius.raw() {
            Ok(self)
        } else {
            Err(SimError::InconsistentRadius)
        }
    }

    /// The same particle in another colour.
    pub fn with_color(self, color: Color) -> (p: Particle)
        ensures
            p@ == (Body { color, ..self@ }),
            p@.well_formed(),
    {
        proof {
            use_type_invariant(&self);
        }
        Particle { color, ..self }
    }

    /// Where the particle is.
    pub fn position(&self) -> (v: Vec2)
        ensures
            v@ == self@.position,
            v@.in_range(),
    {
        proof {
            use_type_invariant(self);
        }
        self.position
    }

    /// How fast the particle moves.
    pub fn velocity(&self) -> (v: Vec2)
        ensures
            v@ == self@.velocity,
            v@.in_range(),
    {
        proof {
            use_type_invariant(self);
        }
        self.velocity
    }

    /// The acceleration computed in the last tick.
    pub fn acceleration(&self) -> (v: Vec2)
        ensures
            v@ == self@.acceleration,
            v@.in_range(),
    {
        proof {
            use_type_invariant(self);
        }
        self.acceleration
    }

    /// The mass, always positive.
    pub fn mass(&self) -> (m: Fixed)
        ensures
            m@ == self@.mass,
            0 < m@ <= LIMIT,
    {
        proof {
            use_type_invariant(self);
        }
        self.mass
    }

    /// The radius. Whenever a particle can be observed, its radius is twice
    /// the square root of its mass, rounded down to the resolution.
    pub fn radius(&self) -> (r: Fixed)
        ensures
            r@ == self@.radius,
            r@ == radius_of(self@.mass),
            0 <= r@,
            r@ * r@ <= 4 * SCALE * self@.mass < (r@ + 1) * (r@ + 1),
    {
        proof {
            use_type_invariant(self);
            lemma_int_sqrt_bounds((4 * SCALE * self@.mass) as nat);
        }
        self.radius
    }

    /// The display colour.
    pub fn color(&self) -> (c: Color)
        ensures
            c == self@.color,
    {
        self.color
    }

    /// Whether the two particles touch.
    pub fn is_colliding_with(&self, other: &Particle) -> (hit: bool)
        ensures
            hit == colliding(self@, other@),
    {
        proof {
            use_type_invariant(self);
            use_type_invariant(other);
            lemma_radius_bound(self@.mass);
            lemma_radius_bound(other@.mass);
        }
        let dx: i128 = other.position.x.raw() as i128 - self.position.x.raw() as i128;
        let dy: i128 = other.position.y.raw() as i128 - self.position.y.raw() as i128;
        let reach: i128 = self.radius.raw() as i128 + other.radius.raw() as i128;
        proof {
            lemma_square_bound(dx as int, 2 * LIMIT);
            lemma_square_bound(dy as int, 2 * LIMIT);
            lemma_square_bound(reach as int, 2 * LIMIT);
        }
        dx * dx + dy * dy <= reach * reach
    }

    /// Absorbs `other`: position and velocity become the mass-weighted means,
    /// the masses add up, and the radius follows the new mass. The caller
    /// discards `other`. Refused, with nothing changed, where the combined
    /// mass is not representable.
    pub fn merge_with(&mut self, other: &Particle) -> (r: Result<(), SimError>)
        ensures
            old(self)@.mass + other@.mass <= LIMIT ==> r.is_ok() && final(self)@ == merged(
                old(self)@,
                other@,
            ),
            old(self)@.mass + other@.mass > LIMIT ==> r == Err::<(), SimError>(
                SimError::MassOverflow,
            ) && final(self)@ == old(self)@,
            final(self)@.well_formed(),
    {
        proof {
            use_type_invariant(&*self);
            use_type_invariant(other);
        }
        let total: i64 = self.mass.raw() + other.mass.raw();
        if total > LIMIT {
            return Err(SimError::MassOverflow);
        }
        let mass = Fixed::saturating(total as i128);
        let position = Vec2::new(
            mean_of(self.position.x, self.mass, other.position.x, other.mass),
            mean_of(self.position.y, self.mass, other.position.y, other.mass),
        );
        let velocity = Vec2::new(
            mean_of(self.velocity.x, self.mass, other.velocity.x, other.mass),
            mean_of(self.velocity.y, self.mass, other.velocity.y, other.mass),
        );
        let radius = radius_for(mass);
        proof {
            use_type_invariant(&position.x);
            use_type_invariant(&position.y);
            use_type_invariant(&velocity.x);
            use_type_invariant(&velocity.y);
        }
        *self = Particle {
            position,
            velocity,
            acceleration: self.acceleration,
            mass,
            radius,
            color: self.color,
        };
        Ok(())
    }

    /// The acceleration that `other` alone induces on this particle. Fails
    /// where the two share a position, for then no direction leads from one
    /// to the other.
    pub fn acceleration_toward(&self, other: &Particle) -> (r: Result<Vec2, SimError>)
        ensures
            self@.position != other@.position ==> r.is_ok() && r.unwrap()@ == pull(self@, other@)
                && r.unwrap()@.in_range(),
            self@.position == other@.position ==> r == Err::<Vec2, SimError>(
                SimError::DegenerateDistance,
            ),
    {
        proof {
            use_type_invariant(self);
            use_type_invariant(other);
        }
        let dx: i128 = other.position.x.raw() as i128 - self.position.x.raw() as i128;
        let dy: i128 = other.position.y.raw() as i128 - self.position.y.raw() as i128;
        proof {
            lemma_square_bound(dx as int, 2 * LIMIT);
            lemma_square_bound(dy as int, 2 * LIMIT);
        }
        let d2: u128 = (dx * dx + dy * dy) as u128;
        if d2 == 0 {
            return Err(SimError::DegenerateDistance);
        }
        let d = isqrt(d2);
        let x = pull_along(other.mass, dx, d2, d);
        let y = pull_along(other.mass, dy, d2, d);
        proof {
            use_type_invariant(&x);
            use_type_invariant(&y);
        }
        Ok(Vec2::new(x, y))
    }

    /// Replaces the acceleration by the one that `other` alone induces. One
    /// call accounts for one neighbour; the world sums over all of them.
    /// Fails, with nothing changed, where the two share a position.
    pub fn compute_acceleration_from(&mut self, other: &Particle) -> (r: Result<(), SimError>)
        ensures
            old(self)@.position != other@.position ==> r.is_ok() && final(self)@ == (Body {
                acceleration: pull(old(self)@, other@),
                ..old(self)@
            }),
            old(self)@.position == other@.position ==> r == Err::<(), SimError>(
                SimError::DegenerateDistance,
            ) && final(self)@ == old(self)@,
            final(self)@.well_formed(),
    {
        proof {
            use_type_invariant(&*self);
        }
        match self.acceleration_toward(other) {
            Ok(acceleration) => {
                *self = self.with_acceleration(acceleration);
                Ok(())
            },
            Err(e) => Err(e),
        }
    }

    /// Advances the particle by one tick of length `dt`: first the velocity by
    /// the acceleration, then the position by the new velocity. Components
    /// that leave the representable range stay at its edge.
    pub fn integrate(&mut self, dt: Fixed)
        ensures
            final(self)@ == integrated(old(self)@, dt@),
            final(self)@.well_formed(),
    {
        proof {
            use_type_invariant(&*self);
        }
        let vx = advance(self.velocity.x, self.acceleration.x, dt);
        let vy = advance(self.velocity.y, self.acceleration.y, dt);
        let px = advance(self.position.x, vx, dt);
        let py = advance(self.position.y, vy, dt);
        proof {
            use_type_invariant(&vx);
            use_type_invariant(&vy);
            use_type_invariant(&px);
            use_type_invariant(&py);
        }
        *self = Particle { position: Vec2::new(px, py), velocity: Vec2::new(vx, vy), ..*self };
    }
}

/// The square of a bounded number is bounded by the square of the bound.
pub proof fn lemma_square_bound(x: int, bound: int)
    requires
        -bound <= x <= bound,
    ensures
        0 <= x * x <= bound * bound,
        x * x == 0 <==> x == 0,
{
    assert(0 <= x * x <= bound * bound) by (nonlinear_arith)
        requires
            -bound <= x <= bound,
    ;
    assert(x * x == 0 <==> x == 0) by (nonlinear_arith);
}

/// A weighted mean times the combined mass misses the weighted sum by less
/// than the combined mass: the rounding loses less than one raw count.
pub proof fn lemma_weighted_mean_exact(x1: int, m1: int, x2: int, m2: int)
    requires
        m1 > 0,
        m2 > 0,
    ensures
        -(m1 + m2) < weighted_mean(x1, m1, x2, m2) * (m1 + m2) - (x1 * m1 + x2 * m2) < m1 + m2,
{
    let n = x1 * m1 + x2 * m2;
    let m = m1 + m2;
    if n >= 0 {
        assert(0 <= n - (n / m) * m < m) by (nonlinear_arith)
            requires
                n >= 0,
                m > 0,
        ;
    } else {
        let q = (-n) / m;
        assert(0 <= (-n) - q * m < m) by (nonlinear_arith)
            requires
                -n >= 0,
                m > 0,
                q == (-n) / m,
        ;
        assert((-q) * m == -(q * m)) by (nonlinear_arith);
    }
}

/// A weighted mean lies between the two values, whatever the rounding.
pub proof fn lemma_weighted_mean_between(x1: int, m1: int, x2: int, m2: int)
    requires
        m1 > 0,
        m2 > 0,
        x1 <= x2,
    ensures
        x1 <= weighted_mean(x1, m1, x2, m2) <= x2,
        x1 <= weighted_mean(x2, m2, x1, m1) <= x2,
{
    let n = x1 * m1 + x2 * m2;
    let m = m1 + m2;
    assert(x1 * m <= n <= x2 * m) by (nonlinear_arith)
        requires
            n == x1 * m1 + x2 * m2,
            m == m1 + m2,
            x1 <= x2,
            m1 > 0,
            m2 > 0,
    ;
    if n >= 0 {
        let q = n / m;
        assert(0 <= q && q * m <= n < q * m + m) by (nonlinear_arith)
            requires
                q == n / m,
                n >= 0,
                m > 0,
        ;
        assert(x1 <= q <= x2) by (nonlinear_arith)
            requires
                x1 * m <= n <= x2 * m,
                q * m <= n < q * m + m,
                0 <= q,
                m > 0,
        ;
    } else {
        let q = (-n) / m;
        assert(0 <= q && q * m <= -n < q * m + m) by (nonlinear_arith)
            requires
                q == (-n) / m,
                -n >= 0,
                m > 0,
        ;
        assert(x1 <= -q <= x2) by (nonlinear_arith)
            requires
                x1 * m <= n <= x2 * m,
                q * m <= -n < q * m + m,
                0 <= q,
                n < 0,
                m > 0,
        ;
    }
    assert(x2 * m2 + x1 * m1 == n);
    assert(m2 + m1 == m);
}

/// A merge conserves mass and momentum. The mass of the merged body is the
/// sum of the two masses, exactly. Its velocity is the mass-weighted mean of
/// the two velocities, so that its momentum differs from the sum of the two
/// momenta by less than one raw count of velocity for each raw count of mass.
/// The same holds of the position and the centre of mass.
pub proof fn lemma_merge_conserves_momentum(a: Body, b: Body)
    requires
        a.mass > 0,
        b.mass > 0,
    ensures
        merged(a, b).mass == a.mass + b.mass,
        merged(a, b).velocity == weighted_mean_vector(a.velocity, a.mass, b.velocity, b.mass),
        -merged(a, b).mass < merged(a, b).velocity.x * merged(a, b).mass - (a.velocity.x * a.mass
            + b.velocity.x * b.mass) < merged(a, b).mass,
        -merged(a, b).mass < merged(a, b).velocity.y * merged(a, b).mass - (a.velocity.y * a.mass
            + b.velocity.y * b.mass) < merged(a, b).mass,
        -merged(a, b).mass < merged(a, b).position.x * merged(a, b).mass - (a.position.x * a.mass
            + b.position.x * b.mass) < merged(a, b).mass,
        -merged(a, b).mass < merged(a, b).position.y * merged(a, b).mass - (a.position.y * a.mass
            + b.position.y * b.mass) < merged(a, b).mass,
{
    lemma_weighted_mean_exact(a.velocity.x, a.mass, b.velocity.x, b.mass);
    lemma_weighted_mean_exact(a.velocity.y, a.mass, b.velocity.y, b.mass);
    lemma_weighted_mean_exact(a.position.x, a.mass, b.position.x, b.mass);
    lemma_weighted_mean_exact(a.position.y, a.mass, b.position.y, b.mass);
}

/// A merge does not depend on which of the two bodies absorbs the other, as
/// far as the physics goes: position, velocity, mass and radius come out the
/// same. Only the acceleration and the colour are those of the absorbing body.
pub proof fn lemma_merge_commutative(a: Body, b: Body)
    ensures
        merged(a, b).position == merged(b, a).position,
        merged(a, b).velocity == merged(b, a).velocity,
        merged(a, b).mass == merged(b, a).mass,
        merged(a, b).radius == merged(b, a).radius,
{
}

/// The radius of every well-formed body is twice the square root of its
/// mass, rounded down to the resolution; and a merge and an integration
/// step keep it so.
pub proof fn lemma_radius_consistent(a: Body, b: Body, dt: int)
    requires
        a.well_formed(),
        b.well_formed(),
    ensures
        0 <= a.radius,
        a.radius * a.radius <= 4 * SCALE * a.mass < (a.radius + 1) * (a.radius + 1),
        merged(a, b).radius == radius_of(merged(a, b).mass),
        integrated(a, dt).radius == radius_of(integrated(a, dt).mass),
        integrated(a, dt).well_formed(),
{
    lemma_int_sqrt_bounds((4 * SCALE * a.mass) as nat);
}

/// Whether `a` touches `b` is whether `b` touches `a`.
pub proof fn lemma_collision_symmetric(a: Body, b: Body)
    ensures
        colliding(a, b) == colliding(b, a),
{
    let dx = b.position.x - a.position.x;
    let dy = b.position.y - a.position.y;
    assert(dx * dx == (-dx) * (-dx)) by (nonlinear_arith);
    assert(dy * dy == (-dy) * (-dy)) by (nonlinear_arith);
    assert(a.position.x - b.position.x == -dx);
    assert(a.position.y - b.position.y == -dy);
    assert((a.radius + b.radius) * (a.radius + b.radius) == (b.radius + a.radius) * (b.radius
        + a.radius));
}

/// Gravity attracts: each component of the pull on `a` has the sign of the
/// displacement from `a` to `b`, or is zero. And the two bodies of a pair
/// are pulled in opposite directions.
pub proof fn lemma_pull_points_toward(a: Body, b: Body)
    requires
        a.mass > 0,
        b.mass > 0,
        a.position != b.position,
    ensures
        b.position.x >= a.position.x ==> pull(a, b).x >= 0,
        b.position.x <= a.position.x ==> pull(a, b).x <= 0,
        b.position.y >= a.position.y ==> pull(a, b).y >= 0,
        b.position.y <= a.position.y ==> pull(a, b).y <= 0,
        b.position.x >= a.position.x ==> pull(b, a).x <= 0,
        b.position.x <= a.position.x ==> pull(b, a).x >= 0,
        b.position.y >= a.position.y ==> pull(b, a).y <= 0,
        b.position.y <= a.position.y ==> pull(b, a).y >= 0,
{
    let dx = b.position.x - a.position.x;
    let dy = b.position.y - a.position.y;
    let d2 = distance_squared(a.position, b.position);
    lemma_distance_symmetric(a.position, b.position);
    lemma_pull_component_sign(b.mass, dx, d2);
    lemma_pull_component_sign(b.mass, dy, d2);
    lemma_pull_component_sign(a.mass, -dx, d2);
    lemma_pull_component_sign(a.mass, -dy, d2);
}

/// The distance from `a` to `b` is the distance from `b` to `a`, and it is
/// zero only between equal points.
pub proof fn lemma_distance_symmetric(a: Vector, b: Vector)
    ensures
        distance_squared(a, b) == distance_squared(b, a),
        distance_squared(a, b) >= 0,
        distance_squared(a, b) == 0 <==> a == b,
{
    let dx = b.x - a.x;
    let dy = b.y - a.y;
    assert(dx * dx == (-dx) * (-dx)) by (nonlinear_arith);
    assert(dy * dy == (-dy) * (-dy)) by (nonlinear_arith);
    assert(a.x - b.x == -dx);
    assert(a.y - b.y == -dy);
    assert(dx * dx >= 0 && (dx * dx == 0 <==> dx == 0)) by (nonlinear_arith);
    assert(dy * dy >= 0 && (dy * dy == 0 <==> dy == 0)) by (nonlinear_arith);
}

/// A component of a pull has the sign of its displacement, or is zero.
pub proof fn lemma_pull_component_sign(mass: int, delta: int, d2: int)
    requires
        mass > 0,
        d2 > 0,
    ensures
        delta >= 0 ==> pull_component(mass, delta, d2) >= 0,
        delta <= 0 ==> pull_component(mass, delta, d2) <= 0,
{
    let d = int_sqrt(d2 as nat) as int;
    lemma_int_sqrt_bounds(d2 as nat);
    let size = if delta < 0 { -delta } else { delta };
    let n = mass * SCALE * SCALE * size;
    let den = d2 * d;
    assert(n >= 0) by (nonlinear_arith)
        requires
            n == mass * SCALE * SCALE * size,
            mass > 0,
            size >= 0,
            SCALE == 65536,
    ;
    assert(den > 0) by (nonlinear_arith)
        requires
            den == d2 * d,
            d2 > 0,
            d >= 0,
            d2 < (d + 1) * (d + 1),
    ;
    assert(n / den >= 0) by (nonlinear_arith)
        requires
            n >= 0,
            den > 0,
    ;
    if delta == 0 {
        assert(n / den == 0) by (nonlinear_arith)
            requires
                n == mass * SCALE * SCALE * size,
                size == 0,
                den > 0,
        ;
    }
}

} // verus!
