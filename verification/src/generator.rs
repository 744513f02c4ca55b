//! The initial conditions: a random cloud of orbiting particles around one
//! heavy particle at the origin.

use vstd::prelude::*;
use rand::rngs::StdRng;
use rand::Rng;
use crate::error::SimError;
use crate::fixed::{clamp, div_toward_zero, int_sqrt, isqrt, scaled_product, Fixed, LIMIT, SCALE};
use crate::fixed::{lemma_int_sqrt_bounds, lemma_int_sqrt_monotonic, lemma_int_sqrt_unique};
use crate::particle::{radius_of, Body, Color, Particle};
use crate::particle::lemma_square_bound;
use crate::vector::{Vec2, Vector};
use crate::world::{all_well_formed, bodies, total_mass, World};

verus! {

/// The least number of orbiting particles.
pub const MIN_PARTICLES: i64 = 500;

/// One more than the greatest number of orbiting particles.
pub const MAX_PARTICLES: i64 = 1000;

/// The least distance from the origin, 100 units, in raw counts.
pub const MIN_DISTANCE: i64 = 6_553_600;

/// The bound that the distance from the origin stays below, 1500 units.
pub const MAX_DISTANCE: i64 = 98_304_000;

/// The bound that the initial speed stays below, one unit of length per unit
/// of time.
pub const MAX_SPEED: i64 = 65_536;

/// The least mass of an orbiting particle, 10 units.
pub const MIN_MASS: i64 = 655_360;

/// The bound that the mass of an orbiting particle stays below, 15 units.
pub const MAX_MASS: i64 = 983_040;

/// The mass of the particle at the origin, 1000 units.
pub const ANCHOR_MASS: i64 = 65_536_000;

/// The half side of the square from which directions are drawn.
pub const REACH: i64 = 0x4000_0000;

/// How often a direction is drawn before a fixed one is taken.
pub const ATTEMPTS: u32 = 64;

/// Declares `rand::rngs::StdRng` as an opaque type: a generator is handed
/// through to `draw`, and nothing is claimed of its state.
#[verifier::external_type_specification]
#[verifier::external_body]
pub struct ExStdRng(StdRng);

/// `rand::Rng::gen_range` of `StdRng` on the half-open range `low..high` of
/// `i64`. The range must not be empty, or the call panics. The result lies
/// in the range; which number of the range it is depends on the generator.
#[verifier::external_body]
fn draw(rng: &mut StdRng, low: i64, high: i64) -> (r: i64)
    requires
        low < high,
    ensures
        low <= r < high,
{
    rng.gen_range(low..high)
}

/// Whether a drawn point serves as a direction: it lies in the ring between
/// the radii `REACH / 2` and `REACH` around the origin. Points of the square
/// outside the ring are drawn again, so that every angle is as likely as any
/// and the rounded length of the point is close to its length.
pub open spec fn accepted(x: int, y: int) -> bool {
    &&& -REACH <= x <= REACH
    &&& -REACH <= y <= REACH
    &&& REACH * REACH <= 4 * (x * x + y * y) <= 4 * REACH * REACH
}

/// The vector of length one, up to rounding, along `(x, y)`.
pub open spec fn normalized(x: int, y: int) -> Vector {
    let d = int_sqrt((x * x + y * y) as nat) as int;
    Vector { x: div_toward_zero(x * SCALE, d), y: div_toward_zero(y * SCALE, d) }
}

/// Whether a vector has length one, up to rounding: no component exceeds
/// `SCALE` in size, and the squares of the components add up to the square
/// of `SCALE` within a few raw counts.
pub open spec fn has_unit_length(v: Vector) -> bool {
    &&& -SCALE <= v.x <= SCALE
    &&& -SCALE <= v.y <= SCALE
    &&& SCALE * SCALE - 4 * SCALE - 2 < v.x * v.x + v.y * v.y <= SCALE * SCALE + 24
}

/// Whether a vector is the direction of some accepted point.
pub open spec fn is_direction(v: Vector) -> bool {
    exists|x: int, y: int| #[trigger] accepted(x, y) && v == normalized(x, y)
}

/// The numbers drawn for one orbiting particle.
pub struct Draws {
    pub distance: int,
    pub direction: Vector,
    pub speed: int,
    pub mass: int,
}

impl Draws {
    /// Whether each number lies in the range it is drawn from.
    pub open spec fn in_bounds(self) -> bool {
        &&& MIN_DISTANCE <= self.distance < MAX_DISTANCE
        &&& is_direction(self.direction)
        &&& 0 <= self.speed < MAX_SPEED
        &&& MIN_MASS <= self.mass < MAX_MASS
    }
}

/// The body at `distance` from the origin along `direction`, moving at
/// `speed` at a right angle to its position.
pub open spec fn orbiting(d: Draws) -> Body {
    Body {
        position: Vector {
            x: clamp(scaled_product(d.distance, d.direction.x)),
            y: clamp(scaled_product(d.distance, d.direction.y)),
        },
        velocity: Vector {
            x: clamp(scaled_product(d.speed, d.direction.y)),
            y: clamp(-scaled_product(d.speed, d.direction.x)),
        },
        acceleration: Vector::zero(),
        mass: d.mass,
        radius: radius_of(d.mass),
        color: Color::white(),
    }
}

/// Whether a body is an orbiting particle of some draws within bounds.
pub open spec fn is_orbiter(b: Body) -> bool {
    exists|d: Draws| #[trigger] d.in_bounds() && b == orbiting(d)
}

/// The heavy body at rest at the origin.
pub open spec fn anchor_body() -> Body {
    Body {
        position: Vector::zero(),
        velocity: Vector::zero(),
        acceleration: Vector::zero(),
        mass: ANCHOR_MASS as int,
        radius: radius_of(ANCHOR_MASS as int),
        color: Color::white(),
    }
}

/// Adding a body at the end adds its mass to the total.
pub proof fn lemma_total_mass_push(bs: Seq<Body>, b: Body)
    ensures
        total_mass(bs.push(b)) == total_mass(bs) + b.mass,
{
    assert(bs.push(b).drop_last() =~= bs);
}

/// The fixed-point product of two numbers, saturated.
fn product(a: Fixed, b: Fixed) -> (r: Fixed)
    ensures
        r@ == clamp(scaled_product(a@, b@)),
{
    let x: i128 = a.raw() as i128;
    let y: i128 = b.raw() as i128;
    proof {
        assert(-(LIMIT * LIMIT) <= x * y <= LIMIT * LIMIT) by (nonlinear_arith)
            requires
                -LIMIT <= x <= LIMIT,
                -LIMIT <= y <= LIMIT,
        ;
    }
    Fixed::saturating((x * y) / (SCALE as i128))
}

/// Builds the starting world.
pub struct Generator;

impl Generator {
    /// The direction of a drawn point, or nothing where the point is refused.
    pub fn unit_direction(x: i64, y: i64) -> (r: Option<Vec2>)
        ensures
            accepted(x as int, y as int) ==> r.is_some() && r.unwrap()@ == normalized(
                x as int,
                y as int,
            ) && has_unit_length(r.unwrap()@),
            !accepted(x as int, y as int) ==> r.is_none(),
    {
        if x < -REACH || x > REACH || y < -REACH || y > REACH {
            return None;
        }
        let a: i128 = x as i128;
        let b: i128 = y as i128;
        proof {
            lemma_square_bound(a as int, REACH as int);
            lemma_square_bound(b as int, REACH as int);
        }
        let d2: i128 = a * a + b * b;
        let outer: i128 = (REACH as i128) * (REACH as i128);
        if 4 * d2 < outer || d2 > outer {
            return None;
        }
        let d: i128 = isqrt(d2 as u128) as i128;
        proof {
            assert(d > 0) by (nonlinear_arith)
                requires
                    d2 > 0,
                    d2 < (d + 1) * (d + 1),
                    d >= 0,
            ;
            assert(a * SCALE == a * 65536 && b * SCALE == b * 65536) by (nonlinear_arith)
                requires
                    SCALE == 65536,
            ;
        }
        let ux = Fixed::saturating((a * 65536) / d);
        let uy = Fixed::saturating((b * 65536) / d);
        proof {
            lemma_direction_bound(x as int, y as int);
            lemma_direction_length(x as int, y as int);
        }
        Some(Vec2::new(ux, uy))
    }

    /// A direction whose angle is uniformly distributed: the direction of the
    /// first accepted point among up to `ATTEMPTS` points drawn from the
    /// square, and the direction of the first axis if none is accepted.
    /// Whatever is drawn, the result is the direction of an accepted point,
    /// and so has length one up to rounding.
    pub fn random_direction(rng: &mut StdRng) -> (v: Vec2)
        ensures
            is_direction(v@),
            has_unit_length(v@),
    {
        let mut tries: u32 = 0;
        while tries < ATTEMPTS
            invariant
                tries <= ATTEMPTS,
            decreases ATTEMPTS - tries,
        {
            let x = draw(rng, -REACH, REACH + 1);
            let y = draw(rng, -REACH, REACH + 1);
            match Generator::unit_direction(x, y) {
                Some(v) => {
                    assert(accepted(x as int, y as int));
                    return v;
                },
                None => {},
            }
            tries = tries + 1;
        }
        assert(accepted(REACH as int, 0)) by (nonlinear_arith);
        let along_first_axis = Generator::unit_direction(REACH, 0);
        along_first_axis.unwrap()
    }

    /// The orbiting particle of the given draws: at `distance` from the origin
    /// along `direction`, with a velocity of size `speed` at a right angle to
    /// the position. A mass that is not positive is refused.
    pub fn orbiting_particle(distance: Fixed, direction: Vec2, speed: Fixed, mass: Fixed) -> (r:
        Result<Particle, SimError>)
        ensures
            mass@ > 0 ==> r.is_ok() && r.unwrap()@ == orbiting(
                Draws { distance: distance@, direction: direction@, speed: speed@, mass: mass@ },
            ) && r.unwrap()@.well_formed(),
            mass@ <= 0 ==> r == Err::<Particle, SimError>(SimError::NonPositiveMass),
    {
        let position = Vec2::new(product(distance, direction.x), product(distance, direction.y));
        let across = product(speed, direction.x);
        let vy = Fixed::saturating(-(across.raw() as i128));
        let velocity = Vec2::new(product(speed, direction.y), vy);
        Particle::new(position, velocity, mass)
    }

    /// The heavy particle at rest at the origin.
    pub fn anchor() -> (p: Particle)
        ensures
            p@ == anchor_body(),
            p@.well_formed(),
    {
        let mass = Fixed::saturating(ANCHOR_MASS as i128);
        let made = Particle::new(Vec2::zero(), Vec2::zero(), mass);
        made.unwrap()
    }

    /// A new world: between `MIN_PARTICLES` and `MAX_PARTICLES` orbiting
    /// particles, each from its own draws, and behind them the anchor. The
    /// generator is the only source of chance in the library.
    pub fn new_world(rng: &mut StdRng) -> (w: World)
        ensures
            MIN_PARTICLES < w@.len() <= MAX_PARTICLES,
            w@.last() == anchor_body(),
            forall|i: int| 0 <= i < w@.len() - 1 ==> is_orbiter(#[trigger] w@[i]),
            all_well_formed(w@),
    {
        let count = draw(rng, MIN_PARTICLES, MAX_PARTICLES) as usize;
        let mut particles: Vec<Particle> = Vec::new();
        let mut k: usize = 0;
        while k < count
            invariant
                k <= count < MAX_PARTICLES,
                particles.len() == k,
                forall|i: int| 0 <= i < k ==> is_orbiter(#[trigger] bodies(particles@)[i]),
                forall|i: int| 0 <= i < k ==> (#[trigger] bodies(particles@)[i]).well_formed(),
                total_mass(bodies(particles@)) <= k * MAX_MASS,
            decreases count - k,
        {
            let ghost before = bodies(particles@);
            let distance = Fixed::saturating(draw(rng, MIN_DISTANCE, MAX_DISTANCE) as i128);
            let direction = Generator::random_direction(rng);
            let speed = Fixed::saturating(draw(rng, 0, MAX_SPEED) as i128);
            let mass = Fixed::saturating(draw(rng, MIN_MASS, MAX_MASS) as i128);
            let made = Generator::orbiting_particle(distance, direction, speed, mass);
            let p = made.unwrap();
            particles.push(p);
            proof {
                let d = Draws {
                    distance: distance@,
                    direction: direction@,
                    speed: speed@,
                    mass: mass@,
                };
                assert(d.in_bounds());
                assert(bodies(particles@) =~= before.push(p@));
                lemma_total_mass_push(before, p@);
            }
            k = k + 1;
        }
        let ghost orbiters = bodies(particles@);
        let anchor = Generator::anchor();
        particles.push(anchor);
        proof {
            assert(bodies(particles@) =~= orbiters.push(anchor@));
            lemma_total_mass_push(orbiters, anchor@);
        }
        let world = World::new(particles);
        world.unwrap()
    }
}

/// Each component of a direction is at most one in size.
pub proof fn lemma_direction_bound(x: int, y: int)
    requires
        accepted(x, y),
    ensures
        -SCALE <= normalized(x, y).x <= SCALE,
        -SCALE <= normalized(x, y).y <= SCALE,
{
    let d2 = (x * x + y * y) as nat;
    let d = int_sqrt(d2) as int;
    lemma_square_bound(x, REACH as int);
    lemma_square_bound(y, REACH as int);
    lemma_int_sqrt_bounds(d2);
    assert(d > 0) by (nonlinear_arith)
        requires
            d2 > 0,
            d2 < (d + 1) * (d + 1),
            d >= 0,
    ;
    lemma_size_below_length(x, d2);
    lemma_size_below_length(y, d2);
    lemma_quotient_bound(x, d);
    lemma_quotient_bound(y, d);
}

/// A direction has length one, up to rounding: the squares of its components
/// add up to the square of `SCALE`, less at most four raw counts of length
/// and plus at most a few raw counts of area.
pub proof fn lemma_direction_length(x: int, y: int)
    requires
        accepted(x, y),
    ensures
        SCALE * SCALE - 4 * SCALE - 2 < normalized(x, y).x * normalized(x, y).x + normalized(
            x,
            y,
        ).y * normalized(x, y).y <= SCALE * SCALE + 24,
{
    let d2 = x * x + y * y;
    let d = int_sqrt(d2 as nat) as int;
    let one: int = 0x1_0000_0000;
    lemma_int_sqrt_bounds(d2 as nat);
    lemma_square_bound(x, REACH as int);
    lemma_square_bound(y, REACH as int);
    assert(d >= 0x2000_0000) by (nonlinear_arith)
        requires
            d2 < (d + 1) * (d + 1),
            4 * d2 >= 0x4000_0000 * 0x4000_0000,
            d >= 0,
    ;
    let ax = if x < 0 { -x } else { x };
    let ay = if y < 0 { -y } else { y };
    let u = (ax * SCALE) / d;
    let v = (ay * SCALE) / d;
    lemma_component_square(x, d);
    lemma_component_square(y, d);
    lemma_floor_squares(ax, d, u);
    lemma_floor_squares(ay, d, v);
    lemma_direction_bound(x, y);
    let p = u * u + v * v;
    let q = (u + 1) * (u + 1) + (v + 1) * (v + 1);
    let dd = d * d;
    assert(ax * ax == x * x && ay * ay == y * y) by (nonlinear_arith)
        requires
            ax == x || ax == -x,
            ay == y || ay == -y,
    ;
    assert(p * dd <= d2 * one && d2 * one < q * dd) by (nonlinear_arith)
        requires
            u * u * dd <= ax * ax * one,
            v * v * dd <= ay * ay * one,
            ax * ax * one < (u + 1) * (u + 1) * dd,
            ay * ay * one < (v + 1) * (v + 1) * dd,
            d2 == ax * ax + ay * ay,
            p == u * u + v * v,
            q == (u + 1) * (u + 1) + (v + 1) * (v + 1),
    ;
    assert(dd >= 0x2000_0000 * d && dd > 0) by (nonlinear_arith)
        requires
            dd == d * d,
            d >= 0x2000_0000,
    ;
    assert(d2 * one < (dd + 2 * d + 1) * one && dd * one <= d2 * one) by (nonlinear_arith)
        requires
            dd == d * d,
            dd <= d2 < (d + 1) * (d + 1),
            one == 0x1_0000_0000,
    ;
    if p >= one + 25 {
        assert(p * dd >= (one + 25) * dd) by (nonlinear_arith)
            requires
                p >= one + 25,
                dd > 0,
        ;
        assert(false) by (nonlinear_arith)
            requires
                (one + 25) * dd < (dd + 2 * d + 1) * one,
                dd >= 0x2000_0000 * d,
                d >= 0x2000_0000,
                one == 0x1_0000_0000,
        ;
    }
    assert(one < q) by (nonlinear_arith)
        requires
            dd * one < q * dd,
            dd > 0,
    ;
    assert(q == p + 2 * u + 2 * v + 2) by (nonlinear_arith)
        requires
            p == u * u + v * v,
            q == (u + 1) * (u + 1) + (v + 1) * (v + 1),
    ;
    assert(SCALE * SCALE == one) by (nonlinear_arith)
        requires
            SCALE == 65536,
            one == 0x1_0000_0000,
    ;
}

/// The square of a component of a direction is the square of the rounded
/// quotient of the sizes; and that quotient is at most the component's size.
proof fn lemma_component_square(x: int, d: int)
    requires
        d > 0,
    ensures
        ({
            let size = if x < 0 { -x } else { x };
            let c = div_toward_zero(x * SCALE, d);
            c * c == ((size * SCALE) / d) * ((size * SCALE) / d) && (c == (size * SCALE) / d || c == -((size
                * SCALE) / d))
        }),
{
    let size = if x < 0 { -x } else { x };
    let c = div_toward_zero(x * SCALE, d);
    let u = (size * SCALE) / d;
    if x >= 0 {
        assert(x * SCALE >= 0) by (nonlinear_arith)
            requires
                x >= 0,
                SCALE == 65536,
        ;
        assert(c == u);
    } else {
        assert(x * SCALE < 0 && -(x * SCALE) == (-x) * SCALE) by (nonlinear_arith)
            requires
                x < 0,
                SCALE == 65536,
        ;
        assert(c == -u);
        assert((-u) * (-u) == u * u) by (nonlinear_arith);
    }
}

/// The rounded quotient `u` of `a * SCALE` by `d` brackets the true quotient,
/// and so do the squares.
proof fn lemma_floor_squares(a: int, d: int, u: int)
    requires
        a >= 0,
        d > 0,
        u == (a * SCALE) / d,
    ensures
        u >= 0,
        u * u * (d * d) <= a * a * 0x1_0000_0000,
        a * a * 0x1_0000_0000 < (u + 1) * (u + 1) * (d * d),
{
    let n = a * SCALE;
    assert(n >= 0) by (nonlinear_arith)
        requires
            n == a * SCALE,
            a >= 0,
            SCALE == 65536,
    ;
    assert(u >= 0 && u * d <= n < (u + 1) * d) by (nonlinear_arith)
        requires
            u == n / d,
            n >= 0,
            d > 0,
    ;
    assert((u * d) * (u * d) <= n * n) by (nonlinear_arith)
        requires
            0 <= u * d <= n,
    ;
    assert(n * n < ((u + 1) * d) * ((u + 1) * d)) by (nonlinear_arith)
        requires
            0 <= n < (u + 1) * d,
    ;
    assert((u * d) * (u * d) == u * u * (d * d)) by (nonlinear_arith);
    assert(((u + 1) * d) * ((u + 1) * d) == (u + 1) * (u + 1) * (d * d)) by (nonlinear_arith);
    assert(n * n == a * a * 0x1_0000_0000) by (nonlinear_arith)
        requires
            n == a * SCALE,
            SCALE == 65536,
    ;
}

/// A number whose square is at most `n` is at most the square root of `n` in size.
proof fn lemma_size_below_length(x: int, n: nat)
    requires
        x * x <= n,
    ensures
        -int_sqrt(n) <= x <= int_sqrt(n),
{
    let size: nat = if x < 0 { (-x) as nat } else { x as nat };
    assert(size * size == x * x) by (nonlinear_arith)
        requires
            size == x || size == -x,
    ;
    assert(size * size < (size + 1) * (size + 1)) by (nonlinear_arith);
    lemma_int_sqrt_unique(size, size * size);
    lemma_int_sqrt_monotonic(size * size, n);
}

/// The quotient by a bound of the size of the dividend is at most one.
proof fn lemma_quotient_bound(x: int, d: int)
    requires
        -d <= x <= d,
        d > 0,
    ensures
        -SCALE <= div_toward_zero(x * SCALE, d) <= SCALE,
{
    if x >= 0 {
        assert(0 <= (x * SCALE) / d <= SCALE) by (nonlinear_arith)
            requires
                0 <= x <= d,
                d > 0,
                SCALE == 65536,
        ;
        assert(x * SCALE >= 0) by (nonlinear_arith)
            requires
                x >= 0,
                SCALE == 65536,
        ;
    } else {
        assert(0 <= (-(x * SCALE)) / d <= SCALE) by (nonlinear_arith)
            requires
                0 < -x <= d,
                d > 0,
                SCALE == 65536,
        ;
        assert(x * SCALE < 0) by (nonlinear_arith)
            requires
                x < 0,
                SCALE == 65536,
        ;
    }
}

} // verus!
