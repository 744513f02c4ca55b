//! The world: the collection of particles and the simulation tick.

use vstd::prelude::*;
use crate::error::SimError;
use crate::fixed::{clamp, Fixed, LIMIT};
use crate::particle::{colliding, integrated, merged, pull, Body, Particle};
use crate::particle::lemma_weighted_mean_bound;
use crate::vector::{Vec2, Vector};

verus! {

/// The models of a sequence of particles, in the same order.
pub open spec fn bodies(ps: Seq<Particle>) -> Seq<Body> {
    Seq::new(ps.len(), |i: int| ps[i]@)
}

/// Whether every body of the sequence is well formed.
pub open spec fn all_well_formed(bs: Seq<Body>) -> bool {
    forall|i: int| 0 <= i < bs.len() ==> (#[trigger] bs[i]).well_formed()
}

/// The sum of the masses.
pub open spec fn total_mass(bs: Seq<Body>) -> int
    decreases bs.len(),
{
    if bs.len() == 0 {
        0
    } else {
        total_mass(bs.drop_last()) + bs.last().mass
    }
}

/// The sum of the accelerations that each of `others` alone induces on `b`.
pub open spec fn pull_sum(b: Body, others: Seq<Body>) -> Vector
    decreases others.len(),
{
    if others.len() == 0 {
        Vector::zero()
    } else {
        pull_sum(b, others.drop_last()).plus(pull(b, others.last()))
    }
}

/// The acceleration of body `i`: the sum of the pulls of all the other
/// bodies, saturated once at the end.
pub open spec fn net_acceleration(bs: Seq<Body>, i: int) -> Vector {
    let sum = pull_sum(bs[i], bs.remove(i));
    Vector { x: clamp(sum.x), y: clamp(sum.y) }
}

/// Whether two different bodies of the sequence share a position.
pub open spec fn has_coincident_pair(bs: Seq<Body>) -> bool {
    exists|i: int, j: int|
        0 <= i < bs.len() && 0 <= j < bs.len() && i != j && (#[trigger] bs[i]).position == (
        #[trigger] bs[j]).position
}

/// The bodies after the force pass: each has the net acceleration that the
/// others induce on it, computed from the state before the pass.
pub open spec fn accelerated(bs: Seq<Body>) -> Seq<Body> {
    Seq::new(bs.len(), |i: int| Body { acceleration: net_acceleration(bs, i), ..bs[i] })
}

/// The bodies after the integration pass.
pub open spec fn advanced(bs: Seq<Body>, dt: int) -> Seq<Body> {
    Seq::new(bs.len(), |i: int| integrated(bs[i], dt))
}

/// The collision pass from the owning index `i` and the scan index `j` on.
/// Where `i` and `j` touch, `i` absorbs `j`, `j` leaves the sequence, the
/// bodies behind it move down by one, and the scan starts again behind `i`.
/// Where the scan reaches the end, the next `i` takes over.
pub open spec fn resolve_from(bs: Seq<Body>, i: int, j: int) -> Seq<Body>
    decreases bs.len(), bs.len() - i, bs.len() - j,
{
    if i < 0 || j <= i || i + 1 >= bs.len() {
        bs
    } else if j >= bs.len() {
        resolve_from(bs, i + 1, i + 2)
    } else if colliding(bs[i], bs[j]) {
        resolve_from(bs.update(i, merged(bs[i], bs[j])).remove(j), i, i + 1)
    } else {
        resolve_from(bs, i, j + 1)
    }
}

/// The bodies after the collision pass.
pub open spec fn resolved(bs: Seq<Body>) -> Seq<Body> {
    resolve_from(bs, 0, 1)
}

/// The bodies after one tick of length `dt`: force pass, integration pass,
/// collision pass, in this order.
pub open spec fn stepped(bs: Seq<Body>, dt: int) -> Seq<Body> {
    resolved(advanced(accelerated(bs), dt))
}

/// Removing a body lowers the total mass by its mass.
pub proof fn lemma_total_mass_remove(bs: Seq<Body>, j: int)
    requires
        0 <= j < bs.len(),
    ensures
        total_mass(bs) == total_mass(bs.remove(j)) + bs[j].mass,
    decreases bs.len(),
{
    if j == bs.len() - 1 {
        assert(bs.remove(j) =~= bs.drop_last());
    } else {
        assert(bs.remove(j).drop_last() =~= bs.drop_last().remove(j));
        lemma_total_mass_remove(bs.drop_last(), j);
    }
}

/// Replacing a body changes the total mass by the difference of the masses.
pub proof fn lemma_total_mass_update(bs: Seq<Body>, i: int, b: Body)
    requires
        0 <= i < bs.len(),
    ensures
        total_mass(bs.update(i, b)) == total_mass(bs) - bs[i].mass + b.mass,
    decreases bs.len(),
{
    if i == bs.len() - 1 {
        assert(bs.update(i, b).drop_last() =~= bs.drop_last());
    } else {
        assert(bs.update(i, b).drop_last() =~= bs.drop_last().update(i, b));
        lemma_total_mass_update(bs.drop_last(), i, b);
    }
}

/// The total of positive masses is not negative.
pub proof fn lemma_total_mass_nonnegative(bs: Seq<Body>)
    requires
        all_well_formed(bs),
    ensures
        total_mass(bs) >= 0,
    decreases bs.len(),
{
    if bs.len() > 0 {
        assert(bs.last().well_formed());
        lemma_total_mass_nonnegative(bs.drop_last());
    }
}

/// Two different bodies together weigh no more than the whole sequence.
pub proof fn lemma_pair_mass_bound(bs: Seq<Body>, i: int, j: int)
    requires
        all_well_formed(bs),
        0 <= i < bs.len(),
        0 <= j < bs.len(),
        i != j,
    ensures
        bs[i].mass + bs[j].mass <= total_mass(bs),
{
    lemma_total_mass_remove(bs, j);
    let rest = bs.remove(j);
    let k = if i < j { i } else { i - 1 };
    assert(rest[k] == bs[i]);
    lemma_total_mass_remove(rest, k);
    assert forall|n: int| 0 <= n < rest.remove(k).len() implies (#[trigger] rest.remove(
        k,
    )[n]).well_formed() by {
        let m = if n < k { n } else { n + 1 };
        let o = if m < j { m } else { m + 1 };
        assert(rest.remove(k)[n] == bs[o]);
        assert(bs[o].well_formed());
    }
    lemma_total_mass_nonnegative(rest.remove(k));
}

/// Bodies with the same masses, place by place, weigh the same in total.
pub proof fn lemma_total_mass_by_masses(a: Seq<Body>, b: Seq<Body>)
    requires
        a.len() == b.len(),
        forall|i: int| 0 <= i < a.len() ==> (#[trigger] a[i]).mass == b[i].mass,
    ensures
        total_mass(a) == total_mass(b),
    decreases a.len(),
{
    if a.len() > 0 {
        assert(a.last().mass == a[a.len() - 1].mass);
        lemma_total_mass_by_masses(a.drop_last(), b.drop_last());
    }
}

/// A well-formed body that absorbs another one stays well formed, as long as
/// the combined mass is representable.
pub proof fn lemma_merged_well_formed(a: Body, b: Body)
    requires
        a.well_formed(),
        b.well_formed(),
        a.mass + b.mass <= LIMIT,
    ensures
        merged(a, b).well_formed(),
{
    lemma_weighted_mean_bound(a.position.x, a.mass, b.position.x, b.mass, LIMIT as int);
    lemma_weighted_mean_bound(a.position.y, a.mass, b.position.y, b.mass, LIMIT as int);
    lemma_weighted_mean_bound(a.velocity.x, a.mass, b.velocity.x, b.mass, LIMIT as int);
    lemma_weighted_mean_bound(a.velocity.y, a.mass, b.velocity.y, b.mass, LIMIT as int);
}

/// One merge of the collision pass keeps every body well formed and the
/// total mass as it was.
pub proof fn lemma_merge_step(bs: Seq<Body>, i: int, j: int)
    requires
        all_well_formed(bs),
        total_mass(bs) <= LIMIT,
        0 <= i < j < bs.len(),
    ensures
        all_well_formed(bs.update(i, merged(bs[i], bs[j])).remove(j)),
        total_mass(bs.update(i, merged(bs[i], bs[j])).remove(j)) == total_mass(bs),
{
    let m = merged(bs[i], bs[j]);
    let after = bs.update(i, m).remove(j);
    lemma_pair_mass_bound(bs, i, j);
    assert(bs[i].well_formed() && bs[j].well_formed());
    lemma_merged_well_formed(bs[i], bs[j]);
    lemma_total_mass_update(bs, i, m);
    lemma_total_mass_remove(bs.update(i, m), j);
    assert forall|n: int| 0 <= n < after.len() implies (#[trigger] after[n]).well_formed() by {
        let o = if n < j { n } else { n + 1 };
        if o != i {
            assert(after[n] == bs[o]);
            assert(bs[o].well_formed());
        }
    }
}

/// The collision pass keeps every body well formed, keeps the total mass,
/// and leaves at least one body where there was one.
pub proof fn lemma_resolve_from(bs: Seq<Body>, i: int, j: int)
    requires
        all_well_formed(bs),
        total_mass(bs) <= LIMIT,
    ensures
        all_well_formed(resolve_from(bs, i, j)),
        total_mass(resolve_from(bs, i, j)) == total_mass(bs),
        resolve_from(bs, i, j).len() <= bs.len(),
        bs.len() > 0 ==> resolve_from(bs, i, j).len() > 0,
    decreases bs.len(), bs.len() - i, bs.len() - j,
{
    if i < 0 || j <= i || i + 1 >= bs.len() {
    } else if j >= bs.len() {
        lemma_resolve_from(bs, i + 1, i + 2);
    } else if colliding(bs[i], bs[j]) {
        lemma_merge_step(bs, i, j);
        lemma_resolve_from(bs.update(i, merged(bs[i], bs[j])).remove(j), i, i + 1);
    } else {
        lemma_resolve_from(bs, i, j + 1);
    }
}

/// The particles of a simulation, in an order that carries no meaning but
/// that removals keep.
#[derive(Debug)]
pub struct World {
    particles: Vec<Particle>,
}

impl View for World {
    type V = Seq<Body>;

    closed spec fn view(&self) -> Seq<Body> {
        bodies(self.particles@)
    }
}

/// Adds up the masses and confirms that every particle is well formed.
fn mass_of(particles: &Vec<Particle>) -> (sum: u128)
    ensures
        sum == total_mass(bodies(particles@)),
        all_well_formed(bodies(particles@)),
{
    let ghost bs = bodies(particles@);
    let mut sum: u128 = 0;
    let mut k: usize = 0;
    while k < particles.len()
        invariant
            k <= particles.len(),
            bs == bodies(particles@),
            sum == total_mass(bs.subrange(0, k as int)),
            sum <= k * LIMIT,
            forall|n: int| 0 <= n < k ==> (#[trigger] bs[n]).well_formed(),
        decreases particles.len() - k,
    {
        let p = &particles[k];
        proof {
            use_type_invariant(p);
            assert(bs[k as int] == p@);
            assert(bs.subrange(0, k + 1).drop_last() =~= bs.subrange(0, k as int));
        }
        sum = sum + p.mass().raw() as u128;
        k = k + 1;
    }
    proof {
        assert(bs.subrange(0, k as int) =~= bs);
    }
    sum
}

/// The bodies before index `j`, without body `i`.
spec fn others_before(bs: Seq<Body>, i: int, j: int) -> Seq<Body> {
    if j <= i {
        bs.subrange(0, j)
    } else {
        bs.subrange(0, j).remove(i)
    }
}

/// The net acceleration of particle `i`: the pulls of all the others, each
/// taken from the particles as they stand, summed exactly and saturated once.
/// Fails where another particle shares the position of particle `i`.
fn net_pull(particles: &Vec<Particle>, i: usize) -> (r: Result<Vec2, SimError>)
    requires
        i < particles.len(),
    ensures
        r matches Ok(v) ==> {
            &&& v@ == net_acceleration(bodies(particles@), i as int)
            &&& v@.in_range()
            &&& forall|j: int|
                0 <= j < particles.len() && j != i ==> (#[trigger] bodies(particles@)[j]).position
                    != bodies(particles@)[i as int].position
        },
        r matches Err(e) ==> {
            &&& e == SimError::DegenerateDistance
            &&& exists|j: int|
                0 <= j < particles.len() && j != i && (#[trigger] bodies(particles@)[j]).position
                    == bodies(particles@)[i as int].position
        },
{
    let ghost bs = bodies(particles@);
    let me = particles[i];
    let mut sx: i128 = 0;
    let mut sy: i128 = 0;
    let mut j: usize = 0;
    while j < particles.len()
        invariant
            j <= particles.len(),
            i < particles.len(),
            bs == bodies(particles@),
            me@ == bs[i as int],
            (Vector { x: sx as int, y: sy as int }) == pull_sum(me@, others_before(bs, i as int, j as int)),
            -(j * LIMIT) <= sx <= j * LIMIT,
            -(j * LIMIT) <= sy <= j * LIMIT,
            forall|k: int| 0 <= k < j && k != i ==> (#[trigger] bs[k]).position != bs[i as int].position,
        decreases particles.len() - j,
    {
        let ghost seen = others_before(bs, i as int, j as int);
        if j != i {
            let other = &particles[j];
            assert(other@ == bs[j as int]);
            match me.acceleration_toward(other) {
                Err(_) => {
                    return Err(SimError::DegenerateDistance);
                },
                Ok(a) => {
                    let ax = a.x.raw();
                    let ay = a.y.raw();
                    proof {
                        let grown = others_before(bs, i as int, j + 1);
                        assert(grown =~= seen.push(bs[j as int]));
                        assert(grown.drop_last() =~= seen);
                    }
                    sx = sx + ax as i128;
                    sy = sy + ay as i128;
                },
            }
        } else {
            proof {
                assert(others_before(bs, i as int, j + 1) =~= seen);
            }
        }
        j = j + 1;
    }
    proof {
        assert(others_before(bs, i as int, j as int) =~= bs.remove(i as int));
    }
    Ok(Vec2::new(Fixed::saturating(sx), Fixed::saturating(sy)))
}

/// The collision pass, in place: every pair in index order, the earlier
/// particle absorbing the later one, which then leaves the collection.
fn resolve_collisions(particles: &mut Vec<Particle>)
    requires
        all_well_formed(bodies(old(particles)@)),
        total_mass(bodies(old(particles)@)) <= LIMIT,
    ensures
        bodies(final(particles)@) == resolved(bodies(old(particles)@)),
        all_well_formed(bodies(final(particles)@)),
        total_mass(bodies(final(particles)@)) == total_mass(bodies(old(particles)@)),
{
    let ghost start = bodies(particles@);
    if particles.len() < 2 {
        return ;
    }
    let mut i: usize = 0;
    let mut j: usize = 1;
    while i < particles.len() - 1
        invariant
            particles.len() >= 1,
            i < j <= particles.len(),
            all_well_formed(bodies(particles@)),
            total_mass(bodies(particles@)) == total_mass(start),
            total_mass(start) <= LIMIT,
            resolve_from(bodies(particles@), i as int, j as int) == resolved(start),
        decreases particles.len(), particles.len() - i, particles.len() - j,
    {
        let ghost bs = bodies(particles@);
        if j >= particles.len() {
            i = i + 1;
            j = i + 1;
        } else {
            let other = particles[j];
            let mut owner = particles[i];
            assert(owner@ == bs[i as int] && other@ == bs[j as int]);
            if owner.is_colliding_with(&other) {
                proof {
                    lemma_pair_mass_bound(bs, i as int, j as int);
                    lemma_merge_step(bs, i as int, j as int);
                }
                // The two weigh no more than the whole world, so the merge
                // is never refused.
                let absorbed = owner.merge_with(&other);
                assert(absorbed.is_ok());
                particles.set(i, owner);
                particles.remove(j);
                proof {
                    assert(bodies(particles@) =~= bs.update(i as int, merged(bs[i as int], bs[j as int])).remove(
                        j as int,
                    ));
                }
                j = i + 1;
            } else {
                j = j + 1;
            }
        }
    }
}

impl World {
    #[verifier::type_invariant]
    pub open spec fn inv(self) -> bool {
        all_well_formed(self@) && total_mass(self@) <= LIMIT
    }

    /// The world of the given particles, which may be none. Refused where the
    /// masses add up to more than is representable: a merge could then not
    /// be carried out.
    pub fn new(particles: Vec<Particle>) -> (r: Result<World, SimError>)
        ensures
            total_mass(bodies(particles@)) <= LIMIT ==> r.is_ok() && r.unwrap()@ == bodies(
                particles@,
            ),
            total_mass(bodies(particles@)) > LIMIT ==> r.is_err() && r.unwrap_err()
                == SimError::MassOverflow,
    {
        let sum = mass_of(&particles);
        if sum > LIMIT as u128 {
            Err(SimError::MassOverflow)
        } else {
            Ok(World { particles })
        }
    }

    /// The particles as they are now, for reading only.
    pub fn particles(&self) -> (ps: &Vec<Particle>)
        ensures
            bodies(ps@) == self@,
            all_well_formed(self@),
    {
        proof {
            use_type_invariant(self);
        }
        &self.particles
    }

    /// The number of particles.
    pub fn len(&self) -> (n: usize)
        ensures
            n == self@.len(),
    {
        self.particles.len()
    }

    /// The mass of the whole system.
    pub fn total_mass(&self) -> (m: Fixed)
        ensures
            m@ == total_mass(self@),
            0 <= m@ <= LIMIT,
    {
        proof {
            use_type_invariant(self);
            lemma_total_mass_nonnegative(self@);
        }
        let sum = mass_of(&self.particles);
        Fixed::saturating(sum as i128)
    }
    /// Advances the simulation by one tick of length `dt`, in three passes.
    /// The force pass gives every particle the sum of the pulls of all the
    /// others, taken from the positions at the start of the tick. The
    /// integration pass moves every particle. The collision pass merges
    /// particles that touch, the earlier index absorbing the later one.
    ///
    /// Fails on a world without particles, and where two particles share a
    /// position. A failed tick changes nothing. No tick changes the total mass.
    pub fn step(&mut self, dt: Fixed) -> (r: Result<(), SimError>)
        ensures
            old(self)@.len() == 0 ==> r == Err::<(), SimError>(SimError::EmptyWorld) && final(self)@
                == old(self)@,
            old(self)@.len() > 0 && has_coincident_pair(old(self)@) ==> r == Err::<(), SimError>(
                SimError::DegenerateDistance,
            ) && final(self)@ == old(self)@,
            old(self)@.len() > 0 && !has_coincident_pair(old(self)@) ==> r.is_ok() && final(self)@
                == stepped(old(self)@, dt@),
            total_mass(final(self)@) == total_mass(old(self)@),
            all_well_formed(final(self)@),
            old(self)@.len() > 0 ==> 0 < final(self)@.len() <= old(self)@.len(),
    {
        proof {
            use_type_invariant(&*self);
        }
        let n = self.particles.len();
        if n == 0 {
            return Err(SimError::EmptyWorld);
        }
        let ghost before = bodies(self.particles@);
        let ghost moved = advanced(accelerated(before), dt@);
        let mut next: Vec<Particle> = Vec::new();
        let mut i: usize = 0;
        while i < n
            invariant
                n == self.particles.len(),
                i <= n,
                before == bodies(self.particles@),
                all_well_formed(before),
                total_mass(before) <= LIMIT,
                moved == advanced(accelerated(before), dt@),
                next.len() == i,
                forall|k: int| 0 <= k < i ==> (#[trigger] next@[k])@ == moved[k],
                forall|k: int| 0 <= k < i ==> (#[trigger] next@[k])@.well_formed(),
                forall|k: int, j: int|
                    0 <= k < i && 0 <= j < n && k != j ==> (#[trigger] before[k]).position != (
                    #[trigger] before[j]).position,
            decreases n - i,
        {
            match net_pull(&self.particles, i) {
                Err(_) => {
                    proof {
                        let j = choose|j: int|
                            0 <= j < n && j != i && (#[trigger] before[j]).position
                                == before[i as int].position;
                        assert(before[i as int].position == before[j].position);
                    }
                    return Err(SimError::DegenerateDistance);
                },
                Ok(a) => {
                    let mut p = self.particles[i].with_acceleration(a);
                    p.integrate(dt);
                    next.push(p);
                },
            }
            i = i + 1;
        }
        proof {
            assert(bodies(next@) =~= moved);
            lemma_total_mass_by_masses(bodies(next@), before);
            lemma_resolve_from(bodies(next@), 0, 1);
        }
        resolve_collisions(&mut next);
        self.particles = next;
        Ok(())
    }
}

/// Taking one body out of the others takes its pull out of the sum.
pub proof fn lemma_pull_sum_remove(b: Body, others: Seq<Body>, k: int)
    requires
        0 <= k < others.len(),
    ensures
        pull_sum(b, others) == pull_sum(b, others.remove(k)).plus(pull(b, others[k])),
    decreases others.len(),
{
    if k == others.len() - 1 {
        assert(others.remove(k) =~= others.drop_last());
    } else {
        assert(others.remove(k).drop_last() =~= others.drop_last().remove(k));
        lemma_pull_sum_remove(b, others.drop_last(), k);
    }
}

/// The sum of the pulls does not depend on the order of the others: two
/// sequences that hold the same bodies, each as often as the other, give
/// the same sum.
pub proof fn lemma_pull_sum_permutation(b: Body, first: Seq<Body>, second: Seq<Body>)
    requires
        first.to_multiset() == second.to_multiset(),
    ensures
        pull_sum(b, first) == pull_sum(b, second),
    decreases first.len(),
{
    vstd::seq_lib::to_multiset_len(first);
    vstd::seq_lib::to_multiset_len(second);
    if first.len() > 0 {
        let x = first.last();
        let end = first.len() - 1;
        assert(first[end] == x);
        vstd::seq_lib::to_multiset_contains(first, x);
        vstd::seq_lib::to_multiset_contains(second, x);
        let k = choose|k: int| 0 <= k < second.len() && second[k] == x;
        vstd::seq_lib::to_multiset_remove(first, end);
        vstd::seq_lib::to_multiset_remove(second, k);
        assert(first.remove(end) =~= first.drop_last());
        lemma_pull_sum_permutation(b, first.drop_last(), second.remove(k));
        lemma_pull_sum_remove(b, second, k);
    }
}

/// The force pass does not depend on the order in which the particles are
/// visited: where two collections hold the same bodies, each as often as in
/// the other, a body has the same net acceleration in both, wherever it
/// stands in them.
pub proof fn lemma_force_pass_order_independent(first: Seq<Body>, i: int, second: Seq<Body>, j: int)
    requires
        first.to_multiset() == second.to_multiset(),
        0 <= i < first.len(),
        0 <= j < second.len(),
        first[i] == second[j],
    ensures
        net_acceleration(first, i) == net_acceleration(second, j),
{
    vstd::seq_lib::to_multiset_remove(first, i);
    vstd::seq_lib::to_multiset_remove(second, j);
    lemma_pull_sum_permutation(first[i], first.remove(i), second.remove(j));
}

/// A tick conserves mass, whatever merges it brings: the total mass after
/// the three passes is the total mass before them. Every body stays well
/// formed, so each radius still follows from its mass; and a world that
/// holds a body still holds one afterwards.
pub proof fn lemma_tick_conserves_mass(bs: Seq<Body>, dt: int)
    requires
        all_well_formed(bs),
        total_mass(bs) <= LIMIT,
    ensures
        total_mass(stepped(bs, dt)) == total_mass(bs),
        all_well_formed(stepped(bs, dt)),
        stepped(bs, dt).len() <= bs.len(),
        bs.len() > 0 ==> stepped(bs, dt).len() > 0,
{
    let moved = advanced(accelerated(bs), dt);
    assert forall|i: int| 0 <= i < moved.len() implies (#[trigger] moved[i]).well_formed()
        && moved[i].mass == bs[i].mass by {
        assert(bs[i].well_formed());
    }
    lemma_total_mass_by_masses(moved, bs);
    lemma_resolve_from(moved, 0, 1);
}

/// The collision pass alone conserves mass, and keeps every body well formed.
pub proof fn lemma_collisions_conserve_mass(bs: Seq<Body>)
    requires
        all_well_formed(bs),
        total_mass(bs) <= LIMIT,
    ensures
        total_mass(resolved(bs)) == total_mass(bs),
        all_well_formed(resolved(bs)),
{
    lemma_resolve_from(bs, 0, 1);
}

/// Whether no two bodies of the sequence touch.
pub open spec fn all_apart(bs: Seq<Body>) -> bool {
    forall|i: int, j: int| 0 <= i < j < bs.len() ==> !colliding(#[trigger] bs[i], #[trigger] bs[j])
}

/// Where no two bodies touch, the scan changes nothing, wherever it stands.
pub proof fn lemma_resolve_from_apart(bs: Seq<Body>, i: int, j: int)
    requires
        all_apart(bs),
    ensures
        resolve_from(bs, i, j) == bs,
    decreases bs.len(), bs.len() - i, bs.len() - j,
{
    if i < 0 || j <= i || i + 1 >= bs.len() {
    } else if j >= bs.len() {
        lemma_resolve_from_apart(bs, i + 1, i + 2);
    } else {
        assert(!colliding(bs[i], bs[j]));
        lemma_resolve_from_apart(bs, i, j + 1);
    }
}

/// The collision pass leaves bodies alone that do not touch: the same
/// bodies come out, in the same order.
pub proof fn lemma_apart_bodies_stay(bs: Seq<Body>)
    requires
        all_apart(bs),
    ensures
        resolved(bs) == bs,
{
    lemma_resolve_from_apart(bs, 0, 1);
}

/// Of two bodies that touch, the collision pass leaves one: the first, which
/// has absorbed the second.
pub proof fn lemma_touching_pair_merges(a: Body, b: Body)
    requires
        colliding(a, b),
    ensures
        resolved(seq![a, b]) == seq![merged(a, b)],
{
    let pair = seq![a, b];
    let one = pair.update(0, merged(a, b)).remove(1);
    assert(one =~= seq![merged(a, b)]);
    assert(resolve_from(one, 0, 1) == one);
    assert(resolve_from(pair, 0, 1) == resolve_from(one, 0, 1));
}

} // verus!
