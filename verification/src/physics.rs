//! Point masses under mutual gravity: the force law, the integrator and the
//! sub-step driver.
//!
//! All quantities are in SI units. Every step of every formula is rounded as
//! scalar arithmetic is, in the order in which the formula is written here, so
//! that a run can be repeated bit for bit. A step whose result is beyond the
//! range of the format makes everything computed from it undefined: bodies
//! whose squared distance is beyond the range, more than about 10^154 metres
//! apart, exert undefined forces on each other.
//!
//! Every mass is a number above zero. The functions that compute forces and
//! move bodies require it; `simulate` tests it and refuses a frame otherwise.

use crate::arith::{product, quotient, sum, whole, zero};
use crate::laws::{lemma_force_at_no_distance, lemma_force_is_bounded};
use crate::number::{magnitude, Scalar};
use crate::vector::{
    mag_of, normalized_of, vec_difference, vec_divided, vec_scaled, vec_sum, zero_vector, Vec2,
};
use vstd::prelude::*;

verus! {

/// The bit pattern of the gravitational constant, 6.6743 × 10^-11.
pub const GRAVITY_BITS: u64 = 0x3DD2_589E_FFED_8ACC;

/// The bit pattern of the softening length, 100 metres.
pub const SOFTENING_BITS: u64 = 0x4059_0000_0000_0000;

/// A point mass.
#[derive(Clone, Copy, Debug, PartialEq, Eq, Structural)]
pub struct Body {
    pub position: Vec2,
    pub velocity: Vec2,
    pub mass: Scalar,
}

impl Body {
    /// Whether the mass is a number above zero.
    pub open spec fn has_mass(self) -> bool {
        self.mass.is_finite() && self.mass.scaled_value() > 0
    }

    /// Whether position and velocity are defined.
    pub open spec fn is_defined(self) -> bool {
        self.position.is_defined() && self.velocity.is_defined()
    }

    /// Whether position and velocity are defined and the mass is a number
    /// above zero.
    pub open spec fn is_valid(self) -> bool {
        self.is_defined() && self.has_mass()
    }
}

/// Whether every body has a mass that is a number above zero.
pub open spec fn all_massive(bodies: Seq<Body>) -> bool {
    forall|index: int| 0 <= index < bodies.len() ==> bodies[index].has_mass()
}

/// The gravitational constant.
pub open spec fn gravity() -> Scalar {
    Scalar { bits: GRAVITY_BITS }
}

/// The length that is added to every distance, so that the force between two
/// bodies stays bounded as they approach each other.
pub open spec fn softening() -> Scalar {
    Scalar { bits: SOFTENING_BITS }
}

/// The distance from `a` to `b`, with the softening length added.
pub open spec fn softened_distance(a: Body, b: Body) -> Scalar {
    sum(mag_of(vec_difference(b.position, a.position)), softening())
}

/// The size of the force between two bodies: the gravitational constant times
/// both masses, over the square of the softened distance.
pub open spec fn attraction(a: Body, b: Body) -> Scalar {
    quotient(
        product(gravity(), product(a.mass, b.mass)),
        product(softened_distance(a, b), softened_distance(a, b)),
    )
}

/// The size that the force between two bodies cannot exceed: the
/// gravitational constant times both masses, over the square of the
/// softening length.
pub open spec fn force_bound(a: Body, b: Body) -> Scalar {
    quotient(product(gravity(), product(a.mass, b.mass)), product(softening(), softening()))
}

/// The bit pattern of the scalar four.
pub const FOUR_BITS: u64 = 0x4010_0000_0000_0000;

/// The scalar four: the factor by which the roundings on the way to a
/// direction can at most raise a component of a force above the bound.
pub open spec fn four() -> Scalar {
    Scalar { bits: FOUR_BITS }
}

/// The force that `b` exerts on `a`: the attraction, along the direction from
/// `a` to `b`. Bodies whose distance comes out as zero have no such
/// direction, and exert no force on each other.
pub open spec fn pair_force(a: Body, b: Body) -> Vec2 {
    vec_scaled(normalized_of(vec_difference(b.position, a.position)), attraction(a, b))
}

/// The force on body `index` from the bodies before `limit`, taken in order.
/// What a body of lower index exerts is the opposite of what it receives, and
/// is therefore subtracted.
pub open spec fn pulled_until(bodies: Seq<Body>, index: int, limit: int) -> Vec2
    decreases limit,
{
    if limit <= 0 {
        zero_vector()
    } else {
        let before: Vec2 = pulled_until(bodies, index, limit - 1);
        let other: int = limit - 1;
        if other < index {
            vec_difference(before, pair_force(bodies[other], bodies[index]))
        } else if other == index {
            before
        } else {
            vec_sum(before, pair_force(bodies[index], bodies[other]))
        }
    }
}

/// The net force on body `index` from all the others.
pub open spec fn net_force(bodies: Seq<Body>, index: int) -> Vec2 {
    pulled_until(bodies, index, bodies.len() as int)
}

/// A body after one step of length `dt` under `force`: the velocity changes
/// first, and the position then moves with the new velocity.
pub open spec fn integrated(body: Body, force: Vec2, dt: Scalar) -> Body {
    let velocity: Vec2 = vec_sum(body.velocity, vec_scaled(vec_divided(force, body.mass), dt));
    Body {
        position: vec_sum(body.position, vec_scaled(velocity, dt)),
        velocity,
        mass: body.mass,
    }
}

/// All bodies after one step of length `dt` under their mutual forces.
pub open spec fn stepped(bodies: Seq<Body>, dt: Scalar) -> Seq<Body> {
    Seq::new(bodies.len(), |i: int| integrated(bodies[i], net_force(bodies, i), dt))
}

/// All bodies after `steps` steps of length `dt` each, every step taken from
/// where the one before it ended.
pub open spec fn advanced(bodies: Seq<Body>, dt: Scalar, steps: nat) -> Seq<Body>
    decreases steps,
{
    if steps == 0 {
        bodies
    } else {
        stepped(advanced(bodies, dt, (steps - 1) as nat), dt)
    }
}

/// Advancing moves every body and takes none away: the bodies keep their
/// number, their order and their masses.
pub proof fn lemma_advance_keeps_masses(bodies: Seq<Body>, dt: Scalar, steps: nat)
    ensures
        advanced(bodies, dt, steps).len() == bodies.len(),
        forall|index: int|
            0 <= index < bodies.len() ==> (#[trigger] advanced(bodies, dt, steps)[index]).mass
                == bodies[index].mass,
    decreases steps,
{
    if steps > 0 {
        lemma_advance_keeps_masses(bodies, dt, (steps - 1) as nat);
    }
}

/// The size of the force between two bodies.
pub fn force_magnitude(a: &Body, b: &Body) -> (r: Scalar)
    ensures
        r == attraction(*a, *b),
{
    let direction: Vec2 = b.position.minus(a.position);
    let distance: Scalar = direction.mag().plus(Scalar { bits: SOFTENING_BITS });
    let masses: Scalar = a.mass.times(b.mass);
    (Scalar { bits: GRAVITY_BITS }).times(masses).over(distance.times(distance))
}

/// The force that `b` exerts on `a`.
///
/// Between bodies with mass the force is defined wherever its size is, and
/// softening keeps it bounded however close the bodies are; at no distance
/// it is the zero vector.
pub fn force_between(a: &Body, b: &Body) -> (r: Vec2)
    ensures
        r == pair_force(*a, *b),
        a.has_mass() && b.has_mass() && force_bound(*a, *b).is_finite() && mag_of(
            vec_difference(b.position, a.position),
        ).is_zero() ==> r == zero_vector(),
        a.has_mass() && b.has_mass() && attraction(*a, *b).is_finite() && product(
            four(),
            force_bound(*a, *b),
        ).is_finite() ==> {
            &&& r.is_defined()
            &&& magnitude(r.x.pattern()) <= product(four(), force_bound(*a, *b)).scaled_value()
            &&& magnitude(r.y.pattern()) <= product(four(), force_bound(*a, *b)).scaled_value()
        },
{
    proof {
        if a.has_mass() && b.has_mass() {
            if force_bound(*a, *b).is_finite() && mag_of(
                vec_difference(b.position, a.position),
            ).is_zero() {
                lemma_force_at_no_distance(*a, *b);
            }
            if attraction(*a, *b).is_finite() && product(four(), force_bound(*a, *b)).is_finite() {
                lemma_force_is_bounded(*a, *b);
            }
        }
    }
    let direction: Vec2 = b.position.minus(a.position);
    let size: Scalar = force_magnitude(a, b);
    direction.normalized().scaled(size)
}

/// The net force on every body from all the others.
///
/// Each pair of bodies is taken once, lower index first; the force between
/// them is added to the one and subtracted from the other. Every mass must
/// be a number above zero.
pub fn compute_forces(bodies: &Vec<Body>) -> (forces: Vec<Vec2>)
    requires
        all_massive(bodies@),
    ensures
        forces@.len() == bodies@.len(),
        forall|index: int|
            0 <= index < bodies@.len() ==> forces@[index] == net_force(bodies@, index),
{
    let n: usize = bodies.len();
    let mut forces: Vec<Vec2> = Vec::new();
    let mut filled: usize = 0;
    while filled < n
        invariant
            filled <= n,
            forces@.len() == filled,
            forall|index: int| 0 <= index < filled ==> forces@[index] == zero_vector(),
        decreases n - filled,
    {
        forces.push(Vec2::zero());
        filled = filled + 1;
    }
    let mut i: usize = 0;
    while i < n
        invariant
            i <= n,
            n == bodies@.len(),
            forces@.len() == n,
            forall|index: int|
                0 <= index < i ==> forces@[index] == pulled_until(bodies@, index, n as int),
            forall|index: int|
                i <= index < n ==> forces@[index] == pulled_until(bodies@, index, i as int),
        decreases n - i,
    {
        let mut j: usize = i + 1;
        while j < n
            invariant
                i < j <= n,
                n == bodies@.len(),
                forces@.len() == n,
                forall|index: int|
                    0 <= index < i ==> forces@[index] == pulled_until(bodies@, index, n as int),
                forces@[i as int] == pulled_until(bodies@, i as int, j as int),
                forall|index: int|
                    i < index < j ==> forces@[index] == pulled_until(
                        bodies@,
                        index,
                        i as int + 1,
                    ),
                forall|index: int|
                    j <= index < n ==> forces@[index] == pulled_until(bodies@, index, i as int),
            decreases n - j,
        {
            let force: Vec2 = force_between(&bodies[i], &bodies[j]);
            let pulled: Vec2 = forces[i].plus(force);
            forces.set(i, pulled);
            let pushed: Vec2 = forces[j].minus(force);
            forces.set(j, pushed);
            j = j + 1;
        }
        i = i + 1;
    }
    forces
}

/// Moves every body one step of length `dt` under its force.
///
/// Bodies and forces are matched by index; a body without a force stays as
/// it is. Every mass must be a number above zero, and stays as it is.
pub fn update_bodies(bodies: &mut Vec<Body>, forces: Vec<Vec2>, dt: Scalar)
    requires
        all_massive(old(bodies)@),
    ensures
        final(bodies)@.len() == old(bodies)@.len(),
        all_massive(final(bodies)@),
        forall|index: int|
            0 <= index < old(bodies)@.len() ==> final(bodies)@[index] == if index
                < forces@.len() {
                integrated(old(bodies)@[index], forces@[index], dt)
            } else {
                old(bodies)@[index]
            },
{
    let n: usize = if bodies.len() < forces.len() {
        bodies.len()
    } else {
        forces.len()
    };
    let ghost before: Seq<Body> = bodies@;
    let mut i: usize = 0;
    while i < n
        invariant
            i <= n,
            n <= forces@.len(),
            n <= before.len(),
            n == before.len() || n == forces@.len(),
            bodies@.len() == before.len(),
            all_massive(before),
            forall|index: int|
                0 <= index < before.len() ==> (#[trigger] bodies@[index]).mass
                    == before[index].mass,
            forall|index: int|
                0 <= index < i ==> bodies@[index] == integrated(
                    before[index],
                    forces@[index],
                    dt,
                ),
            forall|index: int| i <= index < before.len() ==> bodies@[index] == before[index],
        decreases n - i,
    {
        let body: Body = bodies[i];
        let acceleration: Vec2 = forces[i].divided(body.mass);
        let velocity: Vec2 = body.velocity.plus(acceleration.scaled(dt));
        let position: Vec2 = body.position.plus(velocity.scaled(dt));
        bodies.set(i, Body { position, velocity, mass: body.mass });
        i = i + 1;
    }
}

/// Advances the bodies by `dt`, in `precision` sub-steps of equal length.
///
/// Each sub-step computes the forces between the bodies as the sub-step
/// before it left them, and moves the bodies under those forces. There must
/// be at least one sub-step, and every mass must be a number above zero.
pub fn physics_sim(bodies: &mut Vec<Body>, dt: Scalar, precision: u32)
    requires
        precision >= 1,
        all_massive(old(bodies)@),
    ensures
        final(bodies)@ == advanced(
            old(bodies)@,
            quotient(dt, whole(precision as nat)),
            precision as nat,
        ),
{
    let ghost before: Seq<Body> = bodies@;
    let ghost step: Scalar = quotient(dt, whole(precision as nat));
    let mut done: u32 = 0;
    while done < precision
        invariant
            done <= precision,
            step == quotient(dt, whole(precision as nat)),
            bodies@ == advanced(before, step, done as nat),
            all_massive(bodies@),
        decreases precision - done,
    {
        let ghost current: Seq<Body> = bodies@;
        let forces: Vec<Vec2> = compute_forces(bodies);
        update_bodies(bodies, forces, dt.over(Scalar::from_count(precision)));
        proof {
            assert(bodies@ =~= stepped(current, step));
        }
        done = done + 1;
    }
}

/// Why a frame was not simulated.
#[derive(Clone, Copy, Debug, PartialEq, Eq, Structural)]
pub enum SimError {
    /// The number of sub-steps was zero.
    NoSubSteps,
    /// The length of the frame was undefined.
    UndefinedStep,
    /// The body at `index` was the first with an undefined position or
    /// velocity, or with a mass that is undefined or not above zero.
    InvalidBody { index: usize },
    /// A position or a velocity would have ended undefined.
    Diverged,
}

impl Body {
    /// Whether position and velocity are defined and the mass is a number
    /// above zero.
    pub fn valid(&self) -> (r: bool)
        ensures
            r == self.is_valid(),
    {
        self.position.defined() && self.velocity.defined() && self.mass.is_positive()
    }
}

/// Whether the body at `index` is the first that is not valid.
pub open spec fn first_invalid(bodies: Seq<Body>, index: int) -> bool {
    &&& 0 <= index < bodies.len()
    &&& !bodies[index].is_valid()
    &&& forall|earlier: int| 0 <= earlier < index ==> bodies[earlier].is_valid()
}

/// Whether every body is valid.
pub open spec fn all_valid(bodies: Seq<Body>) -> bool {
    forall|index: int| 0 <= index < bodies.len() ==> bodies[index].is_valid()
}

/// Whether every body has a defined position and velocity.
pub open spec fn all_defined(bodies: Seq<Body>) -> bool {
    forall|index: int| 0 <= index < bodies.len() ==> bodies[index].is_defined()
}

/// The place of the first body that is not valid, if there is one.
pub fn find_invalid(bodies: &Vec<Body>) -> (r: Option<usize>)
    ensures
        match r {
            Some(index) => first_invalid(bodies@, index as int),
            None => all_valid(bodies@),
        },
{
    let mut i: usize = 0;
    while i < bodies.len()
        invariant
            i <= bodies@.len(),
            forall|earlier: int| 0 <= earlier < i ==> bodies@[earlier].is_valid(),
        decreases bodies@.len() - i,
    {
        if !bodies[i].valid() {
            return Some(i);
        }
        i = i + 1;
    }
    None
}

/// Whether every body has a defined position and velocity.
pub fn every_body_defined(bodies: &Vec<Body>) -> (r: bool)
    ensures
        r == all_defined(bodies@),
{
    let mut i: usize = 0;
    while i < bodies.len()
        invariant
            i <= bodies@.len(),
            forall|earlier: int| 0 <= earlier < i ==> bodies@[earlier].is_defined(),
        decreases bodies@.len() - i,
    {
        if !(bodies[i].position.defined() && bodies[i].velocity.defined()) {
            return false;
        }
        i = i + 1;
    }
    true
}

/// Advances the bodies by one frame, or says why it cannot.
///
/// The frame is refused, with the bodies left as they were, where there are
/// no sub-steps, where the frame's length is undefined, where a body is not
/// valid, and where a position or velocity would end undefined. Otherwise
/// the bodies are advanced as `physics_sim` advances them, and are valid
/// again.
pub fn simulate(bodies: &mut Vec<Body>, dt_frame: Scalar, sub_steps: u32) -> (r: Result<
    (),
    SimError,
>)
    ensures
        match r {
            Ok(_) => {
                &&& sub_steps >= 1
                &&& dt_frame.is_finite()
                &&& all_valid(old(bodies)@)
                &&& final(bodies)@ == advanced(
                    old(bodies)@,
                    quotient(dt_frame, whole(sub_steps as nat)),
                    sub_steps as nat,
                )
                &&& all_valid(final(bodies)@)
            },
            Err(SimError::NoSubSteps) => sub_steps == 0 && final(bodies)@ == old(bodies)@,
            Err(SimError::UndefinedStep) => {
                &&& sub_steps >= 1
                &&& !dt_frame.is_finite()
                &&& final(bodies)@ == old(bodies)@
            },
            Err(SimError::InvalidBody { index }) => {
                &&& sub_steps >= 1
                &&& dt_frame.is_finite()
                &&& first_invalid(old(bodies)@, index as int)
                &&& final(bodies)@ == old(bodies)@
            },
            Err(SimError::Diverged) => {
                &&& sub_steps >= 1
                &&& dt_frame.is_finite()
                &&& all_valid(old(bodies)@)
                &&& !all_defined(
                    advanced(
                        old(bodies)@,
                        quotient(dt_frame, whole(sub_steps as nat)),
                        sub_steps as nat,
                    ),
                )
                &&& final(bodies)@ == old(bodies)@
            },
        },
{
    if sub_steps == 0 {
        return Err(SimError::NoSubSteps);
    }
    if !dt_frame.finite() {
        return Err(SimError::UndefinedStep);
    }
    match find_invalid(bodies) {
        Some(index) => {
            return Err(SimError::InvalidBody { index });
        },
        None => {},
    }
    let mut next: Vec<Body> = Vec::new();
    let mut i: usize = 0;
    while i < bodies.len()
        invariant
            i <= bodies@.len(),
            next@ == bodies@.subrange(0, i as int),
        decreases bodies@.len() - i,
    {
        next.push(bodies[i]);
        proof {
            assert(next@ =~= bodies@.subrange(0, i as int + 1));
        }
        i = i + 1;
    }
    proof {
        assert(next@ =~= bodies@);
    }
    physics_sim(&mut next, dt_frame, sub_steps);
    if !every_body_defined(&next) {
        return Err(SimError::Diverged);
    }
    proof {
        lemma_advance_keeps_masses(
            bodies@,
            quotient(dt_frame, whole(sub_steps as nat)),
            sub_steps as nat,
        );
    }
    *bodies = next;
    Ok(())
}

/// The sum of the masses of the bodies before `limit`, taken in order.
pub open spec fn mass_until(bodies: Seq<Body>, limit: int) -> Scalar
    decreases limit,
{
    if limit <= 0 {
        zero()
    } else {
        sum(mass_until(bodies, limit - 1), bodies[limit - 1].mass)
    }
}

/// The sum of the positions of the bodies before `limit`, each multiplied by
/// its mass, taken in order.
pub open spec fn moment_until(bodies: Seq<Body>, limit: int) -> Vec2
    decreases limit,
{
    if limit <= 0 {
        zero_vector()
    } else {
        vec_sum(
            moment_until(bodies, limit - 1),
            vec_scaled(bodies[limit - 1].position, bodies[limit - 1].mass),
        )
    }
}

/// The centre of mass: the mass-weighted sum of the positions over the total
/// mass. There is none where the total mass is not above zero, and none
/// where it is undefined, as it is when the masses add up to more than the
/// format holds. A weighted sum beyond the range gives an undefined centre.
pub open spec fn mass_center(bodies: Seq<Body>) -> Option<Vec2> {
    let total: Scalar = mass_until(bodies, bodies.len() as int);
    if total.is_finite() && total.scaled_value() > 0 {
        Some(vec_divided(moment_until(bodies, bodies.len() as int), total))
    } else {
        None
    }
}

/// The centre of mass of the bodies, if their total mass is a number above
/// zero.
pub fn center_of_mass(bodies: &Vec<Body>) -> (r: Option<Vec2>)
    ensures
        r == mass_center(bodies@),
{
    let mut total: Scalar = Scalar { bits: 0 };
    let mut moment: Vec2 = Vec2::zero();
    let mut i: usize = 0;
    while i < bodies.len()
        invariant
            i <= bodies@.len(),
            total == mass_until(bodies@, i as int),
            moment == moment_until(bodies@, i as int),
        decreases bodies@.len() - i,
    {
        total = total.plus(bodies[i].mass);
        moment = moment.plus(bodies[i].position.scaled(bodies[i].mass));
        i = i + 1;
    }
    if total.is_positive() {
        Some(moment.divided(total))
    } else {
        None
    }
}

} // verus!
