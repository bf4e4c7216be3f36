use nbody_sim::number::Scalar;
use nbody_sim::physics::{
    center_of_mass, every_body_defined, compute_forces, find_invalid, force_between, force_magnitude,
    physics_sim, simulate, update_bodies, Body, SimError, GRAVITY_BITS, SOFTENING_BITS,
};
use nbody_sim::vector::Vec2;
use ultraviolet::DVec2;

fn scalar(x: f64) -> Scalar {
    Scalar::from_bits(x.to_bits())
}

fn number(s: Scalar) -> f64 {
    f64::from_bits(s.to_bits())
}

fn vector(v: DVec2) -> Vec2 {
    Vec2::new(scalar(v.x), scalar(v.y))
}

fn body(position: (f64, f64), velocity: (f64, f64), mass: f64) -> Body {
    Body {
        position: Vec2::new(scalar(position.0), scalar(position.1)),
        velocity: Vec2::new(scalar(velocity.0), scalar(velocity.1)),
        mass: scalar(mass),
    }
}

type Plain = (DVec2, DVec2, f64);

fn plain(b: &Body) -> Plain {
    (
        DVec2::new(number(b.position.x), number(b.position.y)),
        DVec2::new(number(b.velocity.x), number(b.velocity.y)),
        number(b.mass),
    )
}

fn plain_forces(bodies: &Vec<Plain>) -> Vec<DVec2> {
    let mut forces = vec![DVec2::zero(); bodies.len()];
    for i in 0..bodies.len() {
        for j in (i + 1)..bodies.len() {
            let direction = bodies[j].0 - bodies[i].0;
            let distance = direction.mag() + 100.0;
            let force_magnitude = (6.6743e-11 * (bodies[i].2 * bodies[j].2)) / (distance * distance);
            let force: DVec2 = direction.normalized() * force_magnitude;
            forces[i] += force;
            forces[j] -= force;
        }
    }
    forces
}

fn plain_update(bodies: &mut Vec<Plain>, forces: Vec<DVec2>, dt: f64) {
    for (body, force) in bodies.iter_mut().zip(forces.iter()) {
        let acceleration = *force / body.2;
        body.1 += acceleration * dt;
        body.0 += body.1 * dt;
    }
}

fn plain_sim(bodies: &mut Vec<Plain>, dt: f64, precision: u32) {
    for _ in 0..precision {
        let forces = plain_forces(bodies);
        plain_update(bodies, forces, dt / precision as f64);
    }
}

fn planets() -> Vec<Body> {
    vec![
        body((0.0, 0.0), (0.0, 0.0), 2.0e30),
        body((1.496e11, 0.0), (0.0, 29780.0), 5.972e24),
        body((1.49985e11, 0.0), (0.0, 30802.0), 7.35e22),
        body((1.08e11, 0.0), (0.0, 35000.0), 4.868e24),
        body((2.2794e11, 0.0), (0.0, 24000.0), 6.42e23),
        body((4.7e10, 0.0), (0.0, 47870.0), 3.302e23),
        body((7.78e11, 0.0), (0.0, 13070.0), 1.8987e27),
        body((1.434e12, 0.0), (0.0, 9680.0), 5.6851e26),
    ]
}

fn assert_same_bodies(ours: &Vec<Body>, theirs: &Vec<Plain>) {
    assert_eq!(ours.len(), theirs.len());
    for (a, b) in ours.iter().zip(theirs.iter()) {
        assert_eq!(a.position.x.to_bits(), b.0.x.to_bits());
        assert_eq!(a.position.y.to_bits(), b.0.y.to_bits());
        assert_eq!(a.velocity.x.to_bits(), b.1.x.to_bits());
        assert_eq!(a.velocity.y.to_bits(), b.1.y.to_bits());
        assert_eq!(a.mass.to_bits(), b.2.to_bits());
    }
}

#[test]
fn constants_have_their_values() {
    assert_eq!(GRAVITY_BITS, 6.6743e-11f64.to_bits());
    assert_eq!(SOFTENING_BITS, 100.0f64.to_bits());
}

#[test]
fn forces_match_plain_arithmetic_bit_for_bit() {
    let bodies = planets();
    let theirs: Vec<Plain> = bodies.iter().map(plain).collect();
    let expected = plain_forces(&theirs);
    let forces = compute_forces(&bodies);
    assert_eq!(forces.len(), expected.len());
    for (f, e) in forces.iter().zip(expected.iter()) {
        assert_eq!(f.x.to_bits(), e.x.to_bits());
        assert_eq!(f.y.to_bits(), e.y.to_bits());
    }
}

#[test]
fn a_frame_matches_plain_arithmetic_bit_for_bit() {
    let mut bodies = planets();
    let mut theirs: Vec<Plain> = bodies.iter().map(plain).collect();
    for frame in 0..20 {
        let dt = 1e6 * (0.016 + 0.001 * frame as f64);
        physics_sim(&mut bodies, scalar(dt), 10);
        plain_sim(&mut theirs, dt, 10);
        assert_same_bodies(&bodies, &theirs);
    }
}

#[test]
fn integration_uses_the_new_velocity() {
    let mut bodies = vec![body((1.0, 2.0), (3.0, -4.0), 2.0)];
    let forces = vec![vector(DVec2::new(8.0, 4.0))];
    update_bodies(&mut bodies, forces, scalar(0.5));
    // acceleration (4, 2); velocity (3, -4) + (2, 1) = (5, -3); position (1, 2) + (2.5, -1.5)
    assert_eq!(number(bodies[0].velocity.x), 5.0);
    assert_eq!(number(bodies[0].velocity.y), -3.0);
    assert_eq!(number(bodies[0].position.x), 3.5);
    assert_eq!(number(bodies[0].position.y), 0.5);
    assert_eq!(number(bodies[0].mass), 2.0);
}

#[test]
fn bodies_without_a_force_stay() {
    let mut bodies = vec![
        body((1.0, 2.0), (3.0, -4.0), 2.0),
        body((5.0, 6.0), (7.0, 8.0), 1.0),
    ];
    let untouched = bodies[1];
    update_bodies(&mut bodies, vec![vector(DVec2::new(0.0, 0.0))], scalar(1.0));
    assert_eq!(number(bodies[0].position.x), 4.0);
    assert_eq!(bodies[1], untouched);
    let mut more = vec![body((1.0, 2.0), (3.0, -4.0), 2.0)];
    let zero = vector(DVec2::new(0.0, 0.0));
    update_bodies(&mut more, vec![zero, zero, zero], scalar(1.0));
    assert_eq!(more.len(), 1);
    assert_eq!(number(more[0].position.y), -2.0);
}

#[test]
fn force_magnitude_follows_the_formula() {
    let a = body((0.0, 0.0), (0.0, 0.0), 2.0e30);
    let b = body((4.0e11, 0.0), (0.0, 0.0), 2.0e30);
    let distance: f64 = 4.0e11 + 100.0;
    let expected = (6.6743e-11 * (2.0e30 * 2.0e30)) / (distance * distance);
    assert_eq!(number(force_magnitude(&a, &b)), expected);
    let reciprocal: f64 = 1.0 / 4.0e11;
    let along: f64 = (4.0e11 * reciprocal) * expected;
    let force = force_between(&a, &b);
    assert_eq!(number(force.x), along);
    assert_eq!(number(force.y), 0.0);
    let back = force_between(&b, &a);
    assert_eq!(number(back.x), -along);
}

fn two_equal_masses() -> Vec<Body> {
    vec![
        body((0.0, 0.0), (0.0, 0.0), 2.0e30),
        body((4.0e11, 0.0), (0.0, 1.0e4), 2.0e30),
    ]
}

#[test]
fn no_bodies_no_forces() {
    let forces = compute_forces(&Vec::new());
    assert!(forces.is_empty());
    let mut none: Vec<Body> = Vec::new();
    physics_sim(&mut none, scalar(1.0e6), 10);
    assert!(none.is_empty());
    assert_eq!(simulate(&mut none, scalar(1.0e6), 10), Ok(()));
    assert_eq!(center_of_mass(&none), None);
}

#[test]
fn one_body_feels_nothing_and_moves_straight() {
    let mut bodies = vec![body((1.0e9, -2.0e9), (300.0, -40.0), 5.0e24)];
    let forces = compute_forces(&bodies);
    assert_eq!(forces.len(), 1);
    assert_eq!(forces[0].x.to_bits(), 0);
    assert_eq!(forces[0].y.to_bits(), 0);
    physics_sim(&mut bodies, scalar(1000.0), 4);
    assert_eq!(number(bodies[0].velocity.x), 300.0);
    assert_eq!(number(bodies[0].velocity.y), -40.0);
    assert_eq!(number(bodies[0].position.x), 1.0e9 + 300.0 * 1000.0);
    assert_eq!(number(bodies[0].position.y), -2.0e9 - 40.0 * 1000.0);
    assert_eq!(number(bodies[0].mass), 5.0e24);
}

#[test]
fn two_body_forces_are_equal_and_opposite() {
    let mut state: u64 = 0x5DEE_CE66_D1CE_4E5B;
    for _ in 0..2000 {
        let mut draw = || {
            state ^= state << 13;
            state ^= state >> 7;
            state ^= state << 17;
            ((state >> 11) as f64 / (1u64 << 53) as f64 - 0.5) * 4.0e11
        };
        let a = body((draw(), draw()), (0.0, 0.0), 1.0e24 + draw().abs() * 1.0e13);
        let b = body((draw(), draw()), (0.0, 0.0), 1.0e24 + draw().abs() * 1.0e13);
        let forces = compute_forces(&vec![a, b]);
        assert!(forces[0].defined());
        assert_eq!(number(forces[0].x), -number(forces[1].x));
        assert_eq!(number(forces[0].y), -number(forces[1].y));
        assert_eq!(number(forces[0].x.plus(forces[1].x)), 0.0);
        assert_eq!(number(forces[0].y.plus(forces[1].y)), 0.0);
        let size = forces[0].mag();
        assert_eq!(size.to_bits(), forces[1].mag().to_bits());
        assert!(number(size) > 0.0);
    }
}

#[test]
fn forces_of_many_bodies_cancel_within_tolerance() {
    let bodies = planets();
    let forces = compute_forces(&bodies);
    let mut total = (0.0f64, 0.0f64);
    let mut largest = 0.0f64;
    for f in forces.iter() {
        total.0 += number(f.x);
        total.1 += number(f.y);
        largest = largest.max(number(f.mag()));
    }
    assert!(largest > 1.0e22);
    assert!(total.0.abs() <= 1.0e-9 * largest);
    assert!(total.1.abs() <= 1.0e-9 * largest);
}

#[test]
fn rounding_can_leave_a_remainder_with_three_bodies() {
    let bodies = vec![
        body((0.0, 0.0), (0.0, 0.0), 1.0e24),
        body((1.0e9, 0.0), (0.0, 0.0), 2.0e24),
        body((0.0, 3.0e9), (0.0, 0.0), 3.0e24),
    ];
    let forces = compute_forces(&bodies);
    let total_x = number(forces[0].x) + number(forces[1].x) + number(forces[2].x);
    let total_y = number(forces[0].y) + number(forces[1].y) + number(forces[2].y);
    assert_eq!(total_x, 6144.0);
    assert_eq!(total_y, 0.0);
    assert!(total_x.abs() <= 1.0e-9 * number(forces[1].mag()));
}

#[test]
fn two_equal_masses_approach_each_other() {
    let mut bodies = two_equal_masses();
    assert_eq!(simulate(&mut bodies, scalar(1.0e6), 10), Ok(()));
    let (a, b) = (bodies[0], bodies[1]);
    // exact values of this run
    assert_eq!(number(a.position.x), 459138498.5966404);
    assert_eq!(number(a.position.y), 3447290.6001672354);
    assert_eq!(number(a.velocity.x), 835.2146947148938);
    assert_eq!(number(a.velocity.y), 9.409109185447965);
    assert_eq!(number(b.position.x), 399540861501.4034);
    assert_eq!(number(b.position.y), 9996552709.399832);
    assert_eq!(number(b.velocity.x), -835.2146947148938);
    assert_eq!(number(b.velocity.y), 9990.590890814552);
    // both moved toward each other along the line that joined them, equally far
    assert!(number(a.position.x) > 0.0);
    assert!(number(b.position.x) < 4.0e11);
    let moved_a = number(a.position.x);
    let moved_b = 4.0e11 - number(b.position.x);
    assert!((moved_a - moved_b).abs() <= 1.0e-9 * moved_a);
    // along that line the centre of mass has not moved
    let center = center_of_mass(&bodies).unwrap();
    assert!((number(center.x) - 2.0e11).abs() <= 1.0e-9 * 2.0e11);
    // across it, it has moved with the momentum that the second body had
    let drift = 0.5 * 1.0e4 * 1.0e6;
    assert!((number(center.y) - drift).abs() <= 1.0e-9 * drift);
    // and the total momentum is what it was
    assert!((number(a.velocity.x) + number(b.velocity.x)).abs() <= 1.0e-9);
    assert!((number(a.velocity.y) + number(b.velocity.y) - 1.0e4).abs() <= 1.0e-9 * 1.0e4);
}

#[test]
fn center_of_mass_stays_where_momentum_is_zero() {
    let mut bodies = vec![
        body((0.0, 0.0), (-0.7499999999999999, -5.0), 2.0e30),
        body((4.0e11, 0.0), (0.0, 1.0e4), 1.0e27),
        body((-1.0e11, 2.0e11), (3.0e3, 0.0), 5.0e26),
    ];
    let start = center_of_mass(&bodies).unwrap();
    assert_eq!(number(start.x), 174868848.36372718);
    assert_eq!(number(start.y), 49962528.103922054);
    for _ in 0..50 {
        assert_eq!(simulate(&mut bodies, scalar(1.0e5), 10), Ok(()));
        let now = center_of_mass(&bodies).unwrap();
        assert!((number(now.x) - number(start.x)).abs() <= 1.0e-9 * 4.0e11);
        assert!((number(now.y) - number(start.y)).abs() <= 1.0e-9 * 4.0e11);
    }
    // the bodies themselves have moved a long way
    assert!((number(bodies[1].position.y)).abs() > 1.0e10);
}

#[test]
fn softening_bounds_the_force_between_close_bodies() {
    let mass = 2.0e30;
    let bound = (6.6743e-11 * (mass * mass)) / (100.0 * 100.0);
    assert_eq!(bound, 2.66972e46);
    // at the same place the size of the force is the bound itself; the force
    // has no direction to act in and is the zero vector
    let a = body((5.0, 7.0), (0.0, 0.0), mass);
    let b = body((5.0, 7.0), (0.0, 0.0), mass);
    let size = force_magnitude(&a, &b);
    assert!(size.finite());
    assert_eq!(number(size), bound);
    let none = force_between(&a, &b);
    assert!(none.defined());
    assert_eq!(number(none.mag()), 0.0);
    // a millimetre apart the force is defined, and below the bound
    let c = body((5.001, 7.0), (0.0, 0.0), mass);
    let forces = compute_forces(&vec![a, c]);
    assert!(forces[0].defined() && forces[1].defined());
    assert_eq!(number(forces[0].x), 2.669666606400905e46);
    assert_eq!(number(forces[0].y), 0.0);
    assert!(number(forces[0].mag()) <= bound);
    assert!(number(forces[1].mag()) <= bound);
}

#[test]
fn bodies_at_one_place_feel_no_force() {
    let a = body((5.0, 5.0), (1.0, -2.0), 2.0);
    let b = body((5.0, 5.0), (0.5, 0.25), 3.0);
    let bound = (6.6743e-11 * (2.0 * 3.0)) / (100.0 * 100.0);
    assert_eq!(number(force_magnitude(&a, &b)), bound);
    let forces = compute_forces(&vec![a, b]);
    for force in forces.iter() {
        assert!(force.defined());
        assert_eq!(number(force.x), 0.0);
        assert_eq!(number(force.y), 0.0);
        assert!(number(force.mag()) <= bound);
    }
    // the frame is advanced, each body along its own velocity
    let mut bodies = vec![a, b];
    assert_eq!(simulate(&mut bodies, scalar(2.0), 1), Ok(()));
    assert_eq!(number(bodies[0].position.x), 7.0);
    assert_eq!(number(bodies[0].position.y), 1.0);
    assert_eq!(number(bodies[0].velocity.x), 1.0);
    assert_eq!(number(bodies[1].position.x), 6.0);
    assert_eq!(number(bodies[1].position.y), 5.5);
    assert_eq!(number(bodies[1].velocity.y), 0.25);
}

#[test]
fn bodies_too_close_to_tell_apart_feel_no_force() {
    let tiny = 2.0f64.powi(-600);
    let a = body((0.0, 0.0), (0.0, 0.0), 1.0);
    let b = body((tiny, 0.0), (0.0, 0.0), 1.0);
    let bound = (6.6743e-11 * (1.0 * 1.0)) / (100.0 * 100.0);
    let direction = b.position.minus(a.position);
    assert_eq!(number(direction.x), tiny);
    assert_eq!(number(direction.mag()), 0.0);
    let unit = direction.normalized();
    assert_eq!(unit.x.to_bits(), 0);
    assert_eq!(unit.y.to_bits(), 0);
    assert_eq!(number(force_magnitude(&a, &b)), bound);
    let forces = compute_forces(&vec![a, b]);
    for force in forces.iter() {
        assert!(force.defined());
        assert!(number(force.mag()) <= bound);
    }
    let mut bodies = vec![a, b];
    assert_eq!(simulate(&mut bodies, scalar(1.0), 3), Ok(()));
    assert_eq!(bodies, vec![a, b]);
}

#[test]
fn rounding_can_lift_a_force_above_the_bound_but_not_far() {
    // the square of this distance is one and a half units in the last place
    // of the smallest numbers, and rounds to one unit
    let gap = 2.722212640494374e-162;
    let a = body((0.0, 0.0), (0.0, 0.0), 1.0);
    let b = body((gap, 0.0), (0.0, 0.0), 1.0);
    let bound = (6.6743e-11 * (1.0 * 1.0)) / (100.0 * 100.0);
    assert_eq!(number(force_magnitude(&a, &b)), bound);
    let force = force_between(&a, &b);
    assert!(force.defined());
    assert_eq!(number(force.x), 8.17401521e-15);
    assert_eq!(number(force.y), 0.0);
    assert!(number(force.x) > bound);
    assert!(number(force.x) <= 4.0 * bound);
}

#[test]
fn forces_between_close_bodies_stay_within_four_times_the_bound() {
    let mut state: u64 = 0x7F4A_7C15_9E37_79B9;
    let bound = (6.6743e-11 * (3.0 * 5.0)) / (100.0 * 100.0);
    for round in 0..20_000 {
        state ^= state << 13;
        state ^= state >> 7;
        state ^= state << 17;
        let exponent = -((state % 1080) as i32) - 1;
        let x = ((state >> 12) % 1000) as f64 / 500.0 * 2.0f64.powi(exponent);
        let y = ((state >> 32) % 1000) as f64 / 500.0 * 2.0f64.powi(exponent + (round % 3) - 1);
        let a = body((0.0, 0.0), (0.0, 0.0), 3.0);
        let b = body((x, -y), (0.0, 0.0), 5.0);
        let force = force_between(&a, &b);
        assert!(force.defined(), "{:e} {:e}", x, y);
        assert!(number(force.x) >= 0.0 && number(force.x) <= 4.0 * bound);
        assert!(number(force.y) <= 0.0 && number(force.y) >= -4.0 * bound);
        let back = force_between(&b, &a);
        assert_eq!(number(back.x), -number(force.x));
        assert_eq!(number(back.y), -number(force.y));
    }
}

#[test]
fn each_body_is_pulled_toward_the_other() {
    let a = body((1.0e9, -2.0e9), (0.0, 0.0), 5.0e24);
    let b = body((-3.0e9, 4.0e9), (0.0, 0.0), 7.0e22);
    let forces = compute_forces(&vec![a, b]);
    let way = (-3.0e9 - 1.0e9, 4.0e9 + 2.0e9);
    let along = number(forces[0].x) * way.0 + number(forces[0].y) * way.1;
    let across = number(forces[0].x) * way.1 - number(forces[0].y) * way.0;
    assert!(along > 0.0);
    assert!(across.abs() <= 1.0e-9 * along);
    let back = number(forces[1].x) * way.0 + number(forces[1].y) * way.1;
    assert!(back < 0.0);
}

#[test]
fn a_step_of_no_length_changes_nothing() {
    let mut bodies = planets();
    physics_sim(&mut bodies, scalar(0.0), 4);
    for (now, then) in bodies.iter().zip(planets().iter()) {
        assert_eq!(number(now.position.x), number(then.position.x));
        assert_eq!(number(now.position.y), number(then.position.y));
        assert_eq!(number(now.velocity.x), number(then.velocity.x));
        assert_eq!(number(now.velocity.y), number(then.velocity.y));
    }
    let tiny = 2.0f64.powi(-600);
    let close = vec![
        body((0.0, 0.0), (1.0, 2.0), 1.0),
        body((tiny, 0.0), (-1.0, 0.5), 1.0),
    ];
    let mut moved = close.clone();
    physics_sim(&mut moved, scalar(0.0), 1);
    assert_eq!(moved, close);
}

#[test]
fn more_sub_steps_come_closer_to_a_fine_run() {
    let start = vec![
        body((0.0, 0.0), (0.0, 0.0), 2.0e30),
        body((1.496e11, 0.0), (0.0, 29780.0), 5.972e24),
    ];
    let mut fine = start.clone();
    physics_sim(&mut fine, scalar(1.0e6), 4096);
    let mut last = f64::INFINITY;
    for sub_steps in [1u32, 2, 4, 8, 16, 32, 64] {
        let mut bodies = start.clone();
        physics_sim(&mut bodies, scalar(1.0e6), sub_steps);
        let dx = number(bodies[1].position.x) - number(fine[1].position.x);
        let dy = number(bodies[1].position.y) - number(fine[1].position.y);
        let error = (dx * dx + dy * dy).sqrt();
        assert!(error < last, "{} sub-steps: {} against {}", sub_steps, error, last);
        last = error;
    }
    assert!(last < 1.0e8);
}

#[test]
fn one_sub_step_is_one_pass() {
    let mut bodies = planets();
    let mut by_hand = planets();
    let forces = compute_forces(&by_hand);
    update_bodies(&mut by_hand, forces, scalar(5000.0));
    physics_sim(&mut bodies, scalar(5000.0), 1);
    assert_eq!(bodies, by_hand);
}

#[test]
fn sub_steps_start_where_the_last_one_ended() {
    let mut bodies = planets();
    let mut by_hand = planets();
    for _ in 0..3 {
        let forces = compute_forces(&by_hand);
        update_bodies(&mut by_hand, forces, scalar(9000.0 / 3.0));
    }
    physics_sim(&mut bodies, scalar(9000.0), 3);
    assert_eq!(bodies, by_hand);
}

#[test]
fn simulate_refuses_zero_sub_steps() {
    let mut bodies = planets();
    assert_eq!(simulate(&mut bodies, scalar(1.0e6), 0), Err(SimError::NoSubSteps));
    assert_eq!(bodies, planets());
}

#[test]
fn simulate_refuses_an_undefined_frame() {
    let mut bodies = planets();
    assert_eq!(simulate(&mut bodies, scalar(f64::NAN), 10), Err(SimError::UndefinedStep));
    assert_eq!(simulate(&mut bodies, scalar(f64::INFINITY), 10), Err(SimError::UndefinedStep));
    assert_eq!(bodies, planets());
}

#[test]
fn simulate_names_the_first_invalid_body() {
    let good = body((1.0, 2.0), (3.0, 4.0), 5.0);
    let cases = [
        body((1.0, 2.0), (3.0, 4.0), 0.0),
        body((1.0, 2.0), (3.0, 4.0), -0.0),
        body((1.0, 2.0), (3.0, 4.0), -5.0),
        body((1.0, 2.0), (3.0, 4.0), f64::NAN),
        body((1.0, 2.0), (3.0, 4.0), f64::INFINITY),
        body((f64::NAN, 2.0), (3.0, 4.0), 5.0),
        body((1.0, f64::INFINITY), (3.0, 4.0), 5.0),
        body((1.0, 2.0), (f64::NEG_INFINITY, 4.0), 5.0),
        body((1.0, 2.0), (3.0, f64::NAN), 5.0),
    ];
    for bad in cases {
        assert!(!bad.valid());
        let mut bodies = vec![good, good, bad, good, bad];
        let before = bodies.clone();
        assert_eq!(
            simulate(&mut bodies, scalar(1.0), 2),
            Err(SimError::InvalidBody { index: 2 })
        );
        assert_eq!(bodies, before);
        assert_eq!(find_invalid(&bodies), Some(2));
    }
    assert!(good.valid());
    assert_eq!(find_invalid(&vec![good, good]), None);
}

#[test]
fn simulate_refuses_a_run_that_leaves_the_numbers() {
    let fast = body((1.0e300, 0.0), (1.0e300, 0.0), 1.0);
    let mut bodies = vec![fast];
    assert_eq!(simulate(&mut bodies, scalar(1.0e300), 1), Err(SimError::Diverged));
    assert_eq!(bodies, vec![fast]);
    assert!(every_body_defined(&bodies));
    physics_sim(&mut bodies, scalar(1.0e300), 1);
    assert!(!every_body_defined(&bodies));
}

#[test]
fn simulate_advances_as_physics_sim_does() {
    let mut bodies = planets();
    let mut expected = planets();
    assert_eq!(simulate(&mut bodies, scalar(-2.5e5), 7), Ok(()));
    physics_sim(&mut expected, scalar(-2.5e5), 7);
    assert_eq!(bodies, expected);
    assert_ne!(bodies, planets());
}

#[test]
fn time_can_run_backward() {
    let mut bodies = two_equal_masses();
    let mut theirs: Vec<Plain> = bodies.iter().map(plain).collect();
    physics_sim(&mut bodies, scalar(-1.0e6), 10);
    plain_sim(&mut theirs, -1.0e6, 10);
    assert_same_bodies(&bodies, &theirs);
    assert!(number(bodies[1].position.y) < 0.0);
}

#[test]
fn center_of_mass_is_the_weighted_mean() {
    let bodies = vec![
        body((1.0, 2.0), (0.0, 0.0), 3.0),
        body((5.0, -2.0), (0.0, 0.0), 1.0),
    ];
    let center = center_of_mass(&bodies).unwrap();
    assert_eq!(number(center.x), 2.0);
    assert_eq!(number(center.y), 1.0);
    let theirs: Vec<Plain> = planets().iter().map(plain).collect();
    let mut total = 0.0;
    let mut weighted = DVec2::zero();
    for b in theirs.iter() {
        total += b.2;
        weighted += b.0 * b.2;
    }
    let expected = weighted / total;
    let ours = center_of_mass(&planets()).unwrap();
    assert_eq!(ours.x.to_bits(), expected.x.to_bits());
    assert_eq!(ours.y.to_bits(), expected.y.to_bits());
}

#[test]
fn no_center_without_mass() {
    assert_eq!(center_of_mass(&Vec::new()), None);
    assert_eq!(center_of_mass(&vec![body((1.0, 2.0), (0.0, 0.0), 0.0)]), None);
    let cancelling = vec![
        body((1.0, 2.0), (0.0, 0.0), 4.0),
        body((3.0, 2.0), (0.0, 0.0), -4.0),
    ];
    assert_eq!(center_of_mass(&cancelling), None);
    assert_eq!(center_of_mass(&vec![body((1.0, 2.0), (0.0, 0.0), -1.0)]), None);
    assert_eq!(center_of_mass(&vec![body((1.0, 2.0), (0.0, 0.0), f64::NAN)]), None);
}

#[test]
fn a_frame_keeps_number_order_and_masses() {
    let mut bodies = planets();
    physics_sim(&mut bodies, scalar(1.0e6), 5);
    let before = planets();
    assert_eq!(bodies.len(), before.len());
    for (now, then) in bodies.iter().zip(before.iter()) {
        assert_eq!(now.mass, then.mass);
        assert_ne!(now.position, then.position);
    }
    // the lightest of the inner bodies is still in its place
    assert_eq!(number(bodies[2].mass), 7.35e22);
}
