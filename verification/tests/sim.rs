use planetsim::sim::{pair_force_accepted, snapshot, Planet, StepOutcome};

const G: f64 = 6.67428e-11;
const SOFTENING: f64 = 1.0e9;
const DT: f64 = 86400.0;

/// Pairwise force of `other` on `body` and their softened distance,
/// computed exactly as the integrator's host loop computes it.
fn calculate_force(body: &Planet, other: &Planet) -> (f64, f64, f64) {
    let dx = f64::from_bits(other.x_bits()) - f64::from_bits(body.x_bits());
    let dy = f64::from_bits(other.y_bits()) - f64::from_bits(body.y_bits());
    let d2 = dx.powi(2) + dy.powi(2) + SOFTENING.powi(2);
    let distance = d2.sqrt();
    let force = G * f64::from_bits(body.mass_bits()) * f64::from_bits(other.mass_bits())
        / distance.powi(2);
    let theta = dy.atan2(dx);
    (theta.cos() * force, theta.sin() * force, distance)
}

/// One full integration step over all bodies, against an entry snapshot,
/// mirroring the host loop: sum the accepted pairwise forces, integrate,
/// and let each body commit the candidates.
fn step(bodies: &mut Vec<Planet>) -> Vec<StepOutcome> {
    let entry = snapshot(bodies);
    let mut outcomes = Vec::new();
    for i in 0..bodies.len() {
        let mut total_fx = 0.0_f64;
        let mut total_fy = 0.0_f64;
        let mut anchor_distance: Option<f64> = None;
        for j in 0..bodies.len() {
            if i == j {
                continue;
            }
            let other = Planet::new(entry[j].0, entry[j].1, 0, 0, entry[j].2);
            let self_snapshot = Planet::new(entry[i].0, entry[i].1, 0, 0, entry[i].2);
            let (fx, fy, distance) = calculate_force(&self_snapshot, &other);
            if !pair_force_accepted(fx.to_bits(), fy.to_bits()) {
                continue;
            }
            total_fx += fx;
            total_fy += fy;
            if entry[j].3 {
                anchor_distance = Some(distance);
            }
        }
        let body = &mut bodies[i];
        if let Some(d) = anchor_distance {
            body.record_distance_to_sun(d.to_bits());
        }
        let mass = f64::from_bits(body.mass_bits());
        let new_vx = f64::from_bits(body.x_vel_bits()) + total_fx / mass * DT;
        let new_vy = f64::from_bits(body.y_vel_bits()) + total_fy / mass * DT;
        let new_x = new_vx.mul_add(DT, f64::from_bits(body.x_bits()));
        let new_y = new_vy.mul_add(DT, f64::from_bits(body.y_bits()));
        outcomes.push(body.commit_step(
            new_vx.to_bits(),
            new_vy.to_bits(),
            new_x.to_bits(),
            new_y.to_bits(),
        ));
    }
    outcomes
}

fn two_body_system() -> Vec<Planet> {
    let mut sun = Planet::new(
        0.0_f64.to_bits(),
        0.0_f64.to_bits(),
        30.0_f64.to_bits(),
        0x00FF_FF00,
        1.989e30_f64.to_bits(),
    );
    sun.set_sun(true);
    let mut earth = Planet::new(
        (-1.496e11_f64).to_bits(),
        0.0_f64.to_bits(),
        16.0_f64.to_bits(),
        0x0064_95ED,
        5.9742e24_f64.to_bits(),
    );
    earth.set_velocity(0.0_f64.to_bits(), 29783.0_f64.to_bits());
    vec![sun, earth]
}

#[test]
fn finiteness_of_bit_patterns() {
    assert!(pair_force_accepted(1.5_f64.to_bits(), (-0.0_f64).to_bits()));
    assert!(pair_force_accepted(f64::MIN_POSITIVE.to_bits(), f64::MAX.to_bits()));
    assert!(pair_force_accepted(5e-324_f64.to_bits(), 0.0_f64.to_bits()));
    assert!(!pair_force_accepted(f64::NAN.to_bits(), 0.0_f64.to_bits()));
    assert!(!pair_force_accepted(0.0_f64.to_bits(), f64::INFINITY.to_bits()));
    assert!(!pair_force_accepted(f64::NEG_INFINITY.to_bits(), 0.0_f64.to_bits()));
}

#[test]
fn pair_acceptance_is_symmetric_under_negation() {
    // Newton's third law: the force B exerts on A is A's force on B with
    // both components negated, so the acceptance decision agrees for the
    // two directions of any pair.
    let samples = [
        (1.5_f64, -2.5_f64),
        (0.0, -0.0),
        (f64::NAN, 1.0),
        (1.0, f64::INFINITY),
        (f64::NEG_INFINITY, f64::NAN),
        (f64::MAX, f64::MIN_POSITIVE),
    ];
    for &(fx, fy) in &samples {
        assert_eq!(
            pair_force_accepted(fx.to_bits(), fy.to_bits()),
            pair_force_accepted((-fx).to_bits(), (-fy).to_bits()),
        );
    }
    // And for a computed pair: the two bodies see forces of the same
    // magnitude in opposite directions (up to the rounding of the
    // trigonometric path), with one and the same acceptance.
    let bodies = two_body_system();
    let (fx, fy, _) = calculate_force(&bodies[1], &bodies[0]);
    let (gx, gy, _) = calculate_force(&bodies[0], &bodies[1]);
    let magnitude = (fx * fx + fy * fy).sqrt();
    let tolerance = 1e-12 * magnitude;
    assert!((fx + gx).abs() <= tolerance);
    assert!((fy + gy).abs() <= tolerance);
    assert_eq!(
        pair_force_accepted(fx.to_bits(), fy.to_bits()),
        pair_force_accepted(gx.to_bits(), gy.to_bits()),
    );
}

#[test]
fn new_body_starts_at_rest_with_empty_trail() {
    let p = Planet::new(
        1.0_f64.to_bits(),
        2.0_f64.to_bits(),
        8.0_f64.to_bits(),
        0xABCD,
        3.0_f64.to_bits(),
    );
    assert_eq!(f64::from_bits(p.x_bits()), 1.0);
    assert_eq!(f64::from_bits(p.y_bits()), 2.0);
    assert_eq!(f64::from_bits(p.x_vel_bits()), 0.0);
    assert_eq!(f64::from_bits(p.y_vel_bits()), 0.0);
    assert_eq!(f64::from_bits(p.distance_to_sun_bits()), 0.0);
    assert_eq!(p.color(), 0xABCD);
    assert!(!p.sun());
    assert!(p.orbit().is_empty());
}

#[test]
fn canonical_one_step_scenario() {
    // Anchor of 1.989e30 kg at the origin; an orbiting body of
    // 5.9742e24 kg at (-1.496e11, 0) moving at 29783 m/s in y. After one
    // step of 86400 s the committed state must match the semi-implicit
    // Euler formulas exactly.
    let mut bodies = two_body_system();
    let outcomes = step(&mut bodies);
    assert_eq!(outcomes[1], StepOutcome::Advanced);

    let dx = 1.496e11_f64;
    let d2 = dx.powi(2) + SOFTENING.powi(2);
    let distance = d2.sqrt();
    let force = G * 5.9742e24_f64 * 1.989e30_f64 / distance.powi(2);
    let theta = 0.0_f64.atan2(dx);
    let fx = theta.cos() * force;
    let fy = theta.sin() * force;
    let expected_vx = fx / 5.9742e24_f64 * DT;
    let expected_vy = 29783.0 + fy / 5.9742e24_f64 * DT;
    let expected_x = expected_vx.mul_add(DT, -1.496e11);
    let expected_y = expected_vy.mul_add(DT, 0.0);

    let earth = &bodies[1];
    assert_eq!(earth.x_vel_bits(), expected_vx.to_bits());
    assert_eq!(earth.y_vel_bits(), expected_vy.to_bits());
    assert_eq!(earth.x_bits(), expected_x.to_bits());
    assert_eq!(earth.y_bits(), expected_y.to_bits());
    assert_eq!(earth.orbit().len(), 1);
    assert_eq!(earth.orbit()[0], (expected_x.to_bits(), expected_y.to_bits()));
}

#[test]
fn anchor_distance_uses_softened_separation() {
    // A body at (x, 0) at rest next to the anchor at the origin: after
    // one step its recorded anchor distance is sqrt(x^2 + s^2).
    let x = 2.5e10_f64;
    let mut sun = Planet::new(
        0.0_f64.to_bits(),
        0.0_f64.to_bits(),
        30.0_f64.to_bits(),
        0,
        1.989e30_f64.to_bits(),
    );
    sun.set_sun(true);
    let body = Planet::new(
        x.to_bits(),
        0.0_f64.to_bits(),
        8.0_f64.to_bits(),
        0,
        1.0e20_f64.to_bits(),
    );
    let mut bodies = vec![sun, body];
    step(&mut bodies);
    let expected = (x.powi(2) + SOFTENING.powi(2)).sqrt();
    assert_eq!(bodies[1].distance_to_sun_bits(), expected.to_bits());
    // The anchor itself keeps its zero distance.
    assert_eq!(f64::from_bits(bodies[0].distance_to_sun_bits()), 0.0);
}

#[test]
fn trail_appends_once_per_clean_step() {
    let mut bodies = two_body_system();
    let steps = 10;
    let mut seen: Vec<(u64, u64)> = Vec::new();
    for _ in 0..steps {
        let outcomes = step(&mut bodies);
        assert!(outcomes.iter().all(|&o| o == StepOutcome::Advanced));
        let trail = bodies[1].orbit().clone();
        // Append-only: everything recorded earlier is still there.
        assert_eq!(&trail[..seen.len()], &seen[..]);
        assert_eq!(trail.len(), seen.len() + 1);
        seen = trail;
    }
    assert_eq!(bodies[1].orbit().len(), steps);
    assert_eq!(bodies[0].orbit().len(), steps);
}

#[test]
fn non_finite_velocity_is_contained() {
    let mut bodies = two_body_system();
    bodies[1].set_velocity(f64::NAN.to_bits(), 29783.0_f64.to_bits());
    let x_before = bodies[1].x_bits();
    let y_before = bodies[1].y_bits();
    let outcomes = step(&mut bodies);
    // The injected body freezes its position and trail for the step...
    assert_eq!(outcomes[1], StepOutcome::VelocityFault);
    assert_eq!(bodies[1].x_bits(), x_before);
    assert_eq!(bodies[1].y_bits(), y_before);
    assert_eq!(bodies[1].orbit().len(), 0);
    // ...while the other body's update stays finite and advances: its
    // force reads the injected body's (finite) position, not velocity.
    assert_eq!(outcomes[0], StepOutcome::Advanced);
    assert!(f64::from_bits(bodies[0].x_bits()).is_finite());
    assert!(f64::from_bits(bodies[0].y_bits()).is_finite());
    assert!(f64::from_bits(bodies[0].x_vel_bits()).is_finite());
    assert!(f64::from_bits(bodies[0].y_vel_bits()).is_finite());
    assert_eq!(bodies[0].orbit().len(), 1);
}

#[test]
fn non_finite_position_freezes_position_but_commits_velocity() {
    let mut body = Planet::new(
        1.0_f64.to_bits(),
        2.0_f64.to_bits(),
        8.0_f64.to_bits(),
        0,
        3.0_f64.to_bits(),
    );
    let outcome = body.commit_step(
        5.0_f64.to_bits(),
        6.0_f64.to_bits(),
        f64::INFINITY.to_bits(),
        7.0_f64.to_bits(),
    );
    assert_eq!(outcome, StepOutcome::PositionFault);
    assert_eq!(f64::from_bits(body.x_vel_bits()), 5.0);
    assert_eq!(f64::from_bits(body.y_vel_bits()), 6.0);
    assert_eq!(f64::from_bits(body.x_bits()), 1.0);
    assert_eq!(f64::from_bits(body.y_bits()), 2.0);
    assert_eq!(body.orbit().len(), 0);
}

#[test]
fn two_body_energy_and_angular_momentum_drift_is_bounded() {
    let mut bodies = two_body_system();

    let energy = |bodies: &Vec<Planet>| -> f64 {
        let m0 = f64::from_bits(bodies[0].mass_bits());
        let m1 = f64::from_bits(bodies[1].mass_bits());
        let v0x = f64::from_bits(bodies[0].x_vel_bits());
        let v0y = f64::from_bits(bodies[0].y_vel_bits());
        let v1x = f64::from_bits(bodies[1].x_vel_bits());
        let v1y = f64::from_bits(bodies[1].y_vel_bits());
        let dx = f64::from_bits(bodies[1].x_bits()) - f64::from_bits(bodies[0].x_bits());
        let dy = f64::from_bits(bodies[1].y_bits()) - f64::from_bits(bodies[0].y_bits());
        let r = (dx * dx + dy * dy).sqrt();
        0.5 * m0 * (v0x * v0x + v0y * v0y) + 0.5 * m1 * (v1x * v1x + v1y * v1y)
            - G * m0 * m1 / r
    };
    let angular_momentum = |bodies: &Vec<Planet>| -> f64 {
        let mut total = 0.0;
        for b in bodies {
            let m = f64::from_bits(b.mass_bits());
            let x = f64::from_bits(b.x_bits());
            let y = f64::from_bits(b.y_bits());
            let vx = f64::from_bits(b.x_vel_bits());
            let vy = f64::from_bits(b.y_vel_bits());
            total += m * (x * vy - y * vx);
        }
        total
    };

    let e0 = energy(&bodies);
    let l0 = angular_momentum(&bodies);
    for _ in 0..365 {
        let outcomes = step(&mut bodies);
        assert!(outcomes.iter().all(|&o| o == StepOutcome::Advanced));
        let e = energy(&bodies);
        let l = angular_momentum(&bodies);
        assert!(((e - e0) / e0).abs() < 0.1, "energy drift {}", (e - e0) / e0);
        assert!(((l - l0) / l0).abs() < 1e-6, "momentum drift {}", (l - l0) / l0);
    }
}

#[test]
fn softened_force_stays_bounded_near_coincidence() {
    // Softening monotonicity: as the separation shrinks to zero the
    // softened force magnitude grows toward the finite bound
    // G * m1 * m2 / s^2 and never diverges or becomes non-finite.
    let m1 = 1.989e30_f64;
    let m2 = 5.9742e24_f64;
    let bound = G * m2 * m1 / (SOFTENING * SOFTENING);
    let mut sun = Planet::new(
        0.0_f64.to_bits(),
        0.0_f64.to_bits(),
        30.0_f64.to_bits(),
        0,
        m1.to_bits(),
    );
    sun.set_sun(true);
    let separations = [1.0e9_f64, 1.0e6, 1.0e3, 1.0, 1.0e-3, 0.0];
    let mut previous = 0.0_f64;
    for &d in &separations {
        let body = Planet::new(d.to_bits(), 0.0_f64.to_bits(), 8.0_f64.to_bits(), 0, m2.to_bits());
        let (fx, fy, distance) = calculate_force(&body, &sun);
        let magnitude = (fx * fx + fy * fy).sqrt();
        assert!(magnitude.is_finite());
        assert!(magnitude <= bound * (1.0 + 1e-12));
        assert!(distance.is_finite() && distance >= SOFTENING);
        assert!(pair_force_accepted(fx.to_bits(), fy.to_bits()));
        assert!(magnitude >= previous);
        previous = magnitude;
    }
    // At coincidence the magnitude sits at the softening bound itself.
    assert!((previous - bound).abs() <= 1e-9 * bound);
}
