//! Per-body simulation state and the rules that commit one integration step.
//!
//! Positions, velocities, masses and distances are double-precision values;
//! the simulation core stores each of them as its IEEE 754 bit pattern
//! (`u64`), which lets the commit policy below reason exactly about
//! finiteness without doing any floating-point arithmetic itself. The
//! gravitational force evaluation and the semi-implicit Euler formulas run
//! in the host loop, which hands the candidate results of each step to
//! [`Planet::commit_step`]; that function alone decides what is written
//! back, so the containment policy for non-finite values and the
//! append-only discipline of the orbit trail are enforced here.

use vstd::prelude::*;

verus! {

/// Exponent mask of an IEEE 754 double-precision bit pattern.
pub const EXP_MASK: u64 = 0x7FF0_0000_0000_0000;

/// Sign mask of an IEEE 754 double-precision bit pattern.
pub const SIGN_MASK: u64 = 0x8000_0000_0000_0000;

/// A double-precision bit pattern stands for a finite value exactly when
/// its exponent field is not all ones (all ones marks an infinity or NaN).
pub open spec fn is_finite_bits(b: u64) -> bool {
    b & EXP_MASK != EXP_MASK
}

/// A bit pattern stands for a strictly positive finite value: finite, sign
/// bit clear, and not positive zero.
pub open spec fn is_positive_finite_bits(b: u64) -> bool {
    is_finite_bits(b) && b & SIGN_MASK == 0u64 && b != 0u64
}

/// Runtime finiteness test on a double-precision bit pattern.
pub fn finite_bits(b: u64) -> (r: bool)
    ensures
        r == is_finite_bits(b),
{
    b & EXP_MASK != EXP_MASK
}

/// A pairwise force contribution enters the per-body force sum only when
/// both of its components are finite; a degenerate pair is discarded and
/// the remaining pairs are still summed.
pub fn pair_force_accepted(fx_bits: u64, fy_bits: u64) -> (r: bool)
    ensures
        r == (is_finite_bits(fx_bits) && is_finite_bits(fy_bits)),
{
    finite_bits(fx_bits) && finite_bits(fy_bits)
}

/// How one integration step ended for a body.
#[derive(Clone, Copy, Debug, PartialEq, Eq, Structural)]
pub enum StepOutcome {
    /// Velocity and position were both finite: everything was committed
    /// and the new position was appended to the orbit trail.
    Advanced,
    /// The candidate velocity was non-finite: it was still committed, but
    /// the position and the trail were left untouched for this step.
    VelocityFault,
    /// The candidate velocity was finite but the candidate position was
    /// not: the velocity was committed, the position and trail were left
    /// untouched for this step.
    PositionFault,
}

/// The mathematical state of a [`Planet`], one ghost field per stored
/// field, with the orbit trail seen as a sequence.
pub ghost struct PlanetView {
    /// x-coordinate of the position (bit pattern of a double, meters).
    pub x_bits: u64,
    /// y-coordinate of the position (bit pattern of a double, meters).
    pub y_bits: u64,
    /// Drawn radius (bit pattern of a double, pixels).
    pub radius_bits: u64,
    /// Color used when the body is drawn.
    pub color: u32,
    /// Mass (bit pattern of a double, kilograms).
    pub mass_bits: u64,
    /// Historical positions in chronological order.
    pub orbit: Seq<(u64, u64)>,
    /// Whether this body is the anchor for distance reporting.
    pub sun: bool,
    /// Last recorded distance to the anchor body.
    pub distance_to_sun_bits: u64,
    /// x-component of the velocity (bit pattern of a double, m/s).
    pub x_vel_bits: u64,
    /// y-component of the velocity (bit pattern of a double, m/s).
    pub y_vel_bits: u64,
}

/// One simulated mass point.
///
/// The fields mirror the physical model: position and velocity in meters
/// and meters/second, mass in kilograms, all stored as double-precision
/// bit patterns; the radius and color are rendering hints with no
/// physical effect; `sun` marks the anchor body against which distances
/// are reported. The mass is strictly positive and never changes after
/// construction, and the orbit trail only ever grows by appending.
pub struct Planet {
    x_bits: u64,
    y_bits: u64,
    radius_bits: u64,
    color: u32,
    mass_bits: u64,
    orbit: Vec<(u64, u64)>,
    sun: bool,
    distance_to_sun_bits: u64,
    x_vel_bits: u64,
    y_vel_bits: u64,
}

impl View for Planet {
    type V = PlanetView;

    closed spec fn view(&self) -> PlanetView {
        PlanetView {
            x_bits: self.x_bits,
            y_bits: self.y_bits,
            radius_bits: self.radius_bits,
            color: self.color,
            mass_bits: self.mass_bits,
            orbit: self.orbit@,
            sun: self.sun,
            distance_to_sun_bits: self.distance_to_sun_bits,
            x_vel_bits: self.x_vel_bits,
            y_vel_bits: self.y_vel_bits,
        }
    }
}

impl Planet {
    /// A well-formed body has a strictly positive, finite mass.
    pub open spec fn wf(&self) -> bool {
        is_positive_finite_bits(self@.mass_bits)
    }

    /// Create a body at the given position with the given rendering hints
    /// and mass; it starts at rest, not marked as the anchor, with an
    /// empty trail and a zero recorded anchor distance.
    pub fn new(x_bits: u64, y_bits: u64, radius_bits: u64, color: u32, mass_bits: u64) -> (p: Planet)
        requires
            is_positive_finite_bits(mass_bits),
        ensures
            p.wf(),
            p@ == (PlanetView {
                x_bits,
                y_bits,
                radius_bits,
                color,
                mass_bits,
                orbit: Seq::<(u64, u64)>::empty(),
                sun: false,
                distance_to_sun_bits: 0u64,
                x_vel_bits: 0u64,
                y_vel_bits: 0u64,
            }),
    {
        Planet {
            x_bits,
            y_bits,
            radius_bits,
            color,
            mass_bits,
            orbit: Vec::new(),
            sun: false,
            distance_to_sun_bits: 0u64,
            x_vel_bits: 0u64,
            y_vel_bits: 0u64,
        }
    }

    /// Read the x-coordinate bit pattern of the position.
    pub fn x_bits(&self) -> (r: u64)
        ensures
            r == self@.x_bits,
    {
        self.x_bits
    }

    /// Read the y-coordinate bit pattern of the position.
    pub fn y_bits(&self) -> (r: u64)
        ensures
            r == self@.y_bits,
    {
        self.y_bits
    }

    /// Read the radius bit pattern.
    pub fn radius_bits(&self) -> (r: u64)
        ensures
            r == self@.radius_bits,
    {
        self.radius_bits
    }

    /// Read the color.
    pub fn color(&self) -> (r: u32)
        ensures
            r == self@.color,
    {
        self.color
    }

    /// Read the mass bit pattern.
    pub fn mass_bits(&self) -> (r: u64)
        ensures
            r == self@.mass_bits,
    {
        self.mass_bits
    }

    /// Whether this body is the anchor.
    pub fn sun(&self) -> (r: bool)
        ensures
            r == self@.sun,
    {
        self.sun
    }

    /// Read the last recorded distance to the anchor body.
    pub fn distance_to_sun_bits(&self) -> (r: u64)
        ensures
            r == self@.distance_to_sun_bits,
    {
        self.distance_to_sun_bits
    }

    /// Read the x-component bit pattern of the velocity.
    pub fn x_vel_bits(&self) -> (r: u64)
        ensures
            r == self@.x_vel_bits,
    {
        self.x_vel_bits
    }

    /// Read the y-component bit pattern of the velocity.
    pub fn y_vel_bits(&self) -> (r: u64)
        ensures
            r == self@.y_vel_bits,
    {
        self.y_vel_bits
    }

    /// Read the orbit trail.
    pub fn orbit(&self) -> (o: &Vec<(u64, u64)>)
        ensures
            o@ == self@.orbit,
    {
        &self.orbit
    }

    /// Mark or unmark this body as the anchor; nothing else changes.
    pub fn set_sun(&mut self, sun: bool)
        ensures
            final(self)@ == (PlanetView { sun, ..old(self)@ }),
    {
        self.sun = sun;
    }

    /// Set the body's velocity directly. This is initialization, outside
    /// the integration policy: bodies receive their starting velocity
    /// once, after construction, before the first step.
    pub fn set_velocity(&mut self, x_vel_bits: u64, y_vel_bits: u64)
        ensures
            final(self)@ == (PlanetView { x_vel_bits, y_vel_bits, ..old(self)@ }),
    {
        self.x_vel_bits = x_vel_bits;
        self.y_vel_bits = y_vel_bits;
    }

    /// Record the distance to the anchor body computed for this step;
    /// nothing else changes. When several bodies are flagged as anchors,
    /// the last recorded value wins.
    pub fn record_distance_to_sun(&mut self, distance_bits: u64)
        ensures
            final(self)@ == (PlanetView { distance_to_sun_bits: distance_bits, ..old(self)@ }),
    {
        self.distance_to_sun_bits = distance_bits;
    }

    /// Commit the results of one semi-implicit Euler step.
    ///
    /// The caller integrates the accepted pairwise forces and hands in the
    /// candidate new velocity and the candidate new position derived from
    /// it. The velocity is always committed, finite or not. The position
    /// is committed, and appended to the orbit trail, only when both the
    /// velocity and the position candidates are finite; a non-finite
    /// candidate freezes the position and the trail for this step, so a
    /// corrupted value never propagates into the committed position or
    /// into the trail. Mass, rendering hints, the anchor flag and the
    /// recorded anchor distance are untouched.
    pub fn commit_step(
        &mut self,
        new_x_vel_bits: u64,
        new_y_vel_bits: u64,
        new_x_bits: u64,
        new_y_bits: u64,
    ) -> (outcome: StepOutcome)
        ensures
            final(self)@.x_vel_bits == new_x_vel_bits,
            final(self)@.y_vel_bits == new_y_vel_bits,
            final(self)@.mass_bits == old(self)@.mass_bits,
            final(self)@.radius_bits == old(self)@.radius_bits,
            final(self)@.color == old(self)@.color,
            final(self)@.sun == old(self)@.sun,
            final(self)@.distance_to_sun_bits == old(self)@.distance_to_sun_bits,
            outcome == StepOutcome::Advanced <==> is_finite_bits(new_x_vel_bits)
                && is_finite_bits(new_y_vel_bits) && is_finite_bits(new_x_bits)
                && is_finite_bits(new_y_bits),
            outcome == StepOutcome::VelocityFault <==> !(is_finite_bits(new_x_vel_bits)
                && is_finite_bits(new_y_vel_bits)),
            outcome == StepOutcome::Advanced ==> final(self)@.x_bits == new_x_bits
                && final(self)@.y_bits == new_y_bits
                && final(self)@.orbit == old(self)@.orbit.push((new_x_bits, new_y_bits)),
            outcome != StepOutcome::Advanced ==> final(self)@.x_bits == old(self)@.x_bits
                && final(self)@.y_bits == old(self)@.y_bits
                && final(self)@.orbit == old(self)@.orbit,
    {
        self.x_vel_bits = new_x_vel_bits;
        self.y_vel_bits = new_y_vel_bits;
        if !finite_bits(new_x_vel_bits) || !finite_bits(new_y_vel_bits) {
            StepOutcome::VelocityFault
        } else if finite_bits(new_x_bits) && finite_bits(new_y_bits) {
            self.x_bits = new_x_bits;
            self.y_bits = new_y_bits;
            self.orbit.push((new_x_bits, new_y_bits));
            StepOutcome::Advanced
        } else {
            StepOutcome::PositionFault
        }
    }
}

/// The read-only snapshot of a body list, taken at the start of a step:
/// for each body, the position and mass that the other bodies' force
/// terms read, and whether it is the anchor. Force computation during a
/// step reads only this entry-time snapshot, never a mid-step update.
pub fn snapshot(bodies: &Vec<Planet>) -> (s: Vec<(u64, u64, u64, bool)>)
    ensures
        s@.len() == bodies@.len(),
        forall|i: int|
            0 <= i < bodies@.len() ==> #[trigger] s@[i] == (
                bodies@[i]@.x_bits,
                bodies@[i]@.y_bits,
                bodies@[i]@.mass_bits,
                bodies@[i]@.sun,
            ),
{
    let mut s: Vec<(u64, u64, u64, bool)> = Vec::new();
    let mut i: usize = 0;
    while i < bodies.len()
        invariant
            i <= bodies.len(),
            s@.len() == i as int,
            forall|t: int|
                0 <= t < i ==> #[trigger] s@[t] == (
                    bodies@[t]@.x_bits,
                    bodies@[t]@.y_bits,
                    bodies@[t]@.mass_bits,
                    bodies@[t]@.sun,
                ),
        decreases bodies.len() - i,
    {
        let b = &bodies[i];
        s.push((b.x_bits(), b.y_bits(), b.mass_bits(), b.sun()));
        i = i + 1;
    }
    s
}

/// Law fragment of force symmetry: negating a double flips exactly its
/// sign bit, and finiteness does not depend on the sign bit. The force a
/// body exerts on its partner is the partner's force with both components
/// negated, so the two contributions of a pair are accepted or discarded
/// together.
pub proof fn lemma_pair_acceptance_symmetric(fx_bits: u64, fy_bits: u64)
    ensures
        (is_finite_bits(fx_bits) && is_finite_bits(fy_bits)) == (is_finite_bits(
            fx_bits ^ SIGN_MASK,
        ) && is_finite_bits(fy_bits ^ SIGN_MASK)),
{
    assert((fx_bits ^ 0x8000_0000_0000_0000u64) & 0x7FF0_0000_0000_0000u64 == fx_bits
        & 0x7FF0_0000_0000_0000u64) by (bit_vector);
    assert((fy_bits ^ 0x8000_0000_0000_0000u64) & 0x7FF0_0000_0000_0000u64 == fy_bits
        & 0x7FF0_0000_0000_0000u64) by (bit_vector);
}

/// Law: a step only appends to the orbit trail. A step that advances the
/// body extends the trail by exactly one point and leaves every earlier
/// point where it was, so over any run of steps the trail length grows by
/// the number of advancing steps and no prior entry is ever rewritten.
pub proof fn lemma_trail_append_only(before: Seq<(u64, u64)>, after: Seq<(u64, u64)>, p: (u64, u64))
    requires
        after == before.push(p),
    ensures
        after.len() == before.len() + 1,
        forall|i: int| 0 <= i < before.len() ==> after[i] == before[i],
        after[before.len() as int] == p,
{
}

} // verus!
