//! How fast the player goes, and when it has arrived.
//!
//! The speed depends on the distance that is left: twice the distance per
//! second, and never more than the cruising speed. Below the arrival distance
//! the player stops where it is.

use vstd::prelude::*;
use crate::scalar::Scalar;
use crate::scalar::size_of;
use crate::scalar::lemma_size_increases;
use crate::scalar::lemma_doubled_units;
use crate::scalar::lemma_order_in_bits;
use vstd::arithmetic::power2::lemma_pow2_unfold;

verus! {

/// The bits of 0.01, the distance below which the player has arrived.
pub const ARRIVAL_BITS: u32 = 0x3C23_D70A;

/// The bits of 2.0, the distance from which the player goes at full speed.
pub const EASING_BITS: u32 = 0x4000_0000;

/// The bits of 4.0, the full speed in units per second.
pub const CRUISE_BITS: u32 = 0x4080_0000;

pub open spec fn arrival_distance() -> Scalar {
    Scalar { bits: ARRIVAL_BITS }
}

pub open spec fn easing_distance() -> Scalar {
    Scalar { bits: EASING_BITS }
}

pub open spec fn cruising_speed() -> Scalar {
    Scalar { bits: CRUISE_BITS }
}

/// What the player does in one frame.
#[derive(Clone, Copy, PartialEq, Eq, Structural, Debug)]
pub enum MotionStep {
    /// It has arrived: it gives up its destination and stays where it is.
    Arrive,
    /// It goes on towards its destination, at `speed` units per second.
    Advance { speed: Scalar },
}

/// The step at `distance` from the destination.
pub open spec fn step_at(distance: Scalar) -> MotionStep {
    if distance.precedes(arrival_distance()) {
        MotionStep::Arrive
    } else if distance.doubled().precedes(cruising_speed()) {
        MotionStep::Advance { speed: distance.doubled() }
    } else {
        MotionStep::Advance { speed: cruising_speed() }
    }
}

/// `step_at`, read off the bits of `distance`.
pub open spec fn step_in_bits(distance: Scalar) -> MotionStep {
    if distance.below(arrival_distance()) {
        MotionStep::Arrive
    } else if distance.doubled().below(cruising_speed()) {
        MotionStep::Advance { speed: distance.doubled() }
    } else {
        MotionStep::Advance { speed: cruising_speed() }
    }
}

/// Decides the step at `distance` from the destination: none below the
/// arrival distance, full speed from the easing distance on, and twice the
/// distance per second in between.
pub fn plan_step(distance: Scalar) -> (step: MotionStep)
    ensures
        step == step_at(distance),
        step == step_in_bits(distance),
        step is Arrive <==> !distance.is_nan() && distance.units() < arrival_distance().units(),
        distance.is_nan() || distance.units() >= easing_distance().units() ==> step == (
        MotionStep::Advance { speed: cruising_speed() }),
        !distance.is_nan() && arrival_distance().units() <= distance.units()
            < easing_distance().units() ==> step is Advance && !step->speed.is_nan()
            && step->speed.units() == 2 * distance.units(),
{
    proof {
        lemma_step_in_bits(distance);
        if distance.is_nan() || distance.units() >= easing_distance().units() {
            lemma_full_speed(distance);
        } else if arrival_distance().units() <= distance.units() {
            lemma_eased_speed(distance);
        }
    }
    if distance.lt(Scalar::from_bits(ARRIVAL_BITS)) {
        return MotionStep::Arrive;
    }
    let speed = distance.twice();
    let cruise = Scalar::from_bits(CRUISE_BITS);
    if speed.lt(cruise) {
        MotionStep::Advance { speed }
    } else {
        MotionStep::Advance { speed: cruise }
    }
}

/// The step can be read off the bits of the distance.
pub proof fn lemma_step_in_bits(distance: Scalar)
    ensures
        step_at(distance) == step_in_bits(distance),
{
    lemma_order_in_bits(distance, arrival_distance());
    lemma_order_in_bits(distance.doubled(), cruising_speed());
}

/// The cruising speed is twice the easing distance, and the arrival distance
/// lies below the easing distance.
proof fn lemma_thresholds()
    ensures
        cruising_speed().units() == 2 * easing_distance().units(),
        0 < arrival_distance().units() < easing_distance().units(),
        !arrival_distance().is_nan(),
        !cruising_speed().is_nan(),
{
    lemma_pow2_unfold(128);
    assert(size_of(0x4080_0000) == 2 * size_of(0x4000_0000)) by {
        assert(0x4080_0000int / 0x80_0000 == 129);
        assert(0x4000_0000int / 0x80_0000 == 128);
        assert(0x4080_0000int % 0x80_0000 == 0);
        assert(0x4000_0000int % 0x80_0000 == 0);
    }
    lemma_size_increases(0, 0x3C23_D70A);
    lemma_size_increases(0x3C23_D70A, 0x4000_0000);
}

/// From the easing distance on the player goes at the cruising speed,
/// whatever the distance. So it does where the distance is no number.
pub proof fn lemma_full_speed(distance: Scalar)
    requires
        distance.is_nan() || distance.units() >= easing_distance().units(),
    ensures
        step_at(distance) == (MotionStep::Advance { speed: cruising_speed() }),
{
    lemma_thresholds();
    if !distance.is_nan() {
        lemma_doubled_units(distance);
        let m = distance.magnitude();
        if m > 0 {
            lemma_size_increases(0, m);
        }
        assert(!distance.is_negative());
        if m >= 0x7F00_0000 {
            lemma_size_increases(0x4080_0000, 0x7F80_0000);
        }
    }
}

/// Between the arrival distance and the easing distance the speed is twice
/// the distance: the player slows down as it comes near.
pub proof fn lemma_eased_speed(distance: Scalar)
    requires
        !distance.is_nan(),
        arrival_distance().units() <= distance.units() < easing_distance().units(),
    ensures
        step_at(distance) == (MotionStep::Advance { speed: distance.doubled() }),
        !distance.doubled().is_nan(),
        distance.doubled().units() == 2 * distance.units(),
{
    lemma_thresholds();
    lemma_doubled_units(distance);
    let m = distance.magnitude();
    if m > 0 {
        lemma_size_increases(0, m);
    }
    assert(!distance.is_negative());
    if m > 0x4000_0000 {
        lemma_size_increases(0x4000_0000, m);
    }
    assert(m < 0x4000_0000);
}

} // verus!
