use arpg::motion::{plan_step, MotionStep};
use arpg::motion::{ARRIVAL_BITS, CRUISE_BITS, EASING_BITS};
use arpg::scalar::Scalar;

fn scalar(value: f32) -> Scalar {
    Scalar::from_bits(value.to_bits())
}

fn speed_of(distance: f32) -> Option<f32> {
    match plan_step(scalar(distance)) {
        MotionStep::Arrive => None,
        MotionStep::Advance { speed } => Some(f32::from_bits(speed.to_bits())),
    }
}

#[test]
fn thresholds_are_the_numbers_they_stand_for() {
    assert_eq!(ARRIVAL_BITS, 0.01f32.to_bits());
    assert_eq!(EASING_BITS, 2.0f32.to_bits());
    assert_eq!(CRUISE_BITS, 4.0f32.to_bits());
}

#[test]
fn arrives_below_the_arrival_distance() {
    assert_eq!(speed_of(0.0), None);
    assert_eq!(speed_of(0.005), None);
    assert_eq!(speed_of(0.009_999), None);
    assert_eq!(speed_of(f32::from_bits(ARRIVAL_BITS - 1)), None);
}

#[test]
fn does_not_arrive_at_the_arrival_distance_itself() {
    assert_eq!(speed_of(0.01), Some(0.02));
    assert_eq!(speed_of(f32::from_bits(ARRIVAL_BITS + 1)), Some(f32::from_bits(ARRIVAL_BITS + 1) * 2.0));
}

#[test]
fn eases_in_below_the_easing_distance() {
    assert_eq!(speed_of(0.5), Some(1.0));
    assert_eq!(speed_of(1.0), Some(2.0));
    assert_eq!(speed_of(1.5), Some(3.0));
    assert_eq!(speed_of(1.999_999_9), Some(1.999_999_9 * 2.0));
}

#[test]
fn cruises_from_the_easing_distance_on() {
    assert_eq!(speed_of(2.0), Some(4.0));
    assert_eq!(speed_of(2.000_001), Some(4.0));
    assert_eq!(speed_of(5.0), Some(4.0));
    assert_eq!(speed_of(1.0e30), Some(4.0));
    assert_eq!(speed_of(f32::MAX), Some(4.0));
    assert_eq!(speed_of(f32::INFINITY), Some(4.0));
}

#[test]
fn a_distance_that_is_no_number_gives_the_cruising_speed() {
    assert_eq!(speed_of(f32::NAN), Some(4.0));
}

#[test]
fn a_negative_distance_counts_as_arrived() {
    assert_eq!(speed_of(-1.0), None);
    assert_eq!(speed_of(-0.0), None);
}

#[test]
fn speed_is_the_smaller_of_twice_the_distance_and_the_cruising_speed() {
    let mut distance: f32 = 0.01;
    while distance < 8.0 {
        assert_eq!(speed_of(distance), Some((distance * 2.0).min(4.0)), "at {}", distance);
        distance *= 1.07;
    }
}

#[test]
fn arrival_is_decided_as_the_machine_compares() {
    let mut bits = ARRIVAL_BITS - 50;
    while bits < ARRIVAL_BITS + 50 {
        let distance = f32::from_bits(bits);
        assert_eq!(speed_of(distance).is_none(), distance < 0.01, "at {}", distance);
        bits += 1;
    }
}
