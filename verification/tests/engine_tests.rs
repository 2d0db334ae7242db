//! Tests for the simulation engine: decay, floors, ticks and stops.
//!
//! Intensities are fixed-point millionths: `600_000` is an intensity of
//! `0.6`, and durations are microseconds.

use std::collections::VecDeque;

use bpsim::effector::{BPEffector, BPEffectorType};
use bpsim::event::{BPActionType, BPSimEvent};
use bpsim::sim::BPSimulator;

#[test]
fn decay_formula_exact_values() {
    // no elapsed time: only the linear reduction applies
    assert_eq!(
        BPSimulator::calc_intensity_decay(0, 1_000_000, 5_000, 200_000),
        995_000
    );
    // exactly one half-life halves the intensity before the reduction
    assert_eq!(
        BPSimulator::calc_intensity_decay(200_000, 1_000_000, 5_000, 200_000),
        495_000
    );
    // half of a half-life, from 0.6
    assert_eq!(
        BPSimulator::calc_intensity_decay(100_000, 600_000, 5_000, 200_000),
        416_500
    );
}

#[test]
fn decay_never_raises_and_never_goes_negative() {
    let mut v: i64 = 1_000_000;
    for _ in 0..200 {
        let next = BPSimulator::calc_intensity_decay(16_000, v, 5_000, 200_000);
        assert!(next <= v);
        assert!(next >= 0);
        v = next;
    }
    // the linear reduction guarantees zero is actually reached
    assert_eq!(v, 0);
}

#[test]
fn pass_time_clamps_and_finishes_only_on_underflow() {
    let mut ev = BPSimEvent::new(100, BPActionType::Stroke);
    ev.pass_time(100);
    assert!(!ev.finished);
    assert_eq!(ev.time_remaining_us, 0);
    ev.pass_time(1);
    assert!(ev.finished);
    assert_eq!(ev.time_remaining_us, 0);
    // a finished event no longer changes
    ev.pass_time(50);
    assert!(ev.finished);
    assert_eq!(ev.time_remaining_us, 0);
}

#[test]
fn scenario_floor_holds_then_event_expires_then_decay() {
    let mut sim = BPSimulator::new(0);
    sim.add_multiple_vib_effectors(2);
    // a 0.6 vibration on motor 0 for two seconds, applied at t = 0
    sim.add_event(BPSimEvent::new(
        2_000_000,
        BPActionType::Vibrate { strength: 600_000, motor: 0 },
    ));
    // at t = 1 s the floor dominates the decayed intensity
    sim.process_tick(1_000_000);
    assert_eq!(sim.get_vibrator_intensities(), vec![600_000, 0]);
    // at t = 2.1 s the event expires: the intensity computed this tick was
    // still clamped to the floor, which only then returns to zero
    sim.process_tick(2_100_000);
    assert_eq!(sim.get_vibrator_intensities(), vec![600_000, 0]);
    // from here decay proceeds from whatever was last computed
    sim.process_tick(2_200_000);
    assert_eq!(sim.get_vibrator_intensities(), vec![416_500, 0]);
    sim.process_tick(2_300_000);
    assert_eq!(sim.get_vibrator_intensities(), vec![287_591, 0]);
}

#[test]
fn threshold_snaps_small_intensities_to_exactly_zero() {
    let mut sim = BPSimulator::new(0);
    sim.add_multiple_vib_effectors(1);
    sim.add_event(BPSimEvent::new(
        1_000_000,
        BPActionType::Vibrate { strength: 12_000, motor: 0 },
    ));
    sim.process_tick(10);
    // the floor holds the intensity at 0.012 while the event is active
    assert_eq!(sim.get_vibrator_intensities(), vec![12_000]);
    sim.force_stop();
    // with the floor gone the decayed value 6_999 is under the 10_000
    // threshold and snaps to exactly zero
    sim.process_tick(20);
    assert_eq!(sim.get_vibrator_intensities(), vec![0]);
}

#[test]
fn force_stop_clears_events_and_floors() {
    let mut sim = BPSimulator::new(0);
    sim.add_multiple_vib_effectors(2);
    // one event on every motor, one on motor 1 alone
    sim.add_event(BPSimEvent::new(
        10_000_000,
        BPActionType::Vibrate { strength: 600_000, motor: -1 },
    ));
    sim.add_event(BPSimEvent::new(
        10_000_000,
        BPActionType::Power { strength: 200_000, motor: 1 },
    ));
    sim.process_tick(100_000);
    assert_eq!(sim.get_vibrator_intensities(), vec![600_000, 800_000]);
    sim.force_stop();
    // no floor holds the intensities up any more, so they decay freely
    sim.process_tick(200_000);
    assert_eq!(sim.get_vibrator_intensities(), vec![416_500, 557_000]);
    // and no event remains to re-raise a floor later
    sim.process_tick(10_200_000);
    assert_eq!(sim.get_vibrator_intensities(), vec![0, 0]);
}

#[test]
fn stop_event_acts_like_force_stop() {
    let mut sim = BPSimulator::new(0);
    sim.add_multiple_vib_effectors(1);
    sim.add_event(BPSimEvent::new(
        10_000_000,
        BPActionType::Vibrate { strength: 600_000, motor: 0 },
    ));
    sim.process_tick(100_000);
    assert_eq!(sim.get_vibrator_intensities(), vec![600_000]);
    sim.add_event(BPSimEvent::new_stop_event());
    sim.process_tick(200_000);
    assert_eq!(sim.get_vibrator_intensities(), vec![416_500]);
}

#[test]
fn floors_never_go_negative() {
    let mut sim = BPSimulator::new(0);
    sim.add_multiple_vib_effectors(1);
    // a negative strength cannot push the floor below zero
    sim.add_event(BPSimEvent::new(
        1_000_000,
        BPActionType::Vibrate { strength: -500_000, motor: 0 },
    ));
    sim.process_tick(100_000);
    assert_eq!(sim.get_vibrator_intensities(), vec![0]);
}

#[test]
fn event_queue_applies_in_order() {
    let mut sim = BPSimulator::new(0);
    sim.add_multiple_vib_effectors(1);
    let mut queue: VecDeque<BPSimEvent> = VecDeque::new();
    queue.push_back(BPSimEvent::new(
        1_000_000,
        BPActionType::Vibrate { strength: -200_000, motor: 0 },
    ));
    queue.push_back(BPSimEvent::new(
        1_000_000,
        BPActionType::Vibrate { strength: 300_000, motor: 0 },
    ));
    sim.add_event_queue(queue);
    // clamped at zero first, then raised: 300_000, not 100_000
    sim.process_tick(0);
    assert_eq!(sim.get_vibrator_intensities(), vec![300_000]);
}

#[test]
fn backward_clock_skips_the_tick() {
    let mut sim = BPSimulator::new(1_000_000);
    sim.add_multiple_vib_effectors(1);
    sim.add_event(BPSimEvent::new(
        2_000_000,
        BPActionType::Vibrate { strength: 600_000, motor: 0 },
    ));
    // earlier than the last tick: nothing moves at all
    sim.process_tick(500_000);
    assert_eq!(sim.get_vibrator_intensities(), vec![0]);
    // a tick at the very same instant is processed with zero elapsed time
    sim.process_tick(1_000_000);
    assert_eq!(sim.get_vibrator_intensities(), vec![600_000]);
}

#[test]
fn out_of_order_effector_is_skipped() {
    let mut sim = BPSimulator::new(0);
    sim.add_effector(BPEffector::new(BPEffectorType::Vibrates { intensity: 0 }, 1));
    // index 1 with no motor 0 in front of it would leave a gap
    assert_eq!(sim.get_vibrator_intensities(), vec![]);
    let mut sim = BPSimulator::new(0);
    sim.add_effector(BPEffector::new(BPEffectorType::Vibrates { intensity: 0 }, 0));
    sim.add_effector(BPEffector::new(BPEffectorType::Vibrates { intensity: 0 }, 1));
    assert_eq!(sim.get_vibrator_intensities(), vec![0, 0]);
}

#[test]
fn stroke_effectors_and_events_are_accepted_but_inert() {
    let mut sim = BPSimulator::new(0);
    sim.add_effector(BPEffector::new(BPEffectorType::Strokes { amplitude: 0 }, 0));
    sim.add_event(BPSimEvent::new(1_000_000, BPActionType::Stroke));
    sim.process_tick(100_000);
    // a stroking effector contributes nothing to the vibration vector
    assert_eq!(sim.get_vibrator_intensities(), vec![]);
}

#[test]
fn reset_for_new_device_drops_the_effector_set() {
    let mut sim = BPSimulator::new(0);
    sim.add_multiple_vib_effectors(3);
    sim.add_event(BPSimEvent::new(
        1_000_000,
        BPActionType::Vibrate { strength: 600_000, motor: -1 },
    ));
    sim.reset_for_new_device();
    assert_eq!(sim.get_vibrator_intensities(), vec![]);
    sim.add_multiple_vib_effectors(1);
    sim.process_tick(100_000);
    assert_eq!(sim.get_vibrator_intensities(), vec![0]);
}
