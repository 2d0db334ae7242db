//! Timed intent events and their actions.

use vstd::prelude::*;

verus! {

/// What an event asks of the engine. Strengths are fixed-point values in
/// steps of `crate::units::SCALE`; a motor index of `-1` addresses every
/// motor at once.
#[derive(Clone, Copy, Debug, PartialEq, Eq, Structural)]
pub enum BPActionType {
    /// Halt everything: clear the active events and all intensity floors.
    Stop,
    /// Hold a motor at an elevated floor for the event's lifetime.
    Vibrate { strength: i64, motor: i8 },
    /// Hold a sustained power level; same shape as `Vibrate`, different
    /// default lifetime.
    Power { strength: i64, motor: i8 },
    /// Reserved for stroking actuators; accepted but not executed.
    Stroke,
}

/// A timed intent: an action together with its remaining lifetime in
/// microseconds. `finished` is set once the lifetime underflows and marks
/// the event for retirement.
#[derive(Clone, Copy, Debug, PartialEq, Eq, Structural)]
pub struct BPSimEvent {
    pub finished: bool,
    pub time_remaining_us: u64,
    pub action: BPActionType,
}

impl BPSimEvent {
    /// A fresh, unfinished event with the given lifetime.
    pub fn new(initial_duration_us: u64, action: BPActionType) -> (ev: BPSimEvent)
        ensures
            ev == (BPSimEvent {
                finished: false,
                time_remaining_us: initial_duration_us,
                action: action,
            }),
    {
        BPSimEvent { finished: false, time_remaining_us: initial_duration_us, action: action }
    }

    /// The terminal stop event: already finished, and its only effect is
    /// the force stop applied when it is handed to the engine.
    pub fn new_stop_event() -> (ev: BPSimEvent)
        ensures
            ev == (BPSimEvent {
                finished: true,
                time_remaining_us: 0u64,
                action: BPActionType::Stop,
            }),
    {
        BPSimEvent { finished: true, time_remaining_us: 0u64, action: BPActionType::Stop }
    }

    /// The event after `time_passed_us` microseconds: the lifetime shrinks,
    /// saturating at zero, and the event is finished exactly when the
    /// subtraction underflows. A finished event no longer changes.
    pub open spec fn spec_pass_time(self, time_passed_us: u64) -> BPSimEvent {
        if self.finished {
            self
        } else if time_passed_us > self.time_remaining_us {
            BPSimEvent { finished: true, time_remaining_us: 0u64, action: self.action }
        } else {
            BPSimEvent {
                finished: false,
                time_remaining_us: (self.time_remaining_us - time_passed_us) as u64,
                action: self.action,
            }
        }
    }

    /// Subtracts elapsed time from the remaining lifetime, clamping at zero
    /// and marking the event finished on underflow.
    pub fn pass_time(&mut self, time_passed_us: u64)
        ensures
            *final(self) == old(self).spec_pass_time(time_passed_us),
    {
        if self.finished {
            return ;
        }
        if time_passed_us > self.time_remaining_us {
            self.finished = true;
            self.time_remaining_us = 0;
        } else {
            self.time_remaining_us = self.time_remaining_us - time_passed_us;
        }
    }
}

} // verus!
