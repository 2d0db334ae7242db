//! Effectors: the controllable output channels of the bound device.

use vstd::prelude::*;

verus! {

/// The kind of channel and its current state. Intensities and amplitudes
/// are fixed-point values in steps of `crate::units::SCALE`.
#[derive(Clone, Copy, Debug, PartialEq, Eq, Structural)]
pub enum BPEffectorType {
    /// A vibration motor holding its current intensity.
    Vibrates { intensity: i64 },
    /// A stroking actuator; accepted but not driven yet.
    Strokes { amplitude: i64 },
}

/// One controllable output channel, bound to the physical motor with the
/// given index.
#[derive(Clone, Copy, Debug, PartialEq, Eq, Structural)]
pub struct BPEffector {
    pub effector_type: BPEffectorType,
    pub index: i8,
}

impl BPEffector {
    /// A vibration channel never holds a negative intensity: it is created
    /// at zero and the decay step keeps it non-negative.
    pub open spec fn wf(self) -> bool {
        match self.effector_type {
            BPEffectorType::Vibrates { intensity } => intensity >= 0,
            BPEffectorType::Strokes { .. } => true,
        }
    }

    /// A new channel of the given kind for the given motor index.
    pub fn new(effector_type: BPEffectorType, index: i8) -> (e: BPEffector)
        ensures
            e == (BPEffector { effector_type: effector_type, index: index }),
    {
        BPEffector { effector_type: effector_type, index: index }
    }
}

} // verus!
