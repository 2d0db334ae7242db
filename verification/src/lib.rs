//! A tick-driven intensity simulation for haptic actuators.
//!
//! The crate turns timed intent events (from a command log or injected
//! directly) into a smoothly decaying per-motor intensity vector. All
//! intensities, strengths and floors are fixed-point values in millionths
//! of a unit, and all durations are microseconds, so that the whole engine
//! is plain integer arithmetic with proved bounds.

pub mod bytes;
pub mod command;
pub mod decay;
pub mod device;
pub mod effector;
pub mod event;
pub mod reader;
pub mod sim;
pub mod units;
