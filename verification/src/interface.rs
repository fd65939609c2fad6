//! Commands a control surface can send to the two engines.
//!
//! The listener that decodes hardware events into these commands lives
//! outside the engine; the engines only consume the two enums below from
//! bounded queues, polled without blocking once per cycle.
use vstd::prelude::*;

verus! {

/// Command for the loop register engine.
#[derive(Clone, Copy, Debug, PartialEq, Eq, Structural)]
pub enum LoopMessage {
    /// Turns the addressed loop on if it is off, off if it is on, and, if
    /// the slot is empty and nothing is recording, arms it to start
    /// recording at the next measure boundary.
    ToggleLoop(usize),
    /// Asks the engine to stop the loop that is recording at the end of
    /// the current measure.
    StopRecording,
}

/// Command for the playback engine.
#[derive(Clone, Copy, Debug, PartialEq, Eq, Structural)]
pub enum EffectMessage {
    /// Turns dynamic-range compression on and off.
    ToggleCompression,
    /// Turns waveshaping distortion on and off.
    ToggleDistortion,
}

} // verus!
