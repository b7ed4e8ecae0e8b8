//! What the engine exchanges with the platform's audio and MIDI driver.
use vstd::prelude::*;

use crate::midi::MidiEvent;

verus! {

/// A message received during a buffer, `time` ticks after the buffer's start.
#[derive(Copy, Clone, Debug, PartialEq, Eq, Structural)]
pub struct TimestampedMidiEvent {
    pub time: u32,
    pub event: MidiEvent,
}

} // verus!
