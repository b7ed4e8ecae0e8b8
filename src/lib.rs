//! A real-time MIDI arpeggiator and step-sequencer engine.
//!
//! Live note input (or a configured scale) is turned into timed note events
//! according to step patterns, clocked by an internal or external MIDI clock.
//! Fractional quantities (lengths, velocities, performance modifiers) are fixed
//! point numbers whose unit is `ONE`.
pub mod application;
pub mod arpeggiator;
pub mod driver;
pub mod pattern;
pub mod error;
pub mod fixed;
pub mod instance;
pub mod midi;
pub mod tempo_detector;

pub use application::ArpApplication;
pub use arpeggiator::{Arpeggiator, ClockMode};
pub use driver::TimestampedMidiEvent;
pub use pattern::{ArpeggioData, Entry, RepeatMode, ONE};
pub use error::{EngineError, LoadError};
pub use instance::ArpeggiatorInstance;
pub use midi::{Channel, MidiEvent, Note, NoteEvent};
pub use tempo_detector::TempoDetector;
