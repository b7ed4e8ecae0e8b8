//! The conditions under which the engine cannot go on.
use vstd::prelude::*;

verus! {

/// A fixed capacity was exceeded or the configuration broke an invariant.
/// None of these is recoverable: each means that the patterns, clock settings or
/// routing go beyond what the engine was sized for.
#[derive(Copy, Clone, Debug, PartialEq, Eq, Structural)]
pub enum EngineError {
    /// A seventeenth distinct note was held.
    ChordFull,
    /// An instance's pending-event queue could not take all scheduled events.
    QueueFull,
    /// The routing matrix is not square or has a link from a later instance to an earlier one.
    InvalidRoutingMatrix,
}

/// Why a saved configuration cannot be run.
#[derive(Copy, Clone, Debug, PartialEq, Eq, Structural)]
pub enum LoadError {
    /// It holds no voice.
    NoInstances,
    /// Its routing matrix does not have a row and a column per voice, or links
    /// a voice to an earlier one.
    RoutingMatrix,
    /// A voice has no clock division, no playable pattern or a broken state.
    InvalidInstance,
    /// The internal clock interval is zero.
    ClockInterval,
}

} // verus!
