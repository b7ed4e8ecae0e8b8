//! Tempo estimation from the spacing of successive beat pulses.
use vstd::prelude::*;

verus! {

/// The elapsed ticks from `last` to `now`, held to the range of a `u32`
/// (a pulse that arrives before the previous one counts as no time at all).
pub open spec fn elapsed_ticks(last: u64, now: u64) -> u32 {
    if now <= last {
        0
    } else if now - last > u32::MAX {
        u32::MAX
    } else {
        (now - last) as u32
    }
}

pub struct TempoDetector {
    last_timestamp: Option<u64>,
    time_per_beat: u32,
}

impl TempoDetector {
    /// The time of the last pulse since the last reset, if any.
    pub closed spec fn last_beat(&self) -> Option<u64> {
        self.last_timestamp
    }

    /// The current estimate, in ticks per beat.
    pub closed spec fn spec_time_per_beat(&self) -> u32 {
        self.time_per_beat
    }

    pub fn new() -> (r: TempoDetector)
        ensures
            r.last_beat() == None::<u64>,
            r.spec_time_per_beat() == 0,
    {
        TempoDetector { last_timestamp: None, time_per_beat: 0 }
    }

    pub fn time_per_beat(&self) -> (r: u32)
        ensures
            r == self.spec_time_per_beat(),
    {
        self.time_per_beat
    }

    /// Records a pulse at `timestamp`; the estimate becomes the time since the
    /// previous pulse, and stays as it was for the first pulse after a reset.
    pub fn beat(&mut self, timestamp: u64)
        ensures
            final(self).last_beat() == Some(timestamp),
            final(self).spec_time_per_beat() == match old(self).last_beat() {
                Some(last) => elapsed_ticks(last, timestamp),
                None => old(self).spec_time_per_beat(),
            },
    {
        if let Some(last_timestamp) = self.last_timestamp {
            self.time_per_beat = if timestamp <= last_timestamp {
                0
            } else if timestamp - last_timestamp > u32::MAX as u64 {
                u32::MAX
            } else {
                (timestamp - last_timestamp) as u32
            };
        }
        self.last_timestamp = Some(timestamp);
    }

    /// Forgets the last pulse; the estimate is kept.
    pub fn reset(&mut self)
        ensures
            final(self).last_beat() == None::<u64>,
            final(self).spec_time_per_beat() == old(self).spec_time_per_beat(),
    {
        self.last_timestamp = None;
    }
}

} // verus!
