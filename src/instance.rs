//! One playable voice: clock division, event timing and the pending-event queue.
use vstd::prelude::*;
use vstd::seq_lib::lemma_multiset_commutative;

use crate::arpeggiator::{fresh_arpeggiator, latched, step_events, stepped, Arpeggiator, ArpeggiatorState};
use crate::error::EngineError;
use crate::fixed::{
    event_items, event_vec_insert, event_vec_new, event_vec_push, event_vec_slice, EventVec,
    EVENT_CAPACITY,
};
use crate::midi::NoteEvent;
use crate::pattern::{ArpeggioData, RepeatMode, ONE};
use crate::tempo_detector::{elapsed_ticks, TempoDetector};

verus! {

/// The number of pattern banks of an instance.
pub const N_PATTERNS: usize = 8;

/// Whether the events of `s` are in non-decreasing order of time.
pub open spec fn sorted_by_time(s: Seq<(u64, NoteEvent)>) -> bool {
    forall|i: int, j: int| 0 <= i < j < s.len() ==> (#[trigger] s[i]).0 <= (#[trigger] s[j]).0
}

/// `due` and `rest` split the queue `q` at `limit`: together they hold exactly
/// the events of `q`, each in order of time, `due` those before `limit` and
/// `rest` the others.
pub open spec fn drained(
    q: Seq<(u64, NoteEvent)>,
    limit: u64,
    due: Seq<(u64, NoteEvent)>,
    rest: Seq<(u64, NoteEvent)>,
) -> bool {
    &&& (due + rest).to_multiset() == q.to_multiset()
    &&& sorted_by_time(due)
    &&& sorted_by_time(rest)
    &&& forall|i: int| 0 <= i < due.len() ==> (#[trigger] due[i]).0 < limit
    &&& forall|i: int| 0 <= i < rest.len() ==> (#[trigger] rest[i]).0 >= limit
}

/// Where an event at time `t` joins the time-ordered queue `s`: after every
/// event from `from` on that is at or before `t`.
pub open spec fn insert_pos(s: Seq<(u64, NoteEvent)>, t: u64, from: int) -> int
    decreases s.len() - from,
{
    if from >= s.len() {
        s.len() as int
    } else if s[from].0 > t {
        from
    } else {
        insert_pos(s, t, from + 1)
    }
}

/// The queue `q` in order of time; events with equal times keep their queue order.
pub open spec fn time_sorted(q: Seq<(u64, NoteEvent)>) -> Seq<(u64, NoteEvent)>
    decreases q.len(),
{
    if q.len() == 0 {
        q
    } else {
        let s = time_sorted(q.drop_last());
        s.insert(insert_pos(s, q.last().0, 0), q.last())
    }
}

/// The first index from `from` on whose event is at or after `limit`, or the length.
pub open spec fn due_end(s: Seq<(u64, NoteEvent)>, limit: u64, from: int) -> int
    decreases s.len() - from,
{
    if from >= s.len() {
        s.len() as int
    } else if s[from].0 >= limit {
        from
    } else {
        due_end(s, limit, from + 1)
    }
}

/// The events of the queue `q` due before `limit`, in order of time.
pub open spec fn due_part(q: Seq<(u64, NoteEvent)>, limit: u64) -> Seq<(u64, NoteEvent)> {
    time_sorted(q).take(due_end(time_sorted(q), limit, 0))
}

/// The events of the queue `q` at or after `limit`, in order of time.
pub open spec fn kept_part(q: Seq<(u64, NoteEvent)>, limit: u64) -> Seq<(u64, NoteEvent)> {
    time_sorted(q).skip(due_end(time_sorted(q), limit, 0))
}

/// The absolute time of an event `offset` (in units of `ONE` steps) after `timestamp`,
/// with `time_per_step` ticks per step: `timestamp + round(time_per_step * offset)`,
/// at the end of time at most.
pub open spec fn event_time(timestamp: u64, time_per_step: u32, offset: u64) -> u64 {
    let t = timestamp + (time_per_step * offset + ONE / 2) / ONE as int;
    if t > u64::MAX {
        u64::MAX
    } else {
        t as u64
    }
}

/// The relative events `events` of a step at `timestamp`, at their absolute times.
pub open spec fn scheduled(timestamp: u64, time_per_step: u32, events: Seq<(u64, NoteEvent)>) -> Seq<
    (u64, NoteEvent),
> {
    events.map_values(|e: (u64, NoteEvent)| (event_time(timestamp, time_per_step, e.0), e.1))
}

/// Whether a timed event is a note-off.
pub open spec fn is_note_off() -> spec_fn((u64, NoteEvent)) -> bool {
    |e: (u64, NoteEvent)| e.1 is NoteOff
}

/// The playing position shown to the user, in units of `ONE` steps:
/// `(step - 1 + counter / ticks_per_step)` modulo the pattern length.
pub open spec fn playing_position(step: int, counter: int, ticks_per_step: int, n_steps: int) -> int {
    (((step - 1) * ticks_per_step + counter) % (n_steps * ticks_per_step)) * ONE / ticks_per_step
}

/// What changes in a voice while it plays, as mathematical values.
pub struct VoiceState {
    pub counter: u32,
    pub last_beat: Option<u64>,
    pub time_per_beat: u32,
    pub arp: ArpeggiatorState,
    pub pending: Seq<(u64, NoteEvent)>,
}

/// `v` with the arpeggiator `a`.
pub open spec fn with_arp(v: VoiceState, a: ArpeggiatorState) -> VoiceState {
    VoiceState { arp: a, ..v }
}

/// The voice `v`, dividing the clock by `ticks_per_step` and playing `pattern`,
/// after a clock pulse at `timestamp`; `None` when the events of the step that
/// the pulse plays do not fit in the queue.
pub open spec fn clock_tick(v: VoiceState, ticks_per_step: u32, pattern: ArpeggioData, timestamp: u64) -> Option<VoiceState> {
    let c = v.counter + 1;
    if c < ticks_per_step {
        Some(VoiceState { counter: c as u32, ..v })
    } else {
        let tpb = match v.last_beat {
            Some(last) => elapsed_ticks(last, timestamp),
            None => v.time_per_beat,
        };
        let steps = pattern.steps();
        let events = step_events(latched(v.arp, timestamp), pattern.repeat_mode, steps[v.arp.step as int % steps.len() as int]);
        if v.pending.len() + events.len() <= EVENT_CAPACITY {
            Some(VoiceState {
                counter: (c - ticks_per_step) as u32,
                last_beat: Some(timestamp),
                time_per_beat: tpb,
                arp: stepped(v.arp, steps.len() as int, timestamp),
                pending: v.pending + scheduled(timestamp, tpb, events),
            })
        } else {
            None
        }
    }
}

/// The voice `v` after a transport restart.
pub open spec fn restarted(v: VoiceState, ticks_per_step: u32) -> VoiceState {
    VoiceState {
        counter: (ticks_per_step - 1) as u32,
        last_beat: None,
        arp: ArpeggiatorState { step: 0, ..v.arp },
        ..v
    }
}

/// The voice `v` after it queues the transport message `e` and follows it;
/// `None` when the queue is full.
pub open spec fn transport_step(v: VoiceState, ticks_per_step: u32, pattern: ArpeggioData, e: (u64, NoteEvent)) -> Option<VoiceState> {
    if v.pending.len() >= EVENT_CAPACITY {
        None
    } else {
        let w = VoiceState { pending: v.pending.push(e), ..v };
        match e.1 {
            NoteEvent::Clock => clock_tick(w, ticks_per_step, pattern, e.0),
            NoteEvent::Start => Some(restarted(w, ticks_per_step)),
            _ => Some(w),
        }
    }
}

/// The voice `v` after it follows the transport messages `tr` in order; `None`
/// when its queue overflows on the way.
pub open spec fn followed(v: VoiceState, ticks_per_step: u32, pattern: ArpeggioData, tr: Seq<(u64, NoteEvent)>) -> Option<VoiceState>
    decreases tr.len(),
{
    if tr.len() == 0 {
        Some(v)
    } else {
        match followed(v, ticks_per_step, pattern, tr.drop_last()) {
            Some(w) => transport_step(w, ticks_per_step, pattern, tr.last()),
            None => None,
        }
    }
}

/// An overflow on a prefix of `tr` is an overflow on `tr`.
pub(crate) proof fn lemma_followed_prefix(v: VoiceState, ticks_per_step: u32, pattern: ArpeggioData, tr: Seq<(u64, NoteEvent)>, k: int)
    requires
        0 <= k <= tr.len(),
        followed(v, ticks_per_step, pattern, tr.take(k)) is None,
    ensures
        followed(v, ticks_per_step, pattern, tr) is None,
    decreases tr.len(),
{
    if k == tr.len() {
        assert(tr.take(k) =~= tr);
    } else {
        assert(tr.drop_last().take(k) =~= tr.take(k));
        lemma_followed_prefix(v, ticks_per_step, pattern, tr.drop_last(), k);
    }
}

/// One playable voice.
pub struct ArpeggiatorInstance {
    /// Clock pulses per pattern step, at least one.
    pub ticks_per_step: u32,
    /// Clock pulses counted towards the next step.
    pub tick_counter: u32,
    pub patterns: [ArpeggioData; 8],
    /// The bank that plays, below `N_PATTERNS`.
    pub active_pattern: usize,
    pub arp: Arpeggiator,
    pub tempo: TempoDetector,
    /// Events waiting to be delivered, with their absolute times.
    pub pending_events: EventVec,
}

impl ArpeggiatorInstance {
    /// The events waiting to be delivered, as timed events.
    pub open spec fn pending(&self) -> Seq<(u64, NoteEvent)> {
        event_items(self.pending_events)
    }

    /// What changes in the voice while it plays.
    pub open spec fn voice(&self) -> VoiceState {
        VoiceState {
            counter: self.tick_counter,
            last_beat: self.tempo.last_beat(),
            time_per_beat: self.tempo.spec_time_per_beat(),
            arp: self.arp@,
            pending: self.pending(),
        }
    }

    /// Clock pulses counted towards the next step.
    pub open spec fn counter(&self) -> u32 {
        self.tick_counter
    }

    /// The tempo estimate of the voice.
    pub open spec fn tempo_detector(&self) -> TempoDetector {
        self.tempo
    }

    /// Playable: a clock division, a valid bank, playable patterns and a well-formed arpeggiator.
    pub open spec fn wf(&self) -> bool {
        &&& self.ticks_per_step >= 1
        &&& self.counter() < u32::MAX
        &&& self.active_pattern < N_PATTERNS
        &&& forall|i: int| 0 <= i < N_PATTERNS ==> (#[trigger] self.patterns@[i]).wf()
        &&& self.arp.wf()
        &&& self.pending().len() <= EVENT_CAPACITY
    }

    /// The pattern that plays.
    pub open spec fn active(&self) -> ArpeggioData {
        self.patterns@[self.active_pattern as int]
    }

    /// A new voice: eight empty patterns of eight steps repeating by octaves,
    /// six clock pulses per step, a fresh arpeggiator, no tempo and nothing queued.
    pub open spec fn is_fresh(&self) -> bool {
        &&& self.ticks_per_step == 6
        &&& self.counter() == 0
        &&& self.active_pattern == 0
        &&& self.pending() == Seq::<(u64, NoteEvent)>::empty()
        &&& self.tempo_detector().last_beat() == None::<u64>
        &&& self.tempo_detector().spec_time_per_beat() == 0
        &&& self.arp@ == fresh_arpeggiator()
        &&& forall|i: int|
            0 <= i < N_PATTERNS ==> (#[trigger] self.patterns@[i]).steps() == Seq::new(
                8,
                |k: int| Seq::<crate::pattern::Entry>::empty(),
            ) && self.patterns@[i].repeat_mode == RepeatMode::Repeat(12)
    }

    /// A new voice; see `is_fresh`.
    pub fn new() -> (r: ArpeggiatorInstance)
        ensures
            r.wf(),
            r.is_fresh(),
    {
        let patterns = [
            ArpeggioData::empty(RepeatMode::Repeat(12), 8),
            ArpeggioData::empty(RepeatMode::Repeat(12), 8),
            ArpeggioData::empty(RepeatMode::Repeat(12), 8),
            ArpeggioData::empty(RepeatMode::Repeat(12), 8),
            ArpeggioData::empty(RepeatMode::Repeat(12), 8),
            ArpeggioData::empty(RepeatMode::Repeat(12), 8),
            ArpeggioData::empty(RepeatMode::Repeat(12), 8),
            ArpeggioData::empty(RepeatMode::Repeat(12), 8),
        ];
        ArpeggiatorInstance {
            ticks_per_step: 6,
            tick_counter: 0,
            arp: Arpeggiator::new(),
            patterns,
            active_pattern: 0,
            tempo: TempoDetector::new(),
            pending_events: event_vec_new(),
        }
    }

    /// Whether the voice can be played; see `wf`.
    pub fn is_playable(&self) -> (r: bool)
        ensures
            r == self.wf(),
    {
        if self.ticks_per_step == 0 || self.tick_counter == u32::MAX || self.active_pattern >= N_PATTERNS {
            return false;
        }
        let _ = event_vec_slice(&self.pending_events);
        let mut i: usize = 0;
        while i < N_PATTERNS
            invariant
                i <= N_PATTERNS,
                forall|k: int| 0 <= k < i ==> (#[trigger] self.patterns@[k]).wf(),
            decreases N_PATTERNS - i,
        {
            if !self.patterns[i].is_playable() {
                return false;
            }
            i += 1;
        }
        self.arp.is_well_formed()
    }

    /// Makes the very next clock pulse play the first step of the pattern.
    pub fn restart_transport(&mut self)
        requires
            old(self).wf(),
        ensures
            final(self).wf(),
            final(self).counter() == old(self).ticks_per_step - 1,
            final(self).tempo_detector().last_beat() == None::<u64>,
            final(self).tempo_detector().spec_time_per_beat() == old(self).tempo_detector().spec_time_per_beat(),
            final(self).arp@ == (crate::arpeggiator::ArpeggiatorState { step: 0, ..old(self).arp@ }),
            final(self).voice() == restarted(old(self).voice(), old(self).ticks_per_step),
            final(self).pending() == old(self).pending(),
            final(self).ticks_per_step == old(self).ticks_per_step,
            final(self).patterns == old(self).patterns,
            final(self).active_pattern == old(self).active_pattern,
    {
        self.tempo.reset();
        self.tick_counter = self.ticks_per_step - 1;
        self.arp.reset();
    }

    pub fn active_pattern(&self) -> (r: &ArpeggioData)
        requires
            self.wf(),
        ensures
            *r == self.active(),
    {
        &self.patterns[self.active_pattern]
    }

    /// Counts one clock pulse at `timestamp`. Every `ticks_per_step`-th pulse
    /// plays a step: the pulse is a beat for the tempo estimate, and the step's
    /// events are queued at `timestamp` plus their offsets scaled by that
    /// estimate. The queue's capacity is fatal to exceed: then nothing is queued
    /// and `QueueFull` tells the caller to stop.
    pub fn tick_clock(&mut self, timestamp: u64) -> (r: Result<(), EngineError>)
        requires
            old(self).wf(),
        ensures
            final(self).wf(),
            final(self).ticks_per_step == old(self).ticks_per_step,
            final(self).patterns == old(self).patterns,
            final(self).active_pattern == old(self).active_pattern,
            final(self).pending().len() >= old(self).pending().len(),
            forall|k: int| 0 <= k < old(self).pending().len() ==> #[trigger] final(self).pending()[k] == old(self).pending()[k],
            forall|k: int| old(self).pending().len() <= k < final(self).pending().len() ==> (#[trigger] final(self).pending()[k]).0 >= timestamp,
            r is Ok <==> clock_tick(old(self).voice(), old(self).ticks_per_step, old(self).active(), timestamp) is Some,
            r is Ok ==> final(self).voice() == clock_tick(old(self).voice(), old(self).ticks_per_step, old(self).active(), timestamp)->Some_0,
            ({
                let o = *old(self);
                let f = *final(self);
                let c = o.counter() + 1;
                if c < o.ticks_per_step {
                    &&& r is Ok
                    &&& f.counter() == c
                    &&& f.tempo_detector() == o.tempo_detector()
                    &&& f.arp@ == o.arp@
                    &&& f.pending() == o.pending()
                } else {
                    let steps = o.active().steps();
                    let events = step_events(
                        latched(o.arp@, timestamp),
                        o.active().repeat_mode,
                        steps[o.arp@.step as int % steps.len() as int],
                    );
                    let tpb = f.tempo_detector().spec_time_per_beat();
                    &&& f.counter() == c - o.ticks_per_step
                    &&& f.tempo_detector().last_beat() == Some(timestamp)
                    &&& tpb == match o.tempo_detector().last_beat() {
                        Some(last) => elapsed_ticks(last, timestamp),
                        None => o.tempo_detector().spec_time_per_beat(),
                    }
                    &&& f.arp@ == stepped(o.arp@, steps.len() as int, timestamp)
                    &&& (r is Ok <==> o.pending().len() + events.len() <= EVENT_CAPACITY)
                    &&& r is Ok ==> f.pending() == o.pending() + scheduled(timestamp, tpb, events)
                    &&& r is Err ==> r == Err::<(), EngineError>(EngineError::QueueFull)
                        && f.pending() == o.pending()
                }
            }),
    {
        self.tick_counter = self.tick_counter + 1;
        if self.tick_counter < self.ticks_per_step {
            return Ok(());
        }
        self.tick_counter = self.tick_counter - self.ticks_per_step;
        self.tempo.beat(timestamp);
        let time_per_beat = self.tempo.time_per_beat();
        let events = self.arp.process_step(&self.patterns[self.active_pattern], timestamp);
        let rel = event_vec_slice(&events);
        let ghost start = event_items(self.pending_events);
        let ghost pre = *self;
        if event_vec_slice(&self.pending_events).len() + rel.len() > EVENT_CAPACITY {
            return Err(EngineError::QueueFull);
        }
        let mut i: usize = 0;
        while i < rel.len()
            invariant
                i <= rel.len(),
                start.len() + rel@.len() <= EVENT_CAPACITY,
                self.ticks_per_step == pre.ticks_per_step,
                self.tick_counter == pre.tick_counter,
                self.patterns == pre.patterns,
                self.active_pattern == pre.active_pattern,
                self.arp == pre.arp,
                self.tempo == pre.tempo,
                event_items(self.pending_events) == start + scheduled(
                    timestamp,
                    time_per_beat,
                    rel@.take(i as int),
                ),
            decreases rel.len() - i,
        {
            let (offset, event) = rel[i];
            let at = absolute_time(timestamp, time_per_beat, offset);
            let ok = event_vec_push(&mut self.pending_events, (at, event));
            assert(rel@.take(i + 1) =~= rel@.take(i as int).push(rel@[i as int]));
            assert(event_items(self.pending_events) =~= start + scheduled(
                timestamp,
                time_per_beat,
                rel@.take(i + 1),
            ));
            i += 1;
        }
        assert(rel@.take(rel@.len() as int) =~= rel@);
        Ok(())
    }

    /// The playing position, for display only: see `playing_position`.
    pub fn currently_playing_tick(&self) -> (r: u64)
        requires
            self.wf(),
        ensures
            r == playing_position(
                self.arp@.step as int,
                self.counter() as int,
                self.ticks_per_step as int,
                self.active().steps().len() as int,
            ),
    {
        let n_steps = crate::fixed::pattern_vec_slice(&self.patterns[self.active_pattern].pattern).len() as u64;
        let tps = self.ticks_per_step as u64;
        let step = self.arp.step() as u64;
        proof {
            assert(n_steps * tps <= 64 * 0xFFFF_FFFF) by (nonlinear_arith)
                requires
                    1 <= n_steps <= 64,
                    1 <= tps <= 0xFFFF_FFFF,
            ;
            assert(step * tps <= 64 * 0xFFFF_FFFF) by (nonlinear_arith)
                requires
                    0 <= step <= 64,
                    1 <= tps <= 0xFFFF_FFFF,
            ;
            assert(tps <= n_steps * tps) by (nonlinear_arith)
                requires
                    1 <= n_steps,
                    1 <= tps,
            ;
        }
        let period: u64 = n_steps * tps;
        let shifted: u64 = step * tps + self.tick_counter as u64 + period - tps;
        let x = shifted % period;
        proof {
            let s = step as int;
            let c = self.tick_counter as int;
            let t = tps as int;
            let p = period as int;
            assert(shifted == p + ((s - 1) * t + c)) by (nonlinear_arith)
                requires
                    shifted == s * t + c + p - t,
            ;
            vstd::arithmetic::div_mod::lemma_mod_add_multiples_vanish((s - 1) * t + c, p);
        }
        x * 10000 / tps
    }

    /// Queues `event` at `timestamp`, unless the queue is full.
    pub fn add_pending_event(&mut self, timestamp: u64, event: NoteEvent) -> (r: Result<(), ()>)
        requires
            old(self).wf(),
        ensures
            final(self).wf(),
            r is Ok <==> old(self).pending().len() < EVENT_CAPACITY,
            final(self).pending() == if r is Ok {
                old(self).pending().push((timestamp, event))
            } else {
                old(self).pending()
            },
            final(self).arp == old(self).arp,
            final(self).counter() == old(self).counter(),
            final(self).tempo_detector() == old(self).tempo_detector(),
            final(self).ticks_per_step == old(self).ticks_per_step,
            final(self).patterns == old(self).patterns,
            final(self).active_pattern == old(self).active_pattern,
    {
        if event_vec_push(&mut self.pending_events, (timestamp, event)) {
            Ok(())
        } else {
            Err(())
        }
    }

    /// The queued events, in queue order.
    pub fn pending_events(&self) -> (r: &[(u64, NoteEvent)])
        ensures
            r@ == self.pending(),
    {
        event_vec_slice(&self.pending_events)
    }

    /// The queued note-off events, in queue order.
    pub fn pending_note_offs(&self) -> (r: EventVec)
        ensures
            event_items(r) == self.pending().filter(is_note_off()),
    {
        let q = event_vec_slice(&self.pending_events);
        let mut r = event_vec_new();
        let mut i: usize = 0;
        while i < q.len()
            invariant
                i <= q.len(),
                q@.len() <= EVENT_CAPACITY,
                event_items(r) == q@.take(i as int).filter(is_note_off()),
                event_items(r).len() <= i,
            decreases q.len() - i,
        {
            let e = q[i];
            proof {
                assert(q@.take(i + 1) =~= q@.take(i as int).push(e));
                q@.take(i as int).lemma_filter_push(e, is_note_off());
            }
            if let NoteEvent::NoteOff(..) = e.1 {
                let ok = event_vec_push(&mut r, e);
            }
            i += 1;
        }
        assert(q@.take(q@.len() as int) =~= q@);
        r
    }

    /// Takes out of the queue, in order of time, every event before `time_limit`.
    pub fn process_pending_events(&mut self, time_limit: u64) -> (r: EventVec)
        requires
            old(self).wf(),
        ensures
            final(self).wf(),
            drained(old(self).pending(), time_limit, event_items(r), final(self).pending()),
            event_items(r) == due_part(old(self).pending(), time_limit),
            final(self).pending() == kept_part(old(self).pending(), time_limit),
            final(self).arp == old(self).arp,
            final(self).counter() == old(self).counter(),
            final(self).tempo_detector() == old(self).tempo_detector(),
            final(self).ticks_per_step == old(self).ticks_per_step,
            final(self).patterns == old(self).patterns,
            final(self).active_pattern == old(self).active_pattern,
    {
        let sorted = sort_by_time(event_vec_slice(&self.pending_events));
        let s = event_vec_slice(&sorted);
        let mut end: usize = 0;
        while end < s.len() && s[end].0 < time_limit
            invariant
                end <= s.len(),
                s@ == time_sorted(old(self).pending()),
                due_end(s@, time_limit, 0) == due_end(s@, time_limit, end as int),
                forall|k: int| 0 <= k < end ==> (#[trigger] s@[k]).0 < time_limit,
            decreases s.len() - end,
        {
            end += 1;
        }
        let due = copy_range(s, 0, end);
        let rest = copy_range(s, end, s.len());
        proof {
            assert(s@ =~= event_items(due) + event_items(rest));
            assert(event_items(due) =~= s@.take(end as int));
            assert(event_items(rest) =~= s@.skip(end as int));
            assert(forall|k: int| end <= k < s@.len() ==> (#[trigger] s@[k]).0 >= time_limit) by {
                assert forall|k: int| end <= k < s@.len() implies (#[trigger] s@[k]).0 >= time_limit by {
                    if end < s@.len() {
                        assert(s@[end as int].0 >= time_limit);
                    }
                }
            }
        }
        self.pending_events = rest;
        due
    }
}

/// `timestamp` plus `offset` steps of `time_per_step` ticks, rounded; see `event_time`.
fn absolute_time(timestamp: u64, time_per_step: u32, offset: u64) -> (r: u64)
    ensures
        r == event_time(timestamp, time_per_step, offset),
{
    proof {
        assert(time_per_step as int * offset as int <= 0xFFFF_FFFF * 0xFFFF_FFFF_FFFF_FFFF) by (nonlinear_arith)
            requires
                0 <= time_per_step <= 0xFFFF_FFFF,
                0 <= offset <= 0xFFFF_FFFF_FFFF_FFFF,
        ;
    }
    let delta: u128 = (time_per_step as u128 * offset as u128 + 5000) / 10000;
    let t: u128 = timestamp as u128 + delta;
    if t > u64::MAX as u128 {
        u64::MAX
    } else {
        t as u64
    }
}

/// The events of `s` from index `start` up to `end`, in a queue of their own.
fn copy_range(s: &[(u64, NoteEvent)], start: usize, end: usize) -> (r: EventVec)
    requires
        start <= end <= s@.len() <= EVENT_CAPACITY,
    ensures
        event_items(r) == s@.subrange(start as int, end as int),
{
    let mut r = event_vec_new();
    let mut i: usize = start;
    while i < end
        invariant
            start <= i <= end <= s@.len() <= EVENT_CAPACITY,
            event_items(r) == s@.subrange(start as int, i as int),
        decreases end - i,
    {
        let ok = event_vec_push(&mut r, s[i]);
        assert(event_items(r) =~= s@.subrange(start as int, i + 1));
        i += 1;
    }
    r
}

proof fn lemma_insert_keeps_sorted(s: Seq<(u64, NoteEvent)>, p: int, e: (u64, NoteEvent))
    requires
        sorted_by_time(s),
        0 <= p <= s.len(),
        forall|k: int| 0 <= k < p ==> (#[trigger] s[k]).0 <= e.0,
        p < s.len() ==> s[p].0 > e.0,
    ensures
        sorted_by_time(s.insert(p, e)),
{
    let t = s.insert(p, e);
    s.insert_ensures(p, e);
    assert forall|a: int, b: int| 0 <= a < b < t.len() implies (#[trigger] t[a]).0 <= (#[trigger] t[b]).0 by {
        if b < p {
        } else if b == p {
        } else if a < p {
            assert(t[b] == s[b - 1]);
            assert(s[p].0 <= s[b - 1].0);
        } else if a == p {
            assert(t[b] == s[b - 1]);
            assert(s[p].0 <= s[b - 1].0);
        } else {
            assert(t[a] == s[a - 1]);
            assert(t[b] == s[b - 1]);
        }
    }
}

proof fn lemma_insert_multiset(s: Seq<(u64, NoteEvent)>, p: int, e: (u64, NoteEvent))
    requires
        0 <= p <= s.len(),
    ensures
        s.insert(p, e).to_multiset() == s.to_multiset().insert(e),
{
    let left = s.subrange(0, p);
    let right = s.subrange(p, s.len() as int);
    assert(s =~= left + right);
    assert(s.insert(p, e) =~= left.push(e) + right);
    lemma_multiset_commutative(left, right);
    lemma_multiset_commutative(left.push(e), right);
    left.to_multiset_ensures();
    assert(s.insert(p, e).to_multiset() =~= s.to_multiset().insert(e));
}

/// The events of `q` in non-decreasing order of time.
fn sort_by_time(q: &[(u64, NoteEvent)]) -> (r: EventVec)
    requires
        q@.len() <= EVENT_CAPACITY,
    ensures
        sorted_by_time(event_items(r)),
        event_items(r).to_multiset() == q@.to_multiset(),
        event_items(r).len() == q@.len(),
        event_items(r) == time_sorted(q@),
{
    let mut r = event_vec_new();
    assert(q@.take(0) =~= event_items(r));
    let mut i: usize = 0;
    while i < q.len()
        invariant
            i <= q.len(),
            q@.len() <= EVENT_CAPACITY,
            event_items(r).len() == i,
            sorted_by_time(event_items(r)),
            event_items(r).to_multiset() == q@.take(i as int).to_multiset(),
            event_items(r) == time_sorted(q@.take(i as int)),
        decreases q.len() - i,
    {
        let e = q[i];
        let s = event_vec_slice(&r);
        let mut p: usize = 0;
        while p < s.len() && s[p].0 <= e.0
            invariant
                p <= s.len(),
                insert_pos(s@, e.0, 0) == insert_pos(s@, e.0, p as int),
                forall|k: int| 0 <= k < p ==> (#[trigger] s@[k]).0 <= e.0,
            decreases s.len() - p,
        {
            p += 1;
        }
        let ghost before = event_items(r);
        let ok = event_vec_insert(&mut r, p, e);
        proof {
            lemma_insert_keeps_sorted(before, p as int, e);
            lemma_insert_multiset(before, p as int, e);
            assert(q@.take(i + 1) =~= q@.take(i as int).push(e));
            assert(q@.take(i + 1).drop_last() =~= q@.take(i as int));
            q@.take(i as int).to_multiset_ensures();
        }
        i += 1;
    }
    assert(q@.take(q@.len() as int) =~= q@);
    r
}

} // verus!

verus! {

/// The events of the deliveries `ds`, one after another.
pub open spec fn concat(ds: Seq<Seq<(u64, NoteEvent)>>) -> Seq<(u64, NoteEvent)>
    decreases ds.len(),
{
    if ds.len() == 0 {
        Seq::empty()
    } else {
        concat(ds.drop_last()) + ds.last()
    }
}

/// Every event of `d` lies at or after `limit` when `d` was taken from a queue
/// `q` that had nothing before `limit`.
pub(crate) proof fn lemma_taken_from(
    q: Seq<(u64, NoteEvent)>,
    limit: u64,
    l2: u64,
    d: Seq<(u64, NoteEvent)>,
    rest: Seq<(u64, NoteEvent)>,
)
    requires
        drained(q, l2, d, rest),
        forall|k: int| 0 <= k < q.len() ==> (#[trigger] q[k]).0 >= limit,
    ensures
        forall|b: int| 0 <= b < d.len() ==> (#[trigger] d[b]).0 >= limit,
{
    assert forall|b: int| 0 <= b < d.len() implies (#[trigger] d[b]).0 >= limit by {
        let x = d[b];
        lemma_multiset_commutative(d, rest);
        (d + rest).to_multiset_ensures();
        q.to_multiset_ensures();
        assert((d + rest)[b] == x);
        assert((d + rest).contains(x));
        assert((d + rest).to_multiset().count(x) > 0);
        assert(q.to_multiset().count(x) > 0);
        let k = choose|k: int| 0 <= k < q.len() && q[k] == x;
        assert(q[k].0 >= limit);
    }
}

/// Draining a queue again and again, with time limits that never decrease,
/// delivers its events in order of time, each exactly once: the deliveries
/// one after another are sorted, hold with what is left exactly the events of
/// the queue, all lie before the last limit, and what is left lies at or after it.
/// `queues[m]` is the queue before the `m`-th drain, at `limits[m]`, which
/// delivers `deliveries[m]`.
pub proof fn lemma_drains_deliver_in_order(
    queues: Seq<Seq<(u64, NoteEvent)>>,
    limits: Seq<u64>,
    deliveries: Seq<Seq<(u64, NoteEvent)>>,
)
    requires
        deliveries.len() == limits.len(),
        queues.len() == deliveries.len() + 1,
        forall|m: int| 0 <= m < deliveries.len() ==> drained(#[trigger] queues[m], limits[m], deliveries[m], queues[m + 1]),
        forall|a: int, b: int| 0 <= a < b < limits.len() ==> (#[trigger] limits[a]) <= (#[trigger] limits[b]),
    ensures
        sorted_by_time(concat(deliveries)),
        (concat(deliveries) + queues.last()).to_multiset() == queues[0].to_multiset(),
        deliveries.len() > 0 ==> forall|k: int| 0 <= k < concat(deliveries).len() ==> (#[trigger] concat(deliveries)[k]).0 < limits.last(),
        deliveries.len() > 0 ==> forall|k: int| 0 <= k < queues.last().len() ==> (#[trigger] queues.last()[k]).0 >= limits.last(),
    decreases deliveries.len(),
{
    let n = deliveries.len() as int;
    if n == 0 {
        assert(concat(deliveries) + queues.last() =~= queues[0]);
    } else {
        let qs = queues.drop_last();
        let ls = limits.drop_last();
        let dss = deliveries.drop_last();
        assert forall|m: int| 0 <= m < dss.len() implies drained(#[trigger] qs[m], ls[m], dss[m], qs[m + 1]) by {
            assert(drained(queues[m], limits[m], deliveries[m], queues[m + 1]));
        }
        assert forall|a: int, b: int| 0 <= a < b < ls.len() implies (#[trigger] ls[a]) <= (#[trigger] ls[b]) by {
            assert(limits[a] <= limits[b]);
        }
        lemma_drains_deliver_in_order(qs, ls, dss);
        let c = concat(dss);
        let d = deliveries[n - 1];
        let qk = queues[n - 1];
        let qn = queues[n];
        assert(drained(qk, limits[n - 1], d, qn));
        assert(qs.last() == qk);
        if n > 1 {
            assert(limits[n - 2] <= limits[n - 1]);
            lemma_taken_from(qk, limits[n - 2], limits[n - 1], d, qn);
        }
        let cd = c + d;
        assert(concat(deliveries) == cd);
        assert forall|a: int, b: int| 0 <= a < b < cd.len() implies (#[trigger] cd[a]).0 <= (#[trigger] cd[b]).0 by {
            if b < c.len() {
                assert(cd[a] == c[a] && cd[b] == c[b]);
            } else if a >= c.len() {
                assert(cd[a] == d[a - c.len()] && cd[b] == d[b - c.len()]);
            } else {
                assert(cd[a] == c[a] && cd[b] == d[b - c.len()]);
            }
        }
        assert forall|k: int| 0 <= k < cd.len() implies (#[trigger] cd[k]).0 < limits.last() by {
            if k < c.len() {
                assert(cd[k] == c[k]);
                assert(limits[n - 2] <= limits[n - 1]);
            } else {
                assert(cd[k] == d[k - c.len()]);
            }
        }
        lemma_multiset_commutative(c, d);
        lemma_multiset_commutative(cd, qn);
        lemma_multiset_commutative(d, qn);
        lemma_multiset_commutative(c, qk);
        assert((cd + qn).to_multiset() =~= queues[0].to_multiset());
    }
}

} // verus!
