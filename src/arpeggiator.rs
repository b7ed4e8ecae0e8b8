//! The chord tracker and step player of one voice.
use vstd::prelude::*;

use crate::error::EngineError;
use crate::fixed::{
    event_items, event_vec_new, event_vec_push, note_items, note_vec_clone, note_vec_new,
    note_vec_push, note_vec_slice, step_vec_slice, EventVec, NoteVec, EVENT_CAPACITY,
    NOTE_CAPACITY, PATTERN_CAPACITY, STEP_CAPACITY,
};
use crate::midi::{pitch, Channel, Note, NoteEvent};
use crate::pattern::{hit_length, resolve, ArpeggioData, Entry, RepeatMode, ONE};

verus! {

/// Where the clock pulses come from.
#[derive(Copy, Clone, Debug, PartialEq, Eq, Structural)]
pub enum ClockMode {
    Internal,
    External,
    /// External while an external clock is present, internal otherwise.
    Auto,
}

// ---------------------------------------------------------------------------
// Chords as sequences of pitches
// ---------------------------------------------------------------------------

/// Pitches below `n`.
pub open spec fn below(n: Note) -> spec_fn(Note) -> bool {
    |x: Note| x.0 < n.0
}

/// Pitches above `n`.
pub open spec fn above(n: Note) -> spec_fn(Note) -> bool {
    |x: Note| x.0 > n.0
}

/// Pitches other than `n`.
pub open spec fn other_than(n: Note) -> spec_fn(Note) -> bool {
    |x: Note| x != n
}

/// The chord `c` with `n` put in its place by pitch.
pub open spec fn inserted(c: Seq<Note>, n: Note) -> Seq<Note> {
    c.filter(below(n)) + seq![n] + c.filter(above(n))
}

/// The chord `c` without `n`.
pub open spec fn removed(c: Seq<Note>, n: Note) -> Seq<Note> {
    c.filter(other_than(n))
}

/// Whether two pitches are a whole number of octaves apart.
pub open spec fn same_pitch_class(a: Note, b: Note) -> bool {
    a.0 % 12 == b.0 % 12
}

/// The first index from `from` on whose pitch shares `bottom`'s pitch class, or the length.
pub open spec fn first_in_class(scale: Seq<Note>, bottom: Note, from: int) -> int
    decreases scale.len() - from,
{
    if from >= scale.len() {
        scale.len() as int
    } else if from >= 0 && same_pitch_class(scale[from], bottom) {
        from
    } else {
        first_in_class(scale, bottom, from + 1)
    }
}

/// The `k`-th pitch of the octave of `scale` that starts at its member `b`, moved so that it starts on `bottom`.
pub open spec fn run_pitch(scale: Seq<Note>, bottom: Note, b: int, k: int) -> int {
    let len = scale.len() as int;
    scale[(b + k) % len].0 + (bottom.0 - scale[b].0) + if b + k < len {
        0int
    } else {
        12int
    }
}

/// Integers that are MIDI pitches.
pub open spec fn in_midi_range() -> spec_fn(int) -> bool {
    |p: int| 0 <= p < 128
}

/// An integer in the MIDI range as a pitch.
pub open spec fn as_note() -> spec_fn(int) -> Note {
    |p: int| Note(p as u8)
}

/// One octave of `scale`, starting on its member of `bottom`'s pitch class and
/// moved to start on `bottom`; pitches outside the MIDI range are left out. It is
/// empty if no member shares `bottom`'s pitch class.
pub open spec fn scale_run(scale: Seq<Note>, bottom: Note) -> Seq<Note> {
    let b = first_in_class(scale, bottom, 0);
    if b >= scale.len() {
        Seq::empty()
    } else {
        Seq::new(scale.len(), |k: int| run_pitch(scale, bottom, b, k)).filter(
            in_midi_range(),
        ).map_values(as_note())
    }
}

// ---------------------------------------------------------------------------
// The state of a voice and how it changes
// ---------------------------------------------------------------------------

/// What an `Arpeggiator` holds, as mathematical values.
pub struct ArpeggiatorState {
    pub global_length_modifier: u32,
    pub global_velocity: u32,
    pub intensity_length_modifier_amount: u32,
    pub intensity_velocity_amount: u32,
    pub chord_settle_time: u64,
    pub chord_hold: bool,
    pub chord_hold_old: bool,
    pub chord: Seq<Note>,
    pub stable_chord: Seq<Note>,
    pub chord_next_update_time: Option<u64>,
    pub step: usize,
    pub scale: Seq<Note>,
    pub scale_base_override: Option<Note>,
    pub scale_base_override_old: Option<Note>,
}

/// Whether the pitches of `c` strictly ascend.
pub open spec fn strictly_ascending(c: Seq<Note>) -> bool {
    forall|i: int, j: int| 0 <= i < j < c.len() ==> (#[trigger] c[i]).0 < (#[trigger] c[j]).0
}

proof fn lemma_filter_keeps_ascending(s: Seq<Note>, p: spec_fn(Note) -> bool)
    requires
        strictly_ascending(s),
    ensures
        strictly_ascending(s.filter(p)),
    decreases s.len(),
{
    if s.len() > 0 {
        let t = s.drop_last();
        let x = s.last();
        assert(s =~= t.push(x));
        lemma_filter_keeps_ascending(t, p);
        t.lemma_filter_push(x, p);
        let f = s.filter(p);
        let g = t.filter(p);
        if p(x) {
            assert forall|i: int, j: int| 0 <= i < j < f.len() implies (#[trigger] f[i]).0 < (#[trigger] f[j]).0 by {
                if j == g.len() {
                    assert(g.contains(g[i]));
                    t.lemma_filter_contains_rev(p, g[i]);
                    let k = choose|k: int| 0 <= k < t.len() && t[k] == g[i];
                    assert(s[k] == t[k]);
                    assert(s[s.len() - 1] == x);
                }
            }
        }
    }
}

proof fn lemma_inserted_ascending(c: Seq<Note>, n: Note)
    requires
        strictly_ascending(c),
    ensures
        strictly_ascending(inserted(c, n)),
{
    broadcast use vstd::seq_lib::group_filter_ensures;

    let lo = c.filter(below(n));
    let hi = c.filter(above(n));
    lemma_filter_keeps_ascending(c, below(n));
    lemma_filter_keeps_ascending(c, above(n));
    let s = inserted(c, n);
    assert forall|i: int, j: int| 0 <= i < j < s.len() implies (#[trigger] s[i]).0 < (#[trigger] s[j]).0 by {
        let m = lo.len() as int;
        if j < m {
            assert(s[i] == lo[i] && s[j] == lo[j]);
        } else if i > m {
            assert(s[i] == hi[i - m - 1] && s[j] == hi[j - m - 1]);
        } else if i == m {
            assert(s[i] == n && s[j] == hi[j - m - 1]);
            assert(above(n)(hi[j - m - 1]));
        } else if j == m {
            assert(s[i] == lo[i] && s[j] == n);
            assert(below(n)(lo[i]));
        } else {
            assert(s[i] == lo[i] && s[j] == hi[j - m - 1]);
            assert(below(n)(lo[i]));
            assert(above(n)(hi[j - m - 1]));
        }
    }
}

/// Within capacity: chords and scale of at most sixteen pitches, and a step within a pattern's reach.
pub open spec fn state_wf(a: ArpeggiatorState) -> bool {
    &&& strictly_ascending(a.chord)
    &&& a.chord.len() <= NOTE_CAPACITY
    &&& a.stable_chord.len() <= NOTE_CAPACITY
    &&& a.scale.len() <= NOTE_CAPACITY
    &&& a.step < PATTERN_CAPACITY
}

/// The deadline of a chord change made at `time`: `settle` ticks later, at the end of time at most.
pub open spec fn settle_deadline(time: u64, settle: u64) -> u64 {
    if time + settle > u64::MAX {
        u64::MAX
    } else {
        (time + settle) as u64
    }
}

/// Whether `note_on` of `note` would exceed the chord's capacity.
pub open spec fn chord_overflows(a: ArpeggiatorState, note: Note) -> bool {
    a.scale.len() == 0 && !a.chord.contains(note) && a.chord.len() >= NOTE_CAPACITY
}

/// The state after `note` is pressed at `time`. Without a scale the chord
/// gains the note and a commit is scheduled after the settle time; with a scale
/// (and no override) the stable chord becomes the scale run from that note.
pub open spec fn note_on_state(a: ArpeggiatorState, note: Note, time: u64) -> ArpeggiatorState {
    if a.scale.len() == 0 {
        if a.chord.contains(note) {
            a
        } else {
            ArpeggiatorState {
                chord: inserted(a.chord, note),
                chord_next_update_time: Some(settle_deadline(time, a.chord_settle_time)),
                ..a
            }
        }
    } else if a.scale_base_override is None {
        ArpeggiatorState { stable_chord: scale_run(a.scale, note), ..a }
    } else {
        a
    }
}

/// The state after `note` is released at `time`. Without a scale the chord
/// loses the note and a commit is scheduled, except that releasing the last
/// note under hold schedules nothing; with a scale (no override, no hold)
/// releasing the bottom note of the stable chord clears it.
pub open spec fn note_off_state(a: ArpeggiatorState, note: Note, time: u64) -> ArpeggiatorState {
    if a.scale.len() == 0 {
        if a.chord.contains(note) {
            let c = removed(a.chord, note);
            ArpeggiatorState {
                chord: c,
                chord_next_update_time: if a.chord_hold && c.len() == 0 {
                    None
                } else {
                    Some(settle_deadline(time, a.chord_settle_time))
                },
                ..a
            }
        } else {
            a
        }
    } else if a.scale_base_override is None && !a.chord_hold && a.stable_chord.len() > 0
        && a.stable_chord[0] == note {
        ArpeggiatorState { stable_chord: Seq::empty(), ..a }
    } else {
        a
    }
}

/// The state after the edge detection and due commit that precede a step at `time`.
pub open spec fn latched(a: ArpeggiatorState, time: u64) -> ArpeggiatorState {
    let a1 = if a.chord_hold != a.chord_hold_old {
        ArpeggiatorState {
            chord_next_update_time: if !a.chord_hold {
                Some(time)
            } else {
                a.chord_next_update_time
            },
            chord_hold_old: a.chord_hold,
            ..a
        }
    } else {
        a
    };
    let a2 = if a1.scale_base_override != a1.scale_base_override_old {
        match a1.scale_base_override {
            Some(n) => ArpeggiatorState {
                stable_chord: scale_run(a1.scale, n),
                scale_base_override_old: a1.scale_base_override,
                ..a1
            },
            None => ArpeggiatorState {
                chord_next_update_time: Some(time),
                scale_base_override_old: a1.scale_base_override,
                ..a1
            },
        }
    } else {
        a1
    };
    match a2.chord_next_update_time {
        Some(deadline) => if time >= deadline {
            ArpeggiatorState { stable_chord: a2.chord, chord_next_update_time: None, ..a2 }
        } else {
            a2
        },
        None => a2,
    }
}

/// The state after a step at `time` of a pattern with `n_steps` steps.
pub open spec fn stepped(a: ArpeggiatorState, n_steps: int, time: u64) -> ArpeggiatorState {
    ArpeggiatorState { step: ((a.step + 1) % n_steps) as usize, ..latched(a, time) }
}

/// `x` held to `lo..=hi`.
pub open spec fn clamped(x: int, lo: int, hi: int) -> int {
    if x < lo {
        lo
    } else if x > hi {
        hi
    } else {
        x
    }
}

/// The length modifier of a hit, in units of `ONE`:
/// `clamp(global * (1 + (2 * intensity - 1) * amount), 0, 2)`.
pub open spec fn length_modifier(global: int, amount: int, intensity: int) -> int {
    clamped(global * (ONE * ONE + (2 * intensity - ONE) * amount) / (ONE * ONE) as int, 0, 2 * ONE)
}

/// The velocity of a hit, in units of `ONE`:
/// `clamp(global * (0.5 + (intensity - 0.5) * amount), 0, 1)`.
pub open spec fn velocity(global: int, amount: int, intensity: int) -> int {
    clamped(global * (ONE * ONE / 2 + (intensity - ONE / 2) * amount) / (ONE * ONE) as int, 0, ONE as int)
}

/// A velocity in units of `ONE` as a MIDI velocity: `round(127 * v)`.
pub open spec fn midi_velocity(v: int) -> int {
    (127 * v + ONE / 2) / ONE as int
}

/// The events of one hit under the state `a`: its note-off after the hit's
/// length (in units of `ONE` steps), then its note-on at once; nothing when the
/// index or the transposition resolves to no pitch.
pub open spec fn hit_events(a: ArpeggiatorState, mode: RepeatMode, e: Entry) -> Seq<(u64, NoteEvent)> {
    match resolve(mode, a.stable_chord, e.note as int) {
        Some(base) => match pitch(base.0 + e.transpose) {
            Some(note) => {
                let lm = length_modifier(
                    a.global_length_modifier as int,
                    a.intensity_length_modifier_amount as int,
                    e.intensity as int,
                );
                let v = velocity(
                    a.global_velocity as int,
                    a.intensity_velocity_amount as int,
                    e.intensity as int,
                );
                seq![
                    (hit_length(e.len_steps as int, lm) as u64, NoteEvent::NoteOff(note, Channel(0))),
                    (0u64, NoteEvent::NoteOn(note, midi_velocity(v) as u8, Channel(0))),
                ]
            },
            None => Seq::empty(),
        },
        None => Seq::empty(),
    }
}

/// The events of a step's hits, in order.
pub open spec fn step_events(a: ArpeggiatorState, mode: RepeatMode, entries: Seq<Entry>) -> Seq<
    (u64, NoteEvent),
>
    decreases entries.len(),
{
    if entries.len() == 0 {
        Seq::empty()
    } else {
        step_events(a, mode, entries.drop_last()) + hit_events(a, mode, entries.last())
    }
}

/// The state after the timed event `e` is played: a note-on presses its note
/// (unless the chord is full), a note-off releases it, anything else does nothing.
pub open spec fn played_one(a: ArpeggiatorState, e: (u64, NoteEvent)) -> ArpeggiatorState {
    match e.1 {
        NoteEvent::NoteOn(n, _, _) => if chord_overflows(a, n) {
            a
        } else {
            note_on_state(a, n, e.0)
        },
        NoteEvent::NoteOff(n, _) => note_off_state(a, n, e.0),
        _ => a,
    }
}

/// The state after the events of `evs` are played in order.
pub open spec fn played(a: ArpeggiatorState, evs: Seq<(u64, NoteEvent)>) -> ArpeggiatorState
    decreases evs.len(),
{
    if evs.len() == 0 {
        a
    } else {
        played_one(played(a, evs.drop_last()), evs.last())
    }
}

/// Whether playing `evs` in order presses a note that the chord has no room for.
pub open spec fn play_overflows(a: ArpeggiatorState, evs: Seq<(u64, NoteEvent)>) -> bool
    decreases evs.len(),
{
    if evs.len() == 0 {
        false
    } else {
        play_overflows(a, evs.drop_last()) || match evs.last().1 {
            NoteEvent::NoteOn(n, _, _) => chord_overflows(played(a, evs.drop_last()), n),
            _ => false,
        }
    }
}

/// The state after a release, at `time`, of the note of each note-off event of `offs`.
pub open spec fn released(a: ArpeggiatorState, offs: Seq<(u64, NoteEvent)>, time: u64) -> ArpeggiatorState
    decreases offs.len(),
{
    if offs.len() == 0 {
        a
    } else {
        let b = released(a, offs.drop_last(), time);
        match offs.last().1 {
            NoteEvent::NoteOff(n, _) => note_off_state(b, n, time),
            _ => b,
        }
    }
}

/// A prefix of `evs` that overflows the chord makes `evs` overflow it.
proof fn lemma_play_overflow_prefix(a: ArpeggiatorState, evs: Seq<(u64, NoteEvent)>, k: int)
    requires
        0 <= k <= evs.len(),
        play_overflows(a, evs.take(k)),
    ensures
        play_overflows(a, evs),
    decreases evs.len(),
{
    if k == evs.len() {
        assert(evs.take(k) =~= evs);
    } else {
        assert(evs.drop_last().take(k) =~= evs.take(k));
        lemma_play_overflow_prefix(a, evs.drop_last(), k);
    }
}

/// A new arpeggiator: no chord, no scale, first step, unit modifiers except
/// that intensity does not change lengths, and no settle time.
pub open spec fn fresh_arpeggiator() -> ArpeggiatorState {
    ArpeggiatorState {
        global_length_modifier: ONE,
        global_velocity: ONE,
        intensity_length_modifier_amount: 0,
        intensity_velocity_amount: ONE,
        chord_settle_time: 0,
        chord_hold: false,
        chord_hold_old: false,
        chord: Seq::empty(),
        stable_chord: Seq::empty(),
        chord_next_update_time: None,
        step: 0,
        scale: Seq::empty(),
        scale_base_override: None,
        scale_base_override_old: None,
    }
}

/// The chord tracker and step player of one voice.
pub struct Arpeggiator {
    /// In units of `ONE`, `0..=2 * ONE`.
    pub global_length_modifier: u32,
    /// In units of `ONE`, `0..=2 * ONE`.
    pub global_velocity: u32,
    /// In units of `ONE`, `0..=2 * ONE`.
    pub intensity_length_modifier_amount: u32,
    /// In units of `ONE`, `0..=2 * ONE`.
    pub intensity_velocity_amount: u32,
    /// How long, in ticks, a chord change waits before it is committed.
    pub chord_settle_time: u64,
    pub chord_hold: bool,
    chord_hold_old: bool,
    chord: NoteVec,
    stable_chord: NoteVec,
    chord_next_update_time: Option<u64>,
    step: usize,
    /// The scale; empty in chord mode.
    pub scale: NoteVec,
    pub scale_base_override: Option<Note>,
    scale_base_override_old: Option<Note>,
}

impl View for Arpeggiator {
    type V = ArpeggiatorState;

    closed spec fn view(&self) -> ArpeggiatorState {
        ArpeggiatorState {
            global_length_modifier: self.global_length_modifier,
            global_velocity: self.global_velocity,
            intensity_length_modifier_amount: self.intensity_length_modifier_amount,
            intensity_velocity_amount: self.intensity_velocity_amount,
            chord_settle_time: self.chord_settle_time,
            chord_hold: self.chord_hold,
            chord_hold_old: self.chord_hold_old,
            chord: note_items(self.chord),
            stable_chord: note_items(self.stable_chord),
            chord_next_update_time: self.chord_next_update_time,
            step: self.step,
            scale: note_items(self.scale),
            scale_base_override: self.scale_base_override,
            scale_base_override_old: self.scale_base_override_old,
        }
    }
}

impl Arpeggiator {
    /// See `state_wf`.
    pub open spec fn wf(&self) -> bool {
        state_wf(self@)
    }

    pub fn new() -> (r: Arpeggiator)
        ensures
            r.wf(),
            r@ == fresh_arpeggiator(),
    {
        Arpeggiator {
            step: 0,
            global_length_modifier: ONE,
            global_velocity: ONE,
            intensity_velocity_amount: ONE,
            intensity_length_modifier_amount: 0,
            chord: note_vec_new(),
            stable_chord: note_vec_new(),
            chord_next_update_time: None,
            chord_settle_time: 0,
            chord_hold: false,
            chord_hold_old: false,
            scale: note_vec_new(),
            scale_base_override: None,
            scale_base_override_old: None,
        }
    }

    /// Whether the state is well formed; see `wf`.
    pub fn is_well_formed(&self) -> (r: bool)
        ensures
            r == self.wf(),
    {
        let chord = note_vec_slice(&self.chord);
        let mut k: usize = 1;
        while k < chord.len()
            invariant
                1 <= k,
                chord@ == self@.chord,
                forall|i: int, j: int| 0 <= i < j < k && j < chord@.len() ==> (#[trigger] chord@[i]).0 < (#[trigger] chord@[j]).0,
            decreases chord.len() - k,
        {
            if chord[k - 1].0 >= chord[k].0 {
                return false;
            }
            proof {
                assert forall|i: int, j: int| 0 <= i < j < k + 1 && j < chord@.len() implies (#[trigger] chord@[i]).0 < (#[trigger] chord@[j]).0 by {
                    if j == k && i < k - 1 {
                        assert(chord@[i].0 < chord@[k - 1].0);
                    }
                }
            }
            k += 1;
        }
        let _ = note_vec_slice(&self.stable_chord);
        let _ = note_vec_slice(&self.scale);
        self.step < PATTERN_CAPACITY
    }

    /// The committed chord that patterns are resolved against.
    pub fn stable_chord(&self) -> (r: &[Note])
        ensures
            r@ == self@.stable_chord,
    {
        note_vec_slice(&self.stable_chord)
    }

    /// The notes currently held, ascending.
    pub fn chord(&self) -> (r: &[Note])
        ensures
            r@ == self@.chord,
    {
        note_vec_slice(&self.chord)
    }

    /// The tick at which the pending chord change is committed, if one is pending.
    pub fn chord_next_update_time(&self) -> (r: Option<u64>)
        ensures
            r == self@.chord_next_update_time,
    {
        self.chord_next_update_time
    }

    /// Presses `note` at `time`; see `note_on_state`. A seventeenth distinct
    /// note in chord mode is fatal: the state is left as it was and
    /// `ChordFull` tells the caller to stop.
    pub fn note_on(&mut self, note: Note, time: u64) -> (r: Result<(), EngineError>)
        requires
            old(self).wf(),
        ensures
            final(self).wf(),
            r is Err <==> chord_overflows(old(self)@, note),
            r is Err ==> r == Err::<(), EngineError>(EngineError::ChordFull) && final(self)@ == old(self)@,
            r is Ok ==> final(self)@ == note_on_state(old(self)@, note, time),
    {
        if note_vec_slice(&self.scale).len() == 0 {
            let chord = note_vec_slice(&self.chord);
            if !holds(chord, note) {
                if chord.len() >= NOTE_CAPACITY {
                    return Err(EngineError::ChordFull);
                }
                let new_chord = with_note(chord, note);
                self.chord = new_chord;
                self.chord_next_update_time = Some(self.chord_settle_time.saturating_add(time));
            }
        } else if self.scale_base_override.is_none() {
            self.stable_chord = scale_from(note_vec_slice(&self.scale), note);
        }
        Ok(())
    }

    /// Releases `note` at `time`; see `note_off_state`.
    pub fn note_off(&mut self, note: Note, time: u64)
        requires
            old(self).wf(),
        ensures
            final(self).wf(),
            final(self)@ == note_off_state(old(self)@, note, time),
    {
        if note_vec_slice(&self.scale).len() == 0 {
            let chord = note_vec_slice(&self.chord);
            if holds(chord, note) {
                let new_chord = without_note(chord, note);
                let now_empty = note_vec_slice(&new_chord).len() == 0;
                self.chord = new_chord;
                if self.chord_hold && now_empty {
                    self.chord_next_update_time = None;
                } else {
                    self.chord_next_update_time = Some(self.chord_settle_time.saturating_add(time));
                }
            }
        } else if self.scale_base_override.is_none() {
            if !self.chord_hold {
                let stable = note_vec_slice(&self.stable_chord);
                if stable.len() > 0 && stable[0] == note {
                    self.stable_chord = note_vec_new();
                }
            }
        }
    }

    fn latch(&mut self, time: u64)
        requires
            old(self).wf(),
        ensures
            final(self).wf(),
            final(self)@ == latched(old(self)@, time),
    {
        if self.chord_hold != self.chord_hold_old {
            if !self.chord_hold {
                self.chord_next_update_time = Some(time);
            }
            self.chord_hold_old = self.chord_hold;
        }
        if self.scale_base_override != self.scale_base_override_old {
            if let Some(note) = self.scale_base_override {
                self.stable_chord = scale_from(note_vec_slice(&self.scale), note);
            } else {
                self.chord_next_update_time = Some(time);
            }
            self.scale_base_override_old = self.scale_base_override;
        }
        if let Some(deadline) = self.chord_next_update_time {
            if time >= deadline {
                self.stable_chord = note_vec_clone(&self.chord);
                self.chord_next_update_time = None;
            }
        }
    }

    /// Plays one step of `pattern` at `time` and moves to the next step. The
    /// result holds each event with its offset from `time`, in units of `ONE`
    /// steps.
    pub fn process_step(&mut self, pattern: &ArpeggioData, time: u64) -> (r: EventVec)
        requires
            old(self).wf(),
            pattern.wf(),
        ensures
            final(self).wf(),
            final(self)@ == stepped(old(self)@, pattern.steps().len() as int, time),
            event_items(r) == step_events(
                latched(old(self)@, time),
                pattern.repeat_mode,
                pattern.steps()[old(self)@.step as int % pattern.steps().len() as int],
            ),
    {
        self.latch(time);
        let steps = crate::fixed::pattern_vec_slice(&pattern.pattern);
        let n_steps = steps.len();
        let current_step = self.step % n_steps;
        self.step = (self.step + 1) % n_steps;
        let entries = step_vec_slice(&steps[current_step]);
        let ghost a = latched(old(self)@, time);
        let ghost es = entries@;
        assert(es == pattern.steps()[current_step as int]);
        let stable = note_vec_slice(&self.stable_chord);
        let mut out = event_vec_new();
        let mut i: usize = 0;
        while i < entries.len()
            invariant
                i <= entries.len(),
                es == entries@,
                es.len() <= STEP_CAPACITY,
                stable@ == a.stable_chord,
                stable@.len() <= NOTE_CAPACITY,
                a.global_length_modifier == self.global_length_modifier,
                a.global_velocity == self.global_velocity,
                a.intensity_length_modifier_amount == self.intensity_length_modifier_amount,
                a.intensity_velocity_amount == self.intensity_velocity_amount,
                forall|k: int| 0 <= k < es.len() ==> (#[trigger] es[k]).len_steps >= 1,
                event_items(out) == step_events(a, pattern.repeat_mode, es.take(i as int)),
                event_items(out).len() <= 2 * i,
            decreases entries.len() - i,
        {
            let entry = entries[i];
            let hit = self.hit(&pattern.repeat_mode, stable, &entry);
            proof {
                assert(es.take(i + 1).drop_last() =~= es.take(i as int));
                assert(es.take(i + 1).last() == entry);
            }
            if let Some((off, on)) = hit {
                let ok1 = event_vec_push(&mut out, off);
                let ok2 = event_vec_push(&mut out, on);
                assert(event_items(out) =~= step_events(a, pattern.repeat_mode, es.take(i + 1)));
            } else {
                assert(event_items(out) =~= step_events(a, pattern.repeat_mode, es.take(i + 1)));
            }
            i += 1;
        }
        assert(es.take(es.len() as int) =~= es);
        out
    }

    /// The two events of one hit, or `None` where it resolves to no pitch.
    fn hit(&self, mode: &RepeatMode, stable: &[Note], entry: &Entry) -> (r: Option<
        ((u64, NoteEvent), (u64, NoteEvent)),
    >)
        requires
            entry.len_steps >= 1,
            stable@.len() <= NOTE_CAPACITY,
        ensures
            ({
                let a = ArpeggiatorState { stable_chord: stable@, ..self@ };
                let h = hit_events(a, *mode, *entry);
                match r {
                    Some((off, on)) => h == seq![off, on],
                    None => h == Seq::<(u64, NoteEvent)>::empty(),
                }
            }),
    {
        let base = match mode.get(stable, entry.note) {
            Some(n) => n,
            None => return None,
        };
        let note = match base.transpose(entry.transpose) {
            Some(n) => n,
            None => return None,
        };
        let lm = length_modifier_of(
            self.global_length_modifier,
            self.intensity_length_modifier_amount,
            entry.intensity,
        );
        let v = velocity_of(self.global_velocity, self.intensity_velocity_amount, entry.intensity);
        let len = entry.actual_len(lm);
        let velo = midi_velocity_of(v);
        Some(
            (
                (len, NoteEvent::NoteOff(note, Channel(0))),
                (0u64, NoteEvent::NoteOn(note, velo, Channel(0))),
            ),
        )
    }

    /// Plays the note events of `evs` in order, each at its own time. A note-on
    /// that the chord has no room for is fatal: then the rest is not played.
    pub fn play(&mut self, evs: &[(u64, NoteEvent)]) -> (r: Result<(), EngineError>)
        requires
            old(self).wf(),
        ensures
            final(self).wf(),
            r is Err <==> play_overflows(old(self)@, evs@),
            r is Err ==> r == Err::<(), EngineError>(EngineError::ChordFull),
            r is Ok ==> final(self)@ == played(old(self)@, evs@),
    {
        let mut i: usize = 0;
        while i < evs.len()
            invariant
                i <= evs.len(),
                self.wf(),
                !play_overflows(old(self)@, evs@.take(i as int)),
                self@ == played(old(self)@, evs@.take(i as int)),
            decreases evs.len() - i,
        {
            let e = evs[i];
            proof {
                assert(evs@.take(i + 1).drop_last() =~= evs@.take(i as int));
            }
            match e.1 {
                NoteEvent::NoteOn(n, _, _) => {
                    if let Err(err) = self.note_on(n, e.0) {
                        proof {
                            lemma_play_overflow_prefix(old(self)@, evs@, i + 1);
                        }
                        return Err(err);
                    }
                },
                NoteEvent::NoteOff(n, _) => {
                    self.note_off(n, e.0);
                },
                _ => {},
            }
            i += 1;
        }
        assert(evs@.take(evs@.len() as int) =~= evs@);
        Ok(())
    }

    /// Releases, at `time`, the note of each note-off event of `offs`.
    pub fn release(&mut self, offs: &[(u64, NoteEvent)], time: u64)
        requires
            old(self).wf(),
        ensures
            final(self).wf(),
            final(self)@ == released(old(self)@, offs@, time),
    {
        let mut i: usize = 0;
        while i < offs.len()
            invariant
                i <= offs.len(),
                self.wf(),
                self@ == released(old(self)@, offs@.take(i as int), time),
            decreases offs.len() - i,
        {
            proof {
                assert(offs@.take(i + 1).drop_last() =~= offs@.take(i as int));
            }
            if let NoteEvent::NoteOff(n, _) = offs[i].1 {
                self.note_off(n, time);
            }
            i += 1;
        }
        assert(offs@.take(offs@.len() as int) =~= offs@);
    }

    /// Restarts the pattern from its first step.
    pub fn reset(&mut self)
        ensures
            final(self)@ == (ArpeggiatorState { step: 0, ..old(self)@ }),
    {
        self.step = 0;
    }

    pub fn step(&self) -> (r: usize)
        ensures
            r == self@.step,
    {
        self.step
    }
}

fn length_modifier_of(global: u32, amount: u32, intensity: u32) -> (r: u32)
    ensures
        r == length_modifier(global as int, amount as int, intensity as int),
        r <= 2 * ONE,
{
    let d: i128 = 2 * intensity as i128 - 10000;
    proof {
        assert(-0x4_0000_0000_0000_0000 <= d * amount <= 0x4_0000_0000_0000_0000) by (nonlinear_arith)
            requires
                -10000 <= d <= 0x2_0000_0000,
                0 <= amount <= 0xFFFF_FFFF,
        ;
    }
    let factor: i128 = 100_000_000i128 + d * amount as i128;
    if factor <= 0 {
        proof {
            let p = global as int * factor as int;
            assert(p <= 0) by (nonlinear_arith)
                requires
                    global >= 0,
                    factor <= 0,
                    p == global as int * factor as int,
            ;
            assert(p / 100_000_000 <= 0) by (nonlinear_arith)
                requires
                    p <= 0,
            ;
        }
        0
    } else {
        proof {
            assert(global as int * factor as int <= 0x1_0000_0000 * 0x8_0000_0000_0000_0000) by (nonlinear_arith)
                requires
                    0 <= global <= 0xFFFF_FFFF,
                    0 < factor <= 0x8_0000_0000_0000_0000,
            ;
        }
        let scaled: u128 = global as u128 * factor as u128 / 100_000_000;
        if scaled > 20000 {
            20000
        } else {
            scaled as u32
        }
    }
}

fn velocity_of(global: u32, amount: u32, intensity: u32) -> (r: u32)
    ensures
        r == velocity(global as int, amount as int, intensity as int),
        r <= ONE,
{
    let d: i128 = intensity as i128 - 5000;
    proof {
        assert(-0x4_0000_0000_0000_0000 <= d * amount <= 0x4_0000_0000_0000_0000) by (nonlinear_arith)
            requires
                -5000 <= d <= 0x1_0000_0000,
                0 <= amount <= 0xFFFF_FFFF,
        ;
    }
    let factor: i128 = 50_000_000i128 + d * amount as i128;
    if factor <= 0 {
        proof {
            let p = global as int * factor as int;
            assert(p <= 0) by (nonlinear_arith)
                requires
                    global >= 0,
                    factor <= 0,
                    p == global as int * factor as int,
            ;
            assert(p / 100_000_000 <= 0) by (nonlinear_arith)
                requires
                    p <= 0,
            ;
        }
        0
    } else {
        proof {
            assert(global as int * factor as int <= 0x1_0000_0000 * 0x8_0000_0000_0000_0000) by (nonlinear_arith)
                requires
                    0 <= global <= 0xFFFF_FFFF,
                    0 < factor <= 0x8_0000_0000_0000_0000,
            ;
        }
        let scaled: u128 = global as u128 * factor as u128 / 100_000_000;
        if scaled > 10000 {
            10000
        } else {
            scaled as u32
        }
    }
}

fn midi_velocity_of(v: u32) -> (r: u8)
    requires
        v <= ONE,
    ensures
        r == midi_velocity(v as int),
{
    ((127 * v + 5000) / 10000) as u8
}

/// Whether `s` holds `n`.
fn holds(s: &[Note], n: Note) -> (r: bool)
    ensures
        r == s@.contains(n),
{
    let mut i: usize = 0;
    while i < s.len()
        invariant
            i <= s.len(),
            forall|k: int| 0 <= k < i ==> s@[k] != n,
        decreases s.len() - i,
    {
        if s[i] == n {
            return true;
        }
        i += 1;
    }
    false
}

/// Appends to `out` the notes of `s` below (`side == 0`), above (`side == 1`)
/// or other than (`side == 2`) `n`.
fn push_where(out: &mut NoteVec, s: &[Note], n: Note, side: u8)
    requires
        side <= 2,
        note_items(*old(out)).len() + s@.filter(side_pred(n, side)).len() <= NOTE_CAPACITY,
    ensures
        note_items(*final(out)) == note_items(*old(out)) + s@.filter(side_pred(n, side)),
{
    let ghost start = note_items(*out);
    let mut i: usize = 0;
    while i < s.len()
        invariant
            side <= 2,
            i <= s.len(),
            start.len() + s@.filter(side_pred(n, side)).len() <= NOTE_CAPACITY,
            note_items(*out) == start + s@.take(i as int).filter(side_pred(n, side)),
        decreases s.len() - i,
    {
        let x = s[i];
        proof {
            assert(s@.take(i + 1) =~= s@.take(i as int).push(x));
            s@.take(i as int).lemma_filter_push(x, side_pred(n, side));
            s@.lemma_filter_take_len(side_pred(n, side), i + 1);
        }
        let keep = if side == 0 {
            x.0 < n.0
        } else if side == 1 {
            x.0 > n.0
        } else {
            x != n
        };
        if keep {
            let ok = note_vec_push(out, x);
            assert(note_items(*out) =~= start + s@.take(i + 1).filter(side_pred(n, side)));
        }
        i += 1;
    }
    assert(s@.take(s@.len() as int) =~= s@);
}

spec fn side_pred(n: Note, side: u8) -> spec_fn(Note) -> bool {
    if side == 0 {
        below(n)
    } else if side == 1 {
        above(n)
    } else {
        other_than(n)
    }
}

proof fn lemma_split_len(s: Seq<Note>, n: Note)
    ensures
        s.filter(below(n)).len() + s.filter(above(n)).len() <= s.len(),
    decreases s.len(),
{
    if s.len() > 0 {
        let t = s.drop_last();
        lemma_split_len(t, n);
        assert(s =~= t.push(s.last()));
        t.lemma_filter_push(s.last(), below(n));
        t.lemma_filter_push(s.last(), above(n));
    }
}

/// The chord `c` with the note `n`, which it lacks, put in its place.
fn with_note(c: &[Note], n: Note) -> (r: NoteVec)
    requires
        c@.len() < NOTE_CAPACITY,
    ensures
        note_items(r) == inserted(c@, n),
        note_items(r).len() <= c@.len() + 1,
        strictly_ascending(c@) ==> strictly_ascending(note_items(r)),
{
    proof {
        lemma_split_len(c@, n);
        if strictly_ascending(c@) {
            lemma_inserted_ascending(c@, n);
        }
    }
    let mut r = note_vec_new();
    push_where(&mut r, c, n, 0);
    let ok = note_vec_push(&mut r, n);
    push_where(&mut r, c, n, 1);
    assert(note_items(r) =~= inserted(c@, n));
    r
}

/// The chord `c` without the note `n`.
fn without_note(c: &[Note], n: Note) -> (r: NoteVec)
    requires
        c@.len() <= NOTE_CAPACITY,
    ensures
        note_items(r) == removed(c@, n),
        note_items(r).len() <= c@.len(),
        strictly_ascending(c@) ==> strictly_ascending(note_items(r)),
{
    proof {
        if strictly_ascending(c@) {
            lemma_filter_keeps_ascending(c@, other_than(n));
        }
    }
    let mut r = note_vec_new();
    proof {
        c@.lemma_filter_len(other_than(n));
    }
    push_where(&mut r, c, n, 2);
    assert(note_items(r) =~= removed(c@, n));
    r
}

/// One octave of `scale` played from `bottom`: the member of `scale` that shares
/// `bottom`'s pitch class and the members after it, wrapping into the next
/// octave, all moved so that the run starts on `bottom`. Pitches that leave the
/// MIDI range are left out; without such a member the run is empty.
pub fn scale_from(scale: &[Note], bottom: Note) -> (r: NoteVec)
    requires
        scale@.len() <= NOTE_CAPACITY,
    ensures
        note_items(r) == scale_run(scale@, bottom),
        note_items(r).len() <= scale@.len(),
{
    let len = scale.len();
    let mut b: usize = 0;
    while b < len && scale[b].0 % 12 != bottom.0 % 12
        invariant
            b <= len == scale@.len(),
            first_in_class(scale@, bottom, 0) == first_in_class(scale@, bottom, b as int),
        decreases len - b,
    {
        b += 1;
    }
    let mut r = note_vec_new();
    if b >= len {
        return r;
    }
    assert(first_in_class(scale@, bottom, b as int) == b);
    let ghost run = Seq::new(scale@.len(), |k: int| run_pitch(scale@, bottom, b as int, k));
    let offset: i32 = bottom.0 as i32 - scale[b].0 as i32;
    let mut k: usize = 0;
    while k < len
        invariant
            b < len == scale@.len() <= NOTE_CAPACITY,
            k <= len,
            offset == bottom.0 - scale@[b as int].0,
            run == Seq::new(scale@.len(), |k: int| run_pitch(scale@, bottom, b as int, k)),
            note_items(r) == run.take(k as int).filter(in_midi_range()).map_values(as_note()),
            note_items(r).len() <= k,
        decreases len - k,
    {
        let i = b + k;
        let octave: i32 = if i < len {
            0
        } else {
            12
        };
        let p: i32 = scale[i % len].0 as i32 + offset + octave;
        proof {
            assert(run[k as int] == p);
            assert(run.take(k + 1) =~= run.take(k as int).push(p as int));
            run.take(k as int).lemma_filter_push(p as int, in_midi_range());
        }
        if 0 <= p && p < 128 {
            let ok = note_vec_push(&mut r, Note(p as u8));
            assert(note_items(r) =~= run.take(k + 1).filter(in_midi_range()).map_values(as_note()));
        }
        k += 1;
    }
    assert(run.take(len as int) =~= run);
    r
}

} // verus!

verus! {

proof fn lemma_inserted_contains(c: Seq<Note>, n: Note, m: Note)
    ensures
        inserted(c, n).contains(n),
        inserted(c, n).contains(m) <==> (m == n || c.contains(m)),
        inserted(c, n).len() <= c.len() + 1,
{
    let lo = c.filter(below(n));
    let hi = c.filter(above(n));
    let s = inserted(c, n);
    assert(s[lo.len() as int] == n);
    lemma_split_len(c, n);
    broadcast use vstd::seq_lib::group_filter_ensures;

    if s.contains(m) && m != n {
        let i = choose|i: int| 0 <= i < s.len() && s[i] == m;
        if i < lo.len() {
            assert(lo[i] == m);
            c.lemma_filter_contains_rev(below(n), m);
        } else {
            assert(hi[i - lo.len() - 1] == m);
            c.lemma_filter_contains_rev(above(n), m);
        }
    }
    if c.contains(m) && m != n {
        let i = choose|i: int| 0 <= i < c.len() && c[i] == m;
        if m.0 < n.0 {
            assert(lo.contains(c[i]));
            let j = choose|j: int| 0 <= j < lo.len() && lo[j] == m;
            assert(s[j] == m);
        } else {
            assert(m.0 > n.0);
            assert(hi.contains(c[i]));
            let j = choose|j: int| 0 <= j < hi.len() && hi[j] == m;
            assert(s[lo.len() + 1 + j] == m);
        }
    }
}

/// Chord entry is debounced: two new notes pressed in chord mode are committed
/// together, once, `chord_settle_time` ticks after the later press. Before that
/// deadline a step leaves the stable chord as it was; from the deadline on, the
/// next step commits the chord that holds both notes.
pub proof fn lemma_chord_debounce(a: ArpeggiatorState, n1: Note, t1: u64, n2: Note, t2: u64, t: u64)
    requires
        state_wf(a),
        a.scale.len() == 0,
        a.chord.len() + 2 <= NOTE_CAPACITY,
        !a.chord.contains(n1),
        !a.chord.contains(n2),
        n1 != n2,
        a.chord_hold == a.chord_hold_old,
        a.scale_base_override == a.scale_base_override_old,
        t1 <= t2,
        t2 + a.chord_settle_time <= u64::MAX,
    ensures
        !chord_overflows(a, n1),
        !chord_overflows(note_on_state(a, n1, t1), n2),
        ({
            let b = note_on_state(note_on_state(a, n1, t1), n2, t2);
            let deadline = (t2 + a.chord_settle_time) as u64;
            &&& b.chord_next_update_time == Some(deadline)
            &&& b.chord.contains(n1) && b.chord.contains(n2)
            &&& t < deadline ==> latched(b, t).stable_chord == a.stable_chord
                && latched(b, t).chord_next_update_time == Some(deadline)
            &&& t >= deadline ==> latched(b, t).stable_chord == b.chord
                && latched(b, t).chord_next_update_time == None::<u64>
        }),
{
    lemma_inserted_contains(a.chord, n1, n2);
    lemma_inserted_contains(a.chord, n1, n1);
    let c1 = inserted(a.chord, n1);
    lemma_inserted_contains(c1, n2, n1);
    lemma_inserted_contains(c1, n2, n2);
}

} // verus!
