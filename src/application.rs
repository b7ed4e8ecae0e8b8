//! The ensemble: N voices, the routing between them and the shared transport.
use vstd::prelude::*;

use crate::arpeggiator::{other_than, play_overflows, played, played_one, released, ArpeggiatorState, ClockMode};
use crate::pattern::ArpeggioData;
use crate::driver::TimestampedMidiEvent;
use crate::error::{EngineError, LoadError};
use crate::fixed::{event_items, event_vec_new, event_vec_push, event_vec_slice, EventVec, EVENT_CAPACITY};
use crate::instance::{
    drained, due_part, followed, is_note_off, kept_part, lemma_followed_prefix, lemma_taken_from, sorted_by_time, with_arp,
    ArpeggiatorInstance, VoiceState,
};
use crate::midi::{rechanneled, Channel, Note, NoteEvent};

verus! {

/// Ticks after the last external clock pulse during which an external clock counts as present.
pub const CLOCK_TIMEOUT: u64 = 48000;

/// The cells of a boolean matrix, row by row.
pub open spec fn cells(m: Vec<Vec<bool>>) -> Seq<Seq<bool>> {
    m@.map_values(|row: Vec<bool>| row@)
}

/// `m` has `n` rows of `n` cells.
pub open spec fn square(m: Seq<Seq<bool>>, n: int) -> bool {
    m.len() == n && forall|i: int| 0 <= i < n ==> (#[trigger] m[i]).len() == n
}

/// A routing matrix: square, and only links from a voice to a later one.
pub open spec fn routing_valid(m: Seq<Seq<bool>>) -> bool {
    &&& square(m, m.len() as int)
    &&& forall|i: int, j: int| 0 <= j <= i < m.len() ==> !(#[trigger] m[i][j])
}

/// Whether voice `i` feeds voice `j` under the matrix `m`.
pub open spec fn routed(m: Seq<Seq<bool>>, i: int, j: int) -> bool {
    i < j && m[i][j]
}

/// Whether `m` is a valid routing matrix. An invalid one is fatal: `process`
/// refuses it with `InvalidRoutingMatrix`, and its caller must stop.
pub fn check_routing_matrix(matrix: &Vec<Vec<bool>>) -> (r: bool)
    ensures
        r == routing_valid(cells(*matrix)),
{
    let n = matrix.len();
    let mut i: usize = 0;
    while i < n
        invariant
            i <= n == matrix@.len(),
            forall|k: int| 0 <= k < i ==> (#[trigger] cells(*matrix)[k]).len() == n,
            forall|a: int, b: int| 0 <= b <= a < i ==> !(#[trigger] cells(*matrix)[a][b]),
        decreases n - i,
    {
        let row = &matrix[i];
        assert(cells(*matrix)[i as int] == row@);
        if row.len() != n {
            return false;
        }
        let mut j: usize = 0;
        while j <= i
            invariant
                i < n == matrix@.len(),
                j <= i + 1,
                row@ == cells(*matrix)[i as int],
                row@.len() == n,
                forall|b: int| 0 <= b < j ==> !(#[trigger] row@[b]),
            decreases i + 1 - j,
        {
            if row[j] {
                return false;
            }
            j += 1;
        }
        i += 1;
    }
    true
}

// ---------------------------------------------------------------------------
// What a buffer's input does to a voice
// ---------------------------------------------------------------------------

/// Whether a voice listening on `channel` hears the input message `e`.
pub open spec fn heard(e: TimestampedMidiEvent, channel: Channel) -> bool {
    match e.event {
        NoteEvent::NoteOn(_, _, ch) => ch == channel,
        NoteEvent::NoteOff(_, ch) => ch == channel,
        _ => false,
    }
}

/// The input message `e` of a buffer starting at `time`, at its absolute time.
pub open spec fn at_time(e: TimestampedMidiEvent, time: u64) -> (u64, NoteEvent) {
    ((time + e.time) as u64, e.event)
}

/// The state of a voice after it hears, in order, the note input `evs` of a buffer starting at `time`.
pub open spec fn ingested(
    a: ArpeggiatorState,
    evs: Seq<TimestampedMidiEvent>,
    time: u64,
    channel: Channel,
) -> ArpeggiatorState
    decreases evs.len(),
{
    if evs.len() == 0 {
        a
    } else {
        let b = ingested(a, evs.drop_last(), time, channel);
        if heard(evs.last(), channel) {
            played_one(b, at_time(evs.last(), time))
        } else {
            b
        }
    }
}

/// Whether hearing `evs` presses a note that the chord has no room for.
pub open spec fn ingest_overflows(
    a: ArpeggiatorState,
    evs: Seq<TimestampedMidiEvent>,
    time: u64,
    channel: Channel,
) -> bool
    decreases evs.len(),
{
    if evs.len() == 0 {
        false
    } else {
        ingest_overflows(a, evs.drop_last(), time, channel) || (heard(evs.last(), channel)
            && play_overflows(ingested(a, evs.drop_last(), time, channel), seq![at_time(evs.last(), time)]))
    }
}

/// The downstream voice `a` after the route to it was checked at `time`: a route
/// that was on in the last buffer and is off now releases every note that the
/// upstream voice, with the queue `upstream`, still has a note-off pending for.
pub open spec fn after_cut(
    a: ArpeggiatorState,
    was_routed: bool,
    is_routed: bool,
    upstream: Seq<(u64, NoteEvent)>,
    time: u64,
) -> ArpeggiatorState {
    if was_routed && !is_routed {
        released(a, upstream.filter(is_note_off()), time)
    } else {
        a
    }
}

// ---------------------------------------------------------------------------
// Transport
// ---------------------------------------------------------------------------

/// The number of transport messages a buffer holds; more are dropped.
pub const TRANSPORT_CAPACITY: usize = 16;

/// `s` with `e` appended if there is room; transport beyond the capacity is dropped.
pub open spec fn push_capped(s: Seq<(u64, NoteEvent)>, e: (u64, NoteEvent)) -> Seq<(u64, NoteEvent)> {
    if s.len() < TRANSPORT_CAPACITY {
        s.push(e)
    } else {
        s
    }
}

/// `s` followed by the transport messages among the input `evs` of a buffer at
/// `time`; clock pulses count only when the external clock is used.
pub open spec fn received_transport(
    s: Seq<(u64, NoteEvent)>,
    evs: Seq<TimestampedMidiEvent>,
    time: u64,
    use_external: bool,
) -> Seq<(u64, NoteEvent)>
    decreases evs.len(),
{
    if evs.len() == 0 {
        s
    } else {
        let t = received_transport(s, evs.drop_last(), time, use_external);
        match evs.last().event {
            NoteEvent::Clock => if use_external {
                push_capped(t, at_time(evs.last(), time))
            } else {
                t
            },
            NoteEvent::Start => push_capped(t, at_time(evs.last(), time)),
            _ => t,
        }
    }
}

/// `a + b`, at the end of time at most.
pub open spec fn saturating_sum(a: u64, b: u64) -> u64 {
    if a + b > u64::MAX {
        u64::MAX
    } else {
        (a + b) as u64
    }
}

/// `s` followed by internal clock pulses from `next` on, `interval` apart, before `end`.
pub open spec fn internal_clocks(s: Seq<(u64, NoteEvent)>, next: u64, end: u64, interval: u64) -> Seq<
    (u64, NoteEvent),
>
    decreases (if next < end { end - next } else { 0 }),
{
    if interval == 0 || next >= end {
        s
    } else {
        internal_clocks(push_capped(s, (next, NoteEvent::Clock)), saturating_sum(next, interval), end, interval)
    }
}

/// The time of the first internal clock pulse from `next` on, `interval` apart, at or after `end`.
pub open spec fn next_clock_after(next: u64, end: u64, interval: u64) -> u64
    decreases (if next < end { end - next } else { 0 }),
{
    if interval == 0 || next >= end {
        next
    } else {
        next_clock_after(saturating_sum(next, interval), end, interval)
    }
}

/// Whether `evs` holds a clock pulse.
pub open spec fn contains_clock(evs: Seq<TimestampedMidiEvent>) -> bool {
    exists|k: int| 0 <= k < evs.len() && (#[trigger] evs[k]).event == NoteEvent::Clock
}

/// What a buffer delivered for one voice: `out`, in order of time, all before
/// `limit` and on the output channel, while everything the voice still has
/// queued (`rest`) lies at or after `limit`.
pub open spec fn delivered(
    out: Seq<(u64, NoteEvent)>,
    rest: Seq<(u64, NoteEvent)>,
    limit: u64,
    channel: Channel,
) -> bool {
    &&& sorted_by_time(out)
    &&& forall|k: int| 0 <= k < out.len() ==> (#[trigger] out[k]).0 < limit
    &&& forall|k: int| 0 <= k < out.len() ==> (#[trigger] out[k]).1 == rechanneled(out[k].1, channel)
    &&& forall|k: int| 0 <= k < rest.len() ==> (#[trigger] rest[k]).0 >= limit
}

/// `e` with its message moved to `channel`.
pub open spec fn on_channel(channel: Channel) -> spec_fn((u64, NoteEvent)) -> (u64, NoteEvent) {
    |e: (u64, NoteEvent)| (e.0, rechanneled(e.1, channel))
}

/// Appends the transport message `e` to `v` if there is room.
fn push_transport(v: &mut EventVec, e: (u64, NoteEvent))
    requires
        event_items(*old(v)).len() <= TRANSPORT_CAPACITY,
    ensures
        event_items(*final(v)) == push_capped(event_items(*old(v)), e),
        event_items(*final(v)).len() <= TRANSPORT_CAPACITY,
{
    if event_vec_slice(v).len() < TRANSPORT_CAPACITY {
        let ok = event_vec_push(v, e);
    }
}

/// The events of `evs`, moved to `channel`.
fn rechannel_all(evs: &[(u64, NoteEvent)], channel: Channel) -> (r: EventVec)
    requires
        evs@.len() <= EVENT_CAPACITY,
    ensures
        event_items(r) == evs@.map_values(on_channel(channel)),
{
    let mut r = event_vec_new();
    let mut k: usize = 0;
    while k < evs.len()
        invariant
            k <= evs.len(),
            evs@.len() <= EVENT_CAPACITY,
            event_items(r) == evs@.take(k as int).map_values(on_channel(channel)),
        decreases evs.len() - k,
    {
        let (time, event) = evs[k];
        let ok = event_vec_push(&mut r, (time, event.with_channel(channel)));
        assert(event_items(r) =~= evs@.take(k + 1).map_values(on_channel(channel)));
        k += 1;
    }
    assert(evs@.take(evs@.len() as int) =~= evs@);
    r
}

/// Every event of `s` lies at or after `t`.
pub open spec fn all_at_or_after(s: Seq<(u64, NoteEvent)>, t: u64) -> bool {
    forall|k: int| 0 <= k < s.len() ==> (#[trigger] s[k]).0 >= t
}

proof fn lemma_received_after(s: Seq<(u64, NoteEvent)>, evs: Seq<TimestampedMidiEvent>, time: u64, use_external: bool)
    requires
        all_at_or_after(s, time),
        time + 0xFFFF_FFFFu64 <= u64::MAX,
    ensures
        all_at_or_after(received_transport(s, evs, time, use_external), time),
    decreases evs.len(),
{
    if evs.len() > 0 {
        lemma_received_after(s, evs.drop_last(), time, use_external);
    }
}

proof fn lemma_clocks_after(s: Seq<(u64, NoteEvent)>, next: u64, end: u64, interval: u64, t: u64)
    requires
        all_at_or_after(s, t),
        next >= t,
    ensures
        all_at_or_after(internal_clocks(s, next, end, interval), t),
    decreases (if next < end { end - next } else { 0 }),
{
    if !(interval == 0 || next >= end) {
        lemma_clocks_after(push_capped(s, (next, NoteEvent::Clock)), saturating_sum(next, interval), end, interval, t);
    }
}

/// What stays fixed while a buffer is processed.
pub struct BufferSetup {
    /// The clock division of each voice.
    pub ticks_per_step: Seq<u32>,
    /// The pattern that each voice plays.
    pub patterns: Seq<ArpeggioData>,
    pub routing: Seq<Seq<bool>>,
    /// The input of each voice during the buffer.
    pub inputs: Seq<Seq<TimestampedMidiEvent>>,
    /// The buffer's transport messages, which every voice follows.
    pub transport: Seq<(u64, NoteEvent)>,
    pub time: u64,
    /// The end of the buffer.
    pub limit: u64,
    pub in_channel: Channel,
    pub out_channel: Channel,
}

/// What the processing of a buffer has produced so far.
pub struct BufferState {
    pub voices: Seq<VoiceState>,
    /// The routing snapshot.
    pub snapshot: Seq<Seq<bool>>,
    /// What each voice has sent.
    pub outputs: Seq<Seq<(u64, NoteEvent)>>,
}

/// The voices `vs` after voice `i` released, across each route from it that
/// was cut since the snapshot `snap`, the notes it has note-offs queued for.
pub open spec fn after_release(vs: Seq<VoiceState>, snap: Seq<Seq<bool>>, b: BufferSetup, i: int) -> Seq<VoiceState> {
    Seq::new(
        vs.len(),
        |j: int|
            if i < j {
                with_arp(vs[j], after_cut(vs[j].arp, snap[i][j], b.routing[i][j], vs[i].pending, b.time))
            } else {
                vs[j]
            },
    )
}

/// The snapshot `snap` with the routes from voice `i` to later voices caught up.
pub open spec fn snapshot_after(snap: Seq<Seq<bool>>, b: BufferSetup, i: int) -> Seq<Seq<bool>> {
    snap.update(i, Seq::new(snap[i].len(), |j: int| if j > i { b.routing[i][j] } else { snap[i][j] }))
}

/// Whether playing `due` into a voice that voice `i` is routed to overflows its chord.
pub open spec fn forward_overflows(vs: Seq<VoiceState>, b: BufferSetup, i: int, due: Seq<(u64, NoteEvent)>) -> bool {
    exists|j: int| i < j < vs.len() && #[trigger] b.routing[i][j] && play_overflows(vs[j].arp, due)
}

/// The voices `vs` after the events `due` of voice `i` are played into the voices it is routed to.
pub open spec fn after_forward(vs: Seq<VoiceState>, b: BufferSetup, i: int, due: Seq<(u64, NoteEvent)>) -> Seq<VoiceState> {
    Seq::new(
        vs.len(),
        |j: int| if routed(b.routing, i, j) { with_arp(vs[j], played(vs[j].arp, due)) } else { vs[j] },
    )
}

/// Voice `i`'s turn in a buffer: it hears its input, follows the transport,
/// releases notes across cut routes, sends its events due before the buffer's
/// end on the output channel and plays their notes into the later voices it is
/// routed to. A chord or a queue that overflows ends the buffer with an error.
pub open spec fn voice_turn(s: BufferState, b: BufferSetup, i: int) -> Result<BufferState, EngineError> {
    let v = s.voices[i];
    if ingest_overflows(v.arp, b.inputs[i], b.time, b.in_channel) {
        Err(EngineError::ChordFull)
    } else {
        match followed(with_arp(v, ingested(v.arp, b.inputs[i], b.time, b.in_channel)), b.ticks_per_step[i], b.patterns[i], b.transport) {
            None => Err(EngineError::QueueFull),
            Some(v2) => {
                let vs = after_release(s.voices.update(i, v2), s.snapshot, b, i);
                let due = due_part(v2.pending, b.limit);
                let vs2 = vs.update(i, VoiceState { pending: kept_part(v2.pending, b.limit), ..v2 });
                if forward_overflows(vs2, b, i, due) {
                    Err(EngineError::ChordFull)
                } else {
                    Ok(BufferState {
                        voices: after_forward(vs2, b, i, due),
                        snapshot: snapshot_after(s.snapshot, b, i),
                        outputs: s.outputs.update(i, due.map_values(on_channel(b.out_channel))),
                    })
                }
            },
        }
    }
}

/// The turns of voices `0..k`, in ascending order, from `s`; the first error ends them.
pub open spec fn turns(s: BufferState, b: BufferSetup, k: int) -> Result<BufferState, EngineError>
    decreases k,
{
    if k <= 0 {
        Ok(s)
    } else {
        match turns(s, b, k - 1) {
            Ok(t) => voice_turn(t, b, k - 1),
            Err(e) => Err(e),
        }
    }
}

proof fn lemma_turns_error_stays(s: BufferState, b: BufferSetup, k: int, m: int)
    requires
        0 <= k <= m,
        turns(s, b, k) is Err,
    ensures
        turns(s, b, m) == turns(s, b, k),
    decreases m - k,
{
    if k < m {
        lemma_turns_error_stays(s, b, k, m - 1);
    }
}

/// The ensemble `a` with the outputs `outputs` is where the state `s` says
/// after the turns of the voices before `i`.
pub open spec fn turn_matches(a: ArpApplication, outputs: Seq<EventVec>, b: BufferSetup, s: BufferState, i: int) -> bool {
    let n = a.n();
    &&& s.voices.len() == n
    &&& s.outputs.len() == n
    &&& outputs.len() == n
    &&& square(s.snapshot, n)
    &&& forall|k: int| 0 <= k < n ==> #[trigger] a.arp_instances@[k].voice() == s.voices[k]
    &&& forall|k: int, c: int| 0 <= k < n && 0 <= c < n ==> #[trigger] cells(a.old_routing_matrix)[k][c] == s.snapshot[k][c]
    &&& forall|k: int| 0 <= k < i ==> event_items(#[trigger] outputs[k]) == s.outputs[k]
}

/// Whether the clock mode of `o` uses the external clock now.
pub open spec fn uses_external(o: ArpApplication) -> bool {
    match o.clock_mode {
        ClockMode::Internal => false,
        ClockMode::External => true,
        ClockMode::Auto => o.time - o.last_midiclock_received <= CLOCK_TIMEOUT,
    }
}

/// The transport messages of a buffer of `buffer_len` ticks for `o`, whose
/// transport line has the input `input`: a pending restart, the transport
/// among the input (clock pulses only when the external clock is used), then,
/// when it is not, internal clock pulses that cover the buffer.
pub open spec fn buffer_transport(o: ArpApplication, input: Seq<TimestampedMidiEvent>, buffer_len: u32) -> Seq<(u64, NoteEvent)> {
    let start = if o.restart_transport_pending {
        seq![(o.time, NoteEvent::Start)]
    } else {
        Seq::empty()
    };
    let received = received_transport(start, input, o.time, uses_external(o));
    let first = if o.next_midiclock_to_send > o.time {
        o.next_midiclock_to_send
    } else {
        o.time
    };
    if uses_external(o) {
        received
    } else {
        internal_clocks(received, first, (o.time + buffer_len) as u64, o.time_between_midiclocks)
    }
}

/// What stays fixed while `o` processes a buffer of `buffer_len` ticks with the inputs `inputs`.
pub open spec fn setup_of(o: ArpApplication, inputs: Seq<Seq<TimestampedMidiEvent>>, buffer_len: u32) -> BufferSetup {
    BufferSetup {
        ticks_per_step: Seq::new(o.n() as nat, |a: int| o.arp_instances@[a].ticks_per_step),
        patterns: Seq::new(o.n() as nat, |a: int| o.arp_instances@[a].active()),
        routing: cells(o.routing_matrix),
        inputs,
        transport: buffer_transport(o, inputs[0], buffer_len),
        time: o.time,
        limit: (o.time + buffer_len) as u64,
        in_channel: o.in_channel,
        out_channel: o.out_channel,
    }
}

/// The voices and routing snapshot of `o` before a buffer, with nothing sent yet.
pub open spec fn start_of(o: ArpApplication) -> BufferState {
    BufferState {
        voices: Seq::new(o.n() as nat, |a: int| o.arp_instances@[a].voice()),
        snapshot: cells(o.old_routing_matrix),
        outputs: Seq::new(o.n() as nat, |a: int| Seq::<(u64, NoteEvent)>::empty()),
    }
}

/// The inputs of all voices, as sequences.
pub open spec fn input_seqs(inputs: Seq<Vec<TimestampedMidiEvent>>) -> Seq<Seq<TimestampedMidiEvent>> {
    inputs.map_values(|v: Vec<TimestampedMidiEvent>| v@)
}

/// The N voices and their shared transport.
pub struct ArpApplication {
    /// Ticks since start; advanced by each buffer's length.
    pub time: u64,
    pub last_midiclock_received: u64,
    pub next_midiclock_to_send: u64,
    /// The routing matrix as it was in the last buffer.
    pub old_routing_matrix: Vec<Vec<bool>>,
    pub restart_transport_pending: bool,
    pub in_channel: Channel,
    pub out_channel: Channel,
    /// Ticks between internal clock pulses, at least one.
    pub time_between_midiclocks: u64,
    pub clock_mode: ClockMode,
    pub routing_matrix: Vec<Vec<bool>>,
    pub active_arp: usize,
    pub arp_instances: Vec<ArpeggiatorInstance>,
}

/// The voices `x` and `y` differ at most in their arpeggiators.
pub open spec fn same_but_arp(x: ArpeggiatorInstance, y: ArpeggiatorInstance) -> bool {
    &&& x.ticks_per_step == y.ticks_per_step
    &&& x.tick_counter == y.tick_counter
    &&& x.patterns == y.patterns
    &&& x.active_pattern == y.active_pattern
    &&& x.tempo == y.tempo
    &&& x.pending_events == y.pending_events
}

/// The voices `x` and `y` have the same clock division and patterns.
pub open spec fn same_setup(x: ArpeggiatorInstance, y: ArpeggiatorInstance) -> bool {
    &&& x.ticks_per_step == y.ticks_per_step
    &&& x.patterns == y.patterns
    &&& x.active_pattern == y.active_pattern
}

impl ArpApplication {
    /// The number of voices.
    pub open spec fn n(&self) -> int {
        self.arp_instances@.len() as int
    }

    /// Runnable: at least one voice, each playable with nothing queued before
    /// `time`, a snapshot of the routing matrix of the right size, a nonzero
    /// clock interval, and no external clock pulse in the future.
    pub open spec fn wf(&self) -> bool {
        &&& self.n() >= 1
        &&& forall|i: int| 0 <= i < self.n() ==> (#[trigger] self.arp_instances@[i]).wf()
        &&& square(cells(self.old_routing_matrix), self.n())
        &&& self.time_between_midiclocks >= 1
        &&& self.last_midiclock_received <= self.time
        &&& forall|i: int| 0 <= i < self.n() ==> all_at_or_after((#[trigger] self.arp_instances@[i]).pending(), self.time)
    }

    /// `n_arps` voices, unrouted, on channel 0, clocked internally while no
    /// external clock is present.
    pub fn new(n_arps: usize) -> (r: ArpApplication)
        requires
            n_arps >= 1,
        ensures
            r.wf(),
            r.n() == n_arps,
            forall|i: int| 0 <= i < n_arps ==> (#[trigger] r.arp_instances@[i]).is_fresh(),
            r.time == 0,
            r.clock_mode == ClockMode::Auto,
            r.time_between_midiclocks == 1000,
            r.in_channel == Channel(0),
            r.out_channel == Channel(0),
            r.active_arp == 0,
            !r.restart_transport_pending,
            routing_valid(cells(r.routing_matrix)),
            forall|i: int, j: int| 0 <= i < n_arps && 0 <= j < n_arps ==> !#[trigger] cells(r.routing_matrix)[i][j],
    {
        let mut arp_instances: Vec<ArpeggiatorInstance> = Vec::new();
        let mut i: usize = 0;
        while i < n_arps
            invariant
                i <= n_arps,
                arp_instances@.len() == i,
                forall|k: int| 0 <= k < i ==> (#[trigger] arp_instances@[k]).wf(),
                forall|k: int| 0 <= k < i ==> (#[trigger] arp_instances@[k]).is_fresh(),
            decreases n_arps - i,
        {
            arp_instances.push(ArpeggiatorInstance::new());
            i += 1;
        }
        ArpApplication {
            time: 0,
            restart_transport_pending: false,
            last_midiclock_received: 0,
            next_midiclock_to_send: 0,
            time_between_midiclocks: 24000 / 24,
            clock_mode: ClockMode::Auto,
            arp_instances,
            routing_matrix: unrouted(n_arps),
            active_arp: 0,
            in_channel: Channel(0),
            out_channel: Channel(0),
            old_routing_matrix: unrouted(n_arps),
        }
    }

    /// The ensemble restored from a saved configuration, at time zero with no
    /// restart pending; a configuration that cannot be run is refused.
    pub fn from_saved_state(
        in_channel: Channel,
        out_channel: Channel,
        time_between_midiclocks: u64,
        clock_mode: ClockMode,
        routing_matrix: Vec<Vec<bool>>,
        active_arp: usize,
        arp_instances: Vec<ArpeggiatorInstance>,
    ) -> (r: Result<ArpApplication, LoadError>)
        ensures
            arp_instances@.len() == 0 ==> r == Err::<ArpApplication, LoadError>(LoadError::NoInstances),
            arp_instances@.len() > 0 && !(routing_valid(cells(routing_matrix)) && cells(routing_matrix).len() == arp_instances@.len())
                ==> r == Err::<ArpApplication, LoadError>(LoadError::RoutingMatrix),
            arp_instances@.len() > 0 && routing_valid(cells(routing_matrix)) && cells(routing_matrix).len() == arp_instances@.len()
                && !(forall|i: int| 0 <= i < arp_instances@.len() ==> (#[trigger] arp_instances@[i]).wf())
                ==> r == Err::<ArpApplication, LoadError>(LoadError::InvalidInstance),
            arp_instances@.len() > 0 && routing_valid(cells(routing_matrix)) && cells(routing_matrix).len() == arp_instances@.len()
                && (forall|i: int| 0 <= i < arp_instances@.len() ==> (#[trigger] arp_instances@[i]).wf())
                && time_between_midiclocks == 0 ==> r == Err::<ArpApplication, LoadError>(LoadError::ClockInterval),
            r is Ok <==> arp_instances@.len() > 0 && routing_valid(cells(routing_matrix))
                && cells(routing_matrix).len() == arp_instances@.len()
                && (forall|i: int| 0 <= i < arp_instances@.len() ==> (#[trigger] arp_instances@[i]).wf())
                && time_between_midiclocks >= 1,
            r matches Ok(app) ==> {
                &&& app.wf()
                &&& app.time == 0
                &&& app.last_midiclock_received == 0
                &&& app.next_midiclock_to_send == 0
                &&& !app.restart_transport_pending
                &&& app.in_channel == in_channel
                &&& app.out_channel == out_channel
                &&& app.time_between_midiclocks == time_between_midiclocks
                &&& app.clock_mode == clock_mode
                &&& app.routing_matrix == routing_matrix
                &&& app.active_arp == active_arp
                &&& app.arp_instances == arp_instances
                &&& forall|i: int, j: int| 0 <= i < app.n() && 0 <= j < app.n() ==> !#[trigger] cells(app.old_routing_matrix)[i][j]
            },
    {
        let n = arp_instances.len();
        if n == 0 {
            return Err(LoadError::NoInstances);
        }
        if routing_matrix.len() != n || !check_routing_matrix(&routing_matrix) {
            return Err(LoadError::RoutingMatrix);
        }
        let mut i: usize = 0;
        while i < n
            invariant
                i <= n == arp_instances@.len(),
                routing_valid(cells(routing_matrix)),
                cells(routing_matrix).len() == n,
                forall|k: int| 0 <= k < i ==> (#[trigger] arp_instances@[k]).wf(),
            decreases n - i,
        {
            if !arp_instances[i].is_playable() {
                return Err(LoadError::InvalidInstance);
            }
            i += 1;
        }
        if time_between_midiclocks == 0 {
            return Err(LoadError::ClockInterval);
        }
        Ok(ArpApplication {
            time: 0,
            restart_transport_pending: false,
            last_midiclock_received: 0,
            next_midiclock_to_send: 0,
            time_between_midiclocks,
            clock_mode,
            arp_instances,
            routing_matrix,
            active_arp,
            in_channel,
            out_channel,
            old_routing_matrix: unrouted(n),
        })
    }

    pub fn n_arps(&self) -> (r: usize)
        ensures
            r == self.n(),
    {
        self.arp_instances.len()
    }

    /// Whether an external clock pulse came within the timeout, and whether the
    /// clock mode therefore uses the external clock.
    pub fn clock_source(&self) -> (r: (bool, bool))
        requires
            self.last_midiclock_received <= self.time,
        ensures
            r.0 == (self.time - self.last_midiclock_received <= CLOCK_TIMEOUT),
            r.1 == match self.clock_mode {
                ClockMode::Internal => false,
                ClockMode::External => true,
                ClockMode::Auto => r.0,
            },
    {
        let external_clock_present = self.time - self.last_midiclock_received <= CLOCK_TIMEOUT;
        let use_external_clock = match self.clock_mode {
            ClockMode::Internal => false,
            ClockMode::External => true,
            ClockMode::Auto => external_clock_present,
        };
        (external_clock_present, use_external_clock)
    }

    /// The transport messages of a buffer of `buffer_len` ticks: a pending
    /// restart, then the transport among `input` (clock pulses only when the
    /// external clock is used), then, when it is not, internal clock pulses
    /// that cover the whole buffer.
    fn collect_transport(&mut self, use_external: bool, input: &[TimestampedMidiEvent], buffer_len: u32) -> (r: EventVec)
        requires
            old(self).time + 2 * 0xFFFF_FFFFu64 <= u64::MAX,
            old(self).time_between_midiclocks >= 1,
        ensures
            ({
                let o = *old(self);
                let start = if o.restart_transport_pending {
                    seq![(o.time, NoteEvent::Start)]
                } else {
                    Seq::empty()
                };
                let received = received_transport(start, input@, o.time, use_external);
                let first = if o.next_midiclock_to_send > o.time {
                    o.next_midiclock_to_send
                } else {
                    o.time
                };
                let end = (o.time + buffer_len) as u64;
                &&& event_items(r) == if use_external {
                    received
                } else {
                    internal_clocks(received, first, end, o.time_between_midiclocks)
                }
                &&& final(self).next_midiclock_to_send == if use_external {
                    o.next_midiclock_to_send
                } else {
                    next_clock_after(first, end, o.time_between_midiclocks)
                }
            }),
            all_at_or_after(event_items(r), old(self).time),
            final(self).restart_transport_pending == false,
            final(self).last_midiclock_received == if contains_clock(input@) {
                old(self).time
            } else {
                old(self).last_midiclock_received
            },
            final(self).time == old(self).time,
            final(self).time_between_midiclocks == old(self).time_between_midiclocks,
            final(self).arp_instances == old(self).arp_instances,
            final(self).routing_matrix == old(self).routing_matrix,
            final(self).old_routing_matrix == old(self).old_routing_matrix,
            final(self).in_channel == old(self).in_channel,
            final(self).out_channel == old(self).out_channel,
            final(self).clock_mode == old(self).clock_mode,
            final(self).active_arp == old(self).active_arp,
    {
        let mut transport = event_vec_new();
        if self.restart_transport_pending {
            let ok = event_vec_push(&mut transport, (self.time, NoteEvent::Start));
            self.restart_transport_pending = false;
        }
        let ghost start = event_items(transport);
        let ghost last0 = self.last_midiclock_received;
        proof {
            lemma_received_after(start, input@, self.time, use_external);
        }
        let mut k: usize = 0;
        while k < input.len()
            invariant
                k <= input.len(),
                self.time == old(self).time,
                self.time + 2 * 0xFFFF_FFFFu64 <= u64::MAX,
                event_items(transport) == received_transport(start, input@.take(k as int), self.time, use_external),
                event_items(transport).len() <= TRANSPORT_CAPACITY,
                self.last_midiclock_received == if contains_clock(input@.take(k as int)) {
                    self.time
                } else {
                    last0
                },
                self.next_midiclock_to_send == old(self).next_midiclock_to_send,
                self.time_between_midiclocks == old(self).time_between_midiclocks,
                self.restart_transport_pending == false,
                self.arp_instances == old(self).arp_instances,
                self.routing_matrix == old(self).routing_matrix,
                self.old_routing_matrix == old(self).old_routing_matrix,
                self.in_channel == old(self).in_channel,
                self.out_channel == old(self).out_channel,
                self.clock_mode == old(self).clock_mode,
                self.active_arp == old(self).active_arp,
            decreases input.len() - k,
        {
            let event = input[k];
            let timestamp = self.time + event.time as u64;
            proof {
                assert(input@.take(k + 1).drop_last() =~= input@.take(k as int));
                assert(contains_clock(input@.take(k + 1)) == (contains_clock(input@.take(k as int))
                    || event.event == NoteEvent::Clock)) by {
                    if event.event == NoteEvent::Clock {
                        assert(input@.take(k + 1)[k as int] == event);
                    }
                    if contains_clock(input@.take(k as int)) {
                        let w = choose|w: int| 0 <= w < k && (#[trigger] input@.take(k as int)[w]).event == NoteEvent::Clock;
                        assert(input@.take(k + 1)[w] == input@.take(k as int)[w]);
                    }
                    if contains_clock(input@.take(k + 1)) {
                        let w = choose|w: int| 0 <= w < k + 1 && (#[trigger] input@.take(k + 1)[w]).event == NoteEvent::Clock;
                        if w < k {
                            assert(input@.take(k as int)[w] == input@.take(k + 1)[w]);
                        }
                    }
                }
            }
            match event.event {
                NoteEvent::Clock => {
                    self.last_midiclock_received = self.time;
                    if use_external {
                        push_transport(&mut transport, (timestamp, NoteEvent::Clock));
                    }
                },
                NoteEvent::Start => {
                    push_transport(&mut transport, (timestamp, NoteEvent::Start));
                },
                _ => {},
            }
            k += 1;
        }
        assert(input@.take(input@.len() as int) =~= input@);
        if !use_external {
            if self.next_midiclock_to_send < self.time {
                self.next_midiclock_to_send = self.time;
            }
            let end: u64 = self.time + buffer_len as u64;
            let interval = self.time_between_midiclocks;
            let ghost received = event_items(transport);
            let ghost first = self.next_midiclock_to_send;
            proof {
                lemma_clocks_after(received, first, end, interval, self.time);
            }
            while self.next_midiclock_to_send < end
                invariant
                    interval >= 1,
                    internal_clocks(event_items(transport), self.next_midiclock_to_send, end, interval)
                        == internal_clocks(received, first, end, interval),
                    event_items(transport).len() <= TRANSPORT_CAPACITY,
                    next_clock_after(self.next_midiclock_to_send, end, interval) == next_clock_after(first, end, interval),
                    self.time == old(self).time,
                    self.time_between_midiclocks == interval,
                    self.restart_transport_pending == false,
                    self.last_midiclock_received == if contains_clock(input@) {
                        old(self).time
                    } else {
                        last0
                    },
                    self.arp_instances == old(self).arp_instances,
                    self.routing_matrix == old(self).routing_matrix,
                    self.old_routing_matrix == old(self).old_routing_matrix,
                    self.in_channel == old(self).in_channel,
                    self.out_channel == old(self).out_channel,
                    self.clock_mode == old(self).clock_mode,
                    self.active_arp == old(self).active_arp,
                decreases (if self.next_midiclock_to_send < end { end - self.next_midiclock_to_send } else { 0 }),
            {
                push_transport(&mut transport, (self.next_midiclock_to_send, NoteEvent::Clock));
                self.next_midiclock_to_send = self.next_midiclock_to_send.saturating_add(interval);
            }
        }
        transport
    }
}

impl ArpApplication {
    /// `x` and `y` agree on everything but their voices.
    pub open spec fn same_but_instances(x: ArpApplication, y: ArpApplication) -> bool {
        &&& x.time == y.time
        &&& x.last_midiclock_received == y.last_midiclock_received
        &&& x.next_midiclock_to_send == y.next_midiclock_to_send
        &&& x.old_routing_matrix == y.old_routing_matrix
        &&& x.restart_transport_pending == y.restart_transport_pending
        &&& x.in_channel == y.in_channel
        &&& x.out_channel == y.out_channel
        &&& x.time_between_midiclocks == y.time_between_midiclocks
        &&& x.clock_mode == y.clock_mode
        &&& x.routing_matrix == y.routing_matrix
        &&& x.active_arp == y.active_arp
    }

    /// Processes one buffer of `buffer_len` ticks. `inputs[i]` is the input of
    /// voice `i` during the buffer (the transport line is that of voice 0), and
    /// `outputs[i]` receives what voice `i` sends, with absolute times.
    ///
    /// The routing matrix is checked first; an invalid one is fatal and
    /// changes nothing. Then the transport of the buffer is collected, and
    /// the voices are processed in ascending order: each hears its input,
    /// follows the transport, releases notes across routes that were cut,
    /// delivers every event due before the buffer's end and plays the note
    /// events among them into the later voices it is routed to. A chord or a
    /// queue that overflows is fatal. What each voice's turn does is
    /// `voice_turn`; the buffer is `turns` of all voices, from `start_of` the
    /// ensemble, with what stays fixed given by `setup_of`.
    pub fn process(
        &mut self,
        buffer_len: u32,
        inputs: &Vec<Vec<TimestampedMidiEvent>>,
        outputs: &mut Vec<EventVec>,
    ) -> (r: Result<(), EngineError>)
        requires
            old(self).wf(),
            inputs@.len() == old(self).n(),
            old(outputs)@.len() == old(self).n(),
            old(self).time + 2 * 0xFFFF_FFFFu64 <= u64::MAX,
        ensures
            (r == Err::<(), EngineError>(EngineError::InvalidRoutingMatrix)) <==> !routing_valid(
                cells(old(self).routing_matrix),
            ) || old(self).n() != cells(old(self).routing_matrix).len(),
            r == Err::<(), EngineError>(EngineError::InvalidRoutingMatrix) ==> *final(self) == *old(self),
            routing_valid(cells(old(self).routing_matrix)) && old(self).n() == cells(old(self).routing_matrix).len() ==> {
                let res = turns(start_of(*old(self)), setup_of(*old(self), input_seqs(inputs@), buffer_len), old(self).n());
                &&& (r is Ok <==> res is Ok)
                &&& (res is Err ==> r == Err::<(), EngineError>(res->Err_0))
                &&& (r is Ok ==> forall|a: int| 0 <= a < old(self).n() ==> #[trigger] final(self).arp_instances@[a].voice() == res->Ok_0.voices[a])
                &&& (r is Ok ==> forall|a: int| 0 <= a < old(self).n() ==> event_items(#[trigger] final(outputs)@[a]) == res->Ok_0.outputs[a])
                &&& (r is Ok ==> forall|a: int, c: int| 0 <= a < old(self).n() && 0 <= c < old(self).n() ==>
                    #[trigger] cells(final(self).old_routing_matrix)[a][c] == res->Ok_0.snapshot[a][c])
            },
            r is Ok ==> {
                let limit = (old(self).time + buffer_len) as u64;
                let n = old(self).n();
                let use_external = match old(self).clock_mode {
                    ClockMode::Internal => false,
                    ClockMode::External => true,
                    ClockMode::Auto => old(self).time - old(self).last_midiclock_received <= CLOCK_TIMEOUT,
                };
                let first = if old(self).next_midiclock_to_send > old(self).time {
                    old(self).next_midiclock_to_send
                } else {
                    old(self).time
                };
                &&& final(self).wf()
                &&& final(self).n() == n
                &&& final(self).time == limit
                &&& final(self).routing_matrix == old(self).routing_matrix
                &&& final(self).in_channel == old(self).in_channel
                &&& final(self).out_channel == old(self).out_channel
                &&& final(self).clock_mode == old(self).clock_mode
                &&& final(self).time_between_midiclocks == old(self).time_between_midiclocks
                &&& final(self).active_arp == old(self).active_arp
                &&& forall|i: int| 0 <= i < n ==> same_setup(#[trigger] final(self).arp_instances@[i], old(self).arp_instances@[i])
                &&& final(self).restart_transport_pending == false
                &&& final(self).last_midiclock_received == if contains_clock(inputs@[0]@) {
                    old(self).time
                } else {
                    old(self).last_midiclock_received
                }
                &&& final(self).next_midiclock_to_send == if use_external {
                    old(self).next_midiclock_to_send
                } else {
                    next_clock_after(first, limit, old(self).time_between_midiclocks)
                }
                &&& forall|i: int, j: int| 0 <= i < j < n ==> #[trigger] cells(final(self).old_routing_matrix)[i][j]
                    == cells(old(self).routing_matrix)[i][j]
                &&& final(outputs)@.len() == n
                &&& forall|i: int| 0 <= i < n ==> delivered(
                    event_items(#[trigger] final(outputs)@[i]),
                    final(self).arp_instances@[i].pending(),
                    limit,
                    old(self).out_channel,
                )
                &&& forall|i: int| 0 <= i < n ==> all_at_or_after(event_items(#[trigger] final(outputs)@[i]), old(self).time)
            },
    {
        let n = self.arp_instances.len();
        if self.routing_matrix.len() != n || !check_routing_matrix(&self.routing_matrix) {
            return Err(EngineError::InvalidRoutingMatrix);
        }
        let (_external_clock_present, use_external_clock) = self.clock_source();
        let transport = self.collect_transport(use_external_clock, inputs[0].as_slice(), buffer_len);
        let limit: u64 = self.time + buffer_len as u64;
        let ghost mid = *self;
        let ghost b = setup_of(*old(self), input_seqs(inputs@), buffer_len);
        let ghost start = start_of(*old(self));
        proof {
            assert(event_items(transport) == b.transport);
            assert(start.voices.len() == n);
        }
        let mut i: usize = 0;
        while i < n
            invariant
                i <= n == self.n() == mid.n(),
                self.wf(),
                inputs@.len() == n,
                outputs@.len() == n,
                mid.routing_matrix == old(self).routing_matrix,
                old(self).n() == n,
                self.time == mid.time,
                self.time == b.time,
                self.routing_matrix == mid.routing_matrix,
                self.last_midiclock_received == mid.last_midiclock_received,
                self.next_midiclock_to_send == mid.next_midiclock_to_send,
                self.restart_transport_pending == mid.restart_transport_pending,
                self.out_channel == mid.out_channel,
                self.in_channel == mid.in_channel,
                self.out_channel == b.out_channel,
                self.in_channel == b.in_channel,
                routing_valid(cells(self.routing_matrix)),
                cells(self.routing_matrix).len() == n,
                cells(self.routing_matrix) == b.routing,
                limit == self.time + buffer_len,
                limit == b.limit,
                self.time + 2 * 0xFFFF_FFFFu64 <= u64::MAX,
                forall|a: int, c: int| 0 <= a < i && a < c < n ==> #[trigger] cells(self.old_routing_matrix)[a][c]
                    == cells(self.routing_matrix)[a][c],
                forall|a: int| 0 <= a < i ==> delivered(
                    event_items(#[trigger] outputs@[a]),
                    self.arp_instances@[a].pending(),
                    limit,
                    self.out_channel,
                ),
                forall|a: int| 0 <= a < i ==> all_at_or_after(event_items(#[trigger] outputs@[a]), self.time),
                all_at_or_after(event_items(transport), self.time),
                self.clock_mode == old(self).clock_mode,
                self.time_between_midiclocks == old(self).time_between_midiclocks,
                self.active_arp == old(self).active_arp,
                forall|a: int| 0 <= a < n ==> same_setup(#[trigger] self.arp_instances@[a], old(self).arp_instances@[a]),
                b == setup_of(*old(self), input_seqs(inputs@), buffer_len),
                b.inputs.len() == n,
                b.ticks_per_step.len() == n,
                b.patterns.len() == n,
                start == start_of(*old(self)),
                event_items(transport) == b.transport,
                turns(start, b, i as int) is Ok,
                turn_matches(*self, outputs@, b, turns(start, b, i as int)->Ok_0, i as int),
            decreases n - i,
        {
            let ghost s = turns(start, b, i as int)->Ok_0;
            let ghost pre = *self;
            let ghost pre_out = outputs@;
            proof {
                assert(inputs[i as int]@ == b.inputs[i as int]);
                assert(b.ticks_per_step[i as int] == old(self).arp_instances@[i as int].ticks_per_step);
                assert(b.patterns[i as int] == old(self).arp_instances@[i as int].active());
                assert(same_setup(self.arp_instances@[i as int], old(self).arp_instances@[i as int]));
            }
            let res = self.take_turn(i, inputs[i].as_slice(), event_vec_slice(&transport), limit, outputs, Ghost(b), Ghost(s));
            match res {
                Err(e) => {
                    proof {
                        assert(turns(start, b, i + 1) == Err::<BufferState, EngineError>(e));
                        lemma_turns_error_stays(start, b, i + 1, n as int);
                    }
                    return Err(e);
                },
                Ok(()) => {},
            }
            proof {
                assert(turns(start, b, i + 1) == voice_turn(s, b, i as int));
                assert forall|a: int| 0 <= a < n implies same_setup(#[trigger] self.arp_instances@[a], old(self).arp_instances@[a]) by {
                    assert(same_setup(self.arp_instances@[a], pre.arp_instances@[a]));
                }
                assert forall|a: int| 0 <= a < i + 1 implies delivered(
                    event_items(#[trigger] outputs@[a]),
                    self.arp_instances@[a].pending(),
                    limit,
                    self.out_channel,
                ) by {
                    if a < i {
                        assert(outputs@[a] == pre_out[a]);
                        assert(self.arp_instances@[a].pending() == pre.arp_instances@[a].pending());
                    }
                }
                assert forall|a: int| 0 <= a < i + 1 implies all_at_or_after(event_items(#[trigger] outputs@[a]), self.time) by {
                    if a < i {
                        assert(outputs@[a] == pre_out[a]);
                    }
                }
                assert forall|a: int, c: int| 0 <= a < i + 1 && a < c < n implies #[trigger] cells(self.old_routing_matrix)[a][c]
                    == cells(self.routing_matrix)[a][c] by {
                    if a < i {
                        assert(cells(self.old_routing_matrix)[a][c] == cells(pre.old_routing_matrix)[a][c]);
                    }
                }
            }
            i += 1;
        }
        proof {
            assert forall|a: int| 0 <= a < n implies all_at_or_after((#[trigger] self.arp_instances@[a]).pending(), limit) by {
                assert(delivered(event_items(outputs@[a]), self.arp_instances@[a].pending(), limit, self.out_channel));
            }
        }
        self.time = limit;
        Ok(())
    }

    /// Voice `i`'s turn within `process`; see `voice_turn`.
    fn take_turn(
        &mut self,
        i: usize,
        input: &[TimestampedMidiEvent],
        transport: &[(u64, NoteEvent)],
        limit: u64,
        outputs: &mut Vec<EventVec>,
        Ghost(b): Ghost<BufferSetup>,
        Ghost(s): Ghost<BufferState>,
    ) -> (r: Result<(), EngineError>)
        requires
            old(self).wf(),
            i < old(self).n(),
            old(outputs)@.len() == old(self).n(),
            old(self).time + 2 * 0xFFFF_FFFFu64 <= u64::MAX,
            routing_valid(cells(old(self).routing_matrix)),
            cells(old(self).routing_matrix).len() == old(self).n(),
            cells(old(self).routing_matrix) == b.routing,
            old(self).time == b.time,
            old(self).in_channel == b.in_channel,
            old(self).out_channel == b.out_channel,
            limit == b.limit,
            limit >= old(self).time,
            transport@ == b.transport,
            all_at_or_after(transport@, old(self).time),
            b.ticks_per_step.len() == old(self).n(),
            b.patterns.len() == old(self).n(),
            b.inputs.len() == old(self).n(),
            input@ == b.inputs[i as int],
            b.ticks_per_step[i as int] == old(self).arp_instances@[i as int].ticks_per_step,
            b.patterns[i as int] == old(self).arp_instances@[i as int].active(),
            turn_matches(*old(self), old(outputs)@, b, s, i as int),
        ensures
            match voice_turn(s, b, i as int) {
                Err(e) => r == Err::<(), EngineError>(e),
                Ok(s2) => r is Ok && turn_matches(*final(self), final(outputs)@, b, s2, i + 1),
            },
            r is Ok ==> {
                &&& final(self).wf()
                &&& final(self).n() == old(self).n()
                &&& Self::same_but_instances_and_snapshot(*final(self), *old(self))
                &&& final(outputs)@.len() == old(outputs)@.len()
                &&& forall|a: int| 0 <= a < old(self).n() && a != i ==> #[trigger] final(outputs)@[a] == old(outputs)@[a]
                &&& forall|a: int| 0 <= a < old(self).n() && a != i ==> (#[trigger] final(self).arp_instances@[a]).pending() == old(self).arp_instances@[a].pending()
                &&& forall|a: int| 0 <= a < old(self).n() ==> same_setup(#[trigger] final(self).arp_instances@[a], old(self).arp_instances@[a])
                &&& delivered(event_items(final(outputs)@[i as int]), final(self).arp_instances@[i as int].pending(), limit, old(self).out_channel)
                &&& all_at_or_after(event_items(final(outputs)@[i as int]), old(self).time)
                &&& forall|a: int, c: int| 0 <= a < old(self).n() && 0 <= c < old(self).n() ==> #[trigger] cells(final(self).old_routing_matrix)[a][c]
                    == if a == i && c > i { cells(old(self).routing_matrix)[a][c] } else { cells(old(self).old_routing_matrix)[a][c] }
            },
    {
        let n = self.arp_instances.len();
        let ghost before_ingest = *self;
        let ghost v = s.voices[i as int];
        assert(v == self.arp_instances@[i as int].voice());
        let ingested_ok = self.ingest(i, input);
        if ingested_ok.is_err() {
            assert(ingest_overflows(v.arp, b.inputs[i as int], b.time, b.in_channel));
            return Err(EngineError::ChordFull);
        }
        let ghost v1 = with_arp(v, ingested(v.arp, b.inputs[i as int], b.time, b.in_channel));
        assert(self.arp_instances@[i as int].voice() == v1);
        assert(self.arp_instances@[i as int].ticks_per_step == b.ticks_per_step[i as int]);
        assert(self.arp_instances@[i as int].active() == b.patterns[i as int]);
        let fed = self.feed_transport(i, transport);
        if fed.is_err() {
            assert(followed(v1, b.ticks_per_step[i as int], b.patterns[i as int], b.transport) is None);
            return Err(EngineError::QueueFull);
        }
        let ghost v2 = self.arp_instances@[i as int].voice();
        let ghost vs = after_release(s.voices.update(i as int, v2), s.snapshot, b, i as int);
        let ghost before_release = *self;
        self.release_cut_routes(i);
        proof {
            assert(cells(before_release.old_routing_matrix) == cells(old(self).old_routing_matrix));
            assert(before_release.arp_instances@[i as int].pending() == v2.pending);
            assert forall|a: int| 0 <= a < n implies #[trigger] self.arp_instances@[a].voice() == vs[a] by {
                assert(same_but_arp(self.arp_instances@[a], before_release.arp_instances@[a]));
                if a != i as int {
                    assert(before_release.arp_instances@[a] == old(self).arp_instances@[a]);
                    assert(old(self).arp_instances@[a].voice() == s.voices[a]);
                }
            }
        }
        let ghost before_drain = *self;
        let due = self.arp_instances[i].process_pending_events(limit);
        proof {
            assert(all_at_or_after(before_drain.arp_instances@[i as int].pending(), self.time));
            lemma_taken_from(
                before_drain.arp_instances@[i as int].pending(),
                self.time,
                limit,
                event_items(due),
                self.arp_instances@[i as int].pending(),
            );
        }
        let ghost after_drain = *self;
        let ghost dd = due_part(v2.pending, b.limit);
        let ghost vs2 = vs.update(i as int, VoiceState { pending: kept_part(v2.pending, b.limit), ..v2 });
        proof {
            assert(event_items(due) == dd);
            assert forall|a: int| 0 <= a < n implies #[trigger] self.arp_instances@[a].voice() == vs2[a] by {
                if a != i as int {
                    assert(self.arp_instances@[a] == before_drain.arp_instances@[a]);
                }
            }
        }
        let ghost before_forward = *self;
        if self.forward(i, event_vec_slice(&due)).is_err() {
            proof {
                let j = choose|j: int| i < j < n && #[trigger] cells(before_forward.routing_matrix)[i as int][j]
                    && play_overflows(before_forward.arp_instances@[j].arp@, event_items(due));
                assert(vs2[j].arp == before_forward.arp_instances@[j].voice().arp);
                assert(forward_overflows(vs2, b, i as int, dd));
            }
            return Err(EngineError::ChordFull);
        }
        let delivered_events = rechannel_all(event_vec_slice(&due), self.out_channel);
        let ghost before_out = outputs@;
        outputs.set(i, delivered_events);
        proof {
            if forward_overflows(vs2, b, i as int, dd) {
                let j = choose|j: int| i < j < vs2.len() && #[trigger] b.routing[i as int][j] && play_overflows(vs2[j].arp, dd);
                assert(vs2[j].arp == before_forward.arp_instances@[j].voice().arp);
                assert(false);
            }
            let s2 = BufferState {
                voices: after_forward(vs2, b, i as int, dd),
                snapshot: snapshot_after(s.snapshot, b, i as int),
                outputs: s.outputs.update(i as int, dd.map_values(on_channel(b.out_channel))),
            };
            assert(voice_turn(s, b, i as int) == Ok::<BufferState, EngineError>(s2));
            assert(cells(before_forward.routing_matrix) == b.routing);
            assert forall|a: int| 0 <= a < n implies #[trigger] self.arp_instances@[a].voice() == s2.voices[a] by {
                assert(same_but_arp(self.arp_instances@[a], before_forward.arp_instances@[a]));
                assert(before_forward.arp_instances@[a].voice() == vs2[a]);
            }
            assert forall|a: int, c: int| 0 <= a < n && 0 <= c < n implies #[trigger] cells(self.old_routing_matrix)[a][c] == s2.snapshot[a][c] by {
                assert(cells(self.old_routing_matrix)[a][c] == cells(before_drain.old_routing_matrix)[a][c]);
                assert(cells(before_drain.old_routing_matrix)[a][c] == cells(before_release.old_routing_matrix)[a][c] || a == i as int);
            }
            assert forall|a: int| 0 <= a < i + 1 implies event_items(#[trigger] outputs@[a]) == s2.outputs[a] by {
                if a < i {
                    assert(outputs@[a] == before_out[a]);
                }
            }
            let d = event_items(due);
            let out = event_items(outputs@[i as int]);
            assert(out == d.map_values(on_channel(self.out_channel)));
            assert(self.arp_instances@[i as int].pending() == after_drain.arp_instances@[i as int].pending());
        }
        Ok(())
    }

    /// `x` and `y` agree on everything but their voices and routing snapshot.
    pub open spec fn same_but_instances_and_snapshot(x: ArpApplication, y: ArpApplication) -> bool {
        &&& x.time == y.time
        &&& x.last_midiclock_received == y.last_midiclock_received
        &&& x.next_midiclock_to_send == y.next_midiclock_to_send
        &&& x.restart_transport_pending == y.restart_transport_pending
        &&& x.in_channel == y.in_channel
        &&& x.out_channel == y.out_channel
        &&& x.time_between_midiclocks == y.time_between_midiclocks
        &&& x.clock_mode == y.clock_mode
        &&& x.routing_matrix == y.routing_matrix
        &&& x.active_arp == y.active_arp
    }

    /// Voice `i` hears this buffer's note input on the input channel.
    fn ingest(&mut self, i: usize, input: &[TimestampedMidiEvent]) -> (r: Result<(), EngineError>)
        requires
            old(self).wf(),
            i < old(self).n(),
            old(self).time + 0xFFFF_FFFFu64 <= u64::MAX,
        ensures
            final(self).wf(),
            Self::same_but_instances(*final(self), *old(self)),
            final(self).n() == old(self).n(),
            forall|k: int| 0 <= k < old(self).n() && k != i ==> #[trigger] final(self).arp_instances@[k] == old(self).arp_instances@[k],
            same_but_arp(final(self).arp_instances@[i as int], old(self).arp_instances@[i as int]),
            r is Err <==> ingest_overflows(old(self).arp_instances@[i as int].arp@, input@, old(self).time, old(self).in_channel),
            r is Err ==> r == Err::<(), EngineError>(EngineError::ChordFull),
            r is Ok ==> final(self).arp_instances@[i as int].arp@ == ingested(
                old(self).arp_instances@[i as int].arp@,
                input@,
                old(self).time,
                old(self).in_channel,
            ),
    {
        let ghost a0 = self.arp_instances@[i as int].arp@;
        let ghost pre = *self;
        let mut k: usize = 0;
        let mut failed = false;
        while k < input.len() && !failed
            invariant
                k <= input.len(),
                i < self.n(),
                self.wf(),
                Self::same_but_instances(*self, pre),
                self.n() == pre.n(),
                pre == *old(self),
                pre.time + 0xFFFF_FFFFu64 <= u64::MAX,
                forall|m: int| 0 <= m < pre.n() && m != i ==> #[trigger] self.arp_instances@[m] == pre.arp_instances@[m],
                same_but_arp(self.arp_instances@[i as int], pre.arp_instances@[i as int]),
                failed ==> ingest_overflows(a0, input@, pre.time, pre.in_channel),
                !failed ==> !ingest_overflows(a0, input@.take(k as int), pre.time, pre.in_channel),
                !failed ==> self.arp_instances@[i as int].arp@ == ingested(a0, input@.take(k as int), pre.time, pre.in_channel),
            decreases input.len() - k,
        {
            let ev = input[k];
            let timestamp = self.time + ev.time as u64;
            proof {
                assert(input@.take(k + 1).drop_last() =~= input@.take(k as int));
                reveal_with_fuel(play_overflows, 2);
                reveal_with_fuel(played, 2);
            }
            match ev.event {
                NoteEvent::NoteOn(n, _, ch) => {
                    if ch == self.in_channel {
                        let res = self.arp_instances[i].arp.note_on(n, timestamp);
                        if res.is_err() {
                            proof {
                                lemma_ingest_overflow_prefix(a0, input@, k + 1, pre.time, pre.in_channel);
                            }
                            failed = true;
                        }
                    }
                },
                NoteEvent::NoteOff(n, ch) => {
                    if ch == self.in_channel {
                        self.arp_instances[i].arp.note_off(n, timestamp);
                    }
                },
                _ => {},
            }
            k += 1;
        }
        if failed {
            return Err(EngineError::ChordFull);
        }
        assert(input@.take(input@.len() as int) =~= input@);
        Ok(())
    }

    /// Voice `i` queues this buffer's transport messages and follows them:
    /// a clock pulse counts towards its next step, a start restarts it.
    fn feed_transport(&mut self, i: usize, transport: &[(u64, NoteEvent)]) -> (r: Result<(), EngineError>)
        requires
            old(self).wf(),
            i < old(self).n(),
            all_at_or_after(transport@, old(self).time),
        ensures
            final(self).wf(),
            Self::same_but_instances(*final(self), *old(self)),
            final(self).n() == old(self).n(),
            forall|k: int| 0 <= k < old(self).n() && k != i ==> #[trigger] final(self).arp_instances@[k] == old(self).arp_instances@[k],
            same_setup(final(self).arp_instances@[i as int], old(self).arp_instances@[i as int]),
            r is Err ==> r == Err::<(), EngineError>(EngineError::QueueFull),
            ({
                let v = old(self).arp_instances@[i as int];
                let f = followed(v.voice(), v.ticks_per_step, v.active(), transport@);
                &&& (r is Ok <==> f is Some)
                &&& r is Ok ==> final(self).arp_instances@[i as int].voice() == f->Some_0
            }),
    {
        let ghost pre = *self;
        let ghost v0 = self.arp_instances@[i as int];
        let mut k: usize = 0;
        while k < transport.len()
            invariant
                k <= transport.len(),
                i < self.n(),
                self.wf(),
                pre == *old(self),
                Self::same_but_instances(*self, pre),
                self.n() == pre.n(),
                all_at_or_after(transport@, pre.time),
                forall|m: int| 0 <= m < pre.n() && m != i ==> #[trigger] self.arp_instances@[m] == pre.arp_instances@[m],
                same_setup(self.arp_instances@[i as int], pre.arp_instances@[i as int]),
                v0 == pre.arp_instances@[i as int],
                followed(v0.voice(), v0.ticks_per_step, v0.active(), transport@.take(k as int))
                    == Some(self.arp_instances@[i as int].voice()),
            decreases transport.len() - k,
        {
            let (timestamp, event) = transport[k];
            assert(timestamp >= self.time);
            proof {
                assert(transport@.take(k + 1).drop_last() =~= transport@.take(k as int));
                assert(transport@.take(k + 1).last() == (timestamp, event));
            }
            let queued = self.arp_instances[i].add_pending_event(timestamp, event);
            if queued.is_err() {
                proof {
                    lemma_followed_prefix(v0.voice(), v0.ticks_per_step, v0.active(), transport@, k + 1);
                }
                return Err(EngineError::QueueFull);
            }
            assert(all_at_or_after(self.arp_instances@[i as int].pending(), self.time));
            match event {
                NoteEvent::Clock => {
                    let ghost before = self.arp_instances@[i as int].pending();
                    let ticked = self.arp_instances[i].tick_clock(timestamp);
                    proof {
                        let after = self.arp_instances@[i as int].pending();
                        assert forall|m: int| 0 <= m < after.len() implies (#[trigger] after[m]).0 >= self.time by {
                            if m < before.len() {
                                assert(after[m] == before[m]);
                            }
                        }
                    }
                    if ticked.is_err() {
                        proof {
                            lemma_followed_prefix(v0.voice(), v0.ticks_per_step, v0.active(), transport@, k + 1);
                        }
                        return Err(EngineError::QueueFull);
                    }
                },
                NoteEvent::Start => {
                    self.arp_instances[i].restart_transport();
                },
                _ => {},
            }
            k += 1;
        }
        assert(transport@.take(transport@.len() as int) =~= transport@);
        Ok(())
    }

    /// Routes from voice `i` that were on in the last buffer and are off now
    /// release, in the downstream voice, every note that voice `i` has a
    /// note-off pending for; then the snapshot of row `i` catches up.
    pub fn release_cut_routes(&mut self, i: usize)
        requires
            old(self).wf(),
            i < old(self).n(),
            square(cells(old(self).routing_matrix), old(self).n()),
        ensures
            final(self).wf(),
            final(self).n() == old(self).n(),
            final(self).time == old(self).time,
            final(self).routing_matrix == old(self).routing_matrix,
            forall|j: int| 0 <= j < old(self).n() ==> same_but_arp(#[trigger] final(self).arp_instances@[j], old(self).arp_instances@[j]),
            forall|j: int| 0 <= j < old(self).n() ==> (#[trigger] final(self).arp_instances@[j]).arp@ == if i < j {
                after_cut(
                    old(self).arp_instances@[j].arp@,
                    cells(old(self).old_routing_matrix)[i as int][j],
                    cells(old(self).routing_matrix)[i as int][j],
                    old(self).arp_instances@[i as int].pending(),
                    old(self).time,
                )
            } else {
                old(self).arp_instances@[j].arp@
            },
            forall|a: int, b: int| 0 <= a < old(self).n() && 0 <= b < old(self).n() ==>
                #[trigger] cells(final(self).old_routing_matrix)[a][b] == if a == i && b > i {
                    cells(old(self).routing_matrix)[a][b]
                } else {
                    cells(old(self).old_routing_matrix)[a][b]
                },
            final(self).last_midiclock_received == old(self).last_midiclock_received,
            final(self).next_midiclock_to_send == old(self).next_midiclock_to_send,
            final(self).restart_transport_pending == old(self).restart_transport_pending,
            final(self).in_channel == old(self).in_channel,
            final(self).out_channel == old(self).out_channel,
            final(self).time_between_midiclocks == old(self).time_between_midiclocks,
            final(self).clock_mode == old(self).clock_mode,
            final(self).active_arp == old(self).active_arp,
    {
        let n = self.arp_instances.len();
        let ghost pre = *self;
        let mut j: usize = i + 1;
        while j < n
            invariant
                i < n == self.n() == pre.n(),
                i + 1 <= j <= n,
                pre == *old(self),
                self.wf(),
                self.time == pre.time,
                self.routing_matrix == pre.routing_matrix,
                square(cells(self.routing_matrix), n as int),
                self.last_midiclock_received == pre.last_midiclock_received,
                self.next_midiclock_to_send == pre.next_midiclock_to_send,
                self.restart_transport_pending == pre.restart_transport_pending,
                self.in_channel == pre.in_channel,
                self.out_channel == pre.out_channel,
                self.time_between_midiclocks == pre.time_between_midiclocks,
                self.clock_mode == pre.clock_mode,
                self.active_arp == pre.active_arp,
                self.arp_instances@[i as int] == pre.arp_instances@[i as int],
                forall|m: int| 0 <= m < n ==> same_but_arp(#[trigger] self.arp_instances@[m], pre.arp_instances@[m]),
                forall|m: int| 0 <= m < n ==> (#[trigger] self.arp_instances@[m]).arp@ == if i < m < j {
                    after_cut(
                        pre.arp_instances@[m].arp@,
                        cells(pre.old_routing_matrix)[i as int][m],
                        cells(pre.routing_matrix)[i as int][m],
                        pre.arp_instances@[i as int].pending(),
                        pre.time,
                    )
                } else {
                    pre.arp_instances@[m].arp@
                },
                forall|a: int, b: int| 0 <= a < n && 0 <= b < n ==>
                    #[trigger] cells(self.old_routing_matrix)[a][b] == if a == i && i < b < j {
                        cells(pre.routing_matrix)[a][b]
                    } else {
                        cells(pre.old_routing_matrix)[a][b]
                    },
            decreases n - j,
        {
            assert(cells(self.old_routing_matrix)[i as int] == self.old_routing_matrix@[i as int]@);
            assert(cells(self.routing_matrix)[i as int] == self.routing_matrix@[i as int]@);
            let was_routed = self.old_routing_matrix[i][j];
            let is_routed = self.routing_matrix[i][j];
            proof {
                assert(cells(self.old_routing_matrix)[i as int][j as int] == was_routed);
                assert(cells(self.routing_matrix)[i as int][j as int] == is_routed);
            }
            if was_routed && !is_routed {
                let offs = self.arp_instances[i].pending_note_offs();
                self.arp_instances[j].arp.release(event_vec_slice(&offs), self.time);
            }
            let ghost before = self.old_routing_matrix;
            self.old_routing_matrix[i][j] = is_routed;
            proof {
                assert forall|a: int, b: int| 0 <= a < n && 0 <= b < n implies
                    #[trigger] cells(self.old_routing_matrix)[a][b] == if a == i && i < b < j + 1 {
                        cells(pre.routing_matrix)[a][b]
                    } else {
                        cells(pre.old_routing_matrix)[a][b]
                    } by {
                    assert(cells(self.old_routing_matrix)[a] == self.old_routing_matrix@[a]@);
                    assert(cells(before)[a] == before@[a]@);
                    if a == i {
                        assert(self.old_routing_matrix@[a]@ == before@[a]@.update(j as int, is_routed));
                    } else {
                        assert(self.old_routing_matrix@[a] == before@[a]);
                    }
                }
                assert forall|a: int| 0 <= a < n implies (#[trigger] cells(self.old_routing_matrix)[a]).len() == n by {
                    assert(cells(self.old_routing_matrix)[a] == self.old_routing_matrix@[a]@);
                    assert(cells(before)[a] == before@[a]@);
                }
            }
            j += 1;
        }
    }

    /// Plays the events `due`, drained from voice `i`, into every later voice that
    /// voice `i` is routed to.
    fn forward(&mut self, i: usize, due: &[(u64, NoteEvent)]) -> (r: Result<(), EngineError>)
        requires
            old(self).wf(),
            i < old(self).n(),
            square(cells(old(self).routing_matrix), old(self).n()),
        ensures
            final(self).wf(),
            Self::same_but_instances(*final(self), *old(self)),
            final(self).n() == old(self).n(),
            forall|j: int| 0 <= j < old(self).n() ==> same_but_arp(#[trigger] final(self).arp_instances@[j], old(self).arp_instances@[j]),
            r is Err <==> exists|j: int| i < j < old(self).n() && #[trigger] cells(old(self).routing_matrix)[i as int][j]
                && play_overflows(old(self).arp_instances@[j].arp@, due@),
            r is Err ==> r == Err::<(), EngineError>(EngineError::ChordFull),
            r is Ok ==> forall|j: int| 0 <= j < old(self).n() ==> (#[trigger] final(self).arp_instances@[j]).arp@ == if routed(cells(old(self).routing_matrix), i as int, j) {
                played(old(self).arp_instances@[j].arp@, due@)
            } else {
                old(self).arp_instances@[j].arp@
            },
    {
        let n = self.arp_instances.len();
        let ghost pre = *self;
        let mut j: usize = i + 1;
        let mut failed = false;
        while j < n && !failed
            invariant
                i < n == self.n() == pre.n(),
                i + 1 <= j <= n,
                pre == *old(self),
                self.wf(),
                Self::same_but_instances(*self, pre),
                square(cells(self.routing_matrix), n as int),
                forall|m: int| 0 <= m < n ==> same_but_arp(#[trigger] self.arp_instances@[m], pre.arp_instances@[m]),
                failed ==> exists|m: int| i < m < n && #[trigger] cells(pre.routing_matrix)[i as int][m]
                    && play_overflows(pre.arp_instances@[m].arp@, due@),
                !failed ==> forall|m: int| i < m < j ==> !(#[trigger] cells(pre.routing_matrix)[i as int][m]
                    && play_overflows(pre.arp_instances@[m].arp@, due@)),
                !failed ==> forall|m: int| 0 <= m < n ==> (#[trigger] self.arp_instances@[m]).arp@ == if routed(cells(pre.routing_matrix), i as int, m) && m < j {
                    played(pre.arp_instances@[m].arp@, due@)
                } else {
                    pre.arp_instances@[m].arp@
                },
            decreases n - j,
        {
            assert(cells(self.routing_matrix)[i as int] == self.routing_matrix@[i as int]@);
            let is_routed = self.routing_matrix[i][j];
            if is_routed {
                let res = self.arp_instances[j].arp.play(due);
                if res.is_err() {
                    failed = true;
                }
            }
            j += 1;
        }
        if failed {
            return Err(EngineError::ChordFull);
        }
        Ok(())
    }
}

/// A prefix of `evs` that overflows the chord makes `evs` overflow it.
proof fn lemma_ingest_overflow_prefix(
    a: ArpeggiatorState,
    evs: Seq<TimestampedMidiEvent>,
    k: int,
    time: u64,
    channel: Channel,
)
    requires
        0 <= k <= evs.len(),
        ingest_overflows(a, evs.take(k), time, channel),
    ensures
        ingest_overflows(a, evs, time, channel),
    decreases evs.len(),
{
    if k == evs.len() {
        assert(evs.take(k) =~= evs);
    } else {
        assert(evs.drop_last().take(k) =~= evs.take(k));
        lemma_ingest_overflow_prefix(a, evs.drop_last(), k, time, channel);
    }
}

/// An `n` by `n` matrix without links.
fn unrouted(n: usize) -> (r: Vec<Vec<bool>>)
    ensures
        square(cells(r), n as int),
        forall|i: int, j: int| 0 <= i < n && 0 <= j < n ==> !#[trigger] cells(r)[i][j],
{
    let mut m: Vec<Vec<bool>> = Vec::new();
    let mut i: usize = 0;
    while i < n
        invariant
            i <= n,
            m@.len() == i,
            forall|a: int| 0 <= a < i ==> (#[trigger] m@[a])@.len() == n,
            forall|a: int, b: int| 0 <= a < i && 0 <= b < n ==> !#[trigger] m@[a]@[b],
        decreases n - i,
    {
        let mut row: Vec<bool> = Vec::new();
        let mut j: usize = 0;
        while j < n
            invariant
                j <= n,
                row@.len() == j,
                forall|b: int| 0 <= b < j ==> !#[trigger] row@[b],
            decreases n - j,
        {
            row.push(false);
            j += 1;
        }
        m.push(row);
        i += 1;
    }
    assert(cells(m) =~= m@.map_values(|row: Vec<bool>| row@));
    m
}

} // verus!

verus! {

/// Releasing note-offs never adds a note to the chord, keeps the scale, and
/// leaves none of the released notes held in chord mode.
proof fn lemma_released_drops_notes(a: ArpeggiatorState, offs: Seq<(u64, NoteEvent)>, time: u64)
    ensures
        released(a, offs, time).scale == a.scale,
        forall|n: Note| #[trigger] released(a, offs, time).chord.contains(n) ==> a.chord.contains(n),
        a.scale.len() == 0 ==> forall|k: int|
            0 <= k < offs.len() && (#[trigger] offs[k]).1 is NoteOff
                ==> !released(a, offs, time).chord.contains(offs[k].1->NoteOff_0),
    decreases offs.len(),
{
    if offs.len() > 0 {
        let rest = offs.drop_last();
        lemma_released_drops_notes(a, rest, time);
        let b = released(a, rest, time);
        let r = released(a, offs, time);
        match offs.last().1 {
            NoteEvent::NoteOff(m, _) => {
                if b.scale.len() == 0 && b.chord.contains(m) {
                    assert forall|n: Note| #[trigger] r.chord.contains(n) implies b.chord.contains(n) by {
                        b.chord.lemma_filter_contains_rev(other_than(m), n);
                    }
                    assert(!r.chord.contains(m)) by {
                        if r.chord.contains(m) {
                            let i = choose|i: int| 0 <= i < r.chord.len() && r.chord[i] == m;
                            broadcast use vstd::seq_lib::group_filter_ensures;

                        }
                    }
                }
            },
            _ => {},
        }
        if a.scale.len() == 0 {
            assert forall|k: int|
                0 <= k < offs.len() && (#[trigger] offs[k]).1 is NoteOff implies !r.chord.contains(offs[k].1->NoteOff_0) by {
                if k < offs.len() - 1 {
                    assert(rest[k] == offs[k]);
                    assert(!b.chord.contains(offs[k].1->NoteOff_0));
                }
            }
        }
    }
}

/// Cutting a route from one voice to a later one releases, in the later voice,
/// each note that the earlier voice still has a note-off pending for, so that
/// in chord mode none of them stays held. Once the snapshot shows the cut, the
/// route releases nothing more for as long as it stays cut.
pub proof fn lemma_cut_route_releases_once(
    a: ArpeggiatorState,
    upstream: Seq<(u64, NoteEvent)>,
    time: u64,
    later: ArpeggiatorState,
    later_upstream: Seq<(u64, NoteEvent)>,
    later_time: u64,
)
    ensures
        after_cut(a, true, false, upstream, time) == released(a, upstream.filter(is_note_off()), time),
        a.scale.len() == 0 ==> forall|k: int|
            0 <= k < upstream.len() && (#[trigger] upstream[k]).1 is NoteOff
                ==> !after_cut(a, true, false, upstream, time).chord.contains(upstream[k].1->NoteOff_0),
        after_cut(later, false, false, later_upstream, later_time) == later,
{
    let offs = upstream.filter(is_note_off());
    lemma_released_drops_notes(a, offs, time);
    if a.scale.len() == 0 {
        assert forall|k: int|
            0 <= k < upstream.len() && (#[trigger] upstream[k]).1 is NoteOff
                implies !after_cut(a, true, false, upstream, time).chord.contains(upstream[k].1->NoteOff_0) by {
            broadcast use vstd::seq_lib::group_filter_ensures;

            assert(offs.contains(upstream[k]));
            let m = choose|m: int| 0 <= m < offs.len() && offs[m] == upstream[k];
            assert(offs[m] == upstream[k]);
        }
    }
}

} // verus!

verus! {

/// A voice's events are delivered in order of time across buffers: when one
/// buffer ending at `end` has delivered `out1`, and the next buffer, which
/// starts there, delivers `out2`, the two deliveries one after the other are in
/// order of time.
pub proof fn lemma_buffers_deliver_in_order(
    out1: Seq<(u64, NoteEvent)>,
    rest1: Seq<(u64, NoteEvent)>,
    end: u64,
    out2: Seq<(u64, NoteEvent)>,
    rest2: Seq<(u64, NoteEvent)>,
    end2: u64,
    channel: Channel,
)
    requires
        delivered(out1, rest1, end, channel),
        delivered(out2, rest2, end2, channel),
        all_at_or_after(out2, end),
    ensures
        sorted_by_time(out1 + out2),
{
    let s = out1 + out2;
    assert forall|a: int, b: int| 0 <= a < b < s.len() implies (#[trigger] s[a]).0 <= (#[trigger] s[b]).0 by {
        if b < out1.len() {
            assert(s[a] == out1[a] && s[b] == out1[b]);
        } else if a >= out1.len() {
            assert(s[a] == out2[a - out1.len()] && s[b] == out2[b - out1.len()]);
        } else {
            assert(s[a] == out1[a] && s[b] == out2[b - out1.len()]);
        }
    }
}

} // verus!
