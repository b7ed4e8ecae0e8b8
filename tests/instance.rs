use arpfisch::{ArpeggiatorInstance, ArpeggioData, Channel, EngineError, Entry, Note, NoteEvent, RepeatMode, ONE};

fn one_step(entry: Entry) -> ArpeggioData {
    let mut pattern = ArpeggioData::empty(RepeatMode::Repeat(12), 1);
    pattern.set(0, entry).unwrap();
    pattern
}

#[test]
fn end_to_end_single_instance() {
    let mut inst = ArpeggiatorInstance::new();
    assert_eq!(inst.ticks_per_step, 6);
    inst.patterns[0] = one_step(Entry { note: 0, len_steps: 1, intensity: ONE / 2, transpose: 0 });
    inst.arp.note_on(Note(60), 0).unwrap();
    for k in 0..5u64 {
        inst.tick_clock(k * 1000).unwrap();
        assert!(inst.pending_events().is_empty());
    }
    inst.tick_clock(5000).unwrap();
    assert_eq!(
        inst.pending_events(),
        &[
            (5000, NoteEvent::NoteOff(Note(60), Channel(0))),
            (5000, NoteEvent::NoteOn(Note(60), 64, Channel(0))),
        ]
    );
    for k in 6..12u64 {
        inst.tick_clock(k * 1000).unwrap();
    }
    // the second step knows the tempo: 6000 ticks per step, half a step long
    assert_eq!(
        &inst.pending_events()[2..],
        &[
            (14000, NoteEvent::NoteOff(Note(60), Channel(0))),
            (11000, NoteEvent::NoteOn(Note(60), 64, Channel(0))),
        ]
    );
}

#[test]
fn no_notes_from_an_empty_chord() {
    let mut inst = ArpeggiatorInstance::new();
    inst.patterns[0] = one_step(Entry { note: 0, len_steps: 1, intensity: ONE, transpose: 0 });
    for k in 0..12u64 {
        inst.tick_clock(k).unwrap();
    }
    assert!(inst.pending_events().is_empty());
}

#[test]
fn restart_makes_the_next_pulse_play() {
    let mut inst = ArpeggiatorInstance::new();
    inst.patterns[0] = one_step(Entry { note: 0, len_steps: 1, intensity: ONE, transpose: 0 });
    inst.arp.note_on(Note(60), 0).unwrap();
    inst.tick_clock(10).unwrap();
    inst.restart_transport();
    assert_eq!(inst.arp.step(), 0);
    inst.tick_clock(20).unwrap();
    assert_eq!(inst.pending_events().len(), 2);
}

#[test]
fn drains_deliver_every_event_once_in_time_order() {
    let mut inst = ArpeggiatorInstance::new();
    let events = [
        (30, NoteEvent::Clock),
        (10, NoteEvent::Start),
        (25, NoteEvent::NoteOff(Note(1), Channel(0))),
        (20, NoteEvent::Clock),
        (5, NoteEvent::NoteOn(Note(1), 10, Channel(0))),
        (10, NoteEvent::Clock),
        (99, NoteEvent::Clock),
    ];
    for (t, e) in events {
        inst.add_pending_event(t, e).unwrap();
    }
    let mut all = Vec::new();
    for limit in [0u64, 10, 11, 26, 26, 100] {
        let due = inst.process_pending_events(limit);
        for (t, _) in due.iter() {
            assert!(*t < limit);
        }
        for (t, _) in inst.pending_events() {
            assert!(*t >= limit);
        }
        all.extend_from_slice(due.as_slice());
    }
    assert!(inst.pending_events().is_empty());
    assert_eq!(all.len(), events.len());
    for w in all.windows(2) {
        assert!(w[0].0 <= w[1].0);
    }
    for e in events.iter() {
        assert_eq!(all.iter().filter(|x| *x == e).count(), 1);
    }
}

#[test]
fn pending_note_offs_lists_only_note_offs() {
    let mut inst = ArpeggiatorInstance::new();
    inst.add_pending_event(3, NoteEvent::NoteOff(Note(61), Channel(0))).unwrap();
    inst.add_pending_event(1, NoteEvent::Clock).unwrap();
    inst.add_pending_event(2, NoteEvent::NoteOff(Note(60), Channel(0))).unwrap();
    assert_eq!(
        inst.pending_note_offs().as_slice(),
        &[(3, NoteEvent::NoteOff(Note(61), Channel(0))), (2, NoteEvent::NoteOff(Note(60), Channel(0)))]
    );
}

#[test]
fn a_full_queue_refuses_events() {
    let mut inst = ArpeggiatorInstance::new();
    for k in 0..32u64 {
        assert_eq!(inst.add_pending_event(k, NoteEvent::Clock), Ok(()));
    }
    assert_eq!(inst.add_pending_event(40, NoteEvent::Clock), Err(()));
}

#[test]
fn queue_overflow_on_a_step_is_fatal() {
    let mut inst = ArpeggiatorInstance::new();
    inst.ticks_per_step = 1;
    inst.patterns[0] = one_step(Entry { note: 0, len_steps: 1, intensity: ONE, transpose: 0 });
    inst.arp.note_on(Note(60), 0).unwrap();
    for k in 0..31u64 {
        inst.add_pending_event(k, NoteEvent::Clock).unwrap();
    }
    assert_eq!(inst.tick_clock(50), Err(EngineError::QueueFull));
    assert_eq!(inst.pending_events().len(), 31);
}

#[test]
fn playing_position() {
    let mut inst = ArpeggiatorInstance::new();
    assert!(inst.is_playable());
    // before the first step: step 0, so the position wraps to the last step
    assert_eq!(inst.currently_playing_tick(), 7 * ONE as u64);
    for k in 0..9u64 {
        inst.tick_clock(k).unwrap();
    }
    // one step played, three of six pulses into the next
    assert_eq!(inst.currently_playing_tick(), 5000);
    inst.ticks_per_step = 0;
    assert!(!inst.is_playable());
}
