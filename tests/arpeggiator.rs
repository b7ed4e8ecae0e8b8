use arpfisch::arpeggiator;
use arpfisch::{Arpeggiator, ArpeggioData, EngineError, Entry, Note, NoteEvent, RepeatMode, Channel, ONE};

fn notes(values: &[u8]) -> Vec<Note> {
    values.iter().map(|v| Note(*v)).collect()
}

#[test]
fn scale_from() {
    let scale = [Note(30), Note(32), Note(33), Note(35)];

    assert_eq!(arpeggiator::scale_from(&scale, Note(30)).as_slice(), &[Note(30), Note(32), Note(33), Note(35)]);
    assert_eq!(arpeggiator::scale_from(&scale, Note(33)).as_slice(), &[Note(33), Note(35), Note(42), Note(44)]);
    assert_eq!(arpeggiator::scale_from(&scale, Note(42)).as_slice(), &[Note(42), Note(44), Note(45), Note(47)]);
    assert_eq!(arpeggiator::scale_from(&scale, Note(31)).as_slice(), &[]);
}

#[test]
fn scale_from_drops_pitches_outside_midi_range() {
    let scale = [Note(0), Note(4), Note(7)];
    assert_eq!(arpeggiator::scale_from(&scale, Note(124)).as_slice(), &[Note(124), Note(127)]);
}

#[test]
fn clamp_is_stable_past_both_ends() {
    let p = notes(&[60, 64, 67]);
    assert_eq!(RepeatMode::Clamp.get(&p, 5), Some(Note(67)));
    assert_eq!(RepeatMode::Clamp.get(&p, -5), Some(Note(60)));
    assert_eq!(RepeatMode::Clamp.get(&p, 3), RepeatMode::Clamp.get(&p, 2));
    assert_eq!(RepeatMode::Clamp.get(&p, -1), Some(Note(67)));
    assert_eq!(RepeatMode::Clamp.get(&p, -3), Some(Note(60)));
    assert_eq!(RepeatMode::Clamp.get(&[], 0), None);
}

#[test]
fn repeat_transposes_each_repetition() {
    let p = notes(&[60, 64, 67]);
    assert_eq!(RepeatMode::Repeat(12).get(&p, 3), Some(Note(72)));
    assert_eq!(RepeatMode::Repeat(12).get(&p, -1), Some(Note(55)));
    assert_eq!(RepeatMode::Repeat(12).get(&p, -3), Some(Note(48)));
    assert_eq!(RepeatMode::Repeat(12).get(&p, 100), None);
    assert_eq!(RepeatMode::Repeat(0).get(&p, 100), Some(Note(64)));
}

#[test]
fn mirror_reflects_before_the_far_end() {
    let p = notes(&[60, 64, 67, 71]);
    assert_eq!(RepeatMode::Mirror.get(&p, 4), Some(Note(67)));
    assert_eq!(RepeatMode::Mirror.get(&p, 3), Some(Note(71)));
    assert_eq!(RepeatMode::Mirror.get(&p, 6), Some(Note(60)));
    assert_eq!(RepeatMode::Mirror.get(&p, -1), Some(Note(64)));
    for k in -20..20 {
        assert_eq!(RepeatMode::Mirror.get(&[Note(60)], k), Some(Note(60)));
    }
}

#[test]
fn actual_len_never_reaches_the_full_length() {
    let e = Entry { note: 0, len_steps: 4, intensity: ONE / 2, transpose: 0 };
    assert_eq!(e.actual_len(ONE), 35000);
    assert_eq!(e.actual_len(2 * ONE), 39999);
    assert_eq!(e.actual_len(0), 0);
    assert_eq!(e.actual_len(ONE / 2), 17500);
    assert!(e.actual_len(2 * ONE) < 4 * ONE as u64);
}

fn one_step_pattern(mode: RepeatMode, entry: Entry) -> ArpeggioData {
    let mut pattern = ArpeggioData::empty(mode, 1);
    assert!(pattern.set(0, entry).is_ok());
    pattern
}

#[test]
fn chord_debounce_commits_once_after_the_last_note() {
    let mut arp = Arpeggiator::new();
    arp.chord_settle_time = 10;
    let pattern = ArpeggioData::empty(RepeatMode::Clamp, 1);

    assert_eq!(arp.note_on(Note(64), 100), Ok(()));
    assert_eq!(arp.chord_next_update_time(), Some(110));
    assert_eq!(arp.note_on(Note(60), 105), Ok(()));
    assert_eq!(arp.chord_next_update_time(), Some(115));
    assert_eq!(arp.chord(), &[Note(60), Note(64)]);

    arp.process_step(&pattern, 114);
    assert_eq!(arp.stable_chord(), &[]);
    assert_eq!(arp.chord_next_update_time(), Some(115));

    arp.process_step(&pattern, 115);
    assert_eq!(arp.stable_chord(), &[Note(60), Note(64)]);
    assert_eq!(arp.chord_next_update_time(), None);

    arp.process_step(&pattern, 200);
    assert_eq!(arp.stable_chord(), &[Note(60), Note(64)]);
}

#[test]
fn note_off_reschedules_and_hold_freezes_the_chord() {
    let mut arp = Arpeggiator::new();
    let pattern = ArpeggioData::empty(RepeatMode::Clamp, 1);
    arp.note_on(Note(60), 0).unwrap();
    arp.process_step(&pattern, 0);
    assert_eq!(arp.stable_chord(), &[Note(60)]);

    arp.chord_hold = true;
    arp.process_step(&pattern, 1);
    arp.note_off(Note(60), 2);
    assert_eq!(arp.chord(), &[]);
    assert_eq!(arp.chord_next_update_time(), None);
    arp.process_step(&pattern, 3);
    assert_eq!(arp.stable_chord(), &[Note(60)]);

    arp.chord_hold = false;
    arp.process_step(&pattern, 4);
    assert_eq!(arp.stable_chord(), &[]);
}

#[test]
fn chord_overflow_is_fatal() {
    let mut arp = Arpeggiator::new();
    for n in 0..16u8 {
        assert_eq!(arp.note_on(Note(40 + n), 0), Ok(()));
    }
    assert_eq!(arp.note_on(Note(40), 0), Ok(()));
    assert_eq!(arp.note_on(Note(100), 0), Err(EngineError::ChordFull));
    assert_eq!(arp.chord().len(), 16);
}

#[test]
fn scale_mode_uses_a_run_from_the_pressed_note() {
    let mut arp = Arpeggiator::new();
    for n in [0u8, 2, 4, 5, 7, 9, 11] {
        assert!(arp.scale.push(Note(n)).is_ok());
    }
    arp.note_on(Note(62), 0).unwrap();
    assert_eq!(
        arp.stable_chord(),
        &[Note(62), Note(64), Note(65), Note(67), Note(69), Note(71), Note(72)]
    );
    arp.note_off(Note(64), 1);
    assert_eq!(arp.stable_chord().len(), 7);
    arp.note_off(Note(62), 2);
    assert_eq!(arp.stable_chord(), &[]);
}

#[test]
fn a_step_emits_note_off_then_note_on() {
    let mut arp = Arpeggiator::new();
    arp.note_on(Note(60), 0).unwrap();
    arp.note_on(Note(64), 0).unwrap();
    let pattern = one_step_pattern(
        RepeatMode::Repeat(12),
        Entry { note: 1, len_steps: 2, intensity: ONE, transpose: 12 },
    );
    let events = arp.process_step(&pattern, 0);
    assert_eq!(
        events.as_slice(),
        &[
            (15000, NoteEvent::NoteOff(Note(76), Channel(0))),
            (0, NoteEvent::NoteOn(Note(76), 127, Channel(0))),
        ]
    );
    assert_eq!(arp.step(), 0);
}

#[test]
fn a_hit_that_leaves_the_midi_range_is_skipped() {
    let mut arp = Arpeggiator::new();
    arp.note_on(Note(120), 0).unwrap();
    let pattern = one_step_pattern(
        RepeatMode::Clamp,
        Entry { note: 0, len_steps: 1, intensity: ONE, transpose: 12 },
    );
    assert_eq!(arp.process_step(&pattern, 0).as_slice(), &[]);
}

#[test]
fn intensity_scales_velocity_and_length() {
    let mut arp = Arpeggiator::new();
    arp.intensity_length_modifier_amount = ONE;
    arp.note_on(Note(60), 0).unwrap();
    let pattern = one_step_pattern(
        RepeatMode::Clamp,
        Entry { note: 0, len_steps: 1, intensity: ONE / 4, transpose: 0 },
    );
    let events = arp.process_step(&pattern, 0);
    // length modifier 1 + (2 * 0.25 - 1) * 1 = 0.5, velocity 0.5 + (0.25 - 0.5) * 1 = 0.25
    assert_eq!(
        events.as_slice(),
        &[
            (2500, NoteEvent::NoteOff(Note(60), Channel(0))),
            (0, NoteEvent::NoteOn(Note(60), 32, Channel(0))),
        ]
    );
}
