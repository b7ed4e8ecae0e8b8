use arpfisch::{Channel, Note, NoteEvent, TempoDetector};

#[test]
fn parse_messages() {
    assert_eq!(NoteEvent::parse(&[0x93, 60, 100]), Some(NoteEvent::NoteOn(Note(60), 100, Channel(3))));
    assert_eq!(NoteEvent::parse(&[0x85, 61, 0]), Some(NoteEvent::NoteOff(Note(61), Channel(5))));
    assert_eq!(NoteEvent::parse(&[0xFA]), Some(NoteEvent::Start));
    assert_eq!(NoteEvent::parse(&[0xF8]), Some(NoteEvent::Clock));
    assert_eq!(NoteEvent::parse(&[0xB0, 1, 2]), None);
}

#[test]
fn encode_messages() {
    assert_eq!(NoteEvent::NoteOn(Note(60), 100, Channel(2)).to_bytes().as_slice(), &[0x92, 60, 100]);
    assert_eq!(NoteEvent::NoteOff(Note(60), Channel(1)).to_bytes().as_slice(), &[0x81, 60, 64]);
    assert_eq!(NoteEvent::Clock.to_bytes().as_slice(), &[0xF8]);
    assert_eq!(NoteEvent::Start.to_bytes().as_slice(), &[0xFA]);
}

#[test]
fn rechannel_messages() {
    assert_eq!(
        NoteEvent::NoteOn(Note(60), 100, Channel(2)).with_channel(Channel(9)),
        NoteEvent::NoteOn(Note(60), 100, Channel(9))
    );
    assert_eq!(NoteEvent::NoteOff(Note(60), Channel(2)).with_channel(Channel(9)), NoteEvent::NoteOff(Note(60), Channel(9)));
    assert_eq!(NoteEvent::Clock.with_channel(Channel(9)), NoteEvent::Clock);
}

#[test]
fn transpose_drops_out_of_range_pitches() {
    assert_eq!(Note(120).transpose(7), Some(Note(127)));
    assert_eq!(Note(120).transpose(8), None);
    assert_eq!(Note(3).transpose(-3), Some(Note(0)));
    assert_eq!(Note(3).transpose(-4), None);
    assert_eq!(Note(3).transpose(i32::MAX), None);
}

#[test]
fn tempo_from_successive_beats() {
    let mut tempo = TempoDetector::new();
    assert_eq!(tempo.time_per_beat(), 0);
    tempo.beat(100);
    assert_eq!(tempo.time_per_beat(), 0);
    tempo.beat(350);
    assert_eq!(tempo.time_per_beat(), 250);
    tempo.reset();
    tempo.beat(1000);
    assert_eq!(tempo.time_per_beat(), 250);
    tempo.beat(1100);
    assert_eq!(tempo.time_per_beat(), 100);
    tempo.beat(50);
    assert_eq!(tempo.time_per_beat(), 0);
}
