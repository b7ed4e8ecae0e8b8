use arpfisch::{ArpeggioData, Entry, RepeatMode, ONE};

fn entry(note: isize, transpose: i32, len_steps: u32) -> Entry {
    Entry { note, len_steps, intensity: ONE, transpose }
}

#[test]
fn set_upserts_by_note_and_transpose() {
    let mut p = ArpeggioData::empty(RepeatMode::Clamp, 2);
    assert!(p.set(1, entry(0, 0, 1)).is_ok());
    assert!(p.set(1, entry(0, 12, 1)).is_ok());
    assert!(p.set(1, entry(0, 0, 3)).is_ok());
    let step = p.pattern[1].as_slice();
    assert_eq!(step, &[entry(0, 0, 3), entry(0, 12, 1)]);
    assert!(p.pattern[0].is_empty());
}

#[test]
fn set_refuses_a_full_step() {
    let mut p = ArpeggioData::empty(RepeatMode::Clamp, 1);
    for k in 0..16 {
        assert!(p.set(0, entry(k, 0, 1)).is_ok());
    }
    assert_eq!(p.set(0, entry(99, 0, 1)), Err(entry(99, 0, 1)));
    assert!(p.set(0, entry(3, 0, 5)).is_ok());
    assert_eq!(p.pattern[0].len(), 16);
}

#[test]
fn delete_and_delete_all() {
    let mut p = ArpeggioData::empty(RepeatMode::Clamp, 1);
    p.set(0, entry(0, 0, 1)).unwrap();
    p.set(0, entry(0, 12, 1)).unwrap();
    p.set(0, entry(1, 0, 1)).unwrap();
    assert_eq!(p.filter(0, 0).as_slice(), &[entry(0, 0, 1), entry(0, 12, 1)]);
    p.delete(0, entry(0, 12, 7));
    assert_eq!(p.pattern[0].as_slice(), &[entry(0, 0, 1), entry(1, 0, 1)]);
    p.delete_all(0, 0);
    assert_eq!(p.pattern[0].as_slice(), &[entry(1, 0, 1)]);
}

#[test]
fn playable_patterns() {
    let mut p = ArpeggioData::empty(RepeatMode::Mirror, 3);
    assert!(p.is_playable());
    p.set(2, entry(0, 0, 0)).unwrap();
    assert!(!p.is_playable());
}
