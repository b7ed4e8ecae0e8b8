//! Pitches, channels and the MIDI messages that the engine reads and writes.
use vstd::prelude::*;

use crate::fixed::{byte_items, byte_vec_from_slice, ByteVec};

verus! {

/// A MIDI pitch; meaningful values lie in `0..=127`.
#[derive(Copy, Clone, PartialEq, Eq, PartialOrd, Ord, Debug, Structural)]
pub struct Note(pub u8);

/// A MIDI channel; meaningful values lie in `0..=15`.
#[derive(Copy, Clone, PartialEq, Eq, PartialOrd, Ord, Debug, Structural)]
pub struct Channel(pub u8);

/// The pitch `value`, or `None` where it leaves the MIDI range.
pub open spec fn pitch(value: int) -> Option<Note> {
    if 0 <= value < 128 {
        Some(Note(value as u8))
    } else {
        None
    }
}

impl Note {
    /// Moves the pitch by `amount` semitones; a result outside `0..=127` is dropped, never clamped.
    pub fn transpose(&self, amount: i32) -> (r: Option<Note>)
        ensures
            r == pitch(self.0 + amount),
    {
        let result: i64 = amount as i64 + self.0 as i64;
        if 0 <= result && result < 128 {
            Some(Note(result as u8))
        } else {
            None
        }
    }
}

/// A note or transport message.
#[derive(Copy, Clone, Debug, PartialEq, Eq, PartialOrd, Ord, Structural)]
pub enum NoteEvent {
    NoteOn(Note, u8, Channel),
    NoteOff(Note, Channel),
    Clock,
    Start,
}

/// The engine's name for the messages it exchanges with the driver.
pub type MidiEvent = NoteEvent;

/// The message that the bytes `b` hold, if it is one of those the engine knows.
pub open spec fn parsed(b: Seq<u8>) -> Option<NoteEvent> {
    if b[0] & 0xF0u8 == 0x90u8 {
        Some(NoteEvent::NoteOn(Note(b[1]), b[2], Channel(b[0] & 0x0Fu8)))
    } else if b[0] & 0xF0u8 == 0x80u8 {
        Some(NoteEvent::NoteOff(Note(b[1]), Channel(b[0] & 0x0Fu8)))
    } else if b[0] == 0xFAu8 {
        Some(NoteEvent::Start)
    } else if b[0] == 0xF8u8 {
        Some(NoteEvent::Clock)
    } else {
        None
    }
}

/// Whether `b` is long enough for the message that its status byte announces.
pub open spec fn complete_message(b: Seq<u8>) -> bool {
    &&& b.len() >= 1
    &&& (b[0] & 0xF0u8 == 0x90u8 || b[0] & 0xF0u8 == 0x80u8) ==> b.len() >= 3
}

/// The bytes of the message `e`; a note-off is sent with release velocity 64.
pub open spec fn encoded(e: NoteEvent) -> Seq<u8> {
    match e {
        NoteEvent::NoteOn(note, velo, channel) => seq![0x90u8 | channel.0, note.0, velo],
        NoteEvent::NoteOff(note, channel) => seq![0x80u8 | channel.0, note.0, 64u8],
        NoteEvent::Clock => seq![0xF8u8],
        NoteEvent::Start => seq![0xFAu8],
    }
}

/// `e` moved to `channel`; transport messages carry no channel and stay as they are.
pub open spec fn rechanneled(e: NoteEvent, channel: Channel) -> NoteEvent {
    match e {
        NoteEvent::NoteOn(note, velo, _) => NoteEvent::NoteOn(note, velo, channel),
        NoteEvent::NoteOff(note, _) => NoteEvent::NoteOff(note, channel),
        other => other,
    }
}

impl NoteEvent {
    pub fn to_bytes(&self) -> (r: ByteVec)
        ensures
            byte_items(r) == encoded(*self),
    {
        let bytes: [u8; 3] = match *self {
            NoteEvent::NoteOn(note, velo, channel) => [0x90u8 | channel.0, note.0, velo],
            NoteEvent::NoteOff(note, channel) => [0x80u8 | channel.0, note.0, 64u8],
            NoteEvent::Clock => [0xF8u8, 0, 0],
            NoteEvent::Start => [0xFAu8, 0, 0],
        };
        let len: usize = match *self {
            NoteEvent::NoteOn(..) | NoteEvent::NoteOff(..) => 3,
            _ => 1,
        };
        let s = slice_prefix(&bytes, len);
        let r = byte_vec_from_slice(s);
        proof {
            assert(byte_items(r) =~= encoded(*self));
        }
        r
    }

    pub fn parse(bytes: &[u8]) -> (r: Option<NoteEvent>)
        requires
            complete_message(bytes@),
        ensures
            r == parsed(bytes@),
    {
        if bytes[0] & 0xF0 == 0x90 {
            Some(NoteEvent::NoteOn(Note(bytes[1]), bytes[2], Channel(bytes[0] & 0x0F)))
        } else if bytes[0] & 0xF0 == 0x80 {
            Some(NoteEvent::NoteOff(Note(bytes[1]), Channel(bytes[0] & 0x0F)))
        } else if bytes[0] == 0xFA {
            Some(NoteEvent::Start)
        } else if bytes[0] == 0xF8 {
            Some(NoteEvent::Clock)
        } else {
            None
        }
    }

    pub fn with_channel(self, channel: Channel) -> (r: NoteEvent)
        ensures
            r == rechanneled(self, channel),
    {
        match self {
            NoteEvent::NoteOn(note, velo, _) => NoteEvent::NoteOn(note, velo, channel),
            NoteEvent::NoteOff(note, _) => NoteEvent::NoteOff(note, channel),
            other => other,
        }
    }
}

fn slice_prefix(a: &[u8; 3], len: usize) -> (r: &[u8])
    requires
        len <= 3,
    ensures
        r@ == a@.subrange(0, len as int),
{
    let s: &[u8] = a.as_slice();
    vstd::slice::slice_subrange(s, 0, len)
}

} // verus!
