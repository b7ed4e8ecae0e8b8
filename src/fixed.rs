//! Fixed-capacity vectors of the `heapless` crate, as this library uses them.
//!
//! Every container of the engine lives inline, with a capacity fixed by its
//! type, so that nothing is allocated while audio is processed. The contents of
//! each vector type that the engine uses are named by a spec function below,
//! and each operation that the engine calls is a small wrapper whose contract
//! states what `heapless::Vec` does with those contents.
use vstd::prelude::*;

use crate::pattern::Entry;
use crate::midi::{Note, NoteEvent};

verus! {

#[verifier::external_type_specification]
#[verifier::external_body]
#[verifier::reject_recursive_types(T)]
pub struct ExHeaplessVec<T, const N: usize>(heapless::Vec<T, N>);

/// A list of up to sixteen pitches: a chord or a scale.
pub type NoteVec = heapless::Vec<Note, 16>;

/// A list of up to thirty-two timed events.
pub type EventVec = heapless::Vec<(u64, NoteEvent), 32>;

/// The hits of one pattern step.
pub type StepVec = heapless::Vec<Entry, 16>;

/// The steps of one pattern.
pub type PatternVec = heapless::Vec<heapless::Vec<Entry, 16>, 64>;

/// The bytes of one short MIDI message.
pub type ByteVec = heapless::Vec<u8, 3>;

pub const NOTE_CAPACITY: usize = 16;

pub const EVENT_CAPACITY: usize = 32;

pub const STEP_CAPACITY: usize = 16;

pub const PATTERN_CAPACITY: usize = 64;

/// What a `NoteVec` holds, first to last.
pub uninterp spec fn note_items(v: heapless::Vec<Note, 16>) -> Seq<Note>;

/// What an `EventVec` holds, first to last.
pub uninterp spec fn event_items(v: heapless::Vec<(u64, NoteEvent), 32>) -> Seq<(u64, NoteEvent)>;

/// What a `StepVec` holds, first to last.
pub uninterp spec fn entry_items(v: heapless::Vec<Entry, 16>) -> Seq<Entry>;

/// The steps that a `PatternVec` holds, first to last.
pub uninterp spec fn step_items(v: heapless::Vec<heapless::Vec<Entry, 16>, 64>) -> Seq<
    heapless::Vec<Entry, 16>,
>;

/// What a `ByteVec` holds, first to last.
pub uninterp spec fn byte_items(v: heapless::Vec<u8, 3>) -> Seq<u8>;

// ---- NoteVec ----

/// Relies on heapless::Vec::new: the vector starts empty.
#[verifier::external_body]
pub(crate) fn note_vec_new() -> (r: NoteVec)
    ensures
        note_items(r) == Seq::<Note>::empty(),
{
    heapless::Vec::new()
}

/// Relies on heapless::Vec::as_slice: the slice is the contents, never more than the capacity.
#[verifier::external_body]
pub(crate) fn note_vec_slice(v: &NoteVec) -> (r: &[Note])
    ensures
        r@ == note_items(*v),
        r@.len() <= NOTE_CAPACITY,
{
    v.as_slice()
}

/// Relies on heapless::Vec::push: appends the item unless the vector is full.
#[verifier::external_body]
pub(crate) fn note_vec_push(v: &mut NoteVec, x: Note) -> (r: bool)
    ensures
        r == (note_items(*old(v)).len() < NOTE_CAPACITY),
        note_items(*final(v)) == if r {
            note_items(*old(v)).push(x)
        } else {
            note_items(*old(v))
        },
{
    v.push(x).is_ok()
}

/// Relies on heapless::Vec::clone: the copy holds the same items.
#[verifier::external_body]
pub(crate) fn note_vec_clone(v: &NoteVec) -> (r: NoteVec)
    ensures
        note_items(r) == note_items(*v),
{
    v.clone()
}

// ---- EventVec ----

/// Relies on heapless::Vec::new: the vector starts empty.
#[verifier::external_body]
pub(crate) fn event_vec_new() -> (r: EventVec)
    ensures
        event_items(r) == Seq::<(u64, NoteEvent)>::empty(),
{
    heapless::Vec::new()
}

/// Relies on heapless::Vec::as_slice: the slice is the contents, never more than the capacity.
#[verifier::external_body]
pub(crate) fn event_vec_slice(v: &EventVec) -> (r: &[(u64, NoteEvent)])
    ensures
        r@ == event_items(*v),
        r@.len() <= EVENT_CAPACITY,
{
    v.as_slice()
}

/// Relies on heapless::Vec::push: appends the item unless the vector is full.
#[verifier::external_body]
pub(crate) fn event_vec_push(v: &mut EventVec, x: (u64, NoteEvent)) -> (r: bool)
    ensures
        r == (event_items(*old(v)).len() < EVENT_CAPACITY),
        event_items(*final(v)) == if r {
            event_items(*old(v)).push(x)
        } else {
            event_items(*old(v))
        },
{
    v.push(x).is_ok()
}

/// Relies on heapless::Vec::insert: puts the item at `index`, shifting the rest
/// right, unless the vector is full; it panics only for an index past the end.
#[verifier::external_body]
pub(crate) fn event_vec_insert(v: &mut EventVec, index: usize, x: (u64, NoteEvent)) -> (r: bool)
    requires
        index <= event_items(*old(v)).len(),
    ensures
        r == (event_items(*old(v)).len() < EVENT_CAPACITY),
        event_items(*final(v)) == if r {
            event_items(*old(v)).insert(index as int, x)
        } else {
            event_items(*old(v))
        },
{
    v.insert(index, x).is_ok()
}

// ---- StepVec ----

/// Relies on heapless::Vec::new: the vector starts empty.
#[verifier::external_body]
pub(crate) fn step_vec_new() -> (r: StepVec)
    ensures
        entry_items(r) == Seq::<Entry>::empty(),
{
    heapless::Vec::new()
}

/// Relies on heapless::Vec::as_slice: the slice is the contents, never more than the capacity.
#[verifier::external_body]
pub(crate) fn step_vec_slice(v: &StepVec) -> (r: &[Entry])
    ensures
        r@ == entry_items(*v),
        r@.len() <= STEP_CAPACITY,
{
    v.as_slice()
}

/// Relies on heapless::Vec::push: appends the item unless the vector is full.
#[verifier::external_body]
pub(crate) fn step_vec_push(v: &mut StepVec, x: Entry) -> (r: bool)
    ensures
        r == (entry_items(*old(v)).len() < STEP_CAPACITY),
        entry_items(*final(v)) == if r {
            entry_items(*old(v)).push(x)
        } else {
            entry_items(*old(v))
        },
{
    v.push(x).is_ok()
}

// ---- PatternVec ----

/// Relies on heapless::Vec::new: the vector starts empty.
#[verifier::external_body]
pub(crate) fn pattern_vec_new() -> (r: PatternVec)
    ensures
        step_items(r) == Seq::<StepVec>::empty(),
{
    heapless::Vec::new()
}

/// Relies on heapless::Vec::as_slice: the slice is the contents, never more than the capacity.
#[verifier::external_body]
pub(crate) fn pattern_vec_slice(v: &PatternVec) -> (r: &[StepVec])
    ensures
        r@ == step_items(*v),
        r@.len() <= PATTERN_CAPACITY,
{
    v.as_slice()
}

/// Relies on heapless::Vec::push: appends the item unless the vector is full.
#[verifier::external_body]
pub(crate) fn pattern_vec_push(v: &mut PatternVec, x: StepVec) -> (r: bool)
    ensures
        r == (step_items(*old(v)).len() < PATTERN_CAPACITY),
        step_items(*final(v)) == if r {
            step_items(*old(v)).push(x)
        } else {
            step_items(*old(v))
        },
{
    v.push(x).is_ok()
}

/// Relies on indexing a heapless::Vec through its slice: the step at `index` is replaced.
#[verifier::external_body]
pub(crate) fn pattern_vec_set(v: &mut PatternVec, index: usize, x: StepVec)
    requires
        index < step_items(*old(v)).len(),
    ensures
        step_items(*final(v)) == step_items(*old(v)).update(index as int, x),
{
    v[index] = x;
}

// ---- ByteVec ----

/// Relies on heapless::Vec::from_slice: the vector holds the bytes of a slice that fits.
#[verifier::external_body]
pub(crate) fn byte_vec_from_slice(s: &[u8]) -> (r: ByteVec)
    requires
        s@.len() <= 3,
    ensures
        byte_items(r) == s@,
{
    heapless::Vec::from_slice(s).unwrap()
}

} // verus!
