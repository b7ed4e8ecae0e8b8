//! Step patterns, and how a pattern entry resolves against a chord.
use vstd::prelude::*;

use crate::fixed::{
    entry_items, pattern_vec_new, pattern_vec_push, pattern_vec_set, pattern_vec_slice,
    step_items, step_vec_new, step_vec_push, step_vec_slice, PatternVec, StepVec, STEP_CAPACITY,
};
use crate::midi::{pitch, Note};

verus! {

/// The fixed-point unit: `ONE` stands for `1.0`.
pub const ONE: u32 = 10000;

/// How an entry's index is resolved against the ordered pitches of a chord.
#[derive(Copy, Clone, Debug, PartialEq, Eq, Structural)]
pub enum RepeatMode {
    /// Indices past either end give the pitch at that end.
    Clamp,
    /// The chord repeats, each repetition moved by the given number of semitones.
    Repeat(i32),
    /// The chord is walked up and down, the ends not repeated.
    Mirror,
}

/// The pitch that `index` selects from `p` under `mode`, if any.
pub open spec fn resolve(mode: RepeatMode, p: Seq<Note>, index: int) -> Option<Note> {
    let len = p.len() as int;
    if len == 0 {
        None
    } else {
        match mode {
            RepeatMode::Clamp => if index >= 0 {
                if index < len {
                    Some(p[index])
                } else {
                    Some(p[len - 1])
                }
            } else if len + index >= 0 {
                Some(p[len + index])
            } else {
                Some(p[0])
            },
            RepeatMode::Repeat(transpose) => pitch(p[index % len].0 + (index / len) * transpose),
            RepeatMode::Mirror => if len == 1 {
                Some(p[0])
            } else {
                let r = index % (2 * len - 2);
                if r < len {
                    Some(p[r])
                } else {
                    Some(p[2 * len - 2 - r])
                }
            },
        }
    }
}

impl RepeatMode {
    pub fn get(&self, pitches: &[Note], index: isize) -> (r: Option<Note>)
        requires
            pitches@.len() <= isize::MAX,
        ensures
            r == resolve(*self, pitches@, index as int),
    {
        let len = pitches.len();
        if len == 0 {
            return None;
        }
        match *self {
            RepeatMode::Clamp => {
                if index >= 0 {
                    if (index as usize) < len {
                        Some(pitches[index as usize])
                    } else {
                        Some(pitches[len - 1])
                    }
                } else {
                    let back: usize = (-(index + 1)) as usize;
                    if back < len {
                        Some(pitches[len - 1 - back])
                    } else {
                        Some(pitches[0])
                    }
                }
            },
            RepeatMode::Repeat(transpose) => {
                let repetition = div_floor(index, len);
                let base = pitches[modulo(index, len)];
                proof {
                    let rep = repetition as int;
                    let t = transpose as int;
                    assert(-0x8000_0000_0000_0000 <= rep < 0x8000_0000_0000_0000);
                    assert(-0x8000_0000 <= t < 0x8000_0000);
                    assert(-0x4000_0000_0000_0000_0000_0000 <= rep * t <= 0x4000_0000_0000_0000_0000_0000)
                        by (nonlinear_arith)
                        requires
                            -0x8000_0000_0000_0000 <= rep < 0x8000_0000_0000_0000,
                            -0x8000_0000 <= t < 0x8000_0000,
                    ;
                }
                let value: i128 = base.0 as i128 + repetition as i128 * transpose as i128;
                if 0 <= value && value < 128 {
                    Some(Note(value as u8))
                } else {
                    None
                }
            },
            RepeatMode::Mirror => {
                if len == 1 {
                    Some(pitches[0])
                } else {
                    let period: usize = 2 * len - 2;
                    let r = modulo(index, period);
                    if r < len {
                        Some(pitches[r])
                    } else {
                        Some(pitches[period - r])
                    }
                }
            },
        }
    }
}

/// `numerator` modulo `denominator`, always in `0..denominator`.
fn modulo(numerator: isize, denominator: usize) -> (r: usize)
    requires
        denominator > 0,
    ensures
        r == numerator as int % denominator as int,
        r < denominator,
{
    if numerator >= 0 {
        (numerator as usize) % denominator
    } else {
        let m: usize = (-(numerator + 1)) as usize;
        let r = denominator - 1 - m % denominator;
        proof {
            let d = denominator as int;
            let q = m as int / d;
            vstd::arithmetic::div_mod::lemma_fundamental_div_mod(m as int, d);
            let rm = m as int % d;
            assert((-q - 1) * d + r == numerator) by (nonlinear_arith)
                requires
                    m as int == d * q + rm,
                    r == d - 1 - rm,
                    numerator == -(m as int) - 1,
            ;
            vstd::arithmetic::div_mod::lemma_fundamental_div_mod_converse_mod(
                numerator as int,
                d,
                -q - 1,
                r as int,
            );
        }
        r
    }
}

/// `numerator` divided by `denominator`, rounded towards negative infinity.
fn div_floor(numerator: isize, denominator: usize) -> (r: isize)
    requires
        denominator > 0,
    ensures
        r == numerator as int / denominator as int,
{
    if numerator >= 0 {
        ((numerator as usize) / denominator) as isize
    } else {
        let m: usize = (-(numerator + 1)) as usize;
        let q: usize = m / denominator;
        proof {
            let d = denominator as int;
            vstd::arithmetic::div_mod::lemma_fundamental_div_mod(m as int, d);
            let qq = q as int;
            let rm = m as int % d;
            assert((-qq - 1) * d + (d - 1 - rm) == numerator) by (nonlinear_arith)
                requires
                    m as int == d * qq + rm,
                    numerator == -(m as int) - 1,
            ;
            vstd::arithmetic::div_mod::lemma_fundamental_div_mod_converse_div(
                numerator as int,
                d,
                -(q as int) - 1,
                d - 1 - (m as int % d),
            );
            assert(q <= m) by {
                vstd::arithmetic::div_mod::lemma_div_is_ordered_by_denominator(m as int, 1, d);
            }
        }
        -(q as isize) - 1
    }
}

/// One hit within a pattern step.
#[derive(Copy, Clone, Debug, PartialEq, Eq, Structural)]
pub struct Entry {
    /// An index into the current chord or scale run, not a pitch.
    pub note: isize,
    /// The nominal duration in whole steps, at least one.
    pub len_steps: u32,
    /// How hard the hit is, in units of `ONE` (`0..=ONE`).
    pub intensity: u32,
    /// Semitones added to the resolved pitch.
    pub transpose: i32,
}

/// The sounding length, in units of `ONE` steps, of a hit of `len_steps` steps
/// under the length modifier `modifier` (in units of `ONE`, at most `2 * ONE`).
/// Above `ONE` the hit is held into its last step, but never to its very end,
/// so that its note-off never coincides with the next note-on.
pub open spec fn hit_length(len_steps: int, modifier: int) -> int {
    if modifier <= ONE {
        (len_steps * ONE - ONE / 2) * modifier / ONE as int
    } else {
        (len_steps - 1) * ONE + if modifier / 2 < ONE - 1 {
            modifier / 2
        } else {
            ONE - 1
        }
    }
}

impl Entry {
    pub fn actual_len(&self, modifier: u32) -> (r: u64)
        requires
            modifier <= 2 * ONE,
            self.len_steps >= 1,
        ensures
            r == hit_length(self.len_steps as int, modifier as int),
    {
        let len = self.len_steps as u64;
        if modifier <= ONE {
            proof {
                assert(len * 10000 - 5000 <= 0x1_0000_0000 * 10000);
                assert((len * 10000 - 5000) * (modifier as int) <= 0x1_0000_0000 * 10000 * 20000)
                    by (nonlinear_arith)
                    requires
                        0 <= len * 10000 - 5000 <= 0x1_0000_0000 * 10000,
                        0 <= modifier <= 20000,
                ;
            }
            (len * 10000 - 5000) * modifier as u64 / 10000
        } else {
            let half: u64 = modifier as u64 / 2;
            (len - 1) * 10000 + if half < 9999 {
                half
            } else {
                9999
            }
        }
    }
}

/// Whether two hits share the key of a step: index and transposition.
pub open spec fn same_key(a: Entry, b: Entry) -> bool {
    a.note == b.note && a.transpose == b.transpose
}

/// Whether an entry has the index `note` and, where one is given, the transposition `transpose`.
pub open spec fn entry_matches(e: Entry, note: isize, transpose: Option<i32>) -> bool {
    e.note == note && match transpose {
        Some(t) => e.transpose == t,
        None => true,
    }
}

/// The predicate that keeps the entries whose match against `note` and `transpose` is `matching`.
pub open spec fn selecting(note: isize, transpose: Option<i32>, matching: bool) -> spec_fn(Entry) -> bool {
    |e: Entry| entry_matches(e, note, transpose) == matching
}

/// No two entries of the step share a key.
pub open spec fn keys_unique(s: Seq<Entry>) -> bool {
    forall|i: int, j: int| 0 <= i < j < s.len() ==> !same_key(#[trigger] s[i], #[trigger] s[j])
}

/// The step after an upsert of `e`: the entry with its key replaced, or `e` appended.
pub open spec fn upserted(s: Seq<Entry>, e: Entry) -> Seq<Entry> {
    if exists|i: int| 0 <= i < s.len() && same_key(#[trigger] s[i], e) {
        s.map_values(|x: Entry| if same_key(x, e) { e } else { x })
    } else {
        s.push(e)
    }
}

/// A pattern: how indices resolve, and the hits of each step.
pub struct ArpeggioData {
    pub repeat_mode: RepeatMode,
    pub pattern: PatternVec,
}

impl ArpeggioData {
    /// The hits of each step.
    pub open spec fn steps(&self) -> Seq<Seq<Entry>> {
        step_items(self.pattern).map_values(|s: StepVec| entry_items(s))
    }

    /// Playable: at least one step, and every hit at least one step long.
    pub open spec fn wf(&self) -> bool {
        &&& self.steps().len() >= 1
        &&& forall|i: int, k: int|
            0 <= i < self.steps().len() && 0 <= k < self.steps()[i].len() ==> (
            #[trigger] self.steps()[i][k]).len_steps >= 1
    }

    /// No step holds two entries with the same key.
    pub open spec fn keys_unique(&self) -> bool {
        forall|i: int| 0 <= i < self.steps().len() ==> keys_unique(#[trigger] self.steps()[i])
    }

    /// Whether the pattern is playable; see `wf`.
    pub fn is_playable(&self) -> (r: bool)
        ensures
            r == self.wf(),
    {
        let steps = pattern_vec_slice(&self.pattern);
        if steps.len() == 0 {
            return false;
        }
        let mut i: usize = 0;
        while i < steps.len()
            invariant
                i <= steps.len(),
                steps@ == step_items(self.pattern),
                forall|a: int, k: int|
                    0 <= a < i && 0 <= k < self.steps()[a].len() ==> (#[trigger] self.steps()[a][k]).len_steps >= 1,
            decreases steps.len() - i,
        {
            let entries = step_vec_slice(&steps[i]);
            assert(entries@ == self.steps()[i as int]);
            let mut k: usize = 0;
            while k < entries.len()
                invariant
                    k <= entries.len(),
                    i < steps@.len(),
                    steps@.len() == self.steps().len(),
                    entries@ == self.steps()[i as int],
                    forall|b: int| 0 <= b < k ==> (#[trigger] entries@[b]).len_steps >= 1,
                decreases entries.len() - k,
            {
                if entries[k].len_steps == 0 {
                    assert(self.steps()[i as int][k as int].len_steps == 0);
                    return false;
                }
                k += 1;
            }
            i += 1;
        }
        true
    }

    /// A pattern of `n_steps` empty steps.
    pub fn empty(repeat_mode: RepeatMode, n_steps: usize) -> (r: ArpeggioData)
        requires
            1 <= n_steps <= 64,
        ensures
            r.repeat_mode == repeat_mode,
            r.steps() == Seq::new(n_steps as nat, |i: int| Seq::<Entry>::empty()),
            r.wf(),
            r.keys_unique(),
    {
        let mut pattern = pattern_vec_new();
        let mut i: usize = 0;
        while i < n_steps
            invariant
                i <= n_steps <= 64,
                step_items(pattern).len() == i,
                forall|k: int| 0 <= k < i ==> entry_items(#[trigger] step_items(pattern)[k]) == Seq::<Entry>::empty(),
            decreases n_steps - i,
        {
            let ok = pattern_vec_push(&mut pattern, step_vec_new());
            i += 1;
        }
        let r = ArpeggioData { repeat_mode, pattern };
        assert(r.steps() =~= Seq::new(n_steps as nat, |i: int| Seq::<Entry>::empty()));
        r
    }

    /// The entries of step `pos` with index `note`.
    pub fn filter(&self, pos: usize, note: isize) -> (r: StepVec)
        requires
            pos < self.steps().len(),
        ensures
            entry_items(r) == self.steps()[pos as int].filter(selecting(note, None, true)),
    {
        let slice = pattern_vec_slice(&self.pattern);
        select_entries(step_vec_slice(&slice[pos]), note, None, true)
    }

    /// Sets `entry` at step `pos`, replacing the entry with the same key if
    /// there is one; gives the entry back if the step is full.
    pub fn set(&mut self, pos: usize, entry: Entry) -> (r: Result<(), Entry>)
        requires
            pos < old(self).steps().len(),
        ensures
            final(self).repeat_mode == old(self).repeat_mode,
            r is Err <==> (
                !(exists|i: int| 0 <= i < old(self).steps()[pos as int].len() && same_key(#[trigger] old(self).steps()[pos as int][i], entry))
                && old(self).steps()[pos as int].len() >= STEP_CAPACITY),
            r is Err ==> r == Err::<(), Entry>(entry) && final(self).steps() == old(self).steps(),
            r is Ok ==> final(self).steps() == old(self).steps().update(
                pos as int,
                upserted(old(self).steps()[pos as int], entry),
            ),
            old(self).keys_unique() ==> final(self).keys_unique(),
    {
        let ghost s = self.steps()[pos as int];
        let slice = pattern_vec_slice(&self.pattern);
        let entries = step_vec_slice(&slice[pos]);
        let mut step = step_vec_new();
        let mut found = false;
        let mut i: usize = 0;
        while i < entries.len()
            invariant
                entries@ == s,
                s.len() <= STEP_CAPACITY,
                i <= entries.len(),
                entry_items(step) == s.take(i as int).map_values(|x: Entry| if same_key(x, entry) { entry } else { x }),
                found <==> exists|k: int| 0 <= k < i && same_key(#[trigger] s[k], entry),
            decreases entries.len() - i,
        {
            let x = entries[i];
            let same = x.note == entry.note && x.transpose == entry.transpose;
            let ok = step_vec_push(&mut step, if same { entry } else { x });
            assert(s.take(i + 1) =~= s.take(i as int).push(x));
            assert(entry_items(step) =~= s.take(i + 1).map_values(|x: Entry| if same_key(x, entry) { entry } else { x }));
            if same {
                found = true;
            }
            i += 1;
        }
        assert(s.take(s.len() as int) =~= s);
        if found {
            assert(entry_items(step) =~= upserted(s, entry));
        } else {
            if entries.len() >= 16 {
                return Err(entry);
            }
            let ok = step_vec_push(&mut step, entry);
            proof {
                assert(entry_items(step) =~= s.push(entry)) by {
                    assert forall|k: int| 0 <= k < s.len() implies
                        #[trigger] entry_items(step)[k] == s[k] by {
                        assert(!same_key(s[k], entry));
                    }
                }
            }
        }
        self.replace_step(pos, step);
        proof {
            if old(self).keys_unique() {
                assert(keys_unique(old(self).steps()[pos as int]));
                lemma_upsert_keeps_keys_unique(s, entry);
                lemma_update_keeps_keys_unique(*old(self), pos as int, upserted(s, entry), self.steps());
            }
        }
        Ok(())
    }

    /// Removes from step `pos` the entries with the key of `entry`.
    pub fn delete(&mut self, pos: usize, entry: Entry)
        requires
            pos < old(self).steps().len(),
        ensures
            final(self).repeat_mode == old(self).repeat_mode,
            final(self).steps() == old(self).steps().update(
                pos as int,
                old(self).steps()[pos as int].filter(selecting(entry.note, Some(entry.transpose), false)),
            ),
            old(self).keys_unique() ==> final(self).keys_unique(),
    {
        let slice = pattern_vec_slice(&self.pattern);
        let step = select_entries(step_vec_slice(&slice[pos]), entry.note, Some(entry.transpose), false);
        self.replace_step(pos, step);
        proof {
            let s = old(self).steps()[pos as int];
            let p = selecting(entry.note, Some(entry.transpose), false);
            if old(self).keys_unique() {
                assert(keys_unique(old(self).steps()[pos as int]));
                lemma_filter_keeps_keys_unique(s, p);
                lemma_update_keeps_keys_unique(*old(self), pos as int, s.filter(p), self.steps());
            }
        }
    }

    /// Removes from step `pos` every entry with index `note`.
    pub fn delete_all(&mut self, pos: usize, note: isize)
        requires
            pos < old(self).steps().len(),
        ensures
            final(self).repeat_mode == old(self).repeat_mode,
            final(self).steps() == old(self).steps().update(
                pos as int,
                old(self).steps()[pos as int].filter(selecting(note, None, false)),
            ),
            old(self).keys_unique() ==> final(self).keys_unique(),
    {
        let slice = pattern_vec_slice(&self.pattern);
        let step = select_entries(step_vec_slice(&slice[pos]), note, None, false);
        self.replace_step(pos, step);
        proof {
            let s = old(self).steps()[pos as int];
            let p = selecting(note, None, false);
            if old(self).keys_unique() {
                assert(keys_unique(old(self).steps()[pos as int]));
                lemma_filter_keeps_keys_unique(s, p);
                lemma_update_keeps_keys_unique(*old(self), pos as int, s.filter(p), self.steps());
            }
        }
    }

    fn replace_step(&mut self, pos: usize, step: StepVec)
        requires
            pos < old(self).steps().len(),
        ensures
            final(self).repeat_mode == old(self).repeat_mode,
            final(self).steps() == old(self).steps().update(pos as int, entry_items(step)),
    {
        pattern_vec_set(&mut self.pattern, pos, step);
        assert(self.steps() =~= old(self).steps().update(pos as int, entry_items(step)));
    }
}

/// The entries of `s` whose match against `note` and `transpose` is `matching`, in order.
fn select_entries(s: &[Entry], note: isize, transpose: Option<i32>, matching: bool) -> (r: StepVec)
    requires
        s@.len() <= STEP_CAPACITY,
    ensures
        entry_items(r) == s@.filter(selecting(note, transpose, matching)),
{
    let mut r = step_vec_new();
    let mut i: usize = 0;
    while i < s.len()
        invariant
            s@.len() <= STEP_CAPACITY,
            i <= s.len(),
            entry_items(r) == s@.take(i as int).filter(selecting(note, transpose, matching)),
            entry_items(r).len() <= i,
        decreases s.len() - i,
    {
        let e = s[i];
        let is_match = e.note == note && match transpose {
            Some(t) => e.transpose == t,
            None => true,
        };
        proof {
            assert(s@.take(i + 1) =~= s@.take(i as int).push(e));
            s@.take(i as int).lemma_filter_push(e, selecting(note, transpose, matching));
        }
        if is_match == matching {
            let ok = step_vec_push(&mut r, e);
        }
        i += 1;
    }
    assert(s@.take(s@.len() as int) =~= s@);
    r
}

} // verus!

verus! {

proof fn lemma_upsert_keeps_keys_unique(s: Seq<Entry>, e: Entry)
    requires
        keys_unique(s),
    ensures
        keys_unique(upserted(s, e)),
{
    let u = upserted(s, e);
    if exists|i: int| 0 <= i < s.len() && same_key(#[trigger] s[i], e) {
        assert forall|i: int, j: int| 0 <= i < j < u.len() implies !same_key(#[trigger] u[i], #[trigger] u[j]) by {
            if same_key(s[i], e) && same_key(s[j], e) {
                assert(same_key(s[i], s[j]));
            }
        }
    } else {
        assert forall|i: int, j: int| 0 <= i < j < u.len() implies !same_key(#[trigger] u[i], #[trigger] u[j]) by {
            if j == s.len() {
                assert(!same_key(s[i], e));
            }
        }
    }
}

proof fn lemma_filter_keeps_keys_unique(s: Seq<Entry>, p: spec_fn(Entry) -> bool)
    requires
        keys_unique(s),
    ensures
        keys_unique(s.filter(p)),
    decreases s.len(),
{
    if s.len() > 0 {
        let t = s.drop_last();
        let x = s.last();
        assert(s =~= t.push(x));
        lemma_filter_keeps_keys_unique(t, p);
        t.lemma_filter_push(x, p);
        let f = s.filter(p);
        let g = t.filter(p);
        if p(x) {
            assert forall|i: int, j: int| 0 <= i < j < f.len() implies !same_key(#[trigger] f[i], #[trigger] f[j]) by {
                if j == g.len() {
                    assert(g.contains(g[i]));
                    t.lemma_filter_contains_rev(p, g[i]);
                    let k = choose|k: int| 0 <= k < t.len() && t[k] == g[i];
                    assert(s[k] == t[k]);
                    assert(s[s.len() - 1] == x);
                }
            }
        }
    }
}

proof fn lemma_update_keeps_keys_unique(old_data: ArpeggioData, pos: int, step: Seq<Entry>, steps: Seq<Seq<Entry>>)
    requires
        0 <= pos < old_data.steps().len(),
        keys_unique(step),
        steps == old_data.steps().update(pos, step),
        old_data.keys_unique(),
    ensures
        forall|i: int| 0 <= i < steps.len() ==> keys_unique(#[trigger] steps[i]),
{
    assert forall|i: int| 0 <= i < steps.len() implies keys_unique(#[trigger] steps[i]) by {
        if i != pos {
            assert(steps[i] == old_data.steps()[i]);
        }
    }
}

/// Clamping is stable past both ends of a chord: every index at or beyond the
/// last position gives the last pitch, and every index at or below `-len` gives
/// the first.
pub proof fn lemma_clamp_stable_at_ends(p: Seq<Note>, i: int)
    requires
        p.len() >= 1,
    ensures
        i >= p.len() - 1 ==> resolve(RepeatMode::Clamp, p, i) == Some(p[p.len() - 1]),
        i <= -p.len() ==> resolve(RepeatMode::Clamp, p, i) == Some(p[0]),
{
}

/// Mirroring a single pitch gives that pitch at every index.
pub proof fn lemma_mirror_single_pitch(n: Note, k: int)
    ensures
        resolve(RepeatMode::Mirror, seq![n], k) == Some(n),
{
}

/// A hit always ends before the end of its last step, whatever the length
/// modifier, so that its note-off never meets the note-on of a hit that starts there.
pub proof fn lemma_hit_ends_within_its_steps(len_steps: int, modifier: int)
    requires
        len_steps >= 1,
        0 <= modifier <= 2 * ONE,
    ensures
        0 <= hit_length(len_steps, modifier) < len_steps * ONE,
{
    if modifier <= ONE {
        let base = len_steps * ONE - ONE / 2;
        assert(0 <= base * modifier <= base * ONE) by (nonlinear_arith)
            requires
                base >= 0,
                0 <= modifier <= ONE,
        ;
        assert(base * modifier / ONE as int <= base) by (nonlinear_arith)
            requires
                0 <= base * modifier <= base * ONE,
                base >= 0,
        ;
        assert(base * modifier / ONE as int >= 0) by (nonlinear_arith)
            requires
                base * modifier >= 0,
        ;
    }
}

} // verus!
