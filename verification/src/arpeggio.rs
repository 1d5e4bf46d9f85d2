//! The note material an arpeggio is made of: single sounding notes and
//! steps, the ordered bags of notes that sound simultaneously.

use vstd::prelude::*;
use vstd::multiset::Multiset;
use crate::midi::{MidiMessage, MidiOutput};
use crate::midi;

pub mod synced;
pub mod timed;
pub mod full_length;

verus! {

/// A single sounding note: channel (1..=16), pitch and velocity (0..=127).
#[derive(Clone, Copy, PartialEq, Eq, Structural, Debug)]
pub struct NoteDetails {
    pub c: u8,
    pub n: u8,
    pub v: u8,
}

impl NoteDetails {
    pub open spec fn wf(self) -> bool {
        1 <= self.c <= 16 && self.n <= 127 && self.v <= 127
    }

    /// Build a note from a raw note-on; a configured fixed velocity
    /// overrides the played one, saturating at 127.
    pub fn new(c: u8, n: u8, v: u8, fixed_velocity: Option<u8>) -> (r: NoteDetails)
        requires
            1 <= c <= 16,
            n <= 127,
            v <= 127,
        ensures
            r == spec_note(c, n, v, fixed_velocity),
            r.wf(),
    {
        let vel: u8 = match fixed_velocity {
            Some(fixed) => if fixed >= 127 {
                127
            } else {
                fixed
            },
            None => v,
        };
        NoteDetails { c, n, v: vel }
    }
}

pub open spec fn spec_note(c: u8, n: u8, v: u8, fixed_velocity: Option<u8>) -> NoteDetails {
    match fixed_velocity {
        Some(fixed) => NoteDetails { c, n, v: if fixed >= 127 { 127u8 } else { fixed } },
        None => NoteDetails { c, n, v },
    }
}

pub open spec fn notes_wf(s: Seq<NoteDetails>) -> bool {
    forall|i: int| 0 <= i < s.len() ==> #[trigger] s[i].wf()
}

/// The note-on message of one note.
pub open spec fn on_msg(d: NoteDetails) -> MidiMessage {
    MidiMessage::NoteOn { channel: d.c, note: d.n, velocity: d.v }
}

/// The note-off message of one note (carrying the note's velocity, as the
/// engine emits it).
pub open spec fn off_msg(d: NoteDetails) -> MidiMessage {
    MidiMessage::NoteOff { channel: d.c, note: d.n, velocity: d.v }
}

/// The (channel, pitch) keys of the doubling copies of one note, without
/// the note's own key.
pub open spec fn doubles_keys(d: NoteDetails, dbl: Seq<i8>) -> Multiset<(u8, u8)>
    decreases dbl.len(),
{
    if dbl.len() == 0 {
        Multiset::empty()
    } else {
        match midi::transpose_spec(d.n, dbl[0]) {
            Some(t) => doubles_keys(d, dbl.drop_first()).insert((d.c, t)),
            None => doubles_keys(d, dbl.drop_first()),
        }
    }
}

/// Every (channel, pitch) one doubled note emission touches.
pub open spec fn note_keys(d: NoteDetails, dbl: Seq<i8>) -> Multiset<(u8, u8)> {
    doubles_keys(d, dbl).insert((d.c, d.n))
}

/// The messages a step emits when switched on under a doubling list.
pub open spec fn step_on_msgs(s: Seq<NoteDetails>, dbl: Seq<i8>) -> Seq<MidiMessage>
    decreases s.len(),
{
    if s.len() == 0 {
        Seq::empty()
    } else {
        step_on_msgs(s.drop_last(), dbl) + midi::doubled_msgs(on_msg(s.last()), dbl)
    }
}

/// The messages a step emits when switched off under a doubling list.
pub open spec fn step_off_msgs(s: Seq<NoteDetails>, dbl: Seq<i8>) -> Seq<MidiMessage>
    decreases s.len(),
{
    if s.len() == 0 {
        Seq::empty()
    } else {
        step_off_msgs(s.drop_last(), dbl) + midi::doubled_msgs(off_msg(s.last()), dbl)
    }
}

/// Every (channel, pitch) a step's emission touches.
pub open spec fn step_keys(s: Seq<NoteDetails>, dbl: Seq<i8>) -> Multiset<(u8, u8)>
    decreases s.len(),
{
    if s.len() == 0 {
        Multiset::empty()
    } else {
        step_keys(s.drop_last(), dbl).add(note_keys(s.last(), dbl))
    }
}

/// An ordered bag of notes that sound at the same point of an arpeggio.
/// An empty step is legal: a rest.
#[derive(Debug)]
pub struct Step {
    notes: Vec<NoteDetails>,
}

impl View for Step {
    type V = Seq<NoteDetails>;

    closed spec fn view(&self) -> Seq<NoteDetails> {
        self.notes@
    }
}

/// The highest pitch among a step's notes.
pub open spec fn max_pitch(s: Seq<NoteDetails>) -> Option<u8>
    decreases s.len(),
{
    if s.len() == 0 {
        None
    } else {
        match max_pitch(s.drop_last()) {
            None => Some(s.last().n),
            Some(m) => if s.last().n >= m {
                Some(s.last().n)
            } else {
                Some(m)
            },
        }
    }
}

/// A step transposed by `delta` semitones: notes whose new pitch leaves
/// 0..=127 are dropped, channel and velocity are kept.
pub open spec fn transpose_step(s: Seq<NoteDetails>, delta: int) -> Seq<NoteDetails>
    decreases s.len(),
{
    if s.len() == 0 {
        Seq::empty()
    } else {
        let rest = transpose_step(s.drop_last(), delta);
        let d = s.last();
        if 0 <= d.n + delta <= 127 {
            rest.push(NoteDetails { c: d.c, n: (d.n + delta) as u8, v: d.v })
        } else {
            rest
        }
    }
}

impl Step {
    /// A one-note step.
    pub fn note(note: NoteDetails) -> (r: Step)
        ensures
            r@ == seq![note],
    {
        let mut notes: Vec<NoteDetails> = Vec::new();
        notes.push(note);
        let r = Step { notes };
        proof {
            assert(r@ =~= seq![note]);
        }
        r
    }

    /// A step of the given notes, in order.
    pub fn notes(notes: Vec<NoteDetails>) -> (r: Step)
        ensures
            r@ == notes@,
    {
        Step { notes }
    }

    pub fn len(&self) -> (r: usize)
        ensures
            r == self@.len(),
    {
        self.notes.len()
    }

    pub fn get(&self, i: usize) -> (r: NoteDetails)
        requires
            i < self@.len(),
        ensures
            r == self@[i as int],
    {
        self.notes[i]
    }

    pub fn duplicate(&self) -> (r: Step)
        ensures
            r@ == self@,
    {
        let mut notes: Vec<NoteDetails> = Vec::new();
        let n: usize = self.notes.len();
        let mut i: usize = 0;
        while i < n
            invariant
                i <= n,
                n == self.notes@.len(),
                notes@ == self.notes@.take(i as int),
            decreases n - i,
        {
            notes.push(self.notes[i]);
            proof {
                assert(notes@ =~= self.notes@.take(i + 1));
            }
            i = i + 1;
        }
        proof {
            assert(self.notes@.take(n as int) =~= self.notes@);
        }
        Step { notes }
    }

    /// Switch the step's notes on, doubling copies first.
    pub fn send_on(&self, dbl: &Vec<i8>, out: &mut MidiOutput)
        ensures
            final(out)@ == old(out)@ + step_on_msgs(self@, dbl@),
    {
        let ghost start = out@;
        let n: usize = self.notes.len();
        let mut i: usize = 0;
        while i < n
            invariant
                i <= n,
                n == self.notes@.len(),
                out@ == start + step_on_msgs(self.notes@.take(i as int), dbl@),
            decreases n - i,
        {
            let d = self.notes[i];
            out.send_with_doubling(
                MidiMessage::NoteOn { channel: d.c, note: d.n, velocity: d.v },
                dbl,
            );
            proof {
                assert(self.notes@.take(i + 1).drop_last() =~= self.notes@.take(i as int));
                assert(self.notes@.take(i + 1).last() == d);
                assert(out@ =~= start + step_on_msgs(self.notes@.take(i + 1), dbl@));
            }
            i = i + 1;
        }
        proof {
            assert(self.notes@.take(n as int) =~= self.notes@);
        }
    }

    /// Switch the step's notes off, doubling copies first.
    pub fn send_off(&self, dbl: &Vec<i8>, out: &mut MidiOutput)
        ensures
            final(out)@ == old(out)@ + step_off_msgs(self@, dbl@),
    {
        let ghost start = out@;
        let n: usize = self.notes.len();
        let mut i: usize = 0;
        while i < n
            invariant
                i <= n,
                n == self.notes@.len(),
                out@ == start + step_off_msgs(self.notes@.take(i as int), dbl@),
            decreases n - i,
        {
            let d = self.notes[i];
            out.send_with_doubling(
                MidiMessage::NoteOff { channel: d.c, note: d.n, velocity: d.v },
                dbl,
            );
            proof {
                assert(self.notes@.take(i + 1).drop_last() =~= self.notes@.take(i as int));
                assert(self.notes@.take(i + 1).last() == d);
                assert(out@ =~= start + step_off_msgs(self.notes@.take(i + 1), dbl@));
            }
            i = i + 1;
        }
        proof {
            assert(self.notes@.take(n as int) =~= self.notes@);
        }
    }

    /// The highest pitch in the step, if the step has notes.
    pub fn highest_note(&self) -> (r: Option<u8>)
        ensures
            r == max_pitch(self@),
    {
        let n: usize = self.notes.len();
        let mut best: Option<u8> = None;
        let mut i: usize = 0;
        while i < n
            invariant
                i <= n,
                n == self.notes@.len(),
                best == max_pitch(self.notes@.take(i as int)),
            decreases n - i,
        {
            let d = self.notes[i];
            proof {
                assert(self.notes@.take(i + 1).drop_last() =~= self.notes@.take(i as int));
                assert(self.notes@.take(i + 1).last() == d);
            }
            best = match best {
                None => Some(d.n),
                Some(m) => if d.n >= m {
                    Some(d.n)
                } else {
                    Some(m)
                },
            };
            i = i + 1;
        }
        proof {
            assert(self.notes@.take(n as int) =~= self.notes@);
        }
        best
    }

    /// Remap every pitch by `half_steps` semitones, dropping notes that
    /// leave the MIDI range.
    pub fn transpose(&self, half_steps: i8) -> (r: Step)
        ensures
            r@ == transpose_step(self@, half_steps as int),
    {
        let mut notes: Vec<NoteDetails> = Vec::new();
        let n: usize = self.notes.len();
        let mut i: usize = 0;
        while i < n
            invariant
                i <= n,
                n == self.notes@.len(),
                notes@ == transpose_step(self.notes@.take(i as int), half_steps as int),
            decreases n - i,
        {
            let d = self.notes[i];
            proof {
                assert(self.notes@.take(i + 1).drop_last() =~= self.notes@.take(i as int));
                assert(self.notes@.take(i + 1).last() == d);
            }
            if let Some(t) = midi::transpose(d.n, half_steps) {
                notes.push(NoteDetails { c: d.c, n: t, v: d.v });
            }
            i = i + 1;
        }
        proof {
            assert(self.notes@.take(n as int) =~= self.notes@);
        }
        Step { notes }
    }
}

/// Transposition is a group action on steps: shifting by `a` and then by
/// `b` is shifting by `a + b`, provided no note that survives the
/// combined shift is dropped by the intermediate one — that is, the set
/// of dropped notes is closed under the second shift.  (Without that
/// proviso the two sides differ: a note pushed out of range by `a` and
/// back in by `b` is dropped on the left but kept on the right.)
pub proof fn lemma_transpose_group_action(s: Seq<NoteDetails>, a: int, b: int)
    requires
        forall|i: int|
            0 <= i < s.len() ==> ((0 <= (#[trigger] s[i]).n + a + b <= 127) ==> (0 <= s[i].n + a
                <= 127)),
    ensures
        transpose_step(transpose_step(s, a), b) == transpose_step(s, a + b),
    decreases s.len(),
{
    if s.len() == 0 {
        assert(transpose_step(transpose_step(s, a), b) =~= transpose_step(s, a + b));
    } else {
        assert(forall|i: int|
            0 <= i < s.len() - 1 ==> #[trigger] s.drop_last()[i] == s[i]);
        lemma_transpose_group_action(s.drop_last(), a, b);
        let d = s.last();
        if 0 <= d.n + a <= 127 {
            let da = NoteDetails { c: d.c, n: (d.n + a) as u8, v: d.v };
            assert(transpose_step(s, a) == transpose_step(s.drop_last(), a).push(da));
            assert(transpose_step(s, a).drop_last() =~= transpose_step(s.drop_last(), a));
            assert(transpose_step(s, a).last() == da);
            if 0 <= da.n + b <= 127 {
                let dab = NoteDetails { c: d.c, n: (da.n + b) as u8, v: d.v };
                assert(transpose_step(transpose_step(s, a), b) == transpose_step(
                    transpose_step(s.drop_last(), a),
                    b,
                ).push(dab));
                assert(0 <= d.n + (a + b) <= 127);
                assert(transpose_step(s, a + b) == transpose_step(s.drop_last(), a + b).push(
                    NoteDetails { c: d.c, n: (d.n + (a + b)) as u8, v: d.v },
                ));
                assert(dab == (NoteDetails { c: d.c, n: (d.n + (a + b)) as u8, v: d.v }));
            } else {
                assert(transpose_step(transpose_step(s, a), b) == transpose_step(
                    transpose_step(s.drop_last(), a),
                    b,
                ));
                assert(!(0 <= d.n + (a + b) <= 127));
                assert(transpose_step(s, a + b) == transpose_step(s.drop_last(), a + b));
            }
        } else {
            assert(s[s.len() - 1] == d);
            assert(!(0 <= d.n + a + b <= 127));
            assert(transpose_step(s, a) == transpose_step(s.drop_last(), a));
            assert(transpose_step(s, a + b) == transpose_step(s.drop_last(), a + b));
        }
    }
}

/// The highest pitch of well-formed notes is a MIDI pitch.
pub proof fn lemma_max_pitch_wf(s: Seq<NoteDetails>)
    requires
        notes_wf(s),
    ensures
        match max_pitch(s) {
            Some(m) => m <= 127,
            None => true,
        },
    decreases s.len(),
{
    if s.len() > 0 {
        assert(notes_wf(s.drop_last())) by {
            assert(forall|i: int|
                0 <= i < s.len() - 1 ==> #[trigger] s.drop_last()[i] == s[i]);
        }
        lemma_max_pitch_wf(s.drop_last());
        assert(s[s.len() - 1].wf());
    }
}

// ------------------------------------------------------------------
// Accounting lemmas: what switching a step on or off does to the
// multiset of sounding notes.
// ------------------------------------------------------------------

/// Switching one doubled note on adds exactly its keys, and emits no off.
proof fn lemma_doubles_on_live(ms: Multiset<(u8, u8)>, d: NoteDetails, dbl: Seq<i8>)
    ensures
        midi::live_after(ms, midi::doubles_of(on_msg(d), dbl)) == ms.add(doubles_keys(d, dbl)),
        midi::offs_covered(ms, midi::doubles_of(on_msg(d), dbl)),
    decreases dbl.len(),
{
    let m = on_msg(d);
    if dbl.len() == 0 {
        assert(midi::live_after(ms, midi::doubles_of(m, dbl)) =~= ms.add(doubles_keys(d, dbl)));
    } else {
        let head: Seq<MidiMessage> = match midi::doubled_copy(m, dbl[0]) {
            Some(t) => seq![t],
            None => Seq::empty(),
        };
        let rest = midi::doubles_of(m, dbl.drop_first());
        assert(midi::doubles_of(m, dbl) == head + rest);
        midi::lemma_live_concat(ms, head, rest);
        match midi::transpose_spec(d.n, dbl[0]) {
            Some(t) => {
                let cp = MidiMessage::NoteOn { channel: d.c, note: t, velocity: d.v };
                midi::lemma_live_singleton(ms, cp);
                assert(head == seq![cp]);
                assert(midi::live_after(ms, head) == ms.insert((d.c, t)));
                lemma_doubles_on_live(ms.insert((d.c, t)), d, dbl.drop_first());
                assert(ms.insert((d.c, t)).add(doubles_keys(d, dbl.drop_first())) =~= ms.add(
                    doubles_keys(d, dbl),
                ));
            },
            None => {
                assert(head =~= Seq::<MidiMessage>::empty());
                lemma_doubles_on_live(ms, d, dbl.drop_first());
            },
        }
    }
}

/// Switching one doubled note off removes exactly its keys; if they are all
/// sounding, every off is covered.
proof fn lemma_doubles_off_live(ms: Multiset<(u8, u8)>, d: NoteDetails, dbl: Seq<i8>)
    requires
        doubles_keys(d, dbl).subset_of(ms),
    ensures
        midi::live_after(ms, midi::doubles_of(off_msg(d), dbl)) == ms.sub(doubles_keys(d, dbl)),
        midi::offs_covered(ms, midi::doubles_of(off_msg(d), dbl)),
    decreases dbl.len(),
{
    let m = off_msg(d);
    if dbl.len() == 0 {
        assert(midi::live_after(ms, midi::doubles_of(m, dbl)) =~= ms.sub(doubles_keys(d, dbl)));
    } else {
        let head: Seq<MidiMessage> = match midi::doubled_copy(m, dbl[0]) {
            Some(t) => seq![t],
            None => Seq::empty(),
        };
        let rest = midi::doubles_of(m, dbl.drop_first());
        assert(midi::doubles_of(m, dbl) == head + rest);
        midi::lemma_live_concat(ms, head, rest);
        match midi::transpose_spec(d.n, dbl[0]) {
            Some(t) => {
                let k = ((d.c, t));
                assert(doubles_keys(d, dbl) == doubles_keys(d, dbl.drop_first()).insert(k));
                assert(doubles_keys(d, dbl).count(k) >= 1);
                assert(ms.count(k) >= 1);
                let cp = MidiMessage::NoteOff { channel: d.c, note: t, velocity: d.v };
                midi::lemma_live_singleton(ms, cp);
                assert(head == seq![cp]);
                assert(midi::live_after(ms, head) == ms.remove(k));
                assert(midi::offs_covered(ms, head));
                assert(doubles_keys(d, dbl.drop_first()).subset_of(ms.remove(k))) by {
                    assert forall|x: (u8, u8)|
                        doubles_keys(d, dbl.drop_first()).count(x) <= ms.remove(k).count(
                            x,
                        ) by {
                        assert(doubles_keys(d, dbl).count(x) <= ms.count(x));
                    }
                }
                lemma_doubles_off_live(ms.remove(k), d, dbl.drop_first());
                assert(ms.remove(k).sub(doubles_keys(d, dbl.drop_first())) =~= ms.sub(
                    doubles_keys(d, dbl),
                ));
            },
            None => {
                assert(head =~= Seq::<MidiMessage>::empty());
                lemma_doubles_off_live(ms, d, dbl.drop_first());
            },
        }
    }
}

/// Switching a step on adds exactly its keys to the sounding notes and
/// contains no note-off.
pub proof fn lemma_step_on_live(ms: Multiset<(u8, u8)>, s: Seq<NoteDetails>, dbl: Seq<i8>)
    ensures
        midi::live_after(ms, step_on_msgs(s, dbl)) == ms.add(step_keys(s, dbl)),
        midi::offs_covered(ms, step_on_msgs(s, dbl)),
    decreases s.len(),
{
    if s.len() == 0 {
        assert(midi::live_after(ms, step_on_msgs(s, dbl)) =~= ms.add(step_keys(s, dbl)));
    } else {
        let pre = step_on_msgs(s.drop_last(), dbl);
        let d = s.last();
        lemma_step_on_live(ms, s.drop_last(), dbl);
        midi::lemma_live_concat(ms, pre, midi::doubled_msgs(on_msg(d), dbl));
        let ms1 = ms.add(step_keys(s.drop_last(), dbl));
        midi::lemma_live_concat(ms1, midi::doubles_of(on_msg(d), dbl), seq![on_msg(d)]);
        lemma_doubles_on_live(ms1, d, dbl);
        midi::lemma_live_singleton(ms1.add(doubles_keys(d, dbl)), on_msg(d));
        assert(midi::live_after(ms1.add(doubles_keys(d, dbl)), seq![on_msg(d)]) == ms1.add(
            doubles_keys(d, dbl),
        ).insert((d.c, d.n)));
        assert(ms1.add(doubles_keys(d, dbl)).insert((d.c, d.n)) =~= ms.add(step_keys(s, dbl)));
    }
}

/// Switching a step off removes exactly its keys; if the step's notes are
/// all sounding, every off is covered.
pub proof fn lemma_step_off_live(ms: Multiset<(u8, u8)>, s: Seq<NoteDetails>, dbl: Seq<i8>)
    requires
        step_keys(s, dbl).subset_of(ms),
    ensures
        midi::live_after(ms, step_off_msgs(s, dbl)) == ms.sub(step_keys(s, dbl)),
        midi::offs_covered(ms, step_off_msgs(s, dbl)),
    decreases s.len(),
{
    if s.len() == 0 {
        assert(midi::live_after(ms, step_off_msgs(s, dbl)) =~= ms.sub(step_keys(s, dbl)));
    } else {
        let pre = step_off_msgs(s.drop_last(), dbl);
        let d = s.last();
        assert(step_keys(s, dbl) == step_keys(s.drop_last(), dbl).add(note_keys(d, dbl)));
        assert(step_keys(s.drop_last(), dbl).subset_of(ms)) by {
            assert forall|x: (u8, u8)|
                step_keys(s.drop_last(), dbl).count(x) <= ms.count(x) by {
                assert(step_keys(s, dbl).count(x) <= ms.count(x));
            }
        }
        lemma_step_off_live(ms, s.drop_last(), dbl);
        midi::lemma_live_concat(ms, pre, midi::doubled_msgs(off_msg(d), dbl));
        let ms1 = ms.sub(step_keys(s.drop_last(), dbl));
        assert(note_keys(d, dbl).subset_of(ms1)) by {
            assert forall|x: (u8, u8)| note_keys(d, dbl).count(x) <= ms1.count(x) by {
                assert(step_keys(s, dbl).count(x) <= ms.count(x));
            }
        }
        assert(doubles_keys(d, dbl).subset_of(ms1)) by {
            assert forall|x: (u8, u8)| doubles_keys(d, dbl).count(x) <= ms1.count(x) by {
                assert(note_keys(d, dbl).count(x) <= ms1.count(x));
                assert(doubles_keys(d, dbl).count(x) <= note_keys(d, dbl).count(x));
            }
        }
        midi::lemma_live_concat(ms1, midi::doubles_of(off_msg(d), dbl), seq![off_msg(d)]);
        lemma_doubles_off_live(ms1, d, dbl);
        let ms2 = ms1.sub(doubles_keys(d, dbl));
        midi::lemma_live_singleton(ms2, off_msg(d));
        assert(ms2.count((d.c, d.n)) >= 1) by {
            assert(note_keys(d, dbl).count(((d.c, d.n))) >= 1);
            assert(note_keys(d, dbl).subset_of(ms1));
        }
        assert(midi::live_after(ms2, seq![off_msg(d)]) == ms2.remove((d.c, d.n)));
        assert(midi::offs_covered(ms1, midi::doubled_msgs(off_msg(d), dbl)));
        assert(ms2.remove((d.c, d.n)) =~= ms.sub(step_keys(s, dbl)));
    }
}

} // verus!
