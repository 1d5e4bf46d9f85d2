//! The full-length arpeggio: a dense per-pitch bitmap whose "steps" are
//! generated on the fly by sweeping the pitch range in pattern order.

use vstd::prelude::*;
use vstd::multiset::Multiset;
use crate::midi::{self, MidiMessage, MidiOutput};
use crate::arpeggiator::Pattern;

verus! {

/// Number of MIDI pitches the bitmap covers.
pub const NOTE_COUNT: usize = 128;

/// A velocity per held pitch, a uniform tick rate, and the sweep order.
#[derive(Debug)]
pub struct Arpeggio {
    pub notes: Vec<Option<u8>>,
    pub ticks_per_step: usize,
    pub pattern: Pattern,
}

impl Arpeggio {
    pub open spec fn wf(self) -> bool {
        &&& self.notes@.len() == NOTE_COUNT
        &&& self.ticks_per_step >= 1
    }

    /// A bitmap holding one note, swept at `notes_per_beat` steps per beat.
    pub fn from(n: u8, v: u8, notes_per_beat: usize, pattern: Pattern) -> (r: Arpeggio)
        requires
            n <= 127,
            1 <= notes_per_beat <= midi::TICKS_PER_BEAT,
        ensures
            r.wf(),
            r.ticks_per_step == midi::TICKS_PER_BEAT / notes_per_beat,
            r.pattern == pattern,
            r.notes@[n as int] == Some(v),
            forall|i: int| 0 <= i < NOTE_COUNT && i != n ==> #[trigger] r.notes@[i] is None,
    {
        let mut notes: Vec<Option<u8>> = Vec::new();
        let mut i: usize = 0;
        while i < NOTE_COUNT
            invariant
                i <= NOTE_COUNT,
                notes@.len() == i,
                forall|j: int| 0 <= j < i ==> #[trigger] notes@[j] is None,
            decreases NOTE_COUNT - i,
        {
            notes.push(None);
            i = i + 1;
        }
        proof {
            assert((midi::TICKS_PER_BEAT as int) / (notes_per_beat as int) >= 1)
                by (nonlinear_arith)
                requires
                    1 <= notes_per_beat <= midi::TICKS_PER_BEAT,
            ;
        }
        let mut arp = Arpeggio { notes, ticks_per_step: midi::TICKS_PER_BEAT / notes_per_beat, pattern };
        arp.note_on(n, v);
        arp
    }

    /// Hold the pitch at the given velocity.
    pub fn note_on(&mut self, n: u8, v: u8)
        requires
            old(self).notes@.len() == NOTE_COUNT,
            n <= 127,
        ensures
            final(self).notes@ == old(self).notes@.update(n as int, Some(v)),
            final(self).ticks_per_step == old(self).ticks_per_step,
            final(self).pattern == old(self).pattern,
    {
        self.notes.set(n as usize, Some(v));
    }

    /// Release the pitch.
    pub fn note_off(&mut self, n: u8)
        requires
            old(self).notes@.len() == NOTE_COUNT,
            n <= 127,
        ensures
            final(self).notes@ == old(self).notes@.update(n as int, None),
            final(self).ticks_per_step == old(self).ticks_per_step,
            final(self).pattern == old(self).pattern,
    {
        self.notes.set(n as usize, None);
    }
}

/// The pitch the sweep visits after `i`, cyclically in pattern order.
pub open spec fn next_idx(i: int, p: Pattern) -> int {
    match p {
        Pattern::Up => if i == NOTE_COUNT - 1 {
            0int
        } else {
            i + 1
        },
        Pattern::Down => if i == 0 {
            (NOTE_COUNT - 1) as int
        } else {
            i - 1
        },
    }
}

/// The sweep from `cur`, stopping at the first held pitch, giving up when
/// it comes back around to `last` (or runs out of fuel).
pub open spec fn sweep_from(notes: Seq<Option<u8>>, last: int, cur: int, p: Pattern, fuel: nat)
    -> Option<int>
    decreases fuel,
{
    if fuel == 0 {
        None
    } else {
        let j = next_idx(cur, p);
        if 0 <= j < notes.len() && notes[j] is Some {
            Some(j)
        } else if j == last {
            None
        } else {
            sweep_from(notes, last, j, p, (fuel - 1) as nat)
        }
    }
}

/// The next held pitch after `last` in pattern order, if any pitch is held.
pub open spec fn find_next(notes: Seq<Option<u8>>, last: int, p: Pattern) -> Option<int> {
    sweep_from(notes, last, last, p, NOTE_COUNT as nat)
}

/// A live tick-driven instance of a full-length arpeggio.  The bitmap may
/// be mutated between ticks without disturbing phase.
pub struct Player {
    pub arpeggio: Arpeggio,
    pub last_note: usize,
    pub wait_ticks: usize,
    pub should_stop: bool,
    pub sounded: Ghost<bool>,
    pub ticks: Ghost<nat>,
}

impl Player {
    pub open spec fn wf(self) -> bool {
        &&& self.arpeggio.wf()
        &&& self.last_note < NOTE_COUNT
        &&& self.wait_ticks < self.arpeggio.ticks_per_step
    }

    /// The (channel, pitch) this player currently has sounding.  The
    /// player always addresses channel 1.
    pub open spec fn sounding(self) -> Multiset<(u8, u8)> {
        if self.sounded@ {
            Multiset::empty().insert((1u8, self.last_note as u8))
        } else {
            Multiset::empty()
        }
    }

    pub fn init(arpeggio: Arpeggio) -> (r: Player)
        requires
            arpeggio.wf(),
        ensures
            r.arpeggio == arpeggio,
            r.last_note == NOTE_COUNT - 1,
            r.wait_ticks == 0,
            r.should_stop == false,
            r.sounded@ == false,
            r.ticks@ == 0,
            r.wf(),
            r.sounding() == Multiset::<(u8, u8)>::empty(),
    {
        Player {
            arpeggio,
            last_note: NOTE_COUNT - 1,
            wait_ticks: 0,
            should_stop: false,
            sounded: Ghost(false),
            ticks: Ghost(0),
        }
    }

    /// Hold a pitch in the running arpeggio.
    pub fn note_on(&mut self, n: u8, v: u8)
        requires
            old(self).wf(),
            n <= 127,
        ensures
            final(self).wf(),
            final(self).arpeggio.notes@ == old(self).arpeggio.notes@.update(n as int, Some(v)),
            final(self).arpeggio.ticks_per_step == old(self).arpeggio.ticks_per_step,
            final(self).arpeggio.pattern == old(self).arpeggio.pattern,
            final(self).last_note == old(self).last_note,
            final(self).wait_ticks == old(self).wait_ticks,
            final(self).should_stop == old(self).should_stop,
            final(self).sounded == old(self).sounded,
            final(self).ticks == old(self).ticks,
            final(self).sounding() == old(self).sounding(),
    {
        self.arpeggio.note_on(n, v);
    }

    /// Release a pitch in the running arpeggio.
    pub fn note_off(&mut self, n: u8)
        requires
            old(self).wf(),
            n <= 127,
        ensures
            final(self).wf(),
            final(self).arpeggio.notes@ == old(self).arpeggio.notes@.update(n as int, None),
            final(self).arpeggio.ticks_per_step == old(self).arpeggio.ticks_per_step,
            final(self).arpeggio.pattern == old(self).arpeggio.pattern,
            final(self).last_note == old(self).last_note,
            final(self).wait_ticks == old(self).wait_ticks,
            final(self).should_stop == old(self).should_stop,
            final(self).sounded == old(self).sounded,
            final(self).ticks == old(self).ticks,
            final(self).sounding() == old(self).sounding(),
    {
        self.arpeggio.note_off(n);
    }

    /// The note-off of the last swept pitch, as the player emits it.
    pub open spec fn last_off_msg(self) -> MidiMessage {
        MidiMessage::NoteOff { channel: 1, note: self.last_note as u8, velocity: 0 }
    }

    /// Whether one tick leaves the player live, as a value.
    pub open spec fn spec_tick_live(self) -> bool {
        if self.should_stop {
            false
        } else if self.wait_ticks == 0 {
            find_next(self.arpeggio.notes@, self.last_note as int, self.arpeggio.pattern) is Some
        } else {
            true
        }
    }

    /// What one tick emits, as a value.
    pub open spec fn spec_tick_msgs(self) -> Seq<MidiMessage> {
        if self.should_stop {
            seq![self.last_off_msg()]
        } else if self.wait_ticks == 0 {
            match find_next(self.arpeggio.notes@, self.last_note as int, self.arpeggio.pattern) {
                Some(j) => seq![
                    self.last_off_msg(),
                    MidiMessage::NoteOn {
                        channel: 1,
                        note: j as u8,
                        velocity: self.arpeggio.notes@[j]->Some_0,
                    },
                ],
                None => seq![self.last_off_msg()],
            }
        } else {
            Seq::empty()
        }
    }

    /// The player one tick later, as a value.
    pub open spec fn spec_tick_state(self) -> Player {
        if self.should_stop {
            Player {
                arpeggio: self.arpeggio,
                last_note: self.last_note,
                wait_ticks: self.wait_ticks,
                should_stop: self.should_stop,
                sounded: Ghost(false),
                ticks: Ghost(self.ticks@ + 1),
            }
        } else if self.wait_ticks == 0 {
            match find_next(self.arpeggio.notes@, self.last_note as int, self.arpeggio.pattern) {
                Some(j) => Player {
                    arpeggio: self.arpeggio,
                    last_note: j as usize,
                    wait_ticks: (self.arpeggio.ticks_per_step - 1) as usize,
                    should_stop: self.should_stop,
                    sounded: Ghost(true),
                    ticks: Ghost(self.ticks@ + 1),
                },
                None => Player {
                    arpeggio: self.arpeggio,
                    last_note: self.last_note,
                    wait_ticks: self.wait_ticks,
                    should_stop: self.should_stop,
                    sounded: Ghost(false),
                    ticks: Ghost(self.ticks@ + 1),
                },
            }
        } else {
            Player {
                arpeggio: self.arpeggio,
                last_note: self.last_note,
                wait_ticks: (self.wait_ticks - 1) as usize,
                should_stop: self.should_stop,
                sounded: self.sounded,
                ticks: Ghost(self.ticks@ + 1),
            }
        }
    }

    /// Find the next held pitch in pattern order, starting after the last
    /// swept pitch.
    fn find_next_note(&self) -> (r: Option<(usize, u8)>)
        requires
            self.wf(),
        ensures
            match r {
                Some((j, v)) => find_next(self.arpeggio.notes@, self.last_note as int, self.arpeggio.pattern)
                    == Some(j as int) && j < NOTE_COUNT && self.arpeggio.notes@[j as int] == Some(
                    v,
                ),
                None => find_next(self.arpeggio.notes@, self.last_note as int, self.arpeggio.pattern)
                    is None,
            },
    {
        let p = self.arpeggio.pattern;
        let last = self.last_note;
        let mut cur: usize = last;
        let mut fuel: usize = NOTE_COUNT;
        while fuel > 0
            invariant
                self.wf(),
                cur < NOTE_COUNT,
                last == self.last_note,
                p == self.arpeggio.pattern,
                fuel <= NOTE_COUNT,
                sweep_from(self.arpeggio.notes@, last as int, cur as int, p, fuel as nat)
                    == find_next(self.arpeggio.notes@, last as int, p),
            decreases fuel,
        {
            let j: usize = match p {
                Pattern::Up => if cur == NOTE_COUNT - 1 {
                    0
                } else {
                    cur + 1
                },
                Pattern::Down => if cur == 0 {
                    NOTE_COUNT - 1
                } else {
                    cur - 1
                },
            };
            if let Some(v) = self.arpeggio.notes[j] {
                return Some((j, v));
            }
            if j == last {
                return None;
            }
            cur = j;
            fuel = fuel - 1;
        }
        None
    }

    /// Advance the player by one MIDI clock tick: when the wait counter
    /// has run out, switch off the last swept pitch and switch on the next
    /// held one.  Returns whether the player is still live; a `false`
    /// return leaves nothing sounding.
    pub fn play_tick(&mut self, out: &mut MidiOutput) -> (r: bool)
        requires
            old(self).wf(),
        ensures
            final(self).wf(),
            r == old(self).spec_tick_live(),
            *final(self) == old(self).spec_tick_state(),
            final(out)@ == old(out)@ + old(self).spec_tick_msgs(),
            final(self).ticks@ == old(self).ticks@ + 1,
            final(self).should_stop == old(self).should_stop,
            ({
                let p = *old(self);
                if p.should_stop {
                    &&& r == false
                    &&& final(out)@ == old(out)@.push(p.last_off_msg())
                    &&& final(self).arpeggio == p.arpeggio
                    &&& final(self).last_note == p.last_note
                    &&& final(self).sounded@ == false
                } else if p.wait_ticks == 0 {
                    match find_next(p.arpeggio.notes@, p.last_note as int, p.arpeggio.pattern) {
                        Some(j) => {
                            &&& r == true
                            &&& final(out)@ == old(out)@.push(p.last_off_msg()).push(
                                MidiMessage::NoteOn {
                                    channel: 1,
                                    note: j as u8,
                                    velocity: p.arpeggio.notes@[j]->Some_0,
                                },
                            )
                            &&& final(self).arpeggio == p.arpeggio
                            &&& final(self).last_note == j
                            &&& final(self).sounded@ == true
                            &&& final(self).wait_ticks == p.arpeggio.ticks_per_step - 1
                        },
                        None => {
                            &&& r == false
                            &&& final(out)@ == old(out)@.push(p.last_off_msg())
                            &&& final(self).arpeggio == p.arpeggio
                            &&& final(self).last_note == p.last_note
                            &&& final(self).sounded@ == false
                        },
                    }
                } else {
                    &&& r == true
                    &&& final(out)@ == old(out)@
                    &&& final(self).arpeggio == p.arpeggio
                    &&& final(self).last_note == p.last_note
                    &&& final(self).sounded == p.sounded
                    &&& final(self).wait_ticks == p.wait_ticks - 1
                }
            }),
            midi::live_after(
                old(self).sounding(),
                final(out)@.subrange(old(out)@.len() as int, final(out)@.len() as int),
            ) == final(self).sounding(),
            !r ==> final(self).sounding() == Multiset::<(u8, u8)>::empty(),
    {
        proof {
            self.ticks@ = self.ticks@ + 1;
        }
        let ghost p = *self;
        let ghost start = out@;
        if self.should_stop {
            self.last_note_off(out);
            proof {
                self.sounded@ = false;
                lemma_live_off_on(p.sounding(), p.last_off_msg(), None);
                assert(out@.subrange(start.len() as int, out@.len() as int) =~= seq![
                    p.last_off_msg(),
                ]);
            }
            return false;
        }
        if self.wait_ticks == 0 {
            match self.find_next_note() {
                Some((next_note, v)) => {
                    // found the next note
                    self.last_note_off(out);
                    self.next_note_on(next_note, v, out);
                    self.wait_ticks = self.arpeggio.ticks_per_step;
                    self.wait_ticks = self.wait_ticks - 1;
                    proof {
                        self.sounded@ = true;
                        let on = MidiMessage::NoteOn {
                            channel: 1,
                            note: next_note as u8,
                            velocity: v,
                        };
                        lemma_live_off_on(p.sounding(), p.last_off_msg(), Some(on));
                        assert(out@.subrange(start.len() as int, out@.len() as int) =~= seq![
                            p.last_off_msg(),
                            on,
                        ]);
                    }
                    return true;
                },
                None => {
                    // no notes are held
                    self.last_note_off(out);
                    proof {
                        self.sounded@ = false;
                        lemma_live_off_on(p.sounding(), p.last_off_msg(), None);
                        assert(out@.subrange(start.len() as int, out@.len() as int) =~= seq![
                            p.last_off_msg(),
                        ]);
                    }
                    return false;
                },
            }
        }
        self.wait_ticks = self.wait_ticks - 1;
        proof {
            assert(out@.subrange(start.len() as int, out@.len() as int) =~= Seq::<
                MidiMessage,
            >::empty());
        }
        true
    }

    fn last_note_off(&self, out: &mut MidiOutput)
        requires
            self.last_note < NOTE_COUNT,
        ensures
            final(out)@ == old(out)@.push(self.last_off_msg()),
    {
        out.send(MidiMessage::NoteOff { channel: 1, note: self.last_note as u8, velocity: 0 });
    }

    fn next_note_on(&mut self, next_note: usize, v: u8, out: &mut MidiOutput)
        requires
            next_note < NOTE_COUNT,
        ensures
            final(self).last_note == next_note,
            final(self).arpeggio == old(self).arpeggio,
            final(self).wait_ticks == old(self).wait_ticks,
            final(self).should_stop == old(self).should_stop,
            final(self).sounded == old(self).sounded,
            final(self).ticks == old(self).ticks,
            final(out)@ == old(out)@.push(
                MidiMessage::NoteOn { channel: 1, note: next_note as u8, velocity: v },
            ),
    {
        self.last_note = next_note;
        out.send(MidiMessage::NoteOn { channel: 1, note: next_note as u8, velocity: v });
    }

    /// Request a graceful stop: the next tick emits the final note-off.
    pub fn stop(&mut self)
        ensures
            final(self).should_stop == true,
            final(self).arpeggio == old(self).arpeggio,
            final(self).last_note == old(self).last_note,
            final(self).wait_ticks == old(self).wait_ticks,
            final(self).sounded == old(self).sounded,
            final(self).ticks == old(self).ticks,
            old(self).wf() ==> final(self).wf(),
            final(self).sounding() == old(self).sounding(),
    {
        self.should_stop = true;
    }

    /// Stop at once: the final note-off goes out within this call, so
    /// nothing is sounding afterwards.
    pub fn force_stop(&mut self, out: &mut MidiOutput)
        requires
            old(self).wf(),
        ensures
            final(self).wf(),
            final(out)@ == old(out)@.push(old(self).last_off_msg()),
            final(self).sounding() == Multiset::<(u8, u8)>::empty(),
            midi::live_after(
                old(self).sounding(),
                final(out)@.subrange(old(out)@.len() as int, final(out)@.len() as int),
            ) == Multiset::<(u8, u8)>::empty(),
    {
        self.stop();
        self.wait_ticks = 0;
        let live = self.play_tick(out);
        proof {
            assert(!live);
        }
    }
}

/// What an off (and optionally an on) does to the sounding notes when the
/// off's key is the only note possibly sounding.
proof fn lemma_live_off_on(ms: Multiset<(u8, u8)>, off: MidiMessage, on: Option<MidiMessage>)
    requires
        midi::is_note_off(off),
        ms == Multiset::<(u8, u8)>::empty() || ms == Multiset::<(u8, u8)>::empty().insert(
            midi::note_key(off),
        ),
    ensures
        ({
            let emitted = match on {
                Some(m) => seq![off, m],
                None => seq![off],
            };
            midi::live_after(ms, emitted) == (match on {
                Some(m) => if midi::is_note_on(m) {
                    Multiset::<(u8, u8)>::empty().insert(midi::note_key(m))
                } else {
                    Multiset::<(u8, u8)>::empty()
                },
                None => Multiset::<(u8, u8)>::empty(),
            })
        }),
{
    midi::lemma_live_singleton(ms, off);
    let after_off = midi::live_apply(ms, off);
    assert(after_off =~= Multiset::<(u8, u8)>::empty());
    match on {
        Some(m) => {
            assert(seq![off, m] =~= seq![off] + seq![m]);
            midi::lemma_live_concat(ms, seq![off], seq![m]);
            midi::lemma_live_singleton(after_off, m);
            if midi::is_note_on(m) {
                assert(midi::live_apply(after_off, m) =~= Multiset::<(u8, u8)>::empty().insert(
                    midi::note_key(m),
                ));
            } else {
                assert(midi::live_apply(after_off, m) =~= Multiset::<(u8, u8)>::empty());
            }
        },
        None => {},
    }
}

} // verus!
