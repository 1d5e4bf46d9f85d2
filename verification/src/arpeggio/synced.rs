//! Clock-synchronised arpeggios and the tick-driven player.
//!
//! A synced arpeggio is a cyclic step sequence with one uniform tick count
//! per step; its player is fed exactly one [`Player::play_tick`] call per
//! MIDI timing-clock tick.

use vstd::prelude::*;
use vstd::multiset::Multiset;
use crate::midi::{self, MidiMessage, MidiOutput};
use crate::arpeggio::{NoteDetails, Step, max_pitch, step_off_msgs, step_on_msgs, step_keys,
    transpose_step};
use crate::presets::Preset;

verus! {

/// A cyclic sequence of steps played at a uniform number of clock ticks
/// per step.
#[derive(Debug)]
pub struct Arpeggio {
    pub steps: Vec<Step>,
    pub ticks_per_step: usize,
    pub finish_steps: bool,
}

/// The highest pitch of the earliest step that has one.
pub open spec fn first_note_of(ss: Seq<Seq<NoteDetails>>) -> Option<u8>
    decreases ss.len(),
{
    if ss.len() == 0 {
        None
    } else {
        match max_pitch(ss.first()) {
            Some(m) => Some(m),
            None => first_note_of(ss.drop_first()),
        }
    }
}

/// The first note of step sequences of well-formed notes is a MIDI pitch.
pub proof fn lemma_first_note_wf(ss: Seq<Seq<NoteDetails>>)
    requires
        forall|i: int| 0 <= i < ss.len() ==> crate::arpeggio::notes_wf(#[trigger] ss[i]),
    ensures
        match first_note_of(ss) {
            Some(m) => m <= 127,
            None => true,
        },
    decreases ss.len(),
{
    if ss.len() > 0 {
        assert(ss.first() == ss[0]);
        crate::arpeggio::lemma_max_pitch_wf(ss.first());
        assert(forall|i: int|
            0 <= i < ss.len() - 1 ==> #[trigger] ss.drop_first()[i] == ss[i + 1]);
        lemma_first_note_wf(ss.drop_first());
    }
}

/// The tick count per step that spreads `len` steps over `total_beats`
/// beats, saturating at one tick per step.
pub open spec fn spec_ticks_per_step(len: nat, total_beats: nat) -> nat {
    let total_ticks = total_beats * (midi::TICKS_PER_BEAT as nat);
    if len >= total_ticks {
        1
    } else {
        total_ticks / len
    }
}

impl Arpeggio {
    pub open spec fn wf(self) -> bool {
        &&& self.steps@.len() >= 1
        &&& self.ticks_per_step >= 1
        &&& self.steps@.len() * self.ticks_per_step <= usize::MAX
    }

    /// The step sequences, as mathematical values.
    pub open spec fn steps_view(self) -> Seq<Seq<NoteDetails>> {
        Seq::new(self.steps@.len(), |i: int| self.steps@[i]@)
    }

    /// The length of one full cycle, in ticks.
    pub open spec fn cycle_ticks(self) -> int {
        self.steps@.len() * self.ticks_per_step
    }

    /// The pitch a transposed copy of this arpeggio is reckoned from.
    pub fn first_note(&self) -> (r: u8)
        requires
            first_note_of(self.steps_view()) is Some,
        ensures
            Some(r) == first_note_of(self.steps_view()),
    {
        let n: usize = self.steps.len();
        let mut i: usize = 0;
        proof {
            assert(self.steps_view().skip(0) =~= self.steps_view());
        }
        while i < n
            invariant
                i <= n,
                n == self.steps@.len(),
                first_note_of(self.steps_view()) == first_note_of(self.steps_view().skip(i as int)),
            decreases n - i,
        {
            proof {
                assert(self.steps_view().skip(i as int).first() == self.steps@[i as int]@);
            }
            if let Some(note) = self.steps[i].highest_note() {
                return note;
            }
            proof {
                assert(self.steps_view().skip(i as int).drop_first() =~= self.steps_view().skip(
                    i + 1,
                ));
            }
            i = i + 1;
        }
        proof {
            assert(self.steps_view().skip(n as int).len() == 0);
            assert(false);
        }
        0
    }

    /// Spread the steps over a whole number of beats; with more steps than
    /// ticks the rate saturates at one tick per step.
    pub fn from(steps: Vec<Step>, total_beats: usize, finish_steps: bool) -> (r: Arpeggio)
        requires
            steps@.len() >= 1,
            total_beats * midi::TICKS_PER_BEAT <= usize::MAX,
        ensures
            r.steps == steps,
            r.finish_steps == finish_steps,
            r.ticks_per_step == spec_ticks_per_step(steps@.len(), total_beats as nat),
            r.wf(),
    {
        let total_ticks: usize = total_beats * midi::TICKS_PER_BEAT;
        let ticks_per_step: usize = if steps.len() >= total_ticks {
            1
        } else {
            total_ticks / steps.len()
        };
        proof {
            if steps@.len() < total_ticks {
                assert(steps@.len() * (total_ticks as int / steps@.len() as int) <= total_ticks
                    && total_ticks as int / steps@.len() as int >= 1) by (nonlinear_arith)
                    requires
                        1 <= steps@.len() <= total_ticks,
                ;
            } else {
                assert(steps@.len() * 1 == steps@.len());
            }
        }
        Arpeggio { steps, ticks_per_step, finish_steps }
    }

    /// An arpeggio of a preset's step pitches, one note per step, at the
    /// preset's tick rate.
    pub fn from_preset(preset: &Preset, c: u8, v: u8, finish_steps: bool) -> (r: Arpeggio)
        requires
            preset.wf(),
            1 <= c <= 16,
            v <= 127,
        ensures
            r.wf(),
            r.ticks_per_step == preset.ticks_per_step,
            r.finish_steps == finish_steps,
            r.steps_view().len() == preset.steps@.len(),
            forall|i: int|
                0 <= i < preset.steps@.len() ==> #[trigger] r.steps_view()[i] == seq![
                    NoteDetails { c, n: preset.steps@[i], v },
                ],
    {
        let mut steps: Vec<Step> = Vec::new();
        let n: usize = preset.steps.len();
        let mut i: usize = 0;
        while i < n
            invariant
                i <= n,
                n == preset.steps@.len(),
                steps@.len() == i,
                forall|j: int|
                    0 <= j < i ==> #[trigger] steps@[j]@ == seq![
                        NoteDetails { c, n: preset.steps@[j], v },
                    ],
            decreases n - i,
        {
            steps.push(Step::note(NoteDetails { c, n: preset.steps[i], v }));
            i = i + 1;
        }
        let r = Arpeggio { steps, ticks_per_step: preset.ticks_per_step, finish_steps };
        proof {
            assert(forall|i: int|
                0 <= i < n ==> #[trigger] r.steps_view()[i] == r.steps@[i]@);
        }
        r
    }

    /// The same arpeggio shifted from pitch `from` to pitch `to`; notes
    /// leaving the MIDI range are dropped.
    pub fn transpose(&self, from: u8, to: u8) -> (r: Arpeggio)
        requires
            self.wf(),
            from <= 127,
            to <= 127,
        ensures
            r.wf(),
            r.ticks_per_step == self.ticks_per_step,
            r.finish_steps == self.finish_steps,
            r.steps_view().len() == self.steps_view().len(),
            forall|i: int|
                0 <= i < self.steps_view().len() ==> #[trigger] r.steps_view()[i] == transpose_step(
                    self.steps_view()[i],
                    to - from,
                ),
    {
        let half_steps: i8 = (to as i16 - from as i16) as i8;
        let mut steps: Vec<Step> = Vec::new();
        let n: usize = self.steps.len();
        let mut i: usize = 0;
        while i < n
            invariant
                i <= n,
                n == self.steps@.len(),
                steps@.len() == i,
                half_steps as int == to - from,
                forall|j: int|
                    0 <= j < i ==> #[trigger] steps@[j]@ == transpose_step(
                        self.steps@[j]@,
                        to - from,
                    ),
            decreases n - i,
        {
            steps.push(self.steps[i].transpose(half_steps));
            i = i + 1;
        }
        proof {
            assert(n * self.ticks_per_step <= usize::MAX);
        }
        let r = Arpeggio { steps, ticks_per_step: self.ticks_per_step, finish_steps: self.finish_steps };
        r
    }
}

/// What the player last switched on: nothing yet, a step of the current
/// arpeggio by index, or a step kept by value across an arpeggio swap.
pub enum LastStep {
    Vacant,
    Held(Step),
    AtIndex(usize),
}

/// A live tick-driven instance of a synced arpeggio.
pub struct Player {
    pub arpeggio: Arpeggio,
    pub step: usize,
    pub last_step: LastStep,
    pub wait_ticks: usize,
    pub should_stop: bool,
    pub doubling: Vec<i8>,
    pub ticks: Ghost<nat>,
}

impl Player {
    pub open spec fn wf(self) -> bool {
        &&& self.arpeggio.wf()
        &&& self.step < self.arpeggio.steps@.len()
        &&& self.wait_ticks < self.arpeggio.ticks_per_step
        &&& match self.last_step {
            LastStep::AtIndex(i) => i < self.arpeggio.steps@.len(),
            _ => true,
        }
    }

    /// The (channel, pitch) pairs this player currently has sounding.
    pub open spec fn sounding(self) -> Multiset<(u8, u8)> {
        match self.last_step {
            LastStep::Vacant => Multiset::empty(),
            LastStep::Held(s) => step_keys(s@, self.doubling@),
            LastStep::AtIndex(i) => step_keys(self.arpeggio.steps@[i as int]@, self.doubling@),
        }
    }

    /// The note-offs that switch off what the player last switched on.
    pub open spec fn last_off_msgs(self) -> Seq<MidiMessage> {
        match self.last_step {
            LastStep::Vacant => Seq::empty(),
            LastStep::Held(s) => step_off_msgs(s@, self.doubling@),
            LastStep::AtIndex(i) => step_off_msgs(self.arpeggio.steps@[i as int]@, self.doubling@),
        }
    }

    /// Ticks elapsed since the start of the current cycle, counted so that
    /// the value is in 1..=cycle_ticks once the player has started waiting.
    pub open spec fn ticks_into_cycle(self) -> int {
        (if self.step == 0 {
            self.arpeggio.steps@.len() as int
        } else {
            self.step as int
        }) * self.arpeggio.ticks_per_step - self.wait_ticks
    }

    /// Whether one tick leaves the player live, as a value.
    pub open spec fn spec_tick_live(self) -> bool {
        if self.should_stop && !self.arpeggio.finish_steps {
            false
        } else if self.wait_ticks == 0 && self.should_stop && self.step == 0 {
            false
        } else {
            true
        }
    }

    /// What one tick emits, as a value.
    pub open spec fn spec_tick_msgs(self) -> Seq<MidiMessage> {
        if self.should_stop && !self.arpeggio.finish_steps {
            self.last_off_msgs()
        } else if self.wait_ticks == 0 && self.should_stop && self.step == 0 {
            self.last_off_msgs()
        } else if self.wait_ticks == 0 {
            self.last_off_msgs() + step_on_msgs(
                self.arpeggio.steps@[self.step as int]@,
                self.doubling@,
            )
        } else {
            Seq::empty()
        }
    }

    /// The player one tick later, as a value.
    pub open spec fn spec_tick_state(self) -> Player {
        if self.should_stop && !self.arpeggio.finish_steps {
            Player {
                arpeggio: self.arpeggio,
                step: self.step,
                last_step: LastStep::Vacant,
                wait_ticks: self.wait_ticks,
                should_stop: self.should_stop,
                doubling: self.doubling,
                ticks: Ghost(self.ticks@ + 1),
            }
        } else if self.wait_ticks == 0 && self.should_stop && self.step == 0 {
            Player {
                arpeggio: self.arpeggio,
                step: self.step,
                last_step: LastStep::Vacant,
                wait_ticks: self.wait_ticks,
                should_stop: self.should_stop,
                doubling: self.doubling,
                ticks: Ghost(self.ticks@ + 1),
            }
        } else if self.wait_ticks == 0 {
            Player {
                arpeggio: self.arpeggio,
                step: if self.step + 1 == self.arpeggio.steps@.len() {
                    0usize
                } else {
                    (self.step + 1) as usize
                },
                last_step: LastStep::AtIndex(self.step),
                wait_ticks: (self.arpeggio.ticks_per_step - 1) as usize,
                should_stop: self.should_stop,
                doubling: self.doubling,
                ticks: Ghost(self.ticks@ + 1),
            }
        } else {
            Player {
                arpeggio: self.arpeggio,
                step: self.step,
                last_step: self.last_step,
                wait_ticks: (self.wait_ticks - 1) as usize,
                should_stop: self.should_stop,
                doubling: self.doubling,
                ticks: Ghost(self.ticks@ + 1),
            }
        }
    }

    pub fn init(arpeggio: Arpeggio, doubling: &Option<Vec<i8>>) -> (r: Player)
        requires
            arpeggio.wf(),
        ensures
            r.arpeggio == arpeggio,
            r.step == 0,
            r.wait_ticks == 0,
            r.should_stop == false,
            r.last_step is Vacant,
            r.doubling@ == (match *doubling {
                Some(d) => d@,
                None => Seq::<i8>::empty(),
            }),
            r.ticks@ == 0,
            r.wf(),
            r.sounding() == Multiset::<(u8, u8)>::empty(),
    {
        let dbl: Vec<i8> = match doubling {
            Some(d) => midi::duplicate_offsets(d),
            None => Vec::new(),
        };
        Player {
            arpeggio,
            step: 0,
            wait_ticks: 0,
            should_stop: false,
            last_step: LastStep::Vacant,
            doubling: dbl,
            ticks: Ghost(0),
        }
    }

    /// Switch off whatever was last switched on.
    fn last_step_off(&self, out: &mut MidiOutput)
        requires
            self.wf(),
        ensures
            final(out)@ == old(out)@ + self.last_off_msgs(),
    {
        match &self.last_step {
            LastStep::AtIndex(index) => self.arpeggio.steps[*index].send_off(&self.doubling, out),
            LastStep::Held(step) => step.send_off(&self.doubling, out),
            LastStep::Vacant => {
                proof {
                    assert(out@ =~= out@ + Seq::<MidiMessage>::empty());
                }
            },
        }
    }

    /// Advance the player by one MIDI clock tick.
    ///
    /// Emits the note-offs of the previous step and, when the wait counter
    /// has run out, the note-ons of the current step; returns whether the
    /// player is still live.  A `false` return leaves nothing sounding.
    pub fn play_tick(&mut self, out: &mut MidiOutput) -> (r: bool)
        requires
            old(self).wf(),
        ensures
            final(self).wf(),
            r == old(self).spec_tick_live(),
            *final(self) == old(self).spec_tick_state(),
            final(out)@ == old(out)@ + old(self).spec_tick_msgs(),
            r ==> final(self).ticks_into_cycle() == (old(self).ticks_into_cycle()
                % old(self).arpeggio.cycle_ticks()) + 1,
            final(self).arpeggio == old(self).arpeggio,
            final(self).doubling == old(self).doubling,
            final(self).should_stop == old(self).should_stop,
            final(self).ticks@ == old(self).ticks@ + 1,
            ({
                let p = *old(self);
                let dbl = p.doubling@;
                if p.should_stop && !p.arpeggio.finish_steps {
                    &&& r == false
                    &&& final(out)@ == old(out)@ + p.last_off_msgs()
                    &&& final(self).last_step is Vacant
                    &&& final(self).step == p.step
                    &&& final(self).wait_ticks == p.wait_ticks
                } else if p.wait_ticks == 0 && p.should_stop && p.step == 0 {
                    &&& r == false
                    &&& final(out)@ == old(out)@ + p.last_off_msgs()
                    &&& final(self).last_step is Vacant
                    &&& final(self).step == p.step
                    &&& final(self).wait_ticks == p.wait_ticks
                } else if p.wait_ticks == 0 {
                    &&& r == true
                    &&& final(out)@ == old(out)@ + p.last_off_msgs() + step_on_msgs(
                        p.arpeggio.steps@[p.step as int]@,
                        dbl,
                    )
                    &&& final(self).last_step == LastStep::AtIndex(p.step)
                    &&& final(self).step == (if p.step + 1 == p.arpeggio.steps@.len() {
                        0int
                    } else {
                        p.step + 1
                    })
                    &&& final(self).wait_ticks == p.arpeggio.ticks_per_step - 1
                } else {
                    &&& r == true
                    &&& final(out)@ == old(out)@
                    &&& final(self).last_step == p.last_step
                    &&& final(self).step == p.step
                    &&& final(self).wait_ticks == p.wait_ticks - 1
                }
            }),
            midi::live_after(
                old(self).sounding(),
                final(out)@.subrange(old(out)@.len() as int, final(out)@.len() as int),
            ) == final(self).sounding(),
            midi::offs_covered(
                old(self).sounding(),
                final(out)@.subrange(old(out)@.len() as int, final(out)@.len() as int),
            ),
            !r ==> final(self).sounding() == Multiset::<(u8, u8)>::empty(),
    {
        proof {
            self.ticks@ = self.ticks@ + 1;
        }
        let ghost p = *self;
        let ghost start = out@;
        if self.should_stop && !self.arpeggio.finish_steps {
            self.last_step_off(out);
            self.last_step = LastStep::Vacant;
            proof {
                lemma_off_own_sounding(p);
                assert(out@.subrange(start.len() as int, out@.len() as int) =~= p.last_off_msgs());
                assert(*self == old(self).spec_tick_state());
                assert(out@ =~= start + old(self).spec_tick_msgs());
            }
            return false;
        }
        if self.wait_ticks == 0 {
            self.last_step_off(out);
            self.last_step = LastStep::Vacant;
            proof {
                lemma_off_own_sounding(p);
            }
            if self.should_stop && self.step == 0 {
                proof {
                    assert(out@.subrange(start.len() as int, out@.len() as int)
                        =~= p.last_off_msgs());
                    assert(*self == old(self).spec_tick_state());
                    assert(out@ =~= start + old(self).spec_tick_msgs());
                }
                return false;
            }
            self.arpeggio.steps[self.step].send_on(&self.doubling, out);
            self.last_step = LastStep::AtIndex(self.step);
            if self.step == self.arpeggio.steps.len() - 1 {
                self.step = 0;
            } else {
                self.step = self.step + 1;
            }
            self.wait_ticks = self.arpeggio.ticks_per_step;
            self.wait_ticks = self.wait_ticks - 1;
            proof {
                let emitted = out@.subrange(start.len() as int, out@.len() as int);
                let cur = p.arpeggio.steps@[p.step as int]@;
                assert(emitted =~= p.last_off_msgs() + step_on_msgs(cur, p.doubling@));
                midi::lemma_live_concat(
                    p.sounding(),
                    p.last_off_msgs(),
                    step_on_msgs(cur, p.doubling@),
                );
                crate::arpeggio::lemma_step_on_live(
                    Multiset::<(u8, u8)>::empty(),
                    cur,
                    p.doubling@,
                );
                assert(Multiset::<(u8, u8)>::empty().add(step_keys(cur, p.doubling@)) =~= step_keys(
                    cur,
                    p.doubling@,
                ));
                assert(p.arpeggio.steps@.len() <= usize::MAX) by (nonlinear_arith)
                    requires
                        p.arpeggio.steps@.len() * p.arpeggio.ticks_per_step <= usize::MAX,
                        p.arpeggio.ticks_per_step >= 1,
                ;
                assert(*self == old(self).spec_tick_state());
                lemma_tick_phase(p);
                assert(out@ =~= start + old(self).spec_tick_msgs());
            }
            return true;
        }
        self.wait_ticks = self.wait_ticks - 1;
        proof {
            assert(out@.subrange(start.len() as int, out@.len() as int) =~= Seq::<
                MidiMessage,
            >::empty());
            assert(*self == old(self).spec_tick_state());
            lemma_tick_phase(p);
            assert(out@ =~= start + old(self).spec_tick_msgs());
        }
        true
    }

    /// Install a replacement arpeggio while preserving phase: the ticks
    /// already elapsed in the current cycle carry over, so the next step-on
    /// fires at the tick it would have fired at under the old wait counter.
    /// The last sounded step is detached by value so its note-offs stay
    /// correct after the swap.
    pub fn change_arpeggio(&mut self, arpeggio: Arpeggio)
        requires
            old(self).wf(),
            arpeggio.wf(),
        ensures
            final(self).wf(),
            final(self).arpeggio == arpeggio,
            final(self).should_stop == old(self).should_stop,
            final(self).doubling == old(self).doubling,
            final(self).ticks == old(self).ticks,
            final(self).sounding() == old(self).sounding(),
            ({
                let tm1 = old(self).ticks_into_cycle() - 1;
                &&& final(self).step == ((tm1 / (arpeggio.ticks_per_step as int)) + 1) % (
                arpeggio.steps@.len() as int)
                &&& final(self).wait_ticks == arpeggio.ticks_per_step - ((tm1 % (
                arpeggio.ticks_per_step as int)) + 1)
            }),
            final(self).ticks_into_cycle() == (old(self).ticks_into_cycle() - 1)
                % arpeggio.cycle_ticks() + 1,
    {
        proof {
            lemma_ticks_into_cycle_bounds(*self);
        }
        let idx_opt: Option<usize> = match &self.last_step {
            LastStep::AtIndex(i) => Some(*i),
            _ => None,
        };
        if let Some(index) = idx_opt {
            self.last_step = LastStep::Held(self.arpeggio.steps[index].duplicate());
        }
        let steps_since_start: usize = if self.step == 0 {
            self.arpeggio.steps.len()
        } else {
            self.step
        };
        proof {
            assert(steps_since_start * self.arpeggio.ticks_per_step <= self.arpeggio.steps@.len()
                * self.arpeggio.ticks_per_step) by (nonlinear_arith)
                requires
                    steps_since_start <= self.arpeggio.steps@.len(),
                    self.arpeggio.ticks_per_step >= 0,
            ;
        }
        let ticks_since_start: usize = steps_since_start * self.arpeggio.ticks_per_step
            - self.wait_ticks;
        let ticks_m1: usize = if ticks_since_start == 0 {
            0
        } else {
            ticks_since_start - 1
        };
        let ghost old_t = old(self).ticks_into_cycle();
        proof {
            assert(ticks_m1 == old_t - 1);
        }
        self.arpeggio = arpeggio;
        self.step = (ticks_m1 / self.arpeggio.ticks_per_step + 1) % self.arpeggio.steps.len();
        self.wait_ticks = self.arpeggio.ticks_per_step - (ticks_m1 % self.arpeggio.ticks_per_step
            + 1);
        proof {
            lemma_phase_math(
                ticks_m1 as int,
                arpeggio.ticks_per_step as int,
                arpeggio.steps@.len() as int,
            );
        }
    }

    /// The player with a stop request raised, as a value.
    pub open spec fn spec_stopped(self) -> Player {
        Player {
            arpeggio: self.arpeggio,
            step: self.step,
            last_step: self.last_step,
            wait_ticks: self.wait_ticks,
            should_stop: true,
            doubling: self.doubling,
            ticks: self.ticks,
        }
    }

    /// Request a graceful stop: the player winds down at its next check
    /// point (or at the cycle end when it is finishing its pattern).
    pub fn stop(&mut self)
        ensures
            *final(self) == old(self).spec_stopped(),
            final(self).should_stop == true,
            final(self).arpeggio == old(self).arpeggio,
            final(self).step == old(self).step,
            final(self).last_step == old(self).last_step,
            final(self).wait_ticks == old(self).wait_ticks,
            final(self).doubling == old(self).doubling,
            final(self).ticks == old(self).ticks,
            old(self).wf() ==> final(self).wf(),
            final(self).sounding() == old(self).sounding(),
    {
        self.should_stop = true;
    }

    /// Stop at once: zero the position so the very next tick emits the
    /// final note-offs.  Unlike a bare stop request this cannot leave the
    /// player live, so nothing is sounding afterwards.
    pub fn force_stop(&mut self, out: &mut MidiOutput)
        requires
            old(self).wf(),
        ensures
            final(self).wf(),
            final(out)@ == old(out)@ + old(self).last_off_msgs(),
            final(self).sounding() == Multiset::<(u8, u8)>::empty(),
            midi::live_after(
                old(self).sounding(),
                final(out)@.subrange(old(out)@.len() as int, final(out)@.len() as int),
            ) == final(self).sounding(),
            midi::offs_covered(
                old(self).sounding(),
                final(out)@.subrange(old(out)@.len() as int, final(out)@.len() as int),
            ),
    {
        self.step = 0;
        self.wait_ticks = 0;
        self.should_stop = true;
        let live = self.play_tick(out);
        proof {
            assert(!live);
        }
    }
}

/// A surviving tick advances the tick-within-cycle position by exactly
/// one, wrapping at the cycle end.
pub proof fn lemma_tick_phase(p: Player)
    requires
        p.wf(),
        p.spec_tick_live(),
    ensures
        p.spec_tick_state().ticks_into_cycle() == (p.ticks_into_cycle() % p.arpeggio.cycle_ticks())
            + 1,
    decreases 0int,
{
    let len = p.arpeggio.steps@.len() as int;
    let tps = p.arpeggio.ticks_per_step as int;
    let c = len * tps;
    let ssn = if p.step == 0 {
        len
    } else {
        p.step as int
    };
    let t = ssn * tps - p.wait_ticks;
    assert(len <= usize::MAX) by (nonlinear_arith)
        requires
            len * tps <= usize::MAX,
            tps >= 1,
            len >= 0,
    ;
    lemma_ticks_into_cycle_bounds(p);
    if p.wait_ticks > 0 {
        assert(t < ssn * tps);
        assert(ssn * tps <= c) by (nonlinear_arith)
            requires
                1 <= ssn <= len,
                tps >= 1,
                c == len * tps,
        ;
        assert(t % c == t) by {
            vstd::arithmetic::div_mod::lemma_small_mod(t as nat, c as nat);
        }
    } else {
        assert(t == ssn * tps);
        if p.step == 0 {
            assert(t == c);
            assert(c % c == 0) by {
                vstd::arithmetic::div_mod::lemma_mod_self_0(c);
            }
            let q = p.spec_tick_state();
            if len == 1 {
                assert(q.step == 0);
                assert(q.ticks_into_cycle() == len * tps - (tps - 1));
                assert(len * tps - (tps - 1) == 1) by (nonlinear_arith)
                    requires
                        len == 1,
                ;
            } else {
                assert(q.step == 1);
                assert(q.ticks_into_cycle() == 1 * tps - (tps - 1));
            }
        } else {
            assert(ssn * tps <= (len - 1) * tps) by (nonlinear_arith)
                requires
                    1 <= ssn <= len - 1,
                    tps >= 1,
            ;
            assert((len - 1) * tps < c) by (nonlinear_arith)
                requires
                    tps >= 1,
                    c == len * tps,
            ;
            assert(t % c == t) by {
                vstd::arithmetic::div_mod::lemma_small_mod(t as nat, c as nat);
            }
            let q = p.spec_tick_state();
            if p.step + 1 == len {
                assert(q.step == 0);
                assert(q.ticks_into_cycle() == len * tps - (tps - 1));
                assert(len * tps - (tps - 1) == (len - 1) * tps + 1) by (nonlinear_arith);
                assert(ssn * tps == (len - 1) * tps) by (nonlinear_arith)
                    requires
                        ssn == len - 1,
                ;
            } else {
                assert(q.step == p.step + 1);
                assert(q.ticks_into_cycle() == (ssn + 1) * tps - (tps - 1));
                assert((ssn + 1) * tps - (tps - 1) == ssn * tps + 1) by (nonlinear_arith);
            }
        }
    }
}

/// A well-formed player is between 1 and a full cycle of ticks into its
/// cycle.
proof fn lemma_ticks_into_cycle_bounds(p: Player)
    requires
        p.wf(),
    ensures
        1 <= p.ticks_into_cycle() <= p.arpeggio.cycle_ticks(),
{
    let ssn = if p.step == 0 {
        p.arpeggio.steps@.len() as int
    } else {
        p.step as int
    };
    assert(1 * p.arpeggio.ticks_per_step <= ssn * p.arpeggio.ticks_per_step <= p.arpeggio.steps@.len()
        * p.arpeggio.ticks_per_step) by (nonlinear_arith)
        requires
            1 <= ssn <= p.arpeggio.steps@.len(),
            p.arpeggio.ticks_per_step >= 1,
    ;
}

/// The position the phase computation lands on corresponds to the same
/// elapsed tick count, reduced modulo the new cycle length.
proof fn lemma_phase_math(tm1: int, tps2: int, len2: int)
    requires
        tm1 >= 0,
        tps2 >= 1,
        len2 >= 1,
    ensures
        ({
            let q = tm1 / tps2;
            let r = tm1 % tps2;
            let s0 = (q + 1) % len2;
            let ssn = if s0 == 0 {
                len2
            } else {
                s0
            };
            ssn * tps2 - (tps2 - r - 1) == tm1 % (len2 * tps2) + 1
        }),
{
    let q = tm1 / tps2;
    let r = tm1 % tps2;
    let c = len2 * tps2;
    vstd::arithmetic::div_mod::lemma_fundamental_div_mod(tm1, tps2);
    let k = (q + 1) / len2;
    let s0 = (q + 1) % len2;
    vstd::arithmetic::div_mod::lemma_fundamental_div_mod(q + 1, len2);
    assert(c >= tps2) by (nonlinear_arith)
        requires
            len2 >= 1,
            tps2 >= 1,
            c == len2 * tps2,
    ;
    assert(q >= 0 && 0 <= r < tps2 && 0 <= s0 < len2);
    if s0 == 0 {
        assert(k >= 1) by (nonlinear_arith)
            requires
                q >= 0,
                len2 >= 1,
                q + 1 == len2 * k,
        ;
        let m = c - tps2 + r;
        assert(tm1 == (k - 1) * c + m) by (nonlinear_arith)
            requires
                tm1 == tps2 * q + r,
                q + 1 == len2 * k,
                c == len2 * tps2,
                m == c - tps2 + r,
        ;
        assert(0 <= m < c);
        vstd::arithmetic::div_mod::lemma_fundamental_div_mod_converse(tm1, c, k - 1, m);
        assert(len2 * tps2 - (tps2 - r - 1) == m + 1);
    } else {
        let m = (s0 - 1) * tps2 + r;
        assert(tm1 == k * c + m) by (nonlinear_arith)
            requires
                tm1 == tps2 * q + r,
                q + 1 == len2 * k + s0,
                c == len2 * tps2,
                m == (s0 - 1) * tps2 + r,
        ;
        assert(m >= 0) by (nonlinear_arith)
            requires
                s0 >= 1,
                tps2 >= 1,
                r >= 0,
                m == (s0 - 1) * tps2 + r,
        ;
        assert(m < c) by (nonlinear_arith)
            requires
                s0 <= len2 - 1,
                0 <= r < tps2,
                tps2 >= 1,
                c == len2 * tps2,
                m == (s0 - 1) * tps2 + r,
        ;
        vstd::arithmetic::div_mod::lemma_fundamental_div_mod_converse(tm1, c, k, m);
        assert(s0 * tps2 - (tps2 - r - 1) == m + 1) by (nonlinear_arith)
            requires
                m == (s0 - 1) * tps2 + r,
        ;
    }
}

/// Phase preservation within the beat: when the new cycle spans a whole
/// number of beats, the tick offset within the beat is unchanged by the
/// swap.  `t` and `t2` are the ticks into the cycle before and after, and
/// `c` is the new cycle length in ticks.
pub proof fn lemma_phase_preserved_within_beat(t: int, t2: int, c: int)
    requires
        t >= 1,
        c >= 1,
        c % (midi::TICKS_PER_BEAT as int) == 0,
        t2 == (t - 1) % c + 1,
    ensures
        (t2 - 1) % (midi::TICKS_PER_BEAT as int) == (t - 1) % (midi::TICKS_PER_BEAT as int),
{
    let b = midi::TICKS_PER_BEAT as int;
    let d = (t - 1) / c;
    vstd::arithmetic::div_mod::lemma_fundamental_div_mod(t - 1, c);
    vstd::arithmetic::div_mod::lemma_fundamental_div_mod(c, b);
    let e = c / b;
    assert(t - 1 == b * (e * d) + (t2 - 1)) by (nonlinear_arith)
        requires
            t - 1 == c * d + (t2 - 1),
            c == b * e,
    ;
    vstd::arithmetic::div_mod::lemma_mod_multiples_vanish(e * d, t2 - 1, b);
}

/// A player's note-offs for its own last step exactly silence what it has
/// sounding.
proof fn lemma_off_own_sounding(p: Player)
    requires
        p.wf(),
    ensures
        midi::live_after(p.sounding(), p.last_off_msgs()) == Multiset::<(u8, u8)>::empty(),
        midi::offs_covered(p.sounding(), p.last_off_msgs()),
{
    match p.last_step {
        LastStep::Vacant => {},
        LastStep::Held(s) => {
            crate::arpeggio::lemma_step_off_live(p.sounding(), s@, p.doubling@);
            assert(p.sounding().sub(step_keys(s@, p.doubling@)) =~= Multiset::<(u8, u8)>::empty());
        },
        LastStep::AtIndex(i) => {
            let s = p.arpeggio.steps@[i as int]@;
            crate::arpeggio::lemma_step_off_live(p.sounding(), s, p.doubling@);
            assert(p.sounding().sub(step_keys(s, p.doubling@)) =~= Multiset::<(u8, u8)>::empty());
        },
    }
}

} // verus!
