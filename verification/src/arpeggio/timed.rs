//! Wall-clock-timed arpeggios and the worker-driven player.
//!
//! A timed arpeggio carries a wait per step, in microseconds.  The player
//! here is the decision half of the worker: each call emits what is due
//! and says how long to sleep before the next call; the embedding
//! application owns the thread, the stop flag and the sleeping.

use vstd::prelude::*;
use vstd::multiset::Multiset;
use crate::midi::{self, MidiMessage, MidiOutput};
use crate::arpeggio::{NoteDetails, Step, step_off_msgs, step_on_msgs, step_keys, transpose_step};
use crate::arpeggio::synced::first_note_of;

verus! {

/// A cyclic step sequence where entry `i` carries the wall-clock wait,
/// in microseconds, that elapses while the step before it sounds; entry 0
/// carries the wrap-around wait after the last step.
#[derive(Debug)]
pub struct Arpeggio {
    pub steps: Vec<(u64, Step)>,
    pub period: u64,
    pub finish_steps: bool,
}

impl Arpeggio {
    pub open spec fn wf(self) -> bool {
        self.steps@.len() >= 1
    }

    /// The step note sequences, as mathematical values.
    pub open spec fn steps_view(self) -> Seq<Seq<NoteDetails>> {
        Seq::new(self.steps@.len(), |i: int| self.steps@[i].1@)
    }

    /// One step per recorded note, waits taken from press-to-press gaps,
    /// with the wrap-around wait spanning from the last press to `finish`.
    /// Timestamps must be in playing order and `finish` must not precede
    /// the last of them.
    pub fn from(notes: Vec<(u64, NoteDetails)>, finish: u64, finish_steps: bool) -> (r: Arpeggio)
        requires
            notes@.len() >= 1,
            forall|i: int| 0 <= i < notes@.len() - 1 ==> #[trigger] notes@[i].0 <= notes@[i + 1].0,
            notes@[notes@.len() - 1].0 <= finish,
            notes@[0].0 <= notes@[notes@.len() - 1].0,
        ensures
            r.wf(),
            r.finish_steps == finish_steps,
            r.period == finish - notes@[0].0,
            r.steps@.len() == notes@.len(),
            forall|i: int|
                0 <= i < notes@.len() ==> #[trigger] r.steps@[i].1@ == seq![notes@[i].1],
            r.steps@[0].0 == finish - notes@[notes@.len() - 1].0,
            forall|i: int|
                1 <= i < notes@.len() ==> #[trigger] r.steps@[i].0 == notes@[i].0 - notes@[i
                    - 1].0,
    {
        let n: usize = notes.len();
        let last_time: u64 = notes[n - 1].0;
        let period: u64 = finish - notes[0].0;
        let mut steps: Vec<(u64, Step)> = Vec::new();
        let mut i: usize = 0;
        while i < n
            invariant
                i <= n,
                n == notes@.len(),
                n >= 1,
                last_time == notes@[n - 1].0,
                finish >= last_time,
                forall|a: int| 0 <= a < n - 1 ==> #[trigger] notes@[a].0 <= notes@[a + 1].0,
                steps@.len() == i,
                i > 0 ==> steps@[0].0 == finish - last_time,
                forall|j: int|
                    1 <= j < i ==> #[trigger] steps@[j].0 == notes@[j].0 - notes@[j - 1].0,
                forall|j: int| 0 <= j < i ==> #[trigger] steps@[j].1@ == seq![notes@[j].1],
            decreases n - i,
        {
            let wait: u64 = if i == 0 {
                finish - last_time
            } else {
                notes[i].0 - notes[i - 1].0
            };
            steps.push((wait, Step::note(notes[i].1)));
            i = i + 1;
        }
        Arpeggio { steps, period, finish_steps }
    }

    /// The pitch a transposed copy of this arpeggio is reckoned from.
    pub fn first_note(&self) -> (r: u8)
        requires
            first_note_of(self.steps_view()) is Some,
        ensures
            Some(r) == first_note_of(self.steps_view()),
    {
        let n: usize = self.steps.len();
        let mut i: usize = 0;
        proof {
            assert(self.steps_view().skip(0) =~= self.steps_view());
        }
        while i < n
            invariant
                i <= n,
                n == self.steps@.len(),
                first_note_of(self.steps_view()) == first_note_of(self.steps_view().skip(i as int)),
            decreases n - i,
        {
            proof {
                assert(self.steps_view().skip(i as int).first() == self.steps@[i as int].1@);
            }
            if let Some(note) = self.steps[i].1.highest_note() {
                return note;
            }
            proof {
                assert(self.steps_view().skip(i as int).drop_first() =~= self.steps_view().skip(
                    i + 1,
                ));
            }
            i = i + 1;
        }
        proof {
            assert(self.steps_view().skip(n as int).len() == 0);
            assert(false);
        }
        0
    }

    /// The same arpeggio shifted from pitch `from` to pitch `to`; notes
    /// leaving the MIDI range are dropped.  Waits and period are kept.
    pub fn transpose(&self, from: u8, to: u8) -> (r: Arpeggio)
        requires
            self.wf(),
            from <= 127,
            to <= 127,
        ensures
            r.wf(),
            r.period == self.period,
            r.finish_steps == self.finish_steps,
            r.steps@.len() == self.steps@.len(),
            forall|i: int|
                #![trigger r.steps@[i]]
                0 <= i < self.steps@.len() ==> r.steps@[i].0 == self.steps@[i].0 && r.steps@[i].1@
                    == transpose_step(self.steps@[i].1@, to - from),
    {
        let half_steps: i8 = (to as i16 - from as i16) as i8;
        let mut steps: Vec<(u64, Step)> = Vec::new();
        let n: usize = self.steps.len();
        let mut i: usize = 0;
        while i < n
            invariant
                i <= n,
                n == self.steps@.len(),
                steps@.len() == i,
                half_steps as int == to - from,
                forall|j: int|
                    #![trigger steps@[j]]
                    0 <= j < i ==> steps@[j].0 == self.steps@[j].0 && steps@[j].1@
                        == transpose_step(self.steps@[j].1@, to - from),
            decreases n - i,
        {
            steps.push((self.steps[i].0, self.steps[i].1.transpose(half_steps)));
            i = i + 1;
        }
        Arpeggio { steps, period: self.period, finish_steps: self.finish_steps }
    }
}

/// An instruction to the worker threads driving timed players.  The
/// engine decides; the embedding application owns the threads and
/// executes: `Start` spawns a worker looping on [`Player::play_step`],
/// `Stop` raises a worker's stop flag, `StopAll` raises all flags, and
/// `StopAllAndJoin` additionally waits for the workers to wind down.
pub enum PlayerCommand {
    Start { key: u8, player: Player },
    Stop { key: u8 },
    StopAll,
    StopAllAndJoin,
}

/// The ordered instructions a mode has issued and the application has
/// not yet executed.
pub struct PlayerCommands {
    commands: Vec<PlayerCommand>,
}

impl View for PlayerCommands {
    type V = Seq<PlayerCommand>;

    closed spec fn view(&self) -> Seq<PlayerCommand> {
        self.commands@
    }
}

impl PlayerCommands {
    pub fn new() -> (r: PlayerCommands)
        ensures
            r@ == Seq::<PlayerCommand>::empty(),
    {
        PlayerCommands { commands: Vec::new() }
    }

    pub fn issue(&mut self, command: PlayerCommand)
        ensures
            final(self)@ == old(self)@.push(command),
    {
        self.commands.push(command);
    }

    /// Hand the pending instructions to the application, oldest first.
    pub fn take(&mut self) -> (r: Vec<PlayerCommand>)
        ensures
            r@ == old(self)@,
            final(self)@ == Seq::<PlayerCommand>::empty(),
    {
        let mut taken: Vec<PlayerCommand> = Vec::new();
        core::mem::swap(&mut self.commands, &mut taken);
        taken
    }
}

/// The decision half of a timed-player worker.  The embedding application
/// runs the loop: it loads the shared stop flag, calls [`Player::play_step`],
/// drains the output buffer to the device queue, and sleeps for the
/// returned wait; `None` means the worker is done and nothing is sounding.
pub struct Player {
    pub arpeggio: Arpeggio,
    pub index: usize,
    pub sounding_step: Option<usize>,
    pub doubling: Vec<i8>,
}

impl Player {
    pub open spec fn wf(self) -> bool {
        &&& self.arpeggio.wf()
        &&& self.index < self.arpeggio.steps@.len()
        &&& match self.sounding_step {
            Some(j) => j < self.arpeggio.steps@.len(),
            None => true,
        }
    }

    /// The (channel, pitch) pairs this player currently has sounding.
    pub open spec fn sounding(self) -> Multiset<(u8, u8)> {
        match self.sounding_step {
            None => Multiset::empty(),
            Some(j) => step_keys(self.arpeggio.steps@[j as int].1@, self.doubling@),
        }
    }

    /// A fresh player at the top of the cycle.
    pub fn start(arpeggio: Arpeggio, doubling: &Option<Vec<i8>>) -> (r: Player)
        requires
            arpeggio.wf(),
        ensures
            r.arpeggio == arpeggio,
            r.index == 0,
            r.sounding_step is None,
            r.doubling@ == (match *doubling {
                Some(d) => d@,
                None => Seq::<i8>::empty(),
            }),
            r.wf(),
            r.sounding() == Multiset::<(u8, u8)>::empty(),
    {
        let dbl: Vec<i8> = match doubling {
            Some(d) => midi::duplicate_offsets(d),
            None => Vec::new(),
        };
        Player { arpeggio, index: 0, sounding_step: None, doubling: dbl }
    }

    /// One wake-up of the worker: switch off the step slept through, then
    /// either stop (when the stop flag is set and the cycle need not
    /// finish, or has just wrapped) or switch on the current step, advance,
    /// and report the wait before the next wake-up.
    pub fn play_step(&mut self, stop: bool, out: &mut MidiOutput) -> (r: Option<u64>)
        requires
            old(self).wf(),
        ensures
            final(self).wf(),
            final(self).arpeggio == old(self).arpeggio,
            final(self).doubling == old(self).doubling,
            ({
                let p = *old(self);
                let off_part: Seq<MidiMessage> = match p.sounding_step {
                    Some(j) => step_off_msgs(p.arpeggio.steps@[j as int].1@, p.doubling@),
                    None => Seq::empty(),
                };
                let cont = !stop || (p.arpeggio.finish_steps && p.index != 0);
                if cont {
                    let next = if p.index + 1 == p.arpeggio.steps@.len() {
                        0int
                    } else {
                        p.index + 1
                    };
                    &&& r == Some(p.arpeggio.steps@[next].0)
                    &&& final(out)@ == old(out)@ + off_part + step_on_msgs(
                        p.arpeggio.steps@[p.index as int].1@,
                        p.doubling@,
                    )
                    &&& final(self).sounding_step == Some(p.index)
                    &&& final(self).index == next
                } else {
                    &&& r is None
                    &&& final(out)@ == old(out)@ + off_part
                    &&& final(self).sounding_step is None
                    &&& final(self).index == p.index
                }
            }),
            midi::live_after(
                old(self).sounding(),
                final(out)@.subrange(old(out)@.len() as int, final(out)@.len() as int),
            ) == final(self).sounding(),
            midi::offs_covered(
                old(self).sounding(),
                final(out)@.subrange(old(out)@.len() as int, final(out)@.len() as int),
            ),
            r is None ==> final(self).sounding() == Multiset::<(u8, u8)>::empty(),
    {
        let ghost p = *self;
        let ghost start = out@;
        if let Some(j) = self.sounding_step {
            self.arpeggio.steps[j].1.send_off(&self.doubling, out);
            self.sounding_step = None;
            proof {
                crate::arpeggio::lemma_step_off_live(
                    p.sounding(),
                    p.arpeggio.steps@[j as int].1@,
                    p.doubling@,
                );
                assert(p.sounding().sub(
                    step_keys(p.arpeggio.steps@[j as int].1@, p.doubling@),
                ) =~= Multiset::<(u8, u8)>::empty());
            }
        }
        let cont = !stop || (self.arpeggio.finish_steps && self.index != 0);
        if !cont {
            proof {
                let emitted = out@.subrange(start.len() as int, out@.len() as int);
                assert(emitted =~= out@.skip(start.len() as int));
                assert(match p.sounding_step {
                    Some(j) => emitted =~= step_off_msgs(
                        p.arpeggio.steps@[j as int].1@,
                        p.doubling@,
                    ),
                    None => emitted =~= Seq::<MidiMessage>::empty(),
                });
            }
            return None;
        }
        let ghost mid = out@;
        self.arpeggio.steps[self.index].1.send_on(&self.doubling, out);
        self.sounding_step = Some(self.index);
        if self.index == self.arpeggio.steps.len() - 1 {
            self.index = 0;
        } else {
            self.index = self.index + 1;
        }
        proof {
            let cur = p.arpeggio.steps@[p.index as int].1@;
            let off_part: Seq<MidiMessage> = match p.sounding_step {
                Some(j) => step_off_msgs(p.arpeggio.steps@[j as int].1@, p.doubling@),
                None => Seq::empty(),
            };
            let emitted = out@.subrange(start.len() as int, out@.len() as int);
            assert(emitted =~= off_part + step_on_msgs(cur, p.doubling@));
            midi::lemma_live_concat(p.sounding(), off_part, step_on_msgs(cur, p.doubling@));
            crate::arpeggio::lemma_step_on_live(Multiset::<(u8, u8)>::empty(), cur, p.doubling@);
            assert(Multiset::<(u8, u8)>::empty().add(step_keys(cur, p.doubling@)) =~= step_keys(
                cur,
                p.doubling@,
            ));
        }
        Some(self.arpeggio.steps[self.index].0)
    }
}

} // verus!
