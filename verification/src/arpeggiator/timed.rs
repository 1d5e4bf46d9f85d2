//! The wall-clock modes: a motif looped at the tempo the player implied
//! (repeat recorder), and the pedal recorder's timed variant.  Their
//! players run on worker threads owned by the embedding application, so
//! these modes issue [`PlayerCommand`]s instead of ticking players.

use vstd::prelude::*;
use vstd::multiset::Multiset;
use crate::midi::{self, MidiMessage, MidiOutput, MidiReceiver, CC_DAMPER_PEDAL};
use crate::arpeggio::NoteDetails;
use crate::arpeggio::timed::{Arpeggio, Player, PlayerCommand, PlayerCommands};
use crate::arpeggiator::synced::{held_without, spec_doubling, thru_sounding, RECORD_CAP, HELD_CAP};
use crate::settings::Settings;
use crate::status::StatusSignal;

verus! {

pub open spec fn times_sorted(s: Seq<(u64, NoteDetails)>) -> bool {
    forall|i: int| 0 <= i < s.len() - 1 ==> (#[trigger] s[i]).0 <= s[i + 1].0
}

pub open spec fn entries_wf(s: Seq<(u64, NoteDetails)>) -> bool {
    forall|i: int| 0 <= i < s.len() ==> (#[trigger] s[i]).1.wf()
}

/// Insert a timestamped note into a time-sorted list, keeping it sorted;
/// an entry with an equal time goes after the existing ones.
fn insert_by_time(v: &mut Vec<(u64, NoteDetails)>, entry: (u64, NoteDetails))
    requires
        times_sorted(old(v)@),
    ensures
        final(v)@.len() == old(v)@.len() + 1,
        times_sorted(final(v)@),
        exists|k: int|
            0 <= k <= old(v)@.len() && final(v)@ == #[trigger] old(v)@.take(k) + seq![entry] + old(
                v,
            )@.skip(k),
{
    let total: usize = v.len();
    let mut taken: Vec<(u64, NoteDetails)> = Vec::new();
    let mut i: usize = 0;
    while i < total && v[i].0 <= entry.0
        invariant
            i <= total,
            total == v@.len(),
            v@ == old(v)@,
            taken@ == old(v)@.take(i as int),
            forall|a: int| 0 <= a < i ==> (#[trigger] old(v)@[a]).0 <= entry.0,
        decreases total - i,
    {
        taken.push(v[i]);
        proof {
            assert(taken@ =~= old(v)@.take(i + 1));
        }
        i = i + 1;
    }
    let ghost split = i as int;
    let ghost next_above = (i == total || old(v)@[split].0 > entry.0);
    taken.push(entry);
    proof {
        assert(taken@ =~= old(v)@.take(split) + seq![entry] + old(v)@.subrange(split, split));
    }
    let mut j: usize = i;
    while j < total
        invariant
            0 <= split <= j <= total,
            total == v@.len(),
            v@ == old(v)@,
            taken@ == old(v)@.take(split) + seq![entry] + old(v)@.subrange(split, j as int),
        decreases total - j,
    {
        taken.push(v[j]);
        proof {
            assert(taken@ =~= old(v)@.take(split) + seq![entry] + old(v)@.subrange(
                split,
                j + 1,
            ));
        }
        j = j + 1;
    }
    proof {
        assert(old(v)@.subrange(split, total as int) =~= old(v)@.skip(split));
        assert(taken@ == old(v)@.take(split) + seq![entry] + old(v)@.skip(split));
        assert(times_sorted(taken@)) by {
            assert forall|a: int|
                0 <= a < taken@.len() - 1 implies (#[trigger] taken@[a]).0 <= taken@[a + 1].0 by {
                if a < split - 1 {
                    assert(taken@[a] == old(v)@[a]);
                    assert(taken@[a + 1] == old(v)@[a + 1]);
                    assert(old(v)@[a].0 <= old(v)@[a + 1].0);
                } else if a == split - 1 {
                    assert(taken@[a] == old(v)@[a]);
                    assert(taken@[a + 1] == entry);
                    assert(old(v)@[a].0 <= entry.0);
                } else if a == split {
                    assert(taken@[a] == entry);
                    assert(taken@[a + 1] == old(v)@[a]);
                    assert(next_above);
                    assert(entry.0 <= old(v)@[a].0);
                } else {
                    assert(taken@[a] == old(v)@[a - 1]);
                    assert(taken@[a + 1] == old(v)@[a]);
                    assert(old(v)@[a - 1].0 <= old(v)@[a].0);
                }
            }
        }
    }
    *v = taken;
}

/// The repeat recorder: play a motif, then re-press its last released
/// note; the still-held notes and that note become a timed loop spanning
/// the gap between the release and the re-press.
pub struct RepeatRecorder {
    held_notes: Vec<(u8, (u64, NoteDetails))>,
    last_note_off: Option<(u64, NoteDetails)>,
    arpeggios: Vec<u8>,
}

/// Everything one message does to the repeat recorder: the relation
/// between its pre- and post-states, over its held, last-released and
/// key views, and the worker commands the message issues.
pub open spec fn repeat_recorder_step(
    pre: RepeatRecorder,
    post: RepeatRecorder,
    received: MidiMessage,
    settings: Settings,
    now: u64,
    cmds0: Seq<PlayerCommand>,
    cmds1: Seq<PlayerCommand>,
) -> bool {
    &&& (cmds0.is_prefix_of(cmds1))
    &&& (received matches MidiMessage::Reset ==> cmds1 == cmds0.push(
                PlayerCommand::StopAllAndJoin,
            ) && post.count_arpeggios_spec() == 0)
    &&& (received matches MidiMessage::NoteOn { channel, note, velocity } ==> ({
                let held0 = pre.held_view();
                let match_last = match pre.last_off_view() {
                    Some((_, d)) => d.n == note,
                    None => false,
                };
                &&& !match_last ==> cmds1 == cmds0 && post.keys_view() == pre.keys_view() && post.last_off_view() == pre.last_off_view()
                    && post.held_view() == (if held_without(held0, note).len()
                    < HELD_CAP {
                    held_without(held0, note).push(
                        (
                            note,
                            (
                                now,
                                crate::arpeggio::spec_note(
                                    channel,
                                    note,
                                    velocity,
                                    settings.fixed_velocity,
                                ),
                            ),
                        ),
                    )
                } else {
                    held_without(held0, note)
                })
                &&& match_last ==> ({
                    let t0 = pre.last_off_view()->Some_0.0;
                    let d0 = pre.last_off_view()->Some_0.1;
                    let vals = Seq::new(held0.len(), |i: int| held0[i].1);
                    &&& post.held_view().len() == 0
                    &&& post.last_off_view() is None
                    &&& post.keys_view() == (if pre.keys_view().contains(note) {
                        pre.keys_view()
                    } else {
                        pre.keys_view().push(note)
                    })
                    &&& cmds1.len() == cmds0.len() + 1
                    &&& (cmds1.last() matches PlayerCommand::Start { key, player } && key
                        == note && player.index == 0 && player.sounding_step is None
                        && player.doubling@ == spec_doubling(settings)
                        && player.arpeggio.finish_steps == settings.finish_pattern && (exists|
                        k: int,
                    |
                        #![trigger vals.take(k)]
                        0 <= k <= vals.len() && ({
                            let woven = vals.take(k) + seq![(t0, d0)] + vals.skip(k);
                            &&& player.arpeggio.steps@.len() == woven.len()
                            &&& player.arpeggio.period == now - woven[0].0
                            &&& player.arpeggio.steps@[0].0 == now - woven[woven.len() - 1].0
                            &&& (forall|i: int|
                                0 <= i < woven.len() ==> (#[trigger] player.arpeggio.steps@[i]).1@
                                    == seq![woven[i].1])
                            &&& (forall|i: int|
                                1 <= i < woven.len() ==> (#[trigger] player.arpeggio.steps@[i]).0
                                    == woven[i].0 - woven[i - 1].0)
                        })))
                })
            }))
    &&& (received matches MidiMessage::NoteOff { note, .. } ==> ({
                let was = pre.keys_view().contains(note);
                &&& was ==> cmds1 == cmds0.push(PlayerCommand::Stop { key: note })
                    && post.keys_view() == keys_without(pre.keys_view(), note)
                    && post.held_view() == pre.held_view()
                    && post.last_off_view() == pre.last_off_view()
                &&& !was ==> cmds1 == cmds0 && post.keys_view() == pre.keys_view() && ({
                    match crate::arpeggiator::synced::find_pitch(pre.held_view(), note) {
                        Some(k) => post.held_view() == pre.held_view().remove(k)
                            && post.last_off_view() == Some(pre.held_view()[k].1),
                        None => post.held_view() == pre.held_view()
                            && post.last_off_view() is None,
                    }
                })
            }))
}

impl RepeatRecorder {
    pub closed spec fn inv(&self) -> bool {
        &&& forall|a: int, b: int|
            0 <= a < b < self.arpeggios@.len() ==> self.arpeggios@[a] != self.arpeggios@[b]
        &&& self.held_notes@.len() <= HELD_CAP
        &&& forall|i: int|
            0 <= i < self.held_notes@.len() ==> (#[trigger] self.held_notes@[i]).1.1.wf()
        &&& forall|i: int|
            0 <= i < self.held_notes@.len() - 1 ==> (#[trigger] self.held_notes@[i]).1.0
                <= self.held_notes@[i + 1].1.0
        &&& match self.last_note_off {
            Some((_, d)) => d.wf(),
            None => true,
        }
    }

    /// All remembered timestamps are in the past of `now`.
    pub closed spec fn time_wf(&self, now: u64) -> bool {
        &&& forall|i: int|
            0 <= i < self.held_notes@.len() ==> (#[trigger] self.held_notes@[i]).1.0 <= now
        &&& match self.last_note_off {
            Some((t, _)) => t <= now,
            None => true,
        }
    }

    pub closed spec fn count_arpeggios_spec(&self) -> int {
        self.arpeggios@.len() as int
    }

    /// The held-note map: pitch, press time and note, in press order.
    pub closed spec fn held_view(&self) -> Seq<(u8, (u64, NoteDetails))> {
        self.held_notes@
    }

    /// The last released note, with its original press time.
    pub closed spec fn last_off_view(&self) -> Option<(u64, NoteDetails)> {
        self.last_note_off
    }

    /// The pitches whose workers are running.
    pub closed spec fn keys_view(&self) -> Seq<u8> {
        self.arpeggios@
    }

    pub fn new() -> (r: RepeatRecorder)
        ensures
            r.inv(),
            forall|t: u64| r.time_wf(t),
            r.count_arpeggios_spec() == 0,
    {
        RepeatRecorder { held_notes: Vec::new(), last_note_off: None, arpeggios: Vec::new() }
    }

    /// Feed one message to the mode.  A re-press of the last released
    /// pitch starts a worker; a release of a looping pitch stops its
    /// worker; a reset stops and joins them all.
    #[verifier::rlimit(100)]
    pub fn process<SS: StatusSignal>(
        &mut self,
        received: MidiMessage,
        settings: &Settings,
        now: u64,
        cmds: &mut PlayerCommands,
        status: &mut SS,
    )
        requires
            old(self).inv(),
            old(self).time_wf(now),
            received.wf(),
            settings.wf(),
            <SS as MidiReceiver>::inv(old(status)),
        ensures
            final(self).inv(),

            final(self).time_wf(now),

            <SS as MidiReceiver>::inv(final(status)),
            repeat_recorder_step(*old(self), *final(self), received, *settings, now, old(cmds)@, final(cmds)@),
            ({
                let pulses: nat = (match received {
                    MidiMessage::NoteOn { note, .. } => (match old(self).last_off_view() {
                        Some((_, d)) => if d.n == note {
                            1nat
                        } else {
                            0nat
                        },
                        None => 0nat,
                    }),
                    _ => 0nat,
                });
                final(status).beat_resets() == old(status).beat_resets() + pulses
            }),

    {
        match received {
            MidiMessage::NoteOn { channel, note, velocity } => {
                let matches_last: bool = match &self.last_note_off {
                    Some((_, first)) => first.n == note,
                    None => false,
                };
                if matches_last {
                    let (first_t, first) = match &self.last_note_off {
                        Some(pair) => (pair.0, pair.1),
                        None => (0, NoteDetails { c: 1, n: 0, v: 0 }),
                    };
                    let finish: u64 = now;
                    // collect the still-held notes, in press order, and
                    // weave the re-pressed note's original press in
                    let mut notes: Vec<(u64, NoteDetails)> = Vec::new();
                    let total: usize = self.held_notes.len();
                    let mut i: usize = 0;
                    while i < total
                        invariant
                            i <= total,
                            total == self.held_notes@.len(),
                            self == old(self),
                            old(self).inv(),
                            old(self).time_wf(now),
                            notes@.len() == i,
                            times_sorted(notes@),
                            entries_wf(notes@),
                            forall|k: int|
                                0 <= k < i ==> (#[trigger] notes@[k]) == self.held_notes@[k].1,
                        decreases total - i,
                    {
                        notes.push(self.held_notes[i].1);
                        proof {
                            assert(times_sorted(notes@)) by {
                                assert forall|a: int|
                                    0 <= a < notes@.len() - 1 implies (#[trigger] notes@[a]).0
                                    <= notes@[a + 1].0 by {
                                    assert(notes@[a] == self.held_notes@[a].1);
                                    assert(notes@[a + 1] == self.held_notes@[a + 1].1);
                                }
                            }
                        }
                        i = i + 1;
                    }
                    let ghost pre_notes = notes@;
                    insert_by_time(&mut notes, (first_t, first));
                    proof {
                        let entry = ((first_t, first));
                        let k = choose|k: int|
                            0 <= k <= pre_notes.len() && notes@ == #[trigger] pre_notes.take(k)
                                + seq![entry] + pre_notes.skip(k);
                        assert forall|a: int|
                            0 <= a < notes@.len() implies (#[trigger] notes@[a]).0 <= now by {
                            if a < k {
                                assert(notes@[a] == pre_notes[a]);
                                assert(pre_notes[a] == old(self).held_notes@[a].1);
                            } else if a == k {
                                assert(notes@[a] == entry);
                            } else {
                                assert(notes@[a] == pre_notes[a - 1]);
                                assert(pre_notes[a - 1] == old(self).held_notes@[a - 1].1);
                            }
                        }
                        lemma_times_le(notes@, 0, notes@.len() - 1);
                    }
                    let arp = Arpeggio::from(notes, finish, settings.finish_pattern);
                    let player = Player::start(arp, &settings.double_notes);
                    let ghost the_player = player;
                    cmds.issue(PlayerCommand::Start { key: note, player });
                    if !crate::presets::contains_pitch(&self.arpeggios, note) {
                        self.arpeggios.push(note);
                    }
                    status.reset_beat();
                    self.held_notes = Vec::new();
                    self.last_note_off = None;
                    proof {
                        assert(self.time_wf(now));
                        let held0 = old(self).held_view();
                        let vals = Seq::new(held0.len(), |i: int| held0[i].1);
                        assert(pre_notes =~= vals);
                        let k = choose|k: int|
                            0 <= k <= pre_notes.len() && notes@ == #[trigger] pre_notes.take(k)
                                + seq![(first_t, first)] + pre_notes.skip(k);
                        assert(vals.take(k) =~= pre_notes.take(k));
                        assert(vals.skip(k) =~= pre_notes.skip(k));
                        let woven = vals.take(k) + seq![(first_t, first)] + vals.skip(k);
                        assert(notes@ == woven);
                        assert(the_player.arpeggio.steps@.len() == woven.len());
                        assert(the_player.arpeggio.period == now - woven[0].0);
                        assert(the_player.arpeggio.steps@[0].0 == now - woven[woven.len() - 1].0);
                        assert forall|i: int|
                            0 <= i < woven.len() implies (
                        #[trigger] the_player.arpeggio.steps@[i]).1@ == seq![woven[i].1] by {
                            assert(the_player.arpeggio.steps@[i].1@ == seq![notes@[i].1]);
                        }
                        assert forall|i: int|
                            1 <= i < woven.len() implies (
                        #[trigger] the_player.arpeggio.steps@[i]).0 == woven[i].0 - woven[i
                            - 1].0 by {
                            assert(the_player.arpeggio.steps@[i].0 == notes@[i].0 - notes@[i
                                - 1].0);
                        }
                        assert(cmds@.last() == (PlayerCommand::Start {
                            key: note,
                            player: the_player,
                        }));
                        assert(self.keys_view() == (if old(self).keys_view().contains(note) {
                            old(self).keys_view()
                        } else {
                            old(self).keys_view().push(note)
                        }));
                        assert(self.held_view().len() == 0);
                        assert(self.last_off_view() is None);
                    }
                } else {
                    self.hold_note(channel, note, velocity, settings, now);
                    proof {
                        assert(self.time_wf(now));
                    }
                }
            },
            MidiMessage::NoteOff { note, .. } => {
                let was_playing = remove_key(&mut self.arpeggios, note);
                if was_playing {
                    cmds.issue(PlayerCommand::Stop { key: note });
                    proof {
                        assert(self.time_wf(now));
                    }
                } else {
                    let ghost s1 = *self;
                    proof {
                        assert(s1.time_wf(now));
                    }
                    let held = self.take_held(note);
                    match held {
                        Some(entry) => {
                            self.last_note_off = Some(entry);
                            proof {
                                assert(entry.0 <= now);
                                assert(self.time_wf(now));
                            }
                        },
                        None => {
                            self.last_note_off = None;
                            proof {
                                assert(self.time_wf(now));
                            }
                        },
                    }
                }
            },
            MidiMessage::Reset => {
                self.held_notes = Vec::new();
                self.last_note_off = None;
                self.arpeggios = Vec::new();
                cmds.issue(PlayerCommand::StopAllAndJoin);
            },
            _ => {},
        }
    }

    /// Record a press, replacing any previous entry for the pitch; the
    /// list stays ordered by press time because `now` is latest.
    fn hold_note(&mut self, channel: u8, note: u8, velocity: u8, settings: &Settings, now: u64)
        requires
            old(self).inv(),
            old(self).time_wf(now),
            1 <= channel <= 16,
            note <= 127,
            velocity <= 127,
        ensures
            final(self).inv(),
            final(self).time_wf(now),
            final(self).count_arpeggios_spec() == old(self).count_arpeggios_spec(),
            final(self).arpeggios@ == old(self).arpeggios@,
            final(self).last_note_off == old(self).last_note_off,
            final(self).held_notes@ == (if held_without(old(self).held_notes@, note).len()
                < HELD_CAP {
                held_without(old(self).held_notes@, note).push(
                    (
                        note,
                        (
                            now,
                            crate::arpeggio::spec_note(
                                channel,
                                note,
                                velocity,
                                settings.fixed_velocity,
                            ),
                        ),
                    ),
                )
            } else {
                held_without(old(self).held_notes@, note)
            }),
    {
        let details = NoteDetails::new(channel, note, velocity, settings.fixed_velocity);
        let mut kept: Vec<(u8, (u64, NoteDetails))> = Vec::new();
        let total: usize = self.held_notes.len();
        let mut i: usize = 0;
        while i < total
            invariant
                i <= total,
                total == self.held_notes@.len(),
                self == old(self),
                old(self).inv(),
                old(self).time_wf(now),
                details == crate::arpeggio::spec_note(
                    channel,
                    note,
                    velocity,
                    settings.fixed_velocity,
                ),
                kept@.len() <= i,
                kept@ == held_without(self.held_notes@.take(i as int), note),
                forall|a: int|
                    0 <= a < kept@.len() ==> exists|b: int|
                        0 <= b < i && #[trigger] kept@[a] == self.held_notes@[b],
                forall|a: int|
                    0 <= a < kept@.len() - 1 ==> (#[trigger] kept@[a]).1.0 <= kept@[a + 1].1.0,
            decreases total - i,
        {
            let entry = self.held_notes[i];
            proof {
                assert(self.held_notes@.take(i + 1).drop_last() =~= self.held_notes@.take(
                    i as int,
                ));
                assert(self.held_notes@.take(i + 1).last() == entry);
            }
            if entry.0 != note {
                let ghost kept0 = kept@;
                kept.push(entry);
                proof {
                    assert(kept@ =~= held_without(self.held_notes@.take(i + 1), note));
                    assert forall|a: int|
                        0 <= a < kept@.len() - 1 implies (#[trigger] kept@[a]).1.0 <= kept@[a
                        + 1].1.0 by {
                        if a < kept0.len() - 1 {
                        } else {
                            let b = choose|b: int|
                                0 <= b < i && #[trigger] kept0[a] == self.held_notes@[b];
                            lemma_held_times_le(self.held_notes@, b, i as int);
                        }
                    }
                }
            } else {
                proof {
                    assert(kept@ =~= held_without(self.held_notes@.take(i + 1), note));
                }
            }
            i = i + 1;
        }
        proof {
            assert(self.held_notes@.take(total as int) =~= self.held_notes@);
        }
        if kept.len() < HELD_CAP {
            let ghost kept0 = kept@;
            kept.push((note, (now, details)));
            proof {
                assert forall|a: int|
                    0 <= a < kept@.len() - 1 implies (#[trigger] kept@[a]).1.0 <= kept@[a
                    + 1].1.0 by {
                    if a == kept0.len() - 1 {
                        let b = choose|b: int|
                            0 <= b < total && #[trigger] kept0[a] == self.held_notes@[b];
                        assert(self.held_notes@[b].1.0 <= now);
                    }
                }
            }
        }
        self.held_notes = kept;
    }

    /// Remove and return the held entry of a pitch, if any.
    fn take_held(&mut self, note: u8) -> (r: Option<(u64, NoteDetails)>)
        requires
            old(self).inv(),
        ensures
            final(self).inv(),
            final(self).arpeggios@ == old(self).arpeggios@,
            final(self).count_arpeggios_spec() == old(self).count_arpeggios_spec(),
            forall|t: u64| old(self).time_wf(t) ==> final(self).time_wf(t),
            match r {
                Some((_, d)) => d.wf(),
                None => true,
            },
            ({
                match (r, old(self).last_note_off) {
                    (Some((t, _)), _) => forall|b: u64| old(self).time_wf(b) ==> t <= b,
                    _ => true,
                }
            }),
            ({
                match crate::arpeggiator::synced::find_pitch(old(self).held_notes@, note) {
                    Some(k) => r == Some(old(self).held_notes@[k].1) && final(self).held_notes@
                        == old(self).held_notes@.remove(k),
                    None => r is None && final(self).held_notes@ == old(self).held_notes@,
                }
            }),
    {
        let total: usize = self.held_notes.len();
        let mut i: usize = 0;
        while i < total
            invariant
                i <= total,
                total == self.held_notes@.len(),
                self == old(self),
                old(self).inv(),
                forall|j: int| 0 <= j < i ==> (#[trigger] self.held_notes@[j]).0 != note,
            decreases total - i,
        {
            if self.held_notes[i].0 == note {
                proof {
                    crate::arpeggiator::synced::lemma_find_pitch_at(
                        self.held_notes@,
                        note,
                        i as int,
                    );
                }
                let entry = self.held_notes.remove(i);
                proof {
                    let h0 = old(self).held_notes@;
                    let ii = i as int;
                    assert forall|a: int|
                        0 <= a < self.held_notes@.len() - 1 implies (
                    #[trigger] self.held_notes@[a]).1.0 <= self.held_notes@[a + 1].1.0 by {
                        if a + 1 < ii {
                            assert(self.held_notes@[a] == h0[a]);
                            assert(self.held_notes@[a + 1] == h0[a + 1]);
                            lemma_held_times_le(h0, a, a + 1);
                        } else if a < ii {
                            assert(self.held_notes@[a] == h0[a]);
                            assert(self.held_notes@[a + 1] == h0[a + 2]);
                            lemma_held_times_le(h0, a, a + 2);
                        } else {
                            assert(self.held_notes@[a] == h0[a + 1]);
                            assert(self.held_notes@[a + 1] == h0[a + 2]);
                            lemma_held_times_le(h0, a + 1, a + 2);
                        }
                    }
                    assert forall|a: int|
                        0 <= a < self.held_notes@.len() implies (
                    #[trigger] self.held_notes@[a]).1.1.wf() by {
                        if a < ii {
                            assert(self.held_notes@[a] == h0[a]);
                        } else {
                            assert(self.held_notes@[a] == h0[a + 1]);
                        }
                    }
                    assert(entry == h0[ii]);
                }
                return Some(entry.1);
            }
            i = i + 1;
        }
        proof {
            crate::arpeggiator::synced::lemma_find_pitch_none(self.held_notes@, note);
        }
        None
    }

    pub fn count_arpeggios(&self) -> (r: usize)
        ensures
            r == self.count_arpeggios_spec(),
    {
        self.arpeggios.len()
    }

    /// Ask every worker to stop and wait for them.
    pub fn stop_arpeggios(&mut self, cmds: &mut PlayerCommands)
        requires
            old(self).inv(),
        ensures
            final(self).inv(),
            final(self).count_arpeggios_spec() == 0,
            final(cmds)@ == old(cmds)@.push(PlayerCommand::StopAllAndJoin),
            forall|t: u64| old(self).time_wf(t) ==> final(self).time_wf(t),
    {
        self.arpeggios = Vec::new();
        cmds.issue(PlayerCommand::StopAllAndJoin);
    }
}

/// In a time-sorted keyed list, earlier entries carry earlier times.
proof fn lemma_held_times_le(s: Seq<(u8, (u64, NoteDetails))>, a: int, b: int)
    requires
        forall|i: int| 0 <= i < s.len() - 1 ==> (#[trigger] s[i]).1.0 <= s[i + 1].1.0,
        0 <= a <= b < s.len(),
    ensures
        s[a].1.0 <= s[b].1.0,
    decreases b - a,
{
    if a < b {
        lemma_held_times_le(s, a, b - 1);
        assert(s[b - 1].1.0 <= s[b].1.0);
    }
}

/// In a time-sorted flat list, earlier entries carry earlier times.
proof fn lemma_times_le(s: Seq<(u64, NoteDetails)>, a: int, b: int)
    requires
        times_sorted(s),
        0 <= a <= b < s.len(),
    ensures
        s[a].0 <= s[b].0,
    decreases b - a,
{
    if a < b {
        lemma_times_le(s, a, b - 1);
        assert(s[b - 1].0 <= s[b].0);
    }
}

/// The timed pedal recorder: hold the pedal, play a phrase, release; the
/// phrase loops with its recorded press-to-press timing, and fresh
/// presses transpose new copies onto their pitch.  The loops run on
/// worker threads, so the mode issues commands; only the pedal-down echo
/// sounds from here.
pub struct PedalRecorder {
    notes: Vec<(u64, NoteDetails)>,
    thru_notes: Vec<NoteDetails>,
    pedal: bool,
    arpeggios: Vec<u8>,
    recorded: Option<Arpeggio>,
}

/// Everything one message does to the timed pedal recorder: the
/// relation between its pre- and post-states, the output it appends
/// and the worker commands it issues.
pub open spec fn timed_pedal_step(
    pre: PedalRecorder,
    post: PedalRecorder,
    received: MidiMessage,
    settings: Settings,
    now: u64,
    out0: Seq<MidiMessage>,
    out1: Seq<MidiMessage>,
    cmds0: Seq<PlayerCommand>,
    cmds1: Seq<PlayerCommand>,
) -> bool {
    &&& (cmds0.is_prefix_of(cmds1))
    &&& (({
                let emitted = out1.subrange(
                    out0.len() as int,
                    out1.len() as int,
                );
                &&& out1 == out0 + emitted
                &&& midi::live_after(pre.sounding(), emitted) == post.sounding()
            }))
    &&& (received matches MidiMessage::NoteOff { note, .. } ==> ({
                let keys0 = pre.keys_view();
                let keys1 = post.keys_view();
                let cmds1 = cmds1;
                &&& post.pedal_view() == pre.pedal_view()
                &&& post.recorded_view() == pre.recorded_view()
                &&& (if pre.pedal_view() {
                    cmds1 == cmds0 && keys1 == keys0
                } else {
                    let was = keys0.contains(note);
                    (was ==> cmds1 == cmds0.push(PlayerCommand::Stop { key: note }) && keys1
                        == keys_without(keys0, note)) && (!was ==> cmds1 == cmds0 && keys1
                        == keys0)
                })
            }))
    &&& (received matches MidiMessage::NoteOn { channel, note, velocity } ==> ({
                let keys0 = pre.keys_view();
                let keys1 = post.keys_view();
                let rec0 = pre.recorded_view();
                &&& post.pedal_view() == pre.pedal_view()
                &&& post.recorded_view() == pre.recorded_view()
                &&& if pre.pedal_view() || keys0.contains(note) || rec0 is None {
                    cmds1 == cmds0 && keys1 == keys0
                } else {
                    let a = rec0->Some_0;
                    let orig = crate::arpeggio::synced::first_note_of(a.steps_view())->Some_0;
                    &&& keys1 == keys0.push(note)
                    &&& cmds1.len() == cmds0.len() + 1
                    &&& (cmds1.last() matches PlayerCommand::Start { key, player } && key
                        == note && player.index == 0 && player.sounding_step is None
                        && player.doubling@ == spec_doubling(settings) && player.arpeggio.period
                        == a.period && player.arpeggio.finish_steps == a.finish_steps
                        && player.arpeggio.steps@.len() == a.steps@.len() && (forall|i: int|
                        #![trigger player.arpeggio.steps@[i]]
                        0 <= i < a.steps@.len() ==> player.arpeggio.steps@[i].0 == a.steps@[i].0
                            && player.arpeggio.steps@[i].1@ == crate::arpeggio::transpose_step(
                            a.steps@[i].1@,
                            note - orig,
                        )))
                }
            }))
    &&& (({
                match received {
                    MidiMessage::ControlChange { control, value, .. } => (control
                        == CC_DAMPER_PEDAL && value < 64 && pre.notes_view().len() > 0)
                        ==> ({
                        let notes0 = pre.notes_view();
                        &&& post.notes_view().len() == 0
                        &&& (post.recorded_view() matches Some(a) && a.finish_steps
                            == settings.finish_pattern && a.period == now - notes0[0].0
                            && a.steps@.len() == notes0.len() && (forall|i: int|
                            #![trigger a.steps@[i]]
                            0 <= i < notes0.len() ==> a.steps@[i].1@ == seq![notes0[i].1])
                            && a.steps@[0].0 == now - notes0[notes0.len() - 1].0 && (forall|i: int|
                            #![trigger a.steps@[i]]
                            1 <= i < notes0.len() ==> a.steps@[i].0 == notes0[i].0 - notes0[i
                                - 1].0))
                        &&& cmds1.len() == cmds0.len() + 1
                        &&& (cmds1.last() matches PlayerCommand::Start { key, player }
                            && key == crate::arpeggio::synced::first_note_of(
                            post.recorded_view()->Some_0.steps_view(),
                        )->Some_0 && player.index == 0 && player.sounding_step is None)
                    }),
                    _ => true,
                }
            }))
}

impl PedalRecorder {
    pub closed spec fn inv(&self) -> bool {
        &&& forall|a: int, b: int|
            0 <= a < b < self.arpeggios@.len() ==> self.arpeggios@[a] != self.arpeggios@[b]
        &&& self.notes@.len() <= RECORD_CAP
        &&& entries_wf(self.notes@)
        &&& times_sorted(self.notes@)
        &&& match self.recorded {
            Some(a) => a.wf() && a.steps_view()[0].len() >= 1 && (forall|i: int|
                0 <= i < a.steps_view().len() ==> crate::arpeggio::notes_wf(
                    #[trigger] a.steps_view()[i],
                )),
            None => true,
        }
    }

    /// All recorded timestamps are in the past of `now`.
    pub closed spec fn time_wf(&self, now: u64) -> bool {
        forall|i: int| 0 <= i < self.notes@.len() ==> (#[trigger] self.notes@[i]).0 <= now
    }

    /// The notes this mode is echoing while the pedal is down.
    pub closed spec fn sounding(&self) -> Multiset<(u8, u8)> {
        thru_sounding(self.thru_notes@)
    }

    pub closed spec fn count_arpeggios_spec(&self) -> int {
        self.arpeggios@.len() as int
    }

    /// The recorded phrase, as timestamped notes in playing order.
    pub closed spec fn notes_view(&self) -> Seq<(u64, NoteDetails)> {
        self.notes@
    }

    /// The captured loop, once the pedal has come up over a recording.
    pub closed spec fn recorded_view(&self) -> Option<Arpeggio> {
        self.recorded
    }

    /// The pitches whose workers are running.
    pub closed spec fn keys_view(&self) -> Seq<u8> {
        self.arpeggios@
    }

    pub closed spec fn pedal_view(&self) -> bool {
        self.pedal
    }

    pub fn new() -> (r: PedalRecorder)
        ensures
            r.inv(),
            forall|t: u64| r.time_wf(t),
            r.sounding() == Multiset::<(u8, u8)>::empty(),
            r.count_arpeggios_spec() == 0,
    {
        PedalRecorder {
            notes: Vec::new(),
            thru_notes: Vec::new(),
            pedal: false,
            arpeggios: Vec::new(),
            recorded: None,
        }
    }

    /// Feed one message to the mode.  The emitted output (the pedal-down
    /// echo and the pedal-up release of echoed notes) switches the echoed
    /// notes from the old state to the new.
    #[verifier::rlimit(80)]
    pub fn process<SS: StatusSignal>(
        &mut self,
        received: MidiMessage,
        settings: &Settings,
        now: u64,
        out: &mut MidiOutput,
        cmds: &mut PlayerCommands,
        status: &mut SS,
    )
        requires
            old(self).inv(),
            old(self).time_wf(now),
            received.wf(),
            settings.wf(),
            <SS as MidiReceiver>::inv(old(status)),
        ensures
            final(self).inv(),

            final(self).time_wf(now),

            <SS as MidiReceiver>::inv(final(status)),
            timed_pedal_step(*old(self), *final(self), received, *settings, now, old(out)@, final(out)@, old(cmds)@, final(cmds)@),
            ({
                let pulses: nat = (match received {
                    MidiMessage::ControlChange { control, value, .. } => if control
                        == CC_DAMPER_PEDAL {
                        if value >= 64 {
                            1nat
                        } else if old(self).notes_view().len() > 0 {
                            1nat
                        } else {
                            0nat
                        }
                    } else {
                        0nat
                    },
                    MidiMessage::NoteOn { note, .. } => if !old(self).pedal_view() && !old(
                        self,
                    ).keys_view().contains(note) && old(self).recorded_view() is Some {
                        1nat
                    } else {
                        0nat
                    },
                    _ => 0nat,
                });
                final(status).beat_resets() == old(status).beat_resets() + pulses
            }),

    {
        let ghost start = out@;
        match received {
            MidiMessage::ControlChange { channel: _, control: CC_DAMPER_PEDAL, value } => {
                if value >= 64 {
                    self.pedal = true;
                    status.reset_beat();
                    self.recorded = None;
                    self.arpeggios = Vec::new();
                    cmds.issue(PlayerCommand::StopAll);
                    proof {
                        assert(out@.subrange(start.len() as int, out@.len() as int) =~= Seq::<
                            MidiMessage,
                        >::empty());
                        assert(out@ =~= start + out@.subrange(
                            start.len() as int,
                            out@.len() as int,
                        ));
                    }
                } else {
                    self.pedal = false;
                    let ghost s1 = *self;
                    self.release_thru_notes(out);
                    let ghost em_r = out@.subrange(start.len() as int, out@.len() as int);
                    proof {
                        assert(s1.sounding() == old(self).sounding());
                        assert(midi::live_after(old(self).sounding(), em_r) == self.sounding());
                    }
                    if self.notes.len() > 0 {
                        self.save_recording(settings, status, cmds, now);
                    }
                    proof {
                        let emitted = out@.subrange(start.len() as int, out@.len() as int);
                        assert(emitted =~= em_r);
                        assert(out@ =~= start + emitted);
                        assert(midi::live_after(old(self).sounding(), emitted) == self.sounding());
                    }
                }
            },
            MidiMessage::NoteOn { channel, note, velocity } => {
                if self.pedal {
                    out.send(received);
                    let d = NoteDetails::new(channel, note, velocity, settings.fixed_velocity);
                    let ghost thru0 = self.thru_notes@;
                    self.thru_notes.push(d);
                    if self.notes.len() < RECORD_CAP {
                        let last_ok: bool = if self.notes.len() == 0 {
                            true
                        } else {
                            self.notes[self.notes.len() - 1].0 <= now
                        };
                        if last_ok {
                            self.notes.push((now, d));
                        }
                    }
                    proof {
                        assert(self.thru_notes@.drop_last() =~= thru0);
                        assert(self.thru_notes@.last() == d);
                        let emitted = out@.subrange(start.len() as int, out@.len() as int);
                        assert(emitted =~= seq![received]);
                        midi::lemma_live_singleton(old(self).sounding(), received);
                        assert(thru_sounding(self.thru_notes@) =~= old(self).sounding().insert(
                            (channel, note),
                        ));
                        assert(out@ =~= start + emitted);
                    }
                } else {
                    let already: bool = crate::presets::contains_pitch(&self.arpeggios, note);
                    if already {
                        // already playing at this pitch: nothing to do
                    } else {
                        match &self.recorded {
                            Some(arp) => {
                                proof {
                                    assert(arp.steps_view().first() == arp.steps_view()[0]);
                                    crate::arpeggio::synced::lemma_first_note_wf(arp.steps_view());
                                }
                                let original = arp.first_note();
                                let new_arp = arp.transpose(original, note);
                                let player = Player::start(new_arp, &settings.double_notes);
                                cmds.issue(PlayerCommand::Start { key: note, player });
                                let ghost keys0 = self.arpeggios@;
                                self.arpeggios.push(note);
                                proof {
                                    assert forall|a: int, b: int|
                                        0 <= a < b < self.arpeggios@.len() implies self.arpeggios@[a]
                                        != self.arpeggios@[b] by {
                                        if b < keys0.len() {
                                        } else {
                                            assert(self.arpeggios@[b] == note);
                                            assert(self.arpeggios@[a] == keys0[a]);
                                            assert(!keys0.contains(note));
                                        }
                                    }
                                }
                                status.reset_beat();
                            },
                            None => {},
                        }
                    }
                    proof {
                        assert(out@.subrange(start.len() as int, out@.len() as int) =~= Seq::<
                            MidiMessage,
                        >::empty());
                        assert(out@ =~= start + out@.subrange(
                            start.len() as int,
                            out@.len() as int,
                        ));
                    }
                }
            },
            MidiMessage::NoteOff { channel, note, .. } => {
                if self.pedal {
                    out.send(received);
                    self.remove_thru_note(channel, note);
                    proof {
                        let emitted = out@.subrange(start.len() as int, out@.len() as int);
                        assert(emitted =~= seq![received]);
                        midi::lemma_live_singleton(old(self).sounding(), received);
                        assert(out@ =~= start + emitted);
                    }
                } else {
                    let was_playing = remove_key(&mut self.arpeggios, note);
                    if was_playing {
                        cmds.issue(PlayerCommand::Stop { key: note });
                    }
                    proof {
                        assert(out@.subrange(start.len() as int, out@.len() as int) =~= Seq::<
                            MidiMessage,
                        >::empty());
                        assert(out@ =~= start + out@.subrange(
                            start.len() as int,
                            out@.len() as int,
                        ));
                    }
                }
            },
            MidiMessage::Reset => {
                self.notes = Vec::new();
                self.pedal = false;
                self.arpeggios = Vec::new();
                // a reset is an explicit teardown: echoed notes get their
                // note-offs before the workers are joined
                self.release_thru_notes(out);
                cmds.issue(PlayerCommand::StopAllAndJoin);
                proof {
                    assert(out@ =~= start + out@.subrange(start.len() as int, out@.len() as int));
                }
            },
            _ => {
                proof {
                    assert(out@.subrange(start.len() as int, out@.len() as int) =~= Seq::<
                        MidiMessage,
                    >::empty());
                    assert(out@ =~= start + out@.subrange(start.len() as int, out@.len() as int));
                }
            },
        }
    }

    /// Drop one echoed note from the books, matching channel and pitch.
    fn remove_thru_note(&mut self, channel: u8, note: u8)
        requires
            old(self).inv(),
        ensures
            final(self).inv(),
            final(self).notes@ == old(self).notes@,
            final(self).recorded == old(self).recorded,
            final(self).arpeggios@ == old(self).arpeggios@,
            final(self).pedal == old(self).pedal,
            thru_sounding(final(self).thru_notes@) == thru_sounding(old(self).thru_notes@).remove(
                (channel, note),
            ),
    {
        let total: usize = self.thru_notes.len();
        let mut i: usize = 0;
        while i < total
            invariant
                i <= total,
                total == self.thru_notes@.len(),
                self == old(self),
                old(self).inv(),
                forall|j: int|
                    0 <= j < i ==> !((#[trigger] self.thru_notes@[j]).c == channel
                        && self.thru_notes@[j].n == note),
            decreases total - i,
        {
            let d = self.thru_notes[i];
            if d.c == channel && d.n == note {
                let ghost thru0 = self.thru_notes@;
                self.thru_notes.remove(i);
                proof {
                    crate::arpeggiator::synced::lemma_thru_sounding_remove(thru0, i as int);
                }
                return ;
            }
            i = i + 1;
        }
        proof {
            crate::arpeggiator::synced::lemma_thru_sounding_absent(
                self.thru_notes@,
                channel,
                note,
            );
        }
    }

    /// Send a note-off for every echoed note and forget them.
    #[verifier::rlimit(60)]
    fn release_thru_notes(&mut self, out: &mut MidiOutput)
        requires
            old(self).inv(),
        ensures
            final(self).inv(),
            final(self).thru_notes@.len() == 0,
            final(self).notes@ == old(self).notes@,
            final(self).recorded == old(self).recorded,
            final(self).arpeggios@ == old(self).arpeggios@,
            final(self).pedal == old(self).pedal,
            ({
                let emitted = final(out)@.subrange(
                    old(out)@.len() as int,
                    final(out)@.len() as int,
                );
                &&& final(out)@ == old(out)@ + emitted
                &&& midi::live_after(old(self).sounding(), emitted) == final(self).sounding()
                &&& midi::offs_covered(old(self).sounding(), emitted)
            }),
    {
        let ghost start = out@;
        let ghost thru_all = thru_sounding(self.thru_notes@);
        let mut pending: Vec<NoteDetails> = Vec::new();
        core::mem::swap(&mut self.thru_notes, &mut pending);
        proof {
            assert(out@.subrange(start.len() as int, out@.len() as int) =~= Seq::<
                MidiMessage,
            >::empty());
        }
        while pending.len() > 0
            invariant
                self.thru_notes@.len() == 0,
                self.notes@ == old(self).notes@,
                self.recorded == old(self).recorded,
                self.arpeggios@ == old(self).arpeggios@,
                self.pedal == old(self).pedal,
                old(self).inv(),
                start.len() <= out@.len(),
                out@.subrange(0, start.len() as int) == start,
                midi::live_after(thru_all, out@.subrange(start.len() as int, out@.len() as int))
                    == thru_sounding(pending@),
                midi::offs_covered(thru_all, out@.subrange(start.len() as int, out@.len() as int)),
            decreases pending@.len(),
        {
            let ghost emitted0 = out@.subrange(start.len() as int, out@.len() as int);
            let ghost pend0 = pending@;
            proof {
                crate::arpeggiator::synced::lemma_thru_sounding_first(pend0);
            }
            let d = pending.remove(0);
            proof {
                assert(pending@ =~= pend0.drop_first());
            }
            out.send(MidiMessage::NoteOff { channel: d.c, note: d.n, velocity: d.v });
            proof {
                let offm = MidiMessage::NoteOff { channel: d.c, note: d.n, velocity: d.v };
                let m = seq![offm];
                let single = Multiset::<(u8, u8)>::empty().insert((d.c, d.n));
                midi::lemma_live_singleton(single, offm);
                assert(single.count(((d.c, d.n))) == 1);
                assert(midi::live_apply(single, offm) =~= Multiset::<(u8, u8)>::empty());
                assert(midi::live_after(single, m) == Multiset::<(u8, u8)>::empty());
                assert(midi::offs_covered(single, m));
                assert(thru_sounding(pend0) =~= single.add(thru_sounding(pending@)));
                midi::lemma_step_accounting(
                    thru_all,
                    emitted0,
                    m,
                    thru_sounding(pending@),
                    single,
                    Multiset::<(u8, u8)>::empty(),
                );
                assert(Multiset::<(u8, u8)>::empty().add(thru_sounding(pending@))
                    =~= thru_sounding(pending@));
                assert(out@.subrange(start.len() as int, out@.len() as int) =~= emitted0 + m);
                assert(out@.subrange(0, start.len() as int) =~= start);
            }
        }
        proof {
            assert(thru_sounding(pending@) =~= Multiset::<(u8, u8)>::empty());
            assert(self.sounding() =~= Multiset::<(u8, u8)>::empty());
            assert(out@ =~= start + out@.subrange(start.len() as int, out@.len() as int));
        }
    }

    /// Turn the recorded phrase into a timed arpeggio, remember it, and
    /// start it looping at its original key on a fresh worker.
    fn save_recording<SS: StatusSignal>(
        &mut self,
        settings: &Settings,
        status: &mut SS,
        cmds: &mut PlayerCommands,
        now: u64,
    )
        requires
            old(self).inv(),
            old(self).time_wf(now),
            old(self).notes@.len() >= 1,
            settings.wf(),
            <SS as MidiReceiver>::inv(old(status)),
        ensures
            final(self).inv(),
            final(self).notes@.len() == 0,
            final(self).thru_notes@ == old(self).thru_notes@,
            final(self).pedal == old(self).pedal,
            <SS as MidiReceiver>::inv(final(status)),
            final(status).beat_resets() == old(status).beat_resets() + 1,
            old(cmds)@.is_prefix_of(final(cmds)@),
            forall|t: u64| final(self).time_wf(t),
            ({
                let notes0 = old(self).notes@;
                &&& (final(self).recorded matches Some(a) && a.finish_steps
                    == settings.finish_pattern && a.period == now - notes0[0].0 && a.steps@.len()
                    == notes0.len() && (forall|i: int|
                    #![trigger a.steps@[i]]
                    0 <= i < notes0.len() ==> a.steps@[i].1@ == seq![notes0[i].1]) && a.steps@[0].0
                    == now - notes0[notes0.len() - 1].0 && (forall|i: int|
                    #![trigger a.steps@[i]]
                    1 <= i < notes0.len() ==> a.steps@[i].0 == notes0[i].0 - notes0[i - 1].0))
                &&& final(cmds)@.len() == old(cmds)@.len() + 1
                &&& (final(cmds)@.last() matches PlayerCommand::Start { key, player } && key
                    == crate::arpeggio::synced::first_note_of(
                    final(self).recorded->Some_0.steps_view(),
                )->Some_0 && player.index == 0 && player.sounding_step is None)
            }),
    {
        let mut notes: Vec<(u64, NoteDetails)> = Vec::new();
        core::mem::swap(&mut self.notes, &mut notes);
        proof {
            lemma_times_le(notes@, 0, notes@.len() - 1);
        }
        let arp = Arpeggio::from(notes, now, settings.finish_pattern);
        self.recorded = Some(arp);
        match &self.recorded {
            Some(arp) => {
                proof {
                    assert(arp.steps_view()[0].len() >= 1);
                    assert(forall|i: int|
                        0 <= i < arp.steps_view().len() ==> crate::arpeggio::notes_wf(
                            #[trigger] arp.steps_view()[i],
                        ));
                    crate::arpeggio::synced::lemma_first_note_wf(arp.steps_view());
                    assert(arp.steps_view().first() == arp.steps_view()[0]);
                }
                let original = arp.first_note();
                let new_arp = arp.transpose(original, original);
                let player = Player::start(new_arp, &settings.double_notes);
                cmds.issue(PlayerCommand::Start { key: original, player });
                if !crate::presets::contains_pitch(&self.arpeggios, original) {
                    let ghost keys0 = self.arpeggios@;
                    self.arpeggios.push(original);
                    proof {
                        assert forall|a: int, b: int|
                            0 <= a < b < self.arpeggios@.len() implies self.arpeggios@[a]
                            != self.arpeggios@[b] by {
                            if b < keys0.len() {
                            } else {
                                assert(self.arpeggios@[b] == original);
                                assert(self.arpeggios@[a] == keys0[a]);
                                assert(!keys0.contains(original));
                            }
                        }
                    }
                }
                status.reset_beat();
            },
            None => {},
        }
    }

    pub fn count_arpeggios(&self) -> (r: usize)
        ensures
            r == self.count_arpeggios_spec(),
    {
        self.arpeggios.len()
    }

    /// Tear the mode down: echoed notes get their note-offs, and every
    /// worker is asked to stop and joined.
    #[verifier::rlimit(60)]
    pub fn stop_arpeggios(&mut self, out: &mut MidiOutput, cmds: &mut PlayerCommands)
        requires
            old(self).inv(),
        ensures
            final(self).inv(),
            final(self).count_arpeggios_spec() == 0,
            final(self).sounding() == Multiset::<(u8, u8)>::empty(),
            final(cmds)@ == old(cmds)@.push(PlayerCommand::StopAllAndJoin),
            forall|t: u64| old(self).time_wf(t) ==> final(self).time_wf(t),
            ({
                let emitted = final(out)@.subrange(
                    old(out)@.len() as int,
                    final(out)@.len() as int,
                );
                &&& final(out)@ == old(out)@ + emitted
                &&& midi::live_after(old(self).sounding(), emitted) == Multiset::<(u8, u8)>::empty()
                &&& midi::offs_covered(old(self).sounding(), emitted)
            }),
    {
        self.arpeggios = Vec::new();
        self.release_thru_notes(out);
        cmds.issue(PlayerCommand::StopAllAndJoin);
    }
}

/// A key list with every occurrence of one pitch dropped.
pub open spec fn keys_without(s: Seq<u8>, n: u8) -> Seq<u8>
    decreases s.len(),
{
    if s.len() == 0 {
        Seq::empty()
    } else {
        keys_without(s.drop_last(), n) + (if s.last() == n {
            Seq::<u8>::empty()
        } else {
            seq![s.last()]
        })
    }
}

/// Remove a pitch from a duplicate-free key list; reports whether it was
/// there.
fn remove_key(keys: &mut Vec<u8>, n: u8) -> (removed: bool)
    requires
        forall|a: int, b: int|
            0 <= a < b < old(keys)@.len() ==> old(keys)@[a] != old(keys)@[b],
    ensures
        final(keys)@.len() <= old(keys)@.len(),
        removed == old(keys)@.contains(n),
        final(keys)@ == keys_without(old(keys)@, n),
        !removed ==> final(keys)@ == old(keys)@,
        forall|a: int, b: int|
            0 <= a < b < final(keys)@.len() ==> final(keys)@[a] != final(keys)@[b],
{
    let total: usize = keys.len();
    let mut i: usize = 0;
    while i < total
        invariant
            i <= total,
            total == keys@.len(),
            keys@ == old(keys)@,
            forall|a: int, b: int|
                0 <= a < b < old(keys)@.len() ==> old(keys)@[a] != old(keys)@[b],
            forall|j: int| 0 <= j < i ==> old(keys)@[j] != n,
        decreases total - i,
    {
        if keys[i] == n {
            let ghost keys0 = keys@;
            let ghost idx = i as int;
            keys.remove(i);
            proof {
                assert(keys0[idx] == n);
                lemma_keys_without_unique(keys0, n, idx);
                assert(keys@ =~= keys0.remove(idx));
                assert(keys0.contains(n));
                assert forall|a: int, b: int|
                    0 <= a < b < keys@.len() implies keys@[a] != keys@[b] by {
                    if a < idx {
                        assert(keys@[a] == keys0[a]);
                    } else {
                        assert(keys@[a] == keys0[a + 1]);
                    }
                    if b < idx {
                        assert(keys@[b] == keys0[b]);
                    } else {
                        assert(keys@[b] == keys0[b + 1]);
                    }
                }
            }
            return true;
        }
        i = i + 1;
    }
    proof {
        lemma_keys_without_absent(keys@, n);
        if keys@.contains(n) {
            let j = choose|j: int| 0 <= j < keys@.len() && (#[trigger] keys@[j]) == n;
            assert(false);
        }
    }
    false
}

/// A pitch never held filters to the same map.
proof fn lemma_held_without_absent(s: Seq<(u8, (u64, NoteDetails))>, n: u8)
    requires
        forall|j: int| 0 <= j < s.len() ==> (#[trigger] s[j]).0 != n,
    ensures
        held_without(s, n) == s,
    decreases s.len(),
{
    if s.len() > 0 {
        assert(forall|j: int|
            0 <= j < s.len() - 1 ==> #[trigger] s.drop_last()[j] == s[j]);
        lemma_held_without_absent(s.drop_last(), n);
        assert(held_without(s, n) =~= s);
    }
}

/// Removing the unique occurrence of a pitch is the pitch filter.
pub(crate) proof fn lemma_keys_without_unique(s: Seq<u8>, n: u8, idx: int)
    requires
        0 <= idx < s.len(),
        s[idx] == n,
        forall|a: int, b: int| 0 <= a < b < s.len() ==> s[a] != s[b],
    ensures
        keys_without(s, n) == s.remove(idx),
    decreases s.len(),
{
    if idx == s.len() - 1 {
        assert(s.remove(idx) =~= s.drop_last());
        assert(forall|j: int| 0 <= j < s.len() - 1 ==> s[j] != n);
        assert(forall|j: int|
            0 <= j < s.len() - 1 ==> #[trigger] s.drop_last()[j] == s[j]);
        lemma_keys_without_absent(s.drop_last(), n);
        assert(keys_without(s, n) =~= s.drop_last());
    } else {
        assert(forall|j: int|
            0 <= j < s.len() - 1 ==> #[trigger] s.drop_last()[j] == s[j]);
        lemma_keys_without_unique(s.drop_last(), n, idx);
        assert(s.last() != n);
        assert(keys_without(s, n) == s.drop_last().remove(idx).push(s.last()));
        assert(s.drop_last().remove(idx).push(s.last()) =~= s.remove(idx));
    }
}

/// A pitch held nowhere filters to the same list.
pub(crate) proof fn lemma_keys_without_absent(s: Seq<u8>, n: u8)
    requires
        forall|j: int| 0 <= j < s.len() ==> s[j] != n,
    ensures
        keys_without(s, n) == s,
    decreases s.len(),
{
    if s.len() > 0 {
        assert(forall|j: int|
            0 <= j < s.len() - 1 ==> #[trigger] s.drop_last()[j] == s[j]);
        lemma_keys_without_absent(s.drop_last(), n);
        assert(keys_without(s, n) =~= s);
    }
}

} // verus!
