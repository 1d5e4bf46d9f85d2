//! The full-length modes: a bitmap arpeggio mutated while it plays, and
//! preset chords struck as a whole.

use vstd::prelude::*;
use vstd::multiset::Multiset;
use crate::midi::{self, MidiMessage, MidiOutput, MidiReceiver};
use crate::arpeggio::full_length::{Arpeggio, Player};
use crate::presets::Preset;
use crate::settings::Settings;
use crate::status::StatusSignal;

verus! {

/// Ticks of pre-roll during which a freshly started bitmap accumulates
/// further note-ons before playing begins.
pub const START_THRESHOLD_TICKS: u8 = 2;

/// Where the single bitmap player stands.
pub enum State {
    Playing(Player),
    Starting(Arpeggio, u8),
    Idle,
}

/// A single bitmap arpeggio: the first note-on starts a short pre-roll,
/// later note-ons and note-offs mutate the held set in place without
/// disturbing phase.
pub struct EvenMutator {
    arpeggio: State,
}

/// Everything one message does to the even-mutator mode: the relation
/// between its pre- and post-states, over its bitmap machine, and the
/// output the message appends.
pub open spec fn even_mutator_step(
    pre: EvenMutator,
    post: EvenMutator,
    received: MidiMessage,
    settings: Settings,
    out0: Seq<MidiMessage>,
    out1: Seq<MidiMessage>,
) -> bool {
    &&& (({
                let emitted = out1.subrange(
                    out0.len() as int,
                    out1.len() as int,
                );
                &&& out1 =~= out0 + emitted
                &&& midi::live_after(pre.sounding(), emitted) =~= post.sounding()
            }))
    &&& (received matches MidiMessage::TimingClock ==> (match (
                pre.player_ticks(),
                post.player_ticks(),
            ) {
                (Some(t0), Some(t1)) => t1 == t0 + 1,
                (None, Some(t1)) => t1 == 1,
                _ => true,
            }))
    &&& (!(received matches MidiMessage::TimingClock) ==> post.player_ticks() == pre.player_ticks())
    &&& (received matches MidiMessage::NoteOn { channel: _, note, velocity } ==> ({
                let v = match settings.fixed_velocity {
                    Some(fixed) => if fixed >= 127 {
                        127u8
                    } else {
                        fixed
                    },
                    None => velocity,
                };
                match pre.state_view() {
                    State::Idle => (post.state_view() matches State::Starting(a, r) && r
                        == START_THRESHOLD_TICKS && a.pattern == settings.pattern
                        && a.ticks_per_step == midi::TICKS_PER_BEAT / (match settings.fixed_steps {
                        Some(k) => k,
                        None => 1,
                    }) && a.notes@.len() == 128 && a.notes@[note as int] == Some(v) && (forall|
                        i: int,
                    |
                        0 <= i < 128 && i != note ==> (#[trigger] a.notes@[i]) is None)),
                    State::Starting(a0, r0) => (post.state_view() matches State::Starting(
                        a1,
                        r1,
                    ) && r1 == r0 && a1.pattern == a0.pattern && a1.ticks_per_step
                        == a0.ticks_per_step && a1.notes@ == a0.notes@.update(
                        note as int,
                        Some(v),
                    )),
                    State::Playing(p) => (post.state_view() matches State::Playing(q) && q
                        == (Player {
                        arpeggio: Arpeggio {
                            notes: q.arpeggio.notes,
                            ticks_per_step: p.arpeggio.ticks_per_step,
                            pattern: p.arpeggio.pattern,
                        },
                        last_note: p.last_note,
                        wait_ticks: p.wait_ticks,
                        should_stop: p.should_stop,
                        sounded: p.sounded,
                        ticks: p.ticks,
                    }) && q.arpeggio.notes@ == p.arpeggio.notes@.update(note as int, Some(v))),
                }
            }))
    &&& (received matches MidiMessage::NoteOff { note, .. } ==> (match pre.state_view() {
                State::Idle => post.state_view() is Idle,
                State::Starting(a0, r0) => (post.state_view() matches State::Starting(
                    a1,
                    r1,
                ) && r1 == r0 && a1.pattern == a0.pattern && a1.ticks_per_step
                    == a0.ticks_per_step && a1.notes@ == a0.notes@.update(note as int, None)),
                State::Playing(p) => (post.state_view() matches State::Playing(q)
                    && q.arpeggio.notes@ == p.arpeggio.notes@.update(note as int, None)
                    && q.arpeggio.ticks_per_step == p.arpeggio.ticks_per_step && q.last_note
                    == p.last_note && q.wait_ticks == p.wait_ticks && q.ticks == p.ticks),
            }))
    &&& (received matches MidiMessage::TimingClock ==> (match pre.state_view() {
                State::Idle => post.state_view() is Idle && out1 == out0,
                State::Starting(a, r) => if r > 0 {
                    post.state_view() == State::Starting(a, (r - 1) as u8) && out1
                        == out0
                } else {
                    let fresh = Player {
                        arpeggio: a,
                        last_note: 127,
                        wait_ticks: 0,
                        should_stop: false,
                        sounded: Ghost(false),
                        ticks: Ghost(0),
                    };
                    &&& (fresh.spec_tick_live() ==> post.state_view() == State::Playing(
                        fresh.spec_tick_state(),
                    ))
                    &&& (!fresh.spec_tick_live() ==> post.state_view() is Idle)
                    &&& out1 == out0 + fresh.spec_tick_msgs()
                },
                State::Playing(p) => {
                    &&& (p.spec_tick_live() ==> post.state_view() == State::Playing(
                        p.spec_tick_state(),
                    ))
                    &&& (!p.spec_tick_live() ==> post.state_view() is Idle)
                    &&& out1 == out0 + p.spec_tick_msgs()
                },
            }))
}

impl EvenMutator {
    pub closed spec fn inv(&self) -> bool {
        match self.arpeggio {
            State::Playing(p) => p.wf(),
            State::Starting(a, _) => a.wf(),
            State::Idle => true,
        }
    }

    /// The notes this mode's player has sounding.
    pub closed spec fn sounding(&self) -> Multiset<(u8, u8)> {
        match self.arpeggio {
            State::Playing(p) => p.sounding(),
            _ => Multiset::empty(),
        }
    }

    /// The player's tick count, while one plays.
    pub closed spec fn player_ticks(&self) -> Option<nat> {
        match self.arpeggio {
            State::Playing(p) => Some(p.ticks@),
            _ => None,
        }
    }

    /// Where the single bitmap player stands.
    pub closed spec fn state_view(&self) -> State {
        self.arpeggio
    }

    pub fn new() -> (r: EvenMutator)
        ensures
            r.inv(),
            r.sounding() == Multiset::<(u8, u8)>::empty(),
            r.count_arpeggios_spec() == 0,
    {
        EvenMutator { arpeggio: State::Idle }
    }

    pub closed spec fn count_arpeggios_spec(&self) -> int {
        match self.arpeggio {
            State::Playing(_) => 1,
            _ => 0,
        }
    }

    /// Feed one message to the mode.  The emitted output moves the
    /// sounding notes from the old state to the new; each clock tick
    /// advances a surviving player by exactly one tick.
    #[verifier::rlimit(100)]
    pub fn process<SS: StatusSignal>(
        &mut self,
        received: MidiMessage,
        settings: &Settings,
        out: &mut MidiOutput,
        status: &mut SS,
    )
        requires
            old(self).inv(),
            received.wf(),
            settings.wf(),
            <SS as MidiReceiver>::inv(old(status)),
        ensures
            final(self).inv(),

            <SS as MidiReceiver>::inv(final(status)),
            even_mutator_step(*old(self), *final(self), received, *settings, old(out)@, final(out)@),
            ({
                let pulses: nat = (match received {
                    MidiMessage::TimingClock => (match old(self).state_view() {
                        State::Starting(_, r) => if r == 0 {
                            1nat
                        } else {
                            0nat
                        },
                        _ => 0nat,
                    }),
                    _ => 0nat,
                });
                final(status).beat_resets() == old(status).beat_resets() + pulses
            }),

    {
        let ghost start = out@;
        match received {
            MidiMessage::NoteOn { channel: _, note, velocity } => {
                let v: u8 = match settings.fixed_velocity {
                    Some(fixed_v) => if fixed_v >= 127 {
                        127
                    } else {
                        fixed_v
                    },
                    None => velocity,
                };
                match &mut self.arpeggio {
                    State::Playing(player) => {
                        player.note_on(note, v);
                    },
                    State::Starting(arp, _) => {
                        arp.note_on(note, v);
                    },
                    State::Idle => {
                        let notes_per_beat: usize = match settings.fixed_steps {
                            Some(s) => s,
                            None => 1,
                        };
                        self.arpeggio = State::Starting(
                            Arpeggio::from(note, v, notes_per_beat, settings.pattern),
                            START_THRESHOLD_TICKS,
                        );
                    },
                }
                proof {
                    assert(out@.subrange(start.len() as int, out@.len() as int) =~= Seq::<
                        MidiMessage,
                    >::empty());
                }
            },
            MidiMessage::NoteOff { note, .. } => {
                match &mut self.arpeggio {
                    State::Playing(player) => {
                        player.note_off(note);
                    },
                    State::Starting(arp, _) => {
                        arp.note_off(note);
                    },
                    State::Idle => {},
                }
                proof {
                    assert(out@.subrange(start.len() as int, out@.len() as int) =~= Seq::<
                        MidiMessage,
                    >::empty());
                }
            },
            MidiMessage::TimingClock => {
                let mut temp = State::Idle;
                core::mem::swap(&mut self.arpeggio, &mut temp);
                match temp {
                    State::Playing(mut player) => {
                        let live = player.play_tick(out);
                        if live {
                            self.arpeggio = State::Playing(player);
                        }
                        proof {
                            assert(out@.subrange(0, start.len() as int) =~= start);
                        }
                    },
                    State::Starting(arp, remaining) => {
                        if remaining == 0 {
                            let mut player = Player::init(arp);
                            let live = player.play_tick(out);
                            if live {
                                self.arpeggio = State::Playing(player);
                            }
                            status.reset_beat();
                            proof {
                                assert(out@.subrange(0, start.len() as int) =~= start);
                            }
                        } else {
                            self.arpeggio = State::Starting(arp, remaining - 1);
                            proof {
                                assert(out@.subrange(start.len() as int, out@.len() as int)
                                    =~= Seq::<MidiMessage>::empty());
                            }
                        }
                    },
                    State::Idle => {
                        proof {
                            assert(out@.subrange(start.len() as int, out@.len() as int) =~= Seq::<
                                MidiMessage,
                            >::empty());
                        }
                    },
                }
            },
            _ => {
                proof {
                    assert(out@.subrange(start.len() as int, out@.len() as int) =~= Seq::<
                        MidiMessage,
                    >::empty());
                }
            },
        }
    }

    /// Silence and drop the player.
    pub fn stop_arpeggios(&mut self, out: &mut MidiOutput)
        requires
            old(self).inv(),
        ensures
            final(self).inv(),
            final(self).sounding() == Multiset::<(u8, u8)>::empty(),
            final(self).count_arpeggios_spec() == 0,
            ({
                let emitted = final(out)@.subrange(
                    old(out)@.len() as int,
                    final(out)@.len() as int,
                );
                &&& final(out)@ == old(out)@ + emitted
                &&& midi::live_after(old(self).sounding(), emitted) == Multiset::<(u8, u8)>::empty()
            }),
    {
        let ghost start = out@;
        let mut temp = State::Idle;
        core::mem::swap(&mut self.arpeggio, &mut temp);
        match temp {
            State::Playing(mut player) => {
                player.force_stop(out);
                proof {
                    assert(out@.subrange(0, start.len() as int) =~= start);
                    assert(out@ =~= start + out@.subrange(start.len() as int, out@.len() as int));
                }
            },
            _ => {
                proof {
                    assert(out@.subrange(start.len() as int, out@.len() as int) =~= Seq::<
                        MidiMessage,
                    >::empty());
                }
            },
        }
    }

    pub fn count_arpeggios(&self) -> (r: usize)
        ensures
            r == self.count_arpeggios_spec(),
    {
        match &self.arpeggio {
            State::Playing(_) => 1,
            _ => 0,
        }
    }
}

/// The channel preset chords are struck on.
pub const SEND_CHANNEL: u8 = 1;

/// The (channel, pitch) pairs a sounding preset holds down.
pub open spec fn preset_keys(steps: Seq<u8>) -> Multiset<(u8, u8)>
    decreases steps.len(),
{
    if steps.len() == 0 {
        Multiset::empty()
    } else {
        preset_keys(steps.drop_last()).insert((SEND_CHANNEL, steps.last()))
    }
}

/// The notes all presets of a list hold down.
pub open spec fn presets_sounding(s: Seq<Preset>) -> Multiset<(u8, u8)>
    decreases s.len(),
{
    if s.len() == 0 {
        Multiset::empty()
    } else {
        presets_sounding(s.drop_last()).add(preset_keys(s.last().steps@))
    }
}

/// Front decomposition of a preset list's sounding notes.
proof fn lemma_presets_sounding_first(s: Seq<Preset>)
    requires
        s.len() >= 1,
    ensures
        presets_sounding(s) == preset_keys(s[0].steps@).add(presets_sounding(s.drop_first())),
    decreases s.len(),
{
    if s.len() == 1 {
        assert(s.drop_last() =~= Seq::<Preset>::empty());
        assert(s.drop_first() =~= Seq::<Preset>::empty());
        assert(Multiset::<(u8, u8)>::empty().add(preset_keys(s.last().steps@)) =~= preset_keys(
            s[0].steps@,
        ).add(Multiset::<(u8, u8)>::empty()));
    } else {
        lemma_presets_sounding_first(s.drop_last());
        assert(s.drop_last().drop_first() =~= s.drop_first().drop_last());
        assert(s.drop_last()[0] == s[0]);
        assert(s.drop_first().last() == s.last());
        assert(preset_keys(s[0].steps@).add(presets_sounding(s.drop_first().drop_last())).add(
            preset_keys(s.last().steps@),
        ) =~= preset_keys(s[0].steps@).add(presets_sounding(s.drop_first())));
    }
}

/// Whether a preset's trigger set equals the live note set.
pub open spec fn spec_triggered(p: Preset, notes: Seq<u8>) -> bool {
    p.trigger@.to_set() == notes.to_set()
}

/// The presets of a pool the live note set triggers, in pool order.
pub open spec fn triggered_of(pool: Seq<Preset>, notes: Seq<u8>) -> Seq<Preset>
    decreases pool.len(),
{
    if pool.len() == 0 {
        Seq::empty()
    } else {
        (if spec_triggered(pool[0], notes) {
            seq![pool[0]]
        } else {
            Seq::empty()
        }) + triggered_of(pool.drop_first(), notes)
    }
}

/// The presets of a pool the live note set does not trigger, in order.
pub open spec fn untriggered_of(pool: Seq<Preset>, notes: Seq<u8>) -> Seq<Preset>
    decreases pool.len(),
{
    if pool.len() == 0 {
        Seq::empty()
    } else {
        (if spec_triggered(pool[0], notes) {
            Seq::empty()
        } else {
            seq![pool[0]]
        }) + untriggered_of(pool.drop_first(), notes)
    }
}

/// The note-ons of a list of chords, struck in order.
pub open spec fn chords_on_msgs(ps: Seq<Preset>, velocity: u8) -> Seq<MidiMessage>
    decreases ps.len(),
{
    if ps.len() == 0 {
        Seq::empty()
    } else {
        chord_on_msgs(ps[0].steps@, velocity) + chords_on_msgs(ps.drop_first(), velocity)
    }
}

/// The note-offs of a list of chords, released in order.
pub open spec fn chords_off_msgs(ps: Seq<Preset>) -> Seq<MidiMessage>
    decreases ps.len(),
{
    if ps.len() == 0 {
        Seq::empty()
    } else {
        chord_off_msgs(ps[0].steps@) + chords_off_msgs(ps.drop_first())
    }
}

/// The partitions and emissions split over concatenation.
pub(crate) proof fn lemma_partition_concat(a: Seq<Preset>, b: Seq<Preset>, notes: Seq<u8>, velocity: u8)
    ensures
        triggered_of(a + b, notes) == triggered_of(a, notes) + triggered_of(b, notes),
        untriggered_of(a + b, notes) == untriggered_of(a, notes) + untriggered_of(b, notes),
        chords_on_msgs(a + b, velocity) == chords_on_msgs(a, velocity) + chords_on_msgs(
            b,
            velocity,
        ),
        chords_off_msgs(a + b) == chords_off_msgs(a) + chords_off_msgs(b),
    decreases a.len(),
{
    if a.len() == 0 {
        assert(a + b =~= b);
        assert(triggered_of(a, notes) + triggered_of(b, notes) =~= triggered_of(b, notes));
        assert(untriggered_of(a, notes) + untriggered_of(b, notes) =~= untriggered_of(b, notes));
        assert(chords_on_msgs(a, velocity) + chords_on_msgs(b, velocity) =~= chords_on_msgs(
            b,
            velocity,
        ));
        assert(chords_off_msgs(a) + chords_off_msgs(b) =~= chords_off_msgs(b));
    } else {
        assert((a + b)[0] == a[0]);
        assert((a + b).drop_first() =~= a.drop_first() + b);
        lemma_partition_concat(a.drop_first(), b, notes, velocity);
        assert(triggered_of(a + b, notes) =~= triggered_of(a, notes) + triggered_of(b, notes));
        assert(untriggered_of(a + b, notes) =~= untriggered_of(a, notes) + untriggered_of(
            b,
            notes,
        ));
        assert(chords_on_msgs(a + b, velocity) =~= chords_on_msgs(a, velocity) + chords_on_msgs(
            b,
            velocity,
        ));
        assert(chords_off_msgs(a + b) =~= chords_off_msgs(a) + chords_off_msgs(b));
    }
}

/// Two disjoint preset pools and the live note set: a preset moves to the
/// playing pool (striking its chord) when the held notes equal its
/// trigger, and back (releasing it) when they no longer do.
pub struct TriggeredChords {
    not_playing: Vec<Preset>,
    notes: Vec<u8>,
    playing: Vec<Preset>,
}

/// Everything one message does to the chord mode: the relation between
/// its pre- and post-states, over its note-set and preset pools, and
/// the output the message appends.
pub open spec fn triggered_chords_step(
    pre: TriggeredChords,
    post: TriggeredChords,
    received: MidiMessage,
    settings: Settings,
    out0: Seq<MidiMessage>,
    out1: Seq<MidiMessage>,
) -> bool {
    &&& (({
                let emitted = out1.subrange(
                    out0.len() as int,
                    out1.len() as int,
                );
                &&& out1 == out0 + emitted
                &&& midi::live_after(pre.sounding(), emitted) == post.sounding()
                &&& midi::offs_covered(pre.sounding(), emitted)
            }))
    &&& (received matches MidiMessage::NoteOn { channel: _, note, velocity } ==> ({
                let notes1 = if pre.notes_view().contains(note) {
                    pre.notes_view()
                } else {
                    pre.notes_view().push(note)
                };
                let v = match settings.fixed_velocity {
                    Some(fixed) => if fixed >= 127 {
                        127u8
                    } else {
                        fixed
                    },
                    None => velocity,
                };
                &&& post.notes_view() == notes1
                &&& post.playing_view() == pre.playing_view() + triggered_of(
                    pre.pool_view(),
                    notes1,
                )
                &&& post.pool_view() == untriggered_of(pre.pool_view(), notes1)
                &&& out1 == out0 + chords_on_msgs(
                    triggered_of(pre.pool_view(), notes1),
                    v,
                )
            }))
    &&& (received matches MidiMessage::NoteOff { note, .. } ==> ({
                let notes1 = crate::arpeggiator::timed::keys_without(
                    pre.notes_view(),
                    note,
                );
                &&& post.notes_view() == notes1
                &&& post.playing_view() == triggered_of(pre.playing_view(), notes1)
                &&& post.pool_view() == pre.pool_view() + untriggered_of(
                    pre.playing_view(),
                    notes1,
                )
                &&& out1 == out0 + chords_off_msgs(
                    untriggered_of(pre.playing_view(), notes1),
                )
            }))
}

impl TriggeredChords {
    pub closed spec fn inv(&self) -> bool {
        &&& forall|i: int| 0 <= i < self.not_playing@.len() ==> (#[trigger] self.not_playing@[i]).wf()
        &&& forall|i: int| 0 <= i < self.playing@.len() ==> (#[trigger] self.playing@[i]).wf()
        &&& forall|a: int, b: int| 0 <= a < b < self.notes@.len() ==> self.notes@[a] != self.notes@[b]
    }

    /// The notes the playing presets hold down.
    pub closed spec fn sounding(&self) -> Multiset<(u8, u8)> {
        presets_sounding(self.playing@)
    }

    /// The live held-note set.
    pub closed spec fn notes_view(&self) -> Seq<u8> {
        self.notes@
    }

    /// The presets currently sounding their chords, in start order.
    pub closed spec fn playing_view(&self) -> Seq<Preset> {
        self.playing@
    }

    /// The presets waiting for their trigger, in order.
    pub closed spec fn pool_view(&self) -> Seq<Preset> {
        self.not_playing@
    }

    pub fn new(presets: Vec<Preset>) -> (r: TriggeredChords)
        requires
            forall|i: int| 0 <= i < presets@.len() ==> (#[trigger] presets@[i]).wf(),
        ensures
            r.inv(),
            r.sounding() == Multiset::<(u8, u8)>::empty(),
            r.count_arpeggios_spec() == 0,
    {
        TriggeredChords { not_playing: presets, notes: Vec::new(), playing: Vec::new() }
    }

    pub closed spec fn count_arpeggios_spec(&self) -> int {
        self.playing@.len() as int
    }

    /// Strike a preset's chord.
    fn play(preset: &Preset, velocity: u8, out: &mut MidiOutput)
        ensures
            final(out)@ == old(out)@ + chord_on_msgs(preset.steps@, velocity),
            midi::live_after(Multiset::<(u8, u8)>::empty(), chord_on_msgs(preset.steps@, velocity))
                == preset_keys(preset.steps@),
            midi::offs_covered(
                Multiset::<(u8, u8)>::empty(),
                chord_on_msgs(preset.steps@, velocity),
            ),
    {
        let ghost start = out@;
        let total: usize = preset.steps.len();
        let mut i: usize = 0;
        while i < total
            invariant
                i <= total,
                total == preset.steps@.len(),
                out@ == start + chord_on_msgs(preset.steps@.take(i as int), velocity),
            decreases total - i,
        {
            out.send(MidiMessage::NoteOn {
                channel: SEND_CHANNEL,
                note: preset.steps[i],
                velocity,
            });
            proof {
                assert(preset.steps@.take(i + 1).drop_last() =~= preset.steps@.take(i as int));
                assert(preset.steps@.take(i + 1).last() == preset.steps@[i as int]);
                assert(out@ =~= start + chord_on_msgs(preset.steps@.take(i + 1), velocity));
            }
            i = i + 1;
        }
        proof {
            assert(preset.steps@.take(total as int) =~= preset.steps@);
            lemma_chord_on_live(Multiset::<(u8, u8)>::empty(), preset.steps@, velocity);
        }
    }

    /// Release a preset's chord; what that does to the sounding notes is
    /// [`lemma_chord_off_live`]'s business.
    fn stop(preset: &Preset, out: &mut MidiOutput)
        ensures
            final(out)@ == old(out)@ + chord_off_msgs(preset.steps@),
    {
        let ghost start = out@;
        let total: usize = preset.steps.len();
        let mut i: usize = 0;
        while i < total
            invariant
                i <= total,
                total == preset.steps@.len(),
                out@ == start + chord_off_msgs(preset.steps@.take(i as int)),
            decreases total - i,
        {
            out.send(MidiMessage::NoteOff {
                channel: SEND_CHANNEL,
                note: preset.steps[i],
                velocity: 0,
            });
            proof {
                assert(preset.steps@.take(i + 1).drop_last() =~= preset.steps@.take(i as int));
                assert(preset.steps@.take(i + 1).last() == preset.steps@[i as int]);
                assert(out@ =~= start + chord_off_msgs(preset.steps@.take(i + 1)));
            }
            i = i + 1;
        }
        proof {
            assert(preset.steps@.take(total as int) =~= preset.steps@);
        }
    }

    /// Feed one message to the mode.  The emitted output moves the held
    /// chords from the old state to the new and never releases a silent
    /// chord.
    #[verifier::rlimit(100)]
    pub fn process<SS: StatusSignal>(
        &mut self,
        received: MidiMessage,
        settings: &Settings,
        out: &mut MidiOutput,
        status: &mut SS,
    )
        requires
            old(self).inv(),
            received.wf(),
            settings.wf(),
            <SS as MidiReceiver>::inv(old(status)),
        ensures
            final(self).inv(),

            <SS as MidiReceiver>::inv(final(status)),
            triggered_chords_step(*old(self), *final(self), received, *settings, old(out)@, final(out)@),
            ({
                let pulses: nat = (match received {
                    MidiMessage::NoteOn { note, .. } => ({
                        let notes1 = if old(self).notes_view().contains(note) {
                            old(self).notes_view()
                        } else {
                            old(self).notes_view().push(note)
                        };
                        triggered_of(old(self).pool_view(), notes1).len()
                    }),
                    _ => 0nat,
                });
                final(status).beat_resets() == old(status).beat_resets() + pulses
            }),

    {
        let ghost start = out@;
        match received {
            MidiMessage::NoteOn { channel: _, note, velocity } => {
                if !crate::presets::contains_pitch(&self.notes, note) {
                    let ghost n0 = self.notes@;
                    self.notes.push(note);
                    proof {
                        assert forall|a: int, b: int|
                            0 <= a < b < self.notes@.len() implies self.notes@[a]
                            != self.notes@[b] by {
                            if b < n0.len() {
                            } else {
                                assert(self.notes@[b] == note);
                                assert(self.notes@[a] == n0[a]);
                                assert(!n0.contains(note));
                            }
                        }
                    }
                }
                let v: u8 = match settings.fixed_velocity {
                    Some(fixed_v) => if fixed_v >= 127 {
                        127
                    } else {
                        fixed_v
                    },
                    None => velocity,
                };
                let ghost s0 = presets_sounding(self.playing@);
                let ghost notes1 = self.notes@;
                let ghost pool0 = self.not_playing@;
                let ghost playing0 = self.playing@;
                let ghost vspec = match settings.fixed_velocity {
                    Some(fixed) => if fixed >= 127 {
                        127u8
                    } else {
                        fixed
                    },
                    None => velocity,
                };
                let mut pending: Vec<Preset> = Vec::new();
                core::mem::swap(&mut self.not_playing, &mut pending);
                let ghost mut consumed: int = 0;
                proof {
                    assert(pending@ =~= pool0.skip(0));
                    assert(self.playing@ =~= playing0 + triggered_of(pool0.take(0), notes1));
                    assert(self.not_playing@ =~= untriggered_of(pool0.take(0), notes1));
                    assert(out@.subrange(start.len() as int, out@.len() as int) =~= chords_on_msgs(
                        triggered_of(pool0.take(0), notes1),
                        vspec,
                    ));
                }
                while pending.len() > 0
                    invariant
                        <SS as MidiReceiver>::inv(status),
                        status.beat_resets() == old(status).beat_resets() + triggered_of(
                            pool0.take(consumed),
                            notes1,
                        ).len(),
                        forall|i: int|
                            0 <= i < pending@.len() ==> (#[trigger] pending@[i]).wf(),
                        forall|i: int|
                            0 <= i < self.not_playing@.len() ==> (
                            #[trigger] self.not_playing@[i]).wf(),
                        forall|i: int|
                            0 <= i < self.playing@.len() ==> (#[trigger] self.playing@[i]).wf(),
                        0 <= consumed <= pool0.len(),
                        pending@ == pool0.skip(consumed),
                        self.notes@ == notes1,
                        vspec == v,
                        self.playing@ == playing0 + triggered_of(pool0.take(consumed), notes1),
                        self.not_playing@ == untriggered_of(pool0.take(consumed), notes1),
                        out@.subrange(start.len() as int, out@.len() as int) == chords_on_msgs(
                            triggered_of(pool0.take(consumed), notes1),
                            vspec,
                        ),
                        start.len() <= out@.len(),
                        out@.subrange(0, start.len() as int) == start,
                        midi::live_after(
                            s0,
                            out@.subrange(start.len() as int, out@.len() as int),
                        ) == presets_sounding(self.playing@),
                        midi::offs_covered(
                            s0,
                            out@.subrange(start.len() as int, out@.len() as int),
                        ),
                    decreases pending@.len(),
                {
                    let ghost emitted0 = out@.subrange(start.len() as int, out@.len() as int);
                    let ghost pend0 = pending@;
                    let p = pending.remove(0);
                    let ghost pe = p;
                    proof {
                        assert(pending@ =~= pend0.drop_first());
                        assert(pend0.drop_first() =~= pool0.skip(consumed + 1));
                        assert(pend0[0] == pool0[consumed]);
                        assert(pool0.take(consumed + 1) =~= pool0.take(consumed) + seq![
                            pool0[consumed],
                        ]);
                        lemma_partition_concat(
                            pool0.take(consumed),
                            seq![pool0[consumed]],
                            notes1,
                            vspec,
                        );
                        assert(seq![pool0[consumed]].drop_first() =~= Seq::<Preset>::empty());
                        assert(triggered_of(Seq::<Preset>::empty(), notes1) =~= Seq::<
                            Preset,
                        >::empty());
                        assert(untriggered_of(Seq::<Preset>::empty(), notes1) =~= Seq::<
                            Preset,
                        >::empty());
                        assert(chords_on_msgs(Seq::<Preset>::empty(), vspec) =~= Seq::<
                            crate::midi::MidiMessage,
                        >::empty());
                    }
                    if p.is_triggered_by(&self.notes) {
                        let ghost played0 = self.playing@;
                        TriggeredChords::play(&p, v, out);
                        let ghost keys = preset_keys(p.steps@);
                        self.playing.push(p);
                        status.reset_beat();
                        proof {
                            let m = out@.subrange(
                                start.len() as int + emitted0.len(),
                                out@.len() as int,
                            );
                            assert(m =~= chord_on_msgs(p.steps@, v));
                            assert(Multiset::<(u8, u8)>::empty().add(
                                presets_sounding(played0),
                            ) =~= presets_sounding(played0));
                            midi::lemma_step_accounting(
                                s0,
                                emitted0,
                                m,
                                presets_sounding(played0),
                                Multiset::<(u8, u8)>::empty(),
                                keys,
                            );
                            assert(self.playing@.drop_last() =~= played0);
                            assert(presets_sounding(self.playing@) == presets_sounding(
                                played0,
                            ).add(keys));
                            assert(presets_sounding(played0).add(keys) =~= keys.add(
                                presets_sounding(played0),
                            ));
                            assert(out@.subrange(start.len() as int, out@.len() as int)
                                =~= emitted0 + m);
                            assert(out@.subrange(0, start.len() as int) =~= start);
                            assert(spec_triggered(pe, notes1));
                            assert(vspec == v);
                            assert(triggered_of(seq![pool0[consumed]], notes1) =~= seq![pe]);
                            assert(untriggered_of(seq![pool0[consumed]], notes1) =~= Seq::<
                                Preset,
                            >::empty());
                            assert(chords_on_msgs(seq![pool0[consumed]], vspec) =~= chord_on_msgs(
                                pe.steps@,
                                vspec,
                            ));
                            assert(self.playing@ =~= playing0 + triggered_of(
                                pool0.take(consumed + 1),
                                notes1,
                            ));
                            assert(self.not_playing@ =~= untriggered_of(
                                pool0.take(consumed + 1),
                                notes1,
                            ));
                            lemma_partition_concat(
                                triggered_of(pool0.take(consumed), notes1),
                                seq![pe],
                                notes1,
                                vspec,
                            );
                            assert(triggered_of(pool0.take(consumed + 1), notes1)
                                =~= triggered_of(pool0.take(consumed), notes1) + seq![pe]);
                            assert(chords_on_msgs(seq![pe], vspec) =~= chord_on_msgs(
                                pe.steps@,
                                vspec,
                            ));
                            assert(out@.subrange(start.len() as int, out@.len() as int)
                                =~= chords_on_msgs(
                                triggered_of(pool0.take(consumed + 1), notes1),
                                vspec,
                            ));
                        }
                    } else {
                        self.not_playing.push(p);
                        proof {
                            assert(spec_triggered(pe, notes1) == false);
                            assert(triggered_of(seq![pool0[consumed]], notes1) =~= Seq::<
                                Preset,
                            >::empty());
                            assert(untriggered_of(seq![pool0[consumed]], notes1) =~= seq![pe]);
                            assert(chords_on_msgs(seq![pool0[consumed]], vspec) =~= chord_on_msgs(
                                pe.steps@,
                                vspec,
                            ));
                            assert(self.not_playing@ =~= untriggered_of(
                                pool0.take(consumed + 1),
                                notes1,
                            ));
                            assert(self.playing@ =~= playing0 + triggered_of(
                                pool0.take(consumed + 1),
                                notes1,
                            ));
                            assert(out@.subrange(start.len() as int, out@.len() as int)
                                =~= chords_on_msgs(
                                triggered_of(pool0.take(consumed + 1), notes1),
                                vspec,
                            ));
                        }
                    }
                    proof {
                        consumed = consumed + 1;
                    }
                }
                proof {
                    assert(pool0.take(consumed) =~= pool0);
                    assert(out@ =~= start + out@.subrange(start.len() as int, out@.len() as int));
                }
            },
            MidiMessage::NoteOff { note, .. } => {
                let _removed = remove_note(&mut self.notes, note);
                let ghost s0 = presets_sounding(self.playing@);
                let ghost notes1 = self.notes@;
                let ghost playing0 = self.playing@;
                let ghost pool0 = self.not_playing@;
                let mut pending: Vec<Preset> = Vec::new();
                core::mem::swap(&mut self.playing, &mut pending);
                let ghost mut consumed: int = 0;
                proof {
                    assert(presets_sounding(self.playing@) =~= Multiset::<(u8, u8)>::empty());
                    assert(Multiset::<(u8, u8)>::empty().add(presets_sounding(pending@))
                        =~= presets_sounding(pending@));
                    assert(pending@ =~= playing0.skip(0));
                    assert(self.playing@ =~= triggered_of(playing0.take(0), notes1));
                    assert(self.not_playing@ =~= pool0 + untriggered_of(
                        playing0.take(0),
                        notes1,
                    ));
                    assert(out@.subrange(start.len() as int, out@.len() as int)
                        =~= chords_off_msgs(untriggered_of(playing0.take(0), notes1)));
                }
                while pending.len() > 0
                    invariant
                        forall|i: int|
                            0 <= i < pending@.len() ==> (#[trigger] pending@[i]).wf(),
                        forall|i: int|
                            0 <= i < self.not_playing@.len() ==> (
                            #[trigger] self.not_playing@[i]).wf(),
                        forall|i: int|
                            0 <= i < self.playing@.len() ==> (#[trigger] self.playing@[i]).wf(),
                        0 <= consumed <= playing0.len(),
                        pending@ == playing0.skip(consumed),
                        self.notes@ == notes1,
                        self.playing@ == triggered_of(playing0.take(consumed), notes1),
                        self.not_playing@ == pool0 + untriggered_of(
                            playing0.take(consumed),
                            notes1,
                        ),
                        out@.subrange(start.len() as int, out@.len() as int) == chords_off_msgs(
                            untriggered_of(playing0.take(consumed), notes1),
                        ),
                        start.len() <= out@.len(),
                        out@.subrange(0, start.len() as int) == start,
                        midi::live_after(
                            s0,
                            out@.subrange(start.len() as int, out@.len() as int),
                        ) == presets_sounding(self.playing@).add(presets_sounding(pending@)),
                        midi::offs_covered(
                            s0,
                            out@.subrange(start.len() as int, out@.len() as int),
                        ),
                    decreases pending@.len(),
                {
                    let ghost emitted0 = out@.subrange(start.len() as int, out@.len() as int);
                    let ghost pend0 = pending@;
                    proof {
                        lemma_presets_sounding_first(pend0);
                    }
                    let p = pending.remove(0);
                    let ghost pe = p;
                    let ghost keys = preset_keys(p.steps@);
                    let ghost others = presets_sounding(self.playing@).add(
                        presets_sounding(pending@),
                    );
                    proof {
                        assert(pending@ =~= pend0.drop_first());
                        assert(pend0.drop_first() =~= playing0.skip(consumed + 1));
                        assert(pend0[0] == playing0[consumed]);
                        assert(presets_sounding(self.playing@).add(presets_sounding(pend0))
                            =~= keys.add(others));
                        assert(playing0.take(consumed + 1) =~= playing0.take(consumed) + seq![
                            playing0[consumed],
                        ]);
                        lemma_partition_concat(
                            playing0.take(consumed),
                            seq![playing0[consumed]],
                            notes1,
                            0u8,
                        );
                        assert(seq![playing0[consumed]].drop_first() =~= Seq::<Preset>::empty());
                        assert(triggered_of(Seq::<Preset>::empty(), notes1) =~= Seq::<
                            Preset,
                        >::empty());
                        assert(untriggered_of(Seq::<Preset>::empty(), notes1) =~= Seq::<
                            Preset,
                        >::empty());
                        assert(chords_off_msgs(Seq::<Preset>::empty()) =~= Seq::<
                            crate::midi::MidiMessage,
                        >::empty());
                    }
                    if !p.is_triggered_by(&self.notes) {
                        let ghost stepsv = p.steps@;
                        TriggeredChords::stop(&p, out);
                        proof {
                            assert(keys.subset_of(keys.add(others)));
                            lemma_chord_off_live(keys.add(others), p.steps@);
                            assert(stepsv == p.steps@);
                        }
                        self.not_playing.push(p);
                        proof {
                            let m = out@.subrange(
                                start.len() as int + emitted0.len(),
                                out@.len() as int,
                            );
                            assert(m =~= chord_off_msgs(stepsv));
                            assert(keys.add(others).sub(keys) =~= others);
                            midi::lemma_live_concat(s0, emitted0, m);
                            assert(out@.subrange(start.len() as int, out@.len() as int)
                                =~= emitted0 + m);
                            assert(out@.subrange(0, start.len() as int) =~= start);
                            assert(spec_triggered(pe, notes1) == false);
                            assert(triggered_of(seq![playing0[consumed]], notes1) =~= Seq::<
                                Preset,
                            >::empty());
                            assert(untriggered_of(seq![playing0[consumed]], notes1) =~= seq![pe]);
                            assert(chords_off_msgs(seq![playing0[consumed]]) =~= chord_off_msgs(
                                pe.steps@,
                            ));
                            assert(self.playing@ =~= triggered_of(
                                playing0.take(consumed + 1),
                                notes1,
                            ));
                            assert(self.not_playing@ =~= pool0 + untriggered_of(
                                playing0.take(consumed + 1),
                                notes1,
                            ));
                            lemma_partition_concat(
                                untriggered_of(playing0.take(consumed), notes1),
                                seq![pe],
                                notes1,
                                0u8,
                            );
                            assert(untriggered_of(playing0.take(consumed + 1), notes1)
                                =~= untriggered_of(playing0.take(consumed), notes1) + seq![pe]);
                            assert(chords_off_msgs(seq![pe]) =~= chord_off_msgs(pe.steps@));
                            assert(out@.subrange(start.len() as int, out@.len() as int)
                                =~= chords_off_msgs(
                                untriggered_of(playing0.take(consumed + 1), notes1),
                            ));
                        }
                    } else {
                        let ghost played0 = self.playing@;
                        self.playing.push(p);
                        proof {
                            assert(self.playing@.drop_last() =~= played0);
                            assert(presets_sounding(self.playing@) == presets_sounding(
                                played0,
                            ).add(keys));
                            assert(presets_sounding(played0).add(keys).add(
                                presets_sounding(pending@),
                            ) =~= keys.add(others));
                            assert(spec_triggered(pe, notes1));
                            assert(triggered_of(seq![playing0[consumed]], notes1) =~= seq![pe]);
                            assert(untriggered_of(seq![playing0[consumed]], notes1) =~= Seq::<
                                Preset,
                            >::empty());
                            assert(chords_off_msgs(seq![playing0[consumed]]) =~= chord_off_msgs(
                                pe.steps@,
                            ));
                            assert(self.playing@ =~= triggered_of(
                                playing0.take(consumed + 1),
                                notes1,
                            ));
                            assert(self.not_playing@ =~= pool0 + untriggered_of(
                                playing0.take(consumed + 1),
                                notes1,
                            ));
                            assert(out@.subrange(start.len() as int, out@.len() as int)
                                =~= chords_off_msgs(
                                untriggered_of(playing0.take(consumed + 1), notes1),
                            ));
                        }
                    }
                    proof {
                        consumed = consumed + 1;
                    }
                }
                proof {
                    assert(playing0.take(consumed) =~= playing0);
                    assert(presets_sounding(self.playing@).add(presets_sounding(pending@))
                        =~= presets_sounding(self.playing@));
                    assert(out@ =~= start + out@.subrange(start.len() as int, out@.len() as int));
                }
            },
            _ => {
                proof {
                    assert(out@.subrange(start.len() as int, out@.len() as int) =~= Seq::<
                        MidiMessage,
                    >::empty());
                }
            },
        }
    }

    /// Release every playing chord and move it back to the pool.
    pub fn stop_arpeggios(&mut self, out: &mut MidiOutput)
        requires
            old(self).inv(),
        ensures
            final(self).inv(),
            final(self).sounding() == Multiset::<(u8, u8)>::empty(),
            final(self).count_arpeggios_spec() == 0,
            ({
                let emitted = final(out)@.subrange(
                    old(out)@.len() as int,
                    final(out)@.len() as int,
                );
                &&& final(out)@ == old(out)@ + emitted
                &&& midi::live_after(old(self).sounding(), emitted) == Multiset::<(u8, u8)>::empty()
                &&& midi::offs_covered(old(self).sounding(), emitted)
            }),
    {
        let ghost start = out@;
        let ghost s0 = presets_sounding(self.playing@);
        let mut pending: Vec<Preset> = Vec::new();
        core::mem::swap(&mut self.playing, &mut pending);
        proof {
            assert(out@.subrange(start.len() as int, out@.len() as int) =~= Seq::<
                MidiMessage,
            >::empty());
        }
        while pending.len() > 0
            invariant
                forall|i: int| 0 <= i < pending@.len() ==> (#[trigger] pending@[i]).wf(),
                forall|i: int|
                    0 <= i < self.not_playing@.len() ==> (#[trigger] self.not_playing@[i]).wf(),
                self.playing@.len() == 0,
                self.notes@ == old(self).notes@,
                old(self).inv(),
                start.len() <= out@.len(),
                out@.subrange(0, start.len() as int) == start,
                midi::live_after(s0, out@.subrange(start.len() as int, out@.len() as int))
                    == presets_sounding(pending@),
                midi::offs_covered(s0, out@.subrange(start.len() as int, out@.len() as int)),
            decreases pending@.len(),
        {
            let ghost emitted0 = out@.subrange(start.len() as int, out@.len() as int);
            let ghost pend0 = pending@;
            proof {
                lemma_presets_sounding_first(pend0);
            }
            let p = pending.remove(0);
            let ghost keys = preset_keys(p.steps@);
            let ghost others = presets_sounding(pending@);
            proof {
                assert(pending@ =~= pend0.drop_first());
                assert(presets_sounding(pend0) =~= keys.add(others));
            }
            TriggeredChords::stop(&p, out);
            self.not_playing.push(p);
            proof {
                let m = out@.subrange(start.len() as int + emitted0.len(), out@.len() as int);
                assert(m =~= chord_off_msgs(p.steps@));
                assert(keys.subset_of(keys.add(others)));
                lemma_chord_off_live(keys.add(others), p.steps@);
                assert(keys.add(others).sub(keys) =~= others);
                midi::lemma_live_concat(s0, emitted0, m);
                assert(out@.subrange(start.len() as int, out@.len() as int) =~= emitted0 + m);
                assert(out@.subrange(0, start.len() as int) =~= start);
            }
        }
        proof {
            assert(presets_sounding(pending@) =~= Multiset::<(u8, u8)>::empty());
            assert(out@ =~= start + out@.subrange(start.len() as int, out@.len() as int));
        }
    }

    pub fn count_arpeggios(&self) -> (r: usize)
        ensures
            r == self.count_arpeggios_spec(),
    {
        self.playing.len()
    }
}

/// The note-ons that strike a preset's chord.
pub open spec fn chord_on_msgs(steps: Seq<u8>, velocity: u8) -> Seq<MidiMessage>
    decreases steps.len(),
{
    if steps.len() == 0 {
        Seq::empty()
    } else {
        chord_on_msgs(steps.drop_last(), velocity).push(
            MidiMessage::NoteOn { channel: SEND_CHANNEL, note: steps.last(), velocity },
        )
    }
}

/// The note-offs that release a preset's chord.
pub open spec fn chord_off_msgs(steps: Seq<u8>) -> Seq<MidiMessage>
    decreases steps.len(),
{
    if steps.len() == 0 {
        Seq::empty()
    } else {
        chord_off_msgs(steps.drop_last()).push(
            MidiMessage::NoteOff { channel: SEND_CHANNEL, note: steps.last(), velocity: 0 },
        )
    }
}

/// Striking a chord adds exactly its keys, with no note-off at all.
proof fn lemma_chord_on_live(ms: Multiset<(u8, u8)>, steps: Seq<u8>, velocity: u8)
    ensures
        midi::live_after(ms, chord_on_msgs(steps, velocity)) == ms.add(preset_keys(steps)),
        midi::offs_covered(ms, chord_on_msgs(steps, velocity)),
    decreases steps.len(),
{
    if steps.len() == 0 {
        assert(midi::live_after(ms, chord_on_msgs(steps, velocity)) =~= ms.add(
            preset_keys(steps),
        ));
    } else {
        lemma_chord_on_live(ms, steps.drop_last(), velocity);
        let msgs = chord_on_msgs(steps, velocity);
        assert(msgs.drop_last() =~= chord_on_msgs(steps.drop_last(), velocity));
        assert(msgs.last() == (MidiMessage::NoteOn {
            channel: SEND_CHANNEL,
            note: steps.last(),
            velocity,
        }));
        assert(ms.add(preset_keys(steps.drop_last())).insert((SEND_CHANNEL, steps.last()))
            =~= ms.add(preset_keys(steps)));
    }
}

/// Releasing a chord removes exactly its keys; when they are all
/// sounding, every off is covered.
proof fn lemma_chord_off_live(ms: Multiset<(u8, u8)>, steps: Seq<u8>)
    requires
        preset_keys(steps).subset_of(ms),
    ensures
        midi::live_after(ms, chord_off_msgs(steps)) == ms.sub(preset_keys(steps)),
        midi::offs_covered(ms, chord_off_msgs(steps)),
    decreases steps.len(),
{
    if steps.len() == 0 {
        assert(midi::live_after(ms, chord_off_msgs(steps)) =~= ms.sub(preset_keys(steps)));
    } else {
        let k = ((SEND_CHANNEL, steps.last()));
        assert(preset_keys(steps) == preset_keys(steps.drop_last()).insert(k));
        assert(preset_keys(steps.drop_last()).subset_of(ms)) by {
            assert forall|x: (u8, u8)|
                preset_keys(steps.drop_last()).count(x) <= ms.count(x) by {
                assert(preset_keys(steps).count(x) <= ms.count(x));
            }
        }
        lemma_chord_off_live(ms, steps.drop_last());
        let msgs = chord_off_msgs(steps);
        assert(msgs.drop_last() =~= chord_off_msgs(steps.drop_last()));
        assert(msgs.last() == (MidiMessage::NoteOff {
            channel: SEND_CHANNEL,
            note: steps.last(),
            velocity: 0,
        }));
        let ms1 = ms.sub(preset_keys(steps.drop_last()));
        assert(ms1.count(k) >= 1) by {
            assert(preset_keys(steps).count(k) >= preset_keys(steps.drop_last()).count(k) + 1);
            assert(preset_keys(steps).count(k) <= ms.count(k));
        }
        assert(ms1.remove(k) =~= ms.sub(preset_keys(steps)));
    }
}

/// Remove a pitch from the duplicate-free live note set.
fn remove_note(set: &mut Vec<u8>, n: u8) -> (removed: bool)
    requires
        forall|a: int, b: int| 0 <= a < b < old(set)@.len() ==> old(set)@[a] != old(set)@[b],
    ensures
        final(set)@.len() <= old(set)@.len(),
        final(set)@ == crate::arpeggiator::timed::keys_without(old(set)@, n),
        forall|a: int, b: int|
            0 <= a < b < final(set)@.len() ==> final(set)@[a] != final(set)@[b],
{
    let total: usize = set.len();
    let mut i: usize = 0;
    while i < total
        invariant
            i <= total,
            total == set@.len(),
            set@ == old(set)@,
            forall|a: int, b: int|
                0 <= a < b < old(set)@.len() ==> old(set)@[a] != old(set)@[b],
            forall|j: int| 0 <= j < i ==> old(set)@[j] != n,
        decreases total - i,
    {
        if set[i] == n {
            let ghost set0 = set@;
            let ghost idx = i as int;
            set.remove(i);
            proof {
                crate::arpeggiator::timed::lemma_keys_without_unique(set0, n, idx);
                assert(set@ =~= set0.remove(idx));
                assert forall|a: int, b: int|
                    0 <= a < b < set@.len() implies set@[a] != set@[b] by {
                    if a < idx {
                        assert(set@[a] == set0[a]);
                    } else {
                        assert(set@[a] == set0[a + 1]);
                    }
                    if b < idx {
                        assert(set@[b] == set0[b]);
                    } else {
                        assert(set@[b] == set0[b + 1]);
                    }
                }
            }
            return true;
        }
        i = i + 1;
    }
    proof {
        crate::arpeggiator::timed::lemma_keys_without_absent(set@, n);
    }
    false
}

} // verus!
