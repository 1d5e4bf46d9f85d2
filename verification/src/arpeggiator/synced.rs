//! The clock-synchronised mode state machines: chords frozen into
//! arpeggios on a debounce (press-hold), a single mutating arpeggio, and
//! the pedal recorder.

use vstd::prelude::*;
use vstd::multiset::Multiset;
use crate::midi::{self, MidiMessage, MidiOutput, CC_DAMPER_PEDAL};
use crate::arpeggio::{step_on_msgs, transpose_step, NoteDetails, Step};
use crate::arpeggio::synced::{Arpeggio, LastStep, Player};
use crate::settings::Settings;
use crate::status::StatusSignal;
use crate::midi::MidiReceiver;
use crate::presets::Preset;

verus! {

/// Debounce before a freshly struck chord is frozen, in milliseconds.
pub const TRIGGER_TIME_MS: u64 = 50;

/// A bound on how many held-note entries a mode keeps: the largest count
/// whose one-step-per-note arpeggio, at a beat of ticks per step, still
/// fits tick arithmetic.
pub const HELD_CAP: usize = usize::MAX / 24;

/// Anything bounded by the caps can be spread over whole beats without
/// overflowing tick arithmetic.
pub(crate) proof fn lemma_cap_times_beat(n: int)
    requires
        0 <= n <= usize::MAX as int / 24,
    ensures
        n * 24 <= usize::MAX as int,
{
    vstd::arithmetic::div_mod::lemma_fundamental_div_mod(usize::MAX as int, 24);
    vstd::arithmetic::mul::lemma_mul_inequality(n, usize::MAX as int / 24, 24);
}

/// The notes all players of a list have sounding.
pub open spec fn players_sounding<K>(s: Seq<(K, Player)>) -> Multiset<(u8, u8)>
    decreases s.len(),
{
    if s.len() == 0 {
        Multiset::empty()
    } else {
        players_sounding(s.drop_last()).add(s.last().1.sounding())
    }
}

pub open spec fn players_wf<K>(s: Seq<(K, Player)>) -> bool {
    forall|i: int| 0 <= i < s.len() ==> (#[trigger] s[i]).1.wf()
}

/// One tick over a whole player list, as a value: the players that stay,
/// in order, each one tick later.
pub open spec fn sweep_keep<K>(s: Seq<(K, Player)>) -> Seq<(K, Player)>
    decreases s.len(),
{
    if s.len() == 0 {
        Seq::empty()
    } else {
        (if s[0].1.spec_tick_live() {
            seq![(s[0].0, s[0].1.spec_tick_state())]
        } else {
            Seq::empty()
        }) + sweep_keep(s.drop_first())
    }
}

/// What one tick over a whole player list emits, in order.
pub open spec fn sweep_msgs<K>(s: Seq<(K, Player)>) -> Seq<MidiMessage>
    decreases s.len(),
{
    if s.len() == 0 {
        Seq::empty()
    } else {
        s[0].1.spec_tick_msgs() + sweep_msgs(s.drop_first())
    }
}

/// The sweep splits over concatenation.
proof fn lemma_sweep_concat<K>(a: Seq<(K, Player)>, b: Seq<(K, Player)>)
    ensures
        sweep_keep(a + b) == sweep_keep(a) + sweep_keep(b),
        sweep_msgs(a + b) == sweep_msgs(a) + sweep_msgs(b),
    decreases a.len(),
{
    if a.len() == 0 {
        assert(a + b =~= b);
        assert(sweep_keep(a) + sweep_keep(b) =~= sweep_keep(b));
        assert(sweep_msgs(a) + sweep_msgs(b) =~= sweep_msgs(b));
    } else {
        assert((a + b)[0] == a[0]);
        assert((a + b).drop_first() =~= a.drop_first() + b);
        lemma_sweep_concat(a.drop_first(), b);
        assert(sweep_keep(a + b) =~= sweep_keep(a) + sweep_keep(b));
        assert(sweep_msgs(a + b) =~= sweep_msgs(a) + sweep_msgs(b));
    }
}

/// Front decomposition of a player list's sounding notes.
proof fn lemma_players_sounding_first<K>(s: Seq<(K, Player)>)
    requires
        s.len() >= 1,
    ensures
        players_sounding(s) == s[0].1.sounding().add(players_sounding(s.drop_first())),
    decreases s.len(),
{
    if s.len() == 1 {
        assert(s.drop_last() =~= Seq::<(K, Player)>::empty());
        assert(s.drop_first() =~= Seq::<(K, Player)>::empty());
        assert(players_sounding(s) == players_sounding(s.drop_last()).add(s.last().1.sounding()));
        assert(Multiset::<(u8, u8)>::empty().add(s.last().1.sounding()) =~= s[0].1.sounding().add(
            Multiset::<(u8, u8)>::empty(),
        ));
    } else {
        lemma_players_sounding_first(s.drop_last());
        assert(s.drop_last().drop_first() =~= s.drop_first().drop_last());
        assert(s.drop_last()[0] == s[0]);
        assert(s.drop_first().last() == s.last());
        assert(s[0].1.sounding().add(players_sounding(s.drop_first().drop_last())).add(
            s.last().1.sounding(),
        ) =~= s[0].1.sounding().add(players_sounding(s.drop_first())));
    }
}

/// Step every player of the list one tick forward, in order, removing
/// the ones that have finished: exactly one `play_tick` per entry, a
/// player dropped exactly when its tick reported it finished, and the
/// emission is exactly the concatenation of the per-player emissions.
fn tick_players<K>(players: &mut Vec<(K, Player)>, out: &mut MidiOutput)
    requires
        players_wf(old(players)@),
    ensures
        players_wf(final(players)@),
        final(players)@.len() <= old(players)@.len(),
        final(players)@ == sweep_keep(old(players)@),
        final(out)@ == old(out)@ + sweep_msgs(old(players)@),
        forall|j: int|
            0 <= j < final(players)@.len() ==> exists|i: int|
                0 <= i < old(players)@.len() && (#[trigger] final(players)@[j]).1.ticks@ == old(
                    players,
                )@[i].1.ticks@ + 1,
        ({
            let emitted = final(out)@.subrange(old(out)@.len() as int, final(out)@.len() as int);
            &&& final(out)@ == old(out)@ + emitted
            &&& midi::live_after(players_sounding(old(players)@), emitted) == players_sounding(
                final(players)@,
            )
            &&& midi::offs_covered(players_sounding(old(players)@), emitted)
        }),
{
    let ghost s0 = players_sounding(players@);
    let ghost start = out@;
    let mut pending: Vec<(K, Player)> = Vec::new();
    core::mem::swap(players, &mut pending);
    let ghost mut consumed: int = 0;
    proof {
        assert(out@.subrange(start.len() as int, out@.len() as int) =~= Seq::<
            MidiMessage,
        >::empty());
        assert(players_sounding(players@) =~= Multiset::<(u8, u8)>::empty());
        assert(Multiset::<(u8, u8)>::empty().add(players_sounding(pending@)) =~= players_sounding(
            pending@,
        ));
        assert(pending@ =~= old(players)@.skip(0));
        assert(players@ =~= sweep_keep(old(players)@.take(0)));
        assert(out@.subrange(start.len() as int, out@.len() as int) =~= sweep_msgs(
            old(players)@.take(0),
        ));
    }
    while pending.len() > 0
        invariant
            players_wf(players@),
            players_wf(pending@),
            players@.len() + pending@.len() <= old(players)@.len(),
            0 <= consumed <= old(players)@.len(),
            pending@ == old(players)@.skip(consumed),
            players@ == sweep_keep(old(players)@.take(consumed)),
            out@.subrange(start.len() as int, out@.len() as int) == sweep_msgs(
                old(players)@.take(consumed),
            ),
            forall|j: int|
                0 <= j < players@.len() ==> exists|i: int|
                    0 <= i < old(players)@.len() && (#[trigger] players@[j]).1.ticks@ == old(
                        players,
                    )@[i].1.ticks@ + 1,
            start.len() <= out@.len(),
            out@.subrange(0, start.len() as int) == start,
            midi::live_after(s0, out@.subrange(start.len() as int, out@.len() as int))
                == players_sounding(players@).add(players_sounding(pending@)),
            midi::offs_covered(s0, out@.subrange(start.len() as int, out@.len() as int)),
        decreases pending@.len(),
    {
        let ghost emitted0 = out@.subrange(start.len() as int, out@.len() as int);
        let ghost pend0 = pending@;
        proof {
            lemma_players_sounding_first(pend0);
        }
        let (note_set, mut player) = pending.remove(0);
        let ghost p_before = player.sounding();
        let ghost p_ticks = player.ticks@;
        let ghost others = players_sounding(players@).add(players_sounding(pending@));
        proof {
            assert(pending@ =~= pend0.drop_first());
            assert(pend0.drop_first() =~= old(players)@.skip(consumed + 1));
            assert(pend0[0] == old(players)@[consumed]);
            assert(players_sounding(players@).add(players_sounding(pend0)) =~= p_before.add(
                others,
            ));
        }
        let ghost p_pre = player;
        let live = player.play_tick(out);
        let ghost p_after = player.sounding();
        proof {
            let m = out@.subrange(start.len() as int + emitted0.len(), out@.len() as int);
            midi::lemma_step_accounting(s0, emitted0, m, others, p_before, p_after);
            assert(out@.subrange(start.len() as int, out@.len() as int) =~= emitted0 + m);
            assert(out@.subrange(0, start.len() as int) =~= start);
            assert(old(players)@.take(consumed + 1) =~= old(players)@.take(consumed) + seq![
                old(players)@[consumed],
            ]);
            lemma_sweep_concat(old(players)@.take(consumed), seq![old(players)@[consumed]]);
            assert(seq![old(players)@[consumed]].drop_first() =~= Seq::<(K, Player)>::empty());
            assert(seq![old(players)@[consumed]][0] == (note_set, p_pre));
            assert(sweep_keep(Seq::<(K, Player)>::empty()) =~= Seq::<(K, Player)>::empty());
            assert(sweep_msgs(Seq::<(K, Player)>::empty()) =~= Seq::<MidiMessage>::empty());
            assert(m == p_pre.spec_tick_msgs());
            assert(sweep_msgs(seq![old(players)@[consumed]]) =~= p_pre.spec_tick_msgs());
            assert(out@.subrange(start.len() as int, out@.len() as int) =~= sweep_msgs(
                old(players)@.take(consumed + 1),
            ));
        }
        if live {
            let ghost pre = players@;
            players.push((note_set, player));
            proof {
                assert(players@.drop_last() =~= pre);
                assert(players_sounding(players@) == players_sounding(pre).add(p_after));
                assert(players_sounding(pre).add(p_after).add(players_sounding(pending@))
                    =~= p_after.add(others));
                assert(players@[players@.len() - 1].1.ticks@ == old(players)@[consumed].1.ticks@
                    + 1);
                assert(player == p_pre.spec_tick_state());
                assert(sweep_keep(seq![old(players)@[consumed]]) =~= seq![(note_set, player)]);
                assert(players@ =~= sweep_keep(old(players)@.take(consumed + 1)));
            }
        } else {
            proof {
                assert(p_after == Multiset::<(u8, u8)>::empty());
                assert(p_after.add(others) =~= players_sounding(players@).add(
                    players_sounding(pending@),
                ));
                assert(sweep_keep(seq![old(players)@[consumed]]) =~= Seq::<(K, Player)>::empty());
                assert(players@ =~= sweep_keep(old(players)@.take(consumed + 1)));
            }
        }
        proof {
            consumed = consumed + 1;
        }
    }
    proof {
        assert(players_sounding(players@).add(players_sounding(pending@)) =~= players_sounding(
            players@,
        ));
        assert(old(players)@.take(consumed) =~= old(players)@);
    }
}

/// The note details of a held-note map, in list order.
pub open spec fn held_notes_of(s: Seq<(u8, (u64, NoteDetails))>) -> Seq<NoteDetails> {
    Seq::new(s.len(), |i: int| s[i].1.1)
}

/// The earliest press time in a held-note map.
pub open spec fn min_press(s: Seq<(u8, (u64, NoteDetails))>) -> u64
    decreases s.len(),
{
    if s.len() <= 1 {
        if s.len() == 0 {
            0u64
        } else {
            s[0].1.0
        }
    } else {
        let rest = min_press(s.drop_last());
        if s.last().1.0 < rest {
            s.last().1.0
        } else {
            rest
        }
    }
}

/// The first entry of a held-note map carrying the pitch, if any.
pub open spec fn find_pitch(s: Seq<(u8, (u64, NoteDetails))>, n: u8) -> Option<int>
    decreases s.len(),
{
    if s.len() == 0 {
        None
    } else if s[0].0 == n {
        Some(0int)
    } else {
        match find_pitch(s.drop_first(), n) {
            Some(i) => Some(i + 1),
            None => None,
        }
    }
}

/// A press recorded into a held-note map: it replaces the pitch's entry,
/// or is appended while the map is under its bound.
pub open spec fn spec_hold(
    s: Seq<(u8, (u64, NoteDetails))>,
    n: u8,
    entry: (u64, NoteDetails),
) -> Seq<(u8, (u64, NoteDetails))> {
    match find_pitch(s, n) {
        Some(i) => s.update(i, (n, entry)),
        None => if s.len() < HELD_CAP {
            s.push((n, entry))
        } else {
            s
        },
    }
}

/// A held-note map with every entry of one pitch dropped.
pub open spec fn held_without(s: Seq<(u8, (u64, NoteDetails))>, n: u8) -> Seq<(
    u8,
    (u64, NoteDetails),
)>
    decreases s.len(),
{
    if s.len() == 0 {
        Seq::empty()
    } else {
        held_without(s.drop_last(), n) + (if s.last().0 == n {
            Seq::empty()
        } else {
            seq![s.last()]
        })
    }
}

/// A pitch list with every occurrence of one pitch dropped.
pub open spec fn pitches_without(s: Seq<u8>, n: u8) -> Seq<u8>
    decreases s.len(),
{
    if s.len() == 0 {
        Seq::empty()
    } else {
        pitches_without(s.drop_last(), n) + (if s.last() == n {
            Seq::empty()
        } else {
            seq![s.last()]
        })
    }
}

/// Dropping an absent pitch changes nothing.
pub proof fn lemma_pitches_without_absent(s: Seq<u8>, n: u8)
    requires
        !s.contains(n),
    ensures
        pitches_without(s, n) == s,
    decreases s.len(),
{
    if s.len() > 0 {
        assert(s.last() != n);
        assert(!s.drop_last().contains(n)) by {
            if s.drop_last().contains(n) {
                let i = choose|i: int| 0 <= i < s.len() - 1 && (#[trigger] s.drop_last()[i]) == n;
                assert(s[i] == n);
            }
        }
        lemma_pitches_without_absent(s.drop_last(), n);
        assert(pitches_without(s, n) =~= s);
    } else {
        assert(pitches_without(s, n) =~= s);
    }
}

/// A held-note map with every listed pitch released, in list order.
pub open spec fn held_without_all(s: Seq<(u8, (u64, NoteDetails))>, ns: Seq<u8>) -> Seq<(
    u8,
    (u64, NoteDetails),
)>
    decreases ns.len(),
{
    if ns.len() == 0 {
        s
    } else {
        held_without(held_without_all(s, ns.drop_last()), ns.last())
    }
}

/// A note list with every listed pitch released, in list order.
pub open spec fn drop_pitch_notes_all(s: Seq<NoteDetails>, ns: Seq<u8>) -> Seq<NoteDetails>
    decreases ns.len(),
{
    if ns.len() == 0 {
        s
    } else {
        drop_pitch_notes(drop_pitch_notes_all(s, ns.drop_last()), ns.last())
    }
}

/// A trigger set with every listed pitch released, in list order.
pub open spec fn pitches_without_all(s: Seq<u8>, ns: Seq<u8>) -> Seq<u8>
    decreases ns.len(),
{
    if ns.len() == 0 {
        s
    } else {
        pitches_without(pitches_without_all(s, ns.drop_last()), ns.last())
    }
}

/// How one release reshapes one running player: the pitch leaves its
/// trigger set, and a set the release empties marks its player stopping.
pub open spec fn released_entry(e0: (Vec<u8>, Player), e1: (Vec<u8>, Player), n: u8) -> bool {
    &&& e1.0@ == pitches_without(e0.0@, n)
    &&& e1.1 == (if e0.0@.len() > 0 && pitches_without(e0.0@, n).len() == 0 {
        e0.1.spec_stopped()
    } else {
        e0.1
    })
}

/// [`released_entry`], folded over a whole list of released pitches.
pub open spec fn released_entry_all(e0: (Vec<u8>, Player), e1: (Vec<u8>, Player), ns: Seq<u8>) -> bool {
    &&& e1.0@ == pitches_without_all(e0.0@, ns)
    &&& e1.1 == (if e0.0@.len() > 0 && pitches_without_all(e0.0@, ns).len() == 0 {
        e0.1.spec_stopped()
    } else {
        e0.1
    })
}

/// Releasing a list of pitches is empty of effect on an empty set.
proof fn lemma_pitches_without_all_empty(ns: Seq<u8>)
    ensures
        pitches_without_all(Seq::<u8>::empty(), ns) == Seq::<u8>::empty(),
    decreases ns.len(),
{
    if ns.len() > 0 {
        lemma_pitches_without_all_empty(ns.drop_last());
        assert(pitches_without(Seq::<u8>::empty(), ns.last()) =~= Seq::<u8>::empty());
    }
}

/// One more release composes onto a fold of releases.
proof fn lemma_release_compose(
    e0: (Vec<u8>, Player),
    e1: (Vec<u8>, Player),
    e2: (Vec<u8>, Player),
    ns: Seq<u8>,
    n: u8,
)
    requires
        released_entry_all(e0, e1, ns),
        released_entry(e1, e2, n),
    ensures
        released_entry_all(e0, e2, ns.push(n)),
{
    assert(ns.push(n).drop_last() =~= ns);
    assert(ns.push(n).last() == n);
    assert(pitches_without_all(e0.0@, ns.push(n)) == pitches_without(e1.0@, n));
    if e0.0@.len() == 0 {
        assert(e0.0@ =~= Seq::<u8>::empty());
        lemma_pitches_without_all_empty(ns);
        assert(e1.0@ =~= Seq::<u8>::empty());
        assert(pitches_without(e1.0@, n) =~= Seq::<u8>::empty());
    }
}

/// The first matching index determines [`find_pitch`].
pub(crate) proof fn lemma_find_pitch_at(s: Seq<(u8, (u64, NoteDetails))>, n: u8, i: int)
    requires
        0 <= i < s.len(),
        s[i].0 == n,
        forall|j: int| 0 <= j < i ==> (#[trigger] s[j]).0 != n,
    ensures
        find_pitch(s, n) == Some(i),
    decreases i,
{
    if i > 0 {
        assert(s[0].0 != n);
        assert(forall|j: int|
            0 <= j < s.len() - 1 ==> #[trigger] s.drop_first()[j] == s[j + 1]);
        lemma_find_pitch_at(s.drop_first(), n, i - 1);
    }
}

/// A pitch held nowhere is not found.
pub(crate) proof fn lemma_find_pitch_none(s: Seq<(u8, (u64, NoteDetails))>, n: u8)
    requires
        forall|j: int| 0 <= j < s.len() ==> (#[trigger] s[j]).0 != n,
    ensures
        find_pitch(s, n) is None,
    decreases s.len(),
{
    if s.len() > 0 {
        assert(forall|j: int|
            0 <= j < s.len() - 1 ==> #[trigger] s.drop_first()[j] == s[j + 1]);
        lemma_find_pitch_none(s.drop_first(), n);
    }
}

/// A note list with every entry of one pitch dropped.
pub open spec fn drop_pitch_notes(s: Seq<NoteDetails>, n: u8) -> Seq<NoteDetails>
    decreases s.len(),
{
    if s.len() == 0 {
        Seq::empty()
    } else {
        drop_pitch_notes(s.drop_last(), n) + (if s.last().n == n {
            Seq::empty()
        } else {
            seq![s.last()]
        })
    }
}

/// One one-note step per held note, in press order.
pub open spec fn one_note_steps(held: Seq<NoteDetails>) -> Seq<Seq<NoteDetails>> {
    Seq::new(held.len(), |i: int| seq![held[i]])
}

/// The doubling offsets a settings record configures.
pub open spec fn spec_doubling(settings: Settings) -> Seq<i8> {
    match settings.double_notes {
        Some(d) => d@,
        None => Seq::<i8>::empty(),
    }
}

/// A player freshly built over a chord, as the press-hold and preset
/// modes start them: at the top of its cycle, spanning one beat, with the
/// notes spread by the settings' pattern rules.
pub open spec fn fresh_chord_player(q: Player, chord: Seq<NoteDetails>, settings: Settings) -> bool {
    &&& q.step == 0
    &&& q.wait_ticks == 0
    &&& q.should_stop == false
    &&& q.last_step is Vacant
    &&& q.ticks@ == 0
    &&& q.doubling@ == (match settings.double_notes {
        Some(d) => d@,
        None => Seq::<i8>::empty(),
    })
    &&& q.arpeggio.finish_steps == settings.finish_pattern
    &&& q.arpeggio.steps_view().len() == settings.steps_target(chord.len())
    &&& q.arpeggio.ticks_per_step == crate::arpeggio::synced::spec_ticks_per_step(
        settings.steps_target(chord.len()),
        1,
    )
    &&& crate::arpeggiator::concat_steps(q.arpeggio.steps_view())
        == crate::arpeggiator::expand_to(
        crate::arpeggiator::sort_notes(settings.pattern, chord),
        settings.steps_target(chord.len()),
    )
    &&& (forall|i: int|
        0 <= i < q.arpeggio.steps_view().len() ==> (#[trigger] q.arpeggio.steps_view()[i]) == ({
            let expanded = crate::arpeggiator::expand_to(
                crate::arpeggiator::sort_notes(settings.pattern, chord),
                settings.steps_target(chord.len()),
            );
            let s = settings.steps_target(chord.len()) as int;
            expanded.subrange(
                crate::arpeggiator::chunk_start(expanded.len() as int, s, i),
                crate::arpeggiator::chunk_start(expanded.len() as int, s, i)
                    + crate::arpeggiator::chunk_len(expanded.len() as int, s, i),
            )
        }))
}

/// Force-stop every player of the list, in order, and drop them all.
/// Everything that was sounding is switched off.
fn drain_and_force_stop_vec<K>(players: &mut Vec<(K, Player)>, out: &mut MidiOutput)
    requires
        players_wf(old(players)@),
    ensures
        final(players)@.len() == 0,
        ({
            let emitted = final(out)@.subrange(old(out)@.len() as int, final(out)@.len() as int);
            &&& final(out)@ == old(out)@ + emitted
            &&& midi::live_after(players_sounding(old(players)@), emitted) == Multiset::<(
                u8,
                u8,
            )>::empty()
            &&& midi::offs_covered(players_sounding(old(players)@), emitted)
        }),
{
    let ghost s0 = players_sounding(players@);
    let ghost start = out@;
    let mut pending: Vec<(K, Player)> = Vec::new();
    core::mem::swap(players, &mut pending);
    proof {
        assert(out@.subrange(start.len() as int, out@.len() as int) =~= Seq::<
            MidiMessage,
        >::empty());
    }
    while pending.len() > 0
        invariant
            players_wf(pending@),
            players@.len() == 0,
            start.len() <= out@.len(),
            out@.subrange(0, start.len() as int) == start,
            midi::live_after(s0, out@.subrange(start.len() as int, out@.len() as int))
                == players_sounding(pending@),
            midi::offs_covered(s0, out@.subrange(start.len() as int, out@.len() as int)),
        decreases pending@.len(),
    {
        let ghost emitted0 = out@.subrange(start.len() as int, out@.len() as int);
        let ghost pend0 = pending@;
        proof {
            lemma_players_sounding_first(pend0);
        }
        let (_note_set, mut player) = pending.remove(0);
        let ghost p_before = player.sounding();
        let ghost others = players_sounding(pending@);
        proof {
            assert(pending@ =~= pend0.drop_first());
            assert(players_sounding(pend0) =~= p_before.add(others));
        }
        player.force_stop(out);
        proof {
            let m = out@.subrange(start.len() as int + emitted0.len(), out@.len() as int);
            midi::lemma_step_accounting(
                s0,
                emitted0,
                m,
                others,
                p_before,
                Multiset::<(u8, u8)>::empty(),
            );
            assert(out@.subrange(start.len() as int, out@.len() as int) =~= emitted0 + m);
            assert(out@.subrange(0, start.len() as int) =~= start);
            assert(Multiset::<(u8, u8)>::empty().add(others) =~= others);
        }
    }
    proof {
        assert(players_sounding(pending@) =~= Multiset::<(u8, u8)>::empty());
    }
}

/// Remove every occurrence of a pitch from a note set; reports whether
/// the pitch was in the set.
fn remove_pitch(set: &mut Vec<u8>, n: u8) -> (removed: bool)
    ensures
        removed == old(set)@.contains(n),
        final(set)@.len() <= old(set)@.len(),
        final(set)@ == pitches_without(old(set)@, n),
{
    let mut kept: Vec<u8> = Vec::new();
    let mut found: bool = false;
    let total: usize = set.len();
    let mut i: usize = 0;
    while i < total
        invariant
            i <= total,
            total == old(set)@.len(),
            set@ == old(set)@,
            kept@.len() <= i,
            found == old(set)@.take(i as int).contains(n),
            kept@ == pitches_without(old(set)@.take(i as int), n),
        decreases total - i,
    {
        let x = set[i];
        proof {
            let pre = old(set)@.take(i as int);
            let cur = old(set)@.take(i + 1);
            assert(cur.drop_last() =~= pre);
            assert(cur.last() == x);
            if pre.contains(n) {
                let idx = choose|idx: int| 0 <= idx < pre.len() && (#[trigger] pre[idx]) == n;
                assert(cur[idx] == n);
            }
            if x == n {
                assert(cur[i as int] == n);
            }
            if cur.contains(n) && x != n {
                let idx = choose|idx: int| 0 <= idx < cur.len() && (#[trigger] cur[idx]) == n;
                assert(idx < i);
                assert(pre[idx] == n);
            }
        }
        if x == n {
            found = true;
            proof {
                assert(kept@ =~= pitches_without(old(set)@.take(i + 1), n));
            }
        } else {
            kept.push(x);
            proof {
                assert(kept@ =~= pitches_without(old(set)@.take(i + 1), n));
            }
        }
        i = i + 1;
    }
    proof {
        assert(old(set)@.take(total as int) =~= old(set)@);
    }
    *set = kept;
    found
}

/// Chords frozen into arpeggios: strike a chord, and once the earliest
/// still-held press is old enough, the chord becomes a new looping
/// arpeggio that plays until every note of the triggering set is
/// released (the sustain pedal defers releases).
pub struct PressHold {
    held_notes: Vec<(u8, (u64, NoteDetails))>,
    pedal_notes_off: Vec<u8>,
    pedal: bool,
    arpeggios: Vec<(Vec<u8>, Player)>,
}

/// Everything one message does to the press-hold mode: the relation
/// between its pre- and post-states, over its held, deferred and player
/// views, and the output the message appends.
pub open spec fn press_hold_step(
    pre: PressHold,
    post: PressHold,
    received: MidiMessage,
    settings: Settings,
    now: u64,
    out0: Seq<MidiMessage>,
    out1: Seq<MidiMessage>,
) -> bool {
    &&& (({
                let emitted = out1.subrange(
                    out0.len() as int,
                    out1.len() as int,
                );
                &&& out1 == out0 + emitted
                &&& midi::live_after(pre.sounding(), emitted) == post.sounding()
                &&& midi::offs_covered(pre.sounding(), emitted)
            }))
    &&& (received matches MidiMessage::Reset ==> post.sounding() == Multiset::<(
                u8,
                u8,
            )>::empty())
    &&& (received matches MidiMessage::TimingClock ==> ({
                let before = pre.player_ticks();
                let after = post.player_ticks();
                forall|j: int|
                    #![trigger after[j]]
                    0 <= j < after.len() ==> ((exists|i: int|
                        #![trigger before[i]]
                        0 <= i < before.len() && after[j] == before[i] + 1) || after[j] == 1)
            }))
    &&& (!(received matches MidiMessage::TimingClock) && !(received matches MidiMessage::Reset)
                ==> ({
                let same_ticks = post.player_ticks() == pre.player_ticks();
                let same_out = out1 == out0;
                same_ticks && same_out
            }))
    &&& (received matches MidiMessage::NoteOn { channel, note, velocity } ==> ({
                let held_after = post.held_view();
                &&& held_after == (if pre.deferred_view().contains(note) {
                    pre.held_view()
                } else {
                    spec_hold(
                        pre.held_view(),
                        note,
                        (
                            now,
                            crate::arpeggio::spec_note(
                                channel,
                                note,
                                velocity,
                                settings.fixed_velocity,
                            ),
                        ),
                    )
                })
                &&& post.deferred_view() == pitches_without(
                    pre.deferred_view(),
                    note,
                )
                &&& post.pedal_view() == pre.pedal_view()
                &&& post.players_view() == pre.players_view()
            }))
    &&& (received matches MidiMessage::NoteOff { note, .. } ==> ({
                let held_after = post.held_view();
                &&& held_after == (if pre.pedal_view() {
                    pre.held_view()
                } else {
                    held_without(pre.held_view(), note)
                })
                &&& post.pedal_view() == pre.pedal_view()
                &&& post.deferred_view() == (if pre.pedal_view() {
                    if pre.deferred_view().contains(note) {
                        pre.deferred_view()
                    } else {
                        pre.deferred_view().push(note)
                    }
                } else {
                    pre.deferred_view()
                })
                &&& post.players_view().len() == pre.players_view().len()
                &&& (pre.pedal_view() ==> post.players_view() == pre.players_view())
                &&& (!pre.pedal_view() ==> forall|i: int|
                    0 <= i < pre.players_view().len() ==> released_entry(
                        #[trigger] pre.players_view()[i],
                        post.players_view()[i],
                        note,
                    ))
            }))
    &&& (({
                match received {
                    MidiMessage::ControlChange { control, value, .. } => control
                        == CC_DAMPER_PEDAL ==> ({
                        let down = value >= 64;
                        let replay = pre.pedal_view() && !down;
                        &&& post.pedal_view() == down
                        &&& post.held_view() == (if replay {
                            held_without_all(pre.held_view(), pre.deferred_view())
                        } else {
                            pre.held_view()
                        })
                        &&& post.deferred_view() == (if replay {
                            Seq::<u8>::empty()
                        } else {
                            pre.deferred_view()
                        })
                        &&& post.players_view().len() == pre.players_view().len()
                        &&& (replay ==> forall|i: int|
                            0 <= i < pre.players_view().len() ==> released_entry_all(
                                #[trigger] pre.players_view()[i],
                                post.players_view()[i],
                                pre.deferred_view(),
                            ))
                        &&& (!replay ==> post.players_view() == pre.players_view())
                    }),
                    _ => true,
                }
            }))
    &&& ((match received {
                MidiMessage::NoteOn { .. } => false,
                MidiMessage::NoteOff { .. } => false,
                MidiMessage::TimingClock => false,
                MidiMessage::Reset => false,
                MidiMessage::ControlChange { control, .. } => control != CC_DAMPER_PEDAL,
                _ => true,
            }) ==> post == pre)
    &&& (received matches MidiMessage::TimingClock ==> post.deferred_view() == pre.deferred_view() && post.pedal_view() == pre.pedal_view())
    &&& (received matches MidiMessage::Reset ==> post.deferred_view() == pre.deferred_view() && post.pedal_view() == pre.pedal_view())
    &&& (received matches MidiMessage::TimingClock ==> ({
                let held0 = pre.held_view();
                let players0 = pre.players_view();
                let players1 = post.players_view();
                let held1 = post.held_view();
                let trig = held0.len() > 0 && (now - min_press(held0)) / 1000 > TRIGGER_TIME_MS;
                &&& !trig ==> players1 == sweep_keep(players0) && out1 == out0
                    + sweep_msgs(players0) && held1 == held0
                &&& trig ==> held1.len() == 0 && (exists|fresh: (Vec<u8>, Player)|
                    #![trigger sweep_keep(players0.push(fresh))]
                    fresh_chord_player(fresh.1, held_notes_of(held0), settings) && (forall|
                        pp: u8,
                    |
                        (#[trigger] fresh.0@.contains(pp)) <==> (exists|i: int|
                            0 <= i < held0.len() && (#[trigger] held0[i]).0 == pp)) && players1
                        == sweep_keep(players0.push(fresh)) && out1 == out0
                        + sweep_msgs(players0.push(fresh)))
            }))
    &&& (received matches MidiMessage::Reset ==> ({
                let cleared = post.held_view().len() == 0;
                let dropped = post.count_arpeggios_spec() == 0;
                cleared && dropped
            }))
}

impl PressHold {
    pub closed spec fn inv(&self) -> bool {
        &&& players_wf(self.arpeggios@)
        &&& self.held_notes@.len() <= HELD_CAP
        &&& forall|i: int, j: int|
            0 <= i < j < self.held_notes@.len() ==> (#[trigger] self.held_notes@[i]).0 != (
            #[trigger] self.held_notes@[j]).0
    }

    /// All press timestamps are in the past of `now`.
    pub closed spec fn time_wf(&self, now: u64) -> bool {
        forall|i: int|
            0 <= i < self.held_notes@.len() ==> (#[trigger] self.held_notes@[i]).1.0 <= now
    }

    /// The notes this mode's players have sounding.
    pub closed spec fn sounding(&self) -> Multiset<(u8, u8)> {
        players_sounding(self.arpeggios@)
    }

    /// The held-note map: pitch, press time and note, in press order.
    pub closed spec fn held_view(&self) -> Seq<(u8, (u64, NoteDetails))> {
        self.held_notes@
    }

    /// The running players with their trigger sets, in start order.
    pub closed spec fn players_view(&self) -> Seq<(Vec<u8>, Player)> {
        self.arpeggios@
    }

    /// The releases deferred while the pedal is down.
    pub closed spec fn deferred_view(&self) -> Seq<u8> {
        self.pedal_notes_off@
    }

    pub closed spec fn pedal_view(&self) -> bool {
        self.pedal
    }

    pub fn new() -> (r: PressHold)
        ensures
            r.inv(),
            forall|t: u64| r.time_wf(t),
            r.sounding() == Multiset::<(u8, u8)>::empty(),
            r.count_arpeggios_spec() == 0,
    {
        PressHold {
            held_notes: Vec::new(),
            pedal: false,
            pedal_notes_off: Vec::new(),
            arpeggios: Vec::new(),
        }
    }

    pub closed spec fn count_arpeggios_spec(&self) -> int {
        self.arpeggios@.len() as int
    }

    /// The tick counts of the running players, in list order.
    pub closed spec fn player_ticks(&self) -> Seq<nat> {
        Seq::new(self.arpeggios@.len(), |i: int| self.arpeggios@[i].1.ticks@)
    }

    /// Forget a pitch: it leaves the held map and every player's trigger
    /// set; a player whose set empties is asked to stop.
    fn release_note(&mut self, n: u8)
        requires
            old(self).inv(),
        ensures
            final(self).inv(),
            final(self).sounding() == old(self).sounding(),
            final(self).count_arpeggios_spec() == old(self).count_arpeggios_spec(),
            final(self).held_notes@ == held_without(old(self).held_notes@, n),
            final(self).player_ticks() == old(self).player_ticks(),
            final(self).pedal == old(self).pedal,
            final(self).pedal_notes_off@ == old(self).pedal_notes_off@,
            forall|t: u64| old(self).time_wf(t) ==> final(self).time_wf(t),
            final(self).arpeggios@.len() == old(self).arpeggios@.len(),
            forall|i: int|
                0 <= i < old(self).arpeggios@.len() ==> released_entry(
                    #[trigger] old(self).arpeggios@[i],
                    final(self).arpeggios@[i],
                    n,
                ),
    {
        let mut kept: Vec<(u8, (u64, NoteDetails))> = Vec::new();
        let total: usize = self.held_notes.len();
        let mut i: usize = 0;
        while i < total
            invariant
                i <= total,
                total == self.held_notes@.len(),
                kept@.len() <= i,
                kept@ == held_without(self.held_notes@.take(i as int), n),
                forall|a: int, b: int|
                    0 <= a < b < self.held_notes@.len() ==> (#[trigger] self.held_notes@[a]).0 != (
                    #[trigger] self.held_notes@[b]).0,
                forall|a: int|
                    0 <= a < kept@.len() ==> exists|b: int|
                        0 <= b < i && #[trigger] kept@[a] == self.held_notes@[b],
                forall|a: int, b: int|
                    0 <= a < b < kept@.len() ==> (#[trigger] kept@[a]).0 != (#[trigger] kept@[b]).0,
            decreases total - i,
        {
            let entry = self.held_notes[i];
            proof {
                assert(self.held_notes@.take(i + 1).drop_last() =~= self.held_notes@.take(
                    i as int,
                ));
                assert(self.held_notes@.take(i + 1).last() == entry);
            }
            if entry.0 != n {
                proof {
                    assert(forall|a: int|
                        0 <= a < kept@.len() ==> (#[trigger] kept@[a]).0 != entry.0);
                }
                kept.push(entry);
                proof {
                    assert(kept@ =~= held_without(self.held_notes@.take(i + 1), n));
                }
            } else {
                proof {
                    assert(kept@ =~= held_without(self.held_notes@.take(i + 1), n));
                }
            }
            i = i + 1;
        }
        proof {
            assert(self.held_notes@.take(total as int) =~= self.held_notes@);
        }
        self.held_notes = kept;
        let ghost held1 = self.held_notes@;
        let ghost defer1 = self.pedal_notes_off@;
        let ghost s0 = players_sounding(self.arpeggios@);
        let mut pending: Vec<(Vec<u8>, Player)> = Vec::new();
        core::mem::swap(&mut self.arpeggios, &mut pending);
        let ghost mut consumed: int = 0;
        proof {
            assert(players_sounding(self.arpeggios@) =~= Multiset::<(u8, u8)>::empty());
            assert(Multiset::<(u8, u8)>::empty().add(players_sounding(pending@))
                =~= players_sounding(pending@));
            assert(pending@ =~= old(self).arpeggios@.skip(0));
        }
        while pending.len() > 0
            invariant
                players_wf(self.arpeggios@),
                players_wf(pending@),
                0 <= consumed <= old(self).arpeggios@.len(),
                pending@ == old(self).arpeggios@.skip(consumed),
                self.arpeggios@.len() == consumed,
                forall|j: int|
                    0 <= j < consumed ==> (#[trigger] self.arpeggios@[j]).1.ticks@ == old(
                        self,
                    ).arpeggios@[j].1.ticks@,
                forall|j: int|
                    0 <= j < consumed ==> released_entry(
                        #[trigger] old(self).arpeggios@[j],
                        self.arpeggios@[j],
                        n,
                    ),
                players_sounding(self.arpeggios@).add(players_sounding(pending@)) == s0,
                self.held_notes@ == held1,
                self.pedal == old(self).pedal,
                self.pedal_notes_off@ == defer1,
            decreases pending@.len(),
        {
            let ghost pend0 = pending@;
            proof {
                lemma_players_sounding_first(pend0);
            }
            let (mut note_set, mut player) = pending.remove(0);
            let ghost e0 = (note_set, player);
            let ghost set0 = note_set@;
            let ghost p_sound = player.sounding();
            let ghost p_ticks = player.ticks@;
            proof {
                assert(pending@ =~= pend0.drop_first());
                assert(pend0.drop_first() =~= old(self).arpeggios@.skip(consumed + 1));
                assert(pend0[0] == old(self).arpeggios@[consumed]);
            }
            let ghost others = players_sounding(self.arpeggios@).add(players_sounding(pending@));
            let removed = remove_pitch(&mut note_set, n);
            if removed && note_set.len() == 0 {
                player.stop();
            }
            proof {
                if !removed {
                    lemma_pitches_without_absent(set0, n);
                }
                assert(released_entry(e0, (note_set, player), n));
            }
            let ghost pre = self.arpeggios@;
            self.arpeggios.push((note_set, player));
            proof {
                assert(self.arpeggios@.drop_last() =~= pre);
                assert(players_sounding(self.arpeggios@) == players_sounding(pre).add(p_sound));
                assert(players_sounding(pre).add(p_sound).add(players_sounding(pending@)) =~= s0);
                assert(self.arpeggios@[consumed].1.ticks@ == old(self).arpeggios@[consumed
                ].1.ticks@);
                assert(released_entry(old(self).arpeggios@[consumed], self.arpeggios@[consumed], n));
                consumed = consumed + 1;
            }
        }
        proof {
            assert(players_sounding(self.arpeggios@).add(players_sounding(pending@))
                =~= players_sounding(self.arpeggios@));
            assert(self.player_ticks() =~= old(self).player_ticks());
        }
    }

    /// Feed one message to the mode.  The emitted output switches the
    /// mode's sounding notes from the old state to the new and never
    /// switches off a silent note; on reset everything is silenced.
    #[verifier::rlimit(100)]
    pub fn process<SS: StatusSignal>(
        &mut self,
        received: MidiMessage,
        settings: &Settings,
        now: u64,
        out: &mut MidiOutput,
        status: &mut SS,
    )
        requires
            old(self).inv(),
            old(self).time_wf(now),
            received.wf(),
            settings.wf(),
            <SS as MidiReceiver>::inv(old(status)),
        ensures
            final(self).inv(),

            final(self).time_wf(now),

            <SS as MidiReceiver>::inv(final(status)),
            press_hold_step(*old(self), *final(self), received, *settings, now, old(out)@, final(out)@),
            ({
                let pulses: nat = (match received {
                    MidiMessage::TimingClock => if old(self).held_view().len() > 0 && (now
                        - min_press(old(self).held_view())) / 1000 > TRIGGER_TIME_MS {
                        1nat
                    } else {
                        0nat
                    },
                    _ => 0nat,
                });
                final(status).beat_resets() == old(status).beat_resets() + pulses
            }),

    {
        let ghost start = out@;
        match received {
            MidiMessage::ControlChange { channel: _, control: CC_DAMPER_PEDAL, value } => {
                let new_pedal: bool = value >= 64;
                if self.pedal != new_pedal {
                    self.pedal = new_pedal;
                    if !self.pedal {
                        // pedal released: release everything deferred
                        let mut to_release: Vec<u8> = Vec::new();
                        core::mem::swap(&mut self.pedal_notes_off, &mut to_release);
                        let total: usize = to_release.len();
                        let mut i: usize = 0;
                        proof {
                            assert(to_release@.take(0) =~= Seq::<u8>::empty());
                        }
                        while i < total
                            invariant
                                i <= total,
                                total == to_release@.len(),
                                self.inv(),
                                self.sounding() == old(self).sounding(),
                                self.count_arpeggios_spec() == old(self).count_arpeggios_spec(),
                                self.player_ticks() == old(self).player_ticks(),
                                forall|t: u64| old(self).time_wf(t) ==> self.time_wf(t),
                                self.pedal == false,
                                self.pedal_notes_off@.len() == 0,
                                self.held_notes@ == held_without_all(
                                    old(self).held_notes@,
                                    to_release@.take(i as int),
                                ),
                                self.arpeggios@.len() == old(self).arpeggios@.len(),
                                forall|j: int|
                                    0 <= j < old(self).arpeggios@.len() ==> released_entry_all(
                                        #[trigger] old(self).arpeggios@[j],
                                        self.arpeggios@[j],
                                        to_release@.take(i as int),
                                    ),
                            decreases total - i,
                        {
                            let ghost mid = *self;
                            let n = to_release[i];
                            self.release_note(n);
                            proof {
                                assert(to_release@.take(i + 1).drop_last() =~= to_release@.take(
                                    i as int,
                                ));
                                assert(to_release@.take(i + 1).last() == n);
                                assert(self.held_notes@ == held_without_all(
                                    old(self).held_notes@,
                                    to_release@.take(i + 1),
                                ));
                                assert forall|j: int|
                                    0 <= j < old(self).arpeggios@.len() implies released_entry_all(
                                    #[trigger] old(self).arpeggios@[j],
                                    self.arpeggios@[j],
                                    to_release@.take(i + 1),
                                ) by {
                                    lemma_release_compose(
                                        old(self).arpeggios@[j],
                                        mid.arpeggios@[j],
                                        self.arpeggios@[j],
                                        to_release@.take(i as int),
                                        n,
                                    );
                                }
                            }
                            i = i + 1;
                        }
                        proof {
                            assert(to_release@.take(total as int) =~= to_release@);
                            assert(self.pedal_notes_off@ =~= Seq::<u8>::empty());
                        }
                    }
                }
                proof {
                    assert(out@.subrange(start.len() as int, out@.len() as int) =~= Seq::<
                        MidiMessage,
                    >::empty());
                    assert(out@ =~= start);
                }
            },
            MidiMessage::NoteOn { channel, note, velocity } => {
                let deferred = remove_pitch(&mut self.pedal_notes_off, note);
                if deferred {
                    // re-pressing a note the pedal is holding: cancel its
                    // deferred release instead of recording a new press
                } else {
                    self.hold_note(channel, note, velocity, settings, now);
                }
                proof {
                    assert(out@.subrange(start.len() as int, out@.len() as int) =~= Seq::<
                        MidiMessage,
                    >::empty());
                    assert(out@ =~= start);
                }
            },
            MidiMessage::NoteOff { note, .. } => {
                if self.pedal {
                    // defer the release until the pedal comes up
                    if !crate::presets::contains_pitch(&self.pedal_notes_off, note) {
                        self.pedal_notes_off.push(note);
                    }
                } else {
                    self.release_note(note);
                }
                proof {
                    assert(out@.subrange(start.len() as int, out@.len() as int) =~= Seq::<
                        MidiMessage,
                    >::empty());
                    assert(out@ =~= start);
                }
            },
            MidiMessage::TimingClock => {
                let ghost trig = old(self).held_notes@.len() > 0 && (now - min_press(
                    old(self).held_notes@,
                )) / 1000 > TRIGGER_TIME_MS;
                if self.held_notes.len() != 0 {
                    let earliest = self.earliest_press();
                    if (now - earliest) / 1000 > TRIGGER_TIME_MS {
                        self.freeze_chord(settings, status);
                        proof {
                            assert(trig);
                        }
                    } else {
                        proof {
                            assert(!trig);
                        }
                    }
                } else {
                    proof {
                        assert(!trig);
                    }
                }
                proof {
                    assert(out@.subrange(start.len() as int, out@.len() as int) =~= Seq::<
                        MidiMessage,
                    >::empty());
                }
                let ghost mid = self.arpeggios@;
                proof {
                    if trig {
                        assert(mid =~= old(self).players_view().push(mid.last()));
                    } else {
                        assert(mid =~= old(self).players_view());
                    }
                }
                tick_players(&mut self.arpeggios, out);
                proof {
                    assert(out@ =~= start + sweep_msgs(mid));
                    if trig {
                        let fresh = mid.last();
                        assert(fresh_chord_player(
                            fresh.1,
                            held_notes_of(old(self).held_view()),
                            *settings,
                        ));
                        assert(self.players_view() == sweep_keep(
                            old(self).players_view().push(fresh),
                        ));
                        assert(out@ =~= start + sweep_msgs(old(self).players_view().push(fresh)));
                    } else {
                        assert(self.players_view() == sweep_keep(old(self).players_view()));
                        assert(out@ =~= start + sweep_msgs(old(self).players_view()));
                    }
                }
                proof {
                    assert forall|j: int|
                        0 <= j < self.player_ticks().len() implies (exists|i: int|
                        0 <= i < old(self).player_ticks().len() && #[trigger] self.player_ticks()[j]
                            == old(self).player_ticks()[i] + 1) || self.player_ticks()[j]
                        == 1 by {
                        let i = choose|i: int|
                            0 <= i < mid.len() && (#[trigger] self.arpeggios@[j]).1.ticks@
                                == mid[i].1.ticks@ + 1;
                        if i < old(self).arpeggios@.len() {
                            assert(mid[i] == old(self).arpeggios@[i]);
                            assert(old(self).player_ticks()[i] == old(self).arpeggios@[i].1.ticks@);
                            assert(self.player_ticks()[j] == old(self).player_ticks()[i] + 1);
                        } else {
                            assert(mid[i].1.ticks@ == 0);
                            assert(self.player_ticks()[j] == 1);
                        }
                    }
                }
            },
            MidiMessage::Reset => {
                self.held_notes = Vec::new();
                drain_and_force_stop_vec(&mut self.arpeggios, out);
            },
            _ => {
                proof {
                    assert(out@.subrange(start.len() as int, out@.len() as int) =~= Seq::<
                        MidiMessage,
                    >::empty());
                }
            },
        }
    }

    /// Record a press, overwriting any previous entry for the pitch.
    fn hold_note(&mut self, channel: u8, note: u8, velocity: u8, settings: &Settings, now: u64)
        requires
            old(self).inv(),
            old(self).time_wf(now),
            1 <= channel <= 16,
            note <= 127,
            velocity <= 127,
        ensures
            final(self).inv(),
            final(self).time_wf(now),
            final(self).sounding() == old(self).sounding(),
            final(self).count_arpeggios_spec() == old(self).count_arpeggios_spec(),
            final(self).player_ticks() == old(self).player_ticks(),
            final(self).arpeggios@ == old(self).arpeggios@,
            final(self).pedal == old(self).pedal,
            final(self).pedal_notes_off@ == old(self).pedal_notes_off@,
            final(self).held_notes@ == spec_hold(
                old(self).held_notes@,
                note,
                (now, crate::arpeggio::spec_note(channel, note, velocity, settings.fixed_velocity)),
            ),
    {
        let details = NoteDetails::new(channel, note, velocity, settings.fixed_velocity);
        let total: usize = self.held_notes.len();
        let mut i: usize = 0;
        while i < total
            invariant
                i <= total,
                total == self.held_notes@.len(),
                old(self).inv(),
                old(self).time_wf(now),
                self == old(self),
                details == crate::arpeggio::spec_note(
                    channel,
                    note,
                    velocity,
                    settings.fixed_velocity,
                ),
                forall|j: int| 0 <= j < i ==> (#[trigger] self.held_notes@[j]).0 != note,
            decreases total - i,
        {
            if self.held_notes[i].0 == note {
                proof {
                    lemma_find_pitch_at(self.held_notes@, note, i as int);
                }
                self.held_notes.set(i, (note, (now, details)));
                proof {
                    assert(forall|a: int, b: int|
                        0 <= a < b < self.held_notes@.len() ==> (
                        #[trigger] self.held_notes@[a]).0 != (#[trigger] self.held_notes@[b]).0);
                }
                return ;
            }
            i = i + 1;
        }
        proof {
            lemma_find_pitch_none(self.held_notes@, note);
        }
        if self.held_notes.len() < HELD_CAP {
            self.held_notes.push((note, (now, details)));
        }
    }

    /// The earliest press time among the held notes.
    fn earliest_press(&self) -> (r: u64)
        requires
            self.held_notes@.len() >= 1,
        ensures
            r == min_press(self.held_notes@),
            forall|i: int|
                0 <= i < self.held_notes@.len() ==> r <= (#[trigger] self.held_notes@[i]).1.0,
            exists|j: int|
                0 <= j < self.held_notes@.len() && r == (#[trigger] self.held_notes@[j]).1.0,
    {
        let total: usize = self.held_notes.len();
        let mut best: u64 = self.held_notes[0].1.0;
        let mut i: usize = 1;
        proof {
            assert(self.held_notes@.take(1)[0] == self.held_notes@[0]);
        }
        while i < total
            invariant
                1 <= i <= total,
                total == self.held_notes@.len(),
                best == min_press(self.held_notes@.take(i as int)),
                forall|j: int| 0 <= j < i ==> best <= (#[trigger] self.held_notes@[j]).1.0,
                exists|j: int|
                    0 <= j < i && best == (#[trigger] self.held_notes@[j]).1.0,
            decreases total - i,
        {
            let t = self.held_notes[i].1.0;
            proof {
                assert(self.held_notes@.take(i + 1).drop_last() =~= self.held_notes@.take(
                    i as int,
                ));
                assert(self.held_notes@.take(i + 1).last() == self.held_notes@[i as int]);
            }
            if t < best {
                best = t;
            }
            i = i + 1;
        }
        proof {
            assert(self.held_notes@.take(total as int) =~= self.held_notes@);
        }
        best
    }

    /// Drain the held notes into a fresh looping player spanning one beat.
    fn freeze_chord<SS: StatusSignal>(&mut self, settings: &Settings, status: &mut SS)
        requires
            old(self).inv(),
            old(self).held_notes@.len() >= 1,
            settings.wf(),
            <SS as MidiReceiver>::inv(old(status)),
        ensures
            final(self).inv(),
            final(self).held_notes@.len() == 0,
            final(self).sounding() == old(self).sounding(),
            final(self).arpeggios@.len() == old(self).arpeggios@.len() + 1,
            forall|i: int|
                0 <= i < old(self).arpeggios@.len() ==> #[trigger] final(self).arpeggios@[i]
                    == old(self).arpeggios@[i],
            fresh_chord_player(
                final(self).arpeggios@.last().1,
                held_notes_of(old(self).held_notes@),
                *settings,
            ),
            forall|pp: u8|
                (#[trigger] final(self).arpeggios@.last().0@.contains(pp)) <==> (exists|i: int|
                    0 <= i < old(self).held_notes@.len() && (#[trigger] old(
                        self,
                    ).held_notes@[i]).0 == pp),
            <SS as MidiReceiver>::inv(final(status)),
            final(status).beat_resets() == old(status).beat_resets() + 1,
            forall|t: u64| final(self).time_wf(t),
            final(self).pedal == old(self).pedal,
            final(self).pedal_notes_off@ == old(self).pedal_notes_off@,
    {
        let mut drained: Vec<(u8, (u64, NoteDetails))> = Vec::new();
        core::mem::swap(&mut self.held_notes, &mut drained);
        let total: usize = drained.len();
        let mut note_details: Vec<NoteDetails> = Vec::new();
        let mut note_set: Vec<u8> = Vec::new();
        let mut i: usize = 0;
        while i < total
            invariant
                i <= total,
                total == drained@.len(),
                note_details@.len() == i,
                forall|k: int| 0 <= k < i ==> #[trigger] note_details@[k] == drained@[k].1.1,
                forall|pp: u8|
                    (#[trigger] note_set@.contains(pp)) <==> (exists|k: int|
                        0 <= k < i && (#[trigger] drained@[k]).0 == pp),
            decreases total - i,
        {
            note_details.push(drained[i].1.1);
            let pitch = drained[i].0;
            let ghost set0 = note_set@;
            if !crate::presets::contains_pitch(&note_set, pitch) {
                note_set.push(pitch);
            }
            proof {
                assert forall|pp: u8|
                    (#[trigger] note_set@.contains(pp)) <==> (exists|k: int|
                        0 <= k < i + 1 && (#[trigger] drained@[k]).0 == pp) by {
                    if set0.contains(pitch) {
                        assert(note_set@ == set0);
                    } else {
                        assert(note_set@ == set0.push(pitch));
                        if set0.contains(pp) {
                            let idx = choose|idx: int|
                                0 <= idx < set0.len() && (#[trigger] set0[idx]) == pp;
                            assert(note_set@[idx] == pp);
                        }
                        if pp == pitch {
                            assert(note_set@[note_set@.len() - 1] == pp);
                        }
                        if note_set@.contains(pp) {
                            let idx = choose|idx: int|
                                0 <= idx < note_set@.len() && (#[trigger] note_set@[idx]) == pp;
                            if idx < set0.len() {
                                assert(set0[idx] == pp);
                            }
                        }
                    }
                    if exists|k: int| 0 <= k < i + 1 && (#[trigger] drained@[k]).0 == pp {
                        let k = choose|k: int|
                            0 <= k < i + 1 && (#[trigger] drained@[k]).0 == pp;
                        if k < i {
                            assert(exists|k2: int|
                                0 <= k2 < i && (#[trigger] drained@[k2]).0 == pp);
                        }
                    }
                }
            }
            i = i + 1;
        }
        proof {
            assert(note_details@ =~= held_notes_of(drained@));
            assert(settings.steps_target(note_details@.len() as nat) >= 1) by {
                if settings.fixed_steps is None && settings.fixed_notes_per_step is Some {
                    let n = note_details@.len() as int;
                    let x = settings.fixed_notes_per_step->Some_0 as int;
                    assert((n + x - 1) / x >= 1) by (nonlinear_arith)
                        requires
                            n >= 1,
                            x >= 1,
                    ;
                }
            }
        }
        let steps = settings.generate_steps(note_details);
        let arp = Arpeggio::from(steps, 1, settings.finish_pattern);
        let player = Player::init(arp, &settings.double_notes);
        let ghost pre = self.arpeggios@;
        self.arpeggios.push((note_set, player));
        status.reset_beat();
        proof {
            assert(self.arpeggios@.drop_last() =~= pre);
            assert(players_sounding(self.arpeggios@) == players_sounding(pre).add(
                player.sounding(),
            ));
            assert(players_sounding(pre).add(Multiset::<(u8, u8)>::empty()) =~= players_sounding(
                pre,
            ));
            assert(player.arpeggio.steps_view() =~= crate::arpeggiator::steps_notes(
                player.arpeggio.steps@,
            ));
            assert(fresh_chord_player(player, held_notes_of(old(self).held_notes@), *settings));
        }
    }

    /// Silence and drop every player.
    pub fn stop_arpeggios(&mut self, out: &mut MidiOutput)
        requires
            old(self).inv(),
        ensures
            final(self).inv(),
            final(self).sounding() == Multiset::<(u8, u8)>::empty(),
            final(self).count_arpeggios_spec() == 0,
            forall|t: u64| old(self).time_wf(t) ==> final(self).time_wf(t),
            ({
                let emitted = final(out)@.subrange(
                    old(out)@.len() as int,
                    final(out)@.len() as int,
                );
                &&& final(out)@ == old(out)@ + emitted
                &&& midi::live_after(old(self).sounding(), emitted) == Multiset::<(u8, u8)>::empty()
                &&& midi::offs_covered(old(self).sounding(), emitted)
            }),
    {
        drain_and_force_stop_vec(&mut self.arpeggios, out);
    }

    pub fn count_arpeggios(&self) -> (r: usize)
        ensures
            r == self.count_arpeggios_spec(),
    {
        self.arpeggios.len()
    }
}

/// A single live arpeggio whose note set mutates while it plays:
/// additions rebuild at the next tick with phase preserved; the arpeggio
/// stops only once every held note is released.
pub struct MutatingHold {
    held_notes: Vec<NoteDetails>,
    changed: bool,
    arpeggio: Option<Player>,
    pedal: bool,
    pedal_notes_off: Vec<u8>,
}

/// Everything one message does to the mutating-hold mode: the relation
/// between its pre- and post-states, over its held, deferred and player
/// views, and the output the message appends.
pub open spec fn mutating_hold_step(
    pre: MutatingHold,
    post: MutatingHold,
    received: MidiMessage,
    settings: Settings,
    out0: Seq<MidiMessage>,
    out1: Seq<MidiMessage>,
) -> bool {
    &&& (({
                let emitted = out1.subrange(
                    out0.len() as int,
                    out1.len() as int,
                );
                &&& out1 =~= out0 + emitted
                &&& midi::live_after(pre.sounding(), emitted) =~= post.sounding()
                &&& midi::offs_covered(pre.sounding(), emitted)
            }))
    &&& (received matches MidiMessage::Reset ==> post.sounding() == Multiset::<(
                u8,
                u8,
            )>::empty())
    &&& (received matches MidiMessage::TimingClock ==> (match (
                pre.player_ticks(),
                post.player_ticks(),
            ) {
                (Some(t0), Some(t1)) => t1 == t0 + 1,
                (None, Some(t1)) => t1 == 1,
                _ => true,
            }))
    &&& (!(received matches MidiMessage::TimingClock) ==> (match (
                pre.player_ticks(),
                post.player_ticks(),
            ) {
                (Some(t0), Some(t1)) => t1 == t0,
                (None, Some(_)) => false,
                _ => true,
            }))
    &&& (!(received matches MidiMessage::TimingClock) && !(received matches MidiMessage::Reset)
                ==> ({
                let same_out = out1 == out0;
                let same_player = post.player_view() == pre.player_view();
                same_out && same_player
            }))
    &&& (received matches MidiMessage::NoteOn { channel, note, velocity } ==> ({
                let held0 = pre.held_view();
                let held1 = post.held_view();
                let ch0 = pre.changed_view();
                let ch1 = post.changed_view();
                &&& (if pre.deferred_view().contains(note) {
                    held1 == held0 && ch1 == ch0
                } else {
                    held1 == (if held0.len() < HELD_CAP {
                        held0.push(
                            crate::arpeggio::spec_note(
                                channel,
                                note,
                                velocity,
                                settings.fixed_velocity,
                            ),
                        )
                    } else {
                        held0
                    }) && ch1 == (if held0.len() < HELD_CAP {
                        true
                    } else {
                        ch0
                    })
                })
                &&& post.deferred_view() == pitches_without(
                    pre.deferred_view(),
                    note,
                )
                &&& post.pedal_view() == pre.pedal_view()
            }))
    &&& (received matches MidiMessage::NoteOff { note, .. } ==> ({
                let held0 = pre.held_view();
                let held1 = post.held_view();
                let ch0 = pre.changed_view();
                let ch1 = post.changed_view();
                &&& (if pre.pedal_view() {
                    held1 == held0 && ch1 == ch0
                } else {
                    held1 == drop_pitch_notes(held0, note) && ch1 == (ch0 || held1.len() == 0)
                })
                &&& post.pedal_view() == pre.pedal_view()
                &&& post.deferred_view() == (if pre.pedal_view() {
                    if pre.deferred_view().contains(note) {
                        pre.deferred_view()
                    } else {
                        pre.deferred_view().push(note)
                    }
                } else {
                    pre.deferred_view()
                })
            }))
    &&& (({
                match received {
                    MidiMessage::ControlChange { control, value, .. } => control
                        == CC_DAMPER_PEDAL ==> ({
                        let down = value >= 64;
                        let replay = pre.pedal_view() && !down;
                        &&& post.pedal_view() == down
                        &&& post.player_view() == pre.player_view()
                        &&& post.held_view() == (if replay {
                            drop_pitch_notes_all(pre.held_view(), pre.deferred_view())
                        } else {
                            pre.held_view()
                        })
                        &&& post.deferred_view() == (if replay {
                            Seq::<u8>::empty()
                        } else {
                            pre.deferred_view()
                        })
                        &&& post.changed_view() == (if replay {
                            pre.changed_view() || (pre.deferred_view().len() > 0
                                && post.held_view().len() == 0)
                        } else {
                            pre.changed_view()
                        })
                    }),
                    _ => true,
                }
            }))
    &&& ((match received {
                MidiMessage::NoteOn { .. } => false,
                MidiMessage::NoteOff { .. } => false,
                MidiMessage::TimingClock => false,
                MidiMessage::Reset => false,
                MidiMessage::ControlChange { control, .. } => control != CC_DAMPER_PEDAL,
                _ => true,
            }) ==> post == pre)
    &&& (received matches MidiMessage::TimingClock ==> post.deferred_view() == pre.deferred_view() && post.pedal_view() == pre.pedal_view())
    &&& (received matches MidiMessage::Reset ==> post.deferred_view() == pre.deferred_view() && post.pedal_view() == pre.pedal_view())
    &&& (received matches MidiMessage::TimingClock ==> ({
                let held0 = pre.held_view();
                let held1 = post.held_view();
                let ch0 = pre.changed_view();
                let ch1 = post.changed_view();
                let pv0 = pre.player_view();
                let pv1 = post.player_view();
                let cond = ch0 && (match pv0 {
                    None => true,
                    Some(p) => !p.should_stop,
                });
                &&& held1 == held0
                &&& (cond ==> ch1 == false)
                &&& (!cond ==> ch1 == ch0 && (
                match pv0 {
                    Some(p) => (if p.spec_tick_live() {
                        pv1 == Some(p.spec_tick_state())
                    } else {
                        pv1 is None
                    }) && out1 == out0 + p.spec_tick_msgs(),
                    None => pv1 is None && out1 == out0,
                }))
                &&& (cond && held0.len() == 0 ==> (match pv0 {
                    Some(p) => ({
                        let ps = p.spec_stopped();
                        (if ps.spec_tick_live() {
                            pv1 == Some(ps.spec_tick_state())
                        } else {
                            pv1 is None
                        }) && out1 == out0 + ps.spec_tick_msgs()
                    }),
                    None => pv1 is None && out1 == out0,
                }))
                &&& (cond && held0.len() > 0 ==> (pv1 matches Some(q) && q.arpeggio.steps_view()
                    == one_note_steps(held0) && q.arpeggio.ticks_per_step == midi::TICKS_PER_BEAT
                    && q.arpeggio.finish_steps == settings.finish_pattern && q.should_stop == false
                    && (match pv0 {
                    None => q.doubling@ == spec_doubling(settings) && q.ticks@ == 1 && q.last_step
                        == LastStep::AtIndex(0) && q.step == (if held0.len() == 1 {
                        0int
                    } else {
                        1int
                    }) && q.wait_ticks == midi::TICKS_PER_BEAT - 1 && out1 == out0
                        + step_on_msgs(seq![held0[0]], spec_doubling(settings)),
                    Some(p) => q.doubling == p.doubling && q.ticks@ == p.ticks@ + 1
                        && q.ticks_into_cycle() == ((((p.ticks_into_cycle() - 1)
                        % q.arpeggio.cycle_ticks()) + 1) % q.arpeggio.cycle_ticks()) + 1,
                })))
            }))
}

impl MutatingHold {
    pub closed spec fn inv(&self) -> bool {
        &&& match self.arpeggio {
            Some(p) => p.wf(),
            None => true,
        }
        &&& self.held_notes@.len() <= HELD_CAP
    }

    /// The notes this mode's player has sounding.
    pub closed spec fn sounding(&self) -> Multiset<(u8, u8)> {
        match self.arpeggio {
            Some(p) => p.sounding(),
            None => Multiset::empty(),
        }
    }

    /// The player's tick count, while one runs.
    pub closed spec fn player_ticks(&self) -> Option<nat> {
        match self.arpeggio {
            Some(p) => Some(p.ticks@),
            None => None,
        }
    }

    /// The held notes, in press order.
    pub closed spec fn held_view(&self) -> Seq<NoteDetails> {
        self.held_notes@
    }

    /// Whether the next tick must rebuild the arpeggio.
    pub closed spec fn changed_view(&self) -> bool {
        self.changed
    }

    /// The running player, if any.
    pub closed spec fn player_view(&self) -> Option<Player> {
        self.arpeggio
    }

    /// The releases deferred while the pedal is down.
    pub closed spec fn deferred_view(&self) -> Seq<u8> {
        self.pedal_notes_off@
    }

    pub closed spec fn pedal_view(&self) -> bool {
        self.pedal
    }

    pub fn new() -> (r: MutatingHold)
        ensures
            r.inv(),
            r.sounding() == Multiset::<(u8, u8)>::empty(),
            r.player_ticks() is None,
            r.count_arpeggios_spec() == 0,
    {
        MutatingHold {
            held_notes: Vec::new(),
            changed: false,
            arpeggio: None,
            pedal: false,
            pedal_notes_off: Vec::new(),
        }
    }

    pub closed spec fn count_arpeggios_spec(&self) -> int {
        match self.arpeggio {
            Some(_) => 1,
            None => 0,
        }
    }

    /// Forget every held entry of a pitch; releasing the last note is the
    /// only removal that marks the arpeggio changed, so it can finish its
    /// cycle instead of shrinking during the release.
    fn release_note(&mut self, n: u8)
        requires
            old(self).inv(),
        ensures
            final(self).inv(),
            final(self).arpeggio == old(self).arpeggio,
            final(self).sounding() == old(self).sounding(),
            final(self).player_ticks() == old(self).player_ticks(),
            final(self).held_notes@ == drop_pitch_notes(old(self).held_notes@, n),
            final(self).changed == (old(self).changed || final(self).held_notes@.len() == 0),
            final(self).pedal == old(self).pedal,
            final(self).pedal_notes_off@ == old(self).pedal_notes_off@,
    {
        let mut kept: Vec<NoteDetails> = Vec::new();
        let total: usize = self.held_notes.len();
        let mut i: usize = 0;
        while i < total
            invariant
                i <= total,
                total == self.held_notes@.len(),
                kept@.len() <= i,
                kept@ == drop_pitch_notes(self.held_notes@.take(i as int), n),
            decreases total - i,
        {
            let d = self.held_notes[i];
            proof {
                assert(self.held_notes@.take(i + 1).drop_last() =~= self.held_notes@.take(
                    i as int,
                ));
                assert(self.held_notes@.take(i + 1).last() == d);
            }
            if d.n != n {
                kept.push(d);
                proof {
                    assert(kept@ =~= drop_pitch_notes(self.held_notes@.take(i + 1), n));
                }
            } else {
                proof {
                    assert(kept@ =~= drop_pitch_notes(self.held_notes@.take(i + 1), n));
                }
            }
            i = i + 1;
        }
        proof {
            assert(self.held_notes@.take(total as int) =~= self.held_notes@);
        }
        if kept.len() == 0 {
            self.changed = true;
        }
        self.held_notes = kept;
    }

    /// Feed one message to the mode.  The emitted output switches the
    /// mode's sounding notes from the old state to the new and never
    /// switches off a silent note; on reset everything is silenced.  Each
    /// clock tick advances a surviving player by exactly one tick, and no
    /// other message moves its tick count.
    #[verifier::rlimit(100)]
    pub fn process<SS: StatusSignal>(
        &mut self,
        received: MidiMessage,
        settings: &Settings,
        out: &mut MidiOutput,
        status: &mut SS,
    )
        requires
            old(self).inv(),
            received.wf(),
            settings.wf(),
            <SS as MidiReceiver>::inv(old(status)),
        ensures
            final(self).inv(),

            <SS as MidiReceiver>::inv(final(status)),
            mutating_hold_step(*old(self), *final(self), received, *settings, old(out)@, final(out)@),
            ({
                let pulses: nat = (match received {
                    MidiMessage::TimingClock => ({
                        let cond = old(self).changed_view() && (match old(self).player_view() {
                            None => true,
                            Some(p) => !p.should_stop,
                        });
                        if cond && old(self).held_view().len() > 0 && old(self).player_view()
                            is None {
                            1nat
                        } else {
                            0nat
                        }
                    }),
                    _ => 0nat,
                });
                final(status).beat_resets() == old(status).beat_resets() + pulses
            }),

    {
        let ghost start = out@;
        match received {
            MidiMessage::ControlChange { channel: _, control: CC_DAMPER_PEDAL, value } => {
                let new_pedal: bool = value >= 64;
                if self.pedal != new_pedal {
                    self.pedal = new_pedal;
                    if !self.pedal {
                        // pedal released: release everything deferred
                        let mut to_release: Vec<u8> = Vec::new();
                        core::mem::swap(&mut self.pedal_notes_off, &mut to_release);
                        let total: usize = to_release.len();
                        let mut i: usize = 0;
                        proof {
                            assert(to_release@.take(0) =~= Seq::<u8>::empty());
                        }
                        while i < total
                            invariant
                                i <= total,
                                total == to_release@.len(),
                                self.inv(),
                                self.arpeggio == old(self).arpeggio,
                                self.sounding() == old(self).sounding(),
                                self.player_ticks() == old(self).player_ticks(),
                                self.pedal == false,
                                self.pedal_notes_off@.len() == 0,
                                self.held_notes@ == drop_pitch_notes_all(
                                    old(self).held_notes@,
                                    to_release@.take(i as int),
                                ),
                                self.changed == (old(self).changed || (i > 0
                                    && self.held_notes@.len() == 0)),
                            decreases total - i,
                        {
                            let ghost held_mid = self.held_notes@;
                            let n = to_release[i];
                            self.release_note(n);
                            proof {
                                assert(to_release@.take(i + 1).drop_last() =~= to_release@.take(
                                    i as int,
                                ));
                                assert(to_release@.take(i + 1).last() == n);
                                assert(self.held_notes@ == drop_pitch_notes_all(
                                    old(self).held_notes@,
                                    to_release@.take(i + 1),
                                ));
                                if self.held_notes@.len() != 0 {
                                    assert(held_mid.len() != 0);
                                }
                            }
                            i = i + 1;
                        }
                        proof {
                            assert(to_release@.take(total as int) =~= to_release@);
                            assert(self.pedal_notes_off@ =~= Seq::<u8>::empty());
                        }
                    }
                }
                proof {
                    assert(out@.subrange(start.len() as int, out@.len() as int) =~= Seq::<
                        MidiMessage,
                    >::empty());
                    assert(out@ =~= start);
                }
            },
            MidiMessage::NoteOn { channel, note, velocity } => {
                let deferred = remove_pitch(&mut self.pedal_notes_off, note);
                if deferred {
                    // re-pressing a note the pedal is holding: cancel its
                    // deferred release instead of recording a new press
                } else {
                    if self.held_notes.len() < HELD_CAP {
                        self.held_notes.push(
                            NoteDetails::new(channel, note, velocity, settings.fixed_velocity),
                        );
                        self.changed = true;
                    }
                }
                proof {
                    assert(out@.subrange(start.len() as int, out@.len() as int) =~= Seq::<
                        MidiMessage,
                    >::empty());
                    assert(out@ =~= start);
                }
            },
            MidiMessage::NoteOff { note, .. } => {
                if self.pedal {
                    // defer the release until the pedal comes up
                    if !crate::presets::contains_pitch(&self.pedal_notes_off, note) {
                        self.pedal_notes_off.push(note);
                    }
                } else {
                    self.release_note(note);
                }
                proof {
                    assert(out@.subrange(start.len() as int, out@.len() as int) =~= Seq::<
                        MidiMessage,
                    >::empty());
                }
            },
            MidiMessage::TimingClock => {
                let ghost held0 = self.held_notes@;
                let ghost pv0 = self.arpeggio;
                let not_stopping: bool = match &self.arpeggio {
                    None => true,
                    Some(p) => !p.should_stop,
                };
                let ghost cond = self.changed && not_stopping;
                // don't process new notes while the arpeggio is stopping
                if self.changed && not_stopping {
                    self.changed = false;
                    if self.held_notes.len() == 0 {
                        if let Some(existing) = &mut self.arpeggio {
                            existing.stop();
                        }
                    } else {
                        let total: usize = self.held_notes.len();
                        let mut steps: Vec<Step> = Vec::new();
                        let mut i: usize = 0;
                        while i < total
                            invariant
                                i <= total,
                                total == self.held_notes@.len(),
                                total <= HELD_CAP,
                                steps@.len() == i,
                                forall|j: int|
                                    0 <= j < i ==> (#[trigger] steps@[j])@ == seq![
                                        self.held_notes@[j],
                                    ],
                                self.inv(),
                                self.arpeggio == old(self).arpeggio,
                                self.held_notes@ == held0,
                            decreases total - i,
                        {
                            steps.push(Step::note(self.held_notes[i]));
                            i = i + 1;
                        }
                        let steps_len: usize = steps.len();
                        proof {
                            lemma_cap_times_beat(steps_len as int);
                            assert(steps_len * midi::TICKS_PER_BEAT <= usize::MAX);
                        }
                        let arp = Arpeggio::from(steps, steps_len, settings.finish_pattern);
                        proof {
                            assert(arp.steps_view() =~= one_note_steps(held0));
                            assert((steps_len * midi::TICKS_PER_BEAT) as int / steps_len as int
                                == midi::TICKS_PER_BEAT) by (nonlinear_arith)
                                requires
                                    steps_len >= 1,
                                    midi::TICKS_PER_BEAT == 24,
                            ;
                            assert(arp.ticks_per_step == midi::TICKS_PER_BEAT);
                        }
                        match &mut self.arpeggio {
                            Some(existing) => {
                                existing.change_arpeggio(arp);
                            },
                            None => {
                                self.arpeggio = Some(Player::init(arp, &settings.double_notes));
                                status.reset_beat();
                            },
                        }
                    }
                }
                proof {
                    assert(out@.subrange(start.len() as int, out@.len() as int) =~= Seq::<
                        MidiMessage,
                    >::empty());
                    assert(out@ =~= start);
                }
                let ghost pv_mid = self.arpeggio;
                let ghost mid_sounding = self.sounding();
                proof {
                    assert(mid_sounding == old(self).sounding());
                }
                let finished: bool = match &mut self.arpeggio {
                    Some(arp) => !arp.play_tick(out),
                    None => false,
                };
                if finished {
                    self.arpeggio = None;
                }
                proof {
                    assert(out@.subrange(0, start.len() as int) =~= start);
                    match pv_mid {
                        Some(pm) => {
                            assert(out@ =~= start + pm.spec_tick_msgs());
                            if cond && held0.len() > 0 {
                                assert(self.arpeggio == Some(pm.spec_tick_state()));
                            }
                        },
                        None => {
                            assert(out@ =~= start);
                        },
                    }
                }
            },
            MidiMessage::Reset => {
                self.held_notes = Vec::new();
                match &mut self.arpeggio {
                    Some(arp) => {
                        arp.force_stop(out);
                    },
                    None => {},
                }
                self.arpeggio = None;
                proof {
                    assert(out@.subrange(0, start.len() as int) =~= start);
                }
            },
            _ => {
                proof {
                    assert(out@.subrange(start.len() as int, out@.len() as int) =~= Seq::<
                        MidiMessage,
                    >::empty());
                }
            },
        }
    }

    /// Silence and drop the player.
    pub fn stop_arpeggios(&mut self, out: &mut MidiOutput)
        requires
            old(self).inv(),
        ensures
            final(self).inv(),
            final(self).sounding() == Multiset::<(u8, u8)>::empty(),
            final(self).count_arpeggios_spec() == 0,
            ({
                let emitted = final(out)@.subrange(
                    old(out)@.len() as int,
                    final(out)@.len() as int,
                );
                &&& final(out)@ == old(out)@ + emitted
                &&& midi::live_after(old(self).sounding(), emitted) == Multiset::<(u8, u8)>::empty()
                &&& midi::offs_covered(old(self).sounding(), emitted)
            }),
    {
        let ghost start = out@;
        match &mut self.arpeggio {
            Some(arp) => {
                arp.force_stop(out);
            },
            None => {},
        }
        self.arpeggio = None;
        proof {
            assert(out@.subrange(0, start.len() as int) =~= start);
        }
    }

    pub fn count_arpeggios(&self) -> (r: usize)
        ensures
            r == self.count_arpeggios_spec(),
    {
        match &self.arpeggio {
            Some(_) => 1,
            None => 0,
        }
    }
}

/// A bound on how many notes one pedal phrase records: the largest count
/// whose one-step-per-note loop, at a beat of ticks per step, still fits
/// tick arithmetic.
pub const RECORD_CAP: usize = usize::MAX / 24 - 1;

/// The notes currently echoed to the output while the pedal is down.
pub open spec fn thru_sounding(s: Seq<NoteDetails>) -> Multiset<(u8, u8)>
    decreases s.len(),
{
    if s.len() == 0 {
        Multiset::empty()
    } else {
        thru_sounding(s.drop_last()).insert((s.last().c, s.last().n))
    }
}

/// A recorded phrase grouped into steps: notes sound together while
/// consecutive onsets are at most [`TRIGGER_TIME_MS`] apart, and a larger
/// inter-onset gap starts the next step.
pub open spec fn spec_groups(s: Seq<(u64, NoteDetails)>) -> Seq<Seq<NoteDetails>>
    decreases s.len(),
{
    if s.len() == 0 {
        Seq::empty()
    } else if s.len() == 1 {
        seq![seq![s[0].1]]
    } else {
        let rest = spec_groups(s.drop_last());
        if (s.last().0 - s[s.len() - 2].0) / 1000 > TRIGGER_TIME_MS as int {
            rest.push(seq![s.last().1])
        } else {
            rest.update(rest.len() - 1, rest.last().push(s.last().1))
        }
    }
}

/// The pedal recorder: hold the pedal, play a phrase, release; the phrase
/// is grouped into steps by inter-onset gaps, loops in its original key,
/// and fresh presses transpose new copies onto their pitch.
pub struct PedalRecorder {
    notes: Vec<(u64, NoteDetails)>,
    ticks_since_last_note: usize,
    thru_notes: Vec<NoteDetails>,
    pedal: bool,
    arpeggios: Vec<(u8, Player)>,
    recorded: Option<Arpeggio>,
}

/// Everything one message does to the pedal recorder: the relation
/// between its pre- and post-states, over its recording, echo and
/// player views, and the output the message appends.
pub open spec fn pedal_recorder_step(
    pre: PedalRecorder,
    post: PedalRecorder,
    received: MidiMessage,
    settings: Settings,
    now: u64,
    out0: Seq<MidiMessage>,
    out1: Seq<MidiMessage>,
) -> bool {
    &&& (({
                let emitted = out1.subrange(
                    out0.len() as int,
                    out1.len() as int,
                );
                out1 == out0 + emitted
            }))
    &&& (({
                let emitted = out1.subrange(
                    out0.len() as int,
                    out1.len() as int,
                );
                midi::live_after(pre.sounding(), emitted) == post.sounding()
            }))
    &&& (received matches MidiMessage::Reset ==> post.sounding() == Multiset::<(
                u8,
                u8,
            )>::empty())
    &&& (received matches MidiMessage::TimingClock ==> ({
                let before = pre.player_ticks();
                let after = post.player_ticks();
                forall|j: int|
                    #![trigger after[j]]
                    0 <= j < after.len() ==> ((exists|i: int|
                        #![trigger before[i]]
                        0 <= i < before.len() && after[j] == before[i] + 1) || after[j] == 1)
            }))
    &&& (received matches MidiMessage::TimingClock ==> post.players_view()
                == sweep_keep(pre.players_view()) && out1 == out0 + sweep_msgs(
                pre.players_view(),
            ))
    &&& (({
                match received {
                    MidiMessage::ControlChange { control, value, .. } => (control
                        == CC_DAMPER_PEDAL && value < 64 && pre.pedal_view() && pre.notes_view().len() > 0) ==> ({
                        let details = Seq::new(
                            pre.notes_view().len(),
                            |i: int| pre.notes_view()[i].1,
                        );
                        &&& post.notes_view().len() == 0
                        &&& (post.recorded_view() matches Some(a) && a.ticks_per_step
                            == midi::TICKS_PER_BEAT && a.finish_steps == settings.finish_pattern
                            && a.steps_view().len() >= 1 && a.steps_view() == spec_groups(
                            pre.notes_view(),
                        ) && crate::arpeggiator::concat_steps(
                            a.steps_view(),
                        ) == details)
                        &&& post.players_view().len() == 1
                        &&& post.players_view().last().0
                            == crate::arpeggio::synced::first_note_of(
                            post.recorded_view()->Some_0.steps_view(),
                        )->Some_0
                    }),
                    _ => true,
                }
            }))
    &&& (({
                match received {
                    MidiMessage::ControlChange { control, value, .. } => control
                        == CC_DAMPER_PEDAL ==> ({
                        let down = value >= 64;
                        &&& post.pedal_view() == down
                        &&& (down && !pre.pedal_view() ==> ({
                            &&& post.recorded_view() is None
                            &&& post.players_view().len() == 0
                            &&& post.notes_view() == pre.notes_view()
                            &&& post.thru_view() == pre.thru_view()
                            &&& post.sounding() == pre.thru_view()
                        }))
                        &&& (down == pre.pedal_view() ==> post == pre
                            && out1 == out0)
                        &&& (!down && pre.pedal_view() ==> ({
                            &&& post.thru_view() == Multiset::<(u8, u8)>::empty()
                            &&& (pre.notes_view().len() == 0 ==> post.recorded_view()
                                == pre.recorded_view() && post.players_view() == pre.players_view() && post.notes_view() == pre.notes_view())
                        }))
                    }),
                    _ => true,
                }
            }))
    &&& (received matches MidiMessage::NoteOn { channel, note, velocity } ==> ({
                &&& post.pedal_view() == pre.pedal_view()
                &&& post.recorded_view() == pre.recorded_view()
                &&& (pre.pedal_view() ==> ({
                    let d = crate::arpeggio::spec_note(
                        channel,
                        note,
                        velocity,
                        settings.fixed_velocity,
                    );
                    &&& out1 == out0 + seq![received]
                    &&& post.notes_view() == (if pre.notes_view().len() < RECORD_CAP {
                        pre.notes_view().push((now, d))
                    } else {
                        pre.notes_view()
                    })
                    &&& post.thru_view() == pre.thru_view().insert((channel, note))
                }))
                &&& (!pre.pedal_view() ==> ({
                    let post = post;
                    let pre = pre;
                    post.notes_view() == pre.notes_view() && out1 == out0
                        && post.thru_view() == pre.thru_view()
                }))
            }))
    &&& (received matches MidiMessage::NoteOff { channel, note, .. } ==> ({
                &&& post.pedal_view() == pre.pedal_view()
                &&& post.notes_view() == pre.notes_view()
                &&& post.recorded_view() == pre.recorded_view()
                &&& (pre.pedal_view() ==> out1 == out0 + seq![received]
                    && post.thru_view() == pre.thru_view().remove((channel, note)))
                &&& (!pre.pedal_view() ==> ({
                    let post = post;
                    let pre = pre;
                    out1 == out0 && post.thru_view() == pre.thru_view()
                }))
            }))
    &&& (received matches MidiMessage::TimingClock ==> ({
                let post = post;
                let pre = pre;
                &&& post.notes_view() == pre.notes_view()
                &&& post.recorded_view() == pre.recorded_view()
                &&& post.pedal_view() == pre.pedal_view()
                &&& post.thru_view() == pre.thru_view()
            }))
    &&& (received matches MidiMessage::Reset ==> ({
                let post = post;
                let pre = pre;
                &&& post.notes_view().len() == 0
                &&& post.pedal_view() == false
                &&& post.players_view().len() == 0
                &&& post.thru_view() == Multiset::<(u8, u8)>::empty()
                &&& post.recorded_view() == pre.recorded_view()
            }))
    &&& ((match received {
                MidiMessage::NoteOn { .. } => false,
                MidiMessage::NoteOff { .. } => false,
                MidiMessage::TimingClock => false,
                MidiMessage::Reset => false,
                MidiMessage::ControlChange { control, .. } => control != CC_DAMPER_PEDAL,
                _ => true,
            }) ==> post == pre && out1 == out0)
    &&& (received matches MidiMessage::NoteOff { note, .. } ==> ({
                let players0 = pre.players_view();
                let players1 = post.players_view();
                if pre.pedal_view() {
                    players1 == players0
                } else {
                    players1.len() == players0.len() && (forall|i: int|
                        0 <= i < players0.len() ==> #[trigger] players1[i] == (if players0[i].0
                            == note {
                            (players0[i].0, players0[i].1.spec_stopped())
                        } else {
                            players0[i]
                        }))
                }
            }))
    &&& (received matches MidiMessage::NoteOn { channel, note, velocity } ==> ({
                let players0 = pre.players_view();
                let players1 = post.players_view();
                let keyed = exists|i: int|
                    0 <= i < players0.len() && (#[trigger] players0[i]).0 == note;
                if pre.pedal_view() || keyed || pre.recorded_view() is None {
                    players1 == players0
                } else {
                    let a = pre.recorded_view()->Some_0;
                    let orig = crate::arpeggio::synced::first_note_of(a.steps_view())->Some_0;
                    &&& players1.len() == players0.len() + 1
                    &&& (forall|i: int|
                        0 <= i < players0.len() ==> players1[i] == #[trigger] players0[i])
                    &&& players1.last().0 == note
                    &&& ({
                        let q = players1.last().1;
                        &&& q.step == 0
                        &&& q.wait_ticks == 0
                        &&& q.should_stop == false
                        &&& q.last_step is Vacant
                        &&& q.ticks@ == 0
                        &&& q.doubling@ == spec_doubling(settings)
                        &&& q.arpeggio.ticks_per_step == a.ticks_per_step
                        &&& q.arpeggio.finish_steps == a.finish_steps
                        &&& q.arpeggio.steps_view().len() == a.steps_view().len()
                        &&& (forall|i: int|
                            0 <= i < a.steps_view().len()
                                ==> #[trigger] q.arpeggio.steps_view()[i] == transpose_step(
                                a.steps_view()[i],
                                note - orig,
                            ))
                    })
                }
            }))
}

impl PedalRecorder {
    pub closed spec fn inv(&self) -> bool {
        &&& players_wf(self.arpeggios@)
        &&& (self.pedal ==> self.arpeggios@.len() == 0)
        &&& self.notes@.len() <= RECORD_CAP
        &&& forall|i: int| 0 <= i < self.notes@.len() ==> (#[trigger] self.notes@[i]).1.wf()
        &&& forall|i: int|
            0 <= i < self.notes@.len() - 1 ==> (#[trigger] self.notes@[i]).0 <= self.notes@[i
                + 1].0
        &&& match self.recorded {
            Some(a) => a.wf() && a.steps_view()[0].len() >= 1 && (forall|i: int|
                0 <= i < a.steps_view().len() ==> crate::arpeggio::notes_wf(
                    #[trigger] a.steps_view()[i],
                )),
            None => true,
        }
    }

    /// All recorded timestamps are in the past of `now`.
    pub closed spec fn time_wf(&self, now: u64) -> bool {
        forall|i: int| 0 <= i < self.notes@.len() ==> (#[trigger] self.notes@[i]).0 <= now
    }

    /// The notes this mode has sounding: its players' notes plus the
    /// presses it is echoing while the pedal is down.
    pub closed spec fn sounding(&self) -> Multiset<(u8, u8)> {
        players_sounding(self.arpeggios@).add(thru_sounding(self.thru_notes@))
    }

    /// The notes currently echoing through the pedal.
    pub closed spec fn thru_view(&self) -> Multiset<(u8, u8)> {
        thru_sounding(self.thru_notes@)
    }

    /// The tick counts of the running players, in list order.
    pub closed spec fn player_ticks(&self) -> Seq<nat> {
        Seq::new(self.arpeggios@.len(), |i: int| self.arpeggios@[i].1.ticks@)
    }

    pub closed spec fn count_arpeggios_spec(&self) -> int {
        self.arpeggios@.len() as int
    }

    /// The running players, keyed by the pitch that spawned them.
    pub closed spec fn players_view(&self) -> Seq<(u8, Player)> {
        self.arpeggios@
    }

    /// The phrase recorded so far, as timestamped notes in playing order.
    pub closed spec fn notes_view(&self) -> Seq<(u64, NoteDetails)> {
        self.notes@
    }

    /// The captured loop, once the pedal has come up over a recording.
    pub closed spec fn recorded_view(&self) -> Option<Arpeggio> {
        self.recorded
    }

    pub closed spec fn pedal_view(&self) -> bool {
        self.pedal
    }

    pub fn new() -> (r: PedalRecorder)
        ensures
            r.inv(),
            forall|t: u64| r.time_wf(t),
            r.sounding() == Multiset::<(u8, u8)>::empty(),
            r.count_arpeggios_spec() == 0,
    {
        let r = PedalRecorder {
            notes: Vec::new(),
            thru_notes: Vec::new(),
            ticks_since_last_note: 0,
            pedal: false,
            arpeggios: Vec::new(),
            recorded: None,
        };
        proof {
            assert(players_sounding(r.arpeggios@).add(thru_sounding(r.thru_notes@))
                =~= Multiset::<(u8, u8)>::empty());
        }
        r
    }

    /// Feed one message to the mode.  The emitted output switches the
    /// mode's sounding notes from the old state to the new; a reset tears
    /// everything down, echoed notes included, so nothing is left
    /// sounding.
    #[verifier::rlimit(100)]
    pub fn process<SS: StatusSignal>(
        &mut self,
        received: MidiMessage,
        settings: &Settings,
        now: u64,
        out: &mut MidiOutput,
        status: &mut SS,
    )
        requires
            old(self).inv(),
            old(self).time_wf(now),
            received.wf(),
            settings.wf(),
            <SS as MidiReceiver>::inv(old(status)),
        ensures
            final(self).inv(),

            final(self).time_wf(now),

            <SS as MidiReceiver>::inv(final(status)),
            pedal_recorder_step(*old(self), *final(self), received, *settings, now, old(out)@, final(out)@),
            ({
                let pulses: nat = (match received {
                    MidiMessage::ControlChange { control, value, .. } => if control
                        == CC_DAMPER_PEDAL {
                        if value >= 64 && !old(self).pedal_view() {
                            1nat
                        } else if value < 64 && old(self).pedal_view() && old(
                            self,
                        ).notes_view().len() > 0 {
                            1nat
                        } else {
                            0nat
                        }
                    } else {
                        0nat
                    },
                    MidiMessage::NoteOn { note, .. } => if !old(self).pedal_view() && !(exists|
                        i: int,
                    |
                        0 <= i < old(self).players_view().len() && (#[trigger] old(
                            self,
                        ).players_view()[i]).0 == note) && old(self).recorded_view() is Some {
                        1nat
                    } else {
                        0nat
                    },
                    _ => 0nat,
                });
                final(status).beat_resets() == old(status).beat_resets() + pulses
            }),

    {
        let ghost start = out@;
        match received {
            MidiMessage::ControlChange { channel: _, control: CC_DAMPER_PEDAL, value } => {
                if !self.pedal && value >= 64 {
                    self.pedal = true;
                    status.reset_beat();
                    self.recorded = None;
                    let ghost thru0 = thru_sounding(self.thru_notes@);
                    let ghost players0 = players_sounding(self.arpeggios@);
                    drain_and_force_stop_vec(&mut self.arpeggios, out);
                    proof {
                        let emitted = out@.subrange(start.len() as int, out@.len() as int);
                        midi::lemma_live_frame(players0, thru0, emitted);
                        assert(players_sounding(self.arpeggios@) =~= Multiset::<(u8, u8)>::empty());
                        assert(Multiset::<(u8, u8)>::empty().add(thru0) =~= thru0);
                        assert(out@ =~= start + out@.subrange(
                            start.len() as int,
                            out@.len() as int,
                        ));
                        assert(old(self).sounding() == players0.add(thru0));
                        assert(self.sounding() == Multiset::<(u8, u8)>::empty().add(thru0));
                        assert(midi::live_after(
                            old(self).sounding(),
                            out@.subrange(start.len() as int, out@.len() as int),
                        ) == self.sounding());
                    }
                } else if self.pedal && value < 64 {
                    self.pedal = false;
                    let ghost s1 = *self;
                    self.release_thru_notes(out);
                    proof {
                        assert(thru_sounding(self.thru_notes@) =~= Multiset::<(u8, u8)>::empty());
                    }
                    let ghost em_r = out@.subrange(start.len() as int, out@.len() as int);
                    proof {
                        assert(s1.sounding() == old(self).sounding());
                        assert(midi::live_after(old(self).sounding(), em_r) == self.sounding());
                    }
                    if self.notes.len() > 0 {
                        self.save_recording(settings, status, out);
                    }
                    proof {
                        let emitted = out@.subrange(start.len() as int, out@.len() as int);
                        assert(emitted =~= em_r);
                        assert(out@ =~= start + emitted);
                        assert(midi::live_after(old(self).sounding(), emitted) == self.sounding());
                    }
                } else {
                    proof {
                        assert(out@.subrange(start.len() as int, out@.len() as int) =~= Seq::<
                            MidiMessage,
                        >::empty());
                        assert(out@ =~= start + out@.subrange(
                            start.len() as int,
                            out@.len() as int,
                        ));
                    }
                }
            },
            MidiMessage::NoteOn { channel, note, velocity } => {
                if self.pedal {
                    out.send(received);
                    let d = NoteDetails::new(channel, note, velocity, settings.fixed_velocity);
                    let ghost thru0 = self.thru_notes@;
                    self.thru_notes.push(d);
                    if self.notes.len() < RECORD_CAP {
                        let last_ok: bool = if self.notes.len() == 0 {
                            true
                        } else {
                            self.notes[self.notes.len() - 1].0 <= now
                        };
                        if last_ok {
                            self.notes.push((now, d));
                        }
                    }
                    self.ticks_since_last_note = 0;
                    proof {
                        assert(self.thru_notes@.drop_last() =~= thru0);
                        assert(self.thru_notes@.last() == d);
                        assert(thru_sounding(self.thru_notes@) == thru_sounding(thru0).insert(
                            (channel, note),
                        ));
                        let emitted = out@.subrange(start.len() as int, out@.len() as int);
                        assert(emitted =~= seq![received]);
                        midi::lemma_live_singleton(old(self).sounding(), received);
                        assert(players_sounding(self.arpeggios@).add(
                            thru_sounding(self.thru_notes@),
                        ) =~= old(self).sounding().insert((channel, note)));
                        assert(out@ =~= start + emitted);
                    }
                } else {
                    let already: bool = self.has_player(note);
                    if already {
                        // already playing at this pitch: nothing to do
                        proof {
                            assert(out@.subrange(start.len() as int, out@.len() as int) =~= Seq::<
                                MidiMessage,
                            >::empty());
                        }
                    } else {
                        match &self.recorded {
                            Some(arp) => {
                                proof {
                                    assert(arp.steps_view().first() == arp.steps_view()[0]);
                                    crate::arpeggio::synced::lemma_first_note_wf(arp.steps_view());
                                }
                                let original = arp.first_note();
                                let new_arp = arp.transpose(original, note);
                                let player = Player::init(new_arp, &settings.double_notes);
                                let ghost pre = self.arpeggios@;
                                self.arpeggios.push((note, player));
                                status.reset_beat();
                                proof {
                                    assert(self.arpeggios@.drop_last() =~= pre);
                                    assert(players_sounding(self.arpeggios@) == players_sounding(
                                        pre,
                                    ).add(player.sounding()));
                                    assert(players_sounding(pre).add(
                                        Multiset::<(u8, u8)>::empty(),
                                    ) =~= players_sounding(pre));
                                    assert(out@.subrange(start.len() as int, out@.len() as int)
                                        =~= Seq::<MidiMessage>::empty());
                                    assert(self.players_view().last() == (note, player));
                                    assert(forall|i: int|
                                        0 <= i < pre.len() ==> self.players_view()[i]
                                            == #[trigger] pre[i]);
                                }
                            },
                            None => {
                                proof {
                                    assert(out@.subrange(start.len() as int, out@.len() as int)
                                        =~= Seq::<MidiMessage>::empty());
                                }
                            },
                        }
                    }
                }
            },
            MidiMessage::NoteOff { channel, note, .. } => {
                if self.pedal {
                    out.send(received);
                    self.remove_thru_note(channel, note);
                    proof {
                        let emitted = out@.subrange(start.len() as int, out@.len() as int);
                        assert(emitted =~= seq![received]);
                        midi::lemma_live_singleton(old(self).sounding(), received);
                        assert(self.arpeggios@.len() == 0);
                        assert(players_sounding(self.arpeggios@) =~= Multiset::<(u8, u8)>::empty());
                        assert(self.sounding() =~= thru_sounding(self.thru_notes@));
                        assert(old(self).sounding() =~= thru_sounding(old(self).thru_notes@));
                        assert(out@ =~= start + emitted);
                        assert(midi::live_after(old(self).sounding(), emitted) == self.sounding());
                    }
                } else {
                    self.stop_player(note);
                    proof {
                        assert(out@.subrange(start.len() as int, out@.len() as int) =~= Seq::<
                            MidiMessage,
                        >::empty());
                    }
                }
            },
            MidiMessage::TimingClock => {
                let ghost thru0 = thru_sounding(self.thru_notes@);
                let ghost players0 = players_sounding(self.arpeggios@);
                tick_players(&mut self.arpeggios, out);
                if self.ticks_since_last_note < usize::MAX {
                    self.ticks_since_last_note = self.ticks_since_last_note + 1;
                }
                proof {
                    let emitted = out@.subrange(start.len() as int, out@.len() as int);
                    midi::lemma_live_frame(players0, thru0, emitted);
                    assert(out@ =~= start + emitted);
                    assert(midi::live_after(old(self).sounding(), emitted) == self.sounding());
                    assert(self.players_view() == sweep_keep(old(self).players_view()));
                    assert(out@ =~= start + sweep_msgs(old(self).players_view()));
                    assert forall|j: int|
                        0 <= j < self.player_ticks().len() implies (exists|i: int|
                        0 <= i < old(self).player_ticks().len() && #[trigger] self.player_ticks()[j]
                            == old(self).player_ticks()[i] + 1) || self.player_ticks()[j]
                        == 1 by {
                        let i = choose|i: int|
                            0 <= i < old(self).arpeggios@.len() && (
                            #[trigger] self.arpeggios@[j]).1.ticks@ == old(
                                self,
                            ).arpeggios@[i].1.ticks@ + 1;
                        assert(0 <= i < old(self).player_ticks().len());
                        assert(old(self).player_ticks()[i] == old(self).arpeggios@[i].1.ticks@);
                        assert(self.player_ticks()[j] == old(self).player_ticks()[i] + 1);
                    }
                }
            },
            MidiMessage::Reset => {
                self.notes = Vec::new();
                // a reset is an explicit teardown: echoed notes get their
                // note-offs before the players are silenced
                let ghost s1 = *self;
                self.release_thru_notes(out);
                let ghost em_r = out@.subrange(start.len() as int, out@.len() as int);
                proof {
                    assert(s1.sounding() == old(self).sounding());
                    assert(midi::live_after(old(self).sounding(), em_r) == self.sounding());
                }
                self.pedal = false;
                let ghost thru1 = thru_sounding(self.thru_notes@);
                let ghost players1 = players_sounding(self.arpeggios@);
                let ghost mid = out@;
                drain_and_force_stop_vec(&mut self.arpeggios, out);
                proof {
                    let em_d = out@.subrange(mid.len() as int, out@.len() as int);
                    midi::lemma_live_frame(players1, thru1, em_d);
                    assert(thru1 =~= Multiset::<(u8, u8)>::empty());
                    assert(players1.add(thru1) =~= players1);
                    assert(Multiset::<(u8, u8)>::empty().add(thru1) =~= Multiset::<(
                        u8,
                        u8,
                    )>::empty());
                    let emitted = out@.subrange(start.len() as int, out@.len() as int);
                    assert(emitted =~= em_r + em_d);
                    midi::lemma_live_concat(old(self).sounding(), em_r, em_d);
                    assert(players_sounding(self.arpeggios@).add(thru_sounding(self.thru_notes@))
                        =~= Multiset::<(u8, u8)>::empty());
                    assert(out@ =~= start + emitted);
                    assert(midi::live_after(old(self).sounding(), emitted) == self.sounding());
                }
            },
            _ => {
                proof {
                    assert(out@.subrange(start.len() as int, out@.len() as int) =~= Seq::<
                        MidiMessage,
                    >::empty());
                    assert(out@ =~= start + out@.subrange(start.len() as int, out@.len() as int));
                }
            },
        }
    }

    /// Whether a player keyed by this pitch is running.
    fn has_player(&self, note: u8) -> (r: bool)
        ensures
            r == exists|i: int|
                0 <= i < self.arpeggios@.len() && (#[trigger] self.arpeggios@[i]).0 == note,
    {
        let total: usize = self.arpeggios.len();
        let mut i: usize = 0;
        while i < total
            invariant
                i <= total,
                total == self.arpeggios@.len(),
                forall|j: int| 0 <= j < i ==> (#[trigger] self.arpeggios@[j]).0 != note,
            decreases total - i,
        {
            if self.arpeggios[i].0 == note {
                return true;
            }
            i = i + 1;
        }
        false
    }

    /// Ask every player keyed by this pitch to stop gracefully; every
    /// other player is untouched.
    #[verifier::rlimit(60)]
    fn stop_player(&mut self, note: u8)
        requires
            old(self).inv(),
        ensures
            final(self).inv(),
            final(self).sounding() == old(self).sounding(),
            final(self).count_arpeggios_spec() == old(self).count_arpeggios_spec(),
            final(self).thru_notes@ == old(self).thru_notes@,
            final(self).notes@ == old(self).notes@,
            final(self).recorded == old(self).recorded,
            final(self).pedal == old(self).pedal,
            final(self).arpeggios@.len() == old(self).arpeggios@.len(),
            forall|i: int|
                0 <= i < old(self).arpeggios@.len() ==> #[trigger] final(self).arpeggios@[i] == (
                if old(self).arpeggios@[i].0 == note {
                    (old(self).arpeggios@[i].0, old(self).arpeggios@[i].1.spec_stopped())
                } else {
                    old(self).arpeggios@[i]
                }),
    {
        let ghost s0 = players_sounding(self.arpeggios@);
        let mut pending: Vec<(u8, Player)> = Vec::new();
        core::mem::swap(&mut self.arpeggios, &mut pending);
        let ghost mut consumed: int = 0;
        proof {
            assert(players_sounding(self.arpeggios@) =~= Multiset::<(u8, u8)>::empty());
            assert(Multiset::<(u8, u8)>::empty().add(players_sounding(pending@))
                =~= players_sounding(pending@));
            assert(pending@ =~= old(self).arpeggios@.skip(0));
        }
        while pending.len() > 0
            invariant
                players_wf(self.arpeggios@),
                players_wf(pending@),
                0 <= consumed <= old(self).arpeggios@.len(),
                pending@ == old(self).arpeggios@.skip(consumed),
                self.arpeggios@.len() == consumed,
                forall|i: int|
                    0 <= i < consumed ==> #[trigger] self.arpeggios@[i] == (if old(
                        self,
                    ).arpeggios@[i].0 == note {
                        (old(self).arpeggios@[i].0, old(self).arpeggios@[i].1.spec_stopped())
                    } else {
                        old(self).arpeggios@[i]
                    }),
                players_sounding(self.arpeggios@).add(players_sounding(pending@)) == s0,
                self.thru_notes@ == old(self).thru_notes@,
                self.notes@ == old(self).notes@,
                self.recorded == old(self).recorded,
                self.pedal == old(self).pedal,
                old(self).inv(),
            decreases pending@.len(),
        {
            let ghost pend0 = pending@;
            proof {
                lemma_players_sounding_first(pend0);
            }
            let (key, mut player) = pending.remove(0);
            let ghost p_sound = player.sounding();
            proof {
                assert(pending@ =~= pend0.drop_first());
                assert(pend0.drop_first() =~= old(self).arpeggios@.skip(consumed + 1));
                assert(pend0[0] == old(self).arpeggios@[consumed]);
            }
            if key == note {
                player.stop();
            }
            let ghost pre = self.arpeggios@;
            self.arpeggios.push((key, player));
            proof {
                assert(self.arpeggios@.drop_last() =~= pre);
                assert(players_sounding(self.arpeggios@) == players_sounding(pre).add(p_sound));
                assert(players_sounding(pre).add(p_sound).add(players_sounding(pending@)) =~= s0);
                consumed = consumed + 1;
            }
        }
        proof {
            assert(players_sounding(self.arpeggios@).add(players_sounding(pending@))
                =~= players_sounding(self.arpeggios@));
        }
    }

    /// Drop one echoed note from the books, matching channel and pitch.
    #[verifier::rlimit(60)]
    fn remove_thru_note(&mut self, channel: u8, note: u8)
        requires
            old(self).inv(),
        ensures
            final(self).inv(),
            final(self).arpeggios@ == old(self).arpeggios@,
            final(self).notes@ == old(self).notes@,
            final(self).recorded == old(self).recorded,
            final(self).pedal == old(self).pedal,
            thru_sounding(final(self).thru_notes@) == thru_sounding(old(self).thru_notes@).remove(
                (channel, note),
            ),
    {
        let total: usize = self.thru_notes.len();
        let mut i: usize = 0;
        while i < total
            invariant
                i <= total,
                total == self.thru_notes@.len(),
                self == old(self),
                old(self).inv(),
                forall|j: int|
                    0 <= j < i ==> !((#[trigger] self.thru_notes@[j]).c == channel
                        && self.thru_notes@[j].n == note),
            decreases total - i,
        {
            let d = self.thru_notes[i];
            if d.c == channel && d.n == note {
                let ghost thru0 = self.thru_notes@;
                self.thru_notes.remove(i);
                proof {
                    lemma_thru_sounding_remove(thru0, i as int);
                    assert(self.arpeggios@ == old(self).arpeggios@);
                    assert forall|j: int|
                        0 <= j < self.arpeggios@.len() implies (
                        #[trigger] self.arpeggios@[j]).1.wf() by {
                        assert(old(self).arpeggios@[j].1.wf());
                    }
                    assert forall|j: int|
                        0 <= j < self.notes@.len() implies (#[trigger] self.notes@[j]).1.wf() by {
                        assert(old(self).notes@[j].1.wf());
                    }
                    assert forall|j: int|
                        0 <= j < self.notes@.len() - 1 implies (#[trigger] self.notes@[j]).0
                        <= self.notes@[j + 1].0 by {
                        assert(old(self).notes@[j].0 <= old(self).notes@[j + 1].0);
                    }
                }
                return ;
            }
            i = i + 1;
        }
        proof {
            lemma_thru_sounding_absent(self.thru_notes@, channel, note);
        }
    }

    /// Send a note-off for every echoed note and forget them.
    #[verifier::rlimit(60)]
    fn release_thru_notes(&mut self, out: &mut MidiOutput)
        requires
            old(self).inv(),
        ensures
            final(self).inv(),
            final(self).thru_notes@.len() == 0,
            final(self).arpeggios@ == old(self).arpeggios@,
            final(self).notes@ == old(self).notes@,
            final(self).recorded == old(self).recorded,
            final(self).pedal == old(self).pedal,
            ({
                let emitted = final(out)@.subrange(
                    old(out)@.len() as int,
                    final(out)@.len() as int,
                );
                &&& final(out)@ == old(out)@ + emitted
                &&& midi::live_after(old(self).sounding(), emitted) == final(self).sounding()
                &&& midi::offs_covered(thru_sounding(old(self).thru_notes@), emitted)
            }),
    {
        let ghost start = out@;
        let ghost players0 = players_sounding(self.arpeggios@);
        let ghost thru_all = thru_sounding(self.thru_notes@);
        let mut pending: Vec<NoteDetails> = Vec::new();
        core::mem::swap(&mut self.thru_notes, &mut pending);
        proof {
            assert(out@.subrange(start.len() as int, out@.len() as int) =~= Seq::<
                MidiMessage,
            >::empty());
        }
        while pending.len() > 0
            invariant
                self.thru_notes@.len() == 0,
                self.arpeggios@ == old(self).arpeggios@,
                self.notes@ == old(self).notes@,
                self.recorded == old(self).recorded,
                self.pedal == old(self).pedal,
                old(self).inv(),
                start.len() <= out@.len(),
                out@.subrange(0, start.len() as int) == start,
                midi::live_after(thru_all, out@.subrange(start.len() as int, out@.len() as int))
                    == thru_sounding(pending@),
                midi::offs_covered(thru_all, out@.subrange(start.len() as int, out@.len() as int)),
            decreases pending@.len(),
        {
            let ghost emitted0 = out@.subrange(start.len() as int, out@.len() as int);
            let ghost pend0 = pending@;
            proof {
                lemma_thru_sounding_first(pend0);
            }
            let d = pending.remove(0);
            proof {
                assert(pending@ =~= pend0.drop_first());
            }
            out.send(MidiMessage::NoteOff { channel: d.c, note: d.n, velocity: d.v });
            proof {
                let offm = MidiMessage::NoteOff { channel: d.c, note: d.n, velocity: d.v };
                let m = seq![offm];
                let single = Multiset::<(u8, u8)>::empty().insert((d.c, d.n));
                midi::lemma_live_singleton(single, offm);
                assert(single.count(((d.c, d.n))) == 1);
                assert(midi::live_apply(single, offm) =~= Multiset::<(u8, u8)>::empty());
                assert(midi::live_after(single, m) == Multiset::<(u8, u8)>::empty());
                assert(midi::offs_covered(single, m));
                assert(thru_sounding(pend0) =~= single.add(thru_sounding(pending@)));
                midi::lemma_step_accounting(
                    thru_all,
                    emitted0,
                    m,
                    thru_sounding(pending@),
                    single,
                    Multiset::<(u8, u8)>::empty(),
                );
                assert(Multiset::<(u8, u8)>::empty().add(thru_sounding(pending@))
                    =~= thru_sounding(pending@));
                assert(out@.subrange(start.len() as int, out@.len() as int) =~= emitted0 + m);
                assert(out@.subrange(0, start.len() as int) =~= start);
            }
        }
        proof {
            let emitted = out@.subrange(start.len() as int, out@.len() as int);
            midi::lemma_live_frame(thru_all, players0, emitted);
            assert(thru_all.add(players0) =~= old(self).sounding());
            assert(thru_sounding(pending@) =~= Multiset::<(u8, u8)>::empty());
            assert(Multiset::<(u8, u8)>::empty().add(players0) =~= players0);
            assert(self.sounding() =~= players0);
        }
    }

    /// Group the recorded notes into steps by inter-onset gaps, spread
    /// them over one beat per step, and start the loop at its original
    /// key.
    #[verifier::rlimit(100)]
    fn save_recording<SS: StatusSignal>(
        &mut self,
        settings: &Settings,
        status: &mut SS,
        out: &mut MidiOutput,
    )
        requires
            old(self).inv(),
            old(self).pedal == false,
            old(self).notes@.len() >= 1,
            settings.wf(),
            <SS as MidiReceiver>::inv(old(status)),
        ensures
            final(self).inv(),
            final(self).notes@.len() == 0,
            final(self).thru_notes@ == old(self).thru_notes@,
            final(self).pedal == old(self).pedal,
            final(self).sounding() == old(self).sounding(),
            final(out)@ == old(out)@,
            <SS as MidiReceiver>::inv(final(status)),
            final(status).beat_resets() == old(status).beat_resets() + 1,
            forall|t: u64| final(self).time_wf(t),
            ({
                let details = Seq::new(old(self).notes@.len(), |i: int| old(self).notes@[i].1);
                &&& (final(self).recorded matches Some(a) && a.ticks_per_step
                    == midi::TICKS_PER_BEAT && a.finish_steps == settings.finish_pattern
                    && a.steps_view().len() >= 1 && a.steps_view() == spec_groups(
                    old(self).notes@,
                ) && crate::arpeggiator::concat_steps(
                    a.steps_view(),
                ) == details)
                &&& final(self).arpeggios@.len() == old(self).arpeggios@.len() + 1
                &&& (forall|i: int|
                    0 <= i < old(self).arpeggios@.len() ==> final(self).arpeggios@[i]
                        == #[trigger] old(self).arpeggios@[i])
                &&& ({
                    let a = final(self).recorded->Some_0;
                    let orig = crate::arpeggio::synced::first_note_of(a.steps_view())->Some_0;
                    let q = final(self).arpeggios@.last().1;
                    &&& final(self).arpeggios@.last().0 == orig
                    &&& q.step == 0
                    &&& q.wait_ticks == 0
                    &&& q.should_stop == false
                    &&& q.last_step is Vacant
                    &&& q.ticks@ == 0
                    &&& q.doubling@ == spec_doubling(*settings)
                    &&& q.arpeggio.ticks_per_step == a.ticks_per_step
                    &&& q.arpeggio.finish_steps == a.finish_steps
                    &&& q.arpeggio.steps_view().len() == a.steps_view().len()
                    &&& (forall|i: int|
                        0 <= i < a.steps_view().len() ==> #[trigger] q.arpeggio.steps_view()[i]
                            == transpose_step(a.steps_view()[i], 0))
                })
            }),
    {
        let mut notes: Vec<(u64, NoteDetails)> = Vec::new();
        core::mem::swap(&mut self.notes, &mut notes);
        let ghost details = Seq::new(notes@.len(), |i: int| notes@[i].1);
        let total: usize = notes.len();
        let mut steps: Vec<Step> = Vec::new();
        let mut step_notes: Vec<NoteDetails> = Vec::new();
        let mut i: usize = 0;
        proof {
            assert(crate::arpeggiator::concat_steps(
                crate::arpeggiator::steps_notes(steps@),
            ) + step_notes@ =~= details.take(0));
        }
        while i < total
            invariant
                i <= total,
                total == notes@.len(),
                total <= RECORD_CAP,
                details == Seq::new(notes@.len(), |k: int| notes@[k].1),
                forall|j: int| 0 <= j < total ==> (#[trigger] notes@[j]).1.wf(),
                forall|j: int|
                    0 <= j < total - 1 ==> (#[trigger] notes@[j]).0 <= notes@[j + 1].0,
                steps@.len() <= i,
                i > 0 ==> step_notes@.len() >= 1,
                i == 0 ==> step_notes@.len() == 0,
                crate::arpeggiator::concat_steps(crate::arpeggiator::steps_notes(steps@))
                    + step_notes@ == details.take(i as int),
                i > 0 ==> crate::arpeggiator::steps_notes(steps@).push(step_notes@) == spec_groups(
                    notes@.take(i as int),
                ),
                forall|j: int|
                    0 <= j < steps@.len() ==> (#[trigger] steps@[j])@.len() >= 1
                        && crate::arpeggio::notes_wf(steps@[j]@),
                crate::arpeggio::notes_wf(step_notes@),
            decreases total - i,
        {
            let ghost steps_in = crate::arpeggiator::steps_notes(steps@);
            let ghost grp_in = step_notes@;
            let t = notes[i].0;
            let ghost mut gap: bool = false;
            if i > 0 {
                let prev = notes[i - 1].0;
                if (t - prev) / 1000 > TRIGGER_TIME_MS {
                    proof {
                        gap = true;
                    }
                    let ghost steps0 = steps@;
                    let ghost grp = step_notes@;
                    steps.push(Step::notes(step_notes));
                    step_notes = Vec::new();
                    proof {
                        assert(crate::arpeggiator::steps_notes(steps@).drop_last()
                            =~= crate::arpeggiator::steps_notes(steps0));
                        assert(crate::arpeggiator::steps_notes(steps@).last() == grp);
                        assert(crate::arpeggiator::concat_steps(
                            crate::arpeggiator::steps_notes(steps@),
                        ) + step_notes@ =~= details.take(i as int));
                    }
                }
            }
            step_notes.push(notes[i].1);
            proof {
                assert(crate::arpeggio::notes_wf(step_notes@));
                assert(details.take(i + 1).drop_last() =~= details.take(i as int));
                assert(details.take(i + 1).last() == notes@[i as int].1);
                assert(crate::arpeggiator::concat_steps(
                    crate::arpeggiator::steps_notes(steps@),
                ) + step_notes@ =~= details.take(i + 1));
                let cur = notes@.take(i + 1);
                assert(cur.drop_last() =~= notes@.take(i as int));
                assert(cur.last() == notes@[i as int]);
                if i == 0 {
                    assert(crate::arpeggiator::steps_notes(steps@).push(step_notes@) =~= spec_groups(
                        cur,
                    ));
                } else {
                    let prior = spec_groups(notes@.take(i as int));
                    assert(prior == steps_in.push(grp_in));
                    assert(cur[cur.len() - 2] == notes@[i - 1]);
                    if gap {
                        assert(spec_groups(cur) == prior.push(seq![notes@[i as int].1]));
                        assert(crate::arpeggiator::steps_notes(steps@) =~= steps_in.push(grp_in));
                        assert(crate::arpeggiator::steps_notes(steps@).push(step_notes@)
                            =~= spec_groups(cur));
                    } else {
                        assert(spec_groups(cur) == prior.update(
                            prior.len() - 1,
                            prior.last().push(notes@[i as int].1),
                        ));
                        assert(prior.last() == grp_in);
                        assert(crate::arpeggiator::steps_notes(steps@).push(step_notes@)
                            =~= prior.update(prior.len() - 1, grp_in.push(notes@[i as int].1)));
                    }
                }
            }
            i = i + 1;
        }
        let ghost steps0 = steps@;
        let ghost grp = step_notes@;
        steps.push(Step::notes(step_notes));
        proof {
            assert(crate::arpeggiator::steps_notes(steps@).drop_last()
                =~= crate::arpeggiator::steps_notes(steps0));
            assert(crate::arpeggiator::steps_notes(steps@).last() == grp);
            assert(details.take(total as int) =~= details);
            assert(crate::arpeggiator::concat_steps(crate::arpeggiator::steps_notes(steps@))
                =~= details);
            assert(notes@.take(total as int) =~= notes@);
            assert(crate::arpeggiator::steps_notes(steps@) =~= crate::arpeggiator::steps_notes(
                steps0,
            ).push(grp));
            assert(crate::arpeggiator::steps_notes(steps@) == spec_groups(notes@));
        }
        let total_beats: usize = steps.len();
        proof {
            lemma_cap_times_beat(total_beats as int);
            assert(total_beats * midi::TICKS_PER_BEAT <= usize::MAX);
        }
        proof {
            assert((total_beats * midi::TICKS_PER_BEAT) as int / total_beats as int
                == midi::TICKS_PER_BEAT) by (nonlinear_arith)
                requires
                    total_beats >= 1,
                    midi::TICKS_PER_BEAT == 24,
            ;
        }
        let arp = Arpeggio::from(steps, total_beats, settings.finish_pattern);
        proof {
            assert(arp.steps_view() =~= crate::arpeggiator::steps_notes(arp.steps@));
        }
        self.recorded = Some(arp);
        // start playing in the original key
        match &self.recorded {
            Some(arp) => {
                proof {
                    assert(arp.steps_view()[0].len() >= 1);
                    crate::arpeggio::synced::lemma_first_note_wf(arp.steps_view());
                    assert(arp.steps_view().first() == arp.steps_view()[0]);
                }
                let original = arp.first_note();
                let new_arp = arp.transpose(original, original);
                let player = Player::init(new_arp, &settings.double_notes);
                let ghost pre = self.arpeggios@;
                self.arpeggios.push((original, player));
                status.reset_beat();
                proof {
                    assert(self.arpeggios@.drop_last() =~= pre);
                    assert(players_sounding(self.arpeggios@) == players_sounding(pre).add(
                        player.sounding(),
                    ));
                    assert(players_sounding(pre).add(Multiset::<(u8, u8)>::empty())
                        =~= players_sounding(pre));
                }
            },
            None => {},
        }
    }

    /// Tear the mode down: echoed notes get their note-offs and every
    /// player is silenced, so nothing stays sounding.
    #[verifier::rlimit(100)]
    pub fn stop_arpeggios(&mut self, out: &mut MidiOutput)
        requires
            old(self).inv(),
        ensures
            final(self).inv(),
            final(self).sounding() == Multiset::<(u8, u8)>::empty(),
            final(self).count_arpeggios_spec() == 0,
            forall|t: u64| old(self).time_wf(t) ==> final(self).time_wf(t),
            ({
                let emitted = final(out)@.subrange(
                    old(out)@.len() as int,
                    final(out)@.len() as int,
                );
                &&& final(out)@ == old(out)@ + emitted
                &&& midi::live_after(old(self).sounding(), emitted) == Multiset::<(u8, u8)>::empty()
                &&& midi::offs_covered(old(self).sounding(), emitted)
            }),
    {
        let ghost start = out@;
        let ghost s1 = *self;
        self.release_thru_notes(out);
        let ghost em_r = out@.subrange(start.len() as int, out@.len() as int);
        proof {
            assert(midi::live_after(old(self).sounding(), em_r) == self.sounding());
            assert(midi::offs_covered(
                thru_sounding(old(self).thru_notes@),
                em_r,
            ));
            midi::lemma_live_frame(
                thru_sounding(old(self).thru_notes@),
                players_sounding(old(self).arpeggios@),
                em_r,
            );
            assert(thru_sounding(old(self).thru_notes@).add(
                players_sounding(old(self).arpeggios@),
            ) =~= old(self).sounding());
        }
        let ghost thru1 = thru_sounding(self.thru_notes@);
        let ghost players1 = players_sounding(self.arpeggios@);
        let ghost mid = out@;
        drain_and_force_stop_vec(&mut self.arpeggios, out);
        proof {
            let em_d = out@.subrange(mid.len() as int, out@.len() as int);
            midi::lemma_live_frame(players1, thru1, em_d);
            assert(thru1 =~= Multiset::<(u8, u8)>::empty());
            assert(players1.add(thru1) =~= players1);
            assert(Multiset::<(u8, u8)>::empty().add(thru1) =~= Multiset::<(u8, u8)>::empty());
            let emitted = out@.subrange(start.len() as int, out@.len() as int);
            assert(emitted =~= em_r + em_d);
            midi::lemma_live_concat(old(self).sounding(), em_r, em_d);
            midi::lemma_live_frame(players1, Multiset::<(u8, u8)>::empty(), em_d);
            assert(players_sounding(self.arpeggios@).add(thru_sounding(self.thru_notes@))
                =~= Multiset::<(u8, u8)>::empty());
            assert(out@.subrange(0, start.len() as int) =~= start);
            assert(midi::live_after(old(self).sounding(), emitted) =~= Multiset::<(
                u8,
                u8,
            )>::empty());
        }
    }

    pub fn count_arpeggios(&self) -> (r: usize)
        ensures
            r == self.count_arpeggios_spec(),
    {
        self.arpeggios.len()
    }
}

/// A player freshly started over a preset's step pitches, at the
/// preset's tick rate, carrying the received channel and velocity.
pub open spec fn fresh_preset_player(
    q: Player,
    p: Preset,
    channel: u8,
    velocity: u8,
    settings: Settings,
) -> bool {
    &&& q.step == 0
    &&& q.wait_ticks == 0
    &&& q.should_stop == false
    &&& q.last_step is Vacant
    &&& q.ticks@ == 0
    &&& q.doubling@ == spec_doubling(settings)
    &&& q.arpeggio.ticks_per_step == p.ticks_per_step
    &&& q.arpeggio.finish_steps == settings.finish_pattern
    &&& q.arpeggio.steps_view().len() == p.steps@.len()
    &&& (forall|i: int|
        0 <= i < p.steps@.len() ==> #[trigger] q.arpeggio.steps_view()[i] == seq![
            NoteDetails { c: channel, n: p.steps@[i], v: velocity },
        ])
}

/// Preset playback: when the live held-note set equals a preset's
/// trigger set, the preset's steps become a new looping arpeggio at the
/// preset's tick rate.
pub struct PrerecordedSets {
    presets: Vec<Preset>,
    notes: Vec<u8>,
    arpeggios: Vec<(Vec<u8>, Player)>,
}

/// Everything one message does to the preset mode: the relation between
/// its pre- and post-states, over its note-set and player views, and
/// the output the message appends.
pub open spec fn prerecorded_sets_step(
    pre: PrerecordedSets,
    post: PrerecordedSets,
    received: MidiMessage,
    settings: Settings,
    out0: Seq<MidiMessage>,
    out1: Seq<MidiMessage>,
) -> bool {
    &&& (({
                let emitted = out1.subrange(
                    out0.len() as int,
                    out1.len() as int,
                );
                &&& out1 == out0 + emitted
                &&& midi::live_after(pre.sounding(), emitted) == post.sounding()
                &&& midi::offs_covered(pre.sounding(), emitted)
            }))
    &&& (received matches MidiMessage::Reset ==> post.sounding() == Multiset::<(
                u8,
                u8,
            )>::empty())
    &&& (received matches MidiMessage::TimingClock ==> ({
                let before = pre.player_ticks();
                let after = post.player_ticks();
                forall|j: int|
                    #![trigger after[j]]
                    0 <= j < after.len() ==> ((exists|i: int|
                        #![trigger before[i]]
                        0 <= i < before.len() && after[j] == before[i] + 1) || after[j] == 1)
            }))
    &&& (received matches MidiMessage::TimingClock ==> post.players_view()
                == sweep_keep(pre.players_view()) && out1 == out0 + sweep_msgs(
                pre.players_view(),
            ))
    &&& (received matches MidiMessage::NoteOff { .. } ==> post.player_ticks() == pre.player_ticks() && out1 == out0)
    &&& (received matches MidiMessage::NoteOn { channel, note, velocity } ==> ({
                let notes1 = if pre.notes_view().contains(note) {
                    pre.notes_view()
                } else {
                    pre.notes_view().push(note)
                };
                post.notes_view() == notes1 && out1 == out0
            }))
    &&& (received matches MidiMessage::NoteOn { channel, note, velocity } ==> ({
                let notes1 = if pre.notes_view().contains(note) {
                    pre.notes_view()
                } else {
                    pre.notes_view().push(note)
                };
                let trig = crate::arpeggiator::full_length::triggered_of(
                    pre.presets_view(),
                    notes1,
                );
                let players0 = pre.players_view();
                let players1 = post.players_view();
                players1.len() == players0.len() + trig.len() && (forall|i: int|
                    0 <= i < players0.len() ==> players1[i] == #[trigger] players0[i])
            }))
    &&& (received matches MidiMessage::NoteOn { channel, note, velocity } ==> ({
                let notes1 = if pre.notes_view().contains(note) {
                    pre.notes_view()
                } else {
                    pre.notes_view().push(note)
                };
                let trig = crate::arpeggiator::full_length::triggered_of(
                    pre.presets_view(),
                    notes1,
                );
                let players0 = pre.players_view();
                let players1 = post.players_view();
                forall|k: int|
                    #![trigger players1[k]]
                    players0.len() <= k < players1.len() ==> fresh_preset_player(
                        players1[k].1,
                        trig[k - players0.len()],
                        channel,
                        velocity,
                        settings,
                    )
            }))
}

impl PrerecordedSets {
    pub closed spec fn inv(&self) -> bool {
        &&& forall|i: int| 0 <= i < self.presets@.len() ==> (#[trigger] self.presets@[i]).wf()
        &&& players_wf(self.arpeggios@)
    }

    /// The notes this mode's players have sounding.
    pub closed spec fn sounding(&self) -> Multiset<(u8, u8)> {
        players_sounding(self.arpeggios@)
    }

    /// The tick counts of the running players, in list order.
    pub closed spec fn player_ticks(&self) -> Seq<nat> {
        Seq::new(self.arpeggios@.len(), |i: int| self.arpeggios@[i].1.ticks@)
    }

    pub closed spec fn count_arpeggios_spec(&self) -> int {
        self.arpeggios@.len() as int
    }

    /// The live held-note set.
    pub closed spec fn notes_view(&self) -> Seq<u8> {
        self.notes@
    }

    /// The preset table.
    pub closed spec fn presets_view(&self) -> Seq<Preset> {
        self.presets@
    }

    /// The running players with their trigger sets, in start order.
    pub closed spec fn players_view(&self) -> Seq<(Vec<u8>, Player)> {
        self.arpeggios@
    }

    pub fn new(presets: Vec<Preset>) -> (r: PrerecordedSets)
        requires
            forall|i: int| 0 <= i < presets@.len() ==> (#[trigger] presets@[i]).wf(),
        ensures
            r.inv(),
            r.sounding() == Multiset::<(u8, u8)>::empty(),
            r.count_arpeggios_spec() == 0,
    {
        PrerecordedSets { presets, notes: Vec::new(), arpeggios: Vec::new() }
    }

    /// Feed one message to the mode.  The emitted output switches the
    /// mode's sounding notes from the old state to the new and never
    /// switches off a silent note; on reset everything is silenced.
    #[verifier::rlimit(100)]
    pub fn process<SS: StatusSignal>(
        &mut self,
        received: MidiMessage,
        settings: &Settings,
        out: &mut MidiOutput,
        status: &mut SS,
    )
        requires
            old(self).inv(),
            received.wf(),
            settings.wf(),
            <SS as MidiReceiver>::inv(old(status)),
        ensures
            final(self).inv(),

            <SS as MidiReceiver>::inv(final(status)),
            prerecorded_sets_step(*old(self), *final(self), received, *settings, old(out)@, final(out)@),
            ({
                let pulses: nat = (match received {
                    MidiMessage::NoteOn { note, .. } => ({
                        let notes1 = if old(self).notes_view().contains(note) {
                            old(self).notes_view()
                        } else {
                            old(self).notes_view().push(note)
                        };
                        if crate::arpeggiator::full_length::triggered_of(
                            old(self).presets_view(),
                            notes1,
                        ).len() > 0 {
                            1nat
                        } else {
                            0nat
                        }
                    }),
                    _ => 0nat,
                });
                final(status).beat_resets() == old(status).beat_resets() + pulses
            }),

    {
        let ghost start = out@;
        match received {
            MidiMessage::NoteOn { channel, note, velocity } => {
                if !crate::presets::contains_pitch(&self.notes, note) {
                    self.notes.push(note);
                }
                let ghost notes1 = self.notes@;
                let ghost presets0 = self.presets@;
                let ghost players0 = self.arpeggios@;
                let ghost s0 = players_sounding(self.arpeggios@);
                let total: usize = self.presets.len();
                let mut i: usize = 0;
                let mut any_started: bool = false;
                proof {
                    assert(crate::arpeggiator::full_length::triggered_of(
                        presets0.take(0),
                        notes1,
                    ) =~= Seq::<Preset>::empty());
                }
                while i < total
                    invariant
                        i <= total,
                        total == self.presets@.len(),
                        self.inv(),
                        1 <= channel <= 16,
                        velocity <= 127,
                        settings.wf(),
                        self.notes@ == notes1,
                        self.presets@ == presets0,
                        players_sounding(self.arpeggios@) == s0,
                        ({
                            let trig = crate::arpeggiator::full_length::triggered_of(
                                presets0.take(i as int),
                                notes1,
                            );
                            &&& self.arpeggios@.len() == players0.len() + trig.len()
                            &&& (forall|j: int|
                                0 <= j < players0.len() ==> self.arpeggios@[j] == #[trigger] players0[j])
                            &&& (forall|k: int|
                                #![trigger self.arpeggios@[k]]
                                players0.len() <= k < self.arpeggios@.len()
                                    ==> fresh_preset_player(
                                    self.arpeggios@[k].1,
                                    trig[k - players0.len()],
                                    channel,
                                    velocity,
                                    *settings,
                                ))
                            &&& any_started == (trig.len() > 0)
                        }),
                    decreases total - i,
                {
                    let ghost trig_pre = crate::arpeggiator::full_length::triggered_of(
                        presets0.take(i as int),
                        notes1,
                    );
                    let triggered = self.presets[i].is_triggered_by(&self.notes);
                    proof {
                        assert(presets0.take(i + 1) =~= presets0.take(i as int) + seq![
                            presets0[i as int],
                        ]);
                        crate::arpeggiator::full_length::lemma_partition_concat(
                            presets0.take(i as int),
                            seq![presets0[i as int]],
                            notes1,
                            velocity,
                        );
                        assert(seq![presets0[i as int]].drop_first() =~= Seq::<Preset>::empty());
                        assert(crate::arpeggiator::full_length::triggered_of(
                            Seq::<Preset>::empty(),
                            notes1,
                        ) =~= Seq::<Preset>::empty());
                    }
                    if triggered {
                        let arp = Arpeggio::from_preset(
                            &self.presets[i],
                            channel,
                            velocity,
                            settings.finish_pattern,
                        );
                        let player = Player::init(arp, &settings.double_notes);
                        let trigger_set = crate::presets::duplicate_pitches(
                            &self.presets[i].trigger,
                        );
                        let ghost pre = self.arpeggios@;
                        self.arpeggios.push((trigger_set, player));
                        any_started = true;
                        proof {
                            assert(self.arpeggios@.drop_last() =~= pre);
                            assert(players_sounding(self.arpeggios@) == players_sounding(pre).add(
                                player.sounding(),
                            ));
                            assert(players_sounding(pre).add(Multiset::<(u8, u8)>::empty())
                                =~= players_sounding(pre));
                            assert(crate::arpeggiator::full_length::triggered_of(
                                seq![presets0[i as int]],
                                notes1,
                            ) =~= seq![presets0[i as int]]);
                            assert(crate::arpeggiator::full_length::triggered_of(
                                presets0.take(i + 1),
                                notes1,
                            ) =~= trig_pre + seq![presets0[i as int]]);
                        }
                    } else {
                        proof {
                            assert(crate::arpeggiator::full_length::triggered_of(
                                seq![presets0[i as int]],
                                notes1,
                            ) =~= Seq::<Preset>::empty());
                            assert(crate::arpeggiator::full_length::triggered_of(
                                presets0.take(i + 1),
                                notes1,
                            ) =~= trig_pre);
                        }
                    }
                    i = i + 1;
                }
                if any_started {
                    status.reset_beat();
                }
                proof {
                    assert(presets0.take(total as int) =~= presets0);
                    assert(out@.subrange(start.len() as int, out@.len() as int) =~= Seq::<
                        MidiMessage,
                    >::empty());
                    assert(out@ =~= start + out@.subrange(start.len() as int, out@.len() as int));
                    assert(out@ =~= start);
                    assert(presets0 == old(self).presets_view());
                    assert(players0 == old(self).players_view());
                    let notes_e = if old(self).notes_view().contains(note) {
                        old(self).notes_view()
                    } else {
                        old(self).notes_view().push(note)
                    };
                    assert(notes1 == notes_e);
                    let trig_e = crate::arpeggiator::full_length::triggered_of(
                        old(self).presets_view(),
                        notes_e,
                    );
                    assert(trig_e == crate::arpeggiator::full_length::triggered_of(
                        presets0,
                        notes1,
                    ));
                    assert(self.players_view() == self.arpeggios@);
                    assert(self.notes_view() == notes1);
                    assert(self.players_view().len() == old(self).players_view().len()
                        + trig_e.len());
                    assert forall|j: int|
                        0 <= j < old(self).players_view().len() implies self.players_view()[j]
                        == #[trigger] old(self).players_view()[j] by {
                        assert(self.arpeggios@[j] == players0[j]);
                    }
                    assert forall|k: int|
                        #![trigger self.players_view()[k]]
                        old(self).players_view().len() <= k < self.players_view().len()
                            implies fresh_preset_player(
                        self.players_view()[k].1,
                        trig_e[k - old(self).players_view().len()],
                        channel,
                        velocity,
                        *settings,
                    ) by {
                        let trig0 = crate::arpeggiator::full_length::triggered_of(
                            presets0,
                            notes1,
                        );
                        assert(presets0.take(total as int) == presets0);
                        assert(fresh_preset_player(
                            self.arpeggios@[k].1,
                            trig0[k - players0.len()],
                            channel,
                            velocity,
                            *settings,
                        ));
                        assert(trig_e[k - players0.len()] == trig0[k - players0.len()]);
                    }
                }
            },
            MidiMessage::NoteOff { note, .. } => {
                let _removed = remove_pitch(&mut self.notes, note);
                self.release_players(note);
                proof {
                    assert(out@.subrange(start.len() as int, out@.len() as int) =~= Seq::<
                        MidiMessage,
                    >::empty());
                    assert(out@ =~= start + out@.subrange(start.len() as int, out@.len() as int));
                }
            },
            MidiMessage::TimingClock => {
                tick_players(&mut self.arpeggios, out);
                proof {
                    assert(out@ =~= start + out@.subrange(start.len() as int, out@.len() as int));
                    assert forall|j: int|
                        0 <= j < self.player_ticks().len() implies (exists|i: int|
                        0 <= i < old(self).player_ticks().len() && #[trigger] self.player_ticks()[j]
                            == old(self).player_ticks()[i] + 1) || self.player_ticks()[j]
                        == 1 by {
                        let i = choose|i: int|
                            0 <= i < old(self).arpeggios@.len() && (
                            #[trigger] self.arpeggios@[j]).1.ticks@ == old(
                                self,
                            ).arpeggios@[i].1.ticks@ + 1;
                        assert(0 <= i < old(self).player_ticks().len());
                        assert(old(self).player_ticks()[i] == old(self).arpeggios@[i].1.ticks@);
                        assert(self.player_ticks()[j] == old(self).player_ticks()[i] + 1);
                    }
                }
            },
            MidiMessage::Reset => {
                self.notes = Vec::new();
                drain_and_force_stop_vec(&mut self.arpeggios, out);
                proof {
                    assert(out@ =~= start + out@.subrange(start.len() as int, out@.len() as int));
                }
            },
            _ => {
                proof {
                    assert(out@.subrange(start.len() as int, out@.len() as int) =~= Seq::<
                        MidiMessage,
                    >::empty());
                    assert(out@ =~= start + out@.subrange(start.len() as int, out@.len() as int));
                }
            },
        }
    }

    /// Drop a released pitch from every player's trigger set, stopping
    /// players whose set empties; no player is removed or ticked.
    fn release_players(&mut self, n: u8)
        requires
            old(self).inv(),
        ensures
            final(self).inv(),
            final(self).sounding() == old(self).sounding(),
            final(self).count_arpeggios_spec() == old(self).count_arpeggios_spec(),
            final(self).notes@ == old(self).notes@,
            final(self).arpeggios@.len() == old(self).arpeggios@.len(),
            forall|i: int|
                0 <= i < old(self).arpeggios@.len() ==> ((#[trigger] final(self).arpeggios@[i]).1
                    == old(self).arpeggios@[i].1 || final(self).arpeggios@[i].1 == old(
                    self,
                ).arpeggios@[i].1.spec_stopped()),
            final(self).player_ticks() == old(self).player_ticks(),
    {
        let ghost s0 = players_sounding(self.arpeggios@);
        let mut pending: Vec<(Vec<u8>, Player)> = Vec::new();
        core::mem::swap(&mut self.arpeggios, &mut pending);
        let ghost mut consumed: int = 0;
        proof {
            assert(players_sounding(self.arpeggios@) =~= Multiset::<(u8, u8)>::empty());
            assert(Multiset::<(u8, u8)>::empty().add(players_sounding(pending@))
                =~= players_sounding(pending@));
            assert(pending@ =~= old(self).arpeggios@.skip(0));
        }
        while pending.len() > 0
            invariant
                players_wf(self.arpeggios@),
                players_wf(pending@),
                0 <= consumed <= old(self).arpeggios@.len(),
                pending@ == old(self).arpeggios@.skip(consumed),
                self.arpeggios@.len() == consumed,
                forall|i: int|
                    0 <= i < consumed ==> ((#[trigger] self.arpeggios@[i]).1 == old(
                        self,
                    ).arpeggios@[i].1 || self.arpeggios@[i].1 == old(
                        self,
                    ).arpeggios@[i].1.spec_stopped()),
                forall|i: int|
                    0 <= i < consumed ==> (#[trigger] self.arpeggios@[i]).1.ticks@ == old(
                        self,
                    ).arpeggios@[i].1.ticks@,
                players_sounding(self.arpeggios@).add(players_sounding(pending@)) == s0,
                self.notes@ == old(self).notes@,
                self.presets@ == old(self).presets@,
                old(self).inv(),
            decreases pending@.len(),
        {
            let ghost pend0 = pending@;
            proof {
                lemma_players_sounding_first(pend0);
            }
            let (mut note_set, mut player) = pending.remove(0);
            let ghost p_sound = player.sounding();
            proof {
                assert(pending@ =~= pend0.drop_first());
                assert(pend0.drop_first() =~= old(self).arpeggios@.skip(consumed + 1));
                assert(pend0[0] == old(self).arpeggios@[consumed]);
            }
            let removed = remove_pitch(&mut note_set, n);
            if removed && note_set.len() == 0 {
                player.stop();
            }
            let ghost pre = self.arpeggios@;
            self.arpeggios.push((note_set, player));
            proof {
                assert(self.arpeggios@.drop_last() =~= pre);
                assert(players_sounding(self.arpeggios@) == players_sounding(pre).add(p_sound));
                assert(players_sounding(pre).add(p_sound).add(players_sounding(pending@)) =~= s0);
                consumed = consumed + 1;
            }
        }
        proof {
            assert(players_sounding(self.arpeggios@).add(players_sounding(pending@))
                =~= players_sounding(self.arpeggios@));
            assert(self.player_ticks() =~= old(self).player_ticks());
        }
    }

    /// Silence and drop every player.
    pub fn stop_arpeggios(&mut self, out: &mut MidiOutput)
        requires
            old(self).inv(),
        ensures
            final(self).inv(),
            final(self).sounding() == Multiset::<(u8, u8)>::empty(),
            final(self).count_arpeggios_spec() == 0,
            ({
                let emitted = final(out)@.subrange(
                    old(out)@.len() as int,
                    final(out)@.len() as int,
                );
                &&& final(out)@ == old(out)@ + emitted
                &&& midi::live_after(old(self).sounding(), emitted) == Multiset::<(u8, u8)>::empty()
                &&& midi::offs_covered(old(self).sounding(), emitted)
            }),
    {
        drain_and_force_stop_vec(&mut self.arpeggios, out);
    }

    pub fn count_arpeggios(&self) -> (r: usize)
        ensures
            r == self.count_arpeggios_spec(),
    {
        self.arpeggios.len()
    }
}

/// Front decomposition of the echoed notes' sounding multiset.
pub(crate) proof fn lemma_thru_sounding_first(s: Seq<NoteDetails>)
    requires
        s.len() >= 1,
    ensures
        thru_sounding(s) == Multiset::<(u8, u8)>::empty().insert((s[0].c, s[0].n)).add(
            thru_sounding(s.drop_first()),
        ),
    decreases s.len(),
{
    if s.len() == 1 {
        assert(s.drop_last() =~= Seq::<NoteDetails>::empty());
        assert(s.drop_first() =~= Seq::<NoteDetails>::empty());
        assert(thru_sounding(s) == thru_sounding(s.drop_last()).insert((s.last().c, s.last().n)));
        assert(Multiset::<(u8, u8)>::empty().insert((s[0].c, s[0].n)).add(
            Multiset::<(u8, u8)>::empty(),
        ) =~= Multiset::<(u8, u8)>::empty().insert((s[0].c, s[0].n)));
    } else {
        lemma_thru_sounding_first(s.drop_last());
        assert(s.drop_last().drop_first() =~= s.drop_first().drop_last());
        assert(s.drop_last()[0] == s[0]);
        assert(s.drop_first().last() == s.last());
        assert(Multiset::<(u8, u8)>::empty().insert((s[0].c, s[0].n)).add(
            thru_sounding(s.drop_first().drop_last()),
        ).insert((s.last().c, s.last().n)) =~= Multiset::<(u8, u8)>::empty().insert(
            (s[0].c, s[0].n),
        ).add(thru_sounding(s.drop_first())));
    }
}

/// Removing one entry removes one copy of its key.
pub(crate) proof fn lemma_thru_sounding_remove(s: Seq<NoteDetails>, i: int)
    requires
        0 <= i < s.len(),
    ensures
        thru_sounding(s.remove(i)) == thru_sounding(s).remove((s[i].c, s[i].n)),
    decreases s.len(),
{
    if i == s.len() - 1 {
        assert(s.remove(i) =~= s.drop_last());
        assert(thru_sounding(s) == thru_sounding(s.drop_last()).insert((s.last().c, s.last().n)));
        assert(thru_sounding(s.drop_last()).insert((s.last().c, s.last().n)).remove(
            (s[i].c, s[i].n),
        ) =~= thru_sounding(s.drop_last()));
    } else {
        lemma_thru_sounding_remove(s.drop_last(), i);
        assert(s.remove(i).drop_last() =~= s.drop_last().remove(i));
        assert(s.remove(i).last() == s.last());
        assert(s.drop_last()[i] == s[i]);
        assert(thru_sounding(s.remove(i)) == thru_sounding(s.drop_last().remove(i)).insert(
            (s.last().c, s.last().n),
        ));
        let k = ((s[i].c, s[i].n));
        assert(thru_sounding(s.drop_last()).count(k) >= 1) by {
            lemma_thru_sounding_count_ge(s.drop_last(), i);
        }
        assert(thru_sounding(s.drop_last()).remove(k).insert((s.last().c, s.last().n))
            =~= thru_sounding(s.drop_last()).insert((s.last().c, s.last().n)).remove(k));
    }
}

/// An entry's key occurs in the multiset.
pub(crate) proof fn lemma_thru_sounding_count_ge(s: Seq<NoteDetails>, i: int)
    requires
        0 <= i < s.len(),
    ensures
        thru_sounding(s).count(((s[i].c, s[i].n))) >= 1,
    decreases s.len(),
{
    if i == s.len() - 1 {
    } else {
        lemma_thru_sounding_count_ge(s.drop_last(), i);
        assert(s.drop_last()[i] == s[i]);
    }
}

/// A key no entry carries removes nothing.
pub(crate) proof fn lemma_thru_sounding_absent(s: Seq<NoteDetails>, channel: u8, note: u8)
    requires
        forall|j: int| 0 <= j < s.len() ==> !((#[trigger] s[j]).c == channel && s[j].n == note),
    ensures
        thru_sounding(s).remove((channel, note)) == thru_sounding(s),
    decreases s.len(),
{
    if s.len() == 0 {
        assert(thru_sounding(s).remove((channel, note)) =~= thru_sounding(s));
    } else {
        assert(forall|j: int|
            0 <= j < s.len() - 1 ==> #[trigger] s.drop_last()[j] == s[j]);
        lemma_thru_sounding_absent(s.drop_last(), channel, note);
        lemma_thru_sounding_no_key(s, channel, note);
        assert(thru_sounding(s).remove((channel, note)) =~= thru_sounding(s));
    }
}

/// A key no entry carries has count zero.
pub(crate) proof fn lemma_thru_sounding_no_key(s: Seq<NoteDetails>, channel: u8, note: u8)
    requires
        forall|j: int| 0 <= j < s.len() ==> !((#[trigger] s[j]).c == channel && s[j].n == note),
    ensures
        thru_sounding(s).count(((channel, note))) == 0,
    decreases s.len(),
{
    if s.len() > 0 {
        assert(forall|j: int|
            0 <= j < s.len() - 1 ==> #[trigger] s.drop_last()[j] == s[j]);
        lemma_thru_sounding_no_key(s.drop_last(), channel, note);
        assert(s[s.len() - 1].c != channel || s[s.len() - 1].n != note);
    }
}

} // verus!
