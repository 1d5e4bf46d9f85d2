//! Note orderings and pattern expansion: how a set of held notes becomes
//! a multi-step sequence of a requested length.

use vstd::prelude::*;
use vstd::multiset::Multiset;
use crate::arpeggio::{NoteDetails, Step};
use crate::midi::{MidiMessage, MidiOutput, MidiReceiver};
use crate::arpeggio::timed::{PlayerCommand, PlayerCommands};
use crate::presets::Preset;
use crate::settings::{is_settings_message, Settings, SettingsGetter};
use crate::status::StatusSignal;

pub mod synced;
pub mod timed;
pub mod full_length;

verus! {

broadcast use vstd::seq_lib::group_to_multiset_ensures;

/// The order notes are arranged in: ascending or descending pitch.
#[derive(Copy, Clone, PartialEq, Eq, Structural, Debug)]
pub enum Pattern {
    Up,
    Down,
}

/// Which state machine consumes the stream.
#[derive(Copy, Clone, PartialEq, Eq, Structural, Debug)]
pub enum ArpeggiatorMode {
    Passthrough,
    RepeatRecorder,
    TimedPedalRecorder,
    PressHold,
    MutatingHold,
    SyncedPedalRecorder,
    EvenMutator,
    PrerecordedSets,
    TriggeredChords,
}

/// The order a pattern sorts by: at-most for `Up`, at-least for `Down`.
pub open spec fn pitch_le(p: Pattern, a: NoteDetails, b: NoteDetails) -> bool {
    match p {
        Pattern::Up => a.n <= b.n,
        Pattern::Down => a.n >= b.n,
    }
}

/// Stable insertion into a sorted sequence: `x` goes after any element it
/// compares equal to.
pub open spec fn insert_sorted(p: Pattern, s: Seq<NoteDetails>, x: NoteDetails) -> Seq<NoteDetails>
    decreases s.len(),
{
    if s.len() == 0 {
        seq![x]
    } else if pitch_le(p, s.last(), x) {
        s.push(x)
    } else {
        insert_sorted(p, s.drop_last(), x).push(s.last())
    }
}

/// Stable insertion sort by the pattern's order.
pub open spec fn sort_notes(p: Pattern, s: Seq<NoteDetails>) -> Seq<NoteDetails>
    decreases s.len(),
{
    if s.len() == 0 {
        Seq::empty()
    } else {
        insert_sorted(p, sort_notes(p, s.drop_last()), s.last())
    }
}

/// One expansion round: append a reversed repetition of the interior — the
/// whole sequence when it has one or two notes, all but the first and last
/// notes otherwise.
pub open spec fn expand_once(s: Seq<NoteDetails>) -> Seq<NoteDetails> {
    if s.len() == 0 {
        s
    } else if s.len() == 1 {
        s + seq![s[0]]
    } else if s.len() == 2 {
        s + seq![s[1], s[0]]
    } else {
        s + Seq::new((s.len() - 2) as nat, |k: int| s[s.len() - 2 - k])
    }
}

/// Expansion rounds applied until at least `steps` notes are available.
pub open spec fn expand_to(s: Seq<NoteDetails>, steps: nat) -> Seq<NoteDetails>
    decreases (if s.len() < steps {
        steps - s.len()
    } else {
        0int
    }),
{
    if s.len() == 0 || s.len() >= steps {
        s
    } else {
        expand_to(expand_once(s), steps)
    }
}

/// Notes in step `i` when `n` notes are spread over `s` steps: earlier
/// steps take the remainder.
pub open spec fn chunk_len(n: int, s: int, i: int) -> int {
    if i < n % s {
        n / s + 1
    } else {
        n / s
    }
}

/// Index of the first note of step `i`.
pub open spec fn chunk_start(n: int, s: int, i: int) -> int {
    i * (n / s) + (if i <= n % s {
        i
    } else {
        n % s
    })
}

/// The note sequences of a step list, in order.
pub open spec fn steps_notes(r: Seq<Step>) -> Seq<Seq<NoteDetails>> {
    Seq::new(r.len(), |i: int| r[i]@)
}

/// All notes of a step list, concatenated in playing order.
pub open spec fn concat_steps(ss: Seq<Seq<NoteDetails>>) -> Seq<NoteDetails>
    decreases ss.len(),
{
    if ss.len() == 0 {
        Seq::empty()
    } else {
        concat_steps(ss.drop_last()) + ss.last()
    }
}

/// A note occurring anywhere in the concatenation occurs in some step.
pub proof fn lemma_concat_gives_step(ss: Seq<Seq<NoteDetails>>, x: NoteDetails)
    requires
        concat_steps(ss).to_multiset().count(x) >= 1,
    ensures
        exists|i: int| 0 <= i < ss.len() && #[trigger] ss[i].contains(x),
    decreases ss.len(),
{
    if ss.len() == 0 {
        assert(concat_steps(ss).to_multiset().count(x) == 0);
    } else {
        vstd::seq_lib::lemma_multiset_commutative(concat_steps(ss.drop_last()), ss.last());
        if ss.last().to_multiset().count(x) >= 1 {
            assert(ss.last().contains(x));
            assert(ss[ss.len() - 1].contains(x));
        } else {
            lemma_concat_gives_step(ss.drop_last(), x);
            let i = choose|i: int| 0 <= i < ss.drop_last().len() && #[trigger] ss.drop_last()[i].contains(x);
            assert(ss[i].contains(x));
        }
    }
}

/// Inserting keeps the bag of notes.
proof fn lemma_insert_sorted_multiset(p: Pattern, s: Seq<NoteDetails>, x: NoteDetails)
    ensures
        insert_sorted(p, s, x).to_multiset() == s.to_multiset().insert(x),
        insert_sorted(p, s, x).len() == s.len() + 1,
    decreases s.len(),
{
    if s.len() == 0 {
        assert(seq![x] =~= Seq::<NoteDetails>::empty().push(x));
        assert(seq![x].to_multiset() == Seq::<NoteDetails>::empty().to_multiset().insert(x));
        assert(Seq::<NoteDetails>::empty().to_multiset() =~= Multiset::<NoteDetails>::empty());
    } else if pitch_le(p, s.last(), x) {
    } else {
        lemma_insert_sorted_multiset(p, s.drop_last(), x);
        assert(s.drop_last().push(s.last()) =~= s);
        assert(insert_sorted(p, s, x).to_multiset() == insert_sorted(
            p,
            s.drop_last(),
            x,
        ).to_multiset().insert(s.last()));
        assert(s.to_multiset() == s.drop_last().to_multiset().insert(s.last()));
        assert(s.drop_last().to_multiset().insert(x).insert(s.last()) =~= s.drop_last()
            .to_multiset().insert(s.last()).insert(x));
    }
}

/// Sorting keeps the bag of notes and the length.
pub proof fn lemma_sort_notes_multiset(p: Pattern, s: Seq<NoteDetails>)
    ensures
        sort_notes(p, s).to_multiset() == s.to_multiset(),
        sort_notes(p, s).len() == s.len(),
    decreases s.len(),
{
    if s.len() == 0 {
        assert(Seq::<NoteDetails>::empty().to_multiset() =~= Multiset::<NoteDetails>::empty());
        assert(s.to_multiset() =~= Multiset::<NoteDetails>::empty());
    } else {
        lemma_sort_notes_multiset(p, s.drop_last());
        lemma_insert_sorted_multiset(p, sort_notes(p, s.drop_last()), s.last());
        assert(s.drop_last().push(s.last()) =~= s);
        assert(s.to_multiset() == s.drop_last().to_multiset().insert(s.last()));
    }
}

/// One expansion round keeps the old notes as a prefix and only adds.
proof fn lemma_expand_once_props(s: Seq<NoteDetails>)
    requires
        s.len() >= 1,
    ensures
        expand_once(s).len() > s.len(),
        s.to_multiset().subset_of(expand_once(s).to_multiset()),
    decreases s.len(),
{
    let e = expand_once(s);
    let extra = e.skip(s.len() as int);
    assert(e =~= s + extra);
    vstd::seq_lib::lemma_multiset_commutative(s, extra);
}

/// Expansion reaches the requested length without losing notes.
pub proof fn lemma_expand_to_props(s: Seq<NoteDetails>, steps: nat)
    requires
        s.len() >= 1,
    ensures
        expand_to(s, steps).len() >= steps,
        expand_to(s, steps).len() >= s.len(),
        s.to_multiset().subset_of(expand_to(s, steps).to_multiset()),
    decreases (if s.len() < steps {
        steps - s.len()
    } else {
        0int
    }),
{
    if s.len() >= steps {
    } else {
        lemma_expand_once_props(s);
        lemma_expand_to_props(expand_once(s), steps);
    }
}

impl Pattern {
    /// Arrange `notes` in this pattern's order, expand them until at least
    /// one note per step is available, and spread them over exactly
    /// `steps` steps, earlier steps first taking the surplus.
    ///
    /// The result is exactly `steps` steps whose concatenation is the
    /// expansion of the sorted input: at least `max(notes, steps)` notes
    /// in total, and every input note kept at least once.
    pub fn of(&self, notes: Vec<NoteDetails>, steps: usize) -> (r: Vec<Step>)
        requires
            steps >= 1,
            notes@.len() >= 1,
            steps <= usize::MAX / 2,
            notes@.len() <= usize::MAX / 2,
        ensures
            r@.len() == steps,
            ({
                let expanded = expand_to(sort_notes(*self, notes@), steps as nat);
                &&& concat_steps(steps_notes(r@)) == expanded
                &&& expanded.len() >= steps
                &&& expanded.len() >= notes@.len()
                &&& forall|i: int|
                    0 <= i < steps ==> (#[trigger] r@[i]@) == expanded.subrange(
                        chunk_start(expanded.len() as int, steps as int, i),
                        chunk_start(expanded.len() as int, steps as int, i) + chunk_len(
                            expanded.len() as int,
                            steps as int,
                            i,
                        ),
                    )
                &&& notes@.to_multiset().subset_of(expanded.to_multiset())
            }),
    {
        let ghost input = notes@;
        // put the notes in order based on the pattern type
        let mut pool: Vec<NoteDetails> = sort_by_pattern(*self, notes);
        proof {
            lemma_sort_notes_multiset(*self, input);
        }
        // expand notes until there are at least enough notes for one note
        // per step
        let ghost sorted = pool@;
        while pool.len() < steps
            invariant
                steps >= 1,
                steps <= usize::MAX / 2,
                sorted.len() <= usize::MAX / 2,
                pool@.len() >= 1,
                pool@.len() < 2 * steps || pool@ == sorted,
                expand_to(pool@, steps as nat) == expand_to(sorted, steps as nat),
            decreases (if pool@.len() < steps {
                steps - pool@.len()
            } else {
                0int
            }),
        {
            expand(&mut pool);
        }
        let ghost expanded = pool@;
        proof {
            assert(expand_to(pool@, steps as nat) == pool@);
            lemma_sort_notes_multiset(*self, input);
            lemma_expand_to_props(sorted, steps as nat);
            assert(expanded.len() < usize::MAX);
        }
        // calculate how many notes in each step (prioritising earlier
        // steps) and generate the steps
        let total: usize = pool.len();
        let q: usize = total / steps;
        let rem: usize = total % steps;
        let mut result: Vec<Step> = Vec::new();
        let mut pos: usize = 0;
        let mut i: usize = 0;
        proof {
            assert(chunk_start(total as int, steps as int, 0) == 0);
            assert(concat_steps(steps_notes(result@)) =~= expanded.take(0));
        }
        while i < steps
            invariant
                i <= steps,
                steps >= 1,
                total == expanded.len(),
                total < usize::MAX,
                q == total as int / steps as int,
                rem == total as int % steps as int,
                result@.len() == i,
                pos == chunk_start(total as int, steps as int, i as int),
                pos <= total,
                concat_steps(steps_notes(result@)) == expanded.take(pos as int),
                pool@ == expanded,
                forall|j: int|
                    0 <= j < i ==> (#[trigger] result@[j]@) == expanded.subrange(
                        chunk_start(total as int, steps as int, j),
                        chunk_start(total as int, steps as int, j) + chunk_len(
                            total as int,
                            steps as int,
                            j,
                        ),
                    ),
            decreases steps - i,
        {
            let cnt: usize = if i < rem {
                q + 1
            } else {
                q
            };
            proof {
                lemma_chunk_step(total as int, steps as int, i as int);
            }
            let mut taken: Vec<NoteDetails> = Vec::new();
            let mut k: usize = 0;
            while k < cnt
                invariant
                    k <= cnt,
                    pos + cnt <= total,
                    total == pool@.len(),
                    taken@ == pool@.subrange(pos as int, pos + k),
                decreases cnt - k,
            {
                taken.push(pool[pos + k]);
                proof {
                    assert(taken@ =~= pool@.subrange(pos as int, pos + k + 1));
                }
                k = k + 1;
            }
            let s = Step::notes(taken);
            let ghost pre_result = result@;
            result.push(s);
            proof {
                assert(steps_notes(result@).drop_last() =~= steps_notes(pre_result));
                assert(steps_notes(result@).last() == s@);
                assert(concat_steps(steps_notes(result@)) == concat_steps(steps_notes(pre_result))
                    + s@);
                assert(expanded.take(pos + cnt) =~= expanded.take(pos as int) + expanded.subrange(
                    pos as int,
                    pos + cnt,
                ));
            }
            pos = pos + cnt;
            i = i + 1;
        }
        proof {
            lemma_chunk_total(total as int, steps as int);
            assert(expanded.take(total as int) =~= expanded);
        }
        result
    }
}

/// Step `i`'s chunk ends where step `i + 1`'s begins, and fits.
proof fn lemma_chunk_step(n: int, s: int, i: int)
    requires
        n >= 0,
        s >= 1,
        0 <= i < s,
    ensures
        chunk_start(n, s, i) + chunk_len(n, s, i) == chunk_start(n, s, i + 1),
        chunk_start(n, s, i + 1) <= n,
        chunk_len(n, s, i) == (if i < n % s {
            n / s + 1
        } else {
            n / s
        }),
{
    let q = n / s;
    let r = n % s;
    assert((i + 1) * q == i * q + q) by (nonlinear_arith);
    lemma_chunk_start_le(n, s, i + 1);
}

/// Chunk starts never pass the end of the notes.
proof fn lemma_chunk_start_le(n: int, s: int, i: int)
    requires
        n >= 0,
        s >= 1,
        0 <= i <= s,
    ensures
        chunk_start(n, s, i) <= n,
{
    let q = n / s;
    let r = n % s;
    vstd::arithmetic::div_mod::lemma_fundamental_div_mod(n, s);
    assert(i * q <= s * q) by (nonlinear_arith)
        requires
            0 <= i <= s,
            q >= 0,
    ;
    assert(n == s * q + r);
    assert(s * q == (s as int) * q) by (nonlinear_arith);
}

/// The chunks together cover the notes exactly.
proof fn lemma_chunk_total(n: int, s: int)
    requires
        n >= 0,
        s >= 1,
    ensures
        chunk_start(n, s, s as int) == n,
{
    let q = n / s;
    let r = n % s;
    vstd::arithmetic::div_mod::lemma_fundamental_div_mod(n, s);
    
}

/// Exec comparison in the pattern's order.
fn pitch_le_exec(p: Pattern, a: NoteDetails, b: NoteDetails) -> (r: bool)
    ensures
        r == pitch_le(p, a, b),
{
    match p {
        Pattern::Up => a.n <= b.n,
        Pattern::Down => a.n >= b.n,
    }
}

/// Where stable insertion puts `x`: before the maximal run of elements
/// that do not accept it.
proof fn lemma_insert_sorted_at(p: Pattern, s: Seq<NoteDetails>, x: NoteDetails, j: int)
    requires
        0 <= j <= s.len(),
        forall|k: int| j <= k < s.len() ==> !pitch_le(p, #[trigger] s[k], x),
        j > 0 ==> pitch_le(p, s[j - 1], x),
    ensures
        insert_sorted(p, s, x) == s.take(j) + seq![x] + s.skip(j),
    decreases s.len(),
{
    if j == s.len() {
        if s.len() == 0 {
            assert(insert_sorted(p, s, x) =~= s.take(j) + seq![x] + s.skip(j));
        } else {
            assert(pitch_le(p, s.last(), x));
            assert(s.take(j) =~= s);
            assert(s.skip(j) =~= Seq::<NoteDetails>::empty());
            assert(insert_sorted(p, s, x) =~= s.take(j) + seq![x] + s.skip(j));
        }
    } else {
        assert(!pitch_le(p, s[s.len() - 1], x));
        lemma_insert_sorted_at(p, s.drop_last(), x, j);
        assert(s.drop_last().take(j) =~= s.take(j));
        assert(insert_sorted(p, s, x) == (s.drop_last().take(j) + seq![x] + s.drop_last().skip(
            j,
        )).push(s.last()));
        assert((s.take(j) + seq![x] + s.drop_last().skip(j)).push(s.last()) =~= s.take(j) + seq![x]
            + s.skip(j));
    }
}

/// Stable insertion sort of the notes in the pattern's order.
fn sort_by_pattern(p: Pattern, notes: Vec<NoteDetails>) -> (r: Vec<NoteDetails>)
    ensures
        r@ == sort_notes(p, notes@),
{
    let n: usize = notes.len();
    let mut out: Vec<NoteDetails> = Vec::new();
    let mut i: usize = 0;
    proof {
        assert(notes@.take(0) =~= Seq::<NoteDetails>::empty());
    }
    while i < n
        invariant
            i <= n,
            n == notes@.len(),
            out@ == sort_notes(p, notes@.take(i as int)),
            out@.len() == i,
        decreases n - i,
    {
        let x = notes[i];
        let mut j: usize = out.len();
        while j > 0 && !pitch_le_exec(p, out[j - 1], x)
            invariant
                j <= out@.len(),
                forall|k: int| j <= k < out@.len() ==> !pitch_le(p, #[trigger] out@[k], x),
            decreases j,
        {
            j = j - 1;
        }
        proof {
            lemma_insert_sorted_at(p, out@, x, j as int);
            lemma_insert_sorted_multiset(p, out@, x);
        }
        out.insert(j, x);
        proof {
            assert(out@ =~= sort_notes(p, notes@.take(i as int)).take(j as int) + seq![x]
                + sort_notes(p, notes@.take(i as int)).skip(j as int));
            assert(notes@.take(i + 1).drop_last() =~= notes@.take(i as int));
            assert(notes@.take(i + 1).last() == x);
        }
        i = i + 1;
    }
    proof {
        assert(notes@.take(n as int) =~= notes@);
    }
    out
}

/// Whether the passthrough mode forwards a message: notes and expression
/// pass, patch-change traffic and system messages do not.
pub open spec fn spec_should_passthrough(message: MidiMessage) -> bool {
    match message {
        MidiMessage::ProgramChange { .. } => false,
        MidiMessage::ControlChange { control, .. } => control != crate::midi::CC_BANK_SELECT
            && control != crate::midi::CC_BANK_SELECT_LSB,
        MidiMessage::NoteOff { .. } => true,
        MidiMessage::NoteOn { .. } => true,
        MidiMessage::PolyphonicKeyPressure { .. } => true,
        MidiMessage::ChannelPressure { .. } => true,
        MidiMessage::PitchBendChange { .. } => true,
        _ => false,
    }
}

/// A note message with the configured fixed velocity written in,
/// saturating at 127; other messages are untouched.
pub open spec fn spec_fixed_velocity(message: MidiMessage, fixed_velocity: Option<u8>)
    -> MidiMessage {
    match fixed_velocity {
        None => message,
        Some(fixed) => {
            let v = if fixed >= 127 {
                127u8
            } else {
                fixed
            };
            match message {
                MidiMessage::NoteOff { channel, note, .. } => MidiMessage::NoteOff {
                    channel,
                    note,
                    velocity: v,
                },
                MidiMessage::NoteOn { channel, note, .. } => MidiMessage::NoteOn {
                    channel,
                    note,
                    velocity: v,
                },
                MidiMessage::PolyphonicKeyPressure { channel, note, .. } =>
                    MidiMessage::PolyphonicKeyPressure { channel, note, pressure: v },
                _ => message,
            }
        },
    }
}

/// What the passthrough mode emits for one message.
pub open spec fn spec_passthrough_out(message: MidiMessage, settings: Settings) -> Seq<
    MidiMessage,
> {
    if !spec_should_passthrough(message) {
        Seq::empty()
    } else {
        let mapped = spec_fixed_velocity(message, settings.fixed_velocity);
        match settings.double_notes {
            Some(d) => crate::midi::doubled_msgs(mapped, d@),
            None => seq![mapped],
        }
    }
}

/// The passthrough mode: forward notes and expression unchanged (with
/// the fixed-velocity override and note doubling applied), drop patch
/// changes and system traffic.
pub struct Passthrough {
}

impl Passthrough {
    pub fn new() -> (r: Passthrough) {
        Passthrough {}
    }

    pub fn should_passthrough(message: &MidiMessage) -> (r: bool)
        ensures
            r == spec_should_passthrough(*message),
    {
        match message {
            MidiMessage::ProgramChange { .. } => false,
            MidiMessage::ControlChange { control, .. } => *control != crate::midi::CC_BANK_SELECT
                && *control != crate::midi::CC_BANK_SELECT_LSB,
            MidiMessage::NoteOff { .. } => true,
            MidiMessage::NoteOn { .. } => true,
            MidiMessage::PolyphonicKeyPressure { .. } => true,
            MidiMessage::ChannelPressure { .. } => true,
            MidiMessage::PitchBendChange { .. } => true,
            _ => false,
        }
    }

    /// Forward one message as configured.
    pub fn process(&mut self, message: MidiMessage, settings: &Settings, out: &mut crate::midi::MidiOutput)
        ensures
            final(out)@ == old(out)@ + spec_passthrough_out(message, *settings),
    {
        let ghost start = out@;
        if Passthrough::should_passthrough(&message) {
            let mapped: MidiMessage = match settings.fixed_velocity {
                None => message,
                Some(fixed) => {
                    let v: u8 = if fixed >= 127 {
                        127
                    } else {
                        fixed
                    };
                    match message {
                        MidiMessage::NoteOff { channel, note, .. } => MidiMessage::NoteOff {
                            channel,
                            note,
                            velocity: v,
                        },
                        MidiMessage::NoteOn { channel, note, .. } => MidiMessage::NoteOn {
                            channel,
                            note,
                            velocity: v,
                        },
                        MidiMessage::PolyphonicKeyPressure { channel, note, .. } =>
                            MidiMessage::PolyphonicKeyPressure { channel, note, pressure: v },
                        _ => message,
                    }
                },
            };
            match &settings.double_notes {
                Some(doubling) => {
                    out.send_with_doubling(mapped, doubling);
                },
                None => {
                    out.send(mapped);
                    proof {
                        assert(out@ =~= start + seq![mapped]);
                    }
                },
            }
        } else {
            proof {
                assert(out@ =~= start + Seq::<MidiMessage>::empty());
            }
        }
    }

    pub fn stop_arpeggios(&mut self) {
    }

    pub fn count_arpeggios(&self) -> (r: usize)
        ensures
            r == 1,
    {
        1
    }
}

/// One exec expansion round, as [`expand_once`] describes.
fn expand(notes: &mut Vec<NoteDetails>)
    requires
        old(notes)@.len() >= 1,
        old(notes)@.len() < usize::MAX / 2,
    ensures
        final(notes)@ == expand_once(old(notes)@),
        final(notes)@.len() > old(notes)@.len(),
        final(notes)@.len() <= 2 * old(notes)@.len(),
{
    let ghost orig = notes@;
    let n: usize = notes.len();
    if n == 1 {
        let d = notes[0];
        notes.push(d);
        proof {
            assert(notes@ =~= expand_once(orig));
        }
    } else if n == 2 {
        let d1 = notes[1];
        let d0 = notes[0];
        notes.push(d1);
        notes.push(d0);
        proof {
            assert(notes@ =~= expand_once(orig));
        }
    } else {
        // repeat all except the first and last notes, in reverse
        let mut k: usize = 0;
        while k < n - 2
            invariant
                k <= n - 2,
                3 <= n <= usize::MAX / 2,
                n == orig.len(),
                notes@ == orig + Seq::new(k as nat, |t: int| orig[n - 2 - t]),
            decreases n - 2 - k,
        {
            let d = notes[n - 2 - k];
            proof {
                assert(notes@[n - 2 - k] == orig[n - 2 - k]);
            }
            notes.push(d);
            proof {
                assert(notes@ =~= orig + Seq::new((k + 1) as nat, |t: int| orig[n - 2 - t]));
            }
            k = k + 1;
        }
        proof {
            assert(notes@ =~= expand_once(orig));
        }
    }
}


/// The active mode state machine, as a tagged variant: the dispatcher
/// owns it by value and replaces it wholesale on a settings change.
pub enum ActiveArpeggiator {
    Passthrough(Passthrough),
    RepeatRecorder(crate::arpeggiator::timed::RepeatRecorder),
    TimedPedalRecorder(crate::arpeggiator::timed::PedalRecorder),
    PressHold(crate::arpeggiator::synced::PressHold),
    MutatingHold(crate::arpeggiator::synced::MutatingHold),
    SyncedPedalRecorder(crate::arpeggiator::synced::PedalRecorder),
    EvenMutator(crate::arpeggiator::full_length::EvenMutator),
    PrerecordedSets(crate::arpeggiator::synced::PrerecordedSets),
    TriggeredChords(crate::arpeggiator::full_length::TriggeredChords),
}

/// Everything one message does to the active mode, lifted per variant to
/// the mode machines' own step relations: the post-state, the appended
/// output and the issued worker commands are exactly what the variant's
/// own `process` relation allows.
pub open spec fn spec_active_step(
    pre: ActiveArpeggiator,
    post: ActiveArpeggiator,
    message: MidiMessage,
    settings: Settings,
    now: u64,
    out0: Seq<MidiMessage>,
    out1: Seq<MidiMessage>,
    cmds0: Seq<PlayerCommand>,
    cmds1: Seq<PlayerCommand>,
) -> bool {
    match (pre, post) {
        (ActiveArpeggiator::Passthrough(_), ActiveArpeggiator::Passthrough(_)) => out1 == out0
            + spec_passthrough_out(message, settings) && cmds1 == cmds0,
        (
            ActiveArpeggiator::RepeatRecorder(a0),
            ActiveArpeggiator::RepeatRecorder(a1),
        ) => crate::arpeggiator::timed::repeat_recorder_step(
            a0,
            a1,
            message,
            settings,
            now,
            cmds0,
            cmds1,
        ) && out1 == out0,
        (
            ActiveArpeggiator::TimedPedalRecorder(a0),
            ActiveArpeggiator::TimedPedalRecorder(a1),
        ) => crate::arpeggiator::timed::timed_pedal_step(
            a0,
            a1,
            message,
            settings,
            now,
            out0,
            out1,
            cmds0,
            cmds1,
        ),
        (ActiveArpeggiator::PressHold(a0), ActiveArpeggiator::PressHold(a1)) =>
            crate::arpeggiator::synced::press_hold_step(a0, a1, message, settings, now, out0, out1)
            && cmds1 == cmds0,
        (ActiveArpeggiator::MutatingHold(a0), ActiveArpeggiator::MutatingHold(a1)) =>
            crate::arpeggiator::synced::mutating_hold_step(a0, a1, message, settings, out0, out1)
            && cmds1 == cmds0,
        (
            ActiveArpeggiator::SyncedPedalRecorder(a0),
            ActiveArpeggiator::SyncedPedalRecorder(a1),
        ) => crate::arpeggiator::synced::pedal_recorder_step(
            a0,
            a1,
            message,
            settings,
            now,
            out0,
            out1,
        ) && cmds1 == cmds0,
        (ActiveArpeggiator::EvenMutator(a0), ActiveArpeggiator::EvenMutator(a1)) =>
            crate::arpeggiator::full_length::even_mutator_step(a0, a1, message, settings, out0, out1)
            && cmds1 == cmds0,
        (ActiveArpeggiator::PrerecordedSets(a0), ActiveArpeggiator::PrerecordedSets(a1)) =>
            crate::arpeggiator::synced::prerecorded_sets_step(a0, a1, message, settings, out0, out1)
            && cmds1 == cmds0,
        (ActiveArpeggiator::TriggeredChords(a0), ActiveArpeggiator::TriggeredChords(a1)) =>
            crate::arpeggiator::full_length::triggered_chords_step(
            a0,
            a1,
            message,
            settings,
            out0,
            out1,
        ) && cmds1 == cmds0,
        _ => false,
    }
}

impl ActiveArpeggiator {
    pub open spec fn inv(&self) -> bool {
        match self {
            ActiveArpeggiator::Passthrough(_) => true,
            ActiveArpeggiator::RepeatRecorder(a) => a.inv(),
            ActiveArpeggiator::TimedPedalRecorder(a) => a.inv(),
            ActiveArpeggiator::PressHold(a) => a.inv(),
            ActiveArpeggiator::MutatingHold(a) => a.inv(),
            ActiveArpeggiator::SyncedPedalRecorder(a) => a.inv(),
            ActiveArpeggiator::EvenMutator(a) => a.inv(),
            ActiveArpeggiator::PrerecordedSets(a) => a.inv(),
            ActiveArpeggiator::TriggeredChords(a) => a.inv(),
        }
    }

    /// All wall-clock state of the mode lies in the past of `now`.
    pub open spec fn time_wf(&self, now: u64) -> bool {
        match self {
            ActiveArpeggiator::RepeatRecorder(a) => a.time_wf(now),
            ActiveArpeggiator::TimedPedalRecorder(a) => a.time_wf(now),
            ActiveArpeggiator::PressHold(a) => a.time_wf(now),
            ActiveArpeggiator::SyncedPedalRecorder(a) => a.time_wf(now),
            _ => true,
        }
    }

    /// The notes the active mode currently has sounding.
    pub open spec fn sounding(&self) -> Multiset<(u8, u8)> {
        match self {
            ActiveArpeggiator::Passthrough(_) => Multiset::empty(),
            ActiveArpeggiator::RepeatRecorder(_) => Multiset::empty(),
            ActiveArpeggiator::TimedPedalRecorder(a) => a.sounding(),
            ActiveArpeggiator::PressHold(a) => a.sounding(),
            ActiveArpeggiator::MutatingHold(a) => a.sounding(),
            ActiveArpeggiator::SyncedPedalRecorder(a) => a.sounding(),
            ActiveArpeggiator::EvenMutator(a) => a.sounding(),
            ActiveArpeggiator::PrerecordedSets(a) => a.sounding(),
            ActiveArpeggiator::TriggeredChords(a) => a.sounding(),
        }
    }

    /// The mode this machine implements.
    pub open spec fn mode(&self) -> ArpeggiatorMode {
        match self {
            ActiveArpeggiator::Passthrough(_) => ArpeggiatorMode::Passthrough,
            ActiveArpeggiator::RepeatRecorder(_) => ArpeggiatorMode::RepeatRecorder,
            ActiveArpeggiator::TimedPedalRecorder(_) => ArpeggiatorMode::TimedPedalRecorder,
            ActiveArpeggiator::PressHold(_) => ArpeggiatorMode::PressHold,
            ActiveArpeggiator::MutatingHold(_) => ArpeggiatorMode::MutatingHold,
            ActiveArpeggiator::SyncedPedalRecorder(_) => ArpeggiatorMode::SyncedPedalRecorder,
            ActiveArpeggiator::EvenMutator(_) => ArpeggiatorMode::EvenMutator,
            ActiveArpeggiator::PrerecordedSets(_) => ArpeggiatorMode::PrerecordedSets,
            ActiveArpeggiator::TriggeredChords(_) => ArpeggiatorMode::TriggeredChords,
        }
    }

    /// Feed one message to the active mode.
    pub fn process<SS: StatusSignal>(
        &mut self,
        message: MidiMessage,
        settings: &Settings,
        now: u64,
        out: &mut MidiOutput,
        cmds: &mut PlayerCommands,
        status: &mut SS,
    )
        requires
            old(self).inv(),
            old(self).time_wf(now),
            message.wf(),
            settings.wf(),
            <SS as MidiReceiver>::inv(old(status)),
        ensures
            final(self).inv(),
            final(self).time_wf(now),
            final(self).mode() == old(self).mode(),
            old(cmds)@.is_prefix_of(final(cmds)@),
            <SS as MidiReceiver>::inv(final(status)),
            spec_active_step(
                *old(self),
                *final(self),
                message,
                *settings,
                now,
                old(out)@,
                final(out)@,
                old(cmds)@,
                final(cmds)@,
            ),
    {
        match self {
            ActiveArpeggiator::Passthrough(a) => {
                a.process(message, settings, out);
            },
            ActiveArpeggiator::RepeatRecorder(a) => {
                a.process(message, settings, now, cmds, status);
            },
            ActiveArpeggiator::TimedPedalRecorder(a) => {
                a.process(message, settings, now, out, cmds, status);
            },
            ActiveArpeggiator::PressHold(a) => {
                a.process(message, settings, now, out, status);
            },
            ActiveArpeggiator::MutatingHold(a) => {
                a.process(message, settings, out, status);
            },
            ActiveArpeggiator::SyncedPedalRecorder(a) => {
                a.process(message, settings, now, out, status);
            },
            ActiveArpeggiator::EvenMutator(a) => {
                a.process(message, settings, out, status);
            },
            ActiveArpeggiator::PrerecordedSets(a) => {
                a.process(message, settings, out, status);
            },
            ActiveArpeggiator::TriggeredChords(a) => {
                a.process(message, settings, out, status);
            },
        }
    }

    /// Tear the mode down: everything sounding — players and pedal-echoed
    /// notes alike — gets its note-offs into `out`, and the timed workers
    /// are asked to stop and join.
    pub fn stop_arpeggios(&mut self, out: &mut MidiOutput, cmds: &mut PlayerCommands)
        requires
            old(self).inv(),
        ensures
            final(self).inv(),
            final(self).mode() == old(self).mode(),
            final(self).sounding() == Multiset::<(u8, u8)>::empty(),
            old(cmds)@.is_prefix_of(final(cmds)@),
            ({
                let emitted = final(out)@.subrange(
                    old(out)@.len() as int,
                    final(out)@.len() as int,
                );
                &&& final(out)@ == old(out)@ + emitted
                &&& crate::midi::live_after(old(self).sounding(), emitted) == Multiset::<(
                    u8,
                    u8,
                )>::empty()
            }),
            forall|t: u64| old(self).time_wf(t) ==> final(self).time_wf(t),
    {
        let ghost start = out@;
        match self {
            ActiveArpeggiator::Passthrough(a) => {
                a.stop_arpeggios();
                proof {
                    assert(out@.subrange(start.len() as int, out@.len() as int) =~= Seq::<
                        MidiMessage,
                    >::empty());
                    assert(out@ =~= start);
                }
            },
            ActiveArpeggiator::RepeatRecorder(a) => {
                a.stop_arpeggios(cmds);
                proof {
                    assert(out@.subrange(start.len() as int, out@.len() as int) =~= Seq::<
                        MidiMessage,
                    >::empty());
                    assert(out@ =~= start);
                }
            },
            ActiveArpeggiator::TimedPedalRecorder(a) => {
                a.stop_arpeggios(out, cmds);
            },
            ActiveArpeggiator::PressHold(a) => {
                a.stop_arpeggios(out);
            },
            ActiveArpeggiator::MutatingHold(a) => {
                a.stop_arpeggios(out);
            },
            ActiveArpeggiator::SyncedPedalRecorder(a) => {
                a.stop_arpeggios(out);
            },
            ActiveArpeggiator::EvenMutator(a) => {
                a.stop_arpeggios(out);
            },
            ActiveArpeggiator::PrerecordedSets(a) => {
                a.stop_arpeggios(out);
            },
            ActiveArpeggiator::TriggeredChords(a) => {
                a.stop_arpeggios(out);
            },
        }
    }

    pub fn count_arpeggios(&self) -> usize {
        match self {
            ActiveArpeggiator::Passthrough(a) => a.count_arpeggios(),
            ActiveArpeggiator::RepeatRecorder(a) => a.count_arpeggios(),
            ActiveArpeggiator::TimedPedalRecorder(a) => a.count_arpeggios(),
            ActiveArpeggiator::PressHold(a) => a.count_arpeggios(),
            ActiveArpeggiator::MutatingHold(a) => a.count_arpeggios(),
            ActiveArpeggiator::SyncedPedalRecorder(a) => a.count_arpeggios(),
            ActiveArpeggiator::EvenMutator(a) => a.count_arpeggios(),
            ActiveArpeggiator::PrerecordedSets(a) => a.count_arpeggios(),
            ActiveArpeggiator::TriggeredChords(a) => a.count_arpeggios(),
        }
    }
}

impl ArpeggiatorMode {
    /// Instantiate the state machine for this mode, handing the
    /// preset-triggered modes their table.
    pub fn create(&self, presets: &Option<Vec<Preset>>) -> (r: ActiveArpeggiator)
        requires
            match presets {
                Some(ps) => forall|i: int| 0 <= i < ps@.len() ==> (#[trigger] ps@[i]).wf(),
                None => true,
            },
        ensures
            r.inv(),
            r.mode() == *self,
            r.sounding() == Multiset::<(u8, u8)>::empty(),
            forall|t: u64| r.time_wf(t),
    {
        match self {
            ArpeggiatorMode::Passthrough => ActiveArpeggiator::Passthrough(Passthrough::new()),
            ArpeggiatorMode::MutatingHold => ActiveArpeggiator::MutatingHold(
                crate::arpeggiator::synced::MutatingHold::new(),
            ),
            ArpeggiatorMode::PressHold => ActiveArpeggiator::PressHold(
                crate::arpeggiator::synced::PressHold::new(),
            ),
            ArpeggiatorMode::TimedPedalRecorder => ActiveArpeggiator::TimedPedalRecorder(
                crate::arpeggiator::timed::PedalRecorder::new(),
            ),
            ArpeggiatorMode::RepeatRecorder => ActiveArpeggiator::RepeatRecorder(
                crate::arpeggiator::timed::RepeatRecorder::new(),
            ),
            ArpeggiatorMode::SyncedPedalRecorder => ActiveArpeggiator::SyncedPedalRecorder(
                crate::arpeggiator::synced::PedalRecorder::new(),
            ),
            ArpeggiatorMode::EvenMutator => ActiveArpeggiator::EvenMutator(
                crate::arpeggiator::full_length::EvenMutator::new(),
            ),
            ArpeggiatorMode::PrerecordedSets => {
                let table: Vec<Preset> = match presets {
                    Some(actual) => crate::presets::duplicate_presets(actual),
                    None => Vec::new(),
                };
                proof {
                    lemma_duplicated_presets_wf(presets, table@);
                }
                ActiveArpeggiator::PrerecordedSets(
                    crate::arpeggiator::synced::PrerecordedSets::new(table),
                )
            },
            ArpeggiatorMode::TriggeredChords => {
                let table: Vec<Preset> = match presets {
                    Some(actual) => crate::presets::duplicate_presets(actual),
                    None => Vec::new(),
                };
                proof {
                    lemma_duplicated_presets_wf(presets, table@);
                }
                ActiveArpeggiator::TriggeredChords(
                    crate::arpeggiator::full_length::TriggeredChords::new(table),
                )
            },
        }
    }
}

/// A copied preset table keeps well-formedness.
proof fn lemma_duplicated_presets_wf(presets: &Option<Vec<Preset>>, table: Seq<Preset>)
    requires
        match presets {
            Some(ps) => forall|i: int| 0 <= i < ps@.len() ==> (#[trigger] ps@[i]).wf(),
            None => true,
        },
        match presets {
            Some(ps) => table.len() == ps@.len() && (forall|i: int|
                #![trigger table[i]]
                0 <= i < ps@.len() ==> table[i].trigger@ == ps@[i].trigger@ && table[i].steps@
                    == ps@[i].steps@ && table[i].ticks_per_step == ps@[i].ticks_per_step),
            None => table.len() == 0,
        },
    ensures
        forall|i: int| 0 <= i < table.len() ==> (#[trigger] table[i]).wf(),
{
    match presets {
        Some(ps) => {
            assert forall|i: int| 0 <= i < table.len() implies (#[trigger] table[i]).wf() by {
                assert(ps@[i].wf());
            }
        },
        None => {},
    }
}

/// The single-threaded event loop's decision core: route one inbound
/// message through the settings router, swap the active mode when the
/// settings changed, and feed the survivor to the active mode.  The
/// embedding application owns the blocking reads and hands each message
/// in here with the current monotonic time in microseconds.
pub struct MultiArpeggiator<SG: SettingsGetter, SS: StatusSignal> {
    pub settings: SG,
    pub status: SS,
    active: ActiveArpeggiator,
    current: Settings,
}

impl<SG: SettingsGetter, SS: StatusSignal> MultiArpeggiator<SG, SS> {
    pub closed spec fn inv(&self) -> bool {
        &&& <SG as SettingsGetter>::inv(&self.settings)
        &&& <SS as MidiReceiver>::inv(&self.status)
        &&& self.active.inv()
        &&& self.current.wf()
        &&& self.active.mode() == self.current.mode
        &&& self.current.eq_spec(self.settings.current())
    }

    pub closed spec fn time_wf(&self, now: u64) -> bool {
        self.active.time_wf(now)
    }

    /// The settings snapshot the active mode was built from.
    pub closed spec fn snapshot(&self) -> Settings {
        self.current
    }

    /// The settings router.
    pub closed spec fn router_view(&self) -> SG {
        self.settings
    }

    /// The active mode state machine.
    pub closed spec fn active_view(&self) -> ActiveArpeggiator {
        self.active
    }

    /// The mode of the active state machine.
    pub closed spec fn active_mode(&self) -> ArpeggiatorMode {
        self.active.mode()
    }

    /// The notes the active mode has sounding.
    pub closed spec fn active_sounding(&self) -> Multiset<(u8, u8)> {
        self.active.sounding()
    }

    /// Everything one message does to the dispatcher, as a relation: the
    /// router advances by its own model; an unchanged selection leaves
    /// the mode alone; a changed one tears the old mode down with its
    /// note-offs; and a surviving non-settings message reaches the active
    /// mode — its effect is the mode's own step relation — unless the
    /// status interceptor consumed it, in which case nothing else moves.
    pub open spec fn spec_step(
        pre: MultiArpeggiator<SG, SS>,
        post: MultiArpeggiator<SG, SS>,
        message: MidiMessage,
        now: u64,
        out0: Seq<MidiMessage>,
        out1: Seq<MidiMessage>,
        cmds0: Seq<PlayerCommand>,
        cmds1: Seq<PlayerCommand>,
    ) -> bool {
        &&& cmds0.is_prefix_of(cmds1)
        &&& post.router_view() == pre.router_view().after_route(message)
        &&& ({
            let cur = post.router_view().current();
            let changed = !cur.eq_spec(pre.snapshot());
            &&& post.snapshot().eq_spec(cur)
            &&& post.active_mode() == cur.mode
            &&& (!is_settings_message(message) ==> !changed)
            &&& (is_settings_message(message) && !changed ==> ({
                let same_active = post.active_view() == pre.active_view();
                let same_out = out1 == out0;
                let same_cmds = cmds1 == cmds0;
                same_active && same_out && same_cmds
            }))
            &&& (changed ==> ({
                let emitted = out1.subrange(out0.len() as int, out1.len() as int);
                &&& out1 == out0 + emitted
                &&& crate::midi::live_after(pre.active_sounding(), emitted) == Multiset::<(
                    u8,
                    u8,
                )>::empty()
                &&& post.active_sounding() == Multiset::<(u8, u8)>::empty()
            }))
        })
        &&& (!is_settings_message(message) ==> ((post.active_view() == pre.active_view() && out1
            == out0 && cmds1 == cmds0) || spec_active_step(
            pre.active_view(),
            post.active_view(),
            message,
            pre.router_view().current(),
            now,
            out0,
            out1,
            cmds0,
            cmds1,
        )))
    }

    pub fn new(settings: SG, status: SS) -> (r: MultiArpeggiator<SG, SS>)
        requires
            <SG as SettingsGetter>::inv(&settings),
            <SS as MidiReceiver>::inv(&status),
        ensures
            r.inv(),
            forall|t: u64| r.time_wf(t),
    {
        let current = settings.get().duplicate();
        let active = current.mode.create(&settings.get().presets);
        MultiArpeggiator { settings, status, active, current }
    }

    /// Handle one inbound message: the router runs first and consumes
    /// bank-select and program-change traffic on channel 1; when the
    /// routed-to settings differ from the snapshot the old mode is torn
    /// down (its note-offs emitted) and the new mode built; everything
    /// the router and the status interceptor hand on reaches the active
    /// mode.
    pub fn process_message(
        &mut self,
        message: MidiMessage,
        now: u64,
        out: &mut MidiOutput,
        cmds: &mut PlayerCommands,
    )
        requires
            old(self).inv(),
            old(self).time_wf(now),
            message.wf(),
        ensures
            final(self).inv(),
            final(self).time_wf(now),
            Self::spec_step(
                *old(self),
                *final(self),
                message,
                now,
                old(out)@,
                final(out)@,
                old(cmds)@,
                final(cmds)@,
            ),
    {
        let routed: Option<MidiMessage> = self.settings.route(message);
        let snapshot = self.settings.get();
        self.status.update_settings(snapshot);
        let changed: bool = !self.settings.get().same_as(&self.current);
        let ghost start = out@;
        if changed {
            self.current = self.settings.get().duplicate();
            self.active.stop_arpeggios(out, cmds);
            self.active = self.current.mode.create(&self.settings.get().presets);
            let count = self.active.count_arpeggios();
            self.status.update_count(count);
        }
        proof {
            if !changed {
                assert(out@ =~= start);
            }
        }
        proof {
            if changed {
                assert(is_settings_message(message));
            }
        }
        match routed {
            Some(m) => {
                let watched: Option<MidiMessage> = self.status.passthrough_midi(m);
                match watched {
                    Some(m2) => {
                        let setts = self.settings.get();
                        self.active.process(m2, setts, now, out, cmds, &mut self.status);
                    },
                    None => {},
                }
            },
            None => {},
        }
        let count = self.active.count_arpeggios();
        self.status.update_count(count);
        proof {
            if is_settings_message(message) && !changed {
                assert(out@ =~= start);
            }
            if changed {
                assert(out@ =~= start + out@.subrange(start.len() as int, out@.len() as int));
            }
        }
    }

    /// Handle one inbound message after passing it through an extra
    /// receiver first, as an embedding event loop's receiver chain would;
    /// a message the receiver consumes goes no further.
    pub fn process_message_through<R: MidiReceiver>(
        &mut self,
        message: MidiMessage,
        now: u64,
        out: &mut MidiOutput,
        cmds: &mut PlayerCommands,
        extra: &mut R,
    )
        requires
            old(self).inv(),
            old(self).time_wf(now),
            message.wf(),
            <R as MidiReceiver>::inv(old(extra)),
        ensures
            final(self).inv(),
            final(self).time_wf(now),
            <R as MidiReceiver>::inv(final(extra)),
            old(cmds)@.is_prefix_of(final(cmds)@),
            (*final(self) == *old(self) && final(out)@ == old(out)@ && final(cmds)@ == old(
                cmds,
            )@) || Self::spec_step(
                *old(self),
                *final(self),
                message,
                now,
                old(out)@,
                final(out)@,
                old(cmds)@,
                final(cmds)@,
            ),
    {
        let filtered: Option<MidiMessage> = extra.passthrough_midi(message);
        match filtered {
            Some(m) => {
                self.process_message(m, now, out, cmds);
            },
            None => {
                proof {
                    assert(cmds@.subrange(0, cmds@.len() as int) =~= cmds@);
                }
            },
        }
    }
}

} // verus!
