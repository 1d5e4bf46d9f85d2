//! Plain-value model of the MIDI traffic the engine works on.
//!
//! A message carries channels 1..=16 and 7-bit data bytes as plain integers.
//! The engine never reads bytes from a device itself: the embedding
//! application frames the byte stream and hands complete messages in, and
//! takes the messages the engine emits from a [`MidiOutput`] buffer.

use vstd::prelude::*;
use vstd::multiset::Multiset;

verus! {

/// MIDI clock resolution: ticks per quarter-note beat (24 PPQN).
pub const TICKS_PER_BEAT: usize = 24;

/// Control-change number of the bank-select MSB.
pub const CC_BANK_SELECT: u8 = 0;
/// Control-change number of the bank-select LSB.
pub const CC_BANK_SELECT_LSB: u8 = 32;
/// Control-change number of the damper (sustain) pedal.
pub const CC_DAMPER_PEDAL: u8 = 64;

/// One MIDI message, with channel-voice payloads as plain values.
///
/// System messages that the engine neither inspects nor emits are collapsed
/// into [`MidiMessage::SystemOther`]; the embedding application keeps the
/// original bytes for those when it needs to forward them.
#[derive(Clone, Copy, PartialEq, Eq, Structural, Debug)]
pub enum MidiMessage {
    NoteOff { channel: u8, note: u8, velocity: u8 },
    NoteOn { channel: u8, note: u8, velocity: u8 },
    PolyphonicKeyPressure { channel: u8, note: u8, pressure: u8 },
    ControlChange { channel: u8, control: u8, value: u8 },
    ProgramChange { channel: u8, program: u8 },
    ChannelPressure { channel: u8, pressure: u8 },
    PitchBendChange { channel: u8, bend: u16 },
    TimingClock,
    Reset,
    SystemOther,
}

impl MidiMessage {
    /// Channels are 1..=16, data bytes are 7 bit, pitch bend is 14 bit.
    pub open spec fn wf(self) -> bool {
        match self {
            MidiMessage::NoteOff { channel, note, velocity } =>
                1 <= channel <= 16 && note <= 127 && velocity <= 127,
            MidiMessage::NoteOn { channel, note, velocity } =>
                1 <= channel <= 16 && note <= 127 && velocity <= 127,
            MidiMessage::PolyphonicKeyPressure { channel, note, pressure } =>
                1 <= channel <= 16 && note <= 127 && pressure <= 127,
            MidiMessage::ControlChange { channel, control, value } =>
                1 <= channel <= 16 && control <= 127 && value <= 127,
            MidiMessage::ProgramChange { channel, program } =>
                1 <= channel <= 16 && program <= 127,
            MidiMessage::ChannelPressure { channel, pressure } =>
                1 <= channel <= 16 && pressure <= 127,
            MidiMessage::PitchBendChange { channel, bend } =>
                1 <= channel <= 16 && bend < 16384,
            _ => true,
        }
    }

    /// A note-on with velocity 0 means note-off; every message entering the
    /// engine is rewritten through this first, so no state machine ever sees
    /// a zero-velocity note-on.
    pub fn normalized(self) -> (r: MidiMessage)
        ensures
            r == self.normalized_spec(),
            self.wf() ==> r.wf(),
    {
        match self {
            MidiMessage::NoteOn { channel, note, velocity: 0u8 } =>
                MidiMessage::NoteOff { channel, note, velocity: 0 },
            _ => self,
        }
    }

    pub open spec fn normalized_spec(self) -> MidiMessage {
        match self {
            MidiMessage::NoteOn { channel, note, velocity } =>
                if velocity == 0 {
                    MidiMessage::NoteOff { channel, note, velocity: 0 }
                } else {
                    self
                },
            _ => self,
        }
    }
}

/// Pitch transposition by a signed semitone count; `None` when the result
/// would leave the MIDI range 0..=127.
pub open spec fn transpose_spec(note: u8, delta: i8) -> Option<u8> {
    if 0 <= note + delta <= 127 {
        Some((note + delta) as u8)
    } else {
        None
    }
}

pub fn transpose(note: u8, delta: i8) -> (r: Option<u8>)
    ensures
        r == transpose_spec(note, delta),
{
    let t: i32 = note as i32 + delta as i32;
    if 0 <= t && t <= 127 {
        Some(t as u8)
    } else {
        None
    }
}

/// The transposed copy of a note message under one doubling offset;
/// `None` for out-of-range results and for non-note messages.
pub open spec fn doubled_copy(m: MidiMessage, delta: i8) -> Option<MidiMessage> {
    match m {
        MidiMessage::NoteOff { channel, note, velocity } =>
            match transpose_spec(note, delta) {
                Some(t) => Some(MidiMessage::NoteOff { channel, note: t, velocity }),
                None => None,
            },
        MidiMessage::NoteOn { channel, note, velocity } =>
            match transpose_spec(note, delta) {
                Some(t) => Some(MidiMessage::NoteOn { channel, note: t, velocity }),
                None => None,
            },
        MidiMessage::PolyphonicKeyPressure { channel, note, pressure } =>
            match transpose_spec(note, delta) {
                Some(t) => Some(MidiMessage::PolyphonicKeyPressure { channel, note: t, pressure }),
                None => None,
            },
        _ => None,
    }
}

/// The in-range transposed copies of `m`, one per doubling offset, in order.
pub open spec fn doubles_of(m: MidiMessage, doubling: Seq<i8>) -> Seq<MidiMessage>
    decreases doubling.len(),
{
    if doubling.len() == 0 {
        Seq::empty()
    } else {
        (match doubled_copy(m, doubling[0]) {
            Some(t) => seq![t],
            None => Seq::empty(),
        }) + doubles_of(m, doubling.drop_first())
    }
}

/// What one doubled send appends to the output: the copies, then the
/// original message.
pub open spec fn doubled_msgs(m: MidiMessage, doubling: Seq<i8>) -> Seq<MidiMessage> {
    doubles_of(m, doubling) + seq![m]
}

/// The model of the output queue: the ordered sequence of messages the
/// engine has emitted and the application has not yet drained to the device.
pub struct MidiOutput {
    messages: Vec<MidiMessage>,
}

impl View for MidiOutput {
    type V = Seq<MidiMessage>;

    closed spec fn view(&self) -> Seq<MidiMessage> {
        self.messages@
    }
}

impl MidiOutput {
    pub fn new() -> (r: MidiOutput)
        ensures
            r@ == Seq::<MidiMessage>::empty(),
    {
        MidiOutput { messages: Vec::new() }
    }

    /// Emit one message.
    pub fn send(&mut self, message: MidiMessage)
        ensures
            final(self)@ == old(self)@.push(message),
    {
        self.messages.push(message);
    }

    /// Emit a note message together with its doubling copies: for each offset
    /// whose transposition stays in range, a transposed copy precedes the
    /// original message.
    pub fn send_with_doubling(&mut self, message: MidiMessage, doubling: &Vec<i8>)
        ensures
            final(self)@ == old(self)@ + doubled_msgs(message, doubling@),
    {
        let ghost start = self.messages@;
        let is_note: bool = match message {
            MidiMessage::NoteOff { .. } => true,
            MidiMessage::NoteOn { .. } => true,
            MidiMessage::PolyphonicKeyPressure { .. } => true,
            _ => false,
        };
        if is_note {
            let n: usize = doubling.len();
            let mut i: usize = 0;
            while i < n
                invariant
                    i <= n,
                    n == doubling@.len(),
                    is_note == (message matches MidiMessage::NoteOff { .. }
                        || message matches MidiMessage::NoteOn { .. }
                        || message matches MidiMessage::PolyphonicKeyPressure { .. }),
                    is_note,
                    self.messages@ == start + doubles_of(message, doubling@.take(i as int)),
                decreases n - i,
            {
                proof {
                    lemma_doubles_of_take(message, doubling@, i as int);
                }
                let delta: i8 = doubling[i];
                match message {
                    MidiMessage::NoteOff { channel, note, velocity } => {
                        if let Some(t) = transpose(note, delta) {
                            self.messages.push(MidiMessage::NoteOff { channel, note: t, velocity });
                        }
                    },
                    MidiMessage::NoteOn { channel, note, velocity } => {
                        if let Some(t) = transpose(note, delta) {
                            self.messages.push(MidiMessage::NoteOn { channel, note: t, velocity });
                        }
                    },
                    MidiMessage::PolyphonicKeyPressure { channel, note, pressure } => {
                        if let Some(t) = transpose(note, delta) {
                            self.messages.push(
                                MidiMessage::PolyphonicKeyPressure { channel, note: t, pressure },
                            );
                        }
                    },
                    _ => {},
                }
                i = i + 1;
            }
            proof {
                assert(doubling@.take(n as int) =~= doubling@);
            }
        } else {
            proof {
                lemma_doubles_of_non_note(message, doubling@);
            }
        }
        self.messages.push(message);
        proof {
            assert(self.messages@ =~= start + doubled_msgs(message, doubling@));
        }
    }

    /// Read access for the application and for tests.
    pub fn messages(&self) -> (r: &Vec<MidiMessage>)
        ensures
            r@ == self@,
    {
        &self.messages
    }

    /// Drop everything already drained by the application.
    pub fn clear(&mut self)
        ensures
            final(self)@ == Seq::<MidiMessage>::empty(),
    {
        self.messages.clear();
    }
}

proof fn lemma_doubles_of_take(m: MidiMessage, doubling: Seq<i8>, i: int)
    requires
        0 <= i < doubling.len(),
    ensures
        doubles_of(m, doubling.take(i + 1)) == doubles_of(m, doubling.take(i)) + (
        match doubled_copy(m, doubling[i]) {
            Some(t) => seq![t],
            None => Seq::<MidiMessage>::empty(),
        }),
    decreases i,
{
    let head = match doubled_copy(m, doubling[0]) {
        Some(t) => seq![t],
        None => Seq::<MidiMessage>::empty(),
    };
    if i == 0 {
        assert(doubling.take(1)[0] == doubling[0]);
        assert(doubling.take(1).drop_first() =~= Seq::<i8>::empty());
        assert(doubles_of(m, doubling.take(1)) == head + doubles_of(m, Seq::<i8>::empty()));
        assert(doubles_of(m, doubling.take(0)) =~= Seq::<MidiMessage>::empty());
        assert(doubles_of(m, doubling.take(1)) =~= doubles_of(m, doubling.take(0)) + head);
    } else {
        let sub = doubling.drop_first();
        assert(doubling.take(i + 1).drop_first() =~= sub.take(i));
        assert(doubling.take(i).drop_first() =~= sub.take(i - 1));
        assert(sub[i - 1] == doubling[i]);
        lemma_doubles_of_take(m, sub, i - 1);
        assert(doubles_of(m, doubling.take(i + 1)) == head + doubles_of(m, sub.take(i)));
        assert(doubles_of(m, doubling.take(i)) == head + doubles_of(m, sub.take(i - 1)));
        assert(doubles_of(m, doubling.take(i + 1)) =~= doubles_of(m, doubling.take(i)) + (
        match doubled_copy(m, doubling[i]) {
            Some(t) => seq![t],
            None => Seq::<MidiMessage>::empty(),
        }));
    }
}

proof fn lemma_doubles_of_non_note(m: MidiMessage, doubling: Seq<i8>)
    requires
        !(m matches MidiMessage::NoteOff { .. }),
        !(m matches MidiMessage::NoteOn { .. }),
        !(m matches MidiMessage::PolyphonicKeyPressure { .. }),
    ensures
        doubles_of(m, doubling) == Seq::<MidiMessage>::empty(),
    decreases doubling.len(),
{
    if doubling.len() > 0 {
        lemma_doubles_of_non_note(m, doubling.drop_first());
        assert(doubles_of(m, doubling) =~= Seq::<MidiMessage>::empty());
    }
}

/// An owned copy of a doubling-offset list.
pub fn duplicate_offsets(v: &Vec<i8>) -> (r: Vec<i8>)
    ensures
        r@ == v@,
{
    let mut out: Vec<i8> = Vec::new();
    let n: usize = v.len();
    let mut i: usize = 0;
    while i < n
        invariant
            i <= n,
            n == v@.len(),
            out@ == v@.take(i as int),
        decreases n - i,
    {
        out.push(v[i]);
        proof {
            assert(out@ =~= v@.take(i + 1));
        }
        i = i + 1;
    }
    proof {
        assert(v@.take(n as int) =~= v@);
    }
    out
}

/// A message interceptor in the dispatcher chain: it may consume a message,
/// and otherwise must hand it on unchanged.  `inv` is whatever
/// well-formedness the receiver's state carries between calls.
pub trait MidiReceiver {
    spec fn inv(&self) -> bool;

    fn passthrough_midi(&mut self, message: MidiMessage) -> (r: Option<MidiMessage>)
        requires
            old(self).inv(),
        ensures
            final(self).inv(),
            r matches Some(f) ==> f == message,
    ;
}

// ------------------------------------------------------------------
// Note accounting: which (channel, pitch) pairs an output sequence
// leaves sounding.  This is the backbone of the no-hanging-notes law.
// ------------------------------------------------------------------

pub open spec fn is_note_on(m: MidiMessage) -> bool {
    m matches MidiMessage::NoteOn { .. }
}

pub open spec fn is_note_off(m: MidiMessage) -> bool {
    m matches MidiMessage::NoteOff { .. }
}

/// The (channel, pitch) a note message speaks of.
pub open spec fn note_key(m: MidiMessage) -> (u8, u8) {
    match m {
        MidiMessage::NoteOff { channel, note, .. } => (channel, note),
        MidiMessage::NoteOn { channel, note, .. } => (channel, note),
        MidiMessage::PolyphonicKeyPressure { channel, note, .. } => (channel, note),
        _ => (0, 0),
    }
}

/// One message applied to the multiset of sounding notes.
pub open spec fn live_apply(ms: Multiset<(u8, u8)>, m: MidiMessage) -> Multiset<(u8, u8)> {
    if is_note_on(m) {
        ms.insert(note_key(m))
    } else if is_note_off(m) {
        ms.remove(note_key(m))
    } else {
        ms
    }
}

/// The notes left sounding after emitting `msgs` on top of `init`.
pub open spec fn live_after(init: Multiset<(u8, u8)>, msgs: Seq<MidiMessage>) -> Multiset<(u8, u8)>
    decreases msgs.len(),
{
    if msgs.len() == 0 {
        init
    } else {
        live_apply(live_after(init, msgs.drop_last()), msgs.last())
    }
}

/// Every note-off in `msgs` switches off a note actually sounding at that
/// point.  Together with an empty [`live_after`] this forces the on and off
/// counts to balance exactly.
pub open spec fn offs_covered(init: Multiset<(u8, u8)>, msgs: Seq<MidiMessage>) -> bool
    decreases msgs.len(),
{
    if msgs.len() == 0 {
        true
    } else {
        offs_covered(init, msgs.drop_last()) && (is_note_off(msgs.last())
            ==> live_after(init, msgs.drop_last()).count(note_key(msgs.last())) > 0)
    }
}

/// Note-ons in `msgs` for the key `k`.
pub open spec fn ons_count(msgs: Seq<MidiMessage>, k: (u8, u8)) -> nat
    decreases msgs.len(),
{
    if msgs.len() == 0 {
        0
    } else {
        ons_count(msgs.drop_last(), k) + (
        if is_note_on(msgs.last()) && note_key(msgs.last()) == k {
            1nat
        } else {
            0nat
        })
    }
}

/// Note-offs in `msgs` for the key `k`.
pub open spec fn offs_count(msgs: Seq<MidiMessage>, k: (u8, u8)) -> nat
    decreases msgs.len(),
{
    if msgs.len() == 0 {
        0
    } else {
        offs_count(msgs.drop_last(), k) + (
        if is_note_off(msgs.last()) && note_key(msgs.last()) == k {
            1nat
        } else {
            0nat
        })
    }
}

/// How emission moves the sounding multiset against the on/off counts.
pub proof fn lemma_live_count_bounds(init: Multiset<(u8, u8)>, msgs: Seq<MidiMessage>, k: (u8, u8))
    ensures
        init.count(k) + ons_count(msgs, k) <= live_after(init, msgs).count(k) + offs_count(msgs, k),
        offs_covered(init, msgs) ==> live_after(init, msgs).count(k) + offs_count(msgs, k)
            == init.count(k) + ons_count(msgs, k),
    decreases msgs.len(),
{
    if msgs.len() > 0 {
        let pre = msgs.drop_last();
        let m = msgs.last();
        lemma_live_count_bounds(init, pre, k);
        let ms = live_after(init, pre);
        if is_note_on(m) {
            assert(ms.insert(note_key(m)).count(k) == ms.count(k) + (
            if note_key(m) == k {
                1nat
            } else {
                0nat
            }));
        } else if is_note_off(m) {
            assert(ms.remove(note_key(m)).count(k) == if ms.count(k) > 0 && note_key(m) == k {
                (ms.count(k) - 1) as nat
            } else {
                ms.count(k)
            });
        }
    }
}

/// The no-hanging-notes law, counting form: an output run that starts from
/// silence, never switches off a note that is not sounding, and ends in
/// silence has emitted exactly as many note-offs as note-ons for every
/// (channel, pitch).
pub proof fn lemma_balanced_output(msgs: Seq<MidiMessage>)
    requires
        offs_covered(Multiset::<(u8, u8)>::empty(), msgs),
        live_after(Multiset::<(u8, u8)>::empty(), msgs) == Multiset::<(u8, u8)>::empty(),
    ensures
        forall|k: (u8, u8)| ons_count(msgs, k) == offs_count(msgs, k),
{
    assert forall|k: (u8, u8)| ons_count(msgs, k) == offs_count(msgs, k) by {
        lemma_live_count_bounds(Multiset::<(u8, u8)>::empty(), msgs, k);
    }
}

/// One direction of the law for runs that may switch off silent notes: if
/// the run ends in silence, no note-on is left without a matching off.
pub proof fn lemma_no_hanging_notes(msgs: Seq<MidiMessage>)
    requires
        live_after(Multiset::<(u8, u8)>::empty(), msgs) == Multiset::<(u8, u8)>::empty(),
    ensures
        forall|k: (u8, u8)| ons_count(msgs, k) <= offs_count(msgs, k),
{
    assert forall|k: (u8, u8)| ons_count(msgs, k) <= offs_count(msgs, k) by {
        lemma_live_count_bounds(Multiset::<(u8, u8)>::empty(), msgs, k);
    }
}

/// Accounting over a single emitted message.
pub proof fn lemma_live_singleton(ms: Multiset<(u8, u8)>, m: MidiMessage)
    ensures
        live_after(ms, seq![m]) == live_apply(ms, m),
        offs_covered(ms, seq![m]) <==> (is_note_off(m) ==> ms.count(note_key(m)) > 0),
{
    let s = seq![m];
    assert(s.drop_last() =~= Seq::<MidiMessage>::empty());
    assert(live_after(ms, s.drop_last()) == ms);
    assert(offs_covered(ms, s.drop_last()));
}

/// Framing: an emission whose note-offs are covered by the part `a` of
/// the sounding notes leaves any other sounding notes `b` untouched.
pub proof fn lemma_live_frame(
    a: Multiset<(u8, u8)>,
    b: Multiset<(u8, u8)>,
    msgs: Seq<MidiMessage>,
)
    requires
        offs_covered(a, msgs),
    ensures
        live_after(a.add(b), msgs) == live_after(a, msgs).add(b),
        offs_covered(a.add(b), msgs),
    decreases msgs.len(),
{
    if msgs.len() > 0 {
        let pre = msgs.drop_last();
        let m = msgs.last();
        lemma_live_frame(a, b, pre);
        let a1 = live_after(a, pre);
        let k = note_key(m);
        if is_note_on(m) {
            assert(a1.add(b).insert(k) =~= a1.insert(k).add(b));
        } else if is_note_off(m) {
            assert(a1.count(k) > 0);
            assert(a1.add(b).remove(k) =~= a1.remove(k).add(b));
        }
    }
}

/// One component's emission, appended to a run, moves only that
/// component's share of the sounding notes.
pub proof fn lemma_step_accounting(
    s0: Multiset<(u8, u8)>,
    emitted0: Seq<MidiMessage>,
    m: Seq<MidiMessage>,
    others: Multiset<(u8, u8)>,
    p_before: Multiset<(u8, u8)>,
    p_after: Multiset<(u8, u8)>,
)
    requires
        live_after(s0, emitted0) == p_before.add(others),
        offs_covered(s0, emitted0),
        live_after(p_before, m) == p_after,
        offs_covered(p_before, m),
    ensures
        live_after(s0, emitted0 + m) == p_after.add(others),
        offs_covered(s0, emitted0 + m),
{
    lemma_live_frame(p_before, others, m);
    lemma_live_concat(s0, emitted0, m);
}

/// Emission composes: accounting over a concatenation.
pub proof fn lemma_live_concat(
    init: Multiset<(u8, u8)>,
    a: Seq<MidiMessage>,
    b: Seq<MidiMessage>,
)
    ensures
        live_after(init, a + b) == live_after(live_after(init, a), b),
        offs_covered(init, a + b) == (offs_covered(init, a) && offs_covered(
            live_after(init, a),
            b,
        )),
    decreases b.len(),
{
    if b.len() == 0 {
        assert(a + b =~= a);
    } else {
        lemma_live_concat(init, a, b.drop_last());
        assert((a + b).drop_last() =~= a + b.drop_last());
        assert((a + b).last() == b.last());
    }
}

} // verus!
