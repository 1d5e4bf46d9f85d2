//! The per-cycle configuration record, and the routers that turn
//! bank-select and program-change traffic into a settings selection.

use vstd::prelude::*;
use crate::arpeggio::{NoteDetails, Step};
use crate::arpeggiator::{chunk_len, chunk_start, concat_steps, expand_to, sort_notes, steps_notes,
    ArpeggiatorMode, Pattern};
use crate::midi::{MidiMessage, MidiReceiver, CC_BANK_SELECT, CC_BANK_SELECT_LSB};
use crate::presets::Preset;

verus! {

/// An immutable-per-cycle configuration record; `passthrough` is the
/// zero-value default.
#[derive(Debug)]
pub struct Settings {
    pub finish_pattern: bool,
    pub fixed_velocity: Option<u8>,
    pub mode: ArpeggiatorMode,
    pub fixed_steps: Option<usize>,
    pub fixed_notes_per_step: Option<usize>,
    pub pattern: Pattern,
    pub double_notes: Option<Vec<i8>>,
    pub presets: Option<Vec<Preset>>,
}

impl Settings {
    /// Bounds the modes rely on: a fixed step count names notes within one
    /// beat, so it is between 1 and the ticks of a beat (larger counts
    /// would only saturate to one tick per step); notes per step is at
    /// least 1; presets are well-formed.
    pub open spec fn wf(self) -> bool {
        &&& match self.fixed_steps {
            Some(s) => 1 <= s <= crate::midi::TICKS_PER_BEAT,
            None => true,
        }
        &&& match self.fixed_notes_per_step {
            Some(x) => x >= 1,
            None => true,
        }
        &&& match self.presets {
            Some(ps) => forall|i: int| 0 <= i < ps@.len() ==> (#[trigger] ps@[i]).wf(),
            None => true,
        }
    }

    /// Deep equality of two settings records.
    pub open spec fn eq_spec(self, other: Settings) -> bool {
        &&& self.finish_pattern == other.finish_pattern
        &&& self.fixed_velocity == other.fixed_velocity
        &&& self.mode == other.mode
        &&& self.fixed_steps == other.fixed_steps
        &&& self.fixed_notes_per_step == other.fixed_notes_per_step
        &&& self.pattern == other.pattern
        &&& match (self.double_notes, other.double_notes) {
            (Some(a), Some(b)) => a@ == b@,
            (None, None) => true,
            _ => false,
        }
        &&& match (self.presets, other.presets) {
            (Some(a), Some(b)) => a@.len() == b@.len() && (forall|i: int|
                0 <= i < a@.len() ==> (#[trigger] a@[i]).trigger@ == b@[i].trigger@
                    && a@[i].steps@ == b@[i].steps@ && a@[i].ticks_per_step
                    == b@[i].ticks_per_step),
            (None, None) => true,
            _ => false,
        }
    }

    /// The zero-value default: forward everything, change nothing.
    pub fn passthrough() -> (r: Settings)
        ensures
            r.mode == ArpeggiatorMode::Passthrough,
            r.finish_pattern == false,
            r.fixed_velocity is None,
            r.fixed_steps is None,
            r.fixed_notes_per_step is None,
            r.pattern == Pattern::Up,
            r.double_notes is None,
            r.presets is None,
            r.wf(),
    {
        Settings {
            mode: ArpeggiatorMode::Passthrough,
            finish_pattern: false,
            fixed_velocity: None,
            fixed_steps: None,
            fixed_notes_per_step: None,
            pattern: Pattern::Up,
            double_notes: None,
            presets: None,
        }
    }

    /// An owned copy with the same content.
    pub fn duplicate(&self) -> (r: Settings)
        ensures
            r.eq_spec(*self),
            self.eq_spec(r),
            r.mode == self.mode,
            r.wf() == self.wf(),
    {
        Settings {
            finish_pattern: self.finish_pattern,
            fixed_velocity: self.fixed_velocity,
            mode: self.mode,
            fixed_steps: self.fixed_steps,
            fixed_notes_per_step: self.fixed_notes_per_step,
            pattern: self.pattern,
            double_notes: match &self.double_notes {
                Some(d) => Some(crate::midi::duplicate_offsets(d)),
                None => None,
            },
            presets: match &self.presets {
                Some(ps) => Some(crate::presets::duplicate_presets(ps)),
                None => None,
            },
        }
    }

    /// Content comparison, as the dispatcher uses it to detect a settings
    /// change.
    pub fn same_as(&self, other: &Settings) -> (r: bool)
        ensures
            r == self.eq_spec(*other),
    {
        let scalars_equal: bool = self.finish_pattern == other.finish_pattern
            && self.fixed_velocity == other.fixed_velocity && self.mode == other.mode
            && self.fixed_steps == other.fixed_steps && self.fixed_notes_per_step
            == other.fixed_notes_per_step && self.pattern == other.pattern;
        if !scalars_equal {
            return false;
        }
        let doubles_equal: bool = match (&self.double_notes, &other.double_notes) {
            (Some(a), Some(b)) => eq_offsets(a, b),
            (None, None) => true,
            _ => false,
        };
        if !doubles_equal {
            return false;
        }
        match (&self.presets, &other.presets) {
            (Some(a), Some(b)) => eq_presets(a, b),
            (None, None) => true,
            _ => false,
        }
    }

    /// How many steps the settings ask a set of `n` notes to be spread
    /// over: a fixed step count wins; else a fixed notes-per-step divides
    /// (rounding up); else one step per note.
    pub open spec fn steps_target(self, n: nat) -> nat {
        match self.fixed_steps {
            Some(s) => s as nat,
            None => match self.fixed_notes_per_step {
                Some(x) => (((n + x - 1) as int) / (x as int)) as nat,
                None => n,
            },
        }
    }

    /// Spread `notes` over the number of steps this configuration calls
    /// for, by pattern expansion.
    pub fn generate_steps(&self, notes: Vec<NoteDetails>) -> (r: Vec<Step>)
        requires
            self.wf(),
            notes@.len() >= 1,
            notes@.len() <= usize::MAX / 2,
        ensures
            r@.len() == self.steps_target(notes@.len() as nat),
            ({
                let expanded = expand_to(
                    sort_notes(self.pattern, notes@),
                    self.steps_target(notes@.len() as nat),
                );
                let s = self.steps_target(notes@.len() as nat) as int;
                &&& concat_steps(steps_notes(r@)) == expanded
                &&& expanded.len() >= notes@.len()
                &&& notes@.to_multiset().subset_of(expanded.to_multiset())
                &&& (forall|i: int|
                    0 <= i < r@.len() ==> (#[trigger] r@[i]@) == expanded.subrange(
                        chunk_start(expanded.len() as int, s, i),
                        chunk_start(expanded.len() as int, s, i) + chunk_len(
                            expanded.len() as int,
                            s,
                            i,
                        ),
                    ))
            }),
    {
        if let Some(steps) = self.fixed_steps {
            self.pattern.of(notes, steps)
        } else if let Some(notes_per_step) = self.fixed_notes_per_step {
            let ghost n = notes@.len() as int;
            let ghost x = notes_per_step as int;
            let mut steps: usize = 0;
            let mut notes_remaining: usize = notes.len();
            while notes_remaining > 0
                invariant
                    notes_per_step >= 1,
                    x == notes_per_step as int,
                    n == notes@.len(),
                    1 <= n <= usize::MAX / 2,
                    steps <= n,
                    steps > 0 ==> n > (steps - 1) * x,
                    notes_remaining == (if n > steps * x {
                        n - steps * x
                    } else {
                        0int
                    }),
                decreases notes_remaining,
            {
                proof {
                    assert((steps + 1) * x == steps * x + x) by (nonlinear_arith);
                    assert(steps * x >= steps) by (nonlinear_arith)
                        requires
                            x >= 1,
                            steps >= 0,
                    ;
                }
                steps = steps + 1;
                if notes_remaining <= notes_per_step {
                    notes_remaining = 0;
                } else {
                    notes_remaining = notes_remaining - notes_per_step;
                }
            }
            proof {
                lemma_ceil_div(n, x, steps as int);
            }
            self.pattern.of(notes, steps)
        } else {
            let notes_len: usize = notes.len();
            self.pattern.of(notes, notes_len)
        }
    }
}

/// A count of rounds that consumes `n` in portions of `x`, overshooting
/// on none, is the rounded-up quotient.
proof fn lemma_ceil_div(n: int, x: int, q: int)
    requires
        n >= 1,
        x >= 1,
        q >= 1,
        n <= q * x,
        n > (q - 1) * x,
    ensures
        (n + x - 1) / x == q,
{
    let rem = n - 1 - (q - 1) * x;
    assert(n + x - 1 == q * x + rem) by (nonlinear_arith)
        requires
            rem == n - 1 - (q - 1) * x,
    ;
    assert(0 <= rem < x) by (nonlinear_arith)
        requires
            rem == n - 1 - (q - 1) * x,
            n > (q - 1) * x,
            n <= q * x,
    ;
    vstd::arithmetic::div_mod::lemma_fundamental_div_mod_converse(n + x - 1, x, q, rem);
}

/// Element-wise equality of doubling-offset lists.
fn eq_offsets(a: &Vec<i8>, b: &Vec<i8>) -> (r: bool)
    ensures
        r == (a@ == b@),
{
    if a.len() != b.len() {
        return false;
    }
    let n: usize = a.len();
    let mut i: usize = 0;
    while i < n
        invariant
            i <= n,
            n == a@.len() == b@.len(),
            forall|j: int| 0 <= j < i ==> a@[j] == b@[j],
        decreases n - i,
    {
        if a[i] != b[i] {
            return false;
        }
        i = i + 1;
    }
    proof {
        assert(a@ =~= b@);
    }
    true
}

fn eq_pitches(a: &Vec<u8>, b: &Vec<u8>) -> (r: bool)
    ensures
        r == (a@ == b@),
{
    if a.len() != b.len() {
        return false;
    }
    let n: usize = a.len();
    let mut i: usize = 0;
    while i < n
        invariant
            i <= n,
            n == a@.len() == b@.len(),
            forall|j: int| 0 <= j < i ==> a@[j] == b@[j],
        decreases n - i,
    {
        if a[i] != b[i] {
            return false;
        }
        i = i + 1;
    }
    proof {
        assert(a@ =~= b@);
    }
    true
}

/// Content equality of preset tables.
fn eq_presets(a: &Vec<Preset>, b: &Vec<Preset>) -> (r: bool)
    ensures
        r == (a@.len() == b@.len() && (forall|i: int|
            0 <= i < a@.len() ==> (#[trigger] a@[i]).trigger@ == b@[i].trigger@ && a@[i].steps@
                == b@[i].steps@ && a@[i].ticks_per_step == b@[i].ticks_per_step)),
{
    if a.len() != b.len() {
        return false;
    }
    let n: usize = a.len();
    let mut i: usize = 0;
    while i < n
        invariant
            i <= n,
            n == a@.len() == b@.len(),
            forall|j: int|
                0 <= j < i ==> (#[trigger] a@[j]).trigger@ == b@[j].trigger@ && a@[j].steps@
                    == b@[j].steps@ && a@[j].ticks_per_step == b@[j].ticks_per_step,
        decreases n - i,
    {
        let same = eq_pitches(&a[i].trigger, &b[i].trigger) && eq_pitches(&a[i].steps, &b[i].steps)
            && a[i].ticks_per_step == b[i].ticks_per_step;
        if !same {
            return false;
        }
        i = i + 1;
    }
    true
}

/// The three control messages the settings routers consume: bank-select
/// MSB, bank-select LSB and program change, all on channel 1.
pub open spec fn is_settings_message(m: MidiMessage) -> bool {
    match m {
        MidiMessage::ControlChange { channel, control, .. } => channel == 1 && (control
            == CC_BANK_SELECT || control == CC_BANK_SELECT_LSB),
        MidiMessage::ProgramChange { channel, .. } => channel == 1,
        _ => false,
    }
}

/// Where the active settings come from.  `route` consumes exactly the
/// bank-select and program-change traffic on channel 1, hands everything
/// else on untouched, and moves the router through its own `after_route`
/// model, so a caller knows the router really ran.
pub trait SettingsGetter: Sized {
    spec fn inv(&self) -> bool;

    /// The settings record the router currently selects.
    spec fn current(&self) -> Settings;

    /// The router's state after routing one message, as a value.
    spec fn after_route(&self, message: MidiMessage) -> Self;

    fn get(&self) -> (r: &Settings)
        requires
            self.inv(),
        ensures
            r.wf(),
            *r == self.current(),
    ;

    fn route(&mut self, message: MidiMessage) -> (r: Option<MidiMessage>)
        requires
            old(self).inv(),
        ensures
            final(self).inv(),
            *final(self) == old(self).after_route(message),
            !is_settings_message(message) ==> final(self).current() == old(self).current(),
            r == (if is_settings_message(message) {
                Option::<MidiMessage>::None
            } else {
                Some(message)
            }),
    ;
}

/// Settings selection by flattening (MSB, LSB, PC) into a single index
/// modulo the table length.
pub struct WraparoundProgramChanges {
    predefined: Vec<Settings>,
    index: usize,
    msb: u8,
    lsb: u8,
    pc: u8,
}

impl WraparoundProgramChanges {
    pub closed spec fn table(&self) -> Seq<Settings> {
        self.predefined@
    }

    pub closed spec fn current_index(&self) -> int {
        self.index as int
    }

    /// The stored bank-select state, as (MSB, LSB).
    pub closed spec fn bank(&self) -> (u8, u8) {
        (self.msb, self.lsb)
    }

    pub fn _new(predefined: Vec<Settings>) -> (r: WraparoundProgramChanges)
        requires
            predefined@.len() >= 1,
            predefined@.len() <= 127 * 127 * 127,
            forall|i: int| 0 <= i < predefined@.len() ==> (#[trigger] predefined@[i]).wf(),
        ensures
            <WraparoundProgramChanges as SettingsGetter>::inv(&r),
            r.table() == predefined@,
            r.current_index() == 0,
            r.bank() == (0u8, 0u8),
    {
        WraparoundProgramChanges { predefined, msb: 0, lsb: 0, pc: 0, index: 0 }
    }
}

impl SettingsGetter for WraparoundProgramChanges {
    closed spec fn inv(&self) -> bool {
        &&& self.predefined@.len() >= 1
        &&& self.index < self.predefined@.len()
        &&& forall|i: int| 0 <= i < self.predefined@.len() ==> (#[trigger] self.predefined@[i]).wf()
    }

    closed spec fn current(&self) -> Settings {
        self.predefined@[self.index as int]
    }

    closed spec fn after_route(&self, message: MidiMessage) -> Self {
        match message {
            MidiMessage::ControlChange { channel, control, value } => if channel == 1 && control
                == CC_BANK_SELECT {
                WraparoundProgramChanges {
                    predefined: self.predefined,
                    index: self.index,
                    msb: value,
                    lsb: self.lsb,
                    pc: self.pc,
                }
            } else if channel == 1 && control == CC_BANK_SELECT_LSB {
                WraparoundProgramChanges {
                    predefined: self.predefined,
                    index: self.index,
                    msb: self.msb,
                    lsb: value,
                    pc: self.pc,
                }
            } else {
                *self
            },
            MidiMessage::ProgramChange { channel, program } => if channel == 1
                && self.predefined@.len() > 0 {
                WraparoundProgramChanges {
                    predefined: self.predefined,
                    index: (((self.msb as int * 127 + self.lsb as int) * 127 + program) % (
                    self.predefined@.len() as int)) as usize,
                    msb: self.msb,
                    lsb: self.lsb,
                    pc: program,
                }
            } else {
                *self
            },
            _ => *self,
        }
    }

    fn get(&self) -> (r: &Settings)
        ensures
            *r == self.table()[self.current_index()],
    {
        &self.predefined[self.index]
    }

    fn route(&mut self, message: MidiMessage) -> (r: Option<MidiMessage>)
        ensures
            final(self).table() == old(self).table(),
            ({
                let before = *old(self);
                let after = *final(self);
                match message {
                    MidiMessage::ControlChange { channel, control, value } => {
                        &&& (channel == 1 && control == CC_BANK_SELECT ==> after.bank() == (
                        value,
                        before.bank().1,
                        ))
                        &&& (channel == 1 && control == CC_BANK_SELECT_LSB ==> after.bank() == (
                        before.bank().0,
                        value,
                        ))
                        &&& after.current_index() == before.current_index()
                    },
                    MidiMessage::ProgramChange { channel, program } => channel == 1
                        ==> after.current_index() == ((before.bank().0 as int * 127
                        + before.bank().1 as int) * 127 + program as int) % (
                    before.table().len() as int),
                    _ => after.current_index() == before.current_index(),
                }
            }),
    {
        match message {
            MidiMessage::ControlChange { channel: 1, control: CC_BANK_SELECT, value } => {
                self.msb = value;
                None
            },
            MidiMessage::ControlChange { channel: 1, control: CC_BANK_SELECT_LSB, value } => {
                self.lsb = value;
                None
            },
            MidiMessage::ProgramChange { channel: 1, program } => {
                self.pc = program;
                self.index = ((self.msb as usize * 127 + self.lsb as usize) * 127
                    + self.pc as usize) % self.predefined.len();
                None
            },
            _ => Some(message),
        }
    }
}

impl MidiReceiver for WraparoundProgramChanges {
    open spec fn inv(&self) -> bool {
        <WraparoundProgramChanges as SettingsGetter>::inv(self)
    }

    fn passthrough_midi(&mut self, message: MidiMessage) -> (r: Option<MidiMessage>) {
        self.route(message)
    }
}

/// One settings record with the program numbers that select it; `pc` is
/// 1-based.
#[derive(Debug)]
pub struct SettingsWithProgramInfo {
    pub lsb: u8,
    pub msb: u8,
    pub pc: u8,
    pub settings: Settings,
}

/// The last table entry whose (msb, lsb, pc) key matches, mirroring
/// insertion where later entries replace earlier ones.
pub open spec fn lookup_spec(entries: Seq<SettingsWithProgramInfo>, msb: u8, lsb: u8, pc: u8)
    -> Option<int>
    decreases entries.len(),
{
    if entries.len() == 0 {
        None
    } else if entries.last().msb == msb && entries.last().lsb == lsb && entries.last().pc == pc {
        Some(entries.len() - 1)
    } else {
        lookup_spec(entries.drop_last(), msb, lsb, pc)
    }
}

/// Settings selection by exact (MSB, LSB, PC) lookup, falling back to a
/// default on a miss.
pub struct SpecificProgramChanges {
    entries: Vec<SettingsWithProgramInfo>,
    default: Settings,
    current: Option<usize>,
    msb: u8,
    lsb: u8,
    pc: u8,
}

impl SpecificProgramChanges {
    pub closed spec fn entries_view(&self) -> Seq<SettingsWithProgramInfo> {
        self.entries@
    }

    pub closed spec fn current_selection(&self) -> Option<int> {
        match self.current {
            Some(i) => Some(i as int),
            None => None,
        }
    }

    /// The stored bank-select state, as (MSB, LSB).
    pub closed spec fn bank(&self) -> (u8, u8) {
        (self.msb, self.lsb)
    }

    pub fn new(settings_with_program_info: Vec<SettingsWithProgramInfo>, default_settings: Settings)
        -> (r: SpecificProgramChanges)
        requires
            forall|i: int|
                0 <= i < settings_with_program_info@.len() ==> (
                #[trigger] settings_with_program_info@[i]).settings.wf(),
            default_settings.wf(),
        ensures
            <SpecificProgramChanges as SettingsGetter>::inv(&r),
            r.entries_view() == settings_with_program_info@,
            r.current_selection() is None,
            r.default_view() == default_settings,
            r.bank() == (0u8, 0u8),
    {
        SpecificProgramChanges {
            entries: settings_with_program_info,
            default: default_settings,
            current: None,
            msb: 0,
            lsb: 0,
            pc: 0,
        }
    }

    pub closed spec fn default_view(&self) -> Settings {
        self.default
    }
}

impl SettingsGetter for SpecificProgramChanges {
    closed spec fn inv(&self) -> bool {
        &&& forall|i: int|
            0 <= i < self.entries@.len() ==> (#[trigger] self.entries@[i]).settings.wf()
        &&& self.default.wf()
        &&& match self.current {
            Some(i) => i < self.entries@.len(),
            None => true,
        }
    }

    closed spec fn current(&self) -> Settings {
        match self.current {
            Some(i) => self.entries@[i as int].settings,
            None => self.default,
        }
    }

    closed spec fn after_route(&self, message: MidiMessage) -> Self {
        match message {
            MidiMessage::ControlChange { channel, control, value } => if channel == 1 && control
                == CC_BANK_SELECT {
                SpecificProgramChanges {
                    entries: self.entries,
                    default: self.default,
                    current: self.current,
                    msb: value,
                    lsb: self.lsb,
                    pc: self.pc,
                }
            } else if channel == 1 && control == CC_BANK_SELECT_LSB {
                SpecificProgramChanges {
                    entries: self.entries,
                    default: self.default,
                    current: self.current,
                    msb: self.msb,
                    lsb: value,
                    pc: self.pc,
                }
            } else {
                *self
            },
            MidiMessage::ProgramChange { channel, program } => if channel == 1 {
                let new_pc = if program < 255 {
                    (program + 1) as u8
                } else {
                    255u8
                };
                SpecificProgramChanges {
                    entries: self.entries,
                    default: self.default,
                    current: (match lookup_spec(self.entries@, self.msb, self.lsb, new_pc) {
                        Some(i) => Some(i as usize),
                        None => None,
                    }),
                    msb: self.msb,
                    lsb: self.lsb,
                    pc: new_pc,
                }
            } else {
                *self
            },
            _ => *self,
        }
    }

    fn get(&self) -> (r: &Settings)
        ensures
            *r == (match self.current_selection() {
                Some(i) => self.entries_view()[i].settings,
                None => self.default_view(),
            }),
    {
        match &self.current {
            Some(i) => &self.entries[*i].settings,
            None => &self.default,
        }
    }

    fn route(&mut self, message: MidiMessage) -> (r: Option<MidiMessage>)
        ensures
            final(self).entries_view() == old(self).entries_view(),
            final(self).default_view() == old(self).default_view(),
            ({
                let before = *old(self);
                let after = *final(self);
                match message {
                    MidiMessage::ControlChange { channel, control, value } => {
                        &&& (channel == 1 && control == CC_BANK_SELECT ==> after.bank() == (
                        value,
                        before.bank().1,
                        ))
                        &&& (channel == 1 && control == CC_BANK_SELECT_LSB ==> after.bank() == (
                        before.bank().0,
                        value,
                        ))
                        &&& after.current_selection() == before.current_selection()
                    },
                    MidiMessage::ProgramChange { channel, program } => channel == 1
                        ==> after.current_selection() == lookup_spec(
                        before.entries_view(),
                        before.bank().0,
                        before.bank().1,
                        (if program < 255 {
                            (program + 1) as u8
                        } else {
                            255u8
                        }),
                    ),
                    _ => after.current_selection() == before.current_selection(),
                }
            }),
    {
        match message {
            MidiMessage::ControlChange { channel: 1, control: CC_BANK_SELECT, value } => {
                self.msb = value;
                None
            },
            MidiMessage::ControlChange { channel: 1, control: CC_BANK_SELECT_LSB, value } => {
                self.lsb = value;
                None
            },
            MidiMessage::ProgramChange { channel: 1, program } => {
                // program numbers in the table are 1-based
                if program < 255 {
                    self.pc = program + 1;
                } else {
                    self.pc = 255;
                }
                self.current = lookup_entry(&self.entries, self.msb, self.lsb, self.pc);
                None
            },
            _ => Some(message),
        }
    }
}

impl MidiReceiver for SpecificProgramChanges {
    open spec fn inv(&self) -> bool {
        <SpecificProgramChanges as SettingsGetter>::inv(self)
    }

    fn passthrough_midi(&mut self, message: MidiMessage) -> (r: Option<MidiMessage>) {
        self.route(message)
    }
}

/// A message interceptor that counts, per beat, on how many ticks at
/// least one note-on arrived on its channel, consuming those note-ons.
pub struct NoteCounter {
    midi_channel: u8,
    notes: Vec<usize>,
    ticks: usize,
    last_note_count: usize,
}

impl NoteCounter {
    pub fn _new(midi_channel: u8) -> (r: NoteCounter)
        ensures
            <NoteCounter as MidiReceiver>::inv(&r),
            r.count_view() == 0,
    {
        let mut notes: Vec<usize> = Vec::new();
        let mut i: usize = 0;
        while i < crate::midi::TICKS_PER_BEAT
            invariant
                i <= crate::midi::TICKS_PER_BEAT,
                notes@.len() == i,
            decreases crate::midi::TICKS_PER_BEAT - i,
        {
            notes.push(0);
            i = i + 1;
        }
        NoteCounter { midi_channel, ticks: 0, notes, last_note_count: 0 }
    }

    pub closed spec fn count_view(&self) -> int {
        self.last_note_count as int
    }

    pub fn _get(&self) -> (r: usize)
        ensures
            r == self.count_view(),
    {
        self.last_note_count
    }
}

impl MidiReceiver for NoteCounter {
    closed spec fn inv(&self) -> bool {
        &&& self.notes@.len() == crate::midi::TICKS_PER_BEAT
        &&& self.ticks < crate::midi::TICKS_PER_BEAT
    }

    fn passthrough_midi(&mut self, message: MidiMessage) -> (r: Option<MidiMessage>) {
        match message {
            MidiMessage::TimingClock => {
                self.ticks = self.ticks + 1;
                if self.ticks == self.notes.len() {
                    self.ticks = 0;
                    let total: usize = self.notes.len();
                    let mut note_count: usize = 0;
                    let mut i: usize = 0;
                    while i < total
                        invariant
                            i <= total,
                            total == self.notes@.len(),
                            note_count <= i,
                            self.ticks < crate::midi::TICKS_PER_BEAT,
                        decreases total - i,
                    {
                        if self.notes[i] > 0 {
                            note_count = note_count + 1;
                        }
                        i = i + 1;
                    }
                    if note_count != self.last_note_count {
                        self.last_note_count = note_count;
                    }
                    let mut k: usize = 0;
                    while k < total
                        invariant
                            k <= total,
                            total == self.notes@.len(),
                            self.notes@.len() == total,
                            self.ticks < crate::midi::TICKS_PER_BEAT,
                        decreases total - k,
                    {
                        self.notes.set(k, 0);
                        k = k + 1;
                    }
                }
                Some(message)
            },
            MidiMessage::NoteOn { channel, .. } => {
                if channel == self.midi_channel {
                    let slot = self.notes[self.ticks];
                    if slot < usize::MAX {
                        self.notes.set(self.ticks, slot + 1);
                    }
                    // notes on this channel are consumed, not forwarded
                    None
                } else {
                    Some(message)
                }
            },
            _ => Some(message),
        }
    }
}

/// Find the last entry with the given key.
fn lookup_entry(entries: &Vec<SettingsWithProgramInfo>, msb: u8, lsb: u8, pc: u8) -> (r: Option<
    usize,
>)
    ensures
        (match r {
            Some(i) => Some(i as int),
            None => None,
        }) == lookup_spec(entries@, msb, lsb, pc),
        r matches Some(i) ==> i < entries@.len(),
{
    let n: usize = entries.len();
    let mut i: usize = n;
    proof {
        assert(entries@.take(n as int) =~= entries@);
    }
    while i > 0
        invariant
            i <= n,
            n == entries@.len(),
            lookup_spec(entries@, msb, lsb, pc) == lookup_spec(entries@.take(i as int), msb, lsb, pc),
        decreases i,
    {
        i = i - 1;
        proof {
            assert(entries@.take(i + 1).drop_last() =~= entries@.take(i as int));
            assert(entries@.take(i + 1).last() == entries@[i as int]);
        }
        let e = &entries[i];
        if e.msb == msb && e.lsb == lsb && e.pc == pc {
            return Some(i);
        }
    }
    proof {
        assert(entries@.take(0).len() == 0);
    }
    None
}

} // verus!
