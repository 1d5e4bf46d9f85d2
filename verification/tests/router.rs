use midi_arpeggiator::midi::MidiMessage;
use midi_arpeggiator::settings::{Settings, SettingsGetter, SettingsWithProgramInfo,
    SpecificProgramChanges, WraparoundProgramChanges};
use midi_arpeggiator::arpeggiator::{ArpeggiatorMode, Pattern};

fn plain(mode: ArpeggiatorMode) -> Settings {
    Settings {
        finish_pattern: false,
        fixed_velocity: None,
        mode,
        fixed_steps: None,
        fixed_notes_per_step: None,
        pattern: Pattern::Up,
        double_notes: None,
        presets: None,
    }
}

fn msb(value: u8) -> MidiMessage {
    MidiMessage::ControlChange { channel: 1, control: 0, value }
}

fn lsb(value: u8) -> MidiMessage {
    MidiMessage::ControlChange { channel: 1, control: 32, value }
}

fn pc(program: u8) -> MidiMessage {
    MidiMessage::ProgramChange { channel: 1, program }
}

#[test]
fn wraparound_consumes_settings_traffic_and_passes_the_rest() {
    let table = vec![plain(ArpeggiatorMode::Passthrough), plain(ArpeggiatorMode::PressHold)];
    let mut router = WraparoundProgramChanges::_new(table);
    assert_eq!(router.route(msb(1)), None);
    assert_eq!(router.route(lsb(2)), None);
    assert_eq!(router.route(pc(3)), None);
    // everything else passes through bit-identical
    let note = MidiMessage::NoteOn { channel: 1, note: 60, velocity: 100 };
    assert_eq!(router.route(note), Some(note));
    let clock = MidiMessage::TimingClock;
    assert_eq!(router.route(clock), Some(clock));
    let other_channel = MidiMessage::ProgramChange { channel: 2, program: 5 };
    assert_eq!(router.route(other_channel), Some(other_channel));
    let damper = MidiMessage::ControlChange { channel: 1, control: 64, value: 127 };
    assert_eq!(router.route(damper), Some(damper));
}

#[test]
fn wraparound_flattens_bank_and_program_into_an_index() {
    let table = vec![
        plain(ArpeggiatorMode::Passthrough),
        plain(ArpeggiatorMode::PressHold),
        plain(ArpeggiatorMode::MutatingHold),
    ];
    let mut router = WraparoundProgramChanges::_new(table);
    assert_eq!(router.get().mode, ArpeggiatorMode::Passthrough);
    // (msb * 127 + lsb) * 127 + pc, modulo the table length
    router.route(msb(0));
    router.route(lsb(0));
    router.route(pc(1));
    assert_eq!(router.get().mode, ArpeggiatorMode::PressHold);
    router.route(pc(2));
    assert_eq!(router.get().mode, ArpeggiatorMode::MutatingHold);
    router.route(lsb(1));
    router.route(pc(0));
    // (0 * 127 + 1) * 127 + 0 == 127; 127 % 3 == 1
    assert_eq!(router.get().mode, ArpeggiatorMode::PressHold);
}

#[test]
fn specific_looks_up_by_exact_key_and_falls_back_to_the_default() {
    let entries = vec![
        SettingsWithProgramInfo { msb: 0, lsb: 0, pc: 1, settings: plain(ArpeggiatorMode::PressHold) },
        SettingsWithProgramInfo { msb: 2, lsb: 5, pc: 9, settings: plain(ArpeggiatorMode::EvenMutator) },
    ];
    let mut router = SpecificProgramChanges::new(entries, plain(ArpeggiatorMode::Passthrough));
    assert_eq!(router.get().mode, ArpeggiatorMode::Passthrough);
    // program numbers in the table are 1-based
    router.route(pc(0));
    assert_eq!(router.get().mode, ArpeggiatorMode::PressHold);
    router.route(msb(2));
    router.route(lsb(5));
    router.route(pc(8));
    assert_eq!(router.get().mode, ArpeggiatorMode::EvenMutator);
    // a miss selects the default
    router.route(pc(3));
    assert_eq!(router.get().mode, ArpeggiatorMode::Passthrough);
}

#[test]
fn specific_later_entries_replace_earlier_ones_with_the_same_key() {
    let entries = vec![
        SettingsWithProgramInfo { msb: 0, lsb: 0, pc: 1, settings: plain(ArpeggiatorMode::PressHold) },
        SettingsWithProgramInfo { msb: 0, lsb: 0, pc: 1, settings: plain(ArpeggiatorMode::MutatingHold) },
    ];
    let mut router = SpecificProgramChanges::new(entries, plain(ArpeggiatorMode::Passthrough));
    router.route(pc(0));
    assert_eq!(router.get().mode, ArpeggiatorMode::MutatingHold);
}

#[test]
fn settings_comparison_is_deep() {
    let a = plain(ArpeggiatorMode::Passthrough);
    let mut b = a.duplicate();
    assert!(a.same_as(&b));
    b.double_notes = Some(vec![12]);
    assert!(!a.same_as(&b));
    let c = b.duplicate();
    assert!(b.same_as(&c));
}
