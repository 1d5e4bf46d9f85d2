use midi_arpeggiator::arpeggiator::{ArpeggiatorMode, Passthrough, Pattern};
use midi_arpeggiator::midi::{MidiMessage, MidiOutput};
use midi_arpeggiator::settings::Settings;

fn settings(fixed_velocity: Option<u8>, double_notes: Option<Vec<i8>>) -> Settings {
    Settings {
        finish_pattern: false,
        fixed_velocity,
        mode: ArpeggiatorMode::Passthrough,
        fixed_steps: None,
        fixed_notes_per_step: None,
        pattern: Pattern::Up,
        double_notes,
        presets: None,
    }
}

#[test]
fn forwards_notes_and_expression_untouched() {
    let s = settings(None, None);
    let mut mode = Passthrough::new();
    let mut out = MidiOutput::new();
    let messages = [
        MidiMessage::NoteOn { channel: 3, note: 60, velocity: 90 },
        MidiMessage::NoteOff { channel: 3, note: 60, velocity: 0 },
        MidiMessage::PolyphonicKeyPressure { channel: 3, note: 60, pressure: 40 },
        MidiMessage::ControlChange { channel: 3, control: 64, value: 127 },
        MidiMessage::ChannelPressure { channel: 3, pressure: 50 },
        MidiMessage::PitchBendChange { channel: 3, bend: 9000 },
    ];
    for m in messages {
        mode.process(m, &s, &mut out);
    }
    assert_eq!(out.messages().as_slice(), &messages);
}

#[test]
fn drops_patch_changes_and_system_traffic() {
    let s = settings(None, None);
    let mut mode = Passthrough::new();
    let mut out = MidiOutput::new();
    for m in [
        MidiMessage::ProgramChange { channel: 3, program: 7 },
        MidiMessage::ControlChange { channel: 3, control: 0, value: 1 },
        MidiMessage::ControlChange { channel: 3, control: 32, value: 1 },
        MidiMessage::TimingClock,
        MidiMessage::Reset,
        MidiMessage::SystemOther,
    ] {
        mode.process(m, &s, &mut out);
    }
    assert!(out.messages().is_empty());
}

#[test]
fn fixed_velocity_overrides_note_events_saturating() {
    let s = settings(Some(200), None);
    let mut mode = Passthrough::new();
    let mut out = MidiOutput::new();
    mode.process(MidiMessage::NoteOn { channel: 1, note: 60, velocity: 10 }, &s, &mut out);
    assert_eq!(
        out.messages().as_slice(),
        &[MidiMessage::NoteOn { channel: 1, note: 60, velocity: 127 }]
    );
    let s = settings(Some(5), None);
    let mut out = MidiOutput::new();
    mode.process(MidiMessage::NoteOff { channel: 1, note: 60, velocity: 10 }, &s, &mut out);
    assert_eq!(
        out.messages().as_slice(),
        &[MidiMessage::NoteOff { channel: 1, note: 60, velocity: 5 }]
    );
    // non-note messages keep their data byte
    let mut out = MidiOutput::new();
    mode.process(MidiMessage::ControlChange { channel: 1, control: 64, value: 99 }, &s, &mut out);
    assert_eq!(
        out.messages().as_slice(),
        &[MidiMessage::ControlChange { channel: 1, control: 64, value: 99 }]
    );
}

#[test]
fn doubling_copies_precede_the_forwarded_note() {
    let s = settings(None, Some(vec![-12, 7]));
    let mut mode = Passthrough::new();
    let mut out = MidiOutput::new();
    mode.process(MidiMessage::NoteOn { channel: 1, note: 60, velocity: 80 }, &s, &mut out);
    assert_eq!(
        out.messages().as_slice(),
        &[
            MidiMessage::NoteOn { channel: 1, note: 48, velocity: 80 },
            MidiMessage::NoteOn { channel: 1, note: 67, velocity: 80 },
            MidiMessage::NoteOn { channel: 1, note: 60, velocity: 80 },
        ]
    );
    // a control message is forwarded once, never doubled
    let mut out = MidiOutput::new();
    mode.process(MidiMessage::ControlChange { channel: 1, control: 64, value: 1 }, &s, &mut out);
    assert_eq!(out.messages().len(), 1);
}

#[test]
fn passthrough_reports_one_arpeggio() {
    let mode = Passthrough::new();
    assert_eq!(mode.count_arpeggios(), 1);
}
