use midi_arpeggiator::arpeggio::timed::PlayerCommands;
use midi_arpeggiator::arpeggiator::{ArpeggiatorMode, MultiArpeggiator, Pattern};
use midi_arpeggiator::midi::{MidiMessage, MidiOutput};
use midi_arpeggiator::settings::{Settings, WraparoundProgramChanges};
use midi_arpeggiator::status::{StatusEvent, TextStatus};

fn plain(mode: ArpeggiatorMode) -> Settings {
    Settings {
        finish_pattern: false,
        fixed_velocity: None,
        mode,
        fixed_steps: None,
        fixed_notes_per_step: None,
        pattern: Pattern::Up,
        double_notes: None,
        presets: None,
    }
}

fn on(n: u8) -> MidiMessage {
    MidiMessage::NoteOn { channel: 1, note: n, velocity: 100 }
}

fn off(n: u8) -> MidiMessage {
    MidiMessage::NoteOff { channel: 1, note: n, velocity: 100 }
}

fn pc(program: u8) -> MidiMessage {
    MidiMessage::ProgramChange { channel: 1, program }
}

fn count_ons_and_offs(messages: &[MidiMessage]) -> (usize, usize) {
    let mut ons = 0;
    let mut offs = 0;
    for m in messages {
        match m {
            MidiMessage::NoteOn { .. } => ons += 1,
            MidiMessage::NoteOff { .. } => offs += 1,
            _ => {},
        }
    }
    (ons, offs)
}

#[test]
fn passthrough_forwards_notes_and_consumes_settings_traffic() {
    let router = WraparoundProgramChanges::_new(vec![
        plain(ArpeggiatorMode::Passthrough),
        plain(ArpeggiatorMode::PressHold),
    ]);
    let mut engine = MultiArpeggiator::new(router, TextStatus::_new());
    let mut out = MidiOutput::new();
    let mut cmds = PlayerCommands::new();
    engine.process_message(on(60), 0, &mut out, &mut cmds);
    engine.process_message(off(60), 1_000, &mut out, &mut cmds);
    assert_eq!(out.messages().as_slice(), &[on(60), off(60)]);
    // the program change is consumed, never forwarded
    engine.process_message(pc(1), 2_000, &mut out, &mut cmds);
    assert_eq!(out.messages().len(), 2);
}

#[test]
fn settings_change_mid_play_tears_the_old_mode_down() {
    let router = WraparoundProgramChanges::_new(vec![
        plain(ArpeggiatorMode::PressHold),
        plain(ArpeggiatorMode::Passthrough),
    ]);
    let mut engine = MultiArpeggiator::new(router, TextStatus::_new());
    let mut out = MidiOutput::new();
    let mut cmds = PlayerCommands::new();
    // hold a chord until the press-hold mode freezes it into a player
    engine.process_message(on(60), 0, &mut out, &mut cmds);
    engine.process_message(on(64), 1_000, &mut out, &mut cmds);
    engine.process_message(MidiMessage::TimingClock, 60_000, &mut out, &mut cmds);
    assert_eq!(count_ons_and_offs(out.messages()), (1, 0));
    // a program change routes to the passthrough settings: the running
    // player is torn down with its note-offs before the mode swaps
    engine.process_message(pc(1), 61_000, &mut out, &mut cmds);
    let (ons, offs) = count_ons_and_offs(out.messages());
    assert_eq!((ons, offs), (1, 1));
    // subsequent input is handled by the new mode: forwarded verbatim
    engine.process_message(on(72), 62_000, &mut out, &mut cmds);
    assert_eq!(out.messages().last(), Some(&on(72)));
    // the status saw the new settings and the player counts
    let status = &engine.status;
    let mut saw_passthrough_settings = false;
    for e in status.events() {
        if let StatusEvent::ShowedSettings(s) = e {
            if s.mode == ArpeggiatorMode::Passthrough {
                saw_passthrough_settings = true;
            }
        }
    }
    assert!(saw_passthrough_settings);
}

#[test]
fn zero_velocity_note_on_acts_as_note_off_after_normalizing() {
    // the framing layer normalizes; the engine then treats it as an off
    let raw = MidiMessage::NoteOn { channel: 1, note: 60, velocity: 0 };
    let normalized = raw.normalized();
    assert_eq!(normalized, MidiMessage::NoteOff { channel: 1, note: 60, velocity: 0 });

    let router = WraparoundProgramChanges::_new(vec![plain(ArpeggiatorMode::PressHold)]);
    let mut engine = MultiArpeggiator::new(router, TextStatus::_new());
    let mut out = MidiOutput::new();
    let mut cmds = PlayerCommands::new();
    engine.process_message(on(60), 0, &mut out, &mut cmds);
    engine.process_message(normalized, 1_000, &mut out, &mut cmds);
    // the hold was released before the debounce, so nothing ever plays
    engine.process_message(MidiMessage::TimingClock, 60_000, &mut out, &mut cmds);
    assert_eq!(out.messages().len(), 0);
}

#[test]
fn no_hanging_notes_across_reset() {
    let router = WraparoundProgramChanges::_new(vec![plain(ArpeggiatorMode::PressHold)]);
    let mut engine = MultiArpeggiator::new(router, TextStatus::_new());
    let mut out = MidiOutput::new();
    let mut cmds = PlayerCommands::new();
    engine.process_message(on(60), 0, &mut out, &mut cmds);
    engine.process_message(on(64), 1_000, &mut out, &mut cmds);
    engine.process_message(MidiMessage::TimingClock, 60_000, &mut out, &mut cmds);
    for k in 0..9 {
        engine.process_message(MidiMessage::TimingClock, 61_000 + k, &mut out, &mut cmds);
    }
    engine.process_message(MidiMessage::Reset, 70_000, &mut out, &mut cmds);
    let (ons, offs) = count_ons_and_offs(out.messages());
    assert_eq!(ons, offs);
    assert!(ons > 0);
}

#[test]
fn a_settings_change_during_a_pedal_echo_sends_the_note_offs() {
    // switching away from the pedal recorder while notes echo through
    // the pedal is an explicit teardown: the echoes get their note-offs
    let router = WraparoundProgramChanges::_new(vec![
        plain(ArpeggiatorMode::SyncedPedalRecorder),
        plain(ArpeggiatorMode::Passthrough),
    ]);
    let mut engine = MultiArpeggiator::new(router, TextStatus::_new());
    let mut out = MidiOutput::new();
    let mut cmds = PlayerCommands::new();
    let pedal_down = MidiMessage::ControlChange { channel: 1, control: 64, value: 127 };
    engine.process_message(pedal_down, 0, &mut out, &mut cmds);
    engine.process_message(on(60), 1_000, &mut out, &mut cmds);
    assert_eq!(count_ons_and_offs(out.messages()), (1, 0));
    engine.process_message(pc(1), 2_000, &mut out, &mut cmds);
    let (ons, offs) = count_ons_and_offs(out.messages());
    assert_eq!((ons, offs), (1, 1));
}

