use midi_arpeggiator::arpeggiator::synced::{MutatingHold, PressHold};
use midi_arpeggiator::arpeggiator::{ArpeggiatorMode, Pattern};
use midi_arpeggiator::midi::{MidiMessage, MidiOutput};
use midi_arpeggiator::settings::Settings;
use midi_arpeggiator::status::TextStatus;

fn settings(mode: ArpeggiatorMode, fixed_steps: Option<usize>, finish_pattern: bool) -> Settings {
    Settings {
        finish_pattern,
        fixed_velocity: None,
        mode,
        fixed_steps,
        fixed_notes_per_step: None,
        pattern: Pattern::Up,
        double_notes: None,
        presets: None,
    }
}

fn on(n: u8) -> MidiMessage {
    MidiMessage::NoteOn { channel: 1, note: n, velocity: 100 }
}

fn off(n: u8) -> MidiMessage {
    MidiMessage::NoteOff { channel: 1, note: n, velocity: 100 }
}

fn count_ons_and_offs(messages: &[MidiMessage]) -> (usize, usize) {
    let mut ons = 0;
    let mut offs = 0;
    for m in messages {
        match m {
            MidiMessage::NoteOn { .. } => ons += 1,
            MidiMessage::NoteOff { .. } => offs += 1,
            _ => {},
        }
    }
    (ons, offs)
}

#[test]
fn press_hold_freezes_a_chord_into_a_looping_arpeggio() {
    let s = settings(ArpeggiatorMode::PressHold, Some(3), false);
    let mut mode = PressHold::new();
    let mut out = MidiOutput::new();
    let mut status = TextStatus::_new();
    // strike the chord
    mode.process(on(60), &s, 0, &mut out, &mut status);
    mode.process(on(64), &s, 1_000, &mut out, &mut status);
    mode.process(on(67), &s, 2_000, &mut out, &mut status);
    assert!(out.messages().is_empty());
    assert_eq!(mode.count_arpeggios(), 0);
    // after the debounce the chord freezes and the first step sounds
    mode.process(MidiMessage::TimingClock, &s, 60_000, &mut out, &mut status);
    assert_eq!(
        out.messages().as_slice(),
        &[MidiMessage::NoteOn { channel: 1, note: 60, velocity: 100 }]
    );
    assert_eq!(mode.count_arpeggios(), 1);
    // three steps over one beat: eight ticks per step
    for k in 0..7 {
        mode.process(MidiMessage::TimingClock, &s, 61_000 + k, &mut out, &mut status);
    }
    assert_eq!(out.messages().len(), 1);
    mode.process(MidiMessage::TimingClock, &s, 62_000, &mut out, &mut status);
    assert_eq!(
        &out.messages().as_slice()[1..],
        &[
            MidiMessage::NoteOff { channel: 1, note: 60, velocity: 100 },
            MidiMessage::NoteOn { channel: 1, note: 64, velocity: 100 },
        ]
    );
    // releasing the whole trigger set stops the player at the next tick
    mode.process(off(60), &s, 63_000, &mut out, &mut status);
    mode.process(off(64), &s, 63_001, &mut out, &mut status);
    mode.process(off(67), &s, 63_002, &mut out, &mut status);
    mode.process(MidiMessage::TimingClock, &s, 64_000, &mut out, &mut status);
    assert_eq!(mode.count_arpeggios(), 0);
    let (ons, offs) = count_ons_and_offs(out.messages().as_slice());
    assert_eq!(ons, offs);
}

#[test]
fn press_hold_pedal_defers_the_release() {
    let s = settings(ArpeggiatorMode::PressHold, None, false);
    let mut mode = PressHold::new();
    let mut out = MidiOutput::new();
    let mut status = TextStatus::_new();
    let pedal_down = MidiMessage::ControlChange { channel: 1, control: 64, value: 127 };
    let pedal_up = MidiMessage::ControlChange { channel: 1, control: 64, value: 0 };
    mode.process(on(60), &s, 0, &mut out, &mut status);
    mode.process(MidiMessage::TimingClock, &s, 60_000, &mut out, &mut status);
    assert_eq!(mode.count_arpeggios(), 1);
    mode.process(pedal_down, &s, 61_000, &mut out, &mut status);
    // the release is deferred while the pedal is down
    mode.process(off(60), &s, 62_000, &mut out, &mut status);
    mode.process(MidiMessage::TimingClock, &s, 63_000, &mut out, &mut status);
    assert_eq!(mode.count_arpeggios(), 1);
    // pedal up releases the deferred note and the player winds down
    mode.process(pedal_up, &s, 64_000, &mut out, &mut status);
    mode.process(MidiMessage::TimingClock, &s, 65_000, &mut out, &mut status);
    assert_eq!(mode.count_arpeggios(), 0);
    let (ons, offs) = count_ons_and_offs(out.messages().as_slice());
    assert_eq!(ons, offs);
}

#[test]
fn press_hold_reset_silences_everything() {
    let s = settings(ArpeggiatorMode::PressHold, None, true);
    let mut mode = PressHold::new();
    let mut out = MidiOutput::new();
    let mut status = TextStatus::_new();
    mode.process(on(60), &s, 0, &mut out, &mut status);
    mode.process(on(64), &s, 10, &mut out, &mut status);
    mode.process(MidiMessage::TimingClock, &s, 60_000, &mut out, &mut status);
    assert_eq!(mode.count_arpeggios(), 1);
    mode.process(MidiMessage::Reset, &s, 61_000, &mut out, &mut status);
    assert_eq!(mode.count_arpeggios(), 0);
    let (ons, offs) = count_ons_and_offs(out.messages().as_slice());
    assert_eq!(ons, offs);
}

#[test]
fn mutating_hold_keeps_cycling_through_a_release_and_stops_on_the_last() {
    let s = settings(ArpeggiatorMode::MutatingHold, None, false);
    let mut mode = MutatingHold::new();
    let mut out = MidiOutput::new();
    let mut status = TextStatus::_new();
    // hold the chord; the first tick builds the arpeggio and plays it
    mode.process(on(60), &s, &mut out, &mut status);
    mode.process(on(64), &s, &mut out, &mut status);
    mode.process(on(67), &s, &mut out, &mut status);
    mode.process(MidiMessage::TimingClock, &s, &mut out, &mut status);
    assert_eq!(
        out.messages().as_slice(),
        &[MidiMessage::NoteOn { channel: 1, note: 60, velocity: 100 }]
    );
    assert_eq!(mode.count_arpeggios(), 1);
    // removals while notes are still held do not rebuild the arpeggio
    mode.process(off(64), &s, &mut out, &mut status);
    mode.process(off(67), &s, &mut out, &mut status);
    mode.process(MidiMessage::TimingClock, &s, &mut out, &mut status);
    assert_eq!(out.messages().len(), 1);
    assert_eq!(mode.count_arpeggios(), 1);
    // the final release stops the arpeggio at the next tick
    mode.process(off(60), &s, &mut out, &mut status);
    mode.process(MidiMessage::TimingClock, &s, &mut out, &mut status);
    assert_eq!(mode.count_arpeggios(), 0);
    assert_eq!(
        out.messages().as_slice(),
        &[
            MidiMessage::NoteOn { channel: 1, note: 60, velocity: 100 },
            MidiMessage::NoteOff { channel: 1, note: 60, velocity: 100 },
        ]
    );
}

#[test]
fn mutating_hold_addition_rebuilds_with_phase_preserved() {
    let s = settings(ArpeggiatorMode::MutatingHold, None, false);
    let mut mode = MutatingHold::new();
    let mut out = MidiOutput::new();
    let mut status = TextStatus::_new();
    mode.process(on(60), &s, &mut out, &mut status);
    mode.process(MidiMessage::TimingClock, &s, &mut out, &mut status);
    // a one-note arpeggio spans one beat of twenty-four ticks
    mode.process(on(64), &s, &mut out, &mut status);
    mode.process(MidiMessage::TimingClock, &s, &mut out, &mut status);
    // the rebuilt two-note arpeggio keeps the tick within the beat, so
    // the second step fires at tick twenty-five, not earlier
    for _ in 0..22 {
        mode.process(MidiMessage::TimingClock, &s, &mut out, &mut status);
    }
    assert_eq!(out.messages().len(), 1);
    mode.process(MidiMessage::TimingClock, &s, &mut out, &mut status);
    assert_eq!(
        &out.messages().as_slice()[1..],
        &[
            MidiMessage::NoteOff { channel: 1, note: 60, velocity: 100 },
            MidiMessage::NoteOn { channel: 1, note: 64, velocity: 100 },
        ]
    );
}

#[test]
fn press_hold_repress_cancels_a_deferred_release() {
    let s = settings(ArpeggiatorMode::PressHold, None, false);
    let mut mode = PressHold::new();
    let mut out = MidiOutput::new();
    let mut status = TextStatus::_new();
    let pedal_down = MidiMessage::ControlChange { channel: 1, control: 64, value: 127 };
    let pedal_up = MidiMessage::ControlChange { channel: 1, control: 64, value: 0 };
    mode.process(on(60), &s, 0, &mut out, &mut status);
    mode.process(MidiMessage::TimingClock, &s, 60_000, &mut out, &mut status);
    assert_eq!(mode.count_arpeggios(), 1);
    mode.process(pedal_down, &s, 61_000, &mut out, &mut status);
    mode.process(off(60), &s, 62_000, &mut out, &mut status);
    // re-pressing the deferred note cancels its pending release instead
    // of stacking a new press, so the pedal coming up releases nothing
    mode.process(on(60), &s, 63_000, &mut out, &mut status);
    mode.process(pedal_up, &s, 64_000, &mut out, &mut status);
    mode.process(MidiMessage::TimingClock, &s, 65_000, &mut out, &mut status);
    assert_eq!(mode.count_arpeggios(), 1);
    // a real release while the pedal is up still stops the player
    mode.process(off(60), &s, 66_000, &mut out, &mut status);
    mode.process(MidiMessage::TimingClock, &s, 67_000, &mut out, &mut status);
    assert_eq!(mode.count_arpeggios(), 0);
    let (ons, offs) = count_ons_and_offs(out.messages().as_slice());
    assert_eq!(ons, offs);
}
