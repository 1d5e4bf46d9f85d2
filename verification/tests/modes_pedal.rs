use midi_arpeggiator::arpeggiator::synced::PedalRecorder;
use midi_arpeggiator::arpeggiator::{ArpeggiatorMode, Pattern};
use midi_arpeggiator::midi::{MidiMessage, MidiOutput};
use midi_arpeggiator::settings::Settings;
use midi_arpeggiator::status::TextStatus;

fn settings() -> Settings {
    Settings {
        finish_pattern: false,
        fixed_velocity: None,
        mode: ArpeggiatorMode::SyncedPedalRecorder,
        fixed_steps: None,
        fixed_notes_per_step: None,
        pattern: Pattern::Up,
        double_notes: None,
        presets: None,
    }
}

fn on(n: u8) -> MidiMessage {
    MidiMessage::NoteOn { channel: 1, note: n, velocity: 100 }
}

fn off(n: u8) -> MidiMessage {
    MidiMessage::NoteOff { channel: 1, note: n, velocity: 100 }
}

fn pedal(value: u8) -> MidiMessage {
    MidiMessage::ControlChange { channel: 1, control: 64, value }
}

fn note_events(messages: &[MidiMessage]) -> Vec<(bool, u8)> {
    let mut out = Vec::new();
    for m in messages {
        match m {
            MidiMessage::NoteOn { note, .. } => out.push((true, *note)),
            MidiMessage::NoteOff { note, .. } => out.push((false, *note)),
            _ => {},
        }
    }
    out
}

#[test]
fn pedal_phrase_is_grouped_by_onset_gaps_and_loops_per_beat() {
    let s = settings();
    let mut mode = PedalRecorder::new();
    let mut out = MidiOutput::new();
    let mut status = TextStatus::_new();
    mode.process(pedal(127), &s, 0, &mut out, &mut status);
    // two nearly simultaneous presses, then a third after a gap: they
    // group into two steps; everything echoes meanwhile
    mode.process(on(60), &s, 0, &mut out, &mut status);
    mode.process(on(64), &s, 10_000, &mut out, &mut status);
    mode.process(on(67), &s, 100_000, &mut out, &mut status);
    mode.process(off(60), &s, 150_000, &mut out, &mut status);
    mode.process(off(64), &s, 150_000, &mut out, &mut status);
    mode.process(off(67), &s, 150_000, &mut out, &mut status);
    assert_eq!(
        note_events(out.messages()),
        vec![(true, 60), (true, 64), (true, 67), (false, 60), (false, 64), (false, 67)]
    );
    // pedal up: the phrase starts looping in its original key, one beat
    // per step
    mode.process(pedal(0), &s, 200_000, &mut out, &mut status);
    assert_eq!(mode.count_arpeggios(), 1);
    mode.process(MidiMessage::TimingClock, &s, 210_000, &mut out, &mut status);
    assert_eq!(&note_events(out.messages())[6..], &[(true, 60), (true, 64)]);
    // twenty-four ticks per step: the second step fires a beat later
    for k in 0..23 {
        mode.process(MidiMessage::TimingClock, &s, 220_000 + k, &mut out, &mut status);
    }
    mode.process(MidiMessage::TimingClock, &s, 250_000, &mut out, &mut status);
    assert_eq!(
        &note_events(out.messages())[8..],
        &[(false, 60), (false, 64), (true, 67)]
    );
}

#[test]
fn fresh_presses_transpose_the_recording_onto_their_pitch() {
    let s = settings();
    let mut mode = PedalRecorder::new();
    let mut out = MidiOutput::new();
    let mut status = TextStatus::_new();
    mode.process(pedal(127), &s, 0, &mut out, &mut status);
    mode.process(on(60), &s, 0, &mut out, &mut status);
    mode.process(off(60), &s, 50_000, &mut out, &mut status);
    mode.process(pedal(0), &s, 100_000, &mut out, &mut status);
    assert_eq!(mode.count_arpeggios(), 1);
    // a press two semitones up starts a transposed copy keyed by it
    mode.process(on(62), &s, 200_000, &mut out, &mut status);
    assert_eq!(mode.count_arpeggios(), 2);
    mode.process(MidiMessage::TimingClock, &s, 210_000, &mut out, &mut status);
    assert_eq!(&note_events(out.messages())[2..], &[(true, 60), (true, 62)]);
    // releasing the press stops only its copy
    mode.process(off(62), &s, 220_000, &mut out, &mut status);
    mode.process(MidiMessage::TimingClock, &s, 230_000, &mut out, &mut status);
    assert_eq!(mode.count_arpeggios(), 1);
    let events = note_events(out.messages());
    assert_eq!(events.last(), Some(&(false, 62)));
}

#[test]
fn a_new_pedal_press_discards_the_old_recording() {
    let s = settings();
    let mut mode = PedalRecorder::new();
    let mut out = MidiOutput::new();
    let mut status = TextStatus::_new();
    mode.process(pedal(127), &s, 0, &mut out, &mut status);
    mode.process(on(60), &s, 0, &mut out, &mut status);
    mode.process(off(60), &s, 10_000, &mut out, &mut status);
    mode.process(pedal(0), &s, 50_000, &mut out, &mut status);
    assert_eq!(mode.count_arpeggios(), 1);
    // pedal down again: the loop is force-stopped and the slate wiped
    mode.process(pedal(127), &s, 100_000, &mut out, &mut status);
    assert_eq!(mode.count_arpeggios(), 0);
    // with nothing recorded, a press plays nothing
    mode.process(pedal(0), &s, 150_000, &mut out, &mut status);
    mode.process(on(62), &s, 200_000, &mut out, &mut status);
    assert_eq!(mode.count_arpeggios(), 0);
}

#[test]
fn reset_releases_echoed_notes_before_silencing() {
    let s = settings();
    let mut mode = PedalRecorder::new();
    let mut out = MidiOutput::new();
    let mut status = TextStatus::_new();
    mode.process(pedal(127), &s, 0, &mut out, &mut status);
    mode.process(on(60), &s, 0, &mut out, &mut status);
    mode.process(on(64), &s, 10_000, &mut out, &mut status);
    // a reset while the pedal still holds the echoes: explicit teardown
    // sends their note-offs
    mode.process(MidiMessage::Reset, &s, 20_000, &mut out, &mut status);
    let events = note_events(out.messages());
    assert_eq!(
        events,
        vec![(true, 60), (true, 64), (false, 60), (false, 64)]
    );
    let ons = events.iter().filter(|e| e.0).count();
    let offs = events.iter().filter(|e| !e.0).count();
    assert_eq!(ons, offs);
}

