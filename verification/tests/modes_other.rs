use midi_arpeggiator::arpeggiator::full_length::{EvenMutator, TriggeredChords};
use midi_arpeggiator::arpeggiator::synced::PrerecordedSets;
use midi_arpeggiator::arpeggiator::{ArpeggiatorMode, Pattern};
use midi_arpeggiator::midi::{MidiMessage, MidiOutput};
use midi_arpeggiator::presets::Preset;
use midi_arpeggiator::settings::Settings;
use midi_arpeggiator::status::{StatusEvent, TextStatus};

fn settings(mode: ArpeggiatorMode, fixed_steps: Option<usize>) -> Settings {
    Settings {
        finish_pattern: false,
        fixed_velocity: None,
        mode,
        fixed_steps,
        fixed_notes_per_step: None,
        pattern: Pattern::Up,
        double_notes: None,
        presets: None,
    }
}

fn on(n: u8) -> MidiMessage {
    MidiMessage::NoteOn { channel: 1, note: n, velocity: 100 }
}

fn off(n: u8) -> MidiMessage {
    MidiMessage::NoteOff { channel: 1, note: n, velocity: 100 }
}

fn tick() -> MidiMessage {
    MidiMessage::TimingClock
}

fn note_events(messages: &[MidiMessage]) -> Vec<(bool, u8)> {
    let mut out = Vec::new();
    for m in messages {
        match m {
            MidiMessage::NoteOn { note, .. } => out.push((true, *note)),
            MidiMessage::NoteOff { note, .. } => out.push((false, *note)),
            _ => {},
        }
    }
    out
}

#[test]
fn even_mutator_accumulates_during_the_preroll_and_mutates_in_place() {
    // four steps per beat: six ticks per sweep step
    let s = settings(ArpeggiatorMode::EvenMutator, Some(4));
    let mut mode = EvenMutator::new();
    let mut out = MidiOutput::new();
    let mut status = TextStatus::_new();
    mode.process(on(60), &s, &mut out, &mut status);
    assert_eq!(mode.count_arpeggios(), 0);
    // two pre-roll ticks; a note added meanwhile joins the bitmap
    mode.process(tick(), &s, &mut out, &mut status);
    mode.process(on(64), &s, &mut out, &mut status);
    mode.process(tick(), &s, &mut out, &mut status);
    assert!(out.messages().is_empty());
    // the next tick starts the player on the lowest held pitch
    mode.process(tick(), &s, &mut out, &mut status);
    assert_eq!(mode.count_arpeggios(), 1);
    assert_eq!(note_events(out.messages()).last(), Some(&(true, 60)));
    // adding a pitch mid-play lands in the sweep without a phase reset
    mode.process(on(67), &s, &mut out, &mut status);
    for _ in 0..6 {
        mode.process(tick(), &s, &mut out, &mut status);
    }
    let events = note_events(out.messages());
    assert_eq!(events.last(), Some(&(true, 64)));
    for _ in 0..6 {
        mode.process(tick(), &s, &mut out, &mut status);
    }
    let events = note_events(out.messages());
    assert_eq!(events.last(), Some(&(true, 67)));
    // the sweep wraps around with nothing dropped or doubled
    for _ in 0..6 {
        mode.process(tick(), &s, &mut out, &mut status);
    }
    let events = note_events(out.messages());
    assert_eq!(events.last(), Some(&(true, 60)));
}

#[test]
fn even_mutator_stops_when_the_bitmap_empties() {
    let s = settings(ArpeggiatorMode::EvenMutator, Some(4));
    let mut mode = EvenMutator::new();
    let mut out = MidiOutput::new();
    let mut status = TextStatus::_new();
    mode.process(on(60), &s, &mut out, &mut status);
    mode.process(tick(), &s, &mut out, &mut status);
    mode.process(tick(), &s, &mut out, &mut status);
    mode.process(tick(), &s, &mut out, &mut status);
    assert_eq!(mode.count_arpeggios(), 1);
    mode.process(off(60), &s, &mut out, &mut status);
    // a full fruitless sweep ends the player
    for _ in 0..6 {
        mode.process(tick(), &s, &mut out, &mut status);
    }
    assert_eq!(mode.count_arpeggios(), 0);
}

#[test]
fn triggered_chords_strike_and_release_with_the_trigger() {
    let preset = Preset { trigger: vec![60], steps: vec![60, 64, 67], ticks_per_step: 6 };
    let s = settings(ArpeggiatorMode::TriggeredChords, None);
    let mut mode = TriggeredChords::new(vec![preset]);
    let mut out = MidiOutput::new();
    let mut status = TextStatus::_new();
    mode.process(on(60), &s, &mut out, &mut status);
    assert_eq!(mode.count_arpeggios(), 1);
    assert_eq!(note_events(out.messages()), vec![(true, 60), (true, 64), (true, 67)]);
    mode.process(off(60), &s, &mut out, &mut status);
    assert_eq!(mode.count_arpeggios(), 0);
    assert_eq!(
        note_events(out.messages()),
        vec![(true, 60), (true, 64), (true, 67), (false, 60), (false, 64), (false, 67)]
    );
}

#[test]
fn triggered_chords_need_the_exact_note_set() {
    let preset = Preset { trigger: vec![60, 64], steps: vec![72], ticks_per_step: 6 };
    let s = settings(ArpeggiatorMode::TriggeredChords, None);
    let mut mode = TriggeredChords::new(vec![preset]);
    let mut out = MidiOutput::new();
    let mut status = TextStatus::_new();
    mode.process(on(60), &s, &mut out, &mut status);
    assert_eq!(mode.count_arpeggios(), 0);
    mode.process(on(64), &s, &mut out, &mut status);
    assert_eq!(mode.count_arpeggios(), 1);
}

#[test]
fn prerecorded_sets_play_a_preset_when_the_held_set_matches() {
    let preset = Preset { trigger: vec![60, 64], steps: vec![72, 76], ticks_per_step: 12 };
    let s = settings(ArpeggiatorMode::PrerecordedSets, None);
    let mut mode = PrerecordedSets::new(vec![preset]);
    let mut out = MidiOutput::new();
    let mut status = TextStatus::_new();
    mode.process(on(60), &s, &mut out, &mut status);
    assert_eq!(mode.count_arpeggios(), 0);
    mode.process(on(64), &s, &mut out, &mut status);
    assert_eq!(mode.count_arpeggios(), 1);
    // the preset's first step sounds on the next tick, at the preset's rate
    mode.process(tick(), &s, &mut out, &mut status);
    assert_eq!(note_events(out.messages()), vec![(true, 72)]);
    // releasing part of the trigger keeps it running; the rest stops it
    mode.process(off(60), &s, &mut out, &mut status);
    mode.process(tick(), &s, &mut out, &mut status);
    assert_eq!(mode.count_arpeggios(), 1);
    mode.process(off(64), &s, &mut out, &mut status);
    mode.process(tick(), &s, &mut out, &mut status);
    assert_eq!(mode.count_arpeggios(), 0);
    let events = note_events(out.messages());
    assert_eq!(events.last(), Some(&(false, 72)));
}

#[test]
fn preset_triggering_is_set_equality() {
    let preset = Preset { trigger: vec![60, 64], steps: vec![72], ticks_per_step: 1 };
    assert!(preset.is_triggered_by(&vec![60, 64]));
    assert!(preset.is_triggered_by(&vec![64, 60]));
    assert!(!preset.is_triggered_by(&vec![60]));
    assert!(!preset.is_triggered_by(&vec![60, 64, 67]));
}

#[test]
fn triggered_chords_signal_one_beat_reset_per_started_preset() {
    // two presets with the same trigger start together, and each start
    // signals its own beat reset
    let first = Preset { trigger: vec![60], steps: vec![60, 64], ticks_per_step: 6 };
    let second = Preset { trigger: vec![60], steps: vec![67], ticks_per_step: 6 };
    let s = settings(ArpeggiatorMode::TriggeredChords, None);
    let mut mode = TriggeredChords::new(vec![first, second]);
    let mut out = MidiOutput::new();
    let mut status = TextStatus::_new();
    mode.process(on(60), &s, &mut out, &mut status);
    assert_eq!(mode.count_arpeggios(), 2);
    let resets = status
        .events()
        .iter()
        .filter(|e| matches!(e, StatusEvent::BeatReset))
        .count();
    assert_eq!(resets, 2);
    // releasing the trigger stops both without another reset
    mode.process(off(60), &s, &mut out, &mut status);
    let resets_after = status
        .events()
        .iter()
        .filter(|e| matches!(e, StatusEvent::BeatReset))
        .count();
    assert_eq!(resets_after, 2);
}
