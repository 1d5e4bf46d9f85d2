use midi_arpeggiator::arpeggio::timed::{Player, PlayerCommand, PlayerCommands};
use midi_arpeggiator::arpeggiator::timed::{PedalRecorder, RepeatRecorder};
use midi_arpeggiator::arpeggiator::{ArpeggiatorMode, Pattern};
use midi_arpeggiator::midi::{MidiMessage, MidiOutput};
use midi_arpeggiator::settings::Settings;
use midi_arpeggiator::status::TextStatus;

fn settings(mode: ArpeggiatorMode) -> Settings {
    Settings {
        finish_pattern: false,
        fixed_velocity: None,
        mode,
        fixed_steps: None,
        fixed_notes_per_step: None,
        pattern: Pattern::Up,
        double_notes: None,
        presets: None,
    }
}

fn on(n: u8) -> MidiMessage {
    MidiMessage::NoteOn { channel: 1, note: n, velocity: 100 }
}

fn off(n: u8) -> MidiMessage {
    MidiMessage::NoteOff { channel: 1, note: n, velocity: 100 }
}

fn note_events(messages: &[MidiMessage]) -> Vec<(bool, u8)> {
    let mut out = Vec::new();
    for m in messages {
        match m {
            MidiMessage::NoteOn { note, .. } => out.push((true, *note)),
            MidiMessage::NoteOff { note, .. } => out.push((false, *note)),
            _ => {},
        }
    }
    out
}

/// Run a started worker for a few wake-ups, as the application's worker
/// thread would, and collect what it emits and sleeps.
fn run_worker(player: &mut Player, stops: &[bool], out: &mut MidiOutput) -> Vec<Option<u64>> {
    let mut waits = Vec::new();
    for &stop in stops {
        waits.push(player.play_step(stop, out));
    }
    waits
}

#[test]
fn repeat_recorder_builds_the_loop_from_the_release_to_the_repress() {
    let s = settings(ArpeggiatorMode::RepeatRecorder);
    let mut mode = RepeatRecorder::new();
    let mut cmds = PlayerCommands::new();
    let mut status = TextStatus::_new();
    // hold a chord, release its top note, then re-press that note
    mode.process(on(60), &s, 0, &mut cmds, &mut status);
    mode.process(on(64), &s, 100_000, &mut cmds, &mut status);
    mode.process(on(67), &s, 200_000, &mut cmds, &mut status);
    mode.process(off(67), &s, 300_000, &mut cmds, &mut status);
    assert!(cmds.take().is_empty());
    mode.process(on(67), &s, 500_000, &mut cmds, &mut status);
    assert_eq!(mode.count_arpeggios(), 1);
    let issued = cmds.take();
    assert_eq!(issued.len(), 1);
    let mut player = match issued.into_iter().next().unwrap() {
        PlayerCommand::Start { key, player } => {
            assert_eq!(key, 67);
            player
        },
        _ => panic!("expected a start command"),
    };
    // the worker walks the motif in press order with press-to-press waits
    let mut out = MidiOutput::new();
    let waits = run_worker(&mut player, &[false, false, false, false], &mut out);
    assert_eq!(
        note_events(out.messages()),
        vec![(true, 60), (false, 60), (true, 64), (false, 64), (true, 67), (false, 67), (true, 60)]
    );
    // press-to-press gaps, with the wrap spanning release-to-re-press
    assert_eq!(waits, vec![Some(100_000), Some(100_000), Some(300_000), Some(100_000)]);
}

#[test]
fn repeat_recorder_stops_the_worker_when_the_key_is_released() {
    let s = settings(ArpeggiatorMode::RepeatRecorder);
    let mut mode = RepeatRecorder::new();
    let mut cmds = PlayerCommands::new();
    let mut status = TextStatus::_new();
    mode.process(on(60), &s, 0, &mut cmds, &mut status);
    mode.process(off(60), &s, 100_000, &mut cmds, &mut status);
    mode.process(on(60), &s, 300_000, &mut cmds, &mut status);
    let _ = cmds.take();
    mode.process(off(60), &s, 400_000, &mut cmds, &mut status);
    assert_eq!(mode.count_arpeggios(), 0);
    let issued = cmds.take();
    assert_eq!(issued.len(), 1);
    assert!(matches!(issued[0], PlayerCommand::Stop { key: 60 }));
}

#[test]
fn repeat_recorder_reset_joins_all_workers() {
    let s = settings(ArpeggiatorMode::RepeatRecorder);
    let mut mode = RepeatRecorder::new();
    let mut cmds = PlayerCommands::new();
    let mut status = TextStatus::_new();
    mode.process(MidiMessage::Reset, &s, 0, &mut cmds, &mut status);
    let issued = cmds.take();
    assert_eq!(issued.len(), 1);
    assert!(matches!(issued[0], PlayerCommand::StopAllAndJoin));
}

#[test]
fn pedal_recorder_echoes_records_and_transposes() {
    let s = settings(ArpeggiatorMode::TimedPedalRecorder);
    let mut mode = PedalRecorder::new();
    let mut out = MidiOutput::new();
    let mut cmds = PlayerCommands::new();
    let mut status = TextStatus::_new();
    let pedal_down = MidiMessage::ControlChange { channel: 1, control: 64, value: 127 };
    let pedal_up = MidiMessage::ControlChange { channel: 1, control: 64, value: 0 };

    mode.process(pedal_down, &s, 0, &mut out, &mut cmds, &mut status);
    assert!(matches!(cmds.take().as_slice(), &[PlayerCommand::StopAll]));
    // the phrase is echoed to the output while the pedal is down
    mode.process(on(60), &s, 0, &mut out, &mut cmds, &mut status);
    mode.process(on(64), &s, 100_000, &mut out, &mut cmds, &mut status);
    mode.process(on(67), &s, 200_000, &mut out, &mut cmds, &mut status);
    mode.process(off(60), &s, 300_000, &mut out, &mut cmds, &mut status);
    mode.process(off(64), &s, 300_000, &mut out, &mut cmds, &mut status);
    mode.process(off(67), &s, 300_000, &mut out, &mut cmds, &mut status);
    assert_eq!(
        note_events(out.messages()),
        vec![(true, 60), (true, 64), (true, 67), (false, 60), (false, 64), (false, 67)]
    );
    // pedal up: the phrase starts looping at its original key
    mode.process(pedal_up, &s, 300_000, &mut out, &mut cmds, &mut status);
    assert_eq!(mode.count_arpeggios(), 1);
    let issued = cmds.take();
    assert_eq!(issued.len(), 1);
    let mut original = match issued.into_iter().next().unwrap() {
        PlayerCommand::Start { key, player } => {
            assert_eq!(key, 60);
            player
        },
        _ => panic!("expected a start command"),
    };
    let mut loop_out = MidiOutput::new();
    run_worker(&mut original, &[false, false, false], &mut loop_out);
    assert_eq!(
        note_events(loop_out.messages()),
        vec![(true, 60), (false, 60), (true, 64), (false, 64), (true, 67)]
    );
    // a fresh press starts a transposed copy keyed by its pitch
    mode.process(on(62), &s, 400_000, &mut out, &mut cmds, &mut status);
    assert_eq!(mode.count_arpeggios(), 2);
    let issued = cmds.take();
    let mut transposed = match issued.into_iter().next().unwrap() {
        PlayerCommand::Start { key, player } => {
            assert_eq!(key, 62);
            player
        },
        _ => panic!("expected a start command"),
    };
    let mut up_out = MidiOutput::new();
    run_worker(&mut transposed, &[false, false, false], &mut up_out);
    // one whole tone up: D, F sharp, A
    assert_eq!(
        note_events(up_out.messages()),
        vec![(true, 62), (false, 62), (true, 66), (false, 66), (true, 69)]
    );
    // releasing the key stops only that copy
    mode.process(off(62), &s, 500_000, &mut out, &mut cmds, &mut status);
    assert_eq!(mode.count_arpeggios(), 1);
    let issued = cmds.take();
    assert!(matches!(issued.as_slice(), &[PlayerCommand::Stop { key: 62 }]));
}

#[test]
fn timed_player_honours_the_stop_flag_between_steps() {
    let s = settings(ArpeggiatorMode::RepeatRecorder);
    let mut mode = RepeatRecorder::new();
    let mut cmds = PlayerCommands::new();
    let mut status = TextStatus::_new();
    mode.process(on(60), &s, 0, &mut cmds, &mut status);
    mode.process(off(60), &s, 100_000, &mut cmds, &mut status);
    mode.process(on(60), &s, 200_000, &mut cmds, &mut status);
    let issued = cmds.take();
    let mut player = match issued.into_iter().next().unwrap() {
        PlayerCommand::Start { player, .. } => player,
        _ => panic!("expected a start command"),
    };
    let mut out = MidiOutput::new();
    assert!(player.play_step(false, &mut out).is_some());
    // with the flag raised the worker switches its note off and exits
    assert!(player.play_step(true, &mut out).is_none());
    assert_eq!(note_events(out.messages()), vec![(true, 60), (false, 60)]);
}
