use midi_arpeggiator::arpeggio::synced::{Arpeggio, Player};
use midi_arpeggiator::arpeggio::{NoteDetails, Step};
use midi_arpeggiator::midi::{MidiMessage, MidiOutput};

fn note(n: u8) -> NoteDetails {
    NoteDetails { c: 1, n, v: 100 }
}

fn on(n: u8) -> MidiMessage {
    MidiMessage::NoteOn { channel: 1, note: n, velocity: 100 }
}

fn off(n: u8) -> MidiMessage {
    MidiMessage::NoteOff { channel: 1, note: n, velocity: 100 }
}

fn one_note_steps(pitches: &[u8]) -> Vec<Step> {
    pitches.iter().map(|&p| Step::note(note(p))).collect()
}

#[test]
fn from_spreads_steps_over_beats_and_saturates() {
    let arp = Arpeggio::from(one_note_steps(&[60, 64, 67]), 1, false);
    assert_eq!(arp.ticks_per_step, 8);
    let arp = Arpeggio::from(one_note_steps(&[60; 30]), 1, false);
    assert_eq!(arp.ticks_per_step, 1);
}

#[test]
fn play_tick_cycles_with_off_before_next_on() {
    let arp = Arpeggio::from(one_note_steps(&[60, 64]), 1, false);
    assert_eq!(arp.ticks_per_step, 12);
    let mut player = Player::init(arp, &None);
    let mut out = MidiOutput::new();
    // first tick switches the first step on
    assert!(player.play_tick(&mut out));
    assert_eq!(out.messages().as_slice(), &[on(60)]);
    // the next eleven ticks wait
    for _ in 0..11 {
        assert!(player.play_tick(&mut out));
    }
    assert_eq!(out.messages().len(), 1);
    // tick thirteen switches the first step off and the second on
    assert!(player.play_tick(&mut out));
    assert_eq!(out.messages().as_slice(), &[on(60), off(60), on(64)]);
}

#[test]
fn stop_without_finish_pattern_silences_on_the_next_tick() {
    let arp = Arpeggio::from(one_note_steps(&[60, 64]), 1, false);
    let mut player = Player::init(arp, &None);
    let mut out = MidiOutput::new();
    assert!(player.play_tick(&mut out));
    player.stop();
    assert!(!player.play_tick(&mut out));
    assert_eq!(out.messages().as_slice(), &[on(60), off(60)]);
}

#[test]
fn stop_with_finish_pattern_completes_the_cycle() {
    let arp = Arpeggio::from(one_note_steps(&[60, 64]), 1, true);
    let mut player = Player::init(arp, &None);
    let mut out = MidiOutput::new();
    assert!(player.play_tick(&mut out)); // on 60, step -> 1
    player.stop();
    for _ in 0..11 {
        assert!(player.play_tick(&mut out));
    }
    assert!(player.play_tick(&mut out)); // off 60, on 64, step wraps to 0
    for _ in 0..11 {
        assert!(player.play_tick(&mut out));
    }
    // the cycle has wrapped: the stop takes effect with the final off
    assert!(!player.play_tick(&mut out));
    assert_eq!(out.messages().as_slice(), &[on(60), off(60), on(64), off(64)]);
}

#[test]
fn force_stop_silences_immediately() {
    let arp = Arpeggio::from(one_note_steps(&[60, 64]), 1, true);
    let mut player = Player::init(arp, &None);
    let mut out = MidiOutput::new();
    assert!(player.play_tick(&mut out));
    player.force_stop(&mut out);
    assert_eq!(out.messages().as_slice(), &[on(60), off(60)]);
}

#[test]
fn doubling_emits_transposed_copies_before_the_note() {
    let arp = Arpeggio::from(one_note_steps(&[60]), 1, false);
    let mut player = Player::init(arp, &Some(vec![-12, 12]));
    let mut out = MidiOutput::new();
    assert!(player.play_tick(&mut out));
    assert_eq!(out.messages().as_slice(), &[on(48), on(72), on(60)]);
}

#[test]
fn doubling_drops_out_of_range_copies() {
    let arp = Arpeggio::from(one_note_steps(&[120]), 1, false);
    let mut player = Player::init(arp, &Some(vec![12]));
    let mut out = MidiOutput::new();
    assert!(player.play_tick(&mut out));
    assert_eq!(out.messages().as_slice(), &[on(120)]);
}

#[test]
fn change_arpeggio_preserves_the_tick_within_the_beat() {
    // old arpeggio: two steps at twelve ticks per step
    let arp = Arpeggio::from(one_note_steps(&[60, 64]), 1, false);
    let mut player = Player::init(arp, &None);
    let mut out = MidiOutput::new();
    // five ticks in: step-on at tick one, four waits
    for _ in 0..5 {
        assert!(player.play_tick(&mut out));
    }
    assert_eq!(out.messages().len(), 1);
    // swap in a three-step arpeggio at eight ticks per step
    let next = Arpeggio::from(one_note_steps(&[50, 55, 59]), 1, false);
    player.change_arpeggio(next);
    // five ticks into the beat: the second new step would have fired at
    // tick nine of the beat, so the next step-on comes four ticks on
    for _ in 0..3 {
        assert!(player.play_tick(&mut out));
        assert_eq!(out.messages().len(), 1);
    }
    assert!(player.play_tick(&mut out));
    // the off of the old step, kept by value, precedes the new step-on
    assert_eq!(
        out.messages().as_slice(),
        &[
            MidiMessage::NoteOn { channel: 1, note: 60, velocity: 100 },
            MidiMessage::NoteOff { channel: 1, note: 60, velocity: 100 },
            MidiMessage::NoteOn { channel: 1, note: 55, velocity: 100 },
        ]
    );
}
