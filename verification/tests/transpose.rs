use midi_arpeggiator::arpeggio::{NoteDetails, Step};
use midi_arpeggiator::midi::MidiMessage;

fn note(n: u8) -> NoteDetails {
    NoteDetails { c: 1, n, v: 100 }
}

fn pitches(step: &Step) -> Vec<u8> {
    let mut out = Vec::new();
    let mut i = 0;
    while i < step.len() {
        out.push(step.get(i).n);
        i += 1;
    }
    out
}

#[test]
fn transpose_up_sixty_drops_out_of_range_and_keeps_in_range() {
    let step = Step::notes(vec![note(70)]);
    let shifted = step.transpose(60);
    assert_eq!(shifted.len(), 0);

    let step = Step::notes(vec![note(60)]);
    let shifted = step.transpose(60);
    assert_eq!(pitches(&shifted), vec![120]);
}

#[test]
fn transpose_keeps_channel_and_velocity() {
    let step = Step::notes(vec![NoteDetails { c: 3, n: 50, v: 77 }]);
    let shifted = step.transpose(-12);
    assert_eq!(shifted.len(), 1);
    let d = shifted.get(0);
    assert_eq!((d.c, d.n, d.v), (3, 38, 77));
}

#[test]
fn transpose_composes_when_no_note_is_dropped_either_way() {
    let step = Step::notes(vec![note(40), note(60), note(80)]);
    let twice = step.transpose(12).transpose(-5);
    let once = step.transpose(7);
    assert_eq!(pitches(&twice), pitches(&once));
}

#[test]
fn transpose_chain_differs_when_the_intermediate_shift_drops_a_note() {
    // pitch 70 leaves the range at +60 and would come back at -60: the
    // chained shifts drop it, the combined shift keeps it
    let step = Step::notes(vec![note(70)]);
    let chained = step.transpose(60).transpose(-60);
    let combined = step.transpose(0);
    assert_eq!(chained.len(), 0);
    assert_eq!(pitches(&combined), vec![70]);
}

#[test]
fn normalized_rewrites_zero_velocity_note_on() {
    let m = MidiMessage::NoteOn { channel: 2, note: 64, velocity: 0 };
    assert_eq!(m.normalized(), MidiMessage::NoteOff { channel: 2, note: 64, velocity: 0 });
    let m = MidiMessage::NoteOn { channel: 2, note: 64, velocity: 1 };
    assert_eq!(m.normalized(), m);
    let m = MidiMessage::TimingClock;
    assert_eq!(m.normalized(), m);
}
