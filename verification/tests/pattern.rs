use midi_arpeggiator::arpeggio::NoteDetails;
use midi_arpeggiator::arpeggiator::Pattern;

fn note(n: u8) -> NoteDetails {
    NoteDetails { c: 1, n, v: 100 }
}

fn step_pitches(step: &midi_arpeggiator::arpeggio::Step) -> Vec<u8> {
    let mut out = Vec::new();
    let mut i = 0;
    while i < step.len() {
        out.push(step.get(i).n);
        i += 1;
    }
    out
}

#[test]
fn up_with_one_note_and_four_steps_repeats_the_pitch() {
    let steps = Pattern::Up.of(vec![note(60)], 4);
    assert_eq!(steps.len(), 4);
    for s in &steps {
        assert_eq!(step_pitches(s), vec![60]);
    }
}

#[test]
fn up_with_two_notes_and_three_steps_follows_the_quotient_rule() {
    // two notes expand to lower, upper, upper, lower; four notes over
    // three steps put the surplus note on the first step
    let steps = Pattern::Up.of(vec![note(64), note(60)], 3);
    assert_eq!(steps.len(), 3);
    assert_eq!(step_pitches(&steps[0]), vec![60, 64]);
    assert_eq!(step_pitches(&steps[1]), vec![64]);
    assert_eq!(step_pitches(&steps[2]), vec![60]);
}

#[test]
fn down_sorts_descending() {
    let steps = Pattern::Down.of(vec![note(60), note(64), note(67)], 3);
    assert_eq!(steps.len(), 3);
    assert_eq!(step_pitches(&steps[0]), vec![67]);
    assert_eq!(step_pitches(&steps[1]), vec![64]);
    assert_eq!(step_pitches(&steps[2]), vec![60]);
}

#[test]
fn more_notes_than_steps_spreads_the_surplus_forward() {
    let steps = Pattern::Up.of(vec![note(60), note(64), note(67)], 2);
    assert_eq!(steps.len(), 2);
    assert_eq!(step_pitches(&steps[0]), vec![60, 64]);
    assert_eq!(step_pitches(&steps[1]), vec![67]);
}

#[test]
fn expansion_total_is_at_least_notes_and_steps_and_covers_all_inputs() {
    for (n_pitches, s) in [(1usize, 7usize), (2, 5), (3, 8), (5, 3), (4, 4)] {
        let pitches: Vec<u8> = (0..n_pitches).map(|k| 60 + 3 * k as u8).collect();
        let notes: Vec<NoteDetails> = pitches.iter().map(|&p| note(p)).collect();
        let steps = Pattern::Up.of(notes, s);
        assert_eq!(steps.len(), s);
        let mut all: Vec<u8> = Vec::new();
        for st in &steps {
            all.extend(step_pitches(st));
        }
        assert!(all.len() >= n_pitches.max(s));
        for p in &pitches {
            assert!(all.contains(p), "pitch {} missing from expansion", p);
        }
    }
}

#[test]
fn three_note_expansion_repeats_the_interior() {
    // three notes over five steps: the interior note is repeated, then
    // the interior of the four-note list, until five are available
    let steps = Pattern::Up.of(vec![note(60), note(64), note(67)], 5);
    assert_eq!(steps.len(), 5);
    let mut all: Vec<u8> = Vec::new();
    for st in &steps {
        all.extend(step_pitches(st));
    }
    // one round appends the interior (64), the next appends the interior
    // of the four-note list (67, 64)
    assert_eq!(all, vec![60, 64, 67, 64, 67, 64]);
}
