use compositions::misty_spiders::{
    bass_line, chord_length, lead, lead_entry, lead_pitch, plan_random_lead, progression,
    random_lead, random_melody,
};
use compositions::pitch::{Mode, MAJOR, MINOR};
use compositions::units::{Beat, Interval, GRID};
use euphony::rand::Scope;

fn ticks(b: Beat) -> u64 {
    b.num * (GRID / b.den)
}

fn total(beats: impl Iterator<Item = Beat>) -> u64 {
    beats.map(ticks).sum()
}

#[test]
fn the_progression() {
    let p = progression();
    let roots: Vec<(Mode, i64, i64)> = p.iter().map(|(m, i)| (*m, i.num, i.den)).collect();
    assert_eq!(
        roots,
        vec![(MAJOR, 0, 1), (MINOR, 2, 7), (Mode::Dorian, -2, 7), (Mode::Dorian, -1, 7)]
    );
}

#[test]
fn bass_line_under_the_chords() {
    let notes = bass_line();
    assert_eq!(notes.len(), 96);
    assert_eq!(total(notes.iter().map(|n| n.beat)), 88 * GRID);
    let rhythm: Vec<(u64, u64)> = notes[0..3].iter().map(|n| (n.beat.num, n.beat.den)).collect();
    assert_eq!(rhythm, vec![(1, 1), (1, 1), (3, 4)]);
    // Two octaves below the major root.
    assert_eq!(notes[0].item.num, -2 * notes[0].item.den);
    // Two octaves below the minor root of two steps: twenty-one semitones down.
    assert_eq!(notes[3].item.num * 12, -21 * notes[3].item.den);
    assert_eq!(notes[12].item.num, -2 * notes[12].item.den);
}

#[test]
fn lead_pitches_and_rests() {
    assert!(lead_pitch(MAJOR, Interval::new(0, 1), 9).is_none());
    let p = lead_pitch(MAJOR, Interval::new(0, 1), 2).unwrap();
    assert_eq!(p.num * 12, 4 * p.den);
    let p = lead_pitch(MINOR, Interval::new(2, 7), 1).unwrap();
    assert_eq!(p.num * 12, 5 * p.den);
}

#[test]
fn the_lead_melody() {
    let notes = lead();
    assert_eq!(notes.len(), 128);
    assert_eq!(total(notes.iter().map(|n| n.beat)), 22 * GRID);
    assert_eq!((notes[0].beat.num, notes[0].beat.den), (1, 16));
    let p = notes[0].item.unwrap();
    assert_eq!(p.num, 0);
    assert!(notes[4].item.is_none());
    let p = notes[1].item.unwrap();
    assert_eq!(p.num * 12, 7 * p.den);
}

#[test]
fn chord_and_entry_lengths() {
    assert_eq!(ticks(chord_length()), 11 * GRID / 4);
    assert_eq!(ticks(lead_entry()), 22 * GRID);
}

#[test]
fn random_lead_fits_under_a_chord() {
    let rng = Scope::new(9);
    let plan = plan_random_lead(&rng);
    assert_eq!(plan.rhythms.len(), 2);
    assert_eq!(plan.steps.len(), 16);
    for r in plan.rhythms.iter() {
        assert_eq!(total(r.iter().copied()), 11 * GRID / 4);
    }
    for k in 0..8 {
        let notes = random_melody(&plan, k);
        let b = &plan.rhythms[(k / 2) % 2];
        assert_eq!(notes.len(), b.len().min(16));
        assert!(total(notes.iter().map(|n| n.beat)) <= 11 * GRID / 4);
        for (j, n) in notes.iter().enumerate() {
            assert_eq!(n.item.is_none(), plan.steps[j] == 9);
        }
    }
}

#[test]
fn the_random_lead_is_eight_passes_of_at_most_22_beats() {
    for seed in [9, 40] {
        let plan = plan_random_lead(&Scope::new(seed));
        let passes = random_lead(&plan);
        assert_eq!(passes.len(), 8);
        let mut all = 0;
        for (k, notes) in passes.iter().enumerate() {
            let single = random_melody(&plan, k);
            assert_eq!(notes.len(), single.len());
            all += total(notes.iter().map(|n| n.beat));
        }
        assert!(all <= 22 * GRID);
        if plan.rhythms.iter().all(|r| r.len() <= 16) {
            assert_eq!(all, 22 * GRID);
        }
    }
}
