use compositions::pitch::Mode;
use compositions::taboo_plate::{
    bass_notes, fill, hihat_part, kick_beats, lead_part, mode_changes, mode_sequence,
    opening_length, sample_part, snare_part, speech_part, LEN,
};
use compositions::units::{Beat, GRID};
use euphony::rand::Scope;

fn ticks(b: Beat) -> u64 {
    b.num * (GRID / b.den)
}

fn total(beats: impl Iterator<Item = Beat>) -> u64 {
    beats.map(ticks).sum()
}

#[test]
fn modes_turn_every_eight_beats() {
    let modes = mode_sequence();
    assert_eq!(modes.len(), 64);
    assert_eq!(&modes[0..4], &[Mode::Aeolian, Mode::Ionian, Mode::Dorian, Mode::Mixolydian]);
    assert_eq!(modes[61], Mode::Ionian);
    assert_eq!(LEN, 4);
}

#[test]
fn bass_walks_three_notes_per_beat() {
    let notes = bass_notes();
    assert_eq!(notes.len(), 96);
    assert_eq!(total(notes.iter().map(|n| n.beat)), 32 * GRID);
    for (k, n) in notes.iter().enumerate() {
        assert_eq!((n.beat.num, n.beat.den), (1, 3));
        assert_eq!(n.item.1, ((k / 3) % 8) as u64);
        let step = 2 * (k % 3) as i64 - 14;
        assert_eq!(n.item.0.num * 7, step * n.item.0.den);
    }
    assert_eq!((notes[0].item.0.num, notes[0].item.0.den), (-2, 1));
}

#[test]
fn kick_every_two_beats() {
    let beats = kick_beats();
    assert_eq!(beats.len(), 16);
    assert!(beats.iter().all(|b| b.num == 2 && b.den == 1));
}

#[test]
fn random_parts_fill_thirty_two_beats() {
    let rng = Scope::new(7);
    let lead = lead_part(&rng);
    assert_eq!(total(lead.iter().map(|n| n.beat)), 32 * GRID);
    assert!(lead.iter().all(|n| n.item.step.den == 7
        && -4 <= n.item.step.num
        && n.item.step.num <= 4
        && n.item.level < 4));
    let hh = hihat_part(&rng);
    assert_eq!(total(hh.iter().map(|n| n.beat)), 32 * GRID);
    assert!(hh.iter().all(|n| n.item.0 < 20 && n.item.1 < 2));
    let sp = speech_part(&rng);
    assert_eq!(total(sp.iter().map(|n| n.beat)), 32 * GRID);
    assert!(sp.iter().all(|n| n.item.0 < 20 && n.item.1 < 4));
    let s = sample_part(&rng, &vec![5], 3);
    assert_eq!(total(s.iter().map(|n| n.beat)), 32 * GRID);
    assert!(s.iter().all(|n| n.item.1 < 3));
}

#[test]
fn the_fill_ends_the_opening() {
    let o = opening_length();
    assert_eq!((o.num, o.den), (32, 1));
    let rng = Scope::new(1);
    let (wait, hits) = fill(&rng);
    assert_eq!(ticks(wait), 30 * GRID);
    assert_eq!(hits.len(), 6);
    assert!(hits.iter().all(|h| h.beat.num == 2 && h.beat.den == 6));
}

#[test]
fn lead_and_percussion_repeat_their_bar() {
    let rng = Scope::new(24);
    let lead = lead_part(&rng);
    let n = lead.len() / LEN;
    assert_eq!(lead.len(), LEN * n);
    for k in 0..n {
        for r in 1..LEN {
            let a = &lead[k].item;
            let b = &lead[k + r * n].item;
            assert_eq!((a.step.num, a.step.den, a.level, a.sample), (b.step.num, b.step.den, b.level, b.sample));
        }
    }
    assert_eq!(total(lead[..n].iter().map(|e| e.beat)), 8 * GRID);
    let hh = hihat_part(&rng);
    let n = hh.len() / LEN;
    for k in 0..n {
        assert_eq!(hh[k].item, hh[k + n].item);
    }
}

#[test]
fn each_mode_holds_eight_beats() {
    let changes = mode_changes();
    assert_eq!(changes.len(), 64);
    assert!(changes.iter().all(|c| c.beat.num == 8 && c.beat.den == 1));
    assert_eq!(changes[5].item, Mode::Ionian);
    assert_eq!(total(changes.iter().map(|c| c.beat)), 512 * GRID);
}

#[test]
fn snare_waits_a_beat_then_strikes_every_two() {
    let (wait, beats) = snare_part();
    assert_eq!((wait.num, wait.den), (1, 1));
    assert_eq!(beats.len(), 16);
    assert!(beats.iter().all(|b| b.num == 2 && b.den == 1));
}

#[test]
fn draws_come_from_each_part_durations() {
    let rng = Scope::new(405);
    let lead = lead_part(&rng);
    let lead_beats: Vec<(u64, u64)> = lead.iter().map(|n| (n.beat.num, n.beat.den)).collect();
    let n = lead.len() / LEN;
    for b in &lead_beats[..n - 1] {
        assert!([(1, 1), (1, 3)].contains(b));
    }
    let hh = hihat_part(&rng);
    let n = hh.len() / LEN;
    for s in &hh[..n - 1] {
        assert!([(1, 3), (1, 6)].contains(&(s.beat.num, s.beat.den)));
    }
    assert!(hh.iter().all(|s| ticks(s.beat) <= GRID / 3));
}
