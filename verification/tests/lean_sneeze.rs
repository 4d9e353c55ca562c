use compositions::lean_sneeze::{
    bass_part, hihat_part, kick_part, lead_melody, lead_part, mode_change, plan_modes,
    section_length, snare_part,
};
use compositions::pitch::Mode;
use compositions::timeline::Timed;
use compositions::units::{Beat, Interval, GRID};
use euphony::rand::Scope;

fn ticks(b: Beat) -> u64 {
    b.num * (GRID / b.den)
}

fn total(beats: impl Iterator<Item = Beat>) -> u64 {
    beats.map(ticks).sum()
}

#[test]
fn sections_last_thirty_two_beats() {
    assert_eq!(ticks(section_length()), 32 * GRID);
}

#[test]
fn mode_plan_and_its_changes() {
    let rng = Scope::new(4);
    let p = plan_modes(&rng);
    assert!(1 <= p.modes.len() && p.modes.len() <= 8);
    assert_eq!(p.beats.len(), p.modes.len());
    assert!(p.modes.iter().all(|m| *m == Mode::Dorian || *m == Mode::Ionian));
    assert!(p.beats.iter().all(|b| b.den == 1 && [8, 4, 2].contains(&b.num)));
    let n = p.modes.len();
    for k in 0..3 * n {
        let (m, b) = mode_change(&p, k);
        assert_eq!(m, p.modes[k % n]);
        assert_eq!((b.num, b.den), (p.beats[k % n].num, p.beats[k % n].den));
    }
}

#[test]
fn drum_parts_fill_a_section() {
    let rng = Scope::new(2);
    assert_eq!(total(kick_part(&rng).into_iter()), 32 * GRID);
    assert_eq!(total(snare_part(&rng).into_iter()), 32 * GRID);
    assert_eq!(total(hihat_part(&rng).into_iter()), 32 * GRID);
}

#[test]
fn bass_stays_low() {
    let rng = Scope::new(5);
    let notes = bass_part(&rng);
    assert_eq!(total(notes.iter().map(|n| n.beat)), 32 * GRID);
    for n in notes.iter() {
        let i = n.item;
        assert_eq!((7 * i.num) % i.den, 0);
        let steps = 7 * i.num / i.den;
        assert!(-18 <= steps && steps <= -10);
    }
}

#[test]
fn lead_part_fills_eight_beats() {
    let rng = Scope::new(10000);
    let notes = lead_part(&rng);
    assert_eq!(total(notes.iter().map(|n| n.beat)), 8 * GRID);
    assert!(notes.iter().all(|n| n.item.den == 7 && [0, 2, 4, 6, 7, 9].contains(&n.item.num)));
}

#[test]
fn step_nine_is_a_rest() {
    let part = vec![
        Timed { beat: Beat::new(1, 2), item: Interval::new(9, 7) },
        Timed { beat: Beat::new(1, 1), item: Interval::new(2, 7) },
    ];
    let out = lead_melody(&part, Interval::new(2, 7));
    assert_eq!(out.len(), 2);
    assert!(out[0].item.is_none());
    let p = out[1].item.unwrap();
    assert_eq!(p.num * 7, 4 * p.den);
    assert_eq!((out[1].beat.num, out[1].beat.den), (1, 1));
    let out = lead_melody(&part, Interval::new(0, 1));
    let p = out[1].item.unwrap();
    assert_eq!(p.num * 7, 2 * p.den);
}

#[test]
fn drums_play_their_sixteen_beats_twice() {
    let rng = Scope::new(2);
    let beats = kick_part(&rng);
    let n = beats.len() / 2;
    assert_eq!(beats.len(), 2 * n);
    let halves: Vec<(u64, u64)> = beats.iter().map(|b| (b.num, b.den)).collect();
    assert_eq!(&halves[..n], &halves[n..]);
    assert_eq!(total(beats[..n].iter().copied()), 16 * GRID);
}

#[test]
fn bass_plays_its_phrase_twice() {
    let rng = Scope::new(5);
    let notes = bass_part(&rng);
    let n = notes.len() / 2;
    for k in 0..n {
        assert_eq!(notes[k].item.num * notes[k + n].item.den, notes[k + n].item.num * notes[k].item.den);
        assert_eq!(ticks(notes[k].beat), ticks(notes[k + n].beat));
    }
    assert_eq!(total(notes[..n].iter().map(|e| e.beat)), 16 * GRID);
}

#[test]
fn lead_part_is_two_halves_of_four_beats() {
    let rng = Scope::new(10000);
    let notes = lead_part(&rng);
    let mut elapsed = 0;
    let mut found = false;
    for n in notes.iter() {
        elapsed += ticks(n.beat);
        if elapsed == 4 * GRID {
            found = true;
        }
    }
    assert!(found);
}

#[test]
fn kick_strokes_are_one_or_two_beats_apart() {
    for seed in 0..10 {
        let beats = kick_part(&Scope::new(seed));
        assert!(beats.iter().all(|b| b.den == 1 && (b.num == 1 || b.num == 2)));
        assert!(16 <= beats.len() && beats.len() <= 32);
        let snare = snare_part(&Scope::new(seed));
        assert!(snare.iter().all(|b| b.den == 1 && 1 <= b.num && b.num <= 3));
        assert!(12 <= snare.len() && snare.len() <= 16);
        let hh = hihat_part(&Scope::new(seed));
        assert!(hh.iter().all(|b| (b.num, b.den) == (1, 1) || (b.num, b.den) == (1, 2)));
    }
}

#[test]
fn two_leads_share_rhythm_and_rests() {
    let a = lead_melody(&lead_part(&Scope::new(10000)), Interval::new(0, 1));
    let b = lead_melody(&lead_part(&Scope::new(10000)), Interval::new(2, 7));
    assert_eq!(a.len(), b.len());
    for (x, y) in a.iter().zip(b.iter()) {
        assert_eq!((x.beat.num, x.beat.den), (y.beat.num, y.beat.den));
        assert_eq!(x.item.is_none(), y.item.is_none());
        if let (Some(p), Some(q)) = (x.item, y.item) {
            // p + 2/7 == q
            assert_eq!((7 * p.num + 2 * p.den) * q.den, 7 * q.num * p.den);
        }
    }
}

#[test]
fn lead_accepts_a_wide_base() {
    let part = vec![Timed { beat: Beat::new(1, 1), item: Interval::new(3, 7) }];
    let out = lead_melody(&part, Interval::new(-100, 3));
    let p = out[0].item.unwrap();
    // 3/7 - 100/3 = (9 - 700) / 21
    assert_eq!(p.num * 21, -691 * p.den);
}

#[test]
fn second_bass_pass_repeats_the_first_pitches() {
    for seed in 0..6 {
        let notes = bass_part(&Scope::new(seed));
        assert_eq!(notes.len() % 2, 0);
        let n = notes.len() / 2;
        for k in 0..n {
            assert_eq!((notes[k].item.num, notes[k].item.den), (notes[k + n].item.num, notes[k + n].item.den));
        }
    }
}
