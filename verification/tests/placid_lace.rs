use compositions::pitch::Mode;
use compositions::placid_lace::{bass_notes, hihat_part, kick_part, phrase, plan_bass, snare_part};
use compositions::units::{Beat, GRID};
use euphony::rand::Scope;

fn ticks(b: Beat) -> u64 {
    b.num * (GRID / b.den)
}

fn total(beats: impl Iterator<Item = Beat>) -> u64 {
    beats.map(ticks).sum()
}

#[test]
fn a_phrase_is_nine_beats() {
    let p = phrase();
    assert_eq!((p.num, p.den), (9, 1));
}

#[test]
fn drums_fill_four_phrases() {
    let rng = Scope::new(3);
    assert_eq!(total(kick_part(&rng).into_iter()), 36 * GRID);
    assert_eq!(total(snare_part(&rng).into_iter()), 36 * GRID);
    assert_eq!(total(hihat_part(&rng).into_iter()), 36 * GRID);
}

#[test]
fn bass_plan_is_well_formed() {
    for seed in 0..8 {
        let rng = Scope::new(seed);
        let p = plan_bass(&rng);
        assert_eq!(total(p.phrase.iter().map(|n| n.beat)), 9 * GRID);
        assert!(p.phrase.iter().all(|n| n.item.den <= 7 && n.item.num.abs() <= 4));
        assert_eq!(p.roots.len(), 2);
        assert!(p.roots.iter().all(|r| r.den == 7 && -4 <= r.num && r.num < 4));
        let allowed = [Mode::Aeolian, Mode::Dorian, Mode::Lydian, Mode::Locrian, Mode::Phrygian];
        assert!(p.modes.iter().all(|m| allowed.contains(m)));
    }
}

#[test]
fn bass_plays_the_phrase_four_times() {
    let rng = Scope::new(12);
    let p = plan_bass(&rng);
    let notes = bass_notes(&p);
    let n = p.phrase.len();
    assert_eq!(notes.len(), 4 * n);
    assert_eq!(total(notes.iter().map(|e| e.beat)), 36 * GRID);
    for (k, e) in notes.iter().enumerate() {
        let src = &p.phrase[k % n];
        assert_eq!((e.beat.num, e.beat.den), (src.beat.num, src.beat.den));
    }
}

#[test]
fn drums_repeat_their_phrase_four_times() {
    let rng = Scope::new(20);
    for beats in [kick_part(&rng), snare_part(&rng), hihat_part(&rng)] {
        let n = beats.len() / 4;
        assert_eq!(beats.len(), 4 * n);
        let parts: Vec<(u64, u64)> = beats.iter().map(|b| (b.num, b.den)).collect();
        for r in 1..4 {
            assert_eq!(&parts[..n], &parts[r * n..(r + 1) * n]);
        }
        assert_eq!(total(beats[..n].iter().copied()), 9 * GRID);
    }
}

#[test]
fn bass_halves_draw_from_their_own_notes() {
    let rng = Scope::new(41);
    let p = plan_bass(&rng);
    let mut elapsed = 0;
    let mut first_half = true;
    let firsts = [(0, 1), (1, 7), (2, 7), (3, 7), (4, 7)];
    let seconds = [(-2, 7), (-1, 7), (0, 1), (2, 7), (3, 7), (4, 7)];
    for n in p.phrase.iter() {
        let note = (n.item.num, n.item.den);
        if first_half {
            assert!(firsts.contains(&note));
        } else {
            assert!(seconds.contains(&note));
        }
        elapsed += ticks(n.beat);
        if elapsed == 9 * GRID / 2 {
            first_half = false;
        }
    }
}
