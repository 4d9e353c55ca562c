use compositions::hesitant_smoke::{
    arrangement, bass, bass_drum, harmony, hihat, high, high2, lead, length, melody, percussion,
    snare, sweep_length,
};
use compositions::parts::beat_fractions;
use compositions::pitch::{MAJOR, MINOR};
use compositions::units::{Beat, GRID};
use euphony::rand::Scope;

fn ticks(b: Beat) -> u64 {
    b.num * (GRID / b.den)
}

fn total(beats: impl Iterator<Item = Beat>) -> u64 {
    beats.map(ticks).sum()
}

#[test]
fn loops_last_sixteen_beats() {
    let l = length();
    assert_eq!((l.num, l.den), (16, 1));
}

#[test]
fn percussion_fills_a_loop() {
    let rng = Scope::new(5);
    let s = percussion(&rng, &beat_fractions(&vec![1, 2]), 3);
    assert_eq!(total(s.iter().map(|e| e.beat)), 16 * GRID);
    assert!(s.iter().all(|e| e.item < 3));
    let s = bass_drum(&rng, 2);
    assert_eq!(total(s.iter().map(|e| e.beat)), 16 * GRID);
    assert!(s.iter().all(|e| e.item < 2));
    let s = snare(&rng);
    assert!(s.iter().all(|e| e.item == 0));
    let s = hihat(&rng, 4);
    assert_eq!(total(s.iter().map(|e| e.beat)), 16 * GRID);
}

#[test]
fn melodies_use_four_scale_steps() {
    let rng = Scope::new(6);
    let notes = melody(&rng, &beat_fractions(&vec![1, 2]), -1);
    assert_eq!(total(notes.iter().map(|e| e.beat)), 16 * GRID);
    for n in notes.iter() {
        let i = n.item;
        assert_eq!((7 * i.num) % i.den, 0);
        let step = 7 * i.num / i.den + 7;
        assert!([0, 2, 3, 4].contains(&step));
    }
}

#[test]
fn synth_parts_and_their_envelopes() {
    let rng = Scope::new(8);
    let p = lead(&rng);
    assert_eq!(total(p.notes.iter().map(|e| e.beat)), 16 * GRID);
    assert_eq!((p.sustain.num, p.sustain.den, p.decay.num, p.decay.den), (1, 4, 1, 8));
    let p = harmony(&rng);
    assert_eq!((p.sustain.num, p.sustain.den, p.decay.num, p.decay.den), (1, 4, 1, 8));
    let p = high(&rng);
    assert_eq!((p.sustain.num, p.sustain.den, p.decay.num, p.decay.den), (3, 4, 1, 4));
    let p = high2(&rng);
    assert_eq!((p.sustain.num, p.sustain.den, p.decay.num, p.decay.den), (1, 8, 1, 16));
    let b = bass(&rng);
    assert_eq!(total(b.iter().map(|e| e.beat)), 16 * GRID);
}

#[test]
fn sweep_is_attack_sustain_and_decay() {
    let b = sweep_length(Beat::new(1, 4), Beat::new(1, 8));
    assert_eq!(b.num * 64, 25 * b.den);
    let b = sweep_length(Beat::new(3, 4), Beat::new(1, 4));
    assert_eq!(b.num * 64, 65 * b.den);
}

#[test]
fn the_arrangement() {
    let s = arrangement();
    assert_eq!(s.len(), 8);
    let modes: Vec<_> = s.iter().map(|x| x.mode).collect();
    assert_eq!(modes, vec![MINOR, MINOR, MAJOR, MINOR, MAJOR, MAJOR, MINOR, MAJOR]);
    let flags: Vec<(bool, bool, bool, bool)> =
        s.iter().map(|x| (x.lead, x.high, x.harmony, x.snare)).collect();
    assert_eq!(flags[0], (false, false, true, false));
    assert_eq!(flags[1], (true, false, true, false));
    assert_eq!(flags[2], (true, true, true, true));
    assert_eq!(flags[4], (true, true, false, false));
    assert_eq!(flags[7], (true, true, true, true));
}
