use compositions::parts::{
    beat_fractions, durations_of, glide_centiseconds, rhythm_loop, rhythm_pair, steps_between,
    steps_from,
};
use compositions::timeline::{looped, repeat_vec, zip_timed, Timed};
use compositions::units::{Beat, GRID};
use euphony::rand::Scope;

fn ticks(b: Beat) -> u64 {
    b.num * (GRID / b.den)
}

fn total(beats: &[Beat]) -> u64 {
    beats.iter().map(|b| ticks(*b)).sum()
}

#[test]
fn repeat_and_concat() {
    assert_eq!(repeat_vec(&vec![1, 2], 3), vec![1, 2, 1, 2, 1, 2]);
    assert!(repeat_vec(&vec![1, 2], 0).is_empty());
    assert_eq!(compositions::timeline::concat(&vec![1, 2], &vec![3]), vec![1, 2, 3]);
}

#[test]
fn zip_stops_at_the_shorter() {
    let beats = vec![Beat::new(1, 1), Beat::new(1, 2)];
    let out = zip_timed(&beats, &vec![7, 8, 9]);
    assert_eq!(out.len(), 2);
    assert_eq!(out[1].item, 8);
    assert_eq!((out[1].beat.num, out[1].beat.den), (1, 2));
}

#[test]
fn looped_pattern_is_cut_where_the_section_ends() {
    let pattern = vec![
        Timed { beat: Beat::new(1, 1), item: 'a' },
        Timed { beat: Beat::new(1, 2), item: 'b' },
    ];
    let out = looped(&pattern, Beat::new(4, 1));
    let items: Vec<char> = out.iter().map(|e| e.item).collect();
    assert_eq!(items, vec!['a', 'b', 'a', 'b', 'a']);
    assert_eq!(ticks(out[4].beat), GRID);
    let out = looped(&pattern, Beat::new(7, 2));
    let items: Vec<char> = out.iter().map(|e| e.item).collect();
    assert_eq!(items, vec!['a', 'b', 'a', 'b', 'a']);
    assert_eq!(ticks(out[4].beat), GRID / 2);
    let beats: Vec<Beat> = out.iter().map(|e| e.beat).collect();
    assert_eq!(total(&beats), 7 * GRID / 2);
    assert!(looped(&pattern, Beat::new(0, 1)).is_empty());
}

#[test]
fn glide_rises_then_falls() {
    let g: Vec<u64> = (0..8).map(|k| glide_centiseconds(k, 3)).collect();
    assert_eq!(g, vec![1, 2, 3, 2, 1, 2, 3, 2]);
    let g: Vec<u64> = (0..6).map(|k| glide_centiseconds(k, 2)).collect();
    assert_eq!(g, vec![1, 2, 1, 2, 1, 2]);
}

#[test]
fn beats_from_numbers() {
    let b = beat_fractions(&vec![1, 2, 4]);
    let parts: Vec<(u64, u64)> = b.iter().map(|x| (x.num, x.den)).collect();
    assert_eq!(parts, vec![(1, 1), (1, 2), (1, 4)]);
    let b = durations_of(&vec![3, 2], &vec![4, 1]);
    let parts: Vec<(u64, u64)> = b.iter().map(|x| (x.num, x.den)).collect();
    assert_eq!(parts, vec![(3, 4), (2, 1)]);
}

#[test]
fn random_rhythms_fill_their_length() {
    let rng = Scope::new(3);
    let durations = beat_fractions(&vec![1, 2]);
    let r = rhythm_loop(&rng, Beat::new(8, 1), &durations, 2);
    assert_eq!(total(&r), 16 * GRID);
    assert!(r.iter().all(|b| ticks(*b) <= GRID && b.num > 0));
    let r = rhythm_pair(&rng, Beat::new(8, 1), &durations, 2);
    assert_eq!(total(&r), 32 * GRID);
    let r = rhythm_pair(&rng, Beat::new(8, 1), &durations, 0);
    assert!(r.is_empty());
}

#[test]
fn random_steps_stay_in_their_range() {
    let rng = Scope::new(11);
    let s = steps_between(&rng, 40, -4, 4);
    assert_eq!(s.len(), 40);
    assert!(s.iter().all(|i| i.den == 7 && -4 <= i.num && i.num <= 4));
    let s = steps_from(&rng, 40, &vec![0, 2, 9]);
    assert!(s.iter().all(|i| i.den == 7 && [0, 2, 9].contains(&i.num)));
}

#[test]
fn a_seed_fixes_the_rhythm() {
    let durations = beat_fractions(&vec![1, 2, 4]);
    let a = rhythm_loop(&Scope::new(42), Beat::new(8, 1), &durations, 1);
    let b = rhythm_loop(&Scope::new(42), Beat::new(8, 1), &durations, 1);
    let pa: Vec<(u64, u64)> = a.iter().map(|x| (x.num, x.den)).collect();
    let pb: Vec<(u64, u64)> = b.iter().map(|x| (x.num, x.den)).collect();
    assert_eq!(pa, pb);
}
