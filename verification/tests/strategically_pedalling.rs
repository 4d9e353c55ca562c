use compositions::pitch::Mode;
use compositions::strategically_pedalling::{
    arrangement, bass_cycle, bass_for, bass_part, crash_part, hihat_part, kick_part, organ_cycle,
    organ_part, pan_step, phrase_length, phrase_mode_at, phrases_in, snare_part, tinkle_cycle, tinkle_for,
    tinkle_part, Drum, Voice,
};
use compositions::units::{Beat, GRID};

fn ticks(b: Beat) -> u64 {
    b.num * (GRID / b.den)
}

fn total(beats: impl Iterator<Item = Beat>) -> u64 {
    beats.map(ticks).sum()
}

#[test]
fn a_phrase_is_twelve_beats() {
    let p = phrase_length();
    assert_eq!((p.num, p.den), (48, 4));
    assert_eq!(ticks(p), 12 * GRID);
}

#[test]
fn modes_cycle_dorian_mixolydian_minor() {
    assert_eq!(phrase_mode_at(0), Mode::Dorian);
    assert_eq!(phrase_mode_at(1), Mode::Mixolydian);
    assert_eq!(phrase_mode_at(2), Mode::Aeolian);
    assert_eq!(phrase_mode_at(3), Mode::Dorian);
    assert_eq!(phrase_mode_at(301), Mode::Mixolydian);
}

#[test]
fn organ_phrase_in_dorian() {
    let out = organ_cycle(Mode::Dorian);
    assert_eq!(out.len(), 16);
    assert_eq!(total(out.iter().map(|e| e.beat)), 12 * GRID);
    assert_eq!(out[0].item, vec![60, 63, 67]);
    assert_eq!(out[1].item, vec![60, 63, 67]);
    assert_eq!((out[0].beat.num, out[0].beat.den), (5, 4));
    assert_eq!((out[1].beat.num, out[1].beat.den), (1, 2));
    assert_eq!(out[8].item, vec![62, 65, 69, 72]);
    assert_eq!((out[8].beat.num, out[8].beat.den), (3, 4));
    assert_eq!(out[14].item, vec![58, 62, 65, 69]);
}

#[test]
fn organ_phrase_in_mixolydian_and_minor() {
    let out = organ_cycle(Mode::Mixolydian);
    assert_eq!(out[0].item, vec![60, 64, 67]);
    assert_eq!(out[2].item, vec![64, 67, 70]);
    assert_eq!(out[6].item, vec![70, 74, 77]);
    let out = organ_cycle(Mode::Aeolian);
    assert_eq!(out[0].item, vec![60, 63, 67]);
    assert_eq!(out[2].item, vec![63, 67, 70]);
}

#[test]
fn organ_part_changes_mode_each_phrase() {
    let out = organ_part(2);
    assert_eq!(out.len(), 32);
    assert_eq!(total(out.iter().map(|e| e.beat)), 24 * GRID);
    assert_eq!(out[0].item, vec![60, 63, 67]);
    assert_eq!(out[16].item, vec![60, 64, 67]);
    assert!(organ_part(0).is_empty());
}

#[test]
fn bass_phrase_in_dorian() {
    let out = bass_cycle(Mode::Dorian);
    assert_eq!(out.len(), 24);
    assert_eq!(total(out.iter().map(|e| e.beat)), 12 * GRID);
    assert_eq!(out[0].item, 36);
    assert_eq!(out[3].item, 39);
    assert_eq!(out[9].item, 46);
    assert_eq!(out[12].item, 38);
    assert_eq!(out[21].item, 34);
    let beats: Vec<(u64, u64)> = out[0..3].iter().map(|e| (e.beat.num, e.beat.den)).collect();
    assert_eq!(beats, vec![(1, 4), (1, 1), (1, 2)]);
    let beats: Vec<(u64, u64)> = out[12..15].iter().map(|e| (e.beat.num, e.beat.den)).collect();
    assert_eq!(beats, vec![(1, 2), (1, 2), (1, 4)]);
}

#[test]
fn bass_part_runs_whole_phrases() {
    let out = bass_part(3);
    assert_eq!(out.len(), 72);
    assert_eq!(total(out.iter().map(|e| e.beat)), 36 * GRID);
    assert_eq!(out[24].item, 36);
    assert_eq!(out[27].item, 40);
}

#[test]
fn pan_sweeps_up_and_down() {
    let pans: Vec<i64> = (0..34).map(pan_step).collect();
    assert_eq!(pans[0], 0);
    assert_eq!(pans[15], 15);
    assert_eq!(pans[16], 15);
    assert_eq!(pans[31], 0);
    assert_eq!(pans[32], 0);
    assert_eq!(pans[33], 1);
}

#[test]
fn tinkle_phrase_in_dorian() {
    let out = tinkle_cycle(Mode::Dorian);
    assert_eq!(out.len(), 96);
    assert!(out.iter().all(|e| e.beat.num == 1 && e.beat.den == 8));
    assert_eq!(total(out.iter().map(|e| e.beat)), 12 * GRID);
    assert_eq!(out[0].item, (96, 0));
    assert_eq!(out[14].item, (103, 14));
    assert_eq!(out[42].item, (99, 10));
    assert_eq!(out[56].item.0, 98);
    assert_eq!(out[76].item.0, 105);
    assert_eq!(out[95].item.0, 91);
}

#[test]
fn tinkle_part_keeps_its_pan_running() {
    let out = tinkle_part(2);
    assert_eq!(out.len(), 192);
    assert_eq!(out[96].item, (96, 0));
    assert_eq!(out[112].item.1, 15);
}

#[test]
fn bass_cut_at_the_end_of_a_short_section() {
    let out = bass_for(Beat::new(6, 1));
    assert_eq!(out.len(), 11);
    assert_eq!(total(out.iter().map(|e| e.beat)), 6 * GRID);
    assert_eq!(ticks(out[10].beat), GRID / 2);
    assert_eq!(out[9].item, 46);
}

#[test]
fn bass_through_four_phrases_comes_back_to_dorian() {
    let out = bass_for(Beat::new(48, 1));
    assert_eq!(out.len(), 96);
    assert_eq!(out[72].item, 36);
    assert_eq!(out[75].item, 39);
}

#[test]
fn tinkle_through_half_a_phrase() {
    let out = tinkle_for(Beat::new(6, 1));
    assert_eq!(out.len(), 48);
    assert_eq!(total(out.iter().map(|e| e.beat)), 6 * GRID);
    assert_eq!(out[13].item.0, 96);
    assert_eq!(out[14].item.0, 103);
    assert_eq!(out[47].item, (99, 15));
}

#[test]
fn kick_loop_is_cut_by_the_section() {
    let out = kick_part(Beat::new(48, 1));
    assert_eq!(out.len(), 42);
    assert!(out.iter().all(|e| e.item == Drum::Kick));
    assert_eq!(total(out.iter().map(|e| e.beat)), 48 * GRID);
    assert_eq!((out[40].beat.num, out[40].beat.den), (1, 4));
    assert_eq!(ticks(out[41].beat), GRID / 4);
}

#[test]
fn hihat_loop_fits_the_section() {
    let out = hihat_part(Beat::new(48, 1));
    assert_eq!(out.len(), 96);
    assert!(out.iter().all(|e| e.item == Drum::HiHat));
    assert_eq!((out[95].beat.num, out[95].beat.den), (1, 2));
}

#[test]
fn crash_every_two_phrases() {
    let out = crash_part(Beat::new(48, 1));
    assert_eq!(out.len(), 2);
    assert!(out.iter().all(|e| e.item == Drum::Crash && ticks(e.beat) == 24 * GRID));
}

#[test]
fn snare_waits_a_beat() {
    let (wait, hits) = snare_part(Beat::new(48, 1));
    assert_eq!((wait.num, wait.den), (1, 1));
    assert_eq!(hits.len(), 31);
    assert!(hits.iter().all(|e| e.item == Drum::Snare));
    assert_eq!(total(hits.iter().map(|e| e.beat)), 47 * GRID);
    assert_eq!((hits[30].beat.num, hits[30].beat.den), (2, 1));

    let (wait, hits) = snare_part(Beat::new(6, 1));
    assert_eq!((wait.num, wait.den), (1, 1));
    assert_eq!(hits.len(), 4);
    assert_eq!(ticks(hits[3].beat), GRID / 2);

    let (wait, hits) = snare_part(Beat::new(1, 2));
    assert_eq!((wait.num, wait.den), (1, 2));
    assert!(hits.is_empty());
}

#[test]
fn arrangement_of_the_piece() {
    let s = arrangement();
    assert_eq!(s.len(), 3);
    assert_eq!(ticks(s[0].length), 24 * GRID);
    assert_eq!(ticks(s[1].length), 48 * GRID);
    assert_eq!(ticks(s[2].length), 6 * GRID);
    assert_eq!(s[0].voices, vec![Voice::Organ]);
    assert_eq!(
        s[1].voices,
        vec![
            Voice::Kick,
            Voice::Snare,
            Voice::HiHat,
            Voice::Crash,
            Voice::Bass,
            Voice::Organ,
            Voice::Tinkle
        ]
    );
    assert_eq!(s[2].voices, vec![Voice::Kick, Voice::Snare, Voice::HiHat, Voice::Tinkle]);
}

#[test]
fn looped_drums_repeat_their_pattern() {
    let out = kick_part(Beat::new(48, 1));
    for k in 0..(out.len() - 5) {
        assert_eq!((out[k].beat.num, out[k].beat.den), (out[k + 4].beat.num, out[k + 4].beat.den));
    }
}

#[test]
fn phrases_needed_for_a_section() {
    assert_eq!(phrases_in(Beat::new(24, 1)), 2);
    assert_eq!(phrases_in(Beat::new(48, 1)), 4);
    assert_eq!(phrases_in(Beat::new(6, 1)), 1);
    assert_eq!(phrases_in(Beat::new(0, 1)), 0);
    assert_eq!(phrases_in(Beat::new(25, 2)), 2);
}

#[test]
fn voices_change_mode_together_every_twelve_beats() {
    let organ = organ_part(3);
    let bass = bass_part(3);
    let tinkle = tinkle_part(3);
    for c in 0..3usize {
        let o: u64 = organ[..16 * c].iter().map(|e| ticks(e.beat)).sum();
        let b: u64 = bass[..24 * c].iter().map(|e| ticks(e.beat)).sum();
        let t: u64 = tinkle[..96 * c].iter().map(|e| ticks(e.beat)).sum();
        assert_eq!(o, 12 * c as u64 * GRID);
        assert_eq!(b, o);
        assert_eq!(t, o);
    }
}

#[test]
fn pan_restarts_each_phrase() {
    let t = tinkle_part(2);
    for j in 0..96 {
        assert_eq!(t[j].item.1, t[j + 96].item.1);
    }
}

#[test]
fn long_sections_need_many_phrases() {
    assert_eq!(phrases_in(Beat::new(12_000_000, 1)), 1_000_000);
}
