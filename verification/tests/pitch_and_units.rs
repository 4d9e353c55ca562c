use compositions::pitch::{midi_note, place, scale_interval, to_scale, tonic, Mode, MAJOR, MINOR};
use compositions::units::{Beat, Interval, GRID};

fn denotes(i: Interval, n: i64, d: i64) -> bool {
    i.num * d == n * i.den
}

#[test]
fn grid_holds_every_small_subdivision() {
    for d in 1..=16u64 {
        assert_eq!(GRID % d, 0);
    }
}

#[test]
fn constructors_keep_their_parts() {
    let b = Beat::new(3, 4);
    assert_eq!((b.num, b.den), (3, 4));
    let i = Interval::new(-2, 7);
    assert_eq!((i.num, i.den), (-2, 7));
    let t = tonic();
    assert_eq!((t.num, t.den), (0, 1));
}

#[test]
fn midi_note_of_major_degrees() {
    let expected = [0, 2, 4, 5, 7, 9, 11, 12, 14];
    for (s, e) in expected.iter().enumerate() {
        assert_eq!(midi_note(Interval::new(s as i64, 7), MAJOR), *e);
    }
    assert_eq!(midi_note(Interval::new(14, 7), MAJOR), 24);
    assert_eq!(midi_note(Interval::new(5, 1), MAJOR), 60);
}

#[test]
fn midi_note_below_the_tonic() {
    assert_eq!(midi_note(Interval::new(-1, 7), MAJOR), -1);
    assert_eq!(midi_note(Interval::new(-7, 7), MAJOR), -12);
    assert_eq!(midi_note(Interval::new(-2, 1), MINOR), -24);
    assert_eq!(midi_note(Interval::new(-12, 7), MINOR), -21);
}

#[test]
fn midi_note_of_other_modes() {
    assert_eq!(midi_note(Interval::new(2, 7), Mode::Dorian), 3);
    assert_eq!(midi_note(Interval::new(6, 7), Mode::Mixolydian), 10);
    assert_eq!(midi_note(Interval::new(5, 7), MINOR), 8);
    assert_eq!(midi_note(Interval::new(1, 7), Mode::Phrygian), 1);
    assert_eq!(midi_note(Interval::new(3, 7), Mode::Lydian), 6);
    assert_eq!(midi_note(Interval::new(4, 7), Mode::Locrian), 6);
}

#[test]
fn midi_note_between_steps_takes_the_lower_tone() {
    // 3/14 of an octave is one and a half scale steps.
    assert_eq!(midi_note(Interval::new(3, 14), MAJOR), 2);
    // Five octaves and a quarter is thirty-six and three quarter steps.
    assert_eq!(midi_note(Interval::new(21, 4), Mode::Dorian), 62);
}

#[test]
fn midi_note_depends_on_the_value_only() {
    assert_eq!(
        midi_note(Interval::new(4, 14), MAJOR),
        midi_note(Interval::new(2, 7), MAJOR)
    );
}

#[test]
fn place_puts_steps_on_the_scale() {
    let r = place(Interval::new(2, 7), MAJOR);
    assert!(denotes(r, 4, 12));
    let r = to_scale(Interval::new(4, 7), Mode::Dorian);
    assert!(denotes(r, 7, 12));
}

#[test]
fn scale_interval_adds_the_tonic_first() {
    let r = scale_interval(Interval::new(1, 7), Interval::new(1, 7), MAJOR);
    assert!(denotes(r, 4, 12));
    let r = scale_interval(Interval::new(0, 1), Interval::new(-1, 7), MAJOR);
    assert!(denotes(r, -1, 12));
}

#[test]
fn an_octave_up_is_twelve_semitones() {
    for m in [MAJOR, MINOR, Mode::Dorian, Mode::Lydian] {
        for n in -30..30 {
            let low = midi_note(Interval::new(n, 14), m);
            let high = midi_note(Interval::new(n + 14, 14), m);
            assert_eq!(high, low + 12);
        }
    }
}

#[test]
fn higher_intervals_never_give_lower_notes() {
    for m in [MAJOR, MINOR, Mode::Phrygian, Mode::Mixolydian, Mode::Locrian] {
        let notes: Vec<i64> = (-60..60).map(|n| midi_note(Interval::new(n, 12), m)).collect();
        assert!(notes.windows(2).all(|w| w[0] <= w[1]));
    }
}

#[test]
fn between_steps_the_lower_step_sounds() {
    // 1/2 octave is three and a half steps: step 3 of Dorian is 5 semitones.
    assert_eq!(midi_note(Interval::new(1, 2), Mode::Dorian), 5);
    // -1/14 octave is half a step down: step -1 of major, one semitone down.
    assert_eq!(midi_note(Interval::new(-1, 14), MAJOR), -1);
}

#[test]
fn placed_intervals_come_in_lowest_terms() {
    let r = place(Interval::new(2, 7), MAJOR);
    assert_eq!((r.num, r.den), (1, 3));
    let r = place(Interval::new(0, 1), MAJOR);
    assert_eq!((r.num, r.den), (0, 1));
    let r = place(Interval::new(-1, 7), MAJOR);
    assert_eq!((r.num, r.den), (-1, 12));
    let r = place(Interval::new(4, 7), Mode::Dorian);
    assert_eq!((r.num, r.den), (7, 12));
    let r = place(Interval::new(3, 14), MAJOR);
    assert_eq!((r.num, r.den), (1, 6));
}
