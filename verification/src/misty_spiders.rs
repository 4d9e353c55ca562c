//! "Misty spiders": a bass line and three lead passes over a four-chord
//! progression, each chord lasting eleven quarter beats.
use vstd::prelude::*;
use euphony::rand::Scope;
use crate::chance::{drawn, gen_between, rhythm};
use crate::parts::beat_fractions;
use crate::pitch::{
    expand, lemma_scale_expand_same, lemma_scale_expand_value, scale_expand, step_semitones, Mode,
    MAJOR, MINOR,
};
use crate::timeline::{
    all_on_grid, beats_of, lemma_repeat_index, lemma_repeat_len, lemma_span_prefix,
    lemma_span_repeat, lemma_span_upto, repeat, span, span_upto, zip_timed, Timed,
};
use crate::units::{
    abs, beat_add, beat_mul, diff, interval_add, interval_sub, lemma_abs_combination,
    lemma_divisor_le, lemma_grid_fractions, lemma_ticks_same, same, sum, Beat, Interval, GRID,
};

verus! {

/// The chord progression: the mode and root of each chord.
pub open spec fn prog() -> Seq<(Mode, Interval)> {
    seq![
        (MAJOR, Interval { num: 0, den: 1 }),
        (MINOR, Interval { num: 2, den: 7 }),
        (Mode::Dorian, Interval { num: -2i64, den: 7 }),
        (Mode::Dorian, Interval { num: -1i64, den: 7 }),
    ]
}

/// Every root of the progression is a few sevenths of an octave.
pub proof fn lemma_prog_small(i: int)
    requires
        0 <= i < 4,
    ensures
        0 < prog()[i].1.den <= 7,
        abs(prog()[i].1.num as int) <= 2,
{
    if i == 0 {
    } else if i == 1 {
    } else if i == 2 {
    } else {
    }
}

/// The chord progression: major on the tonic, minor two steps up, Dorian
/// two steps down, Dorian one step down.
pub fn progression() -> (p: Vec<(Mode, Interval)>)
    ensures
        p@ == prog(),
{
    vec![
        (MAJOR, Interval { num: 0, den: 1 }),
        (MINOR, Interval { num: 2, den: 7 }),
        (Mode::Dorian, Interval { num: -2i64, den: 7 }),
        (Mode::Dorian, Interval { num: -1i64, den: 7 }),
    ]
}

/// The rhythm of the bass under each chord: a beat, a beat, three quarters.
pub open spec fn bass_rhythm() -> Seq<Beat> {
    seq![Beat { num: 1, den: 1 }, Beat { num: 1, den: 1 }, Beat { num: 3, den: 4 }]
}

/// The pitch that the bass plays under chord `c`: the root two octaves down,
/// placed on the chord's mode.
pub open spec fn bass_pitch(c: (Mode, Interval)) -> (int, int) {
    let s = diff(c.1.value(), (2, 1));
    scale_expand(c.0, s.0, s.1)
}

/// The bass line: thirty-two chords of the progression, three notes each.
pub fn bass_line() -> (notes: Vec<Timed<Interval>>)
    ensures
        notes.len() == 96,
        forall|k: int|
            0 <= k < 96 ==> (#[trigger] notes@[k]).beat == bass_rhythm()[k % 3] && notes@[k].item.value()
                == bass_pitch(prog()[(k / 3) % 4]),
        bass_line_ok(notes@),
        span(beats_of(notes@)) == 88 * GRID,
{
    let chords = progression();
    let rhythm_of = vec![Beat { num: 1, den: 1 }, Beat { num: 1, den: 1 }, Beat { num: 3, den: 4 }];
    let two = Interval::new(2, 1);
    let mut notes: Vec<Timed<Interval>> = Vec::new();
    let mut k: usize = 0;
    while k < 96
        invariant
            k <= 96,
            chords@ == prog(),
            rhythm_of@ == bass_rhythm(),
            two.num == 2 && two.den == 1,
            notes.len() == k,
            forall|j: int|
                0 <= j < k ==> (#[trigger] notes@[j]).beat == bass_rhythm()[j % 3] && notes@[j].item.value()
                    == bass_pitch(prog()[(j / 3) % 4]),
        decreases 96 - k,
    {
        let (mode, base) = chords[(k / 3) % 4];
        proof {
            lemma_prog_small((k as int / 3) % 4);
        }
        let lowered = interval_sub(base, two);
        proof {
            lemma_divisor_le(base.den as int, lowered.den as int);
        }
        let target = expand(mode, lowered);
        proof {
            let s = diff(base.value(), (2, 1));
            assert(same((s.0, s.1), lowered.value()));
            lemma_scale_expand_same(mode, s, lowered.value());
        }
        notes.push(Timed { beat: rhythm_of[k % 3], item: target });
        k = k + 1;
    }
    proof {
        let bs = beats_of(notes@);
        lemma_repeat_len(bass_rhythm(), 32);
        assert forall|j: int| 0 <= j < bs.len() implies bs[j] == repeat(bass_rhythm(), 32)[j] by {
            lemma_repeat_index(bass_rhythm(), 32, j);
        }
        assert(bs =~= repeat(bass_rhythm(), 32));
        lemma_span_repeat(bass_rhythm(), 32);
        lemma_span_upto(bass_rhythm());
        lemma_grid_fractions();
        reveal_with_fuel(span_upto, 4);
        assert(span(bass_rhythm()) == 11 * (GRID / 4));
    }
    notes
}

/// The scale steps of the lead melody (in sevenths of an octave); 9 is a rest.
pub open spec fn melody_steps() -> Seq<i64> {
    seq![0i64, 4, 4, 6, 9, 9, 3, 5, 5, 9, 8, 7, 6, 6, 1, 9]
}

/// The lengths of the lead melody's notes, as fractions `1 / d` of a beat.
pub open spec fn melody_lengths() -> Seq<u64> {
    seq![16u64, 16, 4, 8, 2, 8, 8, 4, 4, 16, 4, 16, 16, 4, 16, 4]
}

/// The lead's pitch for scale step `step` over chord `c`: nothing (a rest)
/// for step 9, otherwise `step / 7 + root` placed on the chord's mode.
pub open spec fn lead_pitch_is(c: (Mode, Interval), step: i64, p: Option<Interval>) -> bool {
    if step == 9 {
        p is None
    } else {
        p matches Some(i) && i.value() == ({
            let s = sum((step as int, 7), c.1.value());
            scale_expand(c.0, s.0, s.1)
        })
    }
}

/// The lead's pitch for scale step `step` (0 to 9) over the chord `(mode,
/// base)`: a rest for step 9, otherwise `(Interval(step, 7) + base) * mode`.
pub fn lead_pitch(mode: Mode, base: Interval, step: i64) -> (p: Option<Interval>)
    requires
        0 <= step <= 9,
        0 < base.den <= 7,
        abs(base.num as int) <= 7,
    ensures
        lead_pitch_is((mode, base), step, p),
{
    if step == 9 {
        None
    } else {
        proof {
            lemma_abs_combination(step as int, base.num as int, base.den as int, 7);
            assert(abs(step as int) * base.den <= 63) by (nonlinear_arith)
                requires
                    0 < base.den <= 7,
                    0 <= step <= 9,
            ;
        }
        let s = interval_add(Interval::new(step, 7), base);
        proof {
            assert(7 * base.den > 0) by (nonlinear_arith)
                requires
                    base.den > 0,
            ;
            lemma_divisor_le(7 * base.den, s.den as int);
            lemma_abs_combination(step as int, base.num as int, base.den as int, 7);
        }
        let r = expand(mode, s);
        proof {
            let t = sum((step as int, 7), base.value());
            assert(same((t.0, t.1), s.value()));
            assert(t.1 > 0) by (nonlinear_arith)
                requires
                    t.1 == 7 * base.den,
                    base.den > 0,
            ;
            lemma_scale_expand_same(mode, t, s.value());
        }
        Some(r)
    }
}

/// The written lead: the melody over each chord of the progression, twice
/// through (eight passes of sixteen notes).
pub fn lead() -> (notes: Vec<Timed<Option<Interval>>>)
    ensures
        notes.len() == 128,
        forall|k: int|
            0 <= k < 128 ==> (#[trigger] notes@[k]).beat == (Beat {
                num: 1,
                den: melody_lengths()[k % 16],
            }) && lead_pitch_is(prog()[(k / 16) % 4], melody_steps()[k % 16], notes@[k].item),
        written_lead_ok(notes@),
        span(beats_of(notes@)) == 22 * GRID,
{
    let chords = progression();
    let steps: Vec<i64> = vec![0, 4, 4, 6, 9, 9, 3, 5, 5, 9, 8, 7, 6, 6, 1, 9];
    let lengths: Vec<u64> = vec![16, 16, 4, 8, 2, 8, 8, 4, 4, 16, 4, 16, 16, 4, 16, 4];
    let mut notes: Vec<Timed<Option<Interval>>> = Vec::new();
    let mut k: usize = 0;
    while k < 128
        invariant
            k <= 128,
            chords@ == prog(),
            steps@ == melody_steps(),
            lengths@ == melody_lengths(),
            notes.len() == k,
            forall|j: int|
                0 <= j < k ==> (#[trigger] notes@[j]).beat == (Beat {
                    num: 1,
                    den: melody_lengths()[j % 16],
                }) && lead_pitch_is(prog()[(j / 16) % 4], melody_steps()[j % 16], notes@[j].item),
        decreases 128 - k,
    {
        let (mode, base) = chords[(k / 16) % 4];
        let step = steps[k % 16];
        let p = lead_pitch(mode, base, step);
        let len = lengths[k % 16];
        notes.push(Timed { beat: Beat { num: 1, den: len }, item: p });
        k = k + 1;
    }
    proof {
        let one = Seq::new(16, |j: int| Beat { num: 1, den: melody_lengths()[j] });
        let bs = beats_of(notes@);
        lemma_repeat_len(one, 8);
        assert forall|j: int| 0 <= j < bs.len() implies bs[j] == repeat(one, 8)[j] by {
            lemma_repeat_index(one, 8, j);
        }
        assert(bs =~= repeat(one, 8));
        lemma_span_repeat(one, 8);
        lemma_span_upto(one);
        lemma_grid_fractions();
        reveal_with_fuel(span_upto, 17);
        assert(span(one) == 11 * (GRID / 4));
    }
    notes
}

/// The random lead's material: two rhythms of eleven quarter beats (the
/// first from whole, half and quarter beats, the second from half, quarter
/// and eighth beats) and sixteen scale steps from 0 to 9.
pub struct RandomLead {
    pub rhythms: Vec<Vec<Beat>>,
    pub steps: Vec<i64>,
}

/// The random lead's material is well formed.
pub open spec fn random_lead_ok(p: RandomLead) -> bool {
    &&& p.rhythms.len() == 2
    &&& forall|r: int|
        0 <= r < 2 ==> all_on_grid((#[trigger] p.rhythms@[r])@) && span(p.rhythms@[r]@) == 11 * (
        GRID / 4)
    &&& p.steps.len() == 16
    &&& forall|j: int| 0 <= j < 16 ==> 0 <= #[trigger] p.steps@[j] <= 9
}

/// The length of the time under one chord: three quarter beats and two beats.
pub fn chord_length() -> (b: Beat)
    ensures
        b.on_grid(),
        b.ticks() == 11 * (GRID / 4),
        b.num <= 11,
        b.den <= 4,
{
    let b = beat_add(Beat::new(3, 4), Beat::new(2, 1));
    proof {
        lemma_divisor_le(4, b.den as int);
        assert(GRID as int % b.den as int == 0) by {
            if b.den == 1 {
            } else if b.den == 2 {
            } else if b.den == 3 {
            } else {
            }
        }
        lemma_ticks_same(b, 11, 4);
    }
    b
}

/// Draws the random lead's material.
pub fn plan_random_lead(rng: &Scope) -> (p: RandomLead)
    ensures
        random_lead_ok(p),
        drawn(
            p.rhythms@[0]@,
            seq![Beat { num: 1, den: 1 }, Beat { num: 1, den: 2 }, Beat { num: 1, den: 4 }],
            11 * (GRID / 4),
        ),
        drawn(
            p.rhythms@[1]@,
            seq![Beat { num: 1, den: 2 }, Beat { num: 1, den: 4 }, Beat { num: 1, den: 8 }],
            11 * (GRID / 4),
        ),
{
    let length = chord_length();
    let d1 = beat_fractions(&vec![1, 2, 4]);
    let d2 = beat_fractions(&vec![2, 4, 8]);
    proof {
        assert(d1@ =~= seq![Beat { num: 1, den: 1 }, Beat { num: 1, den: 2 }, Beat { num: 1, den: 4 }]);
        assert(d2@ =~= seq![Beat { num: 1, den: 2 }, Beat { num: 1, den: 4 }, Beat { num: 1, den: 8 }]);
    }
    let first = rhythm(rng, length, &d1);
    let second = rhythm(rng, length, &d2);
    let rhythms = vec![first, second];
    let mut steps: Vec<i64> = Vec::new();
    let mut k: usize = 0;
    while k < 16
        invariant
            k <= 16,
            steps.len() == k,
            forall|j: int| 0 <= j < k ==> 0 <= #[trigger] steps@[j] <= 9,
        decreases 16 - k,
    {
        steps.push(gen_between(rng, 0, 9));
        k = k + 1;
    }
    let p = RandomLead { rhythms, steps };
    assert(p.rhythms@[0]@ == first@);
    assert(p.rhythms@[1]@ == second@);
    p
}

/// `notes` is pass `k` of the random lead: the rhythm `(k / 2) % 2`
/// paired with the scale steps, up to the end of the shorter of the two,
/// over chord `k % 4` of the progression.
pub open spec fn melody_pass(p: RandomLead, k: int, notes: Seq<Timed<Option<Interval>>>) -> bool {
    let b = p.rhythms@[(k / 2) % 2]@;
    &&& notes.len() == if b.len() <= 16 {
        b.len() as int
    } else {
        16
    }
    &&& forall|j: int|
        0 <= j < notes.len() ==> (#[trigger] notes[j]).beat == b[j] && lead_pitch_is(
            prog()[k % 4],
            p.steps@[j],
            notes[j].item,
        )
}

/// Pass `k` of the random lead (see `melody_pass`). It never outlasts its
/// chord, and fills it exactly when its rhythm has at most sixteen beats.
pub fn random_melody(p: &RandomLead, k: usize) -> (notes: Vec<Timed<Option<Interval>>>)
    requires
        random_lead_ok(*p),
    ensures
        melody_pass(*p, k as int, notes@),
        0 <= span(beats_of(notes@)) <= 11 * (GRID / 4),
        p.rhythms@[(k as int / 2) % 2].len() <= 16 ==> span(beats_of(notes@)) == 11 * (GRID / 4),
{
    let chords = progression();
    let (mode, base) = chords[k % 4];
    let b = &p.rhythms[(k / 2) % 2];
    let pairs = zip_timed(b, &p.steps);
    let mut notes: Vec<Timed<Option<Interval>>> = Vec::new();
    let mut j: usize = 0;
    while j < pairs.len()
        invariant
            j <= pairs.len(),
            random_lead_ok(*p),
            b@ == p.rhythms@[(k as int / 2) % 2]@,
            chords@ == prog(),
            (mode, base) == prog()[k as int % 4],
            pairs.len() <= 16,
            forall|i: int|
                0 <= i < pairs.len() ==> (#[trigger] pairs@[i]).beat == b@[i] && pairs@[i].item
                    == p.steps@[i],
            notes.len() == j,
            forall|i: int|
                0 <= i < j ==> (#[trigger] notes@[i]).beat == b@[i] && lead_pitch_is(
                    prog()[k as int % 4],
                    p.steps@[i],
                    notes@[i].item,
                ),
        decreases pairs.len() - j,
    {
        let e = pairs[j];
        let pitch = lead_pitch(mode, base, e.item);
        notes.push(Timed { beat: e.beat, item: pitch });
        j = j + 1;
    }
    proof {
        assert(beats_of(notes@) =~= b@.take(notes.len() as int));
        lemma_span_prefix(b@, notes.len() as int);
        if b.len() <= 16 {
            assert(b@.take(notes.len() as int) =~= b@);
        }
    }
    notes
}

/// The total length, in ticks, of a run of passes played one after the
/// other.
pub open spec fn total_span(passes: Seq<Vec<Timed<Option<Interval>>>>) -> int
    decreases passes.len(),
{
    if passes.len() == 0 {
        0
    } else {
        total_span(passes.drop_last()) + span(beats_of(passes.last()@))
    }
}

/// The whole random lead: eight passes, pass `k` over chord `k % 4` with
/// rhythm `(k / 2) % 2`. Together they last at most eight chords, 22 beats,
/// and exactly that when neither rhythm has more than sixteen beats.
pub fn random_lead(p: &RandomLead) -> (passes: Vec<Vec<Timed<Option<Interval>>>>)
    requires
        random_lead_ok(*p),
    ensures
        passes.len() == 8,
        forall|k: int| 0 <= k < 8 ==> melody_pass(*p, k, #[trigger] passes@[k]@),
        total_span(passes@) <= 22 * GRID,
        p.rhythms@[0].len() <= 16 && p.rhythms@[1].len() <= 16 ==> total_span(passes@) == 22 * GRID,
{
    let mut passes: Vec<Vec<Timed<Option<Interval>>>> = Vec::new();
    let mut k: usize = 0;
    proof {
        lemma_grid_fractions();
    }
    while k < 8
        invariant
            k <= 8,
            random_lead_ok(*p),
            passes.len() == k,
            forall|i: int| 0 <= i < k ==> melody_pass(*p, i, #[trigger] passes@[i]@),
            11 * (GRID / 4) == 1981980,
            total_span(passes@) <= k * 1981980,
            p.rhythms@[0].len() <= 16 && p.rhythms@[1].len() <= 16 ==> total_span(passes@) == k
                * 1981980,
        decreases 8 - k,
    {
        let m = random_melody(p, k);
        let ghost before = passes@;
        passes.push(m);
        proof {
            assert(passes@.drop_last() =~= before);
            lemma_grid_fractions();
            assert(total_span(passes@) == total_span(before) + span(beats_of(m@)));
            let r = (k as int / 2) % 2;
            assert(r == 0 || r == 1);
            if p.rhythms@[0].len() <= 16 && p.rhythms@[1].len() <= 16 {
                assert(p.rhythms@[r].len() <= 16);
            }
        }
        k = k + 1;
    }
    proof {
        lemma_grid_fractions();
    }
    passes
}

/// When the lead enters: after eight chords.
pub fn lead_entry() -> (b: Beat)
    ensures
        b.on_grid(),
        b.ticks() == 22 * GRID,
{
    let chord = chord_length();
    let b = beat_mul(chord, 8);
    proof {
        lemma_divisor_le(chord.den as int, b.den as int);
        assert(GRID as int % b.den as int == 0) by (nonlinear_arith)
            requires
                GRID as int % chord.den as int == 0,
                chord.den as int % b.den as int == 0,
                b.den > 0,
                chord.den > 0,
        {
            let q1 = GRID as int / chord.den as int;
            let q2 = chord.den as int / b.den as int;
            assert(GRID as int == q1 * chord.den);
            assert(chord.den == q2 * b.den);
            assert(GRID as int == (q1 * q2) * b.den);
        }
        lemma_ticks_same(chord, chord.num as int, chord.den as int);
        assert(same(b.value(), (chord.num * 8, chord.den as int)));
        assert(GRID as int % chord.den as int == 0);
        lemma_ticks_same(b, chord.num * 8, chord.den as int);
        assert(b.ticks() == chord.num * 8 * (GRID as int / chord.den as int)) by (nonlinear_arith)
            requires
                b.ticks() == (chord.num * 8) * (GRID as int / chord.den as int),
        ;
        assert(chord.ticks() == chord.num * (GRID as int / chord.den as int));
        assert(b.ticks() == 8 * chord.ticks()) by (nonlinear_arith)
            requires
                b.ticks() == chord.num * 8 * (GRID as int / chord.den as int),
                chord.ticks() == chord.num * (GRID as int / chord.den as int),
        ;
    }
    b
}

/// `p` sounds the note `st` semitones above the tonic.
pub open spec fn sounds(p: Option<Interval>, st: int) -> bool {
    p matches Some(i) && i.den > 0 && same(i.value(), (st, 12))
}

/// The lead over chord `c` of the progression sounds, for a scale step
/// `step` other than 9, the semitone of scale step `step` plus the chord's
/// root in sevenths (0, 2, -2, -1), on the chord's mode (major, minor,
/// Dorian, Dorian); for step 9 it rests.
proof fn lemma_lead_tone(c: int, step: i64, p: Option<Interval>)
    requires
        0 <= c < 4,
        0 <= step <= 9,
        lead_pitch_is(prog()[c], step, p),
    ensures
        p is None <==> step == 9,
        step != 9 ==> sounds(p, step_semitones(
                    seq![MAJOR, MINOR, Mode::Dorian, Mode::Dorian][c],
                    step + seq![0int, 2, -2, -1][c],
                )),
{
    if step != 9 {
        let s = sum((step as int, 7), prog()[c].1.value());
        let x = step as int;
        let r = seq![0int, 2, -2, -1][c];
        let d = prog()[c].1.den as int;
        assert(prog()[c].1.num as int == r && (c == 0 ==> d == 1) && (c != 0 ==> d == 7)) by {
            if c == 0 {
            } else if c == 1 {
            } else if c == 2 {
            } else {
            }
        }
        assert(s == (x * d + r * 7, 7 * d));
        assert((7 * s.0) / s.1 == x + r) by {
            if c == 0 {
                assert(x * d + r * 7 == x && 7 * d == 7) by (nonlinear_arith)
                    requires
                        d == 1,
                        r == 0,
                ;
            } else {
                assert(x * d + r * 7 == 7 * x + 7 * r && 7 * d == 49) by (nonlinear_arith)
                    requires
                        d == 7,
                ;
                assert((7 * (7 * x + 7 * r)) / 49 == x + r);
            }
        }
        lemma_scale_expand_value(prog()[c].0, s.0, s.1);
    }
}

/// `s` is the written lead, as `lead` returns it.
pub open spec fn written_lead_ok(s: Seq<Timed<Option<Interval>>>) -> bool {
    &&& s.len() == 128
    &&& forall|k: int|
        0 <= k < 128 ==> (#[trigger] s[k]).beat == (Beat { num: 1, den: melody_lengths()[k % 16] })
            && lead_pitch_is(prog()[(k / 16) % 4], melody_steps()[k % 16], s[k].item)
}

/// The written lead plays the melody of scale steps 0, 4, 4, 6, rest,
/// rest, 3, 5, 5, rest, 8, 7, 6, 6, 1, rest, held a sixteenth, a
/// sixteenth, a quarter, an eighth, a half, an eighth, an eighth, a
/// quarter, a quarter, a sixteenth, a quarter, a sixteenth, a sixteenth, a
/// quarter, a sixteenth and a quarter beat, over the chords in turn: pass
/// `c` over chord `c mod 4` (major on the tonic, minor two steps up,
/// Dorian two steps down, Dorian one step down), each step counted from
/// the chord's root on the chord's mode.
pub proof fn law_written_lead(s: Seq<Timed<Option<Interval>>>)
    requires
        written_lead_ok(s),
    ensures
        s.len() == 128,
        forall|k: int|
            0 <= k < 128 ==> (#[trigger] s[k]).beat == (Beat {
                num: 1,
                den: seq![16u64, 16, 4, 8, 2, 8, 8, 4, 4, 16, 4, 16, 16, 4, 16, 4][k % 16],
            }),
        forall|k: int|
            0 <= k < 128 ==> ((#[trigger] s[k]).item is None <==> seq![0i64, 4, 4, 6, 9, 9, 3, 5, 5, 9, 8, 7, 6, 6, 1, 9][k % 16]
                == 9),
        forall|k: int|
            0 <= k < 128 && seq![0i64, 4, 4, 6, 9, 9, 3, 5, 5, 9, 8, 7, 6, 6, 1, 9][k % 16] != 9
                ==> sounds((#[trigger] s[k]).item, step_semitones(
                        seq![MAJOR, MINOR, Mode::Dorian, Mode::Dorian][(k / 16) % 4],
                        seq![0int, 2, -2, -1][(k / 16) % 4] + seq![0i64, 4, 4, 6, 9, 9, 3, 5, 5, 9, 8, 7, 6, 6, 1, 9][k
                            % 16],
                    )),
{
    assert(melody_steps() =~= seq![0i64, 4, 4, 6, 9, 9, 3, 5, 5, 9, 8, 7, 6, 6, 1, 9]);
    assert(melody_lengths() =~= seq![16u64, 16, 4, 8, 2, 8, 8, 4, 4, 16, 4, 16, 16, 4, 16, 4]);
    assert forall|k: int| 0 <= k < 128 implies {
        &&& ((#[trigger] s[k]).item is None <==> melody_steps()[k % 16] == 9)
        &&& melody_steps()[k % 16] != 9 ==> sounds(s[k].item, step_semitones(
                    seq![MAJOR, MINOR, Mode::Dorian, Mode::Dorian][(k / 16) % 4],
                    melody_steps()[k % 16] + seq![0int, 2, -2, -1][(k / 16) % 4],
                ))
    } by {
        assert(0 <= melody_steps()[k % 16] <= 9);
        lemma_lead_tone((k / 16) % 4, melody_steps()[k % 16], s[k].item);
    }
}

/// Pass `k` of the random lead pairs rhythm `(k / 2) mod 2` with the drawn
/// scale steps and plays them over chord `k mod 4` of the progression (so
/// two passes in a row never share a chord): a drawn 9 rests; any other
/// step sounds the semitone of that step plus the chord's root in sevenths
/// (0, 2, -2, -1), on the chord's mode (major, minor, Dorian, Dorian).
pub proof fn law_random_pass(p: RandomLead, k: int, notes: Seq<Timed<Option<Interval>>>)
    requires
        random_lead_ok(p),
        0 <= k,
        melody_pass(p, k, notes),
    ensures
        notes.len() <= 16,
        forall|j: int|
            0 <= j < notes.len() ==> (#[trigger] notes[j]).beat == p.rhythms@[(k / 2) % 2]@[j] && (
            notes[j].item is None <==> p.steps@[j] == 9),
        forall|j: int|
            0 <= j < notes.len() && p.steps@[j] != 9 ==> sounds((#[trigger] notes[j]).item, step_semitones(
                        seq![MAJOR, MINOR, Mode::Dorian, Mode::Dorian][k % 4],
                        p.steps@[j] + seq![0int, 2, -2, -1][k % 4],
                    )),
{
    assert forall|j: int| 0 <= j < notes.len() implies {
        &&& ((#[trigger] notes[j]).item is None <==> p.steps@[j] == 9)
        &&& p.steps@[j] != 9 ==> sounds(notes[j].item, step_semitones(
                    seq![MAJOR, MINOR, Mode::Dorian, Mode::Dorian][k % 4],
                    p.steps@[j] + seq![0int, 2, -2, -1][k % 4],
                ))
    } by {
        lemma_lead_tone(k % 4, p.steps@[j], notes[j].item);
    }
}

/// `s` is the bass line, as `bass_line` returns it.
pub open spec fn bass_line_ok(s: Seq<Timed<Interval>>) -> bool {
    &&& s.len() == 96
    &&& forall|k: int|
        0 <= k < 96 ==> (#[trigger] s[k]).beat == bass_rhythm()[k % 3] && s[k].item.value()
            == bass_pitch(prog()[(k / 3) % 4])
}

/// The bass line plays each chord of the progression in turn, three notes
/// to a chord held a beat, a beat and three quarters of a beat: the chord's
/// root (0, 2, -2, -1 sevenths) two octaves (fourteen scale steps) down, on
/// the chord's mode (major, minor, Dorian, Dorian).
pub proof fn law_bass_line(s: Seq<Timed<Interval>>)
    requires
        bass_line_ok(s),
    ensures
        s.len() == 96,
        forall|k: int|
            0 <= k < 96 ==> (#[trigger] s[k]).beat == seq![
                Beat { num: 1, den: 1 },
                Beat { num: 1, den: 1 },
                Beat { num: 3, den: 4 },
            ][k % 3] && sounds(
                Some(s[k].item),
                step_semitones(
                    seq![MAJOR, MINOR, Mode::Dorian, Mode::Dorian][(k / 3) % 4],
                    seq![0int, 2, -2, -1][(k / 3) % 4] - 14,
                ),
            ),
{
    assert forall|k: int| 0 <= k < 96 implies sounds(
        Some((#[trigger] s[k]).item),
        step_semitones(
            seq![MAJOR, MINOR, Mode::Dorian, Mode::Dorian][(k / 3) % 4],
            seq![0int, 2, -2, -1][(k / 3) % 4] - 14,
        ),
    ) by {
        let c = (k / 3) % 4;
        let t = diff(prog()[c].1.value(), (2, 1));
        let r = seq![0int, 2, -2, -1][c];
        let d = prog()[c].1.den as int;
        assert(prog()[c].1.num as int == r && (c == 0 ==> d == 1) && (c != 0 ==> d == 7)) by {
            if c == 0 {
            } else if c == 1 {
            } else if c == 2 {
            } else {
            }
        }
        assert(t == (r * 1 - 2 * d, d * 1));
        assert((7 * t.0) / t.1 == r - 14) by {
            if c == 0 {
                assert(r * 1 - 2 * d == -2 && d * 1 == 1) by (nonlinear_arith)
                    requires
                        d == 1,
                        r == 0,
                ;
            } else {
                assert(r * 1 - 2 * d == r - 14 && d * 1 == 7) by (nonlinear_arith)
                    requires
                        d == 7,
                ;
                assert((7 * (r - 14)) / 7 == r - 14);
            }
        }
        lemma_scale_expand_value(prog()[c].0, t.0, t.1);
    }
    assert(bass_rhythm() =~= seq![
        Beat { num: 1, den: 1 },
        Beat { num: 1, den: 1 },
        Beat { num: 3, den: 4 },
    ]);
}

} // verus!
