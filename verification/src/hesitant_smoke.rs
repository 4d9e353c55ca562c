//! "Hesitant smoke": percussion, a bass and four synthesizer voices on
//! random rhythms of sixteen beats, arranged in eight sections that switch
//! between minor and major.
use vstd::prelude::*;
use euphony::rand::Scope;
use crate::chance::{drawn, fine, one_of, rhythm};
use crate::parts::{beat_fractions, durations_of, durations_ok, steps_from};
use crate::pitch::{Mode, MAJOR, MINOR};
use crate::timeline::{all_on_grid, beats_of, span, zip_timed, Timed};
use crate::units::{
    beat_add, interval_add, lemma_abs_combination, lemma_divisor_le, lemma_same_scaled, lemma_same_trans, same, sum, Beat,
    Interval, GRID, LIMIT,
};

verus! {

/// The length of every loop and every section: sixteen beats.
pub fn length() -> (b: Beat)
    ensures
        b.num == 16,
        b.den == 1,
        fine(b),
        b.ticks() == 16 * GRID,
{
    Beat::new(16, 1)
}

/// A percussion loop: a random rhythm of sixteen beats drawn from
/// `durations`, each stroke playing one of `samples` samples at random.
pub fn percussion(rng: &Scope, durations: &Vec<Beat>, samples: usize) -> (strokes: Vec<
    Timed<usize>,
>)
    requires
        durations_ok(durations@),
        samples > 0,
    ensures
        all_on_grid(beats_of(strokes@)),
        drawn(beats_of(strokes@), durations@, 16 * GRID),
        span(beats_of(strokes@)) == 16 * GRID,
        forall|k: int| 0 <= k < strokes.len() ==> (#[trigger] strokes@[k]).item < samples,
{
    let beats = rhythm(rng, length(), durations);
    let mut choices: Vec<usize> = Vec::new();
    let mut k: usize = 0;
    while k < samples
        invariant
            k <= samples,
            choices.len() == k,
            forall|j: int| 0 <= j < k ==> #[trigger] choices@[j] < samples,
        decreases samples - k,
    {
        choices.push(k);
        k = k + 1;
    }
    let mut picks: Vec<usize> = Vec::new();
    let mut k: usize = 0;
    while k < beats.len()
        invariant
            k <= beats.len(),
            choices.len() == samples,
            samples > 0,
            forall|j: int| 0 <= j < samples ==> #[trigger] choices@[j] < samples,
            picks.len() == k,
            forall|j: int| 0 <= j < k ==> #[trigger] picks@[j] < samples,
        decreases beats.len() - k,
    {
        picks.push(one_of(rng, &choices));
        k = k + 1;
    }
    let strokes = zip_timed(&beats, &picks);
    assert(beats@.take(beats.len() as int) =~= beats@);
    strokes
}

/// The bass drum: strokes two or one beats apart, any of `samples` samples.
pub fn bass_drum(rng: &Scope, samples: usize) -> (strokes: Vec<Timed<usize>>)
    requires
        samples > 0,
    ensures
        all_on_grid(beats_of(strokes@)),
        span(beats_of(strokes@)) == 16 * GRID,
        forall|k: int| 0 <= k < strokes.len() ==> (#[trigger] strokes@[k]).item < samples,
        drawn(beats_of(strokes@), seq![Beat { num: 2, den: 1 }, Beat { num: 1, den: 1 }], 16 * GRID),
{
    let durations = durations_of(&vec![2, 1], &vec![1, 1]);
    proof {
        assert(durations@ =~= seq![Beat { num: 2, den: 1 }, Beat { num: 1, den: 1 }]);
    }
    percussion(rng, &durations, samples)
}

/// The snare, after a beat's wait: strokes two or one beats apart, always
/// the same sample.
pub fn snare(rng: &Scope) -> (strokes: Vec<Timed<usize>>)
    ensures
        all_on_grid(beats_of(strokes@)),
        span(beats_of(strokes@)) == 16 * GRID,
        forall|k: int| 0 <= k < strokes.len() ==> (#[trigger] strokes@[k]).item == 0,
        drawn(beats_of(strokes@), seq![Beat { num: 2, den: 1 }, Beat { num: 1, den: 1 }], 16 * GRID),
{
    let durations = durations_of(&vec![2, 1], &vec![1, 1]);
    proof {
        assert(durations@ =~= seq![Beat { num: 2, den: 1 }, Beat { num: 1, den: 1 }]);
    }
    percussion(rng, &durations, 1)
}

/// The hi-hat: strokes half or quarter beats apart, any of `samples` samples.
pub fn hihat(rng: &Scope, samples: usize) -> (strokes: Vec<Timed<usize>>)
    requires
        samples > 0,
    ensures
        all_on_grid(beats_of(strokes@)),
        span(beats_of(strokes@)) == 16 * GRID,
        forall|k: int| 0 <= k < strokes.len() ==> (#[trigger] strokes@[k]).item < samples,
        drawn(beats_of(strokes@), seq![Beat { num: 1, den: 2 }, Beat { num: 1, den: 4 }], 16 * GRID),
{
    let durations = beat_fractions(&vec![2, 4]);
    proof {
        assert(durations@ =~= seq![Beat { num: 1, den: 2 }, Beat { num: 1, den: 4 }]);
    }
    percussion(rng, &durations, samples)
}

/// A pitch `x / 7 + octave` with `x` one of 0, 2, 3 and 4.
pub open spec fn synth_pitch(i: Interval, octave: i64) -> bool {
    &&& i.modest()
    &&& (7 * i.num) as int % i.den as int == 0
    &&& seq![0int, 2, 3, 4].contains((7 * i.num) as int / i.den as int - 7 * octave)
}

/// A pitched loop: a random rhythm of sixteen beats drawn from `durations`,
/// each beat carrying a scale step of 0, 2, 3 or 4 sevenths of an octave,
/// shifted by `octave` octaves.
pub fn melody(rng: &Scope, durations: &Vec<Beat>, octave: i64) -> (notes: Vec<Timed<Interval>>)
    requires
        durations_ok(durations@),
        -2 <= octave <= 0,
    ensures
        all_on_grid(beats_of(notes@)),
        drawn(beats_of(notes@), durations@, 16 * GRID),
        span(beats_of(notes@)) == 16 * GRID,
        forall|k: int| 0 <= k < notes.len() ==> synth_pitch((#[trigger] notes@[k]).item, octave),
{
    let beats = rhythm(rng, length(), durations);
    let choices: Vec<i64> = vec![0, 2, 3, 4];
    let steps = steps_from(rng, beats.len(), &choices);
    let shift = Interval::new(octave, 1);
    let mut pitches: Vec<Interval> = Vec::new();
    let mut k: usize = 0;
    while k < steps.len()
        invariant
            k <= steps.len(),
            shift.num == octave && shift.den == 1,
            -2 <= octave <= 0,
            choices@ == seq![0i64, 2, 3, 4],
            forall|j: int|
                0 <= j < steps.len() ==> (#[trigger] steps@[j]).den == 7 && choices@.contains(
                    steps@[j].num,
                ),
            pitches.len() == k,
            forall|j: int|
                0 <= j < k ==> (#[trigger] pitches@[j]).modest() && same(
                    pitches@[j].value(),
                    sum((steps@[j].num as int, 7), (octave as int, 1)),
                ),
        decreases steps.len() - k,
    {
        let s = steps[k];
        proof {
            lemma_abs_combination(s.num as int, octave as int, 1, 7);
        }
        let p = interval_add(s, shift);
        proof {
            lemma_divisor_le(7, p.den as int);
        }
        pitches.push(p);
        k = k + 1;
    }
    let notes = zip_timed(&beats, &pitches);
    proof {
        assert(beats@.take(beats.len() as int) =~= beats@);
        assert forall|k: int| 0 <= k < notes.len() implies synth_pitch(
            (#[trigger] notes@[k]).item,
            octave,
        ) by {
            let x = steps@[k].num as int;
            let i = pitches@[k];
            assert(same((x + 7 * octave, 7), sum((x, 7), (octave as int, 1)))) by (nonlinear_arith);
            lemma_same_trans(i.value(), sum((x, 7), (octave as int, 1)), (x + 7 * octave, 7));
            lemma_same_scaled(i.num as int, i.den as int, x + 7 * octave, 7);
        }
    }
    notes
}

/// A synthesizer voice: its notes, how long each is held, and how long it
/// takes to fade.
pub struct SynthPart {
    pub notes: Vec<Timed<Interval>>,
    pub sustain: Beat,
    pub decay: Beat,
}

/// The lead: whole and half beats, one octave down, held a quarter beat and
/// fading over an eighth.
pub fn lead(rng: &Scope) -> (p: SynthPart)
    ensures
        span(beats_of(p.notes@)) == 16 * GRID,
        all_on_grid(beats_of(p.notes@)),
        forall|k: int| 0 <= k < p.notes.len() ==> synth_pitch((#[trigger] p.notes@[k]).item, -1i64),
        p.sustain == (Beat { num: 1, den: 4 }),
        p.decay == (Beat { num: 1, den: 8 }),
        drawn(beats_of(p.notes@), seq![Beat { num: 1, den: 1 }, Beat { num: 1, den: 2 }], 16 * GRID),
{
    let durations = beat_fractions(&vec![1, 2]);
    proof {
        assert(durations@ =~= seq![Beat { num: 1, den: 1 }, Beat { num: 1, den: 2 }]);
    }
    let notes = melody(rng, &durations, -1);
    SynthPart { notes, sustain: Beat::new(1, 4), decay: Beat::new(1, 8) }
}

/// The harmony: whole, half and quarter beats, two octaves down, held a
/// quarter beat and fading over an eighth.
pub fn harmony(rng: &Scope) -> (p: SynthPart)
    ensures
        span(beats_of(p.notes@)) == 16 * GRID,
        all_on_grid(beats_of(p.notes@)),
        forall|k: int| 0 <= k < p.notes.len() ==> synth_pitch((#[trigger] p.notes@[k]).item, -2i64),
        p.sustain == (Beat { num: 1, den: 4 }),
        p.decay == (Beat { num: 1, den: 8 }),
        drawn(beats_of(p.notes@), seq![Beat { num: 1, den: 1 }, Beat { num: 1, den: 2 }, Beat { num: 1, den: 4 }], 16 * GRID),
{
    let durations = beat_fractions(&vec![1, 2, 4]);
    proof {
        assert(durations@ =~= seq![Beat { num: 1, den: 1 }, Beat { num: 1, den: 2 }, Beat { num: 1, den: 4 }]);
    }
    let notes = melody(rng, &durations, -2);
    SynthPart { notes, sustain: Beat::new(1, 4), decay: Beat::new(1, 8) }
}

/// The high voice: one and two beats, held three quarters of a beat and
/// fading over a quarter.
pub fn high(rng: &Scope) -> (p: SynthPart)
    ensures
        span(beats_of(p.notes@)) == 16 * GRID,
        all_on_grid(beats_of(p.notes@)),
        forall|k: int| 0 <= k < p.notes.len() ==> synth_pitch((#[trigger] p.notes@[k]).item, 0i64),
        p.sustain == (Beat { num: 3, den: 4 }),
        p.decay == (Beat { num: 1, den: 4 }),
        drawn(beats_of(p.notes@), seq![Beat { num: 1, den: 1 }, Beat { num: 2, den: 1 }], 16 * GRID),
{
    let durations = durations_of(&vec![1, 2], &vec![1, 1]);
    proof {
        assert(durations@ =~= seq![Beat { num: 1, den: 1 }, Beat { num: 2, den: 1 }]);
    }
    let notes = melody(rng, &durations, 0);
    SynthPart { notes, sustain: Beat::new(3, 4), decay: Beat::new(1, 4) }
}

/// The second high voice: one, two, a half and a quarter beat, held an
/// eighth and fading over a sixteenth.
pub fn high2(rng: &Scope) -> (p: SynthPart)
    ensures
        span(beats_of(p.notes@)) == 16 * GRID,
        all_on_grid(beats_of(p.notes@)),
        forall|k: int| 0 <= k < p.notes.len() ==> synth_pitch((#[trigger] p.notes@[k]).item, 0i64),
        p.sustain == (Beat { num: 1, den: 8 }),
        p.decay == (Beat { num: 1, den: 16 }),
        drawn(beats_of(p.notes@), seq![Beat { num: 1, den: 1 }, Beat { num: 2, den: 1 }, Beat { num: 1, den: 2 }, Beat { num: 1, den: 4 }], 16 * GRID),
{
    let durations = durations_of(&vec![1, 2, 1, 1], &vec![1, 1, 2, 4]);
    proof {
        assert(durations@ =~= seq![Beat { num: 1, den: 1 }, Beat { num: 2, den: 1 }, Beat { num: 1, den: 2 }, Beat { num: 1, den: 4 }]);
    }
    let notes = melody(rng, &durations, 0);
    SynthPart { notes, sustain: Beat::new(1, 8), decay: Beat::new(1, 16) }
}

/// The bass: one and two beats, two octaves down.
pub fn bass(rng: &Scope) -> (notes: Vec<Timed<Interval>>)
    ensures
        span(beats_of(notes@)) == 16 * GRID,
        all_on_grid(beats_of(notes@)),
        forall|k: int| 0 <= k < notes.len() ==> synth_pitch((#[trigger] notes@[k]).item, -2i64),
        drawn(beats_of(notes@), seq![Beat { num: 1, den: 1 }, Beat { num: 2, den: 1 }], 16 * GRID),
{
    let durations = durations_of(&vec![1, 2], &vec![1, 1]);
    proof {
        assert(durations@ =~= seq![Beat { num: 1, den: 1 }, Beat { num: 2, den: 1 }]);
    }
    melody(rng, &durations, -2)
}

/// How long a synthesizer note's filter sweeps: its attack of a
/// sixty-fourth of a beat, its sustain and its decay.
pub fn sweep_length(sustain: Beat, decay: Beat) -> (b: Beat)
    requires
        sustain.on_grid(),
        decay.on_grid(),
        sustain.num <= LIMIT,
        decay.num <= LIMIT,
    ensures
        b.den > 0,
        same(b.value(), sum(sum((1, 64), sustain.value()), decay.value())),
{
    let attack = Beat::new(1, 64);
    proof {
        lemma_divisor_le(GRID as int, sustain.den as int);
        lemma_divisor_le(GRID as int, decay.den as int);
        assert(sustain.den * 64 <= GRID * 64) by (nonlinear_arith)
            requires
                sustain.den <= GRID,
        ;
        assert(sustain.num * 64 <= LIMIT * 64) by (nonlinear_arith)
            requires
                sustain.num <= LIMIT,
        ;
    }
    let a = beat_add(attack, sustain);
    proof {
        assert(64 * sustain.den > 0) by (nonlinear_arith)
            requires
                sustain.den > 0,
        ;
        lemma_divisor_le(64 * sustain.den, a.den as int);
        assert(a.num * decay.den <= (sustain.den + 64 * sustain.num) * GRID) by (nonlinear_arith)
            requires
                a.num <= 1 * sustain.den + sustain.num * 64,
                decay.den <= GRID,
        ;
        assert(decay.num * a.den <= LIMIT * 64 * GRID) by (nonlinear_arith)
            requires
                decay.num <= LIMIT,
                a.den <= 64 * sustain.den,
                sustain.den <= GRID,
        ;
        assert(a.den * decay.den <= 64 * GRID * GRID) by (nonlinear_arith)
            requires
                a.den <= 64 * sustain.den,
                sustain.den <= GRID,
                decay.den <= GRID,
        ;
    }
    let b = beat_add(a, decay);
    proof {
        assert(a.den * decay.den > 0) by (nonlinear_arith)
            requires
                a.den > 0,
                decay.den > 0,
        ;
        assert(64 * sustain.den * decay.den > 0) by (nonlinear_arith)
            requires
                sustain.den > 0,
                decay.den > 0,
        ;
        crate::units::lemma_sum_congruent(a.value(), sum((1, 64), sustain.value()), decay.value());
        crate::units::lemma_same_trans(
            b.value(),
            sum(a.value(), decay.value()),
            sum(sum((1, 64), sustain.value()), decay.value()),
        );
    }
    b
}

/// The voices that play in a section besides bass, hi-hat and bass drum.
#[derive(Clone, Copy, Debug, PartialEq, Eq, Structural)]
pub struct Section {
    pub mode: Mode,
    pub lead: bool,
    pub high: bool,
    pub harmony: bool,
    pub snare: bool,
}

/// The arrangement, one entry per section of sixteen beats: two minor
/// sections building up, two full sections in major then minor, two major
/// sections without harmony or snare, and two full sections in minor then major.
pub open spec fn arrangement_spec() -> Seq<Section> {
    seq![
        Section { mode: MINOR, lead: false, high: false, harmony: true, snare: false },
        Section { mode: MINOR, lead: true, high: false, harmony: true, snare: false },
        Section { mode: MAJOR, lead: true, high: true, harmony: true, snare: true },
        Section { mode: MINOR, lead: true, high: true, harmony: true, snare: true },
        Section { mode: MAJOR, lead: true, high: true, harmony: false, snare: false },
        Section { mode: MAJOR, lead: true, high: true, harmony: false, snare: false },
        Section { mode: MINOR, lead: true, high: true, harmony: true, snare: true },
        Section { mode: MAJOR, lead: true, high: true, harmony: true, snare: true },
    ]
}

/// The arrangement of the piece, section by section, with the mode in force
/// during each.
pub fn arrangement() -> (sections: Vec<Section>)
    ensures
        sections@ == arrangement_spec(),
{
    let mut sections: Vec<Section> = Vec::new();
    let mut mode = MINOR;
    sections.push(Section { mode, lead: false, high: false, harmony: true, snare: false });
    sections.push(Section { mode, lead: true, high: false, harmony: true, snare: false });
    mode = MAJOR;
    let mut i: usize = 0;
    while i < 2
        invariant
            i <= 2,
            i == 0 ==> mode == MAJOR,
            i > 0 ==> mode == MINOR,
            sections@ == arrangement_spec().take(2 + i as int),
        decreases 2 - i,
    {
        sections.push(Section { mode, lead: true, high: true, harmony: true, snare: true });
        mode = MINOR;
        i = i + 1;
    }
    mode = MAJOR;
    let mut i: usize = 0;
    while i < 2
        invariant
            i <= 2,
            mode == MAJOR,
            sections@ == arrangement_spec().take(4 + i as int),
        decreases 2 - i,
    {
        sections.push(Section { mode, lead: true, high: true, harmony: false, snare: false });
        i = i + 1;
    }
    mode = MINOR;
    let mut i: usize = 0;
    while i < 2
        invariant
            i <= 2,
            i == 0 ==> mode == MINOR,
            i > 0 ==> mode == MAJOR,
            sections@ == arrangement_spec().take(6 + i as int),
        decreases 2 - i,
    {
        sections.push(Section { mode, lead: true, high: true, harmony: true, snare: true });
        mode = MAJOR;
        i = i + 1;
    }
    assert(arrangement_spec().take(8) =~= arrangement_spec());
    sections
}

/// The arrangement has eight sections: every one but the first has the
/// lead, every one from the third on the high part; the fifth and sixth
/// leave out the harmony, and the snare plays in the third, fourth,
/// seventh and eighth; the third, fifth, sixth and eighth are in major and
/// the rest in minor.
pub proof fn law_arrangement(s: Seq<Section>)
    requires
        s == arrangement_spec(),
    ensures
        s.len() == 8,
        forall|i: int|
            0 <= i < 8 ==> {
                &&& (#[trigger] s[i]).mode == (if i == 2 || i == 4 || i == 5 || i == 7 {
                    MAJOR
                } else {
                    MINOR
                })
                &&& s[i].lead == (i != 0)
                &&& s[i].high == (i >= 2)
                &&& s[i].harmony == (i != 4 && i != 5)
                &&& s[i].snare == (i == 2 || i == 3 || i == 6 || i == 7)
            },
{
    assert forall|i: int| 0 <= i < 8 implies {
        &&& (#[trigger] s[i]).mode == (if i == 2 || i == 4 || i == 5 || i == 7 {
            MAJOR
        } else {
            MINOR
        })
        &&& s[i].lead == (i != 0)
        &&& s[i].high == (i >= 2)
        &&& s[i].harmony == (i != 4 && i != 5)
        &&& s[i].snare == (i == 2 || i == 3 || i == 6 || i == 7)
    } by {
        if i == 0 {
        } else if i == 1 {
        } else if i == 2 {
        } else if i == 3 {
        } else if i == 4 {
        } else if i == 5 {
        } else if i == 6 {
        } else {
        }
    }
}

/// The pitched parts sound only the scale steps 0, 2, 3 and 4 of their
/// octave: a pitch of the part an `octave` away is a whole number `x` of
/// sevenths above that octave, with `x` one of those four.
pub proof fn law_synth_steps(i: Interval, octave: i64)
    ensures
        synth_pitch(i, octave) <==> i.modest() && (7 * i.num) as int % i.den as int == 0 && {
            let x = (7 * i.num) as int / i.den as int - 7 * octave;
            x == 0 || x == 2 || x == 3 || x == 4
        },
{
    let x = (7 * i.num) as int / i.den as int - 7 * octave;
    let c = seq![0int, 2, 3, 4];
    assert(c[0] == 0 && c[1] == 2 && c[2] == 3 && c[3] == 4);
    if c.contains(x) {
        let j = choose|j: int| 0 <= j < c.len() && c[j] == x;
        assert(x == 0 || x == 2 || x == 3 || x == 4);
    }
}

} // verus!
