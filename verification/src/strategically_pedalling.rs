//! "Strategically pedalling": organ chords, a bass and a tinkling
//! arpeggio cycling through Dorian, Mixolydian and minor, each mode lasting
//! one phrase of twelve beats, over a looping drum kit.
use vstd::prelude::*;
use crate::pitch::{midi_note, step_semitones, Mode, MINOR};
use crate::timeline::{
    all_on_grid,
    beats_of, lemma_beats_of_append, lemma_repeat_index, lemma_repeat_len,
    lemma_span_append, lemma_span_at_least_len, lemma_span_repeat, lemma_span_upto, looped, loops, repeat, span, span_upto,
    Timed,
};
use crate::units::{
    abs, beat_div, beat_mul, interval_add, lemma_abs_combination, lemma_divisor_le,
    lemma_floor_same, lemma_grid_fractions, lemma_ticks_same, same, Beat, Interval, GRID,
};

verus! {

/// The note number of scale step `step` (in sevenths of an octave) above
/// `base` octaves, on mode `m`: the semitone of the scale step
/// `floor(step + 7 * base)` (the whole part of twelve times
/// `(step / 7 + base) * mode`).
pub open spec fn note_spec(step: int, base: (int, int), m: Mode) -> int {
    step_semitones(m, (step * base.1 + 7 * base.0) / base.1)
}

/// A base of a few octaves, in twelfths at most.
pub open spec fn base_ok(b: (int, int)) -> bool {
    0 < b.1 <= 12 && abs(b.0) <= 99
}

/// Clearing the denominators of `x = step / 7 + n / d` when `n / d` is
/// also `b0 / b1`.
proof fn lemma_cross_scaled(xn: int, xd: int, st: int, n: int, d: int, b0: int, b1: int)
    requires
        xn * (7 * d) == (st * d + n * 7) * xd,
        b0 * d == n * b1,
        d > 0,
    ensures
        7 * xn * b1 == (st * b1 + 7 * b0) * xd,
{
    let a = 7 * xn * b1;
    let c = (st * b1 + 7 * b0) * xd;
    assert(a * d == (xn * (7 * d)) * b1) by (nonlinear_arith)
        requires
            a == 7 * xn * b1,
    ;
    assert(c * d == (st * d) * b1 * xd + 7 * (b0 * d) * xd) by (nonlinear_arith)
        requires
            c == (st * b1 + 7 * b0) * xd,
    ;
    assert((xn * (7 * d)) * b1 == ((st * d + n * 7) * xd) * b1);
    assert(((st * d + n * 7) * xd) * b1 == (st * d) * b1 * xd + 7 * (n * b1) * xd) by (nonlinear_arith);
    assert(7 * (b0 * d) * xd == 7 * (n * b1) * xd);
    assert(a * d == c * d);
    assert(a == c) by (nonlinear_arith)
        requires
            a * d == c * d,
            d > 0,
    ;
}

/// The note number of step `step` above `base`, whose value is `b`.
fn note_at(step: i64, base: Interval, b: Ghost<(int, int)>, m: Mode) -> (r: i64)
    requires
        -4 <= step <= 16,
        base_ok(base.value()),
        base_ok(b@),
        same(b@, base.value()),
    ensures
        r == note_spec(step as int, b@, m),
{
    proof {
        lemma_abs_combination(step as int, base.num as int, base.den as int, 7);
        assert(abs(step as int) * base.den <= 192) by (nonlinear_arith)
            requires
                -4 <= step <= 16,
                0 < base.den <= 12,
        ;
    }
    let x = interval_add(Interval::new(step, 7), base);
    proof {
        assert(7 * base.den > 0 && 7 * base.den <= 84) by (nonlinear_arith)
            requires
                0 < base.den <= 12,
        ;
        lemma_divisor_le(7 * base.den, x.den as int);
    }
    let r = midi_note(x, m);
    proof {
        let (b0, b1) = b@;
        let n = base.num as int;
        let d = base.den as int;
        let xn = x.num as int;
        let xd = x.den as int;
        let st = step as int;
        lemma_cross_scaled(xn, xd, st, n, d, b0, b1);
        lemma_floor_same((7 * xn, xd), (st * b1 + 7 * b0, b1));
    }
    r
}

/// For each scale step of `ints` and each beat of `beats`: a chord made of
/// the steps `int + offset` for each offset, above `base`, held for the beat.
fn chords(
    m: Mode,
    base: Interval,
    b: Ghost<(int, int)>,
    ints: &Vec<i64>,
    beats: &Vec<Beat>,
    offsets: &Vec<i64>,
) -> (out: Vec<Timed<Vec<i64>>>)
    requires
        base_ok(base.value()),
        base_ok(b@),
        same(b@, base.value()),
        0 < beats.len() <= 16,
        ints.len() <= 16,
        forall|i: int| 0 <= i < ints.len() ==> -4 <= #[trigger] ints@[i] <= 6,
        forall|o: int| 0 <= o < offsets.len() ==> 0 <= #[trigger] offsets@[o] <= 6,
    ensures
        out.len() == ints.len() * beats.len(),
        beats_of(out@) == repeat(beats@, ints.len() as nat),
        forall|k: int|
            0 <= k < out.len() ==> {
                let e = #[trigger] out@[k];
                &&& e.item.len() == offsets.len()
                &&& forall|o: int|
                    0 <= o < offsets.len() ==> e.item@[o] == note_spec(
                        ints@[k / beats.len() as int] + offsets@[o],
                        b@,
                        m,
                    )
            },
{
    let nb = beats.len();
    let mut out: Vec<Timed<Vec<i64>>> = Vec::new();
    proof {
        assert(ints.len() * nb <= 256) by (nonlinear_arith)
            requires
                ints.len() <= 16,
                nb <= 16,
        ;
    }
    let total = ints.len() * nb;
    let mut k: usize = 0;
    while k < total
        invariant
            total == ints.len() * nb,
            k <= total,
            nb == beats.len(),
            0 < nb <= 16,
            ints.len() <= 16,
            base_ok(base.value()),
            base_ok(b@),
            same(b@, base.value()),
            forall|i: int| 0 <= i < ints.len() ==> -4 <= #[trigger] ints@[i] <= 6,
            forall|o: int| 0 <= o < offsets.len() ==> 0 <= #[trigger] offsets@[o] <= 6,
            out.len() == k,
            forall|j: int| 0 <= j < k ==> (#[trigger] out@[j]).beat == beats@[j % nb as int],
            forall|j: int|
                0 <= j < k ==> {
                    let e = #[trigger] out@[j];
                    &&& e.item.len() == offsets.len()
                    &&& forall|o: int|
                        0 <= o < offsets.len() ==> e.item@[o] == note_spec(
                            ints@[j / nb as int] + offsets@[o],
                            b@,
                            m,
                        )
                },
        decreases total - k,
    {
        proof {
            assert(k / nb < ints.len()) by (nonlinear_arith)
                requires
                    k < ints.len() * nb,
                    nb > 0,
            ;
        }
        let step = ints[k / nb];
        let beat = beats[k % nb];
        let mut chord: Vec<i64> = Vec::new();
        let mut o: usize = 0;
        while o < offsets.len()
            invariant
                o <= offsets.len(),
                -4 <= step <= 6,
                base_ok(base.value()),
                base_ok(b@),
                same(b@, base.value()),
                forall|q: int| 0 <= q < offsets.len() ==> 0 <= #[trigger] offsets@[q] <= 6,
                chord.len() == o,
                forall|q: int|
                    0 <= q < o ==> #[trigger] chord@[q] == note_spec(step + offsets@[q], b@, m),
            decreases offsets.len() - o,
        {
            let n = note_at(step + offsets[o], base, b, m);
            chord.push(n);
            o = o + 1;
        }
        out.push(Timed { beat, item: chord });
        k = k + 1;
    }
    proof {
        lemma_repeat_len(beats@, ints.len() as nat);
        assert forall|j: int| 0 <= j < out.len() implies beats_of(out@)[j] == repeat(
            beats@,
            ints.len() as nat,
        )[j] by {
            lemma_repeat_index(beats@, ints.len() as nat, j);
        }
        assert(beats_of(out@) =~= repeat(beats@, ints.len() as nat));
    }
    out
}

/// The length of a phrase: twelve beats, written `(7 + 5) * 4 / 4`.
pub fn phrase_length() -> (b: Beat)
    ensures
        b.num == 48,
        b.den == 4,
        b.ticks() == 12 * GRID,
{
    proof {
        lemma_grid_fractions();
    }
    Beat::new((7 + 5) * 4, 4)
}

/// Each beat in `s` lasts as listed; the listed ticks add up to `t`.
proof fn lemma_span_of(s: Seq<Beat>, t: int)
    requires
        span_upto(s, s.len() as int) == t,
    ensures
        span(s) == t,
{
    lemma_span_upto(s);
}

/// A chord of notes `item` sounding exactly the note numbers `notes`.
pub open spec fn plays(item: Seq<i64>, notes: Seq<int>) -> bool {
    &&& item.len() == notes.len()
    &&& forall|o: int| 0 <= o < notes.len() ==> #[trigger] item[o] == notes[o]
}

/// How long the organ holds its `k`-th chord of a phrase.
pub open spec fn organ_beat(k: int) -> Beat {
    if k < 8 {
        seq![Beat { num: 5, den: 4 }, Beat { num: 1, den: 2 }][k % 2]
    } else {
        seq![Beat { num: 3, den: 4 }, Beat { num: 1, den: 2 }][k % 2]
    }
}

/// The organ's `k`-th chord of a phrase on mode `m`: triads on steps 0, 2,
/// 2, 6 five octaves up (each played twice), then, a minor third higher,
/// four-note chords on steps 0, 1, 2, -2.
pub open spec fn organ_chord(k: int, m: Mode) -> Seq<int> {
    if k < 8 {
        Seq::new(3, |o: int| note_spec(seq![0int, 2, 2, 6][k / 2] + 2 * o, (5, 1), m))
    } else {
        Seq::new(4, |o: int| note_spec(seq![0int, 1, 2, -2][(k - 8) / 2] + 2 * o, (63, 12), m))
    }
}

/// One phrase of the organ on mode `m`: sixteen chords lasting twelve
/// beats in all.
pub fn organ_cycle(m: Mode) -> (out: Vec<Timed<Vec<i64>>>)
    ensures
        out.len() == 16,
        span(beats_of(out@)) == 12 * GRID,
        forall|k: int|
            0 <= k < 16 ==> (#[trigger] out@[k]).beat == organ_beat(k) && plays(
                out@[k].item@,
                organ_chord(k, m),
            ),
        organ_cycle_ok(m, out@),
{
    let oct = Interval::new(5, 1);
    let first = chords(
        m,
        oct,
        Ghost((5, 1)),
        &vec![0, 2, 2, 6],
        &vec![Beat { num: 5, den: 4 }, Beat { num: 1, den: 2 }],
        &vec![0, 2, 4],
    );
    let raised = interval_add(oct, Interval::new(3, 12));
    proof {
        lemma_divisor_le(12, raised.den as int);
    }
    let second = chords(
        m,
        raised,
        Ghost((63, 12)),
        &vec![0, 1, 2, -2],
        &vec![Beat { num: 3, den: 4 }, Beat { num: 1, den: 2 }],
        &vec![0, 2, 4, 6],
    );
    let mut out = first;
    let mut rest = second;
    let ghost f = out@;
    let ghost g = rest@;
    out.append(&mut rest);
    proof {
        assert(out@ == f + g);
        crate::timeline::lemma_beats_of_append(f, g);
        let pa = seq![Beat { num: 5, den: 4 }, Beat { num: 1, den: 2 }];
        let pb = seq![Beat { num: 3, den: 4 }, Beat { num: 1, den: 2 }];
        lemma_span_append(repeat(pa, 4), repeat(pb, 4));
        lemma_span_repeat(pa, 4);
        lemma_span_repeat(pb, 4);
        lemma_grid_fractions();
        reveal_with_fuel(span_upto, 3);
        assert(span_upto(pa, 1) == 5 * 180180);
        assert(span_upto(pa, 2) == 7 * 180180);
        assert(span_upto(pb, 1) == 3 * 180180);
        assert(span_upto(pb, 2) == 5 * 180180);
        lemma_span_of(pa, 7 * 180180int);
        lemma_span_of(pb, 5 * 180180int);
        lemma_repeat_len(pa, 4);
        lemma_repeat_len(pb, 4);
        assert forall|k: int| 0 <= k < 16 implies (#[trigger] out@[k]).beat == organ_beat(k)
            && plays(out@[k].item@, organ_chord(k, m)) by {
            if k < 8 {
                assert(out@[k] == f[k]);
                assert(beats_of(f)[k] == repeat(pa, 4)[k]);
                lemma_repeat_index(pa, 4, k);
                assert forall|o: int| 0 <= o < 3 implies #[trigger] out@[k].item@[o] == organ_chord(
                    k,
                    m,
                )[o] by {
                    assert(seq![0i64, 2, 4][o] == 2 * o);
                }
            } else {
                assert(out@[k] == g[k - 8]);
                assert(beats_of(g)[k - 8] == repeat(pb, 4)[k - 8]);
                lemma_repeat_index(pb, 4, k - 8);
                assert((k - 8) % 2 == k % 2);
                assert forall|o: int| 0 <= o < 4 implies #[trigger] out@[k].item@[o] == organ_chord(
                    k,
                    m,
                )[o] by {
                    assert(seq![0i64, 2, 4, 6][o] == 2 * o);
                }
            }
        }
    }
    out
}

/// For each scale step of `ints` and each beat of `beats`: the note of the
/// step above `base`, held for the beat.
fn line(m: Mode, base: Interval, b: Ghost<(int, int)>, ints: &Vec<i64>, beats: &Vec<Beat>) -> (out:
    Vec<Timed<i64>>)
    requires
        base_ok(base.value()),
        base_ok(b@),
        same(b@, base.value()),
        0 < beats.len() <= 16,
        ints.len() <= 16,
        forall|i: int| 0 <= i < ints.len() ==> -4 <= #[trigger] ints@[i] <= 6,
    ensures
        out.len() == ints.len() * beats.len(),
        beats_of(out@) == repeat(beats@, ints.len() as nat),
        forall|k: int|
            0 <= k < out.len() ==> (#[trigger] out@[k]).item == note_spec(
                ints@[k / beats.len() as int] as int,
                b@,
                m,
            ),
{
    let unison: Vec<i64> = vec![0];
    let chs = chords(m, base, b, ints, beats, &unison);
    let nb = beats.len();
    let mut out: Vec<Timed<i64>> = Vec::new();
    let mut k: usize = 0;
    while k < chs.len()
        invariant
            k <= chs.len(),
            nb == beats.len(),
            unison@ == seq![0i64],
            chs.len() == ints.len() * nb,
            forall|j: int|
                0 <= j < chs.len() ==> {
                    let e = #[trigger] chs@[j];
                    &&& e.item.len() == 1
                    &&& e.item@[0] == note_spec(ints@[j / nb as int] + unison@[0], b@, m)
                },
            out.len() == k,
            forall|j: int|
                0 <= j < k ==> (#[trigger] out@[j]).beat == chs@[j].beat && out@[j].item == note_spec(
                    ints@[j / nb as int] as int,
                    b@,
                    m,
                ),
        decreases chs.len() - k,
    {
        let e = &chs[k];
        out.push(Timed { beat: e.beat, item: e.item[0] });
        k = k + 1;
    }
    proof {
        assert(beats_of(out@) =~= beats_of(chs@));
    }
    out
}

/// How long the bass holds its `k`-th note of a phrase.
pub open spec fn bass_beat(k: int) -> Beat {
    if k < 12 {
        seq![Beat { num: 1, den: 4 }, Beat { num: 1, den: 1 }, Beat { num: 1, den: 2 }][k % 3]
    } else {
        seq![Beat { num: 1, den: 2 }, Beat { num: 1, den: 2 }, Beat { num: 1, den: 4 }][k % 3]
    }
}

/// The bass's `k`-th note of a phrase on mode `m`: steps 0, 2, 2, 6 three
/// octaves up, three notes each; then, a minor third higher, steps 0, 1, 2,
/// -2.
pub open spec fn bass_note(k: int, m: Mode) -> int {
    if k < 12 {
        note_spec(seq![0int, 2, 2, 6][k / 3], (3, 1), m)
    } else {
        note_spec(seq![0int, 1, 2, -2][(k - 12) / 3], (39, 12), m)
    }
}

/// One phrase of the bass on mode `m`: twenty-four notes lasting twelve
/// beats in all.
pub fn bass_cycle(m: Mode) -> (out: Vec<Timed<i64>>)
    ensures
        out.len() == 24,
        span(beats_of(out@)) == 12 * GRID,
        forall|k: int|
            0 <= k < 24 ==> (#[trigger] out@[k]).beat == bass_beat(k) && out@[k].item == bass_note(k, m),
        bass_cycle_ok(m, out@),
{
    let tonic = Interval::new(3, 1);
    let first = line(
        m,
        tonic,
        Ghost((3, 1)),
        &vec![0, 2, 2, 6],
        &vec![Beat { num: 1, den: 4 }, Beat { num: 1, den: 1 }, Beat { num: 1, den: 2 }],
    );
    let raised = interval_add(tonic, Interval::new(3, 12));
    proof {
        lemma_divisor_le(12, raised.den as int);
    }
    let second = line(
        m,
        raised,
        Ghost((39, 12)),
        &vec![0, 1, 2, -2],
        &vec![Beat { num: 1, den: 2 }, Beat { num: 1, den: 2 }, Beat { num: 1, den: 4 }],
    );
    let mut out = first;
    let mut rest = second;
    let ghost f = out@;
    let ghost g = rest@;
    out.append(&mut rest);
    proof {
        assert(out@ == f + g);
        crate::timeline::lemma_beats_of_append(f, g);
        let pa = seq![Beat { num: 1, den: 4 }, Beat { num: 1, den: 1 }, Beat { num: 1, den: 2 }];
        let pb = seq![Beat { num: 1, den: 2 }, Beat { num: 1, den: 2 }, Beat { num: 1, den: 4 }];
        lemma_span_append(repeat(pa, 4), repeat(pb, 4));
        lemma_span_repeat(pa, 4);
        lemma_span_repeat(pb, 4);
        lemma_grid_fractions();
        reveal_with_fuel(span_upto, 4);
        assert(span_upto(pa, 1) == 180180);
        assert(span_upto(pa, 2) == 900900);
        assert(span_upto(pa, 3) == 1261260);
        assert(span_upto(pb, 1) == 360360);
        assert(span_upto(pb, 2) == 720720);
        assert(span_upto(pb, 3) == 900900);
        lemma_span_of(pa, 1261260int);
        lemma_span_of(pb, 900900int);
        lemma_repeat_len(pa, 4);
        lemma_repeat_len(pb, 4);
        assert forall|k: int| 0 <= k < 24 implies (#[trigger] out@[k]).beat == bass_beat(k)
            && out@[k].item == bass_note(k, m) by {
            if k < 12 {
                assert(out@[k] == f[k]);
                assert(beats_of(f)[k] == repeat(pa, 4)[k]);
                lemma_repeat_index(pa, 4, k);
            } else {
                assert(out@[k] == g[k - 12]);
                assert(beats_of(g)[k - 12] == repeat(pb, 4)[k - 12]);
                lemma_repeat_index(pb, 4, k - 12);
                assert((k - 12) % 3 == k % 3);
            }
        }
    }
    out
}

/// The pan position of the `k`-th tinkle, in sixteenths: up from 0 to 15,
/// then back down from 15 to 0, over and over.
pub open spec fn pan_spec(k: int) -> int {
    let j = k % 32;
    if j < 16 {
        j
    } else {
        31 - j
    }
}

/// The pan position of the `k`-th tinkle, in sixteenths (see `pan_spec`).
pub fn pan_step(k: usize) -> (p: i64)
    ensures
        p == pan_spec(k as int),
{
    let j = (k % 32) as i64;
    if j < 16 {
        j
    } else {
        31 - j
    }
}

/// The tinkle's `k`-th note of a phrase on mode `m`: steps 0, 4, 0, 2 eight
/// octaves up, fourteen eighth notes each; then, a minor third higher, steps
/// 0, 3, 4, -4, ten eighth notes each.
pub open spec fn tinkle_note(k: int, m: Mode) -> int {
    if k < 56 {
        note_spec(seq![0int, 4, 0, 2][k / 14], (8, 1), m)
    } else {
        note_spec(seq![0int, 3, 4, -4][(k - 56) / 10], (99, 12), m)
    }
}

/// `count` eighth notes.
fn eighths(count: usize) -> (out: Vec<Beat>)
    ensures
        out.len() == count,
        forall|k: int| 0 <= k < count ==> #[trigger] out@[k] == (Beat { num: 1, den: 8 }),
{
    let mut out: Vec<Beat> = Vec::new();
    let mut k: usize = 0;
    while k < count
        invariant
            k <= count,
            out.len() == k,
            forall|j: int| 0 <= j < k ==> #[trigger] out@[j] == (Beat { num: 1, den: 8 }),
        decreases count - k,
    {
        out.push(Beat { num: 1, den: 8 });
        k = k + 1;
    }
    out
}

/// One phrase of the tinkle on mode `m`: ninety-six eighth notes, each with
/// its pan position, lasting twelve beats in all.
pub fn tinkle_cycle(m: Mode) -> (out: Vec<Timed<(i64, i64)>>)
    ensures
        out.len() == 96,
        span(beats_of(out@)) == 12 * GRID,
        forall|k: int|
            0 <= k < 96 ==> (#[trigger] out@[k]).beat == (Beat { num: 1, den: 8 }) && out@[k].item.0
                == tinkle_note(k, m) && out@[k].item.1 == pan_spec(k),
        tinkle_cycle_ok(m, out@),
{
    let oct = Interval::new(8, 1);
    let e14 = eighths(14);
    let first = line(m, oct, Ghost((8, 1)), &vec![0, 4, 0, 2], &e14);
    let raised = interval_add(oct, Interval::new(3, 12));
    proof {
        lemma_divisor_le(12, raised.den as int);
    }
    let e10 = eighths(10);
    let second = line(m, raised, Ghost((99, 12)), &vec![0, 3, 4, -4], &e10);
    let mut notes = first;
    let mut rest = second;
    let ghost f = notes@;
    let ghost g = rest@;
    notes.append(&mut rest);
    proof {
        assert(notes@ == f + g);
        lemma_repeat_len(e14@, 4);
        lemma_repeat_len(e10@, 4);
    }
    let mut out: Vec<Timed<(i64, i64)>> = Vec::new();
    let mut k: usize = 0;
    while k < notes.len()
        invariant
            k <= notes.len(),
            notes.len() == 96,
            notes@ == f + g,
            f.len() == 56,
            g.len() == 40,
            beats_of(f) == repeat(e14@, 4),
            beats_of(g) == repeat(e10@, 4),
            e14.len() == 14,
            e10.len() == 10,
            forall|j: int| 0 <= j < 14 ==> #[trigger] e14@[j] == (Beat { num: 1, den: 8 }),
            forall|j: int| 0 <= j < 10 ==> #[trigger] e10@[j] == (Beat { num: 1, den: 8 }),
            forall|j: int|
                0 <= j < 56 ==> (#[trigger] f[j]).item == note_spec(seq![0int, 4, 0, 2][j / 14], (8, 1), m),
            forall|j: int|
                0 <= j < 40 ==> (#[trigger] g[j]).item == note_spec(seq![0int, 3, 4, -4][j / 10], (99, 12), m),
            out.len() == k,
            forall|j: int|
                0 <= j < k ==> (#[trigger] out@[j]).beat == (Beat { num: 1, den: 8 }) && out@[j].item.0
                    == tinkle_note(j, m) && out@[j].item.1 == pan_spec(j),
        decreases notes.len() - k,
    {
        let e = notes[k];
        proof {
            if k < 56 {
                assert(notes@[k as int] == f[k as int]);
                assert(beats_of(f)[k as int] == repeat(e14@, 4)[k as int]);
                lemma_repeat_index(e14@, 4, k as int);
            } else {
                assert(notes@[k as int] == g[k - 56]);
                assert(beats_of(g)[k - 56] == repeat(e10@, 4)[k - 56]);
                lemma_repeat_index(e10@, 4, k - 56);
            }
        }
        let p = pan_step(k);
        out.push(Timed { beat: e.beat, item: (e.item, p) });
        k = k + 1;
    }
    proof {
        lemma_grid_fractions();
        assert forall|j: int| 0 <= j < beats_of(out@).len() implies (#[trigger] beats_of(out@)[j]).ticks()
            == 90090 by {
            assert(out@[j].beat == (Beat { num: 1, den: 8 }));
        }
        crate::timeline::lemma_span_uniform(beats_of(out@), 90090);
    }
    out
}

/// The mode of the `c`-th phrase of a voice: Dorian, Mixolydian, minor,
/// and round again.
pub open spec fn phrase_mode(c: int) -> Mode {
    seq![Mode::Dorian, Mode::Mixolydian, MINOR][c % 3]
}

/// The mode of the `c`-th phrase of a voice (see `phrase_mode`).
pub fn phrase_mode_at(c: usize) -> (m: Mode)
    ensures
        m == phrase_mode(c as int),
{
    let i = c % 3;
    if i == 0 {
        Mode::Dorian
    } else if i == 1 {
        Mode::Mixolydian
    } else {
        MINOR
    }
}


/// How many phrases it takes to fill a section `length` long: the length
/// in phrases, rounded up.
pub fn phrases_in(length: Beat) -> (n: u64)
    requires
        length.on_grid(),
        length.ticks() <= u64::MAX,
    ensures
        n * 12 * GRID >= length.ticks(),
        n == 0 || (n - 1) * 12 * GRID < length.ticks(),
{
    proof {
        lemma_grid_fractions();
    }
    let total: u64 = length.num * (GRID / length.den);
    let phrase: u64 = 12 * GRID;
    let whole = total / phrase;
    let n = if total % phrase == 0 {
        whole
    } else {
        whole + 1
    };
    proof {
        let t = total as int;
        let p = phrase as int;
        assert(n * p >= t && (n == 0 || (n - 1) * p < t)) by (nonlinear_arith)
            requires
                p == 8648640,
                0 <= t,
                whole == t / p,
                n == if t % p == 0 { whole as int } else { whole + 1 },
        ;
    }
    n
}

/// When the `c`-th phrase of a voice that plays `n` events a phrase
/// starts, in ticks: the length of all the events before it.
pub open spec fn phrase_start(s: Seq<Beat>, n: int, c: int) -> int {
    span(s.take(n * c))
}

/// Appending one more phrase of twelve beats keeps every phrase starting
/// twelve beats after the one before.
proof fn lemma_phrase_starts(before: Seq<Beat>, cy: Seq<Beat>, n: int, c: int)
    requires
        n > 0,
        c >= 0,
        before.len() == n * c,
        cy.len() == n,
        span(cy) == 12 * GRID,
        forall|k: int| 0 <= k <= c ==> #[trigger] phrase_start(before, n, k) == 12 * k * GRID,
    ensures
        forall|k: int| 0 <= k <= c + 1 ==> #[trigger] phrase_start(before + cy, n, k) == 12 * k * GRID,
{
    assert forall|k: int| 0 <= k <= c + 1 implies #[trigger] phrase_start(before + cy, n, k) == 12 * k
        * GRID by {
        if k <= c {
            assert(0 <= n * k <= n * c) by (nonlinear_arith)
                requires
                    n > 0,
                    0 <= k <= c,
            ;
            assert((before + cy).take(n * k) =~= before.take(n * k));
            assert(phrase_start(before, n, k) == 12 * k * GRID);
        } else {
            assert(n * k == n * c + n) by (nonlinear_arith)
                requires
                    k == c + 1,
            ;
            assert((before + cy).take(n * k) =~= before + cy);
            assert(before.take(n * c) =~= before);
            assert(phrase_start(before, n, c) == 12 * c * GRID);
            lemma_span_append(before, cy);
        }
    }
}

/// The organ for `phrases` phrases, each on the next mode.
pub fn organ_part(phrases: usize) -> (out: Vec<Timed<Vec<i64>>>)
    ensures
        out.len() == 16 * phrases,
        span(beats_of(out@)) == 12 * phrases * GRID,
        forall|j: int|
            0 <= j < out.len() ==> (#[trigger] out@[j]).beat == organ_beat(j % 16) && plays(
                out@[j].item@,
                organ_chord(j % 16, phrase_mode(j / 16)),
            ),
        forall|c: int| 0 <= c <= phrases ==> #[trigger] phrase_start(beats_of(out@), 16, c) == 12 * c * GRID,
        organ_played(out@, phrases as int),
{
    let mut out: Vec<Timed<Vec<i64>>> = Vec::new();
    let mut c: usize = 0;
    assert(phrase_start(beats_of(out@), 16, 0) == 0) by {
        assert(beats_of(out@).take(0) =~= Seq::<Beat>::empty());
    }
    while c < phrases
        invariant
            c <= phrases,
            out.len() == 16 * c,
            span(beats_of(out@)) == 12 * c * GRID,
            forall|j: int|
                0 <= j < out.len() ==> (#[trigger] out@[j]).beat == organ_beat(j % 16) && plays(
                    out@[j].item@,
                    organ_chord(j % 16, phrase_mode(j / 16)),
                ),
            forall|d: int| 0 <= d <= c ==> #[trigger] phrase_start(beats_of(out@), 16, d) == 12 * d * GRID,
        decreases phrases - c,
    {
        let mut cycle = organ_cycle(phrase_mode_at(c));
        let ghost before = out@;
        let ghost cy = cycle@;
        out.append(&mut cycle);
        proof {
            assert(out@ == before + cy);
            lemma_beats_of_append(before, cy);
            lemma_span_append(beats_of(before), beats_of(cy));
            lemma_phrase_starts(beats_of(before), beats_of(cy), 16, c as int);
            assert forall|j: int| 0 <= j < out.len() implies (#[trigger] out@[j]).beat == organ_beat(
                j % 16,
            ) && plays(out@[j].item@, organ_chord(j % 16, phrase_mode(j / 16))) by {
                if j >= 16 * c {
                    assert(j % 16 == j - 16 * c && j / 16 == c) by (nonlinear_arith)
                        requires
                            16 * c <= j < 16 * c + 16,
                    ;
                    assert(out@[j] == cy[j - 16 * c]);
                } else {
                    assert(out@[j] == before[j]);
                }
            }
        }
        c = c + 1;
    }
    out
}

/// The bass for `phrases` phrases, each on the next mode.
pub fn bass_part(phrases: usize) -> (out: Vec<Timed<i64>>)
    ensures
        out.len() == 24 * phrases,
        span(beats_of(out@)) == 12 * phrases * GRID,
        forall|j: int|
            0 <= j < out.len() ==> (#[trigger] out@[j]).beat == bass_beat(j % 24) && out@[j].item
                == bass_note(j % 24, phrase_mode(j / 24)),
        forall|c: int| 0 <= c <= phrases ==> #[trigger] phrase_start(beats_of(out@), 24, c) == 12 * c * GRID,
        bass_played(out@, phrases as int),
{
    let mut out: Vec<Timed<i64>> = Vec::new();
    let mut c: usize = 0;
    assert(phrase_start(beats_of(out@), 24, 0) == 0) by {
        assert(beats_of(out@).take(0) =~= Seq::<Beat>::empty());
    }
    while c < phrases
        invariant
            c <= phrases,
            out.len() == 24 * c,
            span(beats_of(out@)) == 12 * c * GRID,
            forall|j: int|
                0 <= j < out.len() ==> (#[trigger] out@[j]).beat == bass_beat(j % 24) && out@[j].item
                    == bass_note(j % 24, phrase_mode(j / 24)),
            forall|d: int| 0 <= d <= c ==> #[trigger] phrase_start(beats_of(out@), 24, d) == 12 * d * GRID,
        decreases phrases - c,
    {
        let mut cycle = bass_cycle(phrase_mode_at(c));
        let ghost before = out@;
        let ghost cy = cycle@;
        out.append(&mut cycle);
        proof {
            assert(out@ == before + cy);
            lemma_beats_of_append(before, cy);
            lemma_span_append(beats_of(before), beats_of(cy));
            lemma_phrase_starts(beats_of(before), beats_of(cy), 24, c as int);
            assert forall|j: int| 0 <= j < out.len() implies (#[trigger] out@[j]).beat == bass_beat(
                j % 24,
            ) && out@[j].item == bass_note(j % 24, phrase_mode(j / 24)) by {
                if j >= 24 * c {
                    assert(j % 24 == j - 24 * c && j / 24 == c) by (nonlinear_arith)
                        requires
                            24 * c <= j < 24 * c + 24,
                    ;
                    assert(out@[j] == cy[j - 24 * c]);
                } else {
                    assert(out@[j] == before[j]);
                }
            }
        }
        c = c + 1;
    }
    out
}

/// The tinkle for `phrases` phrases, each on the next mode, its pan
/// sweeping back and forth all along.
pub fn tinkle_part(phrases: usize) -> (out: Vec<Timed<(i64, i64)>>)
    ensures
        out.len() == 96 * phrases,
        span(beats_of(out@)) == 12 * phrases * GRID,
        forall|j: int|
            0 <= j < out.len() ==> (#[trigger] out@[j]).beat == (Beat { num: 1, den: 8 }) && out@[j].item.0
                == tinkle_note(j % 96, phrase_mode(j / 96)) && out@[j].item.1 == pan_spec(j),
        forall|c: int| 0 <= c <= phrases ==> #[trigger] phrase_start(beats_of(out@), 96, c) == 12 * c * GRID,
        tinkle_played(out@, phrases as int),
{
    let mut out: Vec<Timed<(i64, i64)>> = Vec::new();
    let mut c: usize = 0;
    assert(phrase_start(beats_of(out@), 96, 0) == 0) by {
        assert(beats_of(out@).take(0) =~= Seq::<Beat>::empty());
    }
    while c < phrases
        invariant
            c <= phrases,
            out.len() == 96 * c,
            span(beats_of(out@)) == 12 * c * GRID,
            forall|j: int|
                0 <= j < out.len() ==> (#[trigger] out@[j]).beat == (Beat { num: 1, den: 8 })
                    && out@[j].item.0 == tinkle_note(j % 96, phrase_mode(j / 96)) && out@[j].item.1
                    == pan_spec(j),
            forall|d: int| 0 <= d <= c ==> #[trigger] phrase_start(beats_of(out@), 96, d) == 12 * d * GRID,
        decreases phrases - c,
    {
        let mut cycle = tinkle_cycle(phrase_mode_at(c));
        let ghost before = out@;
        let ghost cy = cycle@;
        out.append(&mut cycle);
        proof {
            assert(out@ == before + cy);
            lemma_beats_of_append(before, cy);
            lemma_span_append(beats_of(before), beats_of(cy));
            lemma_phrase_starts(beats_of(before), beats_of(cy), 96, c as int);
            assert forall|j: int| 0 <= j < out.len() implies (#[trigger] out@[j]).beat == (Beat {
                num: 1,
                den: 8,
            }) && out@[j].item.0 == tinkle_note(j % 96, phrase_mode(j / 96)) && out@[j].item.1
                == pan_spec(j) by {
                if j >= 96 * c {
                    assert(j % 96 == j - 96 * c && j / 96 == c && (j - 96 * c) % 32 == j % 32)
                        by (nonlinear_arith)
                        requires
                            96 * c <= j < 96 * c + 96,
                    ;
                    assert(out@[j] == cy[j - 96 * c]);
                } else {
                    assert(out@[j] == before[j]);
                }
            }
        }
        c = c + 1;
    }
    out
}

/// The bass's waits over one phrase.
pub open spec fn bass_beats() -> Seq<Beat> {
    Seq::new(24, |k: int| bass_beat(k))
}

/// The bass through a section `length` long: phrase after phrase, each on
/// the next mode, until the section ends.
pub fn bass_for(length: Beat) -> (out: Vec<Timed<i64>>)
    requires
        length.on_grid(),
        length.ticks() <= u64::MAX,
    ensures
        loops(beats_of(out@), bass_beats(), length.ticks()),
        forall|k: int|
            0 <= k < out.len() ==> (#[trigger] out@[k]).item == bass_note(k % 24, phrase_mode(k / 24)),
{
    let part = bass_part(3);
    proof {
        lemma_grid_fractions();
        assert forall|i: int| 0 <= i < part.len() implies (#[trigger] beats_of(part@)[i]).on_grid()
            && beats_of(part@)[i].num > 0 && beats_of(part@)[i].ticks() <= u64::MAX by {
            assert(part@[i].beat == bass_beat(i % 24));
            let b = bass_beat(i % 24);
            assert(b == (Beat { num: 1, den: 4 }) || b == (Beat { num: 1, den: 1 }) || b == (Beat {
                num: 1,
                den: 2,
            }));
            assert(beats_of(part@)[i] == b);
            lemma_small_beat(b);
        }
        assert forall|i: int| 0 <= i < part.len() implies (#[trigger] part@[i]).beat.ticks() <= u64::MAX by {
            assert(beats_of(part@)[i] == part@[i].beat);
        }
    }
    let out = looped(&part, length);
    proof {
        let s = beats_of(out@);
        assert forall|k: int| 0 <= k < s.len() - 1 implies #[trigger] s[k] == bass_beats()[k % 24] by {
            assert(s[k] == beats_of(part@)[k % 72]);
            assert((k % 72) % 24 == k % 24 && 0 <= k % 72 < 72) by (nonlinear_arith)
                requires
                    k >= 0,
            ;
        }
        if s.len() > 0 {
            let k = s.len() - 1;
            assert((k % 72) % 24 == k % 24 && 0 <= k % 72 < 72) by (nonlinear_arith)
                requires
                    k >= 0,
            ;
            assert(beats_of(part@)[k % 72] == bass_beats()[k % 24]);
        }
        assert forall|k: int| 0 <= k < out.len() implies (#[trigger] out@[k]).item == bass_note(
            k % 24,
            phrase_mode(k / 24),
        ) by {
            assert((k % 72) % 24 == k % 24 && ((k % 72) / 24) % 3 == (k / 24) % 3 && 0 <= k % 72 < 72)
                by (nonlinear_arith)
                requires
                    k >= 0,
            ;
        }
    }
    out
}

/// The tinkle through a section `length` long: phrase after phrase, each
/// on the next mode, until the section ends.
pub fn tinkle_for(length: Beat) -> (out: Vec<Timed<(i64, i64)>>)
    requires
        length.on_grid(),
        length.ticks() <= u64::MAX,
    ensures
        loops(beats_of(out@), seq![Beat { num: 1, den: 8 }], length.ticks()),
        forall|k: int|
            0 <= k < out.len() ==> (#[trigger] out@[k]).item.0 == tinkle_note(k % 96, phrase_mode(k / 96))
                && out@[k].item.1 == pan_spec(k),
{
    let part = tinkle_part(3);
    proof {
        lemma_grid_fractions();
        assert forall|i: int| 0 <= i < part.len() implies (#[trigger] beats_of(part@)[i]).on_grid()
            && beats_of(part@)[i].num > 0 && beats_of(part@)[i].ticks() <= u64::MAX by {
            assert(beats_of(part@)[i] == part@[i].beat);
            assert(part@[i].beat == (Beat { num: 1, den: 8 }));
            crate::parts::lemma_small_den_on_grid(8);
            let b = beats_of(part@)[i];
            assert(b.ticks() == 90090) by (nonlinear_arith)
                requires
                    b.num == 1,
                    b.den == 8,
                    b.ticks() == b.num * (GRID as int / b.den as int),
                    GRID as int / 8 == 90090,
            ;
        }
        assert forall|i: int| 0 <= i < part.len() implies (#[trigger] part@[i]).beat.ticks() <= u64::MAX by {
            assert(beats_of(part@)[i] == part@[i].beat);
        }
    }
    let out = looped(&part, length);
    proof {
        let s = beats_of(out@);
        let e = seq![Beat { num: 1, den: 8 }];
        assert forall|k: int| 0 <= k < s.len() - 1 implies #[trigger] s[k] == e[k % 1] by {
            assert(s[k] == beats_of(part@)[k % 288]);
            assert(0 <= k % 288 < 288 && k % 1 == 0) by (nonlinear_arith)
                requires
                    k >= 0,
            ;
        }
        if s.len() > 0 {
            let k = s.len() - 1;
            assert(0 <= k % 288 < 288 && k % 1 == 0) by (nonlinear_arith)
                requires
                    k >= 0,
            ;
            assert(beats_of(part@)[k % 288] == e[k % 1]);
        }
        assert forall|k: int| 0 <= k < out.len() implies (#[trigger] out@[k]).item.0 == tinkle_note(
            k % 96,
            phrase_mode(k / 96),
        ) && out@[k].item.1 == pan_spec(k) by {
            assert((k % 288) % 96 == k % 96 && ((k % 288) / 96) % 3 == (k / 96) % 3 && (k % 288) % 32
                == k % 32 && 0 <= k % 288 < 288) by (nonlinear_arith)
                requires
                    k >= 0,
            ;
        }
    }
    out
}

/// The drums of the kit.
#[derive(Clone, Copy, Debug, PartialEq, Eq, Structural)]
pub enum Drum {
    Kick,
    Snare,
    HiHat,
    Crash,
}

/// A short positive duration, in sixteenths of a beat or coarser.
proof fn lemma_small_beat(b: Beat)
    requires
        1 <= b.den <= 16,
        0 < b.num <= 96,
    ensures
        b.on_grid(),
        0 < b.ticks() <= u64::MAX,
{
    crate::parts::lemma_small_den_on_grid(b.den as int);
    lemma_divisor_le(GRID as int, b.den as int);
    assert(0 < b.ticks() <= u64::MAX) by (nonlinear_arith)
        requires
            1 <= b.den <= GRID,
            0 < b.num <= 96,
            GRID as int % b.den as int == 0,
            b.ticks() == b.num * (GRID as int / b.den as int),
            GRID == 720720,
    ;
}

/// `drum` struck over and over through a section `length` long, waiting
/// each of `beats` in turn.
fn drum_loop(drum: Drum, beats: &Vec<Beat>, length: Beat) -> (out: Vec<Timed<Drum>>)
    requires
        beats.len() > 0,
        forall|i: int| 0 <= i < beats.len() ==> 1 <= (#[trigger] beats@[i]).den <= 16 && 0 < beats@[i].num <= 96,
        length.on_grid(),
        length.ticks() <= u64::MAX,
    ensures
        loops(beats_of(out@), beats@, length.ticks()),
        forall|k: int| 0 <= k < out.len() ==> (#[trigger] out@[k]).item == drum,
{
    let mut pattern: Vec<Timed<Drum>> = Vec::new();
    let mut k: usize = 0;
    while k < beats.len()
        invariant
            k <= beats.len(),
            pattern.len() == k,
            forall|i: int| 0 <= i < k ==> (#[trigger] pattern@[i]).beat == beats@[i] && pattern@[i].item == drum,
        decreases beats.len() - k,
    {
        pattern.push(Timed { beat: beats[k], item: drum });
        k = k + 1;
    }
    proof {
        assert(beats_of(pattern@) =~= beats@);
        assert forall|i: int| 0 <= i < pattern.len() implies (#[trigger] beats_of(pattern@)[i]).on_grid()
            && beats_of(pattern@)[i].num > 0 by {
            lemma_small_beat(beats@[i]);
        }
        assert forall|i: int| 0 <= i < pattern.len() implies (#[trigger] pattern@[i]).beat.ticks()
            <= u64::MAX by {
            lemma_small_beat(beats@[i]);
        }
    }
    let out = looped(&pattern, length);
    proof {
        assert forall|k: int| 0 <= k < out.len() implies (#[trigger] out@[k]).item == drum by {
            assert(0 <= k % (pattern.len() as int) < pattern.len()) by (nonlinear_arith)
                requires
                    pattern.len() > 0,
            ;
        }
    }
    out
}

/// The kick's waits: a quarter, two, one and a half, then one beat.
pub open spec fn kick_beats() -> Seq<Beat> {
    seq![
        Beat { num: 1, den: 4 },
        Beat { num: 2, den: 1 },
        Beat { num: 3, den: 2 },
        Beat { num: 1, den: 1 },
    ]
}

/// The snare's waits: two, one and a half, then one beat.
pub open spec fn snare_beats() -> Seq<Beat> {
    seq![Beat { num: 2, den: 1 }, Beat { num: 3, den: 2 }, Beat { num: 1, den: 1 }]
}

/// The hi-hat's waits: one beat, two quarters, then a half.
pub open spec fn hihat_beats() -> Seq<Beat> {
    seq![
        Beat { num: 1, den: 1 },
        Beat { num: 1, den: 4 },
        Beat { num: 1, den: 4 },
        Beat { num: 1, den: 2 },
    ]
}

/// The crash's wait: two phrases.
pub open spec fn crash_beats() -> Seq<Beat> {
    seq![Beat { num: 96, den: 4 }]
}

/// The kick through a section `length` long.
pub fn kick_part(length: Beat) -> (out: Vec<Timed<Drum>>)
    requires
        length.on_grid(),
        length.ticks() <= u64::MAX,
    ensures
        loops(beats_of(out@), kick_beats(), length.ticks()),
        forall|k: int| 0 <= k < out.len() ==> (#[trigger] out@[k]).item == Drum::Kick,
{
    let beats = vec![
        Beat { num: 1, den: 4 },
        Beat { num: 2, den: 1 },
        Beat { num: 3, den: 2 },
        Beat { num: 1, den: 1 },
    ];
    drum_loop(Drum::Kick, &beats, length)
}

/// The hi-hat through a section `length` long.
pub fn hihat_part(length: Beat) -> (out: Vec<Timed<Drum>>)
    requires
        length.on_grid(),
        length.ticks() <= u64::MAX,
    ensures
        loops(beats_of(out@), hihat_beats(), length.ticks()),
        forall|k: int| 0 <= k < out.len() ==> (#[trigger] out@[k]).item == Drum::HiHat,
{
    let beats = vec![
        Beat { num: 1, den: 1 },
        Beat { num: 1, den: 4 },
        Beat { num: 1, den: 4 },
        Beat { num: 1, den: 2 },
    ];
    drum_loop(Drum::HiHat, &beats, length)
}

/// The crash through a section `length` long: once every two phrases.
pub fn crash_part(length: Beat) -> (out: Vec<Timed<Drum>>)
    requires
        length.on_grid(),
        length.ticks() <= u64::MAX,
    ensures
        loops(beats_of(out@), crash_beats(), length.ticks()),
        forall|k: int| 0 <= k < out.len() ==> (#[trigger] out@[k]).item == Drum::Crash,
{
    let phrase = phrase_length();
    let beats = vec![Beat { num: phrase.num * 2, den: phrase.den }];
    drum_loop(Drum::Crash, &beats, length)
}

/// The snare through a section `length` long: a beat's wait, then its
/// loop through the rest of the section.
pub fn snare_part(length: Beat) -> (out: (Beat, Vec<Timed<Drum>>))
    requires
        length.on_grid(),
        length.ticks() <= u64::MAX,
    ensures
        length.ticks() <= GRID ==> out.0 == length && out.1.len() == 0,
        length.ticks() > GRID ==> {
            &&& out.0 == (Beat { num: 1, den: 1 })
            &&& loops(beats_of(out.1@), snare_beats(), length.ticks() - GRID)
        },
        forall|k: int| 0 <= k < out.1.len() ==> (#[trigger] out.1@[k]).item == Drum::Snare,
{
    proof {
        lemma_grid_fractions();
    }
    let total: u64 = length.num * (GRID / length.den);
    if total <= GRID {
        (length, Vec::new())
    } else {
        let rest = Beat { num: total - GRID, den: GRID };
        proof {
            let x = rest.num as int;
            let g = GRID as int;
            assert(x * (g / g) == x) by (nonlinear_arith)
                requires
                    g > 0,
            ;
        }
        let beats = vec![Beat { num: 2, den: 1 }, Beat { num: 3, den: 2 }, Beat { num: 1, den: 1 }];
        let hits = drum_loop(Drum::Snare, &beats, rest);
        (Beat { num: 1, den: 1 }, hits)
    }
}

/// The voices of the piece.
#[derive(Clone, Copy, Debug, PartialEq, Eq, Structural)]
pub enum Voice {
    Organ,
    Kick,
    Snare,
    HiHat,
    Crash,
    Bass,
    Tinkle,
}

/// A section of the piece: how long it lasts and which voices play in it,
/// each from its own start.
pub struct Section {
    pub length: Beat,
    pub voices: Vec<Voice>,
}

/// The piece: two phrases of organ alone; four phrases of the whole band;
/// then half a phrase of drums and tinkle.
pub fn arrangement() -> (sections: Vec<Section>)
    ensures
        sections.len() == 3,
        forall|i: int| 0 <= i < 3 ==> (#[trigger] sections@[i]).length.on_grid(),
        sections@[0].length.ticks() == 24 * GRID,
        sections@[1].length.ticks() == 48 * GRID,
        sections@[2].length.ticks() == 6 * GRID,
        sections@[0].voices@ == seq![Voice::Organ],
        sections@[1].voices@ == seq![
            Voice::Kick,
            Voice::Snare,
            Voice::HiHat,
            Voice::Crash,
            Voice::Bass,
            Voice::Organ,
            Voice::Tinkle,
        ],
        sections@[2].voices@ == seq![Voice::Kick, Voice::Snare, Voice::HiHat, Voice::Tinkle],
{
    let phrase = phrase_length();
    let opening = beat_mul(phrase, 2);
    let band = beat_mul(phrase, 4);
    let coda = beat_div(phrase, 2);
    proof {
        lemma_grid_fractions();
        lemma_divisor_le(4, opening.den as int);
        lemma_divisor_le(4, band.den as int);
        lemma_divisor_le(8, coda.den as int);
        crate::parts::lemma_small_den_on_grid(opening.den as int);
        crate::parts::lemma_small_den_on_grid(band.den as int);
        crate::parts::lemma_small_den_on_grid(coda.den as int);
        crate::parts::lemma_small_den_on_grid(4);
        crate::parts::lemma_small_den_on_grid(8);
        lemma_ticks_same(opening, 96, 4);
        lemma_ticks_same(band, 192, 4);
        lemma_ticks_same(coda, 48, 8);
    }
    let mut sections: Vec<Section> = Vec::new();
    sections.push(Section { length: opening, voices: vec![Voice::Organ] });
    sections.push(
        Section {
            length: band,
            voices: vec![
                Voice::Kick,
                Voice::Snare,
                Voice::HiHat,
                Voice::Crash,
                Voice::Bass,
                Voice::Organ,
                Voice::Tinkle,
            ],
        },
    );
    sections.push(
        Section {
            length: coda,
            voices: vec![Voice::Kick, Voice::Snare, Voice::HiHat, Voice::Tinkle],
        },
    );
    sections
}

/// The voices go through the modes three phrases at a time: Dorian,
/// Mixolydian and minor each come back every third phrase, in that order
/// from the first phrase on.
pub proof fn law_modes_repeat(c: int)
    requires
        c >= 0,
    ensures
        phrase_mode(c + 3) == phrase_mode(c),
        phrase_mode(c) == Mode::Dorian || phrase_mode(c) == Mode::Mixolydian || phrase_mode(c)
            == MINOR,
        c % 3 == 0 ==> phrase_mode(c) == Mode::Dorian,
        c % 3 == 1 ==> phrase_mode(c) == Mode::Mixolydian,
        c % 3 == 2 ==> phrase_mode(c) == Mode::Aeolian,
{
}

/// The drums loop these waits: the kick a quarter, two, one and a half and
/// one beat; the snare two, one and a half and one beat; the hi-hat one
/// beat, two quarters and a half; the crash two phrases (ninety-six
/// quarters).
pub proof fn law_drum_patterns(s: Seq<Beat>, t: int)
    ensures
        loops(s, kick_beats(), t) == loops(
            s,
            seq![
                Beat { num: 1, den: 4 },
                Beat { num: 2, den: 1 },
                Beat { num: 3, den: 2 },
                Beat { num: 1, den: 1 },
            ],
            t,
        ),
        loops(s, snare_beats(), t) == loops(
            s,
            seq![Beat { num: 2, den: 1 }, Beat { num: 3, den: 2 }, Beat { num: 1, den: 1 }],
            t,
        ),
        loops(s, hihat_beats(), t) == loops(
            s,
            seq![
                Beat { num: 1, den: 1 },
                Beat { num: 1, den: 4 },
                Beat { num: 1, den: 4 },
                Beat { num: 1, den: 2 },
            ],
            t,
        ),
        loops(s, crash_beats(), t) == loops(s, seq![Beat { num: 96, den: 4 }], t),
{
    assert(kick_beats() =~= seq![
        Beat { num: 1, den: 4 },
        Beat { num: 2, den: 1 },
        Beat { num: 3, den: 2 },
        Beat { num: 1, den: 1 },
    ]);
    assert(snare_beats() =~= seq![
        Beat { num: 2, den: 1 },
        Beat { num: 3, den: 2 },
        Beat { num: 1, den: 1 },
    ]);
    assert(hihat_beats() =~= seq![
        Beat { num: 1, den: 1 },
        Beat { num: 1, den: 4 },
        Beat { num: 1, den: 4 },
        Beat { num: 1, den: 2 },
    ]);
    assert(crash_beats() =~= seq![Beat { num: 96, den: 4 }]);
}

/// The pan sweeps back and forth between 0 and 15 every thirty-two notes,
/// taking the same positions on the way up as on the way down.
pub proof fn law_pan_sweeps(k: int)
    requires
        k >= 0,
    ensures
        0 <= pan_spec(k) <= 15,
        pan_spec(k + 32) == pan_spec(k),
        pan_spec(k) == pan_spec(31 - k % 32),
{
}

/// Every phrase of the tinkle, ninety-six notes long, starts its pan
/// sweep afresh: the `j`-th note is panned like the matching note of the
/// first phrase.
pub proof fn law_pan_restarts_each_phrase(j: int)
    requires
        j >= 0,
    ensures
        pan_spec(j) == pan_spec(j % 96),
{
    assert((j % 96) % 32 == j % 32) by (nonlinear_arith)
        requires
            j >= 0,
    ;
}

/// `s` is the organ played for `p` phrases, as `organ_part` returns it.
pub open spec fn organ_played(s: Seq<Timed<Vec<i64>>>, p: int) -> bool {
    &&& s.len() == 16 * p
    &&& forall|c: int| 0 <= c <= p ==> #[trigger] phrase_start(beats_of(s), 16, c) == 12 * c * GRID
    &&& forall|j: int|
        0 <= j < s.len() ==> (#[trigger] s[j]).beat == organ_beat(j % 16) && plays(
            s[j].item@,
            organ_chord(j % 16, phrase_mode(j / 16)),
        )
}

/// `s` is the bass played for `p` phrases, as `bass_part` returns it.
pub open spec fn bass_played(s: Seq<Timed<i64>>, p: int) -> bool {
    &&& s.len() == 24 * p
    &&& forall|c: int| 0 <= c <= p ==> #[trigger] phrase_start(beats_of(s), 24, c) == 12 * c * GRID
    &&& forall|j: int|
        0 <= j < s.len() ==> (#[trigger] s[j]).beat == bass_beat(j % 24) && s[j].item == bass_note(
            j % 24,
            phrase_mode(j / 24),
        )
}

/// `s` is the tinkle played for `p` phrases, as `tinkle_part` returns it.
pub open spec fn tinkle_played(s: Seq<Timed<(i64, i64)>>, p: int) -> bool {
    &&& s.len() == 96 * p
    &&& forall|c: int| 0 <= c <= p ==> #[trigger] phrase_start(beats_of(s), 96, c) == 12 * c * GRID
    &&& forall|j: int|
        0 <= j < s.len() ==> (#[trigger] s[j]).beat == (Beat { num: 1, den: 8 }) && s[j].item.0
            == tinkle_note(j % 96, phrase_mode(j / 96)) && s[j].item.1 == pan_spec(j)
}

/// When the `j`-th event of `s` starts, in ticks.
pub open spec fn start_of(s: Seq<Beat>, j: int) -> int {
    span(s.take(j))
}

/// The phrase, twelve beats long, in which tick `t` falls.
pub open spec fn phrase_at(t: int) -> int {
    t / (12 * GRID as int)
}

/// In a voice of `n` events a phrase whose phrases start every twelve
/// beats, the `j`-th event starts within phrase `j / n`.
proof fn lemma_start_in_phrase(s: Seq<Beat>, n: int, p: int, j: int)
    requires
        n > 0,
        p >= 0,
        s.len() == n * p,
        all_on_grid(s),
        forall|c: int| 0 <= c <= p ==> #[trigger] phrase_start(s, n, c) == 12 * c * GRID,
        0 <= j < s.len(),
    ensures
        phrase_at(start_of(s, j)) == j / n,
{
    let c = j / n;
    assert(0 <= c < p && n * c <= j < n * c + n && n * c + n <= n * p) by (nonlinear_arith)
        requires
            n > 0,
            0 <= j < n * p,
            c == j / n,
    ;
    let lo = s.take(n * c);
    let mid = s.subrange(n * c, j);
    let rest = s.subrange(j, n * c + n);
    assert(s.take(j) =~= lo + mid);
    assert(s.take(n * c + n) =~= s.take(j) + rest);
    assert(n * c + n == n * (c + 1)) by (nonlinear_arith);
    assert(phrase_start(s, n, c) == 12 * c * GRID);
    assert(phrase_start(s, n, c + 1) == 12 * (c + 1) * GRID);
    assert(all_on_grid(mid));
    assert(all_on_grid(rest));
    lemma_span_at_least_len(mid);
    lemma_span_at_least_len(rest);
    lemma_span_append(lo, mid);
    lemma_span_append(s.take(j), rest);
    let t = span(s.take(j));
    assert(t / (12 * GRID as int) == c) by (nonlinear_arith)
        requires
            12 * c * GRID <= t < 12 * (c + 1) * GRID,
            GRID == 720720,
    ;
}

/// Organ, bass and tinkle started together for the same phrases change
/// mode together: every note of each is in the mode of the twelve-beat
/// phrase in which it starts, `phrase_mode(phrase_at(start))`.
pub proof fn law_voices_change_mode_together(
    organ: Seq<Timed<Vec<i64>>>,
    bass: Seq<Timed<i64>>,
    tinkle: Seq<Timed<(i64, i64)>>,
    p: int,
)
    requires
        p >= 0,
        organ_played(organ, p),
        bass_played(bass, p),
        tinkle_played(tinkle, p),
    ensures
        forall|j: int|
            0 <= j < organ.len() ==> plays(
                (#[trigger] organ[j]).item@,
                organ_chord(j % 16, phrase_mode(phrase_at(start_of(beats_of(organ), j)))),
            ),
        forall|j: int|
            0 <= j < bass.len() ==> (#[trigger] bass[j]).item == bass_note(
                j % 24,
                phrase_mode(phrase_at(start_of(beats_of(bass), j))),
            ),
        forall|j: int|
            0 <= j < tinkle.len() ==> (#[trigger] tinkle[j]).item.0 == tinkle_note(
                j % 96,
                phrase_mode(phrase_at(start_of(beats_of(tinkle), j))),
            ),
{
    lemma_grid_fractions();
    crate::parts::lemma_small_den_on_grid(1);
    crate::parts::lemma_small_den_on_grid(2);
    crate::parts::lemma_small_den_on_grid(4);
    crate::parts::lemma_small_den_on_grid(8);
    assert(all_on_grid(beats_of(organ))) by {
        assert forall|i: int| 0 <= i < beats_of(organ).len() implies (#[trigger] beats_of(organ)[i]).on_grid()
            && beats_of(organ)[i].num > 0 by {
            assert(beats_of(organ)[i] == organ[i].beat);
        }
    }
    assert(all_on_grid(beats_of(bass))) by {
        assert forall|i: int| 0 <= i < beats_of(bass).len() implies (#[trigger] beats_of(bass)[i]).on_grid()
            && beats_of(bass)[i].num > 0 by {
            assert(beats_of(bass)[i] == bass[i].beat);
        }
    }
    assert(all_on_grid(beats_of(tinkle))) by {
        assert forall|i: int| 0 <= i < beats_of(tinkle).len() implies (#[trigger] beats_of(tinkle)[i]).on_grid()
            && beats_of(tinkle)[i].num > 0 by {
            assert(beats_of(tinkle)[i] == tinkle[i].beat);
        }
    }
    assert forall|j: int| 0 <= j < organ.len() implies plays(
        (#[trigger] organ[j]).item@,
        organ_chord(j % 16, phrase_mode(phrase_at(start_of(beats_of(organ), j)))),
    ) by {
        lemma_start_in_phrase(beats_of(organ), 16, p, j);
    }
    assert forall|j: int| 0 <= j < bass.len() implies (#[trigger] bass[j]).item == bass_note(
        j % 24,
        phrase_mode(phrase_at(start_of(beats_of(bass), j))),
    ) by {
        lemma_start_in_phrase(beats_of(bass), 24, p, j);
    }
    assert forall|j: int| 0 <= j < tinkle.len() implies (#[trigger] tinkle[j]).item.0 == tinkle_note(
        j % 96,
        phrase_mode(phrase_at(start_of(beats_of(tinkle), j))),
    ) by {
        lemma_start_in_phrase(beats_of(tinkle), 96, p, j);
    }
}

/// A note `step` scale steps above a base of `b0 / b1` octaves, where the
/// base spans `q` whole scale steps and part of the next, is the semitone
/// of scale step `step + q`.
proof fn lemma_note_spec_shift(step: int, b0: int, b1: int, q: int, m: Mode)
    requires
        b1 > 0,
        q * b1 <= 7 * b0 < (q + 1) * b1,
    ensures
        note_spec(step, (b0, b1), m) == step_semitones(m, step + q),
{
    assert(step * b1 + 7 * b0 == (step + q) * b1 + (7 * b0 - q * b1)) by (nonlinear_arith);
    assert((q + 1) * b1 == q * b1 + b1) by (nonlinear_arith);
    vstd::arithmetic::div_mod::lemma_fundamental_div_mod_converse(
        step * b1 + 7 * b0,
        b1,
        step + q,
        7 * b0 - q * b1,
    );
}

/// `s` is one phrase of the organ on mode `m`, as `organ_cycle` returns it.
pub open spec fn organ_cycle_ok(m: Mode, s: Seq<Timed<Vec<i64>>>) -> bool {
    &&& s.len() == 16
    &&& span(beats_of(s)) == 12 * GRID
    &&& forall|k: int|
        0 <= k < 16 ==> (#[trigger] s[k]).beat == organ_beat(k) && plays(s[k].item@, organ_chord(k, m))
}

/// A phrase of the organ on any mode: eight triads five octaves up, on the
/// scale steps 0, 0, 2, 2, 2, 2, 6, 6, held five quarters and a half beat
/// in turn; then eight four-note chords a minor third higher, whose lowest
/// notes fall on the steps 0, 0, 1, 1, 2, 2, -2, -2 (thirty-six steps up),
/// held three quarters and a half beat in turn. Each chord stacks every
/// other step of the scale.
pub proof fn law_organ_phrase(m: Mode, s: Seq<Timed<Vec<i64>>>)
    requires
        organ_cycle_ok(m, s),
    ensures
        forall|k: int| 0 <= k < 8 ==> (#[trigger] s[k]).item@.len() == 3 && s[k].beat == seq![
            Beat { num: 5, den: 4 },
            Beat { num: 1, den: 2 },
        ][k % 2],
        forall|k: int, o: int|
            0 <= k < 8 && 0 <= o < 3 ==> #[trigger] s[k].item@[o] == step_semitones(
                m,
                35 + seq![0int, 0, 2, 2, 2, 2, 6, 6][k] + 2 * o,
            ),
        forall|k: int| 8 <= k < 16 ==> (#[trigger] s[k]).item@.len() == 4 && s[k].beat == seq![
            Beat { num: 3, den: 4 },
            Beat { num: 1, den: 2 },
        ][k % 2],
        forall|k: int, o: int|
            8 <= k < 16 && 0 <= o < 4 ==> #[trigger] s[k].item@[o] == step_semitones(
                m,
                36 + seq![0int, 0, 1, 1, 2, 2, -2, -2][k - 8] + 2 * o,
            ),
{
    assert forall|k: int, o: int| 0 <= k < 8 && 0 <= o < 3 implies #[trigger] s[k].item@[o]
        == step_semitones(m, 35 + seq![0int, 0, 2, 2, 2, 2, 6, 6][k] + 2 * o) by {
        assert(plays(s[k].item@, organ_chord(k, m)));
        assert(s[k].item@[o] == organ_chord(k, m)[o]);
        let r = seq![0int, 2, 2, 6][k / 2];
        assert(organ_chord(k, m)[o] == note_spec(r + 2 * o, (5, 1), m));
        lemma_note_spec_shift(r + 2 * o, 5, 1, 35, m);
        assert(r == seq![0int, 0, 2, 2, 2, 2, 6, 6][k]) by {
            if k == 0 {
            } else if k == 1 {
            } else if k == 2 {
            } else if k == 3 {
            } else if k == 4 {
            } else if k == 5 {
            } else if k == 6 {
            } else {
            }
        }
        if k == 0 {
        } else if k == 1 {
        } else if k == 2 {
        } else if k == 3 {
        } else if k == 4 {
        } else if k == 5 {
        } else if k == 6 {
        } else {
        }
    }
    assert forall|k: int, o: int| 8 <= k < 16 && 0 <= o < 4 implies #[trigger] s[k].item@[o]
        == step_semitones(m, 36 + seq![0int, 0, 1, 1, 2, 2, -2, -2][k - 8] + 2 * o) by {
        assert(plays(s[k].item@, organ_chord(k, m)));
        assert(s[k].item@[o] == organ_chord(k, m)[o]);
        let x = seq![0int, 1, 2, -2][(k - 8) / 2] + 2 * o;
        assert(organ_chord(k, m)[o] == note_spec(x, (63, 12), m));
        lemma_note_spec_shift(x, 63, 12, 36, m);
        assert(seq![0int, 1, 2, -2][(k - 8) / 2] == seq![0int, 0, 1, 1, 2, 2, -2, -2][k - 8]) by {
            if k == 8 {
            } else if k == 9 {
            } else if k == 10 {
            } else if k == 11 {
            } else if k == 12 {
            } else if k == 13 {
            } else if k == 14 {
            } else {
            }
        }
        if k == 8 {
        } else if k == 9 {
        } else if k == 10 {
        } else if k == 11 {
        } else if k == 12 {
        } else if k == 13 {
        } else if k == 14 {
        } else {
        }
    }
    assert forall|k: int| 0 <= k < 8 implies (#[trigger] s[k]).item@.len() == 3 && s[k].beat == seq![
        Beat { num: 5, den: 4 },
        Beat { num: 1, den: 2 },
    ][k % 2] by {
        assert(plays(s[k].item@, organ_chord(k, m)));
    }
    assert forall|k: int| 8 <= k < 16 implies (#[trigger] s[k]).item@.len() == 4 && s[k].beat == seq![
        Beat { num: 3, den: 4 },
        Beat { num: 1, den: 2 },
    ][k % 2] by {
        assert(plays(s[k].item@, organ_chord(k, m)));
    }
}

/// `s` is one phrase of the bass on mode `m`, as `bass_cycle` returns it.
pub open spec fn bass_cycle_ok(m: Mode, s: Seq<Timed<i64>>) -> bool {
    &&& s.len() == 24
    &&& span(beats_of(s)) == 12 * GRID
    &&& forall|k: int|
        0 <= k < 24 ==> (#[trigger] s[k]).beat == bass_beat(k) && s[k].item == bass_note(k, m)
}

/// A phrase of the bass on any mode: three notes each on the scale steps
/// 0, 2, 2, 6 three octaves up (twenty-one steps), held a quarter, a whole
/// and a half beat; then three notes each on the steps twenty-two steps
/// up plus 0, 1, 2, -2 (a minor third higher), held a half, a half and a
/// quarter beat.
pub proof fn law_bass_phrase(m: Mode, s: Seq<Timed<i64>>)
    requires
        bass_cycle_ok(m, s),
    ensures
        forall|k: int|
            0 <= k < 24 ==> (#[trigger] s[k]).item == step_semitones(
                m,
                if k < 3 {
                    21
                } else if k < 9 {
                    23
                } else if k < 12 {
                    27
                } else if k < 15 {
                    22
                } else if k < 18 {
                    23
                } else if k < 21 {
                    24
                } else {
                    20
                },
            ),
        forall|k: int|
            0 <= k < 12 ==> (#[trigger] s[k]).beat == seq![
                Beat { num: 1, den: 4 },
                Beat { num: 1, den: 1 },
                Beat { num: 1, den: 2 },
            ][k % 3],
        forall|k: int|
            12 <= k < 24 ==> (#[trigger] s[k]).beat == seq![
                Beat { num: 1, den: 2 },
                Beat { num: 1, den: 2 },
                Beat { num: 1, den: 4 },
            ][k % 3],
{
    assert forall|k: int| 0 <= k < 24 implies (#[trigger] s[k]).item == step_semitones(
        m,
        if k < 3 {
            21
        } else if k < 9 {
            23
        } else if k < 12 {
            27
        } else if k < 15 {
            22
        } else if k < 18 {
            23
        } else if k < 21 {
            24
        } else {
            20
        },
    ) by {
        if k < 12 {
            let x = seq![0int, 2, 2, 6][k / 3];
            assert(s[k].item == note_spec(x, (3, 1), m));
            lemma_note_spec_shift(x, 3, 1, 21, m);
        } else {
            let x = seq![0int, 1, 2, -2][(k - 12) / 3];
            assert(s[k].item == note_spec(x, (39, 12), m));
            lemma_note_spec_shift(x, 39, 12, 22, m);
        }
    }
}

/// `s` is one phrase of the tinkle on mode `m`, as `tinkle_cycle` returns it.
pub open spec fn tinkle_cycle_ok(m: Mode, s: Seq<Timed<(i64, i64)>>) -> bool {
    &&& s.len() == 96
    &&& span(beats_of(s)) == 12 * GRID
    &&& forall|k: int|
        0 <= k < 96 ==> (#[trigger] s[k]).beat == (Beat { num: 1, den: 8 }) && s[k].item.0
            == tinkle_note(k, m) && s[k].item.1 == pan_spec(k)
}

/// A phrase of the tinkle on any mode: eighth notes, fourteen each on the
/// scale steps 0, 4, 0, 2 eight octaves up (fifty-six steps), then ten
/// each on fifty-seven steps up plus 0, 3, 4, -4 (a minor third higher);
/// the pan rises from 0 to 15 and falls back to 0 every thirty-two notes.
pub proof fn law_tinkle_phrase(m: Mode, s: Seq<Timed<(i64, i64)>>)
    requires
        tinkle_cycle_ok(m, s),
    ensures
        forall|k: int|
            0 <= k < 96 ==> (#[trigger] s[k]).item.0 == step_semitones(
                m,
                if k < 14 {
                    56
                } else if k < 28 {
                    60
                } else if k < 42 {
                    56
                } else if k < 56 {
                    58
                } else if k < 66 {
                    57
                } else if k < 76 {
                    60
                } else if k < 86 {
                    61
                } else {
                    53
                },
            ),
        forall|k: int|
            0 <= k < 96 ==> (#[trigger] s[k]).beat == (Beat { num: 1, den: 8 }) && s[k].item.1 == (
            if k % 32 < 16 {
                k % 32
            } else {
                31 - k % 32
            }),
{
    assert forall|k: int| 0 <= k < 96 implies (#[trigger] s[k]).item.0 == step_semitones(
        m,
        if k < 14 {
            56
        } else if k < 28 {
            60
        } else if k < 42 {
            56
        } else if k < 56 {
            58
        } else if k < 66 {
            57
        } else if k < 76 {
            60
        } else if k < 86 {
            61
        } else {
            53
        },
    ) by {
        if k < 56 {
            let x = seq![0int, 4, 0, 2][k / 14];
            assert(s[k].item.0 == note_spec(x, (8, 1), m));
            lemma_note_spec_shift(x, 8, 1, 56, m);
        } else {
            let x = seq![0int, 3, 4, -4][(k - 56) / 10];
            assert(s[k].item.0 == note_spec(x, (99, 12), m));
            lemma_note_spec_shift(x, 99, 12, 57, m);
        }
    }
}

} // verus!
