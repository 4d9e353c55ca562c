//! The seven modes of the major scale, and the placement of an interval on a
//! mode's scale.
use vstd::prelude::*;
use crate::units::{
    abs, interval_add, lemma_abs_combination, lemma_divisor_le, lemma_floor_same, interval_mul, interval_whole, lemma_trunc_same, same, sum, trunc_div, Interval,
    LIMIT,
};
use euphony::prelude::mode::western::{
    AEOLIAN, DORIAN, IONIAN, LOCRIAN, LYDIAN, MIXOLYDIAN, PHRYGIAN,
};

verus! {

/// One of the seven rotations of the heptatonic scale whose steps are
/// 2, 1, 2, 2, 1, 2, 2 semitones (natural minor first).
#[derive(Clone, Copy, Debug, PartialEq, Eq, Structural)]
pub enum Mode {
    Aeolian,
    Locrian,
    Ionian,
    Dorian,
    Phrygian,
    Lydian,
    Mixolydian,
}

pub const MAJOR: Mode = Mode::Ionian;

pub const MINOR: Mode = Mode::Aeolian;

/// Semitones above the tonic of degree `j` (`0 <= j < 7`) of mode `m`.
pub open spec fn degree_semitones(m: Mode, j: int) -> int {
    let table = match m {
        Mode::Aeolian => seq![0int, 2, 3, 5, 7, 8, 10],
        Mode::Locrian => seq![0int, 1, 3, 5, 6, 8, 10],
        Mode::Ionian => seq![0int, 2, 4, 5, 7, 9, 11],
        Mode::Dorian => seq![0int, 2, 3, 5, 7, 9, 10],
        Mode::Phrygian => seq![0int, 1, 3, 5, 7, 8, 10],
        Mode::Lydian => seq![0int, 2, 4, 6, 7, 9, 11],
        Mode::Mixolydian => seq![0int, 2, 4, 5, 7, 9, 10],
    };
    table[j]
}

/// Semitones above the tonic of scale step `s` (any integer) of mode `m`:
/// the degree `s mod 7` in the octave `floor(s / 7)`.
pub open spec fn step_semitones(m: Mode, s: int) -> int {
    degree_semitones(m, s % 7) + 12 * (s / 7)
}

/// The note number, in semitones above the tonic, of the interval `n / d`
/// octaves on mode `m`: the semitone of scale step `floor(7 * n / d)`.
pub open spec fn note_number(m: Mode, n: int, d: int) -> int {
    step_semitones(m, (7 * n) / d)
}

/// Each degree of a mode lies a little higher than the one before, and
/// all within the octave.
proof fn lemma_degree_step(m: Mode, j: int)
    requires
        0 <= j < 6,
    ensures
        0 <= degree_semitones(m, j) < degree_semitones(m, j + 1) <= 11,
{
    if j == 0 {
    } else if j == 1 {
    } else if j == 2 {
    } else if j == 3 {
    } else if j == 4 {
    } else {
    }
}

/// Degrees rise with their index, from 0 up to at most 11.
proof fn lemma_degree_monotone(m: Mode, j: int, k: int)
    requires
        0 <= j <= k < 7,
    ensures
        0 <= degree_semitones(m, j) <= degree_semitones(m, k) <= 11,
    decreases k - j,
{
    if j < k {
        lemma_degree_step(m, k - 1);
        lemma_degree_monotone(m, j, k - 1);
    } else if k < 6 {
        lemma_degree_step(m, k);
    } else {
        lemma_degree_step(m, 5);
    }
}

/// A step seven higher, one octave up, is twelve semitones higher, on
/// every mode.
pub proof fn law_octave_up(m: Mode, s: int)
    ensures
        step_semitones(m, s + 7) == step_semitones(m, s) + 12,
{
    assert((s + 7) % 7 == s % 7 && (s + 7) / 7 == s / 7 + 1) by (nonlinear_arith);
}

/// A higher scale step never gives a lower semitone.
pub proof fn law_steps_rise(m: Mode, s: int, t: int)
    requires
        s <= t,
    ensures
        step_semitones(m, s) <= step_semitones(m, t),
{
    let (qs, rs) = (s / 7, s % 7);
    let (qt, rt) = (t / 7, t % 7);
    assert(0 <= rs < 7 && 0 <= rt < 7 && qs <= qt && (qs == qt ==> rs <= rt)) by (nonlinear_arith)
        requires
            s <= t,
            qs == s / 7,
            rs == s % 7,
            qt == t / 7,
            rt == t % 7,
    ;
    if qs == qt {
        lemma_degree_monotone(m, rs, rt);
    } else {
        lemma_degree_monotone(m, 0, rs);
        lemma_degree_monotone(m, 0, rt);
        lemma_degree_monotone(m, rs, 6);
    }
}

/// An interval one octave higher gives a note twelve semitones higher.
pub proof fn law_note_octave(m: Mode, n: int, d: int)
    requires
        d > 0,
    ensures
        note_number(m, n + d, d) == note_number(m, n, d) + 12,
{
    assert((7 * (n + d)) / d == (7 * n) / d + 7) by (nonlinear_arith)
        requires
            d > 0,
    ;
    law_octave_up(m, (7 * n) / d);
}

/// A higher interval never gives a lower note.
pub proof fn law_note_rises(m: Mode, n1: int, d1: int, n2: int, d2: int)
    requires
        d1 > 0,
        d2 > 0,
        n1 * d2 <= n2 * d1,
    ensures
        note_number(m, n1, d1) <= note_number(m, n2, d2),
{
    let a = (7 * n1) / d1;
    let b = (7 * n2) / d2;
    assert(a <= b) by (nonlinear_arith)
        requires
            d1 > 0,
            d2 > 0,
            n1 * d2 <= n2 * d1,
            a == (7 * n1) / d1,
            b == (7 * n2) / d2,
    ;
    law_steps_rise(m, a, b);
}

/// The largest divisor of twelve that also divides `st`: their greatest
/// common divisor.
pub open spec fn common12(st: int) -> int {
    if st % 12 == 0 {
        12
    } else if st % 6 == 0 {
        6
    } else if st % 4 == 0 {
        4
    } else if st % 3 == 0 {
        3
    } else if st % 2 == 0 {
        2
    } else {
        1
    }
}

/// `st` semitones as a fraction of an octave, in lowest terms.
pub open spec fn semitones(st: int) -> (int, int) {
    (st / common12(st), 12int / common12(st))
}

/// The interval that `mode * interval` gives for the interval `num / den`:
/// the semitone of scale step `floor(7 * num / den)`, in lowest terms.
#[verifier::opaque]
pub open spec fn scale_expand(m: Mode, num: int, den: int) -> (int, int) {
    semitones(step_semitones(m, (7 * num) / den))
}

/// `scale_expand` depends only on the number that `num / den` denotes.
pub proof fn lemma_scale_expand_same(m: Mode, a: (int, int), b: (int, int))
    requires
        a.1 > 0,
        b.1 > 0,
        same(a, b),
    ensures
        scale_expand(m, a.0, a.1) == scale_expand(m, b.0, b.1),
{
    assert(same((7 * a.0, a.1), (7 * b.0, b.1))) by (nonlinear_arith)
        requires
            a.0 * b.1 == b.0 * a.1,
    ;
    lemma_floor_same((7 * a.0, a.1), (7 * b.0, b.1));
    reveal(scale_expand);
}

/// The interval `scale_expand` gives is the semitone of scale step
/// `floor(7 * num / den)`, as a fraction of an octave.
pub proof fn lemma_scale_expand_value(m: Mode, num: int, den: int)
    requires
        den > 0,
    ensures
        scale_expand(m, num, den).1 > 0,
        same(scale_expand(m, num, den), (step_semitones(m, (7 * num) / den), 12)),
{
    reveal(scale_expand);
    let st = step_semitones(m, (7 * num) / den);
    let g = common12(st);
    assert(st % g == 0 && 12int % g == 0 && g > 0);
    let q = st / g;
    let h = 12int / g;
    assert(st == g * q && 12 == g * h) by (nonlinear_arith)
        requires
            g > 0,
            st % g == 0,
            12int % g == 0,
            q == st / g,
            h == 12int / g,
    ;
    assert(q * 12 == st * h && h > 0) by (nonlinear_arith)
        requires
            st == g * q,
            12 == g * h,
            g > 0,
    ;
}

/// `euphony`'s `Mode * Interval` (the mode's `expand` with its default
/// rounding, to the nearest lower scale tone): places `i`, measured in
/// octaves of seven scale steps, onto the mode's twelve-tone scale.
/// Claimed: the result, which euphony reduces, is exactly
/// `scale_expand(m, i.num, i.den)`, the semitone of scale step
/// `floor(7 * i)` in lowest terms (so it depends only on the number that
/// `i` denotes); its denominator divides 12 and it lies within two octaves
/// of `i`.
#[verifier::external_body]
pub(crate) fn expand(m: Mode, i: Interval) -> (r: Interval)
    requires
        i.modest(),
    ensures
        r.den > 0,
        12int % r.den as int == 0,
        abs(r.num as int) <= 12 * (abs(i.num as int) + 2),
        r.value() == scale_expand(m, i.num as int, i.den as int),
        same(r.value(), (step_semitones(m, (7 * i.num) as int / i.den as int), 12)),
{
    let mode = match m {
        Mode::Aeolian => AEOLIAN,
        Mode::Locrian => LOCRIAN,
        Mode::Ionian => IONIAN,
        Mode::Dorian => DORIAN,
        Mode::Phrygian => PHRYGIAN,
        Mode::Lydian => LYDIAN,
        Mode::Mixolydian => MIXOLYDIAN,
    };
    let s = mode * euphony::prelude::Interval(i.num, i.den);
    Interval { num: s.0, den: s.1 }
}

/// The scale tone of interval `i` on mode `m` (`i * mode`).
pub fn place(i: Interval, m: Mode) -> (r: Interval)
    requires
        i.modest(),
    ensures
        r.den > 0,
        r.value() == scale_expand(m, i.num as int, i.den as int),
        same(r.value(), (step_semitones(m, (7 * i.num) as int / i.den as int), 12)),
{
    expand(m, i)
}

/// Two intervals whose exact sum has a modest representation.
pub open spec fn sum_is_modest(a: Interval, b: Interval) -> bool {
    &&& a.modest()
    &&& b.modest()
    &&& a.den * b.den <= LIMIT
    &&& abs(a.num as int) * b.den + abs(b.num as int) * a.den <= LIMIT
}

/// The scale tone reached from `tonic` by the interval `i` in mode `m`:
/// `(i + tonic) * mode`.
pub fn scale_interval(i: Interval, tonic: Interval, m: Mode) -> (r: Interval)
    requires
        sum_is_modest(i, tonic),
    ensures
        r.den > 0,
        r.value() == ({
            let s = sum(i.value(), tonic.value());
            scale_expand(m, s.0, s.1)
        }),
{
    proof {
        lemma_abs_combination(i.num as int, tonic.num as int, tonic.den as int, i.den as int);
    }
    let s = interval_add(i, tonic);
    proof {
        assert(i.den * tonic.den > 0) by (nonlinear_arith)
            requires
                i.den > 0,
                tonic.den > 0,
        ;
        lemma_divisor_le(i.den * tonic.den, s.den as int);
    }
    let r = expand(m, s);
    let ghost t = sum(i.value(), tonic.value());
    proof {
        assert(t.1 > 0) by (nonlinear_arith)
            requires
                t.1 == i.den * tonic.den,
                i.den > 0,
                tonic.den > 0,
        ;
        lemma_scale_expand_same(m, t, s.value());
    }
    r
}

/// The tonic that every pitch is measured from: unison.
pub fn tonic() -> (t: Interval)
    ensures
        t.num == 0,
        t.den == 1,
{
    Interval::new(0, 1)
}

/// The scale tone of interval `i` above the tonic in `mode` (the pitch that
/// is then tuned to a frequency).
pub fn to_scale(i: Interval, mode: Mode) -> (r: Interval)
    requires
        i.modest(),
    ensures
        r.value() == scale_expand(mode, i.num as int, i.den as int),
{
    let t = tonic();
    assert(sum_is_modest(i, t)) by (nonlinear_arith)
        requires
            i.modest(),
            t.num == 0,
            t.den == 1,
    ;
    let r = scale_interval(i, t, mode);
    assert(sum(i.value(), t.value()) == i.value()) by (nonlinear_arith)
        requires
            t.num == 0,
            t.den == 1,
    ;
    r
}

/// The note number, in semitones, of interval `i` placed on mode `m`:
/// the whole part of twelve times `mode * i`, which is the semitone of
/// scale step `floor(7 * i)`.
pub fn midi_note(i: Interval, m: Mode) -> (r: i64)
    requires
        i.modest(),
    ensures
        r == ({
            let e = scale_expand(m, i.num as int, i.den as int);
            trunc_div(12 * e.0, e.1)
        }),
        r == note_number(m, i.num as int, i.den as int),
        forall|n: int, d: int|
            #![trigger scale_expand(m, n, d)]
            0 < d <= LIMIT && abs(n) <= LIMIT && same((n, d), i.value()) ==> r == trunc_div(
                12 * scale_expand(m, n, d).0,
                scale_expand(m, n, d).1,
            ),
{
    let e = expand(m, i);
    assert(abs(e.num * 12) <= 12 * 12 * (LIMIT + 2)) by (nonlinear_arith)
        requires
            abs(e.num as int) <= 12 * (abs(i.num as int) + 2),
            abs(i.num as int) <= LIMIT,
    ;
    let t = interval_mul(e, 12);
    let r = interval_whole(t);
    proof {
        lemma_trunc_same(t.value(), (e.num * 12, e.den as int));
        let st = step_semitones(m, (7 * i.num) as int / i.den as int);
        assert(same((e.num * 12, e.den as int), (12 * st, 12))) by (nonlinear_arith)
            requires
                e.num * 12 == st * e.den,
        ;
        lemma_trunc_same((e.num * 12, e.den as int), (12 * st, 12));
        assert(trunc_div(12 * st, 12) == st);
        assert forall|n: int, d: int|
            0 < d <= LIMIT && abs(n) <= LIMIT && same((n, d), i.value()) implies r == trunc_div(
            12 * #[trigger] scale_expand(m, n, d).0,
            scale_expand(m, n, d).1,
        ) by {
            lemma_scale_expand_same(m, (n, d), i.value());
        }
    }
    r
}

} // verus!
