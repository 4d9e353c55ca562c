//! "Lean sneeze": a bass line, a lead and drums over a mode that switches
//! between Dorian and major at random, in sections of 32 beats.
use vstd::prelude::*;
use euphony::rand::Scope;
use crate::chance::{drawn, gen_count, one_of, rhythm};
use crate::parts::{beat_fractions, fractions, pair_played, rhythm_pair, steps_between, steps_from, within};
use crate::pitch::Mode;
use crate::timeline::{
    all_on_grid, beats_of, concat, lemma_beats_of_append, lemma_beats_of_repeat, lemma_repeat_len,
    lemma_span_append, lemma_span_repeat, passes, repeat, repeat_vec, span, zip_timed, Timed,
};
use crate::units::{
    abs, beat_mul, interval_add, interval_sub, lemma_divisor_le,
    lemma_same_scaled, lemma_ticks_same, same, sum, Beat, Interval, GRID, lemma_sum_congruent, lemma_sum_swap, lemma_same_trans,
};

verus! {

/// The length of every section: 8 beats, four times.
pub fn section_length() -> (b: Beat)
    ensures
        b.on_grid(),
        b.ticks() == 32 * GRID,
{
    let b = beat_mul(Beat::new(8, 1), 4);
    proof {
        lemma_divisor_le(1, b.den as int);
        lemma_ticks_same(b, 32, 1);
    }
    b
}

/// The modes and the number of beats that each lasts, cycled through.
pub struct ModePlan {
    pub modes: Vec<Mode>,
    pub beats: Vec<Beat>,
}

/// Draws between one and eight modes (Dorian or major) and, for each, a
/// length of 8, 4 or 2 beats.
pub fn plan_modes(rng: &Scope) -> (p: ModePlan)
    ensures
        1 <= p.modes.len() <= 8,
        p.beats.len() == p.modes.len(),
        forall|k: int|
            0 <= k < p.modes.len() ==> #[trigger] p.modes@[k] == Mode::Dorian || p.modes@[k]
                == Mode::Ionian,
        forall|k: int|
            0 <= k < p.beats.len() ==> (#[trigger] p.beats@[k]).den == 1 && (p.beats@[k].num == 8
                || p.beats@[k].num == 4 || p.beats@[k].num == 2),
{
    let count = gen_count(rng, 1, 8);
    let choices = vec![Mode::Dorian, Mode::Ionian];
    let mut modes: Vec<Mode> = Vec::new();
    let mut k: usize = 0;
    while k < count
        invariant
            k <= count,
            choices@ == seq![Mode::Dorian, Mode::Ionian],
            modes.len() == k,
            forall|i: int|
                0 <= i < k ==> #[trigger] modes@[i] == Mode::Dorian || modes@[i] == Mode::Ionian,
        decreases count - k,
    {
        let m = one_of(rng, &choices);
        modes.push(m);
        k = k + 1;
    }
    let lengths = vec![Beat { num: 8, den: 1 }, Beat { num: 4, den: 1 }, Beat { num: 2, den: 1 }];
    let mut beats: Vec<Beat> = Vec::new();
    let mut k: usize = 0;
    while k < count
        invariant
            k <= count,
            lengths@ == seq![Beat { num: 8, den: 1 }, Beat { num: 4, den: 1 }, Beat { num: 2, den: 1 }],
            beats.len() == k,
            forall|i: int|
                0 <= i < k ==> (#[trigger] beats@[i]).den == 1 && (beats@[i].num == 8
                    || beats@[i].num == 4 || beats@[i].num == 2),
        decreases count - k,
    {
        let b = one_of(rng, &lengths);
        beats.push(b);
        k = k + 1;
    }
    ModePlan { modes, beats }
}

/// The `k`-th mode change of the endless cycle: the mode to set and how
/// long it lasts.
pub fn mode_change(p: &ModePlan, k: usize) -> (r: (Mode, Beat))
    requires
        p.modes.len() > 0,
        p.beats.len() == p.modes.len(),
    ensures
        r.0 == p.modes@[k as int % p.modes.len() as int],
        r.1 == p.beats@[k as int % p.modes.len() as int],
{
    let i = k % p.modes.len();
    (p.modes[i], p.beats[i])
}

/// Lowers each step by two octaves.
fn lowered(steps: &Vec<Interval>) -> (out: Vec<Interval>)
    requires
        forall|k: int| 0 <= k < steps.len() ==> (#[trigger] steps@[k]).den == 7 && -4 <= steps@[k].num <= 4,
    ensures
        out.len() == steps.len(),
        forall|k: int|
            0 <= k < out.len() ==> (#[trigger] out@[k]).modest() && same(
                out@[k].value(),
                (steps@[k].num - 14, 7),
            ),
{
    let two = Interval::new(2, 1);
    let mut out: Vec<Interval> = Vec::new();
    let mut k: usize = 0;
    while k < steps.len()
        invariant
            k <= steps.len(),
            two.num == 2 && two.den == 1,
            out.len() == k,
            forall|i: int| 0 <= i < steps.len() ==> (#[trigger] steps@[i]).den == 7 && -4 <= steps@[i].num <= 4,
            forall|i: int|
                0 <= i < k ==> (#[trigger] out@[i]).modest() && same(
                    out@[i].value(),
                    (steps@[i].num - 14, 7),
                ),
        decreases steps.len() - k,
    {
        let s = steps[k];
        let r = interval_sub(s, two);
        proof {
            lemma_divisor_le(7, r.den as int);
        }
        out.push(r);
        k = k + 1;
    }
    out
}

/// A pitch of `m / 7` octaves with `m` from -18 to -10: two octaves below a
/// step of at most four scale steps either way.
pub open spec fn bass_pitch(i: Interval) -> bool {
    &&& i.modest()
    &&& (7 * i.num) as int % i.den as int == 0
    &&& -18 <= (7 * i.num) as int / i.den as int <= -10
}

/// The bass: two random phrases of 8 beats (whole and half beats), each
/// beat carrying a random pitch, played twice.
pub fn bass_part(rng: &Scope) -> (notes: Vec<Timed<Interval>>)
    ensures
        all_on_grid(beats_of(notes@)),
        span(beats_of(notes@)) == 32 * GRID,
        pair_played(beats_of(notes@), seq![Beat { num: 1, den: 1 }, Beat { num: 1, den: 2 }], 8 * GRID, 2),
        exists|n: int| #![trigger passes(notes@, n, 2)] passes(notes@, n, 2),
        forall|k: int| 0 <= k < notes.len() ==> bass_pitch(#[trigger] notes@[k].item),
{
    let length = Beat::new(8, 1);
    let durations = beat_fractions(&vec![1, 2]);
    let b1 = rhythm(rng, length, &durations);
    let s1 = steps_between(rng, b1.len(), -4, 4);
    let i1 = lowered(&s1);
    let b2 = rhythm(rng, length, &durations);
    let s2 = steps_between(rng, b2.len(), -4, 4);
    let i2 = lowered(&s2);
    let z1 = zip_timed(&b1, &i1);
    let z2 = zip_timed(&b2, &i2);
    let phrase = concat(&z1, &z2);
    let notes = repeat_vec(&phrase, 2);
    proof {
        crate::timeline::lemma_repeat_passes(phrase@, 2);
        assert(passes(notes@, phrase.len() as int, 2));
        let d = seq![Beat { num: 1, den: 1 }, Beat { num: 1, den: 2 }];
        assert(pair_played(beats_of(notes@), d, 8 * GRID, 2)) by {
            assert(durations@ =~= d);
            assert(length.ticks() == 8 * GRID);
            lemma_beats_of_append(z1@, z2@);
            lemma_beats_of_repeat(phrase@, 2);
            assert(b1@.take(b1.len() as int) =~= b1@);
            assert(b2@.take(b2.len() as int) =~= b2@);
            assert(beats_of(phrase@) =~= b1@ + b2@);
            assert(drawn(b1@, d, 8 * GRID) && drawn(b2@, d, 8 * GRID) && beats_of(notes@) == repeat(
                b1@ + b2@,
                2,
            ));
        }
        assert(b1@.take(b1.len() as int) =~= b1@);
        assert(b2@.take(b2.len() as int) =~= b2@);
        lemma_beats_of_append(z1@, z2@);
        lemma_beats_of_repeat(phrase@, 2);
        lemma_span_append(b1@, b2@);
        lemma_span_repeat(b1@ + b2@, 2);
        let both = b1@ + b2@;
        assert forall|k: int| 0 <= k < repeat(both, 2).len() implies (#[trigger] repeat(
            both,
            2,
        )[k]).on_grid() && repeat(both, 2)[k].num > 0 by {
            lemma_repeat_len(both, 2);
            crate::timeline::lemma_repeat_index(both, 2, k);
        }
        assert forall|k: int| 0 <= k < notes.len() implies bass_pitch(#[trigger] notes@[k].item) by {
            lemma_repeat_len(phrase@, 2);
            crate::timeline::lemma_repeat_index(phrase@, 2, k);
            let m = k % phrase@.len() as int;
            if m < z1.len() {
                assert(phrase@[m] == z1@[m]);
                assert(same(i1@[m].value(), (s1@[m].num - 14, 7)));
                lemma_same_scaled(i1@[m].num as int, i1@[m].den as int, s1@[m].num - 14, 7);
            } else {
                let j = m - z1.len();
                assert(phrase@[m] == z2@[j]);
                assert(same(i2@[j].value(), (s2@[j].num - 14, 7)));
                lemma_same_scaled(i2@[j].num as int, i2@[j].den as int, s2@[j].num - 14, 7);
            }
        }
    }
    notes
}

/// A drum part: two random phrases of 8 beats drawn from `durations`,
/// played twice.
fn drum_part(rng: &Scope, durations: &Vec<Beat>) -> (beats: Vec<Beat>)
    requires
        crate::parts::durations_ok(durations@),
    ensures
        all_on_grid(beats@),
        within(beats@, durations@),
        span(beats@) == 32 * GRID,
        pair_played(beats@, durations@, 8 * GRID, 2),
{
    let eight = Beat::new(8, 1);
    let beats = rhythm_pair(rng, eight, durations, 2);
    assert(eight.ticks() == 8 * GRID);
    beats
}

/// The kick drum: strokes two or one beats apart, 32 beats in all.
pub fn kick_part(rng: &Scope) -> (beats: Vec<Beat>)
    ensures
        all_on_grid(beats@),
        span(beats@) == 32 * GRID,
        pair_played(beats@, seq![Beat { num: 2, den: 1 }, Beat { num: 1, den: 1 }], 8 * GRID, 2),
{
    let durations = vec![Beat::new(2, 1), Beat::new(1, 1)];
    proof {
        assert(durations@ =~= seq![Beat { num: 2, den: 1 }, Beat { num: 1, den: 1 }]);
    }
    drum_part(rng, &durations)
}

/// The snare: strokes two or three beats apart, 32 beats in all.
pub fn snare_part(rng: &Scope) -> (beats: Vec<Beat>)
    ensures
        all_on_grid(beats@),
        span(beats@) == 32 * GRID,
        pair_played(beats@, seq![Beat { num: 2, den: 1 }, Beat { num: 3, den: 1 }], 8 * GRID, 2),
{
    let durations = vec![Beat::new(2, 1), Beat::new(3, 1)];
    proof {
        assert(durations@ =~= seq![Beat { num: 2, den: 1 }, Beat { num: 3, den: 1 }]);
    }
    drum_part(rng, &durations)
}

/// The hi-hat: strokes a beat or half a beat apart, 32 beats in all.
pub fn hihat_part(rng: &Scope) -> (beats: Vec<Beat>)
    ensures
        all_on_grid(beats@),
        span(beats@) == 32 * GRID,
        pair_played(beats@, seq![Beat { num: 1, den: 1 }, Beat { num: 1, den: 2 }], 8 * GRID, 2),
{
    let durations = beat_fractions(&vec![1, 2]);
    proof {
        assert(durations@ =~= seq![Beat { num: 1, den: 1 }, Beat { num: 1, den: 2 }]);
    }
    drum_part(rng, &durations)
}

/// The lead's material: two random phrases of 4 beats (whole to eighth
/// beats), each beat carrying a scale step from {0, 2, 4, 6, 7, 9} sevenths;
/// a step of 9 marks a rest.
pub fn lead_part(rng: &Scope) -> (notes: Vec<Timed<Interval>>)
    ensures
        all_on_grid(beats_of(notes@)),
        span(beats_of(notes@)) == 8 * GRID,
        forall|k: int|
            0 <= k < notes.len() ==> (#[trigger] notes@[k].item).den == 7 && seq![
                0i64,
                2,
                4,
                6,
                7,
                9,
            ].contains(notes@[k].item.num),
        pair_played(beats_of(notes@), fractions(seq![1u64, 2, 4, 8]), 4 * GRID, 1),
{
    let length = Beat::new(4, 1);
    let durations = beat_fractions(&vec![1, 2, 4, 8]);
    let choices: Vec<i64> = vec![0, 2, 4, 6, 7, 9];
    let b1 = rhythm(rng, length, &durations);
    let i1 = steps_from(rng, b1.len(), &choices);
    let b2 = rhythm(rng, length, &durations);
    let i2 = steps_from(rng, b2.len(), &choices);
    let z1 = zip_timed(&b1, &i1);
    let z2 = zip_timed(&b2, &i2);
    let notes = concat(&z1, &z2);
    proof {
        assert(b1@.take(b1.len() as int) =~= b1@);
        assert(b2@.take(b2.len() as int) =~= b2@);
        lemma_beats_of_append(z1@, z2@);
        lemma_span_append(b1@, b2@);
        assert(choices@ =~= seq![0i64, 2, 4, 6, 7, 9]);
        assert forall|k: int| 0 <= k < notes.len() implies (#[trigger] notes@[k].item).den == 7
            && seq![0i64, 2, 4, 6, 7, 9].contains(notes@[k].item.num) by {
            if k < z1.len() {
                assert(notes@[k] == z1@[k]);
            } else {
                assert(notes@[k] == z2@[k - z1.len()]);
            }
        }
        let d = fractions(seq![1u64, 2, 4, 8]);
        assert(durations@ =~= d);
        assert(length.ticks() == 4 * GRID);
        assert(beats_of(notes@) =~= b1@ + b2@);
        assert(repeat(b1@ + b2@, 1) =~= b1@ + b2@) by {
            assert(repeat(b1@ + b2@, 0) =~= Seq::<Beat>::empty());
        }
        assert(drawn(b1@, d, 4 * GRID) && drawn(b2@, d, 4 * GRID) && beats_of(notes@) == repeat(
            b1@ + b2@,
            1,
        ));
    }
    notes
}

/// `out` is one pass of the lead's melody `part` over `base`: the same
/// beats, a rest where the step is 9, otherwise the pitch `step + base`.
pub open spec fn melody_of(
    part: Seq<Timed<Interval>>,
    base: Interval,
    out: Seq<Timed<Option<Interval>>>,
) -> bool {
    &&& out.len() == part.len()
    &&& beats_of(out) == beats_of(part)
    &&& forall|k: int|
        0 <= k < out.len() ==> {
            let step = #[trigger] part[k].item;
            &&& (step.num == 9 ==> out[k].item is None)
            &&& (step.num != 9 ==> (out[k].item matches Some(p) && p.den > 0 && same(
                p.value(),
                sum(step.value(), base.value()),
            )))
        }
}

/// One pass of the lead's melody over `base`: a rest where the step is 9,
/// otherwise the pitch `step + base`, each held for its beat. The base may
/// be any interval whose sum with a step of up to nine sevenths fits in
/// `i64`.
pub fn lead_melody(part: &Vec<Timed<Interval>>, base: Interval) -> (out: Vec<Timed<Option<Interval>>>)
    requires
        base.den > 0,
        9 * base.den + 7 * abs(base.num as int) <= i64::MAX,
        forall|k: int|
            0 <= k < part.len() ==> (#[trigger] part@[k].item).den == 7 && 0 <= part@[k].item.num <= 9,
    ensures
        melody_of(part@, base, out@),
{
    let mut out: Vec<Timed<Option<Interval>>> = Vec::new();
    let mut k: usize = 0;
    while k < part.len()
        invariant
            k <= part.len(),
            base.den > 0,
            9 * base.den + 7 * abs(base.num as int) <= i64::MAX,
            forall|i: int|
                0 <= i < part.len() ==> (#[trigger] part@[i].item).den == 7 && 0 <= part@[i].item.num
                    <= 9,
            out.len() == k,
            forall|i: int| 0 <= i < k ==> (#[trigger] out@[i]).beat == part@[i].beat,
            forall|i: int|
                0 <= i < k ==> {
                    let step = #[trigger] part@[i].item;
                    &&& (step.num == 9 ==> out@[i].item is None)
                    &&& (step.num != 9 ==> (out@[i].item matches Some(p) && p.den > 0 && same(
                        p.value(),
                        sum(step.value(), base.value()),
                    )))
                },
        decreases part.len() - k,
    {
        let e = part[k];
        if e.item.num == 9 {
            out.push(Timed { beat: e.beat, item: None });
        } else {
            proof {
                assert(abs(e.item.num as int) * base.den + abs(base.num as int) * 7 <= i64::MAX
                    && 7 * base.den <= i64::MAX) by (nonlinear_arith)
                    requires
                        0 <= e.item.num <= 9,
                        base.den > 0,
                        9 * base.den + 7 * abs(base.num as int) <= i64::MAX,
                ;
            }
            let p = interval_add(e.item, base);
            out.push(Timed { beat: e.beat, item: Some(p) });
        }
        k = k + 1;
    }
    assert(beats_of(out@) =~= beats_of(part@));
    out
}

/// The mode changes cycle: after all of the plan's changes, the same ones
/// come again in the same order.
pub proof fn law_mode_changes_cycle(p: ModePlan, k: int)
    requires
        p.modes.len() > 0,
        k >= 0,
    ensures
        p.modes@[(k + p.modes.len()) % p.modes.len() as int] == p.modes@[k % p.modes.len() as int],
        p.beats@[(k + p.modes.len()) % p.modes.len() as int] == p.beats@[k % p.modes.len() as int],
{
    let n = p.modes.len() as int;
    assert((k + n) % n == k % n) by (nonlinear_arith)
        requires
            n > 0,
            k >= 0,
    ;
}

/// Two leads that play the same material over bases `a` and `b` keep the
/// same beats and the same rests, and each sounding pitch of the first is
/// the matching pitch of the second shifted by `a - b`.
pub proof fn law_leads_share_rhythm(
    part: Seq<Timed<Interval>>,
    a: Interval,
    b: Interval,
    oa: Seq<Timed<Option<Interval>>>,
    ob: Seq<Timed<Option<Interval>>>,
)
    requires
        a.den > 0,
        b.den > 0,
        forall|k: int| 0 <= k < part.len() ==> (#[trigger] part[k].item).den > 0,
        melody_of(part, a, oa),
        melody_of(part, b, ob),
    ensures
        oa.len() == ob.len(),
        beats_of(oa) == beats_of(ob),
        forall|k: int| 0 <= k < oa.len() ==> ((#[trigger] oa[k]).item is None <==> ob[k].item is None),
        forall|k: int|
            0 <= k < oa.len() ==> ((#[trigger] oa[k]).item matches Some(pa) ==> (ob[k].item matches Some(
                pb,
            ) && same(sum(pa.value(), b.value()), sum(pb.value(), a.value())))),
{
    assert forall|k: int| 0 <= k < oa.len() implies ((#[trigger] oa[k]).item is None <==> ob[k].item
        is None) by {
        let step = part[k].item;
        if step.num == 9 {
        } else {
        }
    }
    assert forall|k: int| 0 <= k < oa.len() implies ((#[trigger] oa[k]).item matches Some(pa) ==> (
    ob[k].item matches Some(pb) && same(sum(pa.value(), b.value()), sum(pb.value(), a.value())))) by {
        let step = part[k].item;
        if let Some(pa) = oa[k].item {
            assert(step.num != 9);
            let pb = ob[k].item->0;
            let sv = step.value();
            let sa = sum(sv, a.value());
            let sb = sum(sv, b.value());
            assert(sa.1 > 0 && sb.1 > 0) by (nonlinear_arith)
                requires
                    sv.1 > 0,
                    a.den > 0,
                    b.den > 0,
                    sa.1 == sv.1 * a.den,
                    sb.1 == sv.1 * b.den,
            ;
            lemma_sum_congruent(pa.value(), sa, b.value());
            lemma_sum_congruent(sb, pb.value(), a.value());
            lemma_sum_swap(sv, a.value(), b.value());
            let x = sum(pa.value(), b.value());
            let y = sum(sa, b.value());
            let z = sum(sb, a.value());
            let w = sum(pb.value(), a.value());
            assert(x.1 > 0 && y.1 > 0 && z.1 > 0 && w.1 > 0) by (nonlinear_arith)
                requires
                    pa.den > 0,
                    pb.den > 0,
                    sa.1 > 0,
                    sb.1 > 0,
                    a.den > 0,
                    b.den > 0,
                    x.1 == pa.den * b.den,
                    y.1 == sa.1 * b.den,
                    z.1 == sb.1 * a.den,
                    w.1 == pb.den * a.den,
            ;
            lemma_same_trans(x, y, z);
            lemma_same_trans(x, z, w);
        }
    }
}

} // verus!
