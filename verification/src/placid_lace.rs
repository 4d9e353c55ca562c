//! "Placid lace": drum-machine samples and a bass that wanders over random
//! modes, every part four phrases of nine beats long.
use vstd::prelude::*;
use euphony::rand::Scope;
use crate::chance::{drawn, fine, gen_below, one_of, rhythm};
use crate::parts::{durations_of, loop_played, lemma_small_den_on_grid, rhythm_loop};
use crate::pitch::{
    expand, lemma_scale_expand_same, lemma_scale_expand_value, scale_expand, step_semitones, Mode,
};
use crate::timeline::{
    all_on_grid, beats_of, concat, lemma_beats_of_append, lemma_repeat_index, lemma_repeat_len,
    lemma_span_append, lemma_span_repeat, passes, repeat, repeat_vec, span,
    zip_timed, Timed,
};
use crate::units::{
    abs, beat_div, diff, interval_add, interval_sub, lemma_abs_combination, lemma_diff_congruent,
    lemma_divisor_le, lemma_same_trans, lemma_ticks_same, same, sum, Beat, Interval, GRID,
    };

verus! {

/// The length of a phrase: nine beats.
pub fn phrase() -> (b: Beat)
    ensures
        b.num == 9,
        b.den == 1,
        fine(b),
        b.ticks() == 9 * GRID,
{
    Beat::new(9, 1)
}

/// The bass drum: one random phrase of whole, double and half beats,
/// played four times.
pub fn kick_part(rng: &Scope) -> (beats: Vec<Beat>)
    ensures
        all_on_grid(beats@),
        span(beats@) == 36 * GRID,
        loop_played(beats@, seq![Beat { num: 1, den: 1 }, Beat { num: 2, den: 1 }, Beat { num: 1, den: 2 }], 9 * GRID, 4),
{
    let durations = durations_of(&vec![1, 2, 1], &vec![1, 1, 2]);
    proof {
        assert(durations@ =~= seq![Beat { num: 1, den: 1 }, Beat { num: 2, den: 1 }, Beat { num: 1, den: 2 }]);
    }
    rhythm_loop(rng, phrase(), &durations, 4)
}

/// The snare: one random phrase of one to four beats, played four times
/// (each stroke comes after its wait).
pub fn snare_part(rng: &Scope) -> (beats: Vec<Beat>)
    ensures
        all_on_grid(beats@),
        span(beats@) == 36 * GRID,
        loop_played(
            beats@,
            seq![
                Beat { num: 1, den: 1 },
                Beat { num: 2, den: 1 },
                Beat { num: 3, den: 1 },
                Beat { num: 4, den: 1 },
            ],
            9 * GRID,
            4,
        ),
{
    let durations = durations_of(&vec![1, 2, 3, 4], &vec![1, 1, 1, 1]);
    proof {
        assert(durations@ =~= seq![
                Beat { num: 1, den: 1 },
                Beat { num: 2, den: 1 },
                Beat { num: 3, den: 1 },
                Beat { num: 4, den: 1 },
            ]);
    }
    rhythm_loop(rng, phrase(), &durations, 4)
}

/// The hi-hat's durations: half and quarter beats.
pub open spec fn hihat_durations() -> Seq<Beat> {
    seq![Beat { num: 1, den: 2 }, Beat { num: 1, den: 4 }]
}

/// `beats` is four rhythms drawn from the hi-hat's durations, each a
/// quarter phrase long, played one after the other, the four played four
/// times.
pub open spec fn quarters_played(beats: Seq<Beat>) -> bool {
    exists|a: Seq<Beat>, b: Seq<Beat>, c: Seq<Beat>, d: Seq<Beat>|
        #![trigger drawn(a, hihat_durations(), 9 * (GRID / 4)), drawn(b, hihat_durations(), 9 * (GRID / 4)), drawn(c, hihat_durations(), 9 * (GRID / 4)), drawn(d, hihat_durations(), 9 * (GRID / 4))]
        drawn(a, hihat_durations(), 9 * (GRID / 4)) && drawn(b, hihat_durations(), 9 * (GRID / 4))
            && drawn(c, hihat_durations(), 9 * (GRID / 4)) && drawn(d, hihat_durations(), 9 * (
        GRID / 4)) && beats == repeat(a + b + c + d, 4)
}

/// The hi-hat: four random quarter phrases of half and quarter beats, one
/// after the other, played four times.
pub fn hihat_part(rng: &Scope) -> (beats: Vec<Beat>)
    ensures
        all_on_grid(beats@),
        span(beats@) == 36 * GRID,
        quarters_played(beats@),
{
    let q = beat_div(phrase(), 4);
    proof {
        lemma_divisor_le(4, q.den as int);
        lemma_small_den_on_grid(q.den as int);
        lemma_ticks_same(q, 9, 4);
    }
    let durations = durations_of(&vec![1, 1], &vec![2, 4]);
    let b1 = rhythm(rng, q, &durations);
    let b2 = rhythm(rng, q, &durations);
    let b3 = rhythm(rng, q, &durations);
    let b4 = rhythm(rng, q, &durations);
    let b12 = concat(&b1, &b2);
    let b123 = concat(&b12, &b3);
    let once = concat(&b123, &b4);
    let beats = repeat_vec(&once, 4);
    proof {
        lemma_span_append(b1@, b2@);
        lemma_span_append(b12@, b3@);
        lemma_span_append(b123@, b4@);
        lemma_span_repeat(once@, 4);
        assert(all_on_grid(once@)) by {
            assert forall|k: int| 0 <= k < once.len() implies (#[trigger] once@[k]).on_grid()
                && once@[k].num > 0 by {
                if k < b123.len() {
                    if k < b12.len() {
                        if k >= b1.len() {
                            assert(once@[k] == b2@[k - b1.len()]);
                        }
                    } else {
                        assert(once@[k] == b3@[k - b12.len()]);
                    }
                } else {
                    assert(once@[k] == b4@[k - b123.len()]);
                }
            }
        }
        lemma_repeat_len(once@, 4);
        assert forall|k: int| 0 <= k < beats.len() implies (#[trigger] beats@[k]).on_grid()
            && beats@[k].num > 0 by {
            lemma_repeat_index(once@, 4, k);
        }
        assert(span(beats@) == 4 * (4 * (9 * (GRID as int / 4))));
        let hd = hihat_durations();
        assert(durations@ =~= hd);
        assert(once@ =~= b1@ + b2@ + b3@ + b4@);
        assert(drawn(b1@, hd, 9 * (GRID / 4)) && drawn(b2@, hd, 9 * (GRID / 4)) && drawn(b3@, hd, 9 * (GRID / 4)) && drawn(b4@, hd, 9 * (GRID / 4)));
    }
    beats
}

/// The notes that the bass may start from on its first and second half
/// phrases.
pub open spec fn first_notes() -> Seq<Interval> {
    seq![
        Interval { num: 0, den: 1 },
        Interval { num: 1, den: 7 },
        Interval { num: 2, den: 7 },
        Interval { num: 3, den: 7 },
        Interval { num: 4, den: 7 },
    ]
}

pub open spec fn second_notes() -> Seq<Interval> {
    seq![
        Interval { num: -2i64, den: 7 },
        Interval { num: -1i64, den: 7 },
        Interval { num: 0, den: 1 },
        Interval { num: 2, den: 7 },
        Interval { num: 3, den: 7 },
        Interval { num: 4, den: 7 },
    ]
}

/// The modes that the bass may wander through.
pub open spec fn bass_modes() -> Seq<Mode> {
    seq![Mode::Aeolian, Mode::Dorian, Mode::Lydian, Mode::Locrian, Mode::Phrygian]
}

/// The bass's material: a phrase of notes (two random half phrases, each
/// beat carrying a random note), and for each of two passes a root and a mode.
pub struct BassPlan {
    pub phrase: Vec<Timed<Interval>>,
    pub roots: Vec<Interval>,
    pub modes: Vec<Mode>,
}

/// A note of at most four sevenths of an octave either way.
pub open spec fn small_note(i: Interval) -> bool {
    0 < i.den <= 7 && abs(i.num as int) <= 4
}

pub open spec fn bass_plan_ok(p: BassPlan) -> bool {
    &&& all_on_grid(beats_of(p.phrase@))
    &&& span(beats_of(p.phrase@)) == 9 * GRID
    &&& forall|k: int| 0 <= k < p.phrase.len() ==> small_note(#[trigger] p.phrase@[k].item)
    &&& p.roots.len() == 2
    &&& forall|k: int|
        0 <= k < 2 ==> (#[trigger] p.roots@[k]).den == 7 && -4 <= p.roots@[k].num < 4
    &&& p.modes.len() == 2
    &&& forall|k: int| 0 <= k < 2 ==> bass_modes().contains(#[trigger] p.modes@[k])
}

/// One note per beat, drawn from `choices`.
fn notes_from(rng: &Scope, count: usize, choices: &Vec<Interval>) -> (notes: Vec<Interval>)
    requires
        choices.len() > 0,
        forall|k: int| 0 <= k < choices.len() ==> small_note(#[trigger] choices@[k]),
    ensures
        notes.len() == count,
        forall|k: int| 0 <= k < count ==> small_note(#[trigger] notes@[k]) && choices@.contains(notes@[k]),
{
    let mut notes: Vec<Interval> = Vec::new();
    let mut k: usize = 0;
    while k < count
        invariant
            k <= count,
            choices.len() > 0,
            forall|i: int| 0 <= i < choices.len() ==> small_note(#[trigger] choices@[i]),
            notes.len() == k,
            forall|i: int| 0 <= i < k ==> small_note(#[trigger] notes@[i]) && choices@.contains(notes@[i]),
        decreases count - k,
    {
        let n = one_of(rng, choices);
        notes.push(n);
        k = k + 1;
    }
    notes
}

/// The bass's durations: two beats, one beat and half a beat.
pub open spec fn bass_durations() -> Seq<Beat> {
    seq![Beat { num: 2, den: 1 }, Beat { num: 1, den: 1 }, Beat { num: 1, den: 2 }]
}

/// Draws the bass's material: two half phrases of four and a half beats,
/// the notes of the first drawn from `first_notes`, those of the second
/// from `second_notes`.
pub fn plan_bass(rng: &Scope) -> (p: BassPlan)
    ensures
        bass_plan_ok(p),
        exists|h: int|
            #![trigger p.phrase@.take(h)]
            0 <= h <= p.phrase.len() && drawn(beats_of(p.phrase@.take(h)), bass_durations(), 9 * (GRID
                / 2)) && drawn(beats_of(p.phrase@.skip(h)), bass_durations(), 9 * (GRID / 2)) && (
            forall|k: int| 0 <= k < h ==> first_notes().contains(#[trigger] p.phrase@[k].item)) && (
            forall|k: int|
                h <= k < p.phrase.len() ==> second_notes().contains(#[trigger] p.phrase@[k].item)),
{
    let half = beat_div(phrase(), 2);
    proof {
        lemma_divisor_le(2, half.den as int);
        lemma_small_den_on_grid(half.den as int);
        lemma_ticks_same(half, 9, 2);
    }
    let durations = durations_of(&vec![2, 1, 1], &vec![1, 1, 2]);
    let b1 = rhythm(rng, half, &durations);
    let b2 = rhythm(rng, half, &durations);
    let firsts = vec![
        Interval { num: 0, den: 1 },
        Interval { num: 1, den: 7 },
        Interval { num: 2, den: 7 },
        Interval { num: 3, den: 7 },
        Interval { num: 4, den: 7 },
    ];
    let seconds = vec![
        Interval { num: -2i64, den: 7 },
        Interval { num: -1, den: 7 },
        Interval { num: 0, den: 1 },
        Interval { num: 2, den: 7 },
        Interval { num: 3, den: 7 },
        Interval { num: 4, den: 7 },
    ];
    proof {
        assert forall|k: int| 0 <= k < firsts.len() implies small_note(#[trigger] firsts@[k]) by {}
        assert forall|k: int| 0 <= k < seconds.len() implies small_note(#[trigger] seconds@[k]) by {}
    }
    let n1 = notes_from(rng, b1.len(), &firsts);
    let n2 = notes_from(rng, b2.len(), &seconds);
    let r1 = gen_below(rng, -4, 4);
    let r2 = gen_below(rng, -4, 4);
    let roots = vec![Interval::new(r1, 7), Interval::new(r2, 7)];
    let modes_of = vec![Mode::Aeolian, Mode::Dorian, Mode::Lydian, Mode::Locrian, Mode::Phrygian];
    let m1 = one_of(rng, &modes_of);
    let m2 = one_of(rng, &modes_of);
    let modes = vec![m1, m2];
    let z1 = zip_timed(&b1, &n1);
    let z2 = zip_timed(&b2, &n2);
    let phrase = concat(&z1, &z2);
    proof {
        assert(b1@.take(b1.len() as int) =~= b1@);
        assert(b2@.take(b2.len() as int) =~= b2@);
        lemma_beats_of_append(z1@, z2@);
        lemma_span_append(b1@, b2@);
        assert(modes_of@ =~= bass_modes());
        assert forall|k: int| 0 <= k < phrase.len() implies small_note(#[trigger] phrase@[k].item) by {
            if k < z1.len() {
                assert(phrase@[k] == z1@[k]);
            } else {
                assert(phrase@[k] == z2@[k - z1.len()]);
            }
        }
        assert forall|k: int| 0 <= k < phrase.len() implies (#[trigger] beats_of(phrase@)[k]).on_grid()
            && beats_of(phrase@)[k].num > 0 by {
            if k < z1.len() {
                assert(beats_of(phrase@)[k] == b1@[k]);
            } else {
                assert(beats_of(phrase@)[k] == b2@[k - z1.len()]);
            }
        }
        let h = z1.len() as int;
        assert(phrase@.take(h) =~= z1@);
        assert(beats_of(phrase@.take(h)) =~= b1@);
        assert(span(beats_of(phrase@.take(h))) == 9 * (GRID / 2));
        assert(firsts@ =~= first_notes());
        assert(seconds@ =~= second_notes());
        assert forall|k: int| 0 <= k < h implies first_notes().contains(#[trigger] phrase@[k].item) by {
            assert(phrase@[k] == z1@[k]);
        }
        assert forall|k: int| h <= k < phrase.len() implies second_notes().contains(
            #[trigger] phrase@[k].item,
        ) by {
            assert(phrase@[k] == z2@[k - h]);
        }
    }
    let plan = BassPlan { phrase, roots, modes };
    proof {
        let h = z1.len() as int;
        assert(durations@ =~= bass_durations());
        assert(plan.phrase@.skip(h) =~= z2@);
        assert(beats_of(plan.phrase@.skip(h)) =~= b2@);
        assert(half.ticks() == 9 * (GRID / 2));
        assert(0 <= h <= plan.phrase.len() && drawn(beats_of(plan.phrase@.take(h)), bass_durations(), 9
            * (GRID / 2)) && drawn(beats_of(plan.phrase@.skip(h)), bass_durations(), 9 * (GRID / 2))
            && (forall|k: int| 0 <= k < h ==> first_notes().contains(#[trigger] plan.phrase@[k].item))
            && (forall|k: int|
            h <= k < plan.phrase.len() ==> second_notes().contains(#[trigger] plan.phrase@[k].item)));
    }
    plan
}

/// The pitch of bass note `note` on pass `r`: the note less the pass's
/// root raised two octaves, placed on the pass's mode.
pub open spec fn bass_pitch(p: BassPlan, r: int, note: Interval) -> (int, int) {
    let s = diff(note.value(), sum(p.roots@[r % 2].value(), (2, 1)));
    scale_expand(p.modes@[r % 2], s.0, s.1)
}

/// The bass: the phrase four times over, the passes alternating between
/// the two roots and modes.
pub fn bass_notes(p: &BassPlan) -> (notes: Vec<Timed<Interval>>)
    requires
        bass_plan_ok(*p),
    ensures
        notes.len() == 4 * p.phrase.len(),
        forall|k: int|
            0 <= k < notes.len() ==> {
                let e = p.phrase@[k % p.phrase.len() as int];
                &&& (#[trigger] notes@[k]).beat == e.beat
                &&& notes@[k].item.value() == bass_pitch(*p, k / p.phrase.len() as int, e.item)
            },
        bass_notes_ok(*p, notes@),
        span(beats_of(notes@)) == 36 * GRID,
{
    let len = p.phrase.len();
    proof {
        crate::timeline::lemma_span_at_least_len(beats_of(p.phrase@));
    }
    let two = Interval::new(2, 1);
    let mut notes: Vec<Timed<Interval>> = Vec::new();
    let mut k: usize = 0;
    while k < 4 * len
        invariant
            k <= 4 * len,
            len <= 9 * GRID,
            len == p.phrase.len(),
            bass_plan_ok(*p),
            two.num == 2 && two.den == 1,
            notes.len() == k,
            forall|i: int|
                0 <= i < k ==> {
                    let e = p.phrase@[i % len as int];
                    &&& (#[trigger] notes@[i]).beat == e.beat
                    &&& notes@[i].item.value() == bass_pitch(*p, i / len as int, e.item)
                },
        decreases 4 * len - k,
    {
        let r = k / len;
        let e = p.phrase[k % len];
        let root = p.roots[r % 2];
        let mode = p.modes[r % 2];
        proof {
            lemma_abs_combination(root.num as int, 2, 1, root.den as int);
        }
        let shifted = interval_add(root, two);
        proof {
            lemma_divisor_le(7, shifted.den as int);
            assert(small_note(e.item));
            lemma_abs_combination(e.item.num as int, shifted.num as int, shifted.den as int, e.item.den as int);
            assert(abs(e.item.num as int) * shifted.den <= 28) by (nonlinear_arith)
                requires
                    abs(e.item.num as int) <= 4,
                    0 < shifted.den <= 7,
            ;
            assert(abs(shifted.num as int) * e.item.den <= 126) by (nonlinear_arith)
                requires
                    abs(shifted.num as int) <= 18,
                    0 < e.item.den <= 7,
            ;
        }
        proof {
            assert(e.item.den * shifted.den <= 49) by (nonlinear_arith)
                requires
                    0 < shifted.den <= 7,
                    0 < e.item.den <= 7,
            ;
        }
        let x = interval_sub(e.item, shifted);
        proof {
            assert(e.item.den * shifted.den > 0) by (nonlinear_arith)
                requires
                    0 < shifted.den,
                    0 < e.item.den,
            ;
            lemma_divisor_le(e.item.den * shifted.den, x.den as int);
        }
        let pitch = expand(mode, x);
        proof {
            let t = sum(root.value(), (2, 1));
            let s = diff(e.item.value(), t);
            lemma_diff_congruent(e.item.value(), shifted.value(), t);
            lemma_same_trans(x.value(), diff(e.item.value(), shifted.value()), s);
            lemma_abs_combination(e.item.num as int, t.0, t.1, e.item.den as int);
            assert(abs(e.item.num as int) * t.1 <= 28) by (nonlinear_arith)
                requires
                    abs(e.item.num as int) <= 4,
                    t.1 == root.den * 1,
                    root.den == 7,
            ;
            assert(abs(t.0) * e.item.den <= 126) by (nonlinear_arith)
                requires
                    t.0 == root.num * 1 + 2 * root.den,
                    -4 <= root.num < 4,
                    root.den == 7,
                    0 < e.item.den <= 7,
            ;
            assert(0 < s.1 <= 49) by (nonlinear_arith)
                requires
                    s.1 == e.item.den * t.1,
                    t.1 == root.den * 1,
                    root.den == 7,
                    0 < e.item.den <= 7,
            ;
            assert(same((s.0, s.1), x.value()));
            lemma_scale_expand_same(mode, s, x.value());
        }
        notes.push(Timed { beat: e.beat, item: pitch });
        k = k + 1;
    }
    proof {
        let bs = beats_of(notes@);
        let once = beats_of(p.phrase@);
        lemma_repeat_len(once, 4);
        assert forall|j: int| 0 <= j < bs.len() implies bs[j] == repeat(once, 4)[j] by {
            lemma_repeat_index(once, 4, j);
        }
        assert(bs =~= repeat(once, 4));
        lemma_span_repeat(once, 4);
    }
    notes
}

/// `s` is the bass of the plan `p`, as `bass_notes` returns it.
pub open spec fn bass_notes_ok(p: BassPlan, s: Seq<Timed<Interval>>) -> bool {
    &&& s.len() == 4 * p.phrase.len()
    &&& forall|k: int|
        0 <= k < s.len() ==> {
            let e = p.phrase@[k % p.phrase.len() as int];
            &&& (#[trigger] s[k]).beat == e.beat
            &&& s[k].item.value() == bass_pitch(p, k / p.phrase.len() as int, e.item)
        }
}

/// Rounding down `7 * (n / d - c)` gives `floor(7 * n / d) - 7 * c`, for a
/// whole number `c` (here written over the denominator seven).
proof fn lemma_floor_shift(en: int, ed: int, c: int)
    requires
        ed > 0,
    ensures
        (7 * (en * 7 - c * ed)) / (ed * 7) == (7 * en) / ed - c,
{
    let q = (7 * en) / ed;
    let rem = (7 * en) % ed;
    vstd::arithmetic::div_mod::lemma_fundamental_div_mod(7 * en, ed);
    vstd::arithmetic::div_mod::lemma_mod_bound(7 * en, ed);
    assert(7 * (en * 7 - c * ed) == (q - c) * (ed * 7) + 7 * rem && 0 <= 7 * rem < ed * 7)
        by (nonlinear_arith)
        requires
            7 * en == ed * q + rem,
            0 <= rem < ed,
    ;
    vstd::arithmetic::div_mod::lemma_fundamental_div_mod_converse(
        7 * (en * 7 - c * ed),
        ed * 7,
        q - c,
        7 * rem,
    );
}

/// Every note of the bass is the phrase's note on that beat less the
/// pass's root and two octaves: pass `r` sounds, for a phrase note `n`,
/// the semitone of scale step `floor(7 * n) - 7 * root - 14` on the pass's
/// mode, the roots and modes alternating from pass to pass; each note
/// keeps the phrase's duration.
pub proof fn law_bass_notes(p: BassPlan, s: Seq<Timed<Interval>>)
    requires
        bass_plan_ok(p),
        bass_notes_ok(p, s),
    ensures
        s.len() == 4 * p.phrase.len(),
        forall|k: int|
            0 <= k < s.len() ==> {
                let e = p.phrase@[k % p.phrase.len() as int];
                let r = (k / p.phrase.len() as int) % 2;
                &&& (#[trigger] s[k]).beat == e.beat
                &&& s[k].item.den > 0
                &&& same(
                    s[k].item.value(),
                    (
                        step_semitones(
                            p.modes@[r],
                            (7 * e.item.num) / e.item.den as int - p.roots@[r].num - 14,
                        ),
                        12,
                    ),
                )
            },
{
    assert forall|k: int| 0 <= k < s.len() implies {
        let e = p.phrase@[k % p.phrase.len() as int];
        let r = (k / p.phrase.len() as int) % 2;
        &&& (#[trigger] s[k]).item.den > 0
        &&& same(
            s[k].item.value(),
            (
                step_semitones(
                    p.modes@[r],
                    (7 * e.item.num) / e.item.den as int - p.roots@[r].num - 14,
                ),
                12,
            ),
        )
    } by {
        let len = p.phrase.len() as int;
        let e = p.phrase@[k % len];
        let r = (k / len) % 2;
        assert(0 <= k % len < len);
        assert(small_note(e.item));
        let root = p.roots@[r];
        assert(root.den == 7);
        let t = sum(root.value(), (2, 1));
        let rn = root.num as int;
        assert(root.value() == (rn, 7int));
        assert(t == (rn * 1 + 2 * 7, 7 * 1int));
        assert(rn * 1 == rn) by (nonlinear_arith);
        assert(t == (root.num + 14, 7int));
        let x = diff(e.item.value(), t);
        let en = e.item.num as int;
        let ed = e.item.den as int;
        assert(x == (en * 7 - (root.num + 14) * ed, ed * 7));
        lemma_floor_shift(en, ed, root.num + 14);
        assert(ed * 7 > 0);
        lemma_scale_expand_value(p.modes@[r], x.0, x.1);
    }
}

/// What the parts draw from: the hi-hat half and quarter beats; the bass
/// two, one and half beats; the bass's first half phrase the notes 0, 1/7,
/// 2/7, 3/7 and 4/7 of an octave, its second half phrase -2/7, -1/7, 0,
/// 2/7, 3/7 and 4/7; and each pass of the bass one of the modes Aeolian,
/// Dorian, Lydian, Locrian and Phrygian.
pub proof fn law_choices(s: Seq<Beat>, t: int, i: Interval, m: Mode)
    ensures
        drawn(s, hihat_durations(), t) == drawn(
            s,
            seq![Beat { num: 1, den: 2 }, Beat { num: 1, den: 4 }],
            t,
        ),
        drawn(s, bass_durations(), t) == drawn(
            s,
            seq![Beat { num: 2, den: 1 }, Beat { num: 1, den: 1 }, Beat { num: 1, den: 2 }],
            t,
        ),
        first_notes().contains(i) <==> i == (Interval { num: 0, den: 1 }) || i == (Interval {
            num: 1,
            den: 7,
        }) || i == (Interval { num: 2, den: 7 }) || i == (Interval { num: 3, den: 7 }) || i == (
        Interval { num: 4, den: 7 }),
        second_notes().contains(i) <==> i == (Interval { num: -2i64, den: 7 }) || i == (Interval {
            num: -1i64,
            den: 7,
        }) || i == (Interval { num: 0, den: 1 }) || i == (Interval { num: 2, den: 7 }) || i == (
        Interval { num: 3, den: 7 }) || i == (Interval { num: 4, den: 7 }),
        bass_modes().contains(m) <==> m == Mode::Aeolian || m == Mode::Dorian || m == Mode::Lydian
            || m == Mode::Locrian || m == Mode::Phrygian,
{
    assert(hihat_durations() =~= seq![Beat { num: 1, den: 2 }, Beat { num: 1, den: 4 }]);
    assert(bass_durations() =~= seq![
        Beat { num: 2, den: 1 },
        Beat { num: 1, den: 1 },
        Beat { num: 1, den: 2 },
    ]);
    let f = first_notes();
    assert(f[0] == Interval { num: 0, den: 1 } && f[1] == Interval { num: 1, den: 7 } && f[2]
        == Interval { num: 2, den: 7 } && f[3] == Interval { num: 3, den: 7 } && f[4] == Interval {
        num: 4,
        den: 7,
    });
    let g = second_notes();
    assert(g[0] == Interval { num: -2i64, den: 7 } && g[1] == Interval { num: -1i64, den: 7 } && g[2]
        == Interval { num: 0, den: 1 } && g[3] == Interval { num: 2, den: 7 } && g[4] == Interval {
        num: 3,
        den: 7,
    } && g[5] == Interval { num: 4, den: 7 });
    let b = bass_modes();
    assert(b[0] == Mode::Aeolian && b[1] == Mode::Dorian && b[2] == Mode::Lydian && b[3]
        == Mode::Locrian && b[4] == Mode::Phrygian);
}

} // verus!
