//! Building blocks shared by the compositions: rhythms played several times
//! over, and random choices made once per beat.
use vstd::prelude::*;
use euphony::rand::Scope;
use crate::chance::{drawn, fine, gen_between, one_of, rhythm};
use crate::timeline::{
    all_on_grid, concat, repeat, lemma_repeat_len, lemma_span_append, lemma_span_repeat, repeat_vec, span,
};
use crate::units::{Beat, Interval, GRID};

verus! {

/// Every duration is accepted by `rhythm` and is positive.
pub open spec fn durations_ok(durations: Seq<Beat>) -> bool {
    &&& durations.len() > 0
    &&& forall|i: int| 0 <= i < durations.len() ==> fine(#[trigger] durations[i]) && durations[i].num > 0
}

/// Every beat lasts no longer than the longest of `durations`.
pub open spec fn within(beats: Seq<Beat>, durations: Seq<Beat>) -> bool {
    forall|i: int|
        0 <= i < beats.len() ==> exists|j: int|
            0 <= j < durations.len() && (#[trigger] beats[i]).ticks() <= durations[j].ticks()
}

/// `beats` is two rhythms drawn from `durations`, each `t` ticks long,
/// played one after the other, and the pair played `times` times.
pub open spec fn pair_played(beats: Seq<Beat>, durations: Seq<Beat>, t: int, times: nat) -> bool {
    exists|a: Seq<Beat>, b: Seq<Beat>|
        #![trigger drawn(a, durations, t), drawn(b, durations, t)]
        drawn(a, durations, t) && drawn(b, durations, t) && beats == repeat(a + b, times)
}

/// `beats` is one rhythm drawn from `durations`, `t` ticks long, played
/// `times` times.
pub open spec fn loop_played(beats: Seq<Beat>, durations: Seq<Beat>, t: int, times: nat) -> bool {
    exists|once: Seq<Beat>|
        #![trigger drawn(once, durations, t)]
        drawn(once, durations, t) && beats == repeat(once, times)
}

/// The fractions of a beat `1 / d` for each `d` of `dens`.
pub open spec fn fractions(dens: Seq<u64>) -> Seq<Beat> {
    Seq::new(dens.len(), |k: int| Beat { num: 1, den: dens[k] })
}

/// Two random rhythms, each filling `length`, played one after the other,
/// and the pair repeated `times` times.
pub fn rhythm_pair(rng: &Scope, length: Beat, durations: &Vec<Beat>, times: usize) -> (beats: Vec<
    Beat,
>)
    requires
        fine(length),
        durations_ok(durations@),
    ensures
        all_on_grid(beats@),
        within(beats@, durations@),
        span(beats@) == 2 * times * length.ticks(),
        pair_played(beats@, durations@, length.ticks(), times as nat),
{
    let first = rhythm(rng, length, durations);
    let second = rhythm(rng, length, durations);
    let both = concat(&first, &second);
    proof {
        lemma_span_append(first@, second@);
    }
    let beats = repeat_vec(&both, times);
    proof {
        lemma_span_repeat(both@, times as nat);
        lemma_repeat_len(both@, times as nat);
        assert(span(beats@) == 2 * times * length.ticks()) by (nonlinear_arith)
            requires
                span(beats@) == times * span(both@),
                span(both@) == 2 * length.ticks(),
        ;
        assert forall|k: int| 0 <= k < beats.len() implies (#[trigger] beats@[k]).on_grid()
            && beats@[k].num > 0 && exists|j: int|
            0 <= j < durations.len() && beats@[k].ticks() <= durations[j].ticks() by {
            crate::timeline::lemma_repeat_index(both@, times as nat, k);
            let m = k % both@.len() as int;
            if m < first.len() {
                assert(both@[m] == first@[m]);
            } else {
                assert(both@[m] == second@[m - first.len()]);
            }
        }
        assert(drawn(first@, durations@, length.ticks()) && drawn(second@, durations@, length.ticks())
            && beats@ == repeat(first@ + second@, times as nat));
    }
    beats
}

/// A random rhythm filling `length`, repeated `times` times.
pub fn rhythm_loop(rng: &Scope, length: Beat, durations: &Vec<Beat>, times: usize) -> (beats: Vec<
    Beat,
>)
    requires
        fine(length),
        durations_ok(durations@),
    ensures
        all_on_grid(beats@),
        within(beats@, durations@),
        span(beats@) == times * length.ticks(),
        loop_played(beats@, durations@, length.ticks(), times as nat),
{
    let once = rhythm(rng, length, durations);
    let beats = repeat_vec(&once, times);
    proof {
        lemma_span_repeat(once@, times as nat);
        lemma_repeat_len(once@, times as nat);
        assert forall|k: int| 0 <= k < beats.len() implies (#[trigger] beats@[k]).on_grid()
            && beats@[k].num > 0 && exists|j: int|
            0 <= j < durations.len() && beats@[k].ticks() <= durations[j].ticks() by {
            crate::timeline::lemma_repeat_index(once@, times as nat, k);
        }
        assert(drawn(once@, durations@, length.ticks()) && beats@ == repeat(once@, times as nat));
    }
    beats
}

/// One scale step `Interval(x, 7)` per beat, `x` drawn from `choices`.
pub fn steps_from(rng: &Scope, count: usize, choices: &Vec<i64>) -> (steps: Vec<Interval>)
    requires
        choices.len() > 0,
    ensures
        steps.len() == count,
        forall|k: int|
            0 <= k < count ==> (#[trigger] steps@[k]).den == 7 && choices@.contains(steps@[k].num),
{
    let mut steps: Vec<Interval> = Vec::new();
    let mut k: usize = 0;
    while k < count
        invariant
            k <= count,
            choices.len() > 0,
            steps.len() == k,
            forall|i: int|
                0 <= i < k ==> (#[trigger] steps@[i]).den == 7 && choices@.contains(steps@[i].num),
        decreases count - k,
    {
        let x = one_of(rng, choices);
        steps.push(Interval::new(x, 7));
        k = k + 1;
    }
    steps
}

/// One scale step `Interval(x, 7)` per beat, `x` drawn from `lo` to `hi`.
pub fn steps_between(rng: &Scope, count: usize, lo: i64, hi: i64) -> (steps: Vec<Interval>)
    requires
        lo <= hi,
    ensures
        steps.len() == count,
        forall|k: int| 0 <= k < count ==> (#[trigger] steps@[k]).den == 7 && lo <= steps@[k].num <= hi,
{
    let mut steps: Vec<Interval> = Vec::new();
    let mut k: usize = 0;
    while k < count
        invariant
            k <= count,
            lo <= hi,
            steps.len() == k,
            forall|i: int| 0 <= i < k ==> (#[trigger] steps@[i]).den == 7 && lo <= steps@[i].num <= hi,
        decreases count - k,
    {
        let x = gen_between(rng, lo, hi);
        steps.push(Interval::new(x, 7));
        k = k + 1;
    }
    steps
}

/// The glide after the `k`-th pass: rising from 1 to `top`, then falling
/// back to 2, over and over (1, 2, 3, 2, ... for a top of 3).
pub open spec fn glide_spec(k: int, top: int) -> int {
    let j = k % (2 * top - 2);
    if j < top {
        j + 1
    } else {
        2 * top - 1 - j
    }
}

/// The glide time of a lead's pitch, in hundredths of a second, after its
/// `k`-th pass (see `glide_spec`).
pub fn glide_centiseconds(k: usize, top: u64) -> (c: u64)
    requires
        2 <= top <= 1000,
    ensures
        c == glide_spec(k as int, top as int),
{
    let period = (2 * top - 2) as usize;
    let j = (k % period) as u64;
    if j < top {
        j + 1
    } else {
        2 * top - 1 - j
    }
}

/// Durations `nums[k] / dens[k]` beats, with both parts from 1 to 16.
pub fn durations_of(nums: &Vec<u64>, dens: &Vec<u64>) -> (beats: Vec<Beat>)
    requires
        nums.len() > 0,
        dens.len() == nums.len(),
        forall|k: int| 0 <= k < nums.len() ==> 1 <= #[trigger] nums@[k] <= 16,
        forall|k: int| 0 <= k < dens.len() ==> 1 <= #[trigger] dens@[k] <= 16,
    ensures
        durations_ok(beats@),
        beats.len() == nums.len(),
        forall|k: int|
            0 <= k < nums.len() ==> (#[trigger] beats@[k]).num == nums@[k] && beats@[k].den == dens@[k],
{
    let mut beats: Vec<Beat> = Vec::new();
    let mut k: usize = 0;
    while k < nums.len()
        invariant
            k <= nums.len(),
            dens.len() == nums.len(),
            forall|i: int| 0 <= i < nums.len() ==> 1 <= #[trigger] nums@[i] <= 16,
            forall|i: int| 0 <= i < dens.len() ==> 1 <= #[trigger] dens@[i] <= 16,
            beats.len() == k,
            forall|i: int|
                0 <= i < k ==> (#[trigger] beats@[i]).num == nums@[i] && beats@[i].den == dens@[i]
                    && fine(beats@[i]) && beats@[i].num > 0,
        decreases nums.len() - k,
    {
        proof {
            lemma_small_den_on_grid(dens@[k as int] as int);
        }
        beats.push(Beat::new(nums[k], dens[k]));
        k = k + 1;
    }
    beats
}

/// Every denominator from 1 to 16 divides the grid.
pub proof fn lemma_small_den_on_grid(d: int)
    requires
        1 <= d <= 16,
    ensures
        GRID as int % d == 0,
{
    if d == 1 {
    } else if d == 2 {
    } else if d == 3 {
    } else if d == 4 {
    } else if d == 5 {
    } else if d == 6 {
    } else if d == 7 {
    } else if d == 8 {
    } else if d == 9 {
    } else if d == 10 {
    } else if d == 11 {
    } else if d == 12 {
    } else if d == 13 {
    } else if d == 14 {
    } else if d == 15 {
    } else {
    }
}

/// Fractions of a beat: `1 / d` for each `d` given (`euphony`'s `Beat::vec`).
pub fn beat_fractions(dens: &Vec<u64>) -> (beats: Vec<Beat>)
    requires
        forall|k: int| 0 <= k < dens.len() ==> 1 <= #[trigger] dens@[k] <= 16,
    ensures
        beats@ == fractions(dens@),
        forall|k: int| 0 <= k < dens.len() ==> fine(#[trigger] beats@[k]),
{
    let mut beats: Vec<Beat> = Vec::new();
    let mut k: usize = 0;
    while k < dens.len()
        invariant
            k <= dens.len(),
            beats.len() == k,
            forall|i: int| 0 <= i < dens.len() ==> 1 <= #[trigger] dens@[i] <= 16,
            forall|i: int|
                0 <= i < k ==> (#[trigger] beats@[i]).num == 1 && beats@[i].den == dens@[i] && fine(
                    beats@[i],
                ),
        decreases dens.len() - k,
    {
        proof {
            lemma_small_den_on_grid(dens@[k as int] as int);
        }
        beats.push(Beat::new(1, dens[k]));
        k = k + 1;
    }
    assert(beats@ =~= fractions(dens@));
    beats
}

/// The glide repeats every `2 * top - 2` passes and always lies between 1
/// and `top`: each cycle starts at 1, rises by one a pass up to `top`,
/// then falls by one a pass back to 2.
pub proof fn law_glide_cycles(k: int, top: int)
    requires
        k >= 0,
        top >= 2,
    ensures
        glide_spec(k + 2 * top - 2, top) == glide_spec(k, top),
        1 <= glide_spec(k, top) <= top,
        k % (2 * top - 2) == 0 ==> glide_spec(k, top) == 1,
        k % (2 * top - 2) < top - 1 ==> glide_spec(k + 1, top) == glide_spec(k, top) + 1,
        k % (2 * top - 2) >= top - 1 ==> glide_spec(k + 1, top) == glide_spec(k, top) - 1,
{
    let p = 2 * top - 2;
    assert((k + p) % p == k % p && 0 <= k % p < p) by (nonlinear_arith)
        requires
            p > 0,
            k >= 0,
    ;
    assert((k + 1) % p == if k % p == p - 1 {
        0
    } else {
        k % p + 1
    }) by (nonlinear_arith)
        requires
            p > 0,
            k >= 0,
    {
        let q = k / p;
        let r = k % p;
        assert(k == q * p + r && 0 <= r < p);
        if r == p - 1 {
            assert(k + 1 == (q + 1) * p + 0);
            vstd::arithmetic::div_mod::lemma_fundamental_div_mod_converse(k + 1, p, q + 1, 0);
        } else {
            vstd::arithmetic::div_mod::lemma_fundamental_div_mod_converse(k + 1, p, q, r + 1);
        }
    }
}

} // verus!
