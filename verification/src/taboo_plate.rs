//! "Taboo plate": an arpeggiated bass, a lead and sampled percussion over
//! modes that change every eight beats, four bars of eight beats long.
use vstd::prelude::*;
use euphony::rand::Scope;
use crate::chance::{drawn, gen_any, gen_index, one_of, rhythm};
use crate::parts::{beat_fractions, fractions, loop_played, steps_between};
use crate::pitch::{Mode, MAJOR, MINOR};
use crate::timeline::{
    all_on_grid, beats_of, lemma_beats_of_repeat, lemma_repeat_index, lemma_repeat_len,
    lemma_repeat_passes, lemma_span_repeat, lemma_span_uniform, passes, repeat, repeat_vec, span,
    Timed,
};
use crate::units::{
    beat_sub, interval_sub, lemma_divisor_le, lemma_grid_fractions, lemma_ticks_same, same,
    Beat, Interval, GRID,
};

verus! {

/// Number of eight-beat bars that each part plays.
pub const LEN: usize = 4;

/// The modes in turn, each held for eight beats: minor, major, Dorian,
/// Mixolydian, sixteen times over.
pub fn mode_sequence() -> (modes: Vec<Mode>)
    ensures
        modes.len() == 64,
        forall|k: int|
            0 <= k < 64 ==> #[trigger] modes@[k] == seq![MINOR, MAJOR, Mode::Dorian, Mode::Mixolydian][k
                % 4],
{
    let cycle = vec![MINOR, MAJOR, Mode::Dorian, Mode::Mixolydian];
    let mut modes: Vec<Mode> = Vec::new();
    let mut k: usize = 0;
    while k < 64
        invariant
            k <= 64,
            cycle@ == seq![MINOR, MAJOR, Mode::Dorian, Mode::Mixolydian],
            modes.len() == k,
            forall|i: int| 0 <= i < k ==> #[trigger] modes@[i] == cycle@[i % 4],
        decreases 64 - k,
    {
        modes.push(cycle[k % 4]);
        k = k + 1;
    }
    modes
}

/// The mode changes of the piece: minor, major, Dorian and Mixolydian in
/// turn, each held for eight beats, sixteen times over.
pub fn mode_changes() -> (changes: Vec<Timed<Mode>>)
    ensures
        changes.len() == 64,
        forall|k: int|
            0 <= k < 64 ==> (#[trigger] changes@[k]).item == seq![MINOR, MAJOR, Mode::Dorian, Mode::Mixolydian][k
                % 4] && changes@[k].beat == (Beat { num: 8, den: 1 }),
        span(beats_of(changes@)) == 512 * GRID,
{
    let modes = mode_sequence();
    let mut changes: Vec<Timed<Mode>> = Vec::new();
    let mut k: usize = 0;
    while k < modes.len()
        invariant
            k <= modes.len(),
            modes.len() == 64,
            forall|i: int|
                0 <= i < 64 ==> #[trigger] modes@[i] == seq![MINOR, MAJOR, Mode::Dorian, Mode::Mixolydian][i
                    % 4],
            changes.len() == k,
            forall|i: int|
                0 <= i < k ==> (#[trigger] changes@[i]).item == modes@[i] && changes@[i].beat == (Beat {
                    num: 8,
                    den: 1,
                }),
        decreases modes.len() - k,
    {
        changes.push(Timed { beat: Beat { num: 8, den: 1 }, item: modes[k] });
        k = k + 1;
    }
    proof {
        lemma_grid_fractions();
        assert forall|i: int| 0 <= i < beats_of(changes@).len() implies (#[trigger] beats_of(changes@)[i]).ticks()
            == 8 * GRID by {
            assert(beats_of(changes@)[i] == changes@[i].beat);
        }
        lemma_span_uniform(beats_of(changes@), 8 * GRID);
    }
    changes
}

/// The snare: a beat's wait, then a stroke every two beats, sixteen times.
pub fn snare_part() -> (plan: (Beat, Vec<Beat>))
    ensures
        plan.0 == (Beat { num: 1, den: 1 }),
        plan.1.len() == 16,
        forall|k: int| 0 <= k < 16 ==> #[trigger] plan.1@[k] == (Beat { num: 2, den: 1 }),
        span(plan.1@) == 32 * GRID,
{
    let beats = kick_beats();
    assert forall|k: int| 0 <= k < 16 implies #[trigger] beats@[k] == (Beat { num: 2, den: 1 }) by {
        assert(beats@[k].num == 2 && beats@[k].den == 1);
    }
    (Beat { num: 1, den: 1 }, beats)
}

/// The bass: for each of the `LEN` bars and each depth of vibrato from 0 to
/// 7, the steps 0, 2 and 4 (in sevenths of an octave) two octaves down,
/// each a third of a beat long.
pub fn bass_notes() -> (notes: Vec<Timed<(Interval, u64)>>)
    ensures
        notes.len() == 96,
        forall|k: int|
            0 <= k < 96 ==> {
                let n = #[trigger] notes@[k];
                &&& n.beat.num == 1 && n.beat.den == 3
                &&& n.item.1 == (k / 3) % 8
                &&& n.item.0.modest()
                &&& same(n.item.0.value(), (2 * (k % 3) - 14, 7))
            },
        all_on_grid(beats_of(notes@)),
        span(beats_of(notes@)) == 32 * GRID,
{
    let third = Beat::new(1, 3);
    let two = Interval::new(2, 1);
    let mut notes: Vec<Timed<(Interval, u64)>> = Vec::new();
    let mut k: usize = 0;
    while k < 96
        invariant
            k <= 96,
            third.num == 1 && third.den == 3,
            two.num == 2 && two.den == 1,
            notes.len() == k,
            forall|j: int|
                0 <= j < k ==> {
                    let n = #[trigger] notes@[j];
                    &&& n.beat.num == 1 && n.beat.den == 3
                    &&& n.item.1 == (j / 3) % 8
                    &&& n.item.0.modest()
                    &&& same(n.item.0.value(), (2 * (j % 3) - 14, 7))
                },
        decreases 96 - k,
    {
        let i = (k % 3) as i64;
        let v = ((k / 3) % 8) as u64;
        let step = interval_sub(Interval::new(i * 2, 7), two);
        proof {
            lemma_divisor_le(7, step.den as int);
        }
        notes.push(Timed { beat: third, item: (step, v) });
        k = k + 1;
    }
    proof {
        let bs = beats_of(notes@);
        assert forall|j: int| 0 <= j < bs.len() implies (#[trigger] bs[j]).ticks() == GRID / 3
            && bs[j].on_grid() && bs[j].num > 0 by {
            assert(bs[j] == notes@[j].beat);
        }
        lemma_span_uniform(bs, (GRID / 3) as int);
    }
    notes
}

/// One note of the lead: a step in sevenths of an octave, an index into
/// the four loudness levels (0.9, 0.75, 0.5, 0.25) and a sample index.
#[derive(Clone, Copy, Debug)]
pub struct LeadNote {
    pub step: Interval,
    pub level: usize,
    pub sample: usize,
}

/// The lead: a random rhythm of 8 beats (whole and third beats) whose beats
/// carry a random step from -4 to 4, loudness and sample, played `LEN` times.
pub fn lead_part(rng: &Scope) -> (notes: Vec<Timed<LeadNote>>)
    ensures
        all_on_grid(beats_of(notes@)),
        span(beats_of(notes@)) == 32 * GRID,
        exists|n: int|
            #![trigger passes(notes@, n, LEN as int)]
            passes(notes@, n, LEN as int) && span(beats_of(notes@.take(n))) == 8 * GRID,
        forall|k: int|
            0 <= k < notes.len() ==> {
                let n = (#[trigger] notes@[k]).item;
                &&& n.step.den == 7
                &&& -4 <= n.step.num <= 4
                &&& n.level < 4
            },
        loop_played(beats_of(notes@), seq![Beat { num: 1, den: 1 }, Beat { num: 1, den: 3 }], 8 * GRID, LEN as nat),
{
    let durations = beat_fractions(&vec![1, 3]);
    let eight = Beat::new(8, 1);
    let b1 = rhythm(rng, eight, &durations);
    let steps = steps_between(rng, b1.len(), -4, 4);
    let levels: Vec<usize> = vec![0, 1, 2, 3];
    let mut level_of: Vec<usize> = Vec::new();
    let mut k: usize = 0;
    while k < b1.len()
        invariant
            k <= b1.len(),
            levels@ == seq![0usize, 1, 2, 3],
            level_of.len() == k,
            forall|j: int| 0 <= j < k ==> #[trigger] level_of@[j] < 4,
        decreases b1.len() - k,
    {
        level_of.push(one_of(rng, &levels));
        k = k + 1;
    }
    let mut sample_of: Vec<usize> = Vec::new();
    let mut k: usize = 0;
    while k < b1.len()
        invariant
            k <= b1.len(),
            sample_of.len() == k,
        decreases b1.len() - k,
    {
        sample_of.push(gen_index(rng, 0, usize::MAX));
        k = k + 1;
    }
    let mut once: Vec<Timed<LeadNote>> = Vec::new();
    let mut k: usize = 0;
    while k < b1.len()
        invariant
            k <= b1.len(),
            steps.len() == b1.len(),
            level_of.len() == b1.len(),
            sample_of.len() == b1.len(),
            forall|j: int| 0 <= j < b1.len() ==> (#[trigger] steps@[j]).den == 7 && -4 <= steps@[j].num <= 4,
            forall|j: int| 0 <= j < b1.len() ==> #[trigger] level_of@[j] < 4,
            once.len() == k,
            forall|j: int|
                0 <= j < k ==> (#[trigger] once@[j]).beat == b1@[j] && once@[j].item.step
                    == steps@[j] && once@[j].item.level == level_of@[j],
        decreases b1.len() - k,
    {
        once.push(
            Timed {
                beat: b1[k],
                item: LeadNote { step: steps[k], level: level_of[k], sample: sample_of[k] },
            },
        );
        k = k + 1;
    }
    let notes = repeat_vec(&once, LEN);
    proof {
        let n = once.len() as int;
        assert(passes(notes@, n, LEN as int) && span(beats_of(notes@.take(n))) == 8 * GRID) by {
            lemma_repeat_passes(once@, LEN as nat);
            assert(beats_of(once@) =~= b1@);
        }
        assert(loop_played(beats_of(notes@), seq![Beat { num: 1, den: 1 }, Beat { num: 1, den: 3 }], 8 * GRID, LEN as nat)) by {
            assert(beats_of(once@) =~= b1@);
            lemma_beats_of_repeat(once@, LEN as nat);
            assert(durations@ =~= seq![Beat { num: 1, den: 1 }, Beat { num: 1, den: 3 }]);
            assert(eight.ticks() == 8 * GRID);
            assert(drawn(b1@, durations@, 8 * GRID));
        }
        assert(beats_of(once@) =~= b1@);
        lemma_beats_of_repeat(once@, LEN as nat);
        lemma_span_repeat(b1@, LEN as nat);
        lemma_repeat_len(once@, LEN as nat);
        lemma_repeat_len(b1@, LEN as nat);
        assert forall|k: int| 0 <= k < repeat(b1@, LEN as nat).len() implies (#[trigger] repeat(
            b1@,
            LEN as nat,
        )[k]).on_grid() && repeat(b1@, LEN as nat)[k].num > 0 by {
            lemma_repeat_index(b1@, LEN as nat, k);
        }
        assert forall|k: int| 0 <= k < notes.len() implies {
            let n = (#[trigger] notes@[k]).item;
            &&& n.step.den == 7
            &&& -4 <= n.step.num <= 4
            &&& n.level < 4
        } by {
            lemma_repeat_index(once@, LEN as nat, k);
        }
    }
    notes
}

/// The kick drum: a stroke every two beats, sixteen in all.
pub fn kick_beats() -> (beats: Vec<Beat>)
    ensures
        beats.len() == 16,
        forall|k: int| 0 <= k < 16 ==> (#[trigger] beats@[k]).num == 2 && beats@[k].den == 1,
        span(beats@) == 32 * GRID,
{
    let mut beats: Vec<Beat> = Vec::new();
    let mut k: usize = 0;
    while k < 4 * LEN
        invariant
            k <= 4 * LEN,
            beats.len() == k,
            forall|j: int| 0 <= j < k ==> (#[trigger] beats@[j]).num == 2 && beats@[j].den == 1,
        decreases 4 * LEN - k,
    {
        beats.push(Beat::new(2, 1));
        k = k + 1;
    }
    proof {
        assert forall|j: int| 0 <= j < beats.len() implies (#[trigger] beats@[j]).ticks() == 2
            * GRID by {}
        lemma_span_uniform(beats@, 2 * GRID as int);
    }
    beats
}

/// Percussion samples on a random rhythm of 8 beats drawn from `1 / d` for
/// each `d` of `dens`: each stroke picks one of twenty samples and one of
/// `levels` loudness levels; the bar is played `LEN` times.
pub fn sample_part(rng: &Scope, dens: &Vec<u64>, levels: usize) -> (strokes: Vec<
    Timed<(usize, usize)>,
>)
    requires
        dens.len() > 0,
        forall|k: int| 0 <= k < dens.len() ==> 1 <= #[trigger] dens@[k] <= 16,
        levels > 0,
    ensures
        all_on_grid(beats_of(strokes@)),
        span(beats_of(strokes@)) == 32 * GRID,
        forall|k: int|
            0 <= k < strokes.len() ==> (#[trigger] strokes@[k]).item.0 < 20 && strokes@[k].item.1
                < levels,
        exists|n: int|
            #![trigger passes(strokes@, n, LEN as int)]
            passes(strokes@, n, LEN as int) && span(beats_of(strokes@.take(n))) == 8 * GRID,
        loop_played(beats_of(strokes@), fractions(dens@), 8 * GRID, LEN as nat),
{
    let durations = beat_fractions(dens);
    let eight = Beat::new(8, 1);
    let b1 = rhythm(rng, eight, &durations);
    let mut sample_of: Vec<usize> = Vec::new();
    let mut k: usize = 0;
    while k < b1.len()
        invariant
            k <= b1.len(),
            sample_of.len() == k,
            forall|j: int| 0 <= j < k ==> #[trigger] sample_of@[j] < 20,
        decreases b1.len() - k,
    {
        sample_of.push(gen_index(rng, 0, 20));
        k = k + 1;
    }
    let mut choices: Vec<usize> = Vec::new();
    let mut k: usize = 0;
    while k < levels
        invariant
            k <= levels,
            choices.len() == k,
            forall|j: int| 0 <= j < k ==> #[trigger] choices@[j] < levels,
        decreases levels - k,
    {
        choices.push(k);
        k = k + 1;
    }
    let mut level_of: Vec<usize> = Vec::new();
    let mut k: usize = 0;
    while k < b1.len()
        invariant
            k <= b1.len(),
            choices.len() == levels,
            levels > 0,
            forall|j: int| 0 <= j < levels ==> #[trigger] choices@[j] < levels,
            level_of.len() == k,
            forall|j: int| 0 <= j < k ==> #[trigger] level_of@[j] < levels,
        decreases b1.len() - k,
    {
        let l = one_of(rng, &choices);
        level_of.push(l);
        k = k + 1;
    }
    let mut once: Vec<Timed<(usize, usize)>> = Vec::new();
    let mut k: usize = 0;
    while k < b1.len()
        invariant
            k <= b1.len(),
            sample_of.len() == b1.len(),
            level_of.len() == b1.len(),
            forall|j: int| 0 <= j < b1.len() ==> #[trigger] sample_of@[j] < 20,
            forall|j: int| 0 <= j < b1.len() ==> #[trigger] level_of@[j] < levels,
            once.len() == k,
            forall|j: int|
                0 <= j < k ==> (#[trigger] once@[j]).beat == b1@[j] && once@[j].item == (
                    sample_of@[j],
                    level_of@[j],
                ),
        decreases b1.len() - k,
    {
        once.push(Timed { beat: b1[k], item: (sample_of[k], level_of[k]) });
        k = k + 1;
    }
    let strokes = repeat_vec(&once, LEN);
    proof {
        let n = once.len() as int;
        assert(passes(strokes@, n, LEN as int) && span(beats_of(strokes@.take(n))) == 8 * GRID) by {
            lemma_repeat_passes(once@, LEN as nat);
            assert(beats_of(once@) =~= b1@);
        }
        assert(loop_played(beats_of(strokes@), fractions(dens@), 8 * GRID, LEN as nat)) by {
            assert(beats_of(once@) =~= b1@);
            lemma_beats_of_repeat(once@, LEN as nat);
            assert(eight.ticks() == 8 * GRID);
            assert(drawn(b1@, durations@, 8 * GRID));
        }
        assert(beats_of(once@) =~= b1@);
        lemma_beats_of_repeat(once@, LEN as nat);
        lemma_span_repeat(b1@, LEN as nat);
        lemma_repeat_len(once@, LEN as nat);
        lemma_repeat_len(b1@, LEN as nat);
        assert forall|k: int| 0 <= k < repeat(b1@, LEN as nat).len() implies (#[trigger] repeat(
            b1@,
            LEN as nat,
        )[k]).on_grid() && repeat(b1@, LEN as nat)[k].num > 0 by {
            lemma_repeat_index(b1@, LEN as nat, k);
        }
        assert forall|k: int| 0 <= k < strokes.len() implies (#[trigger] strokes@[k]).item.0 < 20
            && strokes@[k].item.1 < levels by {
            lemma_repeat_index(once@, LEN as nat, k);
        }
    }
    strokes
}

/// The hi-hat: third and sixth beats, two loudness levels (0.5, 0.25).
pub fn hihat_part(rng: &Scope) -> (strokes: Vec<Timed<(usize, usize)>>)
    ensures
        all_on_grid(beats_of(strokes@)),
        span(beats_of(strokes@)) == 32 * GRID,
        forall|k: int|
            0 <= k < strokes.len() ==> (#[trigger] strokes@[k]).item.0 < 20 && strokes@[k].item.1 < 2,
        exists|n: int|
            #![trigger passes(strokes@, n, LEN as int)]
            passes(strokes@, n, LEN as int) && span(beats_of(strokes@.take(n))) == 8 * GRID,
        loop_played(beats_of(strokes@), seq![Beat { num: 1, den: 3 }, Beat { num: 1, den: 6 }], 8 * GRID, LEN as nat),
{
    let dens = vec![3, 6];
    proof {
        assert(fractions(dens@) =~= seq![Beat { num: 1, den: 3 }, Beat { num: 1, den: 6 }]);
    }
    sample_part(rng, &dens, 2)
}

/// The spoken samples: third, sixth and ninth beats, four loudness levels
/// (1, 0.75, 0.5, 0.25).
pub fn speech_part(rng: &Scope) -> (strokes: Vec<Timed<(usize, usize)>>)
    ensures
        all_on_grid(beats_of(strokes@)),
        span(beats_of(strokes@)) == 32 * GRID,
        forall|k: int|
            0 <= k < strokes.len() ==> (#[trigger] strokes@[k]).item.0 < 20 && strokes@[k].item.1 < 4,
        exists|n: int|
            #![trigger passes(strokes@, n, LEN as int)]
            passes(strokes@, n, LEN as int) && span(beats_of(strokes@.take(n))) == 8 * GRID,
        loop_played(
            beats_of(strokes@),
            seq![Beat { num: 1, den: 3 }, Beat { num: 1, den: 6 }, Beat { num: 1, den: 9 }],
            8 * GRID,
            LEN as nat,
        ),
{
    let dens = vec![3, 6, 9];
    proof {
        assert(fractions(dens@) =~= seq![
            Beat { num: 1, den: 3 },
            Beat { num: 1, den: 6 },
            Beat { num: 1, den: 9 },
        ]);
    }
    sample_part(rng, &dens, 4)
}

/// Length of the opening: `LEN` bars of eight beats.
pub fn opening_length() -> (d: Beat)
    ensures
        d.num == 32,
        d.den == 1,
        d.on_grid(),
        d.ticks() == 32 * GRID,
{
    let d = Beat::new(8 * LEN as u64, 1);
    d
}

/// The drum fill at the end of the opening: a wait, then six strokes of
/// random drum samples a third of a beat apart.
pub fn fill(rng: &Scope) -> (plan: (Beat, Vec<Timed<usize>>))
    ensures
        plan.0.on_grid(),
        plan.1.len() == 6,
        forall|k: int|
            0 <= k < 6 ==> (#[trigger] plan.1@[k]).beat.num == 2 && plan.1@[k].beat.den == 6,
        plan.0.ticks() + span(beats_of(plan.1@)) == 32 * GRID,
{
    let d = opening_length();
    let b: u64 = 2;
    let wait = beat_sub(d, Beat::new(b, 1));
    proof {
        lemma_divisor_le(1, wait.den as int);
        lemma_ticks_same(wait, 30, 1);
    }
    let count: u64 = 6;
    let mut hits: Vec<Timed<usize>> = Vec::new();
    let mut k: u64 = 0;
    while k < count
        invariant
            k <= count,
            count == 6,
            b == 2,
            hits.len() == k,
            forall|j: int| 0 <= j < k ==> (#[trigger] hits@[j]).beat.num == 2 && hits@[j].beat.den == 6,
        decreases count - k,
    {
        let i = gen_any(rng);
        hits.push(Timed { beat: Beat::new(b, count), item: i });
        k = k + 1;
    }
    proof {
        let bs = beats_of(hits@);
        assert forall|j: int| 0 <= j < bs.len() implies (#[trigger] bs[j]).ticks() == 2 * (GRID
            / 6) by {
            assert(bs[j] == hits@[j].beat);
        }
        lemma_span_uniform(bs, 2 * (GRID / 6) as int);
    }
    (wait, hits)
}

} // verus!
