//! Random choices, drawn from an explicit `euphony` random scope so that a
//! seed fixes every decision of a voice.
use vstd::prelude::*;
use euphony::rand::Scope;
use crate::timeline::span;
use crate::units::{Beat, LIMIT};

verus! {

/// `euphony::rand::Scope`, the seeded random state that the draws below
/// run in; the library only passes it along.
#[verifier::external_type_specification]
#[verifier::external_body]
pub struct ExScope(euphony::rand::Scope);

/// A duration that `rhythm` accepts: on the grid, with a modest numerator.
pub open spec fn fine(b: Beat) -> bool {
    b.on_grid() && b.num <= LIMIT
}

/// `r` is a rhythm drawn from `durations` that fills `t` ticks: positive
/// beats on the grid adding up to `t`, each but the last one of
/// `durations`, and none longer than the longest of `durations`.
pub open spec fn drawn(r: Seq<Beat>, durations: Seq<Beat>, t: int) -> bool {
    &&& span(r) == t
    &&& forall|i: int| 0 <= i < r.len() ==> (#[trigger] r[i]).on_grid() && r[i].num > 0
    &&& forall|i: int| 0 <= i < r.len() - 1 ==> durations.contains(#[trigger] r[i])
    &&& forall|i: int|
        0 <= i < r.len() ==> exists|j: int|
            0 <= j < durations.len() && (#[trigger] r[i]).ticks() <= durations[j].ticks()
}

/// `euphony::rand::rhythm`, run in the random scope `rng`: draws durations
/// from `durations` one at a time and stops when they fill `length`,
/// shortening the final one to fit exactly. What is stated (`drawn`): the
/// beats fill `length` exactly, each is positive and on the grid, each but
/// the last is one of `durations`, and none is longer than the longest of
/// `durations`. Which durations are drawn depends on the random state and
/// is not stated.
#[verifier::external_body]
pub(crate) fn rhythm(rng: &Scope, length: Beat, durations: &Vec<Beat>) -> (beats: Vec<Beat>)
    requires
        fine(length),
        length.num == 0 || durations.len() > 0,
        forall|i: int|
            0 <= i < durations.len() ==> fine(#[trigger] durations[i]) && durations[i].num > 0,
    ensures
        drawn(beats@, durations@, length.ticks()),
{
    let durs: Vec<euphony::prelude::Beat> = durations.iter().map(
        |b| euphony::prelude::Beat(b.num, b.den),
    ).collect();
    let whole = euphony::prelude::Beat(length.num, length.den);
    let out = rng.enter(|| euphony::rand::rhythm(whole, durs));
    out.iter().map(|b| Beat { num: b.0, den: b.1 }).collect()
}

/// `euphony::rand::one_of`, run in the random scope `rng`: one of `items`.
/// Which one depends on the random state and is not stated.
#[verifier::external_body]
pub(crate) fn one_of<T: Copy>(rng: &Scope, items: &Vec<T>) -> (r: T)
    requires
        items.len() > 0,
    ensures
        items@.contains(r),
{
    rng.enter(|| *euphony::rand::one_of(items.as_slice()))
}

/// `euphony::rand::gen_range(lo..=hi)` on `i64`, run in the random scope
/// `rng`: some value from `lo` to `hi`. Which one is not stated.
#[verifier::external_body]
pub(crate) fn gen_between(rng: &Scope, lo: i64, hi: i64) -> (r: i64)
    requires
        lo <= hi,
    ensures
        lo <= r <= hi,
{
    rng.enter(|| euphony::rand::gen_range(lo..=hi))
}

/// `euphony::rand::gen_range(lo..hi)` on `i64`, run in the random scope
/// `rng`: some value from `lo` up to but excluding `hi`. Which one is not stated.
#[verifier::external_body]
pub(crate) fn gen_below(rng: &Scope, lo: i64, hi: i64) -> (r: i64)
    requires
        lo < hi,
    ensures
        lo <= r < hi,
{
    rng.enter(|| euphony::rand::gen_range(lo..hi))
}

/// `euphony::rand::gen_range(lo..hi)` on `usize`, run in the random scope
/// `rng`: some value from `lo` up to but excluding `hi`. Which one is not stated.
#[verifier::external_body]
pub(crate) fn gen_index(rng: &Scope, lo: usize, hi: usize) -> (r: usize)
    requires
        lo < hi,
    ensures
        lo <= r < hi,
{
    rng.enter(|| euphony::rand::gen_range(lo..hi))
}

/// `euphony::rand::gen_range(lo..=hi)` on `usize`, run in the random scope
/// `rng`: some value from `lo` to `hi`. Which one is not stated.
#[verifier::external_body]
pub(crate) fn gen_count(rng: &Scope, lo: usize, hi: usize) -> (r: usize)
    requires
        lo <= hi,
    ensures
        lo <= r <= hi,
{
    rng.enter(|| euphony::rand::gen_range(lo..=hi))
}

/// `euphony::rand::gen` for `usize`, run in the random scope `rng`: any value.
#[verifier::external_body]
pub(crate) fn gen_any(rng: &Scope) -> usize {
    rng.enter(|| euphony::rand::gen())
}

} // verus!
