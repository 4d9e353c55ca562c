//! Sequences of timed events and their total duration.
use vstd::prelude::*;
use crate::units::{lemma_grid_fractions, Beat, GRID};

verus! {

/// An event `item` followed by a wait of `beat`.
#[derive(Clone, Copy, Debug)]
pub struct Timed<T> {
    pub beat: Beat,
    pub item: T,
}

/// Total duration, in grid ticks, of a sequence of beats.
pub open spec fn span(s: Seq<Beat>) -> int
    decreases s.len(),
{
    if s.len() == 0 {
        0
    } else {
        span(s.drop_last()) + s.last().ticks()
    }
}

/// Total duration of the first `n` beats, added up front to back.
pub open spec fn span_upto(s: Seq<Beat>, n: int) -> int
    decreases n,
{
    if n <= 0 {
        0
    } else {
        span_upto(s, n - 1) + s[n - 1].ticks()
    }
}

proof fn lemma_span_upto_prefix(s: Seq<Beat>, t: Seq<Beat>, n: int)
    requires
        0 <= n <= s.len(),
        n <= t.len(),
        forall|i: int| 0 <= i < n ==> s[i] == t[i],
    ensures
        span_upto(s, n) == span_upto(t, n),
    decreases n,
{
    if n > 0 {
        lemma_span_upto_prefix(s, t, n - 1);
    }
}

/// The duration of a sequence, added up front to back.
pub proof fn lemma_span_upto(s: Seq<Beat>)
    ensures
        span(s) == span_upto(s, s.len() as int),
    decreases s.len(),
{
    if s.len() > 0 {
        lemma_span_upto(s.drop_last());
        lemma_span_upto_prefix(s.drop_last(), s, s.len() - 1);
    }
}

/// Every beat of the sequence is a positive whole number of grid ticks.
pub open spec fn all_on_grid(s: Seq<Beat>) -> bool {
    forall|i: int| 0 <= i < s.len() ==> (#[trigger] s[i]).on_grid() && s[i].num > 0
}

/// The waits of a sequence of timed events.
pub open spec fn beats_of<T>(s: Seq<Timed<T>>) -> Seq<Beat> {
    s.map_values(|e: Timed<T>| e.beat)
}

/// `p` played `r` times in a row.
pub open spec fn repeat<T>(p: Seq<T>, r: nat) -> Seq<T>
    decreases r,
{
    if r == 0 {
        Seq::empty()
    } else {
        repeat(p, (r - 1) as nat) + p
    }
}

pub proof fn lemma_span_append(s: Seq<Beat>, t: Seq<Beat>)
    ensures
        span(s + t) == span(s) + span(t),
    decreases t.len(),
{
    if t.len() == 0 {
        assert(s + t =~= s);
    } else {
        lemma_span_append(s, t.drop_last());
        assert((s + t).drop_last() =~= s + t.drop_last());
    }
}

pub proof fn lemma_repeat_len<T>(p: Seq<T>, r: nat)
    ensures
        repeat(p, r).len() == r * p.len(),
    decreases r,
{
    if r > 0 {
        lemma_repeat_len(p, (r - 1) as nat);
        assert(repeat(p, r) == repeat(p, (r - 1) as nat) + p);
        let q = (r - 1) as nat;
        assert(r * p.len() == q * p.len() + p.len()) by (nonlinear_arith)
            requires
                q == r - 1,
        ;
    } else {
        assert(repeat(p, r) =~= Seq::<T>::empty());
        assert(r * p.len() == 0) by (nonlinear_arith)
            requires
                r == 0,
        ;
    }
}

pub proof fn lemma_span_repeat(p: Seq<Beat>, r: nat)
    ensures
        span(repeat(p, r)) == r * span(p),
    decreases r,
{
    if r > 0 {
        let prev = repeat(p, (r - 1) as nat);
        lemma_span_repeat(p, (r - 1) as nat);
        lemma_span_append(prev, p);
        assert(repeat(p, r) == prev + p);
        let q = (r - 1) as nat;
        assert(r * span(p) == q * span(p) + span(p)) by (nonlinear_arith)
            requires
                q == r - 1,
        ;
    } else {
        assert(repeat(p, r) =~= Seq::<Beat>::empty());
        assert(r * span(p) == 0) by (nonlinear_arith)
            requires
                r == 0,
        ;
    }
}

/// The `k`-th element of `p` repeated is element `k mod |p|` of `p`.
pub proof fn lemma_repeat_index<T>(p: Seq<T>, r: nat, k: int)
    requires
        0 <= k < r * p.len(),
    ensures
        repeat(p, r)[k] == p[k % p.len() as int],
    decreases r,
{
    assert(r > 0) by (nonlinear_arith)
        requires
            0 <= k < r * p.len(),
    ;
    lemma_repeat_len(p, (r - 1) as nat);
    let prev = repeat(p, (r - 1) as nat);
    assert(repeat(p, r) == prev + p);
    if k < (r - 1) * p.len() {
        lemma_repeat_index(p, (r - 1) as nat, k);
    } else {
        assert(p.len() > 0) by (nonlinear_arith)
            requires
                0 <= k < r * p.len(),
        ;
        assert(k % p.len() as int == k - (r - 1) * p.len()) by (nonlinear_arith)
            requires
                (r - 1) * p.len() <= k < r * p.len(),
                p.len() > 0,
        ;
    }
}

/// `s` is its first `n` elements played `r` times in a row.
pub open spec fn passes<T>(s: Seq<T>, n: int, r: int) -> bool {
    &&& 0 <= n <= s.len()
    &&& 0 <= r
    &&& s == repeat(s.take(n), r as nat)
}

/// `p` repeated `r > 0` times is `p` played `r` times in a row.
pub proof fn lemma_repeat_passes<T>(p: Seq<T>, r: nat)
    requires
        r > 0,
    ensures
        passes(repeat(p, r), p.len() as int, r as int),
        repeat(p, r).take(p.len() as int) == p,
{
    lemma_repeat_len(p, r);
    let s = repeat(p, r);
    let n = p.len() as int;
    assert(n <= s.len()) by (nonlinear_arith)
        requires
            s.len() == r * n,
            r > 0,
            n >= 0,
    ;
    assert forall|j: int| 0 <= j < n implies #[trigger] s.take(n)[j] == p[j] by {
        assert(j < r * n && j % n == j) by (nonlinear_arith)
            requires
                0 <= j < n,
                r > 0,
        ;
        lemma_repeat_index(p, r, j);
    }
    assert(s.take(n) =~= p);
}

pub proof fn lemma_beats_of_append<T>(s: Seq<Timed<T>>, t: Seq<Timed<T>>)
    ensures
        beats_of(s + t) =~= beats_of(s) + beats_of(t),
{
}

pub proof fn lemma_beats_of_repeat<T>(p: Seq<Timed<T>>, r: nat)
    ensures
        beats_of(repeat(p, r)) =~= repeat(beats_of(p), r),
    decreases r,
{
    if r > 0 {
        lemma_beats_of_repeat(p, (r - 1) as nat);
        lemma_beats_of_append(repeat(p, (r - 1) as nat), p);
    }
}

/// A sequence of `n` beats of `t` ticks each lasts `n * t` ticks.
pub proof fn lemma_span_uniform(s: Seq<Beat>, t: int)
    requires
        forall|k: int| 0 <= k < s.len() ==> (#[trigger] s[k]).ticks() == t,
    ensures
        span(s) == s.len() * t,
    decreases s.len(),
{
    if s.len() > 0 {
        lemma_span_uniform(s.drop_last(), t);
        assert(s.len() * t == (s.len() - 1) * t + t) by (nonlinear_arith);
    }
}

/// A sequence of positive grid durations lasts at least one tick per beat.
pub proof fn lemma_span_at_least_len(s: Seq<Beat>)
    requires
        all_on_grid(s),
    ensures
        span(s) >= s.len(),
    decreases s.len(),
{
    if s.len() > 0 {
        let b = s.last();
        assert(b.on_grid() && b.num > 0);
        crate::units::lemma_divisor_le(crate::units::GRID as int, b.den as int);
        assert(b.ticks() >= 1) by (nonlinear_arith)
            requires
                b.num >= 1,
                0 < b.den <= crate::units::GRID,
                b.ticks() == b.num * (crate::units::GRID as int / b.den as int),
        ;
        assert(all_on_grid(s.drop_last()));
        lemma_span_at_least_len(s.drop_last());
    }
}

/// A prefix of a sequence of non-negative beats lasts no longer than the whole.
pub proof fn lemma_span_prefix(s: Seq<Beat>, n: int)
    requires
        0 <= n <= s.len(),
        all_on_grid(s),
    ensures
        span(s.take(n)) <= span(s),
        0 <= span(s.take(n)),
    decreases s.len(),
{
    if s.len() > 0 {
        let last = s.last();
        assert(last.on_grid() && last.num > 0);
        assert(last.ticks() >= 0) by (nonlinear_arith)
            requires
                last.num >= 0,
                last.den > 0,
                last.ticks() == last.num * (crate::units::GRID as int / last.den as int),
        ;
        assert(all_on_grid(s.drop_last()));
        if n == s.len() {
            assert(s.take(n) =~= s);
            lemma_span_prefix(s.drop_last(), n - 1);
            assert(s.take(n - 1) =~= s.drop_last().take(n - 1));
            assert(s.drop_last().take(n - 1) =~= s.drop_last());
        } else {
            lemma_span_prefix(s.drop_last(), n);
            assert(s.take(n) =~= s.drop_last().take(n));
        }
    } else {
        assert(s.take(n) =~= s);
    }
}

/// `p` repeated `r` times.
pub fn repeat_vec<T: Copy>(p: &Vec<T>, r: usize) -> (out: Vec<T>)
    ensures
        out@ == repeat(p@, r as nat),
{
    let mut out: Vec<T> = Vec::new();
    let mut i: usize = 0;
    while i < r
        invariant
            i <= r,
            out@ == repeat(p@, i as nat),
        decreases r - i,
    {
        let ghost before = out@;
        let mut j: usize = 0;
        while j < p.len()
            invariant
                j <= p.len(),
                out@ == before + p@.take(j as int),
            decreases p.len() - j,
        {
            out.push(p[j]);
            assert(p@.take(j as int + 1) =~= p@.take(j as int).push(p@[j as int]));
            j = j + 1;
        }
        assert(p@.take(p.len() as int) =~= p@);
        i = i + 1;
    }
    out
}

/// `a` followed by `b`.
pub fn concat<T: Copy>(a: &Vec<T>, b: &Vec<T>) -> (out: Vec<T>)
    ensures
        out@ == a@ + b@,
{
    let mut out: Vec<T> = Vec::new();
    let mut j: usize = 0;
    while j < a.len()
        invariant
            j <= a.len(),
            out@ == a@.take(j as int),
        decreases a.len() - j,
    {
        out.push(a[j]);
        assert(a@.take(j as int + 1) =~= a@.take(j as int).push(a@[j as int]));
        j = j + 1;
    }
    assert(a@.take(a.len() as int) =~= a@);
    let mut k: usize = 0;
    while k < b.len()
        invariant
            k <= b.len(),
            out@ == a@ + b@.take(k as int),
        decreases b.len() - k,
    {
        out.push(b[k]);
        assert(b@.take(k as int + 1) =~= b@.take(k as int).push(b@[k as int]));
        k = k + 1;
    }
    assert(b@.take(b.len() as int) =~= b@);
    out
}

/// Pairs each beat with the item at the same position, stopping at the end
/// of the shorter sequence.
pub fn zip_timed<T: Copy>(beats: &Vec<Beat>, items: &Vec<T>) -> (out: Vec<Timed<T>>)
    ensures
        out.len() == if beats.len() <= items.len() {
            beats.len()
        } else {
            items.len()
        },
        forall|k: int|
            0 <= k < out.len() ==> (#[trigger] out@[k]).beat == beats@[k] && out@[k].item
                == items@[k],
        beats_of(out@) =~= beats@.take(out.len() as int),
{
    let n = if beats.len() <= items.len() {
        beats.len()
    } else {
        items.len()
    };
    let mut out: Vec<Timed<T>> = Vec::new();
    let mut k: usize = 0;
    while k < n
        invariant
            k <= n,
            n <= beats.len(),
            n <= items.len(),
            out.len() == k,
            forall|i: int|
                0 <= i < k ==> (#[trigger] out@[i]).beat == beats@[i] && out@[i].item
                    == items@[i],
        decreases n - k,
    {
        out.push(Timed { beat: beats[k], item: items[k] });
        k = k + 1;
    }
    out
}

/// `s` is `p` played round and round for `t` ticks: every beat is the
/// pattern's next one, except the last, which may be cut short so that the
/// whole lasts exactly `t`.
pub open spec fn loops(s: Seq<Beat>, p: Seq<Beat>, t: int) -> bool {
    &&& span(s) == t
    &&& all_on_grid(s)
    &&& forall|k: int| 0 <= k < s.len() - 1 ==> #[trigger] s[k] == p[k % p.len() as int]
    &&& s.len() > 0 ==> s[s.len() - 1].ticks() <= p[(s.len() - 1) % p.len() as int].ticks()
}

/// The events of `pattern` played round and round from the start of a
/// section `length` long, until the section ends: every event is the
/// pattern's next one, except that the wait after the last is cut short
/// where the section ends.
pub fn looped<T: Copy>(pattern: &Vec<Timed<T>>, length: Beat) -> (out: Vec<Timed<T>>)
    requires
        pattern.len() > 0,
        all_on_grid(beats_of(pattern@)),
        forall|i: int|
            0 <= i < pattern.len() ==> (#[trigger] pattern@[i]).beat.ticks() <= u64::MAX,
        length.on_grid(),
        length.ticks() <= u64::MAX,
    ensures
        loops(beats_of(out@), beats_of(pattern@), length.ticks() as int),
        forall|k: int|
            0 <= k < out.len() ==> (#[trigger] out@[k]).item == pattern@[k % pattern.len() as int].item,
{
    proof {
        lemma_grid_fractions();
    }
    let n = pattern.len();
    let total: u64 = length.num * (GRID / length.den);
    let mut out: Vec<Timed<T>> = Vec::new();
    let mut elapsed: u64 = 0;
    let mut j: usize = 0;
    assert(0int % (n as int) == 0) by (nonlinear_arith)
        requires
            n > 0,
    ;
    while elapsed < total
        invariant
            n == pattern.len(),
            n > 0,
            all_on_grid(beats_of(pattern@)),
            forall|i: int| 0 <= i < n ==> (#[trigger] pattern@[i]).beat.ticks() <= u64::MAX,
            total == length.ticks(),
            total <= u64::MAX,
            elapsed <= total,
            span(beats_of(out@)) == elapsed,
            all_on_grid(beats_of(out@)),
            j < n,
            j as int == out.len() as int % n as int,
            elapsed < total ==> forall|k: int| 0 <= k < out.len() ==> #[trigger] out@[k] == pattern@[k % n as int],
            forall|k: int| 0 <= k < out.len() - 1 ==> #[trigger] out@[k] == pattern@[k % n as int],
            out.len() > 0 ==> {
                let last = out@[out.len() - 1];
                let played = pattern@[(out.len() - 1) % n as int];
                &&& last.item == played.item
                &&& last.beat.ticks() <= played.beat.ticks()
            },
            forall|k: int| 0 <= k < out.len() ==> (#[trigger] out@[k]).item == pattern@[k % n as int].item,
        decreases total - elapsed,
    {
        let e = pattern[j];
        let p = e.beat;
        proof {
            assert(beats_of(pattern@)[j as int] == p);
            assert(p.on_grid() && p.num > 0);
            assert(p.num * (GRID as int / p.den as int) >= 1) by (nonlinear_arith)
                requires
                    p.num > 0,
                    GRID as int % p.den as int == 0,
                    p.den > 0,
                    GRID as int > 0,
            ;
        }
        let t: u64 = p.num * (GRID / p.den);
        let ghost before = out@;
        if t <= total - elapsed {
            out.push(e);
            elapsed = elapsed + t;
        } else {
            let rest = Timed { beat: Beat { num: total - elapsed, den: GRID }, item: e.item };
            proof {
                let x = rest.beat.num as int;
                let g = GRID as int;
                assert(x * (g / g) == x) by (nonlinear_arith)
                    requires
                        g > 0,
                ;
                assert(rest.beat.ticks() == total - elapsed);
            }
            out.push(rest);
            elapsed = total;
        }
        proof {
            assert(beats_of(out@).drop_last() =~= beats_of(before));
            assert(before.len() as int % n as int == j as int);
            assert forall|i: int| 0 <= i < out.len() implies (#[trigger] beats_of(out@)[i]).on_grid()
                && beats_of(out@)[i].num > 0 by {
                if i < before.len() {
                    assert(beats_of(out@)[i] == beats_of(before)[i]);
                }
            }
        }
        let ghost j0 = j;
        j = if j + 1 == n {
            0
        } else {
            j + 1
        };
        proof {
            let a = before.len() as int;
            let m = n as int;
            assert((a + 1) % m == if j0 + 1 == m { 0 } else { j0 + 1 }) by (nonlinear_arith)
                requires
                    a >= 0,
                    m > 0,
                    a % m == j0,
                    0 <= j0 < m,
            ;
        }
    }
    proof {
        assert forall|k: int| 0 <= k < beats_of(out@).len() - 1 implies #[trigger] beats_of(out@)[k]
            == beats_of(pattern@)[k % n as int] by {
            assert(0 <= k % (n as int) < n) by (nonlinear_arith)
                requires
                    n > 0,
            ;
        }
        if out.len() > 0 {
            let l = out.len() - 1;
            assert(0 <= l % (n as int) < n) by (nonlinear_arith)
                requires
                    n > 0,
            ;
        }
    }
    out
}

/// A looped pattern repeats: away from the cut at the end, the beat one
/// whole pattern later is the same beat.
pub proof fn law_loops_repeat(s: Seq<Beat>, p: Seq<Beat>, t: int, k: int)
    requires
        p.len() > 0,
        loops(s, p, t),
        0 <= k,
        k + p.len() < s.len() - 1,
    ensures
        s[k + p.len()] == s[k],
{
    let n = p.len() as int;
    assert((k + n) % n == k % n) by (nonlinear_arith)
        requires
            n > 0,
            k >= 0,
    ;
}

} // verus!
