//! Weighted resampling of a particle set.
//!
//! Importance weights are non-negative integers (likelihoods in fixed point).
//! A draw is a point of `[0, total)`; the particle selected by draw `d` is the
//! one whose cumulative-weight bucket `[prefix(i), prefix(i + 1))` holds `d`.
use vstd::prelude::*;

pub mod laws;

verus! {

/// Sum of the first `i` weights.
pub open spec fn prefix(w: Seq<u64>, i: int) -> int
    decreases i,
{
    if i <= 0 || w.len() == 0 {
        0
    } else if i > w.len() {
        prefix(w, w.len() as int)
    } else {
        prefix(w, i - 1) + w[i - 1]
    }
}

/// Sum of all weights.
pub open spec fn total(w: Seq<u64>) -> int {
    prefix(w, w.len() as int)
}

/// Draw `d` falls in the bucket of particle `i`.
pub open spec fn in_bucket(w: Seq<u64>, d: int, i: int) -> bool {
    0 <= i < w.len() && prefix(w, i) <= d < prefix(w, i + 1)
}

/// `sel` picks, for each draw, the particle whose bucket holds it.
pub open spec fn is_selection(w: Seq<u64>, draws: Seq<u64>, sel: Seq<usize>) -> bool {
    &&& sel.len() == draws.len()
    &&& forall|k: int| 0 <= k < sel.len() ==> in_bucket(w, draws[k] as int, #[trigger] sel[k] as int)
}

/// Ascending order.
pub open spec fn is_sorted(s: Seq<u64>) -> bool {
    forall|a: int, b: int| 0 <= a <= b < s.len() ==> s[a] <= s[b]
}

/// Every draw lies in `[0, total(w))`.
pub open spec fn draws_in_range(w: Seq<u64>, draws: Seq<u64>) -> bool {
    forall|k: int| 0 <= k < draws.len() ==> #[trigger] draws[k] < total(w)
}

/// Partial sums of non-negative weights grow with their length.
pub proof fn lemma_prefix_monotone(w: Seq<u64>, i: int, j: int)
    requires
        0 <= i <= j <= w.len(),
    ensures
        0 <= prefix(w, i) <= prefix(w, j),
    decreases j - i,
{
    if i < j {
        lemma_prefix_monotone(w, i, j - 1);
    } else {
        lemma_prefix_nonneg(w, i);
    }
}

/// Partial sums of weights are non-negative.
pub proof fn lemma_prefix_nonneg(w: Seq<u64>, i: int)
    requires
        0 <= i <= w.len(),
    ensures
        prefix(w, i) >= 0,
    decreases i,
{
    if i > 0 {
        lemma_prefix_nonneg(w, i - 1);
    }
}

/// Selection sweep over sorted draws: one cumulative-weight pointer walks
/// forward once through the weights while the draws ascend.
pub fn resample_indices(draws: &Vec<u64>, weights: &Vec<u64>) -> (sel: Vec<usize>)
    requires
        weights.len() > 0,
        total(weights@) <= u64::MAX,
        is_sorted(draws@),
        draws_in_range(weights@, draws@),
    ensures
        is_selection(weights@, draws@, sel@),
{
    let n = weights.len();
    let mut sel: Vec<usize> = Vec::new();
    let mut index: usize = 0;
    let mut cum: u64 = weights[0];
    let mut k: usize = 0;
    proof {
        assert(prefix(weights@, 0) == 0);
        assert(prefix(weights@, 1) == weights@[0]);
        lemma_prefix_monotone(weights@, 1, n as int);
    }
    while k < draws.len()
        invariant
            n == weights.len(),
            n > 0,
            total(weights@) <= u64::MAX,
            is_sorted(draws@),
            draws_in_range(weights@, draws@),
            k <= draws.len(),
            index < n,
            cum == prefix(weights@, index + 1),
            forall|j: int| k <= j < draws.len() ==> prefix(weights@, index as int) <= #[trigger] draws@[j],
            sel.len() == k,
            forall|j: int| 0 <= j < k ==> in_bucket(weights@, draws@[j] as int, #[trigger] sel@[j] as int),
        decreases draws.len() - k,
    {
        let d = draws[k];
        while cum <= d && index + 1 < n
            invariant
                n == weights.len(),
                total(weights@) <= u64::MAX,
                index < n,
                cum == prefix(weights@, index + 1),
                prefix(weights@, index as int) <= d,
            decreases n - index,
        {
            proof {
                lemma_prefix_monotone(weights@, index + 2, n as int);
            }
            index = index + 1;
            cum = cum + weights[index];
        }
        proof {
            if index + 1 == n {
                assert(d < total(weights@));
            }
            assert forall|j: int| k < j < draws.len() implies prefix(weights@, index as int) <= #[trigger] draws@[j] by {
                assert(draws@[k as int] <= draws@[j]);
            }
        }
        sel.push(index);
        k = k + 1;
    }
    sel
}

/// Why a weighted set cannot be resampled.
#[derive(Clone, Copy, Debug, PartialEq, Eq, Structural)]
pub enum ResampleError {
    /// There are no particles to draw from.
    Empty,
    /// The particle and weight lists differ in length.
    LengthMismatch,
    /// Every weight is zero.
    ZeroTotalWeight,
    /// The weights sum past `u64::MAX`.
    WeightOverflow,
    /// A supplied draw lies outside `[0, total)`.
    DrawOutOfRange,
}

/// The particle in whose bucket `d` falls.
pub open spec fn bucket(w: Seq<u64>, d: int) -> int {
    choose|i: int| in_bucket(w, d, i)
}

/// `out` holds, for each draw, the particle whose bucket holds that draw.
pub open spec fn picks<P>(particles: Seq<P>, w: Seq<u64>, draws: Seq<u64>, out: Seq<P>) -> bool {
    &&& out.len() == draws.len()
    &&& forall|k: int| 0 <= k < out.len() ==> #[trigger] out[k] == particles[bucket(w, draws[k] as int)]
}

/// Each particle of `out` is one of `particles` with a positive weight.
pub open spec fn drawn_from_support<P>(particles: Seq<P>, w: Seq<u64>, out: Seq<P>) -> bool {
    forall|k: int| 0 <= k < out.len() ==> #[trigger] in_support(particles, w, out[k])
}

/// `p` is a particle with a positive weight.
pub open spec fn in_support<P>(particles: Seq<P>, w: Seq<u64>, p: P) -> bool {
    exists|i: int| 0 <= i < w.len() && w[i] > 0 && particles[i] == p
}

/// The error, if any, that a weight vector draws.
pub open spec fn weight_error(w: Seq<u64>) -> Option<ResampleError> {
    if w.len() == 0 {
        Some(ResampleError::Empty)
    } else if total(w) > u64::MAX {
        Some(ResampleError::WeightOverflow)
    } else if total(w) == 0 {
        Some(ResampleError::ZeroTotalWeight)
    } else {
        None
    }
}

/// The error, if any, for resampling `particles` under weights `w`.
pub open spec fn input_error<P>(particles: Seq<P>, w: Seq<u64>) -> Option<ResampleError> {
    if particles.len() != w.len() {
        Some(ResampleError::LengthMismatch)
    } else {
        weight_error(w)
    }
}

/// One more weight adds its value to the partial sum.
pub proof fn lemma_prefix_step(w: Seq<u64>, i: int)
    requires
        0 <= i < w.len(),
    ensures
        prefix(w, i + 1) == prefix(w, i) + w[i],
{
}

/// Buckets do not overlap, and a particle with a bucket has a positive weight.
pub proof fn lemma_bucket_unique(w: Seq<u64>, d: int, i: int)
    requires
        in_bucket(w, d, i),
    ensures
        bucket(w, d) == i,
        w[i] > 0,
{
    let b = bucket(w, d);
    assert(in_bucket(w, d, b));
    lemma_prefix_step(w, i);
    if b < i {
        lemma_prefix_monotone(w, b + 1, i);
    } else if b > i {
        lemma_prefix_monotone(w, i + 1, b);
    }
}

/// Sum of the weights, refused when the set is empty, all zero, or too heavy.
pub fn total_weight(weights: &Vec<u64>) -> (r: Result<u64, ResampleError>)
    ensures
        match weight_error(weights@) {
            Some(e) => r == Err::<u64, ResampleError>(e),
            None => r == Ok::<u64, ResampleError>(total(weights@) as u64),
        },
{
    if weights.len() == 0 {
        return Err(ResampleError::Empty);
    }
    let mut sum: u64 = 0;
    let mut i: usize = 0;
    while i < weights.len()
        invariant
            i <= weights.len(),
            sum == prefix(weights@, i as int),
        decreases weights.len() - i,
    {
        proof {
            lemma_prefix_step(weights@, i as int);
        }
        if sum > u64::MAX - weights[i] {
            proof {
                lemma_prefix_monotone(weights@, i + 1, weights.len() as int);
            }
            return Err(ResampleError::WeightOverflow);
        }
        sum = sum + weights[i];
        i = i + 1;
    }
    if sum == 0 {
        return Err(ResampleError::ZeroTotalWeight);
    }
    Ok(sum)
}

/// The particle whose bucket holds draw `d`, found by a forward scan.
pub fn bucket_of(weights: &Vec<u64>, d: u64) -> (i: usize)
    requires
        weights.len() > 0,
        total(weights@) <= u64::MAX,
        d < total(weights@),
    ensures
        in_bucket(weights@, d as int, i as int),
        i as int == bucket(weights@, d as int),
{
    let n = weights.len();
    let mut i: usize = 0;
    let mut cum: u64 = weights[0];
    proof {
        assert(prefix(weights@, 0) == 0);
        assert(prefix(weights@, 1) == weights@[0]);
        lemma_prefix_monotone(weights@, 1, n as int);
    }
    while cum <= d && i + 1 < n
        invariant
            n == weights.len(),
            total(weights@) <= u64::MAX,
            i < n,
            cum == prefix(weights@, i + 1),
            prefix(weights@, i as int) <= d,
        decreases n - i,
    {
        proof {
            lemma_prefix_monotone(weights@, i + 2, n as int);
        }
        i = i + 1;
        cum = cum + weights[i];
    }
    proof {
        lemma_bucket_unique(weights@, d as int, i as int);
    }
    i
}

/// Copies of the particles at the given indices, in order.
pub fn gather<P: Copy>(particles: &Vec<P>, sel: &Vec<usize>) -> (out: Vec<P>)
    requires
        forall|k: int| 0 <= k < sel.len() ==> #[trigger] sel@[k] < particles.len(),
    ensures
        out.len() == sel.len(),
        forall|k: int| 0 <= k < sel.len() ==> #[trigger] out@[k] == particles@[sel@[k] as int],
{
    let mut out: Vec<P> = Vec::new();
    let mut k: usize = 0;
    while k < sel.len()
        invariant
            k <= sel.len(),
            forall|j: int| 0 <= j < sel.len() ==> #[trigger] sel@[j] < particles.len(),
            out.len() == k,
            forall|j: int| 0 <= j < k ==> #[trigger] out@[j] == particles@[sel@[j] as int],
        decreases sel.len() - k,
    {
        let p = particles[sel[k]];
        out.push(p);
        k = k + 1;
    }
    out
}

/// Relies on `slice::sort_unstable`: the same elements, in ascending order.
#[verifier::external_body]
fn sort_ascending(v: &mut Vec<u64>)
    ensures
        is_sorted(final(v)@),
        final(v)@.len() == old(v)@.len(),
        final(v)@.to_multiset() == old(v)@.to_multiset(),
{
    v.sort_unstable();
}

/// Whether every draw lies below `bound`.
fn draws_below(draws: &Vec<u64>, bound: u64) -> (ok: bool)
    ensures
        ok == forall|k: int| 0 <= k < draws.len() ==> #[trigger] draws@[k] < bound,
{
    let mut k: usize = 0;
    while k < draws.len()
        invariant
            k <= draws.len(),
            forall|j: int| 0 <= j < k ==> #[trigger] draws@[j] < bound,
        decreases draws.len() - k,
    {
        if draws[k] >= bound {
            return false;
        }
        k = k + 1;
    }
    true
}

/// The particles that sorted in-range draws select.
fn select_sorted<P: Copy>(draws: &Vec<u64>, particles: &Vec<P>, weights: &Vec<u64>) -> (out: Vec<P>)
    requires
        particles.len() == weights.len(),
        weights.len() > 0,
        total(weights@) <= u64::MAX,
        is_sorted(draws@),
        draws_in_range(weights@, draws@),
    ensures
        picks(particles@, weights@, draws@, out@),
        drawn_from_support(particles@, weights@, out@),
{
    let sel = resample_indices(draws, weights);
    let out = gather(particles, &sel);
    proof {
        assert forall|k: int| 0 <= k < out.len() implies #[trigger] out@[k] == particles@[bucket(weights@, draws@[k] as int)] by {
            lemma_bucket_unique(weights@, draws@[k] as int, sel@[k] as int);
        }
        assert forall|k: int| 0 <= k < out.len() implies #[trigger] in_support(particles@, weights@, out@[k]) by {
            lemma_bucket_unique(weights@, draws@[k] as int, sel@[k] as int);
            let i = sel@[k] as int;
            assert(weights@[i] > 0 && out@[k] == particles@[i]);
        }
    }
    out
}

/// The shared selection step: sorts `draws`, then sweeps them against the
/// cumulative weights, emitting the particle whose bucket holds each draw.
pub fn resample<P: Copy>(draws: &mut Vec<u64>, particles: &Vec<P>, weights: &Vec<u64>) -> (r: Result<Vec<P>, ResampleError>)
    ensures
        is_sorted(final(draws)@),
        final(draws)@.len() == old(draws)@.len(),
        final(draws)@.to_multiset() == old(draws)@.to_multiset(),
        match input_error(particles@, weights@) {
            Some(e) => r == Err::<Vec<P>, ResampleError>(e),
            None => if draws_in_range(weights@, old(draws)@) {
                r matches Ok(out) && picks(particles@, weights@, final(draws)@, out@)
                    && drawn_from_support(particles@, weights@, out@)
                    && draws_in_range(weights@, final(draws)@)
            } else {
                r == Err::<Vec<P>, ResampleError>(ResampleError::DrawOutOfRange)
            },
        },
{
    sort_ascending(draws);
    proof {
        lemma_prefix_nonneg(weights@, weights.len() as int);
    }
    if particles.len() != weights.len() {
        return Err(ResampleError::LengthMismatch);
    }
    let sum = match total_weight(weights) {
        Ok(t) => t,
        Err(e) => return Err(e),
    };
    let ghost pre = old(draws)@;
    proof {
        broadcast use vstd::seq_lib::group_to_multiset_ensures;
        assert(forall|x: u64| pre.contains(x) <==> draws@.contains(x)) by {
            assert forall|x: u64| pre.contains(x) <==> draws@.contains(x) by {
                assert(pre.to_multiset().count(x) == draws@.to_multiset().count(x));
            }
        }
    }
    if !draws_below(draws, sum) {
        proof {
            let k = choose|k: int| 0 <= k < draws.len() && !(draws@[k] < sum);
            assert(draws@.contains(draws@[k]));
            assert(pre.contains(draws@[k]));
        }
        return Err(ResampleError::DrawOutOfRange);
    }
    proof {
        assert forall|k: int| 0 <= k < pre.len() implies #[trigger] pre[k] < total(weights@) by {
            assert(pre.contains(pre[k]));
            assert(draws@.contains(pre[k]));
            let j = choose|j: int| 0 <= j < draws.len() && draws@[j] == pre[k];
            assert(draws@[j] < sum);
        }
    }
    let out = select_sorted(draws, particles, weights);
    Ok(out)
}

/// Stratified draws: draw `k` is offset `offsets[k]` into stratum `k` of
/// `n` equal strata of `[0, t)`, i.e. `(k * t + offsets[k]) / n`.
pub open spec fn stratified_seq(t: int, offsets: Seq<u64>) -> Seq<u64> {
    Seq::new(offsets.len(), |k: int| ((k * t + offsets[k]) / (offsets.len() as int)) as u64)
}

/// Systematic draws: one shared offset `o`, then equal spacing,
/// i.e. draw `k` is `(k * t + o) / n`.
pub open spec fn systematic_seq(t: int, n: nat, o: u64) -> Seq<u64> {
    Seq::new(n, |k: int| ((k * t + o) / (n as int)) as u64)
}

/// A spaced draw `(k * t + o) / n` lies in `[0, t)`.
pub proof fn lemma_spaced_draw(t: int, n: int, k: int, o: int)
    requires
        t > 0,
        0 <= k < n,
        0 <= o < t,
    ensures
        0 <= k * t + o < n * t,
        0 <= (k * t + o) / n < t,
{
    assert(0 <= k * t + o < n * t) by (nonlinear_arith)
        requires t > 0, 0 <= k < n, 0 <= o < t;
    vstd::arithmetic::div_mod::lemma_multiply_divide_lt(k * t + o, n, t);
    vstd::arithmetic::div_mod::lemma_div_pos_is_pos(k * t + o, n);
}

proof fn lemma_spaced_ordered(t: int, n: int, a: int, oa: int, b: int, ob: int)
    requires
        t > 0,
        n > 0,
        0 <= a <= b,
        0 <= oa < t,
        0 <= ob < t,
        a == b ==> oa <= ob,
    ensures
        (a * t + oa) / n <= (b * t + ob) / n,
{
    assert(a * t + oa <= b * t + ob) by (nonlinear_arith)
        requires t > 0, 0 <= a <= b, 0 <= oa < t, 0 <= ob < t, a == b ==> oa <= ob;
    vstd::arithmetic::div_mod::lemma_div_is_ordered(a * t + oa, b * t + ob, n);
}

/// One draw `(k * t + o) / n`, computed without overflow.
fn spaced_draw(t: u64, n: usize, k: usize, o: u64) -> (d: u64)
    requires
        t > 0,
        k < n,
        o < t,
    ensures
        d == (k * t + o) / (n as int),
        d < t,
{
    proof {
        lemma_spaced_draw(t as int, n as int, k as int, o as int);
        assert((k as u128) * (t as u128) + (o as u128) < (n as u128) * (t as u128)) by (nonlinear_arith)
            requires t > 0, k < n, o < t;
        assert((n as int) * (t as int) <= 0xffff_ffff_ffff_ffff_ffff_ffff_ffff_ffffint) by (nonlinear_arith)
            requires n <= usize::MAX, t <= u64::MAX, usize::MAX <= u64::MAX;
    }
    let x: u128 = (k as u128) * (t as u128) + (o as u128);
    (x / (n as u128)) as u64
}

/// The stratified draws for the given per-stratum offsets.
pub fn stratified_draws(t: u64, offsets: &Vec<u64>) -> (draws: Vec<u64>)
    requires
        t > 0,
        forall|k: int| 0 <= k < offsets.len() ==> #[trigger] offsets@[k] < t,
    ensures
        draws@ == stratified_seq(t as int, offsets@),
        is_sorted(draws@),
        forall|k: int| 0 <= k < draws.len() ==> #[trigger] draws@[k] < t,
{
    let n = offsets.len();
    let mut draws: Vec<u64> = Vec::new();
    let mut k: usize = 0;
    while k < n
        invariant
            n == offsets.len(),
            t > 0,
            forall|j: int| 0 <= j < n ==> #[trigger] offsets@[j] < t,
            k <= n,
            draws.len() == k,
            forall|j: int| 0 <= j < k ==> #[trigger] draws@[j] == stratified_seq(t as int, offsets@)[j],
            forall|j: int| 0 <= j < k ==> #[trigger] draws@[j] < t,
        decreases n - k,
    {
        let d = spaced_draw(t, n, k, offsets[k]);
        draws.push(d);
        k = k + 1;
    }
    proof {
        assert(draws@ =~= stratified_seq(t as int, offsets@));
        assert forall|a: int, b: int| 0 <= a <= b < draws.len() implies draws@[a] <= draws@[b] by {
            lemma_spaced_draw(t as int, n as int, a, offsets@[a] as int);
            lemma_spaced_draw(t as int, n as int, b, offsets@[b] as int);
            lemma_spaced_ordered(t as int, n as int, a, offsets@[a] as int, b, offsets@[b] as int);
        }
    }
    draws
}

/// The systematic draws for `n` particles and one shared offset.
pub fn systematic_draws(t: u64, n: usize, offset: u64) -> (draws: Vec<u64>)
    requires
        t > 0,
        offset < t,
    ensures
        draws@ == systematic_seq(t as int, n as nat, offset),
        is_sorted(draws@),
        forall|k: int| 0 <= k < draws.len() ==> #[trigger] draws@[k] < t,
{
    let mut draws: Vec<u64> = Vec::new();
    let mut k: usize = 0;
    while k < n
        invariant
            t > 0,
            offset < t,
            k <= n,
            draws.len() == k,
            forall|j: int| 0 <= j < k ==> #[trigger] draws@[j] == systematic_seq(t as int, n as nat, offset)[j],
            forall|j: int| 0 <= j < k ==> #[trigger] draws@[j] < t,
        decreases n - k,
    {
        let d = spaced_draw(t, n, k, offset);
        draws.push(d);
        k = k + 1;
    }
    proof {
        assert(draws@ =~= systematic_seq(t as int, n as nat, offset));
        assert forall|a: int, b: int| 0 <= a <= b < draws.len() implies draws@[a] <= draws@[b] by {
            lemma_spaced_draw(t as int, n as int, a, offset as int);
            lemma_spaced_draw(t as int, n as int, b, offset as int);
            lemma_spaced_ordered(t as int, n as int, a, offset as int, b, offset as int);
        }
    }
    draws
}

/// Relies on `rand::Rng::gen_range` over `rand::thread_rng()`: a value in
/// `[0, bound)`. The call panics on an empty range, which `requires` rules out.
#[verifier::external_body]
fn uniform_below(bound: u64) -> (r: u64)
    requires
        bound > 0,
    ensures
        r < bound,
{
    rand::Rng::gen_range(&mut rand::thread_rng(), 0..bound)
}

/// `n` independent uniform values in `[0, bound)`.
fn uniform_draws(n: usize, bound: u64) -> (v: Vec<u64>)
    requires
        bound > 0,
    ensures
        v.len() == n,
        forall|k: int| 0 <= k < n ==> #[trigger] v@[k] < bound,
{
    let mut v: Vec<u64> = Vec::new();
    let mut k: usize = 0;
    while k < n
        invariant
            bound > 0,
            k <= n,
            v.len() == k,
            forall|j: int| 0 <= j < k ==> #[trigger] v@[j] < bound,
        decreases n - k,
    {
        let d = uniform_below(bound);
        v.push(d);
        k = k + 1;
    }
    v
}

/// Checks that `particles` can be resampled under `weights`; yields the total weight.
pub fn check_input<P>(particles: &Vec<P>, weights: &Vec<u64>) -> (r: Result<u64, ResampleError>)
    ensures
        match input_error(particles@, weights@) {
            Some(e) => r == Err::<u64, ResampleError>(e),
            None => r == Ok::<u64, ResampleError>(total(weights@) as u64) && total(weights@) > 0,
        },
{
    proof {
        lemma_prefix_nonneg(weights@, weights.len() as int);
    }
    if particles.len() != weights.len() {
        return Err(ResampleError::LengthMismatch);
    }
    total_weight(weights)
}

/// `out` is what the selection gives for some `n` independent draws below the total.
pub open spec fn multinomial_outcome<P>(particles: Seq<P>, w: Seq<u64>, out: Seq<P>) -> bool {
    exists|d: Seq<u64>| d.len() == w.len() && draws_in_range(w, d) && #[trigger] picks(particles, w, d, out)
}

/// As `multinomial_outcome`, with the draws in ascending order.
pub open spec fn sorted_outcome<P>(particles: Seq<P>, w: Seq<u64>, out: Seq<P>) -> bool {
    exists|d: Seq<u64>|
        d.len() == w.len() && is_sorted(d) && draws_in_range(w, d) && #[trigger] picks(particles, w, d, out)
}

/// `out` is what the selection gives for one draw in each of `n` equal strata.
pub open spec fn stratified_outcome<P>(particles: Seq<P>, w: Seq<u64>, out: Seq<P>) -> bool {
    exists|o: Seq<u64>|
        o.len() == w.len() && (forall|k: int| 0 <= k < o.len() ==> #[trigger] o[k] < total(w))
            && #[trigger] picks(particles, w, stratified_seq(total(w), o), out)
}

/// `out` is what the selection gives for `n` equally spaced draws from one offset.
pub open spec fn systematic_outcome<P>(particles: Seq<P>, w: Seq<u64>, out: Seq<P>) -> bool {
    exists|o: u64| o < total(w) && #[trigger] picks(particles, w, systematic_seq(total(w), w.len(), o), out)
}

/// Multinomial resampling: `n` independent draws, each located by its own
/// scan of the cumulative weights.
pub fn resampling<P: Copy>(particles: &Vec<P>, weights: &Vec<u64>) -> (r: Result<Vec<P>, ResampleError>)
    ensures
        match input_error(particles@, weights@) {
            Some(e) => r == Err::<Vec<P>, ResampleError>(e),
            None => r matches Ok(out) && out.len() == particles.len()
                && multinomial_outcome(particles@, weights@, out@)
                && drawn_from_support(particles@, weights@, out@),
        },
{
    let t = match check_input(particles, weights) {
        Ok(t) => t,
        Err(e) => return Err(e),
    };
    let n = particles.len();
    let mut out: Vec<P> = Vec::new();
    let ghost mut d: Seq<u64> = Seq::empty();
    let mut k: usize = 0;
    while k < n
        invariant
            n == particles.len(),
            n == weights.len(),
            t > 0,
            t as int == total(weights@),
            k <= n,
            out.len() == k,
            d.len() == k,
            draws_in_range(weights@, d),
            picks(particles@, weights@, d, out@),
            drawn_from_support(particles@, weights@, out@),
        decreases n - k,
    {
        let x = uniform_below(t);
        let i = bucket_of(weights, x);
        proof {
            lemma_bucket_unique(weights@, x as int, i as int);
            assert(in_support(particles@, weights@, particles@[i as int]));
            d = d.push(x);
        }
        out.push(particles[i]);
        k = k + 1;
        proof {
            assert(forall|j: int| 0 <= j < k - 1 ==> #[trigger] d[j] == d.drop_last()[j]);
            assert(forall|j: int| 0 <= j < k - 1 ==> #[trigger] out@[j] == out@.drop_last()[j]);
        }
    }
    Ok(out)
}

/// Sorted multinomial resampling: `n` independent draws, sorted, then one sweep.
pub fn resampling_sort<P: Copy>(particles: &Vec<P>, weights: &Vec<u64>) -> (r: Result<Vec<P>, ResampleError>)
    ensures
        match input_error(particles@, weights@) {
            Some(e) => r == Err::<Vec<P>, ResampleError>(e),
            None => r matches Ok(out) && out.len() == particles.len()
                && sorted_outcome(particles@, weights@, out@)
                && drawn_from_support(particles@, weights@, out@),
        },
{
    let t = match check_input(particles, weights) {
        Ok(t) => t,
        Err(e) => return Err(e),
    };
    let mut draws = uniform_draws(particles.len(), t);
    assert(draws_in_range(weights@, draws@));
    let r = resample(&mut draws, particles, weights);
    proof {
        assert(r is Ok);
        assert(picks(particles@, weights@, draws@, r->Ok_0@));
    }
    r
}

/// Stratified resampling: one independent draw in each of `n` equal strata.
pub fn resampling_stratified<P: Copy>(particles: &Vec<P>, weights: &Vec<u64>) -> (r: Result<Vec<P>, ResampleError>)
    ensures
        match input_error(particles@, weights@) {
            Some(e) => r == Err::<Vec<P>, ResampleError>(e),
            None => r matches Ok(out) && out.len() == particles.len()
                && stratified_outcome(particles@, weights@, out@)
                && drawn_from_support(particles@, weights@, out@),
        },
{
    let t = match check_input(particles, weights) {
        Ok(t) => t,
        Err(e) => return Err(e),
    };
    let offsets = uniform_draws(particles.len(), t);
    let draws = stratified_draws(t, &offsets);
    let out = select_sorted(&draws, particles, weights);
    proof {
        assert(picks(particles@, weights@, stratified_seq(total(weights@), offsets@), out@));
    }
    Ok(out)
}

/// Systematic resampling: one shared random offset, then `n` equally spaced draws.
pub fn resampling_systematic<P: Copy>(particles: &Vec<P>, weights: &Vec<u64>) -> (r: Result<Vec<P>, ResampleError>)
    ensures
        match input_error(particles@, weights@) {
            Some(e) => r == Err::<Vec<P>, ResampleError>(e),
            None => r matches Ok(out) && out.len() == particles.len()
                && systematic_outcome(particles@, weights@, out@)
                && drawn_from_support(particles@, weights@, out@),
        },
{
    let t = match check_input(particles, weights) {
        Ok(t) => t,
        Err(e) => return Err(e),
    };
    let offset = uniform_below(t);
    let draws = systematic_draws(t, particles.len(), offset);
    let out = select_sorted(&draws, particles, weights);
    proof {
        assert(picks(particles@, weights@, systematic_seq(total(weights@), weights.len() as nat, offset), out@));
    }
    Ok(out)
}

/// How the draws of a resampling step are generated; fixed when an
/// estimator is built.
#[derive(Clone, Copy, Debug, PartialEq, Eq, Structural)]
pub enum ResamplingScheme {
    /// Independent uniform draws, sorted before the sweep.
    IID,
    /// One independent draw per equal-width stratum.
    Stratified,
    /// One shared offset, equally spaced draws.
    Systematic,
}

/// What every outcome of `scheme` satisfies.
pub open spec fn scheme_outcome<P>(scheme: ResamplingScheme, particles: Seq<P>, w: Seq<u64>, out: Seq<P>) -> bool {
    match scheme {
        ResamplingScheme::IID => sorted_outcome(particles, w, out),
        ResamplingScheme::Stratified => stratified_outcome(particles, w, out),
        ResamplingScheme::Systematic => systematic_outcome(particles, w, out),
    }
}

/// Resamples by the given scheme.
pub fn resample_with_scheme<P: Copy>(scheme: ResamplingScheme, particles: &Vec<P>, weights: &Vec<u64>) -> (r: Result<Vec<P>, ResampleError>)
    ensures
        match input_error(particles@, weights@) {
            Some(e) => r == Err::<Vec<P>, ResampleError>(e),
            None => r matches Ok(out) && out.len() == particles.len()
                && scheme_outcome(scheme, particles@, weights@, out@)
                && drawn_from_support(particles@, weights@, out@),
        },
{
    match scheme {
        ResamplingScheme::IID => resampling_sort(particles, weights),
        ResamplingScheme::Stratified => resampling_stratified(particles, weights),
        ResamplingScheme::Systematic => resampling_systematic(particles, weights),
    }
}

} // verus!
