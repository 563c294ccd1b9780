//! What the resampling schemes guarantee beyond a single call: weight that
//! sits on one particle, equal weights, and how far the number of copies of
//! a particle strays from its expected number.
use vstd::prelude::*;
use crate::resampling::{
    bucket, drawn_from_support, in_bucket, in_support, lemma_bucket_unique, lemma_prefix_monotone,
    lemma_prefix_nonneg, lemma_prefix_step, lemma_spaced_draw, picks, prefix, stratified_outcome,
    stratified_seq, systematic_outcome, systematic_seq, total,
};

verus! {

/// When every weight but particle `j`'s is zero, each resampled particle is
/// a copy of particle `j`, whichever scheme drew it.
pub proof fn lemma_concentrated_weight<P>(particles: Seq<P>, w: Seq<u64>, out: Seq<P>, j: int)
    requires
        0 <= j < w.len(),
        forall|i: int| 0 <= i < w.len() && i != j ==> w[i] == 0,
        drawn_from_support(particles, w, out),
    ensures
        forall|k: int| 0 <= k < out.len() ==> out[k] == particles[j],
{
    assert forall|k: int| 0 <= k < out.len() implies out[k] == particles[j] by {
        assert(in_support(particles, w, out[k]));
    }
}

proof fn lemma_prefix_equal(w: Seq<u64>, c: int, i: int)
    requires
        0 <= i <= w.len(),
        forall|j: int| 0 <= j < w.len() ==> w[j] == c,
    ensures
        prefix(w, i) == i * c,
    decreases i,
{
    if i > 0 {
        lemma_prefix_equal(w, c, i - 1);
        lemma_prefix_step(w, i - 1);
        assert(w[i - 1] == c);
        assert(i * c == (i - 1) * c + c) by (nonlinear_arith);
        assert(prefix(w, i) == prefix(w, i - 1) + w[i - 1]);
    } else {
        assert(prefix(w, 0) == 0);
        assert(0 * c == 0);
    }
}

/// Under equal weights `c`, the draw `(k * n * c + o) / n` with `o < n * c`
/// falls in particle `k`'s bucket.
proof fn lemma_equal_weight_bucket(w: Seq<u64>, c: int, k: int, o: int)
    requires
        c > 0,
        0 <= k < w.len(),
        0 <= o < w.len() * c,
        forall|j: int| 0 <= j < w.len() ==> w[j] == c,
    ensures
        bucket(w, (k * total(w) + o) / (w.len() as int)) == k,
{
    let n = w.len() as int;
    lemma_prefix_equal(w, c, n);
    lemma_prefix_equal(w, c, k);
    lemma_prefix_equal(w, c, k + 1);
    let x = k * (n * c) + o;
    let q = x / n;
    vstd::arithmetic::div_mod::lemma_fundamental_div_mod(x, n);
    vstd::arithmetic::div_mod::lemma_mod_bound(x, n);
    let m = x % n;
    assert(x == n * q + m);
    assert(k * c <= q < (k + 1) * c) by (nonlinear_arith)
        requires x == n * q + m, 0 <= m < n, x == k * (n * c) + o, 0 <= o < n * c, n > 0, c > 0;
    assert(in_bucket(w, q, k));
    lemma_bucket_unique(w, q, k);
}

/// With equal positive weights, stratified and systematic resampling hand
/// back the particle set unchanged, in order; so its empirical mean and
/// covariance are kept exactly.
pub proof fn lemma_equal_weights_preserve<P>(particles: Seq<P>, w: Seq<u64>, out: Seq<P>, c: u64)
    requires
        particles.len() == w.len(),
        c > 0,
        forall|j: int| 0 <= j < w.len() ==> w[j] == c,
        total(w) <= u64::MAX,
        stratified_outcome(particles, w, out) || systematic_outcome(particles, w, out),
    ensures
        out == particles,
{
    let n = w.len() as int;
    lemma_prefix_equal(w, c as int, n);
    if stratified_outcome(particles, w, out) {
        let o = choose|o: Seq<u64>|
            o.len() == w.len() && (forall|k: int| 0 <= k < o.len() ==> #[trigger] o[k] < total(w))
                && #[trigger] picks(particles, w, stratified_seq(total(w), o), out);
        assert forall|k: int| 0 <= k < out.len() implies out[k] == particles[k] by {
            let d = stratified_seq(total(w), o)[k];
            lemma_spaced_draw(total(w), n, k, o[k] as int);
            lemma_equal_weight_bucket(w, c as int, k, o[k] as int);
            assert(out[k] == particles[bucket(w, d as int)]);
        }
    } else {
        let o = choose|o: u64| o < total(w) && #[trigger] picks(particles, w, systematic_seq(total(w), w.len(), o), out);
        assert forall|k: int| 0 <= k < out.len() implies out[k] == particles[k] by {
            let d = systematic_seq(total(w), w.len(), o)[k];
            lemma_spaced_draw(total(w), n, k, o as int);
            lemma_equal_weight_bucket(w, c as int, k, o as int);
            assert(out[k] == particles[bucket(w, d as int)]);
        }
    }
    assert(out =~= particles);
}

/// Number of the draws that fall in particle `i`'s bucket.
pub open spec fn selections(w: Seq<u64>, draws: Seq<u64>, i: int) -> nat
    decreases draws.len(),
{
    if draws.len() == 0 {
        0
    } else {
        selections(w, draws.drop_last(), i) + if in_bucket(w, draws.last() as int, i) { 1nat } else { 0nat }
    }
}

/// Number of `k < m` with `k * t + o < y`.
spec fn below(m: int, t: int, o: int, y: int) -> int
    decreases m,
{
    if m <= 0 {
        0
    } else {
        below(m - 1, t, o, y) + if (m - 1) * t + o < y { 1int } else { 0int }
    }
}

proof fn lemma_below_bounds(m: int, t: int, o: int, y: int)
    requires
        m >= 0,
        t > 0,
    ensures
        0 <= below(m, t, o, y) <= m,
        below(m, t, o, y) == m || t * below(m, t, o, y) + o >= y,
        below(m, t, o, y) == 0 || t * (below(m, t, o, y) - 1) + o < y,
    decreases m,
{
    if m > 0 {
        lemma_below_bounds(m - 1, t, o, y);
        let b = below(m - 1, t, o, y);
        if (m - 1) * t + o < y {
            assert(b == m - 1) by {
                if b < m - 1 {
                    assert(t * b <= (m - 1) * t) by (nonlinear_arith)
                        requires 0 <= b < m - 1, t > 0;
                }
            }
            assert(t * (m - 1) == (m - 1) * t) by (nonlinear_arith);
        } else {
            assert(t * (m - 1) == (m - 1) * t) by (nonlinear_arith);
        }
    }
}

/// With `x = d * n + r`, `0 <= r < n`: `x / n` lies in `[p, q)` exactly when
/// `n * p <= x < n * q`.
proof fn lemma_floor_interval(x: int, n: int, p: int, q: int)
    requires
        x >= 0,
        n > 0,
    ensures
        (p <= x / n < q) <==> (n * p <= x < n * q),
{
    let d = x / n;
    vstd::arithmetic::div_mod::lemma_fundamental_div_mod(x, n);
    vstd::arithmetic::div_mod::lemma_mod_bound(x, n);
    let r = x % n;
    assert(x == n * d + r);
    assert(p <= d ==> n * p <= x) by (nonlinear_arith)
        requires x == n * d + r, 0 <= r < n, n > 0;
    assert(n * p <= x ==> p <= d) by (nonlinear_arith)
        requires x == n * d + r, 0 <= r < n, n > 0;
    assert(d < q ==> x < n * q) by (nonlinear_arith)
        requires x == n * d + r, 0 <= r < n, n > 0;
    assert(x < n * q ==> d < q) by (nonlinear_arith)
        requires x == n * d + r, 0 <= r < n, n > 0;
}

proof fn lemma_systematic_selections(w: Seq<u64>, o: u64, i: int, m: int)
    requires
        w.len() > 0,
        0 < total(w) <= u64::MAX,
        o < total(w),
        0 <= i < w.len(),
        0 <= m <= w.len(),
    ensures
        selections(w, systematic_seq(total(w), w.len(), o).subrange(0, m), i) == below(
            m,
            total(w),
            o as int,
            w.len() * prefix(w, i + 1),
        ) - below(m, total(w), o as int, w.len() * prefix(w, i)),
    decreases m,
{
    let t = total(w);
    let n = w.len() as int;
    let sys = systematic_seq(t, w.len(), o);
    if m > 0 {
        lemma_systematic_selections(w, o, i, m - 1);
        assert(sys.subrange(0, m).drop_last() =~= sys.subrange(0, m - 1));
        let k = m - 1;
        let x = k * t + o;
        lemma_spaced_draw(t, n, k, o as int);
        lemma_floor_interval(x, n, prefix(w, i), prefix(w, i + 1));
        lemma_prefix_monotone(w, i, i + 1);
        assert(n * prefix(w, i) <= n * prefix(w, i + 1)) by (nonlinear_arith)
            requires n > 0, prefix(w, i) <= prefix(w, i + 1);
        assert(sys.subrange(0, m).last() == sys[k]);
    }
}

/// Systematic resampling keeps the number of copies of each particle within
/// one of its expected number `n * w[i] / total`: with `c` copies,
/// `|c * total - n * w[i]| < total`. (Independent draws give no such bound,
/// which is why this scheme has the lower selection variance.)
pub proof fn lemma_systematic_copies(w: Seq<u64>, o: u64, i: int)
    requires
        w.len() > 0,
        0 < total(w) <= u64::MAX,
        o < total(w),
        0 <= i < w.len(),
    ensures
        ({
            let c = selections(w, systematic_seq(total(w), w.len(), o), i) as int;
            &&& c * total(w) > w.len() * w[i] - total(w)
            &&& c * total(w) < w.len() * w[i] + total(w)
        }),
{
    let t = total(w);
    let n = w.len() as int;
    let sys = systematic_seq(t, w.len(), o);
    lemma_systematic_selections(w, o, i, n);
    assert(sys.subrange(0, n) =~= sys);
    let y1 = n * prefix(w, i + 1);
    let y0 = n * prefix(w, i);
    lemma_prefix_step(w, i);
    lemma_prefix_monotone(w, i, i + 1);
    lemma_prefix_monotone(w, i + 1, n);
    lemma_prefix_nonneg(w, i);
    assert(y1 - y0 == n * w[i]) by (nonlinear_arith)
        requires y1 == n * prefix(w, i + 1), y0 == n * prefix(w, i), prefix(w, i + 1) == prefix(w, i) + w[i];
    assert(0 <= y0 <= y1 <= n * t) by (nonlinear_arith)
        requires y1 == n * prefix(w, i + 1), y0 == n * prefix(w, i), 0 <= prefix(w, i) <= prefix(w, i + 1) <= t, n > 0;
    lemma_below_bounds(n, t, o as int, y1);
    lemma_below_bounds(n, t, o as int, y0);
    let b1 = below(n, t, o as int, y1);
    let b0 = below(n, t, o as int, y0);
    assert(t * b1 + o >= y1) by (nonlinear_arith)
        requires b1 == n || t * b1 + o >= y1, y1 <= n * t, o >= 0;
    assert(t * (b1 - 1) + o < y1) by (nonlinear_arith)
        requires b1 == 0 || t * (b1 - 1) + o < y1, y1 >= 0, o < t;
    assert(t * b0 + o >= y0) by (nonlinear_arith)
        requires b0 == n || t * b0 + o >= y0, y0 <= n * t, o >= 0;
    assert(t * (b0 - 1) + o < y0) by (nonlinear_arith)
        requires b0 == 0 || t * (b0 - 1) + o < y0, y0 >= 0, o < t;
    let c = b1 - b0;
    assert(c * t > n * w[i] - t && c * t < n * w[i] + t) by (nonlinear_arith)
        requires c == b1 - b0, t * b1 + o >= y1, t * (b1 - 1) + o < y1, t * b0 + o >= y0,
            t * (b0 - 1) + o < y0, y1 - y0 == n * w[i];
}

/// Number of `k < m` with `k * t + offsets[k] < y`.
spec fn below_offsets(m: int, t: int, offsets: Seq<u64>, y: int) -> int
    decreases m,
{
    if m <= 0 {
        0
    } else {
        below_offsets(m - 1, t, offsets, y) + if (m - 1) * t + offsets[m - 1] < y { 1int } else { 0int }
    }
}

proof fn lemma_below_offsets_bounds(m: int, t: int, offsets: Seq<u64>, y: int)
    requires
        0 <= m <= offsets.len(),
        t > 0,
        forall|k: int| 0 <= k < offsets.len() ==> #[trigger] offsets[k] < t,
    ensures
        0 <= below_offsets(m, t, offsets, y) <= m,
        below_offsets(m, t, offsets, y) == m || t * below_offsets(m, t, offsets, y) + t > y,
        below_offsets(m, t, offsets, y) == 0 || t * (below_offsets(m, t, offsets, y) - 1) < y,
    decreases m,
{
    if m > 0 {
        lemma_below_offsets_bounds(m - 1, t, offsets, y);
        let b = below_offsets(m - 1, t, offsets, y);
        let om = offsets[m - 1] as int;
        if (m - 1) * t + om < y {
            assert(b == m - 1) by {
                if b < m - 1 {
                    assert(t * b + t <= (m - 1) * t) by (nonlinear_arith)
                        requires 0 <= b < m - 1, t > 0;
                }
            }
            assert(t * (m - 1) == (m - 1) * t) by (nonlinear_arith);
        } else {
            assert(t * (m - 1) == (m - 1) * t) by (nonlinear_arith);
        }
    }
}

proof fn lemma_stratified_selections(w: Seq<u64>, offsets: Seq<u64>, i: int, m: int)
    requires
        w.len() > 0,
        offsets.len() == w.len(),
        0 < total(w) <= u64::MAX,
        forall|k: int| 0 <= k < offsets.len() ==> #[trigger] offsets[k] < total(w),
        0 <= i < w.len(),
        0 <= m <= w.len(),
    ensures
        selections(w, stratified_seq(total(w), offsets).subrange(0, m), i) == below_offsets(
            m,
            total(w),
            offsets,
            w.len() * prefix(w, i + 1),
        ) - below_offsets(m, total(w), offsets, w.len() * prefix(w, i)),
    decreases m,
{
    let t = total(w);
    let n = w.len() as int;
    let st = stratified_seq(t, offsets);
    if m > 0 {
        lemma_stratified_selections(w, offsets, i, m - 1);
        assert(st.subrange(0, m).drop_last() =~= st.subrange(0, m - 1));
        let k = m - 1;
        let x = k * t + offsets[k];
        lemma_spaced_draw(t, n, k, offsets[k] as int);
        lemma_floor_interval(x, n, prefix(w, i), prefix(w, i + 1));
        lemma_prefix_monotone(w, i, i + 1);
        assert(n * prefix(w, i) <= n * prefix(w, i + 1)) by (nonlinear_arith)
            requires n > 0, prefix(w, i) <= prefix(w, i + 1);
        assert(st.subrange(0, m).last() == st[k]);
    }
}

/// Stratified resampling keeps the number of copies of each particle within
/// two of its expected number `n * w[i] / total`: with `c` copies,
/// `|c * total - n * w[i]| < 2 * total`.
pub proof fn lemma_stratified_copies(w: Seq<u64>, offsets: Seq<u64>, i: int)
    requires
        w.len() > 0,
        offsets.len() == w.len(),
        0 < total(w) <= u64::MAX,
        forall|k: int| 0 <= k < offsets.len() ==> #[trigger] offsets[k] < total(w),
        0 <= i < w.len(),
    ensures
        ({
            let c = selections(w, stratified_seq(total(w), offsets), i) as int;
            &&& c * total(w) > w.len() * w[i] - 2 * total(w)
            &&& c * total(w) < w.len() * w[i] + 2 * total(w)
        }),
{
    let t = total(w);
    let n = w.len() as int;
    let st = stratified_seq(t, offsets);
    lemma_stratified_selections(w, offsets, i, n);
    assert(st.subrange(0, n) =~= st);
    let y1 = n * prefix(w, i + 1);
    let y0 = n * prefix(w, i);
    lemma_prefix_step(w, i);
    lemma_prefix_monotone(w, i, i + 1);
    lemma_prefix_monotone(w, i + 1, n);
    lemma_prefix_nonneg(w, i);
    assert(y1 - y0 == n * w[i]) by (nonlinear_arith)
        requires y1 == n * prefix(w, i + 1), y0 == n * prefix(w, i), prefix(w, i + 1) == prefix(w, i) + w[i];
    assert(0 <= y0 <= y1 <= n * t) by (nonlinear_arith)
        requires y1 == n * prefix(w, i + 1), y0 == n * prefix(w, i), 0 <= prefix(w, i) <= prefix(w, i + 1) <= t, n > 0;
    lemma_below_offsets_bounds(n, t, offsets, y1);
    lemma_below_offsets_bounds(n, t, offsets, y0);
    let b1 = below_offsets(n, t, offsets, y1);
    let b0 = below_offsets(n, t, offsets, y0);
    assert(t * b1 + t > y1) by (nonlinear_arith)
        requires b1 == n || t * b1 + t > y1, y1 <= n * t, t > 0;
    assert(t * (b1 - 1) < y1) by (nonlinear_arith)
        requires b1 == 0 || t * (b1 - 1) < y1, y1 >= 0, t > 0;
    assert(t * b0 + t > y0) by (nonlinear_arith)
        requires b0 == n || t * b0 + t > y0, y0 <= n * t, t > 0;
    assert(t * (b0 - 1) < y0) by (nonlinear_arith)
        requires b0 == 0 || t * (b0 - 1) < y0, y0 >= 0, t > 0;
    let c = b1 - b0;
    assert(c * t > n * w[i] - 2 * t && c * t < n * w[i] + 2 * t) by (nonlinear_arith)
        requires c == b1 - b0, t * b1 + t > y1, t * (b1 - 1) < y1, t * b0 + t > y0,
            t * (b0 - 1) < y0, y1 - y0 == n * w[i];
}

} // verus!
