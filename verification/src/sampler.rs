//! The sampler: select the next token id from a logits vector.
//!
//! Three mutually exclusive policies: greedy argmax when no temperature is
//! set; temperature-scaled softmax sampling when only a temperature is set;
//! nucleus (top-p) sampling when both a temperature and a cutoff are set.
//!
//! The softmax is computed in fixed point: every logit is measured as a
//! distance below the maximum logit, scaled by the reciprocal temperature,
//! and mapped through a base-two exponential with linearly interpolated
//! fractional part.  The maximal logit always receives weight `SCALE`, so a
//! non-empty vector always carries positive total mass.

use vstd::prelude::*;
use crate::{GenError, Ratio, MAX_RATIO};
use crate::rng::{spec_next_state, SampleRng};

verus! {

/// Largest magnitude a logit may have when it reaches the sampler: a bounded
/// model logit rescaled once by a bounded penalty, `MAX_LOGIT * MAX_RATIO`.
pub const MAX_SCALED: i64 = 0x1000_0000_0000_0000;

/// The index of the greatest logit, earliest index winning ties.
pub open spec fn spec_argmax(s: Seq<i64>) -> int
    decreases s.len(),
{
    if s.len() <= 1 {
        0
    } else {
        let p = spec_argmax(s.drop_last());
        if s.last() > s[p] {
            s.len() - 1
        } else {
            p
        }
    }
}

/// The argmax is in range, no element exceeds it, and every earlier element
/// is strictly below it (ties go to the first occurrence).
pub proof fn lemma_argmax_props(s: Seq<i64>)
    requires
        s.len() > 0,
    ensures
        0 <= spec_argmax(s) < s.len(),
        forall|j: int| 0 <= j < s.len() ==> #[trigger] s[j] <= s[spec_argmax(s)],
        forall|j: int| 0 <= j < spec_argmax(s) ==> #[trigger] s[j] < s[spec_argmax(s)],
    decreases s.len(),
{
    if s.len() > 1 {
        lemma_argmax_props(s.drop_last());
        assert forall|j: int| 0 <= j < s.len() implies #[trigger] s[j] <= s[spec_argmax(s)] by {
            if j < s.len() - 1 {
                assert(s.drop_last()[j] == s[j]);
            }
        }
        assert forall|j: int| 0 <= j < spec_argmax(s) implies #[trigger] s[j]
            < s[spec_argmax(s)] by {
            if j < s.len() - 1 {
                assert(s.drop_last()[j] == s[j]);
            }
        }
    }
}

/// Choose the index of the maximum logit; deterministic, no randomness
/// consumed.  Fails only on an empty vector.
pub fn argmax(logits: &Vec<i64>) -> (r: Result<usize, GenError>)
    ensures
        logits@.len() == 0 <==> r == Err::<usize, GenError>(GenError::Sampling),
        logits@.len() > 0 ==> r == Ok::<usize, GenError>(spec_argmax(logits@) as usize),
{
    if logits.len() == 0 {
        return Err(GenError::Sampling);
    }
    let mut best: usize = 0;
    let mut i: usize = 1;
    while i < logits.len()
        invariant
            1 <= i <= logits@.len(),
            best < i,
            best == spec_argmax(logits@.take(i as int)),
        decreases logits@.len() - i,
    {
        proof {
            let pre = logits@.take(i as int);
            let cur = logits@.take(i + 1);
            assert(cur.drop_last() =~= pre);
            lemma_argmax_props(pre);
        }
        if logits[i] > logits[best] {
            best = i;
        }
        i = i + 1;
    }
    proof {
        assert(logits@.take(logits@.len() as int) =~= logits@);
    }
    Ok(best)
}

/// Sum of the first `k` weights.
pub open spec fn wsum(s: Seq<u64>, k: int) -> int
    decreases k,
{
    if k <= 0 {
        0
    } else {
        wsum(s, k - 1) + s[k - 1]
    }
}

/// Prefix sums of weights are non-negative, monotone, and bounded by
/// `SCALE` per element when every weight is.
pub proof fn lemma_wsum_bounds(s: Seq<u64>, k: int)
    requires
        0 <= k <= s.len(),
    ensures
        0 <= wsum(s, k),
        (forall|i: int| 0 <= i < s.len() ==> #[trigger] s[i] <= crate::SCALE) ==> wsum(s, k)
            <= k * crate::SCALE,
    decreases k,
{
    if k > 0 {
        lemma_wsum_bounds(s, k - 1);
        assert((k - 1) * crate::SCALE + crate::SCALE == k * crate::SCALE) by (nonlinear_arith);
    }
}

/// Prefix sums grow with the prefix.
pub proof fn lemma_wsum_monotone(s: Seq<u64>, j: int, k: int)
    requires
        0 <= j <= k <= s.len(),
    ensures
        wsum(s, j) <= wsum(s, k),
    decreases k - j,
{
    if j < k {
        lemma_wsum_monotone(s, j, k - 1);
    }
}

/// `v` halved `q` times, rounding down each time.
pub open spec fn spec_halve(v: nat, q: nat) -> nat
    decreases q,
{
    if q == 0 {
        v
    } else {
        spec_halve(v / 2, (q - 1) as nat)
    }
}

/// Halving never grows a value.
pub proof fn lemma_halve_le(v: nat, q: nat)
    ensures
        spec_halve(v, q) <= v,
    decreases q,
{
    if q > 0 {
        lemma_halve_le(v / 2, (q - 1) as nat);
    }
}

/// Largest decay exponent the sampler distinguishes; everything beyond it
/// underflows to weight zero anyway.
pub const MAX_EXP: u64 = 65536;

/// The fixed-point base-two decay: `SCALE * 2^(-e / SCALE)`, with the
/// fractional part of the exponent interpolated linearly and the integer
/// part applied by halving.
pub open spec fn spec_exp2_neg(e: nat) -> nat {
    let q = e / (crate::SCALE as nat);
    let r = e % (crate::SCALE as nat);
    spec_halve((((2 * crate::SCALE - r as int) / 2) as nat), q)
}

/// Compute the fixed-point decay for a bounded exponent.
fn exp2_neg_exec(e: u64) -> (r: u64)
    requires
        e <= MAX_EXP,
    ensures
        r == spec_exp2_neg(e as nat),
        r <= crate::SCALE,
        e == 0 ==> r == crate::SCALE,
{
    let q: u64 = e / 1024;
    let rem: u64 = e % 1024;
    let mut w: u64 = (2048 - rem) / 2;
    proof {
        lemma_halve_le(w as nat, q as nat);
    }
    let mut i: u64 = 0;
    while i < q
        invariant
            i <= q,
            w <= crate::SCALE,
            spec_halve(w as nat, (q - i) as nat) == spec_exp2_neg(e as nat),
        decreases q - i,
    {
        proof {
            lemma_halve_le((w / 2) as nat, (q - i - 1) as nat);
        }
        w = w / 2;
        i = i + 1;
    }
    w
}

/// The greatest logit value.
pub open spec fn spec_max_val(s: Seq<i64>) -> i64 {
    s[spec_argmax(s)]
}

/// The fixed-point softmax weight of position `i`: the distance below the
/// maximum logit, scaled by the reciprocal temperature, pushed through the
/// base-two decay.  The maximum itself always weighs `SCALE`.
pub open spec fn spec_weight(s: Seq<i64>, temp: Ratio, i: int) -> u64 {
    let d = spec_max_val(s) - s[i];
    let scaled = (d * (temp.den as int)) / (temp.num as int);
    let e = if scaled < 0 {
        0
    } else if scaled > MAX_EXP {
        MAX_EXP as int
    } else {
        scaled
    };
    spec_exp2_neg(e as nat) as u64
}

/// The whole weight vector.
pub open spec fn spec_weights(s: Seq<i64>, temp: Ratio) -> Seq<u64> {
    Seq::new(s.len(), |i: int| spec_weight(s, temp, i))
}

/// Turn logits into the temperature-scaled softmax weight vector.
pub fn softmax_weights(logits: &Vec<i64>, temp: Ratio) -> (r: Result<Vec<u64>, GenError>)
    requires
        temp.wf(),
        logits@.len() <= 0x1_0000_0000,
        forall|i: int| 0 <= i < logits@.len() ==> -MAX_SCALED <= #[trigger] logits@[i]
            <= MAX_SCALED,
    ensures
        logits@.len() == 0 <==> r == Err::<Vec<u64>, GenError>(GenError::Sampling),
        logits@.len() > 0 <==> r is Ok,
        r is Ok ==> r->Ok_0@ == spec_weights(logits@, temp) && r->Ok_0@.len() == logits@.len()
            && (forall|i: int| 0 <= i < logits@.len() ==> #[trigger] r->Ok_0@[i] <= crate::SCALE)
            && r->Ok_0@[spec_argmax(logits@)] == crate::SCALE,
{
    let m = match argmax(logits) {
        Ok(m) => m,
        Err(e) => {
            return Err(e);
        },
    };
    proof {
        lemma_argmax_props(logits@);
    }
    let max_v: i64 = logits[m];
    let mut r: Vec<u64> = Vec::new();
    let mut i: usize = 0;
    while i < logits.len()
        invariant
            temp.wf(),
            i <= logits@.len(),
            logits@.len() > 0,
            m == spec_argmax(logits@),
            0 <= spec_argmax(logits@) < logits@.len(),
            max_v == spec_max_val(logits@),
            -MAX_SCALED <= max_v <= MAX_SCALED,
            forall|j: int| 0 <= j < logits@.len() ==> #[trigger] logits@[j] <= max_v,
            forall|j: int| 0 <= j < logits@.len() ==> -MAX_SCALED <= #[trigger] logits@[j]
                <= MAX_SCALED,
            r@.len() == i,
            forall|j: int| 0 <= j < i ==> #[trigger] r@[j] == spec_weight(logits@, temp, j),
            forall|j: int| 0 <= j < i ==> #[trigger] r@[j] <= crate::SCALE,
        decreases logits@.len() - i,
    {
        proof {
            assert(logits@[i as int] <= max_v);
            assert(-MAX_SCALED <= logits@[i as int] <= MAX_SCALED);
        }
        let d: i64 = max_v - logits[i];
        proof {
            assert(d * temp.den <= 2 * MAX_SCALED * MAX_RATIO) by (nonlinear_arith)
                requires
                    0 <= d <= 2 * MAX_SCALED,
                    0 < temp.den <= MAX_RATIO,
            ;
        }
        let wide: u128 = (d as u128) * (temp.den as u128);
        let scaled: u128 = wide / (temp.num as u128);
        let e: u64 = if scaled > MAX_EXP as u128 {
            MAX_EXP
        } else {
            scaled as u64
        };
        proof {
            let dsp = spec_max_val(logits@) - logits@[i as int];
            assert(d == dsp);
            assert(wide == dsp * temp.den);
            assert(scaled == (dsp * (temp.den as int)) / (temp.num as int));
        }
        let wgt = exp2_neg_exec(e);
        proof {
            assert(wgt == spec_weight(logits@, temp, i as int));
        }
        r.push(wgt);
        i = i + 1;
    }
    proof {
        assert(r@ =~= spec_weights(logits@, temp));
        let am = spec_argmax(logits@);
        assert(spec_max_val(logits@) - logits@[am] == 0);
        assert((0 * (temp.den as int)) / (temp.num as int) == 0) by (nonlinear_arith)
            requires
                temp.num > 0,
        ;
        assert(spec_weight(logits@, temp, am) == spec_exp2_neg(0));
        assert(spec_exp2_neg(0) == crate::SCALE);
    }
    Ok(r)
}

/// The total mass of a weight vector.
pub fn total_weight(w: &Vec<u64>) -> (t: u64)
    requires
        w@.len() <= 0x1_0000_0000,
        forall|i: int| 0 <= i < w@.len() ==> #[trigger] w@[i] <= crate::SCALE,
    ensures
        t == wsum(w@, w@.len() as int),
{
    let mut acc: u64 = 0;
    let mut i: usize = 0;
    while i < w.len()
        invariant
            i <= w@.len() <= 0x1_0000_0000,
            forall|j: int| 0 <= j < w@.len() ==> #[trigger] w@[j] <= crate::SCALE,
            acc == wsum(w@, i as int),
            acc <= i * crate::SCALE,
        decreases w@.len() - i,
    {
        proof {
            assert((i + 1) * crate::SCALE == i * crate::SCALE + crate::SCALE) by (nonlinear_arith);
        }
        acc = acc + w[i];
        i = i + 1;
    }
    acc
}

/// The total mass is at least any single weight.
pub proof fn lemma_wsum_ge_elem(s: Seq<u64>, i: int)
    requires
        0 <= i < s.len(),
    ensures
        wsum(s, s.len() as int) >= s[i],
{
    lemma_wsum_bounds(s, i);
    lemma_wsum_monotone(s, i + 1, s.len() as int);
}

/// Find the unique position whose cumulative span of mass contains `r`.
pub fn pick_weighted(w: &Vec<u64>, r: u64) -> (idx: usize)
    requires
        w@.len() <= 0x1_0000_0000,
        forall|i: int| 0 <= i < w@.len() ==> #[trigger] w@[i] <= crate::SCALE,
        r < wsum(w@, w@.len() as int),
    ensures
        idx < w@.len(),
        wsum(w@, idx as int) <= r < wsum(w@, idx as int + 1),
{
    let mut acc: u64 = 0;
    let mut i: usize = 0;
    while i < w.len()
        invariant
            i <= w@.len() <= 0x1_0000_0000,
            forall|j: int| 0 <= j < w@.len() ==> #[trigger] w@[j] <= crate::SCALE,
            acc == wsum(w@, i as int),
            acc <= i * crate::SCALE,
            acc <= r < wsum(w@, w@.len() as int),
        decreases w@.len() - i,
    {
        proof {
            assert((i + 1) * crate::SCALE == i * crate::SCALE + crate::SCALE) by (nonlinear_arith);
        }
        if r < acc + w[i] {
            return i;
        }
        acc = acc + w[i];
        i = i + 1;
    }
    proof {
        assert(false);
    }
    0
}

/// The span containing a draw is unique: two positions that both satisfy the
/// cumulative characterization coincide.
pub proof fn lemma_pick_unique(w: Seq<u64>, r: int, i1: int, i2: int)
    requires
        0 <= i1 < w.len(),
        0 <= i2 < w.len(),
        wsum(w, i1) <= r < wsum(w, i1 + 1),
        wsum(w, i2) <= r < wsum(w, i2 + 1),
    ensures
        i1 == i2,
{
    if i1 < i2 {
        lemma_wsum_monotone(w, i1 + 1, i2);
    }
    if i2 < i1 {
        lemma_wsum_monotone(w, i2 + 1, i1);
    }
}

/// Sum of the weights of the first `k` ranked pairs.
pub open spec fn psum(s: Seq<(u64, usize)>, k: int) -> int
    decreases k,
{
    if k <= 0 {
        0
    } else {
        psum(s, k - 1) + s[k - 1].0
    }
}

/// Prefix sums of pairs are non-negative and bounded by `SCALE` per element.
pub proof fn lemma_psum_bounds(s: Seq<(u64, usize)>, k: int)
    requires
        0 <= k <= s.len(),
    ensures
        0 <= psum(s, k),
        (forall|i: int| 0 <= i < s.len() ==> (#[trigger] s[i]).0 <= crate::SCALE) ==> psum(s, k)
            <= k * crate::SCALE,
    decreases k,
{
    if k > 0 {
        lemma_psum_bounds(s, k - 1);
        assert((k - 1) * crate::SCALE + crate::SCALE == k * crate::SCALE) by (nonlinear_arith);
    }
}

/// Prefix sums of pairs grow with the prefix.
pub proof fn lemma_psum_monotone(s: Seq<(u64, usize)>, j: int, k: int)
    requires
        0 <= j <= k <= s.len(),
    ensures
        psum(s, j) <= psum(s, k),
    decreases k - j,
{
    if j < k {
        lemma_psum_monotone(s, j, k - 1);
    }
}

/// Sequences that agree on a prefix have the same prefix sum.
pub proof fn lemma_psum_prefix_eq(a: Seq<(u64, usize)>, b: Seq<(u64, usize)>, k: int)
    requires
        0 <= k <= a.len(),
        k <= b.len(),
        forall|j: int| 0 <= j < k ==> a[j] == b[j],
    ensures
        psum(a, k) == psum(b, k),
    decreases k,
{
    if k > 0 {
        lemma_psum_prefix_eq(a, b, k - 1);
    }
}

/// Inserting a pair anywhere adds exactly its weight to the total.
pub proof fn lemma_psum_insert(s: Seq<(u64, usize)>, pos: int, p: (u64, usize))
    requires
        0 <= pos <= s.len(),
    ensures
        psum(s.insert(pos, p), s.len() as int + 1) == psum(s, s.len() as int) + p.0,
    decreases s.len() - pos,
{
    let ins = s.insert(pos, p);
    s.insert_ensures(pos, p);
    if pos == s.len() {
        lemma_psum_prefix_eq(ins, s, s.len() as int);
    } else {
        let dl = s.drop_last();
        let dli = dl.insert(pos, p);
        dl.insert_ensures(pos, p);
        lemma_psum_insert(dl, pos, p);
        assert(ins[s.len() as int] == s[s.len() - 1]);
        assert forall|j: int| 0 <= j < s.len() implies ins[j] == dli[j] by {
            if j < pos {
            } else if j == pos {
            } else {
                assert(ins[j] == s[j - 1]);
                assert(dli[j] == dl[j - 1]);
            }
        }
        lemma_psum_prefix_eq(ins, dli, s.len() as int);
        lemma_psum_prefix_eq(s, dl, s.len() - 1);
    }
}

/// `ps` ranks the weight vector `w`: it pairs every position of `w` with its
/// weight, in strictly decreasing order of weight with ties broken by the
/// lower position first, and carries the same total mass.
pub open spec fn is_ranked(ps: Seq<(u64, usize)>, w: Seq<u64>) -> bool {
    &&& ps.len() == w.len()
    &&& (forall|k: int| 0 <= k < ps.len() ==> (#[trigger] ps[k]).1 < w.len() && ps[k].0 == w[ps[
        k].1 as int])
    &&& (forall|k1: int, k2: int| 0 <= k1 < k2 < ps.len() ==> (#[trigger] ps[k1]).1 != (
    #[trigger] ps[k2]).1)
    &&& (forall|k1: int, k2: int| 0 <= k1 < k2 < ps.len() ==> ((#[trigger] ps[k1]).0 > (
    #[trigger] ps[k2]).0 || (ps[k1].0 == ps[k2].0 && ps[k1].1 < ps[k2].1)))
    &&& psum(ps, ps.len() as int) == wsum(w, w.len() as int)
}

/// Rank the weights: sort the pairs `(weight, position)` by weight,
/// descending, stably in position order.
#[verifier::rlimit(100)]
pub fn rank_weights(w: &Vec<u64>) -> (ps: Vec<(u64, usize)>)
    requires
        w@.len() <= 0x1_0000_0000,
    ensures
        is_ranked(ps@, w@),
{
    let mut ps: Vec<(u64, usize)> = Vec::new();
    let mut i: usize = 0;
    while i < w.len()
        invariant
            i <= w@.len(),
            ps@.len() == i,
            forall|k: int| 0 <= k < ps@.len() ==> (#[trigger] ps@[k]).1 < i && ps@[k].0 == w@[
                ps@[k].1 as int],
            forall|k1: int, k2: int| 0 <= k1 < k2 < ps@.len() ==> (#[trigger] ps@[k1]).1 != (
            #[trigger] ps@[k2]).1,
            forall|k1: int, k2: int| 0 <= k1 < k2 < ps@.len() ==> ((#[trigger] ps@[k1]).0 > (
            #[trigger] ps@[k2]).0 || (ps@[k1].0 == ps@[k2].0 && ps@[k1].1 < ps@[k2].1)),
            psum(ps@, ps@.len() as int) == wsum(w@, i as int),
        decreases w@.len() - i,
    {
        let wi: u64 = w[i];
        let mut pos: usize = 0;
        while pos < ps.len() && ps[pos].0 >= wi
            invariant
                pos <= ps@.len(),
                forall|k: int| 0 <= k < pos ==> (#[trigger] ps@[k]).0 >= wi,
            decreases ps@.len() - pos,
        {
            pos = pos + 1;
        }
        let ghost olds = ps@;
        ps.insert(pos, (wi, i));
        proof {
            olds.insert_ensures(pos as int, (wi, i));
            lemma_psum_insert(olds, pos as int, (wi, i));
            assert forall|k1: int, k2: int| 0 <= k1 < k2 < ps@.len() implies ((
            #[trigger] ps@[k1]).0 > (#[trigger] ps@[k2]).0 || (ps@[k1].0 == ps@[k2].0
                && ps@[k1].1 < ps@[k2].1)) by {
                if k1 < pos && k2 < pos {
                } else if k1 < pos && k2 == pos {
                    assert(ps@[k1] == olds[k1]);
                    assert(ps@[k2] == (wi, i));
                    assert(olds[k1].0 >= wi);
                } else if k1 == pos && k2 > pos {
                    assert(ps@[k2] == olds[k2 - 1]);
                    if (pos as int) < olds.len() {
                        assert(olds[pos as int].0 < wi);
                        if (pos as int) < k2 - 1 {
                            assert(olds[pos as int].0 > olds[k2 - 1].0 || (olds[pos as int].0
                                == olds[k2 - 1].0 && olds[pos as int].1 < olds[k2 - 1].1));
                        }
                    }
                } else if k1 < pos && k2 > pos {
                    assert(ps@[k1] == olds[k1]);
                    assert(ps@[k2] == olds[k2 - 1]);
                } else {
                    assert(ps@[k1] == olds[k1 - 1]);
                    assert(ps@[k2] == olds[k2 - 1]);
                }
            }
            assert forall|k1: int, k2: int| 0 <= k1 < k2 < ps@.len() implies (
            #[trigger] ps@[k1]).1 != (#[trigger] ps@[k2]).1 by {
                if k1 == pos {
                    assert(ps@[k2] == olds[k2 - 1]);
                    assert(olds[k2 - 1].1 < i);
                } else if k2 == pos {
                    assert(ps@[k1] == olds[k1]);
                    assert(olds[k1].1 < i);
                } else {
                    let j1: int = if k1 < pos { k1 } else { k1 - 1 };
                    let j2: int = if k2 < pos { k2 } else { k2 - 1 };
                    assert(ps@[k1] == olds[j1]);
                    assert(ps@[k2] == olds[j2]);
                }
            }
        }
        i = i + 1;
    }
    proof {
        assert(wsum(w@, w@.len() as int) == psum(ps@, ps@.len() as int));
    }
    ps
}

/// `k` is the nucleus boundary: the shortest prefix of the ranked pairs
/// whose mass reaches the fraction `p` of the total (boundary ties included).
pub open spec fn is_cutoff(ps: Seq<(u64, usize)>, p: Ratio, k: int) -> bool {
    let total = psum(ps, ps.len() as int);
    &&& 0 < k <= ps.len()
    &&& psum(ps, k) * p.den >= p.num * total
    &&& psum(ps, k - 1) * p.den < p.num * total
}

/// Find the nucleus boundary and the mass it retains.
#[verifier::rlimit(30)]
pub fn top_p_cutoff(ps: &Vec<(u64, usize)>, p: Ratio) -> (r: (usize, u64))
    requires
        p.wf(),
        p.num <= p.den,
        ps@.len() <= 0x1_0000_0000,
        forall|i: int| 0 <= i < ps@.len() ==> (#[trigger] ps@[i]).0 <= crate::SCALE,
        psum(ps@, ps@.len() as int) > 0,
    ensures
        is_cutoff(ps@, p, r.0 as int),
        r.1 == psum(ps@, r.0 as int),
        r.1 > 0,
{
    let ghost totals = psum(ps@, ps@.len() as int);
    let mut total: u64 = 0;
    let mut i: usize = 0;
    while i < ps.len()
        invariant
            i <= ps@.len() <= 0x1_0000_0000,
            forall|j: int| 0 <= j < ps@.len() ==> (#[trigger] ps@[j]).0 <= crate::SCALE,
            total == psum(ps@, i as int),
            total <= i * crate::SCALE,
        decreases ps@.len() - i,
    {
        proof {
            assert((i + 1) * crate::SCALE == i * crate::SCALE + crate::SCALE) by (nonlinear_arith);
        }
        total = total + ps[i].0;
        i = i + 1;
    }
    proof {
        assert(p.num * totals > 0) by (nonlinear_arith)
            requires
                p.num > 0,
                totals > 0,
        ;
    }
    let mut acc: u64 = 0;
    let mut k: usize = 0;
    while k < ps.len()
        invariant
            k <= ps@.len() <= 0x1_0000_0000,
            forall|j: int| 0 <= j < ps@.len() ==> (#[trigger] ps@[j]).0 <= crate::SCALE,
            total == psum(ps@, ps@.len() as int),
            totals == psum(ps@, ps@.len() as int),
            total <= ps@.len() * crate::SCALE,
            p.wf(),
            p.num <= p.den,
            total > 0,
            acc == psum(ps@, k as int),
            acc <= k * crate::SCALE,
            acc * p.den < p.num * total,
        decreases ps@.len() - k,
    {
        proof {
            assert((k + 1) * crate::SCALE == k * crate::SCALE + crate::SCALE) by (nonlinear_arith);
            lemma_psum_monotone(ps@, k as int + 1, ps@.len() as int);
            lemma_psum_bounds(ps@, ps@.len() as int);
            assert(ps@.len() * crate::SCALE <= 0x1_0000_0000 * crate::SCALE) by (nonlinear_arith)
                requires
                    0 <= ps@.len() <= 0x1_0000_0000,
            ;
        }
        let acc2: u64 = acc + ps[k].0;
        proof {
            assert(acc2 == psum(ps@, k as int + 1));
            assert(acc2 <= totals);
            assert(0 <= totals <= 0x1_0000_0000 * crate::SCALE);
            assert(acc2 * p.den <= totals * p.den) by (nonlinear_arith)
                requires
                    acc2 <= totals,
                    p.den >= 0,
            ;
            assert(totals * p.den <= 0x1_0000_0000 * crate::SCALE * MAX_RATIO)
                by (nonlinear_arith)
                requires
                    0 <= totals <= 0x1_0000_0000 * crate::SCALE,
                    0 < p.den <= MAX_RATIO,
            ;
            assert(p.num * totals <= 0x1_0000_0000 * crate::SCALE * MAX_RATIO)
                by (nonlinear_arith)
                requires
                    0 <= totals <= 0x1_0000_0000 * crate::SCALE,
                    0 < p.num <= MAX_RATIO,
            ;
        }
        if acc2 * (p.den as u64) >= (p.num as u64) * total {
            proof {
                assert(acc2 > 0) by {
                    if acc2 == 0 {
                        assert(p.num * totals > 0) by (nonlinear_arith)
                            requires
                                p.num > 0,
                                totals > 0,
                        ;
                    }
                }
            }
            return (k + 1, acc2);
        }
        acc = acc2;
        k = k + 1;
    }
    proof {
        assert(psum(ps@, ps@.len() as int) * p.den >= p.num * psum(ps@, ps@.len() as int))
            by (nonlinear_arith)
            requires
                p.den >= p.num,
                psum(ps@, ps@.len() as int) >= 0,
        ;
        assert(false);
    }
    (0, 0)
}

/// Find the unique ranked pair whose cumulative span of retained mass
/// contains `r`.
pub fn pick_in_prefix(ps: &Vec<(u64, usize)>, k: usize, r: u64) -> (j: usize)
    requires
        0 < k <= ps@.len() <= 0x1_0000_0000,
        forall|i: int| 0 <= i < ps@.len() ==> (#[trigger] ps@[i]).0 <= crate::SCALE,
        r < psum(ps@, k as int),
    ensures
        j < k,
        psum(ps@, j as int) <= r < psum(ps@, j as int + 1),
{
    let mut acc: u64 = 0;
    let mut i: usize = 0;
    while i < k
        invariant
            i <= k <= ps@.len() <= 0x1_0000_0000,
            forall|j2: int| 0 <= j2 < ps@.len() ==> (#[trigger] ps@[j2]).0 <= crate::SCALE,
            acc == psum(ps@, i as int),
            acc <= i * crate::SCALE,
            acc <= r < psum(ps@, k as int),
        decreases k - i,
    {
        proof {
            assert((i + 1) * crate::SCALE == i * crate::SCALE + crate::SCALE) by (nonlinear_arith);
        }
        if r < acc + ps[i].0 {
            return i;
        }
        acc = acc + ps[i].0;
        i = i + 1;
    }
    proof {
        assert(false);
    }
    0
}

/// Top-p containment law: the retained mass reaches the fraction `p` of the
/// total, and removing any single retained element drops it below `p`
/// (boundary ties are resolved by inclusion).
pub proof fn lemma_top_p_containment(ps: Seq<(u64, usize)>, w: Seq<u64>, p: Ratio, k: int)
    requires
        p.wf(),
        is_ranked(ps, w),
        is_cutoff(ps, p, k),
    ensures
        psum(ps, k) * p.den >= p.num * psum(ps, ps.len() as int),
        forall|j: int| 0 <= j < k ==> (psum(ps, k) - (#[trigger] ps[j]).0) * p.den < p.num * psum(
            ps,
            ps.len() as int,
        ),
{
    let total = psum(ps, ps.len() as int);
    assert forall|j: int| 0 <= j < k implies (psum(ps, k) - (#[trigger] ps[j]).0) * p.den < p.num
        * total by {
        if j < k - 1 {
            assert(ps[j].0 > ps[k - 1].0 || (ps[j].0 == ps[k - 1].0 && ps[j].1 < ps[k - 1].1));
        }
        assert(psum(ps, k) == psum(ps, k - 1) + ps[k - 1].0);
        assert(psum(ps, k) - ps[j].0 <= psum(ps, k - 1));
        assert((psum(ps, k) - ps[j].0) * p.den <= psum(ps, k - 1) * p.den) by (nonlinear_arith)
            requires
                psum(ps, k) - ps[j].0 <= psum(ps, k - 1),
                p.den > 0,
        ;
    }
}

/// What a temperature-only draw returns: the unique position whose
/// cumulative span of the weight vector contains the seeded draw.
pub open spec fn picks_from(w: Seq<u64>, state0: u64, tok: u32) -> bool {
    let total = wsum(w, w.len() as int);
    let d = spec_next_state(state0) as int % total;
    &&& (tok as int) < w.len()
    &&& wsum(w, tok as int) <= d < wsum(w, tok as int + 1)
}

/// Two tokens that both satisfy the draw characterization coincide: for a
/// fixed seed state and weight vector the sampled token is unique.
pub proof fn lemma_picks_from_unique(w: Seq<u64>, state0: u64, t1: u32, t2: u32)
    requires
        picks_from(w, state0, t1),
        picks_from(w, state0, t2),
    ensures
        t1 == t2,
{
    let d = spec_next_state(state0) as int % wsum(w, w.len() as int);
    lemma_pick_unique(w, d, t1 as int, t2 as int);
}

/// One witness of a nucleus draw: a ranking of the weights, the cutoff, and
/// the position of the draw inside the retained prefix.
pub open spec fn nucleus_witness(
    ps: Seq<(u64, usize)>,
    k: int,
    j: int,
    w: Seq<u64>,
    p: Ratio,
    state0: u64,
    tok: u32,
) -> bool {
    &&& is_ranked(ps, w)
    &&& is_cutoff(ps, p, k)
    &&& 0 <= j < k
    &&& psum(ps, j) <= spec_next_state(state0) as int % psum(ps, k) < psum(ps, j + 1)
    &&& tok == ps[j].1 as u32
}

/// What a nucleus (top-p) draw returns.
pub open spec fn nucleus_picks(w: Seq<u64>, p: Ratio, state0: u64, tok: u32) -> bool {
    exists|ps: Seq<(u64, usize)>, k: int, j: int| #[trigger] nucleus_witness(
        ps,
        k,
        j,
        w,
        p,
        state0,
        tok,
    )
}

/// The token a selection returns, as a function of the configuration, the
/// logits and the stream state alone: the argmax in greedy mode, otherwise
/// the unique token the draw characterization admits.
pub open spec fn spec_selected(
    temperature: Option<Ratio>,
    top_p: Option<Ratio>,
    logits: Seq<i64>,
    state0: u64,
) -> u32 {
    match (temperature, top_p) {
        (Option::None, _) => spec_argmax(logits) as u32,
        (Option::Some(t), Option::None) => choose|tok: u32|
            picks_from(spec_weights(logits, t), state0, tok),
        (Option::Some(t), Option::Some(p)) => choose|tok: u32|
            nucleus_picks(spec_weights(logits, t), p, state0, tok),
    }
}

/// The stream state after one selection: unchanged in greedy mode, advanced
/// exactly once otherwise.
pub open spec fn spec_state_after(temperature: Option<Ratio>, state0: u64) -> u64 {
    match temperature {
        Option::None => state0,
        Option::Some(_) => spec_next_state(state0),
    }
}

/// The sampler: per-session selection policy plus the seeded random stream.
pub struct Sampler {
    pub temperature: Option<Ratio>,
    pub top_p: Option<Ratio>,
    pub rng: SampleRng,
}

impl Sampler {
    /// The configured ratios are well formed; a top-p cutoff is at most one.
    pub open spec fn wf(self) -> bool {
        &&& (self.temperature matches Some(t) ==> t.wf())
        &&& (self.top_p matches Some(p) ==> p.wf() && p.num <= p.den)
    }

    pub fn new(seed: u64, temperature: Option<Ratio>, top_p: Option<Ratio>) -> (r: Sampler)
        requires
            temperature matches Some(t) ==> t.wf(),
            top_p matches Some(p) ==> p.wf() && p.num <= p.den,
        ensures
            r.temperature == temperature,
            r.top_p == top_p,
            r.rng.state == seed,
            r.wf(),
    {
        Sampler { temperature, top_p, rng: SampleRng::new(seed) }
    }

    /// Select the next token id from the logits.
    ///
    /// Greedy argmax when no temperature is configured (no randomness is
    /// consumed); otherwise one seeded draw from the temperature-scaled
    /// softmax weights, truncated to the nucleus when a top-p cutoff is
    /// configured.  Fails exactly on an empty logits vector.
    #[verifier::rlimit(100)]
    pub fn sample(&mut self, logits: &Vec<i64>) -> (r: Result<u32, GenError>)
        requires
            old(self).wf(),
            logits@.len() <= 0x1_0000_0000,
            forall|i: int| 0 <= i < logits@.len() ==> -MAX_SCALED <= #[trigger] logits@[i]
                <= MAX_SCALED,
        ensures
            final(self).temperature == old(self).temperature,
            final(self).top_p == old(self).top_p,
            final(self).wf(),
            (logits@.len() == 0) <==> (r == Err::<u32, GenError>(GenError::Sampling)),
            logits@.len() == 0 ==> *final(self) == *old(self),
            r is Ok ==> (r->Ok_0 as int) < logits@.len(),
            logits@.len() > 0 ==> r == Ok::<u32, GenError>(spec_selected(
                old(self).temperature,
                old(self).top_p,
                logits@,
                old(self).rng.state,
            )) && final(self).rng.state == spec_state_after(
                old(self).temperature,
                old(self).rng.state,
            ),
            logits@.len() > 0 ==> match (old(self).temperature, old(self).top_p) {
                (Option::None, _) => final(self).rng == old(self).rng && r == Ok::<
                    u32,
                    GenError,
                >(spec_argmax(logits@) as u32),
                (Option::Some(t), Option::None) => final(self).rng.state == spec_next_state(
                    old(self).rng.state,
                ) && r is Ok && picks_from(spec_weights(logits@, t), old(self).rng.state, r->Ok_0),
                (Option::Some(t), Option::Some(p)) => final(self).rng.state == spec_next_state(
                    old(self).rng.state,
                ) && r is Ok && nucleus_picks(
                    spec_weights(logits@, t),
                    p,
                    old(self).rng.state,
                    r->Ok_0,
                ),
            },
    {
        if logits.len() == 0 {
            return Err(GenError::Sampling);
        }
        proof {
            lemma_argmax_props(logits@);
        }
        match self.temperature {
            None => {
                let m = match argmax(logits) {
                    Ok(m) => m,
                    Err(_) => {
                        proof {
                            assert(false);
                        }
                        return Err(GenError::Sampling);
                    },
                };
                Ok(m as u32)
            },
            Some(t) => {
                let w = match softmax_weights(logits, t) {
                    Ok(w) => w,
                    Err(_) => {
                        proof {
                            assert(false);
                        }
                        return Err(GenError::Sampling);
                    },
                };
                let total = total_weight(&w);
                proof {
                    lemma_wsum_ge_elem(w@, spec_argmax(logits@));
                }
                match self.top_p {
                    None => {
                        let d = self.rng.next_below(total);
                        let idx = pick_weighted(&w, d);
                        let tok: u32 = idx as u32;
                        proof {
                            let ww = spec_weights(logits@, t);
                            let s0 = old(self).rng.state;
                            assert(picks_from(ww, s0, tok));
                            assert(exists|tk: u32| picks_from(ww, s0, tk));
                            assert(picks_from(
                                ww,
                                s0,
                                choose|tk: u32| picks_from(ww, s0, tk),
                            ));
                            lemma_sample_deterministic(
                                old(self).temperature,
                                old(self).top_p,
                                logits@,
                                old(self).rng.state,
                                spec_selected(
                                    old(self).temperature,
                                    old(self).top_p,
                                    logits@,
                                    old(self).rng.state,
                                ),
                                tok,
                            );
                        }
                        Ok(tok)
                    },
                    Some(p) => {
                        let ps = rank_weights(&w);
                        let c = top_p_cutoff(&ps, p);
                        let k = c.0;
                        let retained = c.1;
                        let d = self.rng.next_below(retained);
                        let j = pick_in_prefix(&ps, k, d);
                        let tok_us: usize = ps[j].1;
                        let tok: u32 = tok_us as u32;
                        proof {
                            assert(nucleus_witness(
                                ps@,
                                k as int,
                                j as int,
                                w@,
                                p,
                                old(self).rng.state,
                                tok,
                            ));
                            let ww = spec_weights(logits@, t);
                            let s0 = old(self).rng.state;
                            assert(nucleus_picks(ww, p, s0, tok));
                            assert(exists|tk: u32| nucleus_picks(ww, p, s0, tk));
                            assert(nucleus_picks(
                                ww,
                                p,
                                s0,
                                choose|tk: u32| nucleus_picks(ww, p, s0, tk),
                            ));
                            lemma_sample_deterministic(
                                old(self).temperature,
                                old(self).top_p,
                                logits@,
                                old(self).rng.state,
                                spec_selected(
                                    old(self).temperature,
                                    old(self).top_p,
                                    logits@,
                                    old(self).rng.state,
                                ),
                                tok,
                            );
                        }
                        Ok(tok)
                    },
                }
            },
        }
    }
}

/// Some ranked pair carries the position `idx`.
pub open spec fn ranked_has(ps: Seq<(u64, usize)>, idx: int) -> bool {
    exists|k: int| 0 <= k < ps.len() && (#[trigger] ps[k]).1 == idx
}

/// Every position of the weight vector appears in a ranking.
pub proof fn lemma_ranked_covers(ps: Seq<(u64, usize)>, w: Seq<u64>)
    requires
        is_ranked(ps, w),
    ensures
        forall|idx: int| 0 <= idx < w.len() ==> #[trigger] ranked_has(ps, idx),
{
    let n = w.len() as int;
    let is = Seq::new(ps.len(), |k: int| ps[k].1 as int);
    assert(is.no_duplicates());
    is.unique_seq_to_set();
    vstd::seq_lib::seq_to_set_is_finite(is);
    vstd::set_lib::lemma_int_range(0, n);
    assert forall|x: int| is.to_set().contains(x) implies vstd::set_lib::set_int_range(
        0,
        n,
    ).contains(x) by {
        let k = choose|k: int| 0 <= k < is.len() && is[k] == x;
        assert(ps[k].1 < w.len());
    }
    vstd::set_lib::lemma_subset_equality(is.to_set(), vstd::set_lib::set_int_range(0, n));
    assert forall|idx: int| 0 <= idx < w.len() implies #[trigger] ranked_has(ps, idx) by {
        assert(vstd::set_lib::set_int_range(0, n).contains(idx));
        assert(is.to_set().contains(idx));
        assert(is.contains(idx));
        let k = choose|k: int| 0 <= k < is.len() && is[k] == idx;
        assert(ps[k].1 == idx);
    }
}

proof fn lemma_ranked_unique_from(
    ps1: Seq<(u64, usize)>,
    ps2: Seq<(u64, usize)>,
    w: Seq<u64>,
    k: int,
)
    requires
        is_ranked(ps1, w),
        is_ranked(ps2, w),
        0 <= k <= ps1.len(),
        forall|j: int| 0 <= j < k ==> ps1[j] == ps2[j],
    ensures
        forall|j: int| 0 <= j < ps1.len() ==> ps1[j] == ps2[j],
    decreases ps1.len() - k,
{
    if k == ps1.len() {
    } else {
        let p1 = ps1[k];
        let p2 = ps2[k];
        if p1 == p2 {
            lemma_ranked_unique_from(ps1, ps2, w, k + 1);
        } else {
            lemma_ranked_covers(ps1, w);
            lemma_ranked_covers(ps2, w);
            assert(ranked_has(ps2, p1.1 as int));
            let k2 = choose|k2: int| 0 <= k2 < ps2.len() && (#[trigger] ps2[k2]).1 == p1.1 as int;
            assert(ps2[k2].0 == w[p1.1 as int] == p1.0);
            assert(ps2[k2] == p1);
            if k2 < k {
                assert(ps1[k2] == ps2[k2]);
                assert(ps1[k2].1 == ps1[k].1);
                assert(false);
            } else if k2 == k {
                assert(false);
            }
            assert(ranked_has(ps1, p2.1 as int));
            let k1 = choose|k1: int| 0 <= k1 < ps1.len() && (#[trigger] ps1[k1]).1 == p2.1 as int;
            assert(ps1[k1].0 == w[p2.1 as int] == p2.0);
            assert(ps1[k1] == p2);
            if k1 < k {
                assert(ps2[k1] == ps1[k1]);
                assert(ps2[k1].1 == ps2[k].1);
                assert(false);
            } else if k1 == k {
                assert(false);
            }
            assert(p2.0 > p1.0 || (p2.0 == p1.0 && p2.1 < p1.1));
            assert(p1.0 > p2.0 || (p1.0 == p2.0 && p1.1 < p2.1));
            assert(false);
        }
    }
}

/// The stable descending ranking of a weight vector is unique.
pub proof fn lemma_ranked_unique(ps1: Seq<(u64, usize)>, ps2: Seq<(u64, usize)>, w: Seq<u64>)
    requires
        is_ranked(ps1, w),
        is_ranked(ps2, w),
    ensures
        ps1 == ps2,
{
    lemma_ranked_unique_from(ps1, ps2, w, 0);
    assert(ps1 =~= ps2);
}

/// The nucleus boundary is unique.
pub proof fn lemma_cutoff_unique(ps: Seq<(u64, usize)>, p: Ratio, k1: int, k2: int)
    requires
        p.wf(),
        is_cutoff(ps, p, k1),
        is_cutoff(ps, p, k2),
    ensures
        k1 == k2,
{
    let total = psum(ps, ps.len() as int);
    if k1 < k2 {
        lemma_psum_monotone(ps, k1, k2 - 1);
        assert(psum(ps, k2 - 1) * p.den >= psum(ps, k1) * p.den) by (nonlinear_arith)
            requires
                psum(ps, k2 - 1) >= psum(ps, k1),
                p.den > 0,
        ;
        assert(false);
    }
    if k2 < k1 {
        lemma_psum_monotone(ps, k2, k1 - 1);
        assert(psum(ps, k1 - 1) * p.den >= psum(ps, k2) * p.den) by (nonlinear_arith)
            requires
                psum(ps, k1 - 1) >= psum(ps, k2),
                p.den > 0,
        ;
        assert(false);
    }
}

/// The retained span containing a nucleus draw is unique.
pub proof fn lemma_prefix_pick_unique(ps: Seq<(u64, usize)>, r: int, j1: int, j2: int)
    requires
        0 <= j1 < ps.len(),
        0 <= j2 < ps.len(),
        psum(ps, j1) <= r < psum(ps, j1 + 1),
        psum(ps, j2) <= r < psum(ps, j2 + 1),
    ensures
        j1 == j2,
{
    if j1 < j2 {
        lemma_psum_monotone(ps, j1 + 1, j2);
    }
    if j2 < j1 {
        lemma_psum_monotone(ps, j2 + 1, j1);
    }
}

/// Determinism law: for a fixed seed state, a fixed configuration and a
/// fixed logits vector, any two tokens that the sampler's selection
/// contract admits are the same token — repeated runs reproduce the stream
/// bit for bit.
pub proof fn lemma_sample_deterministic(
    temperature: Option<Ratio>,
    top_p: Option<Ratio>,
    logits: Seq<i64>,
    state0: u64,
    t1: u32,
    t2: u32,
)
    requires
        logits.len() > 0,
        match (temperature, top_p) {
            (Option::None, _) => t1 == spec_argmax(logits) as u32 && t2 == spec_argmax(
                logits,
            ) as u32,
            (Option::Some(t), Option::None) => picks_from(spec_weights(logits, t), state0, t1)
                && picks_from(spec_weights(logits, t), state0, t2),
            (Option::Some(t), Option::Some(p)) => p.wf() && nucleus_picks(
                spec_weights(logits, t),
                p,
                state0,
                t1,
            ) && nucleus_picks(spec_weights(logits, t), p, state0, t2),
        },
    ensures
        t1 == t2,
{
    match (temperature, top_p) {
        (Option::None, _) => {
        },
        (Option::Some(t), Option::None) => {
            lemma_picks_from_unique(spec_weights(logits, t), state0, t1, t2);
        },
        (Option::Some(t), Option::Some(p)) => {
            let w = spec_weights(logits, t);
            let (ps1, k1, j1) = choose|ps: Seq<(u64, usize)>, k: int, j: int|
                nucleus_witness(ps, k, j, w, p, state0, t1);
            let (ps2, k2, j2) = choose|ps: Seq<(u64, usize)>, k: int, j: int|
                nucleus_witness(ps, k, j, w, p, state0, t2);
            lemma_ranked_unique(ps1, ps2, w);
            lemma_cutoff_unique(ps1, p, k1, k2);
            let d = spec_next_state(state0) as int % psum(ps1, k1);
            lemma_prefix_pick_unique(ps1, d, j1, j2);
        },
    }
}

} // verus!
