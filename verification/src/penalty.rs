//! The repeat-penalty filter: attenuate the logits of tokens that appeared
//! recently in the generated sequence.
//!
//! A positive logit of a recent token is divided by the penalty, a negative
//! one multiplied by it; each token id is rescaled once, however often it
//! occurs in the lookback window.  A penalty of one is a documented no-op.

use vstd::prelude::*;
use crate::{Ratio, MAX_LOGIT, MAX_RATIO};

verus! {

/// Where the lookback window starts: the last `last_n` tokens, or the whole
/// sequence if it is shorter.
pub open spec fn window_start(len: nat, last_n: nat) -> int {
    if last_n <= len {
        len - last_n
    } else {
        0
    }
}

/// The trailing tokens considered "recent".
pub open spec fn penalty_window(tokens: Seq<u32>, last_n: nat) -> Seq<u32> {
    tokens.subrange(window_start(tokens.len(), last_n), tokens.len() as int)
}

/// Whether token `id` occurs in the lookback window.
pub open spec fn in_window(tokens: Seq<u32>, last_n: nat, id: u32) -> bool {
    penalty_window(tokens, last_n).contains(id)
}

/// A single logit rescaled by the penalty `p`: a positive score is divided
/// by `p`, a negative one multiplied by it (both computed on the magnitude,
/// rounding toward zero).
pub open spec fn spec_penalized(v: int, p: Ratio) -> int {
    if v >= 0 {
        (v * (p.den as int)) / (p.num as int)
    } else {
        -(((-v) * (p.num as int)) / (p.den as int))
    }
}

/// The value the filter gives position `i`: untouched unless the penalty is
/// active and token `i` is recent.
pub open spec fn spec_apply_at(
    logits: Seq<i64>,
    p: Ratio,
    tokens: Seq<u32>,
    last_n: nat,
    i: int,
) -> int {
    if p.is_one() {
        logits[i] as int
    } else if in_window(tokens, last_n, i as u32) {
        spec_penalized(logits[i] as int, p)
    } else {
        logits[i] as int
    }
}

/// Rescale one bounded logit by the penalty.
fn penalized_exec(v: i64, p: Ratio) -> (r: i64)
    requires
        p.wf(),
        -MAX_LOGIT <= v <= MAX_LOGIT,
    ensures
        r == spec_penalized(v as int, p),
        -MAX_LOGIT * MAX_RATIO <= r <= MAX_LOGIT * MAX_RATIO,
{
    if v >= 0 {
        proof {
            assert(v * p.den <= MAX_LOGIT * MAX_RATIO) by (nonlinear_arith)
                requires
                    0 <= v <= MAX_LOGIT,
                    0 < p.den <= MAX_RATIO,
            ;
        }
        let prod: u64 = (v as u64) * (p.den as u64);
        let q: u64 = prod / (p.num as u64);
        proof {
            assert(q <= prod);
        }
        q as i64
    } else {
        let mag: u64 = (-v) as u64;
        proof {
            assert(mag * p.num <= MAX_LOGIT * MAX_RATIO) by (nonlinear_arith)
                requires
                    0 <= mag <= MAX_LOGIT,
                    0 < p.num <= MAX_RATIO,
            ;
        }
        let prod: u64 = mag * (p.num as u64);
        let q: u64 = prod / (p.den as u64);
        proof {
            assert(q <= prod);
        }
        -(q as i64)
    }
}

/// Apply the repeat penalty to a logits vector.
///
/// Every position whose token id occurs among the last `last_n` entries of
/// `tokens` is rescaled by `penalty`; every other position, and every
/// position when the penalty is one, is returned unchanged.
pub fn apply_repeat_penalty(
    logits: &Vec<i64>,
    penalty: Ratio,
    tokens: &Vec<u32>,
    last_n: usize,
) -> (r: Vec<i64>)
    requires
        penalty.wf(),
        logits@.len() <= 0x1_0000_0000,
        forall|i: int| 0 <= i < logits@.len() ==> -MAX_LOGIT <= #[trigger] logits@[i] <= MAX_LOGIT,
        forall|j: int| 0 <= j < tokens@.len() ==> (#[trigger] tokens@[j]) < logits@.len(),
    ensures
        r@.len() == logits@.len(),
        penalty.is_one() ==> r@ == logits@,
        forall|i: int| 0 <= i < logits@.len() ==> #[trigger] r@[i] as int
            == spec_apply_at(logits@, penalty, tokens@, last_n as nat, i),
        forall|i: int| 0 <= i < logits@.len() ==> -MAX_LOGIT * MAX_RATIO
            <= #[trigger] r@[i] <= MAX_LOGIT * MAX_RATIO,
{
    if penalty.num == penalty.den {
        let r = crate::copy_i64s(logits);
        return r;
    }
    // Mark which token ids occur in the lookback window.
    let start: usize = if last_n <= tokens.len() {
        tokens.len() - last_n
    } else {
        0
    };
    let mut mask: Vec<bool> = Vec::new();
    let mut i: usize = 0;
    while i < logits.len()
        invariant
            i <= logits@.len(),
            mask@.len() == i,
            forall|k: int| 0 <= k < i ==> !(#[trigger] mask@[k]),
        decreases logits@.len() - i,
    {
        mask.push(false);
        i = i + 1;
    }
    let mut j: usize = start;
    while j < tokens.len()
        invariant
            penalty.wf(),
            start == window_start(tokens@.len(), last_n as nat),
            start <= j <= tokens@.len(),
            mask@.len() == logits@.len(),
            logits@.len() <= 0x1_0000_0000,
            forall|jj: int| 0 <= jj < tokens@.len() ==> (#[trigger] tokens@[jj]) < logits@.len(),
            forall|k: int| 0 <= k < mask@.len() ==> ((#[trigger] mask@[k])
                <==> tokens@.subrange(start as int, j as int).contains(k as u32)),
        decreases tokens@.len() - j,
    {
        let t = tokens[j];
        let ghost before = mask@;
        mask.set(t as usize, true);
        proof {
            let w_old = tokens@.subrange(start as int, j as int);
            let w_new = tokens@.subrange(start as int, j + 1);
            assert(w_new.drop_last() =~= w_old);
            assert(w_new.last() == tokens@[j as int]);
            assert forall|k: int| 0 <= k < mask@.len() implies ((#[trigger] mask@[k])
                <==> w_new.contains(k as u32)) by {
                if k == t as int {
                    assert(w_new[w_new.len() - 1] == t);
                    assert(w_new.contains(k as u32));
                } else {
                    assert(k < 0x1_0000_0000);
                    assert(k as u32 != t);
                    assert(mask@[k] == before[k]);
                    if w_new.contains(k as u32) {
                        let idx = choose|idx: int| 0 <= idx < w_new.len() && w_new[idx] == k as u32;
                        assert(w_new[w_new.len() - 1] == t);
                        assert(idx < w_new.len() - 1);
                        assert(w_old[idx] == k as u32);
                        assert(w_old.contains(k as u32));
                    }
                    if w_old.contains(k as u32) {
                        let idx = choose|idx: int| 0 <= idx < w_old.len() && w_old[idx] == k as u32;
                        assert(w_new[idx] == k as u32);
                    }
                }
            }
        }
        j = j + 1;
    }
    proof {
        assert(tokens@.subrange(start as int, tokens@.len() as int)
            =~= penalty_window(tokens@, last_n as nat));
    }
    // Rescale the marked positions.
    let mut r: Vec<i64> = Vec::new();
    let mut i2: usize = 0;
    while i2 < logits.len()
        invariant
            penalty.wf(),
            !penalty.is_one(),
            i2 <= logits@.len(),
            r@.len() == i2,
            mask@.len() == logits@.len(),
            forall|i: int| 0 <= i < logits@.len() ==> -MAX_LOGIT <= #[trigger] logits@[i]
                <= MAX_LOGIT,
            forall|k: int| 0 <= k < mask@.len() ==> ((#[trigger] mask@[k])
                <==> in_window(tokens@, last_n as nat, k as u32)),
            forall|i: int| 0 <= i < i2 ==> #[trigger] r@[i] as int
                == spec_apply_at(logits@, penalty, tokens@, last_n as nat, i),
            forall|i: int| 0 <= i < i2 ==> -MAX_LOGIT * MAX_RATIO <= #[trigger] r@[i]
                <= MAX_LOGIT * MAX_RATIO,
        decreases logits@.len() - i2,
    {
        if mask[i2] {
            r.push(penalized_exec(logits[i2], penalty));
        } else {
            r.push(logits[i2]);
        }
        i2 = i2 + 1;
    }
    r
}

/// No-penalty no-op law: with the penalty at one, the filter returns the
/// logits unchanged, element for element, for any sequence and any lookback.
pub proof fn lemma_no_penalty_no_op(logits: Seq<i64>, p: Ratio, tokens: Seq<u32>, last_n: nat)
    requires
        p.is_one(),
    ensures
        forall|i: int| 0 <= i < logits.len() ==> #[trigger] spec_apply_at(
            logits,
            p,
            tokens,
            last_n,
            i,
        ) == logits[i] as int,
{
}

} // verus!
