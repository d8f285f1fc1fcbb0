//! Router scores by the square root of a softplus.
use vstd::prelude::*;

use crate::num::{ExactNum, Num};
use crate::sums::{lemma_add_neg, lemma_neg_unique, lemma_zero_add};

verus! {

/// Softplus of `x`, in the form that does not overflow.
pub open spec fn softplus<F: Num>(x: F) -> F {
    let nonneg = x.ge_s(F::zero_s());
    let abs = if nonneg {
        x
    } else {
        x.neg_s()
    };
    let head = if nonneg {
        x
    } else {
        F::zero_s()
    };
    head.add_s(F::one_s().add_s(abs.neg_s().exp_s()).ln_s())
}

/// Scores every expert: `score_unbiased` is the square root of the softplus of
/// its logit, `score_biased` that plus its bias.
pub fn ffai_moe_router_sqrtsoftplus<F: Num>(
    logits: &[F],
    bias: &[F],
    score_unbiased: &mut Vec<F>,
    score_biased: &mut Vec<F>,
    n: u32,
)
    requires
        n <= logits@.len(),
        n <= bias@.len(),
        n <= old(score_unbiased)@.len(),
        n <= old(score_biased)@.len(),
    ensures
        final(score_unbiased)@.len() == old(score_unbiased)@.len(),
        final(score_biased)@.len() == old(score_biased)@.len(),
        forall|i: int|
            0 <= i < old(score_unbiased)@.len() ==> #[trigger] final(score_unbiased)@[i] == (if i
                < n {
                softplus(logits@[i]).sqrt_s()
            } else {
                old(score_unbiased)@[i]
            }),
        forall|i: int|
            0 <= i < old(score_biased)@.len() ==> #[trigger] final(score_biased)@[i] == (if i < n {
                softplus(logits@[i]).sqrt_s().add_s(bias@[i])
            } else {
                old(score_biased)@[i]
            }),
{
    let ghost (u0, b0) = (score_unbiased@, score_biased@);
    let mut idx: u32 = 0;
    while idx < n
        invariant
            idx <= n,
            n <= logits@.len(),
            n <= bias@.len(),
            n <= u0.len(),
            n <= b0.len(),
            score_unbiased@.len() == u0.len(),
            score_biased@.len() == b0.len(),
            forall|i: int|
                0 <= i < u0.len() ==> #[trigger] score_unbiased@[i] == (if i < idx {
                    softplus(logits@[i]).sqrt_s()
                } else {
                    u0[i]
                }),
            forall|i: int|
                0 <= i < b0.len() ==> #[trigger] score_biased@[i] == (if i < idx {
                    softplus(logits@[i]).sqrt_s().add_s(bias@[i])
                } else {
                    b0[i]
                }),
        decreases n - idx,
    {
        let x = logits[idx as usize];
        let nonneg: bool = x.ge(F::zero());
        let abs = if nonneg {
            x
        } else {
            x.neg()
        };
        let head = if nonneg {
            x
        } else {
            F::zero()
        };
        let sp = head.add(F::one().add(abs.neg().exp()).ln());
        let s = sp.sqrt();
        score_unbiased.set(idx as usize, s);
        score_biased.set(idx as usize, s.add(bias[idx as usize]));
        idx += 1;
    }
}

/// The form that does not overflow is the logarithm of one plus the exponential.
/// Above zero it needs the logarithm to undo the exponential and to turn the
/// product of `exp(x)` and `1 + exp(-x)` into a sum.
pub proof fn law_softplus_is_log<F: ExactNum>(x: F)
    requires
        x.ge_s(F::zero_s()) ==> x.exp_s().ln_s() == x,
        x.ge_s(F::zero_s()) ==> x.exp_s().mul_s(F::one_s().add_s(x.neg_s().exp_s())).ln_s()
            == x.exp_s().ln_s().add_s(F::one_s().add_s(x.neg_s().exp_s()).ln_s()),
    ensures
        softplus(x) == F::one_s().add_s(x.exp_s()).ln_s(),
{
    let (zero, one) = (F::zero_s(), F::one_s());
    if x.ge_s(zero) {
        // x is above negative infinity
        F::zero_above_neg_inf();
        F::ge_is_gt_or_same(x, zero);
        if x.gt_s(zero) {
            F::order_transitive(x, zero, F::neg_inf_s());
        }
        // exp(x) * exp(-x) == 1
        F::exp_shift(x, zero, x);
        F::sub_zero(x);
        F::sub_add_neg(zero, x);
        lemma_zero_add(x.neg_s());
        F::sub_self(x);
        F::exp_zero();
        let (e, n) = (x.exp_s(), x.neg_s().exp_s());
        F::mul_comm(e, one.add_s(n));
        F::distrib(one, n, e);
        F::mul_comm(one, e);
        F::mul_one(e);
        F::mul_comm(n, e);
        F::add_comm(e, one);
    } else {
        lemma_add_neg(x);
        lemma_neg_unique(x, x.neg_s());
        lemma_zero_add(one.add_s(x.exp_s()).ln_s());
    }
}

} // verus!
