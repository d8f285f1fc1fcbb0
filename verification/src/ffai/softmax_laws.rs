//! What softmax attention is, whatever computes it: the formula without a
//! reference maximum, weights that add up to one, and outputs that stay between
//! the values.
use vstd::prelude::*;

use super::attention::{Scores, Walk};
use super::softmax::{
    attended_sum, finite_scores, in_walk, lemma_above, lemma_softmax_max, softmax_attention,
    softmax_max, softmax_sum, weight,
};
use crate::num::{ExactNum, Num};
use crate::order::{
    invertible, lemma_recip_factor, lemma_sign_add, lemma_sum_sign, not_above, ordered,
};
use crate::sums::{
    lemma_add_neg, lemma_add_swap, lemma_neg_unique, lemma_range_add, lemma_range_congr,
    lemma_range_scale, lemma_zero_mul, range_sum,
};

verus! {

/// Exponential of the score of position `t`; nothing if it is blocked.
pub open spec fn plain_weight<F: Num>(scores: Scores<F>, t: int) -> F {
    if scores.blocked.contains(t) {
        F::zero_s()
    } else {
        scores.at[t].exp_s()
    }
}

/// Sum of the exponentials of the attended scores and of the extra logit.
pub open spec fn plain_sum<F: Num>(w: Walk, scores: Scores<F>, extra: Option<F>) -> F {
    let sum = attended_sum(w, |t: int| plain_weight(scores, t));
    match extra {
        None => sum,
        Some(x) => sum.add_s(x.exp_s()),
    }
}

/// Element `i` of softmax attention with no number taken off the scores.
pub open spec fn plain_attention<F: Num>(
    w: Walk,
    scores: Scores<F>,
    values: Seq<Seq<F>>,
    extra: Option<F>,
    i: int,
) -> F {
    attended_sum(
        w,
        |t: int| plain_weight(scores, t).div_s(plain_sum(w, scores, extra)).mul_s(values[t][i]),
    )
}

/// Softmax weight of position `t`: its share of the denominator.
pub open spec fn share<F: Num>(w: Walk, scores: Scores<F>, extra: Option<F>, t: int) -> F {
    let max = softmax_max(w, scores, extra);
    weight(scores, t, max).mul_s(F::one_s().div_s(softmax_sum(w, scores, extra, max)))
}

/// `f` and `g` agree on the attended positions.
pub open spec fn same_terms<F>(w: Walk, f: spec_fn(int) -> F, g: spec_fn(int) -> F) -> bool {
    &&& forall|t: int| 0 <= t < w.sink_end ==> #[trigger] f(t) == g(t)
    &&& forall|t: int| w.window_start <= t < w.n_kv ==> #[trigger] f(t) == g(t)
}

proof fn lemma_attended_congr<F: Num>(w: Walk, f: spec_fn(int) -> F, g: spec_fn(int) -> F)
    requires
        same_terms(w, f, g),
    ensures
        attended_sum(w, f) == attended_sum(w, g),
{
    lemma_range_congr(f, g, 0, w.sink_end as int);
    lemma_range_congr(f, g, w.window_start as int, w.n_kv as int);
}

proof fn lemma_attended_scale<F: ExactNum>(
    w: Walk,
    h: spec_fn(int) -> F,
    f: spec_fn(int) -> F,
    c: F,
)
    requires
        forall|t: int| #[trigger] h(t) == f(t).mul_s(c),
    ensures
        attended_sum(w, h) == attended_sum(w, f).mul_s(c),
{
    let (s, a, n) = (w.sink_end as int, w.window_start as int, w.n_kv as int);
    lemma_range_scale(h, f, c, 0, s);
    lemma_range_scale(h, f, c, a, n);
    F::distrib(range_sum(f, 0, s), range_sum(f, a, n), c);
}

proof fn lemma_attended_add<F: ExactNum>(
    w: Walk,
    h: spec_fn(int) -> F,
    f: spec_fn(int) -> F,
    g: spec_fn(int) -> F,
)
    requires
        forall|t: int| #[trigger] h(t) == f(t).add_s(g(t)),
    ensures
        attended_sum(w, h) == attended_sum(w, f).add_s(attended_sum(w, g)),
{
    let (s, a, n) = (w.sink_end as int, w.window_start as int, w.n_kv as int);
    lemma_range_add(h, f, g, 0, s);
    lemma_range_add(h, f, g, a, n);
    lemma_add_swap(
        range_sum(f, 0, s),
        range_sum(g, 0, s),
        range_sum(f, a, n),
        range_sum(g, a, n),
    );
}

/// Terms that are zero or positive where they are attended.
spec fn no_negative<F: Num>(w: Walk, f: spec_fn(int) -> F) -> bool {
    &&& forall|t: int|
        0 <= t < w.sink_end ==> #[trigger] f(t) == F::zero_s() || f(t).gt_s(F::zero_s())
    &&& forall|t: int|
        w.window_start <= t < w.n_kv ==> #[trigger] f(t) == F::zero_s() || f(t).gt_s(F::zero_s())
}

proof fn lemma_attended_sign<F: ExactNum>(w: Walk, f: spec_fn(int) -> F)
    requires
        ordered::<F>(),
        no_negative(w, f),
    ensures
        attended_sum(w, f) == F::zero_s() || attended_sum(w, f).gt_s(F::zero_s()),
        forall|t: int|
            (0 <= t < w.sink_end || w.window_start <= t < w.n_kv) && (#[trigger] f(t)).gt_s(
                F::zero_s(),
            ) ==> attended_sum(w, f).gt_s(F::zero_s()),
{
    let (s, a, n) = (w.sink_end as int, w.window_start as int, w.n_kv as int);
    lemma_sum_sign(f, 0, s);
    lemma_sum_sign(f, a, n);
    lemma_sign_add(range_sum(f, 0, s), range_sum(f, a, n));
}

/// Without an attended score above it, negative infinity as the maximum means
/// that every position is blocked.
proof fn lemma_all_blocked<F: ExactNum>(w: Walk, scores: Scores<F>, extra: Option<F>, t: int)
    requires
        finite_scores(w, scores),
        softmax_max(w, scores, extra) == F::neg_inf_s(),
        0 <= t < w.sink_end || w.window_start <= t < w.n_kv,
    ensures
        scores.blocked.contains(t),
{
    lemma_softmax_max(w, scores, extra);
    if in_walk(w, scores, t) {
        lemma_above(scores.at[t], F::neg_inf_s());
        F::order_irreflexive(F::neg_inf_s());
    }
}

/// Softmax attention relative to the largest score is softmax attention with no
/// number taken off the scores.
pub proof fn law_attention_is_unshifted<F: ExactNum>(
    w: Walk,
    scores: Scores<F>,
    values: Seq<Seq<F>>,
    extra: Option<F>,
    i: int,
)
    requires
        finite_scores(w, scores),
        softmax_sum(w, scores, extra, softmax_max(w, scores, extra)).gt_s(F::zero_s()),
        invertible(softmax_sum(w, scores, extra, softmax_max(w, scores, extra))),
        invertible(plain_sum(w, scores, extra)),
    ensures
        softmax_attention(w, scores, values, extra, i) == plain_attention(
            w,
            scores,
            values,
            extra,
            i,
        ),
{
    let m = softmax_max(w, scores, extra);
    let sum = softmax_sum(w, scores, extra, m);
    let total = plain_sum(w, scores, extra);
    let (inv, plain_inv) = (F::one_s().div_s(sum), F::one_s().div_s(total));
    let shifted = |t: int| weight(scores, t, m).mul_s(inv).mul_s(values[t][i]);
    let plain = |t: int|
        plain_weight(scores, t).div_s(plain_sum(w, scores, extra)).mul_s(values[t][i]);
    F::zero_above_neg_inf();
    F::neg_inf_lowest(m);
    F::order_total(m, F::neg_inf_s());
    if m == F::neg_inf_s() {
        assert forall|t: int|
            0 <= t < w.sink_end || w.window_start <= t < w.n_kv implies #[trigger] shifted(t)
            == plain(t) by {
            lemma_all_blocked(w, scores, extra, t);
            lemma_zero_mul(inv);
            F::div_recip(F::zero_s(), total);
            lemma_zero_mul(plain_inv);
        }
    } else {
        // every exponential has the factor exp(0 - m)
        let c = F::zero_s().sub_s(m).exp_s();
        let near = |t: int| weight(scores, t, m);
        let far = |t: int| plain_weight(scores, t);
        assert forall|t: int| #[trigger] near(t) == far(t).mul_s(c) by {
            F::exp_shift(scores.at[t], F::zero_s(), m);
            F::sub_zero(scores.at[t]);
            lemma_zero_mul(c);
        }
        lemma_attended_scale(w, near, far, c);
        if let Some(x) = extra {
            F::exp_shift(x, F::zero_s(), m);
            F::sub_zero(x);
            F::distrib(attended_sum(w, far), x.exp_s(), c);
        }
        assert(sum == total.mul_s(c));
        lemma_recip_factor(total, c);
        assert forall|t: int| #[trigger] shifted(t) == plain(t) by {
            assert(near(t) == far(t).mul_s(c));
            F::mul_assoc(far(t), c, inv);
            F::div_recip(far(t), total);
        }
    }
    assert(same_terms(w, shifted, plain));
    lemma_attended_congr(w, shifted, plain);
}

/// The softmax weights of the attended positions, with that of the extra logit,
/// add up to one.
pub proof fn law_attention_weights_sum_to_one<F: ExactNum>(
    w: Walk,
    scores: Scores<F>,
    extra: Option<F>,
)
    requires
        invertible(softmax_sum(w, scores, extra, softmax_max(w, scores, extra))),
    ensures
        ({
            let m = softmax_max(w, scores, extra);
            let shares = attended_sum(w, |t: int| share(w, scores, extra, t));
            F::one_s() == match extra {
                None => shares,
                Some(x) => shares.add_s(
                    x.sub_s(m).exp_s().mul_s(
                        F::one_s().div_s(softmax_sum(w, scores, extra, m)),
                    ),
                ),
            }
        }),
{
    let m = softmax_max(w, scores, extra);
    let inv = F::one_s().div_s(softmax_sum(w, scores, extra, m));
    let part = |t: int| weight(scores, t, m);
    let shares = |t: int| share(w, scores, extra, t);
    lemma_attended_scale(w, shares, part, inv);
    if let Some(x) = extra {
        F::distrib(attended_sum(w, part), x.sub_s(m).exp_s(), inv);
    }
}

/// Nothing, or a positive number times one that is not negative, is not negative.
proof fn lemma_product_sign<F: ExactNum>(a: F, b: F)
    requires
        ordered::<F>(),
        a == F::zero_s() || a.gt_s(F::zero_s()) && (b == F::zero_s() || b.gt_s(F::zero_s())),
    ensures
        a.mul_s(b) == F::zero_s() || a.mul_s(b).gt_s(F::zero_s()),
{
    lemma_zero_mul(b);
    F::mul_zero(a);
}

/// A blocked position has no share, any other a positive one.
proof fn lemma_share_sign<F: ExactNum>(w: Walk, scores: Scores<F>, t: int)
    requires
        ordered::<F>(),
        0 <= t < w.sink_end || w.window_start <= t < w.n_kv,
        softmax_sum(w, scores, None, softmax_max(w, scores, None)).gt_s(F::zero_s()),
        in_walk(w, scores, t) ==> weight(scores, t, softmax_max(w, scores, None)).gt_s(
            F::zero_s(),
        ),
    ensures
        scores.blocked.contains(t) ==> share(w, scores, None, t) == F::zero_s(),
        in_walk(w, scores, t) ==> share(w, scores, None, t).gt_s(F::zero_s()),
{
    let inv = F::one_s().div_s(softmax_sum(w, scores, None, softmax_max(w, scores, None)));
    assert(inv.gt_s(F::zero_s()));
    lemma_zero_mul(inv);
}

/// An output of attention without a sink lies between the bounds of the values
/// that it attends: where no attended value is below `lo` or above `hi`, the
/// output is not either.
pub proof fn law_attention_stays_between<F: ExactNum>(
    w: Walk,
    scores: Scores<F>,
    values: Seq<Seq<F>>,
    i: int,
    lo: F,
    hi: F,
)
    requires
        ordered::<F>(),
        exists|t: int| #[trigger] in_walk(w, scores, t),
        forall|t: int| #[trigger]
            in_walk(w, scores, t) ==> weight(scores, t, softmax_max(w, scores, None)).gt_s(
                F::zero_s(),
            ),
        forall|t: int| #[trigger]
            in_walk(w, scores, t) ==> not_above(lo, values[t][i]) && not_above(values[t][i], hi),
    ensures
        not_above(lo, softmax_attention(w, scores, values, None, i)),
        not_above(softmax_attention(w, scores, values, None, i), hi),
{
    let m = softmax_max(w, scores, None);
    let sum = softmax_sum(w, scores, None, m);
    let inv = F::one_s().div_s(sum);
    let (zero, one) = (F::zero_s(), F::one_s());
    let out = softmax_attention(w, scores, values, None, i);
    // the denominator is positive
    let part = |t: int| weight(scores, t, m);
    assert forall|t: int|
        0 <= t < w.sink_end || w.window_start <= t < w.n_kv implies #[trigger] part(t) == zero
        || part(t).gt_s(zero) by {
        if !scores.blocked.contains(t) {
            assert(in_walk(w, scores, t));
        }
    }
    assert(no_negative(w, part));
    lemma_attended_sign(w, part);
    let t0 = choose|t: int| #[trigger] in_walk(w, scores, t);
    assert(part(t0).gt_s(zero));
    assert(sum.gt_s(zero));
    assert(inv.gt_s(zero) && invertible(sum));
    // the weights and what they make of the values
    let shares = |t: int| share(w, scores, None, t);
    law_attention_weights_sum_to_one(w, scores, None);
    lemma_attended_congr(w, shares, |t: int| share(w, scores, None, t));
    let held = |t: int| weight(scores, t, m).mul_s(inv).mul_s(values[t][i]);
    assert(out == attended_sum(w, held));
    // over the lower bound
    let over = |t: int| shares(t).mul_s(values[t][i].sub_s(lo));
    let low = |t: int| shares(t).mul_s(lo.neg_s());
    assert forall|t: int| #[trigger] over(t) == held(t).add_s(low(t)) by {
        F::sub_add_neg(values[t][i], lo);
        lemma_distrib_left(shares(t), values[t][i], lo.neg_s());
    }
    lemma_attended_add(w, over, held, low);
    lemma_attended_scale(w, low, shares, lo.neg_s());
    F::mul_comm(one, lo.neg_s());
    F::mul_one(lo.neg_s());
    F::sub_add_neg(out, lo);
    assert(attended_sum(w, over) == out.sub_s(lo));
    // under the upper bound
    let under = |t: int| shares(t).mul_s(hi.sub_s(values[t][i]));
    let high = |t: int| shares(t).mul_s(hi);
    let back = |t: int| shares(t).mul_s(values[t][i].neg_s());
    let none = |t: int| zero;
    assert forall|t: int| #[trigger] under(t) == high(t).add_s(back(t)) by {
        F::sub_add_neg(hi, values[t][i]);
        lemma_distrib_left(shares(t), hi, values[t][i].neg_s());
    }
    assert forall|t: int| #[trigger] none(t) == back(t).add_s(held(t)) by {
        lemma_distrib_left(shares(t), values[t][i].neg_s(), values[t][i]);
        lemma_add_neg(values[t][i]);
        F::mul_zero(shares(t));
    }
    lemma_attended_add(w, under, high, back);
    lemma_attended_add(w, none, back, held);
    lemma_attended_scale(w, high, shares, hi);
    F::mul_zero(zero);
    assert forall|t: int| #[trigger] none(t) == none(t).mul_s(zero) by {}
    lemma_attended_scale(w, none, none, zero);
    F::mul_zero(attended_sum(w, none));
    lemma_neg_unique(attended_sum(w, back), out);
    F::mul_comm(one, hi);
    F::mul_one(hi);
    F::sub_add_neg(hi, out);
    assert(attended_sum(w, under) == hi.sub_s(out));
    // both sums have no negative term
    assert forall|t: int|
        0 <= t < w.sink_end || w.window_start <= t < w.n_kv implies #[trigger] over(t) == zero
        || over(t).gt_s(zero) by {
        lemma_share_sign(w, scores, t);
        lemma_product_sign(shares(t), values[t][i].sub_s(lo));
    }
    assert forall|t: int|
        0 <= t < w.sink_end || w.window_start <= t < w.n_kv implies #[trigger] under(t) == zero
        || under(t).gt_s(zero) by {
        lemma_share_sign(w, scores, t);
        lemma_product_sign(shares(t), hi.sub_s(values[t][i]));
    }
    assert(no_negative(w, over));
    assert(no_negative(w, under));
    lemma_attended_sign(w, over);
    lemma_attended_sign(w, under);
}

proof fn lemma_distrib_left<F: ExactNum>(a: F, b: F, c: F)
    ensures
        a.mul_s(b.add_s(c)) == a.mul_s(b).add_s(a.mul_s(c)),
{
    F::mul_comm(a, b.add_s(c));
    F::distrib(b, c, a);
    F::mul_comm(b, a);
    F::mul_comm(c, a);
}

} // verus!
