//! The attention kernels compute softmax attention: in exact arithmetic the
//! online, strided, merged computation equals the textbook formula.
use vstd::arithmetic::div_mod::{
    lemma_fundamental_div_mod, lemma_mod_bound, lemma_mod_multiples_vanish, lemma_small_mod,
};
use vstd::prelude::*;

use super::attention::{
    all_states, attend_scores, combine, fresh, lane_maxima, lane_sums, merged, merged_plain,
    pick_max, rescale, simdgroup_state, step, walk, Online, Scores, Sink, Walk,
};
use crate::num::{total, ExactNum, Num};
use crate::sums::{
    lemma_lanes, lemma_range_add, lemma_range_congr, lemma_range_scale, lemma_range_split,
    lemma_range_zero, lemma_strided_congr, lemma_strided_scale, lemma_total_range, lemma_zero_add,
    lemma_zero_mul, range_sum, strided_sum,
};

verus! {

/// A position that the walk attends.
pub open spec fn in_walk<F>(w: Walk, scores: Scores<F>, t: int) -> bool {
    &&& 0 <= t < w.sink_end || w.window_start <= t < w.n_kv
    &&& !scores.blocked.contains(t)
}

/// Weight of position `t` relative to `max`; nothing if it is blocked.
pub open spec fn weight<F: Num>(scores: Scores<F>, t: int, max: F) -> F {
    if scores.blocked.contains(t) {
        F::zero_s()
    } else {
        scores.at[t].sub_s(max).exp_s()
    }
}

/// Sum of a term over the attended positions.
pub open spec fn attended_sum<F: Num>(w: Walk, term: spec_fn(int) -> F) -> F {
    range_sum(term, 0, w.sink_end as int).add_s(
        range_sum(term, w.window_start as int, w.n_kv as int),
    )
}

/// Largest of `init` and the scores of positions `a .. b` that are not blocked.
pub open spec fn range_max<F: Num>(scores: Scores<F>, init: F, a: int, b: int) -> F
    decreases b - a,
{
    if b <= a {
        init
    } else if scores.blocked.contains(b - 1) {
        range_max(scores, init, a, b - 1)
    } else {
        pick_max(scores.at[b - 1], range_max(scores, init, a, b - 1))
    }
}

/// The logit that a sink adds to the softmax, if any.
pub open spec fn sink_logit<F>(sink: Sink<F>) -> Option<F> {
    match sink {
        Sink::Absent => None,
        Sink::Joined { present, logit } => if present {
            Some(logit)
        } else {
            None
        },
        Sink::Appended { logit } => Some(logit),
    }
}

/// Largest attended score, or sink logit.
pub open spec fn softmax_max<F: Num>(w: Walk, scores: Scores<F>, extra: Option<F>) -> F {
    let m = range_max(
        scores,
        range_max(scores, F::neg_inf_s(), 0, w.sink_end as int),
        w.window_start as int,
        w.n_kv as int,
    );
    match extra {
        None => m,
        Some(x) => pick_max(x, m),
    }
}

/// Softmax denominator relative to `max`.
pub open spec fn softmax_sum<F: Num>(w: Walk, scores: Scores<F>, extra: Option<F>, max: F) -> F {
    let sum = attended_sum(w, |t: int| weight(scores, t, max));
    match extra {
        None => sum,
        Some(x) => sum.add_s(x.sub_s(max).exp_s()),
    }
}

/// Element `i` of softmax attention: the attended values, each weighted by its
/// share of the denominator.
pub open spec fn softmax_attention<F: Num>(
    w: Walk,
    scores: Scores<F>,
    values: Seq<Seq<F>>,
    extra: Option<F>,
    i: int,
) -> F {
    let max = softmax_max(w, scores, extra);
    let sum = softmax_sum(w, scores, extra, max);
    let inv = if sum.gt_s(F::zero_s()) {
        F::one_s().div_s(sum)
    } else {
        F::zero_s()
    };
    attended_sum(w, |t: int| weight(scores, t, max).mul_s(inv).mul_s(values[t][i]))
}

pub proof fn lemma_not_gt_trans<F: ExactNum>(a: F, b: F, c: F)
    requires
        !a.gt_s(b),
        !b.gt_s(c),
    ensures
        !a.gt_s(c),
{
    F::order_total(a, b);
    if a.gt_s(c) && b.gt_s(a) {
        F::order_transitive(b, a, c);
    }
}

pub proof fn lemma_pick_max<F: ExactNum>(candidate: F, current: F)
    ensures
        !candidate.gt_s(pick_max(candidate, current)),
        !current.gt_s(pick_max(candidate, current)),
{
    F::order_irreflexive(candidate);
    F::order_irreflexive(current);
    if candidate.gt_s(current) && current.gt_s(candidate) {
        F::order_transitive(candidate, current, candidate);
    }
}

/// What is not below a value above negative infinity is above it too.
pub proof fn lemma_above<F: ExactNum>(a: F, b: F)
    requires
        a.gt_s(F::neg_inf_s()),
        !a.gt_s(b),
    ensures
        b.gt_s(F::neg_inf_s()),
{
    F::order_total(a, b);
    if b.gt_s(a) {
        F::order_transitive(b, a, F::neg_inf_s());
    }
}

/// Every attended score is above negative infinity.
pub open spec fn finite_scores<F: Num>(w: Walk, scores: Scores<F>) -> bool {
    forall|t: int| in_walk(w, scores, t) ==> (#[trigger] scores.at[t]).gt_s(F::neg_inf_s())
}

/// The scores of positions `a .. b` that are not blocked are above negative
/// infinity, and `m` is, unless there are none.
pub open spec fn finite_between<F: Num>(scores: Scores<F>, a: int, b: int, m: F) -> bool {
    forall|t: int|
        a <= t < b && !scores.blocked.contains(t) ==> (#[trigger] scores.at[t]).gt_s(
            F::neg_inf_s(),
        ) && m.gt_s(F::neg_inf_s())
}

/// The same of the attended positions.
pub open spec fn finite_reference<F: Num>(w: Walk, scores: Scores<F>, m: F) -> bool {
    &&& finite_between(scores, 0, w.sink_end as int, m)
    &&& finite_between(scores, w.window_start as int, w.n_kv as int, m)
}

/// A largest score is a finite reference.
pub proof fn lemma_finite_max<F: ExactNum>(w: Walk, scores: Scores<F>, extra: Option<F>, m: F)
    requires
        finite_scores(w, scores),
        is_max(w, scores, extra, m),
    ensures
        finite_reference(w, scores, m),
{
    assert forall|t: int| in_walk(w, scores, t) implies (#[trigger] scores.at[t]).gt_s(
        F::neg_inf_s(),
    ) && m.gt_s(F::neg_inf_s()) by {
        lemma_above(scores.at[t], m);
    }
    assert forall|t: int|
        0 <= t < w.sink_end && !scores.blocked.contains(t) implies (#[trigger] scores.at[t]).gt_s(
        F::neg_inf_s(),
    ) && m.gt_s(F::neg_inf_s()) by {
        assert(in_walk(w, scores, t));
    }
    assert forall|t: int|
        w.window_start <= t < w.n_kv && !scores.blocked.contains(t) implies (
    #[trigger] scores.at[t]).gt_s(F::neg_inf_s()) && m.gt_s(F::neg_inf_s()) by {
        assert(in_walk(w, scores, t));
    }
}

/// Two values, neither above the other, are one.
proof fn lemma_antisymmetric<F: ExactNum>(a: F, b: F)
    requires
        !a.gt_s(b),
        !b.gt_s(a),
    ensures
        a == b,
{
    F::order_total(a, b);
}

/// `m` is a largest element of the attended scores, the extra logit and
/// negative infinity.
pub open spec fn is_max<F: Num>(w: Walk, scores: Scores<F>, extra: Option<F>, m: F) -> bool {
    &&& (m == F::neg_inf_s() || extra == Some(m) || exists|t: int|
        in_walk(w, scores, t) && #[trigger] scores.at[t] == m)
    &&& forall|t: int| in_walk(w, scores, t) ==> !(#[trigger] scores.at[t]).gt_s(m)
    &&& extra matches Some(x) ==> !x.gt_s(m)
}

pub proof fn lemma_max_unique<F: ExactNum>(w: Walk, scores: Scores<F>, extra: Option<F>, a: F, b: F)
    requires
        is_max(w, scores, extra, a),
        is_max(w, scores, extra, b),
    ensures
        a == b,
{
    F::neg_inf_lowest(a);
    F::neg_inf_lowest(b);
    lemma_antisymmetric(a, b);
}

proof fn lemma_range_max<F: ExactNum>(scores: Scores<F>, init: F, a: int, b: int)
    ensures
        !init.gt_s(range_max(scores, init, a, b)),
        forall|t: int|
            a <= t < b && !scores.blocked.contains(t) ==> !(#[trigger] scores.at[t]).gt_s(
                range_max(scores, init, a, b),
            ),
        range_max(scores, init, a, b) == init || exists|t: int|
            a <= t < b && !scores.blocked.contains(t) && #[trigger] scores.at[t] == range_max(
                scores,
                init,
                a,
                b,
            ),
    decreases b - a,
{
    F::order_irreflexive(init);
    if a < b {
        lemma_range_max(scores, init, a, b - 1);
        let before = range_max(scores, init, a, b - 1);
        let after = range_max(scores, init, a, b);
        lemma_pick_max(scores.at[b - 1], before);
        lemma_not_gt_trans(init, before, after);
        F::order_irreflexive(before);
        assert forall|t: int| a <= t < b && !scores.blocked.contains(t) implies !(
        #[trigger] scores.at[t]).gt_s(after) by {
            if t < b - 1 {
                lemma_not_gt_trans(scores.at[t], before, after);
            }
        }
    }
}

pub proof fn lemma_softmax_max<F: ExactNum>(w: Walk, scores: Scores<F>, extra: Option<F>)
    ensures
        is_max(w, scores, extra, softmax_max(w, scores, extra)),
{
    let m1 = range_max(scores, F::neg_inf_s(), 0, w.sink_end as int);
    let m2 = range_max(scores, m1, w.window_start as int, w.n_kv as int);
    lemma_range_max(scores, F::neg_inf_s(), 0, w.sink_end as int);
    lemma_range_max(scores, m1, w.window_start as int, w.n_kv as int);
    let m = softmax_max(w, scores, extra);
    if let Some(x) = extra {
        lemma_pick_max(x, m2);
    } else {
        F::order_irreflexive(m2);
    }
    assert forall|t: int| in_walk(w, scores, t) implies !(#[trigger] scores.at[t]).gt_s(m) by {
        if 0 <= t < w.sink_end {
            lemma_not_gt_trans(scores.at[t], m1, m2);
        }
        lemma_not_gt_trans(scores.at[t], m2, m);
    }
    if m == m2 && m2 != F::neg_inf_s() {
        if m2 == m1 {
            let t = choose|t: int|
                0 <= t < w.sink_end && !scores.blocked.contains(t) && #[trigger] scores.at[t] == m1;
            assert(in_walk(w, scores, t));
        } else {
            let t = choose|t: int|
                w.window_start <= t < w.n_kv && !scores.blocked.contains(t)
                    && #[trigger] scores.at[t] == m2;
            assert(in_walk(w, scores, t));
        }
    }
}

/// The walk keeps the largest of its start and the scores that it visits.
proof fn lemma_walk_max<F: ExactNum>(
    scores: Scores<F>,
    values: Seq<Seq<F>>,
    st: Online<F>,
    t: int,
    stop: int,
    stride: int,
)
    requires
        0 < stride,
    ensures
        ({
            let m = walk(scores, values, st, t, stop, stride).max;
            &&& !st.max.gt_s(m)
            &&& forall|u: int|
                t <= u < stop && (u - t) % stride == 0 && !scores.blocked.contains(u) ==> !(
                #[trigger] scores.at[u]).gt_s(m)
            &&& m == st.max || exists|u: int|
                t <= u < stop && (u - t) % stride == 0 && !scores.blocked.contains(u)
                    && #[trigger] scores.at[u] == m
        }),
    decreases
            (if t < stop {
                stop - t
            } else {
                0
            }),
{
    F::order_irreflexive(st.max);
    if t < stop {
        let st1 = if scores.blocked.contains(t) {
            st
        } else {
            step(st, scores.at[t], values[t])
        };
        lemma_walk_max(scores, values, st1, t + stride, stop, stride);
        let m = walk(scores, values, st, t, stop, stride).max;
        lemma_small_mod(0, stride as nat);
        if m != st1.max {
            let u = choose|u: int|
                t + stride <= u < stop && (u - (t + stride)) % stride == 0
                    && !scores.blocked.contains(u) && #[trigger] scores.at[u] == m;
            lemma_mod_multiples_vanish(1, u - (t + stride), stride);
            assert(stride * 1 + (u - (t + stride)) == u - t) by (nonlinear_arith);
        }
        lemma_pick_max(scores.at[t], st.max);
        lemma_not_gt_trans(st.max, st1.max, m);
        assert forall|u: int|
            t <= u < stop && (u - t) % stride == 0 && !scores.blocked.contains(u) implies !(
        #[trigger] scores.at[u]).gt_s(m) by {
            if u == t {
                lemma_not_gt_trans(scores.at[t], st1.max, m);
            } else {
                if u - t < stride {
                    lemma_small_mod((u - t) as nat, stride as nat);
                }
                lemma_mod_multiples_vanish(-1, u - t, stride);
                assert(stride * -1 + (u - t) == u - (t + stride)) by (nonlinear_arith);
            }
        }
    }
}

/// `(x * f + w * y) * e == x * (f * e) + (w * e) * y`.
proof fn lemma_step_algebra<F: ExactNum>(x: F, f: F, w: F, y: F, e: F)
    ensures
        x.mul_s(f).add_s(w.mul_s(y)).mul_s(e) == x.mul_s(f.mul_s(e)).add_s(w.mul_s(e).mul_s(y)),
{
    F::distrib(x.mul_s(f), w.mul_s(y), e);
    F::mul_assoc(x, f, e);
    F::mul_assoc(w, y, e);
    F::mul_comm(y, e);
    F::mul_assoc(w, e, y);
}

/// The sum of a walk, rescaled to any reference `m`, is the rescaled start
/// plus the terms of the visited positions.
proof fn lemma_walk_sum<F: ExactNum>(
    scores: Scores<F>,
    values: Seq<Seq<F>>,
    st: Online<F>,
    t: int,
    stop: int,
    stride: int,
    m: F,
    term: spec_fn(int) -> F,
)
    requires
        finite_between(scores, t, stop, m),
        forall|u: int| #[trigger] term(u) == weight(scores, u, m),
    ensures
        ({
            let end = walk(scores, values, st, t, stop, stride);
            end.sum.mul_s(end.max.sub_s(m).exp_s()) == st.sum.mul_s(st.max.sub_s(m).exp_s()).add_s(
                strided_sum(term, t, stop, stride),
            )
        }),
    decreases
            (if t < stop {
                stop - t
            } else {
                0
            }),
{
    if t >= stop || stride <= 0 {
        F::add_zero(st.sum.mul_s(st.max.sub_s(m).exp_s()));
    } else {
        let st1 = if scores.blocked.contains(t) {
            st
        } else {
            step(st, scores.at[t], values[t])
        };
        assert(finite_between(scores, t + stride, stop, m));
        lemma_walk_sum(scores, values, st1, t + stride, stop, stride, m, term);
        if scores.blocked.contains(t) {
            assert(term(t) == F::zero_s());
            F::add_zero(st.sum.mul_s(st.max.sub_s(m).exp_s()));
        } else {
            let f = st.max.sub_s(st1.max).exp_s();
            let w = scores.at[t].sub_s(st1.max).exp_s();
            let e = st1.max.sub_s(m).exp_s();
            F::distrib(st.sum.mul_s(f), w, e);
            F::mul_assoc(st.sum, f, e);
            lemma_pick_max(scores.at[t], st.max);
            lemma_above(scores.at[t], st1.max);
            F::exp_shift(st.max, st1.max, m);
            F::exp_shift(scores.at[t], st1.max, m);
            assert(term(t) == w.mul_s(e));
        }
        F::add_assoc(
            st.sum.mul_s(st.max.sub_s(m).exp_s()),
            term(t),
            strided_sum(term, t + stride, stop, stride),
        );
    }
}

/// The same of element `i` of the accumulator.
proof fn lemma_walk_acc<F: ExactNum>(
    scores: Scores<F>,
    values: Seq<Seq<F>>,
    st: Online<F>,
    t: int,
    stop: int,
    stride: int,
    m: F,
    i: int,
    term: spec_fn(int) -> F,
)
    requires
        0 <= i < st.acc.len(),
        finite_between(scores, t, stop, m),
        forall|u: int|
            #[trigger] term(u) == weight(scores, u, m).mul_s(values[u][i]),
    ensures
        ({
            let end = walk(scores, values, st, t, stop, stride);
            &&& end.acc.len() == st.acc.len()
            &&& end.acc[i].mul_s(end.max.sub_s(m).exp_s()) == st.acc[i].mul_s(
                st.max.sub_s(m).exp_s(),
            ).add_s(strided_sum(term, t, stop, stride))
        }),
    decreases
            (if t < stop {
                stop - t
            } else {
                0
            }),
{
    if t >= stop || stride <= 0 {
        F::add_zero(st.acc[i].mul_s(st.max.sub_s(m).exp_s()));
    } else {
        let st1 = if scores.blocked.contains(t) {
            st
        } else {
            step(st, scores.at[t], values[t])
        };
        assert(finite_between(scores, t + stride, stop, m));
        lemma_walk_acc(scores, values, st1, t + stride, stop, stride, m, i, term);
        if scores.blocked.contains(t) {
            lemma_zero_mul(values[t][i]);
            assert(term(t) == F::zero_s());
            F::add_zero(st.acc[i].mul_s(st.max.sub_s(m).exp_s()));
        } else {
            let f = st.max.sub_s(st1.max).exp_s();
            let w = scores.at[t].sub_s(st1.max).exp_s();
            let e = st1.max.sub_s(m).exp_s();
            lemma_step_algebra(st.acc[i], f, w, values[t][i], e);
            lemma_pick_max(scores.at[t], st.max);
            lemma_above(scores.at[t], st1.max);
            F::exp_shift(st.max, st1.max, m);
            F::exp_shift(scores.at[t], st1.max, m);
            assert(term(t) == w.mul_s(e).mul_s(values[t][i]));
        }
        F::add_assoc(
            st.acc[i].mul_s(st.max.sub_s(m).exp_s()),
            term(t),
            strided_sum(term, t + stride, stop, stride),
        );
    }
}

/// What a walk over scores above negative infinity leaves, relative to its own
/// maximum.
pub proof fn lemma_walk_closed<F: ExactNum>(
    scores: Scores<F>,
    values: Seq<Seq<F>>,
    d: nat,
    t: int,
    stop: int,
    stride: int,
    i: int,
)
    requires
        0 < stride,
        0 <= i < d,
        !scores.blocked.contains(t),
        forall|u: int|
            t <= u < stop && !scores.blocked.contains(u) ==> (#[trigger] scores.at[u]).gt_s(
                F::neg_inf_s(),
            ),
    ensures
        ({
            let st = walk(scores, values, fresh::<F>(d), t, stop, stride);
            &&& forall|u: int|
                t <= u < stop && (u - t) % stride == 0 && !scores.blocked.contains(u) ==> !(
                #[trigger] scores.at[u]).gt_s(st.max)
            &&& st.max == F::neg_inf_s() || exists|u: int|
                t <= u < stop && (u - t) % stride == 0 && #[trigger] scores.at[u] == st.max
            &&& st.sum == strided_sum(|u: int| weight(scores, u, st.max), t, stop, stride)
            &&& st.acc[i] == strided_sum(
                |u: int| weight(scores, u, st.max).mul_s(values[u][i]),
                t,
                stop,
                stride,
            )
        }),
{
    let st0 = fresh::<F>(d);
    let st = walk(scores, values, st0, t, stop, stride);
    let m = st.max;
    lemma_walk_max(scores, values, st0, t, stop, stride);
    if t < stop {
        lemma_small_mod(0, stride as nat);
        assert(!scores.at[t].gt_s(m));
        lemma_above(scores.at[t], m);
    }
    assert(finite_between(scores, t, stop, m));
    let term = |u: int| weight(scores, u, m);
    let held = |u: int| weight(scores, u, m).mul_s(values[u][i]);
    lemma_walk_sum(scores, values, st0, t, stop, stride, m, term);
    lemma_walk_acc(scores, values, st0, t, stop, stride, m, i, held);
    F::sub_self(m);
    F::exp_zero();
    F::mul_one(st.sum);
    F::mul_one(st.acc[i]);
    lemma_zero_mul(st0.max.sub_s(m).exp_s());
    lemma_zero_add(strided_sum(term, t, stop, stride));
    lemma_zero_add(strided_sum(held, t, stop, stride));
    lemma_strided_congr(term, |u: int| weight(scores, u, m), t, stop, stride);
    lemma_strided_congr(
        held,
        |u: int| weight(scores, u, m).mul_s(values[u][i]),
        t,
        stop,
        stride,
    );
}

/// Terms of the positions that simdgroup `sg` visits.
pub open spec fn simdgroup_terms<F: Num>(w: Walk, term: spec_fn(int) -> F, sg: int) -> F {
    strided_sum(term, sg, w.sink_end as int, w.n_simd as int).add_s(
        strided_sum(term, sg + w.window_start, w.n_kv as int, w.n_simd as int),
    )
}

/// The simdgroups together visit every attended position once.
pub proof fn lemma_all_simdgroups<F: ExactNum>(
    w: Walk,
    term: spec_fn(int) -> F,
    per_sg: spec_fn(int) -> F,
)
    requires
        0 < w.n_simd,
        forall|sg: int|
            0 <= sg < w.n_simd ==> #[trigger] per_sg(sg) == simdgroup_terms(w, term, sg),
    ensures
        range_sum(per_sg, 0, w.n_simd as int) == attended_sum(w, term),
{
    let ns = w.n_simd as int;
    let first = |l: int| strided_sum(term, 0 + l, w.sink_end as int, ns);
    let second = |l: int| strided_sum(term, w.window_start + l, w.n_kv as int, ns);
    assert forall|l: int| 0 <= l < ns implies #[trigger] per_sg(l) == first(l).add_s(
        second(l),
    ) by {
        assert(l + w.window_start == w.window_start + l);
    }
    lemma_range_add(per_sg, first, second, 0, ns);
    lemma_lanes(term, 0, w.sink_end as int, ns);
    lemma_lanes(term, w.window_start as int, w.n_kv as int, ns);
    lemma_range_congr(
        first,
        |l: int| strided_sum(term, 0 + l, w.sink_end as int, ns),
        0,
        ns,
    );
    lemma_range_congr(
        second,
        |l: int| strided_sum(term, w.window_start + l, w.n_kv as int, ns),
        0,
        ns,
    );
}

pub proof fn lemma_simdgroup_sum<F: ExactNum>(
    w: Walk,
    scores: Scores<F>,
    values: Seq<Seq<F>>,
    sg: int,
    m: F,
    term: spec_fn(int) -> F,
)
    requires
        0 <= sg,
        finite_reference(w, scores, m),
        forall|u: int| #[trigger] term(u) == weight(scores, u, m),
    ensures
        ({
            let st = simdgroup_state(w, scores, values, sg);
            st.sum.mul_s(st.max.sub_s(m).exp_s()) == simdgroup_terms(w, term, sg)
        }),
{
    let st0 = fresh::<F>(w.head_dim as nat);
    let ns = w.n_simd as int;
    let st1 = walk(scores, values, st0, sg, w.sink_end as int, ns);
    assert(finite_between(scores, sg, w.sink_end as int, m));
    assert(finite_between(scores, sg + w.window_start, w.n_kv as int, m));
    lemma_walk_sum(scores, values, st0, sg, w.sink_end as int, ns, m, term);
    lemma_walk_sum(scores, values, st1, sg + w.window_start, w.n_kv as int, ns, m, term);
    lemma_zero_mul(st0.max.sub_s(m).exp_s());
    lemma_zero_add(strided_sum(term, sg, w.sink_end as int, ns));
}

pub proof fn lemma_simdgroup_acc<F: ExactNum>(
    w: Walk,
    scores: Scores<F>,
    values: Seq<Seq<F>>,
    sg: int,
    m: F,
    i: int,
    term: spec_fn(int) -> F,
)
    requires
        0 <= sg,
        0 <= i < w.head_dim,
        finite_reference(w, scores, m),
        forall|u: int|
            #[trigger] term(u) == weight(scores, u, m).mul_s(values[u][i]),
    ensures
        ({
            let st = simdgroup_state(w, scores, values, sg);
            st.acc[i].mul_s(st.max.sub_s(m).exp_s()) == simdgroup_terms(w, term, sg)
        }),
{
    let st0 = fresh::<F>(w.head_dim as nat);
    let ns = w.n_simd as int;
    let st1 = walk(scores, values, st0, sg, w.sink_end as int, ns);
    assert(finite_between(scores, sg, w.sink_end as int, m));
    assert(finite_between(scores, sg + w.window_start, w.n_kv as int, m));
    lemma_walk_acc(scores, values, st0, sg, w.sink_end as int, ns, m, i, term);
    lemma_walk_acc(scores, values, st1, sg + w.window_start, w.n_kv as int, ns, m, i, term);
    lemma_zero_mul(st0.max.sub_s(m).exp_s());
    lemma_zero_add(strided_sum(term, sg, w.sink_end as int, ns));
}

/// Every simdgroup maximum is an attended score or negative infinity, and
/// every attended score is covered by some simdgroup.
pub proof fn lemma_simdgroup_max<F: ExactNum>(w: Walk, scores: Scores<F>, values: Seq<Seq<F>>, sg: int)
    requires
        0 <= sg < w.n_simd,
    ensures
        ({
            let m = simdgroup_state(w, scores, values, sg).max;
            &&& m == F::neg_inf_s() || exists|t: int| in_walk(w, scores, t) && #[trigger] scores.at[t] == m
            &&& forall|t: int|
                0 <= t < w.sink_end && t % w.n_simd as int == sg && !scores.blocked.contains(t)
                    ==> !(#[trigger] scores.at[t]).gt_s(m)
            &&& forall|t: int|
                w.window_start <= t < w.n_kv && (t - w.window_start) % w.n_simd as int == sg
                    && !scores.blocked.contains(t) ==> !(#[trigger] scores.at[t]).gt_s(m)
        }),
{
    let ns = w.n_simd as int;
    let st0 = fresh::<F>(w.head_dim as nat);
    let st1 = walk(scores, values, st0, sg, w.sink_end as int, ns);
    let st2 = walk(scores, values, st1, sg + w.window_start, w.n_kv as int, ns);
    lemma_walk_max(scores, values, st0, sg, w.sink_end as int, ns);
    lemma_walk_max(scores, values, st1, sg + w.window_start, w.n_kv as int, ns);
    assert forall|t: int|
        0 <= t < w.sink_end && t % ns == sg && !scores.blocked.contains(t) implies !(
    #[trigger] scores.at[t]).gt_s(st2.max) by {
        lemma_residue(t, ns, sg);
        lemma_not_gt_trans(scores.at[t], st1.max, st2.max);
    }
    assert forall|t: int|
        w.window_start <= t < w.n_kv && (t - w.window_start) % ns == sg
            && !scores.blocked.contains(t) implies !(#[trigger] scores.at[t]).gt_s(st2.max) by {
        lemma_residue(t - w.window_start, ns, sg);
        assert(t - w.window_start - sg == t - (sg + w.window_start));
    }
    if st2.max != F::neg_inf_s() {
        if st2.max == st1.max {
            let t = choose|t: int|
                sg <= t < w.sink_end && !scores.blocked.contains(t) && #[trigger] scores.at[t]
                    == st1.max;
            assert(in_walk(w, scores, t));
        } else {
            let t = choose|t: int|
                sg + w.window_start <= t < w.n_kv && !scores.blocked.contains(t)
                    && #[trigger] scores.at[t] == st2.max;
            assert(in_walk(w, scores, t));
        }
    }
}

/// A number with residue `r` is `r` plus a multiple.
proof fn lemma_residue(t: int, n: int, r: int)
    requires
        0 < n,
        0 <= t,
        t % n == r,
    ensures
        r <= t,
        (t - r) % n == 0,
{
    lemma_fundamental_div_mod(t, n);
    let q = t / n;
    assert(0 <= n * q) by (nonlinear_arith)
        requires
            0 < n,
            n * q + r == t,
            0 <= t,
            r < n,
    ;
    lemma_mod_bound(t, n);
    lemma_mod_multiples_vanish(q, 0, n);
    lemma_small_mod(0, n as nat);
}

/// The merged maximum of the simdgroups is the largest attended score.
proof fn lemma_merged_max<F: ExactNum>(w: Walk, scores: Scores<F>, values: Seq<Seq<F>>)
    requires
        0 < w.n_simd <= 32,
    ensures
        is_max(
            w,
            scores,
            None,
            F::lane_max_s(lane_maxima(all_states(w, scores, values))),
        ),
{
    let ns = w.n_simd as int;
    let states = all_states(w, scores, values);
    let lanes = lane_maxima(states);
    let g = F::lane_max_s(lanes);
    F::lane_max_member(lanes);
    let l = choose|l: int| 0 <= l < lanes.len() && lanes[l] == g;
    if l < ns {
        lemma_simdgroup_max(w, scores, values, l);
        assert(lanes[l] == states[l].max);
    }
    assert forall|t: int| in_walk(w, scores, t) implies !(#[trigger] scores.at[t]).gt_s(g) by {
        let sg = if 0 <= t < w.sink_end {
            t % ns
        } else {
            (t - w.window_start) % ns
        };
        lemma_mod_bound(t, ns);
        lemma_mod_bound(t - w.window_start, ns);
        lemma_simdgroup_max(w, scores, values, sg);
        assert(lanes[sg] == states[sg].max);
        lemma_not_gt_trans(scores.at[t], states[sg].max, g);
    }
}

/// The lane sums, whatever their reference, add up to the attended terms.
proof fn lemma_merged_sum<F: ExactNum>(
    w: Walk,
    scores: Scores<F>,
    values: Seq<Seq<F>>,
    m: F,
    term: spec_fn(int) -> F,
)
    requires
        0 < w.n_simd <= 32,
        finite_reference(w, scores, m),
        forall|u: int| #[trigger] term(u) == weight(scores, u, m),
    ensures
        total(lane_sums(all_states(w, scores, values), m)) == attended_sum(w, term),
{
    let ns = w.n_simd as int;
    let states = all_states(w, scores, values);
    let lanes = lane_sums(states, m);
    let f = |l: int| lanes[l];
    lemma_total_range(lanes, f);
    lemma_range_split(f, 0, ns, 32);
    lemma_range_zero(f, ns, 32);
    F::add_zero(range_sum(f, 0, ns));
    assert forall|sg: int| 0 <= sg < ns implies #[trigger] f(sg) == simdgroup_terms(
        w,
        term,
        sg,
    ) by {
        lemma_simdgroup_sum(w, scores, values, sg, m, term);
        assert(states[sg] == simdgroup_state(w, scores, values, sg));
    }
    lemma_all_simdgroups(w, term, f);
}

/// Maximum and denominator that the kernels arrive at are those of the
/// softmax over the attended positions and the sink.
pub proof fn law_merged_is_softmax<F: ExactNum>(
    w: Walk,
    scores: Scores<F>,
    values: Seq<Seq<F>>,
    sink: Sink<F>,
)
    requires
        0 < w.n_simd <= 32,
        finite_scores(w, scores),
    ensures
        ({
            let g = merged(all_states(w, scores, values), sink);
            let extra = sink_logit(sink);
            &&& g.0 == softmax_max(w, scores, extra)
            &&& g.1 == softmax_sum(w, scores, extra, g.0)
        }),
{
    let states = all_states(w, scores, values);
    let extra = sink_logit(sink);
    let g = merged(states, sink);
    let plain = merged_plain(states);
    lemma_merged_max(w, scores, values);
    lemma_softmax_max(w, scores, extra);
    lemma_finite_max(w, scores, None, plain.0);
    let term = |t: int| weight(scores, t, g.0);
    match sink {
        Sink::Absent => {
            lemma_merged_sum(w, scores, values, g.0, term);
            F::lane_sum_total(lane_sums(states, g.0));
            lemma_max_unique(w, scores, extra, g.0, softmax_max(w, scores, extra));
        },
        Sink::Joined { present, logit } => {
            let raw = lane_maxima(states);
            let sink_max = if present {
                logit
            } else {
                F::neg_inf_s()
            };
            let lanes = Seq::new(
                32,
                |l: int| if l == 0 { pick_max(raw[0], sink_max) } else { raw[l] },
            );
            F::lane_max_member(raw);
            F::lane_max_member(lanes);
            lemma_pick_max(raw[0], sink_max);
            assert(lanes[0] == pick_max(raw[0], sink_max));
            let l = choose|l: int| 0 <= l < lanes.len() && lanes[l] == g.0;
            let p = plain.0;
            // the joined maximum is not below the plain one
            let j = choose|j: int| 0 <= j < raw.len() && raw[j] == p;
            assert(!p.gt_s(g.0)) by {
                if j == 0 {
                    lemma_not_gt_trans(p, lanes[0], g.0);
                } else {
                    assert(lanes[j] == raw[j]);
                }
            }
            lemma_not_gt_trans(sink_max, lanes[0], g.0);
            assert(g.0 == p || g.0 == sink_max) by {
                if l != 0 || pick_max(raw[0], sink_max) == raw[0] {
                    assert(g.0 == raw[l]);
                    lemma_antisymmetric(p, g.0);
                }
            }
            assert forall|t: int| in_walk(w, scores, t) implies !(#[trigger] scores.at[t]).gt_s(g.0) by {
                lemma_not_gt_trans(scores.at[t], p, g.0);
            }
            assert(is_max(w, scores, extra, g.0));
            lemma_finite_max(w, scores, extra, g.0);
            lemma_merged_sum(w, scores, values, g.0, term);
            lemma_max_unique(w, scores, extra, g.0, softmax_max(w, scores, extra));
            let sums = lane_sums(states, g.0);
            let sink_sum = if present {
                logit.sub_s(g.0).exp_s()
            } else {
                F::zero_s()
            };
            let joined = Seq::new(
                32,
                |l: int| sums[l].add_s(if l == 0 { sink_sum } else { F::zero_s() }),
            );
            let fj = |l: int| joined[l];
            let fs = |l: int| sums[l];
            let fk = |l: int| if l == 0 {
                sink_sum
            } else {
                F::zero_s()
            };
            F::lane_sum_total(joined);
            lemma_total_range(joined, fj);
            lemma_total_range(sums, fs);
            lemma_range_add(fj, fs, fk, 0, 32);
            lemma_range_split(fk, 0, 1, 32);
            lemma_range_zero(fk, 1, 32);
            reveal_with_fuel(range_sum, 2);
            lemma_zero_add(sink_sum);
            F::add_zero(sink_sum);
            F::add_zero(range_sum(fs, 0, 32));
        },
        Sink::Appended { logit } => {
            lemma_pick_max(logit, plain.0);
            assert forall|t: int| in_walk(w, scores, t) implies !(#[trigger] scores.at[t]).gt_s(g.0) by {
                lemma_not_gt_trans(scores.at[t], plain.0, g.0);
            }
            assert(is_max(w, scores, extra, g.0));
            lemma_finite_max(w, scores, extra, g.0);
            lemma_merged_sum(w, scores, values, g.0, term);
            lemma_max_unique(w, scores, extra, g.0, softmax_max(w, scores, extra));
            let term0 = |t: int| weight(scores, t, plain.0);
            lemma_merged_sum(w, scores, values, plain.0, term0);
            F::lane_sum_total(lane_sums(states, plain.0));
            let e = plain.0.sub_s(g.0).exp_s();
            assert forall|t: int|
                0 <= t < w.sink_end || w.window_start <= t < w.n_kv implies #[trigger] term(t)
                == term0(t).mul_s(e) by {
                if in_walk(w, scores, t) {
                    assert(scores.at[t].gt_s(F::neg_inf_s()));
                    F::exp_shift(scores.at[t], plain.0, g.0);
                }
                lemma_zero_mul(e);
            }
            lemma_range_scale(term, term0, e, 0, w.sink_end as int);
            lemma_range_scale(term, term0, e, w.window_start as int, w.n_kv as int);
            F::distrib(
                range_sum(term0, 0, w.sink_end as int),
                range_sum(term0, w.window_start as int, w.n_kv as int),
                e,
            );
        },
    }
    lemma_sum_term(w, scores, g.0, term);
}

/// The denominator may be stated with any function equal to its terms.
pub proof fn lemma_sum_term<F: Num>(w: Walk, scores: Scores<F>, m: F, term: spec_fn(int) -> F)
    requires
        forall|u: int| #[trigger] term(u) == weight(scores, u, m),
    ensures
        attended_sum(w, term) == attended_sum(w, |t: int| weight(scores, t, m)),
{
    let other = |t: int| weight(scores, t, m);
    lemma_range_congr(term, other, 0, w.sink_end as int);
    lemma_range_congr(term, other, w.window_start as int, w.n_kv as int);
}

proof fn lemma_combine_range<F: Num>(
    states: Seq<Online<F>>,
    g: (F, F),
    i: int,
    n: nat,
    f: spec_fn(int) -> F,
)
    requires
        forall|sg: int|
            0 <= sg < n ==> #[trigger] f(sg) == states[sg].acc[i].mul_s(
                rescale(states[sg].max, g),
            ),
    ensures
        combine(states, g, i, n) == range_sum(f, 0, n as int),
    decreases n,
{
    if n > 0 {
        lemma_combine_range(states, g, i, (n - 1) as nat, f);
        assert(f(n - 1) == states[n - 1].acc[i].mul_s(rescale(states[n - 1].max, g)));
    }
}

/// The output of a threadgroup is softmax attention over the attended
/// positions, the sink counting in the denominator alone.
pub proof fn law_attend_is_softmax<F: ExactNum>(
    w: Walk,
    scores: Scores<F>,
    values: Seq<Seq<F>>,
    sink: Sink<F>,
    i: int,
)
    requires
        0 < w.n_simd <= 32,
        0 <= i < w.head_dim,
        finite_scores(w, scores),
    ensures
        attend_scores(w, scores, values, sink)[i] == softmax_attention(
            w,
            scores,
            values,
            sink_logit(sink),
            i,
        ),
{
    law_merged_is_softmax(w, scores, values, sink);
    lemma_softmax_max(w, scores, sink_logit(sink));
    lemma_finite_max(w, scores, sink_logit(sink), softmax_max(w, scores, sink_logit(sink)));
    let ns = w.n_simd as int;
    let states = all_states(w, scores, values);
    let g = merged(states, sink);
    let inv = if g.1.gt_s(F::zero_s()) {
        F::one_s().div_s(g.1)
    } else {
        F::zero_s()
    };
    let f = |sg: int| states[sg].acc[i].mul_s(rescale(states[sg].max, g));
    lemma_combine_range(states, g, i, w.n_simd as nat, f);
    let plain = |t: int| weight(scores, t, g.0).mul_s(values[t][i]);
    let term = |t: int| weight(scores, t, g.0).mul_s(inv).mul_s(values[t][i]);
    assert forall|t: int| #[trigger] term(t) == plain(t).mul_s(inv) by {
        let e = weight(scores, t, g.0);
        F::mul_assoc(e, inv, values[t][i]);
        F::mul_comm(inv, values[t][i]);
        F::mul_assoc(e, values[t][i], inv);
    }
    assert forall|sg: int| 0 <= sg < ns implies #[trigger] f(sg) == simdgroup_terms(
        w,
        term,
        sg,
    ) by {
        lemma_simdgroup_acc(w, scores, values, sg, g.0, i, plain);
        let st = states[sg];
        assert(st == simdgroup_state(w, scores, values, sg));
        let e = st.max.sub_s(g.0).exp_s();
        F::div_recip(e, g.1);
        F::mul_zero(e);
        assert(rescale(st.max, g) == e.mul_s(inv));
        F::mul_assoc(st.acc[i], e, inv);
        lemma_strided_scale(term, plain, inv, sg, w.sink_end as int, ns);
        lemma_strided_scale(term, plain, inv, sg + w.window_start, w.n_kv as int, ns);
        F::distrib(
            strided_sum(plain, sg, w.sink_end as int, ns),
            strided_sum(plain, sg + w.window_start, w.n_kv as int, ns),
            inv,
        );
    }
    lemma_all_simdgroups(w, term, f);
    let stated = |t: int|
        weight(scores, t, g.0).mul_s(inv).mul_s(values[t][i]);
    lemma_range_congr(term, stated, 0, w.sink_end as int);
    lemma_range_congr(term, stated, w.window_start as int, w.n_kv as int);
}

} // verus!
