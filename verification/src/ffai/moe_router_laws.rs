//! What the top-k router promises of its picks and weights.
use vstd::prelude::*;

use super::attention::pick_max;
use super::moe_route::{
    is_chosen, lane_best, lane_bests, least_index, next_pick, pick_exps, pick_weight, row_max,
    row_sum, strided_exp, strided_max, top_picks, Pick,
};
use crate::num::{ExactNum, Num};
use crate::order::{invertible, lemma_recip_factor, lemma_sum_sign, ordered};
use crate::sums::{
    lemma_lanes, lemma_range_congr, lemma_range_scale, lemma_range_split, lemma_range_zero,
    lemma_total_range, lemma_zero_add, range_sum, strided_sum,
};

verus! {

/// A lane ends with the first of the largest unchosen logits it walks past.
proof fn lemma_lane_best<F: ExactNum>(
    logits: Seq<F>,
    picks: Seq<Pick<F>>,
    j: int,
    best: Pick<F>,
)
    requires
        0 <= j,
        logits.len() <= 0xffff_ffff,
    ensures
        ({
            let r = lane_best(logits, picks, j, best);
            &&& !best.val.gt_s(r.val)
            &&& forall|i: int|
                j <= i < logits.len() && i % 32 == j % 32 && !is_chosen(picks, i) ==> !(
                #[trigger] logits[i]).gt_s(r.val)
            &&& r == best || {
                &&& j <= r.idx < logits.len()
                &&& !is_chosen(picks, r.idx as int)
                &&& r.val == logits[r.idx as int]
                &&& r.val.gt_s(best.val)
                &&& forall|i: int|
                    j <= i < logits.len() && i % 32 == j % 32 && !is_chosen(picks, i)
                        && #[trigger] logits[i] == r.val ==> r.idx <= i
            }
        }),
    decreases
            (if j < logits.len() {
                logits.len() - j
            } else {
                0
            }),
{
    if j >= logits.len() {
        F::order_irreflexive(best.val);
    } else {
        let candidate = if is_chosen(picks, j) {
            F::neg_inf_s()
        } else {
            logits[j]
        };
        let next = if candidate.gt_s(best.val) {
            Pick { idx: j as u32, val: candidate }
        } else {
            best
        };
        F::neg_inf_lowest(best.val);
        lemma_lane_best(logits, picks, j + 32, next);
        let r = lane_best(logits, picks, j, best);
        assert(r == lane_best(logits, picks, j + 32, next));
        if candidate.gt_s(best.val) {
            if best.val.gt_s(r.val) {
                F::order_transitive(candidate, best.val, r.val);
            }
            F::order_total(r.val, candidate);
            if r != next {
                F::order_transitive(r.val, candidate, best.val);
            }
        }
        assert forall|i: int|
            j <= i < logits.len() && i % 32 == j % 32 && !is_chosen(picks, i) implies !(
        #[trigger] logits[i]).gt_s(r.val) by {
            if i == j {
                if logits[j].gt_s(r.val) {
                    F::order_total(logits[j], best.val);
                    F::order_irreflexive(r.val);
                    if !candidate.gt_s(best.val) && best.val.gt_s(logits[j]) {
                        F::order_transitive(best.val, logits[j], r.val);
                    }
                }
            } else {
                assert(i >= j + 32);
            }
        }
        if r != best {
            assert forall|i: int|
                j <= i < logits.len() && i % 32 == j % 32 && !is_chosen(picks, i)
                    && #[trigger] logits[i] == r.val implies r.idx <= i by {
                if i == j {
                    if r != next {
                        // the element at j is not above what came later
                        F::order_irreflexive(r.val);
                        if candidate.gt_s(best.val) {
                            assert(r.val.gt_s(candidate));
                        } else {
                            assert(r.val.gt_s(best.val));
                        }
                    }
                } else {
                    assert(i >= j + 32);
                }
            }
        }
    }
}

proof fn lemma_least_index<F: ExactNum>(bests: Seq<Pick<F>>, val: F, n: nat)
    requires
        n <= bests.len(),
    ensures
        ({
            let r = least_index(bests, val, n);
            &&& forall|l: int|
                0 <= l < n && (#[trigger] bests[l]).val == val ==> r <= bests[l].idx
            &&& r == 0xffff_ffff || exists|l: int|
                0 <= l < n && (#[trigger] bests[l]).val == val && bests[l].idx == r
        }),
    decreases n,
{
    if n > 0 {
        lemma_least_index(bests, val, (n - 1) as nat);
        F::ge_is_gt_or_same(bests[n - 1].val, val);
        let before = least_index(bests, val, (n - 1) as nat);
        let r = least_index(bests, val, n);
        if r == before && r != 0xffff_ffff {
            let l = choose|l: int|
                0 <= l < n - 1 && (#[trigger] bests[l]).val == val && bests[l].idx == before;
            assert(bests[l].val == val && bests[l].idx == r);
        } else if r != 0xffff_ffff {
            assert(bests[n - 1].val == val && bests[n - 1].idx == r);
        }
    }
}

/// The next pick is an expert that was not chosen yet; no other such expert has
/// a larger logit, and none with the same logit has a smaller index.
pub proof fn law_next_pick_is_best<F: ExactNum>(logits: Seq<F>, picks: Seq<Pick<F>>, left: int)
    requires
        logits.len() <= 0xffff_ffff,
        forall|j: int| 0 <= j < logits.len() ==> (#[trigger] logits[j]).gt_s(F::neg_inf_s()),
        0 <= left < logits.len(),
        !is_chosen(picks, left),
    ensures
        ({
            let p = next_pick(logits, picks);
            &&& p.idx < logits.len()
            &&& !is_chosen(picks, p.idx as int)
            &&& p.val == logits[p.idx as int]
            &&& forall|j: int|
                0 <= j < logits.len() && !is_chosen(picks, j) ==> !(#[trigger] logits[j]).gt_s(
                    p.val,
                )
            &&& forall|j: int|
                0 <= j < logits.len() && !is_chosen(picks, j) && #[trigger] logits[j] == p.val
                    ==> p.idx <= j
        }),
{
    let bests = lane_bests(logits, picks);
    let vals = Seq::new(32, |l: int| bests[l].val);
    let val = F::lane_max_s(vals);
    let start = Pick { idx: 0u32, val: F::neg_inf_s() };
    F::lane_max_member(vals);
    // every lane
    assert forall|l: int| 0 <= l < 32 implies !(#[trigger] bests[l]).val.gt_s(val) && (bests[l].val
        == val ==> bests[l].idx < logits.len() && !is_chosen(picks, bests[l].idx as int) && val
        == logits[bests[l].idx as int]) by {
        assert(!vals[l].gt_s(val));
        lemma_lane_best(logits, picks, l, start);
        if bests[l] == start && bests[l].val == val {
            // the lane of `left` holds more than the lowest number
            let m = left % 32;
            lemma_lane_best(logits, picks, m, start);
            assert(!logits[left].gt_s(bests[m].val));
            assert(!vals[m].gt_s(val));
            F::order_total(logits[left], bests[m].val);
            assert(logits[left].gt_s(val));
            if bests[m].val != logits[left] {
                F::order_transitive(bests[m].val, logits[left], val);
            }
            assert(false);
        }
    }
    let top = choose|l: int| 0 <= l < vals.len() && vals[l] == val;
    assert(bests[top].val == val);
    lemma_least_index(bests, val, 32);
    let p = next_pick(logits, picks);
    assert(p.idx <= bests[top].idx);
    let hit = choose|l: int|
        0 <= l < 32 && (#[trigger] bests[l]).val == val && bests[l].idx == p.idx;
    assert(bests[hit].idx == p.idx);
    assert forall|j: int| 0 <= j < logits.len() && !is_chosen(picks, j) implies !(
    #[trigger] logits[j]).gt_s(p.val) && (logits[j] == p.val ==> p.idx <= j) by {
        let m = j % 32;
        lemma_lane_best(logits, picks, m, start);
        let b = bests[m];
        assert(!logits[j].gt_s(b.val));
        assert(!b.val.gt_s(val));
        F::order_total(logits[j], b.val);
        F::order_total(b.val, val);
        if logits[j].gt_s(val) {
            if b.val != logits[j] {
                F::order_transitive(b.val, logits[j], val);
            }
        }
        if logits[j] == val {
            assert(b.val == val);
            assert(p.idx <= b.idx);
            F::order_irreflexive(val);
            if b == start {
                assert(logits[j].gt_s(F::neg_inf_s()));
            }
            assert(b.idx <= j);
        }
    }
}

/// With fewer picks than experts, some expert is left.
pub proof fn lemma_some_left<F>(picks: Seq<Pick<F>>, n: int) -> (left: int)
    requires
        picks.len() < n,
    ensures
        0 <= left < n,
        !is_chosen(picks, left),
{
    let ids = Seq::new(picks.len(), |p: int| picks[p].idx as int);
    let all = vstd::set_lib::set_int_range(0, n);
    vstd::set_lib::lemma_int_range(0, n);
    ids.lemma_cardinality_of_set();
    if forall|j: int| 0 <= j < n ==> is_chosen(picks, j) {
        assert forall|j: int| all.contains(j) implies ids.to_set().contains(j) by {
            assert(is_chosen(picks, j));
            let p = choose|p: int| 0 <= p < picks.len() && (#[trigger] picks[p]).idx == j;
            assert(ids[p] == j);
        }
        vstd::set_lib::lemma_len_subset(all, ids.to_set());
        assert(false);
    }
    choose|j: int| 0 <= j < n && !is_chosen(picks, j)
}

/// The picks are distinct experts with their logits, in order of falling
/// logits, and no expert that was left out has a larger logit than a pick.
pub proof fn law_picks_are_top<F: ExactNum>(logits: Seq<F>, k: nat)
    requires
        k <= logits.len() <= 0xffff_ffff,
        forall|j: int| 0 <= j < logits.len() ==> (#[trigger] logits[j]).gt_s(F::neg_inf_s()),
    ensures
        ({
            let picks = top_picks(logits, k);
            &&& picks.len() == k
            &&& forall|p: int|
                0 <= p < k ==> (#[trigger] picks[p]).idx < logits.len() && picks[p].val
                    == logits[picks[p].idx as int]
            &&& forall|p: int, r: int|
                0 <= p < r < k ==> (#[trigger] picks[p]).idx != (#[trigger] picks[r]).idx
                    && !picks[r].val.gt_s(picks[p].val)
            &&& forall|p: int, j: int|
                0 <= p < k && 0 <= j < logits.len() && !is_chosen(picks, j) ==> !(
                #[trigger] logits[j]).gt_s((#[trigger] picks[p]).val)
        }),
    decreases k,
{
    if k > 0 {
        let before = top_picks(logits, (k - 1) as nat);
        law_picks_are_top(logits, (k - 1) as nat);
        let left = lemma_some_left(before, logits.len() as int);
        law_next_pick_is_best(logits, before, left);
        let last = next_pick(logits, before);
        let picks = top_picks(logits, k);
        assert(picks == before.push(last));
        assert forall|p: int, r: int| 0 <= p < r < k implies (#[trigger] picks[p]).idx != (
        #[trigger] picks[r]).idx && !picks[r].val.gt_s(picks[p].val) by {
            assert(picks[p] == before[p]);
            if r == k - 1 {
                assert(!logits[last.idx as int].gt_s(before[p].val));
                if before[p].idx == last.idx {
                    assert(is_chosen(before, last.idx as int));
                }
            } else {
                assert(picks[r] == before[r]);
            }
        }
        assert forall|p: int, j: int|
            0 <= p < k && 0 <= j < logits.len() && !is_chosen(picks, j) implies !(
        #[trigger] logits[j]).gt_s((#[trigger] picks[p]).val) by {
            if is_chosen(before, j) {
                let m = choose|m: int| 0 <= m < before.len() && (#[trigger] before[m]).idx == j;
                assert(picks[m].idx == j);
            }
            if p < k - 1 {
                assert(picks[p] == before[p]);
            }
        }
    }
}

proof fn lemma_weights<F: ExactNum>(logits: Seq<F>, k: nat, normalise: bool)
    requires
        k <= 32,
    ensures
        ({
            let d = if normalise {
                F::lane_sum_s(pick_exps(logits, k))
            } else {
                row_sum(logits)
            };
            range_sum(|l: int| pick_weight(logits, k, normalise, l), 0, k as int) == F::lane_sum_s(
                pick_exps(logits, k),
            ).div_s(d)
        }),
{
    let e = pick_exps(logits, k);
    let s = F::lane_sum_s(e);
    let d = if normalise {
        s
    } else {
        row_sum(logits)
    };
    let r = F::one_s().div_s(d);
    let f = |l: int| e[l];
    F::lane_sum_total(e);
    lemma_total_range(e, f);
    lemma_range_split(f, 0, k as int, 32);
    lemma_range_zero(f, k as int, 32);
    F::add_zero(range_sum(f, 0, k as int));
    let w = |l: int| pick_weight(logits, k, normalise, l);
    assert forall|l: int| 0 <= l < k implies #[trigger] w(l) == f(l).mul_s(r) by {
        F::div_recip(e[l], d);
    }
    lemma_range_scale(w, f, r, 0, k as int);
    F::div_recip(s, d);
}

/// Normalised routing weights add up to one.
pub proof fn law_weights_sum_to_one<F: ExactNum>(logits: Seq<F>, k: nat)
    requires
        k <= 32,
        invertible(F::lane_sum_s(pick_exps(logits, k))),
    ensures
        range_sum(|l: int| pick_weight(logits, k, true, l), 0, k as int) == F::one_s(),
{
    lemma_weights(logits, k, true);
    let s = F::lane_sum_s(pick_exps(logits, k));
    F::div_recip(s, s);
}

/// Softmax over the chosen experts is softmax over all experts, renormalised
/// over the chosen ones.
pub proof fn law_chosen_softmax_is_renormalised<F: ExactNum>(logits: Seq<F>, k: nat, l: int)
    requires
        0 <= l < k <= 32,
        invertible(F::lane_sum_s(pick_exps(logits, k))),
        invertible(row_sum(logits)),
        invertible(F::lane_sum_s(pick_exps(logits, k)).div_s(row_sum(logits))),
    ensures
        pick_weight(logits, k, true, l) == pick_weight(logits, k, false, l).div_s(
            range_sum(|m: int| pick_weight(logits, k, false, m), 0, k as int),
        ),
{
    lemma_weights(logits, k, false);
    let e = pick_exps(logits, k)[l];
    let s = F::lane_sum_s(pick_exps(logits, k));
    let r = row_sum(logits);
    let (si, ri) = (F::one_s().div_s(s), F::one_s().div_s(r));
    let q = s.div_s(r);
    let qi = F::one_s().div_s(q);
    F::div_recip(s, r);
    F::div_recip(e, s);
    F::div_recip(e, r);
    F::div_recip(e.mul_s(ri), q);
    // q * (r * si) == 1
    let c = r.mul_s(si);
    F::mul_assoc(s, ri, c);
    F::mul_assoc(ri, r, si);
    F::mul_comm(ri, r);
    F::mul_comm(F::one_s(), si);
    F::mul_one(si);
    assert(q.mul_s(c) == F::one_s());
    // so c is the reciprocal of q
    F::mul_comm(q, qi);
    F::mul_assoc(qi, q, c);
    F::mul_one(qi);
    F::mul_comm(F::one_s(), c);
    F::mul_one(c);
    assert(qi == c);
    F::mul_assoc(e, ri, c);
    assert(e.mul_s(ri).mul_s(qi) == e.mul_s(si));
}

/// Exponential of logit `j` relative to the largest.
pub open spec fn logit_exp<F: Num>(logits: Seq<F>, j: int) -> F {
    logits[j].sub_s(row_max(logits)).exp_s()
}

proof fn lemma_strided_exp<F: ExactNum>(
    logits: Seq<F>,
    j: int,
    max: F,
    sum: F,
    f: spec_fn(int) -> F,
)
    requires
        forall|i: int| #[trigger] f(i) == logits[i].sub_s(max).exp_s(),
    ensures
        strided_exp(logits, j, max, sum) == sum.add_s(
            strided_sum(f, j, logits.len() as int, 32),
        ),
    decreases
            (if j < logits.len() {
                logits.len() - j
            } else {
                0
            }),
{
    if j >= logits.len() {
        F::add_zero(sum);
    } else {
        assert(f(j) == logits[j].sub_s(max).exp_s());
        lemma_strided_exp(logits, j + 32, max, sum.add_s(f(j)), f);
        F::add_assoc(sum, f(j), strided_sum(f, j + 32, logits.len() as int, 32));
    }
}

/// The softmax denominator of a row adds up the exponentials of all logits.
pub proof fn law_row_sum_is_total<F: ExactNum>(logits: Seq<F>)
    ensures
        row_sum(logits) == range_sum(|j: int| logit_exp(logits, j), 0, logits.len() as int),
{
    let n = logits.len() as int;
    let max = row_max(logits);
    let f = |j: int| logit_exp(logits, j);
    let lanes = Seq::new(32, |l: int| strided_exp(logits, l, row_max(logits), F::zero_s()));
    let strided = |l: int| strided_sum(f, 0 + l, n, 32);
    assert forall|l: int| 0 <= l < 32 implies #[trigger] strided(l) == lanes[l] by {
        lemma_strided_exp(logits, l, max, F::zero_s(), f);
        lemma_zero_add(strided_sum(f, l, n, 32));
    }
    F::lane_sum_total(lanes);
    lemma_total_range(lanes, strided);
    lemma_lanes(f, 0, n, 32);
    lemma_range_congr(strided, |l: int| strided_sum(f, 0 + l, n, 32), 0, 32);
    lemma_range_congr(f, |j: int| logit_exp(logits, j), 0, n);
}

/// Taking one term out of a sum.
proof fn lemma_take_out<F: ExactNum>(
    f: spec_fn(int) -> F,
    g: spec_fn(int) -> F,
    p: int,
    n: int,
)
    requires
        0 <= p < n,
        forall|t: int| 0 <= t < n && t != p ==> #[trigger] g(t) == f(t),
        g(p) == F::zero_s(),
    ensures
        range_sum(f, 0, n) == range_sum(g, 0, n).add_s(f(p)),
    decreases n,
{
    let before = range_sum(g, 0, n - 1);
    if p == n - 1 {
        lemma_range_congr(g, f, 0, n - 1);
        F::add_zero(before);
    } else {
        lemma_take_out(f, g, p, n - 1);
        assert(g(n - 1) == f(n - 1));
        F::add_assoc(before, f(p), f(n - 1));
        F::add_comm(f(p), f(n - 1));
        F::add_assoc(before, f(n - 1), f(p));
    }
}

/// Exponentials of the experts that the first `k` picks leave out.
spec fn left_out<F: Num>(logits: Seq<F>, k: nat, j: int) -> F {
    if is_chosen(top_picks(logits, k), j) {
        F::zero_s()
    } else {
        logit_exp(logits, j)
    }
}

/// The exponentials of the picks and of the experts left out make up the row.
proof fn lemma_chosen_and_left<F: ExactNum>(logits: Seq<F>, k: nat)
    requires
        k <= logits.len() <= 0xffff_ffff,
        forall|j: int| 0 <= j < logits.len() ==> (#[trigger] logits[j]).gt_s(F::neg_inf_s()),
    ensures
        range_sum(
            |l: int| logit_exp(logits, top_picks(logits, k)[l].idx as int),
            0,
            k as int,
        ).add_s(
            range_sum(|j: int| left_out(logits, k, j), 0, logits.len() as int),
        ) == range_sum(|j: int| logit_exp(logits, j), 0, logits.len() as int),
    decreases k,
{
    let n = logits.len() as int;
    let picks = top_picks(logits, k);
    let chosen = |l: int| logit_exp(logits, top_picks(logits, k)[l].idx as int);
    let rest = |j: int| left_out(logits, k, j);
    let all = |j: int| logit_exp(logits, j);
    if k == 0 {
        lemma_range_congr(rest, all, 0, n);
        lemma_zero_add(range_sum(rest, 0, n));
    } else {
        let m = (k - 1) as nat;
        let before = top_picks(logits, m);
        law_picks_are_top(logits, m);
        let left = lemma_some_left(before, n);
        law_next_pick_is_best(logits, before, left);
        lemma_chosen_and_left(logits, m);
        let p = next_pick(logits, before).idx as int;
        assert(picks == before.push(next_pick(logits, before)));
        let chosen0 = |l: int| logit_exp(logits, top_picks(logits, m)[l].idx as int);
        let rest0 = |j: int| left_out(logits, m, j);
        lemma_range_congr(chosen, chosen0, 0, m as int);
        assert forall|j: int| 0 <= j < n && j != p implies #[trigger] rest(j) == rest0(j) by {
            if is_chosen(before, j) {
                let c = choose|c: int| 0 <= c < before.len() && (#[trigger] before[c]).idx == j;
                assert(picks[c].idx == j);
            }
            if is_chosen(picks, j) {
                let c = choose|c: int| 0 <= c < picks.len() && (#[trigger] picks[c]).idx == j;
                assert(before[c].idx == j);
            }
        }
        assert(picks[m as int].idx == p);
        assert(is_chosen(picks, p));
        lemma_take_out(rest0, rest, p, n);
        let (a, b, e) = (range_sum(chosen0, 0, m as int), range_sum(rest, 0, n), all(p));
        F::add_assoc(a, b, e);
        F::add_assoc(a, e, b);
        F::add_comm(b, e);
    }
}

/// The two modes of the router on one row of finite logits with positive
/// exponentials. A raw weight is its pick's share of the exponentials of all
/// experts; raw weights add up to at most one, and to less where an expert is
/// left out. Normalised weights add up to one, and are the raw ones over their
/// sum.
pub proof fn law_router_modes<F: ExactNum>(logits: Seq<F>, k: nat, l: int)
    requires
        ordered::<F>(),
        0 <= l < k <= 32,
        k <= logits.len() <= 0xffff_ffff,
        forall|j: int| 0 <= j < logits.len() ==> (#[trigger] logits[j]).gt_s(F::neg_inf_s()),
        forall|j: int| 0 <= j < logits.len() ==> (#[trigger] logit_exp(logits, j)).gt_s(
            F::zero_s(),
        ),
    ensures
        ({
            let raw = range_sum(|m: int| pick_weight(logits, k, false, m), 0, k as int);
            &&& pick_weight(logits, k, false, l) == logit_exp(
                logits,
                top_picks(logits, k)[l].idx as int,
            ).div_s(range_sum(|j: int| logit_exp(logits, j), 0, logits.len() as int))
            &&& !raw.gt_s(F::one_s())
            &&& k < logits.len() ==> F::one_s().gt_s(raw)
            &&& range_sum(|m: int| pick_weight(logits, k, true, m), 0, k as int) == F::one_s()
            &&& pick_weight(logits, k, true, l) == pick_weight(logits, k, false, l).div_s(raw)
        }),
{
    let n = logits.len() as int;
    let picks = top_picks(logits, k);
    law_picks_are_top(logits, k);
    law_row_sum_is_total(logits);
    lemma_chosen_and_left(logits, k);
    let chosen = |m: int| logit_exp(logits, top_picks(logits, k)[m].idx as int);
    let rest = |j: int| left_out(logits, k, j);
    let all = |j: int| logit_exp(logits, j);
    assert(picks[l].val == logits[picks[l].idx as int]);
    // the sums and their signs
    let e = pick_exps(logits, k);
    let ef = |m: int| e[m];
    F::lane_sum_total(e);
    lemma_total_range(e, ef);
    lemma_range_split(ef, 0, k as int, 32);
    lemma_range_zero(ef, k as int, 32);
    F::add_zero(range_sum(ef, 0, k as int));
    assert forall|m: int| 0 <= m < k implies #[trigger] ef(m) == chosen(m) by {
        assert(picks[m].val == logits[picks[m].idx as int]);
    }
    lemma_range_congr(ef, chosen, 0, k as int);
    let s = F::lane_sum_s(e);
    let r = row_sum(logits);
    let left = range_sum(rest, 0, n);
    assert forall|m: int| 0 <= m < k implies (#[trigger] chosen(m)).gt_s(F::zero_s()) by {
        assert(picks[m].idx < logits.len());
        assert(logit_exp(logits, picks[m].idx as int).gt_s(F::zero_s()));
    }
    assert(chosen(l).gt_s(F::zero_s()));
    lemma_sum_sign(chosen, 0, k as int);
    assert forall|j: int| 0 <= j < n implies #[trigger] rest(j) == F::zero_s() || rest(j).gt_s(
        F::zero_s(),
    ) by {
        assert(logit_exp(logits, j).gt_s(F::zero_s()));
    }
    lemma_sum_sign(rest, 0, n);
    assert(all(0).gt_s(F::zero_s())) by {
        assert(logit_exp(logits, 0).gt_s(F::zero_s()));
    }
    assert forall|j: int| 0 <= j < n implies #[trigger] all(j) == F::zero_s() || all(j).gt_s(
        F::zero_s(),
    ) by {
        assert(logit_exp(logits, j).gt_s(F::zero_s()));
    }
    lemma_sum_sign(all, 0, n);
    assert(s.gt_s(F::zero_s()) && r.gt_s(F::zero_s()));
    assert(r == s.add_s(left));
    // the raw sum against one
    let ri = F::one_s().div_s(r);
    assert(ri.gt_s(F::zero_s()) && invertible(r));
    lemma_weights(logits, k, false);
    F::div_recip(s, r);
    F::order_irreflexive(F::one_s());
    if left.gt_s(F::zero_s()) {
        assert(r.gt_s(s));
        assert(r.mul_s(ri).gt_s(s.mul_s(ri)));
        if s.mul_s(ri).gt_s(F::one_s()) {
            F::order_transitive(F::one_s(), s.mul_s(ri), F::one_s());
        }
    } else {
        F::add_zero(s);
    }
    if k < logits.len() {
        let j = lemma_some_left(picks, n);
        assert(rest(j) == logit_exp(logits, j));
        assert(rest(j).gt_s(F::zero_s()));
    }
    // normalising
    let q = s.div_s(r);
    assert(s.mul_s(ri).gt_s(F::zero_s()));
    assert(F::one_s().div_s(q).gt_s(F::zero_s()) && invertible(q));
    assert(F::one_s().div_s(s).gt_s(F::zero_s()) && invertible(s));
    law_weights_sum_to_one(logits, k);
    law_chosen_softmax_is_renormalised(logits, k, l);
}

/// The largest of some logits is above negative infinity.
proof fn lemma_strided_max_finite<F: ExactNum>(logits: Seq<F>, j: int, best: F)
    requires
        0 <= j,
        j < logits.len() || best.gt_s(F::neg_inf_s()),
        forall|i: int| 0 <= i < logits.len() ==> (#[trigger] logits[i]).gt_s(F::neg_inf_s()),
    ensures
        strided_max(logits, j, best).gt_s(F::neg_inf_s()),
    decreases
            (if j < logits.len() {
                logits.len() - j
            } else {
                0
            }),
{
    if j < logits.len() {
        F::order_total(logits[j], best);
        if best.gt_s(logits[j]) {
            F::order_transitive(best, logits[j], F::neg_inf_s());
        }
        lemma_strided_max_finite(logits, j + 32, pick_max(logits[j], best));
    }
}

/// Raw weights are the softmax over all experts, with no number taken off the
/// logits.
pub proof fn law_raw_weights_are_softmax<F: ExactNum>(logits: Seq<F>, k: nat, l: int)
    requires
        0 <= l < k <= 32,
        k <= logits.len() <= 0xffff_ffff,
        forall|j: int| 0 <= j < logits.len() ==> (#[trigger] logits[j]).gt_s(F::neg_inf_s()),
        invertible(row_sum(logits)),
        invertible(range_sum(|j: int| logits[j].exp_s(), 0, logits.len() as int)),
    ensures
        pick_weight(logits, k, false, l) == logits[top_picks(
            logits,
            k,
        )[l].idx as int].exp_s().div_s(
            range_sum(|j: int| logits[j].exp_s(), 0, logits.len() as int),
        ),
{
    let n = logits.len() as int;
    F::zero_above_neg_inf();
    let max = row_max(logits);
    let lanes = Seq::new(32, |m: int| strided_max(logits, m, F::neg_inf_s()));
    lemma_strided_max_finite(logits, 0, F::neg_inf_s());
    F::lane_max_member(lanes);
    assert(lanes[0].gt_s(F::neg_inf_s()));
    F::order_total(lanes[0], max);
    if max.gt_s(lanes[0]) {
        F::order_transitive(max, lanes[0], F::neg_inf_s());
    }
    law_picks_are_top(logits, k);
    law_row_sum_is_total(logits);
    // every exponential has the factor exp(0 - max)
    let c = F::zero_s().sub_s(max).exp_s();
    let plain = |j: int| logits[j].exp_s();
    let relative = |j: int| logit_exp(logits, j);
    assert forall|j: int| #[trigger] relative(j) == plain(j).mul_s(c) by {
        F::exp_shift(logits[j], F::zero_s(), max);
        F::sub_zero(logits[j]);
    }
    lemma_range_scale(relative, plain, c, 0, n);
    let p = top_picks(logits, k)[l].idx as int;
    assert(relative(p) == plain(p).mul_s(c));
    let (e, s, r) = (plain(p), range_sum(plain, 0, n), row_sum(logits));
    let ri = F::one_s().div_s(r);
    F::div_recip(e.mul_s(c), r);
    F::div_recip(e, s);
    lemma_recip_factor(s, c);
    F::mul_assoc(e, c, ri);
}

} // verus!
