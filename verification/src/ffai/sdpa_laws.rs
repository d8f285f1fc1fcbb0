//! What the attention kernels promise of each other.
use vstd::arithmetic::div_mod::lemma_mod_bound;
use vstd::prelude::*;

use super::attention::{
    all_scores, all_states, all_values, attend, attend_scores, cache_row, fresh, lane_maxima,
    lane_products, lane_sums, masked, merged, pick_max, raw_score, scaled_row, simdgroup_state,
    step, walk, Bias, Online, Scores, Sink, Walk,
};
use super::sdpa_decode::{decode_row, decode_walk};
use super::sdpa_decode_2pass::{
    block_state, block_walk, blocks_max, blocks_out, blocks_sum, chunk_max, chunk_out, chunk_sum,
};
use super::sdpa_multi::{attended, block_row, tree_bias};
use super::sdpa_rows::slab;
use super::softmax::{
    attended_sum, finite_reference, finite_scores, in_walk, is_max, law_attend_is_softmax,
    lemma_all_simdgroups, lemma_finite_max, lemma_max_unique, lemma_not_gt_trans, lemma_pick_max,
    lemma_simdgroup_acc, lemma_simdgroup_max, lemma_simdgroup_sum, lemma_softmax_max,
    lemma_sum_term, lemma_walk_closed, sink_logit, softmax_attention, softmax_max, softmax_sum,
    simdgroup_terms, weight,
};
use crate::index::lemma_row_col;
use crate::num::{ExactNum, ExactStore, Num, Store};
use crate::sums::{
    lemma_lanes, lemma_range_blocks, lemma_range_congr, lemma_range_scale, lemma_range_split,
    lemma_range_zero, lemma_strided_congr, lemma_strided_range, lemma_total_range, lemma_zero_add,
    range_sum, strided_sum,
};

verus! {

proof fn lemma_lane_products<F: ExactNum>(
    q: Seq<F>,
    k: Seq<F>,
    first: int,
    n: nat,
    f: spec_fn(int) -> F,
)
    requires
        0 < n,
        forall|i: int| #[trigger] f(i) == masked(q, i).mul_s(masked(k, i)),
    ensures
        lane_products(q, k, first, n) == range_sum(f, first, first + n),
    decreases n,
{
    reveal_with_fuel(range_sum, 2);
    if n > 1 {
        lemma_lane_products(q, k, first, (n - 1) as nat, f);
        assert(f(first + n - 1) == masked(q, first + n - 1).mul_s(masked(k, first + n - 1)));
    } else {
        assert(f(first) == masked(q, first).mul_s(masked(k, first)));
        lemma_zero_add(f(first));
    }
}

/// The score of a key is the dot product of query and key, scaled.
pub proof fn law_score_is_scaled_dot<F: ExactNum, T: Store<F>>(
    q: Seq<T>,
    off: int,
    k: Seq<F>,
    per_lane: nat,
    scale: F,
)
    requires
        0 < per_lane,
        k.len() <= 32 * per_lane,
    ensures
        raw_score(scaled_row::<F, T>(q, off, k.len(), scale), k, per_lane) == range_sum(
            |i: int| q[off + i].widen_s().mul_s(k[i]),
            0,
            k.len() as int,
        ).mul_s(scale),
{
    let d = k.len() as int;
    let qs = scaled_row::<F, T>(q, off, k.len(), scale);
    let f = |i: int| masked(qs, i).mul_s(masked(k, i));
    let lanes = Seq::new(32, |l: int| lane_products(qs, k, l * per_lane, per_lane));
    let fl = |l: int| lanes[l];
    F::lane_sum_total(lanes);
    lemma_total_range(lanes, fl);
    assert forall|l: int| 0 <= l < 32 implies #[trigger] fl(l) == range_sum(
        f,
        l * per_lane,
        l * per_lane + per_lane,
    ) by {
        lemma_lane_products(qs, k, l * per_lane, per_lane, f);
    }
    lemma_range_blocks(fl, f, per_lane as int, 32);
    lemma_range_split(f, 0, d, 32 * per_lane as int);
    assert forall|i: int| d <= i < 32 * per_lane implies #[trigger] f(i) == F::zero_s() by {
        F::mul_zero(F::zero_s());
    }
    lemma_range_zero(f, d, 32 * per_lane as int);
    F::add_zero(range_sum(f, 0, d));
    let plain = |i: int| q[off + i].widen_s().mul_s(k[i]);
    assert forall|i: int| 0 <= i < d implies #[trigger] f(i) == plain(i).mul_s(scale) by {
        let x = q[off + i].widen_s();
        F::mul_assoc(x, scale, k[i]);
        F::mul_comm(scale, k[i]);
        F::mul_assoc(x, k[i], scale);
    }
    lemma_range_scale(f, plain, scale, 0, d);
    lemma_range_congr(plain, |i: int| q[off + i].widen_s().mul_s(k[i]), 0, d);
}

/// A decode row is softmax attention of its scores over its values.
pub proof fn law_decode_is_softmax<F: ExactNum, T: Store<F>>(
    q: Seq<T>,
    k: Seq<T>,
    v: Seq<T>,
    w: Walk,
    batch: int,
    kv_stride: int,
    heads_per_group: int,
    sink: Sink<F>,
    scale: F,
    r: int,
    i: int,
)
    requires
        0 < w.n_simd <= 32,
        0 <= i < w.head_dim,
        finite_scores(
            w,
            all_scores(
                w,
                scaled_row::<F, T>(q, r * w.head_dim, w.head_dim as nat, scale),
                k,
                slab((r / batch) / heads_per_group, kv_stride, w.head_dim as int),
                Bias::Absent,
            ),
        ),
    ensures
        ({
            let base = slab((r / batch) / heads_per_group, kv_stride, w.head_dim as int);
            let row = scaled_row::<F, T>(q, r * w.head_dim, w.head_dim as nat, scale);
            decode_row(q, k, v, w, batch, kv_stride, heads_per_group, sink, scale, r)[i]
                == softmax_attention(
                w,
                all_scores(w, row, k, base, Bias::Absent),
                all_values(w, v, base),
                sink_logit(sink),
                i,
            )
        }),
{
    let base = slab((r / batch) / heads_per_group, kv_stride, w.head_dim as int);
    let row = scaled_row::<F, T>(q, r * w.head_dim, w.head_dim as nat, scale);
    law_attend_is_softmax(
        w,
        all_scores(w, row, k, base, Bias::Absent),
        all_values(w, v, base),
        sink,
        i,
    );
}

/// A row of a query block is softmax attention of its scores over its values.
pub proof fn law_block_is_softmax<F: ExactNum, T: Store<F>>(
    q: Seq<T>,
    k: Seq<T>,
    v: Seq<T>,
    w: Walk,
    n_q_heads: int,
    kv_stride: int,
    heads_per_group: int,
    bias: Bias<F>,
    scale: F,
    r: int,
    i: int,
)
    requires
        0 < w.n_simd <= 32,
        0 <= i < w.head_dim,
        finite_scores(
            w,
            all_scores(
                w,
                scaled_row::<F, T>(q, r * w.head_dim, w.head_dim as nat, scale),
                k,
                slab((r % n_q_heads) / heads_per_group, kv_stride, w.head_dim as int),
                bias,
            ),
        ),
    ensures
        ({
            let base = slab((r % n_q_heads) / heads_per_group, kv_stride, w.head_dim as int);
            let row = scaled_row::<F, T>(q, r * w.head_dim, w.head_dim as nat, scale);
            block_row(q, k, v, w, n_q_heads, kv_stride, heads_per_group, bias, scale, r)[i]
                == softmax_attention(
                w,
                all_scores(w, row, k, base, bias),
                all_values(w, v, base),
                None,
                i,
            )
        }),
{
    let base = slab((r % n_q_heads) / heads_per_group, kv_stride, w.head_dim as int);
    let row = scaled_row::<F, T>(q, r * w.head_dim, w.head_dim as nat, scale);
    law_attend_is_softmax(
        w,
        all_scores(w, row, k, base, bias),
        all_values(w, v, base),
        Sink::Absent,
        i,
    );
}

/// Slot `b` of a batched decode is the decode of that slot alone.
pub proof fn law_batched_slot_is_decode<F: Num, T: Store<F>>(
    q: Seq<T>,
    alone: Seq<T>,
    k: Seq<T>,
    v: Seq<T>,
    w: Walk,
    batch: int,
    kv_stride: int,
    heads_per_group: int,
    sink: Sink<F>,
    scale: F,
    h: int,
    b: int,
)
    requires
        0 <= h,
        0 <= b < batch,
        forall|i: int|
            0 <= i < w.head_dim ==> #[trigger] alone[h * w.head_dim + i] == q[(h * batch + b)
                * w.head_dim + i],
    ensures
        decode_row(
            q,
            k,
            v,
            w,
            batch,
            kv_stride,
            heads_per_group,
            sink,
            scale,
            h * batch + b,
        ) == decode_row(alone, k, v, w, 1, kv_stride, heads_per_group, sink, scale, h),
{
    lemma_row_col(h, b, batch);
    let d = w.head_dim;
    assert(scaled_row::<F, T>(q, (h * batch + b) * d, d as nat, scale) =~= scaled_row::<F, T>(
        alone,
        h * d,
        d as nat,
        scale,
    ));
}

/// Slot `b` of a batched decode is the decode of that slot alone, with whatever
/// number of simdgroups either runs.
pub proof fn law_batched_slot_is_decode_at_any_count<F: ExactNum, T: Store<F>>(
    q: Seq<T>,
    alone: Seq<T>,
    k: Seq<T>,
    v: Seq<T>,
    w: Walk,
    n_simd: usize,
    batch: int,
    kv_stride: int,
    heads_per_group: int,
    sink: Sink<F>,
    scale: F,
    h: int,
    b: int,
)
    requires
        0 <= h,
        0 <= b < batch,
        0 < w.n_simd <= 32,
        0 < n_simd <= 32,
        forall|i: int|
            0 <= i < w.head_dim ==> #[trigger] alone[h * w.head_dim + i] == q[(h * batch + b)
                * w.head_dim + i],
        finite_scores(
            w,
            all_scores(
                w,
                scaled_row::<F, T>(alone, h * w.head_dim, w.head_dim as nat, scale),
                k,
                slab(h / heads_per_group, kv_stride, w.head_dim as int),
                Bias::Absent,
            ),
        ),
    ensures
        decode_row(
            q,
            k,
            v,
            w,
            batch,
            kv_stride,
            heads_per_group,
            sink,
            scale,
            h * batch + b,
        ) == decode_row(
            alone,
            k,
            v,
            (Walk { n_simd, ..w }),
            1,
            kv_stride,
            heads_per_group,
            sink,
            scale,
            h,
        ),
{
    let other = Walk { n_simd, ..w };
    law_batched_slot_is_decode(q, alone, k, v, w, batch, kv_stride, heads_per_group, sink, scale, h, b);
    let one = decode_row(alone, k, v, w, 1, kv_stride, heads_per_group, sink, scale, h);
    let two = decode_row(alone, k, v, other, 1, kv_stride, heads_per_group, sink, scale, h);
    let base = slab(h / heads_per_group, kv_stride, w.head_dim as int);
    let row = scaled_row::<F, T>(alone, h * w.head_dim, w.head_dim as nat, scale);
    let scores = all_scores(w, row, k, base, Bias::Absent);
    assert(scores == all_scores(other, row, k, base, Bias::Absent));
    assert(finite_scores(other, scores)) by {
        assert forall|t: int| in_walk(other, scores, t) implies (#[trigger] scores.at[t]).gt_s(
            F::neg_inf_s(),
        ) by {
            assert(in_walk(w, scores, t));
        }
    }
    assert forall|i: int| 0 <= i < w.head_dim implies one[i] == two[i] by {
        law_decode_is_softmax(alone, k, v, w, 1, kv_stride, heads_per_group, sink, scale, h, i);
        law_decode_is_softmax(alone, k, v, other, 1, kv_stride, heads_per_group, sink, scale, h, i);
        assert(all_values::<F, T>(w, v, base) == all_values::<F, T>(other, v, base));
    }
    assert(one =~= two);
}

/// A row of a query block without bias is the decode of its query over the
/// positions that it attends.
pub proof fn law_block_row_is_decode<F: Num, T: Store<F>>(
    q: Seq<T>,
    alone: Seq<T>,
    k: Seq<T>,
    v: Seq<T>,
    w: Walk,
    n_q_heads: int,
    kv_stride: int,
    heads_per_group: int,
    scale: F,
    query: int,
    h: int,
)
    requires
        0 <= query,
        0 <= h < n_q_heads,
        forall|i: int|
            0 <= i < w.head_dim ==> #[trigger] alone[h * w.head_dim + i] == q[(query * n_q_heads
                + h) * w.head_dim + i],
    ensures
        block_row(
            q,
            k,
            v,
            w,
            n_q_heads,
            kv_stride,
            heads_per_group,
            Bias::Absent,
            scale,
            query * n_q_heads + h,
        ) == decode_row(
            alone,
            k,
            v,
            w,
            1,
            kv_stride,
            heads_per_group,
            Sink::Absent,
            scale,
            h,
        ),
{
    lemma_row_col(query, h, n_q_heads);
    let d = w.head_dim;
    assert(scaled_row::<F, T>(q, (query * n_q_heads + h) * d, d as nat, scale) =~= scaled_row::<
        F,
        T,
    >(alone, h * d, d as nat, scale));
}

/// Without `has_sink` the sink logit changes nothing.
pub proof fn law_absent_sink_is_ignored<F: Num, T: Store<F>>(
    q: Seq<T>,
    k: Seq<T>,
    v: Seq<T>,
    w: Walk,
    kv_stride: int,
    heads_per_group: int,
    logit: F,
    other: F,
    scale: F,
    r: int,
)
    ensures
        decode_row(
            q,
            k,
            v,
            w,
            1,
            kv_stride,
            heads_per_group,
            (Sink::Joined { present: false, logit }),
            scale,
            r,
        ) == decode_row(
            q,
            k,
            v,
            w,
            1,
            kv_stride,
            heads_per_group,
            (Sink::Joined { present: false, logit: other }),
            scale,
            r,
        ),
{
    let base = slab((r / 1) / heads_per_group, kv_stride, w.head_dim as int);
    let row = scaled_row::<F, T>(q, r * w.head_dim, w.head_dim as nat, scale);
    let states = all_states(w, all_scores(w, row, k, base, Bias::Absent), all_values(w, v, base));
    let a = Sink::Joined { present: false, logit };
    let b = Sink::Joined { present: false, logit: other };
    assert(merged(states, a) == merged(states, b));
    assert(attend(w, row, k, v, base, Bias::Absent, a) =~= attend(w, row, k, v, base, Bias::Absent, b));
}

/// Without `has_sink` the decode is the sinkless one.
pub proof fn law_absent_sink_is_plain<F: ExactNum, T: Store<F>>(
    q: Seq<T>,
    k: Seq<T>,
    v: Seq<T>,
    w: Walk,
    kv_stride: int,
    heads_per_group: int,
    logit: F,
    scale: F,
    r: int,
)
    ensures
        decode_row(
            q,
            k,
            v,
            w,
            1,
            kv_stride,
            heads_per_group,
            (Sink::Joined { present: false, logit }),
            scale,
            r,
        ) == decode_row(q, k, v, w, 1, kv_stride, heads_per_group, Sink::Absent, scale, r),
{
    let base = slab((r / 1) / heads_per_group, kv_stride, w.head_dim as int);
    let row = scaled_row::<F, T>(q, r * w.head_dim, w.head_dim as nat, scale);
    let states = all_states(w, all_scores(w, row, k, base, Bias::Absent), all_values(w, v, base));
    let sink = Sink::Joined { present: false, logit };
    let raw = lane_maxima(states);
    F::neg_inf_lowest(raw[0]);
    F::order_total(raw[0], F::neg_inf_s());
    assert(Seq::new(
        32,
        |l: int| if l == 0 { pick_max(raw[0], F::neg_inf_s()) } else { raw[l] },
    ) =~= raw);
    let sums = lane_sums(states, F::lane_max_s(raw));
    assert forall|l: int| 0 <= l < 32 implies sums[l].add_s(F::zero_s()) == sums[l] by {
        F::add_zero(sums[l]);
    }
    assert(Seq::new(
        32,
        |l: int|
            sums[l].add_s(
                if l == 0 {
                    F::zero_s()
                } else {
                    F::zero_s()
                },
            ),
    ) =~= sums);
    assert(merged(states, sink) == merged(states, Sink::Absent));
    assert(attend(w, row, k, v, base, Bias::Absent, sink) =~= attend(
        w,
        row,
        k,
        v,
        base,
        Bias::Absent,
        Sink::Absent,
    ));
}

/// Positions `t .. stop` are blocked alike, and those that are not have the
/// same scores and values.
spec fn same_visits<F>(
    a: Scores<F>,
    b: Scores<F>,
    va: Seq<Seq<F>>,
    vb: Seq<Seq<F>>,
    t: int,
    stop: int,
) -> bool {
    &&& forall|u: int|
        t <= u < stop ==> #[trigger] a.blocked.contains(u) == b.blocked.contains(u)
    &&& forall|u: int|
        t <= u < stop && !b.blocked.contains(u) ==> #[trigger] a.at[u] == b.at[u]
    &&& forall|u: int| t <= u < stop && !b.blocked.contains(u) ==> #[trigger] va[u] == vb[u]
}

/// A walk looks at the positions that it visits alone.
proof fn lemma_walk_congr<F: Num>(
    a: Scores<F>,
    b: Scores<F>,
    va: Seq<Seq<F>>,
    vb: Seq<Seq<F>>,
    st: Online<F>,
    t: int,
    stop: int,
    stride: int,
)
    requires
        0 <= t,
        same_visits(a, b, va, vb, t, stop),
    ensures
        walk(a, va, st, t, stop, stride) == walk(b, vb, st, t, stop, stride),
    decreases
            (if t < stop {
                stop - t
            } else {
                0
            }),
{
    if t < stop && stride > 0 {
        assert(a.blocked.contains(t) == b.blocked.contains(t));
        assert(!b.blocked.contains(t) ==> a.at[t] == b.at[t] && va[t] == vb[t]);
        assert(same_visits(a, b, va, vb, t + stride, stop));
        let next = if a.blocked.contains(t) {
            st
        } else {
            step(st, a.at[t], va[t])
        };
        lemma_walk_congr(a, b, va, vb, next, t + stride, stop, stride);
    }
}

/// A threadgroup looks at the positions that it attends alone.
proof fn lemma_attend_congr<F: Num>(
    w: Walk,
    a: Scores<F>,
    b: Scores<F>,
    va: Seq<Seq<F>>,
    vb: Seq<Seq<F>>,
    sink: Sink<F>,
)
    requires
        same_visits(a, b, va, vb, 0, w.sink_end as int),
        same_visits(a, b, va, vb, w.window_start as int, w.n_kv as int),
    ensures
        attend_scores(w, a, va, sink) == attend_scores(w, b, vb, sink),
{
    let ns = w.n_simd as int;
    assert forall|sg: int| 0 <= sg < ns implies simdgroup_state(w, a, va, sg) == simdgroup_state(
        w,
        b,
        vb,
        sg,
    ) by {
        let st0 = fresh::<F>(w.head_dim as nat);
        let st1 = walk(b, vb, st0, sg, w.sink_end as int, ns);
        assert(same_visits(a, b, va, vb, sg, w.sink_end as int));
        lemma_walk_congr(a, b, va, vb, st0, sg, w.sink_end as int, ns);
        assert(same_visits(a, b, va, vb, sg + w.window_start, w.n_kv as int));
        lemma_walk_congr(a, b, va, vb, st1, sg + w.window_start, w.n_kv as int, ns);
    }
    assert(all_states(w, a, va) =~= all_states(w, b, vb));
}

/// A tree mask that blocks nothing leaves full attention.
pub proof fn law_open_tree_mask_is_full<F: ExactNum, T: Store<F>>(
    q: Seq<T>,
    k: Seq<T>,
    v: Seq<T>,
    mask: Seq<T>,
    w: Walk,
    n_q_heads: int,
    base_kv: u32,
    n_query: u32,
    kv_stride: int,
    heads_per_group: int,
    scale: F,
    query: int,
    r: int,
)
    requires
        w.sink_end <= w.n_kv,
        w.n_kv == base_kv + n_query,
        forall|j: int|
            0 <= j < n_query ==> (#[trigger] mask[query * n_query + j]).widen_s() == F::zero_s(),
    ensures
        block_row(
            q,
            k,
            v,
            w,
            n_q_heads,
            kv_stride,
            heads_per_group,
            Bias::Masked(tree_bias::<F, T>(mask, base_kv, n_query, query)),
            scale,
            r,
        ) == block_row(q, k, v, w, n_q_heads, kv_stride, heads_per_group, Bias::Absent, scale, r),
{
    let base = slab((r % n_q_heads) / heads_per_group, kv_stride, w.head_dim as int);
    let row = scaled_row::<F, T>(q, r * w.head_dim, w.head_dim as nat, scale);
    let bias = tree_bias::<F, T>(mask, base_kv, n_query, query);
    let masked = all_scores(w, row, k, base, Bias::Masked(bias));
    let plain = all_scores(w, row, k, base, Bias::Absent);
    let values = all_values::<F, T>(w, v, base);
    assert forall|t: int| 0 <= t < w.n_kv implies bias[t] == F::zero_s() by {
        if t >= base_kv {
            assert(mask[query * n_query + (t - base_kv)].widen_s() == F::zero_s());
        }
    }
    F::zero_above_neg_inf();
    F::order_irreflexive(F::neg_inf_s());
    F::ge_is_gt_or_same(F::zero_s(), F::neg_inf_s());
    assert forall|t: int| 0 <= t < w.n_kv implies masked.at[t] == plain.at[t] by {
        F::add_zero(raw_score(row, cache_row(k, base, t, w.head_dim as nat), w.per_lane as nat));
    }
    lemma_attend_congr(w, masked, plain, values, values, Sink::Absent);
}

/// A walk whose positions from `cut` on are blocked ends there.
proof fn lemma_walk_cut<F: Num>(
    a: Scores<F>,
    b: Scores<F>,
    va: Seq<Seq<F>>,
    vb: Seq<Seq<F>>,
    st: Online<F>,
    t: int,
    cut: int,
    stop: int,
    stride: int,
)
    requires
        0 < stride,
        cut <= stop,
        same_visits(a, b, va, vb, t, cut),
        forall|u: int| cut <= u < stop ==> #[trigger] a.blocked.contains(u),
    ensures
        walk(a, va, st, t, stop, stride) == walk(b, vb, st, t, cut, stride),
    decreases
            (if t < stop {
                stop - t
            } else {
                0
            }),
{
    if t < cut {
        assert(a.blocked.contains(t) == b.blocked.contains(t));
        assert(!b.blocked.contains(t) ==> a.at[t] == b.at[t] && va[t] == vb[t]);
        assert(same_visits(a, b, va, vb, t + stride, cut));
        let next = if a.blocked.contains(t) {
            st
        } else {
            step(st, a.at[t], va[t])
        };
        lemma_walk_cut(a, b, va, vb, next, t + stride, cut, stop, stride);
    } else if t < stop {
        assert(a.blocked.contains(t));
        assert(same_visits(a, b, va, vb, t + stride, cut));
        lemma_walk_cut(a, b, va, vb, st, t + stride, cut, stop, stride);
    }
}

/// A tree mask that admits every position up to the query and blocks those
/// behind it gives causal attention.
pub proof fn law_causal_tree_mask_is_causal<F: ExactNum, T: Store<F>>(
    q: Seq<T>,
    k: Seq<T>,
    v: Seq<T>,
    mask: Seq<T>,
    head_dim: u32,
    per_lane: usize,
    n_simd: u32,
    n_q_heads: int,
    base_kv: u32,
    n_query: u32,
    kv_stride: int,
    heads_per_group: int,
    scale: F,
    query: int,
    r: int,
)
    requires
        0 < n_simd,
        0 <= query < n_query,
        base_kv + n_query <= u32::MAX,
        forall|j: int|
            0 <= j < n_query ==> (#[trigger] mask[query * n_query + j]).widen_s() == (if j
                <= query {
                F::zero_s()
            } else {
                F::neg_inf_s()
            }),
    ensures
        block_row(
            q,
            k,
            v,
            decode_walk(head_dim, per_lane, n_simd, (base_kv + n_query) as u32, 0, 0),
            n_q_heads,
            kv_stride,
            heads_per_group,
            Bias::Masked(tree_bias::<F, T>(mask, base_kv, n_query, query)),
            scale,
            r,
        ) == block_row(
            q,
            k,
            v,
            decode_walk(
                head_dim,
                per_lane,
                n_simd,
                attended(1, base_kv, n_query, query),
                0,
                0,
            ),
            n_q_heads,
            kv_stride,
            heads_per_group,
            Bias::Absent,
            scale,
            r,
        ),
{
    let full = decode_walk(head_dim, per_lane, n_simd, (base_kv + n_query) as u32, 0, 0);
    let w = decode_walk(head_dim, per_lane, n_simd, attended(1, base_kv, n_query, query), 0, 0);
    let base = slab((r % n_q_heads) / heads_per_group, kv_stride, head_dim as int);
    let row = scaled_row::<F, T>(q, r * head_dim, head_dim as nat, scale);
    let bias = tree_bias::<F, T>(mask, base_kv, n_query, query);
    let a = all_scores(full, row, k, base, Bias::Masked(bias));
    let b = all_scores(w, row, k, base, Bias::Absent);
    let (va, vb) = (all_values::<F, T>(full, v, base), all_values::<F, T>(w, v, base));
    let (cut, stop) = (w.n_kv as int, full.n_kv as int);
    F::zero_above_neg_inf();
    F::order_irreflexive(F::neg_inf_s());
    F::ge_is_gt_or_same(F::zero_s(), F::neg_inf_s());
    F::ge_is_gt_or_same(F::neg_inf_s(), F::neg_inf_s());
    assert forall|t: int| 0 <= t < stop implies bias[t] == (if t < cut {
        F::zero_s()
    } else {
        F::neg_inf_s()
    }) by {
        if t >= base_kv {
            let j = t - base_kv;
            assert(mask[query * n_query + j].widen_s() == (if j <= query {
                F::zero_s()
            } else {
                F::neg_inf_s()
            }));
        }
    }
    assert forall|t: int| 0 <= t < cut implies #[trigger] a.at[t] == b.at[t] by {
        F::add_zero(raw_score(row, cache_row(k, base, t, head_dim as nat), per_lane as nat));
    }
    assert(same_visits(a, b, va, vb, 0, cut));
    let ns = n_simd as int;
    assert forall|sg: int| 0 <= sg < ns implies simdgroup_state(full, a, va, sg)
        == simdgroup_state(w, b, vb, sg) by {
        assert(same_visits(a, b, va, vb, sg, cut));
        lemma_walk_cut(a, b, va, vb, fresh::<F>(head_dim as nat), sg, cut, stop, ns);
    }
    assert(all_states(full, a, va) =~= all_states(w, b, vb));
}

/// Row `t` of the slab at `base` is the same in both caches.
pub open spec fn same_row<T>(a: Seq<T>, b: Seq<T>, base: int, t: int, d: int) -> bool {
    forall|i: int| 0 <= i < d ==> #[trigger] a[base + t * d + i] == b[base + t * d + i]
}

/// A position that the tree mask blocks is ignored: whatever its key and value
/// rows hold, the output is the same.
pub proof fn law_blocked_positions_are_ignored<F: Num, T: Store<F>>(
    q: Seq<T>,
    k: Seq<T>,
    v: Seq<T>,
    other_k: Seq<T>,
    other_v: Seq<T>,
    mask: Seq<T>,
    w: Walk,
    n_q_heads: int,
    base_kv: u32,
    n_query: u32,
    kv_stride: int,
    heads_per_group: int,
    scale: F,
    query: int,
    r: int,
)
    requires
        w.sink_end <= w.n_kv,
        w.n_kv == base_kv + n_query,
        forall|t: int|
            0 <= t < w.n_kv && !Bias::Masked(
                tree_bias::<F, T>(mask, base_kv, n_query, query),
            ).blocks(t) ==> #[trigger] same_row(
                k,
                other_k,
                slab((r % n_q_heads) / heads_per_group, kv_stride, w.head_dim as int),
                t,
                w.head_dim as int,
            ) && same_row(
                v,
                other_v,
                slab((r % n_q_heads) / heads_per_group, kv_stride, w.head_dim as int),
                t,
                w.head_dim as int,
            ),
    ensures
        block_row(
            q,
            k,
            v,
            w,
            n_q_heads,
            kv_stride,
            heads_per_group,
            Bias::Masked(tree_bias::<F, T>(mask, base_kv, n_query, query)),
            scale,
            r,
        ) == block_row(
            q,
            other_k,
            other_v,
            w,
            n_q_heads,
            kv_stride,
            heads_per_group,
            Bias::Masked(tree_bias::<F, T>(mask, base_kv, n_query, query)),
            scale,
            r,
        ),
{
    let base = slab((r % n_q_heads) / heads_per_group, kv_stride, w.head_dim as int);
    let row = scaled_row::<F, T>(q, r * w.head_dim, w.head_dim as nat, scale);
    let bias = Bias::Masked(tree_bias::<F, T>(mask, base_kv, n_query, query));
    let (a, b) = (all_scores(w, row, k, base, bias), all_scores(w, row, other_k, base, bias));
    let (va, vb) = (all_values::<F, T>(w, v, base), all_values::<F, T>(w, other_v, base));
    let d = w.head_dim as nat;
    assert forall|t: int| 0 <= t < w.n_kv && !b.blocked.contains(t) implies #[trigger] a.at[t]
        == b.at[t] by {
        assert(same_row(k, other_k, base, t, d as int));
        assert(cache_row::<F, T>(k, base, t, d) =~= cache_row::<F, T>(other_k, base, t, d));
    }
    assert forall|t: int| 0 <= t < w.n_kv && !b.blocked.contains(t) implies #[trigger] va[t]
        == vb[t] by {
        assert(same_row(k, other_k, base, t, d as int));
        assert(cache_row::<F, T>(v, base, t, d) =~= cache_row::<F, T>(other_v, base, t, d));
    }
    lemma_attend_congr(w, a, b, va, vb, Sink::Absent);
}

proof fn lemma_chunk_max<F: ExactNum>(m: Seq<F>, first: int, n: nat)
    ensures
        chunk_max(m, first, n) == F::neg_inf_s() || exists|c: int|
            0 <= c < n && m[#[trigger] (first + 32 * c)] == chunk_max(m, first, n),
        forall|c: int|
            0 <= c < n ==> !m[#[trigger] (first + 32 * c)].gt_s(chunk_max(m, first, n)),
    decreases n,
{
    if n > 0 {
        lemma_chunk_max(m, first, (n - 1) as nat);
        let before = chunk_max(m, first, (n - 1) as nat);
        let last = m[first + 32 * (n - 1)];
        lemma_pick_max(last, before);
        let now = chunk_max(m, first, n);
        assert forall|c: int| 0 <= c < n implies !m[#[trigger] (first + 32 * c)].gt_s(now) by {
            if c < n - 1 {
                lemma_not_gt_trans(m[first + 32 * c], before, now);
            }
        }
        if now != F::neg_inf_s() {
            if now == before {
                let c = choose|c: int|
                    0 <= c < n - 1 && m[#[trigger] (first + 32 * c)] == before;
                assert(m[first + 32 * c] == now);
            } else {
                assert(m[first + 32 * (n - 1)] == now);
            }
        }
    }
}

proof fn lemma_chunk_sum<F: Num>(
    m: Seq<F>,
    l: Seq<F>,
    first: int,
    max: F,
    n: nat,
    f: spec_fn(int) -> F,
)
    requires
        forall|c: int|
            0 <= c < n ==> #[trigger] f(c) == m[first + 32 * c].sub_s(max).exp_s().mul_s(
                l[first + 32 * c],
            ),
    ensures
        chunk_sum(m, l, first, max, n) == range_sum(f, 0, n as int),
    decreases n,
{
    if n > 0 {
        lemma_chunk_sum(m, l, first, max, (n - 1) as nat, f);
        assert(f(n - 1) == m[first + 32 * (n - 1)].sub_s(max).exp_s().mul_s(
            l[first + 32 * (n - 1)],
        ));
    }
}

proof fn lemma_chunk_out<F: Num, T: Store<F>>(
    m: Seq<F>,
    o: Seq<T>,
    first: int,
    d: int,
    i: int,
    max: F,
    n: nat,
    f: spec_fn(int) -> F,
)
    requires
        forall|c: int|
            0 <= c < n ==> #[trigger] f(c) == m[first + 32 * c].sub_s(max).exp_s().mul_s(
                o[(first + 32 * c) * d + i].widen_s(),
            ),
    ensures
        chunk_out(m, o, first, d, i, max, n) == range_sum(f, 0, n as int),
    decreases n,
{
    if n > 0 {
        lemma_chunk_out(m, o, first, d, i, max, (n - 1) as nat, f);
        assert(f(n - 1) == m[first + 32 * (n - 1)].sub_s(max).exp_s().mul_s(
            o[(first + 32 * (n - 1)) * d + i].widen_s(),
        ));
    }
}

/// Thirty-two lanes that stride over `32 * chunks` blocks add all of them up.
proof fn lemma_lane_chunks<F: ExactNum>(
    lanes: Seq<F>,
    f: spec_fn(int) -> F,
    chunks: nat,
)
    requires
        lanes.len() == 32,
        forall|l: int|
            0 <= l < 32 ==> #[trigger] lanes[l] == range_sum(
                |c: int| f(l + 32 * c),
                0,
                chunks as int,
            ),
    ensures
        F::lane_sum_s(lanes) == range_sum(f, 0, 32 * chunks as int),
{
    let fl = |l: int| lanes[l];
    F::lane_sum_total(lanes);
    lemma_total_range(lanes, fl);
    let strided = |l: int| strided_sum(f, 0 + l, 32 * chunks as int, 32);
    assert forall|l: int| 0 <= l < 32 implies #[trigger] fl(l) == strided(l) by {
        let h = |c: int| f(l + 32 * c);
        lemma_strided_range(h, f, l, 32 * chunks as int, 32, chunks as int);
        assert(lanes[l] == range_sum(|c: int| f(l + 32 * c), 0, chunks as int));
        lemma_range_congr(h, |c: int| f(l + 32 * c), 0, chunks as int);
    }
    lemma_range_congr(fl, strided, 0, 32);
    lemma_lanes(f, 0, 32 * chunks as int, 32);
}

/// The dense walk of a single pass.
pub open spec fn dense_walk(head_dim: u32, n_simd: u32, n_kv: u32) -> Walk {
    decode_walk(head_dim, 4, n_simd, n_kv, 0, 0)
}

proof fn lemma_block_is_simdgroup<F: Num>(
    w: Walk,
    scores: Scores<F>,
    values: Seq<Seq<F>>,
    b: int,
)
    requires
        0 <= b,
        w.sink_end == 0,
        w.window_start == 0,
    ensures
        simdgroup_state(w, scores, values, b) == walk(
            scores,
            values,
            fresh(w.head_dim as nat),
            b,
            w.n_kv as int,
            w.n_simd as int,
        ),
{
}

/// What the first pass leaves of a block: the largest of its scores, their
/// softmax sum relative to it, and the values weighted by the same terms.
pub proof fn law_block_partials<F: ExactNum, T: Store<F>>(
    q: Seq<T>,
    k: Seq<T>,
    v: Seq<T>,
    head_dim: u32,
    n_kv: u32,
    kv_stride: u32,
    gqa_factor: u32,
    blocks: u32,
    scale: F,
    r: int,
    i: int,
)
    requires
        0 < blocks,
        0 <= i < head_dim,
        finite_scores(
            block_walk(head_dim, n_kv, blocks),
            all_scores(
                block_walk(head_dim, n_kv, blocks),
                scaled_row::<F, T>(q, (r / blocks as int) * head_dim, head_dim as nat, scale),
                k,
                slab((r / blocks as int) / gqa_factor as int, kv_stride as int, head_dim as int),
                Bias::Absent,
            ),
        ),
    ensures
        ({
            let w = block_walk(head_dim, n_kv, blocks);
            let head = r / blocks as int;
            let base = slab(head / gqa_factor as int, kv_stride as int, head_dim as int);
            let row = scaled_row::<F, T>(q, head * head_dim, head_dim as nat, scale);
            let s = all_scores(w, row, k, base, Bias::Absent).at;
            let b = r % blocks as int;
            let st = block_state::<F, T>(
                q,
                k,
                v,
                head_dim,
                n_kv,
                kv_stride,
                gqa_factor,
                blocks,
                scale,
                r,
            );
            &&& forall|t: int|
                b <= t < n_kv && (t - b) % blocks as int == 0 ==> !(#[trigger] s[t]).gt_s(st.max)
            &&& st.max == F::neg_inf_s() || exists|t: int|
                b <= t < n_kv && (t - b) % blocks as int == 0 && #[trigger] s[t] == st.max
            &&& st.sum == strided_sum(
                |t: int| s[t].sub_s(st.max).exp_s(),
                b,
                n_kv as int,
                blocks as int,
            )
            &&& st.acc[i] == strided_sum(
                |t: int|
                    s[t].sub_s(st.max).exp_s().mul_s(v[base + t * head_dim + i].widen_s()),
                b,
                n_kv as int,
                blocks as int,
            )
        }),
{
    let w = block_walk(head_dim, n_kv, blocks);
    let head = r / blocks as int;
    let base = slab(head / gqa_factor as int, kv_stride as int, head_dim as int);
    let row = scaled_row::<F, T>(q, head * head_dim, head_dim as nat, scale);
    let scores = all_scores(w, row, k, base, Bias::Absent);
    let values = all_values::<F, T>(w, v, base);
    let (b, n, nb) = (r % blocks as int, n_kv as int, blocks as int);
    lemma_mod_bound(r, nb);
    assert forall|t: int| b <= t < n && !scores.blocked.contains(t) implies (
    #[trigger] scores.at[t]).gt_s(F::neg_inf_s()) by {
        assert(in_walk(w, scores, t));
    }
    lemma_walk_closed(scores, values, head_dim as nat, b, n, nb, i);
    let m = walk(scores, values, fresh::<F>(head_dim as nat), b, n, nb).max;
    let term = |t: int| weight(scores, t, m);
    let held = |t: int| weight(scores, t, m).mul_s(values[t][i]);
    let plain = |t: int| scores.at[t].sub_s(m).exp_s();
    let weighted = |t: int|
        scores.at[t].sub_s(m).exp_s().mul_s(v[base + t * head_dim + i].widen_s());
    assert forall|t: int| b <= t < n implies #[trigger] held(t) == weighted(t) by {
        assert(values[t][i] == v[base + t * head_dim + i].widen_s());
    }
    lemma_strided_congr(term, plain, b, n, nb);
    lemma_strided_congr(held, weighted, b, n, nb);
}

/// `m`, `l` and, for element `i`, `o` are what the first pass leaves for query
/// head `h`.
pub open spec fn first_pass_left<F: Num, T: Store<F>>(
    q: Seq<T>,
    k: Seq<T>,
    v: Seq<T>,
    m: Seq<F>,
    l: Seq<F>,
    o: Seq<T>,
    n_kv: u32,
    kv_stride: u32,
    gqa_factor: u32,
    blocks: u32,
    scale: F,
    h: int,
    i: int,
) -> bool {
    &&& forall|b: int|
        0 <= b < blocks ==> #[trigger] m[h * blocks + b] == block_state::<F, T>(
            q,
            k,
            v,
            128,
            n_kv,
            kv_stride,
            gqa_factor,
            blocks,
            scale,
            h * blocks + b,
        ).max
    &&& forall|b: int|
        0 <= b < blocks ==> #[trigger] l[h * blocks + b] == block_state::<F, T>(
            q,
            k,
            v,
            128,
            n_kv,
            kv_stride,
            gqa_factor,
            blocks,
            scale,
            h * blocks + b,
        ).sum
    &&& forall|b: int|
        0 <= b < blocks ==> #[trigger] o[(h * blocks + b) * 128 + i] == T::narrow_s(
            block_state::<F, T>(
                q,
                k,
                v,
                128,
                n_kv,
                kv_stride,
                gqa_factor,
                blocks,
                scale,
                h * blocks + b,
            ).acc[i],
        )
}

/// The two passes together give the attention of a single pass.
///
/// `m`, `l` and `o` are what the first pass leaves for query head `h`; the
/// second pass turns them into element `i` of the head's single-pass output.
pub proof fn law_two_passes_are_one<F: ExactNum, T: ExactStore<F>>(
    q: Seq<T>,
    k: Seq<T>,
    v: Seq<T>,
    m: Seq<F>,
    l: Seq<F>,
    o: Seq<T>,
    n_kv: u32,
    kv_stride: u32,
    gqa_factor: u32,
    blocks: u32,
    n_simd: u32,
    scale: F,
    h: int,
    i: int,
)
    requires
        0 < blocks,
        blocks % 32 == 0,
        0 < gqa_factor,
        0 < n_simd <= 32,
        0 <= h,
        0 <= i < 128,
        finite_scores(
            dense_walk(128, n_simd, n_kv),
            all_scores(
                dense_walk(128, n_simd, n_kv),
                scaled_row::<F, T>(q, h * 128, 128, scale),
                k,
                slab(h / gqa_factor as int, kv_stride as int, 128),
                Bias::Absent,
            ),
        ),
        first_pass_left(q, k, v, m, l, o, n_kv, kv_stride, gqa_factor, blocks, scale, h, i),
    ensures
        blocks_out::<F, T>(m, l, o, h * blocks, (blocks / 32) as nat, 128, i) == decode_row(
            q,
            k,
            v,
            dense_walk(128, n_simd, n_kv),
            1,
            kv_stride as int,
            gqa_factor as int,
            Sink::Absent,
            scale,
            h,
        )[i],
{
    let nb = blocks as int;
    let chunks = (blocks / 32) as nat;
    let mbase = h * blocks;
    let w = block_walk(128, n_kv, blocks);
    let wd = dense_walk(128, n_simd, n_kv);
    let base = slab(h / gqa_factor as int, kv_stride as int, 128);
    let row = scaled_row::<F, T>(q, h * 128, 128, scale);
    let scores = all_scores(w, row, k, base, Bias::Absent);
    let values = all_values(w, v, base);
    assert(scores =~= all_scores(wd, row, k, base, Bias::Absent));
    assert(values =~= all_values(wd, v, base));
    assert forall|b: int| 0 <= b < nb implies #[trigger] block_state::<F, T>(
        q,
        k,
        v,
        128,
        n_kv,
        kv_stride,
        gqa_factor,
        blocks,
        scale,
        mbase + b,
    ) == simdgroup_state(w, scores, values, b) by {
        lemma_row_col(h, b, nb);
        lemma_block_is_simdgroup(w, scores, values, b);
    }
    // the maximum
    let max = blocks_max(m, mbase, chunks);
    let lanes = Seq::new(32, |lane: int| chunk_max(m, mbase + lane, chunks));
    F::lane_max_member(lanes);
    let lane = choose|lane: int| 0 <= lane < lanes.len() && lanes[lane] == max;
    lemma_chunk_max(m, mbase + lane, chunks);
    if max != F::neg_inf_s() {
        let c = choose|c: int|
            0 <= c < chunks && m[#[trigger] (mbase + lane + 32 * c)] == chunk_max(
                m,
                mbase + lane,
                chunks,
            );
        let b = lane + 32 * c;
        assert(m[mbase + b] == max);
        lemma_simdgroup_max(w, scores, values, b);
    }
    assert forall|t: int| in_walk(wd, scores, t) implies !(#[trigger] scores.at[t]).gt_s(max) by {
        let b = t % nb;
        lemma_mod_bound(t, nb);
        lemma_simdgroup_max(w, scores, values, b);
        let lane = b % 32;
        let c = b / 32;
        lemma_chunk_max(m, mbase + lane, chunks);
        assert(mbase + lane + 32 * c == mbase + b);
        assert(!m[mbase + lane + 32 * c].gt_s(chunk_max(m, mbase + lane, chunks)));
        assert(!lanes[lane].gt_s(max));
        lemma_not_gt_trans(scores.at[t], m[mbase + b], lanes[lane]);
        lemma_not_gt_trans(scores.at[t], lanes[lane], max);
    }
    assert(is_max(wd, scores, None, max)) by {
        if max != F::neg_inf_s() {
            let t = choose|t: int| in_walk(w, scores, t) && #[trigger] scores.at[t] == max;
            assert(in_walk(wd, scores, t));
        }
    }
    lemma_softmax_max(wd, scores, None);
    lemma_max_unique(wd, scores, None, max, softmax_max(wd, scores, None));
    lemma_finite_max(wd, scores, None, max);
    assert(finite_reference(w, scores, max));
    // the denominator
    let term = |t: int| weight(scores, t, max);
    let fb = |b: int| m[mbase + b].sub_s(max).exp_s().mul_s(l[mbase + b]);
    let sums = Seq::new(32, |lane: int| chunk_sum(m, l, mbase + lane, max, chunks));
    assert forall|lane: int| 0 <= lane < 32 implies #[trigger] sums[lane] == range_sum(
        |c: int| fb(lane + 32 * c),
        0,
        chunks as int,
    ) by {
        let g = |c: int| fb(lane + 32 * c);
        assert forall|c: int| 0 <= c < chunks implies #[trigger] g(c) == m[mbase + lane + 32
            * c].sub_s(max).exp_s().mul_s(l[mbase + lane + 32 * c]) by {
            assert(mbase + (lane + 32 * c) == mbase + lane + 32 * c);
        }
        lemma_chunk_sum(m, l, mbase + lane, max, chunks, g);
        lemma_range_congr(g, |c: int| fb(lane + 32 * c), 0, chunks as int);
    }
    lemma_lane_chunks(sums, fb, chunks);
    assert forall|b: int| 0 <= b < nb implies #[trigger] fb(b) == simdgroup_terms(
        w,
        term,
        b,
    ) by {
        lemma_simdgroup_sum(w, scores, values, b, max, term);
        F::mul_comm(m[mbase + b].sub_s(max).exp_s(), l[mbase + b]);
    }
    lemma_all_simdgroups(w, term, fb);
    lemma_sum_term(wd, scores, max, term);
    assert(attended_sum(w, term) == attended_sum(wd, term));
    let sum = blocks_sum(m, l, mbase, chunks);
    assert(sum == softmax_sum(wd, scores, None, max));
    // the output
    let inv = if sum.gt_s(F::zero_s()) {
        F::one_s().div_s(sum)
    } else {
        F::zero_s()
    };
    let plain = |t: int| weight(scores, t, max).mul_s(values[t][i]);
    let ob = |b: int|
        m[mbase + b].sub_s(max).exp_s().mul_s(o[(mbase + b) * 128 + i].widen_s());
    let outs = Seq::new(32, |sg: int| chunk_out(m, o, mbase + sg, 128, i, max, chunks));
    assert forall|lane: int| 0 <= lane < 32 implies #[trigger] outs[lane] == range_sum(
        |c: int| ob(lane + 32 * c),
        0,
        chunks as int,
    ) by {
        let g = |c: int| ob(lane + 32 * c);
        assert forall|c: int| 0 <= c < chunks implies #[trigger] g(c) == m[mbase + lane + 32
            * c].sub_s(max).exp_s().mul_s(o[(mbase + lane + 32 * c) * 128 + i].widen_s()) by {
            assert(mbase + (lane + 32 * c) == mbase + lane + 32 * c);
        }
        lemma_chunk_out(m, o, mbase + lane, 128, i, max, chunks, g);
        lemma_range_congr(g, |c: int| ob(lane + 32 * c), 0, chunks as int);
    }
    lemma_lane_chunks(outs, ob, chunks);
    assert forall|b: int| 0 <= b < nb implies #[trigger] ob(b) == simdgroup_terms(
        w,
        plain,
        b,
    ) by {
        lemma_simdgroup_acc(w, scores, values, b, max, i, plain);
        let st = simdgroup_state(w, scores, values, b);
        T::widen_narrow(st.acc[i]);
        F::mul_comm(m[mbase + b].sub_s(max).exp_s(), st.acc[i]);
    }
    lemma_all_simdgroups(w, plain, ob);
    let weighted = |t: int|
        weight(scores, t, max).mul_s(inv).mul_s(values[t][i]);
    assert forall|t: int| #[trigger] weighted(t) == plain(t).mul_s(inv) by {
        let e = weight(scores, t, max);
        F::mul_assoc(e, inv, values[t][i]);
        F::mul_comm(inv, values[t][i]);
        F::mul_assoc(e, values[t][i], inv);
    }
    lemma_range_scale(weighted, plain, inv, 0, 0);
    lemma_range_scale(weighted, plain, inv, 0, n_kv as int);
    F::distrib(range_sum(plain, 0, 0), range_sum(plain, 0, n_kv as int), inv);
    law_attend_is_softmax(wd, scores, values, Sink::Absent, i);
    lemma_range_congr(
        weighted,
        |t: int| weight(scores, t, max).mul_s(inv).mul_s(values[t][i]),
        0,
        n_kv as int,
    );
    assert(softmax_attention(wd, scores, values, None, i) == attended_sum(wd, weighted)) by {
        lemma_range_congr(
            weighted,
            |t: int| weight(scores, t, max).mul_s(inv).mul_s(values[t][i]),
            0,
            0,
        );
    }
}

/// A decode attends the leading range and the window alone: whatever the key
/// and value rows between them, or past the filled prefix, hold, the output is
/// the same.
pub proof fn law_unattended_positions_are_ignored<F: Num, T: Store<F>>(
    q: Seq<T>,
    k: Seq<T>,
    v: Seq<T>,
    other_k: Seq<T>,
    other_v: Seq<T>,
    w: Walk,
    batch: int,
    kv_stride: int,
    heads_per_group: int,
    sink: Sink<F>,
    scale: F,
    r: int,
)
    requires
        w.sink_end <= w.n_kv,
        forall|t: int|
            0 <= t < w.sink_end || w.window_start <= t < w.n_kv ==> #[trigger] same_row(
                k,
                other_k,
                slab((r / batch) / heads_per_group, kv_stride, w.head_dim as int),
                t,
                w.head_dim as int,
            ) && same_row(
                v,
                other_v,
                slab((r / batch) / heads_per_group, kv_stride, w.head_dim as int),
                t,
                w.head_dim as int,
            ),
    ensures
        decode_row(q, k, v, w, batch, kv_stride, heads_per_group, sink, scale, r) == decode_row(
            q,
            other_k,
            other_v,
            w,
            batch,
            kv_stride,
            heads_per_group,
            sink,
            scale,
            r,
        ),
{
    let base = slab((r / batch) / heads_per_group, kv_stride, w.head_dim as int);
    let row = scaled_row::<F, T>(q, r * w.head_dim, w.head_dim as nat, scale);
    let a = all_scores(w, row, k, base, Bias::Absent);
    let b = all_scores(w, row, other_k, base, Bias::Absent);
    let (va, vb) = (all_values::<F, T>(w, v, base), all_values::<F, T>(w, other_v, base));
    let d = w.head_dim as nat;
    assert forall|t: int|
        0 <= t < w.sink_end || w.window_start <= t < w.n_kv implies #[trigger] a.at[t]
        == b.at[t] by {
        assert(same_row(k, other_k, base, t, d as int));
        assert(cache_row::<F, T>(k, base, t, d) =~= cache_row::<F, T>(other_k, base, t, d));
    }
    assert forall|t: int|
        0 <= t < w.sink_end || w.window_start <= t < w.n_kv implies #[trigger] va[t] == vb[t] by {
        assert(same_row(k, other_k, base, t, d as int));
        assert(cache_row::<F, T>(v, base, t, d) =~= cache_row::<F, T>(other_v, base, t, d));
    }
    lemma_attend_congr(w, a, b, va, vb, sink);
}

/// The number of blocks that the passes split the cache into does not matter.
pub proof fn law_block_counts_agree<F: ExactNum, T: ExactStore<F>>(
    q: Seq<T>,
    k: Seq<T>,
    v: Seq<T>,
    m: Seq<F>,
    l: Seq<F>,
    o: Seq<T>,
    m2: Seq<F>,
    l2: Seq<F>,
    o2: Seq<T>,
    n_kv: u32,
    kv_stride: u32,
    gqa_factor: u32,
    blocks: u32,
    blocks2: u32,
    scale: F,
    h: int,
    i: int,
)
    requires
        0 < blocks,
        blocks % 32 == 0,
        0 < blocks2,
        blocks2 % 32 == 0,
        0 < gqa_factor,
        0 <= h,
        0 <= i < 128,
        finite_scores(
            dense_walk(128, 32, n_kv),
            all_scores(
                dense_walk(128, 32, n_kv),
                scaled_row::<F, T>(q, h * 128, 128, scale),
                k,
                slab(h / gqa_factor as int, kv_stride as int, 128),
                Bias::Absent,
            ),
        ),
        first_pass_left(q, k, v, m, l, o, n_kv, kv_stride, gqa_factor, blocks, scale, h, i),
        first_pass_left(q, k, v, m2, l2, o2, n_kv, kv_stride, gqa_factor, blocks2, scale, h, i),
    ensures
        blocks_out::<F, T>(m, l, o, h * blocks, (blocks / 32) as nat, 128, i) == blocks_out::<F, T>(
            m2,
            l2,
            o2,
            h * blocks2,
            (blocks2 / 32) as nat,
            128,
            i,
        ),
{
    law_two_passes_are_one(
        q, k, v, m, l, o, n_kv, kv_stride, gqa_factor, blocks, 32, scale, h, i,
    );
    law_two_passes_are_one(
        q, k, v, m2, l2, o2, n_kv, kv_stride, gqa_factor, blocks2, 32, scale, h, i,
    );
}

} // verus!
