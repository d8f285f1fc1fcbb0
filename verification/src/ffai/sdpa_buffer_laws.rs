//! What the attention kernels compute, stated on the query, key, value, mask and
//! bias buffers themselves.
use vstd::prelude::*;

use super::attention::{
    all_scores, all_values, attend, cache_row, raw_score, scaled_row, Bias, Sink, Walk,
};
use super::sdpa_bidirectional_d128_relpos::relative_bias;
use super::sdpa_decode::{decode_row, decode_walk};
use super::sdpa_laws::{law_blocked_positions_are_ignored, law_score_is_scaled_dot, same_row};
use super::sdpa_multi::{attended, block_row, tree_bias};
use super::sdpa_rows::slab;
use super::softmax::{
    in_walk, is_max, law_attend_is_softmax, lemma_max_unique, lemma_softmax_max, sink_logit,
    softmax_max, softmax_sum, weight,
};
use crate::index::lemma_row_col;
use crate::num::{ExactNum, Num, Store};
use crate::sums::{lemma_range_congr, lemma_zero_add, lemma_zero_mul, range_sum};

verus! {

/// Where row `t` of key/value head `g` starts.
proof fn lemma_cache_index(g: int, kv_stride: int, d: int, t: int)
    ensures
        slab(g, kv_stride, d) + t * d == (g * kv_stride + t) * d,
{
    assert(g * kv_stride * d + t * d == (g * kv_stride + t) * d) by (nonlinear_arith);
}

/// The score of a position before any bias.
proof fn lemma_buffer_score<F: ExactNum, T: Store<F>>(
    q: Seq<T>,
    at: int,
    k: Seq<T>,
    g: int,
    kv_stride: int,
    d: nat,
    per_lane: nat,
    scale: F,
    t: int,
)
    requires
        0 < per_lane,
        d <= 32 * per_lane,
    ensures
        raw_score(
            scaled_row::<F, T>(q, at, d, scale),
            cache_row(k, slab(g, kv_stride, d as int), t, d),
            per_lane,
        ) == range_sum(
            |c: int| q[at + c].widen_s().mul_s(k[(g * kv_stride + t) * d + c].widen_s()),
            0,
            d as int,
        ).mul_s(scale),
{
    let row = cache_row::<F, T>(k, slab(g, kv_stride, d as int), t, d);
    law_score_is_scaled_dot::<F, T>(q, at, row, per_lane, scale);
    lemma_cache_index(g, kv_stride, d as int, t);
    lemma_range_congr(
        |i: int| q[at + i].widen_s().mul_s(row[i]),
        |c: int| q[at + c].widen_s().mul_s(k[(g * kv_stride + t) * d + c].widen_s()),
        0,
        d as int,
    );
}

/// Scores of the attended positions that are not blocked are above negative
/// infinity, and none is above `m`.
spec fn bounded_by<F: Num>(
    s: spec_fn(int) -> F,
    blocked: spec_fn(int) -> bool,
    a: int,
    b: int,
    m: F,
) -> bool {
    &&& forall|t: int| a <= t < b && !blocked(t) ==> (#[trigger] s(t)).gt_s(F::neg_inf_s())
    &&& forall|t: int| a <= t < b && !blocked(t) ==> !(#[trigger] s(t)).gt_s(m)
}

/// Attention over given scores: each value that is not blocked, weighted by its
/// exponential relative to the largest over the sum of them all.
proof fn lemma_attend_of_scores<F: ExactNum, T: Store<F>>(
    w: Walk,
    row: Seq<F>,
    k: Seq<T>,
    v: Seq<T>,
    base: int,
    bias: Bias<F>,
    sink: Sink<F>,
    s: spec_fn(int) -> F,
    blocked: spec_fn(int) -> bool,
    e: spec_fn(int) -> F,
    term: spec_fn(int) -> F,
    m: F,
    i: int,
)
    requires
        0 < w.n_simd <= 32,
        0 <= i < w.head_dim,
        w.sink_end <= w.n_kv,
        forall|t: int|
            0 <= t < w.n_kv && !bias.blocks(t) ==> all_scores(w, row, k, base, bias).at[t]
                == #[trigger] s(t),
        forall|t: int| 0 <= t < w.n_kv ==> bias.blocks(t) == #[trigger] blocked(t),
        bounded_by(s, blocked, 0, w.sink_end as int, m),
        bounded_by(s, blocked, w.window_start as int, w.n_kv as int, m),
        sink_logit(sink) matches Some(x) ==> !x.gt_s(m),
        m == F::neg_inf_s() || sink_logit(sink) == Some(m) || exists|t: int|
            (0 <= t < w.sink_end || w.window_start <= t < w.n_kv) && !blocked(t) && #[trigger] s(t)
                == m,
        forall|t: int|
            0 <= t < w.n_kv ==> #[trigger] e(t) == (if blocked(t) {
                F::zero_s()
            } else {
                s(t).sub_s(m).exp_s()
            }),
        forall|t: int|
            0 <= t < w.n_kv ==> #[trigger] term(t) == (if blocked(t) {
                F::zero_s()
            } else {
                s(t).sub_s(m).exp_s().mul_s(
                    share_of(w, e, sink_logit(sink), m),
                ).mul_s(v[base + t * w.head_dim + i].widen_s())
            }),
    ensures
        attend(w, row, k, v, base, bias, sink)[i] == range_sum(term, 0, w.sink_end as int).add_s(
            range_sum(term, w.window_start as int, w.n_kv as int),
        ),
{
    let scores = all_scores(w, row, k, base, bias);
    let values = all_values::<F, T>(w, v, base);
    let extra = sink_logit(sink);
    let (a, b, n) = (w.sink_end as int, w.window_start as int, w.n_kv as int);
    assert forall|t: int| in_walk(w, scores, t) implies (#[trigger] scores.at[t]).gt_s(
        F::neg_inf_s(),
    ) && !scores.at[t].gt_s(m) by {
        assert(!blocked(t));
        assert(s(t) == scores.at[t]);
    }
    assert(is_max(w, scores, extra, m)) by {
        if m != F::neg_inf_s() && extra != Some(m) {
            let t = choose|t: int|
                (0 <= t < w.sink_end || w.window_start <= t < w.n_kv) && !blocked(t)
                    && #[trigger] s(t) == m;
            assert(in_walk(w, scores, t));
            assert(scores.at[t] == m);
        }
    }
    lemma_softmax_max(w, scores, extra);
    lemma_max_unique(w, scores, extra, m, softmax_max(w, scores, extra));
    law_attend_is_softmax(w, scores, values, sink, i);
    let weights = |t: int| weight(scores, t, m);
    assert forall|t: int| 0 <= t < n implies #[trigger] weights(t) == e(t) by {
        assert(bias.blocks(t) == blocked(t));
        if !blocked(t) {
            assert(scores.at[t] == s(t));
        }
    }
    lemma_range_congr(weights, e, 0, a);
    lemma_range_congr(weights, e, b, n);
    lemma_range_congr(weights, |t: int| weight(scores, t, m), 0, a);
    lemma_range_congr(weights, |t: int| weight(scores, t, m), b, n);
    let sum = softmax_sum(w, scores, extra, m);
    let inv = share_of(w, e, extra, m);
    let full = |t: int| weight(scores, t, m).mul_s(inv).mul_s(values[t][i]);
    assert forall|t: int| 0 <= t < n implies #[trigger] full(t) == term(t) by {
        assert(weights(t) == e(t));
        assert(bias.blocks(t) == blocked(t));
        if blocked(t) {
            lemma_zero_mul(inv);
            lemma_zero_mul(values[t][i]);
        } else {
            assert(scores.at[t] == s(t));
        }
    }
    lemma_range_congr(full, term, 0, a);
    lemma_range_congr(full, term, b, n);
}

/// One over the sum of the exponentials, with that of the extra logit; zero if
/// there is nothing to share.
spec fn share_of<F: Num>(w: Walk, e: spec_fn(int) -> F, extra: Option<F>, m: F) -> F {
    let all = range_sum(e, 0, w.sink_end as int).add_s(
        range_sum(e, w.window_start as int, w.n_kv as int),
    );
    let sum = match extra {
        None => all,
        Some(x) => all.add_s(x.sub_s(m).exp_s()),
    };
    if sum.gt_s(F::zero_s()) {
        F::one_s().div_s(sum)
    } else {
        F::zero_s()
    }
}

/// Decode of slot `b` of query head `h`: softmax attention, over the positions
/// `0 .. sink_end` and `window_start .. n_kv` of the head's key/value head, of
/// the scaled dot products of query and keys. A sink adds its exponential to the
/// denominator and nothing else. `s` names the scores and `m` the largest.
pub proof fn law_decode_of_buffers<F: ExactNum, T: Store<F>>(
    q: Seq<T>,
    k: Seq<T>,
    v: Seq<T>,
    head_dim: u32,
    per_lane: usize,
    n_simd: u32,
    n_kv: u32,
    sink_end: u32,
    window_start: u32,
    batch: int,
    kv_stride: int,
    heads_per_group: int,
    sink: Sink<F>,
    extra: Option<F>,
    scale: F,
    h: int,
    b: int,
    i: int,
    s: spec_fn(int) -> F,
    m: F,
)
    requires
        0 < n_simd <= 32,
        0 < per_lane,
        0 <= i < head_dim <= 32 * per_lane,
        sink_end <= n_kv,
        0 <= h,
        0 <= b < batch,
        0 < heads_per_group,
        match sink {
            Sink::Absent => extra is None,
            Sink::Joined { present, logit } => extra == (if present {
                Some(logit)
            } else {
                None
            }),
            Sink::Appended { logit } => extra == Some(logit),
        },
        forall|t: int|
            #[trigger] s(t) == range_sum(
                |c: int|
                    q[(h * batch + b) * head_dim + c].widen_s().mul_s(
                        k[((h / heads_per_group) * kv_stride + t) * head_dim + c].widen_s(),
                    ),
                0,
                head_dim as int,
            ).mul_s(scale),
        forall|t: int|
            0 <= t < sink_end || window_start <= t < n_kv ==> (#[trigger] s(t)).gt_s(
                F::neg_inf_s(),
            ) && !s(t).gt_s(m),
        extra matches Some(x) ==> !x.gt_s(m),
        m == F::neg_inf_s() || extra == Some(m) || exists|t: int|
            (0 <= t < sink_end || window_start <= t < n_kv) && #[trigger] s(t) == m,
    ensures
        ({
            let e = |t: int| s(t).sub_s(m).exp_s();
            let all = range_sum(e, 0, sink_end as int).add_s(
                range_sum(e, window_start as int, n_kv as int),
            );
            let sum = match extra {
                None => all,
                Some(x) => all.add_s(x.sub_s(m).exp_s()),
            };
            let inv = if sum.gt_s(F::zero_s()) {
                F::one_s().div_s(sum)
            } else {
                F::zero_s()
            };
            let term = |t: int|
                s(t).sub_s(m).exp_s().mul_s(inv).mul_s(
                    v[((h / heads_per_group) * kv_stride + t) * head_dim + i].widen_s(),
                );
            decode_row(
                q,
                k,
                v,
                decode_walk(head_dim, per_lane, n_simd, n_kv, sink_end, window_start),
                batch,
                kv_stride,
                heads_per_group,
                sink,
                scale,
                h * batch + b,
            )[i] == range_sum(term, 0, sink_end as int).add_s(
                range_sum(term, window_start as int, n_kv as int),
            )
        }),
{
    let w = decode_walk(head_dim, per_lane, n_simd, n_kv, sink_end, window_start);
    let d = head_dim as int;
    let g = h / heads_per_group;
    let r = h * batch + b;
    lemma_row_col(h, b, batch);
    let row = scaled_row::<F, T>(q, r * d, d as nat, scale);
    let base = slab(g, kv_stride, d);
    let scores = all_scores(w, row, k, base, Bias::Absent);
    assert forall|t: int| 0 <= t < n_kv implies scores.at[t] == #[trigger] s(t) by {
        lemma_buffer_score::<F, T>(
            q,
            r * d,
            k,
            g,
            kv_stride,
            d as nat,
            per_lane as nat,
            scale,
            t,
        );
        lemma_range_congr(
            |c: int| q[r * d + c].widen_s().mul_s(k[(g * kv_stride + t) * d + c].widen_s()),
            |c: int|
                q[(h * batch + b) * head_dim + c].widen_s().mul_s(
                    k[((h / heads_per_group) * kv_stride + t) * head_dim + c].widen_s(),
                ),
            0,
            d,
        );
    }
    let blocked = |t: int| false;
    let e = |t: int| s(t).sub_s(m).exp_s();
    let inv = share_of(w, e, extra, m);
    let term = |t: int|
        s(t).sub_s(m).exp_s().mul_s(inv).mul_s(
            v[((h / heads_per_group) * kv_stride + t) * head_dim + i].widen_s(),
        );
    assert forall|t: int| 0 <= t < n_kv implies #[trigger] term(t) == s(t).sub_s(m).exp_s().mul_s(
        inv,
    ).mul_s(v[base + t * w.head_dim + i].widen_s()) by {
        lemma_cache_index(g, kv_stride, d, t);
    }
    assert(bounded_by(s, blocked, 0, sink_end as int, m));
    assert(bounded_by(s, blocked, window_start as int, n_kv as int, m));
    if m != F::neg_inf_s() && extra != Some(m) {
        let t = choose|t: int|
            (0 <= t < sink_end || window_start <= t < n_kv) && #[trigger] s(t) == m;
        assert(!blocked(t) && s(t) == m);
    }
    lemma_attend_of_scores::<F, T>(
        w, row, k, v, base, Bias::Absent, sink, s, blocked, e, term, m, i,
    );
}

/// Head `h` of query `query` of a block: softmax attention over the cached
/// prefix and the whole block, or causally up to the query itself.
pub proof fn law_block_of_buffers<F: ExactNum, T: Store<F>>(
    q: Seq<T>,
    k: Seq<T>,
    v: Seq<T>,
    head_dim: u32,
    per_lane: usize,
    n_simd: u32,
    n_q_heads: int,
    base_kv: u32,
    n_query: u32,
    kv_stride: int,
    heads_per_group: int,
    causal: u32,
    scale: F,
    query: int,
    h: int,
    i: int,
    s: spec_fn(int) -> F,
    m: F,
)
    requires
        0 < n_simd <= 32,
        0 < per_lane,
        0 <= i < head_dim <= 32 * per_lane,
        0 <= query < n_query,
        0 <= h < n_q_heads,
        0 < heads_per_group,
        base_kv + n_query <= u32::MAX,
        forall|t: int|
            #[trigger] s(t) == range_sum(
                |c: int|
                    q[(query * n_q_heads + h) * head_dim + c].widen_s().mul_s(
                        k[((h / heads_per_group) * kv_stride + t) * head_dim + c].widen_s(),
                    ),
                0,
                head_dim as int,
            ).mul_s(scale),
        forall|t: int|
            0 <= t < base_kv + (if causal == 1 {
                query + 1
            } else {
                n_query as int
            }) ==> (#[trigger] s(t)).gt_s(F::neg_inf_s()) && !s(t).gt_s(m),
        exists|t: int|
            0 <= t < base_kv + (if causal == 1 {
                query + 1
            } else {
                n_query as int
            }) && #[trigger] s(t) == m,
    ensures
        ({
            let n = base_kv + (if causal == 1 {
                query + 1
            } else {
                n_query as int
            });
            let sum = range_sum(|t: int| s(t).sub_s(m).exp_s(), 0, n);
            let inv = if sum.gt_s(F::zero_s()) {
                F::one_s().div_s(sum)
            } else {
                F::zero_s()
            };
            block_row(
                q,
                k,
                v,
                decode_walk(
                    head_dim,
                    per_lane,
                    n_simd,
                    attended(causal, base_kv, n_query, query),
                    0,
                    0,
                ),
                n_q_heads,
                kv_stride,
                heads_per_group,
                Bias::Absent,
                scale,
                query * n_q_heads + h,
            )[i] == range_sum(
                |t: int|
                    s(t).sub_s(m).exp_s().mul_s(inv).mul_s(
                        v[((h / heads_per_group) * kv_stride + t) * head_dim + i].widen_s(),
                    ),
                0,
                n,
            )
        }),
{
    let n = base_kv + (if causal == 1 {
        query + 1
    } else {
        n_query as int
    });
    let raw = |t: int|
        range_sum(
            |c: int|
                q[(query * n_q_heads + h) * head_dim + c].widen_s().mul_s(
                    k[((h / heads_per_group) * kv_stride + t) * head_dim + c].widen_s(),
                ),
            0,
            head_dim as int,
        ).mul_s(scale);
    let blocked = |t: int| false;
    let t0 = choose|t: int| 0 <= t < n && #[trigger] s(t) == m;
    assert(!blocked(t0) && s(t0) == m);
    assert(bounded_by(s, blocked, 0, n, m));
    assert(attended(causal, base_kv, n_query, query) == n);
    lemma_block_of_scores::<F, T>(
        q,
        k,
        v,
        head_dim,
        per_lane,
        n_simd,
        n_q_heads,
        n as u32,
        kv_stride,
        heads_per_group,
        Bias::Absent,
        scale,
        query,
        h,
        i,
        raw,
        s,
        blocked,
        m,
    );
    let sum = range_sum(|t: int| s(t).sub_s(m).exp_s(), 0, n);
    let e = |t: int|
        if blocked(t) {
            F::zero_s()
        } else {
            s(t).sub_s(m).exp_s()
        };
    lemma_range_congr(e, |t: int| s(t).sub_s(m).exp_s(), 0, n);
    let inv = if sum.gt_s(F::zero_s()) {
        F::one_s().div_s(sum)
    } else {
        F::zero_s()
    };
    lemma_range_congr(
        |t: int|
            if blocked(t) {
                F::zero_s()
            } else {
                s(t).sub_s(m).exp_s().mul_s(inv).mul_s(
                    v[((h / heads_per_group) * kv_stride + t) * head_dim + i].widen_s(),
                )
            },
        |t: int|
            s(t).sub_s(m).exp_s().mul_s(inv).mul_s(
                v[((h / heads_per_group) * kv_stride + t) * head_dim + i].widen_s(),
            ),
        0,
        n,
    );
}

/// A row of a block over `n_kv` positions, with whatever bias.
proof fn lemma_block_of_scores<F: ExactNum, T: Store<F>>(
    q: Seq<T>,
    k: Seq<T>,
    v: Seq<T>,
    head_dim: u32,
    per_lane: usize,
    n_simd: u32,
    n_q_heads: int,
    n_kv: u32,
    kv_stride: int,
    heads_per_group: int,
    bias: Bias<F>,
    scale: F,
    query: int,
    h: int,
    i: int,
    raw: spec_fn(int) -> F,
    s: spec_fn(int) -> F,
    blocked: spec_fn(int) -> bool,
    m: F,
)
    requires
        0 < n_simd <= 32,
        0 < per_lane,
        0 <= i < head_dim <= 32 * per_lane,
        0 <= query,
        0 <= h < n_q_heads,
        0 < heads_per_group,
        forall|t: int|
            #[trigger] raw(t) == range_sum(
                |c: int|
                    q[(query * n_q_heads + h) * head_dim + c].widen_s().mul_s(
                        k[((h / heads_per_group) * kv_stride + t) * head_dim + c].widen_s(),
                    ),
                0,
                head_dim as int,
            ).mul_s(scale),
        forall|t: int| 0 <= t < n_kv ==> bias.blocks(t) == #[trigger] blocked(t),
        forall|t: int|
            0 <= t < n_kv && !blocked(t) ==> #[trigger] s(t) == bias.apply(raw(t), t),
        bounded_by(s, blocked, 0, n_kv as int, m),
        m == F::neg_inf_s() || exists|t: int|
            0 <= t < n_kv && !blocked(t) && #[trigger] s(t) == m,
    ensures
        ({
            let sum = range_sum(
                |t: int|
                    if blocked(t) {
                        F::zero_s()
                    } else {
                        s(t).sub_s(m).exp_s()
                    },
                0,
                n_kv as int,
            );
            let inv = if sum.gt_s(F::zero_s()) {
                F::one_s().div_s(sum)
            } else {
                F::zero_s()
            };
            block_row(
                q,
                k,
                v,
                decode_walk(head_dim, per_lane, n_simd, n_kv, 0, 0),
                n_q_heads,
                kv_stride,
                heads_per_group,
                bias,
                scale,
                query * n_q_heads + h,
            )[i] == range_sum(
                |t: int|
                    if blocked(t) {
                        F::zero_s()
                    } else {
                        s(t).sub_s(m).exp_s().mul_s(inv).mul_s(
                            v[((h / heads_per_group) * kv_stride + t) * head_dim + i].widen_s(),
                        )
                    },
                0,
                n_kv as int,
            )
        }),
{
    let w = decode_walk(head_dim, per_lane, n_simd, n_kv, 0, 0);
    let d = head_dim as int;
    let g = h / heads_per_group;
    let r = query * n_q_heads + h;
    lemma_row_col(query, h, n_q_heads);
    let row = scaled_row::<F, T>(q, r * d, d as nat, scale);
    let base = slab(g, kv_stride, d);
    let scores = all_scores(w, row, k, base, bias);
    assert forall|t: int| 0 <= t < n_kv && !bias.blocks(t) implies scores.at[t]
        == #[trigger] s(t) by {
        assert(!blocked(t));
        lemma_buffer_score::<F, T>(
            q,
            r * d,
            k,
            g,
            kv_stride,
            d as nat,
            per_lane as nat,
            scale,
            t,
        );
        lemma_range_congr(
            |c: int| q[r * d + c].widen_s().mul_s(k[(g * kv_stride + t) * d + c].widen_s()),
            |c: int|
                q[(query * n_q_heads + h) * head_dim + c].widen_s().mul_s(
                    k[((h / heads_per_group) * kv_stride + t) * head_dim + c].widen_s(),
                ),
            0,
            d,
        );
        assert(raw(t) == raw_score(
            row,
            cache_row(k, base, t, d as nat),
            per_lane as nat,
        ));
    }
    let e = |t: int|
        if blocked(t) {
            F::zero_s()
        } else {
            s(t).sub_s(m).exp_s()
        };
    let sum = range_sum(e, 0, n_kv as int);
    lemma_zero_add(sum);
    let inv = if sum.gt_s(F::zero_s()) {
        F::one_s().div_s(sum)
    } else {
        F::zero_s()
    };
    assert(inv == share_of(w, e, None, m));
    let term = |t: int|
        if blocked(t) {
            F::zero_s()
        } else {
            s(t).sub_s(m).exp_s().mul_s(inv).mul_s(
                v[((h / heads_per_group) * kv_stride + t) * head_dim + i].widen_s(),
            )
        };
    assert forall|t: int| 0 <= t < n_kv implies #[trigger] term(t) == (if blocked(t) {
        F::zero_s()
    } else {
        s(t).sub_s(m).exp_s().mul_s(inv).mul_s(v[base + t * w.head_dim + i].widen_s())
    }) by {
        lemma_cache_index(g, kv_stride, d, t);
    }
    assert(bounded_by(s, blocked, 0, 0, m));
    lemma_attend_of_scores::<F, T>(
        w, row, k, v, base, bias, Sink::Absent, s, blocked, e, term, m, i,
    );
    lemma_zero_add(range_sum(term, 0, n_kv as int));
}

/// Head `h` of query `query` of a block under a tree mask: softmax attention
/// over the cached prefix and the whole block. Entry `[query, j]` of the mask,
/// on either side of the diagonal, is added to the score of position
/// `base_kv + j`, and leaves the position out if it is negative infinity.
pub proof fn law_tree_mask_of_buffers<F: ExactNum, T: Store<F>>(
    q: Seq<T>,
    k: Seq<T>,
    v: Seq<T>,
    mask: Seq<T>,
    head_dim: u32,
    per_lane: usize,
    n_simd: u32,
    n_q_heads: int,
    base_kv: u32,
    n_query: u32,
    kv_stride: int,
    heads_per_group: int,
    scale: F,
    query: int,
    h: int,
    i: int,
    s: spec_fn(int) -> F,
    blocked: spec_fn(int) -> bool,
    m: F,
)
    requires
        0 < n_simd <= 32,
        0 < per_lane,
        0 <= i < head_dim <= 32 * per_lane,
        0 <= query < n_query,
        0 <= h < n_q_heads,
        0 < heads_per_group,
        base_kv + n_query <= u32::MAX,
        forall|t: int|
            #[trigger] blocked(t) == (base_kv <= t && mask[query * n_query + (t
                - base_kv)].widen_s() == F::neg_inf_s()),
        forall|t: int|
            #[trigger] s(t) == range_sum(
                |c: int|
                    q[(query * n_q_heads + h) * head_dim + c].widen_s().mul_s(
                        k[((h / heads_per_group) * kv_stride + t) * head_dim + c].widen_s(),
                    ),
                0,
                head_dim as int,
            ).mul_s(scale).add_s(
                if t < base_kv {
                    F::zero_s()
                } else {
                    mask[query * n_query + (t - base_kv)].widen_s()
                },
            ),
        forall|t: int|
            0 <= t < base_kv + n_query && !blocked(t) ==> (#[trigger] s(t)).gt_s(F::neg_inf_s())
                && !s(t).gt_s(m),
        m == F::neg_inf_s() || exists|t: int|
            0 <= t < base_kv + n_query && !blocked(t) && #[trigger] s(t) == m,
    ensures
        ({
            let sum = range_sum(
                |t: int|
                    if blocked(t) {
                        F::zero_s()
                    } else {
                        s(t).sub_s(m).exp_s()
                    },
                0,
                base_kv + n_query,
            );
            let inv = if sum.gt_s(F::zero_s()) {
                F::one_s().div_s(sum)
            } else {
                F::zero_s()
            };
            block_row(
                q,
                k,
                v,
                decode_walk(head_dim, per_lane, n_simd, (base_kv + n_query) as u32, 0, 0),
                n_q_heads,
                kv_stride,
                heads_per_group,
                Bias::Masked(tree_bias::<F, T>(mask, base_kv, n_query, query)),
                scale,
                query * n_q_heads + h,
            )[i] == range_sum(
                |t: int|
                    if blocked(t) {
                        F::zero_s()
                    } else {
                        s(t).sub_s(m).exp_s().mul_s(inv).mul_s(
                            v[((h / heads_per_group) * kv_stride + t) * head_dim + i].widen_s(),
                        )
                    },
                0,
                base_kv + n_query,
            )
        }),
{
    let bias = Bias::Masked(tree_bias::<F, T>(mask, base_kv, n_query, query));
    let raw = |t: int|
        range_sum(
            |c: int|
                q[(query * n_q_heads + h) * head_dim + c].widen_s().mul_s(
                    k[((h / heads_per_group) * kv_stride + t) * head_dim + c].widen_s(),
                ),
            0,
            head_dim as int,
        ).mul_s(scale);
    F::zero_above_neg_inf();
    F::order_irreflexive(F::neg_inf_s());
    assert forall|t: int| 0 <= t < base_kv + n_query implies bias.blocks(t)
        == #[trigger] blocked(t) by {
        F::ge_is_gt_or_same(
            tree_bias::<F, T>(mask, base_kv, n_query, query)[t],
            F::neg_inf_s(),
        );
    }
    assert forall|t: int| 0 <= t < base_kv + n_query && !blocked(t) implies #[trigger] s(t)
        == bias.apply(raw(t), t) by {}
    assert(bounded_by(s, blocked, 0, base_kv + n_query, m));
    if m != F::neg_inf_s() {
        let t0 = choose|t: int| 0 <= t < base_kv + n_query && !blocked(t) && #[trigger] s(t) == m;
        assert(!blocked(t0) && s(t0) == m);
    }
    lemma_block_of_scores::<F, T>(
        q,
        k,
        v,
        head_dim,
        per_lane,
        n_simd,
        n_q_heads,
        (base_kv + n_query) as u32,
        kv_stride,
        heads_per_group,
        bias,
        scale,
        query,
        h,
        i,
        raw,
        s,
        blocked,
        m,
    );
}

/// Where entry `[query, j]` of a tree mask is negative infinity, the row of the
/// query does not depend on what the key and value rows at `base_kv + j` hold,
/// whether `j` is before the query, the query itself, or behind it.
pub proof fn law_masked_key_has_no_influence<F: ExactNum, T: Store<F>>(
    q: Seq<T>,
    k: Seq<T>,
    v: Seq<T>,
    other_k: Seq<T>,
    other_v: Seq<T>,
    mask: Seq<T>,
    head_dim: u32,
    per_lane: usize,
    n_simd: u32,
    n_q_heads: int,
    base_kv: u32,
    n_query: u32,
    kv_stride: int,
    heads_per_group: int,
    scale: F,
    query: int,
    h: int,
)
    requires
        0 <= query < n_query,
        0 <= h < n_q_heads,
        0 < heads_per_group,
        base_kv + n_query <= u32::MAX,
        forall|t: int, c: int|
            0 <= t < base_kv + n_query && 0 <= c < head_dim && (base_kv <= t ==> mask[query
                * n_query + (t - base_kv)].widen_s() != F::neg_inf_s())
                ==> #[trigger] k[((h / heads_per_group) * kv_stride + t) * head_dim + c]
                == other_k[((h / heads_per_group) * kv_stride + t) * head_dim + c],
        forall|t: int, c: int|
            0 <= t < base_kv + n_query && 0 <= c < head_dim && (base_kv <= t ==> mask[query
                * n_query + (t - base_kv)].widen_s() != F::neg_inf_s())
                ==> #[trigger] v[((h / heads_per_group) * kv_stride + t) * head_dim + c]
                == other_v[((h / heads_per_group) * kv_stride + t) * head_dim + c],
    ensures
        block_row(
            q,
            k,
            v,
            decode_walk(head_dim, per_lane, n_simd, (base_kv + n_query) as u32, 0, 0),
            n_q_heads,
            kv_stride,
            heads_per_group,
            Bias::Masked(tree_bias::<F, T>(mask, base_kv, n_query, query)),
            scale,
            query * n_q_heads + h,
        ) == block_row(
            q,
            other_k,
            other_v,
            decode_walk(head_dim, per_lane, n_simd, (base_kv + n_query) as u32, 0, 0),
            n_q_heads,
            kv_stride,
            heads_per_group,
            Bias::Masked(tree_bias::<F, T>(mask, base_kv, n_query, query)),
            scale,
            query * n_q_heads + h,
        ),
{
    let w = decode_walk(head_dim, per_lane, n_simd, (base_kv + n_query) as u32, 0, 0);
    let bias = tree_bias::<F, T>(mask, base_kv, n_query, query);
    let r = query * n_q_heads + h;
    let g = h / heads_per_group;
    let d = head_dim as int;
    let base = slab(g, kv_stride, d);
    lemma_row_col(query, h, n_q_heads);
    assert forall|t: int| 0 <= t < w.n_kv && !Bias::Masked(bias).blocks(t) implies #[trigger] same_row(
        k,
        other_k,
        base,
        t,
        d,
    ) && same_row(v, other_v, base, t, d) by {
        F::ge_is_gt_or_same(bias[t], F::neg_inf_s());
        lemma_cache_index(g, kv_stride, d, t);
        assert forall|c: int| 0 <= c < d implies #[trigger] k[base + t * d + c] == other_k[base + t
            * d + c] by {
            assert(k[(g * kv_stride + t) * head_dim + c] == other_k[(g * kv_stride + t) * head_dim
                + c]);
        }
        assert forall|c: int| 0 <= c < d implies #[trigger] v[base + t * d + c] == other_v[base + t
            * d + c] by {
            assert(v[(g * kv_stride + t) * head_dim + c] == other_v[(g * kv_stride + t) * head_dim
                + c]);
        }
    }
    law_blocked_positions_are_ignored::<F, T>(
        q,
        k,
        v,
        other_k,
        other_v,
        mask,
        w,
        n_q_heads,
        base_kv,
        n_query,
        kv_stride,
        heads_per_group,
        scale,
        query,
        r,
    );
}

/// Head `h` of query `query` with a bias per relative position: the score of
/// position `t` gains the entry of the head's vector at `t + rel_zero` less the
/// query's own position, clamped into the vector.
pub proof fn law_relative_bias_of_buffers<F: ExactNum, T: Store<F>>(
    q: Seq<T>,
    k: Seq<T>,
    v: Seq<T>,
    bias: Seq<F>,
    head_dim: u32,
    per_lane: usize,
    n_simd: u32,
    n_q_heads: int,
    base_kv: u32,
    n_query: u32,
    kv_stride: int,
    heads_per_group: int,
    rel_zero: u32,
    rel_len: u32,
    scale: F,
    query: int,
    h: int,
    i: int,
    rel: spec_fn(int) -> int,
    s: spec_fn(int) -> F,
    m: F,
)
    requires
        0 < n_simd <= 32,
        0 < per_lane,
        0 <= i < head_dim <= 32 * per_lane,
        0 <= query < n_query,
        0 <= h < n_q_heads,
        0 < heads_per_group,
        0 < rel_len,
        base_kv + n_query <= u32::MAX,
        forall|t: int|
            0 <= #[trigger] rel(t) < rel_len && (0 <= t + rel_zero - (base_kv + query) < rel_len
                ==> rel(t) == t + rel_zero - (base_kv + query)) && (t + rel_zero < base_kv + query
                ==> rel(t) == 0) && (t + rel_zero - (base_kv + query) >= rel_len ==> rel(t)
                == rel_len - 1),
        forall|t: int|
            #[trigger] s(t) == range_sum(
                |c: int|
                    q[(query * n_q_heads + h) * head_dim + c].widen_s().mul_s(
                        k[((h / heads_per_group) * kv_stride + t) * head_dim + c].widen_s(),
                    ),
                0,
                head_dim as int,
            ).mul_s(scale).add_s(bias[h * rel_len + rel(t)]),
        forall|t: int|
            0 <= t < base_kv + n_query ==> (#[trigger] s(t)).gt_s(F::neg_inf_s()) && !s(t).gt_s(m),
        exists|t: int| 0 <= t < base_kv + n_query && #[trigger] s(t) == m,
    ensures
        ({
            let sum = range_sum(|t: int| s(t).sub_s(m).exp_s(), 0, base_kv + n_query);
            let inv = if sum.gt_s(F::zero_s()) {
                F::one_s().div_s(sum)
            } else {
                F::zero_s()
            };
            block_row(
                q,
                k,
                v,
                decode_walk(head_dim, per_lane, n_simd, (base_kv + n_query) as u32, 0, 0),
                n_q_heads,
                kv_stride,
                heads_per_group,
                Bias::Added(
                    relative_bias(bias, base_kv, n_query, rel_zero, rel_len, query, h),
                ),
                scale,
                query * n_q_heads + h,
            )[i] == range_sum(
                |t: int|
                    s(t).sub_s(m).exp_s().mul_s(inv).mul_s(
                        v[((h / heads_per_group) * kv_stride + t) * head_dim + i].widen_s(),
                    ),
                0,
                base_kv + n_query,
            )
        }),
{
    let n = base_kv + n_query;
    let added = Bias::Added(relative_bias(bias, base_kv, n_query, rel_zero, rel_len, query, h));
    let raw = |t: int|
        range_sum(
            |c: int|
                q[(query * n_q_heads + h) * head_dim + c].widen_s().mul_s(
                    k[((h / heads_per_group) * kv_stride + t) * head_dim + c].widen_s(),
                ),
            0,
            head_dim as int,
        ).mul_s(scale);
    let blocked = |t: int| false;
    assert forall|t: int| 0 <= t < n && !blocked(t) implies #[trigger] s(t) == added.apply(
        raw(t),
        t,
    ) by {
        assert(0 <= rel(t) < rel_len);
    }
    let t0 = choose|t: int| 0 <= t < n && #[trigger] s(t) == m;
    assert(!blocked(t0) && s(t0) == m);
    assert(bounded_by(s, blocked, 0, n as int, m));
    lemma_block_of_scores::<F, T>(
        q,
        k,
        v,
        head_dim,
        per_lane,
        n_simd,
        n_q_heads,
        n as u32,
        kv_stride,
        heads_per_group,
        added,
        scale,
        query,
        h,
        i,
        raw,
        s,
        blocked,
        m,
    );
    let e = |t: int|
        if blocked(t) {
            F::zero_s()
        } else {
            s(t).sub_s(m).exp_s()
        };
    lemma_range_congr(e, |t: int| s(t).sub_s(m).exp_s(), 0, n);
    let sum = range_sum(|t: int| s(t).sub_s(m).exp_s(), 0, n);
    let inv = if sum.gt_s(F::zero_s()) {
        F::one_s().div_s(sum)
    } else {
        F::zero_s()
    };
    lemma_range_congr(
        |t: int|
            if blocked(t) {
                F::zero_s()
            } else {
                s(t).sub_s(m).exp_s().mul_s(inv).mul_s(
                    v[((h / heads_per_group) * kv_stride + t) * head_dim + i].widen_s(),
                )
            },
        |t: int|
            s(t).sub_s(m).exp_s().mul_s(inv).mul_s(
                v[((h / heads_per_group) * kv_stride + t) * head_dim + i].widen_s(),
            ),
        0,
        n,
    );
}

} // verus!
