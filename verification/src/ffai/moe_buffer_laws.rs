//! What the expert matmuls, the fused norms and products, and the router
//! compute, stated on the buffers themselves.
use vstd::prelude::*;

use super::gather::{dotted_product, folded_product, Quant, Weights};
use super::gemv_laws::{
    law_blocks_compute_product, law_chain_sums_slots, law_rms_is_mean_square,
    law_threads_compute_product, weighted_product,
};
use super::mma::{coop_tiling, fragment_tiling, routed, signed_tiling, Tiling};
use super::moe::{law_expert_is_first, weight_row};
use super::moe_down_swiglu_accum::{gated, slots_fold};
use super::moe_laws::{
    dequant, dequant_product, law_lanes_compute_product, law_tile_computes_product, signed_dequant,
};
use super::moe_route::{
    is_chosen, next_pick, pick_exps, pick_weight, row_logits, row_max, row_sum, strided_max,
    top_picks,
};
use super::attention::pick_max;
use super::moe_router_laws::{
    law_next_pick_is_best, law_picks_are_top, law_row_sum_is_total, lemma_some_left, logit_exp,
};
use super::norm::strided_rms;
use super::rms_norm_qgemv::{blocks_product, normed, threads_product};
use super::softmax::{lemma_not_gt_trans, lemma_pick_max};
use crate::index::lemma_row_col;
use crate::num::{ExactNum, ExactStore, Num, Store};
use crate::quant::code_at;
use crate::sums::{
    lemma_range_congr, lemma_range_split, lemma_range_zero, lemma_total_range, range_sum,
};

verus! {

/// Row `row`, column `c` of an expert matmul over rows grouped by expert: with
/// `e` the first expert whose range ends behind the row, the input row times the
/// expert's weight row. Weight `j` is code `j` of the row's stream times the
/// scale of its group plus the bias of its group.
pub proof fn law_gather_of_buffers<F: ExactNum, T: Store<F>>(
    x: Seq<T>,
    words: Seq<u32>,
    scales: Seq<T>,
    biases: Seq<T>,
    offsets: Seq<u32>,
    bits: u32,
    k_in: u32,
    m_out: u32,
    group_size: u32,
    n_experts: u32,
    vals: int,
    row: int,
    c: int,
    e: int,
)
    requires
        (Quant { bits, k_in, m_out, group_size, n_experts }).wf(),
        0 < vals,
        k_in as int % vals == 0,
        group_size as int % vals == 0,
        0 <= row,
        0 <= c < m_out,
        (0 <= e < n_experts && row < offsets[e + 1] && forall|o: int|
            0 <= o < e ==> row >= #[trigger] offsets[o + 1]) || (e == 0 && forall|o: int|
            0 <= o < n_experts ==> row >= #[trigger] offsets[o + 1]),
    ensures
        ({
            let q = Quant { bits, k_in, m_out, group_size, n_experts };
            let w = Weights { words, scales, biases };
            let i = row * m_out + c;
            let wr = weight_row(offsets, n_experts as nat, m_out as int, i);
            let xbase = (i / m_out as int) * k_in;
            let want = range_sum(
                |j: int|
                    F::of_u32_s(
                        code_at(bits, words, (e * m_out + c) * (k_in * bits / 32), j),
                    ).mul_s(
                        scales[(e * m_out + c) * (k_in as int / group_size as int) + j
                            / group_size as int].widen_s(),
                    ).add_s(
                        biases[(e * m_out + c) * (k_in as int / group_size as int) + j
                            / group_size as int].widen_s(),
                    ).mul_s(x[row * k_in + j].widen_s()),
                0,
                k_in as int,
            );
            &&& folded_product::<F, T>(q, w, wr, x, xbase, vals) == want
            &&& dotted_product::<F, T>(q, w, wr, x, xbase, vals) == want
            &&& dequant_product::<F, T>(q, w, wr, x, xbase) == want
        }),
{
    let q = Quant { bits, k_in, m_out, group_size, n_experts };
    let w = Weights { words, scales, biases };
    lemma_row_col(row, c, m_out as int);
    law_expert_is_first(offsets, row, n_experts as nat, e);
    let wr = e * m_out + c;
    law_lanes_compute_product::<F, T>(q, w, wr, x, row * k_in, vals);
    lemma_range_congr(
        |k: int| dequant::<F, T>(q, w, wr, k).mul_s(x[row * k_in + k].widen_s()),
        |j: int|
            F::of_u32_s(code_at(bits, words, (e * m_out + c) * (k_in * bits / 32), j)).mul_s(
                scales[(e * m_out + c) * (k_in as int / group_size as int) + j
                    / group_size as int].widen_s(),
            ).add_s(
                biases[(e * m_out + c) * (k_in as int / group_size as int) + j
                    / group_size as int].widen_s(),
            ).mul_s(x[row * k_in + j].widen_s()),
        0,
        k_in as int,
    );
}

/// Row `row`, column `c` of a tiled expert matmul: the input row times the
/// weight row of the expert that `indices` names. A row that names none, which
/// the largest index stands for, keeps what the output held. Signed codes are
/// bytes in two's complement.
pub proof fn law_tiled_matmul_of_buffers<F: ExactNum, T: ExactStore<F>>(
    t: Tiling,
    x: Seq<T>,
    words: Seq<u32>,
    scales: Seq<T>,
    biases: Seq<T>,
    indices: Seq<u32>,
    old_out: Seq<T>,
    bits: u32,
    k_in: u32,
    m_out: u32,
    group_size: u32,
    n_experts: u32,
    row: int,
    c: int,
    number: spec_fn(u32) -> F,
)
    requires
        (Quant { bits, k_in, m_out, group_size, n_experts }).wf(),
        t.wf(Quant { bits, k_in, m_out, group_size, n_experts }),
        group_size % t.unit == 0,
        0 <= row,
        0 <= c < m_out,
        forall|v: u32|
            #[trigger] number(v) == (if t.signed && v >= 128 {
                F::of_u32_s((256 - v) as u32).neg_s()
            } else {
                F::of_u32_s(v)
            }),
    ensures
        routed::<F, T>(
            t,
            (Quant { bits, k_in, m_out, group_size, n_experts }),
            (Weights { words, scales, biases }),
            x,
            indices,
            old_out,
            row * m_out + c,
        ) == (if indices[row] == u32::MAX {
            old_out[row * m_out + c]
        } else {
            T::narrow_s(
                range_sum(
                    |j: int|
                        number(
                            code_at(
                                bits,
                                words,
                                (indices[row] * m_out + c) * (k_in * bits / 32),
                                j,
                            ),
                        ).mul_s(
                            scales[(indices[row] * m_out + c) * (k_in as int / group_size as int)
                                + j / group_size as int].widen_s(),
                        ).add_s(
                            biases[(indices[row] * m_out + c) * (k_in as int / group_size as int)
                                + j / group_size as int].widen_s(),
                        ).mul_s(x[row * k_in + j].widen_s()),
                    0,
                    k_in as int,
                ),
            )
        }),
{
    let q = Quant { bits, k_in, m_out, group_size, n_experts };
    let w = Weights { words, scales, biases };
    lemma_row_col(row, c, m_out as int);
    if indices[row] != u32::MAX {
        let wr = indices[row] * m_out + c;
        law_tile_computes_product::<F, T>(t, q, w, x, indices[row] as int, row, c);
        let want = |j: int|
            number(
                code_at(bits, words, (indices[row] * m_out + c) * (k_in * bits / 32), j),
            ).mul_s(
                scales[(indices[row] * m_out + c) * (k_in as int / group_size as int) + j
                    / group_size as int].widen_s(),
            ).add_s(
                biases[(indices[row] * m_out + c) * (k_in as int / group_size as int) + j
                    / group_size as int].widen_s(),
            ).mul_s(x[row * k_in + j].widen_s());
        if t.signed {
            lemma_range_congr(
                |k: int| signed_dequant::<F, T>(q, w, wr, k).mul_s(x[row * k_in + k].widen_s()),
                want,
                0,
                k_in as int,
            );
        } else {
            lemma_range_congr(
                |k: int| dequant::<F, T>(q, w, wr, k).mul_s(x[row * k_in + k].widen_s()),
                want,
                0,
                k_in as int,
            );
        }
    }
}

/// Row `row` of a fused norm and product: every input over the root of the mean
/// square plus `eps`, times its norm weight, times the dequantised weight.
pub proof fn law_normed_product_of_buffers<F: ExactNum, T: Store<F>>(
    x: Seq<T>,
    norm_weight: Seq<T>,
    words: Seq<u32>,
    scales: Seq<T>,
    biases: Seq<T>,
    eps: F,
    bits: u32,
    in_dim: u32,
    out_dim: u32,
    group_size: u32,
    row: int,
    threads: u32,
    inv: F,
)
    requires
        (Quant { bits, k_in: in_dim, m_out: out_dim, group_size, n_experts: 1 }).wf(),
        0 < threads,
        inv == range_sum(
            |j: int| x[j].widen_s().mul_s(x[j].widen_s()),
            0,
            in_dim as int,
        ).div_s(F::of_u32_s(in_dim)).add_s(eps).rsqrt_s(),
    ensures
        ({
            let q = Quant { bits, k_in: in_dim, m_out: out_dim, group_size, n_experts: 1 };
            let w = Weights { words, scales, biases };
            let m = normed::<F, T>(
                x,
                norm_weight,
                strided_rms::<F, T>(x, in_dim, threads, eps),
                in_dim,
            );
            let want = range_sum(
                |j: int|
                    F::of_u32_s(code_at(bits, words, row * (in_dim * bits / 32), j)).mul_s(
                        scales[row * (in_dim as int / group_size as int) + j
                            / group_size as int].widen_s(),
                    ).add_s(
                        biases[row * (in_dim as int / group_size as int) + j
                            / group_size as int].widen_s(),
                    ).mul_s(
                        x[j].widen_s().mul_s(norm_weight[j].widen_s()).mul_s(inv),
                    ),
                0,
                in_dim as int,
            );
            &&& bits == 4 && group_size % 8 == 0 ==> threads_product::<F, T>(q, w, row, m, threads)
                == want
            &&& in_dim % 512 == 0 && group_size % 16 == 0 ==> blocks_product::<F, T>(q, w, row, m)
                == want
        }),
{
    let q = Quant { bits, k_in: in_dim, m_out: out_dim, group_size, n_experts: 1 };
    let w = Weights { words, scales, biases };
    law_rms_is_mean_square::<F, T>(x, in_dim, threads, eps);
    let m = normed::<F, T>(x, norm_weight, strided_rms::<F, T>(x, in_dim, threads, eps), in_dim);
    lemma_range_congr(
        |k: int| dequant::<F, T>(q, w, row, k).mul_s(m[k]),
        |j: int|
            F::of_u32_s(code_at(bits, words, row * (in_dim * bits / 32), j)).mul_s(
                scales[row * (in_dim as int / group_size as int) + j
                    / group_size as int].widen_s(),
            ).add_s(
                biases[row * (in_dim as int / group_size as int) + j
                    / group_size as int].widen_s(),
            ).mul_s(x[j].widen_s().mul_s(norm_weight[j].widen_s()).mul_s(inv)),
        0,
        in_dim as int,
    );
    if bits == 4 && group_size % 8 == 0 {
        law_threads_compute_product::<F, T>(q, w, row, m, threads);
    }
    if in_dim % 512 == 0 && group_size % 16 == 0 {
        law_blocks_compute_product::<F, T>(q, w, row, m);
    }
}

/// Output `row` of the fused down projection: the sum over the eight slots of
/// the slot's weight times the product of its expert's weight row with
/// `gate / (1 + exp(-gate)) * up`.
pub proof fn law_chain_of_buffers<F: ExactNum, T: Store<F>>(
    gates: Seq<Vec<T>>,
    ups: Seq<Vec<T>>,
    experts: Seq<u32>,
    slot_weights: Seq<T>,
    words: Seq<u32>,
    scales: Seq<T>,
    biases: Seq<T>,
    in_dim: u32,
    out_dim: u32,
    group_size: u32,
    n_experts: u32,
    threads: u32,
    row: int,
    slot: spec_fn(int) -> F,
)
    requires
        (Quant { bits: 4, k_in: in_dim, m_out: out_dim, group_size, n_experts }).wf(),
        group_size % 8 == 0,
        0 < threads,
        forall|s: int|
            #[trigger] slot(s) == range_sum(
                |j: int|
                    F::of_u32_s(
                        code_at(4, words, (experts[s] * out_dim + row) * (in_dim * 4 / 32), j),
                    ).mul_s(
                        scales[(experts[s] * out_dim + row) * (in_dim as int / group_size as int)
                            + j / group_size as int].widen_s(),
                    ).add_s(
                        biases[(experts[s] * out_dim + row) * (in_dim as int / group_size as int)
                            + j / group_size as int].widen_s(),
                    ).mul_s(
                        gates[s]@[j].widen_s().div_s(
                            F::one_s().add_s(gates[s]@[j].widen_s().neg_s().exp_s()),
                        ).mul_s(ups[s]@[j].widen_s()),
                    ),
                0,
                in_dim as int,
            ),
    ensures
        F::lane_sum_s(
            Seq::new(
                threads as nat,
                |t: int|
                    slots_fold::<F, T>(
                        (Quant { bits: 4, k_in: in_dim, m_out: out_dim, group_size, n_experts }),
                        (Weights { words, scales, biases }),
                        gates,
                        ups,
                        experts,
                        slot_weights,
                        row,
                        t,
                        threads as int,
                        8,
                    ),
            ),
        ) == range_sum(|s: int| slot_weights[s].widen_s().mul_s(slot(s)), 0, 8),
{
    let q = Quant { bits: 4, k_in: in_dim, m_out: out_dim, group_size, n_experts };
    let w = Weights { words, scales, biases };
    law_chain_sums_slots::<F, T>(q, w, gates, ups, experts, slot_weights, row, threads);
    let a = |s: int|
        slot_weights[s].widen_s().mul_s(
            weighted_product::<F, T>(
                q,
                w,
                experts[s] * q.m_out + row,
                gated::<F, T>(gates[s]@, ups[s]@, q.k_in),
            ),
        );
    let b = |s: int| slot_weights[s].widen_s().mul_s(slot(s));
    assert forall|s: int| 0 <= s < 8 implies #[trigger] a(s) == b(s) by {
        let wr = experts[s] * q.m_out + row;
        let m = gated::<F, T>(gates[s]@, ups[s]@, q.k_in);
        let f = |k: int| dequant::<F, T>(q, w, wr, k).mul_s(m[k]);
        let g = |j: int|
            F::of_u32_s(
                code_at(4, words, (experts[s] * out_dim + row) * (in_dim * 4 / 32), j),
            ).mul_s(
                scales[(experts[s] * out_dim + row) * (in_dim as int / group_size as int) + j
                    / group_size as int].widen_s(),
            ).add_s(
                biases[(experts[s] * out_dim + row) * (in_dim as int / group_size as int) + j
                    / group_size as int].widen_s(),
            ).mul_s(
                gates[s]@[j].widen_s().div_s(
                    F::one_s().add_s(gates[s]@[j].widen_s().neg_s().exp_s()),
                ).mul_s(ups[s]@[j].widen_s()),
            );
        assert forall|j: int| 0 <= j < in_dim implies #[trigger] f(j) == g(j) by {
            let v = gates[s]@[j].widen_s();
            F::sub_add_neg(F::zero_s(), v);
            crate::sums::lemma_zero_add(v.neg_s());
        }
        lemma_range_congr(f, g, 0, in_dim as int);
        lemma_range_congr(
            f,
            |k: int| dequant::<F, T>(q, w, experts[s] * q.m_out + row, k).mul_s(m[k]),
            0,
            in_dim as int,
        );
        assert(slot(s) == range_sum(g, 0, in_dim as int));
    }
    lemma_range_congr(a, b, 0, 8);
}

/// The strided maximum is not below what it covers, and is one of it.
proof fn lemma_strided_max<F: ExactNum>(logits: Seq<F>, j: int, best: F, k: int)
    requires
        0 <= j,
        0 <= k,
    ensures
        !best.gt_s(strided_max(logits, j, best)),
        j + k * 32 < logits.len() ==> !logits[j + k * 32].gt_s(strided_max(logits, j, best)),
        strided_max(logits, j, best) == best || exists|i: int|
            0 <= i < logits.len() && #[trigger] logits[i] == strided_max(logits, j, best),
    decreases
            (if j < logits.len() {
                logits.len() - j
            } else {
                0
            }),
{
    F::order_irreflexive(best);
    if j < logits.len() {
        let next = pick_max(logits[j], best);
        let top = strided_max(logits, j, best);
        let kk = if k > 0 {
            k - 1
        } else {
            0
        };
        lemma_strided_max(logits, j + 32, next, kk);
        lemma_pick_max(logits[j], best);
        lemma_not_gt_trans(logits[j], next, top);
        lemma_not_gt_trans(best, next, top);
        if k > 0 {
            assert(j + 32 + kk * 32 == j + k * 32);
        }
        if top == next && next != best {
            assert(logits[j] == top);
        }
    }
}

/// The maximum that the lanes find is the largest logit.
proof fn lemma_row_max<F: ExactNum>(logits: Seq<F>, m: F)
    requires
        forall|j: int| 0 <= j < logits.len() ==> !(#[trigger] logits[j]).gt_s(m),
        exists|j: int| 0 <= j < logits.len() && #[trigger] logits[j] == m,
    ensures
        row_max(logits) == m,
{
    let lanes = Seq::new(32, |l: int| strided_max(logits, l, F::neg_inf_s()));
    let top = row_max(logits);
    F::lane_max_member(lanes);
    let j = choose|j: int| 0 <= j < logits.len() && #[trigger] logits[j] == m;
    let l = j % 32;
    lemma_strided_max(logits, l, F::neg_inf_s(), j / 32);
    assert(l + (j / 32) * 32 == j);
    assert(!lanes[l].gt_s(top));
    lemma_not_gt_trans(m, lanes[l], top);
    let o = choose|o: int| 0 <= o < lanes.len() && lanes[o] == top;
    lemma_strided_max(logits, o, F::neg_inf_s(), 0);
    F::neg_inf_lowest(m);
    if top != F::neg_inf_s() {
        let i = choose|i: int| 0 <= i < logits.len() && #[trigger] logits[i] == top;
        assert(!top.gt_s(m));
    }
    F::order_total(top, m);
}

/// Pick `p` of many is the one made after the first `p`.
proof fn lemma_pick_of<F: Num>(logits: Seq<F>, k: nat, p: nat)
    requires
        p <= k,
    ensures
        top_picks(logits, k).len() == k,
        top_picks(logits, k).take(p as int) == top_picks(logits, p),
        p < k ==> top_picks(logits, k)[p as int] == next_pick(logits, top_picks(logits, p)),
    decreases k,
{
    if k > 0 {
        let before = top_picks(logits, (k - 1) as nat);
        if p < k {
            lemma_pick_of(logits, (k - 1) as nat, p);
            assert(top_picks(logits, k).take(p as int) =~= before.take(p as int));
            if p == k - 1 {
                assert(before.take(p as int) =~= before);
            }
        } else {
            lemma_pick_of(logits, (k - 1) as nat, (k - 1) as nat);
            assert(top_picks(logits, k).take(p as int) =~= top_picks(logits, k));
        }
    }
}

/// Row `row` of the router on the logits `l` of that row of the buffer, the
/// largest of which is `m`. Pick `p` is an expert that no earlier pick names;
/// among those none has a larger logit, and none with the same logit has a
/// smaller index. Its weight is its exponential over those of the picks if
/// weights are normalised, and over those of all experts if not.
pub proof fn law_router_of_buffers<F: ExactNum, T: Store<F>>(
    router_logits: Seq<T>,
    n_experts: u32,
    k: u32,
    row: int,
    p: int,
    l: spec_fn(int) -> F,
    idx: spec_fn(int) -> int,
    m: F,
)
    requires
        0 <= p < k <= 32,
        k <= n_experts,
        forall|j: int| #[trigger] l(j) == router_logits[row * n_experts + j].widen_s(),
        forall|j: int|
            0 <= j < n_experts ==> (#[trigger] l(j)).gt_s(F::neg_inf_s()) && !l(j).gt_s(m),
        exists|j: int| 0 <= j < n_experts && #[trigger] l(j) == m,
        forall|c: int|
            #[trigger] idx(c) == top_picks(
                row_logits::<F, T>(router_logits, row, n_experts as nat),
                k as nat,
            )[c].idx,
    ensures
        ({
            let logits = row_logits::<F, T>(router_logits, row, n_experts as nat);
            &&& 0 <= idx(p) < n_experts
            &&& forall|c: int| 0 <= c < p ==> #[trigger] idx(c) != idx(p)
            &&& forall|j: int|
                0 <= j < n_experts && (forall|c: int| 0 <= c < p ==> #[trigger] idx(c) != j) ==> !(
                #[trigger] l(j)).gt_s(l(idx(p))) && (l(j) == l(idx(p)) ==> idx(p) <= j)
            &&& pick_weight(logits, k as nat, true, p) == l(idx(p)).sub_s(m).exp_s().div_s(
                range_sum(|c: int| l(idx(c)).sub_s(m).exp_s(), 0, k as int),
            )
            &&& pick_weight(logits, k as nat, false, p) == l(idx(p)).sub_s(m).exp_s().div_s(
                range_sum(|j: int| l(j).sub_s(m).exp_s(), 0, n_experts as int),
            )
        }),
{
    let logits = row_logits::<F, T>(router_logits, row, n_experts as nat);
    let picks = top_picks(logits, k as nat);
    let before = top_picks(logits, p as nat);
    assert forall|j: int| 0 <= j < logits.len() implies (#[trigger] logits[j]).gt_s(
        F::neg_inf_s(),
    ) && !logits[j].gt_s(m) && logits[j] == l(j) by {
        assert(l(j) == router_logits[row * n_experts + j].widen_s());
    }
    let j0 = choose|j: int| 0 <= j < n_experts && #[trigger] l(j) == m;
    assert(logits[j0] == m);
    lemma_row_max(logits, m);
    law_picks_are_top(logits, k as nat);
    lemma_pick_of(logits, k as nat, p as nat);
    lemma_pick_of(logits, p as nat, p as nat);
    let left = lemma_some_left(before, n_experts as int);
    law_next_pick_is_best(logits, before, left);
    assert(picks[p] == next_pick(logits, before));
    assert forall|c: int| 0 <= c < p implies before[c].idx == #[trigger] idx(c) by {
        assert(picks.take(p)[c] == picks[c]);
    }
    assert(idx(p) == picks[p].idx);
    assert forall|c: int| 0 <= c < p implies #[trigger] idx(c) != idx(p) by {
        assert(before[c].idx == idx(c));
    }
    assert forall|j: int|
        0 <= j < n_experts && (forall|c: int| 0 <= c < p ==> #[trigger] idx(c) != j) implies !(
    #[trigger] l(j)).gt_s(l(idx(p))) && (l(j) == l(idx(p)) ==> idx(p) <= j) by {
        if is_chosen(before, j) {
            let c = choose|c: int| 0 <= c < before.len() && (#[trigger] before[c]).idx == j;
            assert(idx(c) != j);
        }
        assert(logits[j] == l(j));
        assert(logits[idx(p)] == l(idx(p)));
    }
    // the weights
    let e = pick_exps(logits, k as nat);
    let ef = |c: int| e[c];
    let chosen = |c: int| l(idx(c)).sub_s(m).exp_s();
    F::lane_sum_total(e);
    lemma_total_range(e, ef);
    lemma_range_split(ef, 0, k as int, 32);
    lemma_range_zero(ef, k as int, 32);
    F::add_zero(range_sum(ef, 0, k as int));
    assert forall|c: int| 0 <= c < k implies #[trigger] ef(c) == chosen(c) by {
        assert(picks[c].val == logits[picks[c].idx as int]);
        assert(idx(c) == picks[c].idx);
        assert(logits[idx(c)] == l(idx(c)));
    }
    lemma_range_congr(ef, chosen, 0, k as int);
    assert(ef(p) == chosen(p));
    law_row_sum_is_total(logits);
    let all = |j: int| l(j).sub_s(m).exp_s();
    let held = |j: int| logit_exp(logits, j);
    assert forall|j: int| 0 <= j < n_experts implies #[trigger] held(j) == all(j) by {
        assert(logits[j] == l(j));
    }
    lemma_range_congr(held, all, 0, n_experts as int);
    assert(row_sum(logits) == range_sum(all, 0, n_experts as int));
}

/// The signed eight-bit matmul reads its codes as bytes in two's complement: a
/// byte of 128 or more stands for itself less 256.
pub proof fn law_signed_matmul_of_buffers<F: ExactNum, T: ExactStore<F>>(
    x: Seq<T>,
    words: Seq<u32>,
    scales: Seq<T>,
    biases: Seq<T>,
    indices: Seq<u32>,
    old_out: Seq<T>,
    k_in: u32,
    m_out: u32,
    group_size: u32,
    n_experts: u32,
    row: int,
    c: int,
    number: spec_fn(u32) -> F,
)
    requires
        (Quant { bits: 8, k_in, m_out, group_size, n_experts }).wf(),
        k_in % 32 == 0,
        m_out % 32 == 0,
        group_size % 4 == 0,
        0 <= row,
        0 <= c < m_out,
        indices[row] != u32::MAX,
        forall|v: u32|
            #[trigger] number(v) == (if v >= 128 {
                F::of_u32_s((256 - v) as u32).neg_s()
            } else {
                F::of_u32_s(v)
            }),
    ensures
        routed::<F, T>(
            signed_tiling(32, 4),
            (Quant { bits: 8, k_in, m_out, group_size, n_experts }),
            (Weights { words, scales, biases }),
            x,
            indices,
            old_out,
            row * m_out + c,
        ) == T::narrow_s(
            range_sum(
                |j: int|
                    number(
                        code_at(8, words, (indices[row] * m_out + c) * (k_in * 8 / 32), j),
                    ).mul_s(
                        scales[(indices[row] * m_out + c) * (k_in as int / group_size as int) + j
                            / group_size as int].widen_s(),
                    ).add_s(
                        biases[(indices[row] * m_out + c) * (k_in as int / group_size as int) + j
                            / group_size as int].widen_s(),
                    ).mul_s(x[row * k_in + j].widen_s()),
                0,
                k_in as int,
            ),
        ),
{
    law_tiled_matmul_of_buffers::<F, T>(
        signed_tiling(32, 4),
        x,
        words,
        scales,
        biases,
        indices,
        old_out,
        8,
        k_in,
        m_out,
        group_size,
        n_experts,
        row,
        c,
        number,
    );
}

/// Every other tiling reads its codes as they stand.
pub proof fn law_other_tilings_are_unsigned(
    bm: u32,
    bn: u32,
    bk: u32,
    unit: u32,
    masked: bool,
    multiplied: bool,
)
    ensures
        !fragment_tiling(bm, unit, masked, multiplied).signed,
        !coop_tiling(bm, bn, bk, unit).signed,
        fragment_tiling(bm, unit, masked, multiplied).unit == unit,
        coop_tiling(bm, bn, bk, unit).unit == unit,
{
}

} // verus!
