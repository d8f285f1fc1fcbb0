//! Normalise, dequantise and multiply, one element at a time and in order:
//! what the fused matrix-vector products are measured against.
use vstd::prelude::*;

use super::gather::{lemma_weight_bounds, words_in_row, Quant, Weights};
use super::gemv::run_thread;
use super::gemv_laws::{
    law_blocks_compute_product, law_chain_sums_slots, law_rms_is_mean_square,
    law_threads_compute_product, lemma_slots, weighted_product,
};
use super::moe_down_swiglu_accum::{get_gated, slots_fold};
use super::moe_laws::dequant;
use super::norm::strided_rms;
use super::rms_norm_qgemv::{blocks_product, get_normed, normed, threads_product, FAST_THREADS};
use crate::index::{lemma_mul_le, lemma_row};
use crate::num::{ExactNum, Num, Store};
use crate::quant::extract;
use crate::sums::{lemma_zero_add, range_sum};

verus! {

/// One over the root of the mean square plus `eps`.
pub open spec fn naive_rms<F: Num, T: Store<F>>(x: Seq<T>, n: u32, eps: F) -> F {
    F::one_s().div_s(
        range_sum(
            |i: int| x[i].widen_s().mul_s(x[i].widen_s()),
            0,
            n as int,
        ).div_s(F::of_u32_s(n)).add_s(eps).sqrt_s(),
    )
}

fn get_naive_rms<F: Num, T: Store<F>>(x: &[T], n: u32, eps: F) -> (r: F)
    requires
        n <= x@.len(),
    ensures
        r == naive_rms::<F, T>(x@, n, eps),
{
    let ghost f = |i: int| x@[i].widen_s().mul_s(x@[i].widen_s());
    let mut ssq = F::zero();
    let mut i: u32 = 0;
    while i < n
        invariant
            i <= n <= x@.len(),
            f == (|i: int| x@[i].widen_s().mul_s(x@[i].widen_s())),
            ssq == range_sum(f, 0, i as int),
        decreases n - i,
    {
        let v = x[i as usize].widen();
        ssq = ssq.add(v.mul(v));
        i += 1;
    }
    F::one().div(ssq.div(F::of_u32(n)).add(eps).sqrt())
}

/// Normalises `x` and multiplies it by a matrix of `bits`-wide codes.
pub fn naive_rms_norm_qgemv<F: Num, T: Store<F>>(
    weight: &[u32],
    scales: &[T],
    biases: &[T],
    x: &[T],
    norm_weight: &[T],
    in_dim: u32,
    group_size: u32,
    out_dim: u32,
    bits: u32,
    eps: F,
) -> (out: Vec<F>)
    requires
        bits == 4 || bits == 8,
        (Quant { bits, k_in: in_dim, m_out: out_dim, group_size, n_experts: 1 }).wf(),
        (Quant { bits, k_in: in_dim, m_out: out_dim, group_size, n_experts: 1 }).fits(
            (Weights { words: weight@, scales: scales@, biases: biases@ }),
        ),
        in_dim <= x@.len(),
        in_dim <= norm_weight@.len(),
    ensures
        out@ == Seq::new(
            out_dim as nat,
            |row: int|
                weighted_product::<F, T>(
                    (Quant { bits, k_in: in_dim, m_out: out_dim, group_size, n_experts: 1 }),
                    (Weights { words: weight@, scales: scales@, biases: biases@ }),
                    row,
                    normed::<F, T>(
                        x@,
                        norm_weight@,
                        naive_rms::<F, T>(x@, in_dim, eps),
                        in_dim,
                    ),
                ),
        ),
{
    let q = Quant { bits, k_in: in_dim, m_out: out_dim, group_size, n_experts: 1 };
    let ghost w = Weights { words: weight@, scales: scales@, biases: biases@ };
    let w_len: usize = weight.len();
    let s_len: usize = scales.len();
    let inv = get_naive_rms::<F, T>(x, in_dim, eps);
    let m = get_normed::<F, T>(x, norm_weight, inv, in_dim);
    let ghost full = Seq::new(
        out_dim as nat,
        |row: int| weighted_product::<F, T>(q, w, row, m@),
    );
    let mut out: Vec<F> = Vec::new();
    let mut row: u32 = 0;
    while row < out_dim
        invariant
            row <= out_dim,
            q == (Quant { bits, k_in: in_dim, m_out: out_dim, group_size, n_experts: 1 }),
            w == (Weights { words: weight@, scales: scales@, biases: biases@ }),
            q.wf(),
            q.fits(w),
            weight@.len() == w_len,
            scales@.len() == s_len,
            m@.len() == in_dim,
            full == Seq::new(
                out_dim as nat,
                |row: int| weighted_product::<F, T>(q, w, row, m@),
            ),
            out@ == full.take(row as int),
        decreases out_dim - row,
    {
        let ghost f = |k: int| dequant::<F, T>(q, w, row as int, k).mul_s(m@[k]);
        let mut acc = F::zero();
        let mut d: u32 = 0;
        while d < in_dim
            invariant
                d <= in_dim,
                row < out_dim,
                q == (Quant { bits, k_in: in_dim, m_out: out_dim, group_size, n_experts: 1 }),
                w == (Weights { words: weight@, scales: scales@, biases: biases@ }),
                q.wf(),
                q.fits(w),
                weight@.len() == w_len,
                scales@.len() == s_len,
                m@.len() == in_dim,
                f == (|k: int| dequant::<F, T>(q, w, row as int, k).mul_s(m@[k])),
                acc == range_sum(f, 0, d as int),
            decreases in_dim - d,
        {
            proof {
                lemma_weight_bounds(q, w, row as int, d as int);
            }
            let words_row: usize = words_in_row(q);
            let groups: usize = (in_dim / group_size) as usize;
            let g: usize = (d / group_size) as usize;
            let c: u32 = extract(bits, weight, row as usize * words_row, d);
            let scale = scales[row as usize * groups + g].widen();
            let bias = biases[row as usize * groups + g].widen();
            acc = acc.add(F::of_u32(c).mul(scale).add(bias).mul(m[d as usize]));
            d += 1;
        }
        out.push(acc);
        assert(out@ =~= full.take(row + 1));
        row += 1;
    }
    assert(out@ =~= full);
    out
}

/// The one-row kernel computes what the reference computes.
pub proof fn law_qgemv_matches_naive<F: ExactNum, T: Store<F>>(
    q: Quant,
    w: Weights<T>,
    row: int,
    x: Seq<T>,
    norm_weight: Seq<T>,
    eps: F,
    threads: u32,
)
    requires
        q.wf(),
        q.bits == 4,
        q.group_size % 8 == 0,
        0 < threads,
    ensures
        threads_product::<F, T>(
            q,
            w,
            row,
            normed::<F, T>(x, norm_weight, strided_rms::<F, T>(x, q.k_in, threads, eps), q.k_in),
            threads,
        ) == weighted_product::<F, T>(
            q,
            w,
            row,
            normed::<F, T>(x, norm_weight, naive_rms::<F, T>(x, q.k_in, eps), q.k_in),
        ),
{
    lemma_rms::<F, T>(x, q.k_in, threads, eps);
    law_threads_compute_product::<F, T>(
        q,
        w,
        row,
        normed::<F, T>(x, norm_weight, strided_rms::<F, T>(x, q.k_in, threads, eps), q.k_in),
        threads,
    );
}

/// The eight-row kernels compute what the reference computes, for four-bit and
/// for eight-bit codes.
pub proof fn law_fast_qgemv_matches_naive<F: ExactNum, T: Store<F>>(
    q: Quant,
    w: Weights<T>,
    row: int,
    x: Seq<T>,
    norm_weight: Seq<T>,
    eps: F,
)
    requires
        q.wf(),
        q.bits == 4 || q.bits == 8,
        q.k_in % 512 == 0,
        q.group_size % 16 == 0,
    ensures
        blocks_product::<F, T>(
            q,
            w,
            row,
            normed::<F, T>(
                x,
                norm_weight,
                strided_rms::<F, T>(x, q.k_in, FAST_THREADS, eps),
                q.k_in,
            ),
        ) == weighted_product::<F, T>(
            q,
            w,
            row,
            normed::<F, T>(x, norm_weight, naive_rms::<F, T>(x, q.k_in, eps), q.k_in),
        ),
{
    lemma_rms::<F, T>(x, q.k_in, FAST_THREADS, eps);
    law_blocks_compute_product::<F, T>(
        q,
        w,
        row,
        normed::<F, T>(
            x,
            norm_weight,
            strided_rms::<F, T>(x, q.k_in, FAST_THREADS, eps),
            q.k_in,
        ),
    );
}

proof fn lemma_rms<F: ExactNum, T: Store<F>>(x: Seq<T>, n: u32, threads: u32, eps: F)
    requires
        0 < threads,
    ensures
        strided_rms::<F, T>(x, n, threads, eps) == naive_rms::<F, T>(x, n, eps),
{
    law_rms_is_mean_square::<F, T>(x, n, threads, eps);
    let mean = range_sum(
        |i: int| x[i].widen_s().mul_s(x[i].widen_s()),
        0,
        n as int,
    ).div_s(F::of_u32_s(n)).add_s(eps);
    F::rsqrt_recip(mean);
}

/// Down projection of eight routed experts, slot by slot and in order.
pub fn naive_down_swiglu<F: Num, T: Store<F>>(
    gates: &Vec<Vec<T>>,
    ups: &Vec<Vec<T>>,
    expert_indices: &[u32],
    slot_weights: &[T],
    weight_packed: &[u32],
    scales: &[T],
    biases: &[T],
    in_dim: u32,
    out_dim: u32,
    group_size: u32,
    n_experts: u32,
) -> (out: Vec<F>)
    requires
        (Quant { bits: 4, k_in: in_dim, m_out: out_dim, group_size, n_experts }).wf(),
        (Quant { bits: 4, k_in: in_dim, m_out: out_dim, group_size, n_experts }).fits(
            (Weights { words: weight_packed@, scales: scales@, biases: biases@ }),
        ),
        group_size % 8 == 0,
        gates@.len() == 8,
        ups@.len() == 8,
        8 <= expert_indices@.len(),
        8 <= slot_weights@.len(),
        forall|s: int| 0 <= s < 8 ==> #[trigger] expert_indices@[s] < n_experts,
        forall|s: int| 0 <= s < 8 ==> in_dim <= (#[trigger] gates@[s])@.len(),
        forall|s: int| 0 <= s < 8 ==> in_dim <= (#[trigger] ups@[s])@.len(),
    ensures
        out@ == Seq::new(
            out_dim as nat,
            |row: int|
                slots_fold::<F, T>(
                    (Quant { bits: 4, k_in: in_dim, m_out: out_dim, group_size, n_experts }),
                    (Weights { words: weight_packed@, scales: scales@, biases: biases@ }),
                    gates@,
                    ups@,
                    expert_indices@,
                    slot_weights@,
                    row,
                    0,
                    1,
                    8,
                ),
        ),
{
    let q = Quant { bits: 4, k_in: in_dim, m_out: out_dim, group_size, n_experts };
    let ghost w = Weights { words: weight_packed@, scales: scales@, biases: biases@ };
    let ghost full = Seq::new(
        out_dim as nat,
        |row: int|
            slots_fold::<F, T>(
                q,
                w,
                gates@,
                ups@,
                expert_indices@,
                slot_weights@,
                row,
                0,
                1,
                8,
            ),
    );
    let mut out: Vec<F> = Vec::new();
    let mut row: u32 = 0;
    while row < out_dim
        invariant
            row <= out_dim,
            q == (Quant { bits: 4, k_in: in_dim, m_out: out_dim, group_size, n_experts }),
            w == (Weights { words: weight_packed@, scales: scales@, biases: biases@ }),
            q.wf(),
            q.fits(w),
            group_size % 8 == 0,
            gates@.len() == 8,
            ups@.len() == 8,
            8 <= expert_indices@.len(),
            8 <= slot_weights@.len(),
            forall|s: int| 0 <= s < 8 ==> #[trigger] expert_indices@[s] < n_experts,
            forall|s: int| 0 <= s < 8 ==> in_dim <= (#[trigger] gates@[s])@.len(),
            forall|s: int| 0 <= s < 8 ==> in_dim <= (#[trigger] ups@[s])@.len(),
            full == Seq::new(
                out_dim as nat,
                |row: int|
                    slots_fold::<F, T>(
                        q,
                        w,
                        gates@,
                        ups@,
                        expert_indices@,
                        slot_weights@,
                        row,
                        0,
                        1,
                        8,
                    ),
            ),
            out@ == full.take(row as int),
        decreases out_dim - row,
    {
        let mut acc = F::zero();
        let mut s: usize = 0;
        while s < 8
            invariant
                s <= 8,
                row < out_dim,
                q == (Quant { bits: 4, k_in: in_dim, m_out: out_dim, group_size, n_experts }),
                w == (Weights { words: weight_packed@, scales: scales@, biases: biases@ }),
                q.wf(),
                q.fits(w),
                group_size % 8 == 0,
                gates@.len() == 8,
                ups@.len() == 8,
                8 <= expert_indices@.len(),
                8 <= slot_weights@.len(),
                forall|s: int| 0 <= s < 8 ==> #[trigger] expert_indices@[s] < n_experts,
                forall|s: int| 0 <= s < 8 ==> in_dim <= (#[trigger] gates@[s])@.len(),
                forall|s: int| 0 <= s < 8 ==> in_dim <= (#[trigger] ups@[s])@.len(),
                acc == slots_fold::<F, T>(
                    q,
                    w,
                    gates@,
                    ups@,
                    expert_indices@,
                    slot_weights@,
                    row as int,
                    0,
                    1,
                    s as nat,
                ),
            decreases 8 - s,
        {
            let expert: u32 = expert_indices[s];
            proof {
                lemma_row(expert as int, n_experts as int, out_dim as int);
                lemma_mul_le(n_experts as int, 0xffff_ffff, out_dim as int, 0xffff_ffff);
            }
            let wrow: u64 = expert as u64 * out_dim as u64 + row as u64;
            let inner = get_gated::<F, T>(&gates[s], &ups[s], in_dim);
            acc = run_thread::<F, T>(
                q,
                weight_packed,
                scales,
                biases,
                wrow,
                &inner,
                Some(slot_weights[s].widen()),
                0,
                1,
                acc,
            );
            s += 1;
        }
        out.push(acc);
        assert(out@ =~= full.take(row + 1));
        row += 1;
    }
    assert(out@ =~= full);
    out
}

/// The threads of the fused chain compute what the reference computes.
pub proof fn law_chain_matches_naive<F: ExactNum, T: Store<F>>(
    q: Quant,
    w: Weights<T>,
    gates: Seq<Vec<T>>,
    ups: Seq<Vec<T>>,
    experts: Seq<u32>,
    slot_weights: Seq<T>,
    row: int,
    threads: u32,
)
    requires
        q.wf(),
        q.bits == 4,
        q.group_size % 8 == 0,
        0 < threads,
    ensures
        F::lane_sum_s(
            Seq::new(
                threads as nat,
                |t: int|
                    slots_fold::<F, T>(
                        q,
                        w,
                        gates,
                        ups,
                        experts,
                        slot_weights,
                        row,
                        t,
                        threads as int,
                        8,
                    ),
            ),
        ) == slots_fold::<F, T>(q, w, gates, ups, experts, slot_weights, row, 0, 1, 8),
{
    law_chain_sums_slots::<F, T>(q, w, gates, ups, experts, slot_weights, row, threads);
    lemma_slots::<F, T>(q, w, gates, ups, experts, slot_weights, row, 1, 8);
    let one = |t: int|
        slots_fold::<F, T>(q, w, gates, ups, experts, slot_weights, row, t, 1, 8);
    reveal_with_fuel(range_sum, 2);
    lemma_zero_add(one(0));
    assert(range_sum(one, 0, 1) == one(0));
}

} // verus!
