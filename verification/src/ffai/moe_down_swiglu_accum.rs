//! Down projection of eight routed experts with the gated activation fused in.
use vstd::prelude::*;

use super::gather::{Quant, Weights};
use super::gemv::{run_thread, thread_fold};
use crate::index::{lemma_mul_le, lemma_row};
use crate::num::{Num, Store};

verus! {

/// Slots of the chain.
pub const SLOTS: usize = 8;

/// The gated activation of one slot: `gate / (1 + exp(0 - gate)) * up`.
pub open spec fn gated<F: Num, T: Store<F>>(gate: Seq<T>, up: Seq<T>, n: u32) -> Seq<F> {
    Seq::new(
        n as nat,
        |d: int|
            {
                let g = gate[d].widen_s();
                g.div_s(F::one_s().add_s(F::zero_s().sub_s(g).exp_s())).mul_s(up[d].widen_s())
            },
    )
}

/// Computes [`gated`].
pub fn get_gated<F: Num, T: Store<F>>(gate: &Vec<T>, up: &Vec<T>, n: u32) -> (r: Vec<F>)
    requires
        n <= gate@.len(),
        n <= up@.len(),
    ensures
        r@ == gated::<F, T>(gate@, up@, n),
{
    let ghost full = gated::<F, T>(gate@, up@, n);
    let mut out: Vec<F> = Vec::new();
    let mut d: u32 = 0;
    while d < n
        invariant
            d <= n,
            n <= gate@.len(),
            n <= up@.len(),
            full == gated::<F, T>(gate@, up@, n),
            out@ == full.take(d as int),
        decreases n - d,
    {
        let g = gate[d as usize].widen();
        let s = g.div(F::one().add(F::zero().sub(g).exp()));
        out.push(s.mul(up[d as usize].widen()));
        assert(out@ =~= full.take(d + 1));
        d += 1;
    }
    assert(out@ =~= full);
    out
}

/// What thread `t` has after the first `n` slots.
pub open spec fn slots_fold<F: Num, T: Store<F>>(
    q: Quant,
    w: Weights<T>,
    gates: Seq<Vec<T>>,
    ups: Seq<Vec<T>>,
    experts: Seq<u32>,
    slot_weights: Seq<T>,
    row: int,
    t: int,
    threads: int,
    n: nat,
) -> F
    decreases n,
{
    if n == 0 {
        F::zero_s()
    } else {
        let s = n - 1;
        thread_fold::<F, T>(
            q,
            w,
            experts[s] * q.m_out + row,
            gated::<F, T>(gates[s]@, ups[s]@, q.k_in),
            Some(slot_weights[s].widen_s()),
            t,
            threads,
            slots_fold::<F, T>(
                q,
                w,
                gates,
                ups,
                experts,
                slot_weights,
                row,
                t,
                threads,
                (n - 1) as nat,
            ),
        )
    }
}

/// For every output row, the sum over eight slots of the slot weight times the
/// expert's weight row times the slot's gated activation.
pub fn ffai_moe_down_swiglu_accum_int4_chain8<F: Num, T: Store<F>>(
    gates: &Vec<Vec<T>>,
    ups: &Vec<Vec<T>>,
    expert_indices: &[u32],
    slot_weights: &[T],
    weights_stacked: &[u32],
    scales_stacked: &[T],
    biases_stacked: &[T],
    output: &mut Vec<T>,
    in_dim: u32,
    out_dim: u32,
    group_size: u32,
    n_experts: u32,
    threads: u32,
)
    requires
        (Quant { bits: 4, k_in: in_dim, m_out: out_dim, group_size, n_experts }).wf(),
        (Quant { bits: 4, k_in: in_dim, m_out: out_dim, group_size, n_experts }).fits(
            (Weights { words: weights_stacked@, scales: scales_stacked@, biases: biases_stacked@ }),
        ),
        group_size % 8 == 0,
        0 < threads,
        gates@.len() == 8,
        ups@.len() == 8,
        8 <= expert_indices@.len(),
        8 <= slot_weights@.len(),
        forall|s: int| 0 <= s < 8 ==> #[trigger] expert_indices@[s] < n_experts,
        forall|s: int| 0 <= s < 8 ==> in_dim <= (#[trigger] gates@[s])@.len(),
        forall|s: int| 0 <= s < 8 ==> in_dim <= (#[trigger] ups@[s])@.len(),
        out_dim <= old(output)@.len(),
    ensures
        final(output)@.len() == old(output)@.len(),
        forall|i: int|
            0 <= i < old(output)@.len() ==> #[trigger] final(output)@[i] == (if i < out_dim {
                T::narrow_s(
                    F::lane_sum_s(
                        Seq::new(
                            threads as nat,
                            |t: int|
                                slots_fold::<F, T>(
                                    (Quant { bits: 4, k_in: in_dim, m_out: out_dim, group_size, n_experts }),
                                    (Weights { words: weights_stacked@, scales: scales_stacked@, biases: biases_stacked@ }),
                                    gates@,
                                    ups@,
                                    expert_indices@,
                                    slot_weights@,
                                    i,
                                    t,
                                    threads as int,
                                    8,
                                ),
                        ),
                    ),
                )
            } else {
                old(output)@[i]
            }),
{
    let q = Quant { bits: 4, k_in: in_dim, m_out: out_dim, group_size, n_experts };
    let ghost w = (Weights { words: weights_stacked@, scales: scales_stacked@, biases: biases_stacked@ });
    let ghost before = output@;
    let mut inner: Vec<Vec<F>> = Vec::new();
    let mut s: usize = 0;
    while s < SLOTS
        invariant
            s <= 8,
            gates@.len() == 8,
            ups@.len() == 8,
            forall|s: int| 0 <= s < 8 ==> in_dim <= (#[trigger] gates@[s])@.len(),
            forall|s: int| 0 <= s < 8 ==> in_dim <= (#[trigger] ups@[s])@.len(),
            inner@.len() == s,
            forall|c: int|
                0 <= c < s ==> (#[trigger] inner@[c])@ == gated::<F, T>(
                    gates@[c]@,
                    ups@[c]@,
                    in_dim,
                ),
        decreases 8 - s,
    {
        inner.push(get_gated::<F, T>(&gates[s], &ups[s], in_dim));
        s += 1;
    }
    let ghost per_row = |i: int|
        Seq::new(
            threads as nat,
            |t: int|
                slots_fold::<F, T>(
                    q,
                    w,
                    gates@,
                    ups@,
                    expert_indices@,
                    slot_weights@,
                    i,
                    t,
                    threads as int,
                    8,
                ),
        );
    let mut row: u32 = 0;
    while row < out_dim
        invariant
            row <= out_dim,
            q == (Quant { bits: 4, k_in: in_dim, m_out: out_dim, group_size, n_experts }),
            w == (Weights { words: weights_stacked@, scales: scales_stacked@, biases: biases_stacked@ }),
            q.wf(),
            q.fits(w),
            group_size % 8 == 0,
            0 < threads,
            8 <= expert_indices@.len(),
            8 <= slot_weights@.len(),
            forall|s: int| 0 <= s < 8 ==> #[trigger] expert_indices@[s] < n_experts,
            inner@.len() == 8,
            forall|c: int|
                0 <= c < 8 ==> (#[trigger] inner@[c])@ == gated::<F, T>(
                    gates@[c]@,
                    ups@[c]@,
                    in_dim,
                ),
            per_row == (|i: int|
                Seq::new(
                    threads as nat,
                    |t: int|
                        slots_fold::<F, T>(
                            q,
                            w,
                            gates@,
                            ups@,
                            expert_indices@,
                            slot_weights@,
                            i,
                            t,
                            threads as int,
                            8,
                        ),
                )),
            out_dim <= before.len(),
            output@.len() == before.len(),
            forall|i: int|
                0 <= i < before.len() ==> #[trigger] output@[i] == (if i < row {
                    T::narrow_s(F::lane_sum_s(per_row(i)))
                } else {
                    before[i]
                }),
        decreases out_dim - row,
    {
        let mut parts: Vec<F> = Vec::new();
        let mut t: u32 = 0;
        while t < threads
            invariant
                t <= threads,
                row < out_dim,
                q == (Quant { bits: 4, k_in: in_dim, m_out: out_dim, group_size, n_experts }),
                w == (Weights { words: weights_stacked@, scales: scales_stacked@, biases: biases_stacked@ }),
                q.wf(),
                q.fits(w),
                group_size % 8 == 0,
                0 < threads,
                8 <= expert_indices@.len(),
                8 <= slot_weights@.len(),
                forall|s: int| 0 <= s < 8 ==> #[trigger] expert_indices@[s] < n_experts,
                inner@.len() == 8,
                forall|c: int|
                    0 <= c < 8 ==> (#[trigger] inner@[c])@ == gated::<F, T>(
                        gates@[c]@,
                        ups@[c]@,
                        in_dim,
                    ),
                parts@.len() == t,
                forall|c: int|
                    0 <= c < t ==> #[trigger] parts@[c] == slots_fold::<F, T>(
                        q,
                        w,
                        gates@,
                        ups@,
                        expert_indices@,
                        slot_weights@,
                        row as int,
                        c,
                        threads as int,
                        8,
                    ),
            decreases threads - t,
        {
            let mut acc = F::zero();
            let mut s: usize = 0;
            while s < SLOTS
                invariant
                    s <= 8,
                    row < out_dim,
                    q == (Quant { bits: 4, k_in: in_dim, m_out: out_dim, group_size, n_experts }),
                    w == (Weights { words: weights_stacked@, scales: scales_stacked@, biases: biases_stacked@ }),
                    q.wf(),
                    q.fits(w),
                    group_size % 8 == 0,
                    0 < threads,
                    8 <= expert_indices@.len(),
                    8 <= slot_weights@.len(),
                    forall|s: int| 0 <= s < 8 ==> #[trigger] expert_indices@[s] < n_experts,
                    inner@.len() == 8,
                    forall|c: int|
                        0 <= c < 8 ==> (#[trigger] inner@[c])@ == gated::<F, T>(
                            gates@[c]@,
                            ups@[c]@,
                            in_dim,
                        ),
                    acc == slots_fold::<F, T>(
                        q,
                        w,
                        gates@,
                        ups@,
                        expert_indices@,
                        slot_weights@,
                        row as int,
                        t as int,
                        threads as int,
                        s as nat,
                    ),
                decreases 8 - s,
            {
                let expert: u32 = expert_indices[s];
                proof {
                    lemma_row(expert as int, n_experts as int, out_dim as int);
                    lemma_mul_le(n_experts as int, 0xffff_ffff, out_dim as int, 0xffff_ffff);
                }
                let wrow: u64 = expert as u64 * out_dim as u64 + row as u64;
                acc = run_thread::<F, T>(
                    q,
                    weights_stacked,
                    scales_stacked,
                    biases_stacked,
                    wrow,
                    &inner[s],
                    Some(slot_weights[s].widen()),
                    t,
                    threads,
                    acc,
                );
                s += 1;
            }
            parts.push(acc);
            t += 1;
        }
        assert(parts@ =~= per_row(row as int));
        output.set(row as usize, T::narrow(F::lane_sum(&parts)));
        row += 1;
    }
}

} // verus!
