//! Expert matmul on a cooperative tile of eight by thirty-two.
use vstd::prelude::*;

use super::gather::{Quant, Weights};
use super::mma::{coop_tiling, routed, tiled_gather, Tiling, NO_EXPERT};
use crate::num::{Num, Store};

verus! {

/// Expert matmul over eight-bit codes, eight rows per tile.
pub fn mt_moe_gather_qmm_mma_int8_bm8_mpp<F: Num, T: Store<F>>(
    x: &[T],
    w: &[u32],
    scales: &[T],
    biases: &[T],
    indices: &[u32],
    out: &mut Vec<T>,
    m_total: u32,
    n_out: u32,
    k_in: u32,
    group_size: u32,
    n_experts: u32,
)
    requires
        (Quant { bits: 8, k_in, m_out: n_out, group_size, n_experts }).wf(),
        (Quant { bits: 8, k_in, m_out: n_out, group_size, n_experts }).fits(
            (Weights { words: w@, scales: scales@, biases: biases@ }),
        ),
        k_in % 16 == 0,
        n_out % 32 == 0,
        m_total <= indices@.len(),
        forall|r: int|
            0 <= r < m_total ==> #[trigger] indices@[r] == NO_EXPERT || indices@[r] < n_experts,
        m_total * k_in <= x@.len(),
        m_total * n_out <= old(out)@.len(),
    ensures
        final(out)@.len() == old(out)@.len(),
        forall|i: int|
            0 <= i < old(out)@.len() ==> #[trigger] final(out)@[i] == (if i < m_total * n_out {
                routed::<F, T>(
                    coop_tiling(8, 32, 16, 4),
                    (Quant { bits: 8, k_in, m_out: n_out, group_size, n_experts }),
                    (Weights { words: w@, scales: scales@, biases: biases@ }),
                    x@,
                    indices@,
                    old(out)@,
                    i,
                )
            } else {
                old(out)@[i]
            }),
{
    tiled_gather(
        Tiling {
            bm: 8,
            bn: 32,
            bk: 16,
            slice: 16,
            unit: 4,
            masked: false,
            signed: false,
            multiplied: false,
            staged: true,
        },
        Quant { bits: 8, k_in, m_out: n_out, group_size, n_experts },
        x,
        w,
        scales,
        biases,
        indices,
        out,
        m_total,
    );
}

} // verus!
