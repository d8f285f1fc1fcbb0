//! Bidirectional attention of a block of query rows, for head widths 64, 32
//! and 72.
use vstd::prelude::*;

use super::attention::Bias;
use super::sdpa_decode::decode_walk;
use super::sdpa_multi::{attend_block, block_row, BlockBias};
use super::sdpa_rows::cache_fits;
use crate::num::{Num, Store};

verus! {

/// Every query row attends all positions; each lane owns two elements.
pub fn ffai_sdpa_bidirectional_d64<F: Num, T: Store<F>>(
    q: &[T],
    k: &[T],
    v: &[T],
    out: &mut Vec<T>,
    head_dim: u32,
    n_q_heads: u32,
    base_kv: u32,
    n_query: u32,
    kv_stride: u32,
    heads_per_group: u32,
    scale: F,
    n_simd: u32,
)
    requires
        head_dim == 64,
        0 < n_simd <= 32,
        base_kv + n_query <= kv_stride,
        n_q_heads * n_query * head_dim <= q@.len(),
        n_q_heads * n_query * head_dim <= old(out)@.len(),
        cache_fits(k@.len(), n_q_heads, heads_per_group, kv_stride, head_dim),
        cache_fits(v@.len(), n_q_heads, heads_per_group, kv_stride, head_dim),
    ensures
        final(out)@.len() == old(out)@.len(),
        forall|i: int|
            0 <= i < old(out)@.len() ==> #[trigger] final(out)@[i] == (if i < n_q_heads * n_query
                * head_dim {
                T::narrow_s(
                    block_row(
                        q@,
                        k@,
                        v@,
                        decode_walk(head_dim, 2, n_simd, (base_kv + n_query) as u32, 0, 0),
                        n_q_heads as int,
                        kv_stride as int,
                        heads_per_group as int,
                        Bias::Absent,
                        scale,
                        i / head_dim as int,
                    )[i % head_dim as int],
                )
            } else {
                old(out)@[i]
            }),
{
    attend_block(
        q,
        k,
        v,
        out,
        head_dim,
        2,
        n_simd,
        n_q_heads,
        base_kv,
        n_query,
        kv_stride,
        heads_per_group,
        0,
        &BlockBias::Absent,
        scale,
    );
}

/// Every query row attends all positions; each lane owns one element.
pub fn ffai_sdpa_bidirectional_d32<F: Num, T: Store<F>>(
    q: &[T],
    k: &[T],
    v: &[T],
    out: &mut Vec<T>,
    head_dim: u32,
    n_q_heads: u32,
    base_kv: u32,
    n_query: u32,
    kv_stride: u32,
    heads_per_group: u32,
    scale: F,
    n_simd: u32,
)
    requires
        head_dim == 32,
        0 < n_simd <= 32,
        base_kv + n_query <= kv_stride,
        n_q_heads * n_query * head_dim <= q@.len(),
        n_q_heads * n_query * head_dim <= old(out)@.len(),
        cache_fits(k@.len(), n_q_heads, heads_per_group, kv_stride, head_dim),
        cache_fits(v@.len(), n_q_heads, heads_per_group, kv_stride, head_dim),
    ensures
        final(out)@.len() == old(out)@.len(),
        forall|i: int|
            0 <= i < old(out)@.len() ==> #[trigger] final(out)@[i] == (if i < n_q_heads * n_query
                * head_dim {
                T::narrow_s(
                    block_row(
                        q@,
                        k@,
                        v@,
                        decode_walk(head_dim, 1, n_simd, (base_kv + n_query) as u32, 0, 0),
                        n_q_heads as int,
                        kv_stride as int,
                        heads_per_group as int,
                        Bias::Absent,
                        scale,
                        i / head_dim as int,
                    )[i % head_dim as int],
                )
            } else {
                old(out)@[i]
            }),
{
    attend_block(
        q,
        k,
        v,
        out,
        head_dim,
        1,
        n_simd,
        n_q_heads,
        base_kv,
        n_query,
        kv_stride,
        heads_per_group,
        0,
        &BlockBias::Absent,
        scale,
    );
}

/// Every query row attends all positions; each lane owns three elements, and
/// elements past the row count as zero.
pub fn ffai_sdpa_bidirectional_d72<F: Num, T: Store<F>>(
    q: &[T],
    k: &[T],
    v: &[T],
    out: &mut Vec<T>,
    head_dim: u32,
    n_q_heads: u32,
    base_kv: u32,
    n_query: u32,
    kv_stride: u32,
    heads_per_group: u32,
    scale: F,
    n_simd: u32,
)
    requires
        head_dim == 72,
        0 < n_simd <= 32,
        base_kv + n_query <= kv_stride,
        n_q_heads * n_query * head_dim <= q@.len(),
        n_q_heads * n_query * head_dim <= old(out)@.len(),
        cache_fits(k@.len(), n_q_heads, heads_per_group, kv_stride, head_dim),
        cache_fits(v@.len(), n_q_heads, heads_per_group, kv_stride, head_dim),
    ensures
        final(out)@.len() == old(out)@.len(),
        forall|i: int|
            0 <= i < old(out)@.len() ==> #[trigger] final(out)@[i] == (if i < n_q_heads * n_query
                * head_dim {
                T::narrow_s(
                    block_row(
                        q@,
                        k@,
                        v@,
                        decode_walk(head_dim, 3, n_simd, (base_kv + n_query) as u32, 0, 0),
                        n_q_heads as int,
                        kv_stride as int,
                        heads_per_group as int,
                        Bias::Absent,
                        scale,
                        i / head_dim as int,
                    )[i % head_dim as int],
                )
            } else {
                old(out)@[i]
            }),
{
    attend_block(
        q,
        k,
        v,
        out,
        head_dim,
        3,
        n_simd,
        n_q_heads,
        base_kv,
        n_query,
        kv_stride,
        heads_per_group,
        0,
        &BlockBias::Absent,
        scale,
    );
}

} // verus!
