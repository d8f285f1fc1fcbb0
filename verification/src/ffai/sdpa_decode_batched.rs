//! Attention decode of several query positions per head against one walk of
//! the cache, head width 128. Queries and outputs are laid out
//! `[n_q_heads, batch, head_dim]`.
use vstd::prelude::*;

use super::attention::Sink;
use super::sdpa_decode::{decode_heads, decode_row, decode_walk};
use super::sdpa_rows::cache_fits;
use crate::num::{Num, Store};

verus! {

/// Two query positions per head share each visit of a cache row.
pub fn sdpa_decode_batched_q2<F: Num, T: Store<F>>(
    q: &[T],
    k: &[T],
    v: &[T],
    out: &mut Vec<T>,
    head_dim: u32,
    n_kv: u32,
    kv_stride: u32,
    heads_per_group: u32,
    scale: F,
    n_q_heads: u32,
    n_simd: u32,
)
    requires
        head_dim == 128,
        0 < n_simd <= 32,
        n_kv <= kv_stride,
        n_q_heads * 2 * head_dim <= q@.len(),
        n_q_heads * 2 * head_dim <= old(out)@.len(),
        cache_fits(k@.len(), n_q_heads, heads_per_group, kv_stride, head_dim),
        cache_fits(v@.len(), n_q_heads, heads_per_group, kv_stride, head_dim),
    ensures
        final(out)@.len() == old(out)@.len(),
        forall|i: int|
            0 <= i < old(out)@.len() ==> #[trigger] final(out)@[i] == (if i < n_q_heads * 2 * head_dim {
                T::narrow_s(
                    decode_row(
                        q@,
                        k@,
                        v@,
                        decode_walk(head_dim, 4, n_simd, n_kv, 0, 0),
                        2,
                        kv_stride as int,
                        heads_per_group as int,
                        Sink::Absent,
                        scale,
                        i / head_dim as int,
                    )[i % head_dim as int],
                )
            } else {
                old(out)@[i]
            }),
{
    decode_heads(
        q,
        k,
        v,
        out,
        head_dim,
        4,
        n_simd,
        n_kv,
        kv_stride,
        heads_per_group,
        0,
        0,
        &Sink::Absent,
        scale,
        n_q_heads,
        2,
    );
}

/// Four query positions per head share each visit of a cache row. The registers
/// of four streams leave room for 24 simdgroups in a group.
pub fn sdpa_decode_batched_q4<F: Num, T: Store<F>>(
    q: &[T],
    k: &[T],
    v: &[T],
    out: &mut Vec<T>,
    head_dim: u32,
    n_kv: u32,
    kv_stride: u32,
    heads_per_group: u32,
    scale: F,
    n_q_heads: u32,
    n_simd: u32,
)
    requires
        head_dim == 128,
        0 < n_simd <= 24,
        n_kv <= kv_stride,
        n_q_heads * 4 * head_dim <= q@.len(),
        n_q_heads * 4 * head_dim <= old(out)@.len(),
        cache_fits(k@.len(), n_q_heads, heads_per_group, kv_stride, head_dim),
        cache_fits(v@.len(), n_q_heads, heads_per_group, kv_stride, head_dim),
    ensures
        final(out)@.len() == old(out)@.len(),
        forall|i: int|
            0 <= i < old(out)@.len() ==> #[trigger] final(out)@[i] == (if i < n_q_heads * 4 * head_dim {
                T::narrow_s(
                    decode_row(
                        q@,
                        k@,
                        v@,
                        decode_walk(head_dim, 4, n_simd, n_kv, 0, 0),
                        4,
                        kv_stride as int,
                        heads_per_group as int,
                        Sink::Absent,
                        scale,
                        i / head_dim as int,
                    )[i % head_dim as int],
                )
            } else {
                old(out)@[i]
            }),
{
    decode_heads(
        q,
        k,
        v,
        out,
        head_dim,
        4,
        n_simd,
        n_kv,
        kv_stride,
        heads_per_group,
        0,
        0,
        &Sink::Absent,
        scale,
        n_q_heads,
        4,
    );
}

/// Eight query positions per head share each visit of a cache row. The registers
/// of eight streams leave room for 16 simdgroups in a group.
pub fn sdpa_decode_batched_q8<F: Num, T: Store<F>>(
    q: &[T],
    k: &[T],
    v: &[T],
    out: &mut Vec<T>,
    head_dim: u32,
    n_kv: u32,
    kv_stride: u32,
    heads_per_group: u32,
    scale: F,
    n_q_heads: u32,
    n_simd: u32,
)
    requires
        head_dim == 128,
        0 < n_simd <= 16,
        n_kv <= kv_stride,
        n_q_heads * 8 * head_dim <= q@.len(),
        n_q_heads * 8 * head_dim <= old(out)@.len(),
        cache_fits(k@.len(), n_q_heads, heads_per_group, kv_stride, head_dim),
        cache_fits(v@.len(), n_q_heads, heads_per_group, kv_stride, head_dim),
    ensures
        final(out)@.len() == old(out)@.len(),
        forall|i: int|
            0 <= i < old(out)@.len() ==> #[trigger] final(out)@[i] == (if i < n_q_heads * 8 * head_dim {
                T::narrow_s(
                    decode_row(
                        q@,
                        k@,
                        v@,
                        decode_walk(head_dim, 4, n_simd, n_kv, 0, 0),
                        8,
                        kv_stride as int,
                        heads_per_group as int,
                        Sink::Absent,
                        scale,
                        i / head_dim as int,
                    )[i % head_dim as int],
                )
            } else {
                old(out)@[i]
            }),
{
    decode_heads(
        q,
        k,
        v,
        out,
        head_dim,
        4,
        n_simd,
        n_kv,
        kv_stride,
        heads_per_group,
        0,
        0,
        &Sink::Absent,
        scale,
        n_q_heads,
        8,
    );
}

} // verus!
