//! Single-token attention decode with a learned sink logit per head, head
//! width 512.
use vstd::prelude::*;

use super::attention::Sink;
use super::sdpa_decode::{decode_head, decode_row, decode_walk};
use super::sdpa_rows::cache_fits;
use crate::num::{Num, Store};

verus! {

/// Attention of one new token for every query head. The softmax of head `h`
/// is extended by one slot that scores `sink_logit[h]` and has no value.
pub fn ffai_sdpa_decode_d512_sink<F: Num, T: Store<F>>(
    q: &[T],
    k: &[T],
    v: &[T],
    sink_logit: &[F],
    out: &mut Vec<T>,
    head_dim: u32,
    n_kv: u32,
    kv_stride: u32,
    heads_per_group: u32,
    scale: F,
    n_q_heads: u32,
    n_simd: u32,
)
    requires
        head_dim == 512,
        0 < n_simd <= 32,
        n_kv <= kv_stride,
        n_q_heads <= sink_logit@.len(),
        n_q_heads * head_dim <= q@.len(),
        n_q_heads * head_dim <= old(out)@.len(),
        cache_fits(k@.len(), n_q_heads, heads_per_group, kv_stride, head_dim),
        cache_fits(v@.len(), n_q_heads, heads_per_group, kv_stride, head_dim),
    ensures
        final(out)@.len() == old(out)@.len(),
        forall|i: int|
            0 <= i < old(out)@.len() ==> #[trigger] final(out)@[i] == (if i < n_q_heads * head_dim {
                T::narrow_s(
                    decode_row(
                        q@,
                        k@,
                        v@,
                        decode_walk(head_dim, 16, n_simd, n_kv, 0, 0),
                        1,
                        kv_stride as int,
                        heads_per_group as int,
                        (Sink::Appended { logit: sink_logit@[i / head_dim as int] }),
                        scale,
                        i / head_dim as int,
                    )[i % head_dim as int],
                )
            } else {
                old(out)@[i]
            }),
{
    let ghost before = out@;
    let mut h: u32 = 0;
    while h < n_q_heads
        invariant
            h <= n_q_heads,
            head_dim == 512,
            0 < n_simd <= 32,
            n_kv <= kv_stride,
            n_q_heads <= sink_logit@.len(),
            n_q_heads * head_dim <= q@.len(),
            n_q_heads * head_dim <= before.len(),
            cache_fits(k@.len(), n_q_heads, heads_per_group, kv_stride, head_dim),
            cache_fits(v@.len(), n_q_heads, heads_per_group, kv_stride, head_dim),
            out@.len() == before.len(),
            forall|i: int|
                0 <= i < before.len() ==> #[trigger] out@[i] == (if i < h * head_dim {
                    T::narrow_s(
                        decode_row(
                            q@,
                            k@,
                            v@,
                            decode_walk(head_dim, 16, n_simd, n_kv, 0, 0),
                            1,
                            kv_stride as int,
                            heads_per_group as int,
                            (Sink::Appended { logit: sink_logit@[i / head_dim as int] }),
                            scale,
                            i / head_dim as int,
                        )[i % head_dim as int],
                    )
                } else {
                    before[i]
                }),
        decreases n_q_heads - h,
    {
        decode_head(
            q,
            k,
            v,
            out,
            head_dim,
            16,
            n_simd,
            n_kv,
            kv_stride,
            heads_per_group,
            0,
            0,
            &Sink::Appended { logit: sink_logit[h as usize] },
            scale,
            n_q_heads,
            1,
            h,
        );
        h += 1;
    }
}

} // verus!
