//! Single-token attention decode over a grouped-query cache, head width 128.
use vstd::prelude::*;

use super::attention::{attend, scaled_row, Bias, BiasRef, Sink, Walk};
use super::sdpa_rows::{attend_rows, cache_fits, lemma_slab, slab};
use crate::index::{lemma_index_row, lemma_mul_le, lemma_row, lemma_row_col};
use crate::num::{Num, Store};

verus! {

/// Output row `r` of a decode in which each query head owns `batch`
/// consecutive rows.
pub open spec fn decode_row<F: Num, T: Store<F>>(
    q: Seq<T>,
    k: Seq<T>,
    v: Seq<T>,
    w: Walk,
    batch: int,
    kv_stride: int,
    heads_per_group: int,
    sink: Sink<F>,
    scale: F,
    r: int,
) -> Seq<F> {
    attend(
        w,
        scaled_row::<F, T>(q, r * w.head_dim, w.head_dim as nat, scale),
        k,
        v,
        slab((r / batch) / heads_per_group, kv_stride, w.head_dim as int),
        Bias::Absent,
        sink,
    )
}

/// The walk of a decode kernel.
pub open spec fn decode_walk(
    head_dim: u32,
    per_lane: usize,
    n_simd: u32,
    n_kv: u32,
    sink_end: u32,
    window_start: u32,
) -> Walk {
    Walk {
        head_dim: head_dim as usize,
        per_lane,
        n_simd: n_simd as usize,
        n_kv: n_kv as usize,
        sink_end: sink_end as usize,
        window_start: window_start as usize,
    }
}

/// A cache that holds at least one slab bounds the walk over it.
pub proof fn lemma_walk_bounds(n_kv: int, kv_stride: int, d: int, slabs: int, len: nat)
    requires
        0 <= n_kv <= kv_stride,
        2 <= d,
        1 <= slabs,
        slabs * kv_stride * d <= len <= usize::MAX,
    ensures
        n_kv + 64 <= usize::MAX,
{
    lemma_mul_le(1, slabs, n_kv, kv_stride);
    lemma_mul_le(1 * n_kv, slabs * kv_stride, 2, d);
}

/// Attends the `batch` rows of query head `h`.
pub fn decode_head<F: Num, T: Store<F>>(
    q: &[T],
    k: &[T],
    v: &[T],
    out: &mut Vec<T>,
    head_dim: u32,
    per_lane: usize,
    n_simd: u32,
    n_kv: u32,
    kv_stride: u32,
    heads_per_group: u32,
    sink_end: u32,
    window_start: u32,
    sink: &Sink<F>,
    scale: F,
    n_q_heads: u32,
    batch: u32,
    h: u32,
)
    requires
        h < n_q_heads,
        0 < batch,
        0 < n_simd <= 32,
        0 < per_lane <= 16,
        2 <= head_dim <= 32 * per_lane,
        sink_end <= n_kv <= kv_stride,
        window_start <= n_kv,
        n_q_heads * batch * head_dim <= q@.len(),
        n_q_heads * batch * head_dim <= old(out)@.len(),
        cache_fits(k@.len(), n_q_heads, heads_per_group, kv_stride, head_dim),
        cache_fits(v@.len(), n_q_heads, heads_per_group, kv_stride, head_dim),
    ensures
        final(out)@.len() == old(out)@.len(),
        forall|i: int|
            0 <= i < old(out)@.len() ==> #[trigger] final(out)@[i] == (if h * batch * head_dim <= i
                < (h + 1) * batch * head_dim {
                T::narrow_s(
                    decode_row(
                        q@,
                        k@,
                        v@,
                        decode_walk(head_dim, per_lane, n_simd, n_kv, sink_end, window_start),
                        batch as int,
                        kv_stride as int,
                        heads_per_group as int,
                        *sink,
                        scale,
                        i / head_dim as int,
                    )[i % head_dim as int],
                )
            } else {
                old(out)@[i]
            }),
{
    let k_len: usize = k.len();
    let out_len: usize = out.len();
    proof {
        lemma_slab(h as int, k@.len(), n_q_heads, heads_per_group, kv_stride, head_dim);
        lemma_slab(h as int, v@.len(), n_q_heads, heads_per_group, kv_stride, head_dim);
        lemma_walk_bounds(
            n_kv as int,
            kv_stride as int,
            head_dim as int,
            h as int / heads_per_group as int + 1,
            k@.len(),
        );
        lemma_row(h as int, n_q_heads as int, batch as int);
        lemma_mul_le((h + 1) * batch, n_q_heads * batch, head_dim as int, head_dim as int);
        lemma_mul_le(h * batch, (h + 1) * batch, 1, head_dim as int);
    }
    let w = Walk {
        head_dim: head_dim as usize,
        per_lane,
        n_simd: n_simd as usize,
        n_kv: n_kv as usize,
        sink_end: sink_end as usize,
        window_start: window_start as usize,
    };
    let first: usize = h as usize * batch as usize;
    let ghost before = out@;
    attend_rows(
        q,
        k,
        v,
        out,
        w,
        first,
        batch as usize,
        (h / heads_per_group) as usize,
        kv_stride as usize,
        BiasRef::Absent,
        sink,
        scale,
    );
    proof {
        let d = head_dim as int;
        assert((h + 1) * batch * head_dim == (first + batch) * d) by (nonlinear_arith)
            requires
                first == h * batch,
                d == head_dim,
        ;
        assert forall|i: int|
            h * batch * head_dim <= i < (h + 1) * batch * head_dim implies #[trigger] out@[i]
            == T::narrow_s(
            decode_row(
                q@,
                k@,
                v@,
                decode_walk(head_dim, per_lane, n_simd, n_kv, sink_end, window_start),
                batch as int,
                kv_stride as int,
                heads_per_group as int,
                *sink,
                scale,
                i / head_dim as int,
            )[i % head_dim as int],
        ) by {
            lemma_slot(i, h as int, batch as int, d);
        }
    }
}

/// The head that owns an element of its batch of rows.
pub proof fn lemma_slot(i: int, h: int, batch: int, d: int)
    requires
        0 <= h,
        0 < batch,
        0 < d,
        h * batch * d <= i < (h + 1) * batch * d,
    ensures
        (i / d) / batch == h,
{
    let hb = h * batch;
    assert((h + 1) * batch * d == hb * d + batch * d) by (nonlinear_arith)
        requires
            hb == h * batch,
    ;
    let off = i - hb * d;
    lemma_index_row(off, batch, d);
    let b = off / d;
    assert(i == (hb + b) * d + off % d) by (nonlinear_arith)
        requires
            off == b * d + off % d,
            off == i - hb * d,
    ;
    lemma_row_col(hb + b, off % d, d);
    lemma_row_col(h, b, batch);
}

/// Runs [`decode_head`] for every query head.
pub fn decode_heads<F: Num, T: Store<F>>(
    q: &[T],
    k: &[T],
    v: &[T],
    out: &mut Vec<T>,
    head_dim: u32,
    per_lane: usize,
    n_simd: u32,
    n_kv: u32,
    kv_stride: u32,
    heads_per_group: u32,
    sink_end: u32,
    window_start: u32,
    sink: &Sink<F>,
    scale: F,
    n_q_heads: u32,
    batch: u32,
)
    requires
        0 < batch,
        0 < n_simd <= 32,
        0 < per_lane <= 16,
        2 <= head_dim <= 32 * per_lane,
        sink_end <= n_kv <= kv_stride,
        window_start <= n_kv,
        n_q_heads * batch * head_dim <= q@.len(),
        n_q_heads * batch * head_dim <= old(out)@.len(),
        cache_fits(k@.len(), n_q_heads, heads_per_group, kv_stride, head_dim),
        cache_fits(v@.len(), n_q_heads, heads_per_group, kv_stride, head_dim),
    ensures
        final(out)@.len() == old(out)@.len(),
        forall|i: int|
            0 <= i < old(out)@.len() ==> #[trigger] final(out)@[i] == (if i < n_q_heads * batch
                * head_dim {
                T::narrow_s(
                    decode_row(
                        q@,
                        k@,
                        v@,
                        decode_walk(head_dim, per_lane, n_simd, n_kv, sink_end, window_start),
                        batch as int,
                        kv_stride as int,
                        heads_per_group as int,
                        *sink,
                        scale,
                        i / head_dim as int,
                    )[i % head_dim as int],
                )
            } else {
                old(out)@[i]
            }),
{
    let ghost before = out@;
    let mut h: u32 = 0;
    while h < n_q_heads
        invariant
            h <= n_q_heads,
            0 < batch,
            0 < n_simd <= 32,
            0 < per_lane <= 16,
            2 <= head_dim <= 32 * per_lane,
            sink_end <= n_kv <= kv_stride,
            window_start <= n_kv,
            n_q_heads * batch * head_dim <= q@.len(),
            n_q_heads * batch * head_dim <= before.len(),
            cache_fits(k@.len(), n_q_heads, heads_per_group, kv_stride, head_dim),
            cache_fits(v@.len(), n_q_heads, heads_per_group, kv_stride, head_dim),
            out@.len() == before.len(),
            forall|i: int|
                0 <= i < before.len() ==> #[trigger] out@[i] == (if i < h * batch * head_dim {
                    T::narrow_s(
                        decode_row(
                            q@,
                            k@,
                            v@,
                            decode_walk(head_dim, per_lane, n_simd, n_kv, sink_end, window_start),
                            batch as int,
                            kv_stride as int,
                            heads_per_group as int,
                            *sink,
                            scale,
                            i / head_dim as int,
                        )[i % head_dim as int],
                    )
                } else {
                    before[i]
                }),
        decreases n_q_heads - h,
    {
        decode_head(
            q,
            k,
            v,
            out,
            head_dim,
            per_lane,
            n_simd,
            n_kv,
            kv_stride,
            heads_per_group,
            sink_end,
            window_start,
            sink,
            scale,
            n_q_heads,
            batch,
            h,
        );
        proof {
            lemma_mul_le(h as int, h as int + 1, batch as int, batch as int);
            lemma_mul_le(h * batch, (h + 1) * batch, head_dim as int, head_dim as int);
        }
        h += 1;
    }
}

/// Attention of one new token for every query head.
///
/// The sink-token range `[0, sink_end)` and the window `[window_start, n_kv)`
/// are attended; with both bounds zero that is the whole cache. With
/// `has_sink` set, `sink_logit` joins the softmax denominator as a key whose
/// value is zero.
pub fn ffai_sdpa_decode<F: Num, T: Store<F>>(
    q: &[T],
    k: &[T],
    v: &[T],
    out: &mut Vec<T>,
    head_dim: u32,
    n_kv: u32,
    kv_stride: u32,
    heads_per_group: u32,
    sink_end: u32,
    window_start: u32,
    has_sink: u32,
    sink_logit: F,
    scale: F,
    n_q_heads: u32,
    n_simd: u32,
)
    requires
        head_dim == 128,
        0 < n_simd <= 32,
        sink_end <= window_start <= n_kv <= kv_stride,
        n_q_heads * head_dim <= q@.len(),
        n_q_heads * head_dim <= old(out)@.len(),
        cache_fits(k@.len(), n_q_heads, heads_per_group, kv_stride, head_dim),
        cache_fits(v@.len(), n_q_heads, heads_per_group, kv_stride, head_dim),
    ensures
        final(out)@.len() == old(out)@.len(),
        forall|i: int|
            0 <= i < old(out)@.len() ==> #[trigger] final(out)@[i] == (if i < n_q_heads * head_dim {
                T::narrow_s(
                    decode_row(
                        q@,
                        k@,
                        v@,
                        decode_walk(head_dim, 4, n_simd, n_kv, sink_end, window_start),
                        1,
                        kv_stride as int,
                        heads_per_group as int,
                        (Sink::Joined { present: has_sink > 0, logit: sink_logit }),
                        scale,
                        i / head_dim as int,
                    )[i % head_dim as int],
                )
            } else {
                old(out)@[i]
            }),
{
    decode_heads(
        q,
        k,
        v,
        out,
        head_dim,
        4,
        n_simd,
        n_kv,
        kv_stride,
        heads_per_group,
        sink_end,
        window_start,
        &Sink::Joined { present: has_sink > 0, logit: sink_logit },
        scale,
        n_q_heads,
        1,
    );
}

} // verus!
