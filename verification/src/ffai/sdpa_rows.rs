//! Attention of consecutive query rows against one key/value head, and the
//! cache geometry that the attention kernels share.
use vstd::prelude::*;

use super::attention::{
    attend, attend_streams, load_scaled, scaled_row, store_row, BiasRef, Sink, Walk,
};
use crate::index::{lemma_index_row, lemma_mul_le, lemma_row, lemma_row_col};
use crate::num::{Num, Store};

verus! {

/// A cache of `n_q_heads / heads_per_group` slabs, each `kv_stride` rows of
/// width `d`, fits a buffer of `len` elements.
pub open spec fn cache_fits(
    len: nat,
    n_q_heads: u32,
    heads_per_group: u32,
    kv_stride: u32,
    d: u32,
) -> bool {
    &&& heads_per_group > 0
    &&& n_q_heads % heads_per_group == 0
    &&& (n_q_heads / heads_per_group) * kv_stride * d <= len
}

/// First element of the slab of a key/value head.
pub open spec fn slab(kv_head: int, kv_stride: int, d: int) -> int {
    kv_head * kv_stride * d
}

/// The slab of every query head's key/value head lies inside the cache.
pub proof fn lemma_slab(
    h: int,
    len: nat,
    n_q_heads: u32,
    heads_per_group: u32,
    kv_stride: u32,
    d: u32,
)
    requires
        0 <= h < n_q_heads,
        cache_fits(len, n_q_heads, heads_per_group, kv_stride, d),
    ensures
        0 <= h / heads_per_group as int,
        (h / heads_per_group as int + 1) * kv_stride * d <= len,
        0 <= (h / heads_per_group as int) * kv_stride,
{
    let hpg = heads_per_group as int;
    let m = n_q_heads as int / hpg;
    vstd::arithmetic::div_mod::lemma_fundamental_div_mod(n_q_heads as int, hpg);
    assert(n_q_heads == m * hpg) by (nonlinear_arith)
        requires
            n_q_heads as int == hpg * m + 0,
    ;
    lemma_index_row(h, m, hpg);
    let g = h / hpg;
    lemma_mul_le(g + 1, m, kv_stride as int, kv_stride as int);
    lemma_mul_le((g + 1) * kv_stride, m * kv_stride, d as int, d as int);
    lemma_mul_le(0, g, 0, kv_stride as int);
}

/// Attends rows `first_row .. first_row + batch` of `q` against the slab of
/// `kv_head`, walking the slab once, and stores the output rows at the same
/// places of `out`.
pub fn attend_rows<F: Num, T: Store<F>>(
    q: &[T],
    k: &[T],
    v: &[T],
    out: &mut Vec<T>,
    w: Walk,
    first_row: usize,
    batch: usize,
    kv_head: usize,
    kv_stride: usize,
    bias: BiasRef<F>,
    sink: &Sink<F>,
    scale: F,
)
    requires
        w.wf(),
        w.n_simd <= 32,
        w.n_kv <= kv_stride,
        (first_row + batch) * w.head_dim <= q@.len(),
        (first_row + batch) * w.head_dim <= old(out)@.len(),
        (kv_head + 1) * kv_stride * w.head_dim <= k@.len(),
        (kv_head + 1) * kv_stride * w.head_dim <= v@.len(),
        bias@.covers(w.n_kv as int),
    ensures
        final(out)@.len() == old(out)@.len(),
        forall|i: int|
            0 <= i < old(out)@.len() ==> #[trigger] final(out)@[i] == (if first_row * w.head_dim
                <= i < (first_row + batch) * w.head_dim {
                T::narrow_s(
                    attend(
                        w,
                        scaled_row::<F, T>(
                            q@,
                            (i / w.head_dim as int) * w.head_dim,
                            w.head_dim as nat,
                            scale,
                        ),
                        k@,
                        v@,
                        slab(kv_head as int, kv_stride as int, w.head_dim as int),
                        bias@,
                        *sink,
                    )[i % w.head_dim as int],
                )
            } else {
                old(out)@[i]
            }),
{
    let d: usize = w.head_dim;
    let q_len: usize = q.len();
    let k_len: usize = k.len();
    let out_len: usize = out.len();
    proof {
        lemma_mul_le(kv_head as int, kv_head as int + 1, kv_stride as int, kv_stride as int);
        lemma_mul_le(
            kv_head * kv_stride,
            (kv_head + 1) * kv_stride,
            d as int,
            d as int,
        );
        lemma_mul_le(w.n_kv as int, kv_stride as int, d as int, d as int);
        assert((kv_head + 1) * kv_stride * d == kv_head * kv_stride * d + kv_stride * d)
            by (nonlinear_arith);
        lemma_mul_le(kv_head * kv_stride, kv_head * kv_stride, 1, d as int);
    }
    let base: usize = kv_head * kv_stride * d;
    let mut qs: Vec<Vec<F>> = Vec::new();
    let mut b: usize = 0;
    while b < batch
        invariant
            b <= batch,
            d == w.head_dim,
            0 < d,
            (first_row + batch) * d <= q@.len() == q_len,
            qs@.len() == b,
            forall|c: int|
                0 <= c < b ==> (#[trigger] qs@[c])@ == scaled_row::<F, T>(
                    q@,
                    (first_row + c) * d,
                    d as nat,
                    scale,
                ),
        decreases batch - b,
    {
        proof {
            lemma_row(first_row + b, first_row + batch, d as int);
            lemma_mul_le(first_row + b, first_row + b, 1, d as int);
        }
        qs.push(load_scaled::<F, T>(q, (first_row + b) * d, d, scale));
        b += 1;
    }
    let rows = attend_streams(w, &qs, k, v, base, bias, sink);
    let ghost before = out@;
    let ghost row_spec = |r: int|
        attend(
            w,
            scaled_row::<F, T>(q@, r * d, d as nat, scale),
            k@,
            v@,
            base as int,
            bias@,
            *sink,
        );
    let mut c: usize = 0;
    while c < batch
        invariant
            c <= batch,
            d == w.head_dim,
            0 < d,
            (first_row + batch) * d <= before.len() == out_len,
            out@.len() == before.len(),
            rows@.len() == batch,
            forall|c: int|
                0 <= c < batch ==> (#[trigger] rows@[c])@ == row_spec(first_row + c)
                    && rows@[c]@.len() == d,
            forall|i: int|
                0 <= i < before.len() ==> #[trigger] out@[i] == (if first_row * d <= i < (first_row
                    + c) * d {
                    T::narrow_s(row_spec(i / d as int)[i % d as int])
                } else {
                    before[i]
                }),
        decreases batch - c,
    {
        let ghost r = first_row + c;
        proof {
            lemma_row(r, first_row + batch, d as int);
            lemma_mul_le(r, r, 1, d as int);
            lemma_mul_le(first_row as int, r, d as int, d as int);
        }
        let ghost mid = out@;
        store_row::<F, T>(out, (first_row + c) * d, &rows[c]);
        assert forall|i: int| 0 <= i < before.len() implies #[trigger] out@[i] == (if first_row * d
            <= i < (r + 1) * d {
            T::narrow_s(row_spec(i / d as int)[i % d as int])
        } else {
            before[i]
        }) by {
            if r * d <= i < r * d + d {
                lemma_row_col(r, i - r * d, d as int);
                assert(rows@[c as int]@ == row_spec(r));
            }
            let kept = mid[i];
        }
        c += 1;
    }
}

} // verus!
