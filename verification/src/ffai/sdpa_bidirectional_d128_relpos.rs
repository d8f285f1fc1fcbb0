//! Bidirectional attention with a learned bias per relative position, head
//! width 128.
use vstd::prelude::*;

use super::attention::Bias;
use super::sdpa_decode::decode_walk;
use super::sdpa_multi::{attend_block, block_row, BlockBias};
use super::sdpa_rows::cache_fits;
use crate::index::lemma_row;
use crate::num::{Num, Store};

verus! {

/// Index into a relative-position vector of key `t` for the query at absolute
/// position `q_abs`, clamped into the vector.
pub open spec fn relative_index(t: int, rel_zero: int, q_abs: int, rel_len: int) -> int {
    let rel = if t + rel_zero >= q_abs {
        t + rel_zero - q_abs
    } else {
        0
    };
    if rel < rel_len {
        rel
    } else {
        rel_len - 1
    }
}

/// What is added to the scores of `query` under `head`.
pub open spec fn relative_bias<F: Num>(
    bias: Seq<F>,
    base_kv: u32,
    n_query: u32,
    rel_zero: u32,
    rel_len: u32,
    query: int,
    head: int,
) -> Seq<F> {
    Seq::new(
        (base_kv + n_query) as nat,
        |t: int|
            bias[head * rel_len + relative_index(
                t,
                rel_zero as int,
                base_kv + query,
                rel_len as int,
            )],
    )
}

/// Loads the bias of every key for one query and head.
pub(crate) fn load_relative_bias<F: Num>(
    bias: &[F],
    base_kv: u32,
    n_query: u32,
    rel_zero: u32,
    rel_len: u32,
    n_q_heads: u32,
    query: usize,
    head: usize,
) -> (r: Vec<F>)
    requires
        query < n_query,
        head < n_q_heads,
        0 < rel_len,
        base_kv + n_query <= u32::MAX,
        n_q_heads * rel_len <= bias@.len(),
    ensures
        r@ == relative_bias(
            bias@,
            base_kv,
            n_query,
            rel_zero,
            rel_len,
            query as int,
            head as int,
        ),
{
    let bias_len: usize = bias.len();
    let ghost full = relative_bias(
        bias@,
        base_kv,
        n_query,
        rel_zero,
        rel_len,
        query as int,
        head as int,
    );
    proof {
        lemma_row(head as int, n_q_heads as int, rel_len as int);
    }
    let row: usize = head * rel_len as usize;
    let n_kv: u32 = base_kv + n_query;
    let q_abs: u64 = base_kv as u64 + query as u64;
    let mut out: Vec<F> = Vec::new();
    let mut t: u32 = 0;
    while t < n_kv
        invariant
            t <= n_kv,
            n_kv == base_kv + n_query,
            q_abs == base_kv + query,
            0 < rel_len,
            row == head * rel_len,
            row + rel_len <= bias@.len() == bias_len,
            full == relative_bias(
                bias@,
                base_kv,
                n_query,
                rel_zero,
                rel_len,
                query as int,
                head as int,
            ),
            out@ == full.take(t as int),
        decreases n_kv - t,
    {
        let num: u64 = t as u64 + rel_zero as u64;
        let rel: u64 = if num >= q_abs {
            num - q_abs
        } else {
            0
        };
        let clamped: u64 = if rel < rel_len as u64 {
            rel
        } else {
            rel_len as u64 - 1
        };
        out.push(bias[row + clamped as usize]);
        assert(out@ =~= full.take(t + 1));
        t += 1;
    }
    assert(out@ =~= full);
    out
}

/// Every query row attends all positions; the score of key `j` for the query
/// at absolute position `p` gains `bias[head, j + rel_zero - p]`.
pub fn ffai_sdpa_bidirectional_d128_relpos<F: Num, T: Store<F>>(
    q: &[T],
    k: &[T],
    v: &[T],
    bias: &[F],
    out: &mut Vec<T>,
    head_dim: u32,
    n_q_heads: u32,
    base_kv: u32,
    n_query: u32,
    kv_stride: u32,
    heads_per_group: u32,
    rel_zero: u32,
    rel_len: u32,
    scale: F,
    n_simd: u32,
)
    requires
        head_dim == 128,
        0 < n_simd <= 32,
        base_kv + n_query <= kv_stride,
        n_q_heads * n_query * head_dim <= q@.len(),
        n_q_heads * n_query * head_dim <= old(out)@.len(),
        cache_fits(k@.len(), n_q_heads, heads_per_group, kv_stride, head_dim),
        cache_fits(v@.len(), n_q_heads, heads_per_group, kv_stride, head_dim),
        0 < rel_len,
        n_q_heads * rel_len <= bias@.len(),
    ensures
        final(out)@.len() == old(out)@.len(),
        forall|i: int|
            0 <= i < old(out)@.len() ==> #[trigger] final(out)@[i] == (if i < n_q_heads * n_query
                * head_dim {
                T::narrow_s(
                    block_row(
                        q@,
                        k@,
                        v@,
                        decode_walk(head_dim, 4, n_simd, (base_kv + n_query) as u32, 0, 0),
                        n_q_heads as int,
                        kv_stride as int,
                        heads_per_group as int,
                        Bias::Added(
                            relative_bias(
                                bias@,
                                base_kv,
                                n_query,
                                rel_zero,
                                rel_len,
                                (i / head_dim as int) / n_q_heads as int,
                                (i / head_dim as int) % n_q_heads as int,
                            ),
                        ),
                        scale,
                        i / head_dim as int,
                    )[i % head_dim as int],
                )
            } else {
                old(out)@[i]
            }),
{
    attend_block(
        q,
        k,
        v,
        out,
        head_dim,
        4,
        n_simd,
        n_q_heads,
        base_kv,
        n_query,
        kv_stride,
        heads_per_group,
        0,
        &BlockBias::Relative { bias, rel_zero, rel_len },
        scale,
    );
}

/// A vector with an entry for every offset between `len` positions never
/// clamps: the key's offset from the query is looked up as it is.
pub proof fn law_full_vector_never_clamps(t: int, q_abs: int, len: int)
    requires
        0 <= t < len,
        0 <= q_abs < len,
    ensures
        relative_index(t, len - 1, q_abs, 2 * len - 1) == t - q_abs + (len - 1),
        0 <= relative_index(t, len - 1, q_abs, 2 * len - 1) < 2 * len - 1,
{
}

} // verus!
