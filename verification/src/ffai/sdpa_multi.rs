//! Attention of a block of query rows against a shared cache. Queries and
//! outputs are laid out `[n_query, n_q_heads, head_dim]`.
use vstd::prelude::*;

use super::attention::{attend, scaled_row, Bias, BiasRef, Sink, Walk};
use super::sdpa_bidirectional_d128_relpos::{load_relative_bias, relative_bias};
use super::sdpa_decode::{decode_walk, lemma_walk_bounds};
use super::sdpa_rows::{attend_rows, cache_fits, lemma_slab, slab};
use crate::index::{lemma_index_row, lemma_mul_le, lemma_row, lemma_row_col};
use crate::num::{Num, Store};

verus! {

/// Output row `r` (query `r / n_q_heads`, head `r % n_q_heads`) when `n_kv`
/// positions are attended.
pub open spec fn block_row<F: Num, T: Store<F>>(
    q: Seq<T>,
    k: Seq<T>,
    v: Seq<T>,
    w: Walk,
    n_q_heads: int,
    kv_stride: int,
    heads_per_group: int,
    bias: Bias<F>,
    scale: F,
    r: int,
) -> Seq<F> {
    attend(
        w,
        scaled_row::<F, T>(q, r * w.head_dim, w.head_dim as nat, scale),
        k,
        v,
        slab((r % n_q_heads) / heads_per_group, kv_stride, w.head_dim as int),
        bias,
        Sink::Absent,
    )
}

/// Attends one (query, head) row.
pub fn attend_block_row<F: Num, T: Store<F>>(
    q: &[T],
    k: &[T],
    v: &[T],
    out: &mut Vec<T>,
    head_dim: u32,
    per_lane: usize,
    n_simd: u32,
    n_kv: u32,
    kv_stride: u32,
    heads_per_group: u32,
    bias: BiasRef<F>,
    scale: F,
    n_q_heads: u32,
    rows: usize,
    r: usize,
)
    requires
        r < rows,
        0 < n_q_heads,
        0 < n_simd <= 32,
        0 < per_lane <= 16,
        2 <= head_dim <= 32 * per_lane,
        n_kv <= kv_stride,
        rows * head_dim <= q@.len(),
        rows * head_dim <= old(out)@.len(),
        cache_fits(k@.len(), n_q_heads, heads_per_group, kv_stride, head_dim),
        cache_fits(v@.len(), n_q_heads, heads_per_group, kv_stride, head_dim),
        bias@.covers(n_kv as int),
    ensures
        final(out)@.len() == old(out)@.len(),
        forall|i: int|
            0 <= i < old(out)@.len() ==> #[trigger] final(out)@[i] == (if r * head_dim <= i < (r
                + 1) * head_dim {
                T::narrow_s(
                    block_row(
                        q@,
                        k@,
                        v@,
                        decode_walk(head_dim, per_lane, n_simd, n_kv, 0, 0),
                        n_q_heads as int,
                        kv_stride as int,
                        heads_per_group as int,
                        bias@,
                        scale,
                        i / head_dim as int,
                    )[i % head_dim as int],
                )
            } else {
                old(out)@[i]
            }),
{
    let k_len: usize = k.len();
    let head: usize = r % n_q_heads as usize;
    proof {
        lemma_slab(head as int, k@.len(), n_q_heads, heads_per_group, kv_stride, head_dim);
        lemma_slab(head as int, v@.len(), n_q_heads, heads_per_group, kv_stride, head_dim);
        lemma_walk_bounds(
            n_kv as int,
            kv_stride as int,
            head_dim as int,
            head as int / heads_per_group as int + 1,
            k@.len(),
        );
        lemma_row(r as int, rows as int, head_dim as int);
    }
    let w = Walk {
        head_dim: head_dim as usize,
        per_lane,
        n_simd: n_simd as usize,
        n_kv: n_kv as usize,
        sink_end: 0,
        window_start: 0,
    };
    attend_rows(
        q,
        k,
        v,
        out,
        w,
        r,
        1,
        head / heads_per_group as usize,
        kv_stride as usize,
        bias,
        &Sink::Absent,
        scale,
    );
    proof {
        assert forall|i: int| r * head_dim <= i < (r + 1) * head_dim implies #[trigger] out@[i]
            == T::narrow_s(
            block_row(
                q@,
                k@,
                v@,
                decode_walk(head_dim, per_lane, n_simd, n_kv, 0, 0),
                n_q_heads as int,
                kv_stride as int,
                heads_per_group as int,
                bias@,
                scale,
                i / head_dim as int,
            )[i % head_dim as int],
        ) by {
            lemma_row_col(r as int, i - r * head_dim, head_dim as int);
        }
    }
}

/// Positions that query `query` attends: causally up to itself, or the whole
/// block.
pub open spec fn attended(causal: u32, base_kv: u32, n_query: u32, query: int) -> u32 {
    if causal == 1 {
        (base_kv + query + 1) as u32
    } else {
        (base_kv + n_query) as u32
    }
}

/// What the tree mask adds to the scores of query `query`: nothing over the
/// prefix, the mask row over the block.
pub open spec fn tree_bias<F: Num, T: Store<F>>(
    mask: Seq<T>,
    base_kv: u32,
    n_query: u32,
    query: int,
) -> Seq<F> {
    Seq::new(
        (base_kv + n_query) as nat,
        |t: int| if t >= base_kv {
            mask[query * n_query + (t - base_kv)].widen_s()
        } else {
            F::zero_s()
        },
    )
}

/// Loads the additive mask of one query.
fn load_tree_bias<F: Num, T: Store<F>>(
    mask: &[T],
    base_kv: u32,
    n_query: u32,
    query: usize,
) -> (r: Vec<F>)
    requires
        query < n_query,
        base_kv + n_query <= u32::MAX,
        n_query * n_query <= mask@.len(),
    ensures
        r@ == tree_bias::<F, T>(mask@, base_kv, n_query, query as int),
{
    let mask_len: usize = mask.len();
    let ghost full = tree_bias::<F, T>(mask@, base_kv, n_query, query as int);
    proof {
        lemma_row(query as int, n_query as int, n_query as int);
    }
    let row: usize = query * n_query as usize;
    let n_kv: u32 = base_kv + n_query;
    let mut bias: Vec<F> = Vec::new();
    let mut t: u32 = 0;
    while t < n_kv
        invariant
            t <= n_kv,
            n_kv == base_kv + n_query,
            row == query * n_query,
            row + n_query <= mask@.len() == mask_len,
            full == tree_bias::<F, T>(mask@, base_kv, n_query, query as int),
            bias@ == full.take(t as int),
        decreases n_kv - t,
    {
        if t >= base_kv {
            bias.push(mask[row + (t - base_kv) as usize].widen());
        } else {
            bias.push(F::zero());
        }
        assert(bias@ =~= full.take(t + 1));
        t += 1;
    }
    assert(bias@ =~= full);
    bias
}

/// What every row of a query block adds to its scores: nothing, a mask over the
/// block, or a vector per head looked up by relative position.
pub enum BlockBias<'a, F, T> {
    Absent,
    Tree(&'a [T]),
    Relative { bias: &'a [F], rel_zero: u32, rel_len: u32 },
}

impl<'a, F: Num, T: Store<F>> BlockBias<'a, F, T> {
    /// The bias is long enough for a block of `n_query` queries.
    pub open spec fn fits(self, n_query: u32, n_q_heads: u32) -> bool {
        match self {
            BlockBias::Absent => true,
            BlockBias::Tree(mask) => n_query * n_query <= mask@.len(),
            BlockBias::Relative { bias, rel_zero, rel_len } => 0 < rel_len && n_q_heads * rel_len
                <= bias@.len(),
        }
    }

    /// What is added to the scores of row `r`.
    pub open spec fn row(self, base_kv: u32, n_query: u32, n_q_heads: u32, r: int) -> Bias<F> {
        let query = r / n_q_heads as int;
        match self {
            BlockBias::Absent => Bias::Absent,
            BlockBias::Tree(mask) => Bias::Masked(
                tree_bias::<F, T>(mask@, base_kv, n_query, query),
            ),
            BlockBias::Relative { bias, rel_zero, rel_len } => Bias::Added(
                relative_bias(
                    bias@,
                    base_kv,
                    n_query,
                    rel_zero,
                    rel_len,
                    query,
                    r % n_q_heads as int,
                ),
            ),
        }
    }
}

/// Attends every (query, head) row of a block.
pub fn attend_block<F: Num, T: Store<F>>(
    q: &[T],
    k: &[T],
    v: &[T],
    out: &mut Vec<T>,
    head_dim: u32,
    per_lane: usize,
    n_simd: u32,
    n_q_heads: u32,
    base_kv: u32,
    n_query: u32,
    kv_stride: u32,
    heads_per_group: u32,
    causal: u32,
    bias: &BlockBias<F, T>,
    scale: F,
)
    requires
        0 < n_simd <= 32,
        0 < per_lane <= 16,
        2 <= head_dim <= 32 * per_lane,
        base_kv + n_query <= kv_stride,
        n_q_heads * n_query * head_dim <= q@.len(),
        n_q_heads * n_query * head_dim <= old(out)@.len(),
        cache_fits(k@.len(), n_q_heads, heads_per_group, kv_stride, head_dim),
        cache_fits(v@.len(), n_q_heads, heads_per_group, kv_stride, head_dim),
        bias.fits(n_query, n_q_heads),
    ensures
        final(out)@.len() == old(out)@.len(),
        forall|i: int|
            0 <= i < old(out)@.len() ==> #[trigger] final(out)@[i] == (if i < n_q_heads * n_query
                * head_dim {
                T::narrow_s(
                    block_row(
                        q@,
                        k@,
                        v@,
                        decode_walk(
                            head_dim,
                            per_lane,
                            n_simd,
                            attended(
                                causal,
                                base_kv,
                                n_query,
                                (i / head_dim as int) / n_q_heads as int,
                            ),
                            0,
                            0,
                        ),
                        n_q_heads as int,
                        kv_stride as int,
                        heads_per_group as int,
                        bias.row(base_kv, n_query, n_q_heads, i / head_dim as int),
                        scale,
                        i / head_dim as int,
                    )[i % head_dim as int],
                )
            } else {
                old(out)@[i]
            }),
{
    let ghost before = out@;
    let q_len: usize = q.len();
    proof {
        lemma_mul_le(0, n_q_heads as int, 0, n_query as int);
        lemma_mul_le(n_q_heads * n_query, n_q_heads * n_query, 1, head_dim as int);
    }
    let rows: usize = n_q_heads as usize * n_query as usize;
    let mut r: usize = 0;
    while r < rows
        invariant
            r <= rows,
            rows == n_q_heads * n_query,
            0 < n_simd <= 32,
            0 < per_lane <= 16,
            2 <= head_dim <= 32 * per_lane,
            base_kv + n_query <= kv_stride,
            rows * head_dim <= q@.len() == q_len,
            rows * head_dim <= before.len(),
            cache_fits(k@.len(), n_q_heads, heads_per_group, kv_stride, head_dim),
            cache_fits(v@.len(), n_q_heads, heads_per_group, kv_stride, head_dim),
            bias.fits(n_query, n_q_heads),
            out@.len() == before.len(),
            forall|i: int|
                0 <= i < before.len() ==> #[trigger] out@[i] == (if i < r * head_dim {
                    T::narrow_s(
                        block_row(
                            q@,
                            k@,
                            v@,
                            decode_walk(
                                head_dim,
                                per_lane,
                                n_simd,
                                attended(
                                    causal,
                                    base_kv,
                                    n_query,
                                    (i / head_dim as int) / n_q_heads as int,
                                ),
                                0,
                                0,
                            ),
                            n_q_heads as int,
                            kv_stride as int,
                            heads_per_group as int,
                            bias.row(base_kv, n_query, n_q_heads, i / head_dim as int),
                            scale,
                            i / head_dim as int,
                        )[i % head_dim as int],
                    )
                } else {
                    before[i]
                }),
        decreases rows - r,
    {
        proof {
            assert(n_q_heads > 0) by (nonlinear_arith)
                requires
                    0 <= r < rows,
                    rows == n_q_heads * n_query,
            ;
            assert(n_q_heads * n_query == n_query * n_q_heads) by (nonlinear_arith);
            lemma_index_row(r as int, n_query as int, n_q_heads as int);
            lemma_row(r as int, rows as int, head_dim as int);
        }
        let query: usize = r / n_q_heads as usize;
        let head: usize = r % n_q_heads as usize;
        let n_kv: u32 = if causal == 1 {
            base_kv + query as u32 + 1
        } else {
            base_kv + n_query
        };
        let held: Vec<F> = match bias {
            BlockBias::Absent => Vec::new(),
            BlockBias::Tree(mask) => load_tree_bias::<F, T>(mask, base_kv, n_query, query),
            BlockBias::Relative { bias, rel_zero, rel_len } => load_relative_bias(
                bias,
                base_kv,
                n_query,
                *rel_zero,
                *rel_len,
                n_q_heads,
                query,
                head,
            ),
        };
        let row_bias: BiasRef<F> = match bias {
            BlockBias::Absent => BiasRef::Absent,
            BlockBias::Tree(_) => BiasRef::Masked(&held),
            BlockBias::Relative { .. } => BiasRef::Added(&held),
        };
        attend_block_row(
            q,
            k,
            v,
            out,
            head_dim,
            per_lane,
            n_simd,
            n_kv,
            kv_stride,
            heads_per_group,
            row_bias,
            scale,
            n_q_heads,
            rows,
            r,
        );
        proof {
            assert forall|i: int| 0 <= i < before.len() implies #[trigger] out@[i] == (if i < (r
                + 1) * head_dim {
                T::narrow_s(
                    block_row(
                        q@,
                        k@,
                        v@,
                        decode_walk(
                            head_dim,
                            per_lane,
                            n_simd,
                            attended(
                                causal,
                                base_kv,
                                n_query,
                                (i / head_dim as int) / n_q_heads as int,
                            ),
                            0,
                            0,
                        ),
                        n_q_heads as int,
                        kv_stride as int,
                        heads_per_group as int,
                        bias.row(base_kv, n_query, n_q_heads, i / head_dim as int),
                        scale,
                        i / head_dim as int,
                    )[i % head_dim as int],
                )
            } else {
                before[i]
            }) by {
                if r * head_dim <= i < (r + 1) * head_dim {
                    lemma_row_col(r as int, i - r * head_dim, head_dim as int);
                }
            }
        }
        r += 1;
    }
}

/// Attention of every query row over the cached prefix and the block: the
/// whole block, or with `causal` set the block up to the row itself.
pub fn ffai_sdpa_multi<F: Num, T: Store<F>>(
    q: &[T],
    k: &[T],
    v: &[T],
    out: &mut Vec<T>,
    head_dim: u32,
    n_q_heads: u32,
    base_kv: u32,
    n_query: u32,
    kv_stride: u32,
    heads_per_group: u32,
    causal: u32,
    scale: F,
    n_simd: u32,
)
    requires
        head_dim == 128,
        0 < n_simd <= 32,
        base_kv + n_query <= kv_stride,
        n_q_heads * n_query * head_dim <= q@.len(),
        n_q_heads * n_query * head_dim <= old(out)@.len(),
        cache_fits(k@.len(), n_q_heads, heads_per_group, kv_stride, head_dim),
        cache_fits(v@.len(), n_q_heads, heads_per_group, kv_stride, head_dim),
    ensures
        final(out)@.len() == old(out)@.len(),
        forall|i: int|
            0 <= i < old(out)@.len() ==> #[trigger] final(out)@[i] == (if i < n_q_heads * n_query
                * head_dim {
                T::narrow_s(
                    block_row(
                        q@,
                        k@,
                        v@,
                        decode_walk(head_dim, 4, n_simd, attended(causal, base_kv, n_query, (i / head_dim as int) / n_q_heads as int), 0, 0),
                        n_q_heads as int,
                        kv_stride as int,
                        heads_per_group as int,
                        Bias::Absent,
                        scale,
                        i / head_dim as int,
                    )[i % head_dim as int],
                )
            } else {
                old(out)@[i]
            }),
{
    attend_block(
        q,
        k,
        v,
        out,
        head_dim,
        4,
        n_simd,
        n_q_heads,
        base_kv,
        n_query,
        kv_stride,
        heads_per_group,
        causal,
        &BlockBias::Absent,
        scale,
    );
}

/// Attention of every query row over the cached prefix and the block, with an
/// additive `[n_query, n_query]` mask on the block. A mask entry of negative
/// infinity blocks its position: the walk passes over it.
pub fn ffai_sdpa_multi_tree_mask<F: Num, T: Store<F>>(
    q: &[T],
    k: &[T],
    v: &[T],
    mask: &[T],
    out: &mut Vec<T>,
    head_dim: u32,
    n_q_heads: u32,
    base_kv: u32,
    n_query: u32,
    kv_stride: u32,
    heads_per_group: u32,
    scale: F,
    n_simd: u32,
)
    requires
        head_dim == 128,
        0 < n_simd <= 32,
        base_kv + n_query <= kv_stride,
        n_q_heads * n_query * head_dim <= q@.len(),
        n_q_heads * n_query * head_dim <= old(out)@.len(),
        cache_fits(k@.len(), n_q_heads, heads_per_group, kv_stride, head_dim),
        cache_fits(v@.len(), n_q_heads, heads_per_group, kv_stride, head_dim),
        n_query * n_query <= mask@.len(),
    ensures
        final(out)@.len() == old(out)@.len(),
        forall|i: int|
            0 <= i < old(out)@.len() ==> #[trigger] final(out)@[i] == (if i < n_q_heads * n_query
                * head_dim {
                T::narrow_s(
                    block_row(
                        q@,
                        k@,
                        v@,
                        decode_walk(head_dim, 4, n_simd, (base_kv + n_query) as u32, 0, 0),
                        n_q_heads as int,
                        kv_stride as int,
                        heads_per_group as int,
                        Bias::Masked(
                            tree_bias::<F, T>(
                                mask@,
                                base_kv,
                                n_query,
                                (i / head_dim as int) / n_q_heads as int,
                            ),
                        ),
                        scale,
                        i / head_dim as int,
                    )[i % head_dim as int],
                )
            } else {
                old(out)@[i]
            }),
{
    attend_block(
        q,
        k,
        v,
        out,
        head_dim,
        4,
        n_simd,
        n_q_heads,
        base_kv,
        n_query,
        kv_stride,
        heads_per_group,
        0,
        &BlockBias::Tree(mask),
        scale,
    );
}

} // verus!
