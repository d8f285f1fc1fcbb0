//! Attention decode in two passes: the first attends strided blocks of the
//! cache on their own, the second merges the blocks. Head width 128.
use vstd::prelude::*;

use super::attention::{
    all_scores, all_values, fresh, fresh_states, load_scaled, pick_max, scaled_row, score_of,
    store_row, walk, walk_streams, Bias, BiasRef, Online, Walk, LANES,
};
use super::sdpa_rows::slab;
use crate::index::{lemma_index_row, lemma_mul_le, lemma_row, lemma_row_col};
use crate::num::{Num, Store};

verus! {

/// Number of key/value blocks recommended for a context of `n_kv` positions
/// and `n_simds` query heads per key/value head.
pub open spec fn recommended_blocks(n_kv: u32, n_simds: u32) -> u32 {
    if n_kv <= 1024 || n_simds <= 4 {
        64
    } else if n_kv <= 8192 {
        128
    } else if n_kv <= 32768 {
        256
    } else if n_kv <= 65536 {
        512
    } else {
        1024
    }
}

/// Block count for the two-pass decode: small for short contexts or few query
/// heads, then growing with the context. Always a multiple of the block width
/// that the second pass reduces over.
pub fn recommended_blocks_m5_max(n_kv: u32, n_simds: u32) -> (blocks: u32)
    ensures
        blocks == recommended_blocks(n_kv, n_simds),
        blocks % 32 == 0,
        64 <= blocks <= 1024,
{
    if n_kv <= 1024 || n_simds <= 4 {
        return 64;
    }
    if n_kv <= 8192 {
        128
    } else if n_kv <= 32768 {
        256
    } else if n_kv <= 65536 {
        512
    } else {
        1024
    }
}

/// A longer context never gets fewer blocks.
pub proof fn law_blocks_monotone(n: u32, m: u32, n_simds: u32)
    requires
        n <= m,
    ensures
        recommended_blocks(n, n_simds) <= recommended_blocks(m, n_simds),
{
}

/// The walk of the first pass: one stride per block.
pub open spec fn block_walk(head_dim: u32, n_kv: u32, blocks: u32) -> Walk {
    Walk {
        head_dim: head_dim as usize,
        per_lane: 4,
        n_simd: blocks as usize,
        n_kv: n_kv as usize,
        sink_end: 0,
        window_start: 0,
    }
}

/// What the first pass leaves for row `r`: query head `r / blocks`, block
/// `r % blocks`.
pub open spec fn block_state<F: Num, T: Store<F>>(
    q: Seq<T>,
    k: Seq<T>,
    v: Seq<T>,
    head_dim: u32,
    n_kv: u32,
    kv_stride: u32,
    gqa_factor: u32,
    blocks: u32,
    scale: F,
    r: int,
) -> Online<F> {
    let w = block_walk(head_dim, n_kv, blocks);
    let head = r / blocks as int;
    let base = slab(head / gqa_factor as int, kv_stride as int, head_dim as int);
    walk(
        all_scores(
            w,
            scaled_row::<F, T>(q, head * head_dim, head_dim as nat, scale),
            k,
            base,
            Bias::Absent,
        ),
        all_values(w, v, base),
        fresh(head_dim as nat),
        r % blocks as int,
        n_kv as int,
        blocks as int,
    )
}

/// Row `r` was written before stream `g` of block `block` of `kv_head`.
spec fn written(r: int, gqa: int, blocks: int, kv_head: int, block: int, g: int) -> bool {
    let h = (r / blocks) / gqa;
    ||| h < kv_head
    ||| h == kv_head && r % blocks < block
    ||| h == kv_head && r % blocks == block && (r / blocks) % gqa < g
}

/// The row of stream `g` of `kv_head` in block `block`.
proof fn lemma_block_row(r: int, gqa: int, blocks: int, kv_head: int, block: int, g: int)
    requires
        0 <= g < gqa,
        0 <= block < blocks,
        r == (kv_head * gqa + g) * blocks + block,
    ensures
        r / blocks == kv_head * gqa + g,
        r % blocks == block,
        (r / blocks) / gqa == kv_head,
        (r / blocks) % gqa == g,
{
    lemma_row_col(kv_head * gqa + g, block, blocks);
    lemma_row_col(kv_head, g, gqa);
}

/// A row with these coordinates is that row.
proof fn lemma_block_row_unique(r: int, gqa: int, blocks: int, kv_head: int, block: int, g: int)
    requires
        0 < gqa,
        0 < blocks,
        (r / blocks) / gqa == kv_head,
        (r / blocks) % gqa == g,
        r % blocks == block,
    ensures
        r == (kv_head * gqa + g) * blocks + block,
{
    vstd::arithmetic::div_mod::lemma_fundamental_div_mod(r, blocks);
    vstd::arithmetic::div_mod::lemma_fundamental_div_mod(r / blocks, gqa);
    let h = r / blocks;
    assert(gqa * kv_head == kv_head * gqa) by (nonlinear_arith);
    assert(blocks * h == h * blocks) by (nonlinear_arith);
}

/// First pass: for every query head and block, the largest score, the sum and
/// the unnormalised output over positions `block`, `block + blocks`, ..
pub fn sdpa_decode_2pass_pass1<F: Num, T: Store<F>>(
    q: &[T],
    k: &[T],
    v: &[T],
    partial_o: &mut Vec<T>,
    partial_m: &mut Vec<F>,
    partial_l: &mut Vec<F>,
    head_dim: u32,
    n_kv: u32,
    kv_stride: u32,
    gqa_factor: u32,
    blocks: u32,
    scale: F,
    n_kv_heads: u32,
)
    requires
        head_dim == 128,
        0 < blocks,
        0 < gqa_factor,
        n_kv <= kv_stride,
        n_kv_heads * gqa_factor * head_dim <= q@.len(),
        n_kv_heads * kv_stride * head_dim <= k@.len(),
        n_kv_heads * kv_stride * head_dim <= v@.len(),
        n_kv_heads * gqa_factor * blocks * head_dim <= old(partial_o)@.len(),
        n_kv_heads * gqa_factor * blocks <= old(partial_m)@.len(),
        n_kv_heads * gqa_factor * blocks <= old(partial_l)@.len(),
    ensures
        final(partial_o)@.len() == old(partial_o)@.len(),
        final(partial_m)@.len() == old(partial_m)@.len(),
        final(partial_l)@.len() == old(partial_l)@.len(),
        forall|r: int|
            0 <= r < n_kv_heads * gqa_factor * blocks ==> #[trigger] final(partial_m)@[r]
                == block_state::<F, T>(
                q@,
                k@,
                v@,
                head_dim,
                n_kv,
                kv_stride,
                gqa_factor,
                blocks,
                scale,
                r,
            ).max,
        forall|r: int|
            0 <= r < n_kv_heads * gqa_factor * blocks ==> #[trigger] final(partial_l)@[r]
                == block_state::<F, T>(
                q@,
                k@,
                v@,
                head_dim,
                n_kv,
                kv_stride,
                gqa_factor,
                blocks,
                scale,
                r,
            ).sum,
        forall|i: int|
            0 <= i < n_kv_heads * gqa_factor * blocks * head_dim ==> #[trigger] final(partial_o)@[i] == T::narrow_s(
                block_state::<F, T>(
                    q@,
                    k@,
                    v@,
                    head_dim,
                    n_kv,
                    kv_stride,
                    gqa_factor,
                    blocks,
                    scale,
                    i / head_dim as int,
                ).acc[i % head_dim as int],
            ),
        forall|r: int|
            n_kv_heads * gqa_factor * blocks <= r < old(partial_m)@.len() ==> #[trigger] final(partial_m)@[r]
                == old(partial_m)@[r],
        forall|r: int|
            n_kv_heads * gqa_factor * blocks <= r < old(partial_l)@.len() ==> #[trigger] final(partial_l)@[r]
                == old(partial_l)@[r],
        forall|i: int|
            n_kv_heads * gqa_factor * blocks * head_dim <= i < old(partial_o)@.len()
                ==> #[trigger] final(partial_o)@[i] == old(partial_o)@[i],
{
    let ghost (m_old, l_old, o_old) = (partial_m@, partial_l@, partial_o@);
    let d: usize = 128;
    let k_len: usize = k.len();
    let q_len: usize = q.len();
    let o_len: usize = partial_o.len();
    let m_len: usize = partial_m.len();
    let ghost gqa = gqa_factor as int;
    let ghost nb = blocks as int;
    let ghost n_rows = n_kv_heads * gqa_factor * blocks;
    let ghost row = |r: int|
        block_state::<F, T>(
            q@,
            k@,
            v@,
            head_dim,
            n_kv,
            kv_stride,
            gqa_factor,
            blocks,
            scale,
            r,
        );
    assert forall|r: int| 0 <= r < n_rows implies 0 <= #[trigger] (r / nb) && (r / nb) / gqa
        < n_kv_heads && 0 <= (r / nb) / gqa by {
        lemma_index_row(r, n_kv_heads * gqa_factor, nb);
        lemma_index_row(r / nb, n_kv_heads as int, gqa);
    }
    let mut kv_head: u32 = 0;
    while kv_head < n_kv_heads
        invariant
            kv_head <= n_kv_heads,
            head_dim == 128,
            d == 128,
            0 < blocks,
            0 < gqa_factor,
            n_kv <= kv_stride,
            n_kv_heads * gqa_factor * head_dim <= q@.len() == q_len,
            n_kv_heads * kv_stride * head_dim <= k@.len() == k_len,
            n_kv_heads * kv_stride * head_dim <= v@.len(),
            gqa == gqa_factor,
            nb == blocks,
            n_rows == n_kv_heads * gqa_factor * blocks,
            n_rows * head_dim <= o_old.len() == o_len,
            n_rows <= m_old.len() == m_len,
            n_rows <= l_old.len(),
            partial_o@.len() == o_old.len(),
            partial_m@.len() == m_old.len(),
            partial_l@.len() == l_old.len(),
            forall|r: int| n_rows <= r < m_old.len() ==> #[trigger] partial_m@[r] == m_old[r],
            forall|r: int| n_rows <= r < l_old.len() ==> #[trigger] partial_l@[r] == l_old[r],
            forall|i: int|
                n_rows * head_dim <= i < o_old.len() ==> #[trigger] partial_o@[i] == o_old[i],
            row == (|r: int|
                block_state::<F, T>(
                    q@,
                    k@,
                    v@,
                    head_dim,
                    n_kv,
                    kv_stride,
                    gqa_factor,
                    blocks,
                    scale,
                    r,
                )),
            forall|r: int|
                0 <= r < n_rows && written(r, gqa, nb, kv_head as int, 0, 0) ==> #[trigger] partial_m@[r]
                    == row(r).max,
            forall|r: int|
                0 <= r < n_rows && written(r, gqa, nb, kv_head as int, 0, 0) ==> #[trigger] partial_l@[r]
                    == row(r).sum,
            forall|i: int|
                0 <= i < n_rows * head_dim && written(
                    i / 128,
                    gqa,
                    nb,
                    kv_head as int,
                    0,
                    0,
                ) ==> #[trigger] partial_o@[i] == T::narrow_s(row(i / 128).acc[i % 128]),
        decreases n_kv_heads - kv_head,
    {
        proof {
            lemma_row(kv_head as int, n_kv_heads as int, kv_stride * head_dim);
            assert(kv_head * (kv_stride * head_dim) == kv_head * kv_stride * head_dim)
                by (nonlinear_arith);
            assert(n_kv_heads * (kv_stride * head_dim) == n_kv_heads * kv_stride * head_dim)
                by (nonlinear_arith);
            lemma_mul_le(n_kv as int, kv_stride as int, 128, 128);
            lemma_mul_le(kv_head as int, n_kv_heads as int, kv_stride as int, kv_stride as int);
            lemma_mul_le(kv_head * kv_stride, kv_head * kv_stride, 1, 128);
            lemma_row(kv_head as int, n_kv_heads as int, gqa);
            lemma_mul_le((kv_head + 1) * gqa, n_kv_heads * gqa_factor, 128, 128);
            lemma_mul_le((kv_head + 1) * gqa, (kv_head + 1) * gqa, 1, 128);
            lemma_mul_le(1, n_kv_heads as int, 1, gqa);
            lemma_mul_le(1, n_kv_heads * gqa_factor, nb, nb);
            lemma_mul_le(nb, n_rows, 128, 128);
        }
        let base: usize = kv_head as usize * kv_stride as usize * d;
        let w = Walk {
            head_dim: d,
            per_lane: 4,
            n_simd: blocks as usize,
            n_kv: n_kv as usize,
            sink_end: 0,
            window_start: 0,
        };
        let first: usize = kv_head as usize * gqa_factor as usize;
        let mut qs: Vec<Vec<F>> = Vec::new();
        let mut g: u32 = 0;
        while g < gqa_factor
            invariant
                g <= gqa_factor,
                d == 128,
                first == kv_head * gqa_factor,
                (first + gqa_factor) * 128 <= q@.len() == q_len,
                qs@.len() == g,
                forall|c: int|
                    0 <= c < g ==> (#[trigger] qs@[c])@ == scaled_row::<F, T>(
                        q@,
                        (first + c) * 128,
                        128,
                        scale,
                    ),
            decreases gqa_factor - g,
        {
            qs.push(load_scaled::<F, T>(q, (first + g as usize) * d, d, scale));
            g += 1;
        }
        let mut block: u32 = 0;
        while block < blocks
            invariant
                block <= blocks,
                kv_head < n_kv_heads,
                head_dim == 128,
                d == 128,
                0 < gqa_factor,
                w.wf(),
                w == block_walk(head_dim, n_kv, blocks),
                base == slab(kv_head as int, kv_stride as int, 128),
                base + n_kv * 128 <= k@.len(),
                base + n_kv * 128 <= v@.len(),
                first == kv_head * gqa_factor,
                first + gqa_factor <= n_kv_heads * gqa_factor,
                gqa == gqa_factor,
                nb == blocks,
                n_rows == n_kv_heads * gqa_factor * blocks,
                n_rows * head_dim <= o_old.len() == o_len,
                n_rows <= m_old.len() == m_len,
                n_rows <= l_old.len(),
                partial_o@.len() == o_old.len(),
                partial_m@.len() == m_old.len(),
                partial_l@.len() == l_old.len(),
                forall|r: int| n_rows <= r < m_old.len() ==> #[trigger] partial_m@[r] == m_old[r],
                forall|r: int| n_rows <= r < l_old.len() ==> #[trigger] partial_l@[r] == l_old[r],
                forall|i: int|
                    n_rows * head_dim <= i < o_old.len() ==> #[trigger] partial_o@[i] == o_old[i],
                qs@.len() == gqa_factor,
                forall|c: int|
                    0 <= c < gqa_factor ==> (#[trigger] qs@[c])@ == scaled_row::<F, T>(
                        q@,
                        (first + c) * 128,
                        128,
                        scale,
                    ),
                row == (|r: int|
                    block_state::<F, T>(
                        q@,
                        k@,
                        v@,
                        head_dim,
                        n_kv,
                        kv_stride,
                        gqa_factor,
                        blocks,
                        scale,
                        r,
                    )),
                forall|r: int|
                    0 <= r < n_rows && written(r, gqa, nb, kv_head as int, block as int, 0)
                        ==> #[trigger] partial_m@[r] == row(r).max,
                forall|r: int|
                    0 <= r < n_rows && written(r, gqa, nb, kv_head as int, block as int, 0)
                        ==> #[trigger] partial_l@[r] == row(r).sum,
                forall|i: int|
                    0 <= i < n_rows * head_dim && written(
                        i / 128,
                        gqa,
                        nb,
                        kv_head as int,
                        block as int,
                        0,
                    ) ==> #[trigger] partial_o@[i] == T::narrow_s(row(i / 128).acc[i % 128]),
            decreases blocks - block,
        {
            let mut states = fresh_states::<F>(qs.len(), d);
            walk_streams(
                w,
                &qs,
                k,
                v,
                base,
                BiasRef::Absent,
                block as usize,
                n_kv as usize,
                &mut states,
            );
            let mut g: u32 = 0;
            while g < gqa_factor
                invariant
                    g <= gqa_factor,
                    block < blocks,
                    kv_head < n_kv_heads,
                    head_dim == 128,
                    d == 128,
                    0 < gqa_factor,
                    w == block_walk(head_dim, n_kv, blocks),
                    base == slab(kv_head as int, kv_stride as int, 128),
                    first == kv_head * gqa_factor,
                    first + gqa_factor <= n_kv_heads * gqa_factor,
                    gqa == gqa_factor,
                    nb == blocks,
                    n_rows == n_kv_heads * gqa_factor * blocks,
                    n_rows * head_dim <= o_old.len() == o_len,
                    n_rows <= m_old.len() == m_len,
                    n_rows <= l_old.len(),
                    partial_o@.len() == o_old.len(),
                    partial_m@.len() == m_old.len(),
                    partial_l@.len() == l_old.len(),
                    forall|r: int| n_rows <= r < m_old.len() ==> #[trigger] partial_m@[r] == m_old[r],
                    forall|r: int| n_rows <= r < l_old.len() ==> #[trigger] partial_l@[r] == l_old[r],
                    forall|i: int|
                        n_rows * head_dim <= i < o_old.len() ==> #[trigger] partial_o@[i] == o_old[i],
                    qs@.len() == gqa_factor,
                    forall|c: int|
                        0 <= c < gqa_factor ==> (#[trigger] qs@[c])@ == scaled_row::<F, T>(
                            q@,
                            (first + c) * 128,
                            128,
                            scale,
                        ),
                    states@.len() == gqa_factor,
                    forall|c: int|
                        0 <= c < gqa_factor ==> (#[trigger] states@[c]).acc@.len() == 128
                            && states@[c].online() == walk(
                            score_of(w, qs@, k@, base as int, Bias::Absent, c),
                            all_values(w, v@, base as int),
                            fresh(128),
                            block as int,
                            n_kv as int,
                            blocks as int,
                        ),
                    row == (|r: int|
                        block_state::<F, T>(
                            q@,
                            k@,
                            v@,
                            head_dim,
                            n_kv,
                            kv_stride,
                            gqa_factor,
                            blocks,
                            scale,
                            r,
                        )),
                    forall|r: int|
                        0 <= r < n_rows && written(
                            r,
                            gqa,
                            nb,
                            kv_head as int,
                            block as int,
                            g as int,
                        ) ==> #[trigger] partial_m@[r] == row(r).max,
                    forall|r: int|
                        0 <= r < n_rows && written(
                            r,
                            gqa,
                            nb,
                            kv_head as int,
                            block as int,
                            g as int,
                        ) ==> #[trigger] partial_l@[r] == row(r).sum,
                    forall|i: int|
                        0 <= i < n_rows * head_dim && written(
                            i / 128,
                            gqa,
                            nb,
                            kv_head as int,
                            block as int,
                            g as int,
                        ) ==> #[trigger] partial_o@[i] == T::narrow_s(row(i / 128).acc[i % 128]),
                decreases gqa_factor - g,
            {
                let ghost r = (first + g) * nb + block;
                proof {
                    lemma_row(first + g, n_kv_heads * gqa_factor, nb);
                    lemma_row(r, n_rows, 128);
                    lemma_block_row(r, gqa, nb, kv_head as int, block as int, g as int);
                }
                let at: usize = (first + g as usize) * blocks as usize + block as usize;
                let st = &states[g as usize];
                assert(row(r) == st.online());
                let ghost (m0, l0, o0) = (partial_m@, partial_l@, partial_o@);
                partial_m.set(at, st.max);
                partial_l.set(at, st.sum);
                store_row::<F, T>(partial_o, at * d, &st.acc);
                proof {
                    assert forall|s: int|
                        0 <= s < n_rows && s != r && written(
                            s,
                            gqa,
                            nb,
                            kv_head as int,
                            block as int,
                            g + 1,
                        ) implies written(s, gqa, nb, kv_head as int, block as int, g as int) by {
                        if (s / nb) / gqa == kv_head && s % nb == block && (s / nb) % gqa == g {
                            lemma_block_row_unique(
                                s,
                                gqa,
                                nb,
                                kv_head as int,
                                block as int,
                                g as int,
                            );
                        }
                    }
                    assert forall|i: int|
                        0 <= i < n_rows * head_dim && written(
                            i / 128,
                            gqa,
                            nb,
                            kv_head as int,
                            block as int,
                            g + 1,
                        ) implies #[trigger] partial_o@[i] == T::narrow_s(
                        row(i / 128).acc[i % 128],
                    ) by {
                        if i / 128 == r {
                            assert(i == r * 128 + i % 128);
                        } else {
                            assert(!(r * 128 <= i < r * 128 + 128));
                            assert(partial_o@[i] == o0[i]);
                        }
                    }
                }
                g += 1;
            }
            assert forall|s: int|
                0 <= s < n_rows && written(s, gqa, nb, kv_head as int, block + 1, 0) implies written(
                s,
                gqa,
                nb,
                kv_head as int,
                block as int,
                gqa,
            ) by {
                vstd::arithmetic::div_mod::lemma_mod_bound(s / nb, gqa);
            }
            block += 1;
        }
        assert forall|s: int|
            0 <= s < n_rows && written(s, gqa, nb, kv_head + 1, 0, 0) implies written(
            s,
            gqa,
            nb,
            kv_head as int,
            nb,
            0,
        ) by {
            vstd::arithmetic::div_mod::lemma_mod_bound(s, nb);
            vstd::arithmetic::div_mod::lemma_mod_bound(s / nb, gqa);
        }
        kv_head += 1;
    }
    proof {
        assert forall|s: int| 0 <= s < n_rows implies written(
            s,
            gqa,
            nb,
            n_kv_heads as int,
            0,
            0,
        ) by {
            lemma_index_row(s, n_kv_heads * gqa_factor, nb);
            lemma_index_row(s / nb, n_kv_heads as int, gqa);
        }
        assert forall|i: int| 0 <= i < n_rows * head_dim implies #[trigger] partial_o@[i]
            == T::narrow_s(row(i / 128).acc[i % 128]) by {
            lemma_index_row(i, n_rows, 128);
            assert(written(i / 128, gqa, nb, n_kv_heads as int, 0, 0));
        }
    }
}

/// Largest of the block maxima `first`, `first + 32`, .. (`n` of them).
pub open spec fn chunk_max<F: Num>(m: Seq<F>, first: int, n: nat) -> F
    decreases n,
{
    if n == 0 {
        F::neg_inf_s()
    } else {
        pick_max(m[first + 32 * (n - 1)], chunk_max(m, first, (n - 1) as nat))
    }
}

/// Sum of the block sums `first`, `first + 32`, .., rescaled to `max`.
pub open spec fn chunk_sum<F: Num>(m: Seq<F>, l: Seq<F>, first: int, max: F, n: nat) -> F
    decreases n,
{
    if n == 0 {
        F::zero_s()
    } else {
        let at = first + 32 * (n - 1);
        chunk_sum(m, l, first, max, (n - 1) as nat).add_s(m[at].sub_s(max).exp_s().mul_s(l[at]))
    }
}

/// Element `i` of the block outputs `first`, `first + 32`, .., rescaled to
/// `max` and added up.
pub open spec fn chunk_out<F: Num, T: Store<F>>(
    m: Seq<F>,
    o: Seq<T>,
    first: int,
    d: int,
    i: int,
    max: F,
    n: nat,
) -> F
    decreases n,
{
    if n == 0 {
        F::zero_s()
    } else {
        let at = first + 32 * (n - 1);
        chunk_out(m, o, first, d, i, max, (n - 1) as nat).add_s(
            m[at].sub_s(max).exp_s().mul_s(o[at * d + i].widen_s()),
        )
    }
}

/// Common maximum of the blocks that start at `mbase`.
pub open spec fn blocks_max<F: Num>(m: Seq<F>, mbase: int, chunks: nat) -> F {
    F::lane_max_s(Seq::new(32, |l: int| chunk_max(m, mbase + l, chunks)))
}

/// Common denominator of the blocks that start at `mbase`.
pub open spec fn blocks_sum<F: Num>(m: Seq<F>, l: Seq<F>, mbase: int, chunks: nat) -> F {
    let max = blocks_max(m, mbase, chunks);
    F::lane_sum_s(Seq::new(32, |lane: int| chunk_sum(m, l, mbase + lane, max, chunks)))
}

/// Output element `i` of the head whose blocks start at `mbase`.
pub open spec fn blocks_out<F: Num, T: Store<F>>(
    m: Seq<F>,
    l: Seq<F>,
    o: Seq<T>,
    mbase: int,
    chunks: nat,
    d: int,
    i: int,
) -> F {
    let max = blocks_max(m, mbase, chunks);
    let sum = blocks_sum(m, l, mbase, chunks);
    let inv = if sum.gt_s(F::zero_s()) {
        F::one_s().div_s(sum)
    } else {
        F::zero_s()
    };
    F::lane_sum_s(Seq::new(32, |sg: int| chunk_out(m, o, mbase + sg, d, i, max, chunks))).mul_s(inv)
}

fn reduce_max<F: Num>(m: &[F], mbase: usize, chunks: usize) -> (r: F)
    requires
        mbase + 32 * chunks <= m@.len(),
    ensures
        r == blocks_max(m@, mbase as int, chunks as nat),
{
    let m_len: usize = m.len();
    let ghost full = Seq::new(32, |l: int| chunk_max(m@, mbase + l, chunks as nat));
    let mut lanes: Vec<F> = Vec::new();
    let mut l: usize = 0;
    while l < LANES
        invariant
            l <= 32,
            mbase + 32 * chunks <= m@.len() == m_len,
            full == Seq::new(32, |l: int| chunk_max(m@, mbase + l, chunks as nat)),
            lanes@ == full.take(l as int),
        decreases 32 - l,
    {
        let mut best = F::neg_inf();
        let mut c: usize = 0;
        while c < chunks
            invariant
                c <= chunks,
                l < 32,
                mbase + 32 * chunks <= m@.len() == m_len,
                best == chunk_max(m@, mbase + l, c as nat),
            decreases chunks - c,
        {
            let val = m[mbase + l + 32 * c];
            if val.gt(best) {
                best = val;
            }
            c += 1;
        }
        lanes.push(best);
        assert(lanes@ =~= full.take(l + 1));
        l += 1;
    }
    assert(lanes@ =~= full);
    F::lane_max(&lanes)
}

fn reduce_sum<F: Num>(m: &[F], sums: &[F], mbase: usize, chunks: usize, max: F) -> (r: F)
    requires
        mbase + 32 * chunks <= m@.len(),
        mbase + 32 * chunks <= sums@.len(),
        max == blocks_max(m@, mbase as int, chunks as nat),
    ensures
        r == blocks_sum(m@, sums@, mbase as int, chunks as nat),
{
    let m_len: usize = m.len();
    let ghost full = Seq::new(32, |l: int| chunk_sum(m@, sums@, mbase + l, max, chunks as nat));
    let mut lanes: Vec<F> = Vec::new();
    let mut l: usize = 0;
    while l < LANES
        invariant
            l <= 32,
            mbase + 32 * chunks <= m@.len() == m_len,
            mbase + 32 * chunks <= sums@.len(),
            full == Seq::new(32, |l: int| chunk_sum(m@, sums@, mbase + l, max, chunks as nat)),
            lanes@ == full.take(l as int),
        decreases 32 - l,
    {
        let mut sum = F::zero();
        let mut c: usize = 0;
        while c < chunks
            invariant
                c <= chunks,
                l < 32,
                mbase + 32 * chunks <= m@.len() == m_len,
                mbase + 32 * chunks <= sums@.len(),
                sum == chunk_sum(m@, sums@, mbase + l, max, c as nat),
            decreases chunks - c,
        {
            let at: usize = mbase + l + 32 * c;
            sum = sum.add(m[at].sub(max).exp().mul(sums[at]));
            c += 1;
        }
        lanes.push(sum);
        assert(lanes@ =~= full.take(l + 1));
        l += 1;
    }
    assert(lanes@ =~= full);
    F::lane_sum(&lanes)
}

fn reduce_out<F: Num, T: Store<F>>(
    m: &[F],
    o: &[T],
    mbase: usize,
    chunks: usize,
    d: usize,
    i: usize,
    max: F,
) -> (r: F)
    requires
        i < d,
        mbase + 32 * chunks <= m@.len(),
        (mbase + 32 * chunks) * d <= o@.len(),
    ensures
        r == F::lane_sum_s(
            Seq::new(
                32,
                |sg: int|
                    chunk_out(m@, o@, mbase + sg, d as int, i as int, max, chunks as nat),
            ),
        ),
{
    let m_len: usize = m.len();
    let o_len: usize = o.len();
    let ghost full = Seq::new(
        32,
        |sg: int| chunk_out(m@, o@, mbase + sg, d as int, i as int, max, chunks as nat),
    );
    let mut lanes: Vec<F> = Vec::new();
    let mut sg: usize = 0;
    while sg < LANES
        invariant
            sg <= 32,
            i < d,
            mbase + 32 * chunks <= m@.len() == m_len,
            (mbase + 32 * chunks) * d <= o@.len() == o_len,
            full == Seq::new(
                32,
                |sg: int| chunk_out(m@, o@, mbase + sg, d as int, i as int, max, chunks as nat),
            ),
            lanes@ == full.take(sg as int),
        decreases 32 - sg,
    {
        let mut sum = F::zero();
        let mut c: usize = 0;
        while c < chunks
            invariant
                c <= chunks,
                sg < 32,
                i < d,
                mbase + 32 * chunks <= m@.len() == m_len,
                (mbase + 32 * chunks) * d <= o@.len() == o_len,
                sum == chunk_out(m@, o@, mbase + sg, d as int, i as int, max, c as nat),
            decreases chunks - c,
        {
            let at: usize = mbase + sg + 32 * c;
            proof {
                lemma_row(at as int, mbase + 32 * chunks, d as int);
            }
            sum = sum.add(m[at].sub(max).exp().mul(o[at * d + i].widen()));
            c += 1;
        }
        lanes.push(sum);
        assert(lanes@ =~= full.take(sg + 1));
        sg += 1;
    }
    assert(lanes@ =~= full);
    F::lane_sum(&lanes)
}

/// Second pass: merges the blocks of every query head into its output row.
pub fn sdpa_decode_2pass_pass2<F: Num, T: Store<F>>(
    partial_o: &[T],
    partial_m: &[F],
    partial_l: &[F],
    out: &mut Vec<T>,
    head_dim: u32,
    blocks: u32,
    n_q_heads: u32,
)
    requires
        head_dim == 128,
        blocks % 32 == 0,
        n_q_heads * blocks <= partial_m@.len(),
        n_q_heads * blocks <= partial_l@.len(),
        n_q_heads * blocks * head_dim <= partial_o@.len(),
        n_q_heads * head_dim <= old(out)@.len(),
    ensures
        final(out)@.len() == old(out)@.len(),
        forall|i: int|
            0 <= i < old(out)@.len() ==> #[trigger] final(out)@[i] == (if i < n_q_heads * head_dim {
                T::narrow_s(
                    blocks_out::<F, T>(
                        partial_m@,
                        partial_l@,
                        partial_o@,
                        (i / 128) * blocks,
                        (blocks / 32) as nat,
                        128,
                        i % 128,
                    ),
                )
            } else {
                old(out)@[i]
            }),
{
    let ghost before = out@;
    let o_len: usize = partial_o.len();
    let out_len: usize = out.len();
    let d: usize = 128;
    let chunks: usize = (blocks / 32) as usize;
    let mut h: u32 = 0;
    while h < n_q_heads
        invariant
            h <= n_q_heads,
            head_dim == 128,
            d == 128,
            blocks % 32 == 0,
            chunks == blocks / 32,
            n_q_heads * blocks <= partial_m@.len(),
            n_q_heads * blocks <= partial_l@.len(),
            n_q_heads * blocks * 128 <= partial_o@.len() == o_len,
            n_q_heads * 128 <= before.len() == out_len,
            out@.len() == before.len(),
            forall|i: int|
                0 <= i < before.len() ==> #[trigger] out@[i] == (if i < h * 128 {
                    T::narrow_s(
                        blocks_out::<F, T>(
                            partial_m@,
                            partial_l@,
                            partial_o@,
                            (i / 128) * blocks,
                            (blocks / 32) as nat,
                            128,
                            i % 128,
                        ),
                    )
                } else {
                    before[i]
                }),
        decreases n_q_heads - h,
    {
        proof {
            lemma_row(h as int, n_q_heads as int, blocks as int);
            lemma_mul_le((h + 1) * blocks, n_q_heads * blocks, 128, 128);
            lemma_mul_le((h + 1) * blocks, (h + 1) * blocks, 1, 128);
        }
        let mbase: usize = h as usize * blocks as usize;
        let max = reduce_max(partial_m, mbase, chunks);
        let sum = reduce_sum(partial_m, partial_l, mbase, chunks, max);
        let inv = if sum.gt(F::zero()) {
            F::one().div(sum)
        } else {
            F::zero()
        };
        let mut row: Vec<F> = Vec::new();
        let mut i: usize = 0;
        while i < d
            invariant
                i <= d,
                d == 128,
                chunks == blocks / 32,
                mbase == h * blocks,
                mbase + 32 * chunks <= partial_m@.len(),
                (mbase + 32 * chunks) * d <= partial_o@.len(),
                max == blocks_max(partial_m@, mbase as int, chunks as nat),
                sum == blocks_sum(partial_m@, partial_l@, mbase as int, chunks as nat),
                inv == (if sum.gt_s(F::zero_s()) {
                    F::one_s().div_s(sum)
                } else {
                    F::zero_s()
                }),
                row@.len() == i,
                forall|j: int|
                    0 <= j < i ==> #[trigger] row@[j] == blocks_out::<F, T>(
                        partial_m@,
                        partial_l@,
                        partial_o@,
                        h * blocks,
                        chunks as nat,
                        128,
                        j,
                    ),
            decreases d - i,
        {
            let red = reduce_out::<F, T>(partial_m, partial_o, mbase, chunks, d, i, max);
            row.push(red.mul(inv));
            i += 1;
        }
        store_row::<F, T>(out, h as usize * d, &row);
        h += 1;
    }
}

/// Sixty-four blocks serve up to 1024 positions, and any number of them with at
/// most four query heads per key/value head; past that the count grows with
/// the context: 128 up to 8192 positions, 256 up to 32768, 512 up to
/// 65536 and 1024 beyond.
pub proof fn law_blocks_by_context(n_kv: u32, n_simds: u32)
    ensures
        recommended_blocks(n_kv, n_simds) == 64 <==> n_simds <= 4 || n_kv <= 1024,
        4 < n_simds ==> (recommended_blocks(n_kv, n_simds) <= 128 <==> n_kv <= 8192),
        4 < n_simds ==> (recommended_blocks(n_kv, n_simds) <= 256 <==> n_kv <= 32768),
        4 < n_simds ==> (recommended_blocks(n_kv, n_simds) <= 512 <==> n_kv <= 65536),
        recommended_blocks(n_kv, n_simds) == 64 || recommended_blocks(n_kv, n_simds) == 128
            || recommended_blocks(n_kv, n_simds) == 256 || recommended_blocks(n_kv, n_simds) == 512
            || recommended_blocks(n_kv, n_simds) == 1024,
{
}

} // verus!
