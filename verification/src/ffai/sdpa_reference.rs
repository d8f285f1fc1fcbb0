//! Attention the textbook way, one row at a time: what the attention kernels
//! are measured against.
use vstd::prelude::*;

use super::attention::{
    all_scores, all_values, cache_row, pick_max, scaled_row, Bias, BiasRef, Scores, Sink,
};
use super::sdpa_bidirectional_d128_relpos::{load_relative_bias, relative_bias};
use super::sdpa_decode::{decode_row, decode_walk};
use super::sdpa_laws::{law_block_is_softmax, law_decode_is_softmax, law_score_is_scaled_dot};
use super::sdpa_multi::{attended, block_row};
use super::sdpa_rows::slab;
use super::softmax::{
    finite_scores, range_max, sink_logit, softmax_attention, softmax_max, softmax_sum, weight,
};
use crate::index::{lemma_index_row, lemma_mul_le, lemma_row, lemma_row_col};
use crate::num::{ExactNum, Num, Store};
use crate::sums::{lemma_range_congr, lemma_zero_add, range_sum};

verus! {

/// Query row at `q_off` times key row at `k_off`, scaled.
pub open spec fn plain_score<F: Num, T: Store<F>>(
    q: Seq<T>,
    q_off: int,
    k: Seq<T>,
    k_off: int,
    d: int,
    scale: F,
) -> F {
    range_sum(|i: int| q[q_off + i].widen_s().mul_s(k[k_off + i].widen_s()), 0, d).mul_s(scale)
}

/// Scores of the first `n_kv` keys of the slab at `base`.
pub open spec fn plain_scores<F: Num, T: Store<F>>(
    q: Seq<T>,
    q_off: int,
    k: Seq<T>,
    base: int,
    d: int,
    n_kv: nat,
    scale: F,
    bias: Bias<F>,
) -> Scores<F> {
    Scores {
        at: Seq::new(
            n_kv,
            |t: int|
                bias.apply(plain_score::<F, T>(q, q_off, k, base + t * d, d, scale), t),
        ),
        blocked: Set::new(|t: int| bias.blocks(t)),
    }
}

/// Largest score, or extra logit.
pub open spec fn plain_max<F: Num>(scores: Scores<F>, extra: Option<F>) -> F {
    let m = range_max(scores, F::neg_inf_s(), 0, scores.at.len() as int);
    match extra {
        None => m,
        Some(x) => pick_max(x, m),
    }
}

/// Softmax denominator relative to `max`.
pub open spec fn plain_sum<F: Num>(scores: Scores<F>, extra: Option<F>, max: F) -> F {
    let sum = range_sum(|t: int| weight(scores, t, max), 0, scores.at.len() as int);
    match extra {
        None => sum,
        Some(x) => sum.add_s(x.sub_s(max).exp_s()),
    }
}

/// One over the denominator, or zero where there is none.
pub open spec fn plain_inverse<F: Num>(sum: F) -> F {
    if sum.gt_s(F::zero_s()) {
        F::one_s().div_s(sum)
    } else {
        F::zero_s()
    }
}

/// Element `i` of the softmax-weighted values of the slab at `base`.
pub open spec fn plain_attention<F: Num, T: Store<F>>(
    scores: Scores<F>,
    v: Seq<T>,
    base: int,
    d: int,
    extra: Option<F>,
    i: int,
) -> F {
    let max = plain_max(scores, extra);
    let inv = plain_inverse(plain_sum(scores, extra, max));
    range_sum(
        |t: int|
            weight(scores, t, max).mul_s(inv).mul_s(v[base + t * d + i].widen_s()),
        0,
        scores.at.len() as int,
    )
}

/// Attends one query row.
fn naive_attend<F: Num, T: Store<F>>(
    q: &[T],
    k: &[T],
    v: &[T],
    q_off: usize,
    base: usize,
    d: usize,
    n_kv: usize,
    scale: F,
    bias: BiasRef<F>,
    extra: Option<F>,
) -> (r: Vec<F>)
    requires
        q_off + d <= q@.len(),
        base + n_kv * d <= k@.len(),
        base + n_kv * d <= v@.len(),
        bias@.covers(n_kv as int),
    ensures
        r@ == Seq::new(
            d as nat,
            |i: int|
                plain_attention::<F, T>(
                    plain_scores::<F, T>(
                        q@,
                        q_off as int,
                        k@,
                        base as int,
                        d as int,
                        n_kv as nat,
                        scale,
                        bias@,
                    ),
                    v@,
                    base as int,
                    d as int,
                    extra,
                    i,
                ),
        ),
{
    let q_len: usize = q.len();
    let k_len: usize = k.len();
    let v_len: usize = v.len();
    let ghost full = plain_scores::<F, T>(
        q@,
        q_off as int,
        k@,
        base as int,
        d as int,
        n_kv as nat,
        scale,
        bias@,
    );
    let mut scores: Vec<F> = Vec::new();
    let mut max = F::neg_inf();
    let mut t: usize = 0;
    while t < n_kv
        invariant
            t <= n_kv,
            q_off + d <= q@.len() == q_len,
            base + n_kv * d <= k@.len() == k_len,
            bias@.covers(n_kv as int),
            full == plain_scores::<F, T>(
                q@,
                q_off as int,
                k@,
                base as int,
                d as int,
                n_kv as nat,
                scale,
                bias@,
            ),
            scores@ == full.at.take(t as int),
            max == range_max(full, F::neg_inf_s(), 0, t as int),
        decreases n_kv - t,
    {
        proof {
            lemma_row(t as int, n_kv as int, d as int);
        }
        let k_off: usize = base + t * d;
        let ghost f = |i: int| q@[q_off + i].widen_s().mul_s(k@[k_off + i].widen_s());
        let mut dot = F::zero();
        let mut i: usize = 0;
        while i < d
            invariant
                i <= d,
                q_off + d <= q@.len() == q_len,
                k_off + d <= k@.len() == k_len,
                f == (|i: int| q@[q_off + i].widen_s().mul_s(k@[k_off + i].widen_s())),
                dot == range_sum(f, 0, i as int),
            decreases d - i,
        {
            dot = dot.add(q[q_off + i].widen().mul(k[k_off + i].widen()));
            i += 1;
        }
        let score = bias.get_applied(dot.mul(scale), t);
        assert(score == full.at[t as int]);
        if !bias.get_blocks(t) && score.gt(max) {
            max = score;
        }
        scores.push(score);
        assert(scores@ =~= full.at.take(t + 1));
        t += 1;
    }
    assert(scores@ =~= full.at);
    if let Some(x) = extra {
        if x.gt(max) {
            max = x;
        }
    }
    let ghost e = |t: int| weight(full, t, max);
    let mut exps: Vec<F> = Vec::new();
    let mut sum = F::zero();
    let mut t: usize = 0;
    while t < n_kv
        invariant
            t <= n_kv,
            bias@.covers(n_kv as int),
            scores@ == full.at,
            full.blocked == Set::new(|t: int| bias@.blocks(t)),
            full.at.len() == n_kv,
            e == (|t: int| weight(full, t, max)),
            exps@.len() == t,
            forall|c: int| 0 <= c < t ==> #[trigger] exps@[c] == weight(full, c, max),
            sum == range_sum(e, 0, t as int),
        decreases n_kv - t,
    {
        let w = if bias.get_blocks(t) {
            F::zero()
        } else {
            scores[t].sub(max).exp()
        };
        exps.push(w);
        sum = sum.add(w);
        t += 1;
    }
    if let Some(x) = extra {
        sum = sum.add(x.sub(max).exp());
    }
    let inv = if sum.gt(F::zero()) {
        F::one().div(sum)
    } else {
        F::zero()
    };
    assert(max == plain_max(full, extra));
    assert(inv == plain_inverse(plain_sum(full, extra, max)));
    let ghost row = Seq::new(
        d as nat,
        |i: int| plain_attention::<F, T>(full, v@, base as int, d as int, extra, i),
    );
    let mut out: Vec<F> = Vec::new();
    let mut i: usize = 0;
    while i < d
        invariant
            i <= d,
            full.at.len() == n_kv,
            base + n_kv * d <= v@.len() == v_len,
            exps@.len() == n_kv,
            forall|c: int| 0 <= c < n_kv ==> #[trigger] exps@[c] == weight(full, c, max),
            max == plain_max(full, extra),
            inv == plain_inverse(plain_sum(full, extra, max)),
            row == Seq::new(
                d as nat,
                |i: int| plain_attention::<F, T>(full, v@, base as int, d as int, extra, i),
            ),
            out@ == row.take(i as int),
        decreases d - i,
    {
        let ghost g = |t: int|
            weight(full, t, max).mul_s(inv).mul_s(v@[base + t * d + i].widen_s());
        let mut acc = F::zero();
        let mut t: usize = 0;
        while t < n_kv
            invariant
                t <= n_kv,
                i < d,
                full.at.len() == n_kv,
                base + n_kv * d <= v@.len() == v_len,
                exps@.len() == n_kv,
                forall|c: int|
                    0 <= c < n_kv ==> #[trigger] exps@[c] == weight(full, c, max),
                g == (|t: int|
                    weight(full, t, max).mul_s(inv).mul_s(v@[base + t * d + i].widen_s())),
                acc == range_sum(g, 0, t as int),
            decreases n_kv - t,
        {
            proof {
                lemma_row(t as int, n_kv as int, d as int);
            }
            acc = acc.add(exps[t].mul(inv).mul(v[base + t * d + i].widen()));
            t += 1;
        }
        out.push(acc);
        assert(out@ =~= row.take(i + 1));
        i += 1;
    }
    assert(out@ =~= row);
    out
}

/// Appends a row to a row-major matrix.
fn append_row<F: Num>(out: &mut Vec<F>, row: &Vec<F>)
    ensures
        final(out)@ == old(out)@ + row@,
{
    let ghost before = out@;
    let n: usize = row.len();
    let mut i: usize = 0;
    while i < n
        invariant
            i <= n == row@.len(),
            out@ == before + row@.take(i as int),
        decreases n - i,
    {
        out.push(row[i]);
        assert(out@ =~= before + row@.take(i + 1));
        i += 1;
    }
    assert(row@.take(n as int) =~= row@);
}

/// Query heads share key/value heads evenly, and the cache holds every slab.
pub open spec fn heads_fit(
    len: nat,
    n_q_heads: u32,
    n_kv_heads: u32,
    kv_stride: u32,
    d: u32,
) -> bool {
    &&& 0 < n_kv_heads
    &&& n_q_heads % n_kv_heads == 0
    &&& n_kv_heads * kv_stride * d <= len
}

proof fn lemma_heads(
    h: int,
    len: nat,
    n_q_heads: u32,
    n_kv_heads: u32,
    n_kv: int,
    kv_stride: u32,
    d: u32,
)
    requires
        heads_fit(len, n_q_heads, n_kv_heads, kv_stride, d),
        0 <= h < n_q_heads,
        0 <= n_kv <= kv_stride,
    ensures
        ({
            let gqa = n_q_heads as int / n_kv_heads as int;
            &&& 0 < gqa
            &&& 0 <= h / gqa < n_kv_heads
            &&& 0 <= (h / gqa) * kv_stride
            &&& 0 <= slab(h / gqa, kv_stride as int, d as int)
            &&& slab(h / gqa, kv_stride as int, d as int) + n_kv * d <= len
        }),
{
    let gqa = n_q_heads as int / n_kv_heads as int;
    vstd::arithmetic::div_mod::lemma_fundamental_div_mod(n_q_heads as int, n_kv_heads as int);
    vstd::arithmetic::div_mod::lemma_div_pos_is_pos(n_q_heads as int, n_kv_heads as int);
    assert(0 < gqa) by (nonlinear_arith)
        requires
            n_q_heads as int == n_kv_heads * gqa,
            0 < n_q_heads,
            0 <= gqa,
    ;
    lemma_index_row(h, n_kv_heads as int, gqa);
    let kvh = h / gqa;
    lemma_row(kvh, n_kv_heads as int, kv_stride as int);
    lemma_mul_le(kvh * kv_stride, kvh * kv_stride, 0, d as int);
    lemma_mul_le(
        kvh * kv_stride + n_kv,
        n_kv_heads * kv_stride,
        d as int,
        d as int,
    );
    assert((kvh * kv_stride + n_kv) * d == kvh * kv_stride * d + n_kv * d) by (nonlinear_arith);
}

/// Element `i` of the output of `naive_heads`.
pub open spec fn naive_head<F: Num, T: Store<F>>(
    q: Seq<T>,
    k: Seq<T>,
    v: Seq<T>,
    gqa: int,
    d: int,
    n_kv: u32,
    kv_stride: int,
    scale: F,
    extra: Option<F>,
    h: int,
    i: int,
) -> F {
    plain_attention::<F, T>(
        plain_scores::<F, T>(
            q,
            h * d,
            k,
            slab(h / gqa, kv_stride, d),
            d,
            n_kv as nat,
            scale,
            Bias::Absent,
        ),
        v,
        slab(h / gqa, kv_stride, d),
        d,
        extra,
        i,
    )
}

/// The extra logit of a head, where every head has one.
pub open spec fn head_sink<F>(sink: Option<&[F]>, h: int) -> Option<F> {
    match sink {
        None => None,
        Some(s) => Some(s@[h]),
    }
}

/// Attends one query row per head.
fn naive_heads<F: Num, T: Store<F>>(
    q: &[T],
    k: &[T],
    v: &[T],
    sink: Option<&[F]>,
    n_q_heads: u32,
    n_kv_heads: u32,
    head_dim: u32,
    n_kv: u32,
    kv_stride: u32,
    scale: F,
) -> (out: Vec<F>)
    requires
        heads_fit(k@.len(), n_q_heads, n_kv_heads, kv_stride, head_dim),
        heads_fit(v@.len(), n_q_heads, n_kv_heads, kv_stride, head_dim),
        n_kv <= kv_stride,
        n_q_heads * head_dim <= q@.len(),
        sink matches Some(s) ==> n_q_heads <= s@.len(),
    ensures
        out@.len() == n_q_heads * head_dim,
        forall|i: int|
            0 <= i < n_q_heads * head_dim ==> #[trigger] out@[i] == naive_head::<F, T>(
                q@,
                k@,
                v@,
                n_q_heads as int / n_kv_heads as int,
                head_dim as int,
                n_kv,
                kv_stride as int,
                scale,
                head_sink(sink, i / head_dim as int),
                i / head_dim as int,
                i % head_dim as int,
            ),
{
    let q_len: usize = q.len();
    let k_len: usize = k.len();
    let gqa: u32 = n_q_heads / n_kv_heads;
    let d: usize = head_dim as usize;
    let mut out: Vec<F> = Vec::new();
    let mut h: u32 = 0;
    while h < n_q_heads
        invariant
            h <= n_q_heads,
            d == head_dim,
            gqa == n_q_heads / n_kv_heads,
            heads_fit(k@.len(), n_q_heads, n_kv_heads, kv_stride, head_dim),
            heads_fit(v@.len(), n_q_heads, n_kv_heads, kv_stride, head_dim),
            n_kv <= kv_stride,
            n_q_heads * head_dim <= q@.len() == q_len,
            k@.len() == k_len,
            sink matches Some(s) ==> n_q_heads <= s@.len(),
            out@.len() == h * head_dim,
            forall|i: int|
                0 <= i < h * head_dim ==> #[trigger] out@[i] == naive_head::<F, T>(
                    q@,
                    k@,
                    v@,
                    gqa as int,
                    head_dim as int,
                    n_kv,
                    kv_stride as int,
                    scale,
                    head_sink(sink, i / head_dim as int),
                    i / head_dim as int,
                    i % head_dim as int,
                ),
        decreases n_q_heads - h,
    {
        proof {
            lemma_row(h as int, n_q_heads as int, head_dim as int);
            lemma_heads(
                h as int,
                k@.len(),
                n_q_heads,
                n_kv_heads,
                n_kv as int,
                kv_stride,
                head_dim,
            );
            lemma_heads(
                h as int,
                v@.len(),
                n_q_heads,
                n_kv_heads,
                n_kv as int,
                kv_stride,
                head_dim,
            );
            lemma_mul_le(
                h as int / gqa as int,
                0xffff_ffff,
                kv_stride as int,
                0xffff_ffff,
            );
        }
        let rows: u64 = (h / gqa) as u64 * kv_stride as u64;
        let base: usize = if d == 0 {
            proof {
                assert(rows * head_dim == 0) by (nonlinear_arith)
                    requires
                        head_dim == 0,
                ;
            }
            0
        } else {
            proof {
                lemma_mul_le(rows as int, rows as int, 1, head_dim as int);
            }
            rows as usize * d
        };
        let extra: Option<F> = match sink {
            None => None,
            Some(s) => Some(s[h as usize]),
        };
        let row = naive_attend::<F, T>(
            q,
            k,
            v,
            h as usize * d,
            base,
            d,
            n_kv as usize,
            scale,
            BiasRef::Absent,
            extra,
        );
        let ghost before = out@;
        append_row(&mut out, &row);
        proof {
            assert forall|i: int| 0 <= i < (h + 1) * head_dim implies #[trigger] out@[i]
                == naive_head::<F, T>(
                q@,
                k@,
                v@,
                gqa as int,
                head_dim as int,
                n_kv,
                kv_stride as int,
                scale,
                head_sink(sink, i / head_dim as int),
                i / head_dim as int,
                i % head_dim as int,
            ) by {
                if i < h * head_dim {
                    assert(out@[i] == before[i]);
                } else {
                    lemma_row_col(h as int, i - h * head_dim, head_dim as int);
                }
            }
        }
        h += 1;
    }
    out
}

/// Attention of one new token per query head.
pub fn naive_sdpa<F: Num, T: Store<F>>(
    q: &[T],
    k: &[T],
    v: &[T],
    n_q_heads: u32,
    n_kv_heads: u32,
    head_dim: u32,
    n_kv: u32,
    kv_stride: u32,
    scale: F,
) -> (out: Vec<F>)
    requires
        heads_fit(k@.len(), n_q_heads, n_kv_heads, kv_stride, head_dim),
        heads_fit(v@.len(), n_q_heads, n_kv_heads, kv_stride, head_dim),
        n_kv <= kv_stride,
        n_q_heads * head_dim <= q@.len(),
    ensures
        out@.len() == n_q_heads * head_dim,
        forall|i: int|
            0 <= i < n_q_heads * head_dim ==> #[trigger] out@[i] == naive_head::<F, T>(
                q@,
                k@,
                v@,
                n_q_heads as int / n_kv_heads as int,
                head_dim as int,
                n_kv,
                kv_stride as int,
                scale,
                None,
                i / head_dim as int,
                i % head_dim as int,
            ),
{
    naive_heads::<F, T>(
        q,
        k,
        v,
        None,
        n_q_heads,
        n_kv_heads,
        head_dim,
        n_kv,
        kv_stride,
        scale,
    )
}

/// Attention of one new token per query head, with a sink logit per head.
pub fn naive_sdpa_sink<F: Num, T: Store<F>>(
    q: &[T],
    k: &[T],
    v: &[T],
    sink: &[F],
    n_q_heads: u32,
    n_kv_heads: u32,
    head_dim: u32,
    n_kv: u32,
    kv_stride: u32,
    scale: F,
) -> (out: Vec<F>)
    requires
        heads_fit(k@.len(), n_q_heads, n_kv_heads, kv_stride, head_dim),
        heads_fit(v@.len(), n_q_heads, n_kv_heads, kv_stride, head_dim),
        n_kv <= kv_stride,
        n_q_heads * head_dim <= q@.len(),
        n_q_heads <= sink@.len(),
    ensures
        out@.len() == n_q_heads * head_dim,
        forall|i: int|
            0 <= i < n_q_heads * head_dim ==> #[trigger] out@[i] == naive_head::<F, T>(
                q@,
                k@,
                v@,
                n_q_heads as int / n_kv_heads as int,
                head_dim as int,
                n_kv,
                kv_stride as int,
                scale,
                Some(sink@[i / head_dim as int]),
                i / head_dim as int,
                i % head_dim as int,
            ),
{
    naive_heads::<F, T>(
        q,
        k,
        v,
        Some(sink),
        n_q_heads,
        n_kv_heads,
        head_dim,
        n_kv,
        kv_stride,
        scale,
    )
}

/// Element `i` of output row `r` (query `r / n_q_heads`, head `r % n_q_heads`)
/// of a query block when `n_kv` positions are attended.
pub open spec fn naive_block_row<F: Num, T: Store<F>>(
    q: Seq<T>,
    k: Seq<T>,
    v: Seq<T>,
    n_q_heads: int,
    gqa: int,
    d: int,
    n_kv: u32,
    kv_stride: int,
    scale: F,
    bias: Bias<F>,
    r: int,
    i: int,
) -> F {
    let base = slab((r % n_q_heads) / gqa, kv_stride, d);
    plain_attention::<F, T>(
        plain_scores::<F, T>(q, r * d, k, base, d, n_kv as nat, scale, bias),
        v,
        base,
        d,
        None,
        i,
    )
}

/// Attends output row `r` of a query block.
fn naive_block_attend<F: Num, T: Store<F>>(
    q: &[T],
    k: &[T],
    v: &[T],
    n_q_heads: u32,
    n_kv_heads: u32,
    head_dim: u32,
    n_kv: u32,
    kv_stride: u32,
    scale: F,
    bias: BiasRef<F>,
    rows: usize,
    r: usize,
) -> (row: Vec<F>)
    requires
        heads_fit(k@.len(), n_q_heads, n_kv_heads, kv_stride, head_dim),
        heads_fit(v@.len(), n_q_heads, n_kv_heads, kv_stride, head_dim),
        n_kv <= kv_stride,
        0 < n_q_heads,
        r < rows,
        rows * head_dim <= q@.len(),
        bias@.covers(n_kv as int),
    ensures
        row@ == Seq::new(
            head_dim as nat,
            |i: int|
                naive_block_row::<F, T>(
                    q@,
                    k@,
                    v@,
                    n_q_heads as int,
                    n_q_heads as int / n_kv_heads as int,
                    head_dim as int,
                    n_kv,
                    kv_stride as int,
                    scale,
                    bias@,
                    r as int,
                    i,
                ),
        ),
{
    let q_len: usize = q.len();
    let k_len: usize = k.len();
    let gqa: u32 = n_q_heads / n_kv_heads;
    let d: usize = head_dim as usize;
    let h: u32 = (r % n_q_heads as usize) as u32;
    proof {
        lemma_row(r as int, rows as int, head_dim as int);
        lemma_heads(
            h as int,
            k@.len(),
            n_q_heads,
            n_kv_heads,
            n_kv as int,
            kv_stride,
            head_dim,
        );
        lemma_heads(
            h as int,
            v@.len(),
            n_q_heads,
            n_kv_heads,
            n_kv as int,
            kv_stride,
            head_dim,
        );
        lemma_mul_le(h as int / gqa as int, 0xffff_ffff, kv_stride as int, 0xffff_ffff);
    }
    let slab_rows: u64 = (h / gqa) as u64 * kv_stride as u64;
    let base: usize = if d == 0 {
        proof {
            assert(slab_rows * head_dim == 0) by (nonlinear_arith)
                requires
                    head_dim == 0,
            ;
        }
        0
    } else {
        proof {
            lemma_mul_le(slab_rows as int, slab_rows as int, 1, head_dim as int);
        }
        slab_rows as usize * d
    };
    let row = naive_attend::<F, T>(
        q,
        k,
        v,
        r * d,
        base,
        d,
        n_kv as usize,
        scale,
        bias,
        None,
    );
    assert(row@ =~= Seq::new(
        head_dim as nat,
        |i: int|
            naive_block_row::<F, T>(
                q@,
                k@,
                v@,
                n_q_heads as int,
                n_q_heads as int / n_kv_heads as int,
                head_dim as int,
                n_kv,
                kv_stride as int,
                scale,
                bias@,
                r as int,
                i,
            ),
    ));
    row
}

/// Attention of a block of queries over the cached prefix and the block,
/// causally or in full.
pub fn naive_sdpa_multi<F: Num, T: Store<F>>(
    q: &[T],
    k: &[T],
    v: &[T],
    n_q_heads: u32,
    n_kv_heads: u32,
    head_dim: u32,
    base_kv: u32,
    n_query: u32,
    kv_stride: u32,
    causal: bool,
    scale: F,
) -> (out: Vec<F>)
    requires
        heads_fit(k@.len(), n_q_heads, n_kv_heads, kv_stride, head_dim),
        heads_fit(v@.len(), n_q_heads, n_kv_heads, kv_stride, head_dim),
        base_kv + n_query <= kv_stride,
        n_query * n_q_heads <= usize::MAX,
        n_query * n_q_heads * head_dim <= q@.len(),
    ensures
        out@.len() == n_query * n_q_heads * head_dim,
        forall|i: int|
            0 <= i < n_query * n_q_heads * head_dim ==> #[trigger] out@[i] == naive_block_row::<
                F,
                T,
            >(
                q@,
                k@,
                v@,
                n_q_heads as int,
                n_q_heads as int / n_kv_heads as int,
                head_dim as int,
                attended(
                    if causal {
                        1
                    } else {
                        0
                    },
                    base_kv,
                    n_query,
                    (i / head_dim as int) / n_q_heads as int,
                ),
                kv_stride as int,
                scale,
                Bias::Absent,
                i / head_dim as int,
                i % head_dim as int,
            ),
{
    let mut out: Vec<F> = Vec::new();
    proof {
        lemma_mul_le(0, n_query as int, 0, n_q_heads as int);
    }
    let rows: usize = n_query as usize * n_q_heads as usize;
    let ghost flag: u32 = if causal {
        1
    } else {
        0
    };
    let mut r: usize = 0;
    while r < rows
        invariant
            r <= rows,
            rows == n_query * n_q_heads,
            flag == (if causal {
                1u32
            } else {
                0u32
            }),
            heads_fit(k@.len(), n_q_heads, n_kv_heads, kv_stride, head_dim),
            heads_fit(v@.len(), n_q_heads, n_kv_heads, kv_stride, head_dim),
            base_kv + n_query <= kv_stride,
            rows * head_dim <= q@.len(),
            out@.len() == r * head_dim,
            forall|i: int|
                0 <= i < r * head_dim ==> #[trigger] out@[i] == naive_block_row::<F, T>(
                    q@,
                    k@,
                    v@,
                    n_q_heads as int,
                    n_q_heads as int / n_kv_heads as int,
                    head_dim as int,
                    attended(
                        flag,
                        base_kv,
                        n_query,
                        (i / head_dim as int) / n_q_heads as int,
                    ),
                    kv_stride as int,
                    scale,
                    Bias::Absent,
                    i / head_dim as int,
                    i % head_dim as int,
                ),
        decreases rows - r,
    {
        proof {
            assert(n_q_heads > 0) by (nonlinear_arith)
                requires
                    0 <= r < rows,
                    rows == n_query * n_q_heads,
            ;
            lemma_index_row(r as int, n_query as int, n_q_heads as int);
        }
        let query: u32 = (r / n_q_heads as usize) as u32;
        let n_kv: u32 = if causal {
            base_kv + query + 1
        } else {
            base_kv + n_query
        };
        let row = naive_block_attend::<F, T>(
            q,
            k,
            v,
            n_q_heads,
            n_kv_heads,
            head_dim,
            n_kv,
            kv_stride,
            scale,
            BiasRef::Absent,
            rows,
            r,
        );
        let ghost before = out@;
        append_row(&mut out, &row);
        proof {
            lemma_row(r as int, rows as int, head_dim as int);
            assert forall|i: int| 0 <= i < (r + 1) * head_dim implies #[trigger] out@[i]
                == naive_block_row::<F, T>(
                q@,
                k@,
                v@,
                n_q_heads as int,
                n_q_heads as int / n_kv_heads as int,
                head_dim as int,
                attended(flag, base_kv, n_query, (i / head_dim as int) / n_q_heads as int),
                kv_stride as int,
                scale,
                Bias::Absent,
                i / head_dim as int,
                i % head_dim as int,
            ) by {
                if i < r * head_dim {
                    assert(out@[i] == before[i]);
                } else {
                    lemma_row_col(r as int, i - r * head_dim, head_dim as int);
                }
            }
        }
        r += 1;
    }
    out
}

/// Attention of a block of queries over all positions, with a bias per head
/// and relative position.
pub fn naive_relpos<F: Num, T: Store<F>>(
    q: &[T],
    k: &[T],
    v: &[T],
    bias: &[F],
    n_q_heads: u32,
    n_kv_heads: u32,
    head_dim: u32,
    base_kv: u32,
    n_query: u32,
    kv_stride: u32,
    rel_zero: u32,
    rel_len: u32,
    scale: F,
) -> (out: Vec<F>)
    requires
        heads_fit(k@.len(), n_q_heads, n_kv_heads, kv_stride, head_dim),
        heads_fit(v@.len(), n_q_heads, n_kv_heads, kv_stride, head_dim),
        base_kv + n_query <= kv_stride,
        0 < rel_len,
        n_q_heads * rel_len <= bias@.len(),
        n_query * n_q_heads <= usize::MAX,
        n_query * n_q_heads * head_dim <= q@.len(),
    ensures
        out@.len() == n_query * n_q_heads * head_dim,
        forall|i: int|
            0 <= i < n_query * n_q_heads * head_dim ==> #[trigger] out@[i] == naive_block_row::<
                F,
                T,
            >(
                q@,
                k@,
                v@,
                n_q_heads as int,
                n_q_heads as int / n_kv_heads as int,
                head_dim as int,
                (base_kv + n_query) as u32,
                kv_stride as int,
                scale,
                Bias::Added(
                    relative_bias(
                        bias@,
                        base_kv,
                        n_query,
                        rel_zero,
                        rel_len,
                        (i / head_dim as int) / n_q_heads as int,
                        (i / head_dim as int) % n_q_heads as int,
                    ),
                ),
                i / head_dim as int,
                i % head_dim as int,
            ),
{
    let mut out: Vec<F> = Vec::new();
    proof {
        lemma_mul_le(0, n_query as int, 0, n_q_heads as int);
    }
    let rows: usize = n_query as usize * n_q_heads as usize;
    let mut r: usize = 0;
    while r < rows
        invariant
            r <= rows,
            rows == n_query * n_q_heads,
            heads_fit(k@.len(), n_q_heads, n_kv_heads, kv_stride, head_dim),
            heads_fit(v@.len(), n_q_heads, n_kv_heads, kv_stride, head_dim),
            base_kv + n_query <= kv_stride,
            0 < rel_len,
            n_q_heads * rel_len <= bias@.len(),
            rows * head_dim <= q@.len(),
            out@.len() == r * head_dim,
            forall|i: int|
                0 <= i < r * head_dim ==> #[trigger] out@[i] == naive_block_row::<F, T>(
                    q@,
                    k@,
                    v@,
                    n_q_heads as int,
                    n_q_heads as int / n_kv_heads as int,
                    head_dim as int,
                    (base_kv + n_query) as u32,
                    kv_stride as int,
                    scale,
                    Bias::Added(
                        relative_bias(
                            bias@,
                            base_kv,
                            n_query,
                            rel_zero,
                            rel_len,
                            (i / head_dim as int) / n_q_heads as int,
                            (i / head_dim as int) % n_q_heads as int,
                        ),
                    ),
                    i / head_dim as int,
                    i % head_dim as int,
                ),
        decreases rows - r,
    {
        proof {
            assert(n_q_heads > 0) by (nonlinear_arith)
                requires
                    0 <= r < rows,
                    rows == n_query * n_q_heads,
            ;
            lemma_index_row(r as int, n_query as int, n_q_heads as int);
        }
        let query: usize = r / n_q_heads as usize;
        let head: usize = r % n_q_heads as usize;
        let b = load_relative_bias(
            bias,
            base_kv,
            n_query,
            rel_zero,
            rel_len,
            n_q_heads,
            query,
            head,
        );
        let row = naive_block_attend::<F, T>(
            q,
            k,
            v,
            n_q_heads,
            n_kv_heads,
            head_dim,
            base_kv + n_query,
            kv_stride,
            scale,
            BiasRef::Added(&b),
            rows,
            r,
        );
        let ghost before = out@;
        append_row(&mut out, &row);
        proof {
            lemma_row(r as int, rows as int, head_dim as int);
            assert forall|i: int| 0 <= i < (r + 1) * head_dim implies #[trigger] out@[i]
                == naive_block_row::<F, T>(
                q@,
                k@,
                v@,
                n_q_heads as int,
                n_q_heads as int / n_kv_heads as int,
                head_dim as int,
                (base_kv + n_query) as u32,
                kv_stride as int,
                scale,
                Bias::Added(
                    relative_bias(
                        bias@,
                        base_kv,
                        n_query,
                        rel_zero,
                        rel_len,
                        (i / head_dim as int) / n_q_heads as int,
                        (i / head_dim as int) % n_q_heads as int,
                    ),
                ),
                i / head_dim as int,
                i % head_dim as int,
            ) by {
                if i < r * head_dim {
                    assert(out@[i] == before[i]);
                } else {
                    lemma_row_col(r as int, i - r * head_dim, head_dim as int);
                }
            }
        }
        r += 1;
    }
    out
}

/// The lane-wise scores of a whole cache are the plain ones, and so is the
/// softmax over them.
proof fn lemma_plain<F: ExactNum, T: Store<F>>(
    q: Seq<T>,
    k: Seq<T>,
    v: Seq<T>,
    head_dim: u32,
    per_lane: usize,
    n_simd: u32,
    n_kv: u32,
    q_off: int,
    base: int,
    bias: Bias<F>,
    extra: Option<F>,
    scale: F,
    i: int,
)
    requires
        0 < per_lane,
        head_dim <= 32 * per_lane,
        0 <= i < head_dim,
    ensures
        ({
            let w = decode_walk(head_dim, per_lane, n_simd, n_kv, 0, 0);
            softmax_attention(
                w,
                all_scores(
                    w,
                    scaled_row::<F, T>(q, q_off, head_dim as nat, scale),
                    k,
                    base,
                    bias,
                ),
                all_values(w, v, base),
                extra,
                i,
            ) == plain_attention::<F, T>(
                plain_scores::<F, T>(
                    q,
                    q_off,
                    k,
                    base,
                    head_dim as int,
                    n_kv as nat,
                    scale,
                    bias,
                ),
                v,
                base,
                head_dim as int,
                extra,
                i,
            )
        }),
{
    let w = decode_walk(head_dim, per_lane, n_simd, n_kv, 0, 0);
    let d = head_dim as int;
    let row = scaled_row::<F, T>(q, q_off, head_dim as nat, scale);
    let a = all_scores(w, row, k, base, bias);
    let p = plain_scores::<F, T>(q, q_off, k, base, d, n_kv as nat, scale, bias);
    assert forall|t: int| 0 <= t < n_kv implies a.at[t] == p.at[t] by {
        let kr = cache_row::<F, T>(k, base, t, head_dim as nat);
        law_score_is_scaled_dot::<F, T>(q, q_off, kr, per_lane as nat, scale);
        lemma_range_congr(
            |j: int| q[q_off + j].widen_s().mul_s(kr[j]),
            |j: int| q[q_off + j].widen_s().mul_s(k[(base + t * d) + j].widen_s()),
            0,
            d,
        );
    }
    assert(a =~= p);
    let values = all_values::<F, T>(w, v, base);
    let n = n_kv as int;
    assert(range_max(p, F::neg_inf_s(), 0, 0) == F::neg_inf_s());
    let max = softmax_max(w, p, extra);
    assert(max == plain_max(p, extra));
    let e = |t: int| weight(p, t, max);
    lemma_zero_add(range_sum(e, 0, n));
    let sum = softmax_sum(w, p, extra, max);
    assert(sum == plain_sum(p, extra, max));
    let inv = plain_inverse(sum);
    let f = |t: int| weight(p, t, max).mul_s(inv).mul_s(values[t][i]);
    let g = |t: int| weight(p, t, max).mul_s(inv).mul_s(v[base + t * d + i].widen_s());
    lemma_zero_add(range_sum(f, 0, n));
    assert forall|t: int| 0 <= t < n implies #[trigger] f(t) == g(t) by {
        assert(values[t][i] == v[base + t * d + i].widen_s());
    }
    lemma_range_congr(f, g, 0, n);
}

/// A decode over the whole cache computes textbook attention, with the sink
/// logit, if any, as one more entry of the softmax.
pub proof fn law_decode_matches_naive<F: ExactNum, T: Store<F>>(
    q: Seq<T>,
    k: Seq<T>,
    v: Seq<T>,
    head_dim: u32,
    per_lane: usize,
    n_simd: u32,
    n_kv: u32,
    kv_stride: int,
    heads_per_group: int,
    sink: Sink<F>,
    scale: F,
    h: int,
    i: int,
)
    requires
        0 < n_simd <= 32,
        0 < per_lane,
        head_dim <= 32 * per_lane,
        0 <= i < head_dim,
        finite_scores(
            decode_walk(head_dim, per_lane, n_simd, n_kv, 0, 0),
            all_scores(
                decode_walk(head_dim, per_lane, n_simd, n_kv, 0, 0),
                scaled_row::<F, T>(q, h * head_dim, head_dim as nat, scale),
                k,
                slab(h / heads_per_group, kv_stride, head_dim as int),
                Bias::Absent,
            ),
        ),
    ensures
        decode_row(
            q,
            k,
            v,
            decode_walk(head_dim, per_lane, n_simd, n_kv, 0, 0),
            1,
            kv_stride,
            heads_per_group,
            sink,
            scale,
            h,
        )[i] == naive_head::<F, T>(
            q,
            k,
            v,
            heads_per_group,
            head_dim as int,
            n_kv,
            kv_stride,
            scale,
            sink_logit(sink),
            h,
            i,
        ),
{
    let w = decode_walk(head_dim, per_lane, n_simd, n_kv, 0, 0);
    assert(h / 1 == h);
    law_decode_is_softmax(
        q,
        k,
        v,
        w,
        1,
        kv_stride,
        heads_per_group,
        sink,
        scale,
        h,
        i,
    );
    lemma_plain::<F, T>(
        q,
        k,
        v,
        head_dim,
        per_lane,
        n_simd,
        n_kv,
        h * head_dim,
        slab(h / heads_per_group, kv_stride, head_dim as int),
        Bias::Absent,
        sink_logit(sink),
        scale,
        i,
    );
}

/// A row of a query block computes textbook attention over the positions that
/// it attends, with the bias, if any, added to the scores.
pub proof fn law_block_matches_naive<F: ExactNum, T: Store<F>>(
    q: Seq<T>,
    k: Seq<T>,
    v: Seq<T>,
    head_dim: u32,
    per_lane: usize,
    n_simd: u32,
    n_kv: u32,
    n_q_heads: int,
    kv_stride: int,
    heads_per_group: int,
    bias: Bias<F>,
    scale: F,
    r: int,
    i: int,
)
    requires
        0 < n_simd <= 32,
        0 < per_lane,
        head_dim <= 32 * per_lane,
        0 <= i < head_dim,
        finite_scores(
            decode_walk(head_dim, per_lane, n_simd, n_kv, 0, 0),
            all_scores(
                decode_walk(head_dim, per_lane, n_simd, n_kv, 0, 0),
                scaled_row::<F, T>(q, r * head_dim, head_dim as nat, scale),
                k,
                slab((r % n_q_heads) / heads_per_group, kv_stride, head_dim as int),
                bias,
            ),
        ),
    ensures
        block_row(
            q,
            k,
            v,
            decode_walk(head_dim, per_lane, n_simd, n_kv, 0, 0),
            n_q_heads,
            kv_stride,
            heads_per_group,
            bias,
            scale,
            r,
        )[i] == naive_block_row::<F, T>(
            q,
            k,
            v,
            n_q_heads,
            heads_per_group,
            head_dim as int,
            n_kv,
            kv_stride,
            scale,
            bias,
            r,
            i,
        ),
{
    let w = decode_walk(head_dim, per_lane, n_simd, n_kv, 0, 0);
    law_block_is_softmax(
        q,
        k,
        v,
        w,
        n_q_heads,
        kv_stride,
        heads_per_group,
        bias,
        scale,
        r,
        i,
    );
    lemma_plain::<F, T>(
        q,
        k,
        v,
        head_dim,
        per_lane,
        n_simd,
        n_kv,
        r * head_dim,
        slab((r % n_q_heads) / heads_per_group, kv_stride, head_dim as int),
        bias,
        None,
        scale,
        i,
    );
}

} // verus!
