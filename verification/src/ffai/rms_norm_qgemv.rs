//! RMS normalisation fused with a quantised matrix-vector product.
use vstd::prelude::*;

use super::gather::{bias_of, code, lemma_weight_bounds, scale_of, words_in_row, Quant, Weights};
use super::gemv::{run_thread, thread_fold};
use super::mma::{half_word, nibble_mask, place};
use super::norm::{get_strided_rms, strided_rms};
use crate::num::{Num, Store};
use crate::quant::extract;

verus! {

/// The normalised, weighted input.
pub open spec fn normed<F: Num, T: Store<F>>(
    x: Seq<T>,
    norm_weight: Seq<T>,
    inv: F,
    n: u32,
) -> Seq<F> {
    Seq::new(n as nat, |d: int| x[d].widen_s().mul_s(norm_weight[d].widen_s()).mul_s(inv))
}

/// Computes [`normed`].
pub fn get_normed<F: Num, T: Store<F>>(x: &[T], norm_weight: &[T], inv: F, n: u32) -> (r: Vec<F>)
    requires
        n <= x@.len(),
        n <= norm_weight@.len(),
    ensures
        r@ == normed::<F, T>(x@, norm_weight@, inv, n),
{
    let ghost full = normed::<F, T>(x@, norm_weight@, inv, n);
    let mut out: Vec<F> = Vec::new();
    let mut d: u32 = 0;
    while d < n
        invariant
            d <= n,
            n <= x@.len(),
            n <= norm_weight@.len(),
            full == normed::<F, T>(x@, norm_weight@, inv, n),
            out@ == full.take(d as int),
        decreases n - d,
    {
        out.push(x[d as usize].widen().mul(norm_weight[d as usize].widen()).mul(inv));
        assert(out@ =~= full.take(d + 1));
        d += 1;
    }
    assert(out@ =~= full);
    out
}

/// Weight row `row` times `m`, packs dealt to `threads` threads.
pub open spec fn threads_product<F: Num, T: Store<F>>(
    q: Quant,
    w: Weights<T>,
    row: int,
    m: Seq<F>,
    threads: u32,
) -> F {
    F::lane_sum_s(
        Seq::new(
            threads as nat,
            |t: int| thread_fold::<F, T>(q, w, row, m, None, t, threads as int, F::zero_s()),
        ),
    )
}

/// Normalises `x` and multiplies it by a four-bit weight matrix, one row per
/// threadgroup of `threads` threads.
pub fn ffai_rms_norm_qgemv<F: Num, T: Store<F>>(
    x: &[T],
    norm_weight: &[T],
    weight: &[u32],
    scales: &[T],
    biases: &[T],
    output: &mut Vec<T>,
    eps_buf: &[F],
    in_dim: u32,
    group_size: u32,
    out_dim: u32,
    threads: u32,
)
    requires
        (Quant { bits: 4, k_in: in_dim, m_out: out_dim, group_size, n_experts: 1 }).wf(),
        (Quant { bits: 4, k_in: in_dim, m_out: out_dim, group_size, n_experts: 1 }).fits(
            (Weights { words: weight@, scales: scales@, biases: biases@ }),
        ),
        group_size % 8 == 0,
        0 < threads,
        1 <= eps_buf@.len(),
        in_dim <= x@.len(),
        in_dim <= norm_weight@.len(),
        out_dim <= old(output)@.len(),
    ensures
        final(output)@.len() == old(output)@.len(),
        forall|i: int|
            0 <= i < old(output)@.len() ==> #[trigger] final(output)@[i] == (if i < out_dim {
                T::narrow_s(
                    threads_product::<F, T>(
                        (Quant { bits: 4, k_in: in_dim, m_out: out_dim, group_size, n_experts: 1 }),
                        (Weights { words: weight@, scales: scales@, biases: biases@ }),
                        i,
                        normed::<F, T>(
                            x@,
                            norm_weight@,
                            strided_rms::<F, T>(x@, in_dim, threads, eps_buf@[0]),
                            in_dim,
                        ),
                        threads,
                    ),
                )
            } else {
                old(output)@[i]
            }),
{
    let q = Quant { bits: 4, k_in: in_dim, m_out: out_dim, group_size, n_experts: 1 };
    let ghost w = (Weights { words: weight@, scales: scales@, biases: biases@ });
    let ghost before = output@;
    let inv = get_strided_rms::<F, T>(x, in_dim, threads, eps_buf[0]);
    let m = get_normed::<F, T>(x, norm_weight, inv, in_dim);
    let mut row: u32 = 0;
    while row < out_dim
        invariant
            row <= out_dim,
            q == (Quant { bits: 4, k_in: in_dim, m_out: out_dim, group_size, n_experts: 1 }),
            w == (Weights { words: weight@, scales: scales@, biases: biases@ }),
            q.wf(),
            q.fits(w),
            group_size % 8 == 0,
            0 < threads,
            m@.len() == in_dim,
            out_dim <= before.len(),
            output@.len() == before.len(),
            forall|i: int|
                0 <= i < before.len() ==> #[trigger] output@[i] == (if i < row {
                    T::narrow_s(threads_product::<F, T>(q, w, i, m@, threads))
                } else {
                    before[i]
                }),
        decreases out_dim - row,
    {
        let ghost full = Seq::new(
            threads as nat,
            |t: int|
                thread_fold::<F, T>(q, w, row as int, m@, None, t, threads as int, F::zero_s()),
        );
        let mut parts: Vec<F> = Vec::new();
        let mut t: u32 = 0;
        while t < threads
            invariant
                t <= threads,
                row < out_dim,
                q == (Quant { bits: 4, k_in: in_dim, m_out: out_dim, group_size, n_experts: 1 }),
                w == (Weights { words: weight@, scales: scales@, biases: biases@ }),
                q.wf(),
                q.fits(w),
                group_size % 8 == 0,
                m@.len() == in_dim,
                full == Seq::new(
                    threads as nat,
                    |t: int|
                        thread_fold::<F, T>(
                            q,
                            w,
                            row as int,
                            m@,
                            None,
                            t,
                            threads as int,
                            F::zero_s(),
                        ),
                ),
                parts@ == full.take(t as int),
            decreases threads - t,
        {
            let p = run_thread::<F, T>(
                q,
                weight,
                scales,
                biases,
                row as u64,
                &m,
                None,
                t,
                threads,
                F::zero(),
            );
            parts.push(p);
            assert(parts@ =~= full.take(t + 1));
            t += 1;
        }
        assert(parts@ =~= full);
        output.set(row as usize, T::narrow(F::lane_sum(&parts)));
        row += 1;
    }
}

/// Sum of the first `n` of the sixteen inputs at `xb`, from the left.
pub open spec fn input_sum<F: Num>(m: Seq<F>, xb: int, n: nat) -> F
    decreases n,
{
    if n <= 1 {
        m[xb]
    } else {
        input_sum(m, xb, (n - 1) as nat).add_s(m[xb + n - 1])
    }
}

/// Code `i` of the sixteen at `xb` times its input. A four-bit code is masked
/// out of its word without a shift, and the input is divided by its place
/// value instead.
pub open spec fn code_term<F: Num, T: Store<F>>(
    q: Quant,
    w: Weights<T>,
    row: int,
    m: Seq<F>,
    k: int,
) -> F {
    if q.bits == 4 {
        let j = k % 8;
        let p = j % 4;
        let masked = F::of_u32_s(
            half_word(w.words[row * q.words() + k / 8], j) & nibble_mask(p),
        );
        if p == 0 {
            masked.mul_s(m[k])
        } else {
            masked.mul_s(m[k].mul_s(F::recip_u32_s(place(p))))
        }
    } else {
        F::of_u32_s(code(q, w, row, k)).mul_s(m[k])
    }
}

/// The first `n` code terms at `xb`, from the left.
pub open spec fn code_sum<F: Num, T: Store<F>>(
    q: Quant,
    w: Weights<T>,
    row: int,
    m: Seq<F>,
    xb: int,
    n: nat,
) -> F
    decreases n,
{
    if n <= 1 {
        code_term::<F, T>(q, w, row, m, xb)
    } else {
        code_sum::<F, T>(q, w, row, m, xb, (n - 1) as nat).add_s(
            code_term::<F, T>(q, w, row, m, xb + n - 1),
        )
    }
}

/// What a lane has after its sixteen elements of blocks `b`, `b + 512`, ..:
/// scale times code terms, plus bias times inputs.
pub open spec fn block_fold<F: Num, T: Store<F>>(
    q: Quant,
    w: Weights<T>,
    row: int,
    m: Seq<F>,
    lane: int,
    b: int,
    acc: F,
) -> F
    decreases
            (if b < q.k_in {
                q.k_in - b
            } else {
                0
            }),
{
    if b >= q.k_in {
        acc
    } else {
        let xb = b + lane * 16;
        let g = xb / q.group_size as int;
        let next = acc.add_s(
            scale_of::<F, T>(q, w, row, g).mul_s(code_sum::<F, T>(q, w, row, m, xb, 16)),
        ).add_s(bias_of::<F, T>(q, w, row, g).mul_s(input_sum(m, xb, 16)));
        block_fold::<F, T>(q, w, row, m, lane, b + 512, next)
    }
}

/// Weight row `row` times `m`, sixteen elements per lane and block.
pub open spec fn blocks_product<F: Num, T: Store<F>>(
    q: Quant,
    w: Weights<T>,
    row: int,
    m: Seq<F>,
) -> F {
    F::lane_sum_s(
        Seq::new(32, |l: int| block_fold::<F, T>(q, w, row, m, l, 0, F::zero_s())),
    )
}

fn get_code_term<F: Num, T: Store<F>>(
    q: Quant,
    words: &[u32],
    scales: Ghost<Seq<T>>,
    biases: Ghost<Seq<T>>,
    row: u32,
    m: &Vec<F>,
    k: u32,
) -> (r: F)
    requires
        q.wf(),
        q.fits(Weights { words: words@, scales: scales@, biases: biases@ }),
        row < q.n_experts * q.m_out,
        k < q.k_in,
        m@.len() == q.k_in,
    ensures
        r == code_term::<F, T>(
            q,
            (Weights { words: words@, scales: scales@, biases: biases@ }),
            row as int,
            m@,
            k as int,
        ),
{
    let ghost w = Weights { words: words@, scales: scales@, biases: biases@ };
    let w_len: usize = words.len();
    proof {
        lemma_weight_bounds(q, w, row as int, k as int);
    }
    let words_row: usize = words_in_row(q);
    let x = m[k as usize];
    if q.bits == 4 {
        assert((k * 4) / 32 == k / 8);
        let word: u32 = words[row as usize * words_row + (k / 8) as usize];
        let j: u32 = k % 8;
        let half: u32 = if j < 4 {
            word
        } else {
            word >> 16u32
        };
        let p: u32 = j % 4;
        if p == 0 {
            F::of_u32(half & 15).mul(x)
        } else if p == 1 {
            F::of_u32(half & 240).mul(x.mul(F::recip_u32(16)))
        } else if p == 2 {
            F::of_u32(half & 3840).mul(x.mul(F::recip_u32(256)))
        } else {
            F::of_u32(half & 61440).mul(x.mul(F::recip_u32(4096)))
        }
    } else {
        F::of_u32(extract(q.bits, words, row as usize * words_row, k)).mul(x)
    }
}

/// Computes [`blocks_product`].
fn get_blocks_product<F: Num, T: Store<F>>(
    q: Quant,
    words: &[u32],
    scales: &[T],
    biases: &[T],
    row: u32,
    m: &Vec<F>,
) -> (r: F)
    requires
        q.wf(),
        q.k_in % 512 == 0,
        q.fits(Weights { words: words@, scales: scales@, biases: biases@ }),
        row < q.n_experts * q.m_out,
        m@.len() == q.k_in,
    ensures
        r == blocks_product::<F, T>(
            q,
            (Weights { words: words@, scales: scales@, biases: biases@ }),
            row as int,
            m@,
        ),
{
    let ghost w = Weights { words: words@, scales: scales@, biases: biases@ };
    let s_len: usize = scales.len();
    let ghost full = Seq::new(
        32,
        |l: int| block_fold::<F, T>(q, w, row as int, m@, l, 0, F::zero_s()),
    );
    let mut lanes: Vec<F> = Vec::new();
    let mut lane: u32 = 0;
    while lane < 32
        invariant
            lane <= 32,
            q.wf(),
            q.k_in % 512 == 0,
            w == (Weights { words: words@, scales: scales@, biases: biases@ }),
            q.fits(w),
            scales@.len() == s_len,
            row < q.n_experts * q.m_out,
            m@.len() == q.k_in,
            full == Seq::new(
                32,
                |l: int| block_fold::<F, T>(q, w, row as int, m@, l, 0, F::zero_s()),
            ),
            lanes@ == full.take(lane as int),
        decreases 32 - lane,
    {
        let mut acc = F::zero();
        let mut at: u64 = 0;
        while at < q.k_in as u64
            invariant
                lane < 32,
                q.wf(),
                q.k_in % 512 == 0,
                at % 512 == 0,
                at <= q.k_in,
                w == (Weights { words: words@, scales: scales@, biases: biases@ }),
                q.fits(w),
                scales@.len() == s_len,
                row < q.n_experts * q.m_out,
                m@.len() == q.k_in,
                block_fold::<F, T>(q, w, row as int, m@, lane as int, at as int, acc)
                    == block_fold::<F, T>(q, w, row as int, m@, lane as int, 0, F::zero_s()),
            decreases q.k_in - at,
        {
            let b: u32 = at as u32;
            assert(b + 512 <= q.k_in);
            let xb: u32 = b + lane * 16;
            let mut ns = m[xb as usize];
            let mut qd = get_code_term::<F, T>(
                q,
                words,
                Ghost(scales@),
                Ghost(biases@),
                row,
                m,
                xb,
            );
            let mut n: u32 = 1;
            while n < 16
                invariant
                    1 <= n <= 16,
                    xb + 16 <= q.k_in,
                    q.wf(),
                    w == (Weights { words: words@, scales: scales@, biases: biases@ }),
                    q.fits(w),
                    row < q.n_experts * q.m_out,
                    m@.len() == q.k_in,
                    ns == input_sum(m@, xb as int, n as nat),
                    qd == code_sum::<F, T>(q, w, row as int, m@, xb as int, n as nat),
                decreases 16 - n,
            {
                ns = ns.add(m[(xb + n) as usize]);
                let term = get_code_term::<F, T>(
                    q,
                    words,
                    Ghost(scales@),
                    Ghost(biases@),
                    row,
                    m,
                    xb + n,
                );
                qd = qd.add(term);
                n += 1;
            }
            proof {
                lemma_weight_bounds(q, w, row as int, xb as int);
            }
            let groups: usize = (q.k_in / q.group_size) as usize;
            let g: usize = (xb / q.group_size) as usize;
            let scale = scales[row as usize * groups + g].widen();
            let bias = biases[row as usize * groups + g].widen();
            acc = acc.add(scale.mul(qd)).add(bias.mul(ns));
            at += 512;
        }
        lanes.push(acc);
        assert(lanes@ =~= full.take(lane + 1));
        lane += 1;
    }
    assert(lanes@ =~= full);
    F::lane_sum(&lanes)
}

/// Threads of the eight-row kernels.
pub const FAST_THREADS: u32 = 64;

fn fast_rows<F: Num, T: Store<F>>(
    q: Quant,
    x: &[T],
    norm_weight: &[T],
    weight: &[u32],
    scales: &[T],
    biases: &[T],
    output: &mut Vec<T>,
    eps: F,
)
    requires
        q.wf(),
        q.n_experts == 1,
        q.k_in % 512 == 0,
        q.fits((Weights { words: weight@, scales: scales@, biases: biases@ })),
        q.k_in <= x@.len(),
        q.k_in <= norm_weight@.len(),
        q.m_out <= old(output)@.len(),
    ensures
        final(output)@.len() == old(output)@.len(),
        forall|i: int|
            0 <= i < old(output)@.len() ==> #[trigger] final(output)@[i] == (if i < q.m_out {
                T::narrow_s(
                    blocks_product::<F, T>(
                        q,
                        (Weights { words: weight@, scales: scales@, biases: biases@ }),
                        i,
                        normed::<F, T>(
                            x@,
                            norm_weight@,
                            strided_rms::<F, T>(x@, q.k_in, FAST_THREADS, eps),
                            q.k_in,
                        ),
                    ),
                )
            } else {
                old(output)@[i]
            }),
{
    let ghost w = (Weights { words: weight@, scales: scales@, biases: biases@ });
    let ghost before = output@;
    let inv = get_strided_rms::<F, T>(x, q.k_in, FAST_THREADS, eps);
    let m = get_normed::<F, T>(x, norm_weight, inv, q.k_in);
    let mut row: u32 = 0;
    while row < q.m_out
        invariant
            row <= q.m_out,
            q.wf(),
            q.n_experts == 1,
            q.k_in % 512 == 0,
            w == (Weights { words: weight@, scales: scales@, biases: biases@ }),
            q.fits(w),
            m@.len() == q.k_in,
            q.m_out <= before.len(),
            output@.len() == before.len(),
            forall|i: int|
                0 <= i < before.len() ==> #[trigger] output@[i] == (if i < row {
                    T::narrow_s(blocks_product::<F, T>(q, w, i, m@))
                } else {
                    before[i]
                }),
        decreases q.m_out - row,
    {
        let v = get_blocks_product::<F, T>(q, weight, scales, biases, row, &m);
        output.set(row as usize, T::narrow(v));
        row += 1;
    }
}

/// Normalises `x` and multiplies it by a four-bit weight matrix, eight rows
/// per threadgroup.
pub fn ffai_rms_norm_qgemv_fast<F: Num, T: Store<F>>(
    x: &[T],
    norm_weight: &[T],
    weight: &[u32],
    scales: &[T],
    biases: &[T],
    output: &mut Vec<T>,
    eps_buf: &[F],
    in_dim: u32,
    group_size: u32,
    out_dim: u32,
)
    requires
        (Quant { bits: 4, k_in: in_dim, m_out: out_dim, group_size, n_experts: 1 }).wf(),
        (Quant { bits: 4, k_in: in_dim, m_out: out_dim, group_size, n_experts: 1 }).fits(
            (Weights { words: weight@, scales: scales@, biases: biases@ }),
        ),
        in_dim % 512 == 0,
        group_size == 64,
        out_dim % 8 == 0,
        1 <= eps_buf@.len(),
        in_dim <= x@.len(),
        in_dim <= norm_weight@.len(),
        out_dim <= old(output)@.len(),
    ensures
        final(output)@.len() == old(output)@.len(),
        forall|i: int|
            0 <= i < old(output)@.len() ==> #[trigger] final(output)@[i] == (if i < out_dim {
                T::narrow_s(
                    blocks_product::<F, T>(
                        (Quant { bits: 4, k_in: in_dim, m_out: out_dim, group_size, n_experts: 1 }),
                        (Weights { words: weight@, scales: scales@, biases: biases@ }),
                        i,
                        normed::<F, T>(
                            x@,
                            norm_weight@,
                            strided_rms::<F, T>(x@, in_dim, FAST_THREADS, eps_buf@[0]),
                            in_dim,
                        ),
                    ),
                )
            } else {
                old(output)@[i]
            }),
{
    fast_rows(
        Quant { bits: 4, k_in: in_dim, m_out: out_dim, group_size, n_experts: 1 },
        x,
        norm_weight,
        weight,
        scales,
        biases,
        output,
        eps_buf[0],
    );
}

/// Normalises `x` and multiplies it by an eight-bit weight matrix, eight rows
/// per threadgroup.
pub fn ffai_rms_norm_qgemv_int8_fast<F: Num, T: Store<F>>(
    x: &[T],
    norm_weight: &[T],
    weight: &[u32],
    scales: &[T],
    biases: &[T],
    output: &mut Vec<T>,
    eps_buf: &[F],
    in_dim: u32,
    group_size: u32,
    out_dim: u32,
)
    requires
        (Quant { bits: 8, k_in: in_dim, m_out: out_dim, group_size, n_experts: 1 }).wf(),
        (Quant { bits: 8, k_in: in_dim, m_out: out_dim, group_size, n_experts: 1 }).fits(
            (Weights { words: weight@, scales: scales@, biases: biases@ }),
        ),
        in_dim % 512 == 0,
        group_size == 64,
        out_dim % 8 == 0,
        1 <= eps_buf@.len(),
        in_dim <= x@.len(),
        in_dim <= norm_weight@.len(),
        out_dim <= old(output)@.len(),
    ensures
        final(output)@.len() == old(output)@.len(),
        forall|i: int|
            0 <= i < old(output)@.len() ==> #[trigger] final(output)@[i] == (if i < out_dim {
                T::narrow_s(
                    blocks_product::<F, T>(
                        (Quant { bits: 8, k_in: in_dim, m_out: out_dim, group_size, n_experts: 1 }),
                        (Weights { words: weight@, scales: scales@, biases: biases@ }),
                        i,
                        normed::<F, T>(
                            x@,
                            norm_weight@,
                            strided_rms::<F, T>(x@, in_dim, FAST_THREADS, eps_buf@[0]),
                            in_dim,
                        ),
                    ),
                )
            } else {
                old(output)@[i]
            }),
{
    fast_rows(
        Quant { bits: 8, k_in: in_dim, m_out: out_dim, group_size, n_experts: 1 },
        x,
        norm_weight,
        weight,
        scales,
        biases,
        output,
        eps_buf[0],
    );
}

} // verus!
