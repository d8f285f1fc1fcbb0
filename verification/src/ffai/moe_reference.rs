//! Dequantise-then-multiply expert matmuls, one element at a time and in
//! order: what the kernels are measured against.
use vstd::prelude::*;

use super::gather::{lemma_weight_bounds, words_in_row, Quant, Weights};
use super::moe::{resolve_expert, weight_row};
use super::moe_laws::{dequant, dequant_product};
use crate::index::{lemma_index_row, lemma_mul_le, lemma_row};
use crate::num::{Num, Store};
use crate::quant::extract;
use crate::sums::range_sum;

verus! {

/// Dequantised weight row `row` times the input row at `xbase`.
pub fn dequantised_dot<F: Num, T: Store<F>>(
    q: Quant,
    words: &[u32],
    scales: &[T],
    biases: &[T],
    row: u64,
    x: &[T],
    xbase: usize,
) -> (r: F)
    requires
        q.wf(),
        q.fits(Weights { words: words@, scales: scales@, biases: biases@ }),
        row < q.n_experts * q.m_out,
        xbase + q.k_in <= x@.len(),
    ensures
        r == dequant_product::<F, T>(
            q,
            (Weights { words: words@, scales: scales@, biases: biases@ }),
            row as int,
            x@,
            xbase as int,
        ),
{
    let ghost w = Weights { words: words@, scales: scales@, biases: biases@ };
    let ghost f = |k: int|
        dequant::<F, T>(q, w, row as int, k).mul_s(x@[xbase + k].widen_s());
    let w_len: usize = words.len();
    let s_len: usize = scales.len();
    let x_len: usize = x.len();
    let mut acc = F::zero();
    let mut k: u32 = 0;
    while k < q.k_in
        invariant
            k <= q.k_in,
            q.wf(),
            w == (Weights { words: words@, scales: scales@, biases: biases@ }),
            q.fits(w),
            words@.len() == w_len,
            scales@.len() == s_len,
            row < q.n_experts * q.m_out,
            xbase + q.k_in <= x@.len() == x_len,
            f == (|k: int|
                dequant::<F, T>(q, w, row as int, k).mul_s(x@[xbase + k].widen_s())),
            acc == range_sum(f, 0, k as int),
        decreases q.k_in - k,
    {
        proof {
            lemma_weight_bounds(q, w, row as int, k as int);
        }
        let words_row: usize = words_in_row(q);
        let groups: usize = (q.k_in / q.group_size) as usize;
        let g: usize = (k / q.group_size) as usize;
        let scale = scales[row as usize * groups + g].widen();
        let bias = biases[row as usize * groups + g].widen();
        let c: u32 = extract(q.bits, words, row as usize * words_row, k);
        let weight = F::of_u32(c).mul(scale).add(bias);
        acc = acc.add(weight.mul(x[xbase + k as usize].widen()));
        k += 1;
    }
    acc
}

/// Expert matmul over rows grouped by expert: row `t` belongs to the first
/// expert whose range ends behind it.
pub fn cpu_gather_qmm_int4<F: Num, T: Store<F>>(
    x: &[T],
    weight_packed: &[u32],
    scales: &[T],
    biases: &[T],
    expert_offsets: &[u32],
    t_rows: u32,
    k_in: u32,
    m_out: u32,
    n_experts: u32,
    group_size: u32,
) -> (out: Vec<F>)
    requires
        (Quant { bits: 4, k_in, m_out, group_size, n_experts }).wf(),
        group_size % 8 == 0,
        (Quant { bits: 4, k_in, m_out, group_size, n_experts }).fits(
            (Weights { words: weight_packed@, scales: scales@, biases: biases@ }),
        ),
        n_experts < expert_offsets@.len(),
        t_rows * k_in <= x@.len(),
        t_rows * m_out <= usize::MAX,
    ensures
        out@.len() == t_rows * m_out,
        forall|i: int|
            0 <= i < t_rows * m_out ==> #[trigger] out@[i] == dequant_product::<F, T>(
                (Quant { bits: 4, k_in, m_out, group_size, n_experts }),
                (Weights { words: weight_packed@, scales: scales@, biases: biases@ }),
                weight_row(expert_offsets@, n_experts as nat, m_out as int, i),
                x@,
                (i / m_out as int) * k_in,
            ),
{
    let q = Quant { bits: 4, k_in, m_out, group_size, n_experts };
    let ghost w = Weights { words: weight_packed@, scales: scales@, biases: biases@ };
    let x_len: usize = x.len();
    let mut out: Vec<F> = Vec::new();
    if m_out == 0 {
        assert(t_rows * m_out == 0) by (nonlinear_arith)
            requires
                m_out == 0,
        ;
        return out;
    }
    proof {
        lemma_mul_le(t_rows as int, t_rows as int, 0, m_out as int);
    }
    let n: usize = t_rows as usize * m_out as usize;
    let mut i: usize = 0;
    while i < n
        invariant
            i <= n,
            n == t_rows * m_out,
            0 < m_out,
            q == (Quant { bits: 4, k_in, m_out, group_size, n_experts }),
            w == (Weights { words: weight_packed@, scales: scales@, biases: biases@ }),
            q.wf(),
            q.fits(w),
            n_experts < expert_offsets@.len(),
            t_rows * k_in <= x@.len() == x_len,
            out@.len() == i,
            forall|c: int|
                0 <= c < i ==> #[trigger] out@[c] == dequant_product::<F, T>(
                    q,
                    w,
                    weight_row(expert_offsets@, n_experts as nat, m_out as int, c),
                    x@,
                    (c / m_out as int) * k_in,
                ),
        decreases n - i,
    {
        proof {
            lemma_index_row(i as int, t_rows as int, m_out as int);
        }
        let row: u32 = (i / m_out as usize) as u32;
        let m: u32 = (i % m_out as usize) as u32;
        let expert: u32 = resolve_expert(expert_offsets, n_experts, row);
        proof {
            lemma_row(expert as int, n_experts as int, m_out as int);
            lemma_mul_le(n_experts as int, 0xffff_ffff, m_out as int, 0xffff_ffff);
            lemma_row(row as int, t_rows as int, k_in as int);
        }
        let wrow: u64 = expert as u64 * m_out as u64 + m as u64;
        let acc = dequantised_dot::<F, T>(
            q,
            weight_packed,
            scales,
            biases,
            wrow,
            x,
            row as usize * k_in as usize,
        );
        out.push(acc);
        i += 1;
    }
    out
}

/// Expert matmul with an expert index per row.
pub fn cpu_gather_qmm_int4_indexed<F: Num, T: Store<F>>(
    x: &[T],
    weight_packed: &[u32],
    scales: &[T],
    biases: &[T],
    indices: &[u32],
    m_total: u32,
    k_in: u32,
    n_out: u32,
    group_size: u32,
    n_experts: u32,
) -> (out: Vec<F>)
    requires
        (Quant { bits: 4, k_in, m_out: n_out, group_size, n_experts }).wf(),
        group_size % 8 == 0,
        (Quant { bits: 4, k_in, m_out: n_out, group_size, n_experts }).fits(
            (Weights { words: weight_packed@, scales: scales@, biases: biases@ }),
        ),
        m_total <= indices@.len(),
        forall|r: int| 0 <= r < m_total ==> #[trigger] indices@[r] < n_experts,
        m_total * k_in <= x@.len(),
        m_total * n_out <= usize::MAX,
    ensures
        out@.len() == m_total * n_out,
        forall|i: int|
            0 <= i < m_total * n_out ==> #[trigger] out@[i] == dequant_product::<F, T>(
                (Quant { bits: 4, k_in, m_out: n_out, group_size, n_experts }),
                (Weights { words: weight_packed@, scales: scales@, biases: biases@ }),
                indices@[i / n_out as int] * n_out + i % n_out as int,
                x@,
                (i / n_out as int) * k_in,
            ),
{
    let q = Quant { bits: 4, k_in, m_out: n_out, group_size, n_experts };
    let ghost w = Weights { words: weight_packed@, scales: scales@, biases: biases@ };
    let x_len: usize = x.len();
    let mut out: Vec<F> = Vec::new();
    if n_out == 0 {
        assert(m_total * n_out == 0) by (nonlinear_arith)
            requires
                n_out == 0,
        ;
        return out;
    }
    proof {
        lemma_mul_le(m_total as int, m_total as int, 0, n_out as int);
    }
    let n: usize = m_total as usize * n_out as usize;
    let mut i: usize = 0;
    while i < n
        invariant
            i <= n,
            n == m_total * n_out,
            0 < n_out,
            q == (Quant { bits: 4, k_in, m_out: n_out, group_size, n_experts }),
            w == (Weights { words: weight_packed@, scales: scales@, biases: biases@ }),
            q.wf(),
            q.fits(w),
            m_total <= indices@.len(),
            forall|r: int| 0 <= r < m_total ==> #[trigger] indices@[r] < n_experts,
            m_total * k_in <= x@.len() == x_len,
            out@.len() == i,
            forall|c: int|
                0 <= c < i ==> #[trigger] out@[c] == dequant_product::<F, T>(
                    q,
                    w,
                    indices@[c / n_out as int] * n_out + c % n_out as int,
                    x@,
                    (c / n_out as int) * k_in,
                ),
        decreases n - i,
    {
        proof {
            lemma_index_row(i as int, m_total as int, n_out as int);
        }
        let row: usize = i / n_out as usize;
        let m: u32 = (i % n_out as usize) as u32;
        let expert: u32 = indices[row];
        proof {
            lemma_row(expert as int, n_experts as int, n_out as int);
            lemma_mul_le(n_experts as int, 0xffff_ffff, n_out as int, 0xffff_ffff);
            lemma_row(row as int, m_total as int, k_in as int);
        }
        let wrow: u64 = expert as u64 * n_out as u64 + m as u64;
        let acc = dequantised_dot::<F, T>(
            q,
            weight_packed,
            scales,
            biases,
            wrow,
            x,
            row * k_in as usize,
        );
        out.push(acc);
        i += 1;
    }
    out
}

} // verus!
