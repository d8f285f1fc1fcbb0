//! Mixture-of-experts kernels: routing, row permutation and the expert
//! matmuls over quantised weights.
use vstd::prelude::*;

use super::gather::{dotted_product, fold_product, folded_product, tile_products, Quant, Weights};
use super::mma::{fragment_tiling, routed, signed_tiling, tiled_gather, Tiling, NO_EXPERT};
use crate::index::{lemma_row, lemma_row_col};
use crate::num::{Num, Store};

verus! {

/// The first of `n` experts whose range ends behind `row`, if any.
pub open spec fn find_expert(offsets: Seq<u32>, row: int, n: nat) -> Option<int>
    decreases n,
{
    if n == 0 {
        None
    } else {
        match find_expert(offsets, row, (n - 1) as nat) {
            Some(e) => Some(e),
            None => if row < offsets[n as int] {
                Some(n - 1)
            } else {
                None
            },
        }
    }
}

/// The expert that owns `row`; expert 0 where no range ends behind it.
pub open spec fn expert_of(offsets: Seq<u32>, row: int, n: nat) -> int {
    match find_expert(offsets, row, n) {
        Some(e) => e,
        None => 0,
    }
}

/// Weight row that output element `i` uses.
pub open spec fn weight_row(offsets: Seq<u32>, n: nat, m_out: int, i: int) -> int {
    expert_of(offsets, i / m_out, n) * m_out + i % m_out
}

pub proof fn lemma_find_expert(offsets: Seq<u32>, row: int, n: nat)
    ensures
        match find_expert(offsets, row, n) {
            Some(e) => 0 <= e < n && row < offsets[e + 1] && forall|c: int|
                0 <= c < e ==> row >= #[trigger] offsets[c + 1],
            None => forall|c: int| 0 <= c < n ==> row >= #[trigger] offsets[c + 1],
        },
    decreases n,
{
    if n > 0 {
        lemma_find_expert(offsets, row, (n - 1) as nat);
    }
}

/// With offsets that do not decrease and cover `row`, the row lies in the
/// range of its expert.
pub proof fn law_expert_owns_row(offsets: Seq<u32>, row: int, n: nat)
    requires
        0 < n < offsets.len(),
        forall|a: int, b: int| 0 <= a <= b <= n ==> offsets[a] <= offsets[b],
        offsets[0] <= row < offsets[n as int],
    ensures
        ({
            let e = expert_of(offsets, row, n);
            0 <= e < n && offsets[e] <= row < offsets[e + 1]
        }),
{
    lemma_find_expert(offsets, row, n);
    assert(offsets[(n - 1) + 1] == offsets[n as int]);
    let e = expert_of(offsets, row, n);
    if e > 0 {
        assert(row >= offsets[(e - 1) + 1]);
    }
}

/// Finds the expert of a row.
pub fn resolve_expert(expert_offsets: &[u32], n_experts: u32, row: u32) -> (e: u32)
    requires
        expert_offsets@.len() > n_experts,
    ensures
        e == expert_of(expert_offsets@, row as int, n_experts as nat),
        n_experts > 0 ==> e < n_experts,
{
    let mut expert: u32 = 0;
    let mut found: bool = false;
    let mut ee: u32 = 0;
    while ee < n_experts
        invariant
            ee <= n_experts,
            expert_offsets@.len() > n_experts,
            find_expert(expert_offsets@, row as int, ee as nat) == (if found {
                Some(expert as int)
            } else {
                None
            }),
            !found ==> expert == 0,
            found ==> expert < ee,
        decreases n_experts - ee,
    {
        let end: u32 = expert_offsets[ee as usize + 1];
        if !found && row < end {
            expert = ee;
            found = true;
        }
        ee += 1;
    }
    expert
}

/// Every output row times its expert's weights, one weight row at a time.
fn gather_rows<F: Num, T: Store<F>>(
    bits: u32,
    vals: u32,
    x: &[T],
    weight_packed: &[u32],
    scales: &[T],
    biases: &[T],
    expert_offsets: &[u32],
    out: &mut Vec<T>,
    k_in: u32,
    m_out: u32,
    n_experts: u32,
    group_size: u32,
    n_rows: u32,
)
    requires
        0 < vals,
        k_in % vals == 0,
        (Quant { bits: bits, k_in, m_out, group_size, n_experts }).wf(),
        (Quant { bits: bits, k_in, m_out, group_size, n_experts }).fits(
            (Weights { words: weight_packed@, scales: scales@, biases: biases@ }),
        ),
        expert_offsets@.len() > n_experts,
        n_rows * k_in <= x@.len(),
        n_rows * m_out <= old(out)@.len(),
    ensures
        final(out)@.len() == old(out)@.len(),
        forall|i: int|
            0 <= i < old(out)@.len() ==> #[trigger] final(out)@[i] == (if i < n_rows * m_out {
                T::narrow_s(
                    folded_product::<F, T>(
                        (Quant { bits: bits, k_in, m_out, group_size, n_experts }),
                        (Weights { words: weight_packed@, scales: scales@, biases: biases@ }),
                        weight_row(expert_offsets@, n_experts as nat, m_out as int, i),
                        x@,
                        (i / m_out as int) * k_in,
                        vals as int,
                    ),
                )
            } else {
                old(out)@[i]
            }),
{
    let q = Quant { bits, k_in, m_out, group_size, n_experts };
    let ghost w = (Weights { words: weight_packed@, scales: scales@, biases: biases@ });
    let ghost before = out@;
    let x_len: usize = x.len();
    let out_len: usize = out.len();
    let mut row: u32 = 0;
    while row < n_rows
        invariant
            row <= n_rows,
            q == (Quant { bits, k_in, m_out, group_size, n_experts }),
            w == (Weights { words: weight_packed@, scales: scales@, biases: biases@ }),
            q.wf(),
            q.fits(w),
            0 < vals,
            k_in % vals == 0,
            expert_offsets@.len() > n_experts,
            n_rows * k_in <= x@.len() == x_len,
            n_rows * m_out <= before.len() == out_len,
            out@.len() == before.len(),
            forall|i: int|
                0 <= i < before.len() ==> #[trigger] out@[i] == (if i < row * m_out {
                    T::narrow_s(
                        folded_product::<F, T>(
                            q,
                            w,
                            weight_row(expert_offsets@, n_experts as nat, m_out as int, i),
                            x@,
                            (i / m_out as int) * k_in,
                            vals as int,
                        ),
                    )
                } else {
                    before[i]
                }),
        decreases n_rows - row,
    {
        let expert: u32 = resolve_expert(expert_offsets, n_experts, row);
        proof {
            lemma_row(row as int, n_rows as int, k_in as int);
            lemma_row(row as int, n_rows as int, m_out as int);
            lemma_row(expert as int, n_experts as int, m_out as int);
        }
        let xbase: usize = row as usize * k_in as usize;
        let mut m: u32 = 0;
        while m < m_out
            invariant
                m <= m_out,
                row < n_rows,
                q == (Quant { bits, k_in, m_out, group_size, n_experts }),
                w == (Weights { words: weight_packed@, scales: scales@, biases: biases@ }),
                q.wf(),
                q.fits(w),
                0 < vals,
                k_in % vals == 0,
                expert < n_experts,
                expert == expert_of(expert_offsets@, row as int, n_experts as nat),
                expert * m_out + m_out <= n_experts * m_out,
                xbase == row * k_in,
                xbase + k_in <= x@.len(),
                row * m_out + m_out <= before.len() == out_len,
                out@.len() == before.len(),
                forall|i: int|
                    0 <= i < before.len() ==> #[trigger] out@[i] == (if i < row * m_out + m {
                        T::narrow_s(
                            folded_product::<F, T>(
                                q,
                                w,
                                weight_row(expert_offsets@, n_experts as nat, m_out as int, i),
                                x@,
                                (i / m_out as int) * k_in,
                                vals as int,
                            ),
                        )
                    } else {
                        before[i]
                    }),
            decreases m_out - m,
        {
            proof {
                lemma_row_col(row as int, m as int, m_out as int);
            }
            assert(n_experts * m_out <= 0xffff_ffff * 0xffff_ffff) by (nonlinear_arith)
                requires
                    n_experts <= 0xffff_ffff,
                    m_out <= 0xffff_ffff,
            ;
            let wrow: u64 = expert as u64 * m_out as u64 + m as u64;
            let v = fold_product::<F, T>(
                q,
                weight_packed,
                scales,
                biases,
                wrow,
                x,
                xbase,
                vals,
            );
            out.set(row as usize * m_out as usize + m as usize, T::narrow(v));
            m += 1;
        }
        row += 1;
    }
}

/// Every output row times its expert's weights, `tile` weight rows at a time.
fn gather_tiles<F: Num, T: Store<F>>(
    tile: u32,
    x: &[T],
    weight_packed: &[u32],
    scales: &[T],
    biases: &[T],
    expert_offsets: &[u32],
    out: &mut Vec<T>,
    k_in: u32,
    m_out: u32,
    n_experts: u32,
    group_size: u32,
    n_rows: u32,
)
    requires
        0 < tile,
        (Quant { bits: 4, k_in, m_out, group_size, n_experts }).wf(),
        (Quant { bits: 4, k_in, m_out, group_size, n_experts }).fits(
            (Weights { words: weight_packed@, scales: scales@, biases: biases@ }),
        ),
        expert_offsets@.len() > n_experts,
        n_rows * k_in <= x@.len(),
        n_rows * m_out <= old(out)@.len(),
        m_out % tile == 0,
    ensures
        final(out)@.len() == old(out)@.len(),
        forall|i: int|
            0 <= i < old(out)@.len() ==> #[trigger] final(out)@[i] == (if i < n_rows * m_out {
                T::narrow_s(
                    dotted_product::<F, T>(
                        (Quant { bits: 4, k_in, m_out, group_size, n_experts }),
                        (Weights { words: weight_packed@, scales: scales@, biases: biases@ }),
                        weight_row(expert_offsets@, n_experts as nat, m_out as int, i),
                        x@,
                        (i / m_out as int) * k_in,
                        8,
                    ),
                )
            } else {
                old(out)@[i]
            }),
{
    let q = Quant { bits: 4, k_in, m_out, group_size, n_experts };
    let ghost w = (Weights { words: weight_packed@, scales: scales@, biases: biases@ });
    let ghost before = out@;
    let x_len: usize = x.len();
    let out_len: usize = out.len();
    let mut row: u32 = 0;
    while row < n_rows
        invariant
            row <= n_rows,
            q == (Quant { bits: 4, k_in, m_out, group_size, n_experts }),
            w == (Weights { words: weight_packed@, scales: scales@, biases: biases@ }),
            q.wf(),
            q.fits(w),
            0 < tile,
            m_out % tile == 0,
            expert_offsets@.len() > n_experts,
            n_rows * k_in <= x@.len() == x_len,
            n_rows * m_out <= before.len() == out_len,
            out@.len() == before.len(),
            forall|i: int|
                0 <= i < before.len() ==> #[trigger] out@[i] == (if i < row * m_out {
                    T::narrow_s(
                        dotted_product::<F, T>(
                            q,
                            w,
                            weight_row(expert_offsets@, n_experts as nat, m_out as int, i),
                            x@,
                            (i / m_out as int) * k_in,
                            8,
                        ),
                    )
                } else {
                    before[i]
                }),
        decreases n_rows - row,
    {
        let expert: u32 = resolve_expert(expert_offsets, n_experts, row);
        proof {
            lemma_row(row as int, n_rows as int, k_in as int);
            lemma_row(row as int, n_rows as int, m_out as int);
            lemma_row(expert as int, n_experts as int, m_out as int);
            assert(n_experts * m_out <= 0xffff_ffff * 0xffff_ffff) by (nonlinear_arith)
                requires
                    n_experts <= 0xffff_ffff,
                    m_out <= 0xffff_ffff,
            ;
        }
        let xbase: usize = row as usize * k_in as usize;
        let chunks: u32 = m_out / tile;
        let mut chunk: u32 = 0;
        while chunk < chunks
            invariant
                chunk <= chunks,
                chunks == m_out / tile,
                row < n_rows,
                q == (Quant { bits: 4, k_in, m_out, group_size, n_experts }),
                w == (Weights { words: weight_packed@, scales: scales@, biases: biases@ }),
                q.wf(),
                q.fits(w),
                0 < tile,
                m_out % tile == 0,
                expert < n_experts,
                expert == expert_of(expert_offsets@, row as int, n_experts as nat),
                expert * m_out + m_out <= n_experts * m_out <= 0xffff_ffff * 0xffff_ffff,
                xbase == row * k_in,
                xbase + k_in <= x@.len(),
                row * m_out + m_out <= before.len() == out_len,
                out@.len() == before.len(),
                forall|i: int|
                    0 <= i < before.len() ==> #[trigger] out@[i] == (if i < row * m_out + chunk
                        * tile {
                        T::narrow_s(
                            dotted_product::<F, T>(
                                q,
                                w,
                                weight_row(expert_offsets@, n_experts as nat, m_out as int, i),
                                x@,
                                (i / m_out as int) * k_in,
                                8,
                            ),
                        )
                    } else {
                        before[i]
                    }),
            decreases chunks - chunk,
        {
            proof {
                vstd::arithmetic::div_mod::lemma_fundamental_div_mod(m_out as int, tile as int);
                assert(tile * chunks == chunks * tile) by (nonlinear_arith);
                lemma_row(chunk as int, chunks as int, tile as int);
            }
            let m_base: u32 = chunk * tile;
            let row0: u64 = expert as u64 * m_out as u64 + m_base as u64;
            let sums = tile_products::<F, T>(
                q,
                weight_packed,
                scales,
                biases,
                row0,
                tile as usize,
                x,
                xbase,
                8,
            );
            let ghost mid = out@;
            let mut j: u32 = 0;
            while j < tile
                invariant
                    j <= tile,
                    row < n_rows,
                    m_base + tile <= m_out,
                    row * m_out + m_out <= before.len() == out_len,
                    out@.len() == before.len(),
                    mid.len() == before.len(),
                    sums@.len() == tile,
                    expert == expert_of(expert_offsets@, row as int, n_experts as nat),
                    row0 == expert * m_out + m_base,
                    xbase == row * k_in,
                    forall|c: int|
                        0 <= c < tile ==> #[trigger] sums@[c] == dotted_product::<F, T>(
                            q,
                            w,
                            row0 + c,
                            x@,
                            xbase as int,
                            8,
                        ),
                    forall|i: int|
                        0 <= i < before.len() ==> #[trigger] out@[i] == (if row * m_out + m_base
                            <= i < row * m_out + m_base + j {
                            T::narrow_s(
                                dotted_product::<F, T>(
                                    q,
                                    w,
                                    weight_row(
                                        expert_offsets@,
                                        n_experts as nat,
                                        m_out as int,
                                        i,
                                    ),
                                    x@,
                                    (i / m_out as int) * k_in,
                                    8,
                                ),
                            )
                        } else {
                            mid[i]
                        }),
                decreases tile - j,
            {
                proof {
                    lemma_row_col(row as int, m_base + j, m_out as int);
                }
                let at: usize = row as usize * m_out as usize + (m_base + j) as usize;
                out.set(at, T::narrow(sums[j as usize]));
                j += 1;
            }
            chunk += 1;
        }
        proof {
            vstd::arithmetic::div_mod::lemma_fundamental_div_mod(m_out as int, tile as int);
            assert(tile * chunks == chunks * tile) by (nonlinear_arith);
        }
        row += 1;
    }
}

/// Expert matmul over four-bit codes: row `r` of `x` times the weights of the
/// expert whose range in `expert_offsets` holds `r`.
pub fn mt_moe_gather_qmm_int4<F: Num, T: Store<F>>(
    x: &[T],
    weight_packed: &[u32],
    scales: &[T],
    biases: &[T],
    expert_offsets: &[u32],
    out: &mut Vec<T>,
    k_in: u32,
    m_out: u32,
    n_experts: u32,
    group_size: u32,
    n_rows: u32,
)
    requires
        (Quant { bits: 4, k_in, m_out, group_size, n_experts }).wf(),
        (Quant { bits: 4, k_in, m_out, group_size, n_experts }).fits(
            (Weights { words: weight_packed@, scales: scales@, biases: biases@ }),
        ),
        expert_offsets@.len() > n_experts,
        n_rows * k_in <= x@.len(),
        n_rows * m_out <= old(out)@.len(),
    ensures
        final(out)@.len() == old(out)@.len(),
        forall|i: int|
            0 <= i < old(out)@.len() ==> #[trigger] final(out)@[i] == (if i < n_rows * m_out {
                T::narrow_s(
                    folded_product::<F, T>(
                        (Quant { bits: 4, k_in, m_out, group_size, n_experts }),
                        (Weights { words: weight_packed@, scales: scales@, biases: biases@ }),
                        weight_row(expert_offsets@, n_experts as nat, m_out as int, i),
                        x@,
                        (i / m_out as int) * k_in,
                        8,
                    ),
                )
            } else {
                old(out)@[i]
            }),
{
    gather_rows(
        4,
        8,
        x,
        weight_packed,
        scales,
        biases,
        expert_offsets,
        out,
        k_in,
        m_out,
        n_experts,
        group_size,
        n_rows,
    );
}

/// The four-bit expert matmul with eight output columns per simdgroup.
pub fn mt_moe_gather_qmm_int4_m8<F: Num, T: Store<F>>(
    x: &[T],
    weight_packed: &[u32],
    scales: &[T],
    biases: &[T],
    expert_offsets: &[u32],
    out: &mut Vec<T>,
    k_in: u32,
    m_out: u32,
    n_experts: u32,
    group_size: u32,
    n_rows: u32,
)
    requires
        (Quant { bits: 4, k_in, m_out, group_size, n_experts }).wf(),
        (Quant { bits: 4, k_in, m_out, group_size, n_experts }).fits(
            (Weights { words: weight_packed@, scales: scales@, biases: biases@ }),
        ),
        expert_offsets@.len() > n_experts,
        n_rows * k_in <= x@.len(),
        n_rows * m_out <= old(out)@.len(),
        m_out % 8 == 0,
    ensures
        final(out)@.len() == old(out)@.len(),
        forall|i: int|
            0 <= i < old(out)@.len() ==> #[trigger] final(out)@[i] == (if i < n_rows * m_out {
                T::narrow_s(
                    dotted_product::<F, T>(
                        (Quant { bits: 4, k_in, m_out, group_size, n_experts }),
                        (Weights { words: weight_packed@, scales: scales@, biases: biases@ }),
                        weight_row(expert_offsets@, n_experts as nat, m_out as int, i),
                        x@,
                        (i / m_out as int) * k_in,
                        8,
                    ),
                )
            } else {
                old(out)@[i]
            }),
{
    gather_tiles(
        8,
        x,
        weight_packed,
        scales,
        biases,
        expert_offsets,
        out,
        k_in,
        m_out,
        n_experts,
        group_size,
        n_rows,
    );
}

/// The four-bit expert matmul with sixteen output columns per simdgroup.
pub fn mt_moe_gather_qmm_int4_m16<F: Num, T: Store<F>>(
    x: &[T],
    weight_packed: &[u32],
    scales: &[T],
    biases: &[T],
    expert_offsets: &[u32],
    out: &mut Vec<T>,
    k_in: u32,
    m_out: u32,
    n_experts: u32,
    group_size: u32,
    n_rows: u32,
)
    requires
        (Quant { bits: 4, k_in, m_out, group_size, n_experts }).wf(),
        (Quant { bits: 4, k_in, m_out, group_size, n_experts }).fits(
            (Weights { words: weight_packed@, scales: scales@, biases: biases@ }),
        ),
        expert_offsets@.len() > n_experts,
        n_rows * k_in <= x@.len(),
        n_rows * m_out <= old(out)@.len(),
        m_out % 16 == 0,
    ensures
        final(out)@.len() == old(out)@.len(),
        forall|i: int|
            0 <= i < old(out)@.len() ==> #[trigger] final(out)@[i] == (if i < n_rows * m_out {
                T::narrow_s(
                    dotted_product::<F, T>(
                        (Quant { bits: 4, k_in, m_out, group_size, n_experts }),
                        (Weights { words: weight_packed@, scales: scales@, biases: biases@ }),
                        weight_row(expert_offsets@, n_experts as nat, m_out as int, i),
                        x@,
                        (i / m_out as int) * k_in,
                        8,
                    ),
                )
            } else {
                old(out)@[i]
            }),
{
    gather_tiles(
        16,
        x,
        weight_packed,
        scales,
        biases,
        expert_offsets,
        out,
        k_in,
        m_out,
        n_experts,
        group_size,
        n_rows,
    );
}

/// The four-bit expert matmul with thirty-two output columns per simdgroup.
pub fn mt_moe_gather_qmm_int4_m32<F: Num, T: Store<F>>(
    x: &[T],
    weight_packed: &[u32],
    scales: &[T],
    biases: &[T],
    expert_offsets: &[u32],
    out: &mut Vec<T>,
    k_in: u32,
    m_out: u32,
    n_experts: u32,
    group_size: u32,
    n_rows: u32,
)
    requires
        (Quant { bits: 4, k_in, m_out, group_size, n_experts }).wf(),
        (Quant { bits: 4, k_in, m_out, group_size, n_experts }).fits(
            (Weights { words: weight_packed@, scales: scales@, biases: biases@ }),
        ),
        expert_offsets@.len() > n_experts,
        n_rows * k_in <= x@.len(),
        n_rows * m_out <= old(out)@.len(),
        m_out % 32 == 0,
    ensures
        final(out)@.len() == old(out)@.len(),
        forall|i: int|
            0 <= i < old(out)@.len() ==> #[trigger] final(out)@[i] == (if i < n_rows * m_out {
                T::narrow_s(
                    dotted_product::<F, T>(
                        (Quant { bits: 4, k_in, m_out, group_size, n_experts }),
                        (Weights { words: weight_packed@, scales: scales@, biases: biases@ }),
                        weight_row(expert_offsets@, n_experts as nat, m_out as int, i),
                        x@,
                        (i / m_out as int) * k_in,
                        8,
                    ),
                )
            } else {
                old(out)@[i]
            }),
{
    gather_tiles(
        32,
        x,
        weight_packed,
        scales,
        biases,
        expert_offsets,
        out,
        k_in,
        m_out,
        n_experts,
        group_size,
        n_rows,
    );
}

/// Expert matmul over eight-bit codes.
pub fn mt_moe_gather_qmm_b8<F: Num, T: Store<F>>(
    x: &[T],
    weight_packed: &[u32],
    scales: &[T],
    biases: &[T],
    expert_offsets: &[u32],
    out: &mut Vec<T>,
    k_in: u32,
    m_out: u32,
    n_experts: u32,
    group_size: u32,
    n_rows: u32,
)
    requires
        (Quant { bits: 8, k_in, m_out, group_size, n_experts }).wf(),
        (Quant { bits: 8, k_in, m_out, group_size, n_experts }).fits(
            (Weights { words: weight_packed@, scales: scales@, biases: biases@ }),
        ),
        expert_offsets@.len() > n_experts,
        n_rows * k_in <= x@.len(),
        n_rows * m_out <= old(out)@.len(),
    ensures
        final(out)@.len() == old(out)@.len(),
        forall|i: int|
            0 <= i < old(out)@.len() ==> #[trigger] final(out)@[i] == (if i < n_rows * m_out {
                T::narrow_s(
                    folded_product::<F, T>(
                        (Quant { bits: 8, k_in, m_out, group_size, n_experts }),
                        (Weights { words: weight_packed@, scales: scales@, biases: biases@ }),
                        weight_row(expert_offsets@, n_experts as nat, m_out as int, i),
                        x@,
                        (i / m_out as int) * k_in,
                        4,
                    ),
                )
            } else {
                old(out)@[i]
            }),
{
    gather_rows(
        8,
        4,
        x,
        weight_packed,
        scales,
        biases,
        expert_offsets,
        out,
        k_in,
        m_out,
        n_experts,
        group_size,
        n_rows,
    );
}

/// Expert matmul over three-bit codes, which may straddle words.
pub fn mt_moe_gather_qmm_b3<F: Num, T: Store<F>>(
    x: &[T],
    weight_packed: &[u32],
    scales: &[T],
    biases: &[T],
    expert_offsets: &[u32],
    out: &mut Vec<T>,
    k_in: u32,
    m_out: u32,
    n_experts: u32,
    group_size: u32,
    n_rows: u32,
)
    requires
        (Quant { bits: 3, k_in, m_out, group_size, n_experts }).wf(),
        (Quant { bits: 3, k_in, m_out, group_size, n_experts }).fits(
            (Weights { words: weight_packed@, scales: scales@, biases: biases@ }),
        ),
        expert_offsets@.len() > n_experts,
        n_rows * k_in <= x@.len(),
        n_rows * m_out <= old(out)@.len(),
    ensures
        final(out)@.len() == old(out)@.len(),
        forall|i: int|
            0 <= i < old(out)@.len() ==> #[trigger] final(out)@[i] == (if i < n_rows * m_out {
                T::narrow_s(
                    folded_product::<F, T>(
                        (Quant { bits: 3, k_in, m_out, group_size, n_experts }),
                        (Weights { words: weight_packed@, scales: scales@, biases: biases@ }),
                        weight_row(expert_offsets@, n_experts as nat, m_out as int, i),
                        x@,
                        (i / m_out as int) * k_in,
                        1,
                    ),
                )
            } else {
                old(out)@[i]
            }),
{
    gather_rows(
        3,
        1,
        x,
        weight_packed,
        scales,
        biases,
        expert_offsets,
        out,
        k_in,
        m_out,
        n_experts,
        group_size,
        n_rows,
    );
}

/// Expert matmul over five-bit codes, which may straddle words.
pub fn mt_moe_gather_qmm_b5<F: Num, T: Store<F>>(
    x: &[T],
    weight_packed: &[u32],
    scales: &[T],
    biases: &[T],
    expert_offsets: &[u32],
    out: &mut Vec<T>,
    k_in: u32,
    m_out: u32,
    n_experts: u32,
    group_size: u32,
    n_rows: u32,
)
    requires
        (Quant { bits: 5, k_in, m_out, group_size, n_experts }).wf(),
        (Quant { bits: 5, k_in, m_out, group_size, n_experts }).fits(
            (Weights { words: weight_packed@, scales: scales@, biases: biases@ }),
        ),
        expert_offsets@.len() > n_experts,
        n_rows * k_in <= x@.len(),
        n_rows * m_out <= old(out)@.len(),
    ensures
        final(out)@.len() == old(out)@.len(),
        forall|i: int|
            0 <= i < old(out)@.len() ==> #[trigger] final(out)@[i] == (if i < n_rows * m_out {
                T::narrow_s(
                    folded_product::<F, T>(
                        (Quant { bits: 5, k_in, m_out, group_size, n_experts }),
                        (Weights { words: weight_packed@, scales: scales@, biases: biases@ }),
                        weight_row(expert_offsets@, n_experts as nat, m_out as int, i),
                        x@,
                        (i / m_out as int) * k_in,
                        1,
                    ),
                )
            } else {
                old(out)@[i]
            }),
{
    gather_rows(
        5,
        1,
        x,
        weight_packed,
        scales,
        biases,
        expert_offsets,
        out,
        k_in,
        m_out,
        n_experts,
        group_size,
        n_rows,
    );
}

/// Expert matmul over six-bit codes, which may straddle words.
pub fn mt_moe_gather_qmm_b6<F: Num, T: Store<F>>(
    x: &[T],
    weight_packed: &[u32],
    scales: &[T],
    biases: &[T],
    expert_offsets: &[u32],
    out: &mut Vec<T>,
    k_in: u32,
    m_out: u32,
    n_experts: u32,
    group_size: u32,
    n_rows: u32,
)
    requires
        (Quant { bits: 6, k_in, m_out, group_size, n_experts }).wf(),
        (Quant { bits: 6, k_in, m_out, group_size, n_experts }).fits(
            (Weights { words: weight_packed@, scales: scales@, biases: biases@ }),
        ),
        expert_offsets@.len() > n_experts,
        n_rows * k_in <= x@.len(),
        n_rows * m_out <= old(out)@.len(),
    ensures
        final(out)@.len() == old(out)@.len(),
        forall|i: int|
            0 <= i < old(out)@.len() ==> #[trigger] final(out)@[i] == (if i < n_rows * m_out {
                T::narrow_s(
                    folded_product::<F, T>(
                        (Quant { bits: 6, k_in, m_out, group_size, n_experts }),
                        (Weights { words: weight_packed@, scales: scales@, biases: biases@ }),
                        weight_row(expert_offsets@, n_experts as nat, m_out as int, i),
                        x@,
                        (i / m_out as int) * k_in,
                        1,
                    ),
                )
            } else {
                old(out)@[i]
            }),
{
    gather_rows(
        6,
        1,
        x,
        weight_packed,
        scales,
        biases,
        expert_offsets,
        out,
        k_in,
        m_out,
        n_experts,
        group_size,
        n_rows,
    );
}

/// Expert matmul over four-bit codes on the matrix unit, tiles of thirty-two
/// rows; `indices` names the expert of each row.
pub fn mt_moe_gather_qmm_mma_int4<F: Num, T: Store<F>>(
    x: &[T],
    w: &[u32],
    scales: &[T],
    biases: &[T],
    indices: &[u32],
    out: &mut Vec<T>,
    m_total: u32,
    n_out: u32,
    k_in: u32,
    group_size: u32,
    n_experts: u32,
)
    requires
        (Quant { bits: 4, k_in, m_out: n_out, group_size, n_experts }).wf(),
        (Quant { bits: 4, k_in, m_out: n_out, group_size, n_experts }).fits(
            (Weights { words: w@, scales: scales@, biases: biases@ }),
        ),
        k_in % 32 == 0,
        n_out % 32 == 0,
        m_total <= indices@.len(),
        forall|r: int|
            0 <= r < m_total ==> #[trigger] indices@[r] == NO_EXPERT || indices@[r] < n_experts,
        m_total * k_in <= x@.len(),
        m_total * n_out <= old(out)@.len(),
    ensures
        final(out)@.len() == old(out)@.len(),
        forall|i: int|
            0 <= i < old(out)@.len() ==> #[trigger] final(out)@[i] == (if i < m_total * n_out {
                routed::<F, T>(
                    fragment_tiling(32, 8, true, false),
                    (Quant { bits: 4, k_in, m_out: n_out, group_size, n_experts }),
                    (Weights { words: w@, scales: scales@, biases: biases@ }),
                    x@,
                    indices@,
                    old(out)@,
                    i,
                )
            } else {
                old(out)@[i]
            }),
{
    tiled_gather(
        Tiling {
            bm: 32,
            bn: 32,
            bk: 32,
            slice: 8,
            unit: 8,
            masked: true,
            signed: false,
            multiplied: false,
            staged: false,
        },
        Quant { bits: 4, k_in, m_out: n_out, group_size, n_experts },
        x,
        w,
        scales,
        biases,
        indices,
        out,
        m_total,
    );
}

/// Expert matmul over a stream of three-bit codes on the matrix unit.
pub fn mt_moe_gather_qmm_mma_b3<F: Num, T: Store<F>>(
    x: &[T],
    w: &[u32],
    scales: &[T],
    biases: &[T],
    indices: &[u32],
    out: &mut Vec<T>,
    m_total: u32,
    n_out: u32,
    k_in: u32,
    group_size: u32,
    n_experts: u32,
)
    requires
        (Quant { bits: 3, k_in, m_out: n_out, group_size, n_experts }).wf(),
        (Quant { bits: 3, k_in, m_out: n_out, group_size, n_experts }).fits(
            (Weights { words: w@, scales: scales@, biases: biases@ }),
        ),
        k_in % 32 == 0,
        n_out % 32 == 0,
        m_total <= indices@.len(),
        forall|r: int|
            0 <= r < m_total ==> #[trigger] indices@[r] == NO_EXPERT || indices@[r] < n_experts,
        m_total * k_in <= x@.len(),
        m_total * n_out <= old(out)@.len(),
    ensures
        final(out)@.len() == old(out)@.len(),
        forall|i: int|
            0 <= i < old(out)@.len() ==> #[trigger] final(out)@[i] == (if i < m_total * n_out {
                routed::<F, T>(
                    fragment_tiling(32, 8, false, false),
                    (Quant { bits: 3, k_in, m_out: n_out, group_size, n_experts }),
                    (Weights { words: w@, scales: scales@, biases: biases@ }),
                    x@,
                    indices@,
                    old(out)@,
                    i,
                )
            } else {
                old(out)@[i]
            }),
{
    tiled_gather(
        Tiling {
            bm: 32,
            bn: 32,
            bk: 32,
            slice: 8,
            unit: 8,
            masked: false,
            signed: false,
            multiplied: false,
            staged: false,
        },
        Quant { bits: 3, k_in, m_out: n_out, group_size, n_experts },
        x,
        w,
        scales,
        biases,
        indices,
        out,
        m_total,
    );
}

/// Expert matmul over a stream of five-bit codes on the matrix unit.
pub fn mt_moe_gather_qmm_mma_b5<F: Num, T: Store<F>>(
    x: &[T],
    w: &[u32],
    scales: &[T],
    biases: &[T],
    indices: &[u32],
    out: &mut Vec<T>,
    m_total: u32,
    n_out: u32,
    k_in: u32,
    group_size: u32,
    n_experts: u32,
)
    requires
        (Quant { bits: 5, k_in, m_out: n_out, group_size, n_experts }).wf(),
        (Quant { bits: 5, k_in, m_out: n_out, group_size, n_experts }).fits(
            (Weights { words: w@, scales: scales@, biases: biases@ }),
        ),
        k_in % 32 == 0,
        n_out % 32 == 0,
        m_total <= indices@.len(),
        forall|r: int|
            0 <= r < m_total ==> #[trigger] indices@[r] == NO_EXPERT || indices@[r] < n_experts,
        m_total * k_in <= x@.len(),
        m_total * n_out <= old(out)@.len(),
    ensures
        final(out)@.len() == old(out)@.len(),
        forall|i: int|
            0 <= i < old(out)@.len() ==> #[trigger] final(out)@[i] == (if i < m_total * n_out {
                routed::<F, T>(
                    fragment_tiling(32, 8, false, false),
                    (Quant { bits: 5, k_in, m_out: n_out, group_size, n_experts }),
                    (Weights { words: w@, scales: scales@, biases: biases@ }),
                    x@,
                    indices@,
                    old(out)@,
                    i,
                )
            } else {
                old(out)@[i]
            }),
{
    tiled_gather(
        Tiling {
            bm: 32,
            bn: 32,
            bk: 32,
            slice: 8,
            unit: 8,
            masked: false,
            signed: false,
            multiplied: false,
            staged: false,
        },
        Quant { bits: 5, k_in, m_out: n_out, group_size, n_experts },
        x,
        w,
        scales,
        biases,
        indices,
        out,
        m_total,
    );
}

/// Expert matmul over a stream of six-bit codes on the matrix unit.
pub fn mt_moe_gather_qmm_mma_b6<F: Num, T: Store<F>>(
    x: &[T],
    w: &[u32],
    scales: &[T],
    biases: &[T],
    indices: &[u32],
    out: &mut Vec<T>,
    m_total: u32,
    n_out: u32,
    k_in: u32,
    group_size: u32,
    n_experts: u32,
)
    requires
        (Quant { bits: 6, k_in, m_out: n_out, group_size, n_experts }).wf(),
        (Quant { bits: 6, k_in, m_out: n_out, group_size, n_experts }).fits(
            (Weights { words: w@, scales: scales@, biases: biases@ }),
        ),
        k_in % 32 == 0,
        n_out % 32 == 0,
        m_total <= indices@.len(),
        forall|r: int|
            0 <= r < m_total ==> #[trigger] indices@[r] == NO_EXPERT || indices@[r] < n_experts,
        m_total * k_in <= x@.len(),
        m_total * n_out <= old(out)@.len(),
    ensures
        final(out)@.len() == old(out)@.len(),
        forall|i: int|
            0 <= i < old(out)@.len() ==> #[trigger] final(out)@[i] == (if i < m_total * n_out {
                routed::<F, T>(
                    fragment_tiling(32, 8, false, false),
                    (Quant { bits: 6, k_in, m_out: n_out, group_size, n_experts }),
                    (Weights { words: w@, scales: scales@, biases: biases@ }),
                    x@,
                    indices@,
                    old(out)@,
                    i,
                )
            } else {
                old(out)@[i]
            }),
{
    tiled_gather(
        Tiling {
            bm: 32,
            bn: 32,
            bk: 32,
            slice: 8,
            unit: 8,
            masked: false,
            signed: false,
            multiplied: false,
            staged: false,
        },
        Quant { bits: 6, k_in, m_out: n_out, group_size, n_experts },
        x,
        w,
        scales,
        biases,
        indices,
        out,
        m_total,
    );
}

/// Expert matmul over a stream of eight-bit codes on the matrix unit.
pub fn mt_moe_gather_qmm_mma_b8<F: Num, T: Store<F>>(
    x: &[T],
    w: &[u32],
    scales: &[T],
    biases: &[T],
    indices: &[u32],
    out: &mut Vec<T>,
    m_total: u32,
    n_out: u32,
    k_in: u32,
    group_size: u32,
    n_experts: u32,
)
    requires
        (Quant { bits: 8, k_in, m_out: n_out, group_size, n_experts }).wf(),
        (Quant { bits: 8, k_in, m_out: n_out, group_size, n_experts }).fits(
            (Weights { words: w@, scales: scales@, biases: biases@ }),
        ),
        k_in % 32 == 0,
        n_out % 32 == 0,
        m_total <= indices@.len(),
        forall|r: int|
            0 <= r < m_total ==> #[trigger] indices@[r] == NO_EXPERT || indices@[r] < n_experts,
        m_total * k_in <= x@.len(),
        m_total * n_out <= old(out)@.len(),
    ensures
        final(out)@.len() == old(out)@.len(),
        forall|i: int|
            0 <= i < old(out)@.len() ==> #[trigger] final(out)@[i] == (if i < m_total * n_out {
                routed::<F, T>(
                    fragment_tiling(32, 8, false, false),
                    (Quant { bits: 8, k_in, m_out: n_out, group_size, n_experts }),
                    (Weights { words: w@, scales: scales@, biases: biases@ }),
                    x@,
                    indices@,
                    old(out)@,
                    i,
                )
            } else {
                old(out)@[i]
            }),
{
    tiled_gather(
        Tiling {
            bm: 32,
            bn: 32,
            bk: 32,
            slice: 8,
            unit: 8,
            masked: false,
            signed: false,
            multiplied: false,
            staged: false,
        },
        Quant { bits: 8, k_in, m_out: n_out, group_size, n_experts },
        x,
        w,
        scales,
        biases,
        indices,
        out,
        m_total,
    );
}

/// Expert matmul over four-bit codes on the matrix unit, tiles of sixteen
/// rows.
pub fn mt_moe_gather_qmm_mma_int4_bm16<F: Num, T: Store<F>>(
    x: &[T],
    w: &[u32],
    scales: &[T],
    biases: &[T],
    indices: &[u32],
    out: &mut Vec<T>,
    m_total: u32,
    n_out: u32,
    k_in: u32,
    group_size: u32,
    n_experts: u32,
)
    requires
        (Quant { bits: 4, k_in, m_out: n_out, group_size, n_experts }).wf(),
        (Quant { bits: 4, k_in, m_out: n_out, group_size, n_experts }).fits(
            (Weights { words: w@, scales: scales@, biases: biases@ }),
        ),
        k_in % 32 == 0,
        n_out % 32 == 0,
        m_total <= indices@.len(),
        forall|r: int|
            0 <= r < m_total ==> #[trigger] indices@[r] == NO_EXPERT || indices@[r] < n_experts,
        m_total * k_in <= x@.len(),
        m_total * n_out <= old(out)@.len(),
    ensures
        final(out)@.len() == old(out)@.len(),
        forall|i: int|
            0 <= i < old(out)@.len() ==> #[trigger] final(out)@[i] == (if i < m_total * n_out {
                routed::<F, T>(
                    fragment_tiling(16, 8, true, true),
                    (Quant { bits: 4, k_in, m_out: n_out, group_size, n_experts }),
                    (Weights { words: w@, scales: scales@, biases: biases@ }),
                    x@,
                    indices@,
                    old(out)@,
                    i,
                )
            } else {
                old(out)@[i]
            }),
{
    tiled_gather(
        Tiling {
            bm: 16,
            bn: 32,
            bk: 32,
            slice: 8,
            unit: 8,
            masked: true,
            signed: false,
            multiplied: true,
            staged: false,
        },
        Quant { bits: 4, k_in, m_out: n_out, group_size, n_experts },
        x,
        w,
        scales,
        biases,
        indices,
        out,
        m_total,
    );
}

/// Expert matmul over signed bytes on the matrix unit.
pub fn mt_moe_gather_qmm_mma_int8<F: Num, T: Store<F>>(
    x: &[T],
    w: &[u32],
    scales: &[T],
    biases: &[T],
    indices: &[u32],
    out: &mut Vec<T>,
    m_total: u32,
    n_out: u32,
    k_in: u32,
    group_size: u32,
    n_experts: u32,
)
    requires
        (Quant { bits: 8, k_in, m_out: n_out, group_size, n_experts }).wf(),
        (Quant { bits: 8, k_in, m_out: n_out, group_size, n_experts }).fits(
            (Weights { words: w@, scales: scales@, biases: biases@ }),
        ),
        k_in % 32 == 0,
        n_out % 32 == 0,
        m_total <= indices@.len(),
        forall|r: int|
            0 <= r < m_total ==> #[trigger] indices@[r] == NO_EXPERT || indices@[r] < n_experts,
        m_total * k_in <= x@.len(),
        m_total * n_out <= old(out)@.len(),
    ensures
        final(out)@.len() == old(out)@.len(),
        forall|i: int|
            0 <= i < old(out)@.len() ==> #[trigger] final(out)@[i] == (if i < m_total * n_out {
                routed::<F, T>(
                    signed_tiling(32, 4),
                    (Quant { bits: 8, k_in, m_out: n_out, group_size, n_experts }),
                    (Weights { words: w@, scales: scales@, biases: biases@ }),
                    x@,
                    indices@,
                    old(out)@,
                    i,
                )
            } else {
                old(out)@[i]
            }),
{
    tiled_gather(
        Tiling {
            bm: 32,
            bn: 32,
            bk: 32,
            slice: 8,
            unit: 4,
            masked: false,
            signed: true,
            multiplied: false,
            staged: false,
        },
        Quant { bits: 8, k_in, m_out: n_out, group_size, n_experts },
        x,
        w,
        scales,
        biases,
        indices,
        out,
        m_total,
    );
}

/// The expert of a row is the first whose range ends behind it, and the first
/// of all if none does.
pub proof fn law_expert_is_first(offsets: Seq<u32>, row: int, n: nat, e: int)
    requires
        (0 <= e < n && row < offsets[e + 1] && forall|c: int|
            0 <= c < e ==> row >= #[trigger] offsets[c + 1]) || (e == 0 && forall|c: int|
            0 <= c < n ==> row >= #[trigger] offsets[c + 1]),
    ensures
        expert_of(offsets, row, n) == e,
{
    lemma_find_expert(offsets, row, n);
    let f = expert_of(offsets, row, n);
    if f < e {
        assert(row >= offsets[f + 1]);
    }
    if e < f {
        assert(row >= offsets[e + 1]);
    }
}

} // verus!
