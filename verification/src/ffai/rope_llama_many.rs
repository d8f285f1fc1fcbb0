//! Rotary embedding of many rows, each at a position of its own.
use vstd::prelude::*;

use super::rope::{rotate_element, rotated_element};
use super::rope_llama::{get_pair_trig, law_position_zero_copies, pair_trig};
use crate::index::{lemma_row, lemma_row_col};
use crate::num::{ExactNum, ExactStore, Num, Store};

verus! {

/// Element `i` is one of the rotated elements of a head.
pub open spec fn is_rotated(
    i: int,
    head_dim: u32,
    half_dim: u32,
    row_stride: u32,
    n_heads: u32,
    n_rows: u32,
) -> bool {
    let at = i % row_stride as int;
    &&& i < n_rows * row_stride
    &&& at < n_heads * head_dim
    &&& at % (head_dim as int) < 2 * half_dim
}

/// What the kernel writes at a rotated element `i`: row `i / row_stride` is
/// rotated as at position `positions[i / row_stride]`.
pub open spec fn many_element<F: Num, T: Store<F>>(
    qk: Seq<T>,
    positions: Seq<u32>,
    head_dim: u32,
    half_dim: u32,
    row_stride: u32,
    theta_base: F,
    scale_factor: F,
    low_freq_factor: F,
    high_freq_factor: F,
    original_max_position: F,
    i: int,
) -> T {
    let r = i / row_stride as int;
    let at = i % row_stride as int;
    let c = at % head_dim as int;
    rotated_element::<F, T>(
        qk,
        r * row_stride + (at / head_dim as int) * head_dim,
        half_dim as int,
        c,
        pair_trig(
            (if c < half_dim {
                c
            } else {
                c - half_dim
            }) as u32,
            half_dim,
            positions[r],
            theta_base,
            scale_factor,
            low_freq_factor,
            high_freq_factor,
            original_max_position,
        ),
    )
}

/// Rotates every row of `qk` at its own position. Rows are `row_stride` apart
/// and hold `n_heads` heads.
pub fn ffai_rope_llama_many<F: Num, T: Store<F>>(
    qk: &[T],
    positions: &[u32],
    out: &mut Vec<T>,
    head_dim: u32,
    half_dim: u32,
    row_stride: u32,
    theta_base: F,
    scale_factor: F,
    low_freq_factor: F,
    high_freq_factor: F,
    original_max_position: F,
    n_rows: u32,
    n_heads: u32,
)
    requires
        0 < head_dim,
        0 < row_stride,
        2 * half_dim <= head_dim,
        n_heads * head_dim <= row_stride,
        n_rows <= positions@.len(),
        n_rows * row_stride <= qk@.len(),
        n_rows * row_stride <= old(out)@.len(),
    ensures
        final(out)@.len() == old(out)@.len(),
        forall|i: int|
            0 <= i < old(out)@.len() ==> #[trigger] final(out)@[i] == (if is_rotated(
                i,
                head_dim,
                half_dim,
                row_stride,
                n_heads,
                n_rows,
            ) {
                many_element::<F, T>(
                    qk@,
                    positions@,
                    head_dim,
                    half_dim,
                    row_stride,
                    theta_base,
                    scale_factor,
                    low_freq_factor,
                    high_freq_factor,
                    original_max_position,
                    i,
                )
            } else {
                old(out)@[i]
            }),
{
    let ghost before = out@;
    let len: usize = qk.len();
    let out_len: usize = out.len();
    let mut r: u32 = 0;
    while r < n_rows
        invariant
            r <= n_rows,
            0 < head_dim,
            0 < row_stride,
            2 * half_dim <= head_dim,
            n_heads * head_dim <= row_stride,
            n_rows <= positions@.len(),
            n_rows * row_stride <= qk@.len() == len,
            n_rows * row_stride <= before.len() == out_len,
            out@.len() == before.len(),
            forall|i: int|
                0 <= i < before.len() ==> #[trigger] out@[i] == (if i < r * row_stride
                    && is_rotated(i, head_dim, half_dim, row_stride, n_heads, n_rows) {
                    many_element::<F, T>(
                    qk@,
                    positions@,
                    head_dim,
                    half_dim,
                    row_stride,
                    theta_base,
                    scale_factor,
                    low_freq_factor,
                    high_freq_factor,
                    original_max_position,
                    i,
                )
                } else {
                    before[i]
                }),
        decreases n_rows - r,
    {
        proof {
            lemma_row(r as int, n_rows as int, row_stride as int);
        }
        let row: usize = r as usize * row_stride as usize;
        let mut at: u32 = 0;
        while at < row_stride
            invariant
                at <= row_stride,
                r < n_rows,
                0 < head_dim,
                2 * half_dim <= head_dim,
                n_heads * head_dim <= row_stride,
                n_rows <= positions@.len(),
                row == r * row_stride,
                row + row_stride <= n_rows * row_stride,
                n_rows * row_stride <= qk@.len() == len,
                n_rows * row_stride <= before.len() == out_len,
                out@.len() == before.len(),
                forall|i: int|
                    0 <= i < before.len() ==> #[trigger] out@[i] == (if i < row + at && is_rotated(
                        i,
                        head_dim,
                        half_dim,
                        row_stride,
                        n_heads,
                        n_rows,
                    ) {
                        many_element::<F, T>(
                    qk@,
                    positions@,
                    head_dim,
                    half_dim,
                    row_stride,
                    theta_base,
                    scale_factor,
                    low_freq_factor,
                    high_freq_factor,
                    original_max_position,
                    i,
                )
                    } else {
                        before[i]
                    }),
            decreases row_stride - at,
        {
            let head: u32 = at / head_dim;
            let c: u32 = at % head_dim;
            proof {
                lemma_row_col(r as int, at as int, row_stride as int);
                vstd::arithmetic::div_mod::lemma_fundamental_div_mod(at as int, head_dim as int);
                assert(head_dim * head == head * head_dim) by (nonlinear_arith);
                assert(head < n_heads <==> at < n_heads * head_dim) by {
                    if head < n_heads {
                        lemma_row(head as int, n_heads as int, head_dim as int);
                    } else {
                        crate::index::lemma_mul_le(
                            n_heads as int,
                            head as int,
                            head_dim as int,
                            head_dim as int,
                        );
                    }
                }
            }
            if head < n_heads && c < 2 * half_dim {
                let j: u32 = if c < half_dim {
                    c
                } else {
                    c - half_dim
                };
                let trig = get_pair_trig(
                    j,
                    half_dim,
                    positions[r as usize],
                    theta_base,
                    scale_factor,
                    low_freq_factor,
                    high_freq_factor,
                    original_max_position,
                );
                proof {
                    lemma_row(head as int, n_heads as int, head_dim as int);
                }
                let base: usize = row + head as usize * head_dim as usize;
                let v = rotate_element::<F, T>(qk, base, half_dim as usize, c as usize, trig);
                out.set(row + at as usize, v);
            }
            at += 1;
        }
        r += 1;
    }
}

/// Row `r` is rotated exactly as the single-position kernel rotates it at
/// `positions[r]`.
pub proof fn law_many_rows_match_single<F: Num, T: Store<F>>(
    qk: Seq<T>,
    alone: Seq<T>,
    positions: Seq<u32>,
    head_dim: u32,
    half_dim: u32,
    row_stride: u32,
    theta_base: F,
    scale_factor: F,
    low_freq_factor: F,
    high_freq_factor: F,
    original_max_position: F,
    r: int,
    head: int,
    c: int,
)
    requires
        0 <= r,
        0 <= head,
        0 <= c < 2 * half_dim <= head_dim,
        (head + 1) * head_dim <= row_stride,
        forall|i: int|
            0 <= i < row_stride ==> #[trigger] alone[i] == qk[r * row_stride + i],
    ensures
        many_element::<F, T>(
            qk,
            positions,
            head_dim,
            half_dim,
            row_stride,
            theta_base,
            scale_factor,
            low_freq_factor,
            high_freq_factor,
            original_max_position,
            r * row_stride + head * head_dim + c,
        ) == rotated_element::<F, T>(
            alone,
            head * head_dim,
            half_dim as int,
            c,
            pair_trig(
                (if c < half_dim {
                    c
                } else {
                    c - half_dim
                }) as u32,
                half_dim,
                positions[r],
                theta_base,
                scale_factor,
                low_freq_factor,
                high_freq_factor,
                original_max_position,
            ),
        ),
{
    lemma_row(head, head + 1, head_dim as int);
    lemma_row_col(r, head * head_dim + c, row_stride as int);
    lemma_row_col(head, c, head_dim as int);
    let j = if c < half_dim {
        c
    } else {
        c - half_dim
    };
    assert(alone[head * head_dim + j] == qk[r * row_stride + (head * head_dim + j)]);
    assert(alone[head * head_dim + j + half_dim] == qk[r * row_stride + (head * head_dim + j
        + half_dim)]);
}

/// A row at position zero is copied.
pub proof fn law_row_zero_is_copied<F: ExactNum, T: ExactStore<F>>(
    qk: Seq<T>,
    positions: Seq<u32>,
    head_dim: u32,
    half_dim: u32,
    row_stride: u32,
    theta_base: F,
    scale_factor: F,
    low_freq_factor: F,
    high_freq_factor: F,
    original_max_position: F,
    i: int,
)
    requires
        0 < head_dim,
        0 < row_stride,
        positions[i / row_stride as int] == 0,
    ensures
        many_element::<F, T>(
            qk,
            positions,
            head_dim,
            half_dim,
            row_stride,
            theta_base,
            scale_factor,
            low_freq_factor,
            high_freq_factor,
            original_max_position,
            i,
        ) == qk[i],
{
    let (r, at) = (i / row_stride as int, i % row_stride as int);
    let (head, c) = (at / head_dim as int, at % head_dim as int);
    let j = (if c < half_dim {
        c
    } else {
        c - half_dim
    }) as u32;
    vstd::arithmetic::div_mod::lemma_fundamental_div_mod(i, row_stride as int);
    vstd::arithmetic::div_mod::lemma_fundamental_div_mod(at, head_dim as int);
    assert(row_stride * r == r * row_stride) by (nonlinear_arith);
    assert(head_dim * head == head * head_dim) by (nonlinear_arith);
    law_position_zero_copies::<F, T>(
        qk,
        r * row_stride + head * head_dim,
        half_dim,
        c,
        j,
        theta_base,
        scale_factor,
        low_freq_factor,
        high_freq_factor,
        original_max_position,
    );
}

} // verus!
