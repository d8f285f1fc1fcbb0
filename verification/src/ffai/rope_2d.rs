//! Rotary embedding over two axes: the first half of a head rotates by the row
//! of its token, the second half by the column.
use vstd::prelude::*;

use super::rope::{law_zero_angle_copies, lemma_position_zero, rotate_element, rotated_element};
use crate::index::{lemma_index_row, lemma_mul_le, lemma_row, lemma_row_col};
use crate::num::{ExactNum, ExactStore, Num, Store};

verus! {

/// Frequency of pair `j`: `theta_base` to the power `-2 j / half_dim`.
pub open spec fn planar_freq<F: Num>(j: u32, half_dim: u32, theta_base: F) -> F {
    F::of_u32_s(2).neg_s().mul_s(F::of_u32_s(j)).mul_s(theta_base.log2_s()).div_s(
        F::of_u32_s(half_dim),
    ).exp2_s()
}

/// Cosine and sine of pair `j` at a coordinate.
pub open spec fn planar_trig<F: Num>(coord: u32, j: u32, half_dim: u32, theta_base: F) -> (F, F) {
    let theta = F::of_u32_s(coord).mul_s(planar_freq(j, half_dim, theta_base));
    (theta.cos_s(), theta.sin_s())
}

fn get_planar_trig<F: Num>(coord: u32, j: u32, half_dim: u32, theta_base: F) -> (r: (F, F))
    ensures
        r == planar_trig(coord, j, half_dim, theta_base),
{
    let freq = F::of_u32(2).neg().mul(F::of_u32(j)).mul(theta_base.log2()).div(
        F::of_u32(half_dim),
    ).exp2();
    let theta = F::of_u32(coord).mul(freq);
    (theta.cos(), theta.sin())
}

/// What the kernel writes at element `i` of `[n_tokens, n_heads, head_dim]`.
pub open spec fn planar_element<F: Num, T: Store<F>>(
    qk: Seq<T>,
    positions: Seq<u32>,
    n_heads: u32,
    head_dim: u32,
    half_dim: u32,
    quarter_dim: u32,
    theta_base: F,
    i: int,
) -> T {
    let r = i / head_dim as int;
    let c = i % head_dim as int;
    let axis = c / half_dim as int;
    let d = c % half_dim as int;
    let token = r / n_heads as int;
    rotated_element::<F, T>(
        qk,
        r * head_dim + axis * half_dim,
        quarter_dim as int,
        d,
        planar_trig(
            positions[token * 2 + axis],
            (if d < quarter_dim {
                d
            } else {
                d - quarter_dim
            }) as u32,
            half_dim,
            theta_base,
        ),
    )
}

/// Rotates every head of every token by the token's row and column.
pub fn ffai_rope_2d<F: Num, T: Store<F>>(
    qk: &[T],
    positions: &[u32],
    out: &mut Vec<T>,
    n_heads: u32,
    head_dim: u32,
    half_dim: u32,
    quarter_dim: u32,
    theta_base: F,
    n_tokens: u32,
)
    requires
        0 < quarter_dim,
        half_dim == 2 * quarter_dim,
        head_dim == 2 * half_dim,
        2 * n_tokens <= positions@.len(),
        n_tokens * n_heads * head_dim <= qk@.len(),
        n_tokens * n_heads * head_dim <= old(out)@.len(),
    ensures
        final(out)@.len() == old(out)@.len(),
        forall|i: int|
            0 <= i < old(out)@.len() ==> #[trigger] final(out)@[i] == (if i < n_tokens * n_heads
                * head_dim {
                planar_element::<F, T>(
                    qk@,
                    positions@,
                    n_heads,
                    head_dim,
                    half_dim,
                    quarter_dim,
                    theta_base,
                    i,
                )
            } else {
                old(out)@[i]
            }),
{
    let ghost before = out@;
    let len: usize = qk.len();
    let p_len: usize = positions.len();
    let out_len: usize = out.len();
    proof {
        lemma_mul_le(0, n_tokens as int, 0, n_heads as int);
        lemma_mul_le(n_tokens * n_heads, n_tokens * n_heads, 1, head_dim as int);
    }
    let rows: usize = n_tokens as usize * n_heads as usize;
    let mut r: usize = 0;
    while r < rows
        invariant
            r <= rows,
            rows == n_tokens * n_heads,
            0 < quarter_dim,
            half_dim == 2 * quarter_dim,
            head_dim == 2 * half_dim,
            2 * n_tokens <= positions@.len() == p_len,
            rows * head_dim <= qk@.len() == len,
            rows * head_dim <= before.len() == out_len,
            out@.len() == before.len(),
            forall|i: int|
                0 <= i < before.len() ==> #[trigger] out@[i] == (if i < r * head_dim {
                    planar_element::<F, T>(
                    qk@,
                    positions@,
                    n_heads,
                    head_dim,
                    half_dim,
                    quarter_dim,
                    theta_base,
                    i,
                )
                } else {
                    before[i]
                }),
        decreases rows - r,
    {
        proof {
            lemma_row(r as int, rows as int, head_dim as int);
            assert(n_heads > 0) by (nonlinear_arith)
                requires
                    0 <= r < rows,
                    rows == n_tokens * n_heads,
            ;
            lemma_index_row(r as int, n_tokens as int, n_heads as int);
        }
        let token: usize = r / n_heads as usize;
        let base: usize = r * head_dim as usize;
        let mut c: u32 = 0;
        while c < head_dim
            invariant
                c <= head_dim,
                r < rows,
                token == r as int / n_heads as int,
                token < n_tokens,
                0 < quarter_dim,
                half_dim == 2 * quarter_dim,
                head_dim == 2 * half_dim,
                2 * n_tokens <= positions@.len() == p_len,
                base == r * head_dim,
                base + head_dim <= qk@.len() == len,
                base + head_dim <= before.len() == out_len,
                out@.len() == before.len(),
                forall|i: int|
                    0 <= i < before.len() ==> #[trigger] out@[i] == (if i < base + c {
                        planar_element::<F, T>(
                    qk@,
                    positions@,
                    n_heads,
                    head_dim,
                    half_dim,
                    quarter_dim,
                    theta_base,
                    i,
                )
                    } else {
                        before[i]
                    }),
            decreases head_dim - c,
        {
            let axis: u32 = if c < half_dim {
                0
            } else {
                1
            };
            let d: u32 = if c < half_dim {
                c
            } else {
                c - half_dim
            };
            let j: u32 = if d < quarter_dim {
                d
            } else {
                d - quarter_dim
            };
            proof {
                lemma_row_col(r as int, c as int, head_dim as int);
                lemma_row_col(axis as int, d as int, half_dim as int);
                assert(axis * half_dim == (if axis == 0 {
                    0
                } else {
                    half_dim as int
                })) by (nonlinear_arith)
                    requires
                        axis == 0 || axis == 1,
                ;
            }
            let coord: u32 = positions[token * 2 + axis as usize];
            let trig = get_planar_trig(coord, j, half_dim, theta_base);
            let start: usize = if axis == 0 {
                base
            } else {
                base + half_dim as usize
            };
            let v = rotate_element::<F, T>(qk, start, quarter_dim as usize, d as usize, trig);
            out.set(base + c as usize, v);
            c += 1;
        }
        r += 1;
    }
}

/// A token at row and column zero is copied.
pub proof fn law_origin_is_copied<F: ExactNum, T: ExactStore<F>>(
    qk: Seq<T>,
    positions: Seq<u32>,
    n_heads: u32,
    head_dim: u32,
    half_dim: u32,
    quarter_dim: u32,
    theta_base: F,
    i: int,
)
    requires
        0 < half_dim,
        head_dim == 2 * half_dim,
        positions[((i / head_dim as int) / n_heads as int) * 2] == 0,
        positions[((i / head_dim as int) / n_heads as int) * 2 + 1] == 0,
    ensures
        planar_element::<F, T>(
            qk,
            positions,
            n_heads,
            head_dim,
            half_dim,
            quarter_dim,
            theta_base,
            i,
        ) == qk[i],
{
    let (r, c) = (i / head_dim as int, i % head_dim as int);
    let (axis, d) = (c / half_dim as int, c % half_dim as int);
    let j = (if d < quarter_dim {
        d
    } else {
        d - quarter_dim
    }) as u32;
    vstd::arithmetic::div_mod::lemma_fundamental_div_mod(i, head_dim as int);
    vstd::arithmetic::div_mod::lemma_mod_bound(i, head_dim as int);
    lemma_index_row(c, 2, half_dim as int);
    assert(head_dim * r == r * head_dim) by (nonlinear_arith);
    vstd::arithmetic::div_mod::lemma_fundamental_div_mod(c, half_dim as int);
    assert(half_dim * axis == axis * half_dim) by (nonlinear_arith);
    lemma_position_zero(planar_freq(j, half_dim, theta_base));
    law_zero_angle_copies::<F, T>(qk, r * head_dim + axis * half_dim, quarter_dim as int, d);
}

} // verus!
