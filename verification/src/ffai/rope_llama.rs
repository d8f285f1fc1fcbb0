//! Rotary embedding with wavelength-banded frequencies.
use vstd::prelude::*;

use super::rope::{
    banded_freq, get_banded_freq, law_zero_angle_copies, lemma_position_zero, rotate_element,
    rotated_element,
};
use crate::index::{lemma_row, lemma_row_col};
use crate::num::{ExactNum, ExactStore, Num, Store};

verus! {

/// Cosine and sine for pair `j`.
pub open spec fn pair_trig<F: Num>(
    j: u32,
    half_dim: u32,
    position: u32,
    theta_base: F,
    scale_factor: F,
    low_freq_factor: F,
    high_freq_factor: F,
    original_max_position: F,
) -> (F, F) {
    let theta = F::of_u32_s(position).mul_s(
        banded_freq(
            j,
            half_dim,
            theta_base,
            scale_factor,
            low_freq_factor,
            high_freq_factor,
            original_max_position,
        ),
    );
    (theta.cos_s(), theta.sin_s())
}

/// Computes [`pair_trig`].
pub fn get_pair_trig<F: Num>(
    j: u32,
    half_dim: u32,
    position: u32,
    theta_base: F,
    scale_factor: F,
    low_freq_factor: F,
    high_freq_factor: F,
    original_max_position: F,
) -> (r: (F, F))
    ensures
        r == pair_trig(j, half_dim, position, theta_base, scale_factor, low_freq_factor, high_freq_factor, original_max_position),
{
    let theta = F::of_u32(position).mul(
        get_banded_freq(
            j,
            half_dim,
            theta_base,
            scale_factor,
            low_freq_factor,
            high_freq_factor,
            original_max_position,
        ),
    );
    (theta.cos(), theta.sin())
}

/// Rotates the pairs `(j, j + half_dim)` of every head by their angle at
/// `position`.
pub fn ffai_rope_llama<F: Num, T: Store<F>>(
    qk: &[T],
    out: &mut Vec<T>,
    head_dim: u32,
    half_dim: u32,
    position: u32,
    theta_base: F,
    scale_factor: F,
    low_freq_factor: F,
    high_freq_factor: F,
    original_max_position: F,
    n_heads: u32,
)
    requires
        0 < head_dim,
        2 * half_dim <= head_dim,
        n_heads * head_dim <= qk@.len(),
        n_heads * head_dim <= old(out)@.len(),
    ensures
        final(out)@.len() == old(out)@.len(),
        forall|i: int|
            0 <= i < old(out)@.len() ==> #[trigger] final(out)@[i] == (if i < n_heads * head_dim
                && i % (head_dim as int) < 2 * half_dim {
                rotated_element::<F, T>(
                    qk@,
                    (i / head_dim as int) * head_dim,
                    half_dim as int,
                    i % head_dim as int,
                    pair_trig(
                        (if i % (head_dim as int) < half_dim {
                            i % head_dim as int
                        } else {
                            i % head_dim as int - half_dim
                        }) as u32,
                        half_dim,
                        position,
                        theta_base,
                        scale_factor,
                        low_freq_factor,
                        high_freq_factor,
                        original_max_position,
                    ),
                )
            } else {
                old(out)@[i]
            }),
{
    let ghost before = out@;
    let len: usize = qk.len();
    let out_len: usize = out.len();
    let mut head: u32 = 0;
    while head < n_heads
        invariant
            head <= n_heads,
            0 < head_dim,
            2 * half_dim <= head_dim,
            n_heads * head_dim <= qk@.len() == len,
            n_heads * head_dim <= before.len() == out_len,
            out@.len() == before.len(),
            forall|i: int|
                0 <= i < before.len() ==> #[trigger] out@[i] == (if i < head * head_dim && i % (
                head_dim as int) < 2 * half_dim {
                    rotated_element::<F, T>(
                    qk@,
                    (i / head_dim as int) * head_dim,
                    half_dim as int,
                    i % head_dim as int,
                    pair_trig(
                        (if i % (head_dim as int) < half_dim {
                            i % head_dim as int
                        } else {
                            i % head_dim as int - half_dim
                        }) as u32,
                        half_dim,
                        position,
                        theta_base,
                        scale_factor,
                        low_freq_factor,
                        high_freq_factor,
                        original_max_position,
                    ),
                )
                } else {
                    before[i]
                }),
        decreases n_heads - head,
    {
        proof {
            lemma_row(head as int, n_heads as int, head_dim as int);
        }
        let base: usize = head as usize * head_dim as usize;
        let mut c: u32 = 0;
        while c < 2 * half_dim
            invariant
                c <= 2 * half_dim <= head_dim,
                0 < head_dim,
                base == head * head_dim,
                base + head_dim <= qk@.len() == len,
                base + head_dim <= before.len() == out_len,
                out@.len() == before.len(),
                forall|i: int|
                    0 <= i < before.len() ==> #[trigger] out@[i] == (if i < base + c && i % (
                    head_dim as int) < 2 * half_dim {
                        rotated_element::<F, T>(
                    qk@,
                    (i / head_dim as int) * head_dim,
                    half_dim as int,
                    i % head_dim as int,
                    pair_trig(
                        (if i % (head_dim as int) < half_dim {
                            i % head_dim as int
                        } else {
                            i % head_dim as int - half_dim
                        }) as u32,
                        half_dim,
                        position,
                        theta_base,
                        scale_factor,
                        low_freq_factor,
                        high_freq_factor,
                        original_max_position,
                    ),
                )
                    } else {
                        before[i]
                    }),
            decreases 2 * half_dim - c,
        {
            let j: u32 = if c < half_dim {
                c
            } else {
                c - half_dim
            };
            let trig = get_pair_trig(
                j,
                half_dim,
                position,
                theta_base,
                scale_factor,
                low_freq_factor,
                high_freq_factor,
                original_max_position,
            );
            proof {
                lemma_row_col(head as int, c as int, head_dim as int);
            }
            let v = rotate_element::<F, T>(qk, base, half_dim as usize, c as usize, trig);
            out.set(base + c as usize, v);
            c += 1;
        }
        proof {
            assert forall|i: int| 0 <= i < before.len() implies #[trigger] out@[i] == (if i < (head
                + 1) * head_dim && i % (head_dim as int) < 2 * half_dim {
                rotated_element::<F, T>(
                    qk@,
                    (i / head_dim as int) * head_dim,
                    half_dim as int,
                    i % head_dim as int,
                    pair_trig(
                        (if i % (head_dim as int) < half_dim {
                            i % head_dim as int
                        } else {
                            i % head_dim as int - half_dim
                        }) as u32,
                        half_dim,
                        position,
                        theta_base,
                        scale_factor,
                        low_freq_factor,
                        high_freq_factor,
                        original_max_position,
                    ),
                )
            } else {
                before[i]
            }) by {
                if base + 2 * half_dim <= i < base + head_dim {
                    lemma_row_col(head as int, i - base, head_dim as int);
                }
            }
        }
        head += 1;
    }
}

/// Position zero has the zero angle in every pair, so its row is copied.
pub proof fn law_position_zero_copies<F: ExactNum, T: ExactStore<F>>(
    qk: Seq<T>,
    base: int,
    half_dim: u32,
    c: int,
    j: u32,
    theta_base: F,
    scale_factor: F,
    low_freq_factor: F,
    high_freq_factor: F,
    original_max_position: F,
)
    ensures
        rotated_element::<F, T>(
            qk,
            base,
            half_dim as int,
            c,
            pair_trig(
                j,
                half_dim,
                0,
                theta_base,
                scale_factor,
                low_freq_factor,
                high_freq_factor,
                original_max_position,
            ),
        ) == qk[base + c],
{
    lemma_position_zero(
        banded_freq(
            j,
            half_dim,
            theta_base,
            scale_factor,
            low_freq_factor,
            high_freq_factor,
            original_max_position,
        ),
    );
    law_zero_angle_copies::<F, T>(qk, base, half_dim as int, c);
}

} // verus!
