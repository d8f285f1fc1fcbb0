//! RMS normalisation fused with a rotary embedding.
use vstd::prelude::*;

use super::norm::{get_rms_inverse, rms_inverse};
use super::rope::{law_zero_angle_keeps_pair, lemma_position_zero, rotate, rotated};
use crate::index::{lemma_row, lemma_row_col};
use crate::num::{ExactNum, Num, Store};
use crate::sums::{
    lemma_range_add, lemma_range_congr, lemma_range_shift, lemma_range_split, lemma_total_range,
    range_sum,
};

verus! {

/// Squares of the pair `(lid, lid + half)` of a row at `rs`.
pub open spec fn pair_squares<F: Num, T: Store<F>>(x: Seq<T>, rs: int, half: int, lid: int) -> F {
    let v1 = x[rs + lid].widen_s();
    let v2 = x[rs + lid + half].widen_s();
    v1.mul_s(v1).add_s(v2.mul_s(v2))
}

/// Normalisation factor of row `row`; each thread owns one pair.
pub open spec fn pair_rms<F: Num, T: Store<F>>(x: Seq<T>, eps: F, axis_size: u32, row: int) -> F {
    rms_inverse(
        Seq::new(
            (axis_size / 2) as nat,
            |l: int|
                pair_squares::<F, T>(x, row * axis_size, axis_size as int / 2, l),
        ),
        eps,
        axis_size,
    )
}

/// Position of row `row` in its sequence, from `offset`.
pub open spec fn row_position(row: int, offset: u32, n_heads: u32, seq_len: u32) -> u32 {
    (offset + (row / n_heads as int) % seq_len as int) as u32
}

/// What the kernel writes at element `i`.
pub open spec fn normed_rotated<F: Num, T: Store<F>>(
    x: Seq<T>,
    w: Seq<T>,
    inv_freqs: Seq<F>,
    eps: F,
    axis_size: u32,
    offset: u32,
    n_heads: u32,
    seq_len: u32,
    i: int,
) -> T {
    let row = i / axis_size as int;
    let c = i % axis_size as int;
    let half = axis_size as int / 2;
    let rs = row * axis_size;
    let lid = if c < half {
        c
    } else {
        c - half
    };
    let inv = pair_rms::<F, T>(x, eps, axis_size, row);
    let theta = F::of_u32_s(row_position(row, offset, n_heads, seq_len)).mul_s(inv_freqs[lid]);
    let a = x[rs + lid].widen_s().mul_s(w[lid].widen_s()).mul_s(inv);
    let b = x[rs + lid + half].widen_s().mul_s(w[lid + half].widen_s()).mul_s(inv);
    T::narrow_s(rotated(a, b, theta.cos_s(), theta.sin_s(), c >= half))
}

/// Normalises every row, weighs it, and rotates its pairs
/// `(j, j + axis_size / 2)` by the angle at the row's position.
pub fn ffai_rms_norm_rope<F: Num, T: Store<F>>(
    x: &[T],
    w: &[T],
    inv_freqs: &[F],
    out: &mut Vec<T>,
    eps_buf: &[F],
    axis_size: u32,
    offset: u32,
    n_heads: u32,
    seq_len: u32,
    n_rows: u32,
)
    requires
        axis_size % 2 == 0,
        0 < n_heads,
        0 < seq_len,
        offset + seq_len <= u32::MAX,
        1 <= eps_buf@.len(),
        axis_size <= w@.len(),
        axis_size / 2 <= inv_freqs@.len(),
        n_rows * axis_size <= x@.len(),
        n_rows * axis_size <= old(out)@.len(),
    ensures
        final(out)@.len() == old(out)@.len(),
        forall|i: int|
            0 <= i < old(out)@.len() ==> #[trigger] final(out)@[i] == (if i < n_rows * axis_size {
                normed_rotated::<F, T>(
                    x@,
                    w@,
                    inv_freqs@,
                    eps_buf@[0],
                    axis_size,
                    offset,
                    n_heads,
                    seq_len,
                    i,
                )
            } else {
                old(out)@[i]
            }),
{
    let ghost before = out@;
    let x_len: usize = x.len();
    let out_len: usize = out.len();
    let eps = eps_buf[0];
    let half: u32 = axis_size / 2;
    let mut row: u32 = 0;
    while row < n_rows
        invariant
            row <= n_rows,
            half == axis_size / 2,
            axis_size % 2 == 0,
            0 < n_heads,
            0 < seq_len,
            offset + seq_len <= u32::MAX,
            eps == eps_buf@[0],
            axis_size <= w@.len(),
            half <= inv_freqs@.len(),
            n_rows * axis_size <= x@.len() == x_len,
            n_rows * axis_size <= before.len() == out_len,
            out@.len() == before.len(),
            forall|i: int|
                0 <= i < before.len() ==> #[trigger] out@[i] == (if i < row * axis_size {
                    normed_rotated::<F, T>(
                    x@,
                    w@,
                    inv_freqs@,
                    eps_buf@[0],
                    axis_size,
                    offset,
                    n_heads,
                    seq_len,
                    i,
                )
                } else {
                    before[i]
                }),
        decreases n_rows - row,
    {
        proof {
            lemma_row(row as int, n_rows as int, axis_size as int);
        }
        let rs: usize = row as usize * axis_size as usize;
        let ghost full = Seq::new(
            half as nat,
            |l: int|
                pair_squares::<F, T>(x@, row * axis_size, axis_size as int / 2, l),
        );
        let mut parts: Vec<F> = Vec::new();
        let mut lid: u32 = 0;
        while lid < half
            invariant
                lid <= half,
                half == axis_size / 2,
                axis_size % 2 == 0,
                rs == row * axis_size,
                rs + axis_size <= x@.len() == x_len,
                full == Seq::new(
                    half as nat,
                    |l: int|
                        pair_squares::<F, T>(x@, row * axis_size, axis_size as int / 2, l),
                ),
                parts@ == full.take(lid as int),
            decreases half - lid,
        {
            let v1 = x[rs + lid as usize].widen();
            let v2 = x[rs + lid as usize + half as usize].widen();
            parts.push(v1.mul(v1).add(v2.mul(v2)));
            assert(parts@ =~= full.take(lid + 1));
            lid += 1;
        }
        assert(parts@ =~= full);
        let inv = get_rms_inverse(&parts, eps, axis_size);
        let l: u32 = (row / n_heads) % seq_len;
        let pos = F::of_u32(offset + l);
        let mut c: u32 = 0;
        while c < axis_size
            invariant
                c <= axis_size,
                row < n_rows,
                half == axis_size / 2,
                axis_size % 2 == 0,
                rs == row * axis_size,
                eps == eps_buf@[0],
                axis_size <= w@.len(),
                half <= inv_freqs@.len(),
                inv == pair_rms::<F, T>(x@, eps, axis_size, row as int),
                pos == F::of_u32_s(row_position(row as int, offset, n_heads, seq_len)),
                rs + axis_size <= x@.len() == x_len,
                rs + axis_size <= before.len() == out_len,
                out@.len() == before.len(),
                forall|i: int|
                    0 <= i < before.len() ==> #[trigger] out@[i] == (if i < rs + c {
                        normed_rotated::<F, T>(
                    x@,
                    w@,
                    inv_freqs@,
                    eps_buf@[0],
                    axis_size,
                    offset,
                    n_heads,
                    seq_len,
                    i,
                )
                    } else {
                        before[i]
                    }),
            decreases axis_size - c,
        {
            let lid: usize = if c < half {
                c as usize
            } else {
                (c - half) as usize
            };
            proof {
                lemma_row_col(row as int, c as int, axis_size as int);
            }
            let theta = pos.mul(inv_freqs[lid]);
            let a = x[rs + lid].widen().mul(w[lid].widen()).mul(inv);
            let b = x[rs + lid + half as usize].widen().mul(w[lid + half as usize].widen()).mul(inv);
            let v = rotate(a, b, theta.cos(), theta.sin(), c >= half);
            out.set(rs + c as usize, T::narrow(v));
            c += 1;
        }
        row += 1;
    }
}

/// The factor of a row is one over the root of its mean square plus `eps`.
pub proof fn law_pair_rms_is_mean_square<F: ExactNum, T: Store<F>>(
    x: Seq<T>,
    eps: F,
    axis_size: u32,
    row: int,
)
    requires
        axis_size % 2 == 0,
    ensures
        pair_rms::<F, T>(x, eps, axis_size, row) == range_sum(
            |i: int| x[row * axis_size + i].widen_s().mul_s(x[row * axis_size + i].widen_s()),
            0,
            axis_size as int,
        ).div_s(F::of_u32_s(axis_size)).add_s(eps).rsqrt_s(),
{
    let rs = row * axis_size;
    let half = axis_size as int / 2;
    let f = |i: int| x[row * axis_size + i].widen_s().mul_s(x[row * axis_size + i].widen_s());
    let parts = Seq::new(
        (axis_size / 2) as nat,
        |l: int| pair_squares::<F, T>(x, row * axis_size, axis_size as int / 2, l),
    );
    let pair = |l: int| parts[l];
    let upper = |l: int| f(l + half);
    F::lane_sum_total(parts);
    lemma_total_range(parts, pair);
    assert forall|l: int| 0 <= l < half implies #[trigger] pair(l) == f(l).add_s(upper(l)) by {
        assert(rs + l + half == rs + (l + half));
    }
    lemma_range_add(pair, f, upper, 0, half);
    lemma_range_shift(upper, f, 0, half, half);
    lemma_range_split(f, 0, half, axis_size as int);
}

/// A row at position zero is normalised and weighed, and not rotated.
pub proof fn law_position_zero_only_normalises<F: ExactNum, T: Store<F>>(
    x: Seq<T>,
    w: Seq<T>,
    inv_freqs: Seq<F>,
    eps: F,
    axis_size: u32,
    offset: u32,
    n_heads: u32,
    seq_len: u32,
    i: int,
)
    requires
        0 < axis_size,
        axis_size % 2 == 0,
        row_position(i / axis_size as int, offset, n_heads, seq_len) == 0,
    ensures
        normed_rotated::<F, T>(x, w, inv_freqs, eps, axis_size, offset, n_heads, seq_len, i)
            == T::narrow_s(
            x[i].widen_s().mul_s(w[i % axis_size as int].widen_s()).mul_s(
                pair_rms::<F, T>(x, eps, axis_size, i / axis_size as int),
            ),
        ),
{
    let row = i / axis_size as int;
    let c = i % axis_size as int;
    let half = axis_size as int / 2;
    let rs = row * axis_size;
    let lid = if c < half {
        c
    } else {
        c - half
    };
    vstd::arithmetic::div_mod::lemma_fundamental_div_mod(i, axis_size as int);
    assert(axis_size * row == row * axis_size) by (nonlinear_arith);
    let inv = pair_rms::<F, T>(x, eps, axis_size, row);
    let a = x[rs + lid].widen_s().mul_s(w[lid].widen_s()).mul_s(inv);
    let b = x[rs + lid + half].widen_s().mul_s(w[lid + half].widen_s()).mul_s(inv);
    lemma_position_zero(inv_freqs[lid]);
    law_zero_angle_keeps_pair(a, b, c >= half);
}

/// The row of head `h` of token `t` of sequence `b` is normalised, weighed, and
/// rotated by `offset + t` times the frequency of each pair, whichever sequence
/// of the batch it is in.
pub proof fn law_token_sets_the_angle<F: ExactNum, T: Store<F>>(
    x: Seq<T>,
    w: Seq<T>,
    inv_freqs: Seq<F>,
    eps: F,
    axis_size: u32,
    offset: u32,
    n_heads: u32,
    seq_len: u32,
    b: int,
    t: int,
    h: int,
    j: int,
)
    requires
        axis_size % 2 == 0,
        0 <= b,
        0 <= t < seq_len,
        0 <= h < n_heads,
        0 <= j < axis_size / 2,
        offset + seq_len <= u32::MAX,
    ensures
        ({
            let rs = ((b * seq_len + t) * n_heads + h) * axis_size;
            let half = axis_size as int / 2;
            let inv = range_sum(
                |c: int| x[rs + c].widen_s().mul_s(x[rs + c].widen_s()),
                0,
                axis_size as int,
            ).div_s(F::of_u32_s(axis_size)).add_s(eps).rsqrt_s();
            let theta = F::of_u32_s((offset + t) as u32).mul_s(inv_freqs[j]);
            let x1 = x[rs + j].widen_s().mul_s(w[j].widen_s()).mul_s(inv);
            let x2 = x[rs + half + j].widen_s().mul_s(w[half + j].widen_s()).mul_s(inv);
            &&& normed_rotated::<F, T>(
                x,
                w,
                inv_freqs,
                eps,
                axis_size,
                offset,
                n_heads,
                seq_len,
                rs + j,
            ) == T::narrow_s(x1.mul_s(theta.cos_s()).sub_s(x2.mul_s(theta.sin_s())))
            &&& normed_rotated::<F, T>(
                x,
                w,
                inv_freqs,
                eps,
                axis_size,
                offset,
                n_heads,
                seq_len,
                rs + half + j,
            ) == T::narrow_s(x1.mul_s(theta.sin_s()).add_s(x2.mul_s(theta.cos_s())))
        }),
{
    let token = b * seq_len + t;
    let row = token * n_heads + h;
    let rs = row * axis_size;
    let half = axis_size as int / 2;
    lemma_row_col(b, t, seq_len as int);
    lemma_row_col(token, h, n_heads as int);
    lemma_row_col(row, j, axis_size as int);
    lemma_row_col(row, half + j, axis_size as int);
    law_pair_rms_is_mean_square::<F, T>(x, eps, axis_size, row);
    lemma_range_congr(
        |c: int| x[rs + c].widen_s().mul_s(x[rs + c].widen_s()),
        |i: int| x[row * axis_size + i].widen_s().mul_s(x[row * axis_size + i].widen_s()),
        0,
        axis_size as int,
    );
    assert(rs + (half + j) == rs + half + j);
    assert(rs + j + half == rs + half + j);
    assert(row_position(row, offset, n_heads, seq_len) == offset + t);
}

/// Rows of different sequences, at one token and head and with the same
/// elements, come out the same.
pub proof fn law_sequences_are_alike<F: ExactNum, T: Store<F>>(
    x: Seq<T>,
    w: Seq<T>,
    inv_freqs: Seq<F>,
    eps: F,
    axis_size: u32,
    offset: u32,
    n_heads: u32,
    seq_len: u32,
    row: int,
    c: int,
)
    requires
        axis_size % 2 == 0,
        0 < n_heads,
        0 < seq_len,
        0 <= row,
        0 <= c < axis_size,
        offset + seq_len <= u32::MAX,
        forall|e: int|
            0 <= e < axis_size ==> #[trigger] x[row * axis_size + e] == x[(row + n_heads * seq_len)
                * axis_size + e],
    ensures
        normed_rotated::<F, T>(
            x,
            w,
            inv_freqs,
            eps,
            axis_size,
            offset,
            n_heads,
            seq_len,
            row * axis_size + c,
        ) == normed_rotated::<F, T>(
            x,
            w,
            inv_freqs,
            eps,
            axis_size,
            offset,
            n_heads,
            seq_len,
            (row + n_heads * seq_len) * axis_size + c,
        ),
{
    let (nh, sl) = (n_heads as int, seq_len as int);
    let (token, h) = (row / nh, row % nh);
    let (b, t) = (token / sl, token % sl);
    let half = axis_size as int / 2;
    let j = if c < half {
        c
    } else {
        c - half
    };
    let other = row + nh * sl;
    vstd::arithmetic::div_mod::lemma_fundamental_div_mod(row, nh);
    vstd::arithmetic::div_mod::lemma_mod_bound(row, nh);
    vstd::arithmetic::div_mod::lemma_div_pos_is_pos(row, nh);
    vstd::arithmetic::div_mod::lemma_fundamental_div_mod(token, sl);
    vstd::arithmetic::div_mod::lemma_mod_bound(token, sl);
    vstd::arithmetic::div_mod::lemma_div_pos_is_pos(token, sl);
    assert(nh * token == token * nh) by (nonlinear_arith);
    assert(sl * b == b * sl) by (nonlinear_arith);
    assert(((b + 1) * sl + t) * nh + h == other) by (nonlinear_arith)
        requires
            other == (b * sl + t) * nh + h + nh * sl,
    ;
    law_token_sets_the_angle::<F, T>(
        x, w, inv_freqs, eps, axis_size, offset, n_heads, seq_len, b, t, h, j,
    );
    law_token_sets_the_angle::<F, T>(
        x, w, inv_freqs, eps, axis_size, offset, n_heads, seq_len, b + 1, t, h, j,
    );
    let (r1, r2) = (row * axis_size, other * axis_size);
    assert(x[r1 + j] == x[r2 + j]);
    assert(x[r1 + (half + j)] == x[r2 + (half + j)]);
    lemma_range_congr(
        |e: int| x[r1 + e].widen_s().mul_s(x[r1 + e].widen_s()),
        |e: int| x[r2 + e].widen_s().mul_s(x[r2 + e].widen_s()),
        0,
        axis_size as int,
    );
}

} // verus!
