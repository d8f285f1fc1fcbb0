//! What the rotary kernels compute, stated on the rows themselves, and how their
//! angles and lengths behave.
use vstd::prelude::*;

use super::rope::{base_freq, rotated, rotated_element};
use super::rope_2d::{planar_element, planar_freq};
use super::rope_llama::pair_trig;
use super::rope_llama_many::{is_rotated, law_many_rows_match_single, many_element};
use crate::index::{lemma_row, lemma_row_col};
use crate::num::{ExactNum, Num, Store};
use crate::sums::{lemma_add_neg, lemma_add_swap, lemma_neg_unique};

verus! {

/// Pair `j` of a head of a row at `base`, with frequencies banded by wavelength:
/// the pair turns by the position times its frequency. The plain frequency is
/// two to the power of `-j log2(theta_base) / half_dim`; wavelengths above
/// `original_max_position / low` have it divided by `scale_factor`, those below
/// `original_max_position / high` keep it, and those between blend the two.
pub proof fn law_banded_rotation_of_rows<F: Num, T: Store<F>>(
    qk: Seq<T>,
    base: int,
    half_dim: u32,
    position: u32,
    theta_base: F,
    scale_factor: F,
    low: F,
    high: F,
    original_max_position: F,
    j: u32,
    plain: F,
    wavelength: F,
    blend: F,
    freq: F,
)
    requires
        j < half_dim,
        plain == F::of_u32_s(j).neg_s().mul_s(theta_base.log2_s()).div_s(
            F::of_u32_s(half_dim),
        ).exp2_s(),
        wavelength == F::two_pi_s().div_s(plain),
        blend == original_max_position.div_s(wavelength).sub_s(low).div_s(high.sub_s(low)),
        wavelength.gt_s(original_max_position.div_s(low)) ==> freq == plain.div_s(scale_factor),
        !wavelength.gt_s(original_max_position.div_s(low)) && original_max_position.div_s(high).gt_s(
            wavelength,
        ) ==> freq == plain,
        !wavelength.gt_s(original_max_position.div_s(low)) && !original_max_position.div_s(
            high,
        ).gt_s(wavelength) ==> freq == F::one_s().sub_s(blend).mul_s(
            plain.div_s(scale_factor),
        ).add_s(blend.mul_s(plain)),
    ensures
        ({
            let theta = F::of_u32_s(position).mul_s(freq);
            let x1 = qk[base + j].widen_s();
            let x2 = qk[base + j + half_dim].widen_s();
            let trig = pair_trig(
                j,
                half_dim,
                position,
                theta_base,
                scale_factor,
                low,
                high,
                original_max_position,
            );
            &&& rotated_element::<F, T>(qk, base, half_dim as int, j as int, trig) == T::narrow_s(
                x1.mul_s(theta.cos_s()).sub_s(x2.mul_s(theta.sin_s())),
            )
            &&& rotated_element::<F, T>(qk, base, half_dim as int, j + half_dim, trig)
                == T::narrow_s(x1.mul_s(theta.sin_s()).add_s(x2.mul_s(theta.cos_s())))
        }),
{
}

/// Pair `j` with frequencies ramped over the pairs: the plain frequency below
/// `low`, divided by `factor` above `high`, and in proportion between; the
/// rotated pair is scaled by `attn_factor`.
pub proof fn law_ramped_rotation_of_rows<F: Num, T: Store<F>>(
    qk: Seq<T>,
    base: int,
    half_dim: u32,
    position: u32,
    theta_base: F,
    factor: F,
    low: F,
    high: F,
    attn_factor: F,
    j: u32,
    plain: F,
    ramp: F,
)
    requires
        j < half_dim,
        plain == F::of_u32_s(j).neg_s().mul_s(theta_base.log2_s()).div_s(
            F::of_u32_s(half_dim),
        ).exp2_s(),
        ({
            let t = F::of_u32_s(j).sub_s(low).div_s(high.sub_s(low));
            ramp == (if F::zero_s().gt_s(t) {
                F::zero_s()
            } else if t.gt_s(F::one_s()) {
                F::one_s()
            } else {
                t
            })
        }),
    ensures
        ({
            let freq = plain.div_s(factor).mul_s(ramp).add_s(
                plain.mul_s(F::one_s().sub_s(ramp)),
            );
            let theta = F::of_u32_s(position).mul_s(freq);
            let (cos, sin) = (theta.cos_s().mul_s(attn_factor), theta.sin_s().mul_s(attn_factor));
            let x1 = qk[base + j].widen_s();
            let x2 = qk[base + j + half_dim].widen_s();
            let trig = super::rope_yarn::pair_trig(
                j,
                half_dim,
                position,
                theta_base,
                factor,
                low,
                high,
                attn_factor,
            );
            &&& rotated_element::<F, T>(qk, base, half_dim as int, j as int, trig) == T::narrow_s(
                x1.mul_s(cos).sub_s(x2.mul_s(sin)),
            )
            &&& rotated_element::<F, T>(qk, base, half_dim as int, j + half_dim, trig)
                == T::narrow_s(x1.mul_s(sin).add_s(x2.mul_s(cos)))
        }),
{
}

/// Row `r` of many, head `head`, pair `j`: the pair turns by the row's own
/// position times the frequency of the single-row kernel.
pub proof fn law_many_rotation_of_rows<F: Num, T: Store<F>>(
    qk: Seq<T>,
    positions: Seq<u32>,
    head_dim: u32,
    half_dim: u32,
    row_stride: u32,
    theta_base: F,
    scale_factor: F,
    low: F,
    high: F,
    original_max_position: F,
    n_heads: u32,
    n_rows: u32,
    r: int,
    head: int,
    j: u32,
)
    requires
        0 <= r < n_rows,
        0 <= head < n_heads,
        j < half_dim,
        2 * half_dim <= head_dim,
        n_heads * head_dim <= row_stride,
    ensures
        ({
            let at = r * row_stride + head * head_dim;
            let trig = pair_trig(
                j,
                half_dim,
                positions[r],
                theta_base,
                scale_factor,
                low,
                high,
                original_max_position,
            );
            let x1 = qk[at + j].widen_s();
            let x2 = qk[at + j + half_dim].widen_s();
            &&& is_rotated(at + j, head_dim, half_dim, row_stride, n_heads, n_rows)
            &&& is_rotated(at + j + half_dim, head_dim, half_dim, row_stride, n_heads, n_rows)
            &&& many_element::<F, T>(
                qk,
                positions,
                head_dim,
                half_dim,
                row_stride,
                theta_base,
                scale_factor,
                low,
                high,
                original_max_position,
                at + j,
            ) == T::narrow_s(x1.mul_s(trig.0).sub_s(x2.mul_s(trig.1)))
            &&& many_element::<F, T>(
                qk,
                positions,
                head_dim,
                half_dim,
                row_stride,
                theta_base,
                scale_factor,
                low,
                high,
                original_max_position,
                at + j + half_dim,
            ) == T::narrow_s(x1.mul_s(trig.1).add_s(x2.mul_s(trig.0)))
        }),
{
    let at = r * row_stride + head * head_dim;
    lemma_row(head, n_heads as int, head_dim as int);
    lemma_row(r, n_rows as int, row_stride as int);
    let alone = Seq::new(row_stride as nat, |i: int| qk[r * row_stride + i]);
    assert forall|c: int| 0 <= c < 2 * half_dim implies #[trigger] is_rotated(
        at + c,
        head_dim,
        half_dim,
        row_stride,
        n_heads,
        n_rows,
    ) by {
        lemma_row_col(r, head * head_dim + c, row_stride as int);
        lemma_row_col(head, c, head_dim as int);
    }
    assert(is_rotated(at + j, head_dim, half_dim, row_stride, n_heads, n_rows));
    assert(is_rotated(at + (j + half_dim), head_dim, half_dim, row_stride, n_heads, n_rows));
    law_many_rows_match_single::<F, T>(
        qk,
        alone,
        positions,
        head_dim,
        half_dim,
        row_stride,
        theta_base,
        scale_factor,
        low,
        high,
        original_max_position,
        r,
        head,
        j as int,
    );
    law_many_rows_match_single::<F, T>(
        qk,
        alone,
        positions,
        head_dim,
        half_dim,
        row_stride,
        theta_base,
        scale_factor,
        low,
        high,
        original_max_position,
        r,
        head,
        j + half_dim,
    );
    assert(alone[head * head_dim + j] == qk[r * row_stride + (head * head_dim + j)]);
    assert(alone[head * head_dim + j + half_dim] == qk[r * row_stride + (head * head_dim + j
        + half_dim)]);
    assert(at + (j + half_dim) == at + j + half_dim);
}

/// Elements between the heads of a row and the next row are not rotated, nor are
/// those of a head past its pairs.
pub proof fn law_slack_is_not_rotated(
    head_dim: u32,
    half_dim: u32,
    row_stride: u32,
    n_heads: u32,
    n_rows: u32,
    r: int,
    at: int,
)
    requires
        0 < head_dim,
        0 <= r,
        0 <= at < row_stride,
    ensures
        n_heads * head_dim <= at ==> !is_rotated(
            r * row_stride + at,
            head_dim,
            half_dim,
            row_stride,
            n_heads,
            n_rows,
        ),
        2 * half_dim <= at % head_dim as int ==> !is_rotated(
            r * row_stride + at,
            head_dim,
            half_dim,
            row_stride,
            n_heads,
            n_rows,
        ),
{
    lemma_row_col(r, at, row_stride as int);
}

/// Head `head` of token `token`: on axis 0, its first half, the pairs turn by the
/// token's row, and on axis 1, its second half, by its column. Pair `j` has the
/// frequency two to the power of `-2 j log2(theta_base) / half_dim`.
pub proof fn law_planar_rotation_of_tokens<F: Num, T: Store<F>>(
    qk: Seq<T>,
    positions: Seq<u32>,
    n_heads: u32,
    head_dim: u32,
    half_dim: u32,
    quarter_dim: u32,
    theta_base: F,
    token: int,
    head: int,
    axis: int,
    j: u32,
)
    requires
        half_dim == 2 * quarter_dim,
        head_dim == 2 * half_dim,
        0 <= token,
        0 <= head < n_heads,
        axis == 0 || axis == 1,
        j < quarter_dim,
    ensures
        ({
            let at = (token * n_heads + head) * head_dim + axis * half_dim;
            let freq = F::of_u32_s(2).neg_s().mul_s(F::of_u32_s(j)).mul_s(
                theta_base.log2_s(),
            ).div_s(F::of_u32_s(half_dim)).exp2_s();
            let theta = F::of_u32_s(positions[token * 2 + axis]).mul_s(freq);
            let x1 = qk[at + j].widen_s();
            let x2 = qk[at + j + quarter_dim].widen_s();
            &&& planar_element::<F, T>(
                qk,
                positions,
                n_heads,
                head_dim,
                half_dim,
                quarter_dim,
                theta_base,
                at + j,
            ) == T::narrow_s(x1.mul_s(theta.cos_s()).sub_s(x2.mul_s(theta.sin_s())))
            &&& planar_element::<F, T>(
                qk,
                positions,
                n_heads,
                head_dim,
                half_dim,
                quarter_dim,
                theta_base,
                at + j + quarter_dim,
            ) == T::narrow_s(x1.mul_s(theta.sin_s()).add_s(x2.mul_s(theta.cos_s())))
        }),
{
    let r = token * n_heads + head;
    lemma_row_col(token, head, n_heads as int);
    lemma_row_col(r, axis * half_dim + j, head_dim as int);
    lemma_row_col(r, axis * half_dim + (j + quarter_dim), head_dim as int);
    lemma_row_col(axis, j as int, half_dim as int);
    lemma_row_col(axis, j + quarter_dim, half_dim as int);
    let at = r * head_dim + axis * half_dim;
    assert(at + j == r * head_dim + (axis * half_dim + j));
    assert(at + j + quarter_dim == r * head_dim + (axis * half_dim + (j + quarter_dim)));
}

/// A rotation keeps the length of a pair.
pub proof fn law_rotation_keeps_length<F: ExactNum>(x1: F, x2: F, c: F, s: F)
    requires
        c.mul_s(c).add_s(s.mul_s(s)) == F::one_s(),
    ensures
        ({
            let y1 = rotated(x1, x2, c, s, false);
            let y2 = rotated(x1, x2, c, s, true);
            y1.mul_s(y1).add_s(y2.mul_s(y2)) == x1.mul_s(x1).add_s(x2.mul_s(x2))
        }),
{
    let (p, q) = (x1.mul_s(c), x2.mul_s(s));
    let (u, v) = (x1.mul_s(s), x2.mul_s(c));
    let cross = p.mul_s(q);
    lemma_square_of_difference(p, q);
    lemma_square_of_sum(u, v);
    // both cross products are x1 x2 c s
    lemma_swap_factors(x1, c, x2, s);
    lemma_swap_factors(x1, s, x2, c);
    F::mul_comm(c, s);
    assert(cross == u.mul_s(v));
    let (a, b) = (p.mul_s(p).add_s(q.mul_s(q)), u.mul_s(u).add_s(v.mul_s(v)));
    let twice = cross.add_s(cross);
    // (a - twice) + (b + twice) == a + b
    lemma_add_swap(a, twice.neg_s(), b, twice);
    lemma_add_neg(twice);
    F::add_zero(a.add_s(b));
    // a + b == (p p + u u) + (v v + q q)
    F::add_comm(q.mul_s(q), p.mul_s(p));
    lemma_add_swap(p.mul_s(p), q.mul_s(q), u.mul_s(u), v.mul_s(v));
    lemma_swap_factors(x1, c, x1, c);
    lemma_swap_factors(x1, s, x1, s);
    lemma_swap_factors(x2, s, x2, s);
    lemma_swap_factors(x2, c, x2, c);
    let (xx, yy, cc, ss) = (x1.mul_s(x1), x2.mul_s(x2), c.mul_s(c), s.mul_s(s));
    lemma_distrib_over(xx, cc, ss);
    lemma_distrib_over(yy, ss, cc);
    F::add_comm(ss, cc);
    F::mul_one(xx);
    F::mul_one(yy);
}

/// `(a b) (c d) == (a c) (b d)`.
proof fn lemma_swap_factors<F: ExactNum>(a: F, b: F, c: F, d: F)
    ensures
        a.mul_s(b).mul_s(c.mul_s(d)) == a.mul_s(c).mul_s(b.mul_s(d)),
{
    F::mul_assoc(a, b, c.mul_s(d));
    F::mul_assoc(b, c, d);
    F::mul_comm(b, c);
    F::mul_assoc(c, b, d);
    F::mul_assoc(a, c, b.mul_s(d));
}

proof fn lemma_distrib_over<F: ExactNum>(a: F, b: F, c: F)
    ensures
        a.mul_s(b.add_s(c)) == a.mul_s(b).add_s(a.mul_s(c)),
{
    F::mul_comm(a, b.add_s(c));
    F::distrib(b, c, a);
    F::mul_comm(b, a);
    F::mul_comm(c, a);
}

proof fn lemma_square_of_sum<F: ExactNum>(a: F, b: F)
    ensures
        a.add_s(b).mul_s(a.add_s(b)) == a.mul_s(a).add_s(b.mul_s(b)).add_s(
            a.mul_s(b).add_s(a.mul_s(b)),
        ),
{
    let s = a.add_s(b);
    F::distrib(a, b, s);
    lemma_distrib_over(a, a, b);
    lemma_distrib_over(b, a, b);
    F::mul_comm(b, a);
    let (aa, ab, bb) = (a.mul_s(a), a.mul_s(b), b.mul_s(b));
    F::add_comm(ab, bb);
    lemma_add_swap(aa, ab, bb, ab);
}

proof fn lemma_square_of_difference<F: ExactNum>(a: F, b: F)
    ensures
        a.sub_s(b).mul_s(a.sub_s(b)) == a.mul_s(a).add_s(b.mul_s(b)).add_s(
            a.mul_s(b).add_s(a.mul_s(b)).neg_s(),
        ),
{
    let n = b.neg_s();
    F::sub_add_neg(a, b);
    lemma_square_of_sum(a, n);
    // a (-b) == -(a b), (-b) (-b) == b b
    lemma_mul_neg(a, b);
    lemma_mul_neg(n, b);
    F::mul_comm(n, b);
    lemma_mul_neg(b, b);
    let bb = b.mul_s(b);
    lemma_add_neg(bb);
    lemma_neg_unique(bb, bb.neg_s());
    let ab = a.mul_s(b);
    lemma_add_neg(ab);
    lemma_add_swap(ab.neg_s(), ab.neg_s(), ab, ab);
    F::add_zero(F::zero_s());
    lemma_neg_unique(ab.neg_s().add_s(ab.neg_s()), ab.add_s(ab));
}

proof fn lemma_mul_neg<F: ExactNum>(a: F, b: F)
    ensures
        a.mul_s(b.neg_s()) == a.mul_s(b).neg_s(),
{
    lemma_distrib_over(a, b.neg_s(), b);
    lemma_add_neg(b);
    F::mul_zero(a);
    lemma_neg_unique(a.mul_s(b.neg_s()), a.mul_s(b));
}

/// Plain frequencies are a geometric progression: where powers of two multiply
/// as their exponents add, and small numbers add as integers do, the
/// frequencies of pairs `i` and `j` multiply to that of pair `i + j`.
pub proof fn law_frequencies_multiply<F: ExactNum>(i: u32, j: u32, half_dim: u32, theta_base: F)
    requires
        i + j <= u32::MAX,
        F::of_u32_s(i).add_s(F::of_u32_s(j)) == F::of_u32_s((i + j) as u32),
        ({
            let l = theta_base.log2_s();
            let d = F::of_u32_s(half_dim);
            let a = F::of_u32_s(i).neg_s().mul_s(l).div_s(d);
            let b = F::of_u32_s(j).neg_s().mul_s(l).div_s(d);
            a.exp2_s().mul_s(b.exp2_s()) == a.add_s(b).exp2_s()
        }),
    ensures
        base_freq(i, half_dim, theta_base).mul_s(base_freq(j, half_dim, theta_base)) == base_freq(
            (i + j) as u32,
            half_dim,
            theta_base,
        ),
{
    let (a, b) = (F::of_u32_s(i), F::of_u32_s(j));
    let (l, d) = (theta_base.log2_s(), F::of_u32_s(half_dim));
    let r = F::one_s().div_s(d);
    let (x, y) = (a.neg_s().mul_s(l), b.neg_s().mul_s(l));
    F::div_recip(x, d);
    F::div_recip(y, d);
    F::distrib(x, y, r);
    F::distrib(a.neg_s(), b.neg_s(), l);
    lemma_add_swap(a.neg_s(), b.neg_s(), a, b);
    lemma_add_neg(a);
    lemma_add_neg(b);
    F::add_zero(F::zero_s());
    lemma_neg_unique(a.neg_s().add_s(b.neg_s()), a.add_s(b));
    let z = a.add_s(b).neg_s().mul_s(l);
    F::div_recip(z, d);
    assert(x.add_s(y) == z);
}

/// The frequencies of the two axes are those of one axis with twice the pair
/// number.
pub proof fn law_planar_frequency_is_plain<F: ExactNum>(j: u32, half_dim: u32, theta_base: F)
    requires
        2 * j <= u32::MAX,
        F::of_u32_s(2).mul_s(F::of_u32_s(j)) == F::of_u32_s((2 * j) as u32),
    ensures
        planar_freq(j, half_dim, theta_base) == base_freq((2 * j) as u32, half_dim, theta_base),
{
    let (two, n) = (F::of_u32_s(2), F::of_u32_s(j));
    F::mul_comm(two.neg_s(), n);
    lemma_mul_neg(n, two);
    F::mul_comm(n, two);
}

} // verus!
