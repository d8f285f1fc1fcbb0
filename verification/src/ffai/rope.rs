//! Rotary embedding: the rotation of one pair, and frequency schedules.
use vstd::prelude::*;

use crate::num::{ExactNum, ExactStore, Num, Store};
use crate::sums::{lemma_zero_add, lemma_zero_mul};

verus! {

/// One component of the pair `(x1, x2)` rotated by the angle with cosine `c`
/// and sine `s`.
pub open spec fn rotated<F: Num>(x1: F, x2: F, c: F, s: F, second: bool) -> F {
    if second {
        x1.mul_s(s).add_s(x2.mul_s(c))
    } else {
        x1.mul_s(c).sub_s(x2.mul_s(s))
    }
}

/// Computes one component of a rotated pair.
pub fn rotate<F: Num>(x1: F, x2: F, c: F, s: F, second: bool) -> (r: F)
    ensures
        r == rotated(x1, x2, c, s, second),
{
    if second {
        x1.mul(s).add(x2.mul(c))
    } else {
        x1.mul(c).sub(x2.mul(s))
    }
}

/// `theta_base` to the power `-i / half_dim`.
pub open spec fn base_freq<F: Num>(i: u32, half_dim: u32, theta_base: F) -> F {
    F::of_u32_s(i).neg_s().mul_s(theta_base.log2_s()).div_s(F::of_u32_s(half_dim)).exp2_s()
}

pub fn get_base_freq<F: Num>(i: u32, half_dim: u32, theta_base: F) -> (r: F)
    ensures
        r == base_freq(i, half_dim, theta_base),
{
    F::of_u32(i).neg().mul(theta_base.log2()).div(F::of_u32(half_dim)).exp2()
}

/// Frequencies banded by wavelength: long wavelengths are divided by
/// `scale_factor`, short ones kept, those between blended.
pub open spec fn banded_freq<F: Num>(
    i: u32,
    half_dim: u32,
    theta_base: F,
    scale_factor: F,
    low_freq_factor: F,
    high_freq_factor: F,
    original_max_position: F,
) -> F {
    let base = base_freq(i, half_dim, theta_base);
    let wavelen = F::two_pi_s().div_s(base);
    let scaled = base.div_s(scale_factor);
    let s = original_max_position.div_s(wavelen).sub_s(low_freq_factor).div_s(
        high_freq_factor.sub_s(low_freq_factor),
    );
    let smoothed = F::one_s().sub_s(s).mul_s(scaled).add_s(s.mul_s(base));
    if wavelen.gt_s(original_max_position.div_s(low_freq_factor)) {
        scaled
    } else if original_max_position.div_s(high_freq_factor).gt_s(wavelen) {
        base
    } else {
        smoothed
    }
}

/// With both band edges at one place and that place past the wavelength, which
/// is how scaling is turned off, the frequency is kept.
pub proof fn law_scaling_off_is_plain<F: ExactNum>(
    i: u32,
    half_dim: u32,
    theta_base: F,
    scale_factor: F,
    edge: F,
    original_max_position: F,
)
    requires
        original_max_position.div_s(edge).gt_s(
            F::two_pi_s().div_s(base_freq(i, half_dim, theta_base)),
        ),
    ensures
        banded_freq(i, half_dim, theta_base, scale_factor, edge, edge, original_max_position)
            == base_freq(i, half_dim, theta_base),
{
    let far = original_max_position.div_s(edge);
    let wavelen = F::two_pi_s().div_s(base_freq(i, half_dim, theta_base));
    F::order_irreflexive(far);
    if wavelen.gt_s(far) {
        F::order_transitive(far, wavelen, far);
    }
}

pub fn get_banded_freq<F: Num>(
    i: u32,
    half_dim: u32,
    theta_base: F,
    scale_factor: F,
    low_freq_factor: F,
    high_freq_factor: F,
    original_max_position: F,
) -> (r: F)
    ensures
        r == banded_freq(
            i,
            half_dim,
            theta_base,
            scale_factor,
            low_freq_factor,
            high_freq_factor,
            original_max_position,
        ),
{
    let base = get_base_freq(i, half_dim, theta_base);
    let wavelen = F::two_pi().div(base);
    let low_wavelen = original_max_position.div(low_freq_factor);
    let high_wavelen = original_max_position.div(high_freq_factor);
    let scaled = base.div(scale_factor);
    let s = original_max_position.div(wavelen).sub(low_freq_factor).div(
        high_freq_factor.sub(low_freq_factor),
    );
    let smoothed = F::one().sub(s).mul(scaled).add(s.mul(base));
    if wavelen.gt(low_wavelen) {
        scaled
    } else if high_wavelen.gt(wavelen) {
        base
    } else {
        smoothed
    }
}

/// Frequencies interpolated by a linear ramp over the dimensions.
pub open spec fn ramped_freq<F: Num>(
    i: u32,
    half_dim: u32,
    theta_base: F,
    factor: F,
    low: F,
    high: F,
) -> F {
    let extrap = base_freq(i, half_dim, theta_base);
    let interp = extrap.div_s(factor);
    let t = F::of_u32_s(i).sub_s(low).div_s(high.sub_s(low));
    let ramp = if F::zero_s().gt_s(t) {
        F::zero_s()
    } else if t.gt_s(F::one_s()) {
        F::one_s()
    } else {
        t
    };
    interp.mul_s(ramp).add_s(extrap.mul_s(F::one_s().sub_s(ramp)))
}

/// At and below the low end of the ramp the frequency is kept; at and above the
/// high end it is divided by `factor`.
pub proof fn law_ramp_ends<F: ExactNum>(
    i: u32,
    half_dim: u32,
    theta_base: F,
    factor: F,
    low: F,
    high: F,
)
    requires
        F::one_s().gt_s(F::zero_s()),
    ensures
        ({
            let t = F::of_u32_s(i).sub_s(low).div_s(high.sub_s(low));
            let freq = ramped_freq(i, half_dim, theta_base, factor, low, high);
            let extrap = base_freq(i, half_dim, theta_base);
            &&& F::zero_s().ge_s(t) ==> freq == extrap
            &&& t.ge_s(F::one_s()) ==> freq == extrap.div_s(factor)
        }),
{
    let t = F::of_u32_s(i).sub_s(low).div_s(high.sub_s(low));
    let extrap = base_freq(i, half_dim, theta_base);
    let interp = extrap.div_s(factor);
    F::ge_is_gt_or_same(F::zero_s(), t);
    F::ge_is_gt_or_same(t, F::one_s());
    F::order_irreflexive(F::zero_s());
    if F::zero_s().gt_s(t) && t.ge_s(F::one_s()) {
        if t.gt_s(F::one_s()) {
            F::order_transitive(F::zero_s(), t, F::one_s());
        }
        F::order_transitive(F::zero_s(), F::one_s(), F::zero_s());
    }
    if t.gt_s(F::one_s()) {
        F::order_transitive(t, F::one_s(), F::zero_s());
    }
    F::mul_zero(interp);
    F::mul_one(interp);
    F::sub_zero(F::one_s());
    F::sub_self(F::one_s());
    F::mul_one(extrap);
    F::mul_zero(extrap);
    F::add_zero(interp);
    F::add_comm(F::zero_s(), extrap);
    F::add_zero(extrap);
}

pub fn get_ramped_freq<F: Num>(
    i: u32,
    half_dim: u32,
    theta_base: F,
    factor: F,
    low: F,
    high: F,
) -> (r: F)
    ensures
        r == ramped_freq(i, half_dim, theta_base, factor, low, high),
{
    let extrap = get_base_freq(i, half_dim, theta_base);
    let interp = extrap.div(factor);
    let t = F::of_u32(i).sub(low).div(high.sub(low));
    let ramp = if F::zero().gt(t) {
        F::zero()
    } else if t.gt(F::one()) {
        F::one()
    } else {
        t
    };
    interp.mul(ramp).add(extrap.mul(F::one().sub(ramp)))
}

/// Element `c` of a row that starts at `base` after its first `2 * half`
/// elements were rotated as pairs `(j, j + half)`; `trig(j)` gives cosine and
/// sine of pair `j`.
pub open spec fn rotated_element<F: Num, T: Store<F>>(
    qk: Seq<T>,
    base: int,
    half: int,
    c: int,
    trig: (F, F),
) -> T {
    let j = if c < half {
        c
    } else {
        c - half
    };
    T::narrow_s(
        rotated(
            qk[base + j].widen_s(),
            qk[base + j + half].widen_s(),
            trig.0,
            trig.1,
            c >= half,
        ),
    )
}

/// Computes [`rotated_element`].
pub fn rotate_element<F: Num, T: Store<F>>(
    qk: &[T],
    base: usize,
    half: usize,
    c: usize,
    trig: (F, F),
) -> (r: T)
    requires
        c < 2 * half,
        base + 2 * half <= qk@.len(),
    ensures
        r == rotated_element::<F, T>(qk@, base as int, half as int, c as int, trig),
{
    let len: usize = qk.len();
    let j: usize = if c < half {
        c
    } else {
        c - half
    };
    let x1 = qk[base + j].widen();
    let x2 = qk[base + j + half].widen();
    T::narrow(rotate(x1, x2, trig.0, trig.1, c >= half))
}

/// Position zero has the zero angle at every frequency.
pub proof fn lemma_position_zero<F: ExactNum>(freq: F)
    ensures
        F::of_u32_s(0).mul_s(freq) == F::zero_s(),
        F::zero_s().cos_s() == F::one_s(),
        F::zero_s().sin_s() == F::zero_s(),
{
    F::of_zero();
    F::level_at_zero();
    lemma_zero_mul(freq);
}

/// A pair rotated by the zero angle is itself.
pub proof fn law_zero_angle_keeps_pair<F: ExactNum>(x1: F, x2: F, second: bool)
    ensures
        rotated(x1, x2, F::one_s(), F::zero_s(), second) == (if second {
            x2
        } else {
            x1
        }),
{
    F::mul_one(x1);
    F::mul_one(x2);
    F::mul_zero(x1);
    F::mul_zero(x2);
    F::sub_zero(x1);
    lemma_zero_add(x2);
}

/// An element rotated by the zero angle is copied.
pub proof fn law_zero_angle_copies<F: ExactNum, T: ExactStore<F>>(
    qk: Seq<T>,
    base: int,
    half: int,
    c: int,
)
    ensures
        rotated_element::<F, T>(qk, base, half, c, (F::one_s(), F::zero_s())) == qk[base + c],
{
    let j = if c < half {
        c
    } else {
        c - half
    };
    law_zero_angle_keeps_pair(qk[base + j].widen_s(), qk[base + j + half].widen_s(), c >= half);
    T::narrow_widen(qk[base + c]);
}

} // verus!
