//! The arithmetic that the kernels are written over.
//!
//! Kernels compute in an accumulator type ([`Num`], single precision on the
//! device) and keep their tensors in a storage type ([`Store`]). Nothing is
//! assumed of either beyond what each operation is named: every kernel
//! contract fixes the operations and their order. [`ExactNum`] adds the
//! identities of exact arithmetic, under which the kernels are shown to agree
//! with their textbook formulas.
use vstd::prelude::*;

verus! {

/// Accumulator arithmetic. Each method is the executable form of the spec
/// function of the same name with `_s` behind it.
pub trait Num: Copy + Sized {
    open spec fn zero_s() -> Self {
        arbitrary()
    }

    open spec fn one_s() -> Self {
        arbitrary()
    }

    open spec fn neg_inf_s() -> Self {
        arbitrary()
    }

    open spec fn two_pi_s() -> Self {
        arbitrary()
    }

    open spec fn of_u32_s(n: u32) -> Self {
        arbitrary()
    }

    /// The constant one over `n`, rounded once.
    open spec fn recip_u32_s(n: u32) -> Self {
        arbitrary()
    }

    open spec fn add_s(self, other: Self) -> Self {
        arbitrary()
    }

    open spec fn sub_s(self, other: Self) -> Self {
        arbitrary()
    }

    open spec fn mul_s(self, other: Self) -> Self {
        arbitrary()
    }

    open spec fn div_s(self, other: Self) -> Self {
        arbitrary()
    }

    open spec fn neg_s(self) -> Self {
        arbitrary()
    }

    open spec fn exp_s(self) -> Self {
        arbitrary()
    }

    open spec fn ln_s(self) -> Self {
        arbitrary()
    }

    open spec fn exp2_s(self) -> Self {
        arbitrary()
    }

    open spec fn log2_s(self) -> Self {
        arbitrary()
    }

    open spec fn sqrt_s(self) -> Self {
        arbitrary()
    }

    open spec fn rsqrt_s(self) -> Self {
        arbitrary()
    }

    open spec fn sin_s(self) -> Self {
        arbitrary()
    }

    open spec fn cos_s(self) -> Self {
        arbitrary()
    }

    open spec fn gt_s(self, other: Self) -> bool {
        arbitrary()
    }

    open spec fn ge_s(self, other: Self) -> bool {
        arbitrary()
    }

    open spec fn eq_s(self, other: Self) -> bool {
        arbitrary()
    }

    /// Sum of one value per lane, in the order of the reduction hardware.
    open spec fn lane_sum_s(values: Seq<Self>) -> Self {
        arbitrary()
    }

    /// Maximum of one value per lane.
    open spec fn lane_max_s(values: Seq<Self>) -> Self {
        arbitrary()
    }

    /// `acc` plus the dot product of two operand slices, as the matrix unit
    /// accumulates it.
    open spec fn dot_acc_s(acc: Self, a: Seq<Self>, b: Seq<Self>) -> Self {
        arbitrary()
    }

    fn zero() -> (r: Self)
        ensures
            r == Self::zero_s(),
    ;

    fn one() -> (r: Self)
        ensures
            r == Self::one_s(),
    ;

    fn neg_inf() -> (r: Self)
        ensures
            r == Self::neg_inf_s(),
    ;

    fn two_pi() -> (r: Self)
        ensures
            r == Self::two_pi_s(),
    ;

    fn of_u32(n: u32) -> (r: Self)
        ensures
            r == Self::of_u32_s(n),
    ;

    fn recip_u32(n: u32) -> (r: Self)
        requires
            n != 0,
        ensures
            r == Self::recip_u32_s(n),
    ;

    fn add(self, other: Self) -> (r: Self)
        ensures
            r == self.add_s(other),
    ;

    fn sub(self, other: Self) -> (r: Self)
        ensures
            r == self.sub_s(other),
    ;

    fn mul(self, other: Self) -> (r: Self)
        ensures
            r == self.mul_s(other),
    ;

    fn div(self, other: Self) -> (r: Self)
        ensures
            r == self.div_s(other),
    ;

    fn neg(self) -> (r: Self)
        ensures
            r == self.neg_s(),
    ;

    fn exp(self) -> (r: Self)
        ensures
            r == self.exp_s(),
    ;

    fn ln(self) -> (r: Self)
        ensures
            r == self.ln_s(),
    ;

    fn exp2(self) -> (r: Self)
        ensures
            r == self.exp2_s(),
    ;

    fn log2(self) -> (r: Self)
        ensures
            r == self.log2_s(),
    ;

    fn sqrt(self) -> (r: Self)
        ensures
            r == self.sqrt_s(),
    ;

    fn rsqrt(self) -> (r: Self)
        ensures
            r == self.rsqrt_s(),
    ;

    fn sin(self) -> (r: Self)
        ensures
            r == self.sin_s(),
    ;

    fn cos(self) -> (r: Self)
        ensures
            r == self.cos_s(),
    ;

    fn gt(self, other: Self) -> (r: bool)
        ensures
            r == self.gt_s(other),
    ;

    fn ge(self, other: Self) -> (r: bool)
        ensures
            r == self.ge_s(other),
    ;

    fn eq(self, other: Self) -> (r: bool)
        ensures
            r == self.eq_s(other),
    ;

    fn lane_sum(values: &Vec<Self>) -> (r: Self)
        ensures
            r == Self::lane_sum_s(values@),
    ;

    fn lane_max(values: &Vec<Self>) -> (r: Self)
        ensures
            r == Self::lane_max_s(values@),
    ;

    fn dot_acc(acc: Self, a: &Vec<Self>, b: &Vec<Self>) -> (r: Self)
        requires
            a@.len() == b@.len(),
        ensures
            r == Self::dot_acc_s(acc, a@, b@),
    ;
}

/// A tensor element type that is loaded into and stored from `F`.
pub trait Store<F: Num>: Copy + Sized {
    open spec fn widen_s(self) -> F {
        arbitrary()
    }

    open spec fn narrow_s(value: F) -> Self {
        arbitrary()
    }

    /// The value after it was staged as an operand of a cooperative tile.
    open spec fn stage_s(value: F) -> F {
        arbitrary()
    }

    fn widen(self) -> (r: F)
        ensures
            r == self.widen_s(),
    ;

    fn narrow(value: F) -> (r: Self)
        ensures
            r == Self::narrow_s(value),
    ;

    fn stage(value: F) -> (r: F)
        ensures
            r == Self::stage_s(value),
    ;
}

/// Left-to-right sum of a sequence, from zero.
pub open spec fn total<F: Num>(values: Seq<F>) -> F
    decreases values.len(),
{
    if values.len() == 0 {
        F::zero_s()
    } else {
        total(values.drop_last()).add_s(values.last())
    }
}

/// Left-to-right sum of the products of two sequences, from zero.
pub open spec fn dot<F: Num>(a: Seq<F>, b: Seq<F>) -> F {
    total(Seq::new(a.len(), |i: int| a[i].mul_s(b[i])))
}

/// Arithmetic without rounding: a commutative ring with a total order, an
/// exponential that turns sums into products, and reductions that add up
/// their operands.
pub trait ExactNum: Num {
    proof fn add_comm(a: Self, b: Self)
        ensures
            a.add_s(b) == b.add_s(a),
    ;

    proof fn add_assoc(a: Self, b: Self, c: Self)
        ensures
            a.add_s(b).add_s(c) == a.add_s(b.add_s(c)),
    ;

    proof fn add_zero(a: Self)
        ensures
            a.add_s(Self::zero_s()) == a,
    ;

    proof fn mul_comm(a: Self, b: Self)
        ensures
            a.mul_s(b) == b.mul_s(a),
    ;

    proof fn mul_assoc(a: Self, b: Self, c: Self)
        ensures
            a.mul_s(b).mul_s(c) == a.mul_s(b.mul_s(c)),
    ;

    proof fn mul_one(a: Self)
        ensures
            a.mul_s(Self::one_s()) == a,
    ;

    proof fn mul_zero(a: Self)
        ensures
            a.mul_s(Self::zero_s()) == Self::zero_s(),
    ;

    proof fn distrib(a: Self, b: Self, c: Self)
        ensures
            a.add_s(b).mul_s(c) == a.mul_s(c).add_s(b.mul_s(c)),
    ;

    proof fn of_zero()
        ensures
            Self::of_u32_s(0) == Self::zero_s(),
    ;

    proof fn sub_zero(a: Self)
        ensures
            a.sub_s(Self::zero_s()) == a,
    ;

    proof fn sub_self(a: Self)
        ensures
            a.sub_s(a) == Self::zero_s(),
    ;

    proof fn sub_add_neg(a: Self, b: Self)
        ensures
            a.sub_s(b) == a.add_s(b.neg_s()),
    ;

    proof fn div_recip(a: Self, b: Self)
        ensures
            a.div_s(b) == a.mul_s(Self::one_s().div_s(b)),
    ;

    proof fn rsqrt_recip(a: Self)
        ensures
            a.rsqrt_s() == Self::one_s().div_s(a.sqrt_s()),
    ;

    proof fn exp_zero()
        ensures
            Self::zero_s().exp_s() == Self::one_s(),
    ;

    /// The zero angle has cosine one and sine zero.
    proof fn level_at_zero()
        ensures
            Self::zero_s().cos_s() == Self::one_s(),
            Self::zero_s().sin_s() == Self::zero_s(),
    ;

    /// The exponential of a difference splits at any number above negative
    /// infinity.
    proof fn exp_shift(a: Self, b: Self, c: Self)
        requires
            b.gt_s(Self::neg_inf_s()),
            c.gt_s(Self::neg_inf_s()),
        ensures
            a.sub_s(b).exp_s().mul_s(b.sub_s(c).exp_s()) == a.sub_s(c).exp_s(),
    ;

    /// A code masked out of its word without a shift is recovered exactly.
    proof fn recip_pow2(code: u32, place: u32)
        requires
            place == 16 || place == 256 || place == 4096,
            code < 16,
        ensures
            Self::of_u32_s((code * place) as u32).mul_s(Self::recip_u32_s(place)) == Self::of_u32_s(
                code,
            ),
    ;

    proof fn order_irreflexive(a: Self)
        ensures
            !a.gt_s(a),
    ;

    proof fn order_transitive(a: Self, b: Self, c: Self)
        requires
            a.gt_s(b),
            b.gt_s(c),
        ensures
            a.gt_s(c),
    ;

    proof fn order_total(a: Self, b: Self)
        ensures
            a == b || a.gt_s(b) || b.gt_s(a),
    ;

    proof fn ge_is_gt_or_same(a: Self, b: Self)
        ensures
            a.ge_s(b) == (a == b || a.gt_s(b)),
            a.eq_s(b) == (a == b),
    ;

    proof fn neg_inf_lowest(a: Self)
        ensures
            !Self::neg_inf_s().gt_s(a),
    ;

    proof fn zero_above_neg_inf()
        ensures
            Self::zero_s().gt_s(Self::neg_inf_s()),
    ;

    proof fn lane_sum_total(values: Seq<Self>)
        ensures
            Self::lane_sum_s(values) == total(values),
    ;

    proof fn lane_max_member(values: Seq<Self>)
        requires
            values.len() > 0,
        ensures
            exists|i: int| 0 <= i < values.len() && values[i] == Self::lane_max_s(values),
            forall|i: int| 0 <= i < values.len() ==> !(#[trigger] values[i]).gt_s(
                Self::lane_max_s(values),
            ),
    ;

    proof fn dot_acc_total(acc: Self, a: Seq<Self>, b: Seq<Self>)
        requires
            a.len() == b.len(),
        ensures
            Self::dot_acc_s(acc, a, b) == acc.add_s(dot(a, b)),
    ;
}

/// Storage that keeps every accumulator value, and holds no two elements of one
/// value.
pub trait ExactStore<F: Num>: Store<F> {
    proof fn widen_narrow(value: F)
        ensures
            Self::narrow_s(value).widen_s() == value,
    ;

    proof fn narrow_widen(element: Self)
        ensures
            Self::narrow_s(element.widen_s()) == element,
    ;

    proof fn stage_exact(value: F)
        ensures
            Self::stage_s(value) == value,
    ;
}

} // verus!
