//! Order and arithmetic together: reciprocals, signs of sums, and bounds.
use vstd::prelude::*;

use crate::num::{ExactNum, Num};
use crate::sums::{lemma_zero_add, range_sum};

verus! {

/// A number whose reciprocal cancels it.
pub open spec fn invertible<F: Num>(a: F) -> bool {
    a.mul_s(F::one_s().div_s(a)) == F::one_s()
}

/// The order of positive numbers goes with their arithmetic: a sum is above its
/// terms, a product is positive and grows with its factor, and a positive number
/// has a positive reciprocal. Rational numbers have this order; residues, whose
/// sums wrap, do not.
pub open spec fn ordered<F: Num>() -> bool {
    let zero = F::zero_s();
    &&& forall|a: F, b: F|
        a.gt_s(zero) && b.gt_s(zero) ==> (#[trigger] a.add_s(b)).gt_s(a)
    &&& forall|a: F, c: F|
        a.gt_s(zero) && c.gt_s(zero) ==> (#[trigger] a.mul_s(c)).gt_s(zero)
    &&& forall|a: F, b: F, c: F|
        a.gt_s(b) && b.gt_s(zero) && c.gt_s(zero) ==> (#[trigger] a.mul_s(c)).gt_s(
            #[trigger] b.mul_s(c),
        )
    &&& forall|a: F|
        a.gt_s(zero) ==> invertible(a) && (#[trigger] F::one_s().div_s(a)).gt_s(zero)
}

/// A sum of terms that are zero or positive is zero or positive, and positive
/// if a term is.
pub proof fn lemma_sum_sign<F: ExactNum>(f: spec_fn(int) -> F, a: int, b: int)
    requires
        ordered::<F>(),
        forall|t: int|
            a <= t < b ==> #[trigger] f(t) == F::zero_s() || f(t).gt_s(F::zero_s()),
    ensures
        ({
            let s = range_sum(f, a, b);
            &&& s == F::zero_s() || s.gt_s(F::zero_s())
            &&& (exists|t: int| a <= t < b && (#[trigger] f(t)).gt_s(F::zero_s())) ==> s.gt_s(
                F::zero_s(),
            )
        }),
    decreases b - a,
{
    if a < b {
        lemma_sum_sign(f, a, b - 1);
        let (s, x) = (range_sum(f, a, b - 1), f(b - 1));
        lemma_sign_add(s, x);
        if exists|t: int| a <= t < b && (#[trigger] f(t)).gt_s(F::zero_s()) {
            let t = choose|t: int| a <= t < b && (#[trigger] f(t)).gt_s(F::zero_s());
            F::order_irreflexive(F::zero_s());
        }
    }
}

/// Of two numbers that are zero or positive, the sum is, and positive if one of
/// them is.
pub proof fn lemma_sign_add<F: ExactNum>(s: F, x: F)
    requires
        ordered::<F>(),
        s == F::zero_s() || s.gt_s(F::zero_s()),
        x == F::zero_s() || x.gt_s(F::zero_s()),
    ensures
        s.add_s(x) == F::zero_s() || s.add_s(x).gt_s(F::zero_s()),
        s.gt_s(F::zero_s()) || x.gt_s(F::zero_s()) ==> s.add_s(x).gt_s(F::zero_s()),
{
    F::add_zero(s);
    lemma_zero_add(x);
    F::order_irreflexive(F::zero_s());
    if x.gt_s(F::zero_s()) && s.gt_s(F::zero_s()) {
        assert(s.add_s(x).gt_s(s));
        F::order_transitive(s.add_s(x), s, F::zero_s());
    }
}

/// `a` is not above `b`: what `b` has over `a` is nothing, or positive.
pub open spec fn not_above<F: Num>(a: F, b: F) -> bool {
    b.sub_s(a) == F::zero_s() || b.sub_s(a).gt_s(F::zero_s())
}

/// The inverse of an invertible product, without one of its factors.
pub proof fn lemma_recip_factor<F: ExactNum>(p: F, c: F)
    requires
        invertible(p),
        invertible(p.mul_s(c)),
    ensures
        F::one_s().div_s(p) == c.mul_s(F::one_s().div_s(p.mul_s(c))),
{
    let (pi, si) = (F::one_s().div_s(p), F::one_s().div_s(p.mul_s(c)));
    let x = c.mul_s(si);
    F::mul_assoc(p, c, si);
    assert(p.mul_s(x) == F::one_s());
    F::mul_comm(p, pi);
    F::mul_assoc(pi, p, x);
    F::mul_one(pi);
    F::mul_comm(F::one_s(), x);
    F::mul_one(x);
}

} // verus!
