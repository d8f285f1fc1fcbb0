//! Finite sums in exact arithmetic: contiguous, strided, and their
//! rearrangements.
use vstd::prelude::*;

use crate::num::{total, ExactNum, Num};

verus! {

/// `term(a) + .. + term(b - 1)`, added from the left.
pub open spec fn range_sum<F: Num>(term: spec_fn(int) -> F, a: int, b: int) -> F
    decreases b - a,
{
    if b <= a {
        F::zero_s()
    } else {
        range_sum(term, a, b - 1).add_s(term(b - 1))
    }
}

/// `term(t) + term(t + stride) + ..` below `stop`.
pub open spec fn strided_sum<F: Num>(
    term: spec_fn(int) -> F,
    t: int,
    stop: int,
    stride: int,
) -> F
    decreases
            (if t < stop {
                stop - t
            } else {
                0
            }),
{
    if t >= stop || stride <= 0 {
        F::zero_s()
    } else {
        term(t).add_s(strided_sum(term, t + stride, stop, stride))
    }
}

/// The strided sums that start at `t0`, .., `t0 + n - 1`.
pub open spec fn lanes_sum<F: Num>(
    term: spec_fn(int) -> F,
    t0: int,
    stop: int,
    stride: int,
    n: int,
) -> F {
    range_sum(|l: int| strided_sum(term, t0 + l, stop, stride), 0, n)
}

pub proof fn lemma_zero_add<F: ExactNum>(a: F)
    ensures
        F::zero_s().add_s(a) == a,
{
    F::add_comm(F::zero_s(), a);
    F::add_zero(a);
}

pub proof fn lemma_zero_mul<F: ExactNum>(a: F)
    ensures
        F::zero_s().mul_s(a) == F::zero_s(),
{
    F::mul_comm(F::zero_s(), a);
    F::mul_zero(a);
}

/// `(a + b) + (c + d) == (a + c) + (b + d)`.
pub proof fn lemma_add_swap<F: ExactNum>(a: F, b: F, c: F, d: F)
    ensures
        a.add_s(b).add_s(c.add_s(d)) == a.add_s(c).add_s(b.add_s(d)),
{
    F::add_assoc(a, b, c.add_s(d));
    F::add_assoc(b, c, d);
    F::add_comm(b, c);
    F::add_assoc(c, b, d);
    F::add_assoc(a, c, b.add_s(d));
}

pub proof fn lemma_range_congr<F: Num>(f: spec_fn(int) -> F, g: spec_fn(int) -> F, a: int, b: int)
    requires
        forall|t: int| a <= t < b ==> #[trigger] f(t) == g(t),
    ensures
        range_sum(f, a, b) == range_sum(g, a, b),
    decreases b - a,
{
    if a < b {
        lemma_range_congr(f, g, a, b - 1);
        assert(f(b - 1) == g(b - 1));
    }
}

pub proof fn lemma_range_add<F: ExactNum>(
    h: spec_fn(int) -> F,
    f: spec_fn(int) -> F,
    g: spec_fn(int) -> F,
    a: int,
    b: int,
)
    requires
        forall|t: int| a <= t < b ==> #[trigger] h(t) == f(t).add_s(g(t)),
    ensures
        range_sum(h, a, b) == range_sum(f, a, b).add_s(range_sum(g, a, b)),
    decreases b - a,
{
    if a < b {
        lemma_range_add(h, f, g, a, b - 1);
        assert(h(b - 1) == f(b - 1).add_s(g(b - 1)));
        lemma_add_swap(
            range_sum(f, a, b - 1),
            range_sum(g, a, b - 1),
            f(b - 1),
            g(b - 1),
        );
    } else {
        F::add_zero(F::zero_s());
    }
}

pub proof fn lemma_range_scale<F: ExactNum>(
    h: spec_fn(int) -> F,
    f: spec_fn(int) -> F,
    c: F,
    a: int,
    b: int,
)
    requires
        forall|t: int| a <= t < b ==> #[trigger] h(t) == f(t).mul_s(c),
    ensures
        range_sum(h, a, b) == range_sum(f, a, b).mul_s(c),
    decreases b - a,
{
    if a < b {
        lemma_range_scale(h, f, c, a, b - 1);
        assert(h(b - 1) == f(b - 1).mul_s(c));
        F::distrib(range_sum(f, a, b - 1), f(b - 1), c);
    } else {
        lemma_zero_mul(c);
    }
}

pub proof fn lemma_range_zero<F: ExactNum>(f: spec_fn(int) -> F, a: int, b: int)
    requires
        forall|t: int| a <= t < b ==> #[trigger] f(t) == F::zero_s(),
    ensures
        range_sum(f, a, b) == F::zero_s(),
    decreases b - a,
{
    if a < b {
        lemma_range_zero(f, a, b - 1);
        assert(f(b - 1) == F::zero_s());
        F::add_zero(F::zero_s());
    }
}

pub proof fn lemma_range_split<F: ExactNum>(f: spec_fn(int) -> F, a: int, m: int, b: int)
    requires
        a <= m <= b,
    ensures
        range_sum(f, a, b) == range_sum(f, a, m).add_s(range_sum(f, m, b)),
    decreases b - m,
{
    if m < b {
        lemma_range_split(f, a, m, b - 1);
        F::add_assoc(range_sum(f, a, m), range_sum(f, m, b - 1), f(b - 1));
    } else {
        F::add_zero(range_sum(f, a, m));
    }
}

pub proof fn lemma_range_shift<F: Num>(
    h: spec_fn(int) -> F,
    f: spec_fn(int) -> F,
    a: int,
    b: int,
    k: int,
)
    requires
        forall|t: int| a <= t < b ==> #[trigger] h(t) == f(t + k),
    ensures
        range_sum(h, a, b) == range_sum(f, a + k, b + k),
    decreases b - a,
{
    if a < b {
        lemma_range_shift(h, f, a, b - 1, k);
        assert(h(b - 1) == f(b - 1 + k));
    }
}

pub proof fn lemma_strided_congr<F: Num>(
    f: spec_fn(int) -> F,
    g: spec_fn(int) -> F,
    t: int,
    stop: int,
    stride: int,
)
    requires
        forall|u: int| t <= u < stop ==> #[trigger] f(u) == g(u),
    ensures
        strided_sum(f, t, stop, stride) == strided_sum(g, t, stop, stride),
    decreases
            (if t < stop {
                stop - t
            } else {
                0
            }),
{
    if t < stop && stride > 0 {
        lemma_strided_congr(f, g, t + stride, stop, stride);
        assert(f(t) == g(t));
    }
}

pub proof fn lemma_strided_scale<F: ExactNum>(
    h: spec_fn(int) -> F,
    f: spec_fn(int) -> F,
    c: F,
    t: int,
    stop: int,
    stride: int,
)
    requires
        forall|u: int| t <= u < stop ==> #[trigger] h(u) == f(u).mul_s(c),
    ensures
        strided_sum(h, t, stop, stride) == strided_sum(f, t, stop, stride).mul_s(c),
    decreases
            (if t < stop {
                stop - t
            } else {
                0
            }),
{
    if t < stop && stride > 0 {
        lemma_strided_scale(h, f, c, t + stride, stop, stride);
        assert(h(t) == f(t).mul_s(c));
        F::distrib(f(t), strided_sum(f, t + stride, stop, stride), c);
    } else {
        lemma_zero_mul(c);
    }
}

/// `n` strided walks with stride `n` visit every position once: their sums add
/// up to the contiguous sum.
pub proof fn lemma_lanes<F: ExactNum>(term: spec_fn(int) -> F, t0: int, stop: int, n: int)
    requires
        0 < n,
    ensures
        lanes_sum(term, t0, stop, n, n) == range_sum(term, t0, stop),
    decreases
            (if t0 < stop {
                stop - t0
            } else {
                0
            }),
{
    let all = |l: int| strided_sum(term, t0 + l, stop, n);
    if t0 >= stop {
        lemma_range_zero(all, 0, n);
    } else {
        let head = |l: int| if t0 + l < stop {
            term(t0 + l)
        } else {
            F::zero_s()
        };
        let tail = |l: int| strided_sum(term, t0 + n + l, stop, n);
        assert forall|l: int| 0 <= l < n implies #[trigger] all(l) == head(l).add_s(tail(l)) by {
            if t0 + l >= stop {
                F::add_zero(F::zero_s());
            }
            assert(t0 + l + n == t0 + n + l);
        }
        lemma_range_add(all, head, tail, 0, n);
        lemma_lanes(term, t0 + n, stop, n);
        let cut = if t0 + n < stop {
            n
        } else {
            stop - t0
        };
        lemma_range_split(head, 0, cut, n);
        lemma_range_zero(head, cut, n);
        lemma_range_shift(head, term, 0, cut, t0);
        F::add_zero(range_sum(head, 0, cut));
        if t0 + n < stop {
            lemma_range_split(term, t0, t0 + n, stop);
        } else {
            F::add_zero(range_sum(term, t0, stop));
        }
    }
}

/// The sum of a sequence as a contiguous sum.
pub proof fn lemma_total_range<F: Num>(values: Seq<F>, f: spec_fn(int) -> F)
    requires
        forall|i: int| 0 <= i < values.len() ==> #[trigger] f(i) == values[i],
    ensures
        total(values) == range_sum(f, 0, values.len() as int),
    decreases values.len(),
{
    if values.len() > 0 {
        let rest = values.drop_last();
        lemma_total_range(rest, f);
        assert(f(values.len() - 1) == values.last());
    }
}

/// A strided sum of `n` terms as a contiguous one.
pub proof fn lemma_strided_range<F: ExactNum>(
    h: spec_fn(int) -> F,
    f: spec_fn(int) -> F,
    t: int,
    stop: int,
    stride: int,
    n: int,
)
    requires
        0 < stride,
        0 <= n,
        stop <= t + stride * n,
        n > 0 ==> t + stride * (n - 1) < stop,
        forall|c: int| 0 <= c < n ==> #[trigger] h(c) == f(t + stride * c),
    ensures
        strided_sum(f, t, stop, stride) == range_sum(h, 0, n),
    decreases n,
{
    if n > 0 {
        assert(stride * (n - 1) >= 0) by (nonlinear_arith)
            requires
                0 < stride,
                0 <= n - 1,
        ;
        let next = |c: int| h(c + 1);
        assert(t + stride + stride * (n - 1) == t + stride * n) by (nonlinear_arith);
        assert(n - 1 > 0 ==> t + stride + stride * (n - 2) < stop) by {
            assert(stride + stride * (n - 2) == stride * (n - 1)) by (nonlinear_arith);
        }
        assert forall|c: int| 0 <= c < n - 1 implies #[trigger] next(c) == f(
            t + stride + stride * c,
        ) by {
            assert(h(c + 1) == f(t + stride * (c + 1)));
            assert(stride * (c + 1) == stride + stride * c) by (nonlinear_arith);
        }
        lemma_strided_range(next, f, t + stride, stop, stride, n - 1);
        lemma_range_split(h, 0, 1, n);
        lemma_range_shift(next, h, 0, n - 1, 1);
        assert(h(0) == f(t + stride * 0));
        reveal_with_fuel(range_sum, 2);
        lemma_zero_add(h(0));
    }
}

/// Consecutive blocks of width `width` make up one contiguous sum.
pub proof fn lemma_range_blocks<F: ExactNum>(
    block: spec_fn(int) -> F,
    f: spec_fn(int) -> F,
    width: int,
    n: int,
)
    requires
        0 <= width,
        0 <= n,
        forall|b: int|
            0 <= b < n ==> #[trigger] block(b) == range_sum(f, b * width, b * width + width),
    ensures
        range_sum(block, 0, n) == range_sum(f, 0, n * width),
    decreases n,
{
    if n > 0 {
        lemma_range_blocks(block, f, width, n - 1);
        assert(block(n - 1) == range_sum(f, (n - 1) * width, (n - 1) * width + width));
        assert((n - 1) * width + width == n * width) by (nonlinear_arith);
        assert(0 <= (n - 1) * width) by (nonlinear_arith)
            requires
                0 <= n - 1,
                0 <= width,
        ;
        lemma_range_split(f, 0, (n - 1) * width, n * width);
    } else {
        assert(0 * width == 0);
    }
}

/// A number and its negation cancel.
pub proof fn lemma_add_neg<F: ExactNum>(a: F)
    ensures
        a.add_s(a.neg_s()) == F::zero_s(),
        a.neg_s().add_s(a) == F::zero_s(),
{
    F::sub_add_neg(a, a);
    F::sub_self(a);
    F::add_comm(a, a.neg_s());
}

/// What cancels a number is its negation.
pub proof fn lemma_neg_unique<F: ExactNum>(a: F, b: F)
    requires
        a.add_s(b) == F::zero_s(),
    ensures
        a == b.neg_s(),
{
    F::add_assoc(a, b, b.neg_s());
    lemma_add_neg(b);
    F::add_zero(a);
    lemma_zero_add(b.neg_s());
}

} // verus!
