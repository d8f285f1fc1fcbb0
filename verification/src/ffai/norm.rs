//! Root-mean-square normalisation factor of a row.
use vstd::prelude::*;

use crate::num::{Num, Store};

verus! {

/// Squares of elements `d`, `d + threads`, .. below `n`, added to `acc`.
pub open spec fn thread_squares<F: Num, T: Store<F>>(
    x: Seq<T>,
    n: int,
    d: int,
    threads: int,
    acc: F,
) -> F
    decreases
            (if d < n {
                n - d
            } else {
                0
            }),
{
    if d >= n || threads <= 0 {
        acc
    } else {
        let v = x[d].widen_s();
        thread_squares::<F, T>(x, n, d + threads, threads, acc.add_s(v.mul_s(v)))
    }
}

/// One over the root of the mean square plus `eps`, from per-thread partial
/// sums.
pub open spec fn rms_inverse<F: Num>(parts: Seq<F>, eps: F, n: u32) -> F {
    F::lane_sum_s(parts).div_s(F::of_u32_s(n)).add_s(eps).rsqrt_s()
}

/// The factor of a vector whose elements are dealt to `threads` threads in
/// turn.
pub open spec fn strided_rms<F: Num, T: Store<F>>(x: Seq<T>, n: u32, threads: u32, eps: F) -> F {
    rms_inverse(
        Seq::new(
            threads as nat,
            |t: int| thread_squares::<F, T>(x, n as int, t, threads as int, F::zero_s()),
        ),
        eps,
        n,
    )
}

/// Computes [`rms_inverse`].
pub fn get_rms_inverse<F: Num>(parts: &Vec<F>, eps: F, n: u32) -> (r: F)
    ensures
        r == rms_inverse(parts@, eps, n),
{
    F::lane_sum(parts).div(F::of_u32(n)).add(eps).rsqrt()
}

/// Computes [`strided_rms`].
pub fn get_strided_rms<F: Num, T: Store<F>>(x: &[T], n: u32, threads: u32, eps: F) -> (r: F)
    requires
        0 < threads,
        n <= x@.len(),
    ensures
        r == strided_rms::<F, T>(x@, n, threads, eps),
{
    let ghost full = Seq::new(
        threads as nat,
        |t: int| thread_squares::<F, T>(x@, n as int, t, threads as int, F::zero_s()),
    );
    let mut parts: Vec<F> = Vec::new();
    let mut t: u32 = 0;
    while t < threads
        invariant
            t <= threads,
            0 < threads,
            n <= x@.len(),
            full == Seq::new(
                threads as nat,
                |t: int| thread_squares::<F, T>(x@, n as int, t, threads as int, F::zero_s()),
            ),
            parts@ == full.take(t as int),
        decreases threads - t,
    {
        let mut acc = F::zero();
        let mut d: u64 = t as u64;
        while d < n as u64
            invariant
                0 < threads,
                n <= x@.len(),
                d <= n + threads,
                thread_squares::<F, T>(x@, n as int, d as int, threads as int, acc)
                    == thread_squares::<F, T>(
                    x@,
                    n as int,
                    t as int,
                    threads as int,
                    F::zero_s(),
                ),
            decreases n + threads - d,
        {
            let v = x[d as usize].widen();
            acc = acc.add(v.mul(v));
            d += threads as u64;
        }
        parts.push(acc);
        assert(parts@ =~= full.take(t + 1));
        t += 1;
    }
    assert(parts@ =~= full);
    get_rms_inverse(&parts, eps, n)
}

} // verus!
