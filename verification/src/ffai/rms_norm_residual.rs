//! RMS normalisation added to a residual stream.
use vstd::prelude::*;

use super::norm::{get_rms_inverse, rms_inverse};
use crate::index::{lemma_row, lemma_row_col};
use crate::num::{ExactNum, Num, Store};
use crate::sums::{lemma_range_blocks, lemma_total_range, lemma_zero_add, range_sum};

verus! {

/// Squares of four consecutive elements, added from the left.
pub open spec fn quad_squares<F: Num, T: Store<F>>(x: Seq<T>, at: int) -> F {
    let v0 = x[at].widen_s();
    let v1 = x[at + 1].widen_s();
    let v2 = x[at + 2].widen_s();
    let v3 = x[at + 3].widen_s();
    v0.mul_s(v0).add_s(v1.mul_s(v1)).add_s(v2.mul_s(v2)).add_s(v3.mul_s(v3))
}

/// Normalisation factor of row `row`; each thread owns four elements.
pub open spec fn row_rms<F: Num, T: Store<F>>(x: Seq<T>, eps: F, n: u32, row: int) -> F {
    rms_inverse(
        Seq::new((n / 4) as nat, |t: int| quad_squares::<F, T>(x, row * n + 4 * t)),
        eps,
        n,
    )
}

/// Adds the normalised, weighted rows of `x` to `residual`.
pub fn ffai_rms_norm_residual<F: Num, T: Store<F>>(
    x: &[T],
    residual: &[T],
    w: &[T],
    out: &mut Vec<T>,
    eps_buf: &[F],
    n: u32,
    n_rows: u32,
)
    requires
        n % 4 == 0,
        1 <= eps_buf@.len(),
        n <= w@.len(),
        n_rows * n <= x@.len(),
        n_rows * n <= residual@.len(),
        n_rows * n <= old(out)@.len(),
    ensures
        final(out)@.len() == old(out)@.len(),
        forall|i: int|
            0 <= i < old(out)@.len() ==> #[trigger] final(out)@[i] == (if i < n_rows * n {
                T::narrow_s(
                    residual@[i].widen_s().add_s(
                        x@[i].widen_s().mul_s(
                            row_rms::<F, T>(x@, eps_buf@[0], n, i / n as int),
                        ).mul_s(w@[i % n as int].widen_s()),
                    ),
                )
            } else {
                old(out)@[i]
            }),
{
    let ghost before = out@;
    let x_len: usize = x.len();
    let out_len: usize = out.len();
    let eps = eps_buf[0];
    let mut row: u32 = 0;
    while row < n_rows
        invariant
            row <= n_rows,
            n % 4 == 0,
            eps == eps_buf@[0],
            n <= w@.len(),
            n_rows * n <= x@.len() == x_len,
            n_rows * n <= residual@.len(),
            n_rows * n <= before.len() == out_len,
            out@.len() == before.len(),
            forall|i: int|
                0 <= i < before.len() ==> #[trigger] out@[i] == (if i < row * n {
                    T::narrow_s(
                        residual@[i].widen_s().add_s(
                            x@[i].widen_s().mul_s(
                                row_rms::<F, T>(x@, eps, n, i / n as int),
                            ).mul_s(w@[i % n as int].widen_s()),
                        ),
                    )
                } else {
                    before[i]
                }),
        decreases n_rows - row,
    {
        proof {
            lemma_row(row as int, n_rows as int, n as int);
        }
        let rs: usize = row as usize * n as usize;
        let ghost full = Seq::new(
            (n / 4) as nat,
            |t: int| quad_squares::<F, T>(x@, row * n + 4 * t),
        );
        let mut parts: Vec<F> = Vec::new();
        let mut t: u32 = 0;
        while t < n / 4
            invariant
                t <= n / 4,
                rs == row * n,
                rs + n <= x@.len() == x_len,
                full == Seq::new(
                    (n / 4) as nat,
                    |t: int| quad_squares::<F, T>(x@, row * n + 4 * t),
                ),
                parts@ == full.take(t as int),
            decreases n / 4 - t,
        {
            let at: usize = rs + 4 * t as usize;
            let v0 = x[at].widen();
            let v1 = x[at + 1].widen();
            let v2 = x[at + 2].widen();
            let v3 = x[at + 3].widen();
            parts.push(v0.mul(v0).add(v1.mul(v1)).add(v2.mul(v2)).add(v3.mul(v3)));
            assert(parts@ =~= full.take(t + 1));
            t += 1;
        }
        assert(parts@ =~= full);
        let rms = get_rms_inverse(&parts, eps, n);
        let mut c: u32 = 0;
        while c < n
            invariant
                c <= n,
                rs == row * n,
                n <= w@.len(),
                rms == row_rms::<F, T>(x@, eps, n, row as int),
                rs + n <= x@.len(),
                rs + n <= residual@.len(),
                rs + n <= before.len() == out_len,
                out@.len() == before.len(),
                forall|i: int|
                    0 <= i < before.len() ==> #[trigger] out@[i] == (if i < rs + c {
                        T::narrow_s(
                            residual@[i].widen_s().add_s(
                                x@[i].widen_s().mul_s(
                                    row_rms::<F, T>(x@, eps, n, i / n as int),
                                ).mul_s(w@[i % n as int].widen_s()),
                            ),
                        )
                    } else {
                        before[i]
                    }),
            decreases n - c,
        {
            proof {
                lemma_row_col(row as int, c as int, n as int);
            }
            let at: usize = rs + c as usize;
            let v = residual[at].widen().add(x[at].widen().mul(rms).mul(w[c as usize].widen()));
            out.set(at, T::narrow(v));
            c += 1;
        }
        row += 1;
    }
}

/// The factor of a row is one over the root of its mean square plus `eps`.
pub proof fn law_row_rms_is_mean_square<F: ExactNum, T: Store<F>>(
    x: Seq<T>,
    eps: F,
    n: u32,
    row: int,
)
    requires
        n % 4 == 0,
    ensures
        row_rms::<F, T>(x, eps, n, row) == range_sum(
            |i: int| x[row * n + i].widen_s().mul_s(x[row * n + i].widen_s()),
            0,
            n as int,
        ).div_s(F::of_u32_s(n)).add_s(eps).rsqrt_s(),
{
    let f = |i: int| x[row * n + i].widen_s().mul_s(x[row * n + i].widen_s());
    let parts = Seq::new((n / 4) as nat, |t: int| quad_squares::<F, T>(x, row * n + 4 * t));
    let quad = |t: int| parts[t];
    F::lane_sum_total(parts);
    lemma_total_range(parts, quad);
    assert forall|t: int| 0 <= t < n / 4 implies #[trigger] quad(t) == range_sum(
        f,
        t * 4,
        t * 4 + 4,
    ) by {
        reveal_with_fuel(range_sum, 5);
        lemma_zero_add(f(t * 4));
        assert(row * n + 4 * t == row * n + t * 4);
    }
    lemma_range_blocks(quad, f, 4, n as int / 4);
}

} // verus!
