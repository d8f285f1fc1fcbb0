//! Row-major index arithmetic.
use vstd::arithmetic::div_mod::lemma_fundamental_div_mod_converse;
use vstd::prelude::*;

verus! {

/// Row `r` of a row-major buffer with `n` rows of width `w` lies inside it.
pub proof fn lemma_row(r: int, n: int, w: int)
    requires
        0 <= r < n,
        0 <= w,
    ensures
        0 <= r * w,
        r * w + w <= n * w,
        r * w + w == (r + 1) * w,
{
    assert(0 <= r * w) by (nonlinear_arith)
        requires
            0 <= r,
            0 <= w,
    ;
    assert(r * w + w == (r + 1) * w) by (nonlinear_arith);
    assert((r + 1) * w <= n * w) by (nonlinear_arith)
        requires
            r + 1 <= n,
            0 <= w,
    ;
}

/// A row-major index gives its row and column back.
pub proof fn lemma_row_col(r: int, c: int, w: int)
    requires
        0 <= c < w,
    ensures
        (r * w + c) / w == r,
        (r * w + c) % w == c,
{
    assert(r * w == w * r) by (nonlinear_arith);
    lemma_fundamental_div_mod_converse(r * w + c, w, r, c);
}

/// An index below `n * w` has a row below `n`, and lies in that row.
pub proof fn lemma_index_row(i: int, n: int, w: int)
    requires
        0 <= i < n * w,
        0 < w,
        0 <= n,
    ensures
        0 <= i / w < n,
        0 <= i % w < w,
        i == (i / w) * w + i % w,
{
    vstd::arithmetic::div_mod::lemma_fundamental_div_mod(i, w);
    let q = i / w;
    assert(w * q == q * w) by (nonlinear_arith);
    assert(q < n) by (nonlinear_arith)
        requires
            q * w <= i,
            i < n * w,
            0 < w,
    ;
    assert(0 <= q) by (nonlinear_arith)
        requires
            q * w + w > i,
            0 <= i,
            0 < w,
    ;
}

/// Quotients and products of machine-sized factors stay in range together.
pub proof fn lemma_mul_le(a: int, b: int, c: int, d: int)
    requires
        0 <= a <= b,
        0 <= c <= d,
    ensures
        0 <= a * c <= b * d,
{
    assert(0 <= a * c) by (nonlinear_arith)
        requires
            0 <= a,
            0 <= c,
    ;
    assert(a * c <= b * d) by (nonlinear_arith)
        requires
            0 <= a <= b,
            0 <= c <= d,
    ;
}

} // verus!
