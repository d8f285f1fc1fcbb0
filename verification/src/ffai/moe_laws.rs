//! The expert matmuls agree with dequantise-then-multiply.
use vstd::prelude::*;

use super::gather::{
    bias_of, code, dotted_product, folded_product, lane_dots, lane_fold, scale_of, unit_dot,
    unit_fold, Quant, Weights,
};
use super::mma::{
    code_value, half_word, input_row, masked_nibble, signed_byte, slice_fold, tile_value,
    weight_operands, Tiling,
};
use crate::index::{lemma_row, lemma_row_col};
use crate::num::{ExactNum, ExactStore, Num, Store};
use crate::quant::{law_nibble_stream, nibble};
use crate::sums::{
    lemma_lanes, lemma_range_blocks, lemma_range_congr, lemma_range_shift, lemma_range_split,
    lemma_total_range, lemma_zero_add, range_sum, strided_sum,
};

verus! {

/// Weight `k` of row `row`, dequantised.
pub open spec fn dequant<F: Num, T: Store<F>>(q: Quant, w: Weights<T>, row: int, k: int) -> F {
    let g = k / q.group_size as int;
    F::of_u32_s(code(q, w, row, k)).mul_s(scale_of::<F, T>(q, w, row, g)).add_s(
        bias_of::<F, T>(q, w, row, g),
    )
}

/// Dequantised weight row `row` times the input row at `xbase`, in order.
pub open spec fn dequant_product<F: Num, T: Store<F>>(
    q: Quant,
    w: Weights<T>,
    row: int,
    x: Seq<T>,
    xbase: int,
) -> F {
    range_sum(
        |k: int| dequant::<F, T>(q, w, row, k).mul_s(x[xbase + k].widen_s()),
        0,
        q.k_in as int,
    )
}

/// Weight `k` of row `row`, dequantised from a signed byte.
pub open spec fn signed_dequant<F: Num, T: Store<F>>(
    q: Quant,
    w: Weights<T>,
    row: int,
    k: int,
) -> F {
    let g = k / q.group_size as int;
    signed_byte::<F>(code(q, w, row, k)).mul_s(scale_of::<F, T>(q, w, row, g)).add_s(
        bias_of::<F, T>(q, w, row, g),
    )
}

/// [`dequant_product`] over signed bytes.
pub open spec fn signed_product<F: Num, T: Store<F>>(
    q: Quant,
    w: Weights<T>,
    row: int,
    x: Seq<T>,
    xbase: int,
) -> F {
    range_sum(
        |k: int| signed_dequant::<F, T>(q, w, row, k).mul_s(x[xbase + k].widen_s()),
        0,
        q.k_in as int,
    )
}

/// A unit that does not straddle groups has one group.
pub proof fn lemma_unit_group(unit: int, vals: int, gs: int, i: int)
    requires
        0 < vals,
        0 < gs,
        gs % vals == 0,
        0 <= unit,
        0 <= i < vals,
    ensures
        (unit * vals + i) / gs == (unit * vals) / gs,
{
    let m = gs / vals;
    vstd::arithmetic::div_mod::lemma_fundamental_div_mod(gs, vals);
    assert(gs == m * vals) by (nonlinear_arith)
        requires
            gs == vals * m + 0,
    ;
    assert(m > 0) by (nonlinear_arith)
        requires
            gs == m * vals,
            gs > 0,
            vals > 0,
    ;
    vstd::arithmetic::div_mod::lemma_fundamental_div_mod(unit, m);
    let (a, b) = (unit / m, unit % m);
    vstd::arithmetic::div_mod::lemma_mod_bound(unit, m);
    assert(unit * vals == a * gs + b * vals) by (nonlinear_arith)
        requires
            unit == m * a + b,
            gs == m * vals,
    ;
    lemma_row(b, m, vals);
    lemma_row_col(a, b * vals, gs);
    lemma_row_col(a, b * vals + i, gs);
}

proof fn lemma_unit_fold<F: ExactNum, T: Store<F>>(
    q: Quant,
    w: Weights<T>,
    row: int,
    x: Seq<T>,
    xbase: int,
    vals: int,
    unit: int,
    acc: F,
    n: nat,
    f: spec_fn(int) -> F,
)
    requires
        0 < vals,
        0 <= unit,
        n <= vals,
        0 < q.group_size,
        q.group_size as int % vals == 0,
        forall|k: int|
            #[trigger] f(k) == dequant::<F, T>(q, w, row, k).mul_s(x[xbase + k].widen_s()),
    ensures
        unit_fold::<F, T>(q, w, row, x, xbase, vals, unit, acc, n) == acc.add_s(
            range_sum(f, unit * vals, unit * vals + n),
        ),
    decreases n,
{
    if n == 0 {
        F::add_zero(acc);
    } else {
        lemma_unit_fold::<F, T>(q, w, row, x, xbase, vals, unit, acc, (n - 1) as nat, f);
        lemma_unit_group(unit, vals, q.group_size as int, n - 1);
        let k = unit * vals + (n - 1);
        assert(f(k) == dequant::<F, T>(q, w, row, k).mul_s(x[xbase + k].widen_s()));
        F::add_assoc(acc, range_sum(f, unit * vals, k), f(k));
    }
}

proof fn lemma_unit_dot<F: ExactNum, T: Store<F>>(
    q: Quant,
    w: Weights<T>,
    row: int,
    x: Seq<T>,
    xbase: int,
    vals: int,
    unit: int,
    n: nat,
    f: spec_fn(int) -> F,
)
    requires
        0 < vals,
        0 <= unit,
        0 < n <= vals,
        0 < q.group_size,
        q.group_size as int % vals == 0,
        forall|k: int|
            #[trigger] f(k) == dequant::<F, T>(q, w, row, k).mul_s(x[xbase + k].widen_s()),
    ensures
        unit_dot::<F, T>(q, w, row, x, xbase, vals, unit, n) == range_sum(
            f,
            unit * vals,
            unit * vals + n,
        ),
    decreases n,
{
    reveal_with_fuel(range_sum, 2);
    lemma_unit_group(unit, vals, q.group_size as int, n - 1);
    let k = unit * vals + (n - 1);
    let g = (unit * vals) / q.group_size as int;
    let xk = x[xbase + k].widen_s();
    let c = F::of_u32_s(code(q, w, row, k)).mul_s(scale_of::<F, T>(q, w, row, g));
    let b = bias_of::<F, T>(q, w, row, g);
    F::distrib(c, b, xk);
    assert(f(k) == c.add_s(b).mul_s(xk));
    if n > 1 {
        lemma_unit_dot::<F, T>(q, w, row, x, xbase, vals, unit, (n - 1) as nat, f);
        F::add_assoc(range_sum(f, unit * vals, k), c.mul_s(xk), b.mul_s(xk));
    } else {
        lemma_zero_add(f(k));
    }
}

proof fn lemma_lane_fold<F: ExactNum, T: Store<F>>(
    q: Quant,
    w: Weights<T>,
    row: int,
    x: Seq<T>,
    xbase: int,
    vals: int,
    unit: int,
    units: int,
    acc: F,
    f: spec_fn(int) -> F,
    per_unit: spec_fn(int) -> F,
)
    requires
        0 < vals,
        0 <= unit,
        0 < q.group_size,
        q.group_size as int % vals == 0,
        forall|k: int|
            #[trigger] f(k) == dequant::<F, T>(q, w, row, k).mul_s(x[xbase + k].widen_s()),
        forall|u: int| #[trigger] per_unit(u) == range_sum(f, u * vals, u * vals + vals),
    ensures
        lane_fold::<F, T>(q, w, row, x, xbase, vals, unit, units, acc) == acc.add_s(
            strided_sum(per_unit, unit, units, 32),
        ),
        lane_dots::<F, T>(q, w, row, x, xbase, vals, unit, units, acc) == acc.add_s(
            strided_sum(per_unit, unit, units, 32),
        ),
    decreases
            (if unit < units {
                units - unit
            } else {
                0
            }),
{
    if unit >= units {
        F::add_zero(acc);
    } else {
        lemma_unit_fold::<F, T>(q, w, row, x, xbase, vals, unit, acc, vals as nat, f);
        lemma_unit_dot::<F, T>(q, w, row, x, xbase, vals, unit, vals as nat, f);
        assert(per_unit(unit) == range_sum(f, unit * vals, unit * vals + vals));
        let next = acc.add_s(per_unit(unit));
        lemma_lane_fold::<F, T>(
            q,
            w,
            row,
            x,
            xbase,
            vals,
            unit + 32,
            units,
            next,
            f,
            per_unit,
        );
        F::add_assoc(acc, per_unit(unit), strided_sum(per_unit, unit + 32, units, 32));
    }
}

/// Lanes that each walk every thirty-second unit multiply the whole row: both
/// forms of the expert matmul equal dequantise-then-multiply.
pub proof fn law_lanes_compute_product<F: ExactNum, T: Store<F>>(
    q: Quant,
    w: Weights<T>,
    row: int,
    x: Seq<T>,
    xbase: int,
    vals: int,
)
    requires
        q.wf(),
        0 < vals,
        q.k_in as int % vals == 0,
        q.group_size as int % vals == 0,
    ensures
        folded_product::<F, T>(q, w, row, x, xbase, vals) == dequant_product::<F, T>(
            q,
            w,
            row,
            x,
            xbase,
        ),
        dotted_product::<F, T>(q, w, row, x, xbase, vals) == dequant_product::<F, T>(
            q,
            w,
            row,
            x,
            xbase,
        ),
{
    let units = q.k_in as int / vals;
    let f = |k: int| dequant::<F, T>(q, w, row, k).mul_s(x[xbase + k].widen_s());
    let per_unit = |u: int| range_sum(f, u * vals, u * vals + vals);
    let folds = Seq::new(
        32,
        |l: int|
            lane_fold::<F, T>(q, w, row, x, xbase, vals, l, q.k_in as int / vals, F::zero_s()),
    );
    let dots = Seq::new(
        32,
        |l: int|
            lane_dots::<F, T>(q, w, row, x, xbase, vals, l, q.k_in as int / vals, F::zero_s()),
    );
    let strided = |l: int| strided_sum(per_unit, 0 + l, units, 32);
    assert forall|l: int| 0 <= l < 32 implies folds[l] == #[trigger] strided(l) && dots[l]
        == strided(l) by {
        lemma_lane_fold::<F, T>(
            q,
            w,
            row,
            x,
            xbase,
            vals,
            l,
            units,
            F::zero_s(),
            f,
            per_unit,
        );
        lemma_zero_add(strided_sum(per_unit, l, units, 32));
    }
    F::lane_sum_total(folds);
    F::lane_sum_total(dots);
    lemma_total_range(folds, strided);
    lemma_total_range(dots, strided);
    lemma_lanes(per_unit, 0, units, 32);
    lemma_range_congr(strided, |l: int| strided_sum(per_unit, 0 + l, units, 32), 0, 32);
    vstd::arithmetic::div_mod::lemma_fundamental_div_mod(q.k_in as int, vals);
    assert(vals * units == units * vals) by (nonlinear_arith);
    vstd::arithmetic::div_mod::lemma_div_pos_is_pos(q.k_in as int, vals);
    lemma_range_blocks(per_unit, f, vals, units);
    lemma_range_congr(
        f,
        |k: int| dequant::<F, T>(q, w, row, k).mul_s(x[xbase + k].widen_s()),
        0,
        q.k_in as int,
    );
}

/// The multi-column tiles compute what the single-column kernel computes.
pub proof fn law_tiles_match_single<F: ExactNum, T: Store<F>>(
    q: Quant,
    w: Weights<T>,
    row: int,
    x: Seq<T>,
    xbase: int,
)
    requires
        q.wf(),
        q.bits == 4,
        q.group_size % 8 == 0,
    ensures
        dotted_product::<F, T>(q, w, row, x, xbase, 8) == folded_product::<F, T>(
            q,
            w,
            row,
            x,
            xbase,
            8,
        ),
{
    law_lanes_compute_product::<F, T>(q, w, row, x, xbase, 8);
}

/// The matrix unit, slice by slice, computes a dot product.
pub proof fn lemma_slice_fold<F: ExactNum>(
    a: Seq<F>,
    b: Seq<F>,
    slice: int,
    n: nat,
    f: spec_fn(int) -> F,
)
    requires
        0 < slice,
        a.len() == b.len(),
        n * slice <= a.len(),
        forall|k: int| 0 <= k < a.len() ==> #[trigger] f(k) == a[k].mul_s(b[k]),
    ensures
        slice_fold(a, b, slice, n) == range_sum(f, 0, n * slice),
    decreases n,
{
    if n == 0 {
        assert(0 * slice == 0);
    } else {
        let m = (n - 1) * slice;
        lemma_row(n - 1, n as int, slice);
        lemma_slice_fold(a, b, slice, (n - 1) as nat, f);
        let sa = a.subrange(m, m + slice);
        let sb = b.subrange(m, m + slice);
        let prev = slice_fold(a, b, slice, (n - 1) as nat);
        F::dot_acc_total(prev, sa, sb);
        let prods = Seq::new(sa.len(), |i: int| sa[i].mul_s(sb[i]));
        let h = |i: int| f(i + m);
        assert forall|i: int| 0 <= i < prods.len() implies #[trigger] h(i) == prods[i] by {
            assert(f(i + m) == a[i + m].mul_s(b[i + m]));
        }
        lemma_total_range(prods, h);
        lemma_range_shift(h, f, 0, slice, m);
        lemma_range_split(f, 0, m, m + slice);
    }
}

/// A code masked in place has the value of the shifted code.
pub proof fn lemma_masked_nibble<F: ExactNum>(word: u32, j: int)
    requires
        0 <= j < 8,
    ensures
        masked_nibble::<F>(word, j) == F::of_u32_s(nibble(word, j as u32)),
{
    let p = (j % 4) as u32;
    let half = half_word(word, j);
    let v = nibble(half, p);
    let jj = j as u32;
    if j < 4 {
        assert(p == jj);
    } else {
        assert(((word >> 16u32) >> ((4 * p) as u32)) & 15 == (word >> ((4 * jj) as u32)) & 15)
            by (bit_vector)
            requires
                jj < 8,
                4 <= jj,
                p == jj - 4,
        ;
    }
    assert(v == nibble(word, jj));
    assert(v < 16) by (bit_vector)
        requires
            v == (half >> ((4 * p) as u32)) & 15,
    ;
    if p == 0 {
        assert((half >> 0u32) & 15 == half & 15) by (bit_vector);
    } else if p == 1 {
        assert(((half >> 4u32) & 15) * 16 == half & 240) by (bit_vector);
        F::recip_pow2(v, 16);
    } else if p == 2 {
        assert(((half >> 8u32) & 15) * 256 == half & 3840) by (bit_vector);
        F::recip_pow2(v, 256);
    } else {
        assert(((half >> 12u32) & 15) * 4096 == half & 61440) by (bit_vector);
        F::recip_pow2(v, 4096);
    }
}

/// However it tiles and stages, the tiled matmul equals
/// dequantise-then-multiply with the weights of the row's expert.
pub proof fn law_tile_computes_product<F: ExactNum, T: ExactStore<F>>(
    t: Tiling,
    q: Quant,
    w: Weights<T>,
    x: Seq<T>,
    e: int,
    r: int,
    c: int,
)
    requires
        q.wf(),
        t.wf(q),
        q.group_size % t.unit == 0,
        0 <= e,
        0 <= c,
    ensures
        tile_value::<F, T>(t, q, w, x, e, r, c) == (if t.signed {
            signed_product::<F, T>(q, w, e * q.m_out + c, x, r * q.k_in)
        } else {
            dequant_product::<F, T>(q, w, e * q.m_out + c, x, r * q.k_in)
        }),
{
    let row = e * q.m_out + c;
    let a = input_row::<F, T>(t, q, x, r);
    let b = weight_operands::<F, T>(t, q, w, row);
    let k_in = q.k_in as int;
    let d = |k: int|
        if t.signed {
            signed_dequant::<F, T>(q, w, row, k)
        } else {
            dequant::<F, T>(q, w, row, k)
        };
    let f = |k: int| d(k).mul_s(x[r * q.k_in + k].widen_s());
    assert forall|k: int| 0 <= k < k_in implies #[trigger] f(k) == a[k].mul_s(b[k]) by {
        let xv = x[r * q.k_in + k].widen_s();
        T::stage_exact(xv);
        T::widen_narrow(F::one_s());
        F::mul_one(xv);
        T::widen_narrow(xv);
        assert(a[k] == xv);
        let g = ((k / t.unit as int) * t.unit) / q.group_size as int;
        let u = k / t.unit as int;
        let i = k % t.unit as int;
        vstd::arithmetic::div_mod::lemma_fundamental_div_mod(k, t.unit as int);
        vstd::arithmetic::div_mod::lemma_mod_bound(k, t.unit as int);
        vstd::arithmetic::div_mod::lemma_div_pos_is_pos(k, t.unit as int);
        assert(t.unit * u == u * t.unit) by (nonlinear_arith);
        lemma_unit_group(u, t.unit as int, q.group_size as int, i);
        assert(g == k / q.group_size as int);
        if t.masked {
            lemma_masked_nibble::<F>(w.words[row * q.words() + k / 8], k % 8);
            law_nibble_stream(w.words, row * q.words(), k);
        }
        let cv = if t.signed {
            signed_byte::<F>(code(q, w, row, k))
        } else {
            F::of_u32_s(code(q, w, row, k))
        };
        assert(code_value::<F, T>(t, q, w, row, k) == cv);
        F::mul_comm(scale_of::<F, T>(q, w, row, g), cv);
        let v = d(k);
        T::stage_exact(v);
        T::widen_narrow(v);
        assert(b[k] == v);
        F::mul_comm(xv, v);
    }
    let steps = q.k_in as int / t.slice as int;
    lemma_divides(q.k_in as int, t.bk as int, t.slice as int);
    vstd::arithmetic::div_mod::lemma_fundamental_div_mod(q.k_in as int, t.slice as int);
    assert(t.slice * steps == steps * t.slice) by (nonlinear_arith);
    vstd::arithmetic::div_mod::lemma_div_pos_is_pos(q.k_in as int, t.slice as int);
    lemma_slice_fold(a, b, t.slice as int, steps as nat, f);
    if t.signed {
        lemma_range_congr(
            f,
            |k: int| signed_dequant::<F, T>(q, w, row, k).mul_s(x[r * q.k_in + k].widen_s()),
            0,
            k_in,
        );
    } else {
        lemma_range_congr(
            f,
            |k: int| dequant::<F, T>(q, w, row, k).mul_s(x[r * q.k_in + k].widen_s()),
            0,
            k_in,
        );
    }
}

/// Divisibility is transitive.
pub proof fn lemma_divides(a: int, b: int, c: int)
    requires
        0 < b,
        0 < c,
        a % b == 0,
        b % c == 0,
    ensures
        a % c == 0,
{
    vstd::arithmetic::div_mod::lemma_fundamental_div_mod(a, b);
    vstd::arithmetic::div_mod::lemma_fundamental_div_mod(b, c);
    let (m, n) = (a / b, b / c);
    assert(a == (m * n) * c) by (nonlinear_arith)
        requires
            a == b * m,
            b == c * n,
    ;
    vstd::arithmetic::div_mod::lemma_mod_multiples_basic(m * n, c);
}

/// Two ways of tiling and staging compute the same product of the same codes.
pub proof fn law_tilings_agree<F: ExactNum, T: ExactStore<F>>(
    a: Tiling,
    b: Tiling,
    q: Quant,
    w: Weights<T>,
    x: Seq<T>,
    e: int,
    r: int,
    c: int,
)
    requires
        q.wf(),
        a.wf(q),
        b.wf(q),
        a.signed == b.signed,
        q.group_size % a.unit == 0,
        q.group_size % b.unit == 0,
        0 <= e,
        0 <= c,
    ensures
        tile_value::<F, T>(a, q, w, x, e, r, c) == tile_value::<F, T>(b, q, w, x, e, r, c),
{
    law_tile_computes_product::<F, T>(a, q, w, x, e, r, c);
    law_tile_computes_product::<F, T>(b, q, w, x, e, r, c);
}

} // verus!
