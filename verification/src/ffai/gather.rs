//! One output row times quantised expert weights: the lanes of a simdgroup
//! share the inner dimension.
use vstd::prelude::*;

use super::attention::LANES;
use crate::index::{lemma_index_row, lemma_mul_le, lemma_row};
use crate::num::{Num, Store};
use crate::quant::{code_at, extract, words_per_row};

verus! {

/// Shape of the stacked expert weights `[n_experts, m_out, k_in]`.
#[derive(Clone, Copy)]
pub struct Quant {
    /// Width of a code.
    pub bits: u32,
    /// Inner dimension.
    pub k_in: u32,
    /// Output rows per expert.
    pub m_out: u32,
    /// Codes that share a scale and a bias.
    pub group_size: u32,
    pub n_experts: u32,
}

/// The weights as sequences.
pub struct Weights<T> {
    pub words: Seq<u32>,
    pub scales: Seq<T>,
    pub biases: Seq<T>,
}

impl Quant {
    pub open spec fn words(self) -> int {
        words_per_row(self.k_in as int, self.bits as int)
    }

    pub open spec fn groups(self) -> int {
        self.k_in as int / self.group_size as int
    }

    /// Rows are whole numbers of words and of groups.
    pub open spec fn wf(self) -> bool {
        &&& 0 < self.bits <= 8
        &&& 0 < self.group_size
        &&& 0 < self.n_experts
        &&& self.k_in % self.group_size == 0
        &&& (self.k_in * self.bits) % 32 == 0
    }

    /// The buffers hold all experts.
    pub open spec fn fits<T>(self, w: Weights<T>) -> bool {
        &&& self.n_experts * self.m_out * self.words() <= w.words.len()
        &&& self.n_experts * self.m_out * self.groups() <= w.scales.len()
        &&& self.n_experts * self.m_out * self.groups() <= w.biases.len()
    }
}

/// Code `k` of weight row `row`.
pub open spec fn code<T>(q: Quant, w: Weights<T>, row: int, k: int) -> u32 {
    code_at(q.bits, w.words, row * q.words(), k)
}

/// Scale of group `g` of weight row `row`.
pub open spec fn scale_of<F: Num, T: Store<F>>(q: Quant, w: Weights<T>, row: int, g: int) -> F {
    w.scales[row * q.groups() + g].widen_s()
}

/// Bias of group `g` of weight row `row`.
pub open spec fn bias_of<F: Num, T: Store<F>>(q: Quant, w: Weights<T>, row: int, g: int) -> F {
    w.biases[row * q.groups() + g].widen_s()
}

/// `acc` plus the first `n` products of a unit of `vals` codes, each weight
/// dequantised first.
pub open spec fn unit_fold<F: Num, T: Store<F>>(
    q: Quant,
    w: Weights<T>,
    row: int,
    x: Seq<T>,
    xbase: int,
    vals: int,
    unit: int,
    acc: F,
    n: nat,
) -> F
    decreases n,
{
    if n == 0 {
        acc
    } else {
        let k = unit * vals + (n - 1);
        let g = (unit * vals) / q.group_size as int;
        let weight = F::of_u32_s(code(q, w, row, k)).mul_s(scale_of::<F, T>(q, w, row, g)).add_s(
            bias_of::<F, T>(q, w, row, g),
        );
        unit_fold(q, w, row, x, xbase, vals, unit, acc, (n - 1) as nat).add_s(
            weight.mul_s(x[xbase + k].widen_s()),
        )
    }
}

/// What a lane has after units `unit`, `unit + 32`, .. below `units`.
pub open spec fn lane_fold<F: Num, T: Store<F>>(
    q: Quant,
    w: Weights<T>,
    row: int,
    x: Seq<T>,
    xbase: int,
    vals: int,
    unit: int,
    units: int,
    acc: F,
) -> F
    decreases
            (if unit < units {
                units - unit
            } else {
                0
            }),
{
    if unit >= units {
        acc
    } else {
        lane_fold(
            q,
            w,
            row,
            x,
            xbase,
            vals,
            unit + 32,
            units,
            unit_fold(q, w, row, x, xbase, vals, unit, acc, vals as nat),
        )
    }
}

/// Weight row `row` times the input row at `xbase`, lane by lane.
pub open spec fn folded_product<F: Num, T: Store<F>>(
    q: Quant,
    w: Weights<T>,
    row: int,
    x: Seq<T>,
    xbase: int,
    vals: int,
) -> F {
    F::lane_sum_s(
        Seq::new(
            32,
            |l: int|
                lane_fold(
                    q,
                    w,
                    row,
                    x,
                    xbase,
                    vals,
                    l,
                    q.k_in as int / vals,
                    F::zero_s(),
                ),
        ),
    )
}

/// Scaled codes and biases of the first `n` elements of a unit, each times its
/// input, added from the left.
pub open spec fn unit_dot<F: Num, T: Store<F>>(
    q: Quant,
    w: Weights<T>,
    row: int,
    x: Seq<T>,
    xbase: int,
    vals: int,
    unit: int,
    n: nat,
) -> F
    decreases n,
{
    let k = unit * vals + (n - 1);
    let g = (unit * vals) / q.group_size as int;
    let xk = x[xbase + k].widen_s();
    let scaled = F::of_u32_s(code(q, w, row, k)).mul_s(scale_of::<F, T>(q, w, row, g)).mul_s(xk);
    let biased = bias_of::<F, T>(q, w, row, g).mul_s(xk);
    if n <= 1 {
        scaled.add_s(biased)
    } else {
        unit_dot(q, w, row, x, xbase, vals, unit, (n - 1) as nat).add_s(scaled).add_s(biased)
    }
}

/// What a lane of a multi-row tile has after units `unit`, `unit + 32`, ..
pub open spec fn lane_dots<F: Num, T: Store<F>>(
    q: Quant,
    w: Weights<T>,
    row: int,
    x: Seq<T>,
    xbase: int,
    vals: int,
    unit: int,
    units: int,
    acc: F,
) -> F
    decreases
            (if unit < units {
                units - unit
            } else {
                0
            }),
{
    if unit >= units {
        acc
    } else {
        lane_dots(
            q,
            w,
            row,
            x,
            xbase,
            vals,
            unit + 32,
            units,
            acc.add_s(unit_dot(q, w, row, x, xbase, vals, unit, vals as nat)),
        )
    }
}

/// Weight row `row` times the input row at `xbase`, as the multi-row tiles
/// compute it.
pub open spec fn dotted_product<F: Num, T: Store<F>>(
    q: Quant,
    w: Weights<T>,
    row: int,
    x: Seq<T>,
    xbase: int,
    vals: int,
) -> F {
    F::lane_sum_s(
        Seq::new(
            32,
            |l: int|
                lane_dots(
                    q,
                    w,
                    row,
                    x,
                    xbase,
                    vals,
                    l,
                    q.k_in as int / vals,
                    F::zero_s(),
                ),
        ),
    )
}

/// Everything that reading element `k` of weight row `row` touches is in
/// bounds.
pub proof fn lemma_weight_bounds<T>(q: Quant, w: Weights<T>, row: int, k: int)
    requires
        q.wf(),
        q.fits(w),
        0 <= row < q.n_experts * q.m_out,
        0 <= k < q.k_in,
    ensures
        0 <= row * q.words(),
        0 <= row * q.groups(),
        row <= w.words.len(),
        row * q.words() + q.words() <= w.words.len(),
        row * q.groups() + q.groups() <= w.scales.len(),
        row * q.groups() + q.groups() <= w.biases.len(),
        0 <= (k * q.bits) / 32 < q.words(),
        (k * q.bits) % 32 + q.bits > 32 ==> (k * q.bits) / 32 + 1 < q.words(),
        0 <= k / q.group_size as int,
        k / (q.group_size as int) < q.groups(),
        q.k_in == q.groups() * q.group_size,
{
    let bits = q.bits as int;
    let n = q.n_experts * q.m_out;
    assert((k + 1) * bits == k * bits + bits) by (nonlinear_arith);
    lemma_mul_le(k + 1, q.k_in as int, bits, bits);
    lemma_mul_le(0, k, bits, bits);
    vstd::arithmetic::div_mod::lemma_fundamental_div_mod(q.k_in as int, q.group_size as int);
    assert(q.groups() * q.group_size == q.group_size * q.groups()) by (nonlinear_arith);
    assert(q.groups() >= 0) by {
        vstd::arithmetic::div_mod::lemma_div_pos_is_pos(q.k_in as int, q.group_size as int);
    }
    lemma_index_row(k, q.groups(), q.group_size as int);
    lemma_row(row, n, q.words());
    lemma_row(row, n, q.groups());
    lemma_mul_le(row, row, 1, q.words());
}

/// Loads `vals` inputs of a unit.
fn load_inputs<F: Num, T: Store<F>>(x: &[T], first: usize, vals: usize) -> (r: Vec<F>)
    requires
        first + vals <= x@.len(),
    ensures
        r@.len() == vals,
        forall|i: int| 0 <= i < vals ==> #[trigger] r@[i] == x@[first + i].widen_s(),
{
    let x_len: usize = x.len();
    let mut out: Vec<F> = Vec::new();
    let mut i: usize = 0;
    while i < vals
        invariant
            i <= vals,
            first + vals <= x@.len() == x_len,
            out@.len() == i,
            forall|j: int| 0 <= j < i ==> #[trigger] out@[j] == x@[first + j].widen_s(),
        decreases vals - i,
    {
        out.push(x[first + i].widen());
        i += 1;
    }
    out
}

/// Weight row `row` times the input row at `xbase`.
pub fn fold_product<F: Num, T: Store<F>>(
    q: Quant,
    words: &[u32],
    scales: &[T],
    biases: &[T],
    row: u64,
    x: &[T],
    xbase: usize,
    vals: u32,
) -> (r: F)
    requires
        q.wf(),
        0 < vals,
        q.k_in % vals == 0,
        q.fits(Weights { words: words@, scales: scales@, biases: biases@ }),
        row < q.n_experts * q.m_out,
        xbase + q.k_in <= x@.len(),
    ensures
        r == folded_product::<F, T>(
            q,
            (Weights { words: words@, scales: scales@, biases: biases@ }),
            row as int,
            x@,
            xbase as int,
            vals as int,
        ),
{
    let ghost w = Weights { words: words@, scales: scales@, biases: biases@ };
    let units: u32 = q.k_in / vals;
    let x_len: usize = x.len();
    let w_len: usize = words.len();
    let s_len: usize = scales.len();
    let ghost full = Seq::new(
        32,
        |l: int|
            lane_fold::<F, T>(
                q,
                w,
                row as int,
                x@,
                xbase as int,
                vals as int,
                l,
                units as int,
                F::zero_s(),
            ),
    );
    let mut lanes: Vec<F> = Vec::new();
    let mut l: u32 = 0;
    while l < 32
        invariant
            l <= 32,
            q.wf(),
            0 < vals,
            q.k_in % vals == 0,
            units == q.k_in / vals,
            w == (Weights { words: words@, scales: scales@, biases: biases@ }),
            q.fits(w),
            row < q.n_experts * q.m_out,
            xbase + q.k_in <= x@.len() == x_len,
            words@.len() == w_len,
            scales@.len() == s_len,
            full == Seq::new(
                32,
                |l: int|
                    lane_fold::<F, T>(
                        q,
                        w,
                        row as int,
                        x@,
                        xbase as int,
                        vals as int,
                        l,
                        units as int,
                        F::zero_s(),
                    ),
            ),
            lanes@ == full.take(l as int),
        decreases 32 - l,
    {
        let mut acc = F::zero();
        let mut at: u64 = l as u64;
        while at < units as u64
            invariant
                l < 32,
                q.wf(),
                0 < vals,
                q.k_in % vals == 0,
                units == q.k_in / vals,
                w == (Weights { words: words@, scales: scales@, biases: biases@ }),
                q.fits(w),
                row < q.n_experts * q.m_out,
                xbase + q.k_in <= x@.len() == x_len,
                words@.len() == w_len,
                scales@.len() == s_len,
                at <= units + 32,
                lane_fold::<F, T>(
                    q,
                    w,
                    row as int,
                    x@,
                    xbase as int,
                    vals as int,
                    at as int,
                    units as int,
                    acc,
                ) == full[l as int],
            decreases units + 32 - at,
        {
            let unit: u32 = at as u32;
            proof {
                vstd::arithmetic::div_mod::lemma_fundamental_div_mod(q.k_in as int, vals as int);
                assert(vals * units == units * vals) by (nonlinear_arith);
                lemma_row(unit as int, units as int, vals as int);
                lemma_weight_bounds(q, w, row as int, unit * vals);
            }
            let first: u32 = unit * vals;
            let words_row: usize = words_in_row(q);
            let groups: usize = (q.k_in / q.group_size) as usize;
            let g: usize = (first / q.group_size) as usize;
            let scale = scales[row as usize * groups + g].widen();
            let bias = biases[row as usize * groups + g].widen();
            let ghost acc0 = acc;
            let mut i: u32 = 0;
            while i < vals
                invariant
                    i <= vals,
                    q.wf(),
                    unit < units,
                    first == unit * vals,
                    first + vals <= q.k_in,
                    words_row == q.words(),
                    w == (Weights { words: words@, scales: scales@, biases: biases@ }),
                    q.fits(w),
                    row < q.n_experts * q.m_out,
                    xbase + q.k_in <= x@.len() == x_len,
                    words@.len() == w_len,
                    scale == scale_of::<F, T>(q, w, row as int, first as int / q.group_size as int),
                    bias == bias_of::<F, T>(q, w, row as int, first as int / q.group_size as int),
                    acc == unit_fold::<F, T>(
                        q,
                        w,
                        row as int,
                        x@,
                        xbase as int,
                        vals as int,
                        unit as int,
                        acc0,
                        i as nat,
                    ),
                decreases vals - i,
            {
                let k: u32 = first + i;
                proof {
                    lemma_weight_bounds(q, w, row as int, k as int);
                }
                let c: u32 = extract(q.bits, words, row as usize * words_row, k);
                let weight = F::of_u32(c).mul(scale).add(bias);
                acc = acc.add(weight.mul(x[xbase + k as usize].widen()));
                i += 1;
            }
            at += 32;
        }
        lanes.push(acc);
        assert(lanes@ =~= full.take(l + 1));
        l += 1;
    }
    assert(lanes@ =~= full);
    F::lane_sum(&lanes)
}

/// Words of a weight row.
pub fn words_in_row(q: Quant) -> (r: usize)
    requires
        q.wf(),
        q.words() <= usize::MAX,
    ensures
        r == q.words(),
{
    assert(q.k_in * q.bits <= 0xffff_ffff * 8) by (nonlinear_arith)
        requires
            q.bits <= 8,
            q.k_in <= 0xffff_ffff,
    ;
    (q.k_in as u64 * q.bits as u64 / 32) as usize
}

/// One unit of one weight row against loaded inputs.
fn dot_unit<F: Num, T: Store<F>>(
    q: Quant,
    words: &[u32],
    scales: &[T],
    biases: &[T],
    row: u64,
    x: Ghost<Seq<T>>,
    xbase: Ghost<int>,
    xs: &Vec<F>,
    vals: u32,
    unit: u32,
) -> (r: F)
    requires
        q.wf(),
        0 < vals,
        unit < q.k_in / vals,
        q.k_in % vals == 0,
        q.fits(Weights { words: words@, scales: scales@, biases: biases@ }),
        row < q.n_experts * q.m_out,
        xs@.len() == vals,
        forall|i: int|
            0 <= i < vals ==> #[trigger] xs@[i] == x@[xbase@ + unit * vals + i].widen_s(),
    ensures
        r == unit_dot::<F, T>(
            q,
            (Weights { words: words@, scales: scales@, biases: biases@ }),
            row as int,
            x@,
            xbase@,
            vals as int,
            unit as int,
            vals as nat,
        ),
{
    let ghost w = Weights { words: words@, scales: scales@, biases: biases@ };
    let w_len: usize = words.len();
    let s_len: usize = scales.len();
    proof {
        vstd::arithmetic::div_mod::lemma_fundamental_div_mod(q.k_in as int, vals as int);
        let units = q.k_in as int / vals as int;
        assert(vals * units == units * vals) by (nonlinear_arith);
        lemma_row(unit as int, units, vals as int);
        lemma_weight_bounds(q, w, row as int, unit * vals);
    }
    let first: u32 = unit * vals;
    let words_row: usize = words_in_row(q);
    let groups: usize = (q.k_in / q.group_size) as usize;
    let g: usize = (first / q.group_size) as usize;
    let scale = scales[row as usize * groups + g].widen();
    let bias = biases[row as usize * groups + g].widen();
    let c0: u32 = extract(q.bits, words, row as usize * words_row, first);
    let mut sum = F::of_u32(c0).mul(scale).mul(xs[0]).add(bias.mul(xs[0]));
    assert(xs@[0] == x@[xbase@ + unit * vals + 0].widen_s());
    let mut i: u32 = 1;
    while i < vals
        invariant
            1 <= i <= vals,
            q.wf(),
            first == unit * vals,
            first + vals <= q.k_in,
            words_row == q.words(),
            w == (Weights { words: words@, scales: scales@, biases: biases@ }),
            q.fits(w),
            row < q.n_experts * q.m_out,
            words@.len() == w_len,
            xs@.len() == vals,
            forall|i: int|
                0 <= i < vals ==> #[trigger] xs@[i] == x@[xbase@ + unit * vals + i].widen_s(),
            scale == scale_of::<F, T>(q, w, row as int, first as int / q.group_size as int),
            bias == bias_of::<F, T>(q, w, row as int, first as int / q.group_size as int),
            sum == unit_dot::<F, T>(
                q,
                w,
                row as int,
                x@,
                xbase@,
                vals as int,
                unit as int,
                i as nat,
            ),
        decreases vals - i,
    {
        let k: u32 = first + i;
        proof {
            lemma_weight_bounds(q, w, row as int, k as int);
        }
        let c: u32 = extract(q.bits, words, row as usize * words_row, k);
        let xk = xs[i as usize];
        assert(xk == x@[xbase@ + (unit * vals + i)].widen_s());
        sum = sum.add(F::of_u32(c).mul(scale).mul(xk)).add(bias.mul(xk));
        i += 1;
    }
    sum
}

/// Weight rows `row0 .. row0 + n` times the input row at `xbase`; each lane
/// loads its inputs once for all of them.
pub fn tile_products<F: Num, T: Store<F>>(
    q: Quant,
    words: &[u32],
    scales: &[T],
    biases: &[T],
    row0: u64,
    n: usize,
    x: &[T],
    xbase: usize,
    vals: u32,
) -> (r: Vec<F>)
    requires
        q.wf(),
        0 < vals,
        q.k_in % vals == 0,
        q.fits(Weights { words: words@, scales: scales@, biases: biases@ }),
        row0 + n <= q.n_experts * q.m_out,
        xbase + q.k_in <= x@.len(),
    ensures
        r@.len() == n,
        forall|j: int|
            0 <= j < n ==> #[trigger] r@[j] == dotted_product::<F, T>(
                q,
                (Weights { words: words@, scales: scales@, biases: biases@ }),
                row0 + j,
                x@,
                xbase as int,
                vals as int,
            ),
{
    let ghost w = Weights { words: words@, scales: scales@, biases: biases@ };
    let units: u32 = q.k_in / vals;
    let x_len: usize = x.len();
    let ghost lane_value = |j: int, l: int|
        lane_dots::<F, T>(
            q,
            w,
            row0 + j,
            x@,
            xbase as int,
            vals as int,
            l,
            units as int,
            F::zero_s(),
        );
    let mut lanes: Vec<Vec<F>> = Vec::new();
    let mut l: u32 = 0;
    while l < 32
        invariant
            l <= 32,
            q.wf(),
            0 < vals,
            q.k_in % vals == 0,
            units == q.k_in / vals,
            w == (Weights { words: words@, scales: scales@, biases: biases@ }),
            q.fits(w),
            row0 + n <= q.n_experts * q.m_out,
            xbase + q.k_in <= x@.len() == x_len,
            lane_value == (|j: int, l: int|
                lane_dots::<F, T>(
                    q,
                    w,
                    row0 + j,
                    x@,
                    xbase as int,
                    vals as int,
                    l,
                    units as int,
                    F::zero_s(),
                )),
            lanes@.len() == l,
            forall|m: int| 0 <= m < l ==> (#[trigger] lanes@[m])@.len() == n,
            forall|m: int, j: int|
                0 <= m < l && 0 <= j < n ==> #[trigger] lanes@[m]@[j] == lane_value(j, m),
        decreases 32 - l,
    {
        let mut accs: Vec<F> = Vec::new();
        let mut j: usize = 0;
        while j < n
            invariant
                j <= n,
                accs@.len() == j,
                forall|c: int| 0 <= c < j ==> #[trigger] accs@[c] == F::zero_s(),
            decreases n - j,
        {
            accs.push(F::zero());
            j += 1;
        }
        let mut at: u64 = l as u64;
        while at < units as u64
            invariant
                l < 32,
                q.wf(),
                0 < vals,
                q.k_in % vals == 0,
                units == q.k_in / vals,
                w == (Weights { words: words@, scales: scales@, biases: biases@ }),
                q.fits(w),
                row0 + n <= q.n_experts * q.m_out,
                xbase + q.k_in <= x@.len() == x_len,
                lane_value == (|j: int, l: int|
                    lane_dots::<F, T>(
                        q,
                        w,
                        row0 + j,
                        x@,
                        xbase as int,
                        vals as int,
                        l,
                        units as int,
                        F::zero_s(),
                    )),
                accs@.len() == n,
                at <= units + 32,
                forall|c: int|
                    0 <= c < n ==> lane_dots::<F, T>(
                        q,
                        w,
                        row0 + c,
                        x@,
                        xbase as int,
                        vals as int,
                        at as int,
                        units as int,
                        #[trigger] accs@[c],
                    ) == lane_value(c, l as int),
            decreases units + 32 - at,
        {
            let unit: u32 = at as u32;
            proof {
                vstd::arithmetic::div_mod::lemma_fundamental_div_mod(q.k_in as int, vals as int);
                assert(vals * units == units * vals) by (nonlinear_arith);
                lemma_row(unit as int, units as int, vals as int);
            }
            let first: usize = (unit * vals) as usize;
            let xs = load_inputs::<F, T>(x, xbase + first, vals as usize);
            let ghost before = accs@;
            assert(q.n_experts * q.m_out <= 0xffff_ffff * 0xffff_ffff) by (nonlinear_arith)
                requires
                    q.n_experts <= 0xffff_ffff,
                    q.m_out <= 0xffff_ffff,
            ;
            let mut j: usize = 0;
            while j < n
                invariant
                    j <= n,
                    q.n_experts * q.m_out <= 0xffff_ffff * 0xffff_ffff,
                    q.wf(),
                    0 < vals,
                    unit < units,
                    q.k_in % vals == 0,
                    units == q.k_in / vals,
                    w == (Weights { words: words@, scales: scales@, biases: biases@ }),
                    q.fits(w),
                    row0 + n <= q.n_experts * q.m_out,
                    xs@.len() == vals,
                    first == unit * vals,
                    forall|i: int|
                        0 <= i < vals ==> #[trigger] xs@[i] == x@[xbase + first + i].widen_s(),
                    accs@.len() == n,
                    before.len() == n,
                    forall|c: int| j <= c < n ==> #[trigger] accs@[c] == before[c],
                    forall|c: int|
                        0 <= c < j ==> #[trigger] accs@[c] == before[c].add_s(
                            unit_dot::<F, T>(
                                q,
                                w,
                                row0 + c,
                                x@,
                                xbase as int,
                                vals as int,
                                unit as int,
                                vals as nat,
                            ),
                        ),
                decreases n - j,
            {
                let dot = dot_unit::<F, T>(
                    q,
                    words,
                    scales,
                    biases,
                    row0 + j as u64,
                    Ghost(x@),
                    Ghost(xbase as int),
                    &xs,
                    vals,
                    unit,
                );
                let prev = accs[j];
                accs.set(j, prev.add(dot));
                j += 1;
            }
            proof {
                assert forall|c: int| 0 <= c < n implies lane_dots::<F, T>(
                    q,
                    w,
                    row0 + c,
                    x@,
                    xbase as int,
                    vals as int,
                    at + 32,
                    units as int,
                    #[trigger] accs@[c],
                ) == lane_value(c, l as int) by {
                    assert(lane_dots::<F, T>(
                        q,
                        w,
                        row0 + c,
                        x@,
                        xbase as int,
                        vals as int,
                        at as int,
                        units as int,
                        before[c],
                    ) == lane_value(c, l as int));
                }
            }
            at += 32;
        }
        lanes.push(accs);
        l += 1;
    }
    let mut out: Vec<F> = Vec::new();
    let mut j: usize = 0;
    while j < n
        invariant
            j <= n,
            units == q.k_in / vals,
            lane_value == (|j: int, l: int|
                lane_dots::<F, T>(
                    q,
                    w,
                    row0 + j,
                    x@,
                    xbase as int,
                    vals as int,
                    l,
                    units as int,
                    F::zero_s(),
                )),
            lanes@.len() == 32,
            forall|m: int| 0 <= m < 32 ==> (#[trigger] lanes@[m])@.len() == n,
            forall|m: int, j: int|
                0 <= m < 32 && 0 <= j < n ==> #[trigger] lanes@[m]@[j] == lane_value(j, m),
            out@.len() == j,
            forall|c: int|
                0 <= c < j ==> #[trigger] out@[c] == dotted_product::<F, T>(
                    q,
                    w,
                    row0 + c,
                    x@,
                    xbase as int,
                    vals as int,
                ),
        decreases n - j,
    {
        let mut column: Vec<F> = Vec::new();
        let mut m: usize = 0;
        while m < LANES
            invariant
                m <= 32,
                j < n,
                lanes@.len() == 32,
                forall|m: int| 0 <= m < 32 ==> (#[trigger] lanes@[m])@.len() == n,
                forall|m: int, j: int|
                    0 <= m < 32 && 0 <= j < n ==> #[trigger] lanes@[m]@[j] == lane_value(j, m),
                column@.len() == m,
                forall|c: int| 0 <= c < m ==> #[trigger] column@[c] == lane_value(j as int, c),
            decreases 32 - m,
        {
            assert(lanes@[m as int]@[j as int] == lane_value(j as int, m as int));
            column.push(lanes[m][j]);
            m += 1;
        }
        assert(column@ =~= Seq::new(
            32,
            |l: int|
                lane_dots::<F, T>(
                    q,
                    w,
                    row0 + j,
                    x@,
                    xbase as int,
                    vals as int,
                    l,
                    q.k_in as int / vals as int,
                    F::zero_s(),
                ),
        ));
        out.push(F::lane_sum(&column));
        j += 1;
    }
    out
}

} // verus!
