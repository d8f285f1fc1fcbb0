//! The fused matrix-vector products agree with normalise, dequantise and
//! multiply.
use vstd::prelude::*;

use super::gather::{bias_of, code, scale_of, Quant, Weights};
use super::gemv::{lemma_pack_group, pack_fold, product, thread_fold};
use super::mma::{half_word, nibble_mask, place};
use super::moe_down_swiglu_accum::{gated, slots_fold};
use super::moe_laws::{dequant, lemma_masked_nibble};
use super::norm::{rms_inverse, strided_rms, thread_squares};
use super::rms_norm_qgemv::{
    block_fold, blocks_product, code_sum, code_term, input_sum, normed, threads_product,
    FAST_THREADS,
};
use crate::num::{ExactNum, Num, Store};
use crate::quant::law_nibble_stream;
use crate::sums::{
    lemma_lanes, lemma_range_add, lemma_range_blocks, lemma_range_scale, lemma_range_zero,
    lemma_total_range, lemma_zero_add, range_sum, strided_sum,
};

verus! {

/// Dequantised weight row `row` times `m`, in order.
pub open spec fn weighted_product<F: Num, T: Store<F>>(
    q: Quant,
    w: Weights<T>,
    row: int,
    m: Seq<F>,
) -> F {
    range_sum(|k: int| dequant::<F, T>(q, w, row, k).mul_s(m[k]), 0, q.k_in as int)
}

proof fn lemma_pack_fold<F: ExactNum, T: Store<F>>(
    q: Quant,
    w: Weights<T>,
    row: int,
    m: Seq<F>,
    slot: Option<F>,
    pack: int,
    acc: F,
    n: nat,
    f: spec_fn(int) -> F,
)
    requires
        0 < q.group_size,
        q.group_size % 8 == 0,
        0 <= pack,
        n <= 8,
        forall|k: int|
            #[trigger] f(k) == product(slot, dequant::<F, T>(q, w, row, k), m[k]),
    ensures
        pack_fold::<F, T>(q, w, row, m, slot, pack, acc, n) == acc.add_s(
            range_sum(f, pack * 8, pack * 8 + n),
        ),
    decreases n,
{
    if n == 0 {
        F::add_zero(acc);
    } else {
        lemma_pack_fold::<F, T>(q, w, row, m, slot, pack, acc, (n - 1) as nat, f);
        let k = pack * 8 + (n - 1);
        lemma_pack_group(pack, q.group_size as int, n - 1);
        assert(f(k) == product(slot, dequant::<F, T>(q, w, row, k), m[k]));
        F::add_assoc(acc, range_sum(f, pack * 8, k), f(k));
    }
}

proof fn lemma_thread_fold<F: ExactNum, T: Store<F>>(
    q: Quant,
    w: Weights<T>,
    row: int,
    m: Seq<F>,
    slot: Option<F>,
    pack: int,
    threads: int,
    acc: F,
    f: spec_fn(int) -> F,
    per_pack: spec_fn(int) -> F,
)
    requires
        0 < q.group_size,
        q.group_size % 8 == 0,
        0 <= pack,
        0 < threads,
        forall|k: int|
            #[trigger] f(k) == product(slot, dequant::<F, T>(q, w, row, k), m[k]),
        forall|u: int| #[trigger] per_pack(u) == range_sum(f, u * 8, u * 8 + 8),
    ensures
        thread_fold::<F, T>(q, w, row, m, slot, pack, threads, acc) == acc.add_s(
            strided_sum(per_pack, pack, q.k_in as int / 8, threads),
        ),
    decreases
            (if pack < q.k_in / 8 {
                q.k_in as int / 8 - pack
            } else {
                0
            }),
{
    if pack >= q.k_in / 8 {
        F::add_zero(acc);
    } else {
        lemma_pack_fold::<F, T>(q, w, row, m, slot, pack, acc, 8, f);
        assert(per_pack(pack) == range_sum(f, pack * 8, pack * 8 + 8));
        let next = acc.add_s(per_pack(pack));
        lemma_thread_fold::<F, T>(
            q,
            w,
            row,
            m,
            slot,
            pack + threads,
            threads,
            next,
            f,
            per_pack,
        );
        F::add_assoc(
            acc,
            per_pack(pack),
            strided_sum(per_pack, pack + threads, q.k_in as int / 8, threads),
        );
    }
}

/// Threads that deal the packs among them multiply the whole row, whatever
/// their number.
pub proof fn law_threads_compute_product<F: ExactNum, T: Store<F>>(
    q: Quant,
    w: Weights<T>,
    row: int,
    m: Seq<F>,
    threads: u32,
)
    requires
        q.wf(),
        q.bits == 4,
        q.group_size % 8 == 0,
        0 < threads,
    ensures
        threads_product::<F, T>(q, w, row, m, threads) == weighted_product::<F, T>(q, w, row, m),
{
    let f = |k: int| dequant::<F, T>(q, w, row, k).mul_s(m[k]);
    let per_pack = |u: int| range_sum(f, u * 8, u * 8 + 8);
    let packs = q.k_in as int / 8;
    let parts = Seq::new(
        threads as nat,
        |t: int| thread_fold::<F, T>(q, w, row, m, None, t, threads as int, F::zero_s()),
    );
    let strided = |t: int| strided_sum(per_pack, 0 + t, packs, threads as int);
    assert forall|t: int| 0 <= t < parts.len() implies #[trigger] strided(t) == parts[t] by {
        lemma_thread_fold::<F, T>(
            q,
            w,
            row,
            m,
            None,
            t,
            threads as int,
            F::zero_s(),
            f,
            per_pack,
        );
        lemma_zero_add(strided_sum(per_pack, t, packs, threads as int));
    }
    F::lane_sum_total(parts);
    lemma_total_range(parts, strided);
    lemma_lanes(per_pack, 0, packs, threads as int);
    assert(packs * 8 == q.k_in);
    lemma_range_blocks(per_pack, f, 8, packs);
}

/// A code term of the eight-row kernels is the code times its input.
proof fn lemma_code_term<F: ExactNum, T: Store<F>>(
    q: Quant,
    w: Weights<T>,
    row: int,
    m: Seq<F>,
    k: int,
)
    requires
        0 <= k,
    ensures
        code_term::<F, T>(q, w, row, m, k) == F::of_u32_s(code(q, w, row, k)).mul_s(m[k]),
{
    if q.bits == 4 {
        let word = w.words[row * q.words() + k / 8];
        let j = k % 8;
        let p = j % 4;
        lemma_masked_nibble::<F>(word, j);
        law_nibble_stream(w.words, row * q.words(), k);
        let masked = F::of_u32_s(half_word(word, j) & nibble_mask(p));
        if p != 0 {
            let r = F::recip_u32_s(place(p));
            F::mul_comm(m[k], r);
            F::mul_assoc(masked, r, m[k]);
        }
    }
}

proof fn lemma_block_sums<F: ExactNum, T: Store<F>>(
    q: Quant,
    w: Weights<T>,
    row: int,
    m: Seq<F>,
    xb: int,
    n: nat,
    codes: spec_fn(int) -> F,
    inputs: spec_fn(int) -> F,
)
    requires
        0 <= xb,
        0 < n,
        forall|k: int| #[trigger] codes(k) == F::of_u32_s(code(q, w, row, k)).mul_s(m[k]),
        forall|k: int| #[trigger] inputs(k) == m[k],
    ensures
        code_sum::<F, T>(q, w, row, m, xb, n) == range_sum(codes, xb, xb + n),
        input_sum(m, xb, n) == range_sum(inputs, xb, xb + n),
    decreases n,
{
    reveal_with_fuel(range_sum, 2);
    let k = xb + n - 1;
    lemma_code_term::<F, T>(q, w, row, m, k);
    assert(codes(k) == F::of_u32_s(code(q, w, row, k)).mul_s(m[k]));
    assert(inputs(k) == m[k]);
    if n == 1 {
        lemma_zero_add(codes(k));
        lemma_zero_add(inputs(k));
    } else {
        lemma_block_sums::<F, T>(q, w, row, m, xb, (n - 1) as nat, codes, inputs);
    }
}

/// Scale times code terms plus bias times inputs is the dequantised product of
/// the sixteen elements.
proof fn lemma_block<F: ExactNum, T: Store<F>>(
    q: Quant,
    w: Weights<T>,
    row: int,
    m: Seq<F>,
    u: int,
    f: spec_fn(int) -> F,
)
    requires
        0 <= u,
        0 < q.group_size,
        q.group_size % 16 == 0,
        forall|k: int| #[trigger] f(k) == dequant::<F, T>(q, w, row, k).mul_s(m[k]),
    ensures
        ({
            let g = (u * 16) / q.group_size as int;
            scale_of::<F, T>(q, w, row, g).mul_s(
                code_sum::<F, T>(q, w, row, m, u * 16, 16),
            ).add_s(bias_of::<F, T>(q, w, row, g).mul_s(input_sum(m, u * 16, 16))) == range_sum(
                f,
                u * 16,
                u * 16 + 16,
            )
        }),
{
    let g = (u * 16) / q.group_size as int;
    let (s, b) = (scale_of::<F, T>(q, w, row, g), bias_of::<F, T>(q, w, row, g));
    let codes = |k: int| F::of_u32_s(code(q, w, row, k)).mul_s(m[k]);
    let inputs = |k: int| m[k];
    lemma_block_sums::<F, T>(q, w, row, m, u * 16, 16, codes, inputs);
    let (lo, hi) = (u * 16, u * 16 + 16);
    let scaled = |k: int| codes(k).mul_s(s);
    let biased = |k: int| inputs(k).mul_s(b);
    lemma_range_scale(scaled, codes, s, lo, hi);
    lemma_range_scale(biased, inputs, b, lo, hi);
    F::mul_comm(range_sum(codes, lo, hi), s);
    F::mul_comm(range_sum(inputs, lo, hi), b);
    assert forall|k: int| lo <= k < hi implies #[trigger] f(k) == scaled(k).add_s(biased(k)) by {
        super::moe_laws::lemma_unit_group(u, 16, q.group_size as int, k - lo);
        let c = F::of_u32_s(code(q, w, row, k));
        assert(f(k) == c.mul_s(s).add_s(b).mul_s(m[k]));
        F::distrib(c.mul_s(s), b, m[k]);
        F::mul_assoc(c, s, m[k]);
        F::mul_comm(s, m[k]);
        F::mul_assoc(c, m[k], s);
        F::mul_comm(b, m[k]);
    }
    lemma_range_add(f, scaled, biased, lo, hi);
}

proof fn lemma_block_fold<F: ExactNum, T: Store<F>>(
    q: Quant,
    w: Weights<T>,
    row: int,
    m: Seq<F>,
    lane: int,
    j: int,
    acc: F,
    f: spec_fn(int) -> F,
    per_block: spec_fn(int) -> F,
)
    requires
        0 <= lane < 32,
        0 <= j,
        q.k_in % 512 == 0,
        0 < q.group_size,
        q.group_size % 16 == 0,
        forall|k: int| #[trigger] f(k) == dequant::<F, T>(q, w, row, k).mul_s(m[k]),
        forall|u: int| #[trigger] per_block(u) == range_sum(f, u * 16, u * 16 + 16),
    ensures
        block_fold::<F, T>(q, w, row, m, lane, 512 * j, acc) == acc.add_s(
            strided_sum(per_block, 32 * j + lane, q.k_in as int / 16, 32),
        ),
    decreases
            (if 512 * j < q.k_in {
                q.k_in - 512 * j
            } else {
                0
            }),
{
    let units = q.k_in as int / 16;
    if 512 * j >= q.k_in {
        F::add_zero(acc);
    } else {
        let u = 32 * j + lane;
        assert(u < units);
        lemma_block::<F, T>(q, w, row, m, u, f);
        assert(per_block(u) == range_sum(f, u * 16, u * 16 + 16));
        let g = (u * 16) / q.group_size as int;
        let a = scale_of::<F, T>(q, w, row, g).mul_s(
            code_sum::<F, T>(q, w, row, m, u * 16, 16),
        );
        let b = bias_of::<F, T>(q, w, row, g).mul_s(input_sum(m, u * 16, 16));
        F::add_assoc(acc, a, b);
        let next = acc.add_s(a).add_s(b);
        assert(512 * j + lane * 16 == u * 16);
        lemma_block_fold::<F, T>(q, w, row, m, lane, j + 1, next, f, per_block);
        F::add_assoc(acc, per_block(u), strided_sum(per_block, u + 32, units, 32));
    }
}

/// Lanes that take sixteen elements of every block multiply the whole row.
pub proof fn law_blocks_compute_product<F: ExactNum, T: Store<F>>(
    q: Quant,
    w: Weights<T>,
    row: int,
    m: Seq<F>,
)
    requires
        q.wf(),
        q.k_in % 512 == 0,
        q.group_size % 16 == 0,
    ensures
        blocks_product::<F, T>(q, w, row, m) == weighted_product::<F, T>(q, w, row, m),
{
    let f = |k: int| dequant::<F, T>(q, w, row, k).mul_s(m[k]);
    let per_block = |u: int| range_sum(f, u * 16, u * 16 + 16);
    let units = q.k_in as int / 16;
    let parts = Seq::new(
        32,
        |l: int| block_fold::<F, T>(q, w, row, m, l, 0, F::zero_s()),
    );
    let strided = |l: int| strided_sum(per_block, 0 + l, units, 32);
    assert forall|l: int| 0 <= l < parts.len() implies #[trigger] strided(l) == parts[l] by {
        lemma_block_fold::<F, T>(q, w, row, m, l, 0, F::zero_s(), f, per_block);
        lemma_zero_add(strided_sum(per_block, l, units, 32));
    }
    F::lane_sum_total(parts);
    lemma_total_range(parts, strided);
    lemma_lanes(per_block, 0, units, 32);
    assert(units * 16 == q.k_in);
    lemma_range_blocks(per_block, f, 16, units);
}

proof fn lemma_thread_squares<F: ExactNum, T: Store<F>>(
    x: Seq<T>,
    n: int,
    d: int,
    threads: int,
    acc: F,
    f: spec_fn(int) -> F,
)
    requires
        0 < threads,
        forall|i: int| #[trigger] f(i) == x[i].widen_s().mul_s(x[i].widen_s()),
    ensures
        thread_squares::<F, T>(x, n, d, threads, acc) == acc.add_s(strided_sum(f, d, n, threads)),
    decreases
            (if d < n {
                n - d
            } else {
                0
            }),
{
    if d >= n {
        F::add_zero(acc);
    } else {
        let v = f(d);
        lemma_thread_squares::<F, T>(x, n, d + threads, threads, acc.add_s(v), f);
        F::add_assoc(acc, v, strided_sum(f, d + threads, n, threads));
    }
}

/// The normalisation factor is one over the root of the mean square plus
/// `eps`, whatever the number of threads that summed it.
pub proof fn law_rms_is_mean_square<F: ExactNum, T: Store<F>>(
    x: Seq<T>,
    n: u32,
    threads: u32,
    eps: F,
)
    requires
        0 < threads,
    ensures
        strided_rms::<F, T>(x, n, threads, eps) == range_sum(
            |i: int| x[i].widen_s().mul_s(x[i].widen_s()),
            0,
            n as int,
        ).div_s(F::of_u32_s(n)).add_s(eps).rsqrt_s(),
{
    let f = |i: int| x[i].widen_s().mul_s(x[i].widen_s());
    let parts = Seq::new(
        threads as nat,
        |t: int| thread_squares::<F, T>(x, n as int, t, threads as int, F::zero_s()),
    );
    let strided = |t: int| strided_sum(f, 0 + t, n as int, threads as int);
    assert forall|t: int| 0 <= t < parts.len() implies #[trigger] strided(t) == parts[t] by {
        lemma_thread_squares::<F, T>(x, n as int, t, threads as int, F::zero_s(), f);
        lemma_zero_add(strided_sum(f, t, n as int, threads as int));
    }
    F::lane_sum_total(parts);
    lemma_total_range(parts, strided);
    lemma_lanes(f, 0, n as int, threads as int);
    assert(rms_inverse(parts, eps, n) == strided_rms::<F, T>(x, n, threads, eps));
}

/// The eight-row four-bit kernel computes what the one-row kernel computes,
/// whatever the number of threads of the latter.
pub proof fn law_fast_matches_plain<F: ExactNum, T: Store<F>>(
    q: Quant,
    w: Weights<T>,
    row: int,
    x: Seq<T>,
    norm_weight: Seq<T>,
    eps: F,
    threads: u32,
)
    requires
        q.wf(),
        q.bits == 4,
        q.k_in % 512 == 0,
        q.group_size % 16 == 0,
        0 < threads,
    ensures
        blocks_product::<F, T>(
            q,
            w,
            row,
            normed::<F, T>(
                x,
                norm_weight,
                strided_rms::<F, T>(x, q.k_in, FAST_THREADS, eps),
                q.k_in,
            ),
        ) == threads_product::<F, T>(
            q,
            w,
            row,
            normed::<F, T>(x, norm_weight, strided_rms::<F, T>(x, q.k_in, threads, eps), q.k_in),
            threads,
        ),
{
    law_rms_is_mean_square::<F, T>(x, q.k_in, FAST_THREADS, eps);
    law_rms_is_mean_square::<F, T>(x, q.k_in, threads, eps);
    let m = normed::<F, T>(
        x,
        norm_weight,
        strided_rms::<F, T>(x, q.k_in, threads, eps),
        q.k_in,
    );
    law_blocks_compute_product::<F, T>(q, w, row, m);
    law_threads_compute_product::<F, T>(q, w, row, m, threads);
}

/// Sum over the first `n` slots of slot weight times weight row times gated
/// activation.
pub open spec fn slots_product<F: Num, T: Store<F>>(
    q: Quant,
    w: Weights<T>,
    gates: Seq<Vec<T>>,
    ups: Seq<Vec<T>>,
    experts: Seq<u32>,
    slot_weights: Seq<T>,
    row: int,
    n: int,
) -> F {
    range_sum(
        |s: int|
            slot_weights[s].widen_s().mul_s(
                weighted_product::<F, T>(
                    q,
                    w,
                    experts[s] * q.m_out + row,
                    gated::<F, T>(gates[s]@, ups[s]@, q.k_in),
                ),
            ),
        0,
        n,
    )
}

pub proof fn lemma_slots<F: ExactNum, T: Store<F>>(
    q: Quant,
    w: Weights<T>,
    gates: Seq<Vec<T>>,
    ups: Seq<Vec<T>>,
    experts: Seq<u32>,
    slot_weights: Seq<T>,
    row: int,
    threads: int,
    n: nat,
)
    requires
        q.wf(),
        q.bits == 4,
        q.group_size % 8 == 0,
        0 < threads,
    ensures
        range_sum(
            |t: int|
                slots_fold::<F, T>(
                    q,
                    w,
                    gates,
                    ups,
                    experts,
                    slot_weights,
                    row,
                    t,
                    threads,
                    n,
                ),
            0,
            threads,
        ) == slots_product::<F, T>(q, w, gates, ups, experts, slot_weights, row, n as int),
    decreases n,
{
    let all = |t: int|
        slots_fold::<F, T>(q, w, gates, ups, experts, slot_weights, row, t, threads, n);
    if n == 0 {
        lemma_range_zero(all, 0, threads);
    } else {
        let s = n - 1;
        lemma_slots::<F, T>(
            q,
            w,
            gates,
            ups,
            experts,
            slot_weights,
            row,
            threads,
            (n - 1) as nat,
        );
        let prev = |t: int|
            slots_fold::<F, T>(
                q,
                w,
                gates,
                ups,
                experts,
                slot_weights,
                row,
                t,
                threads,
                (n - 1) as nat,
            );
        let sw = slot_weights[s].widen_s();
        let wrow = experts[s] * q.m_out + row;
        let m = gated::<F, T>(gates[s]@, ups[s]@, q.k_in);
        let f = |k: int| product(Some(sw), dequant::<F, T>(q, w, wrow, k), m[k]);
        let per_pack = |u: int| range_sum(f, u * 8, u * 8 + 8);
        let packs = q.k_in as int / 8;
        let strided = |t: int| strided_sum(per_pack, 0 + t, packs, threads);
        assert forall|t: int| 0 <= t < threads implies #[trigger] all(t) == prev(t).add_s(
            strided(t),
        ) by {
            lemma_thread_fold::<F, T>(
                q,
                w,
                wrow,
                m,
                Some(sw),
                t,
                threads,
                prev(t),
                f,
                per_pack,
            );
        }
        lemma_range_add(all, prev, strided, 0, threads);
        lemma_lanes(per_pack, 0, packs, threads);
        assert(packs * 8 == q.k_in);
        lemma_range_blocks(per_pack, f, 8, packs);
        let plain = |k: int| dequant::<F, T>(q, w, wrow, k).mul_s(m[k]);
        assert forall|k: int| 0 <= k < q.k_in implies #[trigger] f(k) == plain(k).mul_s(sw) by {
            let v = dequant::<F, T>(q, w, wrow, k);
            F::mul_assoc(sw, v, m[k]);
            F::mul_comm(sw, v.mul_s(m[k]));
        }
        lemma_range_scale(f, plain, sw, 0, q.k_in as int);
        F::mul_comm(range_sum(plain, 0, q.k_in as int), sw);
        let term = |s: int|
            slot_weights[s].widen_s().mul_s(
                weighted_product::<F, T>(
                    q,
                    w,
                    experts[s] * q.m_out + row,
                    gated::<F, T>(gates[s]@, ups[s]@, q.k_in),
                ),
            );
        assert(range_sum(f, 0, q.k_in as int) == term(s));
    }
}

/// The fused chain adds up, over the slots, the slot weight times the expert's
/// dequantised row times the gated activation.
pub proof fn law_chain_sums_slots<F: ExactNum, T: Store<F>>(
    q: Quant,
    w: Weights<T>,
    gates: Seq<Vec<T>>,
    ups: Seq<Vec<T>>,
    experts: Seq<u32>,
    slot_weights: Seq<T>,
    row: int,
    threads: u32,
)
    requires
        q.wf(),
        q.bits == 4,
        q.group_size % 8 == 0,
        0 < threads,
    ensures
        F::lane_sum_s(
            Seq::new(
                threads as nat,
                |t: int|
                    slots_fold::<F, T>(
                        q,
                        w,
                        gates,
                        ups,
                        experts,
                        slot_weights,
                        row,
                        t,
                        threads as int,
                        8,
                    ),
            ),
        ) == slots_product::<F, T>(q, w, gates, ups, experts, slot_weights, row, 8),
{
    let all = |t: int|
        slots_fold::<F, T>(
            q,
            w,
            gates,
            ups,
            experts,
            slot_weights,
            row,
            t,
            threads as int,
            8,
        );
    let parts = Seq::new(
        threads as nat,
        |t: int|
            slots_fold::<F, T>(
                q,
                w,
                gates,
                ups,
                experts,
                slot_weights,
                row,
                t,
                threads as int,
                8,
            ),
    );
    F::lane_sum_total(parts);
    lemma_total_range(parts, all);
    lemma_slots::<F, T>(
        q,
        w,
        gates,
        ups,
        experts,
        slot_weights,
        row,
        threads as int,
        8,
    );
}

} // verus!
