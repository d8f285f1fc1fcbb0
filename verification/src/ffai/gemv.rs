//! A quantised weight row times a vector of accumulators, packs dealt to the
//! threads of a threadgroup in turn.
use vstd::prelude::*;

use super::gather::{bias_of, code, lemma_weight_bounds, scale_of, words_in_row, Quant, Weights};
use crate::num::{Num, Store};
use crate::quant::extract;

verus! {

/// One product: the dequantised weight, times a slot weight where there is
/// one, times the vector element.
pub open spec fn product<F: Num>(slot: Option<F>, weight: F, m: F) -> F {
    match slot {
        None => weight.mul_s(m),
        Some(s) => s.mul_s(weight).mul_s(m),
    }
}

/// `acc` plus the first `n` products of pack `pack` (eight codes).
pub open spec fn pack_fold<F: Num, T: Store<F>>(
    q: Quant,
    w: Weights<T>,
    row: int,
    m: Seq<F>,
    slot: Option<F>,
    pack: int,
    acc: F,
    n: nat,
) -> F
    decreases n,
{
    if n == 0 {
        acc
    } else {
        let k = pack * 8 + (n - 1);
        let g = pack / (q.group_size as int / 8);
        let weight = F::of_u32_s(code(q, w, row, k)).mul_s(scale_of::<F, T>(q, w, row, g)).add_s(
            bias_of::<F, T>(q, w, row, g),
        );
        pack_fold::<F, T>(q, w, row, m, slot, pack, acc, (n - 1) as nat).add_s(
            product(slot, weight, m[k]),
        )
    }
}

/// What a thread has after packs `pack`, `pack + threads`, ..
pub open spec fn thread_fold<F: Num, T: Store<F>>(
    q: Quant,
    w: Weights<T>,
    row: int,
    m: Seq<F>,
    slot: Option<F>,
    pack: int,
    threads: int,
    acc: F,
) -> F
    decreases
            (if pack < q.k_in / 8 {
                q.k_in as int / 8 - pack
            } else {
                0
            }),
{
    if pack >= q.k_in / 8 || threads <= 0 {
        acc
    } else {
        thread_fold::<F, T>(
            q,
            w,
            row,
            m,
            slot,
            pack + threads,
            threads,
            pack_fold::<F, T>(q, w, row, m, slot, pack, acc, 8),
        )
    }
}

/// The group of a pack.
pub proof fn lemma_pack_group(pack: int, gs: int, i: int)
    requires
        0 < gs,
        gs % 8 == 0,
        0 <= pack,
        0 <= i < 8,
    ensures
        gs / 8 > 0,
        pack / (gs / 8) == (pack * 8 + i) / gs,
{
    let m = gs / 8;
    vstd::arithmetic::div_mod::lemma_fundamental_div_mod(pack, m);
    vstd::arithmetic::div_mod::lemma_mod_bound(pack, m);
    let (a, b) = (pack / m, pack % m);
    assert(pack * 8 + i == a * gs + (b * 8 + i)) by (nonlinear_arith)
        requires
            pack == m * a + b,
            gs == 8 * m,
    ;
    crate::index::lemma_row_col(a, b * 8 + i, gs);
}

/// Runs thread `first` over its packs.
pub fn run_thread<F: Num, T: Store<F>>(
    q: Quant,
    words: &[u32],
    scales: &[T],
    biases: &[T],
    row: u64,
    m: &Vec<F>,
    slot: Option<F>,
    first: u32,
    threads: u32,
    acc0: F,
) -> (r: F)
    requires
        q.wf(),
        q.bits == 4,
        q.group_size % 8 == 0,
        q.fits(Weights { words: words@, scales: scales@, biases: biases@ }),
        row < q.n_experts * q.m_out,
        m@.len() == q.k_in,
        0 < threads,
    ensures
        r == thread_fold::<F, T>(
            q,
            (Weights { words: words@, scales: scales@, biases: biases@ }),
            row as int,
            m@,
            slot,
            first as int,
            threads as int,
            acc0,
        ),
{
    let ghost w = Weights { words: words@, scales: scales@, biases: biases@ };
    let w_len: usize = words.len();
    let s_len: usize = scales.len();
    let packs: u32 = q.k_in / 8;
    let mut acc = acc0;
    let mut at: u64 = first as u64;
    while at < packs as u64
        invariant
            q.wf(),
            q.bits == 4,
            q.group_size % 8 == 0,
            packs == q.k_in / 8,
            w == (Weights { words: words@, scales: scales@, biases: biases@ }),
            q.fits(w),
            words@.len() == w_len,
            scales@.len() == s_len,
            row < q.n_experts * q.m_out,
            m@.len() == q.k_in,
            0 < threads,
            at <= packs + threads || at == first,
            thread_fold::<F, T>(
                q,
                w,
                row as int,
                m@,
                slot,
                at as int,
                threads as int,
                acc,
            ) == thread_fold::<F, T>(
                q,
                w,
                row as int,
                m@,
                slot,
                first as int,
                threads as int,
                acc0,
            ),
        decreases
                (if at < packs {
                    packs - at
                } else {
                    0
                }),
    {
        let pack: u32 = at as u32;
        let k0: u32 = pack * 8;
        proof {
            lemma_weight_bounds(q, w, row as int, k0 as int);
            lemma_pack_group(pack as int, q.group_size as int, 0);
        }
        let words_row: usize = words_in_row(q);
        let groups: usize = (q.k_in / q.group_size) as usize;
        let g: usize = (pack / (q.group_size / 8)) as usize;
        let scale = scales[row as usize * groups + g].widen();
        let bias = biases[row as usize * groups + g].widen();
        let ghost before = acc;
        let mut i: u32 = 0;
        while i < 8
            invariant
                i <= 8,
                q.wf(),
                q.bits == 4,
                pack < q.k_in / 8,
                k0 == pack * 8,
                words_row == q.words(),
                w == (Weights { words: words@, scales: scales@, biases: biases@ }),
                q.fits(w),
                words@.len() == w_len,
                row < q.n_experts * q.m_out,
                m@.len() == q.k_in,
                g == pack as int / (q.group_size as int / 8),
                scale == scale_of::<F, T>(q, w, row as int, g as int),
                bias == bias_of::<F, T>(q, w, row as int, g as int),
                acc == pack_fold::<F, T>(
                    q,
                    w,
                    row as int,
                    m@,
                    slot,
                    pack as int,
                    before,
                    i as nat,
                ),
            decreases 8 - i,
        {
            let k: u32 = k0 + i;
            proof {
                lemma_weight_bounds(q, w, row as int, k as int);
            }
            let c: u32 = extract(4, words, row as usize * words_row, k);
            let weight = F::of_u32(c).mul(scale).add(bias);
            let p = match slot {
                None => weight.mul(m[k as usize]),
                Some(s) => s.mul(weight).mul(m[k as usize]),
            };
            acc = acc.add(p);
            i += 1;
        }
        at += threads as u64;
    }
    acc
}

} // verus!
