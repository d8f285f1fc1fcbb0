//! Tiled expert matmul: a threadgroup multiplies a tile of input rows by a
//! tile of weight rows, one run of rows with a common expert at a time.
use vstd::prelude::*;

use super::gather::{bias_of, code, lemma_weight_bounds, scale_of, words_in_row, Quant, Weights};
use crate::index::{lemma_index_row, lemma_mul_le, lemma_row, lemma_row_col};
use crate::num::{Num, Store};
use crate::quant::{extract, law_code_range};

verus! {

/// Expert index of a row that no expert takes.
pub const NO_EXPERT: u32 = 0xffff_ffff;

/// How a kernel tiles and stages its operands.
#[derive(Clone, Copy)]
pub struct Tiling {
    /// Rows of a tile.
    pub bm: u32,
    /// Columns of a tile.
    pub bn: u32,
    /// Inner elements staged at a time.
    pub bk: u32,
    /// Inner elements that the matrix unit takes per step.
    pub slice: u32,
    /// Codes dequantised with one scale and bias.
    pub unit: u32,
    /// Four-bit codes are masked out of their word without a shift.
    pub masked: bool,
    /// Codes are bytes in two's complement.
    pub signed: bool,
    /// Inputs are multiplied by a zero-one mask.
    pub multiplied: bool,
    /// Operands are staged for a cooperative tile.
    pub staged: bool,
}

impl Tiling {
    /// The tile has a size that its threads can store.
    pub open spec fn shape_wf(self) -> bool {
        &&& 0 < self.bm <= 64
        &&& 0 < self.bn <= 64
        &&& !self.staged ==> self.bm % 16 == 0 && self.bm <= 32 && self.bn == 32
    }

    pub open spec fn wf(self, q: Quant) -> bool {
        &&& self.shape_wf()
        &&& 0 < self.slice
        &&& 0 < self.bk
        &&& self.bk % self.slice == 0
        &&& q.k_in % self.bk == 0
        &&& 0 < self.unit
        &&& q.m_out % self.bn == 0
        &&& self.masked ==> q.bits == 4
        &&& self.signed ==> q.bits == 8
    }
}

/// Tiling of the kernels that keep their tile in eight-by-eight fragments.
pub open spec fn fragment_tiling(bm: u32, unit: u32, masked: bool, multiplied: bool) -> Tiling {
    Tiling {
        bm,
        bn: 32,
        bk: 32,
        slice: 8,
        unit,
        masked,
        signed: false,
        multiplied,
        staged: false,
    }
}

/// The same over signed bytes.
pub open spec fn signed_tiling(bm: u32, unit: u32) -> Tiling {
    Tiling { signed: true, ..fragment_tiling(bm, unit, false, false) }
}

/// Tiling of the kernels that run a cooperative tile.
pub open spec fn coop_tiling(bm: u32, bn: u32, bk: u32, unit: u32) -> Tiling {
    Tiling {
        bm,
        bn,
        bk,
        slice: bk,
        unit,
        masked: false,
        signed: false,
        multiplied: false,
        staged: true,
    }
}

/// An input element as the matrix unit sees it.
pub open spec fn input_operand<F: Num, T: Store<F>>(t: Tiling, x: T) -> F {
    if t.staged {
        T::stage_s(x.widen_s())
    } else if t.multiplied {
        T::narrow_s(x.widen_s().mul_s(T::narrow_s(F::one_s()).widen_s())).widen_s()
    } else {
        x.widen_s()
    }
}

/// Place value of nibble `p` of a half word.
pub open spec fn place(p: int) -> u32 {
    if p == 1 {
        16
    } else if p == 2 {
        256
    } else {
        4096
    }
}

/// Bits of nibble `p` of a half word.
pub open spec fn nibble_mask(p: int) -> u32 {
    if p == 0 {
        15
    } else if p == 1 {
        240
    } else if p == 2 {
        3840
    } else {
        61440
    }
}

/// The half word that holds nibble `j` in its low sixteen bits.
pub open spec fn half_word(word: u32, j: int) -> u32 {
    if j < 4 {
        word
    } else {
        word >> 16u32
    }
}

/// Value of nibble `j` of a word, masked in place and rescaled.
pub open spec fn masked_nibble<F: Num>(word: u32, j: int) -> F {
    let p = j % 4;
    let masked = F::of_u32_s(half_word(word, j) & nibble_mask(p));
    if p == 0 {
        masked
    } else {
        masked.mul_s(F::recip_u32_s(place(p)))
    }
}

/// The number that a byte stands for in two's complement.
pub open spec fn signed_byte<F: Num>(b: u32) -> F {
    if b < 128 {
        F::of_u32_s(b)
    } else {
        F::of_u32_s((256 - b) as u32).neg_s()
    }
}

/// Computes [`signed_byte`].
fn get_signed_byte<F: Num>(b: u32) -> (r: F)
    requires
        b < 256,
    ensures
        r == signed_byte::<F>(b),
{
    if b < 128 {
        F::of_u32(b)
    } else {
        F::of_u32(256 - b).neg()
    }
}

/// Code `k` of weight row `row` as a number.
pub open spec fn code_value<F: Num, T: Store<F>>(
    t: Tiling,
    q: Quant,
    w: Weights<T>,
    row: int,
    k: int,
) -> F {
    if t.masked {
        masked_nibble(w.words[row * q.words() + k / 8], k % 8)
    } else if t.signed {
        signed_byte(code(q, w, row, k))
    } else {
        F::of_u32_s(code(q, w, row, k))
    }
}

/// A dequantised weight as the matrix unit sees it.
pub open spec fn weight_operand<F: Num, T: Store<F>>(
    t: Tiling,
    q: Quant,
    w: Weights<T>,
    row: int,
    k: int,
) -> F {
    let g = ((k / t.unit as int) * t.unit) / q.group_size as int;
    let v = scale_of::<F, T>(q, w, row, g).mul_s(code_value::<F, T>(t, q, w, row, k)).add_s(
        bias_of::<F, T>(q, w, row, g),
    );
    if t.staged {
        T::stage_s(v)
    } else {
        T::narrow_s(v).widen_s()
    }
}

/// The accumulator after `n` steps of the matrix unit.
pub open spec fn slice_fold<F: Num>(a: Seq<F>, b: Seq<F>, slice: int, n: nat) -> F
    decreases n,
{
    if n == 0 {
        F::zero_s()
    } else {
        F::dot_acc_s(
            slice_fold(a, b, slice, (n - 1) as nat),
            a.subrange((n - 1) * slice, (n - 1) * slice + slice),
            b.subrange((n - 1) * slice, (n - 1) * slice + slice),
        )
    }
}

/// Operands of input row `r`.
pub open spec fn input_row<F: Num, T: Store<F>>(t: Tiling, q: Quant, x: Seq<T>, r: int) -> Seq<F> {
    Seq::new(q.k_in as nat, |k: int| input_operand::<F, T>(t, x[r * q.k_in + k]))
}

/// Operands of weight row `row`.
pub open spec fn weight_operands<F: Num, T: Store<F>>(
    t: Tiling,
    q: Quant,
    w: Weights<T>,
    row: int,
) -> Seq<F> {
    Seq::new(q.k_in as nat, |k: int| weight_operand::<F, T>(t, q, w, row, k))
}

/// Input row `r` times column `c` of expert `e`.
pub open spec fn tile_value<F: Num, T: Store<F>>(
    t: Tiling,
    q: Quant,
    w: Weights<T>,
    x: Seq<T>,
    e: int,
    r: int,
    c: int,
) -> F {
    slice_fold(
        input_row::<F, T>(t, q, x, r),
        weight_operands::<F, T>(t, q, w, e * q.m_out + c),
        t.slice as int,
        (q.k_in / t.slice) as nat,
    )
}

/// Output element `i` after the matmul: rows without an expert keep theirs.
pub open spec fn routed<F: Num, T: Store<F>>(
    t: Tiling,
    q: Quant,
    w: Weights<T>,
    x: Seq<T>,
    indices: Seq<u32>,
    old_out: Seq<T>,
    i: int,
) -> T {
    let r = i / q.m_out as int;
    if indices[r] == NO_EXPERT {
        old_out[i]
    } else {
        T::narrow_s(
            tile_value::<F, T>(t, q, w, x, indices[r] as int, r, i % q.m_out as int),
        )
    }
}

/// Finds the end of the run of equal experts that starts at row `s` of the
/// `limit` rows behind `base`.
pub fn run_end(indices: &[u32], base: u32, s: u32, limit: u32) -> (e: u32)
    requires
        s < limit,
        base + limit <= indices@.len(),
        base + limit <= 0xffff_ffff,
    ensures
        s < e <= limit,
        forall|p: int| base + s <= p < base + e ==> #[trigger] indices@[p] == indices@[base + s],
        e < limit ==> indices@[base + e] != indices@[base + s],
{
    let cur_expert: u32 = indices[(base + s) as usize];
    let mut probe: u32 = s + 1;
    while probe < limit
        invariant
            s < probe <= limit,
            base + limit <= indices@.len(),
            base + limit <= 0xffff_ffff,
            cur_expert == indices@[base + s],
            forall|p: int| base + s <= p < base + probe ==> #[trigger] indices@[p] == cur_expert,
        decreases limit - probe,
    {
        if indices[(base + probe) as usize] != cur_expert {
            return probe;
        }
        probe += 1;
    }
    limit
}

/// Row and column of the `n`-th store of a threadgroup that keeps its tile in
/// eight-by-eight fragments: thread `n / 8` of the group holds two elements of
/// each of four fragments.
pub open spec fn fragment_cell(n: u32) -> (u32, u32) {
    let lane = (n >> 3u32) & 31;
    let sg = n >> 8u32;
    let frag = (n >> 1u32) & 3;
    let qid = lane >> 2u32;
    let fm = (qid & 4) | ((lane >> 1u32) & 3);
    let fn0 = ((qid & 2) << 1u32) | ((lane & 1) << 1u32);
    (
        ((sg >> 1u32) << 4u32) | ((frag >> 1u32) << 3u32) | fm,
        ((sg & 1) << 4u32) | ((frag & 1) << 3u32) | fn0 | (n & 1),
    )
}

/// The store that covers a cell.
pub open spec fn fragment_index(row: u32, col: u32) -> u32 {
    let lane = ((row & 4) << 2u32) | ((col & 4) << 1u32) | ((row & 3) << 1u32) | ((col >> 1u32) & 1);
    let sg = ((row >> 4u32) << 1u32) | ((col >> 4u32) & 1);
    let frag = (((row >> 3u32) & 1) << 1u32) | ((col >> 3u32) & 1);
    (sg << 8u32) | (lane << 3u32) | (frag << 1u32) | (col & 1)
}

/// The fragments of a threadgroup cover every cell of its tile exactly once.
pub proof fn law_fragments_cover_tile(n: u32, row: u32, col: u32)
    requires
        n < 1024,
        row < 32,
        col < 32,
    ensures
        fragment_index(fragment_cell(n).0, fragment_cell(n).1) == n,
        fragment_cell(n).0 < 32,
        fragment_cell(n).1 < 32,
        n < 512 ==> fragment_cell(n).0 < 16,
        fragment_cell(fragment_index(row, col)) == (row, col),
        fragment_index(row, col) < 1024,
        row < 16 ==> fragment_index(row, col) < 512,
{
    let lane = (n >> 3u32) & 31;
    let sg = n >> 8u32;
    let frag = (n >> 1u32) & 3;
    let qid = lane >> 2u32;
    let fm = (qid & 4) | ((lane >> 1u32) & 3);
    let fn0 = ((qid & 2) << 1u32) | ((lane & 1) << 1u32);
    let cr = ((sg >> 1u32) << 4u32) | ((frag >> 1u32) << 3u32) | fm;
    let cc = ((sg & 1) << 4u32) | ((frag & 1) << 3u32) | fn0 | (n & 1);
    assert((((((cr >> 4u32) << 1u32) | ((cc >> 4u32) & 1)) << 8u32) | ((((cr & 4) << 2u32) | ((cc
        & 4) << 1u32) | ((cr & 3) << 1u32) | ((cc >> 1u32) & 1)) << 3u32) | (((((cr >> 3u32) & 1)
        << 1u32) | ((cc >> 3u32) & 1)) << 1u32) | (cc & 1)) == n && cr < 32 && cc < 32 && (n < 512
        ==> cr < 16)) by (bit_vector)
        requires
            n < 1024,
            lane == (n >> 3u32) & 31,
            sg == n >> 8u32,
            frag == (n >> 1u32) & 3,
            qid == lane >> 2u32,
            fm == (qid & 4) | ((lane >> 1u32) & 3),
            fn0 == ((qid & 2) << 1u32) | ((lane & 1) << 1u32),
            cr == ((sg >> 1u32) << 4u32) | ((frag >> 1u32) << 3u32) | fm,
            cc == ((sg & 1) << 4u32) | ((frag & 1) << 3u32) | fn0 | (n & 1),
    ;
    let il = ((row & 4) << 2u32) | ((col & 4) << 1u32) | ((row & 3) << 1u32) | ((col >> 1u32) & 1);
    let is = ((row >> 4u32) << 1u32) | ((col >> 4u32) & 1);
    let ig = (((row >> 3u32) & 1) << 1u32) | ((col >> 3u32) & 1);
    let m = (is << 8u32) | (il << 3u32) | (ig << 1u32) | (col & 1);
    let l2 = (m >> 3u32) & 31;
    let s2 = m >> 8u32;
    let g2 = (m >> 1u32) & 3;
    let q2 = l2 >> 2u32;
    assert((((s2 >> 1u32) << 4u32) | ((g2 >> 1u32) << 3u32) | ((q2 & 4) | ((l2 >> 1u32) & 3))) == row
        && (((s2 & 1) << 4u32) | ((g2 & 1) << 3u32) | (((q2 & 2) << 1u32) | ((l2 & 1) << 1u32)) | (m
        & 1)) == col && m < 1024 && (row < 16 ==> m < 512)) by (bit_vector)
        requires
            row < 32,
            col < 32,
            il == ((row & 4) << 2u32) | ((col & 4) << 1u32) | ((row & 3) << 1u32) | ((col >> 1u32)
                & 1),
            is == ((row >> 4u32) << 1u32) | ((col >> 4u32) & 1),
            ig == (((row >> 3u32) & 1) << 1u32) | ((col >> 3u32) & 1),
            m == (is << 8u32) | (il << 3u32) | (ig << 1u32) | (col & 1),
            l2 == (m >> 3u32) & 31,
            s2 == m >> 8u32,
            g2 == (m >> 1u32) & 3,
            q2 == l2 >> 2u32,
    ;
}

/// Cell of the `n`-th store of a tile: in fragments, or row by row for a
/// cooperative tile.
pub open spec fn cell(t: Tiling, n: int) -> (int, int) {
    if t.staged {
        (n / t.bn as int, n % t.bn as int)
    } else {
        let c = fragment_cell(n as u32);
        (c.0 as int, c.1 as int)
    }
}

/// The store of a tile that covers a cell.
pub open spec fn cell_index(t: Tiling, row: int, col: int) -> int {
    if t.staged {
        row * t.bn + col
    } else {
        fragment_index(row as u32, col as u32) as int
    }
}

proof fn lemma_cell(t: Tiling, n: int)
    requires
        t.shape_wf(),
        0 <= n < t.bm * t.bn,
    ensures
        0 <= cell(t, n).0 < t.bm,
        0 <= cell(t, n).1 < t.bn,
        cell_index(t, cell(t, n).0, cell(t, n).1) == n,
{
    if t.staged {
        lemma_index_row(n, t.bm as int, t.bn as int);
    } else {
        assert(t.bm * t.bn <= 1024) by (nonlinear_arith)
            requires
                t.bm <= 32,
                t.bn == 32,
        ;
        assert(t.bm == 16 || t.bm == 32);
        law_fragments_cover_tile(n as u32, 0, 0);
    }
}

proof fn lemma_cell_index(t: Tiling, row: int, col: int)
    requires
        t.shape_wf(),
        0 <= row < t.bm,
        0 <= col < t.bn,
    ensures
        0 <= cell_index(t, row, col) < t.bm * t.bn,
        cell(t, cell_index(t, row, col)) == (row, col),
{
    if t.staged {
        lemma_row(row, t.bm as int, t.bn as int);
        lemma_row_col(row, col, t.bn as int);
    } else {
        assert(t.bm == 16 || t.bm == 32);
        law_fragments_cover_tile(0, row as u32, col as u32);
    }
}

/// Computes the cell of a store.
fn get_cell(t: Tiling, n: u32) -> (c: (u32, u32))
    requires
        0 < t.bn,
    ensures
        (c.0 as int, c.1 as int) == cell(t, n as int),
{
    if t.staged {
        (n / t.bn, n % t.bn)
    } else {
        let lane: u32 = (n >> 3u32) & 31;
        let sg: u32 = n >> 8u32;
        let frag: u32 = (n >> 1u32) & 3;
        let qid: u32 = lane >> 2u32;
        let fm: u32 = (qid & 4) | ((lane >> 1u32) & 3);
        let fn0: u32 = ((qid & 2) << 1u32) | ((lane & 1) << 1u32);
        (
            ((sg >> 1u32) << 4u32) | ((frag >> 1u32) << 3u32) | fm,
            ((sg & 1) << 4u32) | ((frag & 1) << 3u32) | fn0 | (n & 1),
        )
    }
}

/// Reads a four-bit code by masking it in place.
fn read_masked<F: Num>(word: u32, j: u32) -> (r: F)
    requires
        j < 8,
    ensures
        r == masked_nibble::<F>(word, j as int),
{
    let half: u32 = if j < 4 {
        word
    } else {
        word >> 16u32
    };
    let p: u32 = j % 4;
    if p == 0 {
        F::of_u32(half & 15)
    } else if p == 1 {
        F::of_u32(half & 240).mul(F::recip_u32(16))
    } else if p == 2 {
        F::of_u32(half & 3840).mul(F::recip_u32(256))
    } else {
        F::of_u32(half & 61440).mul(F::recip_u32(4096))
    }
}

/// Dequantises and stages one weight row.
fn stage_weight_row<F: Num, T: Store<F>>(
    t: Tiling,
    q: Quant,
    words: &[u32],
    scales: &[T],
    biases: &[T],
    row: u64,
) -> (r: Vec<F>)
    requires
        q.wf(),
        t.wf(q),
        q.fits(Weights { words: words@, scales: scales@, biases: biases@ }),
        row < q.n_experts * q.m_out,
    ensures
        r@ == weight_operands::<F, T>(
            t,
            q,
            (Weights { words: words@, scales: scales@, biases: biases@ }),
            row as int,
        ),
{
    let ghost w = Weights { words: words@, scales: scales@, biases: biases@ };
    let ghost full = weight_operands::<F, T>(t, q, w, row as int);
    let w_len: usize = words.len();
    let s_len: usize = scales.len();
    let mut out: Vec<F> = Vec::new();
    let mut k: u32 = 0;
    while k < q.k_in
        invariant
            k <= q.k_in,
            q.wf(),
            t.wf(q),
            w == (Weights { words: words@, scales: scales@, biases: biases@ }),
            q.fits(w),
            words@.len() == w_len,
            scales@.len() == s_len,
            row < q.n_experts * q.m_out,
            full == weight_operands::<F, T>(t, q, w, row as int),
            out@ == full.take(k as int),
        decreases q.k_in - k,
    {
        proof {
            lemma_weight_bounds(q, w, row as int, k as int);
            vstd::arithmetic::div_mod::lemma_fundamental_div_mod(k as int, t.unit as int);
            vstd::arithmetic::div_mod::lemma_mod_bound(k as int, t.unit as int);
            vstd::arithmetic::div_mod::lemma_div_pos_is_pos(k as int, t.unit as int);
            let u = k as int / t.unit as int;
            assert(t.unit * u == u * t.unit) by (nonlinear_arith);
            lemma_mul_le(0, u, 0, t.unit as int);
            lemma_weight_bounds(q, w, row as int, u * t.unit);
        }
        let words_row: usize = words_in_row(q);
        let groups: usize = (q.k_in / q.group_size) as usize;
        let g: usize = ((k / t.unit) * t.unit / q.group_size) as usize;
        let scale = scales[row as usize * groups + g].widen();
        let bias = biases[row as usize * groups + g].widen();
        let value: F = if t.masked {
            assert((k * 4) / 32 == k / 8);
            read_masked(words[row as usize * words_row + (k / 8) as usize], k % 8)
        } else {
            let c: u32 = extract(q.bits, words, row as usize * words_row, k);
            if t.signed {
                proof {
                    law_code_range(q.bits, words@, row * words_row, k as int);
                    assert(1u32 << 8u32 == 256u32) by (bit_vector);
                }
                get_signed_byte(c)
            } else {
                F::of_u32(c)
            }
        };
        let v = scale.mul(value).add(bias);
        let operand = if t.staged {
            T::stage(v)
        } else {
            T::narrow(v).widen()
        };
        out.push(operand);
        assert(out@ =~= full.take(k + 1));
        k += 1;
    }
    assert(out@ =~= full);
    out
}

/// Stages one input row.
fn stage_input_row<F: Num, T: Store<F>>(t: Tiling, q: Quant, x: &[T], r: u32, m_total: u32) -> (row:
    Vec<F>)
    requires
        r < m_total,
        m_total * q.k_in <= x@.len(),
    ensures
        row@ == input_row::<F, T>(t, q, x@, r as int),
{
    let x_len: usize = x.len();
    let ghost full = input_row::<F, T>(t, q, x@, r as int);
    proof {
        lemma_row(r as int, m_total as int, q.k_in as int);
    }
    let base: usize = r as usize * q.k_in as usize;
    let mut out: Vec<F> = Vec::new();
    let mut k: u32 = 0;
    while k < q.k_in
        invariant
            k <= q.k_in,
            base == r * q.k_in,
            base + q.k_in <= x@.len() == x_len,
            full == input_row::<F, T>(t, q, x@, r as int),
            out@ == full.take(k as int),
        decreases q.k_in - k,
    {
        let v = x[base + k as usize];
        let operand = if t.staged {
            T::stage(v.widen())
        } else if t.multiplied {
            T::narrow(v.widen().mul(T::narrow(F::one()).widen())).widen()
        } else {
            v.widen()
        };
        out.push(operand);
        assert(out@ =~= full.take(k + 1));
        k += 1;
    }
    assert(out@ =~= full);
    out
}

/// Copies a slice of operands.
fn copy_slice<F: Num>(a: &Vec<F>, first: usize, n: usize) -> (r: Vec<F>)
    requires
        first + n <= a@.len(),
    ensures
        r@ == a@.subrange(first as int, first + n),
{
    let a_len: usize = a.len();
    let mut out: Vec<F> = Vec::new();
    let mut i: usize = 0;
    while i < n
        invariant
            i <= n,
            first + n <= a@.len() == a_len,
            out@ == a@.subrange(first as int, first + i),
        decreases n - i,
    {
        out.push(a[first + i]);
        i += 1;
        assert(out@ =~= a@.subrange(first as int, first + i));
    }
    out
}

/// Runs the matrix unit over all slices of two operand rows.
pub fn slice_product<F: Num>(a: &Vec<F>, b: &Vec<F>, slice: u32, k_in: u32) -> (r: F)
    requires
        0 < slice,
        k_in % slice == 0,
        a@.len() == k_in,
        b@.len() == k_in,
    ensures
        r == slice_fold(a@, b@, slice as int, (k_in / slice) as nat),
{
    let steps: u32 = k_in / slice;
    proof {
        vstd::arithmetic::div_mod::lemma_fundamental_div_mod(k_in as int, slice as int);
        assert(slice * steps == steps * slice) by (nonlinear_arith);
    }
    let mut acc = F::zero();
    let mut n: u32 = 0;
    while n < steps
        invariant
            n <= steps,
            steps * slice == k_in,
            a@.len() == k_in,
            b@.len() == k_in,
            acc == slice_fold(a@, b@, slice as int, n as nat),
        decreases steps - n,
    {
        proof {
            lemma_row(n as int, steps as int, slice as int);
        }
        let first: usize = (n * slice) as usize;
        let sa = copy_slice(a, first, slice as usize);
        let sb = copy_slice(b, first, slice as usize);
        acc = F::dot_acc(acc, &sa, &sb);
        n += 1;
    }
    acc
}

/// Multiplies the rows `s .. e` of a tile, which share expert `expert`, by the
/// tile's columns and stores them.
fn process_run<F: Num, T: Store<F>>(
    t: Tiling,
    q: Quant,
    x: &[T],
    words: &[u32],
    scales: &[T],
    biases: &[T],
    out: &mut Vec<T>,
    m_total: u32,
    m_base: u32,
    n_base: u32,
    s: u32,
    e: u32,
    expert: u32,
)
    requires
        q.wf(),
        t.wf(q),
        q.fits(Weights { words: words@, scales: scales@, biases: biases@ }),
        s < e <= t.bm,
        m_base + e <= m_total,
        n_base + t.bn <= q.m_out,
        expert < q.n_experts,
        m_total * q.k_in <= x@.len(),
        m_total * q.m_out <= old(out)@.len(),
    ensures
        final(out)@.len() == old(out)@.len(),
        forall|r: int, c: int|
            0 <= r < m_total && 0 <= c < q.m_out ==> #[trigger] final(out)@[r * q.m_out + c] == (if m_base
                + s <= r < m_base + e && n_base <= c < n_base + t.bn {
                T::narrow_s(
                    tile_value::<F, T>(
                        t,
                        q,
                        (Weights { words: words@, scales: scales@, biases: biases@ }),
                        x@,
                        expert as int,
                        r,
                        c,
                    ),
                )
            } else {
                old(out)@[r * q.m_out + c]
            }),
        forall|i: int|
            m_total * q.m_out <= i < old(out)@.len() ==> #[trigger] final(out)@[i] == old(out)@[i],
{
    let ghost w = Weights { words: words@, scales: scales@, biases: biases@ };
    let ghost before = out@;
    let n_out: u32 = q.m_out;
    proof {
        lemma_row(expert as int, q.n_experts as int, q.m_out as int);
        assert(q.n_experts * q.m_out <= 0xffff_ffff * 0xffff_ffff) by (nonlinear_arith)
            requires
                q.n_experts <= 0xffff_ffff,
                q.m_out <= 0xffff_ffff,
        ;
    }
    // dequantised weights of the tile's columns
    let mut ws: Vec<Vec<F>> = Vec::new();
    let mut c: u32 = 0;
    while c < t.bn
        invariant
            c <= t.bn,
            q.wf(),
            t.wf(q),
            w == (Weights { words: words@, scales: scales@, biases: biases@ }),
            q.fits(w),
            n_base + t.bn <= q.m_out,
            expert < q.n_experts,
            expert * q.m_out + q.m_out <= q.n_experts * q.m_out <= 0xffff_ffff * 0xffff_ffff,
            ws@.len() == c,
            forall|j: int|
                0 <= j < c ==> (#[trigger] ws@[j])@ == weight_operands::<F, T>(
                    t,
                    q,
                    w,
                    expert * q.m_out + (n_base + j),
                ),
        decreases t.bn - c,
    {
        let row: u64 = expert as u64 * q.m_out as u64 + (n_base + c) as u64;
        ws.push(stage_weight_row::<F, T>(t, q, words, scales, biases, row));
        c += 1;
    }
    // accumulators of the tile; rows outside the run stay zero
    let mut acc: Vec<F> = Vec::new();
    let mut mr: u32 = 0;
    while mr < t.bm
        invariant
            mr <= t.bm,
            q.wf(),
            t.wf(q),
            s < e <= t.bm,
            m_base + e <= m_total,
            m_total * q.k_in <= x@.len(),
            ws@.len() == t.bn,
            forall|j: int|
                0 <= j < t.bn ==> (#[trigger] ws@[j])@ == weight_operands::<F, T>(
                    t,
                    q,
                    w,
                    expert * q.m_out + (n_base + j),
                ),
            acc@.len() == mr * t.bn,
            forall|i: int|
                0 <= i < mr * t.bn && s <= i / (t.bn as int) < e ==> #[trigger] acc@[i]
                    == tile_value::<F, T>(
                    t,
                    q,
                    w,
                    x@,
                    expert as int,
                    m_base + i / t.bn as int,
                    n_base + i % t.bn as int,
                ),
        decreases t.bm - mr,
    {
        let in_run: bool = mr >= s && mr < e;
        proof {
            assert(q.k_in % t.slice == 0) by {
                vstd::arithmetic::div_mod::lemma_fundamental_div_mod(q.k_in as int, t.bk as int);
                vstd::arithmetic::div_mod::lemma_fundamental_div_mod(t.bk as int, t.slice as int);
                let (a, b) = (q.k_in as int / t.bk as int, t.bk as int / t.slice as int);
                assert(q.k_in == t.slice * (a * b)) by (nonlinear_arith)
                    requires
                        q.k_in as int == t.bk * a,
                        t.bk as int == t.slice * b,
                ;
                vstd::arithmetic::div_mod::lemma_mod_multiples_basic(a * b, t.slice as int);
                assert((a * b) * t.slice == t.slice * (a * b)) by (nonlinear_arith);
            }
        }
        let xs: Vec<F> = if in_run {
            stage_input_row::<F, T>(t, q, x, m_base + mr, m_total)
        } else {
            Vec::new()
        };
        let mut nc: u32 = 0;
        while nc < t.bn
            invariant
                nc <= t.bn,
                mr < t.bm,
                t.wf(q),
                s < e <= t.bm,
                m_base + e <= m_total,
                q.k_in % t.slice == 0,
                in_run == (s <= mr < e),
                in_run ==> xs@ == input_row::<F, T>(t, q, x@, m_base + mr),
                ws@.len() == t.bn,
                forall|j: int|
                    0 <= j < t.bn ==> (#[trigger] ws@[j])@ == weight_operands::<F, T>(
                        t,
                        q,
                        w,
                        expert * q.m_out + (n_base + j),
                    ),
                acc@.len() == mr * t.bn + nc,
                forall|i: int|
                    0 <= i < mr * t.bn + nc && s <= i / (t.bn as int) < e ==> #[trigger] acc@[i]
                        == tile_value::<F, T>(
                        t,
                        q,
                        w,
                        x@,
                        expert as int,
                        m_base + i / t.bn as int,
                        n_base + i % t.bn as int,
                    ),
            decreases t.bn - nc,
        {
            proof {
                lemma_row_col(mr as int, nc as int, t.bn as int);
            }
            if in_run {
                acc.push(slice_product(&xs, &ws[nc as usize], t.slice, q.k_in));
            } else {
                acc.push(F::zero());
            }
            nc += 1;
        }
        proof {
            lemma_row(mr as int, t.bm as int, t.bn as int);
        }
        mr += 1;
    }
    store_tile::<F, T>(t, &acc, out, m_total, n_out, m_base, n_base, s, e);
    proof {
        assert forall|r: int, c: int|
            0 <= r < m_total && 0 <= c < q.m_out implies #[trigger] out@[r * q.m_out + c] == (if m_base
            + s <= r < m_base + e && n_base <= c < n_base + t.bn {
            T::narrow_s(tile_value::<F, T>(t, q, w, x@, expert as int, r, c))
        } else {
            before[r * q.m_out + c]
        }) by {
            if m_base + s <= r < m_base + e && n_base <= c < n_base + t.bn {
                let (mr, nc) = (r - m_base, c - n_base);
                lemma_row(mr, t.bm as int, t.bn as int);
                lemma_row_col(mr, nc, t.bn as int);
                assert(acc@[mr * t.bn + nc] == tile_value::<F, T>(
                    t,
                    q,
                    w,
                    x@,
                    expert as int,
                    r,
                    c,
                ));
            }
        }
    }
}

/// Stores the rows `s .. e` of a tile of accumulators into a row-major output
/// of width `n_out`, cell by cell in the order of the threads that hold them.
pub fn store_tile<F: Num, T: Store<F>>(
    t: Tiling,
    acc: &Vec<F>,
    out: &mut Vec<T>,
    m_total: u32,
    n_out: u32,
    m_base: u32,
    n_base: u32,
    s: u32,
    e: u32,
)
    requires
        t.shape_wf(),
        acc@.len() == t.bm * t.bn,
        s <= e <= t.bm,
        m_base + e <= m_total,
        n_base + t.bn <= n_out,
        m_total * n_out <= old(out)@.len(),
    ensures
        final(out)@.len() == old(out)@.len(),
        forall|r: int, c: int|
            0 <= r < m_total && 0 <= c < n_out ==> #[trigger] final(out)@[r * n_out + c] == (if m_base
                + s <= r < m_base + e && n_base <= c < n_base + t.bn {
                T::narrow_s(acc@[(r - m_base) * t.bn + (c - n_base)])
            } else {
                old(out)@[r * n_out + c]
            }),
        forall|i: int|
            m_total * n_out <= i < old(out)@.len() ==> #[trigger] final(out)@[i] == old(out)@[i],
{
    let ghost before = out@;
    let out_len: usize = out.len();
    proof {
        lemma_mul_le(t.bm as int, 64, t.bn as int, 64);
    }
    let cells: u32 = t.bm * t.bn;
    let mut n: u32 = 0;
    while n < cells
        invariant
            n <= cells,
            cells == t.bm * t.bn <= 4096,
            t.shape_wf(),
            s <= e <= t.bm,
            m_base + e <= m_total,
            n_base + t.bn <= n_out,
            m_total * n_out <= before.len() == out_len,
            out@.len() == before.len(),
            acc@.len() == t.bm * t.bn,
            forall|r: int, c: int|
                0 <= r < m_total && 0 <= c < n_out ==> #[trigger] out@[r * n_out + c] == (if m_base
                    + s <= r < m_base + e && n_base <= c < n_base + t.bn && cell_index(
                    t,
                    r - m_base,
                    c - n_base,
                ) < n {
                    T::narrow_s(acc@[(r - m_base) * t.bn + (c - n_base)])
                } else {
                    before[r * n_out + c]
                }),
            forall|i: int| m_total * n_out <= i < before.len() ==> #[trigger] out@[i] == before[i],
        decreases cells - n,
    {
        let (mr, nc) = get_cell(t, n);
        proof {
            lemma_cell(t, n as int);
            lemma_row(mr as int, t.bm as int, t.bn as int);
        }
        let ghost mid = out@;
        let in_run: bool = mr >= s && mr < e;
        if in_run {
            let gr: u32 = m_base + mr;
            let gc: u32 = n_base + nc;
            proof {
                lemma_row(gr as int, m_total as int, n_out as int);
            }
            let at: usize = gr as usize * n_out as usize + gc as usize;
            out.set(at, T::narrow(acc[(mr * t.bn + nc) as usize]));
        }
        proof {
            let (gr, gc) = (m_base + mr, n_base + nc);
            assert forall|r: int, c: int|
                0 <= r < m_total && 0 <= c < n_out implies #[trigger] out@[r * n_out + c] == (if m_base
                + s <= r < m_base + e && n_base <= c < n_base + t.bn && cell_index(
                t,
                r - m_base,
                c - n_base,
            ) < n + 1 {
                T::narrow_s(acc@[(r - m_base) * t.bn + (c - n_base)])
            } else {
                before[r * n_out + c]
            }) by {
                lemma_row(r, m_total as int, n_out as int);
                lemma_row_col(r, c, n_out as int);
                let kept = mid[r * n_out + c];
                if in_run {
                    lemma_row_col(gr, gc, n_out as int);
                }
                if m_base + s <= r < m_base + e && n_base <= c < n_base + t.bn {
                    lemma_cell_index(t, r - m_base, c - n_base);
                }
            }
        }
        n += 1;
    }
    proof {
        assert forall|r: int, c: int|
            0 <= r < m_total && 0 <= c < n_out implies #[trigger] out@[r * n_out + c] == (if m_base
            + s <= r < m_base + e && n_base <= c < n_base + t.bn {
            T::narrow_s(acc@[(r - m_base) * t.bn + (c - n_base)])
        } else {
            before[r * n_out + c]
        }) by {
            if m_base + s <= r < m_base + e && n_base <= c < n_base + t.bn {
                lemma_cell_index(t, r - m_base, c - n_base);
            }
        }
    }
}

/// Multiplies every input row by the weights of its expert, tile by tile. A
/// tile is walked in runs of rows with one expert; rows without an expert are
/// left alone.
pub fn tiled_gather<F: Num, T: Store<F>>(
    t: Tiling,
    q: Quant,
    x: &[T],
    words: &[u32],
    scales: &[T],
    biases: &[T],
    indices: &[u32],
    out: &mut Vec<T>,
    m_total: u32,
)
    requires
        q.wf(),
        t.wf(q),
        q.fits(Weights { words: words@, scales: scales@, biases: biases@ }),
        m_total <= indices@.len(),
        forall|r: int|
            0 <= r < m_total ==> #[trigger] indices@[r] == NO_EXPERT || indices@[r] < q.n_experts,
        m_total * q.k_in <= x@.len(),
        m_total * q.m_out <= old(out)@.len(),
    ensures
        final(out)@.len() == old(out)@.len(),
        forall|i: int|
            0 <= i < old(out)@.len() ==> #[trigger] final(out)@[i] == (if i < m_total * q.m_out {
                routed::<F, T>(
                    t,
                    q,
                    (Weights { words: words@, scales: scales@, biases: biases@ }),
                    x@,
                    indices@,
                    old(out)@,
                    i,
                )
            } else {
                old(out)@[i]
            }),
{
    let ghost w = Weights { words: words@, scales: scales@, biases: biases@ };
    let ghost before = out@;
    let n_out: u32 = q.m_out;
    let ghost val = |r: int, c: int|
        if indices@[r] == NO_EXPERT {
            before[r * n_out + c]
        } else {
            T::narrow_s(tile_value::<F, T>(t, q, w, x@, indices@[r] as int, r, c))
        };
    let mut m_base: u32 = 0;
    while m_base < m_total
        invariant
            m_base <= m_total,
            n_out == q.m_out,
            q.wf(),
            t.wf(q),
            w == (Weights { words: words@, scales: scales@, biases: biases@ }),
            q.fits(w),
            m_total <= indices@.len(),
            forall|r: int|
                0 <= r < m_total ==> #[trigger] indices@[r] == NO_EXPERT || indices@[r]
                    < q.n_experts,
            m_total * q.k_in <= x@.len(),
            m_total * n_out <= before.len(),
            out@.len() == before.len(),
            val == (|r: int, c: int|
                if indices@[r] == NO_EXPERT {
                    before[r * n_out + c]
                } else {
                    T::narrow_s(tile_value::<F, T>(t, q, w, x@, indices@[r] as int, r, c))
                }),
            forall|r: int, c: int|
                0 <= r < m_total && 0 <= c < n_out ==> #[trigger] out@[r * n_out + c] == (if r
                    < m_base {
                    val(r, c)
                } else {
                    before[r * n_out + c]
                }),
            forall|i: int| m_total * n_out <= i < before.len() ==> #[trigger] out@[i] == before[i],
        decreases m_total - m_base,
    {
        let limit: u32 = if m_total - m_base < t.bm {
            m_total - m_base
        } else {
            t.bm
        };
        let n_tiles: u32 = n_out / t.bn;
        proof {
            vstd::arithmetic::div_mod::lemma_fundamental_div_mod(n_out as int, t.bn as int);
            assert(t.bn * n_tiles == n_tiles * t.bn) by (nonlinear_arith);
        }
        let mut n_tile: u32 = 0;
        while n_tile < n_tiles
            invariant
                n_tile <= n_tiles,
                n_tiles * t.bn == n_out,
                0 < limit <= t.bm,
                m_base + limit <= m_total,
                n_out == q.m_out,
                q.wf(),
                t.wf(q),
                w == (Weights { words: words@, scales: scales@, biases: biases@ }),
                q.fits(w),
                m_total <= indices@.len(),
                forall|r: int|
                    0 <= r < m_total ==> #[trigger] indices@[r] == NO_EXPERT || indices@[r]
                        < q.n_experts,
                m_total * q.k_in <= x@.len(),
                m_total * n_out <= before.len(),
                out@.len() == before.len(),
                val == (|r: int, c: int|
                    if indices@[r] == NO_EXPERT {
                        before[r * n_out + c]
                    } else {
                        T::narrow_s(tile_value::<F, T>(t, q, w, x@, indices@[r] as int, r, c))
                    }),
                forall|r: int, c: int|
                    0 <= r < m_total && 0 <= c < n_out ==> #[trigger] out@[r * n_out + c] == (if r
                        < m_base || (r < m_base + limit && c < n_tile * t.bn) {
                        val(r, c)
                    } else {
                        before[r * n_out + c]
                    }),
                forall|i: int|
                    m_total * n_out <= i < before.len() ==> #[trigger] out@[i] == before[i],
            decreases n_tiles - n_tile,
        {
            proof {
                lemma_row(n_tile as int, n_tiles as int, t.bn as int);
            }
            let n_base: u32 = n_tile * t.bn;
            let mut s: u32 = 0;
            while s < limit
                invariant
                    s <= limit,
                    0 < limit <= t.bm,
                    m_base + limit <= m_total,
                    n_base + t.bn <= n_out,
                    n_out == q.m_out,
                    q.wf(),
                    t.wf(q),
                    w == (Weights { words: words@, scales: scales@, biases: biases@ }),
                    q.fits(w),
                    m_total <= indices@.len(),
                    forall|r: int|
                        0 <= r < m_total ==> #[trigger] indices@[r] == NO_EXPERT || indices@[r]
                            < q.n_experts,
                    m_total * q.k_in <= x@.len(),
                    m_total * n_out <= before.len(),
                    out@.len() == before.len(),
                    val == (|r: int, c: int|
                        if indices@[r] == NO_EXPERT {
                            before[r * n_out + c]
                        } else {
                            T::narrow_s(
                                tile_value::<F, T>(t, q, w, x@, indices@[r] as int, r, c),
                            )
                        }),
                    forall|r: int, c: int|
                        0 <= r < m_total && 0 <= c < n_out ==> #[trigger] out@[r * n_out + c]
                            == (if r < m_base || (r < m_base + limit && c < n_base) || (r < m_base
                            + s && c < n_base + t.bn) {
                            val(r, c)
                        } else {
                            before[r * n_out + c]
                        }),
                    forall|i: int|
                        m_total * n_out <= i < before.len() ==> #[trigger] out@[i] == before[i],
                decreases limit - s,
            {
                let e: u32 = run_end(indices, m_base, s, limit);
                let expert: u32 = indices[(m_base + s) as usize];
                let ghost mid = out@;
                if expert != NO_EXPERT {
                    process_run::<F, T>(
                        t,
                        q,
                        x,
                        words,
                        scales,
                        biases,
                        out,
                        m_total,
                        m_base,
                        n_base,
                        s,
                        e,
                        expert,
                    );
                }
                proof {
                    assert forall|r: int, c: int|
                        0 <= r < m_total && 0 <= c < n_out implies #[trigger] out@[r * n_out + c]
                        == (if r < m_base || (r < m_base + limit && c < n_base) || (r < m_base + e
                        && c < n_base + t.bn) {
                        val(r, c)
                    } else {
                        before[r * n_out + c]
                    }) by {
                        let kept = mid[r * n_out + c];
                        if m_base + s <= r < m_base + e {
                            assert(indices@[r] == indices@[m_base + s]);
                        }
                    }
                }
                s = e;
            }
            proof {
                assert((n_tile + 1) * t.bn == n_base + t.bn) by (nonlinear_arith)
                    requires
                        n_base == n_tile * t.bn,
                ;
            }
            n_tile += 1;
        }
        m_base += limit;
    }
    proof {
        assert forall|i: int| 0 <= i < before.len() implies #[trigger] out@[i] == (if i < m_total
            * q.m_out {
            routed::<F, T>(t, q, w, x@, indices@, before, i)
        } else {
            before[i]
        }) by {
            if i < m_total * n_out {
                assert(n_out > 0) by (nonlinear_arith)
                    requires
                        0 <= i < m_total * n_out,
                ;
                lemma_index_row(i, m_total as int, n_out as int);
                let (r, c) = (i / n_out as int, i % n_out as int);
                assert(out@[r * n_out + c] == val(r, c));
            }
        }
    }
}

} // verus!
