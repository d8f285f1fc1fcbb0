//! Inputs, expectations and launch shapes that the expert matmuls on
//! cooperative tiles have in common.
use vstd::prelude::*;

use super::gather::{Quant, Weights};
use super::moe_laws::dequant_product;
use super::moe_reference::cpu_gather_qmm_int4_indexed;
use crate::index::{lemma_index_row, lemma_mul_le};
use crate::num::{Num, Store};
use crate::quant::{nibble, pack_int4_row};

verus! {

/// Shape of a trial run of an expert matmul.
pub struct MmaTestShape {
    pub n_experts: usize,
    pub m_total: usize,
    pub n_out: usize,
    pub k_in: usize,
    pub group_size: usize,
}

impl MmaTestShape {
    /// Shape of the weights.
    pub open spec fn quant(self) -> Quant {
        Quant {
            bits: 4,
            k_in: self.k_in as u32,
            m_out: self.n_out as u32,
            group_size: self.group_size as u32,
            n_experts: self.n_experts as u32,
        }
    }

    /// All dimensions are clean multiples of each other, and every index fits
    /// a machine word.
    pub open spec fn wf(self) -> bool {
        &&& 0 < self.n_experts <= self.m_total <= 0xffff_ffff
        &&& self.m_total % self.n_experts == 0
        &&& self.n_out <= 0xffff_ffff
        &&& self.k_in <= 0xffff_ffff
        &&& 0 < self.group_size <= 0xffff_ffff
        &&& self.group_size % 8 == 0
        &&& self.k_in % self.group_size == 0
        &&& self.n_experts * self.n_out * self.k_in <= 613_566_757
        &&& self.m_total * self.n_out <= usize::MAX
        &&& self.m_total * self.k_in <= usize::MAX
    }

    /// Scales, and biases, of all experts.
    pub open spec fn n_scales(self) -> int {
        self.n_experts * self.n_out * (self.k_in as int / self.group_size as int)
    }
}

/// A trial run: the inputs, the launch shape and the expected output.
pub struct IndexedSetup<T> {
    pub x: Vec<T>,
    pub w: Vec<u32>,
    pub scales: Vec<T>,
    pub biases: Vec<T>,
    pub indices: Vec<u32>,
    /// Elements of the output.
    pub out_len: usize,
    pub m_total: u32,
    pub n_out: u32,
    pub k_in: u32,
    pub group_size: u32,
    pub expected: Vec<T>,
    pub grid: (u32, u32, u32),
    pub threads: (u32, u32, u32),
}

/// Threadgroups that cover `n` elements, `tile` at a time.
pub open spec fn tiles(n: int, tile: int) -> int {
    (n + tile - 1) / tile
}

/// Computes [`tiles`].
pub fn get_tiles(n: u32, tile: u32) -> (r: u32)
    requires
        0 < tile,
    ensures
        r == tiles(n as int, tile as int),
{
    proof {
        let (nn, tt) = (n as int, tile as int);
        vstd::arithmetic::div_mod::lemma_fundamental_div_mod(nn, tt);
        vstd::arithmetic::div_mod::lemma_mod_bound(nn, tt);
        let (a, b) = (nn / tt, nn % tt);
        assert(tt * a == a * tt) by (nonlinear_arith);
        if b == 0 {
            crate::index::lemma_row_col(a, tt - 1, tt);
        } else {
            assert((a + 1) * tt == a * tt + tt) by (nonlinear_arith);
            crate::index::lemma_row_col(a + 1, b - 1, tt);
        }
        assert(b != 0 ==> a < 0xffff_ffff) by (nonlinear_arith)
            requires
                nn == a * tt + b,
                nn <= 0xffff_ffff,
                0 <= b < tt,
                0 < tt,
        ;
    }
    let full: u32 = n / tile;
    if n % tile == 0 {
        full
    } else {
        full + 1
    }
}

/// Expert of each row: `m_total / n_experts` rows in a row share one.
fn sorted_indices(m_total: usize, n_experts: usize) -> (r: Vec<u32>)
    requires
        0 < n_experts <= m_total <= 0xffff_ffff,
        m_total % n_experts == 0,
    ensures
        r@ == Seq::new(
            m_total as nat,
            |t: int| (t / (m_total as int / n_experts as int)) as u32,
        ),
        forall|t: int| 0 <= t < m_total ==> #[trigger] r@[t] < n_experts,
{
    let per: usize = m_total / n_experts;
    proof {
        vstd::arithmetic::div_mod::lemma_fundamental_div_mod(m_total as int, n_experts as int);
        assert(per > 0) by (nonlinear_arith)
            requires
                m_total == n_experts * per,
                0 < n_experts <= m_total,
        ;
    }
    let mut out: Vec<u32> = Vec::new();
    let mut t: usize = 0;
    while t < m_total
        invariant
            t <= m_total <= 0xffff_ffff,
            0 < per,
            per == m_total / n_experts,
            0 < n_experts <= m_total,
            m_total == n_experts * per,
            out@.len() == t,
            forall|c: int|
                0 <= c < t ==> #[trigger] out@[c] == c / per as int && out@[c] < n_experts,
        decreases m_total - t,
    {
        proof {
            lemma_index_row(t as int, n_experts as int, per as int);
        }
        out.push((t / per) as u32);
        t += 1;
    }
    out
}

/// The weight codes of a trial run: seven times the position plus three, in
/// four bits.
fn pattern_codes(n: usize) -> (r: Vec<u32>)
    requires
        n <= 613_566_757,
    ensures
        r@ == Seq::new(n as nat, |i: int| ((7 * i + 3) as u32) & 15),
{
    let ghost full = Seq::new(n as nat, |i: int| ((7 * i + 3) as u32) & 15);
    let mut out: Vec<u32> = Vec::new();
    let mut i: usize = 0;
    while i < n
        invariant
            i <= n <= 613_566_757,
            full == Seq::new(n as nat, |i: int| ((7 * i + 3) as u32) & 15),
            out@ == full.take(i as int),
        decreases n - i,
    {
        out.push((i as u32 * 7 + 3) & 15);
        assert(out@ =~= full.take(i + 1));
        i += 1;
    }
    assert(out@ =~= full);
    out
}

/// Rounds every value to the storage type.
fn narrow_all<F: Num, T: Store<F>>(values: &Vec<F>) -> (r: Vec<T>)
    ensures
        r@ == Seq::new(values@.len(), |i: int| T::narrow_s(values@[i])),
{
    let ghost full = Seq::new(values@.len(), |i: int| T::narrow_s(values@[i]));
    let n: usize = values.len();
    let mut out: Vec<T> = Vec::new();
    let mut i: usize = 0;
    while i < n
        invariant
            i <= n == values@.len(),
            full == Seq::new(values@.len(), |i: int| T::narrow_s(values@[i])),
            out@ == full.take(i as int),
        decreases n - i,
    {
        out.push(T::narrow(values[i]));
        assert(out@ =~= full.take(i + 1));
        i += 1;
    }
    assert(out@ =~= full);
    out
}

/// Builds a trial run of a four-bit expert matmul with tiles of `bm` rows by
/// `bn` columns and `tpg` threads: rows sorted by expert, patterned weight
/// codes, and the output that dequantise-then-multiply expects.
pub fn int4_indexed_setup<F: Num, T: Store<F>>(
    shape: MmaTestShape,
    bn: u32,
    bm: u32,
    tpg: u32,
    x: Vec<T>,
    scales: Vec<T>,
    biases: Vec<T>,
) -> (r: IndexedSetup<T>)
    requires
        shape.wf(),
        0 < bn,
        0 < bm,
        x@.len() == shape.m_total * shape.k_in,
        scales@.len() == shape.n_scales(),
        biases@.len() == shape.n_scales(),
    ensures
        r.x == x,
        r.scales == scales,
        r.biases == biases,
        r.indices@ == Seq::new(
            shape.m_total as nat,
            |t: int| (t / (shape.m_total as int / shape.n_experts as int)) as u32,
        ),
        r.w@.len() == shape.n_experts * shape.n_out * shape.k_in / 8,
        forall|j: int, i: int|
            0 <= j < r.w@.len() && 0 <= i < 8 ==> #[trigger] nibble(r.w@[j], i as u32) == ((7 * (8
                * j + i) + 3) as u32) & 15,
        r.out_len == shape.m_total * shape.n_out,
        r.m_total == shape.m_total,
        r.n_out == shape.n_out,
        r.k_in == shape.k_in,
        r.group_size == shape.group_size,
        r.expected@ == Seq::new(
            r.out_len as nat,
            |i: int|
                T::narrow_s(
                    dequant_product::<F, T>(
                        shape.quant(),
                        (Weights { words: r.w@, scales: scales@, biases: biases@ }),
                        r.indices@[i / shape.n_out as int] * shape.n_out + i % shape.n_out as int,
                        x@,
                        (i / shape.n_out as int) * shape.k_in,
                    ),
                ),
        ),
        r.grid == ((shape.n_out / bn as usize) as u32, tiles(shape.m_total as int, bm as int) as u32, 1u32),
        r.threads == (tpg, 1u32, 1u32),
{
    let MmaTestShape { n_experts, m_total, n_out, k_in, group_size } = shape;
    let ghost q = shape.quant();
    let indices = sorted_indices(m_total, n_experts);
    proof {
        if n_out == 0 || k_in == 0 {
            assert(n_experts * n_out * k_in == 0) by (nonlinear_arith)
                requires
                    n_out == 0 || k_in == 0,
            ;
        }
        assert(k_in % 8 == 0) by {
            super::moe_laws::lemma_divides(k_in as int, group_size as int, 8);
        }
        lemma_mul_le(n_experts as int, 0xffff_ffff, n_out as int, 0xffff_ffff);
    }
    let rows: u64 = n_experts as u64 * n_out as u64;
    let total: usize = if k_in == 0 {
        0
    } else {
        proof {
            lemma_mul_le(rows as int, rows as int, 1, k_in as int);
        }
        rows as usize * k_in
    };
    let codes = pattern_codes(total);
    let w = pack_int4_row(codes.as_slice());
    proof {
        assert forall|j: int, i: int| 0 <= j < w@.len() && 0 <= i < 8 implies #[trigger] nibble(
            w@[j],
            i as u32,
        ) == ((7 * (8 * j + i) + 3) as u32) & 15 by {
            let v = (7 * (8 * j + i) + 3) as u32;
            assert(codes@[8 * j + i] == v & 15);
            assert((v & 15) & 15 == v & 15) by (bit_vector);
        }
        let words = k_in as int / 8;
        assert(q.words() == words);
        assert(rows * words * 8 == total) by (nonlinear_arith)
            requires
                rows * k_in == total,
                k_in == words * 8,
        ;
        assert(q.fits(Weights { words: w@, scales: scales@, biases: biases@ }));
    }
    let reference: Vec<F> = cpu_gather_qmm_int4_indexed::<F, T>(
        x.as_slice(),
        w.as_slice(),
        scales.as_slice(),
        biases.as_slice(),
        indices.as_slice(),
        m_total as u32,
        k_in as u32,
        n_out as u32,
        group_size as u32,
        n_experts as u32,
    );
    let expected = narrow_all::<F, T>(&reference);
    proof {
        lemma_mul_le(0, m_total as int, 0, n_out as int);
    }
    let out_len: usize = m_total * n_out;
    IndexedSetup {
        x,
        w,
        scales,
        biases,
        indices,
        out_len,
        m_total: m_total as u32,
        n_out: n_out as u32,
        k_in: k_in as u32,
        group_size: group_size as u32,
        expected,
        grid: (n_out as u32 / bn, get_tiles(m_total as u32, bm), 1),
        threads: (tpg, 1, 1),
    }
}

/// Shape of a timed run of an expert matmul.
pub struct MmaBenchShape {
    pub bits: u32,
    pub bn: u32,
    pub bm: u32,
    pub tpg: u32,
    pub m_total: usize,
    pub n_out: usize,
    pub k_in: usize,
    pub n_experts: usize,
    pub group_size: usize,
}

/// Buffer lengths, launch shape and memory traffic of a timed run.
pub struct BenchPlan {
    /// Elements of the input.
    pub x: usize,
    /// Words of packed weights.
    pub words: usize,
    /// Scales, and biases.
    pub scales: usize,
    /// Routing entries.
    pub routing: usize,
    /// Elements of the output.
    pub out: usize,
    pub grid: (u32, u32, u32),
    pub threads: (u32, u32, u32),
    pub bytes_moved: u64,
}

/// Bytes of the expert weights, their scales and biases, the input and the
/// output, with `size` bytes to an element.
pub open spec fn traffic(
    rows: int,
    words_per_row: int,
    groups_per_row: int,
    x: int,
    out: int,
    size: int,
) -> int {
    rows * words_per_row * 4 + 2 * rows * groups_per_row * size + x * size + out * size
}

/// Computes the lengths and the traffic of a run of `m_total` input rows.
fn plan_buffers(
    bits: u32,
    m_total: usize,
    n_out: usize,
    k_in: usize,
    n_experts: usize,
    group_size: usize,
    size: usize,
) -> (r: (usize, usize, usize, usize, u64))
    requires
        0 < group_size,
        0 < size,
        k_in * bits <= usize::MAX,
        n_experts * n_out <= usize::MAX,
        traffic(
            n_experts * n_out,
            k_in * bits / 32,
            k_in as int / group_size as int,
            m_total * k_in,
            m_total * n_out,
            size as int,
        ) <= usize::MAX,
    ensures
        r.0 == m_total * k_in,
        r.1 == n_experts * n_out * (k_in * bits / 32),
        r.2 == n_experts * n_out * (k_in as int / group_size as int),
        r.3 == m_total * n_out,
        r.4 == traffic(
            n_experts * n_out,
            k_in * bits / 32,
            k_in as int / group_size as int,
            m_total * k_in,
            m_total * n_out,
            size as int,
        ),
{
    let groups: usize = k_in / group_size;
    proof {
        lemma_mul_le(0, k_in as int, 0, bits as int);
        lemma_mul_le(0, n_experts as int, 0, n_out as int);
    }
    let words_per_row: usize = k_in * bits as usize / 32;
    let rows: usize = n_experts * n_out;
    proof {
        let (r, g, s) = (rows as int, groups as int, size as int);
        lemma_mul_le(0, r, 0, words_per_row as int);
        lemma_mul_le(0, r, 0, g);
        lemma_mul_le(0, m_total as int, 0, k_in as int);
        lemma_mul_le(0, m_total as int, 0, n_out as int);
        lemma_mul_le(r * g, r * g, 1, s);
        lemma_mul_le(m_total * k_in, m_total * k_in, 1, s);
        lemma_mul_le(m_total * n_out, m_total * n_out, 1, s);
        assert(2 * r * g * s == 2 * ((r * g) * s)) by (nonlinear_arith);
    }
    let words: usize = rows * words_per_row;
    let scales: usize = rows * groups;
    let x: usize = m_total * k_in;
    let out: usize = m_total * n_out;
    let bytes: usize = words * 4 + 2 * (scales * size) + x * size + out * size;
    (x, words, scales, out, bytes as u64)
}

/// Plans a timed run of an expert matmul with an index per row, with `size`
/// bytes to an element.
pub fn int4_mma_bench(shape: MmaBenchShape, size: usize) -> (r: BenchPlan)
    requires
        0 < shape.group_size,
        0 < size,
        0 < shape.bn,
        0 < shape.bm,
        shape.m_total <= 0xffff_ffff,
        shape.n_out <= 0xffff_ffff,
        shape.k_in * shape.bits <= usize::MAX,
        shape.n_experts * shape.n_out <= usize::MAX,
        traffic(
            shape.n_experts * shape.n_out,
            shape.k_in * shape.bits / 32,
            shape.k_in as int / shape.group_size as int,
            shape.m_total * shape.k_in,
            shape.m_total * shape.n_out,
            size as int,
        ) <= usize::MAX,
    ensures
        r.x == shape.m_total * shape.k_in,
        r.words == shape.n_experts * shape.n_out * (shape.k_in * shape.bits / 32),
        r.scales == shape.n_experts * shape.n_out * (shape.k_in as int / shape.group_size as int),
        r.routing == shape.m_total,
        r.out == shape.m_total * shape.n_out,
        r.grid == (
            (shape.n_out / shape.bn as usize) as u32,
            tiles(shape.m_total as int, shape.bm as int) as u32,
            1u32,
        ),
        r.threads == (shape.tpg, 1u32, 1u32),
        r.bytes_moved == traffic(
            shape.n_experts * shape.n_out,
            shape.k_in * shape.bits / 32,
            shape.k_in as int / shape.group_size as int,
            shape.m_total * shape.k_in,
            shape.m_total * shape.n_out,
            size as int,
        ),
{
    let MmaBenchShape { bits, bn, bm, tpg, m_total, n_out, k_in, n_experts, group_size } = shape;
    let (x, words, scales, out, bytes_moved) = plan_buffers(
        bits,
        m_total,
        n_out,
        k_in,
        n_experts,
        group_size,
        size,
    );
    BenchPlan {
        x,
        words,
        scales,
        routing: m_total,
        out,
        grid: (n_out as u32 / bn, get_tiles(m_total as u32, bm), 1),
        threads: (tpg, 1, 1),
        bytes_moved,
    }
}

/// Plans a timed run of an expert matmul over rows grouped by expert, with
/// `m_cells` outputs per threadgroup and `size` bytes to an element.
pub fn csr_bench(
    bits: u32,
    m_cells: u32,
    t_rows: usize,
    k_in: usize,
    m_out: usize,
    n_experts: usize,
    group_size: usize,
    size: usize,
) -> (r: BenchPlan)
    requires
        0 < group_size,
        0 < size,
        0 < m_cells,
        t_rows <= 0xffff_ffff,
        m_out <= 0xffff_ffff,
        n_experts < usize::MAX,
        k_in * bits <= usize::MAX,
        n_experts * m_out <= usize::MAX,
        traffic(
            n_experts * m_out,
            k_in * bits / 32,
            k_in as int / group_size as int,
            t_rows * k_in,
            t_rows * m_out,
            size as int,
        ) <= usize::MAX,
    ensures
        r.x == t_rows * k_in,
        r.words == n_experts * m_out * (k_in * bits / 32),
        r.scales == n_experts * m_out * (k_in as int / group_size as int),
        r.routing == n_experts + 1,
        r.out == t_rows * m_out,
        r.grid == ((m_out / m_cells as usize) as u32, t_rows as u32, 1u32),
        r.threads == (32u32, 1u32, 1u32),
        r.bytes_moved == traffic(
            n_experts * m_out,
            k_in * bits / 32,
            k_in as int / group_size as int,
            t_rows * k_in,
            t_rows * m_out,
            size as int,
        ),
{
    let (x, words, scales, out, bytes_moved) = plan_buffers(
        bits,
        t_rows,
        m_out,
        k_in,
        n_experts,
        group_size,
        size,
    );
    BenchPlan {
        x,
        words,
        scales,
        routing: n_experts + 1,
        out,
        grid: (m_out as u32 / m_cells, t_rows as u32, 1),
        threads: (32, 1, 1),
        bytes_moved,
    }
}

/// The tiles cover all elements, and one tile fewer would not.
pub proof fn law_tiles_cover(n: int, tile: int)
    requires
        0 < tile,
        0 <= n,
    ensures
        n <= tiles(n, tile) * tile,
        0 < n ==> (tiles(n, tile) - 1) * tile < n,
{
    let t = tiles(n, tile);
    vstd::arithmetic::div_mod::lemma_fundamental_div_mod(n + tile - 1, tile);
    vstd::arithmetic::div_mod::lemma_mod_bound(n + tile - 1, tile);
    assert(tile * t == t * tile) by (nonlinear_arith);
    assert((t - 1) * tile == t * tile - tile) by (nonlinear_arith);
}

/// Weight words take four bytes each; scales, biases, inputs and outputs take
/// `size` each.
pub proof fn law_traffic_counts_bytes(
    rows: int,
    words_per_row: int,
    groups_per_row: int,
    x: int,
    out: int,
    size: int,
)
    ensures
        traffic(rows, words_per_row, groups_per_row, x, out, size) == 4 * (rows * words_per_row)
            + size * (rows * groups_per_row + rows * groups_per_row + x + out),
{
    let g = rows * groups_per_row;
    assert(2 * rows * groups_per_row * size == size * g + size * g) by (nonlinear_arith)
        requires
            g == rows * groups_per_row,
    ;
    assert(x * size + out * size == size * x + size * out) by (nonlinear_arith);
    assert(rows * words_per_row * 4 == 4 * (rows * words_per_row)) by (nonlinear_arith);
    assert(size * (g + g + x + out) == size * g + size * g + size * x + size * out)
        by (nonlinear_arith);
}

} // verus!
