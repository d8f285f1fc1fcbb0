//! The expert kernels against dequantise-then-multiply with plain floats.
use metaltile_std::ffai::gemv_reference::naive_down_swiglu;
use metaltile_std::ffai::mma::NO_EXPERT;
use metaltile_std::ffai::moe::{
    mt_moe_gather_qmm_b3, mt_moe_gather_qmm_b5, mt_moe_gather_qmm_b6, mt_moe_gather_qmm_b8,
    mt_moe_gather_qmm_int4, mt_moe_gather_qmm_int4_m16, mt_moe_gather_qmm_int4_m32,
    mt_moe_gather_qmm_int4_m8, mt_moe_gather_qmm_mma_b3, mt_moe_gather_qmm_mma_b5,
    mt_moe_gather_qmm_mma_b6, mt_moe_gather_qmm_mma_b8, mt_moe_gather_qmm_mma_int4,
    mt_moe_gather_qmm_mma_int4_bm16, mt_moe_gather_qmm_mma_int8,
};
use metaltile_std::ffai::moe_down_swiglu_accum::ffai_moe_down_swiglu_accum_int4_chain8;
use metaltile_std::ffai::moe_mpp::mt_moe_gather_qmm_mma_int4_bm16_mpp;
use metaltile_std::ffai::moe_mpp_bm64::mt_moe_gather_qmm_mma_int4_bm64_mpp;
use metaltile_std::ffai::moe_mpp_bm8::mt_moe_gather_qmm_mma_int4_bm8_mpp;
use metaltile_std::ffai::moe_mpp_bm8_int8::mt_moe_gather_qmm_mma_int8_bm8_mpp;
use metaltile_std::ffai::moe_mpp_int8::mt_moe_gather_qmm_mma_int8_bm16_mpp;
use metaltile_std::ffai::moe_mpp_shared::{
    csr_bench, get_tiles, int4_indexed_setup, int4_mma_bench, IndexedSetup, MmaBenchShape,
    MmaTestShape,
};
use metaltile_std::ffai::moe_reference::{cpu_gather_qmm_int4, cpu_gather_qmm_int4_indexed};
use metaltile_std::ffai::moe_route::{mt_moe_permute, mt_moe_router_topk, mt_moe_unpermute};
use metaltile_std::ffai::moe_router_sqrtsoftplus::ffai_moe_router_sqrtsoftplus;
use metaltile_std::num::{Num, Store};

/// Single-precision accumulator, and full-precision storage.
#[derive(Clone, Copy, Debug, PartialEq)]
struct F(f32);

impl Num for F {
    fn zero() -> F {
        F(0.0)
    }
    fn one() -> F {
        F(1.0)
    }
    fn neg_inf() -> F {
        F(f32::NEG_INFINITY)
    }
    fn two_pi() -> F {
        F(std::f32::consts::TAU)
    }
    fn of_u32(n: u32) -> F {
        F(n as f32)
    }
    fn recip_u32(n: u32) -> F {
        F(1.0 / n as f32)
    }
    fn add(self, o: F) -> F {
        F(self.0 + o.0)
    }
    fn sub(self, o: F) -> F {
        F(self.0 - o.0)
    }
    fn mul(self, o: F) -> F {
        F(self.0 * o.0)
    }
    fn div(self, o: F) -> F {
        F(self.0 / o.0)
    }
    fn neg(self) -> F {
        F(-self.0)
    }
    fn exp(self) -> F {
        F(self.0.exp())
    }
    fn ln(self) -> F {
        F(self.0.ln())
    }
    fn exp2(self) -> F {
        F(self.0.exp2())
    }
    fn log2(self) -> F {
        F(self.0.log2())
    }
    fn sqrt(self) -> F {
        F(self.0.sqrt())
    }
    fn rsqrt(self) -> F {
        F(1.0 / self.0.sqrt())
    }
    fn sin(self) -> F {
        F(self.0.sin())
    }
    fn cos(self) -> F {
        F(self.0.cos())
    }
    fn gt(self, o: F) -> bool {
        self.0 > o.0
    }
    fn ge(self, o: F) -> bool {
        self.0 >= o.0
    }
    fn eq(self, o: F) -> bool {
        self.0 == o.0
    }
    fn lane_sum(values: &Vec<F>) -> F {
        // pairwise, as a butterfly reduction adds its lanes
        let mut v: Vec<f32> = values.iter().map(|x| x.0).collect();
        while v.len() > 1 {
            v = v.chunks(2).map(|c| c.iter().sum()).collect();
        }
        F(v.first().copied().unwrap_or(0.0))
    }
    fn lane_max(values: &Vec<F>) -> F {
        F(values.iter().map(|x| x.0).fold(f32::NEG_INFINITY, f32::max))
    }
    fn dot_acc(acc: F, a: &Vec<F>, b: &Vec<F>) -> F {
        F(a.iter().zip(b).fold(acc.0, |s, (x, y)| s + x.0 * y.0))
    }
}

impl Store<F> for F {
    fn widen(self) -> F {
        self
    }
    fn narrow(value: F) -> F {
        value
    }
    fn stage(value: F) -> F {
        value
    }
}

fn floats(v: &[f32]) -> Vec<F> {
    v.iter().map(|&x| F(x)).collect()
}

fn close(got: &[F], want: &[f32], tol: f32) {
    assert_eq!(got.len(), want.len());
    for (i, (g, w)) in got.iter().zip(want).enumerate() {
        assert!((g.0 - w).abs() <= tol, "element {i}: {} instead of {w}", g.0);
    }
}

fn sines(n: usize, amp: f32, step: f32) -> Vec<f32> {
    (0..n).map(|i| amp * (i as f32 * step).sin()).collect()
}

fn pattern(n: usize, mask: u32) -> Vec<u32> {
    (0..n as u32).map(|i| (i * 7 + 3) & mask).collect()
}

/// Packs codes of any width into a bit stream, lowest bits first.
fn pack_stream(codes: &[u32], bits: usize) -> Vec<u32> {
    let mut words = vec![0u32; codes.len() * bits / 32];
    for (k, c) in codes.iter().enumerate() {
        for b in 0..bits {
            let at = k * bits + b;
            words[at / 32] |= ((c >> b) & 1) << (at % 32);
        }
    }
    words
}

struct Experts {
    n_experts: usize,
    k_in: usize,
    m_out: usize,
    group: usize,
    codes: Vec<u32>,
    words: Vec<u32>,
    scales: Vec<f32>,
    biases: Vec<f32>,
}

fn experts(bits: usize, n_experts: usize, k_in: usize, m_out: usize, group: usize) -> Experts {
    experts_of(
        bits,
        n_experts,
        k_in,
        m_out,
        group,
        &|i| 0.01 + 0.001 * (i % 24) as f32,
        &|i| -0.05 + 0.002 * (i % 24) as f32,
    )
}

/// The same with `scale` and `bias` giving the numbers of group `i`.
fn experts_of(
    bits: usize,
    n_experts: usize,
    k_in: usize,
    m_out: usize,
    group: usize,
    scale: &dyn Fn(usize) -> f32,
    bias: &dyn Fn(usize) -> f32,
) -> Experts {
    let codes = pattern(n_experts * m_out * k_in, (1u32 << bits) - 1);
    let words = codes.chunks(k_in).flat_map(|r| pack_stream(r, bits)).collect();
    let n = n_experts * m_out * (k_in / group);
    Experts {
        n_experts,
        k_in,
        m_out,
        group,
        codes,
        words,
        scales: (0..n).map(scale).collect(),
        biases: (0..n).map(bias).collect(),
    }
}

impl Experts {
    /// Dequantised row `m` of expert `e` times `x`.
    fn dot(&self, e: usize, m: usize, x: &[f32]) -> f32 {
        self.dot_of(e, m, x, &|c| c as f32)
    }

    /// The same with `number` saying what a code stands for.
    fn dot_of(&self, e: usize, m: usize, x: &[f32], number: &dyn Fn(u32) -> f32) -> f32 {
        let row = e * self.m_out + m;
        let groups = self.k_in / self.group;
        (0..self.k_in)
            .map(|k| {
                let g = row * groups + k / self.group;
                (number(self.codes[row * self.k_in + k]) * self.scales[g] + self.biases[g]) * x[k]
            })
            .sum()
    }
}

type CsrKernel = fn(
    &[F],
    &[u32],
    &[F],
    &[F],
    &[u32],
    &mut Vec<F>,
    u32,
    u32,
    u32,
    u32,
    u32,
);

fn csr_case(kernel: CsrKernel, bits: usize, m_out: usize) {
    let w = experts_of(
        bits,
        3,
        64,
        m_out,
        32,
        &|i| 0.01 + 0.001 * i as f32,
        &|i| -0.05 + 0.002 * i as f32,
    );
    let offsets = [0u32, 2, 5, 6];
    let x = sines(6 * 64, 0.1, 0.17);
    let mut want = Vec::new();
    for row in 0..6usize {
        let e = (0..3).find(|&e| (row as u32) < offsets[e + 1]).unwrap_or(0);
        for m in 0..m_out {
            want.push(w.dot(e, m, &x[row * 64..(row + 1) * 64]));
        }
    }
    let mut out = vec![F(0.0); 6 * m_out];
    kernel(
        &floats(&x),
        &w.words,
        &floats(&w.scales),
        &floats(&w.biases),
        &offsets,
        &mut out,
        64,
        m_out as u32,
        3,
        32,
        6,
    );
    close(&out, &want, 5e-3);
}

#[test]
fn test_moe_gather_qmm_int4() {
    csr_case(mt_moe_gather_qmm_int4::<F, F>, 4, 8);
}

#[test]
fn test_moe_gather_qmm_int4_m8() {
    csr_case(mt_moe_gather_qmm_int4_m8::<F, F>, 4, 8);
}

#[test]
fn gather_int4_wider_tiles() {
    csr_case(mt_moe_gather_qmm_int4_m16::<F, F>, 4, 32);
    csr_case(mt_moe_gather_qmm_int4_m32::<F, F>, 4, 32);
}

#[test]
fn gather_codes_of_every_width() {
    csr_case(mt_moe_gather_qmm_b3::<F, F>, 3, 8);
    csr_case(mt_moe_gather_qmm_b5::<F, F>, 5, 8);
    csr_case(mt_moe_gather_qmm_b6::<F, F>, 6, 8);
    csr_case(mt_moe_gather_qmm_b8::<F, F>, 8, 8);
}

#[test]
fn rows_behind_the_last_range_go_to_the_first_expert() {
    let w = experts(4, 2, 32, 8, 32);
    let x = sines(3 * 32, 0.1, 0.3);
    let mut out = vec![F(0.0); 3 * 8];
    mt_moe_gather_qmm_int4(
        &floats(&x),
        &w.words,
        &floats(&w.scales),
        &floats(&w.biases),
        &[0, 1, 2],
        &mut out,
        32,
        8,
        2,
        32,
        3,
    );
    let want: Vec<f32> =
        (0..24).map(|i| w.dot([0, 1, 0][i / 8], i % 8, &x[i / 8 * 32..(i / 8 + 1) * 32])).collect();
    close(&out, &want, 1e-4);
}

#[test]
fn reference_matmul_agrees_with_plain_floats() {
    let w = experts(4, 3, 64, 8, 32);
    let x = sines(6 * 64, 0.1, 0.17);
    let offsets = [0u32, 2, 5, 6];
    let out: Vec<F> = cpu_gather_qmm_int4::<F, F>(
        &floats(&x),
        &w.words,
        &floats(&w.scales),
        &floats(&w.biases),
        &offsets,
        6,
        64,
        8,
        3,
        32,
    );
    let want: Vec<f32> = (0..48)
        .map(|i| {
            let row = i / 8;
            let e = (0..3).find(|&e| (row as u32) < offsets[e + 1]).unwrap_or(0);
            w.dot(e, i % 8, &x[row * 64..(row + 1) * 64])
        })
        .collect();
    close(&out, &want, 1e-5);
}

type MmaKernel = fn(
    &[F],
    &[u32],
    &[F],
    &[F],
    &[u32],
    &mut Vec<F>,
    u32,
    u32,
    u32,
    u32,
    u32,
);

/// Rows of three experts in runs, with rows that no expert takes between.
fn mma_case(kernel: MmaKernel, bits: usize, n_out: usize, m_total: usize) {
    mma_case_of(kernel, bits, n_out, m_total, &|c| c as f32);
}

fn mma_case_of(
    kernel: MmaKernel,
    bits: usize,
    n_out: usize,
    m_total: usize,
    number: &dyn Fn(u32) -> f32,
) {
    let w = experts(bits, 3, 64, n_out, 32);
    let indices: Vec<u32> =
        (0..m_total).map(|r| if r % 11 == 5 { NO_EXPERT } else { (r / 7 % 3) as u32 }).collect();
    let x = sines(m_total * 64, 0.1, 0.017);
    let mut want = Vec::new();
    for r in 0..m_total {
        for n in 0..n_out {
            want.push(if indices[r] == NO_EXPERT {
                -3.0
            } else {
                w.dot_of(indices[r] as usize, n, &x[r * 64..(r + 1) * 64], number)
            });
        }
    }
    want.extend([-3.0; 5]);
    let mut out = vec![F(-3.0); m_total * n_out + 5];
    kernel(
        &floats(&x),
        &w.words,
        &floats(&w.scales),
        &floats(&w.biases),
        &indices,
        &mut out,
        m_total as u32,
        n_out as u32,
        64,
        32,
        3,
    );
    close(&out, &want, 5e-3);
}

#[test]
fn tiled_matmul_int4() {
    mma_case(mt_moe_gather_qmm_mma_int4::<F, F>, 4, 64, 45);
    mma_case(mt_moe_gather_qmm_mma_int4_bm16::<F, F>, 4, 64, 45);
}

#[test]
fn tiled_matmul_codes_of_every_width() {
    mma_case(mt_moe_gather_qmm_mma_b3::<F, F>, 3, 32, 40);
    mma_case(mt_moe_gather_qmm_mma_b5::<F, F>, 5, 32, 40);
    mma_case(mt_moe_gather_qmm_mma_b6::<F, F>, 6, 32, 40);
    mma_case(mt_moe_gather_qmm_mma_b8::<F, F>, 8, 32, 40);
}

#[test]
fn tiled_matmul_of_signed_bytes() {
    mma_case_of(mt_moe_gather_qmm_mma_int8::<F, F>, 8, 32, 40, &|c| c as u8 as i8 as f32);
    // words of all ones are weights of minus one
    let ones = vec![F(1.0); 32];
    let mut out = vec![F(0.0); 32];
    mt_moe_gather_qmm_mma_int8(
        &ones,
        &vec![0xffff_ffffu32; 256],
        &ones,
        &vec![F(0.0); 32],
        &[0],
        &mut out,
        1,
        32,
        32,
        32,
        1,
    );
    assert_eq!(out, vec![F(-32.0); 32]);
    // the same words as unsigned bytes
    mt_moe_gather_qmm_mma_b8(
        &ones,
        &vec![0xffff_ffffu32; 256],
        &ones,
        &vec![F(0.0); 32],
        &[0],
        &mut out,
        1,
        32,
        32,
        32,
        1,
    );
    assert_eq!(out, vec![F(8160.0); 32]);
}

#[test]
fn cooperative_tiles() {
    mma_case(mt_moe_gather_qmm_mma_int4_bm16_mpp::<F, F>, 4, 64, 37);
    mma_case(mt_moe_gather_qmm_mma_int4_bm8_mpp::<F, F>, 4, 64, 37);
    mma_case(mt_moe_gather_qmm_mma_int4_bm64_mpp::<F, F>, 4, 64, 70);
    mma_case(mt_moe_gather_qmm_mma_int8_bm8_mpp::<F, F>, 8, 64, 37);
    mma_case(mt_moe_gather_qmm_mma_int8_bm16_mpp::<F, F>, 8, 64, 37);
}

/// A trial run as the cooperative kernels share it.
fn trial(bn: u32, bm: u32, tpg: u32) -> IndexedSetup<F> {
    let shape =
        MmaTestShape { n_experts: 4, m_total: 64, n_out: 64, k_in: 64, group_size: 32 };
    let n = 4 * 64 * 2;
    int4_indexed_setup::<F, F>(
        shape,
        bn,
        bm,
        tpg,
        floats(&sines(64 * 64, 0.05, 0.013)),
        (0..n).map(|i| F(0.005 + 0.001 * (i as f32 * 0.03).sin())).collect(),
        (0..n).map(|i| F(-0.02 + 0.005 * (i as f32 * 0.07).cos())).collect(),
    )
}

fn run_trial(kernel: MmaKernel, s: &IndexedSetup<F>) {
    let mut out = vec![F(0.0); s.out_len];
    kernel(
        &s.x,
        &s.w,
        &s.scales,
        &s.biases,
        &s.indices,
        &mut out,
        s.m_total,
        s.n_out,
        s.k_in,
        s.group_size,
        4,
    );
    let want: Vec<f32> = s.expected.iter().map(|x| x.0).collect();
    close(&out, &want, 5e-3);
}

#[test]
fn test_moe_gather_qmm_mma_int4_bm64_mpp() {
    let s = trial(64, 64, 128);
    assert_eq!(s.grid, (1, 1, 1));
    assert_eq!(s.threads, (128, 1, 1));
    run_trial(mt_moe_gather_qmm_mma_int4_bm64_mpp::<F, F>, &s);
}

#[test]
fn test_moe_gather_qmm_mma_int4_bm8_mpp() {
    let s = trial(32, 8, 32);
    assert_eq!(s.grid, (2, 8, 1));
    run_trial(mt_moe_gather_qmm_mma_int4_bm8_mpp::<F, F>, &s);
}

#[test]
fn trial_inputs_are_as_stated() {
    let s = trial(32, 8, 32);
    assert_eq!(s.indices[15], 0);
    assert_eq!(s.indices[16], 1);
    assert_eq!(s.indices[63], 3);
    assert_eq!(s.w.len(), 4 * 64 * 64 / 8);
    // codes 3, 10, 1, 8, 15, 6, 13, 4 from the lowest nibble up
    assert_eq!(s.w[0], 0x4d6f81a3);
    assert_eq!(s.out_len, 4096);
    assert_eq!((s.m_total, s.n_out, s.k_in, s.group_size), (64, 64, 64, 32));
    let w = experts(4, 4, 64, 64, 32);
    assert_eq!(s.w, w.words);
    let x: Vec<f32> = s.x[17 * 64..18 * 64].iter().map(|v| v.0).collect();
    let groups = 2;
    let row = 64 + 5;
    let want: f32 = (0..64)
        .map(|k| {
            let g = row * groups + k / 32;
            (w.codes[row * 64 + k] as f32 * s.scales[g].0 + s.biases[g].0) * x[k]
        })
        .sum();
    assert!((s.expected[17 * 64 + 5].0 - want).abs() < 1e-5);
    let again: Vec<F> = cpu_gather_qmm_int4_indexed::<F, F>(
        &s.x, &s.w, &s.scales, &s.biases, &s.indices, 64, 64, 64, 32, 4,
    );
    assert_eq!(again, s.expected);
}

#[test]
fn launch_plans() {
    let shape = MmaBenchShape {
        bits: 4,
        bn: 32,
        bm: 16,
        tpg: 32,
        m_total: 1000,
        n_out: 256,
        k_in: 2048,
        n_experts: 128,
        group_size: 64,
    };
    let p = int4_mma_bench(shape, 2);
    assert_eq!(p.x, 1000 * 2048);
    assert_eq!(p.words, 128 * 256 * 256);
    assert_eq!(p.scales, 128 * 256 * 32);
    assert_eq!(p.routing, 1000);
    assert_eq!(p.out, 256_000);
    assert_eq!(p.grid, (8, 63, 1));
    assert_eq!(p.threads, (32, 1, 1));
    assert_eq!(p.bytes_moved, 33_554_432 + 4_194_304 + 4_096_000 + 512_000);
    let c = csr_bench(3, 8, 64, 2048, 256, 128, 64, 4);
    assert_eq!(c.words, 128 * 256 * 192);
    assert_eq!(c.routing, 129);
    assert_eq!(c.grid, (32, 64, 1));
    assert_eq!(c.threads, (32, 1, 1));
    assert_eq!(
        c.bytes_moved,
        128 * 256 * 192 * 4 + 2 * 128 * 256 * 32 * 4 + 64 * 2048 * 4 + 64 * 256 * 4
    );
    assert_eq!(get_tiles(64, 32), 2);
    assert_eq!(get_tiles(65, 32), 3);
    assert_eq!(get_tiles(0, 32), 0);
    assert_eq!(get_tiles(u32::MAX, 2), 0x8000_0000);
}

#[test]
fn router_picks_and_weighs() {
    let logits = [0.5f32, 2.0, -1.0, 2.0, 1.0, 0.0];
    let mut idx = vec![0u32; 3];
    let mut wts = vec![F(0.0); 3];
    mt_moe_router_topk(&floats(&logits), &mut idx, &mut wts, 6, 3, 1, 1);
    // a tie goes to the smaller index
    assert_eq!(idx, vec![1, 3, 4]);
    let e: Vec<f32> = [2.0f32, 2.0, 1.0].iter().map(|z| (z - 2.0).exp()).collect();
    let chosen: f32 = e.iter().sum();
    close(&wts, &[e[0] / chosen, e[1] / chosen, e[2] / chosen], 1e-6);
    assert!((wts.iter().map(|w| w.0).sum::<f32>() - 1.0).abs() < 1e-6);
    let all: f32 = logits.iter().map(|z| (z - 2.0).exp()).sum();
    mt_moe_router_topk(&floats(&logits), &mut idx, &mut wts, 6, 3, 0, 1);
    assert_eq!(idx, vec![1, 3, 4]);
    close(&wts, &[e[0] / all, e[1] / all, e[2] / all], 1e-6);
    // raw weights leave out the share of the other experts
    let raw: f32 = wts.iter().map(|w| w.0).sum();
    assert!(raw < 1.0);
    close(&wts, &[raw * e[0] / chosen, raw * e[1] / chosen, raw * e[2] / chosen], 1e-6);
    // with every expert chosen nothing is left out
    let (mut idx, mut wts) = (vec![0u32; 6], vec![F(0.0); 6]);
    mt_moe_router_topk(&floats(&logits), &mut idx, &mut wts, 6, 6, 0, 1);
    assert_eq!(idx, vec![1, 3, 4, 0, 5, 2]);
    assert!((wts.iter().map(|w| w.0).sum::<f32>() - 1.0).abs() < 1e-6);
}

#[test]
fn router_rows_and_wide_rows() {
    let n = 128usize;
    let logits: Vec<f32> = (0..3 * n).map(|i| ((i * 37) % 101) as f32 * 0.03).collect();
    let mut idx = vec![0u32; 3 * 8];
    let mut wts = vec![F(0.0); 3 * 8];
    mt_moe_router_topk(&floats(&logits), &mut idx, &mut wts, 128, 8, 1, 3);
    for r in 0..3 {
        let row = &logits[r * n..(r + 1) * n];
        let mut order: Vec<usize> = (0..n).collect();
        order.sort_by(|&a, &b| row[b].partial_cmp(&row[a]).unwrap().then(a.cmp(&b)));
        let want: Vec<u32> = order[..8].iter().map(|&j| j as u32).collect();
        assert_eq!(idx[r * 8..(r + 1) * 8], want[..]);
    }
}

#[test]
fn permute_then_unpermute() {
    let hidden = 5usize;
    let tokens: Vec<F> = (0..4 * hidden).map(|i| F(i as f32)).collect();
    // two experts per token, sorted by expert
    let sort = [0u32, 2, 1, 3, 3, 0, 2, 1];
    let mut permuted = vec![F(-1.0); 8 * hidden + 1];
    mt_moe_permute(&tokens, &sort, &mut permuted, 5, 8);
    assert_eq!(permuted[2 * hidden..3 * hidden], tokens[hidden..2 * hidden]);
    assert_eq!(permuted[8 * hidden], F(-1.0));
    let inverse = [0u32, 5, 2, 7, 1, 6, 3, 4];
    let weights = floats(&[0.25, 0.75, 0.5, 0.5, 1.0, 0.0, 0.125, 0.875]);
    let mut out = vec![F(-1.0); 4 * hidden];
    mt_moe_unpermute(&permuted, &inverse, &weights, &mut out, 5, 2, 4);
    // weights that add up to one give every token back
    let want: Vec<f32> = tokens.iter().map(|t| t.0).collect();
    close(&out, &want, 1e-5);
    // other weights scale it
    let double = vec![F(1.0); 8];
    mt_moe_unpermute(&permuted, &inverse, &double, &mut out, 5, 2, 4);
    let want: Vec<f32> = tokens.iter().map(|t| 2.0 * t.0).collect();
    close(&out, &want, 1e-5);
}

#[test]
fn test_router_sqrtsoftplus_v4_flash() {
    sqrtsoftplus_case(288);
}

#[test]
fn test_router_sqrtsoftplus_large() {
    sqrtsoftplus_case(512);
}

fn sqrtsoftplus_case(n: usize) {
    let logits: Vec<f32> = (0..n).map(|i| (i as f32 - n as f32 / 2.0) * 0.25).collect();
    let bias: Vec<f32> = (0..n).map(|i| (i % 13) as f32 * 0.02 - 0.13).collect();
    let unbiased: Vec<f32> = logits
        .iter()
        .map(|&x| {
            let pos = if x >= 0.0 { x } else { 0.0 };
            (pos + (1.0 + (-x.abs()).exp()).ln()).sqrt()
        })
        .collect();
    let biased: Vec<f32> = unbiased.iter().zip(&bias).map(|(s, b)| s + b).collect();
    let mut u = vec![F(0.0); n];
    let mut b = vec![F(0.0); n];
    ffai_moe_router_sqrtsoftplus(&floats(&logits), &floats(&bias), &mut u, &mut b, n as u32);
    close(&u, &unbiased, 1e-5);
    close(&b, &biased, 1e-5);
    // the logarithm of one plus the exponential, where nothing overflows
    for (s, x) in u.iter().zip(&logits).filter(|(_, x)| x.abs() < 10.0) {
        assert!((s.0 - (1.0 + x.exp()).ln().sqrt()).abs() < 1e-4);
    }
}

#[test]
fn test_moe_down_swiglu_accum_int4_chain8() {
    let (n_experts, in_dim, out_dim, group) = (4usize, 64usize, 8usize, 32usize);
    let wave = |step: f32, cos: bool| -> Vec<Vec<f32>> {
        (0..8)
            .map(|k| {
                (0..in_dim)
                    .map(|d| {
                        let a = (k * in_dim + d) as f32 * step;
                        if cos { a.cos() * 0.5 } else { a.sin() * 0.5 }
                    })
                    .collect()
            })
            .collect()
    };
    let (gates, ups) = (wave(0.017, false), wave(0.021, true));
    let w = experts_of(
        4,
        n_experts,
        in_dim,
        out_dim,
        group,
        &|i| 0.005 + 0.001 * (i as f32 * 0.03).sin(),
        &|i| -0.02 + 0.005 * (i as f32 * 0.07).cos(),
    );
    let slots: Vec<f32> = (0..8).map(|k| 0.1 + k as f32 * 0.05).collect();
    let idx: Vec<u32> = (0..8).map(|k| (k % n_experts) as u32).collect();
    let mut want = vec![0.0f32; out_dim];
    for (row, o) in want.iter_mut().enumerate() {
        for k in 0..8 {
            let inner: Vec<f32> = (0..in_dim)
                .map(|d| gates[k][d] / (1.0 + (-gates[k][d]).exp()) * ups[k][d])
                .collect();
            *o += slots[k] * w.dot(idx[k] as usize, row, &inner);
        }
    }
    let g: Vec<Vec<F>> = gates.iter().map(|v| floats(v)).collect();
    let u: Vec<Vec<F>> = ups.iter().map(|v| floats(v)).collect();
    for threads in [1u32, 7, 64] {
        let mut out = vec![F(0.0); out_dim];
        ffai_moe_down_swiglu_accum_int4_chain8(
            &g,
            &u,
            &idx,
            &floats(&slots),
            &w.words,
            &floats(&w.scales),
            &floats(&w.biases),
            &mut out,
            64,
            8,
            32,
            4,
            threads,
        );
        close(&out, &want, 5e-3);
    }
    let reference: Vec<F> = naive_down_swiglu::<F, F>(
        &g,
        &u,
        &idx,
        &floats(&slots),
        &w.words,
        &floats(&w.scales),
        &floats(&w.biases),
        64,
        8,
        32,
        4,
    );
    close(&reference, &want, 5e-3);
}
