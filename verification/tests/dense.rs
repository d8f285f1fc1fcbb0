//! Rotary embeddings, norms, fused products, patch embedding and sampling
//! against plain floats.
use metaltile_std::ffai::gemv_reference::naive_rms_norm_qgemv;
use metaltile_std::ffai::patch_embed::{naive_patch_embed, patch_embed};
use metaltile_std::ffai::patch_embed_mma::patch_embed_mma;
use metaltile_std::ffai::rms_norm_qgemv::{
    ffai_rms_norm_qgemv, ffai_rms_norm_qgemv_fast, ffai_rms_norm_qgemv_int8_fast,
};
use metaltile_std::ffai::rms_norm_residual::ffai_rms_norm_residual;
use metaltile_std::ffai::rms_norm_rope::ffai_rms_norm_rope;
use metaltile_std::ffai::rope_2d::ffai_rope_2d;
use metaltile_std::ffai::rope_llama::ffai_rope_llama;
use metaltile_std::ffai::rope_llama_many::ffai_rope_llama_many;
use metaltile_std::ffai::rope_yarn::ffai_rope_yarn;
use metaltile_std::ffai::sampling::softmax_categorical_sample;
use metaltile_std::num::{Num, Store};
use metaltile_std::quant::{pack_int4_row, pack_int8_row, xorshift_draws};

/// Single-precision accumulator, and full-precision storage.
#[derive(Clone, Copy, Debug, PartialEq)]
struct F(f32);

impl Num for F {
    fn zero() -> F {
        F(0.0)
    }
    fn one() -> F {
        F(1.0)
    }
    fn neg_inf() -> F {
        F(f32::NEG_INFINITY)
    }
    fn two_pi() -> F {
        F(std::f32::consts::TAU)
    }
    fn of_u32(n: u32) -> F {
        F(n as f32)
    }
    fn recip_u32(n: u32) -> F {
        F(1.0 / n as f32)
    }
    fn add(self, o: F) -> F {
        F(self.0 + o.0)
    }
    fn sub(self, o: F) -> F {
        F(self.0 - o.0)
    }
    fn mul(self, o: F) -> F {
        F(self.0 * o.0)
    }
    fn div(self, o: F) -> F {
        F(self.0 / o.0)
    }
    fn neg(self) -> F {
        F(-self.0)
    }
    fn exp(self) -> F {
        F(self.0.exp())
    }
    fn ln(self) -> F {
        F(self.0.ln())
    }
    fn exp2(self) -> F {
        F(self.0.exp2())
    }
    fn log2(self) -> F {
        F(self.0.log2())
    }
    fn sqrt(self) -> F {
        F(self.0.sqrt())
    }
    fn rsqrt(self) -> F {
        F(1.0 / self.0.sqrt())
    }
    fn sin(self) -> F {
        F(self.0.sin())
    }
    fn cos(self) -> F {
        F(self.0.cos())
    }
    fn gt(self, o: F) -> bool {
        self.0 > o.0
    }
    fn ge(self, o: F) -> bool {
        self.0 >= o.0
    }
    fn eq(self, o: F) -> bool {
        self.0 == o.0
    }
    fn lane_sum(values: &Vec<F>) -> F {
        // pairwise, as a butterfly reduction adds its lanes
        let mut v: Vec<f32> = values.iter().map(|x| x.0).collect();
        while v.len() > 1 {
            v = v.chunks(2).map(|c| c.iter().sum()).collect();
        }
        F(v.first().copied().unwrap_or(0.0))
    }
    fn lane_max(values: &Vec<F>) -> F {
        F(values.iter().map(|x| x.0).fold(f32::NEG_INFINITY, f32::max))
    }
    fn dot_acc(acc: F, a: &Vec<F>, b: &Vec<F>) -> F {
        F(a.iter().zip(b).fold(acc.0, |s, (x, y)| s + x.0 * y.0))
    }
}

impl Store<F> for F {
    fn widen(self) -> F {
        self
    }
    fn narrow(value: F) -> F {
        value
    }
    fn stage(value: F) -> F {
        value
    }
}

fn floats(v: &[f32]) -> Vec<F> {
    v.iter().map(|&x| F(x)).collect()
}

fn close(got: &[F], want: &[f32], tol: f32) {
    assert_eq!(got.len(), want.len());
    for (i, (g, w)) in got.iter().zip(want).enumerate() {
        assert!((g.0 - w).abs() <= tol, "element {i}: {} instead of {w}", g.0);
    }
}

/// Inverse frequency of pair `i`, banded by wavelength.
fn band_inv_freq(i: usize, half: usize, theta: f32, sf: f32, lf: f32, hf: f32, omp: f32) -> f32 {
    let base = (-(i as f32) * theta.log2() / half as f32).exp2();
    let wavelen = std::f32::consts::TAU / base;
    let scaled = base / sf;
    let s = (omp / wavelen - lf) / (hf - lf);
    if wavelen > omp / lf {
        scaled
    } else if wavelen < omp / hf {
        base
    } else {
        (1.0 - s) * scaled + s * base
    }
}

fn qk(n: usize) -> Vec<f32> {
    (0..n).map(|i| ((i % 13) as f32 - 6.0) * 0.1).collect()
}

/// Rotates the pairs of one head in place.
fn rotate_head(x: &mut [f32], half: usize, trig: &dyn Fn(usize) -> (f32, f32)) {
    for i in 0..half {
        let (c, s) = trig(i);
        let (a, b) = (x[i], x[i + half]);
        x[i] = a * c - b * s;
        x[i + half] = a * s + b * c;
    }
}

#[test]
fn test_rope_llama() {
    rope_llama_case(1.0, 1.0, 1.0, 1.0e9);
}

#[test]
fn rope_llama_bands() {
    // long, short and blended wavelengths all occur
    rope_llama_case(8.0, 1.0, 4.0, 8192.0);
}

fn rope_llama_case(sf: f32, lf: f32, hf: f32, omp: f32) {
    let (heads, d, half) = (4usize, 64usize, 32usize);
    let x = qk(heads * d);
    let mut want = x.clone();
    for h in 0..heads {
        rotate_head(&mut want[h * d..(h + 1) * d], half, &|i| {
            let th = 100.0 * band_inv_freq(i, half, 500_000.0, sf, lf, hf, omp);
            (th.cos(), th.sin())
        });
    }
    let mut out = vec![F(0.0); heads * d];
    ffai_rope_llama(
        &floats(&x),
        &mut out,
        64,
        32,
        100,
        F(500_000.0),
        F(sf),
        F(lf),
        F(hf),
        F(omp),
        4,
    );
    close(&out, &want, 1e-4);
}

#[test]
fn test_rope_llama_many() {
    let (rows, heads, d, half) = (4usize, 4usize, 64usize, 32usize);
    let stride = heads * d;
    let x = qk(rows * stride);
    let positions: Vec<u32> = (0..rows as u32).map(|r| r * 10).collect();
    let mut want = x.clone();
    for r in 0..rows {
        for h in 0..heads {
            let at = r * stride + h * d;
            rotate_head(&mut want[at..at + d], half, &|i| {
                let f = band_inv_freq(i, half, 500_000.0, 1.0, 1.0, 1.0, 1.0e9);
                let th = positions[r] as f32 * f;
                (th.cos(), th.sin())
            });
        }
    }
    let mut out = vec![F(0.0); rows * stride];
    ffai_rope_llama_many(
        &floats(&x),
        &positions,
        &mut out,
        64,
        32,
        stride as u32,
        F(500_000.0),
        F(1.0),
        F(1.0),
        F(1.0),
        F(1.0e9),
        4,
        4,
    );
    close(&out, &want, 1e-4);
    // row by row the single-row kernel writes the same
    for r in 0..rows {
        let mut single = vec![F(0.0); stride];
        ffai_rope_llama(
            &floats(&x[r * stride..(r + 1) * stride]),
            &mut single,
            64,
            32,
            positions[r],
            F(500_000.0),
            F(1.0),
            F(1.0),
            F(1.0),
            F(1.0e9),
            4,
        );
        assert_eq!(out[r * stride..(r + 1) * stride], single[..]);
    }
}

#[test]
fn position_zero_is_copied() {
    let x = floats(&qk(4 * 64));
    let mut out = vec![F(9.0); 4 * 64];
    ffai_rope_llama(
        &x,
        &mut out,
        64,
        32,
        0,
        F(500_000.0),
        F(8.0),
        F(1.0),
        F(4.0),
        F(8192.0),
        4,
    );
    assert_eq!(out, x);
    let mut out = vec![F(9.0); 4 * 64];
    ffai_rope_yarn(
        &x,
        &mut out,
        64,
        32,
        0,
        F(10_000.0),
        F(4.0),
        F(16.0),
        F(24.0),
        F(1.0),
        4,
    );
    assert_eq!(out, x);
    // the second of two rows and of two tokens is at the origin
    let mut out = vec![F(9.0); 4 * 64];
    ffai_rope_llama_many(
        &x,
        &[7, 0],
        &mut out,
        64,
        32,
        128,
        F(500_000.0),
        F(8.0),
        F(1.0),
        F(4.0),
        F(8192.0),
        2,
        2,
    );
    assert_eq!(out[128..], x[128..]);
    assert_ne!(out[..128], x[..128]);
    let mut out = vec![F(9.0); 4 * 64];
    ffai_rope_2d(&x, &[1, 2, 0, 0], &mut out, 2, 64, 32, 16, F(10_000.0), 2);
    assert_eq!(out[128..], x[128..]);
    assert_ne!(out[..128], x[..128]);
    // normalised, but not rotated
    let w = floats(&qk(128));
    let row = floats(&qk(128));
    let mut out = vec![F(9.0); 128];
    ffai_rms_norm_rope(&row, &w, &vec![F(0.5); 64], &mut out, &[F(1e-5)], 128, 0, 1, 1, 1);
    let ssq: f32 = row.iter().map(|v| v.0 * v.0).sum();
    let inv = 1.0 / (ssq / 128.0 + 1e-5).sqrt();
    let want: Vec<f32> = row.iter().zip(&w).map(|(v, c)| v.0 * inv * c.0).collect();
    close(&out, &want, 1e-5);
}

#[test]
fn rope_many_leaves_row_slack_alone() {
    let (d, stride) = (8usize, 11usize);
    let x = qk(2 * stride);
    let mut out = vec![F(9.0); 2 * stride];
    ffai_rope_llama_many(
        &floats(&x),
        &[3, 4],
        &mut out,
        8,
        4,
        11,
        F(10_000.0),
        F(1.0),
        F(1.0),
        F(1.0),
        F(1.0e9),
        2,
        1,
    );
    for r in 0..2 {
        assert!(out[r * stride + d..(r + 1) * stride].iter().all(|v| *v == F(9.0)));
        assert!(out[r * stride..r * stride + d].iter().all(|v| *v != F(9.0)));
    }
}

#[test]
fn test_rope_yarn() {
    rope_yarn_case(4.0, 16.0, 24.0, 1.0);
}

#[test]
fn test_rope_yarn_nemotron() {
    rope_yarn_case(16.0, 20.0, 37.0, 1.13);
}

fn rope_yarn_case(factor: f32, low: f32, high: f32, attn: f32) {
    let (heads, d, half) = (4usize, 64usize, 32usize);
    let x = qk(heads * d);
    let mut want = x.clone();
    for h in 0..heads {
        rotate_head(&mut want[h * d..(h + 1) * d], half, &|i| {
            let extrap = (-(i as f32) * 10_000f32.log2() / half as f32).exp2();
            let ramp = ((i as f32 - low) / (high - low)).clamp(0.0, 1.0);
            let th = 100.0 * (extrap / factor * ramp + extrap * (1.0 - ramp));
            (th.cos() * attn, th.sin() * attn)
        });
    }
    let mut out = vec![F(0.0); heads * d];
    ffai_rope_yarn(
        &floats(&x),
        &mut out,
        64,
        32,
        100,
        F(10_000.0),
        F(factor),
        F(low),
        F(high),
        F(attn),
        4,
    );
    close(&out, &want, 1e-4);
}

#[test]
fn test_rope_2d() {
    let (tokens, heads, d) = (4usize, 2usize, 64usize);
    let (half, quarter) = (32usize, 16usize);
    let x = qk(tokens * heads * d);
    let positions: Vec<u32> = (0..tokens as u32).flat_map(|t| [t, t * 2]).collect();
    let mut want = x.clone();
    for t in 0..tokens {
        for h in 0..heads {
            let at = (t * heads + h) * d;
            for (axis, first) in [(0usize, at), (1, at + half)] {
                let p = positions[t * 2 + axis] as f32;
                rotate_head(&mut want[first..first + half], quarter, &|j| {
                    let f = (-2.0 * j as f32 * 10_000f32.log2() / half as f32).exp2();
                    ((p * f).cos(), (p * f).sin())
                });
            }
        }
    }
    let mut out = vec![F(0.0); tokens * heads * d];
    ffai_rope_2d(&floats(&x), &positions, &mut out, 2, 64, 32, 16, F(10_000.0), 4);
    close(&out, &want, 1e-4);
}

#[test]
fn test_ffai_rms_norm_residual() {
    let (rows, n, eps) = (4usize, 512usize, 1e-5f32);
    let w: Vec<f32> = (0..n).map(|i| 1.0 + ((i % 11) as f32 - 5.0) * 0.02).collect();
    let mut x = Vec::new();
    let mut res = Vec::new();
    for r in 0..rows {
        x.extend((0..n).map(|i| ((i % 17) as f32 - 8.0) * 0.1 + r as f32 * 0.03));
        res.extend((0..n).map(|i| ((i % 13) as f32 - 6.0) * 0.07 + r as f32 * 0.02));
    }
    let mut want = Vec::new();
    for r in 0..rows {
        let row = &x[r * n..(r + 1) * n];
        let ms = row.iter().map(|v| v * v).sum::<f32>() / n as f32;
        let inv = 1.0 / (ms + eps).sqrt();
        want.extend((0..n).map(|i| res[r * n + i] + row[i] * inv * w[i]));
    }
    let mut out = vec![F(0.0); rows * n];
    ffai_rms_norm_residual(
        &floats(&x),
        &floats(&res),
        &floats(&w),
        &mut out,
        &[F(eps)],
        512,
        4,
    );
    close(&out, &want, 1e-4);
}

#[test]
fn test_ffai_rms_norm_rope() {
    let (axis, heads, seq, offset, eps) = (128usize, 4usize, 8usize, 5usize, 1e-5f32);
    let (rows, half) = (heads * seq, axis / 2);
    let x: Vec<f32> = (0..rows * axis).map(|i| ((i % 53) as f32) * 0.07 - 1.8).collect();
    let w: Vec<f32> = (0..axis).map(|i| 1.0 + 0.02 * ((i % 11) as f32 - 5.0)).collect();
    let freqs: Vec<f32> =
        (0..half).map(|i| 1.0 / 10000f32.powf(i as f32 / half as f32)).collect();
    let mut want = x.clone();
    for r in 0..rows {
        let row = &mut want[r * axis..(r + 1) * axis];
        let ssq: f32 = row.iter().map(|v| v * v).sum();
        let inv = 1.0 / (ssq / axis as f32 + eps).sqrt();
        for (v, wi) in row.iter_mut().zip(&w) {
            *v *= wi * inv;
        }
        let pos = (offset + (r / heads) % seq) as f32;
        rotate_head(row, half, &|i| ((pos * freqs[i]).cos(), (pos * freqs[i]).sin()));
    }
    let mut out = vec![F(0.0); rows * axis];
    ffai_rms_norm_rope(
        &floats(&x),
        &floats(&w),
        &floats(&freqs),
        &mut out,
        &[F(eps)],
        128,
        5,
        4,
        8,
        rows as u32,
    );
    close(&out, &want, 1e-3);
}

/// Draws of the xorshift generator, scaled and shifted.
fn source(n: usize, seed: u64, scale: f32, off: f32) -> Vec<f32> {
    xorshift_draws(n, seed)
        .iter()
        .map(|&d| (d as f32 / 20_000.0 - 0.5) * scale + off)
        .collect()
}

/// Quantises a row group by group: codes, scales, biases.
fn quantize_row(row: &[f32], group: usize, top: f32) -> (Vec<u32>, Vec<f32>, Vec<f32>) {
    let (mut codes, mut scales, mut biases) = (Vec::new(), Vec::new(), Vec::new());
    for g in row.chunks(group) {
        let mn = g.iter().copied().fold(f32::INFINITY, f32::min);
        let mx = g.iter().copied().fold(f32::NEG_INFINITY, f32::max);
        let range = mx - mn;
        let scale = if range.abs() < 1e-10 { 1.0 } else { range / top };
        codes.extend(g.iter().map(|v| ((v - mn) / scale).round().clamp(0.0, top) as u32));
        scales.push(scale);
        biases.push(mn);
    }
    (codes, scales, biases)
}

struct Gemv {
    x: Vec<f32>,
    norm: Vec<f32>,
    words: Vec<u32>,
    scales: Vec<f32>,
    biases: Vec<f32>,
    want: Vec<f32>,
}

fn gemv(in_dim: usize, group: usize, out_dim: usize, int8: bool) -> Gemv {
    let x = source(in_dim, 0xA1, 2.0, 0.1);
    let norm = source(in_dim, 0xB2, 0.4, 1.0);
    let rows = source(out_dim * in_dim, 0xC3, 3.0, 0.0);
    let ssq: f32 = x.iter().map(|v| v * v).sum();
    let inv = 1.0 / (ssq / in_dim as f32 + 1e-5).sqrt();
    let (mut words, mut scales, mut biases, mut want) = (vec![], vec![], vec![], vec![]);
    for row in rows.chunks(in_dim) {
        let (c, s, b) = quantize_row(row, group, if int8 { 255.0 } else { 15.0 });
        words.extend(if int8 { pack_int8_row(&c) } else { pack_int4_row(&c) });
        want.push(
            (0..in_dim)
                .map(|d| (c[d] as f32 * s[d / group] + b[d / group]) * (x[d] * norm[d] * inv))
                .sum(),
        );
        scales.extend(s);
        biases.extend(b);
    }
    Gemv { x, norm, words, scales, biases, want }
}

#[test]
fn test_rms_norm_qgemv() {
    let g = gemv(256, 64, 8, false);
    for threads in [32u32, 100, 128] {
        let mut out = vec![F(0.0); 8];
        ffai_rms_norm_qgemv(
            &floats(&g.x),
            &floats(&g.norm),
            &g.words,
            &floats(&g.scales),
            &floats(&g.biases),
            &mut out,
            &[F(1e-5)],
            256,
            64,
            8,
            threads,
        );
        close(&out, &g.want, 2e-3);
    }
}

#[test]
fn test_rms_norm_qgemv_fast() {
    let g = gemv(512, 64, 16, false);
    let mut out = vec![F(0.0); 16];
    ffai_rms_norm_qgemv_fast(
        &floats(&g.x),
        &floats(&g.norm),
        &g.words,
        &floats(&g.scales),
        &floats(&g.biases),
        &mut out,
        &[F(1e-5)],
        512,
        64,
        16,
    );
    close(&out, &g.want, 2e-3);
}

#[test]
fn test_rms_norm_qgemv_int8_fast() {
    let g = gemv(512, 64, 16, true);
    let mut out = vec![F(0.0); 16];
    ffai_rms_norm_qgemv_int8_fast(
        &floats(&g.x),
        &floats(&g.norm),
        &g.words,
        &floats(&g.scales),
        &floats(&g.biases),
        &mut out,
        &[F(1e-5)],
        512,
        64,
        16,
    );
    close(&out, &g.want, 2e-3);
    let reference: Vec<F> = naive_rms_norm_qgemv::<F, F>(
        &g.words,
        &floats(&g.scales),
        &floats(&g.biases),
        &floats(&g.x),
        &floats(&g.norm),
        512,
        64,
        16,
        8,
        F(1e-5),
    );
    close(&reference, &g.want, 1e-3);
}

fn wave(n: usize, period: usize, amp: f32) -> Vec<f32> {
    (0..n).map(|i| ((i % period) as f32 / period as f32 - 0.5) * amp).collect()
}

/// Cuts the image into patches and projects each, with plain floats.
fn embed(img: &[f32], w: &[f32], b: &[f32], c: usize, ih: usize, iw: usize, ph: usize, pw: usize) -> Vec<f32> {
    let hidden = b.len();
    let dim = c * ph * pw;
    let mut out = Vec::new();
    for gy in 0..ih / ph {
        for gx in 0..iw / pw {
            for h in 0..hidden {
                let mut acc = b[h];
                for ic in 0..c {
                    for y in 0..ph {
                        for x in 0..pw {
                            let pix = img[(ic * ih + gy * ph + y) * iw + gx * pw + x];
                            acc += pix * w[h * dim + (ic * ph + y) * pw + x];
                        }
                    }
                }
                out.push(acc);
            }
        }
    }
    out
}

fn patch_case(c: usize, ih: usize, iw: usize, ph: usize, pw: usize, hidden: usize, tiled: bool) {
    let img = wave(c * ih * iw, 13, 6.0);
    let w = wave(hidden * c * ph * pw, 11, 4.0);
    let b = wave(hidden, 5, 2.0);
    let want = embed(&img, &w, &b, c, ih, iw, ph, pw);
    let (i, w, b) = (floats(&img), floats(&w), floats(&b));
    let dims = (c as u32, ih as u32, iw as u32, ph as u32, pw as u32, hidden as u32);
    let mut out = vec![F(0.0); want.len()];
    patch_embed(&i, &w, &b, &mut out, dims.0, dims.1, dims.2, dims.3, dims.4, dims.5);
    close(&out, &want, 1e-3);
    let naive: Vec<F> =
        naive_patch_embed(&i, &w, &b, dims.0, dims.1, dims.2, dims.3, dims.4, dims.5);
    close(&naive, &want, 1e-3);
    if tiled {
        let mut mma = vec![F(0.0); want.len()];
        patch_embed_mma(&i, &w, &b, &mut mma, dims.0, dims.1, dims.2, dims.3, dims.4, dims.5);
        close(&mma, &want, 2e-2);
    }
}

#[test]
fn test_patch_embed_patch14() {
    patch_case(3, 28, 42, 14, 14, 32, false);
}

#[test]
fn test_patch_embed_patch16() {
    patch_case(3, 32, 48, 16, 16, 24, false);
}

#[test]
fn test_patch_embed_patch8() {
    patch_case(2, 16, 16, 8, 8, 12, false);
}

#[test]
fn tiled_embedding_with_and_without_a_partial_block() {
    // 2 * 8 * 8 pixels fill their blocks, 3 * 5 * 7 do not
    patch_case(2, 32, 64, 8, 8, 32, true);
    patch_case(3, 40, 56, 5, 7, 64, true);
}

#[test]
fn test_softmax_categorical_sample() {
    let mut logits = vec![0.0f32; 1024];
    logits[813] = 30.0;
    assert_eq!(sample(&logits, 1.0, 0.5), 813);
}

fn sample(logits: &[f32], temperature: f32, uniform: f32) -> u32 {
    let mut out = vec![777u32];
    softmax_categorical_sample(
        &floats(logits),
        &mut out,
        &[F(temperature)],
        &[F(uniform)],
        logits.len() as u32,
    );
    out[0]
}

#[test]
fn samples_follow_the_cumulative_weights() {
    // equal weights: the draw falls into the position's share
    let flat = vec![1.5f32; 10];
    assert_eq!(sample(&flat, 1.0, 0.05), 0);
    assert_eq!(sample(&flat, 1.0, 0.15), 1);
    assert_eq!(sample(&flat, 1.0, 0.95), 9);
    // a draw of zero takes the first position
    assert_eq!(sample(&flat, 1.0, 0.0), 0);
    // two positions per lane
    let flat = vec![-2.0f32; 512];
    assert_eq!(sample(&flat, 0.7, 300.5 / 512.0), 300);
    assert_eq!(sample(&flat, 0.7, 0.9999), 511);
    // weights one, two, four and eight
    let skew: Vec<f32> = (0..4).map(|i| 2f32.powi(i).ln()).collect();
    assert_eq!(sample(&skew, 1.0, 0.5 / 15.0), 0);
    assert_eq!(sample(&skew, 1.0, 2.5 / 15.0), 1);
    assert_eq!(sample(&skew, 1.0, 6.5 / 15.0), 2);
    assert_eq!(sample(&skew, 1.0, 7.5 / 15.0), 3);
    // a lower temperature sharpens: weights 1, 4, 16, 64
    assert_eq!(sample(&skew, 0.5, 20.0 / 85.0), 2);
    assert_eq!(sample(&skew, 0.5, 22.0 / 85.0), 3);
}

#[test]
fn a_draw_that_is_no_number_keeps_the_output() {
    assert_eq!(sample(&[0.0, 1.0], 1.0, f32::NAN), 777);
    assert_eq!(sample(&[], 1.0, 0.5), 777);
}
