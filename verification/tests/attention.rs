//! The attention kernels against plain softmax attention.
use metaltile_std::ffai::sdpa_bidirectional::{
    ffai_sdpa_bidirectional_d32, ffai_sdpa_bidirectional_d64, ffai_sdpa_bidirectional_d72,
};
use metaltile_std::ffai::sdpa_bidirectional_d128_relpos::ffai_sdpa_bidirectional_d128_relpos;
use metaltile_std::ffai::sdpa_decode::ffai_sdpa_decode;
use metaltile_std::ffai::sdpa_decode_2pass::{
    recommended_blocks_m5_max, sdpa_decode_2pass_pass1, sdpa_decode_2pass_pass2,
};
use metaltile_std::ffai::sdpa_decode_batched::{
    sdpa_decode_batched_q2, sdpa_decode_batched_q4, sdpa_decode_batched_q8,
};
use metaltile_std::ffai::sdpa_decode_d256::ffai_sdpa_decode_d256;
use metaltile_std::ffai::sdpa_decode_d512_sink::ffai_sdpa_decode_d512_sink;
use metaltile_std::ffai::sdpa_multi::{ffai_sdpa_multi, ffai_sdpa_multi_tree_mask};
use metaltile_std::ffai::sdpa_reference::{
    naive_relpos, naive_sdpa, naive_sdpa_multi, naive_sdpa_sink,
};
use metaltile_std::num::{Num, Store};

/// Single-precision accumulator, and full-precision storage.
#[derive(Clone, Copy, Debug, PartialEq)]
struct F(f32);

/// Storage rounded to eight significant bits.
#[derive(Clone, Copy, Debug, PartialEq)]
struct B(u16);

impl Num for F {
    fn zero() -> F {
        F(0.0)
    }
    fn one() -> F {
        F(1.0)
    }
    fn neg_inf() -> F {
        F(f32::NEG_INFINITY)
    }
    fn two_pi() -> F {
        F(std::f32::consts::TAU)
    }
    fn of_u32(n: u32) -> F {
        F(n as f32)
    }
    fn recip_u32(n: u32) -> F {
        F(1.0 / n as f32)
    }
    fn add(self, o: F) -> F {
        F(self.0 + o.0)
    }
    fn sub(self, o: F) -> F {
        F(self.0 - o.0)
    }
    fn mul(self, o: F) -> F {
        F(self.0 * o.0)
    }
    fn div(self, o: F) -> F {
        F(self.0 / o.0)
    }
    fn neg(self) -> F {
        F(-self.0)
    }
    fn exp(self) -> F {
        F(self.0.exp())
    }
    fn ln(self) -> F {
        F(self.0.ln())
    }
    fn exp2(self) -> F {
        F(self.0.exp2())
    }
    fn log2(self) -> F {
        F(self.0.log2())
    }
    fn sqrt(self) -> F {
        F(self.0.sqrt())
    }
    fn rsqrt(self) -> F {
        F(1.0 / self.0.sqrt())
    }
    fn sin(self) -> F {
        F(self.0.sin())
    }
    fn cos(self) -> F {
        F(self.0.cos())
    }
    fn gt(self, o: F) -> bool {
        self.0 > o.0
    }
    fn ge(self, o: F) -> bool {
        self.0 >= o.0
    }
    fn eq(self, o: F) -> bool {
        self.0 == o.0
    }
    fn lane_sum(values: &Vec<F>) -> F {
        // pairwise, as a butterfly reduction adds its lanes
        let mut v: Vec<f32> = values.iter().map(|x| x.0).collect();
        while v.len() > 1 {
            v = v.chunks(2).map(|c| c.iter().sum()).collect();
        }
        F(v.first().copied().unwrap_or(0.0))
    }
    fn lane_max(values: &Vec<F>) -> F {
        F(values.iter().map(|x| x.0).fold(f32::NEG_INFINITY, f32::max))
    }
    fn dot_acc(acc: F, a: &Vec<F>, b: &Vec<F>) -> F {
        F(a.iter().zip(b).fold(acc.0, |s, (x, y)| s + x.0 * y.0))
    }
}

impl Store<F> for F {
    fn widen(self) -> F {
        self
    }
    fn narrow(value: F) -> F {
        value
    }
    fn stage(value: F) -> F {
        value
    }
}

impl Store<F> for B {
    fn widen(self) -> F {
        F(f32::from_bits((self.0 as u32) << 16))
    }
    fn narrow(value: F) -> B {
        let bits = value.0.to_bits();
        let round = 0x7fff + ((bits >> 16) & 1);
        B(((bits + round) >> 16) as u16)
    }
    fn stage(value: F) -> F {
        B::narrow(value).widen()
    }
}

fn floats(v: &[f32]) -> Vec<F> {
    v.iter().map(|&x| F(x)).collect()
}

fn close(got: &[F], want: &[f32], tol: f32) {
    assert_eq!(got.len(), want.len());
    for (i, (g, w)) in got.iter().zip(want).enumerate() {
        assert!((g.0 - w).abs() <= tol, "element {i}: {} instead of {w}", g.0);
    }
}

fn plain(v: &[F]) -> Vec<f32> {
    v.iter().map(|x| x.0).collect()
}

fn ramp(n: usize, step: f32, start: f32) -> Vec<F> {
    (0..n).map(|i| F(((start + i as f32 * step) % 2.0) - 1.0)).collect()
}

/// Softmax attention of one row, written with plain floats.
fn softmax_row(q: &[F], keys: &[F], vals: &[F], scale: f32, bias: &[f32], sink: Option<f32>) -> Vec<f32> {
    let d = q.len();
    let n = if d == 0 { 0 } else { keys.len() / d };
    let scores: Vec<f32> = (0..n)
        .map(|t| {
            let dot: f32 = (0..d).map(|i| q[i].0 * keys[t * d + i].0).sum();
            dot * scale + bias.get(t).copied().unwrap_or(0.0)
        })
        .collect();
    let mut m = scores.iter().copied().fold(f32::NEG_INFINITY, f32::max);
    if let Some(s) = sink {
        m = m.max(s);
    }
    let w: Vec<f32> = scores.iter().map(|s| (s - m).exp()).collect();
    let mut sum: f32 = w.iter().sum();
    if let Some(s) = sink {
        sum += (s - m).exp();
    }
    let inv = if sum > 0.0 { 1.0 / sum } else { 0.0 };
    (0..d).map(|i| (0..n).map(|t| w[t] * inv * vals[t * d + i].0).sum()).collect()
}

struct Cache {
    q: Vec<F>,
    k: Vec<F>,
    v: Vec<F>,
}

fn cache(rows: usize, n_kv_heads: usize, kv_stride: usize, d: usize) -> Cache {
    Cache {
        q: ramp(rows * d, 0.013, -0.4),
        k: ramp(n_kv_heads * kv_stride * d, 0.011, -0.5),
        v: ramp(n_kv_heads * kv_stride * d, 0.007, -0.3),
    }
}

/// Expected output of a decode whose head `h` attends the positions `range`.
fn decode_rows(
    c: &Cache,
    n_q: usize,
    gqa: usize,
    d: usize,
    kv_stride: usize,
    range: &[usize],
    sink: Option<&[f32]>,
) -> Vec<f32> {
    let scale = 1.0 / (d as f32).sqrt();
    let mut out = Vec::new();
    for h in 0..n_q {
        let base = (h / gqa) * kv_stride * d;
        let take = |m: &[F]| -> Vec<F> {
            range.iter().flat_map(|&t| m[base + t * d..base + (t + 1) * d].to_vec()).collect()
        };
        out.extend(softmax_row(
            &c.q[h * d..(h + 1) * d],
            &take(&c.k),
            &take(&c.v),
            scale,
            &[],
            sink.map(|s| s[h]),
        ));
    }
    out
}

#[test]
fn test_ffai_sdpa_decode() {
    let (n_q, n_kv_heads, d, n_kv) = (8usize, 4usize, 128usize, 64usize);
    let c = cache(n_q, n_kv_heads, n_kv, d);
    let scale = F(1.0 / (d as f32).sqrt());
    let all: Vec<usize> = (0..n_kv).collect();
    let want = decode_rows(&c, n_q, 2, d, n_kv, &all, None);
    for n_simd in [1u32, 5, 32] {
        let mut out = vec![F(0.0); n_q * d];
        ffai_sdpa_decode(
            &c.q, &c.k, &c.v, &mut out, 128, 64, 64, 2, 0, 0, 0, F(9.0), scale, 8, n_simd,
        );
        close(&out, &want, 1e-3);
    }
    let reference: Vec<F> = naive_sdpa::<F, F>(&c.q, &c.k, &c.v, 8, 4, 128, 64, 64, scale);
    close(&reference, &want, 1e-4);
}

#[test]
fn decode_attends_sink_range_and_window_only() {
    let (n_q, n_kv_heads, d, n_kv) = (4usize, 2usize, 128usize, 40usize);
    let c = cache(n_q, n_kv_heads, n_kv, d);
    let scale = F(1.0 / (d as f32).sqrt());
    let range: Vec<usize> = (0..4).chain(30..40).collect();
    let want = decode_rows(&c, n_q, 2, d, n_kv, &range, None);
    let mut out = vec![F(0.0); n_q * d];
    ffai_sdpa_decode(&c.q, &c.k, &c.v, &mut out, 128, 40, 40, 2, 4, 30, 0, F(0.0), scale, 4, 8);
    close(&out, &want, 1e-3);
}

#[test]
fn decode_sink_logit_joins_the_denominator() {
    let (n_q, n_kv_heads, d, n_kv) = (2usize, 1usize, 128usize, 16usize);
    let c = cache(n_q, n_kv_heads, n_kv, d);
    let scale = F(1.0 / (d as f32).sqrt());
    let all: Vec<usize> = (0..n_kv).collect();
    for logit in [-2.0f32, 6.0] {
        let want = decode_rows(&c, n_q, 2, d, n_kv, &all, Some(&[logit, logit]));
        let mut out = vec![F(0.0); n_q * d];
        ffai_sdpa_decode(
            &c.q, &c.k, &c.v, &mut out, 128, 16, 16, 2, 0, 0, 1, F(logit), scale, 2, 4,
        );
        close(&out, &want, 1e-3);
    }
}

#[test]
fn decode_of_an_empty_cache_is_zero() {
    let c = cache(2, 1, 4, 128);
    let mut out = vec![F(7.0); 2 * 128 + 3];
    ffai_sdpa_decode(
        &c.q, &c.k, &c.v, &mut out, 128, 0, 4, 2, 0, 0, 0, F(0.0), F(0.1), 2, 4,
    );
    assert!(out[..256].iter().all(|x| *x == F(0.0)));
    assert!(out[256..].iter().all(|x| *x == F(7.0)));
}

#[test]
fn test_ffai_sdpa_decode_d256() {
    let (n_q, d, n_kv) = (8usize, 256usize, 64usize);
    let c = cache(n_q, 4, n_kv, d);
    let scale = F(1.0 / (d as f32).sqrt());
    let all: Vec<usize> = (0..n_kv).collect();
    let want = decode_rows(&c, n_q, 2, d, n_kv, &all, None);
    let mut out = vec![F(0.0); n_q * d];
    ffai_sdpa_decode_d256(&c.q, &c.k, &c.v, &mut out, 256, 64, 64, 2, scale, 8, 32);
    close(&out, &want, 1e-3);
}

#[test]
fn test_ffai_sdpa_decode_d512_sink() {
    let (n_q, d, n_kv) = (8usize, 512usize, 64usize);
    let c = cache(n_q, 4, n_kv, d);
    let scale = F(1.0 / (d as f32).sqrt());
    let sink: Vec<f32> = (0..n_q).map(|h| (h as f32 - 3.0) * 0.4).collect();
    let all: Vec<usize> = (0..n_kv).collect();
    let want = decode_rows(&c, n_q, 2, d, n_kv, &all, Some(&sink));
    let logits = floats(&sink);
    let mut out = vec![F(0.0); n_q * d];
    ffai_sdpa_decode_d512_sink(
        &c.q, &c.k, &c.v, &logits, &mut out, 512, 64, 64, 2, scale, 8, 16,
    );
    close(&out, &want, 1e-3);
    let reference: Vec<F> =
        naive_sdpa_sink::<F, F>(&c.q, &c.k, &c.v, &logits, 8, 4, 512, 64, 64, scale);
    close(&reference, &want, 1e-4);
}

/// Query slots interleaved per head, and the expected rows.
fn batched(batch: usize) -> (Vec<F>, Cache, Vec<f32>) {
    let (n_q, d, n_kv) = (8usize, 128usize, 64usize);
    let base = cache(n_q, 4, n_kv, d);
    let all: Vec<usize> = (0..n_kv).collect();
    let slots: Vec<Vec<F>> = (0..batch)
        .map(|b| ramp(n_q * d, 0.013 + 0.004 * b as f32, -0.4 + 0.1 * b as f32))
        .collect();
    let outs: Vec<Vec<f32>> = slots
        .iter()
        .map(|s| {
            let c = Cache { q: s.clone(), k: base.k.clone(), v: base.v.clone() };
            decode_rows(&c, n_q, 2, d, n_kv, &all, None)
        })
        .collect();
    let mut q = Vec::new();
    let mut want = Vec::new();
    for h in 0..n_q {
        for b in 0..batch {
            q.extend_from_slice(&slots[b][h * d..(h + 1) * d]);
            want.extend_from_slice(&outs[b][h * d..(h + 1) * d]);
        }
    }
    (q, base, want)
}

#[test]
fn test_sdpa_decode_batched_q2() {
    let (q, c, want) = batched(2);
    let mut out = vec![F(0.0); want.len()];
    let scale = F(1.0 / 128f32.sqrt());
    sdpa_decode_batched_q2(&q, &c.k, &c.v, &mut out, 128, 64, 64, 2, scale, 8, 32);
    close(&out, &want, 1e-3);
}

#[test]
fn test_sdpa_decode_batched_q4() {
    let (q, c, want) = batched(4);
    let mut out = vec![F(0.0); want.len()];
    let scale = F(1.0 / 128f32.sqrt());
    sdpa_decode_batched_q4(&q, &c.k, &c.v, &mut out, 128, 64, 64, 2, scale, 8, 16);
    close(&out, &want, 1e-3);
}

#[test]
fn test_sdpa_decode_batched_q8() {
    let (q, c, want) = batched(8);
    let mut out = vec![F(0.0); want.len()];
    let scale = F(1.0 / 128f32.sqrt());
    sdpa_decode_batched_q8(&q, &c.k, &c.v, &mut out, 128, 64, 64, 2, scale, 8, 8);
    close(&out, &want, 1e-3);
}

/// Expected output of a query block; `bias` gives the addition per query, head
/// and key.
fn block_rows(
    c: &Cache,
    n_q: usize,
    gqa: usize,
    d: usize,
    base_kv: usize,
    n_query: usize,
    kv_stride: usize,
    causal: bool,
    bias: &dyn Fn(usize, usize, usize) -> f32,
) -> Vec<f32> {
    let scale = 1.0 / (d as f32).sqrt();
    let mut out = Vec::new();
    for r in 0..n_query {
        let n_kv = if causal { base_kv + r + 1 } else { base_kv + n_query };
        for h in 0..n_q {
            let slab = (h / gqa) * kv_stride * d;
            let row = (r * n_q + h) * d;
            let b: Vec<f32> = (0..n_kv).map(|t| bias(r, h, t)).collect();
            out.extend(softmax_row(
                &c.q[row..row + d],
                &c.k[slab..slab + n_kv * d],
                &c.v[slab..slab + n_kv * d],
                scale,
                &b,
                None,
            ));
        }
    }
    out
}

#[test]
fn test_ffai_sdpa_multi() {
    let (n_q, d, base_kv, n_query, stride) = (8usize, 128usize, 56usize, 8usize, 64usize);
    let c = cache(n_query * n_q, 4, stride, d);
    let scale = F(1.0 / (d as f32).sqrt());
    for causal in [false, true] {
        let want = block_rows(&c, n_q, 2, d, base_kv, n_query, stride, causal, &|_, _, _| 0.0);
        let mut out = vec![F(0.0); n_query * n_q * d];
        ffai_sdpa_multi(
            &c.q, &c.k, &c.v, &mut out, 128, 8, 56, 8, 64, 2, causal as u32, scale, 32,
        );
        close(&out, &want, 1e-3);
        let reference: Vec<F> =
            naive_sdpa_multi::<F, F>(&c.q, &c.k, &c.v, 8, 4, 128, 56, 8, 64, causal, scale);
        close(&reference, &want, 1e-4);
    }
}

#[test]
fn tree_mask_blocks_and_admits() {
    let (n_q, d, base_kv, n_query, stride) = (2usize, 128usize, 6usize, 4usize, 10usize);
    let c = cache(n_query * n_q, 1, stride, d);
    let scale = F(1.0 / (d as f32).sqrt());
    // a causal tree mask gives causal attention
    let mask: Vec<F> = (0..16)
        .map(|i| F(if i % 4 <= i / 4 { 0.0 } else { f32::NEG_INFINITY }))
        .collect();
    let mut out = vec![F(0.0); n_query * n_q * d];
    ffai_sdpa_multi_tree_mask(
        &c.q, &c.k, &c.v, &mask, &mut out, 128, 2, 6, 4, 10, 2, scale, 4,
    );
    let want = block_rows(&c, n_q, 2, d, base_kv, n_query, stride, true, &|_, _, _| 0.0);
    close(&out, &want, 1e-3);
    // an open mask gives full attention
    let open = vec![F(0.0); 16];
    let mut full = vec![F(0.0); n_query * n_q * d];
    ffai_sdpa_multi_tree_mask(
        &c.q, &c.k, &c.v, &open, &mut full, 128, 2, 6, 4, 10, 2, scale, 4,
    );
    let mut multi = vec![F(0.0); n_query * n_q * d];
    ffai_sdpa_multi(&c.q, &c.k, &c.v, &mut multi, 128, 2, 6, 4, 10, 2, 0, scale, 4);
    close(&full, &plain(&multi), 1e-6);
}

#[test]
fn tree_mask_blocks_the_first_position_of_a_simdgroup() {
    // without a prefix most simdgroups start on a position of the block
    let (n_q, d, n_query) = (2usize, 128usize, 8usize);
    let c = cache(n_query * n_q, 1, n_query, d);
    let scale = F(1.0 / (d as f32).sqrt());
    let mask: Vec<F> = (0..n_query * n_query)
        .map(|i| F(if i % n_query <= i / n_query { 0.0 } else { f32::NEG_INFINITY }))
        .collect();
    let mut out = vec![F(0.0); n_query * n_q * d];
    ffai_sdpa_multi_tree_mask(
        &c.q, &c.k, &c.v, &mask, &mut out, 128, 2, 0, 8, 8, 2, scale, 32,
    );
    let want = block_rows(&c, n_q, 2, d, 0, n_query, n_query, true, &|_, _, _| 0.0);
    close(&out, &want, 1e-3);
}

#[test]
fn bidirectional_heads_of_every_width() {
    let (n_q, base_kv, n_query, stride) = (4usize, 3usize, 9usize, 12usize);
    for d in [32usize, 64, 72] {
        let c = cache(n_query * n_q, 2, stride, d);
        let scale = F(1.0 / (d as f32).sqrt());
        let want = block_rows(&c, n_q, 2, d, base_kv, n_query, stride, false, &|_, _, _| 0.0);
        let mut out = vec![F(0.0); n_query * n_q * d];
        if d == 32 {
            ffai_sdpa_bidirectional_d32(
                &c.q, &c.k, &c.v, &mut out, 32, 4, 3, 9, 12, 2, scale, 32,
            );
        } else if d == 64 {
            ffai_sdpa_bidirectional_d64(
                &c.q, &c.k, &c.v, &mut out, 64, 4, 3, 9, 12, 2, scale, 32,
            );
        } else {
            ffai_sdpa_bidirectional_d72(
                &c.q, &c.k, &c.v, &mut out, 72, 4, 3, 9, 12, 2, scale, 32,
            );
        }
        close(&out, &want, 1e-3);
    }
}

#[test]
fn test_ffai_sdpa_bidirectional_d128_relpos() {
    let (n_q, d, n_query) = (4usize, 128usize, 24usize);
    let (rel_zero, rel_len) = (n_query - 1, 2 * n_query - 1);
    let c = cache(n_query * n_q, 4, n_query, d);
    let scale = F(1.0 / (d as f32).sqrt());
    let bias: Vec<f32> = (0..n_q * rel_len).map(|i| ((i % 7) as f32 - 3.0) * 0.05).collect();
    let want = block_rows(&c, n_q, 1, d, 0, n_query, n_query, false, &|r, h, t| {
        bias[h * rel_len + t + rel_zero - r]
    });
    let b = floats(&bias);
    let mut out = vec![F(0.0); n_query * n_q * d];
    ffai_sdpa_bidirectional_d128_relpos(
        &c.q, &c.k, &c.v, &b, &mut out, 128, 4, 0, 24, 24, 1, 23, 47, scale, 32,
    );
    close(&out, &want, 1e-3);
    let reference: Vec<F> = naive_relpos::<F, F>(
        &c.q, &c.k, &c.v, &b, 4, 4, 128, 0, 24, 24, 23, 47, scale,
    );
    close(&reference, &want, 1e-4);
}

#[test]
fn short_relative_vectors_clamp() {
    let (n_q, d, n_query) = (1usize, 128usize, 4usize);
    let c = cache(n_query, 1, n_query, d);
    let scale = F(1.0 / (d as f32).sqrt());
    // entries for offsets -1, 0, 1 only
    let bias = [0.5f32, -0.25, 2.0];
    let want = block_rows(&c, n_q, 1, d, 0, n_query, n_query, false, &|r, _, t| {
        let rel = (t as i64 + 1 - r as i64).clamp(0, 2);
        bias[rel as usize]
    });
    let mut out = vec![F(0.0); n_query * d];
    ffai_sdpa_bidirectional_d128_relpos(
        &c.q, &c.k, &c.v, &floats(&bias), &mut out, 128, 1, 0, 4, 4, 1, 1, 3, scale, 8,
    );
    close(&out, &want, 1e-3);
}

#[test]
fn two_passes_give_the_single_pass() {
    let (n_q, n_kv_heads, d, n_kv) = (8usize, 2usize, 128usize, 200usize);
    let c = cache(n_q, n_kv_heads, n_kv, d);
    let scale = F(1.0 / (d as f32).sqrt());
    let mut single = vec![F(0.0); n_q * d];
    ffai_sdpa_decode(
        &c.q, &c.k, &c.v, &mut single, 128, 200, 200, 4, 0, 0, 0, F(0.0), scale, 8, 32,
    );
    for blocks in [32u32, 64, recommended_blocks_m5_max(200, 4)] {
        let rows = n_q * blocks as usize;
        let mut po = vec![F(0.0); rows * d];
        let mut pm = vec![F(0.0); rows];
        let mut pl = vec![F(0.0); rows];
        sdpa_decode_2pass_pass1(
            &c.q, &c.k, &c.v, &mut po, &mut pm, &mut pl, 128, 200, 200, 4, blocks, scale, 2,
        );
        let mut out = vec![F(0.0); n_q * d];
        sdpa_decode_2pass_pass2(&po, &pm, &pl, &mut out, 128, blocks, 8);
        close(&out, &plain(&single), 1e-4);
    }
}

#[test]
fn rounded_storage_stays_near_the_exact_rows() {
    let (n_q, d, n_kv) = (2usize, 128usize, 32usize);
    let c = cache(n_q, 1, n_kv, d);
    let scale = F(1.0 / (d as f32).sqrt());
    let b = |v: &[F]| -> Vec<B> { v.iter().map(|&x| B::narrow(x)).collect() };
    let (q, k, v) = (b(&c.q), b(&c.k), b(&c.v));
    let mut out = vec![B(0); n_q * d];
    ffai_sdpa_decode(&q, &k, &v, &mut out, 128, 32, 32, 2, 0, 0, 0, F(0.0), scale, 2, 8);
    let w = |v: &[B]| -> Vec<F> { v.iter().map(|x| x.widen()).collect() };
    let rounded = Cache { q: w(&q), k: w(&k), v: w(&v) };
    let all: Vec<usize> = (0..n_kv).collect();
    let want = decode_rows(&rounded, n_q, 2, d, n_kv, &all, None);
    close(&w(&out), &want, 1e-2);
}

#[test]
fn first_pass_leaves_the_softmax_terms_of_its_block() {
    let (n_q, d, n_kv, blocks) = (4usize, 128usize, 70usize, 32usize);
    let c = cache(n_q, 2, n_kv, d);
    let scale = 1.0 / (d as f32).sqrt();
    let mut po = vec![F(0.0); n_q * blocks * d];
    let mut pm = vec![F(0.0); n_q * blocks];
    let mut pl = vec![F(0.0); n_q * blocks];
    sdpa_decode_2pass_pass1(
        &c.q, &c.k, &c.v, &mut po, &mut pm, &mut pl, 128, 70, 70, 2, 32, F(scale), 2,
    );
    for r in 0..n_q * blocks {
        let (head, block) = (r / blocks, r % blocks);
        let base = head / 2 * n_kv * d;
        let visited: Vec<usize> = (block..n_kv).step_by(blocks).collect();
        let scores: Vec<f32> = visited
            .iter()
            .map(|t| {
                let dot: f32 =
                    (0..d).map(|i| c.q[head * d + i].0 * c.k[base + t * d + i].0).sum();
                dot * scale
            })
            .collect();
        let top = scores.iter().copied().fold(f32::NEG_INFINITY, f32::max);
        let terms: Vec<f32> = scores.iter().map(|s| (s - top).exp()).collect();
        close(&pm[r..r + 1], &[top], 1e-4);
        close(&pl[r..r + 1], &[terms.iter().sum()], 1e-3);
        let want: Vec<f32> = (0..d)
            .map(|i| {
                visited.iter().zip(&terms).map(|(t, e)| e * c.v[base + t * d + i].0).sum()
            })
            .collect();
        close(&po[r * d..(r + 1) * d], &want, 1e-3);
    }
}

#[test]
fn weights_are_shares_of_one() {
    let (d, n_kv) = (128usize, 37usize);
    let c = cache(2, 1, n_kv, d);
    let scale = 1.0 / (d as f32).sqrt();
    let run = |v: &Vec<F>| {
        let mut out = vec![F(0.0); 2 * d];
        ffai_sdpa_decode(
            &c.q, &c.k, v, &mut out, 128, 37, 37, 2, 0, 0, 0, F(0.0), F(scale), 2, 8,
        );
        out
    };
    // values of one come out as the sum of the weights
    close(&run(&vec![F(1.0); n_kv * d]), &vec![1.0; 2 * d], 1e-5);
    // the formula with nothing taken off the scores
    let out = run(&c.v);
    for h in 0..2 {
        let e: Vec<f32> = (0..n_kv)
            .map(|t| {
                let dot: f32 = (0..d).map(|i| c.q[h * d + i].0 * c.k[t * d + i].0).sum();
                (dot * scale).exp()
            })
            .collect();
        let all: f32 = e.iter().sum();
        let want: Vec<f32> = (0..d)
            .map(|i| (0..n_kv).map(|t| e[t] / all * c.v[t * d + i].0).sum())
            .collect();
        close(&out[h * d..(h + 1) * d], &want, 1e-4);
    }
    // every output lies between the least and the greatest value of its column
    for (at, o) in out.iter().enumerate() {
        let column: Vec<f32> = (0..n_kv).map(|t| c.v[t * d + at % d].0).collect();
        let lo = column.iter().copied().fold(f32::INFINITY, f32::min);
        let hi = column.iter().copied().fold(f32::NEG_INFINITY, f32::max);
        assert!(lo - 1e-5 <= o.0 && o.0 <= hi + 1e-5);
    }
}
