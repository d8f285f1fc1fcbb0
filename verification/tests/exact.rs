//! The kernels over exact arithmetic: different ways of computing one thing
//! agree to the last bit.
use metaltile_std::fermat::Fermat;
use metaltile_std::ffai::gemv_reference::{naive_down_swiglu, naive_rms_norm_qgemv};
use metaltile_std::ffai::mma::NO_EXPERT;
use metaltile_std::ffai::moe::{
    mt_moe_gather_qmm_int4, mt_moe_gather_qmm_int4_m16, mt_moe_gather_qmm_int4_m8,
    mt_moe_gather_qmm_mma_int4, mt_moe_gather_qmm_mma_int4_bm16, resolve_expert,
};
use metaltile_std::ffai::moe_down_swiglu_accum::ffai_moe_down_swiglu_accum_int4_chain8;
use metaltile_std::ffai::moe_mpp::mt_moe_gather_qmm_mma_int4_bm16_mpp;
use metaltile_std::ffai::moe_mpp_bm64::mt_moe_gather_qmm_mma_int4_bm64_mpp;
use metaltile_std::ffai::moe_mpp_bm8::mt_moe_gather_qmm_mma_int4_bm8_mpp;
use metaltile_std::ffai::moe_reference::{cpu_gather_qmm_int4, cpu_gather_qmm_int4_indexed};
use metaltile_std::ffai::moe_route::{mt_moe_permute, mt_moe_router_topk, mt_moe_unpermute};
use metaltile_std::ffai::norm::get_strided_rms;
use metaltile_std::ffai::patch_embed::patch_embed;
use metaltile_std::ffai::patch_embed_mma::patch_embed_mma;
use metaltile_std::ffai::rms_norm_qgemv::{
    ffai_rms_norm_qgemv, ffai_rms_norm_qgemv_fast, ffai_rms_norm_qgemv_int8_fast,
};
use metaltile_std::ffai::rms_norm_residual::ffai_rms_norm_residual;
use metaltile_std::ffai::rope::{get_banded_freq, get_base_freq, get_ramped_freq};
use metaltile_std::ffai::rope_yarn::get_pair_trig;
use metaltile_std::ffai::sampling::softmax_categorical_sample;
use metaltile_std::ffai::sdpa_decode::ffai_sdpa_decode;
use metaltile_std::ffai::sdpa_decode_2pass::{sdpa_decode_2pass_pass1, sdpa_decode_2pass_pass2};
use metaltile_std::ffai::sdpa_decode_batched::{
    sdpa_decode_batched_q2, sdpa_decode_batched_q4, sdpa_decode_batched_q8,
};
use metaltile_std::ffai::sdpa_decode_d512_sink::ffai_sdpa_decode_d512_sink;
use metaltile_std::ffai::sdpa_multi::{ffai_sdpa_multi, ffai_sdpa_multi_tree_mask};
use metaltile_std::ffai::sdpa_reference::{naive_sdpa, naive_sdpa_multi, naive_sdpa_sink};
use metaltile_std::num::Num;
use metaltile_std::quant::{
    extract, pack_int4_row, pack_int8_row, u32_bytes, xorshift_draws,
};

fn val(n: u64) -> Fermat {
    Fermat::new(n)
}

fn vals(n: usize, seed: u64) -> Vec<Fermat> {
    xorshift_draws(n, seed).iter().map(|&d| val(d as u64)).collect()
}

fn codes(n: usize, mask: u32) -> Vec<u32> {
    (0..n as u32).map(|i| (i * 7 + 3) & mask).collect()
}

#[test]
fn residues_add_multiply_and_invert() {
    assert_eq!(val(65_536).add(val(1)), val(0));
    assert_eq!(val(65_536).mul(val(65_536)), val(1));
    assert_eq!(val(3).sub(val(5)), val(65_535));
    assert_eq!(val(1).div(val(7)).mul(val(7)), val(1));
    assert_eq!(val(12).div(val(4)), val(3));
    assert_eq!(val(5).neg().add(val(5)), val(0));
    assert_eq!(Fermat::recip_u32(256).mul(val(256)), val(1));
    assert_eq!(Fermat::lane_sum(&vec![val(1), val(2), val(65_535)]), val(1));
    assert_eq!(Fermat::lane_max(&vec![val(4), val(9), val(2)]), val(9));
    let (a, b) = (vec![val(2), val(3)], vec![val(5), val(7)]);
    assert_eq!(Fermat::dot_acc(val(4), &a, &b), val(35));
    assert_eq!(val(65_536).get(), 65_536);
}

#[test]
fn packed_codes_come_back() {
    let row: Vec<u32> = codes(40, 15);
    let packed = pack_int4_row(&row);
    assert_eq!(packed.len(), 5);
    for (k, c) in row.iter().enumerate() {
        assert_eq!(extract(4, &packed, 0, k as u32), *c);
    }
    let row: Vec<u32> = codes(23, 255);
    let packed = pack_int8_row(&row);
    assert_eq!(packed.len(), 5);
    for (k, c) in row[..20].iter().enumerate() {
        assert_eq!(extract(8, &packed, 0, k as u32), *c);
    }
    // bits above the code are dropped
    assert_eq!(pack_int4_row(&[0xfe, 0x13, 0, 0, 0, 0, 0, 0x1f]), vec![0xf000_003e]);
    assert_eq!(pack_int8_row(&[0x1ff, 2, 3, 0x104]), vec![0x0403_02ff]);
}

#[test]
fn codes_straddle_words() {
    // code 10 of a three-bit stream takes bits 30, 31 and 32
    let words = [0xc000_0000u32, 0x0000_0001];
    assert_eq!(extract(3, &words, 0, 10), 7);
    assert_eq!(extract(3, &words, 0, 9), 0);
    // code 6 of a five-bit stream takes bits 30 to 34
    let words = [0x4000_0000u32, 0x0000_0005];
    assert_eq!(extract(5, &words, 0, 6), 0b10101);
}

#[test]
fn bytes_are_little_endian() {
    assert_eq!(u32_bytes(&[0x0403_0201, 0xff]), vec![1, 2, 3, 4, 255, 0, 0, 0]);
}

#[test]
fn generator_draws() {
    // one step by hand from a seed of one: 0x0000_0000_4082_2041
    let first: u64 = 0x4082_2041;
    assert_eq!(xorshift_draws(1, 1), vec![(first % 20_000) as u32]);
    let many = xorshift_draws(1000, 0xA1);
    assert!(many.iter().all(|&d| d < 20_000));
    assert!(many.iter().any(|&d| d > 15_000));
    assert_eq!(xorshift_draws(3, 0), vec![0, 0, 0]);
}

#[test]
fn rows_find_their_expert() {
    let offsets = [0u32, 2, 2, 6];
    let found: Vec<u32> = (0..7).map(|r| resolve_expert(&offsets, 3, r)).collect();
    assert_eq!(found, vec![0, 0, 2, 2, 2, 2, 0]);
}

struct Experts {
    words: Vec<u32>,
    scales: Vec<Fermat>,
    biases: Vec<Fermat>,
}

fn experts(rows: usize, k_in: usize, group: usize) -> Experts {
    Experts {
        words: pack_int4_row(&codes(rows * k_in, 15)),
        scales: vals(rows * (k_in / group), 11),
        biases: vals(rows * (k_in / group), 12),
    }
}

#[test]
fn grouped_matmuls_equal_the_reference() {
    let (n_experts, k_in, m_out, rows) = (3usize, 64usize, 16usize, 5usize);
    let w = experts(n_experts * m_out, k_in, 32);
    let x = vals(rows * k_in, 21);
    let offsets = [0u32, 1, 4, 5];
    let want: Vec<Fermat> = cpu_gather_qmm_int4::<Fermat, Fermat>(
        &x, &w.words, &w.scales, &w.biases, &offsets, 5, 64, 16, 3, 32,
    );
    let mut a = vec![val(0); rows * m_out];
    let (mut b, mut c) = (a.clone(), a.clone());
    mt_moe_gather_qmm_int4(
        &x, &w.words, &w.scales, &w.biases, &offsets, &mut a, 64, 16, 3, 32, 5,
    );
    mt_moe_gather_qmm_int4_m8(
        &x, &w.words, &w.scales, &w.biases, &offsets, &mut b, 64, 16, 3, 32, 5,
    );
    mt_moe_gather_qmm_int4_m16(
        &x, &w.words, &w.scales, &w.biases, &offsets, &mut c, 64, 16, 3, 32, 5,
    );
    assert_eq!(a, want);
    assert_eq!(b, want);
    assert_eq!(c, want);
}

#[test]
fn tiled_matmuls_equal_the_reference() {
    let (n_experts, k_in, n_out, m_total) = (2usize, 64usize, 64usize, 21usize);
    let w = experts(n_experts * n_out, k_in, 32);
    let x = vals(m_total * k_in, 22);
    let indices: Vec<u32> = (0..m_total as u32).map(|r| r / 4 % 2).collect();
    let want: Vec<Fermat> = cpu_gather_qmm_int4_indexed::<Fermat, Fermat>(
        &x, &w.words, &w.scales, &w.biases, &indices, 21, 64, 64, 32, 2,
    );
    let kernels = [
        mt_moe_gather_qmm_mma_int4::<Fermat, Fermat>,
        mt_moe_gather_qmm_mma_int4_bm16::<Fermat, Fermat>,
        mt_moe_gather_qmm_mma_int4_bm16_mpp::<Fermat, Fermat>,
        mt_moe_gather_qmm_mma_int4_bm8_mpp::<Fermat, Fermat>,
        mt_moe_gather_qmm_mma_int4_bm64_mpp::<Fermat, Fermat>,
    ];
    for kernel in kernels {
        let mut out = vec![val(0); m_total * n_out];
        kernel(&x, &w.words, &w.scales, &w.biases, &indices, &mut out, 21, 64, 64, 32, 2);
        assert_eq!(out, want);
    }
    // rows without an expert keep what they held
    let mut marked = indices.clone();
    marked[3] = NO_EXPERT;
    let mut out = vec![val(9); m_total * n_out];
    mt_moe_gather_qmm_mma_int4(
        &x, &w.words, &w.scales, &w.biases, &marked, &mut out, 21, 64, 64, 32, 2,
    );
    assert!(out[3 * n_out..4 * n_out].iter().all(|v| *v == val(9)));
    assert_eq!(out[4 * n_out..], want[4 * n_out..]);
}

#[test]
fn fused_products_equal_the_reference() {
    let (in_dim, out_dim) = (512usize, 8usize);
    let w = experts(out_dim, in_dim, 64);
    let (x, norm) = (vals(in_dim, 31), vals(in_dim, 32));
    let eps = val(3);
    let want: Vec<Fermat> = naive_rms_norm_qgemv::<Fermat, Fermat>(
        &w.words, &w.scales, &w.biases, &x, &norm, 512, 64, 8, 4, eps,
    );
    let mut fast = vec![val(0); out_dim];
    ffai_rms_norm_qgemv_fast(
        &x, &norm, &w.words, &w.scales, &w.biases, &mut fast, &[eps], 512, 64, 8,
    );
    assert_eq!(fast, want);
    for threads in [1u32, 33, 128] {
        let mut plain = vec![val(0); out_dim];
        ffai_rms_norm_qgemv(
            &x, &norm, &w.words, &w.scales, &w.biases, &mut plain, &[eps], 512, 64, 8, threads,
        );
        assert_eq!(plain, want);
    }
    let bytes = pack_int8_row(&codes(out_dim * in_dim, 255));
    let want8: Vec<Fermat> = naive_rms_norm_qgemv::<Fermat, Fermat>(
        &bytes, &w.scales, &w.biases, &x, &norm, 512, 64, 8, 8, eps,
    );
    let mut fast8 = vec![val(0); out_dim];
    ffai_rms_norm_qgemv_int8_fast(
        &x, &norm, &bytes, &w.scales, &w.biases, &mut fast8, &[eps], 512, 64, 8,
    );
    assert_eq!(fast8, want8);
    assert_ne!(want8, want);
}

#[test]
fn norm_factor_is_the_mean_square() {
    let x = vals(24, 41);
    let mean = x.iter().fold(val(0), |s, v| s.add(v.mul(*v))).div(val(24));
    let want = val(1).div(mean.add(val(5)).sqrt());
    for threads in [1u32, 5, 24, 64] {
        assert_eq!(get_strided_rms::<Fermat, Fermat>(&x, 24, threads, val(5)), want);
    }
    let residual = vals(24, 42);
    let w = vec![val(1); 24];
    let mut out = vec![val(0); 24];
    ffai_rms_norm_residual(&x, &residual, &w, &mut out, &[val(5)], 24, 1);
    assert_eq!(out[7], residual[7].add(x[7].mul(want)));
}

#[test]
fn fused_chain_equals_the_reference() {
    let (n_experts, in_dim, out_dim) = (3usize, 64usize, 4usize);
    let w = experts(n_experts * out_dim, in_dim, 32);
    let gates: Vec<Vec<Fermat>> = (0..8).map(|k| vals(in_dim, 50 + k)).collect();
    let ups: Vec<Vec<Fermat>> = (0..8).map(|k| vals(in_dim, 70 + k)).collect();
    let slots = vals(8, 90);
    let idx = [0u32, 1, 2, 0, 1, 2, 2, 1];
    let want: Vec<Fermat> = naive_down_swiglu::<Fermat, Fermat>(
        &gates, &ups, &idx, &slots, &w.words, &w.scales, &w.biases, 64, 4, 32, 3,
    );
    for threads in [1u32, 3, 8, 40] {
        let mut out = vec![val(0); out_dim];
        ffai_moe_down_swiglu_accum_int4_chain8(
            &gates, &ups, &idx, &slots, &w.words, &w.scales, &w.biases, &mut out, 64, 4, 32, 3,
            threads,
        );
        assert_eq!(out, want);
    }
}

#[test]
fn embeddings_agree() {
    // 64 patches of 2 * 3 * 5 pixels: a partial block
    let image = vals(2 * 24 * 40, 61);
    let weight = vals(32 * 30, 62);
    let bias = vals(32, 63);
    let mut a = vec![val(0); 64 * 32];
    let mut b = a.clone();
    patch_embed(&image, &weight, &bias, &mut a, 2, 24, 40, 3, 5, 32);
    patch_embed_mma(&image, &weight, &bias, &mut b, 2, 24, 40, 3, 5, 32);
    assert_eq!(a, b);
    let mut one = bias[4];
    for (k, w) in weight[4 * 30..5 * 30].iter().enumerate() {
        let (c, y, x) = (k / 15, k % 15 / 5, k % 5);
        // patch 9 is the second of the second row
        one = one.add(image[(c * 24 + 3 + y) * 40 + 5 + x].mul(*w));
    }
    assert_eq!(a[9 * 32 + 4], one);
}

#[test]
fn attention_equals_the_reference() {
    let (d, n_kv) = (128usize, 20usize);
    let q = vals(4 * d, 71);
    let k = vals(2 * n_kv * d, 72);
    let v = vals(2 * n_kv * d, 73);
    let scale = val(3);
    let want: Vec<Fermat> = naive_sdpa::<Fermat, Fermat>(&q, &k, &v, 4, 2, 128, 20, 20, scale);
    for n_simd in [1u32, 7, 32] {
        let mut out = vec![val(0); 4 * d];
        ffai_sdpa_decode(
            &q, &k, &v, &mut out, 128, 20, 20, 2, 0, 0, 0, val(0), scale, 4, n_simd,
        );
        assert_eq!(out, want);
        // the logit of an absent sink changes nothing
        let mut other = vec![val(0); 4 * d];
        ffai_sdpa_decode(
            &q, &k, &v, &mut other, 128, 20, 20, 2, 0, 0, 0, val(500), scale, 4, n_simd,
        );
        assert_eq!(other, want);
    }
    // both passes together
    let mut o = vec![val(0); 4 * 32 * d];
    let mut m = vec![val(0); 4 * 32];
    let mut l = m.clone();
    sdpa_decode_2pass_pass1(
        &q, &k, &v, &mut o, &mut m, &mut l, 128, 20, 20, 2, 32, scale, 2,
    );
    let mut out = vec![val(0); 4 * d];
    sdpa_decode_2pass_pass2(&o, &m, &l, &mut out, 128, 32, 4);
    assert_eq!(out, want);
    // two query slots per head, each as if alone
    let other = vals(4 * d, 74);
    let mut both = Vec::new();
    for h in 0..4 {
        both.extend_from_slice(&q[h * d..(h + 1) * d]);
        both.extend_from_slice(&other[h * d..(h + 1) * d]);
    }
    let mut out = vec![val(0); 8 * d];
    sdpa_decode_batched_q2(&both, &k, &v, &mut out, 128, 20, 20, 2, scale, 4, 8);
    let second: Vec<Fermat> =
        naive_sdpa::<Fermat, Fermat>(&other, &k, &v, 4, 2, 128, 20, 20, scale);
    for h in 0..4 {
        assert_eq!(out[2 * h * d..(2 * h + 1) * d], want[h * d..(h + 1) * d]);
        assert_eq!(out[(2 * h + 1) * d..(2 * h + 2) * d], second[h * d..(h + 1) * d]);
    }
}

#[test]
fn batched_slots_equal_the_decode_at_other_counts() {
    let (d, n_kv) = (128usize, 45usize);
    let (k, v) = (vals(n_kv * d, 101), vals(n_kv * d, 102));
    for (batch, n_simd) in [(4usize, 16u32), (4, 24), (8, 8), (8, 16)] {
        let q = vals(2 * batch * d, 103);
        let mut out = vec![val(0); 2 * batch * d];
        if batch == 4 {
            sdpa_decode_batched_q4(&q, &k, &v, &mut out, 128, 45, 45, 2, val(5), 2, n_simd);
        } else {
            sdpa_decode_batched_q8(&q, &k, &v, &mut out, 128, 45, 45, 2, val(5), 2, n_simd);
        }
        for slot in 0..batch {
            let mut alone = Vec::new();
            for h in 0..2 {
                let at = (h * batch + slot) * d;
                alone.extend_from_slice(&q[at..at + d]);
            }
            let mut want = vec![val(0); 2 * d];
            ffai_sdpa_decode(
                &alone, &k, &v, &mut want, 128, 45, 45, 2, 0, 0, 0, val(0), val(5), 2, 32,
            );
            for h in 0..2 {
                let at = (h * batch + slot) * d;
                assert_eq!(out[at..at + d], want[h * d..(h + 1) * d]);
            }
        }
    }
}

#[test]
fn block_counts_agree() {
    let (d, n_kv) = (128usize, 50usize);
    let (q, k, v) = (vals(2 * d, 104), vals(n_kv * d, 105), vals(n_kv * d, 106));
    let run = |blocks: u32| {
        let rows = 2 * blocks as usize;
        let (mut o, mut m) = (vec![val(0); rows * d], vec![val(0); rows]);
        let mut l = m.clone();
        sdpa_decode_2pass_pass1(
            &q, &k, &v, &mut o, &mut m, &mut l, 128, 50, 50, 2, blocks, val(3), 1,
        );
        let mut out = vec![val(0); 2 * d];
        sdpa_decode_2pass_pass2(&o, &m, &l, &mut out, 128, blocks, 2);
        out
    };
    // with 64 and 96 blocks some are empty
    assert_eq!(run(64), run(32));
    assert_eq!(run(96), run(32));
}

#[test]
fn sinks_equal_the_reference() {
    let (d, n_kv) = (512usize, 6usize);
    let (q, k, v) = (vals(2 * d, 75), vals(n_kv * d, 76), vals(n_kv * d, 77));
    let sink = vals(2, 78);
    let want: Vec<Fermat> =
        naive_sdpa_sink::<Fermat, Fermat>(&q, &k, &v, &sink, 2, 1, 512, 6, 6, val(2));
    let mut out = vec![val(0); 2 * d];
    ffai_sdpa_decode_d512_sink(
        &q, &k, &v, &sink, &mut out, 512, 6, 6, 2, val(2), 2, 4,
    );
    assert_eq!(out, want);
}

#[test]
fn query_blocks_equal_the_reference() {
    let (d, stride) = (128usize, 9usize);
    let (q, k, v) = (vals(4 * 2 * d, 81), vals(stride * d, 82), vals(stride * d, 83));
    for causal in [false, true] {
        let want: Vec<Fermat> = naive_sdpa_multi::<Fermat, Fermat>(
            &q, &k, &v, 2, 1, 128, 5, 4, 9, causal, val(7),
        );
        let mut out = vec![val(0); 4 * 2 * d];
        ffai_sdpa_multi(
            &q, &k, &v, &mut out, 128, 2, 5, 4, 9, 2, causal as u32, val(7), 3,
        );
        assert_eq!(out, want);
        // an open tree mask, and one that is open up to the diagonal
        let mask: Vec<Fermat> = (0..16)
            .map(|i| if causal && i % 4 > i / 4 { Fermat::neg_inf() } else { val(0) })
            .collect();
        let mut masked = vec![val(0); 4 * 2 * d];
        ffai_sdpa_multi_tree_mask(
            &q, &k, &v, &mask, &mut masked, 128, 2, 5, 4, 9, 2, val(7), 3,
        );
        assert_eq!(masked, want);
    }
}

#[test]
fn blocked_positions_are_ignored() {
    let (d, stride) = (128usize, 7usize);
    let (q, k, v) = (vals(4 * 2 * d, 84), vals(stride * d, 85), vals(stride * d, 86));
    // position 5 of the cache is blocked for queries 0 and 2
    let mut mask = vec![val(0); 16];
    mask[2] = Fermat::neg_inf();
    mask[2 * 4 + 2] = Fermat::neg_inf();
    let run = |k: &Vec<Fermat>, v: &Vec<Fermat>| {
        let mut out = vec![val(0); 4 * 2 * d];
        ffai_sdpa_multi_tree_mask(&q, k, v, &mask, &mut out, 128, 2, 3, 4, 7, 2, val(3), 5);
        out
    };
    let (mut k2, mut v2) = (k.clone(), v.clone());
    for i in 5 * d..6 * d {
        k2[i] = val(40_000 + i as u64);
        v2[i] = val(50_000 - i as u64);
    }
    let (a, b) = (run(&k, &v), run(&k2, &v2));
    for query in 0..4 {
        let rows = query * 2 * d..(query + 1) * 2 * d;
        assert_eq!(a[rows.clone()] == b[rows], query == 0 || query == 2);
    }
}

#[test]
fn unattended_positions_are_ignored() {
    // twenty of 24 rows are in use: the first four and those from 15 on count
    let (d, stride) = (128usize, 24usize);
    let (q, k, v) = (vals(4 * d, 87), vals(2 * stride * d, 88), vals(2 * stride * d, 89));
    let run = |k: &Vec<Fermat>, v: &Vec<Fermat>| {
        let mut out = vec![val(0); 4 * d];
        ffai_sdpa_decode(&q, k, v, &mut out, 128, 20, 24, 2, 4, 15, 0, val(0), val(3), 4, 5);
        out
    };
    let want = run(&k, &v);
    for t in 0..stride {
        let (mut k2, mut v2) = (k.clone(), v.clone());
        for i in t * d..(t + 1) * d {
            k2[i] = val(40_000 + i as u64);
            v2[i] = val(50_000 - i as u64);
        }
        assert_eq!(run(&k2, &v2) == want, (4..15).contains(&t) || t >= 20);
    }
}

#[test]
fn routing_weights_add_up() {
    let logits: Vec<Fermat> = vals(40, 91).iter().map(|v| v.add(val(1))).collect();
    let mut idx = vec![0u32; 6];
    let mut w = vec![val(0); 6];
    mt_moe_router_topk(&logits, &mut idx, &mut w, 40, 6, 1, 1);
    assert_eq!(w.iter().fold(val(0), |s, x| s.add(*x)), val(1));
    let mut order: Vec<usize> = (0..40).collect();
    order.sort_by_key(|&j| (u32::MAX - logits[j].get(), j));
    let want: Vec<u32> = order[..6].iter().map(|&j| j as u32).collect();
    assert_eq!(idx, want);
    // renormalised weights over all experts are the weights over the chosen
    let mut all = vec![val(0); 6];
    mt_moe_router_topk(&logits, &mut idx, &mut all, 40, 6, 0, 1);
    let sum = all.iter().fold(val(0), |s, x| s.add(*x));
    for (a, b) in all.iter().zip(&w) {
        assert_eq!(a.div(sum), *b);
    }
}

#[test]
fn unpermute_inverts_permute() {
    let tokens = vals(3 * 4, 95);
    let sort = [2u32, 0, 1];
    let mut permuted = vec![val(0); 12];
    mt_moe_permute(&tokens, &sort, &mut permuted, 4, 3);
    let mut back = vec![val(0); 12];
    mt_moe_unpermute(&permuted, &[1, 2, 0], &vec![val(1); 3], &mut back, 4, 1, 3);
    assert_eq!(back, tokens);
    // two rows per token, with weights that add up to one
    let mut permuted = vec![val(0); 24];
    mt_moe_permute(&tokens, &[1, 2, 0, 0, 2, 1], &mut permuted, 4, 6);
    let weights: Vec<Fermat> =
        vals(3, 96).iter().flat_map(|w| [*w, val(1).sub(*w)]).collect();
    mt_moe_unpermute(&permuted, &[2, 3, 0, 5, 4, 1], &weights, &mut back, 4, 2, 3);
    assert_eq!(back, tokens);
}

#[test]
fn samples_are_the_smallest_position_that_reaches_the_target() {
    // every weight is one, so position i has cumulative weight i + 1
    let logits = vals(700, 97);
    for target in [0u64, 1, 2, 3, 350, 699, 700] {
        let uniform = val(target).div(val(700));
        let mut out = vec![9999u32, 1];
        softmax_categorical_sample(&logits, &mut out, &[val(1)], &[uniform], 700);
        let want = if target == 0 { 0 } else { target as u32 - 1 };
        assert_eq!(out, vec![want, 1]);
    }
}

#[test]
fn a_unit_attention_factor_scales_nothing() {
    let t = get_pair_trig(3, 16, 7, val(10_000), val(4), val(2), val(9), val(1));
    let s = get_pair_trig(3, 16, 7, val(10_000), val(4), val(2), val(9), val(6));
    assert_eq!((t.0.mul(val(6)), t.1.mul(val(6))), s);
}

#[test]
fn the_ramp_keeps_one_end_and_divides_the_other() {
    let freq = |i: u32| get_ramped_freq(i, 16, val(10_000), val(4), val(2), val(9));
    assert_eq!(freq(2), get_base_freq(2, 16, val(10_000)));
    assert_eq!(freq(9), get_base_freq(9, 16, val(10_000)).div(val(4)));
    assert_ne!(freq(5), freq(2));
}

#[test]
fn scaling_is_off_when_the_band_edges_meet() {
    let freq = |far: u64| {
        get_banded_freq(3, 16, val(10_000), val(8), val(1), val(1), val(far))
    };
    assert_eq!(freq(60_000), get_base_freq(3, 16, val(10_000)));
    // a nearer edge puts the wavelength in the scaled band
    assert_eq!(freq(2), get_base_freq(3, 16, val(10_000)).div(val(8)));
}
