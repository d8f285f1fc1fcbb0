//! Launch plans of the timed runs.
use metaltile_std::ffai::benches::{
    bench_d128_relpos, bench_moe_down_swiglu_accum_int4_chain8, bench_moe_permute,
    bench_moe_router_topk, bench_moe_unpermute, bench_patch_embed, bench_q2, bench_q4, bench_q8,
    bench_rms_norm_qgemv, bench_rms_norm_residual, bench_rms_norm_rope, bench_rope_2d,
    bench_rope_llama, bench_rope_llama_many, bench_rope_yarn, bench_router, bench_sdpa_decode,
    bench_sdpa_decode_d256, bench_sdpa_decode_d512_sink, bench_sdpa_multi,
    bench_sdpa_multi_tree_mask, bench_softmax_categorical_sample, Launch, LaunchPlan,
};

fn grid(x: u32, y: u32, z: u32, group: u32) -> Launch {
    Launch::Grid { x, y, z, group }
}

fn check(plan: LaunchPlan, buffers: &[usize], launch: Launch, bytes: u64) {
    assert_eq!(plan.buffers, buffers);
    assert_eq!(plan.launch, launch);
    assert_eq!(plan.bytes_moved, bytes);
}

#[test]
fn routing_plans() {
    let (bt, k, e, hidden) = (512usize, 8usize, 128usize, 2048usize);
    let (rows, sz) = (4096usize, 4usize);
    let bytes = (rows * e * sz + rows * k * 4 + rows * k * sz) as u64;
    check(bench_moe_router_topk(sz), &[rows * e, rows * k, rows * k], grid(4096, 1, 1, 32), bytes);
    let bytes = (2 * k * bt * hidden * sz) as u64;
    check(
        bench_moe_permute(sz),
        &[bt * hidden, k * bt, k * bt * hidden],
        grid(4096, 1, 1, 128),
        bytes,
    );
    let bytes = (k * bt * hidden * sz + bt * k * 4 + bt * k * sz + bt * hidden * sz) as u64;
    check(
        bench_moe_unpermute(sz),
        &[k * bt * hidden, bt * k, bt * k, bt * hidden],
        grid(512, 1, 1, 128),
        bytes,
    );
    check(
        bench_router(4),
        &[288, 288, 288, 288],
        Launch::Linear { n: 288, group: 64 },
        4 * 288 * 4,
    );
}

#[test]
fn projection_plans() {
    let plan = bench_moe_down_swiglu_accum_int4_chain8(2);
    assert_eq!(plan.buffers.len(), 22);
    assert_eq!(plan.buffers[18], 128 * 2048 * 768 / 8);
    assert_eq!(plan.launch, grid(2048, 1, 1, 128));
    let words = 4096 * 4096 / 8;
    check(
        bench_rms_norm_qgemv(4, 1, 128, 2),
        &[4096, 4096, words, 4096 * 64, 4096 * 64, 4096, 1],
        grid(4096, 1, 1, 128),
        words as u64 * 4,
    );
    check(
        bench_rms_norm_qgemv(8, 8, 64, 4),
        &[4096, 4096, 2 * words, 4096 * 64, 4096 * 64, 4096, 1],
        grid(512, 1, 1, 64),
        words as u64 * 8,
    );
    let embed = bench_patch_embed(2);
    assert_eq!(embed.launch, Launch::Linear { n: 262144, group: 256 });
    assert_eq!(embed.bytes_moved, 262144 * 2);
}

#[test]
fn norm_and_rotation_plans() {
    assert_eq!(bench_rms_norm_residual(4).launch, grid(4096, 1, 1, 1024));
    assert_eq!(bench_rms_norm_residual(4).bytes_moved, 3 * 4096 * 4096 * 4);
    assert_eq!(bench_rms_norm_rope(4).launch, grid(4096, 1, 1, 64));
    assert_eq!(bench_rope_2d(2).launch, grid(1024, 16, 16, 1));
    assert_eq!(bench_rope_llama(4).launch, grid(32, 64, 1, 1));
    assert_eq!(bench_rope_yarn(4).bytes_moved, 2 * 32 * 128 * 4);
    assert_eq!(bench_rope_llama_many(4).launch, grid(512, 32, 64, 1));
    assert_eq!(bench_softmax_categorical_sample(4).launch, grid(1, 1, 1, 256));
}

#[test]
fn attention_plans() {
    let (q, kv) = (32usize * 128, 8usize * 4096 * 128);
    let bytes = |batch: usize, sz: usize| ((2 * q * batch + 2 * kv) * sz) as u64;
    check(bench_sdpa_decode(4), &[q, kv, kv, q], grid(32, 1, 1, 1024), bytes(1, 4));
    // the more streams a lane keeps, the smaller the group
    for (plan, batch, group) in
        [(bench_q2(2), 2, 1024), (bench_q4(2), 4, 512), (bench_q8(2), 8, 256)]
    {
        let rows = batch * q;
        check(plan, &[rows, kv, kv, rows], grid(32, 1, 1, group), bytes(batch, 2));
    }
    assert_eq!(bench_sdpa_decode_d256(2).bytes_moved, 2 * bytes(1, 2));
    assert_eq!(bench_sdpa_decode_d512_sink(2).launch, grid(32, 1, 1, 512));
    assert_eq!(bench_sdpa_multi(2).launch, grid(256, 1, 1, 1024));
    assert_eq!(bench_sdpa_multi_tree_mask(2).buffers.len(), 5);
    assert_eq!(bench_d128_relpos(2).launch, grid(4096, 1, 1, 1024));
}
