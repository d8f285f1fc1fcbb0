//! Launch shapes of the timed runs: buffer lengths, grid and memory traffic.
use vstd::prelude::*;

verus! {

/// How a run is launched.
#[derive(Clone, Copy, PartialEq, Eq, Structural, Debug)]
pub enum Launch {
    /// `n` threads in groups of `group`.
    Linear { n: usize, group: u32 },
    /// A grid of groups of `group` threads each.
    Grid { x: u32, y: u32, z: u32, group: u32 },
}

/// A timed run.
pub struct LaunchPlan {
    /// Elements of each buffer, in the order of the kernel's parameters.
    pub buffers: Vec<usize>,
    pub launch: Launch,
    pub bytes_moved: u64,
}

/// Routing of 4096 rows to eight of 128 experts.
pub fn bench_moe_router_topk(size: usize) -> (r: LaunchPlan)
    requires
        size == 2 || size == 4,
    ensures
        r.buffers@ == seq![
            524288usize,
            32768usize,
            32768usize,
        ],
        r.launch == (Launch::Grid { x: 4096, y: 1, z: 1, group: 32 }),
        r.bytes_moved == 557056 * size + 131072,
{
    let n_rows: usize = 4096;
    let n_experts: usize = 128;
    let k: usize = 8;
    let mut buffers: Vec<usize> = Vec::new();
    buffers.push(n_rows * n_experts);
    buffers.push(n_rows * k);
    buffers.push(n_rows * k);
    let bytes: usize = n_rows * n_experts * size + n_rows * k * 4 + n_rows * k * size;
    LaunchPlan {
        buffers,
        launch: Launch::Grid { x: n_rows as u32, y: 1, z: 1, group: 32 },
        bytes_moved: bytes as u64,
    }
}

/// Gathering 512 tokens of width 2048 for eight experts each.
pub fn bench_moe_permute(size: usize) -> (r: LaunchPlan)
    requires
        size == 2 || size == 4,
    ensures
        r.buffers@ == seq![
            1048576usize,
            4096usize,
            8388608usize,
        ],
        r.launch == (Launch::Grid { x: 4096, y: 1, z: 1, group: 128 }),
        r.bytes_moved == 16777216 * size,
{
    let bt: usize = 512;
    let k: usize = 8;
    let hidden: usize = 2048;
    let rows: usize = k * bt;
    let mut buffers: Vec<usize> = Vec::new();
    buffers.push(bt * hidden);
    buffers.push(rows);
    buffers.push(rows * hidden);
    let bytes: usize = 2 * rows * hidden * size;
    LaunchPlan {
        buffers,
        launch: Launch::Grid { x: rows as u32, y: 1, z: 1, group: 128 },
        bytes_moved: bytes as u64,
    }
}

/// Combining the outputs of eight experts for 512 tokens.
pub fn bench_moe_unpermute(size: usize) -> (r: LaunchPlan)
    requires
        size == 2 || size == 4,
    ensures
        r.buffers@ == seq![
            8388608usize,
            4096usize,
            4096usize,
            1048576usize,
        ],
        r.launch == (Launch::Grid { x: 512, y: 1, z: 1, group: 128 }),
        r.bytes_moved == 9441280 * size + 16384,
{
    let bt: usize = 512;
    let k: usize = 8;
    let hidden: usize = 2048;
    let mut buffers: Vec<usize> = Vec::new();
    buffers.push(k * bt * hidden);
    buffers.push(bt * k);
    buffers.push(bt * k);
    buffers.push(bt * hidden);
    let bytes: usize = k * bt * hidden * size + bt * k * 4 + bt * k * size + bt * hidden * size;
    LaunchPlan {
        buffers,
        launch: Launch::Grid { x: bt as u32, y: 1, z: 1, group: 128 },
        bytes_moved: bytes as u64,
    }
}

/// The fused down projection of eight of 128 experts.
pub fn bench_moe_down_swiglu_accum_int4_chain8(size: usize) -> (r: LaunchPlan)
    requires
        size == 2 || size == 4,
    ensures
        r.buffers@ == seq![
            768usize,
            768usize,
            768usize,
            768usize,
            768usize,
            768usize,
            768usize,
            768usize,
            768usize,
            768usize,
            768usize,
            768usize,
            768usize,
            768usize,
            768usize,
            768usize,
            8usize,
            8usize,
            25165824usize,
            3145728usize,
            3145728usize,
            2048usize,
        ],
        r.launch == (Launch::Grid { x: 2048, y: 1, z: 1, group: 128 }),
        r.bytes_moved == 6305792 * size + 100663296,
{
    let n_experts: usize = 128;
    let in_dim: usize = 768;
    let out_dim: usize = 2048;
    let group_size: usize = 64;
    let n_groups: usize = in_dim / group_size;
    let packs_per_row: usize = in_dim / 8;
    let mut buffers: Vec<usize> = Vec::new();
    let mut slot: usize = 0;
    while slot < 16
        invariant
            slot <= 16,
            buffers@ == Seq::new(slot as nat, |i: int| in_dim),
        decreases 16 - slot,
    {
        buffers.push(in_dim);
        slot += 1;
    }
    buffers.push(8);
    buffers.push(8);
    buffers.push(n_experts * out_dim * packs_per_row);
    buffers.push(n_experts * out_dim * n_groups);
    buffers.push(n_experts * out_dim * n_groups);
    buffers.push(out_dim);
    let bytes: usize = (2 * 8 * in_dim) * size + n_experts * out_dim * packs_per_row * 4
        + 2 * n_experts * out_dim * n_groups * size + out_dim * size;
    LaunchPlan {
        buffers,
        launch: Launch::Grid { x: out_dim as u32, y: 1, z: 1, group: 128 },
        bytes_moved: bytes as u64,
    }
}

/// Scores of 288 experts.
pub fn bench_router(size: usize) -> (r: LaunchPlan)
    requires
        size == 2 || size == 4,
    ensures
        r.buffers@ == seq![
            288usize,
            288usize,
            288usize,
            288usize,
        ],
        r.launch == (Launch::Linear { n: 288, group: 64 }),
        r.bytes_moved == 1152 * size,
{
    let n_experts: usize = 288;
    let mut buffers: Vec<usize> = Vec::new();
    buffers.push(n_experts);
    buffers.push(n_experts);
    buffers.push(n_experts);
    buffers.push(n_experts);
    let bytes: usize = 4 * n_experts * size;
    LaunchPlan {
        buffers,
        launch: Launch::Linear { n: n_experts, group: 64 },
        bytes_moved: bytes as u64,
    }
}

/// Embedding 256 patches of a 224 by 224 image into 1024 dimensions.
pub fn bench_patch_embed(size: usize) -> (r: LaunchPlan)
    requires
        size == 2 || size == 4,
    ensures
        r.buffers@ == seq![
            150528usize,
            602112usize,
            1024usize,
            262144usize,
        ],
        r.launch == (Launch::Linear { n: 262144, group: 256 }),
        r.bytes_moved == 262144 * size,
{
    let in_ch: usize = 3;
    let in_h: usize = 224;
    let in_w: usize = 224;
    let patch_h: usize = 14;
    let patch_w: usize = 14;
    let hidden: usize = 1024;
    let num_patches: usize = (in_h / patch_h) * (in_w / patch_w);
    let patch_dim: usize = in_ch * patch_h * patch_w;
    let n_out: usize = num_patches * hidden;
    let mut buffers: Vec<usize> = Vec::new();
    buffers.push(in_ch * in_h * in_w);
    buffers.push(hidden * patch_dim);
    buffers.push(hidden);
    buffers.push(n_out);
    let bytes: usize = n_out * size;
    LaunchPlan {
        buffers,
        launch: Launch::Linear { n: n_out, group: 256 },
        bytes_moved: bytes as u64,
    }
}

/// Norm and residual of 4096 rows.
pub fn bench_rms_norm_residual(size: usize) -> (r: LaunchPlan)
    requires
        size == 2 || size == 4,
    ensures
        r.buffers@ == seq![
            16777216usize,
            16777216usize,
            4096usize,
            16777216usize,
            1usize,
        ],
        r.launch == (Launch::Grid { x: 4096, y: 1, z: 1, group: 1024 }),
        r.bytes_moved == 50331648 * size,
{
    let rows: usize = 4096;
    let n: usize = 4096;
    let mut buffers: Vec<usize> = Vec::new();
    buffers.push(rows * n);
    buffers.push(rows * n);
    buffers.push(n);
    buffers.push(rows * n);
    buffers.push(1);
    let bytes: usize = 3 * rows * n * size;
    LaunchPlan {
        buffers,
        launch: Launch::Grid { x: rows as u32, y: 1, z: 1, group: (n / 4) as u32 },
        bytes_moved: bytes as u64,
    }
}

/// Norm and rotation of 4096 head rows.
pub fn bench_rms_norm_rope(size: usize) -> (r: LaunchPlan)
    requires
        size == 2 || size == 4,
    ensures
        r.buffers@ == seq![
            524288usize,
            128usize,
            64usize,
            524288usize,
            1usize,
        ],
        r.launch == (Launch::Grid { x: 4096, y: 1, z: 1, group: 64 }),
        r.bytes_moved == 1048576 * size,
{
    let axis: usize = 128;
    let n_heads: usize = 32;
    let seq_len: usize = 128;
    let rows: usize = n_heads * seq_len;
    let half: usize = axis / 2;
    let mut buffers: Vec<usize> = Vec::new();
    buffers.push(rows * axis);
    buffers.push(axis);
    buffers.push(half);
    buffers.push(rows * axis);
    buffers.push(1);
    let bytes: usize = 2 * rows * axis * size;
    LaunchPlan {
        buffers,
        launch: Launch::Grid { x: rows as u32, y: 1, z: 1, group: (axis / 2) as u32 },
        bytes_moved: bytes as u64,
    }
}

/// Rotation of 1024 image tokens.
pub fn bench_rope_2d(size: usize) -> (r: LaunchPlan)
    requires
        size == 2 || size == 4,
    ensures
        r.buffers@ == seq![
            1048576usize,
            2048usize,
            1048576usize,
        ],
        r.launch == (Launch::Grid { x: 1024, y: 16, z: 16, group: 1 }),
        r.bytes_moved == 2097152 * size,
{
    let n_tokens: usize = 1024;
    let n_heads: usize = 16;
    let head_dim: usize = 64;
    let quarter: usize = head_dim / 4;
    let mut buffers: Vec<usize> = Vec::new();
    buffers.push(n_tokens * n_heads * head_dim);
    buffers.push(n_tokens * 2);
    buffers.push(n_tokens * n_heads * head_dim);
    let bytes: usize = 2 * n_tokens * n_heads * head_dim * size;
    LaunchPlan {
        buffers,
        launch: Launch::Grid { x: n_tokens as u32, y: n_heads as u32, z: quarter as u32, group: 1 },
        bytes_moved: bytes as u64,
    }
}

/// Rotation of the heads of one token.
pub fn bench_rope_llama(size: usize) -> (r: LaunchPlan)
    requires
        size == 2 || size == 4,
    ensures
        r.buffers@ == seq![
            4096usize,
            4096usize,
        ],
        r.launch == (Launch::Grid { x: 32, y: 64, z: 1, group: 1 }),
        r.bytes_moved == 8192 * size,
{
    let n_heads: usize = 32;
    let head_dim: usize = 128;
    let half: usize = head_dim / 2;
    let mut buffers: Vec<usize> = Vec::new();
    buffers.push(n_heads * head_dim);
    buffers.push(n_heads * head_dim);
    let bytes: usize = 2 * n_heads * head_dim * size;
    LaunchPlan {
        buffers,
        launch: Launch::Grid { x: n_heads as u32, y: half as u32, z: 1, group: 1 },
        bytes_moved: bytes as u64,
    }
}

/// Ramped rotation of the heads of one token.
pub fn bench_rope_yarn(size: usize) -> (r: LaunchPlan)
    requires
        size == 2 || size == 4,
    ensures
        r.buffers@ == seq![
            4096usize,
            4096usize,
        ],
        r.launch == (Launch::Grid { x: 32, y: 64, z: 1, group: 1 }),
        r.bytes_moved == 8192 * size,
{
    let n_heads: usize = 32;
    let head_dim: usize = 128;
    let half: usize = head_dim / 2;
    let mut buffers: Vec<usize> = Vec::new();
    buffers.push(n_heads * head_dim);
    buffers.push(n_heads * head_dim);
    let bytes: usize = 2 * n_heads * head_dim * size;
    LaunchPlan {
        buffers,
        launch: Launch::Grid { x: n_heads as u32, y: half as u32, z: 1, group: 1 },
        bytes_moved: bytes as u64,
    }
}

/// Rotation of 512 tokens.
pub fn bench_rope_llama_many(size: usize) -> (r: LaunchPlan)
    requires
        size == 2 || size == 4,
    ensures
        r.buffers@ == seq![
            2097152usize,
            512usize,
            2097152usize,
        ],
        r.launch == (Launch::Grid { x: 512, y: 32, z: 64, group: 1 }),
        r.bytes_moved == 4194304 * size,
{
    let t_len: usize = 512;
    let n_heads: usize = 32;
    let head_dim: usize = 128;
    let half: usize = head_dim / 2;
    let row_stride: usize = n_heads * head_dim;
    let mut buffers: Vec<usize> = Vec::new();
    buffers.push(t_len * row_stride);
    buffers.push(t_len);
    buffers.push(t_len * row_stride);
    let bytes: usize = 2 * t_len * row_stride * size;
    LaunchPlan {
        buffers,
        launch: Launch::Grid { x: t_len as u32, y: n_heads as u32, z: half as u32, group: 1 },
        bytes_moved: bytes as u64,
    }
}

/// Sampling from a vocabulary of 152064.
pub fn bench_softmax_categorical_sample(size: usize) -> (r: LaunchPlan)
    requires
        size == 2 || size == 4,
    ensures
        r.buffers@ == seq![
            152064usize,
            1usize,
            1usize,
            1usize,
        ],
        r.launch == (Launch::Grid { x: 1, y: 1, z: 1, group: 256 }),
        r.bytes_moved == 152064 * size,
{
    let n: usize = 152064;
    let mut buffers: Vec<usize> = Vec::new();
    buffers.push(n);
    buffers.push(1);
    buffers.push(1);
    buffers.push(1);
    let bytes: usize = n * size;
    LaunchPlan {
        buffers,
        launch: Launch::Grid { x: 1, y: 1, z: 1, group: 256 },
        bytes_moved: bytes as u64,
    }
}

/// Relative-position attention of 512 frames.
pub fn bench_d128_relpos(size: usize) -> (r: LaunchPlan)
    requires
        size == 2 || size == 4,
    ensures
        r.buffers@ == seq![
            524288usize,
            524288usize,
            524288usize,
            8184usize,
            524288usize,
        ],
        r.launch == (Launch::Grid { x: 4096, y: 1, z: 1, group: 1024 }),
        r.bytes_moved == 2097152 * size,
{
    let head_dim: usize = 128;
    let n_q_heads: usize = 8;
    let n_kv_heads: usize = 8;
    let base_kv: usize = 0;
    let n_query: usize = 512;
    let kv_stride: usize = base_kv + n_query;
    let rel_len: usize = base_kv + 2 * n_query - 1;
    let n_kv: usize = base_kv + n_query;
    let mut buffers: Vec<usize> = Vec::new();
    buffers.push(n_query * n_q_heads * head_dim);
    buffers.push(n_kv_heads * kv_stride * head_dim);
    buffers.push(n_kv_heads * kv_stride * head_dim);
    buffers.push(n_q_heads * rel_len);
    buffers.push(n_query * n_q_heads * head_dim);
    let bytes: usize = (2 * n_query * n_q_heads * head_dim + 2 * n_kv_heads * n_kv * head_dim) * size;
    LaunchPlan {
        buffers,
        launch: Launch::Grid { x: (n_q_heads * n_query) as u32, y: 1, z: 1, group: 1024 },
        bytes_moved: bytes as u64,
    }
}

/// Decode over 4096 positions, width 128.
pub fn bench_sdpa_decode(size: usize) -> (r: LaunchPlan)
    requires
        size == 2 || size == 4,
    ensures
        r.buffers@ == seq![
            4096usize,
            4194304usize,
            4194304usize,
            4096usize,
        ],
        r.launch == (Launch::Grid { x: 32, y: 1, z: 1, group: 1024 }),
        r.bytes_moved == 8396800 * size,
{
    let n_q_heads: usize = 32;
    let n_kv_heads: usize = 8;
    let head_dim: usize = 128;
    let n_kv: usize = 4096;
    let kv_stride: usize = 4096;
    let mut buffers: Vec<usize> = Vec::new();
    buffers.push(n_q_heads * head_dim);
    buffers.push(n_kv_heads * kv_stride * head_dim);
    buffers.push(n_kv_heads * kv_stride * head_dim);
    buffers.push(n_q_heads * head_dim);
    let bytes: usize = (2 * n_q_heads * head_dim + 2 * n_kv_heads * n_kv * head_dim) * size;
    LaunchPlan {
        buffers,
        launch: Launch::Grid { x: n_q_heads as u32, y: 1, z: 1, group: 1024 },
        bytes_moved: bytes as u64,
    }
}

/// Decode over 4096 positions, width 256.
pub fn bench_sdpa_decode_d256(size: usize) -> (r: LaunchPlan)
    requires
        size == 2 || size == 4,
    ensures
        r.buffers@ == seq![
            8192usize,
            8388608usize,
            8388608usize,
            8192usize,
        ],
        r.launch == (Launch::Grid { x: 32, y: 1, z: 1, group: 1024 }),
        r.bytes_moved == 16793600 * size,
{
    let n_q_heads: usize = 32;
    let n_kv_heads: usize = 8;
    let head_dim: usize = 256;
    let n_kv: usize = 4096;
    let kv_stride: usize = 4096;
    let mut buffers: Vec<usize> = Vec::new();
    buffers.push(n_q_heads * head_dim);
    buffers.push(n_kv_heads * kv_stride * head_dim);
    buffers.push(n_kv_heads * kv_stride * head_dim);
    buffers.push(n_q_heads * head_dim);
    let bytes: usize = (2 * n_q_heads * head_dim + 2 * n_kv_heads * n_kv * head_dim) * size;
    LaunchPlan {
        buffers,
        launch: Launch::Grid { x: n_q_heads as u32, y: 1, z: 1, group: 1024 },
        bytes_moved: bytes as u64,
    }
}

/// Decode over 4096 positions with sinks, width 512.
pub fn bench_sdpa_decode_d512_sink(size: usize) -> (r: LaunchPlan)
    requires
        size == 2 || size == 4,
    ensures
        r.buffers@ == seq![
            16384usize,
            16777216usize,
            16777216usize,
            32usize,
            16384usize,
        ],
        r.launch == (Launch::Grid { x: 32, y: 1, z: 1, group: 512 }),
        r.bytes_moved == 33587200 * size + 128,
{
    let n_q_heads: usize = 32;
    let n_kv_heads: usize = 8;
    let head_dim: usize = 512;
    let n_kv: usize = 4096;
    let kv_stride: usize = 4096;
    let mut buffers: Vec<usize> = Vec::new();
    buffers.push(n_q_heads * head_dim);
    buffers.push(n_kv_heads * kv_stride * head_dim);
    buffers.push(n_kv_heads * kv_stride * head_dim);
    buffers.push(n_q_heads);
    buffers.push(n_q_heads * head_dim);
    let bytes: usize = (2 * n_q_heads * head_dim + 2 * n_kv_heads * n_kv * head_dim) * size + n_q_heads * 4;
    LaunchPlan {
        buffers,
        launch: Launch::Grid { x: n_q_heads as u32, y: 1, z: 1, group: 512 },
        bytes_moved: bytes as u64,
    }
}

/// Decode of two query slots.
pub fn bench_q2(size: usize) -> (r: LaunchPlan)
    requires
        size == 2 || size == 4,
    ensures
        r.buffers@ == seq![
            8192usize,
            4194304usize,
            4194304usize,
            8192usize,
        ],
        r.launch == (Launch::Grid { x: 32, y: 1, z: 1, group: 1024 }),
        r.bytes_moved == 8404992 * size,
{
    let n_q_heads: usize = 32;
    let n_kv_heads: usize = 8;
    let head_dim: usize = 128;
    let n_kv: usize = 4096;
    let kv_stride: usize = 4096;
    let batch_q: usize = 2;
    let mut buffers: Vec<usize> = Vec::new();
    buffers.push(n_q_heads * batch_q * head_dim);
    buffers.push(n_kv_heads * kv_stride * head_dim);
    buffers.push(n_kv_heads * kv_stride * head_dim);
    buffers.push(n_q_heads * batch_q * head_dim);
    let bytes: usize = (2 * n_q_heads * batch_q * head_dim + 2 * n_kv_heads * n_kv * head_dim) * size;
    LaunchPlan {
        buffers,
        launch: Launch::Grid { x: n_q_heads as u32, y: 1, z: 1, group: 1024 },
        bytes_moved: bytes as u64,
    }
}

/// Decode of four query slots, in groups of sixteen simdgroups: a lane that keeps
/// four streams does not fit a full group.
pub fn bench_q4(size: usize) -> (r: LaunchPlan)
    requires
        size == 2 || size == 4,
    ensures
        r.buffers@ == seq![
            16384usize,
            4194304usize,
            4194304usize,
            16384usize,
        ],
        r.launch == (Launch::Grid { x: 32, y: 1, z: 1, group: 512 }),
        r.bytes_moved == 8421376 * size,
{
    let n_q_heads: usize = 32;
    let n_kv_heads: usize = 8;
    let head_dim: usize = 128;
    let n_kv: usize = 4096;
    let kv_stride: usize = 4096;
    let batch_q: usize = 4;
    let mut buffers: Vec<usize> = Vec::new();
    buffers.push(n_q_heads * batch_q * head_dim);
    buffers.push(n_kv_heads * kv_stride * head_dim);
    buffers.push(n_kv_heads * kv_stride * head_dim);
    buffers.push(n_q_heads * batch_q * head_dim);
    let bytes: usize = (2 * n_q_heads * batch_q * head_dim + 2 * n_kv_heads * n_kv * head_dim) * size;
    LaunchPlan {
        buffers,
        launch: Launch::Grid { x: n_q_heads as u32, y: 1, z: 1, group: 512 },
        bytes_moved: bytes as u64,
    }
}

/// Decode of eight query slots, in groups of eight simdgroups.
pub fn bench_q8(size: usize) -> (r: LaunchPlan)
    requires
        size == 2 || size == 4,
    ensures
        r.buffers@ == seq![
            32768usize,
            4194304usize,
            4194304usize,
            32768usize,
        ],
        r.launch == (Launch::Grid { x: 32, y: 1, z: 1, group: 256 }),
        r.bytes_moved == 8454144 * size,
{
    let n_q_heads: usize = 32;
    let n_kv_heads: usize = 8;
    let head_dim: usize = 128;
    let n_kv: usize = 4096;
    let kv_stride: usize = 4096;
    let batch_q: usize = 8;
    let mut buffers: Vec<usize> = Vec::new();
    buffers.push(n_q_heads * batch_q * head_dim);
    buffers.push(n_kv_heads * kv_stride * head_dim);
    buffers.push(n_kv_heads * kv_stride * head_dim);
    buffers.push(n_q_heads * batch_q * head_dim);
    let bytes: usize = (2 * n_q_heads * batch_q * head_dim + 2 * n_kv_heads * n_kv * head_dim) * size;
    LaunchPlan {
        buffers,
        launch: Launch::Grid { x: n_q_heads as u32, y: 1, z: 1, group: 256 },
        bytes_moved: bytes as u64,
    }
}

/// A block of eight queries behind 4096 positions.
pub fn bench_sdpa_multi(size: usize) -> (r: LaunchPlan)
    requires
        size == 2 || size == 4,
    ensures
        r.buffers@ == seq![
            32768usize,
            4202496usize,
            4202496usize,
            32768usize,
        ],
        r.launch == (Launch::Grid { x: 256, y: 1, z: 1, group: 1024 }),
        r.bytes_moved == 8470528 * size,
{
    let n_q_heads: usize = 32;
    let n_kv_heads: usize = 8;
    let head_dim: usize = 128;
    let base_kv: usize = 4096;
    let n_query: usize = 8;
    let kv_stride: usize = base_kv + n_query;
    let n_kv: usize = base_kv + n_query;
    let mut buffers: Vec<usize> = Vec::new();
    buffers.push(n_query * n_q_heads * head_dim);
    buffers.push(n_kv_heads * kv_stride * head_dim);
    buffers.push(n_kv_heads * kv_stride * head_dim);
    buffers.push(n_query * n_q_heads * head_dim);
    let bytes: usize = (2 * n_query * n_q_heads * head_dim + 2 * n_kv_heads * n_kv * head_dim) * size;
    LaunchPlan {
        buffers,
        launch: Launch::Grid { x: (n_q_heads * n_query) as u32, y: 1, z: 1, group: 1024 },
        bytes_moved: bytes as u64,
    }
}

/// The same block under a tree mask.
pub fn bench_sdpa_multi_tree_mask(size: usize) -> (r: LaunchPlan)
    requires
        size == 2 || size == 4,
    ensures
        r.buffers@ == seq![
            32768usize,
            4202496usize,
            4202496usize,
            64usize,
            32768usize,
        ],
        r.launch == (Launch::Grid { x: 256, y: 1, z: 1, group: 1024 }),
        r.bytes_moved == 8470592 * size,
{
    let n_q_heads: usize = 32;
    let n_kv_heads: usize = 8;
    let head_dim: usize = 128;
    let base_kv: usize = 4096;
    let n_query: usize = 8;
    let kv_stride: usize = base_kv + n_query;
    let n_kv: usize = base_kv + n_query;
    let mut buffers: Vec<usize> = Vec::new();
    buffers.push(n_query * n_q_heads * head_dim);
    buffers.push(n_kv_heads * kv_stride * head_dim);
    buffers.push(n_kv_heads * kv_stride * head_dim);
    buffers.push(n_query * n_query);
    buffers.push(n_query * n_q_heads * head_dim);
    let bytes: usize = (2 * n_query * n_q_heads * head_dim + 2 * n_kv_heads * n_kv * head_dim
        + n_query * n_query) * size;
    LaunchPlan {
        buffers,
        launch: Launch::Grid { x: (n_q_heads * n_query) as u32, y: 1, z: 1, group: 1024 },
        bytes_moved: bytes as u64,
    }
}

/// The fused norm and product of a 4096 by 4096 matrix of `bits`-wide codes,
/// `rows` output rows to a group of `group` threads.
pub fn bench_rms_norm_qgemv(bits: usize, rows: usize, group: u32, size: usize) -> (r: LaunchPlan)
    requires
        bits == 4 || bits == 8,
        rows == 1 || rows == 8,
        size == 2 || size == 4,
    ensures
        r.buffers@ == seq![
            4096usize,
            4096usize,
            (if bits == 4 { 2097152usize } else { 4194304usize }),
            262144usize,
            262144usize,
            4096usize,
            1usize,
        ],
        r.launch == (Launch::Grid { x: if rows == 1 { 4096 } else { 512 }, y: 1, z: 1, group }),
        r.bytes_moved == (if bits == 4 { 8388608u64 } else { 16777216u64 }),
{
    let in_dim: usize = 4096;
    let gs: usize = 64;
    let out_dim: usize = 4096;
    let n_groups: usize = in_dim / gs;
    let weight_words: usize = if bits == 4 {
        out_dim * in_dim / 8
    } else {
        out_dim * in_dim / 4
    };
    let mut buffers: Vec<usize> = Vec::new();
    buffers.push(in_dim);
    buffers.push(in_dim);
    buffers.push(weight_words);
    buffers.push(out_dim * n_groups);
    buffers.push(out_dim * n_groups);
    buffers.push(out_dim);
    buffers.push(1);
    LaunchPlan {
        buffers,
        launch: Launch::Grid { x: (out_dim / rows) as u32, y: 1, z: 1, group },
        bytes_moved: (weight_words * 4) as u64,
    }
}

} // verus!
