//! The kernels, one module per family.
pub mod attention;
pub mod gather;
pub mod mma;
pub mod moe;
pub mod moe_laws;
pub mod moe_buffer_laws;
pub mod moe_route;
pub mod moe_mpp;
pub mod moe_mpp_bm64;
pub mod moe_mpp_bm8;
pub mod moe_mpp_bm8_int8;
pub mod moe_mpp_int8;
pub mod sdpa_rows;
pub mod softmax;
pub mod softmax_laws;
pub mod sdpa_laws;
pub mod sdpa_buffer_laws;
pub mod sdpa_bidirectional;
pub mod sdpa_bidirectional_d128_relpos;
pub mod sdpa_decode;
pub mod sdpa_decode_2pass;
pub mod sdpa_decode_batched;
pub mod sdpa_decode_d256;
pub mod sdpa_decode_d512_sink;
pub mod sdpa_multi;
pub mod rope;
pub mod rope_2d;
pub mod rope_llama;
pub mod rope_llama_many;
pub mod rope_yarn;
pub mod rope_laws;
pub mod moe_router_sqrtsoftplus;
pub mod norm;
pub mod rms_norm_residual;
pub mod rms_norm_rope;
pub mod gemv;
pub mod gemv_laws;
pub mod gemv_reference;
pub mod rms_norm_qgemv;
pub mod moe_down_swiglu_accum;
pub mod patch_embed;
pub mod patch_embed_mma;
pub mod sampling;
pub mod moe_mpp_shared;
pub mod moe_reference;
pub mod moe_router_laws;
pub mod sdpa_reference;
pub mod benches;
