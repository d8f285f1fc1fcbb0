# metaltile_std

Inference kernels for language and vision models, written as executable Rust
with contracts that Verus proves.

A kernel here is an ordinary function over its tensors: it runs every thread of
the dispatch in turn and leaves in the output buffer what the device leaves
there. Launch dimensions that the device takes from the dispatch (rows, heads,
threads, simdgroups) are parameters.

## Arithmetic

Kernels are generic over an accumulator type (`num::Num`) and a storage type
(`num::Store`). A contract fixes each operation and its order, so it holds of
single precision as it does of any other arithmetic. `num::ExactNum` and
`num::ExactStore` add the identities of exact arithmetic; the laws that compare
a kernel with a textbook formula, or two kernels with each other, are proved
under them. `fermat::Fermat`, the integers modulo 65537, has all of them, which
shows the laws to be about something and lets tests check them exactly.

## Layout

- `src/num.rs`, `src/fermat.rs`: arithmetic.
- `src/index.rs`, `src/sums.rs`, `src/order.rs`: facts on row-major indices, on
  sums, and on signs and bounds.
- `src/quant.rs`: packed codes and the generator of trial weights.
- `src/ffai/`: the kernels. `attention`, `softmax` and `sdpa_*` hold attention,
  `gather`, `mma` and `moe*` the mixture of experts, `gemv`, `rms_norm_*` and
  `norm` the fused norms and products, `rope*` the rotations, `patch_embed*` the
  patch embeddings, `sampling` the sampler. Files ending in `_laws` and
  `_reference` hold theorems and plain reference computations; `benches` and
  `moe_mpp_shared` the launch shapes of timed and trial runs.
- `tests/`: trials in single precision and in `Fermat`.
- `app/`: the floating-point side: number formats, trial data, and the table of
  timed runs.
