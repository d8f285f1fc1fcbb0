//! Reference semantics of the FFAI inference kernels: quantised expert
//! matmuls, attention, rotary embeddings, norms and samplers, each run over
//! its whole dispatch grid and proved against an exact statement of what it
//! writes.
pub mod num;
pub mod fermat;
pub mod index;
pub mod sums;
pub mod order;
pub mod quant;
pub mod ffai;
