//! Dense component storage: values live contiguously in one buffer and are
//! looked up by a sparse, externally assigned id through an index table and a
//! reverse table kept in lock-step with the buffer.

pub mod gpu;
pub mod laws;

pub use gpu::{GPUDenseVecStorage, GPUStorage, Index};
