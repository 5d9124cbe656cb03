//! Tensors for machine learning: row-major shapes and indexing, broadcasting, matrix products,
//! neural-network layers and computation graphs for reverse-mode differentiation.
//!
//! Tensors are generic in their element type; where an operation needs element arithmetic
//! (sums, products, comparisons), the caller supplies it as a closure and the contracts state
//! the results in terms of what that closure returns.
pub mod autograd;
pub mod backprop;
pub mod gradient_laws;
pub mod nn;
pub mod ops;
pub mod shape;
pub mod tensor;

pub use shape::calc_offset;
pub use tensor::Tensor;
