//! Sparse matrices in compressed sparse row (CSR) form, with incremental
//! construction and sparse matrix-matrix multiplication in the row-wise
//! accumulation style.
//!
//! Element values are IEEE 754 binary64 numbers, carried as their 64-bit
//! representations so that the container and the multiplication bookkeeping
//! can be stated and checked exactly; the two arithmetic operations the
//! multiplication needs run behind trusted wrappers over a deterministic
//! software implementation of binary64 arithmetic.

pub mod csr;
pub mod matmul;
pub mod scalar;
