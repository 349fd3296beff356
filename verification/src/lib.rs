//! Validation, index arithmetic and the integer kernels behind a small set of
//! BLAS-style routines for `f32` on `x86_64`.

pub mod error;
pub mod stride;
pub mod lvl1;
pub mod lvl2;
pub mod lvl3;
pub mod utils;
