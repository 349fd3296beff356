# blas_rs

Single-precision BLAS-style routines for `x86_64`, built around a verified
core written in Verus.

- `src/` is the verified library: the strided-vector and column-major matrix
  model (`stride`), the argument checks of every routine together with the
  guarantee that accepted arguments keep every access in bounds (`lvl1`,
  `lvl2`, `lvl3`), the generic strided traversals that the routines share
  (copy, swap, element-wise maps over vectors and matrices, folds, the scan
  for the first best element, and the matrix-vector and matrix-matrix
  accumulations), the four-lane `splitmix64` noise generator,
  blocked matrix transposition and cache-size discovery (`utils`).
- `app/` holds the `f32` routines themselves (`axpy`, `dot`, `gemv`, `gemm`,
  ...): each checks its arguments with the verified checks and hands its
  floating-point arithmetic to a verified traversal as a closure. It also
  holds the timing harness of the benchmarks.
- `tests/` exercises the verified library on concrete values.
