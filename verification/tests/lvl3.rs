use blas_rs::error::BlasError;
use blas_rs::lvl3::{check_gemm, gemm_accumulate, map_matrix_in_place};

#[test]
fn gemm_zero_dims() {
    assert_eq!(check_gemm(0, 2, 2, 0, 0, 0, 0, 2, 4, false, false), Ok(false));
    assert_eq!(check_gemm(2, 0, 2, 0, 0, 0, 0, 2, 4, false, false), Ok(false));
    assert_eq!(check_gemm(2, 2, 0, 0, 0, 0, 0, 2, 4, false, false), Ok(false));
}

#[test]
fn gemm_rejects_zero_lda() {
    assert_eq!(check_gemm(2, 2, 2, 0, 0, 2, 0, 2, 0, false, false), Err(BlasError::BadLda));
}

#[test]
fn gemm_checks_in_order() {
    assert_eq!(check_gemm(3, 3, 3, 3, 9, 3, 9, 3, 9, false, false), Ok(true));
    assert_eq!(check_gemm(3, 3, 3, 3, 9, 2, 9, 3, 9, false, false), Err(BlasError::BadLdb));
    assert_eq!(check_gemm(3, 3, 3, 3, 9, 3, 9, 2, 9, false, false), Err(BlasError::BadLdc));
    assert_eq!(check_gemm(3, 3, 3, 3, 8, 3, 9, 3, 9, false, false), Err(BlasError::ATooShort));
    assert_eq!(check_gemm(3, 3, 3, 3, 9, 3, 8, 3, 9, false, false), Err(BlasError::BTooShort));
    assert_eq!(check_gemm(3, 3, 3, 3, 9, 3, 9, 3, 8, false, false), Err(BlasError::CTooShort));
}

#[test]
fn gemm_lda_padding() {
    // A: 3 by 3 with lda 5 needs (3 - 1) * 5 + 3 = 13 elements
    assert_eq!(check_gemm(3, 3, 3, 5, 15, 5, 15, 3, 9, false, false), Ok(true));
    assert_eq!(check_gemm(3, 3, 3, 5, 13, 5, 13, 3, 9, false, false), Ok(true));
    assert_eq!(check_gemm(3, 3, 3, 5, 12, 5, 13, 3, 9, false, false), Err(BlasError::ATooShort));
    assert_eq!(check_gemm(3, 3, 3, 5, 15, 3, 9, 3, 9, true, false), Ok(true));

    // the products themselves read through the padding rows 3 and 4 of each column
    let (m, n, k, lda, ldb) = (3, 3, 3, 5, 5);
    let a = padded(m, k, lda);
    let b = padded(k, n, ldb);
    let mut c = vec![0i64; m * n];
    gemm_accumulate(m, n, k, &a, lda, &b, ldb, &mut c, m, false, false, mul_add);
    assert_eq!(c, naive_product(m, n, k, |i, p| a[i + p * lda], |p, j| b[p + j * ldb]));

    let a_t = padded(k, m, lda);
    let b2 = padded(k, n, k);
    let mut c2 = vec![0i64; m * n];
    gemm_accumulate(m, n, k, &a_t, lda, &b2, k, &mut c2, m, true, false, mul_add);
    assert_eq!(c2, naive_product(m, n, k, |i, p| a_t[p + i * lda], |p, j| b2[p + j * k]));
}

/// A `rows` by `cols` column-major matrix with leading dimension `ld`, its
/// element `(r, c)` being `10 * r + c + 1` and its padding rows `1000`.
fn padded(rows: usize, cols: usize, ld: usize) -> Vec<i64> {
    let mut buf = vec![1000i64; cols * ld];
    for c in 0..cols {
        for r in 0..rows {
            buf[r + c * ld] = (10 * r + c + 1) as i64;
        }
    }
    buf
}

/// The column-major `m` by `n` product of `op(A)` and `op(B)`, read through
/// the given element accessors.
fn naive_product(
    m: usize,
    n: usize,
    k: usize,
    a: impl Fn(usize, usize) -> i64,
    b: impl Fn(usize, usize) -> i64,
) -> Vec<i64> {
    let mut c = vec![0i64; m * n];
    for j in 0..n {
        for i in 0..m {
            c[i + j * m] = (0..k).map(|p| a(i, p) * b(p, j)).sum();
        }
    }
    c
}

#[test]
fn gemm_transposed_operands_use_stored_shapes() {
    // op(A) is 2 by 4; stored transposed it is 4 by 2, so lda must be at least 4
    assert_eq!(check_gemm(2, 3, 4, 2, 8, 4, 12, 2, 6, true, false), Err(BlasError::BadLda));
    assert_eq!(check_gemm(2, 3, 4, 4, 8, 4, 12, 2, 6, true, false), Ok(true));
    // op(B) is 4 by 3; stored transposed it is 3 by 4, so ldb must be at least 3
    assert_eq!(check_gemm(2, 3, 4, 2, 8, 3, 12, 2, 6, false, true), Ok(true));
    assert_eq!(check_gemm(2, 3, 4, 2, 8, 3, 11, 2, 6, false, true), Err(BlasError::BTooShort));
}

fn mul_add(acc: i64, a: i64, b: i64) -> i64 {
    acc + a * b
}

#[test]
fn gemm_accumulate_forms_c_plus_a_b() {
    // A = [[1, 2], [3, 4]], B = [[5, 6], [7, 8]], column-major
    let a = [1i64, 3, 2, 4];
    let b = [5i64, 7, 6, 8];
    let mut c = [1i64, 1, 1, 1];
    gemm_accumulate(2, 2, 2, &a, 2, &b, 2, &mut c, 2, false, false, mul_add);
    assert_eq!(c, [20, 44, 23, 51]);
}

#[test]
fn gemm_accumulate_transposed_operands() {
    // A stored as its transpose, B stored as its transpose: same product
    let at = [1i64, 2, 3, 4];
    let bt = [5i64, 6, 7, 8];
    let mut c = [0i64; 4];
    gemm_accumulate(2, 2, 2, &at, 2, &bt, 2, &mut c, 2, true, true, mul_add);
    assert_eq!(c, [19, 43, 22, 50]);
}

#[test]
fn gemm_accumulate_leaves_padding_of_c() {
    // 2 by 3 times 3 by 1, C with ldc 3: row 2 of C is padding
    let a = [1i64, 0, 0, 1, 1, 1];
    let b = [2i64, 3, 4];
    let mut c = [0i64, 0, -7];
    gemm_accumulate(2, 1, 3, &a, 2, &b, 3, &mut c, 3, false, false, mul_add);
    assert_eq!(c, [6, 7, -7]);
}

#[test]
fn map_matrix_in_place_scales_only_the_matrix() {
    // 2 by 3 with ldc 3: row 2 of each column is padding, and the buffer
    // runs on past the last column
    let mut c = [1i64, 2, -1, 3, 4, -1, 5, 6, -1, -1];
    map_matrix_in_place(2, 3, &mut c, 3, |v: i64| 10 * v);
    assert_eq!(c, [10, 20, -1, 30, 40, -1, 50, 60, -1, -1]);
    let mut none = [7i64, 8];
    map_matrix_in_place(0, 2, &mut none, 1, |v: i64| 10 * v);
    assert_eq!(none, [7, 8]);
}
