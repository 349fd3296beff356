use blas_rs::error::BlasError;
use blas_rs::lvl2::{check_gemv, check_symv, gemv_accumulate, symv_accumulate};

#[test]
fn gemv_bounds_error() {
    // A holds 2 elements where a 2 by 3 matrix with lda 2 needs 6.
    assert_eq!(check_gemv(2, 3, 2, 2, 3, 1, 2, 1, false), Err(BlasError::ATooShort));
    // x holds 2 elements where the 3 columns need 3.
    assert_eq!(check_gemv(2, 3, 2, 6, 2, 1, 2, 1, false), Err(BlasError::XTooShort));
}

#[test]
fn gemv_rejects_zero_increment() {
    assert_eq!(check_gemv(2, 2, 2, 4, 2, 0, 2, 1, false), Err(BlasError::ZeroIncrement));
}

#[test]
fn gemv_checks_in_order() {
    // a bad leading dimension is reported before an empty matrix
    assert_eq!(check_gemv(0, 3, 0, 0, 3, 1, 0, 1, false), Err(BlasError::BadLda));
    assert_eq!(check_gemv(3, 3, 2, 9, 3, 1, 3, 1, false), Err(BlasError::BadLda));
    assert_eq!(check_gemv(0, 3, 1, 0, 3, 1, 0, 1, false), Err(BlasError::EmptyMatrix));
    assert_eq!(check_gemv(2, 0, 2, 0, 0, 1, 2, 1, false), Err(BlasError::EmptyMatrix));
    // y too short once everything before it fits
    assert_eq!(check_gemv(4, 3, 4, 12, 3, 1, 3, 1, false), Err(BlasError::YTooShort));
}

#[test]
fn gemv_vector_lengths_follow_transposition() {
    // 4 by 3 with strides: x has 3 elements (no transpose) or 4 (transpose)
    assert_eq!(check_gemv(4, 3, 4, 12, 5, 2, 7, 2, false), Ok(()));
    assert_eq!(check_gemv(4, 3, 4, 12, 5, 2, 5, 2, true), Err(BlasError::XTooShort));
    assert_eq!(check_gemv(4, 3, 4, 12, 7, 2, 5, 2, true), Ok(()));
    assert_eq!(check_gemv(4, 3, 4, 12, 3, -1, 4, 1, false), Ok(()));
    // padding between columns: lda 5 for 4 rows needs (3 - 1) * 5 + 4 = 14
    assert_eq!(check_gemv(4, 3, 5, 13, 3, 1, 4, 1, false), Err(BlasError::ATooShort));
    assert_eq!(check_gemv(4, 3, 5, 14, 3, 1, 4, 1, false), Ok(()));
}

#[test]
fn symv_checks_square_matrix() {
    assert_eq!(check_symv(3, 3, 9, 3, 1, 3, 1), Ok(()));
    assert_eq!(check_symv(3, 2, 9, 3, 1, 3, 1), Err(BlasError::BadLda));
    assert_eq!(check_symv(0, 1, 0, 0, 1, 0, 1), Err(BlasError::EmptyMatrix));
    assert_eq!(check_symv(3, 3, 8, 3, 1, 3, 1), Err(BlasError::ATooShort));
    assert_eq!(check_symv(3, 3, 9, 3, 1, 2, 1), Err(BlasError::YTooShort));
    assert_eq!(check_symv(3, 3, 9, 3, 0, 3, 1), Err(BlasError::ZeroIncrement));
}

fn mul_add(acc: i64, a: i64, x: i64) -> i64 {
    acc + a * x
}

#[test]
fn gemv_accumulate_forms_y_plus_a_x() {
    // column-major 3 by 2: columns (1, 2, 3) and (4, 5, 6)
    let a = [1i64, 2, 3, 4, 5, 6];
    let mut y = [100i64, 200, 300];
    gemv_accumulate(3, 2, &a, 3, &[1, 10], 1, &mut y, 1, false, mul_add);
    assert_eq!(y, [141, 252, 363]);
    // the same x stored backwards
    let mut y = [100i64, 200, 300];
    gemv_accumulate(3, 2, &a, 3, &[10, 1], -1, &mut y, 1, false, mul_add);
    assert_eq!(y, [141, 252, 363]);
}

#[test]
fn gemv_accumulate_transposed() {
    let a = [1i64, 2, 3, 4, 5, 6];
    let mut y = [0i64, 99, 0];
    gemv_accumulate(3, 2, &a, 3, &[1, 1, 1], 1, &mut y, 2, true, mul_add);
    assert_eq!(y, [6, 99, 15]);
}

#[test]
fn gemv_accumulate_skips_padding_rows() {
    // lda 4: row 3 of each column is padding that must not be read
    let a = [1i64, 2, 3, 999, 4, 5, 6, 999];
    let mut y = [0i64; 3];
    gemv_accumulate(3, 2, &a, 4, &[1, 1], 1, &mut y, 1, false, mul_add);
    assert_eq!(y, [5, 7, 9]);
}

#[test]
fn symv_accumulate_reads_the_upper_triangle() {
    // symmetric [[1, 2, 3], [2, 4, 5], [3, 5, 6]]; the lower triangle holds garbage
    let a = [1i64, -7, -7, 2, 4, -7, 3, 5, 6];
    let mut y = [100i64, 200, 300];
    symv_accumulate(3, &a, 3, &[1, 10, 100], 1, &mut y, 1, true, mul_add);
    assert_eq!(y, [100 + 321, 200 + 542, 300 + 653]);
}

#[test]
fn symv_accumulate_reads_the_lower_triangle() {
    // the same matrix from its lower triangle, the upper one holding garbage,
    // with lda 4 (one padding row) and y written every other element
    let a = [1i64, 2, 3, -9, -7, 4, 5, -9, -7, -7, 6, -9];
    let mut y = [0i64, 77, 0, 77, 0];
    symv_accumulate(3, &a, 4, &[100, 10, 1], -1, &mut y, 2, false, mul_add);
    assert_eq!(y, [321, 77, 542, 77, 653]);
}

#[test]
fn symv_accumulate_one_by_one() {
    let mut y = [5i64];
    symv_accumulate(1, &[3i64], 1, &[4], 1, &mut y, 1, false, mul_add);
    assert_eq!(y, [17]);
}
