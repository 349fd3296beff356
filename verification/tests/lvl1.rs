use blas_rs::error::BlasError;
use blas_rs::lvl1::{
    check_rotation, check_search, check_vector, check_vector_pair, copy, fold_indexed, fold_pairs,
    map_in_place, map_into, map_pairs_in_place, select_first, swap,
};
use blas_rs::stride::{element_index, fits_buffer, required_buffer_len, stride_magnitude};

// ─── the strided model ──────────────────────────────────────────────────────

#[test]
fn element_index_walks_forward_and_backward() {
    let forward: Vec<usize> = (0..4).map(|i| element_index(4, 2, i, 7)).collect();
    assert_eq!(forward, vec![0, 2, 4, 6]);
    let backward: Vec<usize> = (0..4).map(|i| element_index(4, -2, i, 7)).collect();
    assert_eq!(backward, vec![6, 4, 2, 0]);
    let unit_back: Vec<usize> = (0..4).map(|i| element_index(4, -1, i, 4)).collect();
    assert_eq!(unit_back, vec![3, 2, 1, 0]);
}

#[test]
fn required_length_follows_n_and_increment() {
    assert_eq!(required_buffer_len(0, 5), Some(0));
    assert_eq!(required_buffer_len(4, 1), Some(4));
    assert_eq!(required_buffer_len(4, -3), Some(10));
    assert_eq!(required_buffer_len(usize::MAX, 2), None);
    assert_eq!(stride_magnitude(i32::MIN), 2147483648usize);
    assert!(fits_buffer(4, 7, 2));
    assert!(!fits_buffer(4, 6, 2));
    // a zero increment reuses one element
    assert!(fits_buffer(4, 1, 0));
    assert!(!fits_buffer(4, 0, 0));
}

// ─── argument checks (the routines panic where these return Err) ───────────

#[test]
fn axpy_rejects_zero_increment() {
    assert_eq!(check_vector_pair(4, 4, 0, 4, 1), Err(BlasError::ZeroIncrement));
}

#[test]
fn scal_rejects_zero_increment() {
    assert_eq!(check_vector(4, 4, 0), Err(BlasError::ZeroIncrement));
}

#[test]
fn copy_rejects_zero_increment() {
    assert_eq!(check_vector_pair(4, 4, 0, 4, 1), Err(BlasError::ZeroIncrement));
    assert_eq!(check_vector_pair(4, 4, 1, 4, 0), Err(BlasError::ZeroIncrement));
}

#[test]
fn nrm2_rejects_short_buffer() {
    assert_eq!(check_vector(4, 2, 1), Err(BlasError::XTooShort));
}

#[test]
fn i_amax_rejects_empty_vector() {
    assert_eq!(check_search(0, 4, 1), Err(BlasError::EmptyVector));
    assert_eq!(check_search(0, 4, 0), Err(BlasError::EmptyVector));
    assert_eq!(check_search(4, 4, 1), Ok(()));
}

#[test]
fn rot_rejects_zero_increment_and_empty() {
    assert_eq!(check_rotation(2, 2, 0, 2, 1), Err(BlasError::ZeroIncrement));
    assert_eq!(check_rotation(0, 2, 1, 2, 1), Err(BlasError::EmptyVector));
}

#[test]
fn empty_vectors_need_nothing() {
    assert_eq!(check_vector(0, 0, 0), Ok(()));
    assert_eq!(check_vector_pair(0, 0, 0, 0, 0), Ok(()));
}

#[test]
fn pair_check_reports_x_before_y() {
    assert_eq!(check_vector_pair(4, 3, 1, 3, 1), Err(BlasError::XTooShort));
    assert_eq!(check_vector_pair(4, 7, 2, 6, 2), Err(BlasError::YTooShort));
    assert_eq!(check_vector_pair(4, 7, -2, 7, 2), Ok(()));
}

// ─── copy ───────────────────────────────────────────────────────────────────

#[test]
fn copy_basic_and_sizes() {
    for n in [1, 7, 8, 9, 16, 32, 128, 256, 1024] {
        let x: Vec<f32> = (0..n).map(|i| i as f32).collect();
        let mut y = vec![0.0f32; n];
        copy(n, &x, 1, &mut y, 1);
        assert_eq!(y, x, "copy n={n}");
    }
}

#[test]
fn copy_neg_stride() {
    let x = [1.0f32, 2.0, 3.0, 4.0];
    let mut y = [0.0f32; 4];
    copy(4, &x, -1, &mut y, -1);
    assert_eq!(y, [1.0, 2.0, 3.0, 4.0], "copy neg stride");
}

#[test]
fn copy_nonunit_stride() {
    let x = [1.0f32, 99.0, 2.0, 99.0, 3.0, 99.0, 4.0];
    let mut y = [0.0f32; 8];
    copy(4, &x, 2, &mut y, 2);
    assert_eq!(y, [1.0, 0.0, 2.0, 0.0, 3.0, 0.0, 4.0, 0.0], "copy nonunit stride");
}

#[test]
fn copy_reverses_with_opposite_increments() {
    let x = [1u8, 2, 3, 4];
    let mut y = [0u8; 4];
    copy(4, &x, 1, &mut y, -1);
    assert_eq!(y, [4, 3, 2, 1]);
}

// ─── swap ───────────────────────────────────────────────────────────────────

#[test]
fn swap_basic_and_sizes() {
    for n in [1, 7, 8, 9, 16, 128, 1024] {
        let x0: Vec<f32> = (0..n).map(|i| i as f32).collect();
        let y0: Vec<f32> = (0..n).map(|i| (i + 100) as f32).collect();
        let mut x = x0.clone();
        let mut y = y0.clone();
        swap(n, &mut x, 1, &mut y, 1);
        assert_eq!(x, y0, "swap_x n={n}");
        assert_eq!(y, x0, "swap_y n={n}");
    }
}

#[test]
fn swap_neg_stride() {
    let mut x = [1.0f32, 2.0, 3.0, 4.0];
    let mut y = [5.0f32, 6.0, 7.0, 8.0];
    swap(4, &mut x, -1, &mut y, -1);
    assert_eq!(x, [5.0, 6.0, 7.0, 8.0], "swap neg stride x");
    assert_eq!(y, [1.0, 2.0, 3.0, 4.0], "swap neg stride y");
}

#[test]
fn swap_nonunit_stride() {
    let mut x = [1.0f32, 99.0, 2.0, 99.0, 3.0];
    let mut y = [5.0f32, 99.0, 6.0, 99.0, 7.0];
    swap(3, &mut x, 2, &mut y, 2);
    assert_eq!(x, [5.0, 99.0, 6.0, 99.0, 7.0], "swap nonunit stride x");
    assert_eq!(y, [1.0, 99.0, 2.0, 99.0, 3.0], "swap nonunit stride y");
}

#[test]
fn swap_twice_restores_both() {
    let x0 = [1i32, 2, 3, 4, 5, 6];
    let y0 = [10i32, 20, 30];
    let mut x = x0;
    let mut y = y0;
    swap(3, &mut x, -2, &mut y, 1);
    assert_eq!(x, [30, 2, 20, 4, 10, 6]);
    assert_eq!(y, [5, 3, 1]);
    swap(3, &mut x, -2, &mut y, 1);
    assert_eq!(x, x0);
    assert_eq!(y, y0);
}

// ─── element-wise maps and folds ────────────────────────────────────────────

#[test]
fn map_in_place_scales_strided_elements_only() {
    let mut x = [1.0f32, 99.0, 2.0, 99.0, 3.0, 99.0, 4.0];
    map_in_place(4, &mut x, 2, |v: f32| v * 5.0);
    assert_eq!(x, [5.0, 99.0, 10.0, 99.0, 15.0, 99.0, 20.0]);
}

#[test]
fn map_into_pairs_reversed_vectors() {
    let x = [8.0f32, 7.0, 6.0, 5.0, 4.0, 3.0, 2.0, 1.0];
    let mut y = [0.0f32; 8];
    map_into(4, &x, -1, &mut y, -1, |a: f32, b: f32| 1.0f32.mul_add(a, b));
    assert_eq!(y, [8.0, 7.0, 6.0, 5.0, 0.0, 0.0, 0.0, 0.0]);
    let mut z = [0.0f32; 8];
    map_into(4, &x, 1, &mut z, -2, |a: f32, b: f32| 3.0f32.mul_add(a, b));
    assert_eq!(z, [15.0, 0.0, 18.0, 0.0, 21.0, 0.0, 24.0, 0.0]);
}

#[test]
fn map_pairs_in_place_rotates_each_pair() {
    let mut x = [1.0f32, 99.0, 2.0, 99.0, 3.0];
    let mut y = [4.0f32, 99.0, 5.0, 99.0, 6.0];
    let (c, s) = (0.0f32, 1.0f32);
    map_pairs_in_place(3, &mut x, 2, &mut y, 2, |a: f32, b: f32| (c * a + s * b, c * b - s * a));
    assert_eq!(x, [4.0, 99.0, 5.0, 99.0, 6.0]);
    assert_eq!(y, [-1.0, 99.0, -2.0, 99.0, -3.0]);
}

#[test]
fn fold_pairs_is_a_dot_product() {
    let x = [1.0f32, 99.0, 2.0, 99.0, 3.0, 99.0, 4.0];
    let y = [4.0f32, 99.0, 5.0, 99.0, 6.0, 99.0, 7.0];
    let dot = fold_pairs(4, &x, 2, &y, 2, 0.0f32, |acc: f32, a: f32, b: f32| a.mul_add(b, acc));
    assert_eq!(dot, 60.0);
    let back = fold_pairs(4, &x, -2, &y, 2, 0.0f32, |acc: f32, a: f32, b: f32| a.mul_add(b, acc));
    assert_eq!(back, 4.0 * 4.0 + 3.0 * 5.0 + 2.0 * 6.0 + 1.0 * 7.0);
}

#[test]
fn fold_indexed_visits_in_logical_order() {
    let x = [1.0f32, 2.0, 3.0, 4.0];
    let order = fold_indexed(4, &x, -1, Vec::new(), |mut acc: Vec<(usize, f32)>, i: usize, v: f32| {
        acc.push((i, v));
        acc
    });
    assert_eq!(order, vec![(0, 4.0), (1, 3.0), (2, 2.0), (3, 1.0)]);
    let first_max = fold_indexed(
        4,
        &x,
        -1,
        (0usize, f32::NEG_INFINITY),
        |best: (usize, f32), i: usize, v: f32| if v.abs() > best.1 { (i, v.abs()) } else { best },
    );
    assert_eq!(first_max.0, 0);
}

#[test]
fn readme_axpy_and_dot() {
    let n: usize = 4;
    let alpha: f32 = 2.0;
    let x = vec![1.0f32, 2.0, 3.0, 4.0];
    let mut y = vec![10.0f32, 20.0, 30.0, 40.0];
    assert_eq!(check_vector_pair(n, x.len(), 1, y.len(), 1), Ok(()));
    map_into(n, &x, 1, &mut y, 1, |a: f32, b: f32| alpha.mul_add(a, b));
    assert_eq!(y, vec![12.0, 24.0, 36.0, 48.0]);

    let x = vec![1.0f32, 2.0, 3.0, 4.0, 5.0, 6.0, 7.0, 8.0];
    let y = vec![9.0f32, 10.0, 11.0, 12.0, 13.0, 14.0, 15.0, 16.0];
    let dot = fold_pairs(n, &x, 1, &y, 1, 0.0f32, |acc: f32, a: f32, b: f32| a.mul_add(b, acc));
    assert_eq!(dot, 110.0);
}

#[test]
fn select_first_keeps_the_first_of_equal_magnitudes() {
    let larger = |cand: i64, best: i64| cand.abs() > best.abs();
    let smaller = |cand: i64, best: i64| cand.abs() < best.abs();
    let x = [3i64, -7, 2, 7, -1, 1];
    assert_eq!(select_first(6, &x, 1, larger), 1);
    assert_eq!(select_first(6, &x, 1, smaller), 4);
    // every other element: 3, 2, -1
    assert_eq!(select_first(3, &x, 2, larger), 0);
    assert_eq!(select_first(3, &x, 2, smaller), 2);
    // read backwards, the logical order is 1, -1, 7, 2, -7, 3
    assert_eq!(select_first(6, &x, -1, larger), 2);
    assert_eq!(select_first(6, &x, -1, smaller), 0);
    assert_eq!(select_first(1, &[-4i64], 1, larger), 0);
}
