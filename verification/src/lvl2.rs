//! Level 2: matrix-vector routines.
//!
//! The argument checks of `gemv` and `symv`, and what they guarantee: once a
//! check passes, every element that the routine reads or writes lies inside
//! its buffer. Then the traversals of both products, generic over the
//! element type and the step that each matrix element contributes.

use crate::error::BlasError;
use crate::lvl1::{
    folds_to, is_pair_fold_trace, lemma_not_reached, lemma_write_step, untouched_beyond,
    untouched_outside,
};
use crate::stride::{
    element_index, fits_buffer, lemma_index_in_bounds, lemma_matrix_index_in_bounds,
    matrix_buffer_len, matrix_index, matrix_len, op_index, required_len, stride_index,
    strided_view, vector_fits,
};
use vstd::prelude::*;

verus! {

/// The lengths of the vectors `x` and `y` of `gemv` on an `m` by `n` matrix:
/// `(n, m)` for `y = alpha * A * x + beta * y` and `(m, n)` when `A` is used
/// transposed.
pub open spec fn gemv_vector_lens(m: int, n: int, is_trans: bool) -> (int, int) {
    if is_trans {
        (m, n)
    } else {
        (n, m)
    }
}

/// The arguments of `gemv` that it accepts: nonzero increments, a leading
/// dimension of at least `m` (and not zero), a nonempty matrix, and buffers
/// long enough for `A`, `x` and `y`.
pub open spec fn gemv_args_ok(
    m: int,
    n: int,
    lda: int,
    a_len: int,
    x_len: int,
    incx: int,
    y_len: int,
    incy: int,
    is_trans: bool,
) -> bool {
    let (xn, yn) = gemv_vector_lens(m, n, is_trans);
    &&& incx != 0 && incy != 0
    &&& lda != 0 && lda >= m
    &&& m > 0 && n > 0
    &&& a_len >= matrix_len(m, n, lda)
    &&& x_len >= required_len(xn, incx)
    &&& y_len >= required_len(yn, incy)
}

/// Checks the arguments of `gemv`, in the order in which it refuses them:
/// a zero increment, then a bad leading dimension, then an empty matrix,
/// then a short buffer for `A`, `x` and `y`.
pub fn check_gemv(
    m: usize,
    n: usize,
    lda: usize,
    a_len: usize,
    x_len: usize,
    incx: i32,
    y_len: usize,
    incy: i32,
    is_trans: bool,
) -> (res: Result<(), BlasError>)
    ensures
        ({
            let (xn, yn) = gemv_vector_lens(m as int, n as int, is_trans);
            let incs_ok = incx != 0 && incy != 0;
            let lda_ok = incs_ok && lda != 0 && lda >= m;
            let dims_ok = lda_ok && m > 0 && n > 0;
            let a_ok = dims_ok && a_len >= matrix_len(m as int, n as int, lda as int);
            let x_ok = a_ok && x_len >= required_len(xn, incx as int);
            &&& res is Ok <==> gemv_args_ok(
                m as int,
                n as int,
                lda as int,
                a_len as int,
                x_len as int,
                incx as int,
                y_len as int,
                incy as int,
                is_trans,
            )
            &&& res == Err::<(), BlasError>(BlasError::ZeroIncrement) <==> !incs_ok
            &&& res == Err::<(), BlasError>(BlasError::BadLda) <==> (incs_ok && !lda_ok)
            &&& res == Err::<(), BlasError>(BlasError::EmptyMatrix) <==> (lda_ok && !dims_ok)
            &&& res == Err::<(), BlasError>(BlasError::ATooShort) <==> (dims_ok && !a_ok)
            &&& res == Err::<(), BlasError>(BlasError::XTooShort) <==> (a_ok && !x_ok)
            &&& res == Err::<(), BlasError>(BlasError::YTooShort) <==> (x_ok && y_len
                < required_len(yn, incy as int))
        }),
{
    if incx == 0 || incy == 0 {
        return Err(BlasError::ZeroIncrement);
    }
    if lda == 0 || lda < m {
        return Err(BlasError::BadLda);
    }
    if m == 0 || n == 0 {
        return Err(BlasError::EmptyMatrix);
    }
    match matrix_buffer_len(m, n, lda) {
        Some(need) => {
            if a_len < need {
                return Err(BlasError::ATooShort);
            }
        },
        None => {
            return Err(BlasError::ATooShort);
        },
    }
    let (xn, yn) = if is_trans {
        (m, n)
    } else {
        (n, m)
    };
    if !fits_buffer(xn, x_len, incx) {
        return Err(BlasError::XTooShort);
    }
    if !fits_buffer(yn, y_len, incy) {
        return Err(BlasError::YTooShort);
    }
    Ok(())
}

/// Checks the arguments of `symv` on an `n` by `n` symmetric matrix, in the
/// order in which it refuses them; the same checks as `gemv` on a square
/// matrix.
pub fn check_symv(
    n: usize,
    lda: usize,
    a_len: usize,
    x_len: usize,
    incx: i32,
    y_len: usize,
    incy: i32,
) -> (res: Result<(), BlasError>)
    ensures
        ({
            let incs_ok = incx != 0 && incy != 0;
            let lda_ok = incs_ok && lda != 0 && lda >= n;
            let dims_ok = lda_ok && n > 0;
            let a_ok = dims_ok && a_len >= matrix_len(n as int, n as int, lda as int);
            let x_ok = a_ok && x_len >= required_len(n as int, incx as int);
            &&& res is Ok <==> gemv_args_ok(
                n as int,
                n as int,
                lda as int,
                a_len as int,
                x_len as int,
                incx as int,
                y_len as int,
                incy as int,
                false,
            )
            &&& res == Err::<(), BlasError>(BlasError::ZeroIncrement) <==> !incs_ok
            &&& res == Err::<(), BlasError>(BlasError::BadLda) <==> (incs_ok && !lda_ok)
            &&& res == Err::<(), BlasError>(BlasError::EmptyMatrix) <==> (lda_ok && !dims_ok)
            &&& res == Err::<(), BlasError>(BlasError::ATooShort) <==> (dims_ok && !a_ok)
            &&& res == Err::<(), BlasError>(BlasError::XTooShort) <==> (a_ok && !x_ok)
            &&& res == Err::<(), BlasError>(BlasError::YTooShort) <==> (x_ok && y_len
                < required_len(n as int, incy as int))
        }),
{
    check_gemv(n, n, lda, a_len, x_len, incx, y_len, incy, false)
}

/// Arguments that `gemv` accepts keep every access inside its buffer: each
/// element of `A`, and each element of the vectors `x` and `y` at the
/// lengths that the transposition gives them.
pub proof fn lemma_gemv_accesses_in_bounds(
    m: int,
    n: int,
    lda: int,
    a_len: int,
    x_len: int,
    incx: int,
    y_len: int,
    incy: int,
    is_trans: bool,
)
    requires
        gemv_args_ok(m, n, lda, a_len, x_len, incx, y_len, incy, is_trans),
    ensures
        forall|i: int, j: int|
            0 <= i < m && 0 <= j < n ==> 0 <= #[trigger] matrix_index(i, j, lda) < a_len,
        forall|k: int|
            0 <= k < gemv_vector_lens(m, n, is_trans).0 ==> 0 <= #[trigger] stride_index(
                gemv_vector_lens(m, n, is_trans).0,
                incx,
                k,
            ) < x_len,
        forall|k: int|
            0 <= k < gemv_vector_lens(m, n, is_trans).1 ==> 0 <= #[trigger] stride_index(
                gemv_vector_lens(m, n, is_trans).1,
                incy,
                k,
            ) < y_len,
{
    let (xn, yn) = gemv_vector_lens(m, n, is_trans);
    assert forall|i: int, j: int| 0 <= i < m && 0 <= j < n implies 0 <= #[trigger] matrix_index(
        i,
        j,
        lda,
    ) < a_len by {
        lemma_matrix_index_in_bounds(m, n, lda, a_len, i, j);
    }
    assert(vector_fits(xn, x_len, incx));
    assert(vector_fits(yn, y_len, incy));
    assert forall|k: int| 0 <= k < xn implies 0 <= #[trigger] stride_index(xn, incx, k) < x_len by {
        lemma_index_in_bounds(xn, x_len, incx, k);
    }
    assert forall|k: int| 0 <= k < yn implies 0 <= #[trigger] stride_index(yn, incy, k) < y_len by {
        lemma_index_in_bounds(yn, y_len, incy, k);
    }
}

/// Row `k` of `op(A)`, `len` elements long, where `op(A)` is `A` or, when
/// `is_trans`, its transpose.
pub open spec fn op_row<T>(a: Seq<T>, lda: int, is_trans: bool, k: int, len: int) -> Seq<T> {
    Seq::new(len as nat, |l: int| a[op_index(k, l, lda, is_trans)])
}

/// The traversal of `gemv`: each element `k` of `y` becomes the fold of `f`
/// over row `k` of `op(A)` paired with the elements of `x`, starting from
/// the old element `k` of `y`. With `f(acc, a, x) = acc + alpha * x * a`
/// this is `y = y + alpha * op(A) * x`. Every other position of `y`'s
/// buffer is unchanged.
pub fn gemv_accumulate<T: Copy, F: Fn(T, T, T) -> T>(
    m: usize,
    n: usize,
    a: &[T],
    lda: usize,
    x: &[T],
    incx: i32,
    y: &mut [T],
    incy: i32,
    is_trans: bool,
    f: F,
)
    requires
        gemv_args_ok(
            m as int,
            n as int,
            lda as int,
            a@.len() as int,
            x@.len() as int,
            incx as int,
            old(y)@.len() as int,
            incy as int,
            is_trans,
        ),
        forall|acc: T, u: T, v: T| call_requires(f, (acc, u, v)),
    ensures
        ({
            let (xn, yn) = gemv_vector_lens(m as int, n as int, is_trans);
            &&& forall|k: int|
                0 <= k < yn ==> folds_to(
                    f,
                    old(y)@[#[trigger] stride_index(yn, incy as int, k)],
                    op_row(a@, lda as int, is_trans, k, xn),
                    strided_view(x@, xn, incx as int),
                    final(y)@[stride_index(yn, incy as int, k)],
                )
            &&& untouched_outside(old(y)@, final(y)@, yn, incy as int)
        }),
{
    let (xn, yn) = if is_trans {
        (m, n)
    } else {
        (n, m)
    };
    let ghost xs = strided_view(x@, xn as int, incx as int);
    let a_len = a.len();
    let mut k: usize = 0;
    while k < yn
        invariant
            k <= yn,
            a_len == a@.len(),
            (xn as int, yn as int) == gemv_vector_lens(m as int, n as int, is_trans),
            gemv_args_ok(
                m as int,
                n as int,
                lda as int,
                a@.len() as int,
                x@.len() as int,
                incx as int,
                old(y)@.len() as int,
                incy as int,
                is_trans,
            ),
            forall|acc: T, u: T, v: T| call_requires(f, (acc, u, v)),
            xs == strided_view(x@, xn as int, incx as int),
            untouched_beyond(old(y)@, y@, yn as int, incy as int, k as int),
            forall|j: int|
                0 <= j < k ==> folds_to(
                    f,
                    old(y)@[#[trigger] stride_index(yn as int, incy as int, j)],
                    op_row(a@, lda as int, is_trans, j, xn as int),
                    xs,
                    y@[stride_index(yn as int, incy as int, j)],
                ),
        decreases yn - k,
    {
        proof {
            assert(vector_fits(yn as int, old(y)@.len() as int, incy as int));
            assert(vector_fits(xn as int, x@.len() as int, incx as int));
            lemma_not_reached(old(y)@, y@, yn as int, incy as int, k as int, k as int);
        }
        let iy = element_index(yn, incy, k, y.len());
        let ghost row = op_row(a@, lda as int, is_trans, k as int, xn as int);
        let ghost init = y@[iy as int];
        let mut acc = y[iy];
        let ghost mut accs: Seq<T> = seq![acc];
        let mut l: usize = 0;
        while l < xn
            invariant
                l <= xn,
                k < yn,
                a_len == a@.len(),
                (xn as int, yn as int) == gemv_vector_lens(m as int, n as int, is_trans),
                gemv_args_ok(
                    m as int,
                    n as int,
                    lda as int,
                    a@.len() as int,
                    x@.len() as int,
                    incx as int,
                    old(y)@.len() as int,
                    incy as int,
                    is_trans,
                ),
                forall|acc: T, u: T, v: T| call_requires(f, (acc, u, v)),
                xs == strided_view(x@, xn as int, incx as int),
                row == op_row(a@, lda as int, is_trans, k as int, xn as int),
                accs.len() == l + 1,
                accs[0] == init,
                accs.last() == acc,
                forall|j: int|
                    0 <= j < l ==> call_ensures(f, (#[trigger] accs[j], row[j], xs[j]), accs[j + 1]),
            decreases xn - l,
        {
            proof {
                assert(vector_fits(xn as int, x@.len() as int, incx as int));
                if is_trans {
                    lemma_matrix_index_in_bounds(
                        m as int,
                        n as int,
                        lda as int,
                        a@.len() as int,
                        l as int,
                        k as int,
                    );
                } else {
                    lemma_matrix_index_in_bounds(
                        m as int,
                        n as int,
                        lda as int,
                        a@.len() as int,
                        k as int,
                        l as int,
                    );
                }
            }
            let ia = if is_trans {
                l + k * lda
            } else {
                k + l * lda
            };
            let ix = element_index(xn, incx, l, x.len());
            acc = f(acc, a[ia], x[ix]);
            proof {
                accs = accs.push(acc);
            }
            l += 1;
        }
        proof {
            assert(is_pair_fold_trace(f, init, row, xs, accs));
        }
        let ghost mid = y@;
        y[iy] = acc;
        proof {
            lemma_write_step(old(y)@, mid, y@, yn as int, incy as int, k as int, acc);
            assert(folds_to(f, init, row, xs, acc));
        }
        k += 1;
    }
}


/// Where element `(r, c)` of a symmetric matrix is read when only one
/// triangle of it is stored: the upper triangle (`r <= c`) when `upper`,
/// else the lower triangle (`r >= c`); an element outside the stored
/// triangle is read from its mirror image `(c, r)`.
pub open spec fn sym_index(r: int, c: int, ld: int, upper: bool) -> int {
    if (upper && r <= c) || (!upper && r >= c) {
        matrix_index(r, c, ld)
    } else {
        matrix_index(c, r, ld)
    }
}

/// Whether buffer position `p` holds an element of the stored triangle of
/// an `n` by `n` symmetric matrix.
pub open spec fn in_stored_triangle(p: int, n: int, ld: int, upper: bool) -> bool {
    exists|r: int, c: int|
        0 <= r < n && 0 <= c < n && (if upper { r <= c } else { r >= c }) && p == #[trigger]
            matrix_index(r, c, ld)
}

/// Row `k` of the symmetric matrix whose `upper` (or lower) triangle `a`
/// stores, `len` elements long.
pub open spec fn sym_row<T>(a: Seq<T>, lda: int, upper: bool, k: int, len: int) -> Seq<T> {
    Seq::new(len as nat, |l: int| a[sym_index(k, l, lda, upper)])
}

/// The matrix that `symv` reads is symmetric: element `(r, c)` and element
/// `(c, r)` are read from the same buffer position.
pub proof fn lemma_sym_index_symmetric(r: int, c: int, ld: int, upper: bool)
    ensures
        sym_index(r, c, ld, upper) == sym_index(c, r, ld, upper),
{
}

/// `symv` reads only the stored triangle: every element of the `n` by `n`
/// matrix is read from a position of the triangle that `upper` names.
pub proof fn lemma_sym_reads_stored_triangle(n: int, ld: int, upper: bool, r: int, c: int)
    requires
        0 <= r < n,
        0 <= c < n,
    ensures
        in_stored_triangle(sym_index(r, c, ld, upper), n, ld, upper),
{
    if (upper && r <= c) || (!upper && r >= c) {
        assert(matrix_index(r, c, ld) == sym_index(r, c, ld, upper));
    } else {
        assert(matrix_index(c, r, ld) == sym_index(r, c, ld, upper));
    }
}

/// What lies outside the stored triangle does not matter: two buffers that
/// agree on the stored triangle give `symv` the same rows.
pub proof fn lemma_sym_rows_ignore_other_triangle<T>(
    a: Seq<T>,
    b: Seq<T>,
    n: int,
    lda: int,
    upper: bool,
    k: int,
)
    requires
        0 <= k < n,
        a.len() == b.len(),
        forall|p: int| 0 <= p < a.len() && in_stored_triangle(p, n, lda, upper) ==> a[p] == b[p],
        n <= lda,
        a.len() >= matrix_len(n, n, lda),
    ensures
        sym_row(a, lda, upper, k, n) == sym_row(b, lda, upper, k, n),
{
    assert forall|l: int| 0 <= l < n implies sym_row(a, lda, upper, k, n)[l] == sym_row(
        b,
        lda,
        upper,
        k,
        n,
    )[l] by {
        lemma_sym_reads_stored_triangle(n, lda, upper, k, l);
        lemma_matrix_index_in_bounds(n, n, lda, a.len() as int, k, l);
        lemma_matrix_index_in_bounds(n, n, lda, a.len() as int, l, k);
    }
    assert(sym_row(a, lda, upper, k, n) =~= sym_row(b, lda, upper, k, n));
}

/// The traversal of `symv` on an `n` by `n` symmetric matrix of which only
/// the `upper` (or lower) triangle is read: each element `k` of `y` becomes
/// the fold of `f` over row `k` of the matrix paired with the elements of
/// `x`, starting from the old element `k` of `y`. With
/// `f(acc, a, x) = acc + alpha * x * a` this is `y = y + alpha * A * x`.
/// Every other position of `y`'s buffer is unchanged.
pub fn symv_accumulate<T: Copy, F: Fn(T, T, T) -> T>(
    n: usize,
    a: &[T],
    lda: usize,
    x: &[T],
    incx: i32,
    y: &mut [T],
    incy: i32,
    upper: bool,
    f: F,
)
    requires
        gemv_args_ok(
            n as int,
            n as int,
            lda as int,
            a@.len() as int,
            x@.len() as int,
            incx as int,
            old(y)@.len() as int,
            incy as int,
            false,
        ),
        forall|acc: T, u: T, v: T| call_requires(f, (acc, u, v)),
    ensures
        forall|k: int|
            0 <= k < n ==> folds_to(
                f,
                old(y)@[#[trigger] stride_index(n as int, incy as int, k)],
                sym_row(a@, lda as int, upper, k, n as int),
                strided_view(x@, n as int, incx as int),
                final(y)@[stride_index(n as int, incy as int, k)],
            ),
        untouched_outside(old(y)@, final(y)@, n as int, incy as int),
{
    let ghost xs = strided_view(x@, n as int, incx as int);
    let a_len = a.len();
    let mut k: usize = 0;
    while k < n
        invariant
            k <= n,
            a_len == a@.len(),
            gemv_args_ok(
                n as int,
                n as int,
                lda as int,
                a@.len() as int,
                x@.len() as int,
                incx as int,
                old(y)@.len() as int,
                incy as int,
                false,
            ),
            forall|acc: T, u: T, v: T| call_requires(f, (acc, u, v)),
            xs == strided_view(x@, n as int, incx as int),
            untouched_beyond(old(y)@, y@, n as int, incy as int, k as int),
            forall|j: int|
                0 <= j < k ==> folds_to(
                    f,
                    old(y)@[#[trigger] stride_index(n as int, incy as int, j)],
                    sym_row(a@, lda as int, upper, j, n as int),
                    xs,
                    y@[stride_index(n as int, incy as int, j)],
                ),
        decreases n - k,
    {
        proof {
            assert(vector_fits(n as int, old(y)@.len() as int, incy as int));
            lemma_not_reached(old(y)@, y@, n as int, incy as int, k as int, k as int);
        }
        let iy = element_index(n, incy, k, y.len());
        let ghost row = sym_row(a@, lda as int, upper, k as int, n as int);
        let ghost init = y@[iy as int];
        let mut acc = y[iy];
        let ghost mut accs: Seq<T> = seq![acc];
        let mut l: usize = 0;
        while l < n
            invariant
                l <= n,
                k < n,
                a_len == a@.len(),
                gemv_args_ok(
                    n as int,
                    n as int,
                    lda as int,
                    a@.len() as int,
                    x@.len() as int,
                    incx as int,
                    old(y)@.len() as int,
                    incy as int,
                    false,
                ),
                forall|acc: T, u: T, v: T| call_requires(f, (acc, u, v)),
                xs == strided_view(x@, n as int, incx as int),
                row == sym_row(a@, lda as int, upper, k as int, n as int),
                accs.len() == l + 1,
                accs[0] == init,
                accs.last() == acc,
                forall|j: int|
                    0 <= j < l ==> call_ensures(f, (#[trigger] accs[j], row[j], xs[j]), accs[j + 1]),
            decreases n - l,
        {
            proof {
                assert(vector_fits(n as int, x@.len() as int, incx as int));
                lemma_matrix_index_in_bounds(
                    n as int,
                    n as int,
                    lda as int,
                    a@.len() as int,
                    k as int,
                    l as int,
                );
                lemma_matrix_index_in_bounds(
                    n as int,
                    n as int,
                    lda as int,
                    a@.len() as int,
                    l as int,
                    k as int,
                );
            }
            let ia = if (upper && k <= l) || (!upper && k >= l) {
                k + l * lda
            } else {
                l + k * lda
            };
            let ix = element_index(n, incx, l, x.len());
            acc = f(acc, a[ia], x[ix]);
            proof {
                accs = accs.push(acc);
            }
            l += 1;
        }
        proof {
            assert(is_pair_fold_trace(f, init, row, xs, accs));
        }
        let ghost mid = y@;
        y[iy] = acc;
        proof {
            lemma_write_step(old(y)@, mid, y@, n as int, incy as int, k as int, acc);
            assert(folds_to(f, init, row, xs, acc));
        }
        k += 1;
    }
}

/// The vectors of `gemv` on an `m` by `n` matrix: `x` has `n` elements and
/// `y` has `m`, or the other way round when the matrix is used transposed.
pub proof fn lemma_gemv_vector_lens(m: int, n: int)
    ensures
        gemv_vector_lens(m, n, false) == (n, m),
        gemv_vector_lens(m, n, true) == (m, n),
{
}

/// Row `k` of `op(A)` element by element: element `l` is `A[k + l * lda]`,
/// or `A[l + k * lda]` when `A` is used transposed.
pub proof fn lemma_op_row_elements<T>(a: Seq<T>, lda: int, is_trans: bool, k: int, len: int, l: int)
    requires
        len >= 0,
        0 <= l < len,
    ensures
        op_row(a, lda, is_trans, k, len).len() == len,
        op_row(a, lda, is_trans, k, len)[l] == if is_trans {
            a[l + k * lda]
        } else {
            a[k + l * lda]
        },
{
}

/// Row `k` of the symmetric matrix element by element: element `l` is read
/// at `min(k, l) + max(k, l) * lda` from an upper triangle and at
/// `max(k, l) + min(k, l) * lda` from a lower one.
pub proof fn lemma_sym_row_elements<T>(a: Seq<T>, lda: int, upper: bool, k: int, len: int, l: int)
    requires
        len >= 0,
        0 <= l < len,
    ensures
        sym_row(a, lda, upper, k, len).len() == len,
        ({
            let lo = if k <= l {
                k
            } else {
                l
            };
            let hi = if k <= l {
                l
            } else {
                k
            };
            sym_row(a, lda, upper, k, len)[l] == if upper {
                a[lo + hi * lda]
            } else {
                a[hi + lo * lda]
            }
        }),
{
}

} // verus!
